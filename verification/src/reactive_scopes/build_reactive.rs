//! Convert the control-flow graph into the tree-shaped reactive IR.
//!
//! The walk starts at a block, emits its instructions and follows its
//! terminal: branches and loops become nested blocks, gotos continue the
//! walk, `Scope` terminals become scope blocks. Every block is emitted at
//! most once: a set of visited blocks, shared by the whole walk, stops the
//! walk at a block seen before (inside a loop, a jump back to the loop's
//! continue target then becomes `continue`, a jump to its exit `break`).

use vstd::prelude::*;
use rustc_hash::FxHashSet;
use crate::fxhash::{fx_set_contains, fx_set_insert};
use crate::hir::copy::copy_scope;
use crate::hir::model::{ScopeModel, scope_model};
use crate::hir::types::{
    BasicBlock, BlockId, Case, HIR, Instruction, Param, Place, ReactiveBlock, ReactiveFunction, ReactiveInstruction,
    ReactiveScope, ReactiveScopeBlock, ReactiveTerminal, ScopeId, SourceLocation, Terminal,
};

verus! {

/// The innermost enclosing loop: where `continue` and `break` go.
#[derive(Clone, Copy)]
pub struct LoopContext {
    pub continue_target: BlockId,
    pub break_target: BlockId,
}

/// The choices of a walk, recorded so that the relations below can name
/// them: the traces of the nested walks, the visited sets after each, the
/// lengths of inlined parts, and the trace of the walk that continues
/// after the terminal.
pub enum BuildTrace {
    Done,
    Step(Seq<BuildTrace>, Seq<Set<u32>>, Seq<int>, Box<BuildTrace>),
}

/// The index of the first block with id `id` at or after `k`, or -1.
pub open spec fn find_index(bs: Seq<(BlockId, BasicBlock)>, id: BlockId, k: int) -> int
    decreases bs.len() - k,
{
    if k < 0 || k >= bs.len() {
        -1
    } else if bs[k].0 == id {
        k
    } else {
        find_index(bs, id, k + 1)
    }
}

pub open spec fn as_items(q: Seq<Instruction>) -> Seq<ReactiveInstruction> {
    q.map_values(|i: Instruction| ReactiveInstruction::Instruction(i))
}

/// The scope `sid` of the first instruction at or after `j` annotated with
/// it, by model.
pub open spec fn first_scope(q: Seq<Instruction>, sid: ScopeId, j: int) -> Option<ScopeModel>
    decreases q.len() - j,
{
    if j < 0 || j >= q.len() {
        None
    } else {
        match q[j].lvalue.identifier.scope {
            Some(s) => if s.id == sid { Some(scope_model(*s)) } else { first_scope(q, sid, j + 1) },
            None => first_scope(q, sid, j + 1),
        }
    }
}

/// The scope `sid` as annotated in the first block with id `bid`.
pub open spec fn scope_in_block(bs: Seq<(BlockId, BasicBlock)>, bid: BlockId, sid: ScopeId) -> Option<ScopeModel> {
    let k = find_index(bs, bid, 0);
    if k == -1 {
        None
    } else {
        first_scope(bs[k].1.instructions@, sid, 0)
    }
}

pub open spec fn is_continue(cur: BlockId, stop: Option<BlockId>, ctx: Option<LoopContext>) -> bool {
    &&& ctx is Some
    &&& cur == ctx->Some_0.continue_target
    &&& stop is Some
}

/// `out` is what the walk from `cur` emits, stopping at a goto to `stop`,
/// inside loop `ctx`, the visited set going from `v0` to `v1`.
pub open spec fn until_rel(
    out: Seq<ReactiveInstruction>,
    bs: Seq<(BlockId, BasicBlock)>,
    cur: BlockId,
    stop: Option<BlockId>,
    ctx: Option<LoopContext>,
    v0: Set<u32>,
    v1: Set<u32>,
    t: BuildTrace,
) -> bool
    decreases t, 1int,
{
    if v0.contains(cur.0) {
        &&& v1 == v0
        &&& out == (if is_continue(cur, stop, ctx) {
            seq![ReactiveInstruction::Terminal(ReactiveTerminal::Continue { id: cur })]
        } else {
            Seq::<ReactiveInstruction>::empty()
        })
    } else {
        let va = v0.insert(cur.0);
        let k = find_index(bs, cur, 0);
        if k == -1 {
            v1 == va && out.len() == 0
        } else {
            let h = as_items(bs[k].1.instructions@);
            &&& out.len() >= h.len()
            &&& out.take(h.len() as int) == h
            &&& until_terminal(out.skip(h.len() as int), bs, cur, bs[k].1.terminal, stop, ctx, va, v1, t)
        }
    }
}

/// The case blocks of a switch, each walked in turn without a stop.
pub open spec fn cases_rel(
    nc: Seq<(Option<Place>, ReactiveBlock)>,
    cs: Seq<Case>,
    bs: Seq<(BlockId, BasicBlock)>,
    ctx: Option<LoopContext>,
    v0: Set<u32>,
    vs: Seq<Set<u32>>,
    subs: Seq<BuildTrace>,
    n: int,
) -> bool
    decreases subs, n,
{
    if n <= 0 || n > subs.len() {
        n == 0
    } else {
        &&& cases_rel(nc, cs, bs, ctx, v0, vs, subs, n - 1)
        &&& nc[n - 1].0 == cs[n - 1].test
        &&& until_rel(nc[n - 1].1.instructions@, bs, cs[n - 1].block, None, ctx, if n == 1 { v0 } else { vs[n - 2] }, vs[n - 1], subs[n - 1])
    }
}

/// The blocks of a sequence, each walked in turn up to `f` and inlined:
/// block `i` emits `out[splits[i - 1]..splits[i]]`.
pub open spec fn sequence_rel(
    out: Seq<ReactiveInstruction>,
    blocks: Seq<BlockId>,
    f: BlockId,
    bs: Seq<(BlockId, BasicBlock)>,
    ctx: Option<LoopContext>,
    v0: Set<u32>,
    vs: Seq<Set<u32>>,
    splits: Seq<int>,
    subs: Seq<BuildTrace>,
    n: int,
) -> bool
    decreases subs, n,
{
    if n <= 0 || n > subs.len() {
        n == 0
    } else {
        let lo = if n == 1 { 0 } else { splits[n - 2] };
        &&& sequence_rel(out, blocks, f, bs, ctx, v0, vs, splits, subs, n - 1)
        &&& 0 <= lo <= splits[n - 1] <= out.len()
        &&& until_rel(out.subrange(lo, splits[n - 1]), bs, blocks[n - 1], Some(f), ctx, if n == 1 { v0 } else { vs[n - 2] }, vs[n - 1], subs[n - 1])
    }
}

pub open spec fn last_or(vs: Seq<Set<u32>>, v: Set<u32>) -> Set<u32> {
    if vs.len() == 0 { v } else { vs.last() }
}

pub open spec fn last_split(splits: Seq<int>) -> int {
    if splits.len() == 0 { 0 } else { splits.last() }
}

/// The part of the walk after the instructions of block `cur`, by its
/// terminal.
pub open spec fn until_terminal(
    rest: Seq<ReactiveInstruction>,
    bs: Seq<(BlockId, BasicBlock)>,
    cur: BlockId,
    term: Terminal,
    stop: Option<BlockId>,
    ctx: Option<LoopContext>,
    va: Set<u32>,
    v1: Set<u32>,
    t: BuildTrace,
) -> bool
    decreases t, 0int,
{
    &&& t matches BuildTrace::Step(subs, vs, splits, cont)
    &&& match term {
        Terminal::Goto { block: next } => if stop == Some(next) {
            rest.len() == 0 && v1 == va
        } else if ctx is Some && next == ctx->Some_0.break_target {
            rest == seq![ReactiveInstruction::Terminal(ReactiveTerminal::Break { id: cur })] && v1 == va
        } else {
            until_rel(rest, bs, next, stop, ctx, va, v1, *cont)
        },
        Terminal::If { test, consequent, alternate, fallthrough } => {
            &&& rest.len() >= 1
            &&& subs.len() == 2 && vs.len() == 2
            &&& rest[0] matches ReactiveInstruction::Terminal(ReactiveTerminal::If { test: nt, consequent: nc, alternate: na, id })
            &&& nt == test && id == cur
            &&& until_rel(nc.instructions@, bs, consequent, Some(fallthrough), ctx, va, vs[0], subs[0])
            &&& until_rel(na.instructions@, bs, alternate, Some(fallthrough), ctx, vs[0], vs[1], subs[1])
            &&& until_rel(rest.skip(1), bs, fallthrough, stop, ctx, vs[1], v1, *cont)
        },
        Terminal::Ternary { test, consequent, alternate, fallthrough, .. } => {
            &&& rest.len() >= 1
            &&& subs.len() == 2 && vs.len() == 2
            &&& rest[0] matches ReactiveInstruction::Terminal(ReactiveTerminal::If { test: nt, consequent: nc, alternate: na, id })
            &&& nt == test && id == cur
            &&& until_rel(nc.instructions@, bs, consequent, Some(fallthrough), ctx, va, vs[0], subs[0])
            &&& until_rel(na.instructions@, bs, alternate, Some(fallthrough), ctx, vs[0], vs[1], subs[1])
            &&& until_rel(rest.skip(1), bs, fallthrough, stop, ctx, vs[1], v1, *cont)
        },
        Terminal::Return { value } => rest == seq![ReactiveInstruction::Terminal(ReactiveTerminal::Return { value, id: cur })] && v1 == va,
        Terminal::Throw { value } => rest == seq![ReactiveInstruction::Terminal(ReactiveTerminal::Throw { value, id: cur })] && v1 == va,
        Terminal::Switch { test, cases, fallthrough } => {
            &&& rest.len() >= 1
            &&& subs.len() == cases@.len() && vs.len() == cases@.len()
            &&& rest[0] matches ReactiveInstruction::Terminal(ReactiveTerminal::Switch { test: nt, cases: nc, id })
            &&& nt == test && id == cur && nc@.len() == cases@.len()
            &&& cases_rel(nc@, cases@, bs, ctx, va, vs, subs, cases@.len() as int)
            &&& until_rel(rest.skip(1), bs, fallthrough, stop, ctx, last_or(vs, va), v1, *cont)
        },
        Terminal::For { init, test, update, body, fallthrough } => {
            let bctx = Some(LoopContext {
                continue_target: match update {
                    Some(u) => u,
                    None => test,
                },
                break_target: fallthrough,
            });
            &&& rest.len() >= 1
            &&& subs.len() == 4 && vs.len() == 4
            &&& rest[0] matches ReactiveInstruction::Terminal(ReactiveTerminal::For { init: ni, test: nt, update: nu, body: nb, id })
            &&& id == cur
            &&& until_rel(ni.instructions@, bs, init, None, ctx, va, vs[0], subs[0])
            &&& until_rel(nt.instructions@, bs, test, None, ctx, vs[0], vs[1], subs[1])
            &&& match update {
                Some(u) => nu matches Some(nub) && until_rel(nub.instructions@, bs, u, None, bctx, vs[1], vs[2], subs[2]),
                None => nu is None && vs[2] == vs[1],
            }
            &&& until_rel(nb.instructions@, bs, body, None, bctx, vs[2], vs[3], subs[3])
            &&& until_rel(rest.skip(1), bs, fallthrough, stop, ctx, vs[3], v1, *cont)
        },
        Terminal::While { test, body, fallthrough } => {
            let bctx = Some(LoopContext { continue_target: test, break_target: fallthrough });
            &&& rest.len() >= 1
            &&& subs.len() == 2 && vs.len() == 2
            &&& rest[0] matches ReactiveInstruction::Terminal(ReactiveTerminal::While { test: nt, body: nb, id })
            &&& id == cur
            &&& until_rel(nt.instructions@, bs, test, None, ctx, va, vs[0], subs[0])
            &&& until_rel(nb.instructions@, bs, body, None, bctx, vs[0], vs[1], subs[1])
            &&& until_rel(rest.skip(1), bs, fallthrough, stop, ctx, vs[1], v1, *cont)
        },
        Terminal::DoWhile { body, test, fallthrough } => {
            let bctx = Some(LoopContext { continue_target: test, break_target: fallthrough });
            &&& rest.len() >= 1
            &&& subs.len() == 2 && vs.len() == 2
            &&& rest[0] matches ReactiveInstruction::Terminal(ReactiveTerminal::DoWhile { body: nb, test: nt, id })
            &&& id == cur
            &&& until_rel(nb.instructions@, bs, body, None, bctx, va, vs[0], subs[0])
            &&& until_rel(nt.instructions@, bs, test, None, bctx, vs[0], vs[1], subs[1])
            &&& until_rel(rest.skip(1), bs, fallthrough, stop, ctx, vs[1], v1, *cont)
        },
        Terminal::ForOf { init, test, body, fallthrough } => {
            let bctx = Some(LoopContext { continue_target: init, break_target: fallthrough });
            &&& rest.len() >= 1
            &&& subs.len() == 3 && vs.len() == 3
            &&& rest[0] matches ReactiveInstruction::Terminal(ReactiveTerminal::ForOf { init: ni, test: nt, body: nb, id })
            &&& id == cur
            &&& until_rel(ni.instructions@, bs, init, Some(test), ctx, va, vs[0], subs[0])
            &&& until_rel(nt.instructions@, bs, test, Some(body), ctx, vs[0], vs[1], subs[1])
            &&& until_rel(nb.instructions@, bs, body, None, bctx, vs[1], vs[2], subs[2])
            &&& until_rel(rest.skip(1), bs, fallthrough, stop, ctx, vs[2], v1, *cont)
        },
        Terminal::ForIn { init, test, body, fallthrough } => {
            let bctx = Some(LoopContext { continue_target: init, break_target: fallthrough });
            &&& rest.len() >= 1
            &&& subs.len() == 3 && vs.len() == 3
            &&& rest[0] matches ReactiveInstruction::Terminal(ReactiveTerminal::ForIn { init: ni, test: nt, body: nb, id })
            &&& id == cur
            &&& until_rel(ni.instructions@, bs, init, Some(test), ctx, va, vs[0], subs[0])
            &&& until_rel(nt.instructions@, bs, test, Some(body), ctx, vs[0], vs[1], subs[1])
            &&& until_rel(nb.instructions@, bs, body, None, bctx, vs[1], vs[2], subs[2])
            &&& until_rel(rest.skip(1), bs, fallthrough, stop, ctx, vs[2], v1, *cont)
        },
        Terminal::Try { block, handler, fallthrough } => {
            &&& rest.len() >= 1
            &&& subs.len() == 2 && vs.len() == 2
            &&& rest[0] matches ReactiveInstruction::Terminal(ReactiveTerminal::Try { block: nb, handler: nh, id })
            &&& id == cur
            &&& until_rel(nb.instructions@, bs, block, None, ctx, va, vs[0], subs[0])
            &&& until_rel(nh.instructions@, bs, handler, None, ctx, vs[0], vs[1], subs[1])
            &&& until_rel(rest.skip(1), bs, fallthrough, stop, ctx, vs[1], v1, *cont)
        },
        Terminal::Label { block, fallthrough, label } => {
            &&& rest.len() >= 1
            &&& subs.len() == 1 && vs.len() == 1
            &&& rest[0] matches ReactiveInstruction::Terminal(ReactiveTerminal::Label { block: nb, id, label: nl })
            &&& id == cur && nl == label
            &&& until_rel(nb.instructions@, bs, block, None, ctx, va, vs[0], subs[0])
            &&& until_rel(rest.skip(1), bs, fallthrough, stop, ctx, vs[0], v1, *cont)
        },
        Terminal::Scope { scope, block, fallthrough } => {
            &&& subs.len() == 1 && vs.len() == 1 && splits.len() == 1
            &&& match scope_in_block(bs, block, scope) {
                Some(m) => {
                    &&& splits[0] == 1
                    &&& rest.len() >= 1
                    &&& rest[0] matches ReactiveInstruction::Scope(sb)
                    &&& scope_model(sb.scope) == m
                    &&& scope_rel(sb.instructions.instructions@, bs, block, Some(fallthrough), ctx, va, vs[0], subs[0])
                },
                None => {
                    &&& 0 <= splits[0] <= rest.len()
                    &&& scope_rel(rest.take(splits[0]), bs, block, Some(fallthrough), ctx, va, vs[0], subs[0])
                },
            }
            &&& until_rel(rest.skip(splits[0]), bs, fallthrough, stop, ctx, vs[0], v1, *cont)
        },
        Terminal::PrunedScope { fallthrough, .. } => until_rel(rest, bs, fallthrough, stop, ctx, va, v1, *cont),
        Terminal::Logical { operator, right, fallthrough, result, .. } => {
            &&& rest.len() >= 1
            &&& subs.len() == 1 && vs.len() == 1
            &&& rest[0] matches ReactiveInstruction::Terminal(ReactiveTerminal::Logical { operator: no, right: nr, result: nres, id })
            &&& no == operator && nres == result && id == cur
            &&& until_rel(nr.instructions@, bs, right, Some(fallthrough), ctx, va, vs[0], subs[0])
            &&& until_rel(rest.skip(1), bs, fallthrough, stop, ctx, vs[0], v1, *cont)
        },
        Terminal::Optional { consequent, fallthrough, .. } => {
            &&& subs.len() == 1 && vs.len() == 1 && splits.len() == 1
            &&& 0 <= splits[0] <= rest.len()
            &&& until_rel(rest.take(splits[0]), bs, consequent, Some(fallthrough), ctx, va, vs[0], subs[0])
            &&& until_rel(rest.skip(splits[0]), bs, fallthrough, stop, ctx, vs[0], v1, *cont)
        },
        Terminal::Sequence { blocks, fallthrough } => {
            &&& subs.len() == blocks@.len() && vs.len() == blocks@.len() && splits.len() == blocks@.len()
            &&& 0 <= last_split(splits) <= rest.len()
            &&& sequence_rel(rest, blocks@, fallthrough, bs, ctx, va, vs, splits, subs, blocks@.len() as int)
            &&& until_rel(rest.skip(last_split(splits)), bs, fallthrough, stop, ctx, last_or(vs, va), v1, *cont)
        },
        Terminal::Branch { test, consequent, alternate } => {
            &&& rest.len() == 1
            &&& subs.len() == 2 && vs.len() == 2
            &&& rest[0] matches ReactiveInstruction::Terminal(ReactiveTerminal::If { test: nt, consequent: nc, alternate: na, id })
            &&& nt == test && id == cur
            &&& until_rel(nc.instructions@, bs, consequent, None, ctx, va, vs[0], subs[0])
            &&& until_rel(na.instructions@, bs, alternate, None, ctx, vs[0], vs[1], subs[1])
            &&& v1 == vs[1]
        },
        Terminal::MaybeThrow { continuation, .. } => until_rel(rest, bs, continuation, stop, ctx, va, v1, *cont),
        Terminal::Unreachable => rest.len() == 0 && v1 == va,
    }
}

/// `out` is what the walk of the blocks of a scope from `bid` emits: it
/// stops at the scope's fallthrough `sf` (without marking it visited) and
/// at any exit.
pub open spec fn scope_rel(
    out: Seq<ReactiveInstruction>,
    bs: Seq<(BlockId, BasicBlock)>,
    bid: BlockId,
    sf: Option<BlockId>,
    ctx: Option<LoopContext>,
    v0: Set<u32>,
    v1: Set<u32>,
    t: BuildTrace,
) -> bool
    decreases t, 1int,
{
    if v0.contains(bid.0) || sf == Some(bid) {
        out.len() == 0 && v1 == v0
    } else {
        let va = v0.insert(bid.0);
        let k = find_index(bs, bid, 0);
        if k == -1 {
            v1 == va && out.len() == 0
        } else {
            let h = as_items(bs[k].1.instructions@);
            &&& out.len() >= h.len()
            &&& out.take(h.len() as int) == h
            &&& scope_terminal(out.skip(h.len() as int), bs, bid, bs[k].1.terminal, sf, ctx, va, v1, t)
        }
    }
}

pub open spec fn scope_terminal(
    rest: Seq<ReactiveInstruction>,
    bs: Seq<(BlockId, BasicBlock)>,
    bid: BlockId,
    term: Terminal,
    sf: Option<BlockId>,
    ctx: Option<LoopContext>,
    va: Set<u32>,
    v1: Set<u32>,
    t: BuildTrace,
) -> bool
    decreases t, 0int,
{
    &&& t matches BuildTrace::Step(subs, vs, splits, cont)
    &&& match term {
        Terminal::Goto { block: next } => if sf != Some(next) {
            scope_rel(rest, bs, next, sf, ctx, va, v1, *cont)
        } else {
            rest.len() == 0 && v1 == va
        },
        Terminal::If { test, consequent, alternate, fallthrough } => {
            &&& rest.len() >= 1
            &&& subs.len() == 2 && vs.len() == 2
            &&& rest[0] matches ReactiveInstruction::Terminal(ReactiveTerminal::If { test: nt, consequent: nc, alternate: na, id })
            &&& nt == test && id == bid
            &&& until_rel(nc.instructions@, bs, consequent, Some(fallthrough), ctx, va, vs[0], subs[0])
            &&& until_rel(na.instructions@, bs, alternate, Some(fallthrough), ctx, vs[0], vs[1], subs[1])
            &&& scope_rel(rest.skip(1), bs, fallthrough, sf, ctx, vs[1], v1, *cont)
        },
        Terminal::Ternary { test, consequent, alternate, fallthrough, .. } => {
            &&& rest.len() >= 1
            &&& subs.len() == 2 && vs.len() == 2
            &&& rest[0] matches ReactiveInstruction::Terminal(ReactiveTerminal::If { test: nt, consequent: nc, alternate: na, id })
            &&& nt == test && id == bid
            &&& until_rel(nc.instructions@, bs, consequent, Some(fallthrough), ctx, va, vs[0], subs[0])
            &&& until_rel(na.instructions@, bs, alternate, Some(fallthrough), ctx, vs[0], vs[1], subs[1])
            &&& scope_rel(rest.skip(1), bs, fallthrough, sf, ctx, vs[1], v1, *cont)
        },
        Terminal::Return { value } => rest == seq![ReactiveInstruction::Terminal(ReactiveTerminal::Return { value, id: bid })] && v1 == va,
        Terminal::Throw { value } => rest == seq![ReactiveInstruction::Terminal(ReactiveTerminal::Throw { value, id: bid })] && v1 == va,
        Terminal::Scope { scope, block, fallthrough } => {
            &&& subs.len() == 1 && vs.len() == 1 && splits.len() == 1
            &&& match scope_in_block(bs, block, scope) {
                Some(m) => {
                    &&& splits[0] == 1
                    &&& rest.len() >= 1
                    &&& rest[0] matches ReactiveInstruction::Scope(sb)
                    &&& scope_model(sb.scope) == m
                    &&& scope_rel(sb.instructions.instructions@, bs, block, Some(fallthrough), ctx, va, vs[0], subs[0])
                },
                None => {
                    &&& 0 <= splits[0] <= rest.len()
                    &&& scope_rel(rest.take(splits[0]), bs, block, Some(fallthrough), ctx, va, vs[0], subs[0])
                },
            }
            &&& scope_rel(rest.skip(splits[0]), bs, fallthrough, sf, ctx, vs[0], v1, *cont)
        },
        Terminal::Logical { operator, right, fallthrough, result, .. } => {
            &&& rest.len() >= 1
            &&& subs.len() == 1 && vs.len() == 1
            &&& rest[0] matches ReactiveInstruction::Terminal(ReactiveTerminal::Logical { operator: no, right: nr, result: nres, id })
            &&& no == operator && nres == result && id == bid
            &&& until_rel(nr.instructions@, bs, right, Some(fallthrough), ctx, va, vs[0], subs[0])
            &&& scope_rel(rest.skip(1), bs, fallthrough, sf, ctx, vs[0], v1, *cont)
        },
        Terminal::Optional { consequent, fallthrough, .. } => {
            &&& subs.len() == 1 && vs.len() == 1 && splits.len() == 1
            &&& 0 <= splits[0] <= rest.len()
            &&& until_rel(rest.take(splits[0]), bs, consequent, Some(fallthrough), ctx, va, vs[0], subs[0])
            &&& scope_rel(rest.skip(splits[0]), bs, fallthrough, sf, ctx, vs[0], v1, *cont)
        },
        Terminal::Sequence { blocks, fallthrough } => {
            &&& subs.len() == blocks@.len() && vs.len() == blocks@.len() && splits.len() == blocks@.len()
            &&& 0 <= last_split(splits) <= rest.len()
            &&& sequence_rel(rest, blocks@, fallthrough, bs, ctx, va, vs, splits, subs, blocks@.len() as int)
            &&& scope_rel(rest.skip(last_split(splits)), bs, fallthrough, sf, ctx, last_or(vs, va), v1, *cont)
        },
        Terminal::MaybeThrow { continuation, .. } => scope_rel(rest, bs, continuation, sf, ctx, va, v1, *cont),
        Terminal::Switch { test, cases, fallthrough } => {
            &&& rest.len() >= 1
            &&& subs.len() == cases@.len() && vs.len() == cases@.len()
            &&& rest[0] matches ReactiveInstruction::Terminal(ReactiveTerminal::Switch { test: nt, cases: nc, id })
            &&& nt == test && id == bid && nc@.len() == cases@.len()
            &&& cases_rel(nc@, cases@, bs, ctx, va, vs, subs, cases@.len() as int)
            &&& scope_rel(rest.skip(1), bs, fallthrough, sf, ctx, last_or(vs, va), v1, *cont)
        },
        Terminal::Branch { test, consequent, alternate } => {
            &&& rest.len() == 1
            &&& subs.len() == 2 && vs.len() == 2
            &&& rest[0] matches ReactiveInstruction::Terminal(ReactiveTerminal::If { test: nt, consequent: nc, alternate: na, id })
            &&& nt == test && id == bid
            &&& until_rel(nc.instructions@, bs, consequent, None, ctx, va, vs[0], subs[0])
            &&& until_rel(na.instructions@, bs, alternate, None, ctx, vs[0], vs[1], subs[1])
            &&& v1 == vs[1]
        },
        Terminal::PrunedScope { fallthrough, .. } => scope_rel(rest, bs, fallthrough, sf, ctx, va, v1, *cont),
        _ => rest.len() == 0 && v1 == va,
    }
}


// ---------------------------------------------------------------------------
// The walk
// ---------------------------------------------------------------------------

/// The blocks of the graph, taken apart: their ids, their instructions and
/// terminals (taken out when a block is emitted), a copy of the scope of
/// each instruction result, and the visited blocks.
pub struct Builder {
    pub ids: Vec<BlockId>,
    pub store: Vec<Vec<Instruction>>,
    pub terms: Vec<Terminal>,
    pub table: Vec<Vec<Option<ReactiveScope>>>,
    pub visited: FxHashSet<u32>,
}

/// Block `k` has not been emitted: its id is not visited, or it is not the
/// first block with its id.
pub open spec fn untouched(bs: Seq<(BlockId, BasicBlock)>, v: Set<u32>, k: int) -> bool {
    !v.contains(bs[k].0.0) || find_index(bs, bs[k].0, 0) != k
}

pub open spec fn table_entry(e: Option<ReactiveScope>, i: Instruction) -> bool {
    match i.lvalue.identifier.scope {
        Some(s) => e is Some && e->Some_0.id == s.id && scope_model(e->Some_0) == scope_model(*s),
        None => e is None,
    }
}

pub open spec fn builder_ok(b: Builder, bs: Seq<(BlockId, BasicBlock)>) -> bool {
    &&& b.ids@.len() == bs.len()
    &&& b.store@.len() == bs.len()
    &&& b.terms@.len() == bs.len()
    &&& b.table@.len() == bs.len()
    &&& forall|k: int| 0 <= k < bs.len() ==> (#[trigger] b.ids@[k]) == bs[k].0
    &&& forall|k: int| 0 <= k < bs.len() ==> (#[trigger] b.table@[k])@.len() == bs[k].1.instructions@.len()
    &&& forall|k: int, j: int| 0 <= k < bs.len() && 0 <= j < bs[k].1.instructions@.len() ==> table_entry(#[trigger] b.table@[k]@[j], bs[k].1.instructions@[j])
    &&& forall|k: int| 0 <= k < bs.len() && untouched(bs, b.visited@, k) ==> (#[trigger] b.store@[k])@ == bs[k].1.instructions@ && b.terms@[k] == bs[k].1.terminal
}

/// The number of blocks whose id is not visited.
pub open spec fn count_unvisited(ids: Seq<BlockId>, v: Set<u32>) -> nat
    decreases ids.len(),
{
    if ids.len() == 0 {
        0
    } else {
        count_unvisited(ids.drop_last(), v) + if v.contains(ids.last().0) { 0nat } else { 1nat }
    }
}

proof fn lemma_count_unvisited_mono(ids: Seq<BlockId>, v1: Set<u32>, v2: Set<u32>)
    requires
        v1.subset_of(v2),
    ensures
        count_unvisited(ids, v2) <= count_unvisited(ids, v1),
    decreases ids.len(),
{
    if ids.len() > 0 {
        lemma_count_unvisited_mono(ids.drop_last(), v1, v2);
    }
}

proof fn lemma_count_unvisited_insert(ids: Seq<BlockId>, v: Set<u32>, k: int)
    requires
        0 <= k < ids.len(),
        !v.contains(ids[k].0),
    ensures
        count_unvisited(ids, v.insert(ids[k].0)) < count_unvisited(ids, v),
    decreases ids.len(),
{
    lemma_count_unvisited_mono(ids.drop_last(), v, v.insert(ids[k].0));
    if k < ids.len() - 1 {
        assert(ids.drop_last()[k] == ids[k]);
        lemma_count_unvisited_insert(ids.drop_last(), v, k);
    }
}

proof fn lemma_find_index(bs: Seq<(BlockId, BasicBlock)>, id: BlockId, k: int)
    requires
        0 <= k <= bs.len(),
    ensures
        find_index(bs, id, k) == -1 || (k <= find_index(bs, id, k) < bs.len() && bs[find_index(bs, id, k)].0 == id),
        forall|j: int| k <= j < bs.len() && (find_index(bs, id, k) == -1 || j < find_index(bs, id, k)) ==> (#[trigger] bs[j]).0 != id,
    decreases bs.len() - k,
{
    if k < bs.len() && bs[k].0 != id {
        lemma_find_index(bs, id, k + 1);
    }
}

/// The first block with id `id` (`Iterator::find`).
fn find_block(b: &Builder, id: BlockId, Ghost(bs): Ghost<Seq<(BlockId, BasicBlock)>>) -> (r: Option<usize>)
    requires
        builder_ok(*b, bs),
    ensures
        match r {
            Some(k) => k as int == find_index(bs, id, 0) && k < bs.len() && bs[k as int].0 == id,
            None => find_index(bs, id, 0) == -1,
        },
{
    proof {
        lemma_find_index(bs, id, 0);
    }
    let mut k: usize = 0;
    while k < b.ids.len()
        invariant
            builder_ok(*b, bs),
            k <= bs.len(),
            find_index(bs, id, 0) == find_index(bs, id, k as int),
            find_index(bs, id, 0) == -1 || (0 <= find_index(bs, id, 0) < bs.len() && bs[find_index(bs, id, 0)].0 == id),
        decreases b.ids.len() - k,
    {
        if b.ids[k] == id {
            return Some(k);
        }
        k = k + 1;
    }
    None
}

/// The scope `sid` as annotated in block `k`, copied.
fn lookup_scope(b: &Builder, k: usize, sid: ScopeId, Ghost(bs): Ghost<Seq<(BlockId, BasicBlock)>>) -> (r: Option<ReactiveScope>)
    requires
        builder_ok(*b, bs),
        k < bs.len(),
    ensures
        match r {
            Some(s) => first_scope(bs[k as int].1.instructions@, sid, 0) == Some(scope_model(s)),
            None => first_scope(bs[k as int].1.instructions@, sid, 0) is None,
        },
{
    let ghost q = bs[k as int].1.instructions@;
    let row = &b.table[k];
    let mut j: usize = 0;
    while j < row.len()
        invariant
            builder_ok(*b, bs),
            k < bs.len(),
            *row == b.table@[k as int],
            row@.len() == q.len(),
            q == bs[k as int].1.instructions@,
            j <= q.len(),
            first_scope(q, sid, 0) == first_scope(q, sid, j as int),
        decreases row.len() - j,
    {
        proof {
            assert(table_entry(b.table@[k as int]@[j as int], q[j as int]));
        }
        match &row[j] {
            Some(s) => {
                if s.id == sid {
                    return Some(copy_scope(s));
                }
            },
            None => {},
        }
        j = j + 1;
    }
    None
}

/// Wrap instructions as items of a reactive block.
fn as_item_vec(q: Vec<Instruction>) -> (r: Vec<ReactiveInstruction>)
    ensures
        r@ == as_items(q@),
{
    let ghost o = q@;
    let mut rest = q;
    let mut out: Vec<ReactiveInstruction> = Vec::new();
    let ghost mut k: int = 0;
    proof {
        assert(o.skip(0) =~= o);
    }
    while rest.len() > 0
        invariant
            0 <= k <= o.len(),
            rest@ == o.skip(k),
            out@ == as_items(o.take(k)),
        decreases rest.len(),
    {
        let x = rest.remove(0);
        proof {
            assert(o.skip(k)[0] == o[k]);
        }
        out.push(ReactiveInstruction::Instruction(x));
        proof {
            assert(as_items(o.take(k + 1)) =~= as_items(o.take(k)).push(ReactiveInstruction::Instruction(o[k])));
            k = k + 1;
            assert(rest@ =~= o.skip(k));
        }
    }
    proof {
        assert(o.take(k) =~= o);
    }
    out
}

/// Take out the instructions and terminal of block `k` and mark `id` (its
/// id) visited.
fn take_block(b: &mut Builder, k: usize, id: BlockId, Ghost(bs): Ghost<Seq<(BlockId, BasicBlock)>>) -> (r: (Vec<ReactiveInstruction>, Terminal))
    requires
        builder_ok(*old(b), bs),
        k < bs.len(),
        k as int == find_index(bs, id, 0),
        !old(b).visited@.contains(id.0),
    ensures
        builder_ok(*final(b), bs),
        final(b).visited@ == old(b).visited@.insert(id.0),
        r.0@ == as_items(bs[k as int].1.instructions@),
        r.1 == bs[k as int].1.terminal,
        count_unvisited(final(b).ids@, final(b).visited@) < count_unvisited(old(b).ids@, old(b).visited@),
        final(b).ids@ == old(b).ids@,
{
    proof {
        lemma_find_index(bs, id, 0);
        assert(untouched(bs, b.visited@, k as int));
    }
    let ghost st0 = b.store@;
    let ghost tm0 = b.terms@;
    let mut instrs: Vec<Instruction> = Vec::new();
    std::mem::swap(&mut instrs, &mut b.store[k]);
    let mut term = Terminal::Unreachable;
    std::mem::swap(&mut term, &mut b.terms[k]);
    let ghost v0 = b.visited@;
    fx_set_insert(&mut b.visited, id.0);
    proof {
        assert(b.ids@[k as int] == id);
        lemma_count_unvisited_insert(b.ids@, v0, k as int);
        assert forall|j: int| 0 <= j < bs.len() && untouched(bs, b.visited@, j) implies (#[trigger] b.store@[j])@ == bs[j].1.instructions@ && b.terms@[j] == bs[j].1.terminal by {
            if j == k {
                assert(bs[j].0 == id);
                assert(b.visited@.contains(bs[j].0.0));
                assert(!untouched(bs, b.visited@, j));
            } else {
                assert(untouched(bs, v0, j));
                assert(b.store@[j] == st0[j]);
                assert(b.terms@[j] == tm0[j]);
            }
        }
    }
    (as_item_vec(instrs), term)
}


proof fn lemma_cases_frame(
    nc1: Seq<(Option<Place>, ReactiveBlock)>,
    nc2: Seq<(Option<Place>, ReactiveBlock)>,
    cs: Seq<Case>,
    bs: Seq<(BlockId, BasicBlock)>,
    ctx: Option<LoopContext>,
    v0: Set<u32>,
    vs1: Seq<Set<u32>>,
    vs2: Seq<Set<u32>>,
    subs1: Seq<BuildTrace>,
    subs2: Seq<BuildTrace>,
    n: int,
)
    requires
        0 <= n <= subs1.len(),
        n <= subs2.len(),
        n <= nc1.len(),
        n <= nc2.len(),
        n <= vs1.len(),
        n <= vs2.len(),
        forall|i: int| 0 <= i < n ==> nc1[i] == nc2[i] && vs1[i] == vs2[i] && subs1[i] == subs2[i],
        cases_rel(nc1, cs, bs, ctx, v0, vs1, subs1, n),
    ensures
        cases_rel(nc2, cs, bs, ctx, v0, vs2, subs2, n),
    decreases n,
{
    if n > 0 {
        lemma_cases_frame(nc1, nc2, cs, bs, ctx, v0, vs1, vs2, subs1, subs2, n - 1);
    }
}

proof fn lemma_sequence_frame(
    out1: Seq<ReactiveInstruction>,
    out2: Seq<ReactiveInstruction>,
    blocks: Seq<BlockId>,
    f: BlockId,
    bs: Seq<(BlockId, BasicBlock)>,
    ctx: Option<LoopContext>,
    v0: Set<u32>,
    vs1: Seq<Set<u32>>,
    vs2: Seq<Set<u32>>,
    splits1: Seq<int>,
    splits2: Seq<int>,
    subs1: Seq<BuildTrace>,
    subs2: Seq<BuildTrace>,
    n: int,
)
    requires
        0 <= n <= subs1.len(),
        n <= subs2.len(),
        n <= vs1.len(),
        n <= vs2.len(),
        n <= splits1.len(),
        n <= splits2.len(),
        out1.len() <= out2.len(),
        out2.take(out1.len() as int) == out1,
        forall|i: int| 0 <= i < n ==> vs1[i] == vs2[i] && subs1[i] == subs2[i] && splits1[i] == splits2[i],
        sequence_rel(out1, blocks, f, bs, ctx, v0, vs1, splits1, subs1, n),
    ensures
        sequence_rel(out2, blocks, f, bs, ctx, v0, vs2, splits2, subs2, n),
    decreases n,
{
    if n > 0 {
        lemma_sequence_frame(out1, out2, blocks, f, bs, ctx, v0, vs1, vs2, splits1, splits2, subs1, subs2, n - 1);
        let lo = if n == 1 { 0 } else { splits1[n - 2] };
        assert(out1.subrange(lo, splits1[n - 1]) =~= out2.subrange(lo, splits2[n - 1]));
    }
}

/// Walk from `cur`: emit its instructions, then follow its terminal.
fn build_until(
    b: &mut Builder,
    cur: BlockId,
    stop: Option<BlockId>,
    ctx: Option<LoopContext>,
    Ghost(bs): Ghost<Seq<(BlockId, BasicBlock)>>,
) -> (r: (Vec<ReactiveInstruction>, Ghost<BuildTrace>))
    requires
        builder_ok(*old(b), bs),
    ensures
        builder_ok(*final(b), bs),
        final(b).ids@ == old(b).ids@,
        old(b).visited@.subset_of(final(b).visited@),
        until_rel(r.0@, bs, cur, stop, ctx, old(b).visited@, final(b).visited@, r.1@),
    decreases count_unvisited(old(b).ids@, old(b).visited@), 0int,
{
    if fx_set_contains(&b.visited, cur.0) {
        let mut out: Vec<ReactiveInstruction> = Vec::new();
        let is_cont = match ctx {
            Some(c) => c.continue_target == cur && stop.is_some(),
            None => false,
        };
        if is_cont {
            out.push(ReactiveInstruction::Terminal(ReactiveTerminal::Continue { id: cur }));
        }
        proof {
            assert(out@ =~= (if is_continue(cur, stop, ctx) {
                seq![ReactiveInstruction::Terminal(ReactiveTerminal::Continue { id: cur })]
            } else {
                Seq::<ReactiveInstruction>::empty()
            }));
        }
        return (out, Ghost(BuildTrace::Done));
    }
    let k = match find_block(b, cur, Ghost(bs)) {
        Some(k) => k,
        None => {
            let ghost v0 = b.visited@;
            fx_set_insert(&mut b.visited, cur.0);
            proof {
                lemma_find_index(bs, cur, 0);
                assert forall|j: int| 0 <= j < bs.len() && untouched(bs, b.visited@, j) implies (#[trigger] b.store@[j])@ == bs[j].1.instructions@ && b.terms@[j] == bs[j].1.terminal by {
                    assert(untouched(bs, v0, j));
                }
            }
            return (Vec::new(), Ghost(BuildTrace::Done));
        },
    };
    let (mut out, term) = take_block(b, k, cur, Ghost(bs));
    let ghost h = out@;
    let (mut rest, t) = until_terminal_exec(b, cur, term, stop, ctx, Ghost(bs));
    let ghost rv = rest@;
    out.append(&mut rest);
    proof {
        assert(out@.take(h.len() as int) =~= h);
        assert(out@.skip(h.len() as int) =~= rv);
        lemma_find_index(bs, cur, 0);
    }
    (out, t)
}

/// The rest of a walk, after the instructions of block `cur`.
#[verifier::rlimit(100)]
#[verifier::spinoff_prover]
fn until_terminal_exec(
    b: &mut Builder,
    cur: BlockId,
    term: Terminal,
    stop: Option<BlockId>,
    ctx: Option<LoopContext>,
    Ghost(bs): Ghost<Seq<(BlockId, BasicBlock)>>,
) -> (r: (Vec<ReactiveInstruction>, Ghost<BuildTrace>))
    requires
        builder_ok(*old(b), bs),
    ensures
        builder_ok(*final(b), bs),
        final(b).ids@ == old(b).ids@,
        old(b).visited@.subset_of(final(b).visited@),
        until_terminal(r.0@, bs, cur, term, stop, ctx, old(b).visited@, final(b).visited@, r.1@),
    decreases count_unvisited(old(b).ids@, old(b).visited@), 2int,
{
    let ghost tm = term;
    let ghost va = b.visited@;
    let ghost ids = b.ids@;
    match term {
        Terminal::Goto { block: next } => {
            if stop == Some(next) {
                return (Vec::new(), Ghost(BuildTrace::Step(Seq::empty(), Seq::empty(), Seq::empty(), Box::new(BuildTrace::Done))));
            }
            let is_break = match ctx {
                Some(c) => next == c.break_target,
                None => false,
            };
            if is_break {
                let out = vec![ReactiveInstruction::Terminal(ReactiveTerminal::Break { id: cur })];
                proof { assert(out@ =~= seq![ReactiveInstruction::Terminal(ReactiveTerminal::Break { id: cur })]); }
                return (out, Ghost(BuildTrace::Step(Seq::empty(), Seq::empty(), Seq::empty(), Box::new(BuildTrace::Done))));
            }
            let (out, t) = build_until(b, next, stop, ctx, Ghost(bs));
            (out, Ghost(BuildTrace::Step(Seq::empty(), Seq::empty(), Seq::empty(), Box::new(t@))))
        },
        Terminal::If { test, consequent, alternate, fallthrough } => {
            let (c0, t0) = build_until(b, consequent, Some(fallthrough), ctx, Ghost(bs));
            let ghost v0 = b.visited@;
            proof { lemma_count_unvisited_mono(ids, va, v0); }
            let (a0, t1) = build_until(b, alternate, Some(fallthrough), ctx, Ghost(bs));
            let ghost v1 = b.visited@;
            proof { lemma_count_unvisited_mono(ids, va, v1); }
            let (mut c, tc) = build_until(b, fallthrough, stop, ctx, Ghost(bs));
            let mut out = vec![ReactiveInstruction::Terminal(ReactiveTerminal::If {
                test,
                consequent: ReactiveBlock { instructions: c0 },
                alternate: ReactiveBlock { instructions: a0 },
                id: cur,
            })];
            let ghost cv = c@;
            out.append(&mut c);
            proof { assert(out@.skip(1) =~= cv); }
            (out, Ghost(BuildTrace::Step(seq![t0@, t1@], seq![v0, v1], Seq::empty(), Box::new(tc@))))
        },
        Terminal::Ternary { test, consequent, alternate, fallthrough, .. } => {
            let (c0, t0) = build_until(b, consequent, Some(fallthrough), ctx, Ghost(bs));
            let ghost v0 = b.visited@;
            proof { lemma_count_unvisited_mono(ids, va, v0); }
            let (a0, t1) = build_until(b, alternate, Some(fallthrough), ctx, Ghost(bs));
            let ghost v1 = b.visited@;
            proof { lemma_count_unvisited_mono(ids, va, v1); }
            let (mut c, tc) = build_until(b, fallthrough, stop, ctx, Ghost(bs));
            let mut out = vec![ReactiveInstruction::Terminal(ReactiveTerminal::If {
                test,
                consequent: ReactiveBlock { instructions: c0 },
                alternate: ReactiveBlock { instructions: a0 },
                id: cur,
            })];
            let ghost cv = c@;
            out.append(&mut c);
            proof { assert(out@.skip(1) =~= cv); }
            (out, Ghost(BuildTrace::Step(seq![t0@, t1@], seq![v0, v1], Seq::empty(), Box::new(tc@))))
        },
        Terminal::Return { value } => {
            let out = vec![ReactiveInstruction::Terminal(ReactiveTerminal::Return { value, id: cur })];
            proof { assert(out@ =~= seq![ReactiveInstruction::Terminal(ReactiveTerminal::Return { value, id: cur })]); }
            (out, Ghost(BuildTrace::Step(Seq::empty(), Seq::empty(), Seq::empty(), Box::new(BuildTrace::Done))))
        },
        Terminal::Throw { value } => {
            let out = vec![ReactiveInstruction::Terminal(ReactiveTerminal::Throw { value, id: cur })];
            proof { assert(out@ =~= seq![ReactiveInstruction::Terminal(ReactiveTerminal::Throw { value, id: cur })]); }
            (out, Ghost(BuildTrace::Step(Seq::empty(), Seq::empty(), Seq::empty(), Box::new(BuildTrace::Done))))
        },
        Terminal::Switch { test, cases, fallthrough } => {
            let ghost cs = cases@;
            let (nc, vs, subs) = walk_cases(b, cases, ctx, Ghost(bs));
            let ghost vl = b.visited@;
            proof { lemma_count_unvisited_mono(ids, va, vl); }
            let (mut c, tc) = build_until(b, fallthrough, stop, ctx, Ghost(bs));
            let mut out = vec![ReactiveInstruction::Terminal(ReactiveTerminal::Switch { test, cases: nc, id: cur })];
            let ghost cv = c@;
            out.append(&mut c);
            proof { assert(out@.skip(1) =~= cv); }
            (out, Ghost(BuildTrace::Step(subs@, vs@, Seq::empty(), Box::new(tc@))))
        },
        Terminal::For { init, test, update, body, fallthrough } => {
            let bctx = Some(LoopContext {
                continue_target: match update {
                    Some(u) => u,
                    None => test,
                },
                break_target: fallthrough,
            });
            let (i0, t0) = build_until(b, init, None, ctx, Ghost(bs));
            let ghost v0 = b.visited@;
            proof { lemma_count_unvisited_mono(ids, va, v0); }
            let (te0, t1) = build_until(b, test, None, ctx, Ghost(bs));
            let ghost v1 = b.visited@;
            proof { lemma_count_unvisited_mono(ids, va, v1); }
            let ghost mut t2: BuildTrace = BuildTrace::Done;
            let nu = match update {
                Some(u) => {
                    let (u0, tu) = build_until(b, u, None, bctx, Ghost(bs));
                    proof { t2 = tu@; }
                    Some(ReactiveBlock { instructions: u0 })
                },
                None => None,
            };
            let ghost v2 = b.visited@;
            proof { lemma_count_unvisited_mono(ids, va, v2); }
            let (b0, t3) = build_until(b, body, None, bctx, Ghost(bs));
            let ghost v3 = b.visited@;
            proof { lemma_count_unvisited_mono(ids, va, v3); }
            let (mut c, tc) = build_until(b, fallthrough, stop, ctx, Ghost(bs));
            let mut out = vec![ReactiveInstruction::Terminal(ReactiveTerminal::For {
                init: ReactiveBlock { instructions: i0 },
                test: ReactiveBlock { instructions: te0 },
                update: nu,
                body: ReactiveBlock { instructions: b0 },
                id: cur,
            })];
            let ghost cv = c@;
            out.append(&mut c);
            proof { assert(out@.skip(1) =~= cv); }
            (out, Ghost(BuildTrace::Step(seq![t0@, t1@, t2, t3@], seq![v0, v1, v2, v3], Seq::empty(), Box::new(tc@))))
        },
        Terminal::While { test, body, fallthrough } => {
            let bctx = Some(LoopContext { continue_target: test, break_target: fallthrough });
            let (te0, t0) = build_until(b, test, None, ctx, Ghost(bs));
            let ghost v0 = b.visited@;
            proof { lemma_count_unvisited_mono(ids, va, v0); }
            let (b0, t1) = build_until(b, body, None, bctx, Ghost(bs));
            let ghost v1 = b.visited@;
            proof { lemma_count_unvisited_mono(ids, va, v1); }
            let (mut c, tc) = build_until(b, fallthrough, stop, ctx, Ghost(bs));
            let mut out = vec![ReactiveInstruction::Terminal(ReactiveTerminal::While {
                test: ReactiveBlock { instructions: te0 },
                body: ReactiveBlock { instructions: b0 },
                id: cur,
            })];
            let ghost cv = c@;
            out.append(&mut c);
            proof { assert(out@.skip(1) =~= cv); }
            (out, Ghost(BuildTrace::Step(seq![t0@, t1@], seq![v0, v1], Seq::empty(), Box::new(tc@))))
        },
        Terminal::DoWhile { body, test, fallthrough } => {
            let bctx = Some(LoopContext { continue_target: test, break_target: fallthrough });
            let (b0, t0) = build_until(b, body, None, bctx, Ghost(bs));
            let ghost v0 = b.visited@;
            proof { lemma_count_unvisited_mono(ids, va, v0); }
            let (te0, t1) = build_until(b, test, None, bctx, Ghost(bs));
            let ghost v1 = b.visited@;
            proof { lemma_count_unvisited_mono(ids, va, v1); }
            let (mut c, tc) = build_until(b, fallthrough, stop, ctx, Ghost(bs));
            let mut out = vec![ReactiveInstruction::Terminal(ReactiveTerminal::DoWhile {
                body: ReactiveBlock { instructions: b0 },
                test: ReactiveBlock { instructions: te0 },
                id: cur,
            })];
            let ghost cv = c@;
            out.append(&mut c);
            proof { assert(out@.skip(1) =~= cv); }
            (out, Ghost(BuildTrace::Step(seq![t0@, t1@], seq![v0, v1], Seq::empty(), Box::new(tc@))))
        },
        Terminal::ForOf { init, test, body, fallthrough } => {
            let bctx = Some(LoopContext { continue_target: init, break_target: fallthrough });
            let (i0, t0) = build_until(b, init, Some(test), ctx, Ghost(bs));
            let ghost v0 = b.visited@;
            proof { lemma_count_unvisited_mono(ids, va, v0); }
            let (te0, t1) = build_until(b, test, Some(body), ctx, Ghost(bs));
            let ghost v1 = b.visited@;
            proof { lemma_count_unvisited_mono(ids, va, v1); }
            let (b0, t2) = build_until(b, body, None, bctx, Ghost(bs));
            let ghost v2 = b.visited@;
            proof { lemma_count_unvisited_mono(ids, va, v2); }
            let (mut c, tc) = build_until(b, fallthrough, stop, ctx, Ghost(bs));
            let mut out = vec![ReactiveInstruction::Terminal(ReactiveTerminal::ForOf {
                init: ReactiveBlock { instructions: i0 },
                test: ReactiveBlock { instructions: te0 },
                body: ReactiveBlock { instructions: b0 },
                id: cur,
            })];
            let ghost cv = c@;
            out.append(&mut c);
            proof { assert(out@.skip(1) =~= cv); }
            (out, Ghost(BuildTrace::Step(seq![t0@, t1@, t2@], seq![v0, v1, v2], Seq::empty(), Box::new(tc@))))
        },
        Terminal::ForIn { init, test, body, fallthrough } => {
            let bctx = Some(LoopContext { continue_target: init, break_target: fallthrough });
            let (i0, t0) = build_until(b, init, Some(test), ctx, Ghost(bs));
            let ghost v0 = b.visited@;
            proof { lemma_count_unvisited_mono(ids, va, v0); }
            let (te0, t1) = build_until(b, test, Some(body), ctx, Ghost(bs));
            let ghost v1 = b.visited@;
            proof { lemma_count_unvisited_mono(ids, va, v1); }
            let (b0, t2) = build_until(b, body, None, bctx, Ghost(bs));
            let ghost v2 = b.visited@;
            proof { lemma_count_unvisited_mono(ids, va, v2); }
            let (mut c, tc) = build_until(b, fallthrough, stop, ctx, Ghost(bs));
            let mut out = vec![ReactiveInstruction::Terminal(ReactiveTerminal::ForIn {
                init: ReactiveBlock { instructions: i0 },
                test: ReactiveBlock { instructions: te0 },
                body: ReactiveBlock { instructions: b0 },
                id: cur,
            })];
            let ghost cv = c@;
            out.append(&mut c);
            proof { assert(out@.skip(1) =~= cv); }
            (out, Ghost(BuildTrace::Step(seq![t0@, t1@, t2@], seq![v0, v1, v2], Seq::empty(), Box::new(tc@))))
        },
        Terminal::Try { block, handler, fallthrough } => {
            let (b0, t0) = build_until(b, block, None, ctx, Ghost(bs));
            let ghost v0 = b.visited@;
            proof { lemma_count_unvisited_mono(ids, va, v0); }
            let (h0, t1) = build_until(b, handler, None, ctx, Ghost(bs));
            let ghost v1 = b.visited@;
            proof { lemma_count_unvisited_mono(ids, va, v1); }
            let (mut c, tc) = build_until(b, fallthrough, stop, ctx, Ghost(bs));
            let mut out = vec![ReactiveInstruction::Terminal(ReactiveTerminal::Try {
                block: ReactiveBlock { instructions: b0 },
                handler: ReactiveBlock { instructions: h0 },
                id: cur,
            })];
            let ghost cv = c@;
            out.append(&mut c);
            proof { assert(out@.skip(1) =~= cv); }
            (out, Ghost(BuildTrace::Step(seq![t0@, t1@], seq![v0, v1], Seq::empty(), Box::new(tc@))))
        },
        Terminal::Label { block, fallthrough, label } => {
            let (b0, t0) = build_until(b, block, None, ctx, Ghost(bs));
            let ghost v0 = b.visited@;
            proof { lemma_count_unvisited_mono(ids, va, v0); }
            let (mut c, tc) = build_until(b, fallthrough, stop, ctx, Ghost(bs));
            let mut out = vec![ReactiveInstruction::Terminal(ReactiveTerminal::Label {
                block: ReactiveBlock { instructions: b0 },
                id: cur,
                label,
            })];
            let ghost cv = c@;
            out.append(&mut c);
            proof { assert(out@.skip(1) =~= cv); }
            (out, Ghost(BuildTrace::Step(seq![t0@], seq![v0], Seq::empty(), Box::new(tc@))))
        },
        Terminal::Scope { scope, block, fallthrough } => {
            let found = match find_block(b, block, Ghost(bs)) {
                Some(k2) => lookup_scope(b, k2, scope, Ghost(bs)),
                None => None,
            };
            let (inner, t0) = scope_only(b, block, Some(fallthrough), ctx, Ghost(bs));
            let ghost v0 = b.visited@;
            proof { lemma_count_unvisited_mono(ids, va, v0); }
            let (mut c, tc) = build_until(b, fallthrough, stop, ctx, Ghost(bs));
            let ghost cv = c@;
            let ghost iv = inner@;
            match found {
                Some(rs) => {
                    let mut out = vec![ReactiveInstruction::Scope(ReactiveScopeBlock {
                        scope: rs,
                        instructions: ReactiveBlock { instructions: inner },
                    })];
                    out.append(&mut c);
                    proof { assert(out@.skip(1) =~= cv); }
                    (out, Ghost(BuildTrace::Step(seq![t0@], seq![v0], seq![1int], Box::new(tc@))))
                },
                None => {
                    let mut out = inner;
                    out.append(&mut c);
                    proof {
                        assert(out@.take(iv.len() as int) =~= iv);
                        assert(out@.skip(iv.len() as int) =~= cv);
                    }
                    (out, Ghost(BuildTrace::Step(seq![t0@], seq![v0], seq![iv.len() as int], Box::new(tc@))))
                },
            }
        },
        Terminal::PrunedScope { fallthrough, .. } => {
            let (out, t) = build_until(b, fallthrough, stop, ctx, Ghost(bs));
            (out, Ghost(BuildTrace::Step(Seq::empty(), Seq::empty(), Seq::empty(), Box::new(t@))))
        },
        Terminal::Logical { operator, right, fallthrough, result, .. } => {
            let (r0, t0) = build_until(b, right, Some(fallthrough), ctx, Ghost(bs));
            let ghost v0 = b.visited@;
            proof { lemma_count_unvisited_mono(ids, va, v0); }
            let (mut c, tc) = build_until(b, fallthrough, stop, ctx, Ghost(bs));
            let mut out = vec![ReactiveInstruction::Terminal(ReactiveTerminal::Logical {
                operator,
                right: ReactiveBlock { instructions: r0 },
                result,
                id: cur,
            })];
            let ghost cv = c@;
            out.append(&mut c);
            proof { assert(out@.skip(1) =~= cv); }
            (out, Ghost(BuildTrace::Step(seq![t0@], seq![v0], Seq::empty(), Box::new(tc@))))
        },
        Terminal::Optional { consequent, fallthrough, .. } => {
            let (mut out, t0) = build_until(b, consequent, Some(fallthrough), ctx, Ghost(bs));
            let ghost v0 = b.visited@;
            proof { lemma_count_unvisited_mono(ids, va, v0); }
            let ghost ov = out@;
            let (mut c, tc) = build_until(b, fallthrough, stop, ctx, Ghost(bs));
            let ghost cv = c@;
            out.append(&mut c);
            proof {
                assert(out@.take(ov.len() as int) =~= ov);
                assert(out@.skip(ov.len() as int) =~= cv);
            }
            (out, Ghost(BuildTrace::Step(seq![t0@], seq![v0], seq![ov.len() as int], Box::new(tc@))))
        },
        Terminal::Sequence { blocks, fallthrough } => {
            let (mut out, vs, splits, subs) = walk_sequence(b, &blocks, fallthrough, ctx, Ghost(bs));
            let ghost vl = b.visited@;
            proof { lemma_count_unvisited_mono(ids, va, vl); }
            let ghost ov = out@;
            let (mut c, tc) = build_until(b, fallthrough, stop, ctx, Ghost(bs));
            let ghost cv = c@;
            out.append(&mut c);
            proof {
                assert(out@.take(ov.len() as int) =~= ov);
                assert(out@.skip(last_split(splits@)) =~= cv);
                lemma_sequence_frame(ov, out@, blocks@, fallthrough, bs, ctx, va, vs@, vs@, splits@, splits@, subs@, subs@, blocks@.len() as int);
            }
            (out, Ghost(BuildTrace::Step(subs@, vs@, splits@, Box::new(tc@))))
        },
        Terminal::Branch { test, consequent, alternate } => {
            let (c0, t0) = build_until(b, consequent, None, ctx, Ghost(bs));
            let ghost v0 = b.visited@;
            proof { lemma_count_unvisited_mono(ids, va, v0); }
            let (a0, t1) = build_until(b, alternate, None, ctx, Ghost(bs));
            let ghost v1 = b.visited@;
            let out = vec![ReactiveInstruction::Terminal(ReactiveTerminal::If {
                test,
                consequent: ReactiveBlock { instructions: c0 },
                alternate: ReactiveBlock { instructions: a0 },
                id: cur,
            })];
            (out, Ghost(BuildTrace::Step(seq![t0@, t1@], seq![v0, v1], Seq::empty(), Box::new(BuildTrace::Done))))
        },
        Terminal::MaybeThrow { continuation, .. } => {
            let (out, t) = build_until(b, continuation, stop, ctx, Ghost(bs));
            (out, Ghost(BuildTrace::Step(Seq::empty(), Seq::empty(), Seq::empty(), Box::new(t@))))
        },
        Terminal::Unreachable => {
            (Vec::new(), Ghost(BuildTrace::Step(Seq::empty(), Seq::empty(), Seq::empty(), Box::new(BuildTrace::Done))))
        },
    }
}

/// Walk the case blocks of a switch in turn.
fn walk_cases(
    b: &mut Builder,
    cases: Vec<Case>,
    ctx: Option<LoopContext>,
    Ghost(bs): Ghost<Seq<(BlockId, BasicBlock)>>,
) -> (r: (Vec<(Option<Place>, ReactiveBlock)>, Ghost<Seq<Set<u32>>>, Ghost<Seq<BuildTrace>>))
    requires
        builder_ok(*old(b), bs),
    ensures
        builder_ok(*final(b), bs),
        final(b).ids@ == old(b).ids@,
        old(b).visited@.subset_of(final(b).visited@),
        r.0@.len() == cases@.len(),
        r.1@.len() == cases@.len(),
        r.2@.len() == cases@.len(),
        cases_rel(r.0@, cases@, bs, ctx, old(b).visited@, r.1@, r.2@, cases@.len() as int),
        final(b).visited@ == last_or(r.1@, old(b).visited@),
    decreases count_unvisited(old(b).ids@, old(b).visited@), 1int,
{
    let ghost cs = cases@;
    let ghost va = b.visited@;
    let ghost ids = b.ids@;
    let mut rest = cases;
    let mut nc: Vec<(Option<Place>, ReactiveBlock)> = Vec::new();
    let ghost mut vs: Seq<Set<u32>> = Seq::empty();
    let ghost mut subs: Seq<BuildTrace> = Seq::empty();
    let ghost mut k: int = 0;
    proof {
        assert(cs.skip(0) =~= cs);
    }
    while rest.len() > 0
        invariant
            0 <= k <= cs.len(),
            rest@ == cs.skip(k),
            builder_ok(*b, bs),
            b.ids@ == ids,
            ids == old(b).ids@,
            va == old(b).visited@,
            va.subset_of(b.visited@),
            nc@.len() == k && vs.len() == k && subs.len() == k,
            cases_rel(nc@, cs, bs, ctx, va, vs, subs, k),
            b.visited@ == last_or(vs, va),
            count_unvisited(ids, b.visited@) <= count_unvisited(ids, va),
        decreases rest.len(),
    {
        let case = rest.remove(0);
        proof {
            assert(cs.skip(k)[0] == cs[k]);
        }
        let ghost vb = b.visited@;
        let (blk, t) = build_until(b, case.block, None, ctx, Ghost(bs));
        let ghost prev = nc@;
        nc.push((case.test, ReactiveBlock { instructions: blk }));
        proof {
            let vs2 = vs.push(b.visited@);
            let subs2 = subs.push(t@);
            lemma_cases_frame(prev, nc@, cs, bs, ctx, va, vs, vs2, subs, subs2, k);
            assert(cases_rel(nc@, cs, bs, ctx, va, vs2, subs2, k + 1));
            lemma_count_unvisited_mono(ids, vb, b.visited@);
            vs = vs2;
            subs = subs2;
            k = k + 1;
            assert(rest@ =~= cs.skip(k));
        }
    }
    (nc, Ghost(vs), Ghost(subs))
}

/// Walk the blocks of a sequence in turn, each up to `f`, inlined.
fn walk_sequence(
    b: &mut Builder,
    blocks: &Vec<BlockId>,
    f: BlockId,
    ctx: Option<LoopContext>,
    Ghost(bs): Ghost<Seq<(BlockId, BasicBlock)>>,
) -> (r: (Vec<ReactiveInstruction>, Ghost<Seq<Set<u32>>>, Ghost<Seq<int>>, Ghost<Seq<BuildTrace>>))
    requires
        builder_ok(*old(b), bs),
    ensures
        builder_ok(*final(b), bs),
        final(b).ids@ == old(b).ids@,
        old(b).visited@.subset_of(final(b).visited@),
        r.1@.len() == blocks@.len(),
        r.2@.len() == blocks@.len(),
        r.3@.len() == blocks@.len(),
        last_split(r.2@) == r.0@.len(),
        sequence_rel(r.0@, blocks@, f, bs, ctx, old(b).visited@, r.1@, r.2@, r.3@, blocks@.len() as int),
        final(b).visited@ == last_or(r.1@, old(b).visited@),
    decreases count_unvisited(old(b).ids@, old(b).visited@), 1int,
{
    let ghost va = b.visited@;
    let ghost ids = b.ids@;
    let mut out: Vec<ReactiveInstruction> = Vec::new();
    let ghost mut vs: Seq<Set<u32>> = Seq::empty();
    let ghost mut splits: Seq<int> = Seq::empty();
    let ghost mut subs: Seq<BuildTrace> = Seq::empty();
    let mut i: usize = 0;
    while i < blocks.len()
        invariant
            i <= blocks@.len(),
            builder_ok(*b, bs),
            b.ids@ == ids,
            ids == old(b).ids@,
            va == old(b).visited@,
            va.subset_of(b.visited@),
            vs.len() == i && splits.len() == i && subs.len() == i,
            last_split(splits) == out@.len(),
            sequence_rel(out@, blocks@, f, bs, ctx, va, vs, splits, subs, i as int),
            b.visited@ == last_or(vs, va),
            count_unvisited(ids, b.visited@) <= count_unvisited(ids, va),
        decreases blocks.len() - i,
    {
        let ghost vb = b.visited@;
        let ghost prev = out@;
        let (mut blk, t) = build_until(b, blocks[i], Some(f), ctx, Ghost(bs));
        let ghost bv = blk@;
        out.append(&mut blk);
        proof {
            let vs2 = vs.push(b.visited@);
            let subs2 = subs.push(t@);
            let splits2 = splits.push(out@.len() as int);
            assert(out@.take(prev.len() as int) =~= prev);
            lemma_sequence_frame(prev, out@, blocks@, f, bs, ctx, va, vs, vs2, splits, splits2, subs, subs2, i as int);
            assert(out@.subrange(prev.len() as int, out@.len() as int) =~= bv);
            assert(sequence_rel(out@, blocks@, f, bs, ctx, va, vs2, splits2, subs2, i + 1));
            lemma_count_unvisited_mono(ids, vb, b.visited@);
            vs = vs2;
            subs = subs2;
            splits = splits2;
        }
        i = i + 1;
    }
    (out, Ghost(vs), Ghost(splits), Ghost(subs))
}

/// Walk the blocks of a scope, stopping at its fallthrough.
fn scope_only(
    b: &mut Builder,
    bid: BlockId,
    sf: Option<BlockId>,
    ctx: Option<LoopContext>,
    Ghost(bs): Ghost<Seq<(BlockId, BasicBlock)>>,
) -> (r: (Vec<ReactiveInstruction>, Ghost<BuildTrace>))
    requires
        builder_ok(*old(b), bs),
    ensures
        builder_ok(*final(b), bs),
        final(b).ids@ == old(b).ids@,
        old(b).visited@.subset_of(final(b).visited@),
        scope_rel(r.0@, bs, bid, sf, ctx, old(b).visited@, final(b).visited@, r.1@),
    decreases count_unvisited(old(b).ids@, old(b).visited@), 0int,
{
    if fx_set_contains(&b.visited, bid.0) || sf == Some(bid) {
        return (Vec::new(), Ghost(BuildTrace::Done));
    }
    let k = match find_block(b, bid, Ghost(bs)) {
        Some(k) => k,
        None => {
            let ghost v0 = b.visited@;
            fx_set_insert(&mut b.visited, bid.0);
            proof {
                lemma_find_index(bs, bid, 0);
                assert forall|j: int| 0 <= j < bs.len() && untouched(bs, b.visited@, j) implies (#[trigger] b.store@[j])@ == bs[j].1.instructions@ && b.terms@[j] == bs[j].1.terminal by {
                    assert(untouched(bs, v0, j));
                }
            }
            return (Vec::new(), Ghost(BuildTrace::Done));
        },
    };
    let (mut out, term) = take_block(b, k, bid, Ghost(bs));
    let ghost h = out@;
    let (mut rest, t) = scope_terminal_exec(b, bid, term, sf, ctx, Ghost(bs));
    let ghost rv = rest@;
    out.append(&mut rest);
    proof {
        assert(out@.take(h.len() as int) =~= h);
        assert(out@.skip(h.len() as int) =~= rv);
        lemma_find_index(bs, bid, 0);
    }
    (out, t)
}

#[verifier::rlimit(100)]
#[verifier::spinoff_prover]
fn scope_terminal_exec(
    b: &mut Builder,
    bid: BlockId,
    term: Terminal,
    sf: Option<BlockId>,
    ctx: Option<LoopContext>,
    Ghost(bs): Ghost<Seq<(BlockId, BasicBlock)>>,
) -> (r: (Vec<ReactiveInstruction>, Ghost<BuildTrace>))
    requires
        builder_ok(*old(b), bs),
    ensures
        builder_ok(*final(b), bs),
        final(b).ids@ == old(b).ids@,
        old(b).visited@.subset_of(final(b).visited@),
        scope_terminal(r.0@, bs, bid, term, sf, ctx, old(b).visited@, final(b).visited@, r.1@),
    decreases count_unvisited(old(b).ids@, old(b).visited@), 2int,
{
    let ghost va = b.visited@;
    let ghost ids = b.ids@;
    match term {
        Terminal::Goto { block: next } => {
            if sf != Some(next) {
                let (out, t) = scope_only(b, next, sf, ctx, Ghost(bs));
                (out, Ghost(BuildTrace::Step(Seq::empty(), Seq::empty(), Seq::empty(), Box::new(t@))))
            } else {
                (Vec::new(), Ghost(BuildTrace::Step(Seq::empty(), Seq::empty(), Seq::empty(), Box::new(BuildTrace::Done))))
            }
        },
        Terminal::If { test, consequent, alternate, fallthrough } => {
            let (c0, t0) = build_until(b, consequent, Some(fallthrough), ctx, Ghost(bs));
            let ghost v0 = b.visited@;
            proof { lemma_count_unvisited_mono(ids, va, v0); }
            let (a0, t1) = build_until(b, alternate, Some(fallthrough), ctx, Ghost(bs));
            let ghost v1 = b.visited@;
            proof { lemma_count_unvisited_mono(ids, va, v1); }
            let (mut c, tc) = scope_only(b, fallthrough, sf, ctx, Ghost(bs));
            let mut out = vec![ReactiveInstruction::Terminal(ReactiveTerminal::If {
                test,
                consequent: ReactiveBlock { instructions: c0 },
                alternate: ReactiveBlock { instructions: a0 },
                id: bid,
            })];
            let ghost cv = c@;
            out.append(&mut c);
            proof { assert(out@.skip(1) =~= cv); }
            (out, Ghost(BuildTrace::Step(seq![t0@, t1@], seq![v0, v1], Seq::empty(), Box::new(tc@))))
        },
        Terminal::Ternary { test, consequent, alternate, fallthrough, .. } => {
            let (c0, t0) = build_until(b, consequent, Some(fallthrough), ctx, Ghost(bs));
            let ghost v0 = b.visited@;
            proof { lemma_count_unvisited_mono(ids, va, v0); }
            let (a0, t1) = build_until(b, alternate, Some(fallthrough), ctx, Ghost(bs));
            let ghost v1 = b.visited@;
            proof { lemma_count_unvisited_mono(ids, va, v1); }
            let (mut c, tc) = scope_only(b, fallthrough, sf, ctx, Ghost(bs));
            let mut out = vec![ReactiveInstruction::Terminal(ReactiveTerminal::If {
                test,
                consequent: ReactiveBlock { instructions: c0 },
                alternate: ReactiveBlock { instructions: a0 },
                id: bid,
            })];
            let ghost cv = c@;
            out.append(&mut c);
            proof { assert(out@.skip(1) =~= cv); }
            (out, Ghost(BuildTrace::Step(seq![t0@, t1@], seq![v0, v1], Seq::empty(), Box::new(tc@))))
        },
        Terminal::Return { value } => {
            let out = vec![ReactiveInstruction::Terminal(ReactiveTerminal::Return { value, id: bid })];
            proof { assert(out@ =~= seq![ReactiveInstruction::Terminal(ReactiveTerminal::Return { value, id: bid })]); }
            (out, Ghost(BuildTrace::Step(Seq::empty(), Seq::empty(), Seq::empty(), Box::new(BuildTrace::Done))))
        },
        Terminal::Throw { value } => {
            let out = vec![ReactiveInstruction::Terminal(ReactiveTerminal::Throw { value, id: bid })];
            proof { assert(out@ =~= seq![ReactiveInstruction::Terminal(ReactiveTerminal::Throw { value, id: bid })]); }
            (out, Ghost(BuildTrace::Step(Seq::empty(), Seq::empty(), Seq::empty(), Box::new(BuildTrace::Done))))
        },
        Terminal::Scope { scope, block, fallthrough } => {
            let found = match find_block(b, block, Ghost(bs)) {
                Some(k2) => lookup_scope(b, k2, scope, Ghost(bs)),
                None => None,
            };
            let (inner, t0) = scope_only(b, block, Some(fallthrough), ctx, Ghost(bs));
            let ghost v0 = b.visited@;
            proof { lemma_count_unvisited_mono(ids, va, v0); }
            let (mut c, tc) = scope_only(b, fallthrough, sf, ctx, Ghost(bs));
            let ghost cv = c@;
            let ghost iv = inner@;
            match found {
                Some(rs) => {
                    let mut out = vec![ReactiveInstruction::Scope(ReactiveScopeBlock {
                        scope: rs,
                        instructions: ReactiveBlock { instructions: inner },
                    })];
                    out.append(&mut c);
                    proof { assert(out@.skip(1) =~= cv); }
                    (out, Ghost(BuildTrace::Step(seq![t0@], seq![v0], seq![1int], Box::new(tc@))))
                },
                None => {
                    let mut out = inner;
                    out.append(&mut c);
                    proof {
                        assert(out@.take(iv.len() as int) =~= iv);
                        assert(out@.skip(iv.len() as int) =~= cv);
                    }
                    (out, Ghost(BuildTrace::Step(seq![t0@], seq![v0], seq![iv.len() as int], Box::new(tc@))))
                },
            }
        },
        Terminal::Logical { operator, right, fallthrough, result, .. } => {
            let (r0, t0) = build_until(b, right, Some(fallthrough), ctx, Ghost(bs));
            let ghost v0 = b.visited@;
            proof { lemma_count_unvisited_mono(ids, va, v0); }
            let (mut c, tc) = scope_only(b, fallthrough, sf, ctx, Ghost(bs));
            let mut out = vec![ReactiveInstruction::Terminal(ReactiveTerminal::Logical {
                operator,
                right: ReactiveBlock { instructions: r0 },
                result,
                id: bid,
            })];
            let ghost cv = c@;
            out.append(&mut c);
            proof { assert(out@.skip(1) =~= cv); }
            (out, Ghost(BuildTrace::Step(seq![t0@], seq![v0], Seq::empty(), Box::new(tc@))))
        },
        Terminal::Optional { consequent, fallthrough, .. } => {
            let (mut out, t0) = build_until(b, consequent, Some(fallthrough), ctx, Ghost(bs));
            let ghost v0 = b.visited@;
            proof { lemma_count_unvisited_mono(ids, va, v0); }
            let ghost ov = out@;
            let (mut c, tc) = scope_only(b, fallthrough, sf, ctx, Ghost(bs));
            let ghost cv = c@;
            out.append(&mut c);
            proof {
                assert(out@.take(ov.len() as int) =~= ov);
                assert(out@.skip(ov.len() as int) =~= cv);
            }
            (out, Ghost(BuildTrace::Step(seq![t0@], seq![v0], seq![ov.len() as int], Box::new(tc@))))
        },
        Terminal::Sequence { blocks, fallthrough } => {
            let (mut out, vs, splits, subs) = walk_sequence(b, &blocks, fallthrough, ctx, Ghost(bs));
            let ghost vl = b.visited@;
            proof { lemma_count_unvisited_mono(ids, va, vl); }
            let ghost ov = out@;
            let (mut c, tc) = scope_only(b, fallthrough, sf, ctx, Ghost(bs));
            let ghost cv = c@;
            out.append(&mut c);
            proof {
                assert(out@.take(ov.len() as int) =~= ov);
                assert(out@.skip(last_split(splits@)) =~= cv);
                lemma_sequence_frame(ov, out@, blocks@, fallthrough, bs, ctx, va, vs@, vs@, splits@, splits@, subs@, subs@, blocks@.len() as int);
            }
            (out, Ghost(BuildTrace::Step(subs@, vs@, splits@, Box::new(tc@))))
        },
        Terminal::MaybeThrow { continuation, .. } => {
            let (out, t) = scope_only(b, continuation, sf, ctx, Ghost(bs));
            (out, Ghost(BuildTrace::Step(Seq::empty(), Seq::empty(), Seq::empty(), Box::new(t@))))
        },
        Terminal::Switch { test, cases, fallthrough } => {
            let (nc, vs, subs) = walk_cases(b, cases, ctx, Ghost(bs));
            let ghost vl = b.visited@;
            proof { lemma_count_unvisited_mono(ids, va, vl); }
            let (mut c, tc) = scope_only(b, fallthrough, sf, ctx, Ghost(bs));
            let mut out = vec![ReactiveInstruction::Terminal(ReactiveTerminal::Switch { test, cases: nc, id: bid })];
            let ghost cv = c@;
            out.append(&mut c);
            proof { assert(out@.skip(1) =~= cv); }
            (out, Ghost(BuildTrace::Step(subs@, vs@, Seq::empty(), Box::new(tc@))))
        },
        Terminal::Branch { test, consequent, alternate } => {
            let (c0, t0) = build_until(b, consequent, None, ctx, Ghost(bs));
            let ghost v0 = b.visited@;
            proof { lemma_count_unvisited_mono(ids, va, v0); }
            let (a0, t1) = build_until(b, alternate, None, ctx, Ghost(bs));
            let ghost v1 = b.visited@;
            let out = vec![ReactiveInstruction::Terminal(ReactiveTerminal::If {
                test,
                consequent: ReactiveBlock { instructions: c0 },
                alternate: ReactiveBlock { instructions: a0 },
                id: bid,
            })];
            (out, Ghost(BuildTrace::Step(seq![t0@, t1@], seq![v0, v1], Seq::empty(), Box::new(BuildTrace::Done))))
        },
        Terminal::PrunedScope { fallthrough, .. } => {
            let (out, t) = scope_only(b, fallthrough, sf, ctx, Ghost(bs));
            (out, Ghost(BuildTrace::Step(Seq::empty(), Seq::empty(), Seq::empty(), Box::new(t@))))
        },
        _ => {
            (Vec::new(), Ghost(BuildTrace::Step(Seq::empty(), Seq::empty(), Seq::empty(), Box::new(BuildTrace::Done))))
        },
    }
}

/// The scope of an instruction result, copied.
fn scope_entry(i: &Instruction) -> (r: Option<ReactiveScope>)
    ensures
        table_entry(r, *i),
{
    match &i.lvalue.identifier.scope {
        Some(s) => Some(copy_scope(s)),
        None => None,
    }
}

/// Take the blocks of a graph apart into a builder with nothing visited.
fn builder_of(blocks: Vec<(BlockId, BasicBlock)>) -> (r: Builder)
    ensures
        builder_ok(r, blocks@),
        r.visited@ == Set::<u32>::empty(),
{
    let ghost o = blocks@;
    let mut rest = blocks;
    let mut ids: Vec<BlockId> = Vec::new();
    let mut store: Vec<Vec<Instruction>> = Vec::new();
    let mut terms: Vec<Terminal> = Vec::new();
    let mut table: Vec<Vec<Option<ReactiveScope>>> = Vec::new();
    let ghost mut k: int = 0;
    proof {
        assert(o.skip(0) =~= o);
    }
    while rest.len() > 0
        invariant
            0 <= k <= o.len(),
            rest@ == o.skip(k),
            ids@.len() == k && store@.len() == k && terms@.len() == k && table@.len() == k,
            forall|j: int| 0 <= j < k ==> (#[trigger] ids@[j]) == o[j].0,
            forall|j: int| 0 <= j < k ==> (#[trigger] store@[j])@ == o[j].1.instructions@ && terms@[j] == o[j].1.terminal,
            forall|j: int| 0 <= j < k ==> (#[trigger] table@[j])@.len() == o[j].1.instructions@.len(),
            forall|j: int, m: int| 0 <= j < k && 0 <= m < o[j].1.instructions@.len() ==> table_entry(#[trigger] table@[j]@[m], o[j].1.instructions@[m]),
        decreases rest.len(),
    {
        let (bid, blk) = rest.remove(0);
        proof {
            assert(o.skip(k)[0] == o[k]);
        }
        let mut row: Vec<Option<ReactiveScope>> = Vec::new();
        let mut m: usize = 0;
        while m < blk.instructions.len()
            invariant
                m <= blk.instructions@.len(),
                row@.len() == m,
                forall|x: int| 0 <= x < m ==> table_entry(#[trigger] row@[x], blk.instructions@[x]),
            decreases blk.instructions.len() - m,
        {
            row.push(scope_entry(&blk.instructions[m]));
            m = m + 1;
        }
        ids.push(bid);
        store.push(blk.instructions);
        terms.push(blk.terminal);
        table.push(row);
        proof {
            k = k + 1;
            assert(rest@ =~= o.skip(k));
        }
    }
    Builder { ids, store, terms, table, visited: FxHashSet::default() }
}

/// Convert a function body into the tree-shaped reactive IR: its body is
/// the walk from the entry block with nothing visited, outside any loop;
/// the other parts are taken over unchanged.
pub fn build_reactive_function(
    hir: HIR,
    params: Vec<Param>,
    id: Option<String>,
    loc: SourceLocation,
    directives: Vec<String>,
    is_arrow: bool,
    is_async: bool,
    is_generator: bool,
) -> (r: ReactiveFunction)
    ensures
        exists|v1: Set<u32>, t: BuildTrace|
            #[trigger] until_rel(r.body.instructions@, hir.blocks@, hir.entry, None, None, Set::<u32>::empty(), v1, t),
        r.loc == loc,
        r.id == id,
        r.params == params,
        r.directives == directives,
        r.is_arrow == is_arrow,
        r.is_async == is_async,
        r.is_generator == is_generator,
{
    let ghost bs = hir.blocks@;
    let entry = hir.entry;
    let body = build_reactive_block_from_hir(hir, entry);
    let ghost v1 = choose|v1: Set<u32>, t: BuildTrace| until_rel(body.instructions@, bs, hir.entry, None, None, Set::<u32>::empty(), v1, t);
    let r = ReactiveFunction { loc, id, params, body, directives, is_arrow, is_async, is_generator };
    proof {
        assert(until_rel(r.body.instructions@, hir.blocks@, hir.entry, None, None, Set::<u32>::empty(), v1.0, v1.1));
    }
    r
}

/// The walk from `start_block` with nothing visited, outside any loop,
/// as a block (used for the bodies of nested functions). The instructions
/// of the graph are moved into the result, so the graph is taken by value.
pub fn build_reactive_block_from_hir(hir: HIR, start_block: BlockId) -> (r: ReactiveBlock)
    ensures
        exists|v1: Set<u32>, t: BuildTrace|
            #[trigger] until_rel(r.instructions@, hir.blocks@, start_block, None, None, Set::<u32>::empty(), v1, t),
{
    let ghost bs = hir.blocks@;
    let mut b = builder_of(hir.blocks);
    let (instructions, t) = build_until(&mut b, start_block, None, None, Ghost(bs));
    let r = ReactiveBlock { instructions };
    proof {
        assert(until_rel(r.instructions@, hir.blocks@, start_block, None, None, Set::<u32>::empty(), b.visited@, t@));
    }
    r
}

} // verus!
