//! Merge a block into its predecessor when the predecessor ends with a
//! `Goto` to it and no other edge leads to it.

use vstd::prelude::*;
use rustc_hash::FxHashMap;
use crate::fxhash::{fx_map_get, fx_map_insert};
use crate::hir::types::{BasicBlock, BlockId, Case, HIR, Terminal};
use crate::optimization::dead_code_elimination::{
    cfg, find_block_index, first_index, lemma_first_index, successors, terminal_successors,
};

verus! {

// ---------------------------------------------------------------------------
// Predecessor counts and merge candidates
// ---------------------------------------------------------------------------

/// How many times `b` occurs in `s`.
pub open spec fn count_in(s: Seq<BlockId>, b: BlockId) -> nat
    decreases s.len(),
{
    if s.len() == 0 {
        0
    } else {
        count_in(s.drop_last(), b) + if s.last() == b { 1nat } else { 0nat }
    }
}

/// How many times `b` occurs as a successor in the graph: its number of
/// incoming edges, counted with multiplicity.
pub open spec fn pred_count(g: Seq<(BlockId, Seq<BlockId>)>, b: BlockId) -> nat
    decreases g.len(),
{
    if g.len() == 0 {
        0
    } else {
        pred_count(g.drop_last(), b) + count_in(g.last().1, b)
    }
}

/// The target of a `Goto` terminal.
pub open spec fn goto_target(t: Terminal) -> Option<BlockId> {
    match t {
        Terminal::Goto { block } => Some(block),
        _ => None,
    }
}

/// Block `k` ends with a `Goto` to another block that has no other
/// incoming edge.
pub open spec fn is_candidate(blocks: Seq<(BlockId, BasicBlock)>, k: int) -> bool {
    match goto_target(blocks[k].1.terminal) {
        Some(t) => pred_count(cfg(blocks), t) == 1 && blocks[k].0 != t,
        None => false,
    }
}

/// The position of the first merge candidate, if there is one.
pub open spec fn first_candidate(blocks: Seq<(BlockId, BasicBlock)>) -> Option<int> {
    if exists|k: int| 0 <= k < blocks.len() && is_candidate(blocks, k) {
        Some(choose|k: int| 0 <= k < blocks.len() && is_candidate(blocks, k) && forall|j: int| 0 <= j < k ==> !is_candidate(blocks, j))
    } else {
        None
    }
}

/// The pair (`from`, `into`) of the first merge candidate.
pub open spec fn candidate_pair(blocks: Seq<(BlockId, BasicBlock)>) -> Option<(BlockId, BlockId)> {
    match first_candidate(blocks) {
        Some(k) => match goto_target(blocks[k].1.terminal) {
            Some(t) => Some((blocks[k].0, t)),
            None => None,
        },
        None => None,
    }
}

// ---------------------------------------------------------------------------
// Well-formed graphs
// ---------------------------------------------------------------------------

/// No two blocks share an id.
pub open spec fn unique_ids(blocks: Seq<(BlockId, BasicBlock)>) -> bool {
    forall|i: int, j: int| 0 <= i < j < blocks.len() ==> blocks[i].0 != blocks[j].0
}

/// Some block has id `b`.
pub open spec fn has_block(blocks: Seq<(BlockId, BasicBlock)>, b: BlockId) -> bool {
    exists|m: int| 0 <= m < blocks.len() && blocks[m].0 == b
}

/// Every successor named by a terminal is a block of the graph.
pub open spec fn closed(blocks: Seq<(BlockId, BasicBlock)>) -> bool {
    forall|k: int, j: int|
        0 <= k < blocks.len() && 0 <= j < successors(blocks[k].1.terminal).len() ==> has_block(
            blocks,
            #[trigger] successors(blocks[k].1.terminal)[j],
        )
}

/// Block ids are unique, every edge leads to a block, and every block's
/// number of incoming edges fits a `usize` counter.
pub open spec fn well_formed_cfg(blocks: Seq<(BlockId, BasicBlock)>) -> bool {
    &&& unique_ids(blocks)
    &&& closed(blocks)
    &&& forall|b: BlockId| #[trigger] pred_count(cfg(blocks), b) < usize::MAX
}

// ---------------------------------------------------------------------------
// One merge
// ---------------------------------------------------------------------------

/// `b`, or `dst` if `b` is `src`.
pub open spec fn remap(b: BlockId, src: BlockId, dst: BlockId) -> BlockId {
    if b == src { dst } else { b }
}

/// `n` is `o` with every block id `src` it names replaced by `dst`.
pub open spec fn rewritten_terminal(n: Terminal, o: Terminal, src: BlockId, dst: BlockId) -> bool {
    match o {
        Terminal::Goto { block } => n == Terminal::Goto { block: remap(block, src, dst) },
        Terminal::If { test, consequent, alternate, fallthrough } => n == Terminal::If {
            test,
            consequent: remap(consequent, src, dst),
            alternate: remap(alternate, src, dst),
            fallthrough: remap(fallthrough, src, dst),
        },
        Terminal::Branch { test, consequent, alternate } => n == Terminal::Branch {
            test,
            consequent: remap(consequent, src, dst),
            alternate: remap(alternate, src, dst),
        },
        Terminal::Switch { test, cases, fallthrough } => {
            &&& n matches Terminal::Switch { test: nt, cases: nc, fallthrough: nf }
            &&& nt == test
            &&& nf == remap(fallthrough, src, dst)
            &&& nc@.len() == cases@.len()
            &&& forall|i: int| 0 <= i < cases@.len() ==> #[trigger] nc@[i] == (Case {
                test: cases@[i].test,
                block: remap(cases@[i].block, src, dst),
            })
        },
        Terminal::Return { .. } | Terminal::Throw { .. } | Terminal::Unreachable => n == o,
        Terminal::For { init, test, update, body, fallthrough } => n == Terminal::For {
            init: remap(init, src, dst),
            test: remap(test, src, dst),
            update: match update {
                Some(u) => Some(remap(u, src, dst)),
                None => None,
            },
            body: remap(body, src, dst),
            fallthrough: remap(fallthrough, src, dst),
        },
        Terminal::ForOf { init, test, body, fallthrough } => n == Terminal::ForOf {
            init: remap(init, src, dst),
            test: remap(test, src, dst),
            body: remap(body, src, dst),
            fallthrough: remap(fallthrough, src, dst),
        },
        Terminal::ForIn { init, test, body, fallthrough } => n == Terminal::ForIn {
            init: remap(init, src, dst),
            test: remap(test, src, dst),
            body: remap(body, src, dst),
            fallthrough: remap(fallthrough, src, dst),
        },
        Terminal::DoWhile { body, test, fallthrough } => n == Terminal::DoWhile {
            body: remap(body, src, dst),
            test: remap(test, src, dst),
            fallthrough: remap(fallthrough, src, dst),
        },
        Terminal::While { test, body, fallthrough } => n == Terminal::While {
            test: remap(test, src, dst),
            body: remap(body, src, dst),
            fallthrough: remap(fallthrough, src, dst),
        },
        Terminal::Logical { operator, left, right, fallthrough, result } => n == Terminal::Logical {
            operator,
            left: remap(left, src, dst),
            right: remap(right, src, dst),
            fallthrough: remap(fallthrough, src, dst),
            result,
        },
        Terminal::Ternary { test, consequent, alternate, fallthrough, result } => n == Terminal::Ternary {
            test,
            consequent: remap(consequent, src, dst),
            alternate: remap(alternate, src, dst),
            fallthrough: remap(fallthrough, src, dst),
            result,
        },
        Terminal::Optional { test, consequent, fallthrough, optional } => n == Terminal::Optional {
            test,
            consequent: remap(consequent, src, dst),
            fallthrough: remap(fallthrough, src, dst),
            optional,
        },
        Terminal::Sequence { blocks, fallthrough } => {
            &&& n matches Terminal::Sequence { blocks: nb, fallthrough: nf }
            &&& nb@ == blocks@.map_values(|b: BlockId| remap(b, src, dst))
            &&& nf == remap(fallthrough, src, dst)
        },
        Terminal::Label { block, fallthrough, label } => n == Terminal::Label {
            block: remap(block, src, dst),
            fallthrough: remap(fallthrough, src, dst),
            label,
        },
        Terminal::MaybeThrow { continuation, handler } => n == Terminal::MaybeThrow {
            continuation: remap(continuation, src, dst),
            handler: remap(handler, src, dst),
        },
        Terminal::Try { block, handler, fallthrough } => n == Terminal::Try {
            block: remap(block, src, dst),
            handler: remap(handler, src, dst),
            fallthrough: remap(fallthrough, src, dst),
        },
        Terminal::Scope { scope, block, fallthrough } => n == Terminal::Scope {
            scope,
            block: remap(block, src, dst),
            fallthrough: remap(fallthrough, src, dst),
        },
        Terminal::PrunedScope { scope, block, fallthrough } => n == Terminal::PrunedScope {
            scope,
            block: remap(block, src, dst),
            fallthrough: remap(fallthrough, src, dst),
        },
    }
}

/// Block `n` after a merge of `into` into `from`, where `r` is the block at
/// the same position once `into` has been removed, and `target` is the
/// removed block. The block `from` gains the instructions and the terminal
/// of `target`; every block's terminal and predecessor list name `from`
/// wherever they named `into`.
pub open spec fn merged_block(
    n: (BlockId, BasicBlock),
    r: (BlockId, BasicBlock),
    target: BasicBlock,
    is_from: bool,
    into: BlockId,
    from: BlockId,
) -> bool {
    &&& n.0 == r.0
    &&& n.1.kind == r.1.kind
    &&& n.1.id == r.1.id
    &&& n.1.phis == r.1.phis
    &&& n.1.preds@ == r.1.preds@.map_values(|p: BlockId| remap(p, into, from))
    &&& if is_from {
        &&& n.1.instructions@ == r.1.instructions@ + target.instructions@
        &&& rewritten_terminal(n.1.terminal, target.terminal, into, from)
    } else {
        &&& n.1.instructions == r.1.instructions
        &&& rewritten_terminal(n.1.terminal, r.1.terminal, into, from)
    }
}

/// `n` (entry and blocks) is `o` after merging block `into` into block
/// `from`. If no block has id `into`, nothing changes.
pub open spec fn merge_step(
    n: (BlockId, Seq<(BlockId, BasicBlock)>),
    o: (BlockId, Seq<(BlockId, BasicBlock)>),
    from: BlockId,
    into: BlockId,
) -> bool {
    match first_index(cfg(o.1), into) {
        None => n == o,
        Some(pi) => {
            let r = o.1.remove(pi);
            let pf = first_index(cfg(r), from);
            &&& n.0 == (if o.0 == into { from } else { o.0 })
            &&& n.1.len() == r.len()
            &&& forall|k: int| #![trigger n.1[k]] 0 <= k < r.len() ==> merged_block(n.1[k], r[k], o.1[pi].1, pf == Some(k), into, from)
        },
    }
}

/// `n` is `o` after merging its first merge candidate.
pub open spec fn merge_next(n: (BlockId, Seq<(BlockId, BasicBlock)>), o: (BlockId, Seq<(BlockId, BasicBlock)>)) -> bool {
    match candidate_pair(o.1) {
        Some((from, into)) => merge_step(n, o, from, into),
        None => false,
    }
}

/// `tr` is a run of merges from `a` to `z`, each merging the first candidate.
pub open spec fn merge_trace(
    tr: Seq<(BlockId, Seq<(BlockId, BasicBlock)>)>,
    a: (BlockId, Seq<(BlockId, BasicBlock)>),
    z: (BlockId, Seq<(BlockId, BasicBlock)>),
) -> bool {
    &&& tr.len() >= 1
    &&& tr[0] == a
    &&& tr.last() == z
    &&& forall|i: int| 0 <= i < tr.len() - 1 ==> #[trigger] merge_next(tr[i + 1], tr[i])
}

// ---------------------------------------------------------------------------
// Executable steps
// ---------------------------------------------------------------------------

proof fn lemma_count_in_prefix(s: Seq<BlockId>, b: BlockId, j: int)
    requires
        0 <= j <= s.len(),
    ensures
        count_in(s.take(j), b) <= count_in(s, b),
    decreases s.len() - j,
{
    if j < s.len() {
        lemma_count_in_prefix(s, b, j + 1);
        assert(s.take(j + 1).drop_last() =~= s.take(j));
    } else {
        assert(s.take(j) =~= s);
    }
}

proof fn lemma_pred_count_prefix(g: Seq<(BlockId, Seq<BlockId>)>, b: BlockId, k: int)
    requires
        0 <= k <= g.len(),
    ensures
        pred_count(g.take(k), b) <= pred_count(g, b),
    decreases g.len() - k,
{
    if k < g.len() {
        lemma_pred_count_prefix(g, b, k + 1);
        assert(g.take(k + 1).drop_last() =~= g.take(k));
    } else {
        assert(g.take(k) =~= g);
    }
}

/// The number of incoming edges of each block id seen as a successor.
fn compute_predecessor_counts(hir: &HIR) -> (r: FxHashMap<u32, usize>)
    requires
        forall|b: BlockId| #[trigger] pred_count(cfg(hir.blocks@), b) < usize::MAX,
    ensures
        forall|b: BlockId| #[trigger] r@.contains_key(b.0) ==> r@[b.0] == pred_count(cfg(hir.blocks@), b),
        forall|b: BlockId| !(#[trigger] r@.contains_key(b.0)) ==> pred_count(cfg(hir.blocks@), b) == 0,
{
    let ghost g = cfg(hir.blocks@);
    let mut counts: FxHashMap<u32, usize> = FxHashMap::default();
    let mut i: usize = 0;
    while i < hir.blocks.len()
        invariant
            i <= hir.blocks@.len(),
            g == cfg(hir.blocks@),
            g.len() == hir.blocks@.len(),
            forall|b: BlockId| #[trigger] pred_count(g, b) < usize::MAX,
            forall|b: BlockId| #[trigger] counts@.contains_key(b.0) ==> counts@[b.0] == pred_count(g.take(i as int), b),
            forall|b: BlockId| !(#[trigger] counts@.contains_key(b.0)) ==> pred_count(g.take(i as int), b) == 0,
        decreases hir.blocks.len() - i,
    {
        let succs = terminal_successors(&hir.blocks[i].1.terminal);
        let ghost s = succs@;
        assert(s == g[i as int].1);
        let mut j: usize = 0;
        while j < succs.len()
            invariant
                j <= succs@.len(),
                i < g.len(),
                s == succs@,
                s == g[i as int].1,
                forall|b: BlockId| #[trigger] pred_count(g, b) < usize::MAX,
                forall|b: BlockId| #[trigger] counts@.contains_key(b.0) ==> counts@[b.0] == pred_count(g.take(i as int), b) + count_in(s.take(j as int), b),
                forall|b: BlockId| !(#[trigger] counts@.contains_key(b.0)) ==> pred_count(g.take(i as int), b) + count_in(s.take(j as int), b) == 0,
            decreases succs.len() - j,
        {
            let x = succs[j];
            proof {
                assert(s.take(j + 1).drop_last() =~= s.take(j as int));
                assert(g.take(i + 1).drop_last() =~= g.take(i as int));
                assert(g.take(i + 1).last() == g[i as int]);
                lemma_count_in_prefix(s, x, j + 1);
                lemma_pred_count_prefix(g, x, i + 1);
                assert(pred_count(g.take(i + 1), x) == pred_count(g.take(i as int), x) + count_in(s, x));
                assert(pred_count(g, x) < usize::MAX);
                assert(BlockId(x.0) == x);
            }
            let c: usize = match fx_map_get(&counts, x.0) {
                Some(v) => *v,
                None => 0,
            };
            fx_map_insert(&mut counts, x.0, c + 1);
            proof {
                assert forall|b: BlockId| #[trigger] counts@.contains_key(b.0) implies counts@[b.0] == pred_count(g.take(i as int), b) + count_in(s.take(j + 1), b) by {
                    if b.0 == x.0 {
                        assert(b == x);
                    }
                }
                assert forall|b: BlockId| !(#[trigger] counts@.contains_key(b.0)) implies pred_count(g.take(i as int), b) + count_in(s.take(j + 1), b) == 0 by {
                    assert(b.0 != x.0);
                    assert(b != x);
                }
            }
            j = j + 1;
        }
        proof {
            assert(s.take(j as int) =~= s);
            assert(g.take(i + 1).drop_last() =~= g.take(i as int));
            assert(g.take(i + 1).last() == g[i as int]);
            assert forall|b: BlockId| #[trigger] counts@.contains_key(b.0) implies counts@[b.0] == pred_count(g.take(i + 1), b) by {}
            assert forall|b: BlockId| !(#[trigger] counts@.contains_key(b.0)) implies pred_count(g.take(i + 1), b) == 0 by {}
        }
        i = i + 1;
    }
    proof {
        assert(g.take(i as int) =~= g);
    }
    counts
}

/// Find the first block `A` that ends with `Goto { block: B }` where `B`
/// has exactly one incoming edge and is not `A` itself.
fn find_merge_candidate(hir: &HIR) -> (r: Option<(BlockId, BlockId)>)
    requires
        forall|b: BlockId| #[trigger] pred_count(cfg(hir.blocks@), b) < usize::MAX,
    ensures
        r == candidate_pair(hir.blocks@),
{
    let pred_counts = compute_predecessor_counts(hir);
    let ghost blocks = hir.blocks@;
    let mut i: usize = 0;
    while i < hir.blocks.len()
        invariant
            i <= hir.blocks@.len(),
            blocks == hir.blocks@,
            forall|b: BlockId| #[trigger] pred_counts@.contains_key(b.0) ==> pred_counts@[b.0] == pred_count(cfg(blocks), b),
            forall|b: BlockId| !(#[trigger] pred_counts@.contains_key(b.0)) ==> pred_count(cfg(blocks), b) == 0,
            forall|j: int| 0 <= j < i ==> !is_candidate(blocks, j),
        decreases hir.blocks.len() - i,
    {
        let block_id = hir.blocks[i].0;
        if let Terminal::Goto { block: target } = &hir.blocks[i].1.terminal {
            let c: usize = match fx_map_get(&pred_counts, target.0) {
                Some(v) => *v,
                None => 0,
            };
            proof {
                assert(BlockId(target.0) == *target);
            }
            if c == 1 && block_id != *target {
                proof {
                    assert(is_candidate(blocks, i as int));
                    let k = choose|k: int| 0 <= k < blocks.len() && is_candidate(blocks, k) && forall|j: int| 0 <= j < k ==> !is_candidate(blocks, j);
                    if k < i {
                    } else if k > i {
                        assert(!is_candidate(blocks, i as int));
                    }
                }
                return Some((block_id, *target));
            }
            proof {
                assert(!is_candidate(blocks, i as int));
            }
        }
        i = i + 1;
    }
    None
}

fn remap_id(b: &mut BlockId, src: BlockId, dst: BlockId)
    ensures
        *final(b) == remap(*old(b), src, dst),
{
    if *b == src {
        *b = dst;
    }
}

/// Rewrite all occurrences of `src` to `dst` within a terminal.
fn rewrite_terminal_target(terminal: &mut Terminal, src: BlockId, dst: BlockId)
    ensures
        rewritten_terminal(*final(terminal), *old(terminal), src, dst),
{
    match terminal {
        Terminal::Goto { block } => remap_id(block, src, dst),
        Terminal::If { consequent, alternate, fallthrough, .. } => {
            remap_id(consequent, src, dst);
            remap_id(alternate, src, dst);
            remap_id(fallthrough, src, dst);
        },
        Terminal::Branch { consequent, alternate, .. } => {
            remap_id(consequent, src, dst);
            remap_id(alternate, src, dst);
        },
        Terminal::Switch { cases, fallthrough, .. } => {
            let ghost oc = cases@;
            let mut i: usize = 0;
            while i < cases.len()
                invariant
                    i <= cases@.len(),
                    cases@.len() == oc.len(),
                    forall|m: int| 0 <= m < i ==> #[trigger] cases@[m] == (Case { test: oc[m].test, block: remap(oc[m].block, src, dst) }),
                    forall|m: int| i <= m < cases@.len() ==> #[trigger] cases@[m] == oc[m],
                decreases cases.len() - i,
            {
                remap_id(&mut cases[i].block, src, dst);
                i = i + 1;
            }
            remap_id(fallthrough, src, dst);
        },
        Terminal::Return { .. } | Terminal::Throw { .. } | Terminal::Unreachable => {},
        Terminal::For { init, test, update, body, fallthrough } => {
            remap_id(init, src, dst);
            remap_id(test, src, dst);
            if let Some(u) = update {
                remap_id(u, src, dst);
            }
            remap_id(body, src, dst);
            remap_id(fallthrough, src, dst);
        },
        Terminal::ForOf { init, test, body, fallthrough } => {
            remap_id(init, src, dst);
            remap_id(test, src, dst);
            remap_id(body, src, dst);
            remap_id(fallthrough, src, dst);
        },
        Terminal::ForIn { init, test, body, fallthrough } => {
            remap_id(init, src, dst);
            remap_id(test, src, dst);
            remap_id(body, src, dst);
            remap_id(fallthrough, src, dst);
        },
        Terminal::DoWhile { body, test, fallthrough } => {
            remap_id(body, src, dst);
            remap_id(test, src, dst);
            remap_id(fallthrough, src, dst);
        },
        Terminal::While { test, body, fallthrough } => {
            remap_id(test, src, dst);
            remap_id(body, src, dst);
            remap_id(fallthrough, src, dst);
        },
        Terminal::Logical { left, right, fallthrough, .. } => {
            remap_id(left, src, dst);
            remap_id(right, src, dst);
            remap_id(fallthrough, src, dst);
        },
        Terminal::Ternary { consequent, alternate, fallthrough, .. } => {
            remap_id(consequent, src, dst);
            remap_id(alternate, src, dst);
            remap_id(fallthrough, src, dst);
        },
        Terminal::Optional { consequent, fallthrough, .. } => {
            remap_id(consequent, src, dst);
            remap_id(fallthrough, src, dst);
        },
        Terminal::Sequence { blocks, fallthrough } => {
            let ghost ob = blocks@;
            let mut i: usize = 0;
            while i < blocks.len()
                invariant
                    i <= blocks@.len(),
                    blocks@.len() == ob.len(),
                    forall|m: int| 0 <= m < i ==> #[trigger] blocks@[m] == remap(ob[m], src, dst),
                    forall|m: int| i <= m < blocks@.len() ==> #[trigger] blocks@[m] == ob[m],
                decreases blocks.len() - i,
            {
                remap_id(&mut blocks[i], src, dst);
                i = i + 1;
            }
            remap_id(fallthrough, src, dst);
            proof {
                assert(blocks@ =~= ob.map_values(|b: BlockId| remap(b, src, dst)));
            }
        },
        Terminal::Label { block, fallthrough, .. } => {
            remap_id(block, src, dst);
            remap_id(fallthrough, src, dst);
        },
        Terminal::MaybeThrow { continuation, handler } => {
            remap_id(continuation, src, dst);
            remap_id(handler, src, dst);
        },
        Terminal::Try { block, handler, fallthrough } => {
            remap_id(block, src, dst);
            remap_id(handler, src, dst);
            remap_id(fallthrough, src, dst);
        },
        Terminal::Scope { block, fallthrough, .. } => {
            remap_id(block, src, dst);
            remap_id(fallthrough, src, dst);
        },
        Terminal::PrunedScope { block, fallthrough, .. } => {
            remap_id(block, src, dst);
            remap_id(fallthrough, src, dst);
        },
    }
}

fn rewrite_preds(preds: &mut Vec<BlockId>, src: BlockId, dst: BlockId)
    ensures
        final(preds)@ == old(preds)@.map_values(|p: BlockId| remap(p, src, dst)),
{
    let ghost op = preds@;
    let mut i: usize = 0;
    while i < preds.len()
        invariant
            i <= preds@.len(),
            preds@.len() == op.len(),
            forall|m: int| 0 <= m < i ==> #[trigger] preds@[m] == remap(op[m], src, dst),
            forall|m: int| i <= m < preds@.len() ==> #[trigger] preds@[m] == op[m],
        decreases preds.len() - i,
    {
        remap_id(&mut preds[i], src, dst);
        i = i + 1;
    }
    proof {
        assert(preds@ =~= op.map_values(|p: BlockId| remap(p, src, dst)));
    }
}

/// `n` is `m` with the block ids its terminal and predecessors name
/// rewritten from `src` to `dst`.
pub open spec fn rewritten_block(n: (BlockId, BasicBlock), m: (BlockId, BasicBlock), src: BlockId, dst: BlockId) -> bool {
    &&& n.0 == m.0
    &&& n.1.kind == m.1.kind
    &&& n.1.id == m.1.id
    &&& n.1.phis == m.1.phis
    &&& n.1.instructions == m.1.instructions
    &&& n.1.preds@ == m.1.preds@.map_values(|p: BlockId| remap(p, src, dst))
    &&& rewritten_terminal(n.1.terminal, m.1.terminal, src, dst)
}

fn rewrite_all(blocks: &mut Vec<(BlockId, BasicBlock)>, src: BlockId, dst: BlockId)
    ensures
        final(blocks)@.len() == old(blocks)@.len(),
        forall|k: int| 0 <= k < old(blocks)@.len() ==> rewritten_block(#[trigger] final(blocks)@[k], old(blocks)@[k], src, dst),
{
    let ghost m = blocks@;
    let mut i: usize = 0;
    while i < blocks.len()
        invariant
            i <= blocks@.len(),
            blocks@.len() == m.len(),
            forall|k: int| 0 <= k < i ==> rewritten_block(#[trigger] blocks@[k], m[k], src, dst),
            forall|k: int| i <= k < blocks@.len() ==> #[trigger] blocks@[k] == m[k],
        decreases blocks.len() - i,
    {
        rewrite_terminal_target(&mut blocks[i].1.terminal, src, dst);
        rewrite_preds(&mut blocks[i].1.preds, src, dst);
        i = i + 1;
    }
}

/// `m` is `r` with the block at `pf` (if any) given `target`'s instructions
/// appended and `target`'s terminal.
pub open spec fn absorbed(m: Seq<(BlockId, BasicBlock)>, r: Seq<(BlockId, BasicBlock)>, target: BasicBlock, pf: Option<int>) -> bool {
    &&& m.len() == r.len()
    &&& forall|k: int| #![trigger m[k]] 0 <= k < r.len() ==> if pf == Some(k) {
        &&& m[k].0 == r[k].0
        &&& m[k].1.kind == r[k].1.kind
        &&& m[k].1.id == r[k].1.id
        &&& m[k].1.phis == r[k].1.phis
        &&& m[k].1.preds == r[k].1.preds
        &&& m[k].1.instructions@ == r[k].1.instructions@ + target.instructions@
        &&& m[k].1.terminal == target.terminal
    } else {
        m[k] == r[k]
    }
}

fn absorb(blocks: &mut Vec<(BlockId, BasicBlock)>, from: BlockId, target: BasicBlock)
    ensures
        absorbed(final(blocks)@, old(blocks)@, target, first_index(cfg(old(blocks)@), from)),
{
    let ghost tb = target;
    let BasicBlock { instructions: mut target_instructions, terminal: target_terminal, .. } = target;
    let from_pos = find_block_index(blocks, from);
    if let Some(pf) = from_pos {
        blocks[pf].1.instructions.append(&mut target_instructions);
        blocks[pf].1.terminal = target_terminal;
    }
}

proof fn lemma_merge_result(
    n: Seq<(BlockId, BasicBlock)>,
    m: Seq<(BlockId, BasicBlock)>,
    r: Seq<(BlockId, BasicBlock)>,
    target: BasicBlock,
    from: BlockId,
    into: BlockId,
)
    requires
        absorbed(m, r, target, first_index(cfg(r), from)),
        n.len() == m.len(),
        forall|k: int| 0 <= k < m.len() ==> rewritten_block(#[trigger] n[k], m[k], into, from),
    ensures
        n.len() == r.len(),
        forall|k: int| #![trigger n[k]] 0 <= k < r.len() ==> merged_block(n[k], r[k], target, first_index(cfg(r), from) == Some(k), into, from),
{
    assert forall|k: int| #![trigger n[k]] 0 <= k < r.len() implies merged_block(n[k], r[k], target, first_index(cfg(r), from) == Some(k), into, from) by {
        assert(rewritten_block(n[k], m[k], into, from));
        assert(m[k] == m[k]);
    }
}

/// Merge block `into` into block `from`: `from` gets `into`'s instructions
/// appended and `into`'s terminal; `into` is removed; the entry and every
/// reference to `into` are redirected to `from`.
fn apply_merge(hir: &mut HIR, from: BlockId, into: BlockId)
    ensures
        merge_step((final(hir).entry, final(hir).blocks@), (old(hir).entry, old(hir).blocks@), from, into),
{
    let ghost o = hir.blocks@;
    let target_pos = find_block_index(&hir.blocks, into);
    let pi = match target_pos {
        Some(pos) => pos,
        None => {
            return;
        },
    };
    let (_, target_block) = hir.blocks.remove(pi);
    let ghost r = hir.blocks@;
    let ghost tb = target_block;
    assert(r == o.remove(pi as int));
    assert(tb == o[pi as int].1);
    absorb(&mut hir.blocks, from, target_block);
    let ghost m = hir.blocks@;
    if hir.entry == into {
        hir.entry = from;
    }
    rewrite_all(&mut hir.blocks, into, from);
    proof {
        lemma_first_index(cfg(o), into);
        lemma_merge_result(hir.blocks@, m, r, tb, from, into);
    }
}

// ---------------------------------------------------------------------------
// Facts about counts, candidates and one merge
// ---------------------------------------------------------------------------

proof fn lemma_count_in_zero(s: Seq<BlockId>, b: BlockId)
    ensures
        count_in(s, b) == 0 <==> !s.contains(b),
    decreases s.len(),
{
    if s.len() > 0 {
        lemma_count_in_zero(s.drop_last(), b);
        if s.drop_last().contains(b) {
            let i = choose|i: int| 0 <= i < s.drop_last().len() && s.drop_last()[i] == b;
            assert(s[i] == b);
        }
        if s.contains(b) {
            let i = choose|i: int| 0 <= i < s.len() && s[i] == b;
            if i < s.len() - 1 {
                assert(s.drop_last()[i] == b);
            }
        }
    }
}

proof fn lemma_pred_count_ge_one(g: Seq<(BlockId, Seq<BlockId>)>, b: BlockId, i: int)
    requires
        0 <= i < g.len(),
    ensures
        pred_count(g, b) >= count_in(g[i].1, b),
    decreases g.len(),
{
    if i < g.len() - 1 {
        lemma_pred_count_ge_one(g.drop_last(), b, i);
    }
}

proof fn lemma_pred_count_ge_two(g: Seq<(BlockId, Seq<BlockId>)>, b: BlockId, i: int, j: int)
    requires
        0 <= i < j < g.len(),
    ensures
        pred_count(g, b) >= count_in(g[i].1, b) + count_in(g[j].1, b),
    decreases g.len(),
{
    if j == g.len() - 1 {
        lemma_pred_count_ge_one(g.drop_last(), b, i);
    } else {
        lemma_pred_count_ge_two(g.drop_last(), b, i, j);
    }
}

proof fn lemma_pred_count_remove(g: Seq<(BlockId, Seq<BlockId>)>, b: BlockId, i: int)
    requires
        0 <= i < g.len(),
    ensures
        pred_count(g, b) == pred_count(g.remove(i), b) + count_in(g[i].1, b),
    decreases g.len(),
{
    if i == g.len() - 1 {
        assert(g.remove(i) =~= g.drop_last());
    } else {
        lemma_pred_count_remove(g.drop_last(), b, i);
        assert(g.remove(i).drop_last() =~= g.drop_last().remove(i));
        assert(g.remove(i).last() == g.last());
    }
}

proof fn lemma_pred_count_update(g: Seq<(BlockId, Seq<BlockId>)>, b: BlockId, i: int, x: (BlockId, Seq<BlockId>))
    requires
        0 <= i < g.len(),
    ensures
        pred_count(g.update(i, x), b) + count_in(g[i].1, b) == pred_count(g, b) + count_in(x.1, b),
    decreases g.len(),
{
    if i == g.len() - 1 {
        assert(g.update(i, x).drop_last() =~= g.drop_last());
    } else {
        lemma_pred_count_update(g.drop_last(), b, i, x);
        assert(g.update(i, x).drop_last() =~= g.drop_last().update(i, x));
    }
}

#[verifier::rlimit(60)]
#[verifier::spinoff_prover]
proof fn lemma_rewritten_successors(n: Terminal, o: Terminal, src: BlockId, dst: BlockId)
    requires
        rewritten_terminal(n, o, src, dst),
    ensures
        successors(n) == successors(o).map_values(|b: BlockId| remap(b, src, dst)),
{
    match o {
        Terminal::Switch { cases, fallthrough, .. } => {
            if let Terminal::Switch { cases: nc, .. } = n {
                assert(nc@.map_values(|c: Case| c.block) =~= cases@.map_values(|c: Case| c.block).map_values(|b: BlockId| remap(b, src, dst)));
            }
            assert(successors(n) =~= successors(o).map_values(|b: BlockId| remap(b, src, dst)));
        },
        Terminal::For { update, .. } => {
            assert(successors(n) =~= successors(o).map_values(|b: BlockId| remap(b, src, dst)));
        },
        _ => {
            assert(successors(n) =~= successors(o).map_values(|b: BlockId| remap(b, src, dst)));
        },
    }
}

proof fn lemma_first_candidate(blocks: Seq<(BlockId, BasicBlock)>)
    ensures
        first_candidate(blocks) matches Some(k) ==> 0 <= k < blocks.len() && is_candidate(blocks, k) && forall|j: int| 0 <= j < k ==> !is_candidate(blocks, j),
        first_candidate(blocks) is None ==> forall|j: int| 0 <= j < blocks.len() ==> !is_candidate(blocks, j),
{
    if exists|k: int| 0 <= k < blocks.len() && is_candidate(blocks, k) {
        let w = choose|k: int| 0 <= k < blocks.len() && is_candidate(blocks, k);
        lemma_first_candidate_exists(blocks, w);
    }
}

proof fn lemma_first_candidate_exists(blocks: Seq<(BlockId, BasicBlock)>, w: int)
    requires
        0 <= w < blocks.len(),
        is_candidate(blocks, w),
    ensures
        exists|k: int| 0 <= k < blocks.len() && is_candidate(blocks, k) && forall|j: int| 0 <= j < k ==> !is_candidate(blocks, j),
    decreases w,
{
    if exists|j: int| 0 <= j < w && is_candidate(blocks, j) {
        let j = choose|j: int| 0 <= j < w && is_candidate(blocks, j);
        lemma_first_candidate_exists(blocks, j);
    }
}

proof fn lemma_unique_first_index(blocks: Seq<(BlockId, BasicBlock)>, i: int)
    requires
        unique_ids(blocks),
        0 <= i < blocks.len(),
    ensures
        first_index(cfg(blocks), blocks[i].0) == Some(i),
{
    lemma_first_index(cfg(blocks), blocks[i].0);
    match first_index(cfg(blocks), blocks[i].0) {
        Some(j) => {
            if j < i {
                assert(blocks[j].0 == blocks[i].0);
            } else if j > i {
                assert(cfg(blocks)[i].0 == blocks[i].0);
            }
        },
        None => {
            assert(cfg(blocks)[i].0 == blocks[i].0);
        },
    }
}

/// One merge of the first candidate keeps a graph well formed and removes
/// one block.
pub proof fn lemma_merge_preserves(
    n: (BlockId, Seq<(BlockId, BasicBlock)>),
    o: (BlockId, Seq<(BlockId, BasicBlock)>),
)
    requires
        well_formed_cfg(o.1),
        merge_next(n, o),
    ensures
        well_formed_cfg(n.1),
        n.1.len() == o.1.len() - 1,
{
    let blocks = o.1;
    let g = cfg(blocks);
    lemma_first_candidate(blocks);
    let k = first_candidate(blocks)->Some_0;
    let from = blocks[k].0;
    let into = goto_target(blocks[k].1.terminal)->Some_0;
    assert(successors(blocks[k].1.terminal) =~= seq![into]);
    assert(count_in(seq![into], into) == 1) by {
        assert(seq![into].drop_last() =~= Seq::<BlockId>::empty());
        reveal_with_fuel(count_in, 2);
    }
    // `into` is a block, at a position `pi` other than `k`.
    assert(has_block(blocks, successors(blocks[k].1.terminal)[0]));
    let pi0 = choose|m: int| 0 <= m < blocks.len() && blocks[m].0 == into;
    lemma_unique_first_index(blocks, pi0);
    let pi = pi0;
    assert(pi != k);
    // No terminal but `k`'s names `into`.
    assert forall|m: int| 0 <= m < blocks.len() && m != k implies !(#[trigger] successors(blocks[m].1.terminal)).contains(into) by {
        assert(g[m].1 == successors(blocks[m].1.terminal));
        assert(g[k].1 == successors(blocks[k].1.terminal));
        if m < k {
            lemma_pred_count_ge_two(g, into, m, k);
        } else {
            lemma_pred_count_ge_two(g, into, k, m);
        }
        lemma_count_in_zero(successors(blocks[m].1.terminal), into);
    }
    let r = blocks.remove(pi);
    let kp = if k < pi { k } else { k - 1 };
    assert(r[kp] == blocks[k]);
    assert(unique_ids(r));
    lemma_unique_first_index(r, kp);
    assert(first_index(cfg(r), from) == Some(kp));
    // The successor lists of the merged graph.
    let gn = g.remove(pi).update(kp, (from, successors(blocks[pi].1.terminal)));
    assert forall|j: int| 0 <= j < r.len() implies #[trigger] cfg(n.1)[j] == gn[j] by {
        let orig = if j < pi { j } else { j + 1 };
        assert(r[j] == blocks[orig]);
        assert(merged_block(n.1[j], r[j], blocks[pi].1, first_index(cfg(r), from) == Some(j), into, from));
        let t = if j == kp { blocks[pi].1.terminal } else { r[j].1.terminal };
        let src_index = if j == kp { pi } else { orig };
        assert(src_index != k);
        assert(t == blocks[src_index].1.terminal);
        lemma_rewritten_successors(n.1[j].1.terminal, t, into, from);
        assert(!successors(t).contains(into));
        assert(successors(t).map_values(|b: BlockId| remap(b, into, from)) =~= successors(t));
        assert(g.remove(pi)[j] == g[orig]);
    }
    assert(cfg(n.1) =~= gn);
    // Ids are those of `r`.
    assert forall|j: int| 0 <= j < r.len() implies #[trigger] n.1[j].0 == r[j].0 by {
        assert(merged_block(n.1[j], r[j], blocks[pi].1, first_index(cfg(r), from) == Some(j), into, from));
    }
    // Unique ids.
    assert forall|i: int, j: int| 0 <= i < j < n.1.len() implies n.1[i].0 != n.1[j].0 by {
        assert(n.1[i].0 == r[i].0);
        assert(n.1[j].0 == r[j].0);
    }
    // Closed.
    assert forall|a: int, j: int| 0 <= a < n.1.len() && 0 <= j < successors(n.1[a].1.terminal).len() implies has_block(
        n.1,
        #[trigger] successors(n.1[a].1.terminal)[j],
    ) by {
        let x = successors(n.1[a].1.terminal)[j];
        assert(cfg(n.1)[a] == gn[a]);
        let orig = if a < pi { a } else { a + 1 };
        let src_index = if a == kp { pi } else { orig };
        assert(gn[a].1 == g[src_index].1);
        assert(successors(blocks[src_index].1.terminal)[j] == x);
        assert(has_block(blocks, x));
        let w = choose|w: int| 0 <= w < blocks.len() && blocks[w].0 == x;
        assert(src_index != k);
        assert(successors(blocks[src_index].1.terminal).contains(x));
        assert(x != into);
        assert(w != pi);
        let wr = if w < pi { w } else { w - 1 };
        assert(r[wr] == blocks[w]);
        assert(n.1[wr].0 == x);
    }
    // Counts only drop.
    assert forall|b: BlockId| #[trigger] pred_count(cfg(n.1), b) < usize::MAX by {
        lemma_pred_count_remove(g, b, pi);
        lemma_pred_count_update(g.remove(pi), b, kp, (from, successors(blocks[pi].1.terminal)));
        assert(g.remove(pi)[kp] == g[k]);
        assert(pred_count(g, b) < usize::MAX);
    }
}

proof fn lemma_trace_push(
    tr: Seq<(BlockId, Seq<(BlockId, BasicBlock)>)>,
    a: (BlockId, Seq<(BlockId, BasicBlock)>),
    z: (BlockId, Seq<(BlockId, BasicBlock)>),
    next: (BlockId, Seq<(BlockId, BasicBlock)>),
)
    requires
        merge_trace(tr, a, z),
        merge_next(next, z),
    ensures
        merge_trace(tr.push(next), a, next),
{
    let tr2 = tr.push(next);
    assert forall|i: int| 0 <= i < tr2.len() - 1 implies #[trigger] merge_next(tr2[i + 1], tr2[i]) by {
        if i < tr.len() - 1 {
            assert(tr2[i + 1] == tr[i + 1]);
            assert(tr2[i] == tr[i]);
        } else {
            assert(tr2[i] == z);
        }
    }
}

/// Merge basic blocks that have a single predecessor/successor
/// relationship: while some block `A` ends with `Goto { block: B }` where
/// `B` is another block with no other incoming edge, merge `B` into `A`
/// (the first such `A` in block order each time). When it stops, no such
/// pair is left, and the result is reached from the input by a run of
/// such merges, each removing one block. Every `Goto` must lead to a block
/// (else the same merge would be found forever), and the edges must be
/// fewer than `usize::MAX` (so every edge count fits a `usize`).
pub fn merge_consecutive_blocks(hir: &mut HIR)
    requires
        mergeable_cfg(old(hir).blocks@),
    ensures
        mergeable_cfg(final(hir).blocks@),
        first_candidate(final(hir).blocks@) is None,
        exists|tr: Seq<(BlockId, Seq<(BlockId, BasicBlock)>)>| merge_trace(
            tr,
            (old(hir).entry, old(hir).blocks@),
            (final(hir).entry, final(hir).blocks@),
        ) && final(hir).blocks@.len() + (tr.len() - 1) == old(hir).blocks@.len(),
{
    let ghost mut tr: Seq<(BlockId, Seq<(BlockId, BasicBlock)>)> = seq![(hir.entry, hir.blocks@)];
    loop
        invariant
            mergeable_cfg(hir.blocks@),
            merge_trace(tr, (old(hir).entry, old(hir).blocks@), (hir.entry, hir.blocks@)),
            hir.blocks@.len() + (tr.len() - 1) == old(hir).blocks@.len(),
        ensures
            mergeable_cfg(hir.blocks@),
            merge_trace(tr, (old(hir).entry, old(hir).blocks@), (hir.entry, hir.blocks@)),
            hir.blocks@.len() + (tr.len() - 1) == old(hir).blocks@.len(),
            first_candidate(hir.blocks@) is None,
        decreases hir.blocks@.len(),
    {
        proof {
            assert forall|b: BlockId| #[trigger] pred_count(cfg(hir.blocks@), b) < usize::MAX by {
                lemma_pred_count_le_edges(cfg(hir.blocks@), b);
            }
        }
        let merge = find_merge_candidate(hir);
        match merge {
            Some((from, into)) => {
                let ghost before = (hir.entry, hir.blocks@);
                apply_merge(hir, from, into);
                proof {
                    let after = (hir.entry, hir.blocks@);
                    lemma_merge_keeps_mergeable(after, before);
                    lemma_trace_push(tr, (old(hir).entry, old(hir).blocks@), before, after);
                    tr = tr.push(after);
                }
            },
            None => {
                proof {
                    lemma_first_candidate(hir.blocks@);
                }
                break;
            },
        }
    }
}

/// Every `Goto` of the graph leads to a block.
pub open spec fn goto_closed(blocks: Seq<(BlockId, BasicBlock)>) -> bool {
    forall|k: int| 0 <= k < blocks.len() && (#[trigger] goto_target(blocks[k].1.terminal)) is Some
        ==> has_block(blocks, goto_target(blocks[k].1.terminal)->Some_0)
}

/// A graph the merging runs on: every `Goto` leads to a block, and there
/// are fewer than `usize::MAX` edges.
pub open spec fn mergeable_cfg(blocks: Seq<(BlockId, BasicBlock)>) -> bool {
    &&& goto_closed(blocks)
    &&& edge_count(cfg(blocks)) < usize::MAX
}

proof fn lemma_edge_count_remove(g: Seq<(BlockId, Seq<BlockId>)>, i: int)
    requires
        0 <= i < g.len(),
    ensures
        edge_count(g) == edge_count(g.remove(i)) + g[i].1.len(),
    decreases g.len(),
{
    if i == g.len() - 1 {
        assert(g.remove(i) =~= g.drop_last());
    } else {
        lemma_edge_count_remove(g.drop_last(), i);
        assert(g.remove(i).drop_last() =~= g.drop_last().remove(i));
        assert(g.remove(i).last() == g.last());
    }
}

proof fn lemma_edge_count_update(g: Seq<(BlockId, Seq<BlockId>)>, i: int, x: (BlockId, Seq<BlockId>))
    requires
        0 <= i < g.len(),
    ensures
        edge_count(g.update(i, x)) + g[i].1.len() == edge_count(g) + x.1.len(),
    decreases g.len(),
{
    if i == g.len() - 1 {
        assert(g.update(i, x).drop_last() =~= g.drop_last());
    } else {
        lemma_edge_count_update(g.drop_last(), i, x);
        assert(g.update(i, x).drop_last() =~= g.drop_last().update(i, x));
    }
}

#[verifier::rlimit(60)]
#[verifier::spinoff_prover]
proof fn lemma_rewritten_goto(n: Terminal, o: Terminal, src: BlockId, dst: BlockId)
    requires
        rewritten_terminal(n, o, src, dst),
    ensures
        goto_target(n) == match goto_target(o) {
            Some(t) => Some(remap(t, src, dst)),
            None => None,
        },
{
}

/// One merge of the first candidate of a graph the merging runs on keeps it
/// such a graph and removes one block.
pub proof fn lemma_merge_keeps_mergeable(
    n: (BlockId, Seq<(BlockId, BasicBlock)>),
    o: (BlockId, Seq<(BlockId, BasicBlock)>),
)
    requires
        mergeable_cfg(o.1),
        merge_next(n, o),
    ensures
        mergeable_cfg(n.1),
        n.1.len() == o.1.len() - 1,
{
    let blocks = o.1;
    let g = cfg(blocks);
    lemma_first_candidate(blocks);
    let k = first_candidate(blocks)->Some_0;
    let from = blocks[k].0;
    let into = goto_target(blocks[k].1.terminal)->Some_0;
    assert(successors(blocks[k].1.terminal) =~= seq![into]);
    assert(count_in(seq![into], into) == 1) by {
        assert(seq![into].drop_last() =~= Seq::<BlockId>::empty());
        reveal_with_fuel(count_in, 2);
    }
    assert(goto_target(blocks[k].1.terminal) is Some);
    assert(has_block(blocks, into));
    let w0 = choose|m: int| 0 <= m < blocks.len() && blocks[m].0 == into;
    assert(g[w0].0 == into);
    lemma_first_index(g, into);
    let pi = first_index(g, into)->Some_0;
    assert(g[pi].0 == blocks[pi].0);
    assert(pi != k);
    // No terminal but `k`'s names `into`.
    assert forall|m: int| 0 <= m < blocks.len() && m != k implies !(#[trigger] successors(blocks[m].1.terminal)).contains(into) by {
        assert(g[m].1 == successors(blocks[m].1.terminal));
        assert(g[k].1 == successors(blocks[k].1.terminal));
        if m < k {
            lemma_pred_count_ge_two(g, into, m, k);
        } else {
            lemma_pred_count_ge_two(g, into, k, m);
        }
        lemma_count_in_zero(successors(blocks[m].1.terminal), into);
    }
    let r = blocks.remove(pi);
    let kp = if k < pi { k } else { k - 1 };
    assert(r[kp] == blocks[k]);
    let gr_ = cfg(r);
    assert(gr_[kp].0 == from);
    lemma_first_index(gr_, from);
    let p = first_index(gr_, from)->Some_0;
    assert(p <= kp);
    assert(gr_[p].0 == r[p].0);
    assert(r[p].0 == from);
    let sp = successors(blocks[pi].1.terminal);
    let gr = g.remove(pi);
    let gn = if p == kp {
        gr.update(kp, (from, sp))
    } else {
        gr.update(kp, (from, seq![from])).update(p, (from, sp))
    };
    assert(!sp.contains(into));
    assert forall|j: int| 0 <= j < r.len() implies #[trigger] n.1[j].0 == r[j].0 by {
        assert(merged_block(n.1[j], r[j], blocks[pi].1, first_index(cfg(r), from) == Some(j), into, from));
    }
    assert forall|j: int| 0 <= j < r.len() implies #[trigger] cfg(n.1)[j] == gn[j] by {
        let orig = if j < pi { j } else { j + 1 };
        assert(r[j] == blocks[orig]);
        assert(gr[j] == g[orig]);
        assert(merged_block(n.1[j], r[j], blocks[pi].1, first_index(cfg(r), from) == Some(j), into, from));
        if j == p {
            lemma_rewritten_successors(n.1[j].1.terminal, blocks[pi].1.terminal, into, from);
            assert(sp.map_values(|b: BlockId| remap(b, into, from)) =~= sp);
        } else if orig == k {
            lemma_rewritten_successors(n.1[j].1.terminal, blocks[k].1.terminal, into, from);
            assert(successors(n.1[j].1.terminal) =~= seq![from]);
        } else {
            lemma_rewritten_successors(n.1[j].1.terminal, r[j].1.terminal, into, from);
            assert(!successors(blocks[orig].1.terminal).contains(into));
            assert(successors(r[j].1.terminal).map_values(|b: BlockId| remap(b, into, from)) =~= successors(r[j].1.terminal));
        }
    }
    assert(cfg(n.1) =~= gn);
    // The edges only get fewer.
    lemma_edge_count_remove(g, pi);
    assert(gr[kp] == g[k]);
    assert(g[k].1 =~= seq![into]);
    assert(g[pi].1 == sp);
    if p == kp {
        lemma_edge_count_update(gr, kp, (from, sp));
    } else {
        lemma_edge_count_update(gr, kp, (from, seq![from]));
        lemma_edge_count_update(gr.update(kp, (from, seq![from])), p, (from, sp));
    }
    assert(edge_count(gn) <= edge_count(g));
    // Every `Goto` still leads to a block.
    assert forall|a: int| 0 <= a < n.1.len() && (#[trigger] goto_target(n.1[a].1.terminal)) is Some implies has_block(
        n.1,
        goto_target(n.1[a].1.terminal)->Some_0,
    ) by {
        let orig = if a < pi { a } else { a + 1 };
        assert(r[a] == blocks[orig]);
        assert(merged_block(n.1[a], r[a], blocks[pi].1, first_index(cfg(r), from) == Some(a), into, from));
        if a != p && orig == k {
            lemma_rewritten_goto(n.1[a].1.terminal, blocks[k].1.terminal, into, from);
            assert(n.1[kp].0 == from);
        } else {
            let src = if a == p { pi } else { orig };
            assert(src != k);
            let t0 = if a == p { blocks[pi].1.terminal } else { r[a].1.terminal };
            assert(t0 == blocks[src].1.terminal);
            lemma_rewritten_goto(n.1[a].1.terminal, t0, into, from);
            assert(goto_target(blocks[src].1.terminal) is Some);
            let t = goto_target(t0)->Some_0;
            assert(successors(t0) =~= seq![t]);
            assert(successors(t0)[0] == t);
            assert(successors(blocks[src].1.terminal).contains(t));
            assert(t != into);
            assert(has_block(blocks, t));
            let w = choose|w: int| 0 <= w < blocks.len() && blocks[w].0 == t;
            assert(w != pi);
            let wr = if w < pi { w } else { w - 1 };
            assert(r[wr] == blocks[w]);
            assert(n.1[wr].0 == t);
        }
    }
}

/// The number of edges of the graph, counted with multiplicity.
pub open spec fn edge_count(g: Seq<(BlockId, Seq<BlockId>)>) -> nat
    decreases g.len(),
{
    if g.len() == 0 {
        0
    } else {
        edge_count(g.drop_last()) + g.last().1.len()
    }
}

proof fn lemma_count_in_le_len(s: Seq<BlockId>, b: BlockId)
    ensures
        count_in(s, b) <= s.len(),
    decreases s.len(),
{
    if s.len() > 0 {
        lemma_count_in_le_len(s.drop_last(), b);
    }
}

proof fn lemma_pred_count_le_edges(g: Seq<(BlockId, Seq<BlockId>)>, b: BlockId)
    ensures
        pred_count(g, b) <= edge_count(g),
    decreases g.len(),
{
    if g.len() > 0 {
        lemma_pred_count_le_edges(g.drop_last(), b);
        lemma_count_in_le_len(g.last().1, b);
    }
}

/// Check that the graph can be merged: every `Goto` leads to a block, and
/// there are fewer than `usize::MAX` edges.
pub fn check_cfg_for_merging(hir: &HIR) -> (r: bool)
    ensures
        r == mergeable_cfg(hir.blocks@),
{
    let ghost b = hir.blocks@;
    let ghost g = cfg(b);
    let mut total: usize = 0;
    let mut k: usize = 0;
    while k < hir.blocks.len()
        invariant
            k <= b.len(),
            b == hir.blocks@,
            g == cfg(b),
            g.len() == b.len(),
            total == edge_count(g.take(k as int)),
            total < usize::MAX,
            forall|x: int| 0 <= x < k && (#[trigger] goto_target(b[x].1.terminal)) is Some ==> has_block(b, goto_target(b[x].1.terminal)->Some_0),
        decreases hir.blocks.len() - k,
    {
        proof {
            assert(g.take(k + 1).drop_last() =~= g.take(k as int));
            assert(g[k as int].1 == successors(b[k as int].1.terminal));
        }
        if let Terminal::Goto { block: t } = &hir.blocks[k].1.terminal {
            match find_block_index(&hir.blocks, *t) {
                Some(_) => {
                    proof {
                        lemma_first_index(cfg(b), *t);
                        let w = first_index(cfg(b), *t)->Some_0;
                        assert(cfg(b)[w].0 == b[w].0);
                    }
                },
                None => {
                    proof {
                        lemma_first_index(cfg(b), *t);
                        if has_block(b, *t) {
                            let w = choose|w: int| 0 <= w < b.len() && b[w].0 == *t;
                            assert(cfg(b)[w].0 == b[w].0);
                        }
                        assert(goto_target(b[k as int].1.terminal) is Some);
                        assert(!goto_closed(b));
                    }
                    return false;
                },
            }
        }
        let succs = terminal_successors(&hir.blocks[k].1.terminal);
        if succs.len() >= usize::MAX - total {
            proof {
                lemma_edge_count_prefix(g, k + 1);
            }
            return false;
        }
        total = total + succs.len();
        k = k + 1;
    }
    proof {
        assert(g.take(k as int) =~= g);
    }
    true
}

proof fn lemma_edge_count_prefix(g: Seq<(BlockId, Seq<BlockId>)>, k: int)
    requires
        0 <= k <= g.len(),
    ensures
        edge_count(g.take(k)) <= edge_count(g),
    decreases g.len() - k,
{
    if k < g.len() {
        lemma_edge_count_prefix(g, k + 1);
        assert(g.take(k + 1).drop_last() =~= g.take(k));
    } else {
        assert(g.take(k) =~= g);
    }
}

} // verus!
