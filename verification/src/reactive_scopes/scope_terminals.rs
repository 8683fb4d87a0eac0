//! Turn the scopes assigned to instruction results into `Scope` terminals
//! of the control-flow graph: for each scope (smallest span first), the
//! first block holding one of its instructions is split into the part
//! before the scope, a new block with the scope's instructions, and a new
//! fallthrough block with the rest; afterwards, scope annotations left on
//! instructions outside their scope's block are cleared.

use vstd::prelude::*;
use rustc_hash::{FxHashMap, FxHashSet};
use crate::fxhash::{fx_map_get, fx_map_insert, fx_set_elements, fx_set_insert};
use crate::hir::types::{
    BasicBlock, BlockId, BlockKind, HIR, Instruction, MutableRange, ReactiveScope, ScopeId, SourceLocation,
    Terminal,
};

verus! {

// ---------------------------------------------------------------------------
// Finding a scope's instructions
// ---------------------------------------------------------------------------

/// The result of the instruction is annotated with scope `sid`.
pub open spec fn in_scope(ins: Instruction, sid: u32) -> bool {
    match ins.lvalue.identifier.scope {
        Some(s) => s.id.0 == sid,
        None => false,
    }
}

/// The first position at or after `k` of an instruction of scope `sid`, or
/// -1.
pub open spec fn first_in_scope(q: Seq<Instruction>, sid: u32, k: int) -> int
    decreases q.len() - k,
{
    if k < 0 || k >= q.len() {
        -1
    } else if in_scope(q[k], sid) {
        k
    } else {
        first_in_scope(q, sid, k + 1)
    }
}

/// The last position before `k` of an instruction of scope `sid`, or -1.
pub open spec fn last_in_scope(q: Seq<Instruction>, sid: u32, k: int) -> int
    decreases k,
{
    if k <= 0 || k > q.len() {
        -1
    } else if in_scope(q[k - 1], sid) {
        k - 1
    } else {
        last_in_scope(q, sid, k - 1)
    }
}

pub open spec fn block_has_scope(b: BasicBlock, sid: u32) -> bool {
    exists|i: int| 0 <= i < b.instructions@.len() && in_scope(#[trigger] b.instructions@[i], sid)
}

/// The first block at or after `k` holding an instruction of scope `sid`,
/// or -1.
pub open spec fn first_block(bs: Seq<(BlockId, BasicBlock)>, sid: u32, k: int) -> int
    decreases bs.len() - k,
{
    if k < 0 || k >= bs.len() {
        -1
    } else if block_has_scope(bs[k].1, sid) {
        k
    } else {
        first_block(bs, sid, k + 1)
    }
}

proof fn lemma_first_in_scope(q: Seq<Instruction>, sid: u32, k: int)
    requires
        0 <= k <= q.len(),
    ensures
        first_in_scope(q, sid, k) == -1 || (k <= first_in_scope(q, sid, k) < q.len() && in_scope(q[first_in_scope(q, sid, k)], sid)),
        first_in_scope(q, sid, k) == -1 ==> forall|j: int| k <= j < q.len() ==> !in_scope(#[trigger] q[j], sid),
        forall|j: int| k <= j < q.len() && j < first_in_scope(q, sid, k) ==> !in_scope(#[trigger] q[j], sid),
    decreases q.len() - k,
{
    if k < q.len() && !in_scope(q[k], sid) {
        lemma_first_in_scope(q, sid, k + 1);
    }
}

proof fn lemma_last_in_scope(q: Seq<Instruction>, sid: u32, k: int)
    requires
        0 <= k <= q.len(),
    ensures
        last_in_scope(q, sid, k) == -1 || (0 <= last_in_scope(q, sid, k) < k && in_scope(q[last_in_scope(q, sid, k)], sid)),
        last_in_scope(q, sid, k) == -1 ==> forall|j: int| 0 <= j < k ==> !in_scope(#[trigger] q[j], sid),
        forall|j: int| last_in_scope(q, sid, k) < j < k ==> !in_scope(#[trigger] q[j], sid),
    decreases k,
{
    if k > 0 && !in_scope(q[k - 1], sid) {
        lemma_last_in_scope(q, sid, k - 1);
    }
}

proof fn lemma_first_block(bs: Seq<(BlockId, BasicBlock)>, sid: u32, k: int)
    requires
        0 <= k <= bs.len(),
    ensures
        first_block(bs, sid, k) == -1 || (k <= first_block(bs, sid, k) < bs.len() && block_has_scope(bs[first_block(bs, sid, k)].1, sid)),
        first_block(bs, sid, k) == -1 ==> forall|j: int| k <= j < bs.len() ==> !block_has_scope(#[trigger] bs[j].1, sid),
    decreases bs.len() - k,
{
    if k < bs.len() && !block_has_scope(bs[k].1, sid) {
        lemma_first_block(bs, sid, k + 1);
    }
}

fn instruction_in_scope(ins: &Instruction, sid: u32) -> (r: bool)
    ensures
        r == in_scope(*ins, sid),
{
    match &ins.lvalue.identifier.scope {
        Some(s) => s.id.0 == sid,
        None => false,
    }
}

/// `Iterator::position` over the instructions: the first of scope `sid`.
fn find_first_in_scope(q: &Vec<Instruction>, sid: u32) -> (r: Option<usize>)
    ensures
        match r {
            Some(p) => p as int == first_in_scope(q@, sid, 0),
            None => first_in_scope(q@, sid, 0) == -1,
        },
{
    let mut j: usize = 0;
    while j < q.len()
        invariant
            j <= q@.len(),
            first_in_scope(q@, sid, 0) == first_in_scope(q@, sid, j as int),
        decreases q.len() - j,
    {
        if instruction_in_scope(&q[j], sid) {
            return Some(j);
        }
        j = j + 1;
    }
    None
}

/// `Iterator::rposition` over the instructions: the last of scope `sid`.
fn find_last_in_scope(q: &Vec<Instruction>, sid: u32) -> (r: Option<usize>)
    ensures
        match r {
            Some(p) => p as int == last_in_scope(q@, sid, q@.len() as int),
            None => last_in_scope(q@, sid, q@.len() as int) == -1,
        },
{
    let mut j: usize = q.len();
    while j > 0
        invariant
            j <= q@.len(),
            last_in_scope(q@, sid, q@.len() as int) == last_in_scope(q@, sid, j as int),
        decreases j,
    {
        if instruction_in_scope(&q[j - 1], sid) {
            return Some(j - 1);
        }
        j = j - 1;
    }
    None
}

fn has_scope(b: &BasicBlock, sid: u32) -> (r: bool)
    ensures
        r == block_has_scope(*b, sid),
{
    let p = find_first_in_scope(&b.instructions, sid);
    proof {
        lemma_first_in_scope(b.instructions@, sid, 0);
    }
    p.is_some()
}

fn find_first_block(bs: &Vec<(BlockId, BasicBlock)>, sid: u32) -> (r: Option<usize>)
    ensures
        match r {
            Some(p) => p as int == first_block(bs@, sid, 0),
            None => first_block(bs@, sid, 0) == -1,
        },
{
    let mut k: usize = 0;
    while k < bs.len()
        invariant
            k <= bs@.len(),
            first_block(bs@, sid, 0) == first_block(bs@, sid, k as int),
        decreases bs.len() - k,
    {
        if has_scope(&bs[k].1, sid) {
            return Some(k);
        }
        k = k + 1;
    }
    None
}


// ---------------------------------------------------------------------------
// The scopes and their spans
// ---------------------------------------------------------------------------

/// The scope ids assigned to instruction results anywhere in the blocks.
pub open spec fn scoped_ids(bs: Seq<(BlockId, BasicBlock)>) -> Set<u32> {
    Set::new(|sid: u32| exists|k: int| 0 <= k < bs.len() && block_has_scope(#[trigger] bs[k].1, sid))
}

/// A scope, the first block holding it, and the positions of its first and
/// after its last instruction there.
pub type ScopeSpan = (u32, usize, usize, usize);

pub open spec fn scope_span(bs: Seq<(BlockId, BasicBlock)>, sid: u32) -> ScopeSpan {
    let b = first_block(bs, sid, 0);
    let q = bs[b].1.instructions@;
    (sid, b as usize, first_in_scope(q, sid, 0) as usize, (last_in_scope(q, sid, q.len() as int) + 1) as usize)
}

pub open spec fn span_len(x: ScopeSpan) -> int {
    x.3 - x.2
}

/// `s` (sorted by span) with `x` placed after every entry whose span is not
/// longer.
pub open spec fn insert_by_span(s: Seq<ScopeSpan>, x: ScopeSpan) -> Seq<ScopeSpan>
    decreases s.len(),
{
    if s.len() == 0 {
        seq![x]
    } else if span_len(s.last()) <= span_len(x) {
        s.push(x)
    } else {
        insert_by_span(s.drop_last(), x).push(s.last())
    }
}

/// The stable sort of `s` by span: shorter spans first, equal spans in
/// their order in `s`.
pub open spec fn sort_by_span(s: Seq<ScopeSpan>) -> Seq<ScopeSpan>
    decreases s.len(),
{
    if s.len() == 0 {
        s
    } else {
        insert_by_span(sort_by_span(s.drop_last()), s.last())
    }
}

proof fn lemma_insert_by_span(s: Seq<ScopeSpan>, x: ScopeSpan, p: int)
    requires
        0 <= p <= s.len(),
        forall|j: int| 0 <= j < p ==> span_len(#[trigger] s[j]) <= span_len(x),
        forall|j: int| p <= j < s.len() ==> span_len(#[trigger] s[j]) > span_len(x),
    ensures
        insert_by_span(s, x) == s.take(p).push(x) + s.skip(p),
    decreases s.len(),
{
    if s.len() == 0 {
        assert(s.take(p).push(x) + s.skip(p) =~= seq![x]);
    } else if span_len(s.last()) <= span_len(x) {
        assert(p == s.len());
        assert(s.take(p).push(x) + s.skip(p) =~= s.push(x));
    } else {
        let l = s.drop_last();
        assert(p < s.len());
        assert forall|j: int| 0 <= j < p implies span_len(#[trigger] l[j]) <= span_len(x) by {
            assert(l[j] == s[j]);
        }
        assert forall|j: int| p <= j < l.len() implies span_len(#[trigger] l[j]) > span_len(x) by {
            assert(l[j] == s[j]);
        }
        lemma_insert_by_span(l, x, p);
        assert(l.take(p).push(x) + l.skip(p) + seq![s.last()] =~= s.take(p).push(x) + s.skip(p));
    }
}

proof fn lemma_insert_by_span_sorted(s: Seq<ScopeSpan>, x: ScopeSpan)
    requires
        forall|i: int, j: int| 0 <= i < j < s.len() ==> span_len(#[trigger] s[i]) <= span_len(#[trigger] s[j]),
    ensures
        insert_by_span(s, x).len() == s.len() + 1,
        forall|i: int, j: int| 0 <= i < j < s.len() + 1 ==> span_len(#[trigger] insert_by_span(s, x)[i]) <= span_len(#[trigger] insert_by_span(s, x)[j]),
    decreases s.len(),
{
    if s.len() > 0 && span_len(s.last()) > span_len(x) {
        let l = s.drop_last();
        assert forall|i: int, j: int| 0 <= i < j < l.len() implies span_len(#[trigger] l[i]) <= span_len(#[trigger] l[j]) by {
            assert(l[i] == s[i] && l[j] == s[j]);
        }
        lemma_insert_by_span_sorted(l, x);
        let r = insert_by_span(l, x);
        assert forall|i: int| 0 <= i < r.len() implies span_len(#[trigger] r[i]) <= span_len(s.last()) by {
            if span_len(x) > span_len(s.last()) {
                assert(false);
            }
            lemma_insert_contents(l, x, i);
            if r[i] != x {
                let m = choose|m: int| 0 <= m < l.len() && l[m] == r[i];
                assert(l[m] == s[m]);
                assert(span_len(s[m]) <= span_len(s[s.len() - 1]));
            }
        }
    }
}

proof fn lemma_insert_contents(s: Seq<ScopeSpan>, x: ScopeSpan, i: int)
    requires
        0 <= i < insert_by_span(s, x).len(),
    ensures
        insert_by_span(s, x).len() == s.len() + 1,
        insert_by_span(s, x)[i] == x || exists|m: int| 0 <= m < s.len() && s[m] == insert_by_span(s, x)[i],
    decreases s.len(),
{
    if s.len() == 0 {
    } else if span_len(s.last()) <= span_len(x) {
        if i < s.len() {
            assert(s.push(x)[i] == s[i]);
        }
    } else {
        let l = s.drop_last();
        lemma_insert_contents(l, x, 0);
        let r = insert_by_span(l, x);
        if i < r.len() {
            lemma_insert_contents(l, x, i);
            if r[i] != x {
                let m = choose|m: int| 0 <= m < l.len() && l[m] == r[i];
                assert(s[m] == l[m]);
            }
        } else {
            assert(insert_by_span(s, x)[i] == s[s.len() - 1]);
        }
    }
}

proof fn lemma_sort_by_span_sorted(s: Seq<ScopeSpan>)
    ensures
        sort_by_span(s).len() == s.len(),
        forall|i: int, j: int| 0 <= i < j < s.len() ==> span_len(#[trigger] sort_by_span(s)[i]) <= span_len(#[trigger] sort_by_span(s)[j]),
    decreases s.len(),
{
    if s.len() > 0 {
        lemma_sort_by_span_sorted(s.drop_last());
        lemma_insert_by_span_sorted(sort_by_span(s.drop_last()), s.last());
    }
}

proof fn lemma_sort_contents(s: Seq<ScopeSpan>, i: int)
    requires
        0 <= i < s.len(),
    ensures
        sort_by_span(s).len() == s.len(),
        exists|m: int| 0 <= m < s.len() && s[m] == sort_by_span(s)[i],
    decreases s.len(),
{
    lemma_sort_by_span_sorted(s);
    let l = s.drop_last();
    lemma_sort_by_span_sorted(l);
    let r = sort_by_span(l);
    lemma_insert_contents(r, s.last(), i);
    if sort_by_span(s)[i] == s.last() {
        assert(s[s.len() - 1] == s.last());
    } else {
        let m = choose|m: int| 0 <= m < r.len() && r[m] == sort_by_span(s)[i];
        lemma_sort_contents(l, m);
        let m2 = choose|m2: int| 0 <= m2 < l.len() && l[m2] == r[m];
        assert(s[m2] == l[m2]);
    }
}

/// Sort the spans by length, keeping the order of equal lengths
/// (`slice::sort_by_key`, a stable sort).
fn sort_spans(infos: Vec<ScopeSpan>) -> (r: Vec<ScopeSpan>)
    requires
        forall|j: int| 0 <= j < infos@.len() ==> (#[trigger] infos@[j]).2 <= infos@[j].3,
    ensures
        r@ == sort_by_span(infos@),
{
    let ghost s = infos@;
    let mut sorted: Vec<ScopeSpan> = Vec::new();
    let mut k: usize = 0;
    proof {
        assert(s.take(0) =~= Seq::<ScopeSpan>::empty());
    }
    while k < infos.len()
        invariant
            k <= s.len(),
            s == infos@,
            forall|j: int| 0 <= j < s.len() ==> (#[trigger] s[j]).2 <= s[j].3,
            sorted@ == sort_by_span(s.take(k as int)),
        decreases infos.len() - k,
    {
        let x = infos[k];
        let key: usize = x.3 - x.2;
        proof {
            lemma_sort_by_span_sorted(s.take(k as int));
            assert forall|j: int| 0 <= j < sorted@.len() implies (#[trigger] sorted@[j]).2 <= sorted@[j].3 by {
                lemma_sort_contents(s.take(k as int), j);
                let m = choose|m: int| 0 <= m < s.take(k as int).len() && s.take(k as int)[m] == sort_by_span(s.take(k as int))[j];
                assert(s.take(k as int)[m] == s[m]);
            }
        }
        let ghost ss = sorted@;
        let mut p: usize = sorted.len();
        while p > 0 && sorted[p - 1].3 - sorted[p - 1].2 > key
            invariant
                p <= sorted@.len(),
                sorted@ == ss,
                key == span_len(x),
                forall|j: int| 0 <= j < ss.len() ==> (#[trigger] ss[j]).2 <= ss[j].3,
                forall|i: int, j: int| 0 <= i < j < ss.len() ==> span_len(#[trigger] ss[i]) <= span_len(#[trigger] ss[j]),
                forall|j: int| p <= j < ss.len() ==> span_len(#[trigger] ss[j]) > span_len(x),
            decreases p,
        {
            p = p - 1;
        }
        proof {
            assert forall|j: int| 0 <= j < p implies span_len(#[trigger] ss[j]) <= span_len(x) by {
                if p > 0 {
                    assert(span_len(ss[p - 1]) <= span_len(x));
                    if j < p - 1 {
                        assert(span_len(ss[j]) <= span_len(ss[p - 1]));
                    }
                }
            }
            lemma_insert_by_span(ss, x, p as int);
            assert(s.take(k + 1).drop_last() =~= s.take(k as int));
            assert(s.take(k + 1).last() == x);
        }
        sorted.insert(p, x);
        proof {
            assert(sorted@ =~= ss.take(p as int).push(x) + ss.skip(p as int));
        }
        k = k + 1;
    }
    proof {
        assert(s.take(k as int) =~= s);
    }
    sorted
}


// ---------------------------------------------------------------------------
// Splitting a block around a scope
// ---------------------------------------------------------------------------

/// Terminals whose control flow stays inside a scope that ends with its
/// block.
pub open spec fn inheritable(t: Terminal) -> bool {
    ||| t is If
    ||| t is Ternary
    ||| t is Logical
    ||| t is Optional
    ||| t is Sequence
    ||| t is Switch
    ||| t is For
    ||| t is ForOf
    ||| t is ForIn
    ||| t is While
    ||| t is DoWhile
    ||| t is Try
    ||| t is Label
    ||| t is Branch
    ||| t is MaybeThrow
}

/// The block control continues with after the terminal, if any.
pub open spec fn fallthrough_of(t: Terminal) -> Option<BlockId> {
    match t {
        Terminal::Goto { block } => Some(block),
        Terminal::If { fallthrough, .. } => Some(fallthrough),
        Terminal::Branch { consequent, .. } => Some(consequent),
        Terminal::Switch { fallthrough, .. } => Some(fallthrough),
        Terminal::Return { .. } => None,
        Terminal::Throw { .. } => None,
        Terminal::Unreachable => None,
        Terminal::For { fallthrough, .. } => Some(fallthrough),
        Terminal::ForOf { fallthrough, .. } => Some(fallthrough),
        Terminal::ForIn { fallthrough, .. } => Some(fallthrough),
        Terminal::DoWhile { fallthrough, .. } => Some(fallthrough),
        Terminal::While { fallthrough, .. } => Some(fallthrough),
        Terminal::Logical { fallthrough, .. } => Some(fallthrough),
        Terminal::Ternary { fallthrough, .. } => Some(fallthrough),
        Terminal::Optional { fallthrough, .. } => Some(fallthrough),
        Terminal::Sequence { fallthrough, .. } => Some(fallthrough),
        Terminal::Label { fallthrough, .. } => Some(fallthrough),
        Terminal::MaybeThrow { continuation, .. } => Some(continuation),
        Terminal::Try { fallthrough, .. } => Some(fallthrough),
        Terminal::Scope { fallthrough, .. } => Some(fallthrough),
        Terminal::PrunedScope { fallthrough, .. } => Some(fallthrough),
    }
}

/// Every block the terminal can continue with.
pub open spec fn successors_of(t: Terminal) -> Seq<BlockId> {
    match t {
        Terminal::Goto { block } => seq![block],
        Terminal::If { consequent, alternate, fallthrough, .. } => seq![consequent, alternate, fallthrough],
        Terminal::Branch { consequent, alternate, .. } => seq![consequent, alternate],
        Terminal::Switch { cases, fallthrough, .. } => cases@.map_values(|c: crate::hir::types::Case| c.block).push(fallthrough),
        Terminal::Return { .. } => Seq::empty(),
        Terminal::Throw { .. } => Seq::empty(),
        Terminal::Unreachable => Seq::empty(),
        Terminal::For { init, test, update, body, fallthrough } => match update {
            Some(u) => seq![init, test, body, fallthrough, u],
            None => seq![init, test, body, fallthrough],
        },
        Terminal::ForOf { init, test, body, fallthrough } => seq![init, test, body, fallthrough],
        Terminal::ForIn { init, test, body, fallthrough } => seq![init, test, body, fallthrough],
        Terminal::DoWhile { body, test, fallthrough } => seq![body, test, fallthrough],
        Terminal::While { test, body, fallthrough } => seq![test, body, fallthrough],
        Terminal::Logical { left, right, fallthrough, .. } => seq![left, right, fallthrough],
        Terminal::Ternary { consequent, alternate, fallthrough, .. } => seq![consequent, alternate, fallthrough],
        Terminal::Optional { consequent, fallthrough, .. } => seq![consequent, fallthrough],
        Terminal::Sequence { blocks, fallthrough } => blocks@.push(fallthrough),
        Terminal::Label { block, fallthrough, .. } => seq![block, fallthrough],
        Terminal::MaybeThrow { continuation, handler } => seq![continuation, handler],
        Terminal::Try { block, handler, fallthrough } => seq![block, handler, fallthrough],
        Terminal::Scope { block, fallthrough, .. } => seq![block, fallthrough],
        Terminal::PrunedScope { block, fallthrough, .. } => seq![block, fallthrough],
    }
}

fn is_inheritable(t: &Terminal) -> (r: bool)
    ensures
        r == inheritable(*t),
{
    match t {
        Terminal::If { .. } | Terminal::Ternary { .. } | Terminal::Logical { .. } | Terminal::Optional { .. }
        | Terminal::Sequence { .. } | Terminal::Switch { .. } | Terminal::For { .. } | Terminal::ForOf { .. }
        | Terminal::ForIn { .. } | Terminal::While { .. } | Terminal::DoWhile { .. } | Terminal::Try { .. }
        | Terminal::Label { .. } | Terminal::Branch { .. } | Terminal::MaybeThrow { .. } => true,
        _ => false,
    }
}

fn terminal_fallthrough(t: &Terminal) -> (r: Option<BlockId>)
    ensures
        r == fallthrough_of(*t),
{
    match t {
        Terminal::Goto { block } => Some(*block),
        Terminal::If { fallthrough, .. } => Some(*fallthrough),
        Terminal::Branch { consequent, .. } => Some(*consequent),
        Terminal::Switch { fallthrough, .. } => Some(*fallthrough),
        Terminal::Return { .. } => None,
        Terminal::Throw { .. } => None,
        Terminal::Unreachable => None,
        Terminal::For { fallthrough, .. } => Some(*fallthrough),
        Terminal::ForOf { fallthrough, .. } => Some(*fallthrough),
        Terminal::ForIn { fallthrough, .. } => Some(*fallthrough),
        Terminal::DoWhile { fallthrough, .. } => Some(*fallthrough),
        Terminal::While { fallthrough, .. } => Some(*fallthrough),
        Terminal::Logical { fallthrough, .. } => Some(*fallthrough),
        Terminal::Ternary { fallthrough, .. } => Some(*fallthrough),
        Terminal::Optional { fallthrough, .. } => Some(*fallthrough),
        Terminal::Sequence { fallthrough, .. } => Some(*fallthrough),
        Terminal::Label { fallthrough, .. } => Some(*fallthrough),
        Terminal::MaybeThrow { continuation, .. } => Some(*continuation),
        Terminal::Try { fallthrough, .. } => Some(*fallthrough),
        Terminal::Scope { fallthrough, .. } => Some(*fallthrough),
        Terminal::PrunedScope { fallthrough, .. } => Some(*fallthrough),
    }
}

fn terminal_successors(t: &Terminal) -> (r: Vec<BlockId>)
    ensures
        r@ == successors_of(*t),
{
    match t {
        Terminal::Goto { block } => vec![*block],
        Terminal::If { consequent, alternate, fallthrough, .. } => vec![*consequent, *alternate, *fallthrough],
        Terminal::Branch { consequent, alternate, .. } => vec![*consequent, *alternate],
        Terminal::Switch { cases, fallthrough, .. } => {
            let mut succs: Vec<BlockId> = Vec::new();
            let mut i: usize = 0;
            while i < cases.len()
                invariant
                    i <= cases@.len(),
                    succs@ == cases@.take(i as int).map_values(|c: crate::hir::types::Case| c.block),
                decreases cases.len() - i,
            {
                succs.push(cases[i].block);
                proof {
                    assert(cases@.take(i + 1).map_values(|c: crate::hir::types::Case| c.block)
                        =~= cases@.take(i as int).map_values(|c: crate::hir::types::Case| c.block).push(cases@[i as int].block));
                }
                i = i + 1;
            }
            proof {
                assert(cases@.take(i as int) =~= cases@);
            }
            succs.push(*fallthrough);
            succs
        },
        Terminal::Return { .. } => Vec::new(),
        Terminal::Throw { .. } => Vec::new(),
        Terminal::Unreachable => Vec::new(),
        Terminal::For { init, test, update, body, fallthrough } => {
            let mut succs = vec![*init, *test, *body, *fallthrough];
            if let Some(u) = update {
                succs.push(*u);
            }
            proof {
                assert(succs@ =~= successors_of(*t));
            }
            succs
        },
        Terminal::ForOf { init, test, body, fallthrough } => vec![*init, *test, *body, *fallthrough],
        Terminal::ForIn { init, test, body, fallthrough } => vec![*init, *test, *body, *fallthrough],
        Terminal::DoWhile { body, test, fallthrough } => vec![*body, *test, *fallthrough],
        Terminal::While { test, body, fallthrough } => vec![*test, *body, *fallthrough],
        Terminal::Logical { left, right, fallthrough, .. } => vec![*left, *right, *fallthrough],
        Terminal::Ternary { consequent, alternate, fallthrough, .. } => vec![*consequent, *alternate, *fallthrough],
        Terminal::Optional { consequent, fallthrough, .. } => vec![*consequent, *fallthrough],
        Terminal::Sequence { blocks, fallthrough } => {
            let mut succs: Vec<BlockId> = Vec::new();
            let mut i: usize = 0;
            while i < blocks.len()
                invariant
                    i <= blocks@.len(),
                    succs@ == blocks@.take(i as int),
                decreases blocks.len() - i,
            {
                succs.push(blocks[i]);
                proof {
                    assert(blocks@.take(i + 1) =~= blocks@.take(i as int).push(blocks@[i as int]));
                }
                i = i + 1;
            }
            proof {
                assert(blocks@.take(i as int) =~= blocks@);
            }
            succs.push(*fallthrough);
            succs
        },
        Terminal::Label { block, fallthrough, .. } => vec![*block, *fallthrough],
        Terminal::MaybeThrow { continuation, handler } => vec![*continuation, *handler],
        Terminal::Try { block, handler, fallthrough } => vec![*block, *handler, *fallthrough],
        Terminal::Scope { block, fallthrough, .. } => vec![*block, *fallthrough],
        Terminal::PrunedScope { block, fallthrough, .. } => vec![*block, *fallthrough],
    }
}


/// A scope made for an instruction found inside a scope's range without
/// one: the scope's id, the range and location of the scope's first
/// instruction, and nothing else.
pub open spec fn fresh_scope(s: ReactiveScope, sid: u32, range: MutableRange, loc: SourceLocation) -> bool {
    &&& s.id == ScopeId(sid)
    &&& s.range == range
    &&& s.dependencies@.len() == 0
    &&& s.declarations@.len() == 0
    &&& s.reassignments@.len() == 0
    &&& s.early_return_value is None
    &&& s.merged@.len() == 0
    &&& s.loc == loc
    &&& !s.is_allocating
}

/// `n` is the instruction `o` moved into the scope's block: an instruction
/// without a scope gets a fresh one.
pub open spec fn annotated(n: Instruction, o: Instruction, sid: u32, range: MutableRange, loc: SourceLocation) -> bool {
    if o.lvalue.identifier.scope is None {
        &&& n == Instruction {
            lvalue: crate::hir::types::Place {
                identifier: crate::hir::types::Identifier { scope: n.lvalue.identifier.scope, ..o.lvalue.identifier },
                ..o.lvalue
            },
            ..o
        }
        &&& n.lvalue.identifier.scope is Some
        &&& fresh_scope(*n.lvalue.identifier.scope->Some_0, sid, range, loc)
    } else {
        n == o
    }
}

pub open spec fn repointed(ps: Seq<BlockId>, from: BlockId, to: BlockId) -> Seq<BlockId> {
    ps.map_values(|p: BlockId| if p == from { to } else { p })
}

/// No block before `k` has the id of block `k`.
pub open spec fn first_with_id(n: Seq<(BlockId, BasicBlock)>, k: int) -> bool {
    forall|j: int| 0 <= j < k ==> n[j].0 != n[k].0
}

/// The predecessors of block `k` of the split blocks before the
/// predecessors of the old terminal's successors are updated.
pub open spec fn split_preds(o: Seq<(BlockId, BasicBlock)>, e: int, k: int, next: u32) -> Seq<BlockId> {
    if k < o.len() {
        o[k].1.preds@
    } else if k == o.len() {
        seq![o[e].0]
    } else {
        seq![BlockId(next)]
    }
}

/// `n` is the block list `o` with scope `sid` given its own block: the
/// first block `e` holding one of its instructions keeps what comes before
/// the scope's first instruction and ends with a `Scope` terminal; a new
/// block `next` holds the scope's instructions (those without a scope get
/// a fresh one); a new block `next + 1` holds the rest. The old terminal
/// goes with the scope when the scope ends the block and the terminal
/// keeps its control flow inside (the rest then continues with the old
/// terminal's fallthrough), else with the rest. The first block with the
/// id of each successor of the old terminal has its predecessor `e`
/// replaced by the new block that now holds the terminal.
pub open spec fn scope_inserted(n: Seq<(BlockId, BasicBlock)>, o: Seq<(BlockId, BasicBlock)>, sid: u32, next: u32) -> bool {
    let e = first_block(o, sid, 0);
    if e == -1 {
        n == o
    } else {
        let ob = o[e].1;
        let q = ob.instructions@;
        let start = first_in_scope(q, sid, 0);
        let end = last_in_scope(q, sid, q.len() as int) + 1;
        let inherits = end == q.len() && inheritable(ob.terminal);
        let sb = BlockId(next);
        let fb = BlockId((next + 1) as u32);
        let to = if inherits { sb } else { fb };
        let succs = successors_of(ob.terminal);
        let refs = *q[start].lvalue.identifier.scope->Some_0;
        &&& n.len() == o.len() + 2
        &&& forall|k: int| 0 <= k < n.len() ==> (#[trigger] n[k]).1.preds@ == (if succs.contains(n[k].0) && first_with_id(n, k) {
            repointed(split_preds(o, e, k, next), o[e].0, to)
        } else {
            split_preds(o, e, k, next)
        })
        &&& forall|k: int| 0 <= k < o.len() && k != e ==> {
            &&& (#[trigger] n[k]).0 == o[k].0
            &&& n[k].1.kind == o[k].1.kind
            &&& n[k].1.id == o[k].1.id
            &&& n[k].1.instructions == o[k].1.instructions
            &&& n[k].1.terminal == o[k].1.terminal
            &&& n[k].1.phis == o[k].1.phis
        }
        &&& n[e].0 == o[e].0
        &&& n[e].1.kind == ob.kind
        &&& n[e].1.id == ob.id
        &&& n[e].1.phis == ob.phis
        &&& n[e].1.instructions@ == q.take(start)
        &&& n[e].1.terminal == (Terminal::Scope { scope: ScopeId(sid), block: sb, fallthrough: fb })
        &&& n[o.len() as int].0 == sb
        &&& n[o.len() as int].1.kind == BlockKind::Block
        &&& n[o.len() as int].1.id == sb
        &&& n[o.len() as int].1.phis@.len() == 0
        &&& n[o.len() as int].1.instructions@.len() == end - start
        &&& forall|j: int| 0 <= j < end - start ==> annotated(#[trigger] n[o.len() as int].1.instructions@[j], q[start + j], sid, refs.range, refs.loc)
        &&& n[o.len() as int].1.terminal == (if inherits { ob.terminal } else { Terminal::Goto { block: fb } })
        &&& n[o.len() as int + 1].0 == fb
        &&& n[o.len() as int + 1].1.kind == ob.kind
        &&& n[o.len() as int + 1].1.id == fb
        &&& n[o.len() as int + 1].1.phis@.len() == 0
        &&& n[o.len() as int + 1].1.instructions@ == q.skip(end)
        &&& n[o.len() as int + 1].1.terminal == (if inherits {
            Terminal::Goto {
                block: match fallthrough_of(ob.terminal) {
                    Some(f) => f,
                    None => fb,
                },
            }
        } else {
            ob.terminal
        })
    }
}

fn repoint_preds(preds: &mut Vec<BlockId>, from: BlockId, to: BlockId)
    ensures
        final(preds)@ == repointed(old(preds)@, from, to),
{
    let mut m: usize = 0;
    while m < preds.len()
        invariant
            m <= preds@.len(),
            preds@.len() == old(preds)@.len(),
            forall|j: int| 0 <= j < m ==> #[trigger] preds@[j] == (if old(preds)@[j] == from { to } else { old(preds)@[j] }),
            forall|j: int| m <= j < preds@.len() ==> #[trigger] preds@[j] == old(preds)@[j],
        decreases preds.len() - m,
    {
        if preds[m] == from {
            preds.set(m, to);
        }
        m = m + 1;
    }
    proof {
        assert(preds@ =~= repointed(old(preds)@, from, to));
    }
}

/// Give each instruction without a scope a fresh scope `sid`.
fn annotate_instructions(q: &mut Vec<Instruction>, sid: u32, range: MutableRange, loc: SourceLocation)
    ensures
        final(q)@.len() == old(q)@.len(),
        forall|j: int| 0 <= j < final(q)@.len() ==> annotated(#[trigger] final(q)@[j], old(q)@[j], sid, range, loc),
{
    let mut j: usize = 0;
    while j < q.len()
        invariant
            j <= q@.len(),
            q@.len() == old(q)@.len(),
            forall|k: int| 0 <= k < j ==> annotated(#[trigger] q@[k], old(q)@[k], sid, range, loc),
            forall|k: int| j <= k < q@.len() ==> #[trigger] q@[k] == old(q)@[k],
        decreases q.len() - j,
    {
        if q[j].lvalue.identifier.scope.is_none() {
            q[j].lvalue.identifier.scope = Some(Box::new(ReactiveScope {
                id: ScopeId(sid),
                range,
                dependencies: Vec::new(),
                declarations: Vec::new(),
                reassignments: Vec::new(),
                early_return_value: None,
                merged: Vec::new(),
                loc,
                is_allocating: false,
            }));
        }
        j = j + 1;
    }
}

/// Split the first block holding scope `sid` around it (see
/// `scope_inserted`), allocating two block ids from `next_id`.
fn insert_scope_terminal_by_position(blocks: &mut Vec<(BlockId, BasicBlock)>, sid: u32, next_id: &mut u32)
    requires
        *old(next_id) + 2 <= u32::MAX,
    ensures
        scope_inserted(final(blocks)@, old(blocks)@, sid, *old(next_id)),
        *final(next_id) == (if first_block(old(blocks)@, sid, 0) == -1 { *old(next_id) } else { (*old(next_id) + 2) as u32 }),
{
    let ghost o = blocks@;
    let e = match find_first_block(blocks, sid) {
        Some(e) => e,
        None => {
            return;
        },
    };
    let ghost ob = o[e as int].1;
    let ghost q = ob.instructions@;
    proof {
        lemma_first_block(o, sid, 0);
        lemma_first_in_scope(q, sid, 0);
        lemma_last_in_scope(q, sid, q.len() as int);
    }
    let start = match find_first_in_scope(&blocks[e].1.instructions, sid) {
        Some(p) => p,
        None => {
            return;
        },
    };
    let total = blocks[e].1.instructions.len();
    proof {
        assert(blocks@[e as int].1.instructions@ == q);
        assert(q.len() == total);
    }
    let end: usize = match find_last_in_scope(&blocks[e].1.instructions, sid) {
        Some(p) => p + 1,
        None => start + 1,
    };
    proof {
        assert(start as int <= end - 1);
    }
    let original_block_id = blocks[e].0;
    let original_kind = blocks[e].1.kind;
    let mut instrs: Vec<Instruction> = Vec::new();
    std::mem::swap(&mut instrs, &mut blocks[e].1.instructions);
    let mut original_terminal = Terminal::Unreachable;
    std::mem::swap(&mut original_terminal, &mut blocks[e].1.terminal);
    let after = instrs.split_off(end);
    let mut scope_instrs = instrs.split_off(start);
    let before = instrs;
    let (range, loc) = match &scope_instrs[0].lvalue.identifier.scope {
        Some(r) => (r.range, r.loc),
        None => {
            proof {
                assert(scope_instrs@[0] == q[start as int]);
            }
            (MutableRange { start: crate::hir::types::InstructionId(0), end: crate::hir::types::InstructionId(0) }, SourceLocation { start: 0, end: 0 })
        },
    };
    let ghost seg = scope_instrs@;
    annotate_instructions(&mut scope_instrs, sid, range, loc);
    let inherits = end == total && is_inheritable(&original_terminal);
    let succs = terminal_successors(&original_terminal);
    let ft = terminal_fallthrough(&original_terminal);
    let scope_block_id = BlockId(*next_id);
    *next_id = *next_id + 1;
    let ft_block_id = BlockId(*next_id);
    *next_id = *next_id + 1;
    let (scope_terminal, ft_terminal) = if inherits {
        let g = match ft {
            Some(f) => f,
            None => ft_block_id,
        };
        (original_terminal, Terminal::Goto { block: g })
    } else {
        (Terminal::Goto { block: ft_block_id }, original_terminal)
    };
    let scope_block = BasicBlock {
        kind: BlockKind::Block,
        id: scope_block_id,
        instructions: scope_instrs,
        terminal: scope_terminal,
        preds: vec![original_block_id],
        phis: Vec::new(),
    };
    let ft_block = BasicBlock {
        kind: original_kind,
        id: ft_block_id,
        instructions: after,
        terminal: ft_terminal,
        preds: vec![scope_block_id],
        phis: Vec::new(),
    };
    blocks[e].1.instructions = before;
    blocks[e].1.terminal = Terminal::Scope { scope: ScopeId(sid), block: scope_block_id, fallthrough: ft_block_id };
    blocks.push((scope_block_id, scope_block));
    blocks.push((ft_block_id, ft_block));
    let ghost mid = blocks@;
    let pred_for = if inherits { scope_block_id } else { ft_block_id };
    proof {
        assert(seg =~= q.subrange(start as int, end as int));
        assert(before@ =~= q.take(start as int));
        assert(after@ =~= q.skip(end as int));
        assert forall|k: int| 0 <= k < mid.len() implies #[trigger] mid[k].1.preds@ == split_preds(o, e as int, k, *old(next_id)) by {}
    }
    let mut j: usize = 0;
    while j < succs.len()
        invariant
            j <= succs@.len(),
            blocks@.len() == mid.len(),
            forall|k: int| 0 <= k < mid.len() ==> {
                &&& (#[trigger] blocks@[k]).0 == mid[k].0
                &&& blocks@[k].1.kind == mid[k].1.kind
                &&& blocks@[k].1.id == mid[k].1.id
                &&& blocks@[k].1.instructions == mid[k].1.instructions
                &&& blocks@[k].1.terminal == mid[k].1.terminal
                &&& blocks@[k].1.phis == mid[k].1.phis
                &&& blocks@[k].1.preds@ == (if succs@.take(j as int).contains(mid[k].0) && first_with_id(mid, k) {
                    repointed(mid[k].1.preds@, original_block_id, pred_for)
                } else {
                    mid[k].1.preds@
                })
            },
        decreases succs.len() - j,
    {
        let succ = succs[j];
        let mut k: usize = 0;
        while k < blocks.len() && blocks[k].0 != succ
            invariant
                k <= blocks@.len(),
                blocks@.len() == mid.len(),
                forall|m: int| 0 <= m < mid.len() ==> (#[trigger] blocks@[m]).0 == mid[m].0,
                forall|m: int| 0 <= m < k ==> mid[m].0 != succ,
            decreases blocks.len() - k,
        {
            k = k + 1;
        }
        let ghost cur = blocks@;
        if k < blocks.len() {
            repoint_preds(&mut blocks[k].1.preds, original_block_id, pred_for);
        }
        proof {
            assert(succs@.take(j + 1) =~= succs@.take(j as int).push(succ));
            assert forall|m: int| 0 <= m < mid.len() implies {
                &&& (#[trigger] blocks@[m]).0 == mid[m].0
                &&& blocks@[m].1.kind == mid[m].1.kind
                &&& blocks@[m].1.id == mid[m].1.id
                &&& blocks@[m].1.instructions == mid[m].1.instructions
                &&& blocks@[m].1.terminal == mid[m].1.terminal
                &&& blocks@[m].1.phis == mid[m].1.phis
                &&& blocks@[m].1.preds@ == (if succs@.take(j + 1).contains(mid[m].0) && first_with_id(mid, m) {
                    repointed(mid[m].1.preds@, original_block_id, pred_for)
                } else {
                    mid[m].1.preds@
                })
            } by {
                if k < mid.len() && m == k as int {
                    assert(first_with_id(mid, m));
                    assert(succs@.take(j + 1).contains(mid[m].0)) by {
                        assert(succs@.take(j + 1)[j as int] == succ);
                    }
                    if succs@.take(j as int).contains(mid[m].0) {
                        assert(repointed(repointed(mid[m].1.preds@, original_block_id, pred_for), original_block_id, pred_for)
                            =~= repointed(mid[m].1.preds@, original_block_id, pred_for));
                    }
                } else {
                    assert(blocks@[m] == cur[m]);
                    if succs@.take(j + 1).contains(mid[m].0) && first_with_id(mid, m) && !succs@.take(j as int).contains(mid[m].0) {
                        assert(mid[m].0 == succ) by {
                            let t1 = succs@.take(j + 1);
                            let w = choose|w: int| 0 <= w < t1.len() && #[trigger] t1[w] == mid[m].0;
                            if w < j {
                                assert(succs@.take(j as int)[w] == mid[m].0);
                            }
                        }
                        if k < mid.len() {
                            assert(mid[k as int].0 == succ);
                            if m > k {
                                assert(mid[k as int].0 != mid[m].0);
                            }
                        }
                    }
                }
            }
        }
        j = j + 1;
    }
    proof {
        assert(succs@.take(j as int) =~= succs@);
        let n = blocks@;
        assert forall|k: int| 0 <= k < n.len() implies first_with_id(n, k) == first_with_id(mid, k) by {
            assert forall|i: int| 0 <= i < n.len() implies n[i].0 == mid[i].0 by {
                assert(blocks@[i].0 == mid[i].0);
            }
        }
    }
}


// ---------------------------------------------------------------------------
// Stale annotations
// ---------------------------------------------------------------------------

/// For each scope id, the block of the last `Scope` terminal for it.
pub open spec fn scope_block_map(bs: Seq<(BlockId, BasicBlock)>) -> Map<u32, BlockId>
    decreases bs.len(),
{
    if bs.len() == 0 {
        Map::empty()
    } else {
        let m = scope_block_map(bs.drop_last());
        match bs.last().1.terminal {
            Terminal::Scope { scope, block, .. } => m.insert(scope.0, block),
            _ => m,
        }
    }
}

/// The instruction, in block `at`, claims a scope whose terminal is in
/// another block.
pub open spec fn stale(ins: Instruction, at: BlockId, m: Map<u32, BlockId>) -> bool {
    match ins.lvalue.identifier.scope {
        Some(s) => m.contains_key(s.id.0) && at != m[s.id.0],
        None => false,
    }
}

pub open spec fn cleared(n: Instruction, o: Instruction, at: BlockId, m: Map<u32, BlockId>) -> bool {
    if stale(o, at, m) {
        n == Instruction {
            lvalue: crate::hir::types::Place {
                identifier: crate::hir::types::Identifier { scope: None, ..o.lvalue.identifier },
                ..o.lvalue
            },
            ..o
        }
    } else {
        n == o
    }
}

/// `n` is `o` with every stale scope annotation removed.
pub open spec fn stale_cleared(n: Seq<(BlockId, BasicBlock)>, o: Seq<(BlockId, BasicBlock)>, m: Map<u32, BlockId>) -> bool {
    &&& n.len() == o.len()
    &&& forall|k: int| 0 <= k < n.len() ==> {
        &&& (#[trigger] n[k]).0 == o[k].0
        &&& n[k].1.kind == o[k].1.kind
        &&& n[k].1.id == o[k].1.id
        &&& n[k].1.terminal == o[k].1.terminal
        &&& n[k].1.preds == o[k].1.preds
        &&& n[k].1.phis == o[k].1.phis
        &&& n[k].1.instructions@.len() == o[k].1.instructions@.len()
        &&& forall|i: int| 0 <= i < n[k].1.instructions@.len() ==> cleared(#[trigger] n[k].1.instructions@[i], o[k].1.instructions@[i], o[k].0, m)
    }
}

fn collect_scope_blocks(blocks: &Vec<(BlockId, BasicBlock)>) -> (m: FxHashMap<u32, BlockId>)
    ensures
        m@ == scope_block_map(blocks@),
{
    let mut m: FxHashMap<u32, BlockId> = FxHashMap::default();
    proof {
        assert(m@ =~= Map::<u32, BlockId>::empty());
        assert(blocks@.take(0) =~= Seq::<(BlockId, BasicBlock)>::empty());
    }
    let mut k: usize = 0;
    while k < blocks.len()
        invariant
            k <= blocks@.len(),
            m@ == scope_block_map(blocks@.take(k as int)),
        decreases blocks.len() - k,
    {
        if let Terminal::Scope { scope, block, .. } = &blocks[k].1.terminal {
            fx_map_insert(&mut m, scope.0, *block);
        }
        proof {
            assert(blocks@.take(k + 1).drop_last() =~= blocks@.take(k as int));
            assert(blocks@.take(k + 1).last() == blocks@[k as int]);
        }
        k = k + 1;
    }
    proof {
        assert(blocks@.take(k as int) =~= blocks@);
    }
    m
}

fn clear_stale_annotations(blocks: &mut Vec<(BlockId, BasicBlock)>, m: &FxHashMap<u32, BlockId>)
    ensures
        stale_cleared(final(blocks)@, old(blocks)@, m@),
{
    let mut k: usize = 0;
    while k < blocks.len()
        invariant
            k <= blocks@.len(),
            blocks@.len() == old(blocks)@.len(),
            forall|b: int| 0 <= b < k ==> {
                &&& (#[trigger] blocks@[b]).0 == old(blocks)@[b].0
                &&& blocks@[b].1.kind == old(blocks)@[b].1.kind
                &&& blocks@[b].1.id == old(blocks)@[b].1.id
                &&& blocks@[b].1.terminal == old(blocks)@[b].1.terminal
                &&& blocks@[b].1.preds == old(blocks)@[b].1.preds
                &&& blocks@[b].1.phis == old(blocks)@[b].1.phis
                &&& blocks@[b].1.instructions@.len() == old(blocks)@[b].1.instructions@.len()
                &&& forall|i: int| 0 <= i < blocks@[b].1.instructions@.len() ==> cleared(#[trigger] blocks@[b].1.instructions@[i], old(blocks)@[b].1.instructions@[i], old(blocks)@[b].0, m@)
            },
            forall|b: int| k <= b < blocks@.len() ==> #[trigger] blocks@[b] == old(blocks)@[b],
        decreases blocks.len() - k,
    {
        let block_id = blocks[k].0;
        let ghost ob = blocks@[k as int];
        let mut i: usize = 0;
        while i < blocks[k].1.instructions.len()
            invariant
                k < blocks@.len(),
                i <= blocks@[k as int].1.instructions@.len(),
                blocks@.len() == old(blocks)@.len(),
                block_id == ob.0,
                blocks@[k as int].0 == ob.0,
                blocks@[k as int].1.kind == ob.1.kind,
                blocks@[k as int].1.id == ob.1.id,
                blocks@[k as int].1.terminal == ob.1.terminal,
                blocks@[k as int].1.preds == ob.1.preds,
                blocks@[k as int].1.phis == ob.1.phis,
                blocks@[k as int].1.instructions@.len() == ob.1.instructions@.len(),
                forall|j: int| 0 <= j < i ==> cleared(#[trigger] blocks@[k as int].1.instructions@[j], ob.1.instructions@[j], ob.0, m@),
                forall|j: int| i <= j < blocks@[k as int].1.instructions@.len() ==> #[trigger] blocks@[k as int].1.instructions@[j] == ob.1.instructions@[j],
                forall|b: int| 0 <= b < blocks@.len() && b != k ==> #[trigger] blocks@[b] == old(blocks)@[b] || b < k,
                forall|b: int| 0 <= b < k ==> {
                    &&& (#[trigger] blocks@[b]).0 == old(blocks)@[b].0
                    &&& blocks@[b].1.kind == old(blocks)@[b].1.kind
                    &&& blocks@[b].1.id == old(blocks)@[b].1.id
                    &&& blocks@[b].1.terminal == old(blocks)@[b].1.terminal
                    &&& blocks@[b].1.preds == old(blocks)@[b].1.preds
                    &&& blocks@[b].1.phis == old(blocks)@[b].1.phis
                    &&& blocks@[b].1.instructions@.len() == old(blocks)@[b].1.instructions@.len()
                    &&& forall|ii: int| 0 <= ii < blocks@[b].1.instructions@.len() ==> cleared(#[trigger] blocks@[b].1.instructions@[ii], old(blocks)@[b].1.instructions@[ii], old(blocks)@[b].0, m@)
                },
                forall|b: int| k < b < blocks@.len() ==> #[trigger] blocks@[b] == old(blocks)@[b],
                ob == old(blocks)@[k as int],
            decreases blocks@[k as int].1.instructions@.len() - i,
        {
            let is_stale = match &blocks[k].1.instructions[i].lvalue.identifier.scope {
                Some(s) => match fx_map_get(m, s.id.0) {
                    Some(at) => block_id != *at,
                    None => false,
                },
                None => false,
            };
            if is_stale {
                blocks[k].1.instructions[i].lvalue.identifier.scope = None;
            }
            i = i + 1;
        }
        k = k + 1;
    }
}


// ---------------------------------------------------------------------------
// The pass
// ---------------------------------------------------------------------------

/// The largest block id of the list, 0 when it is empty.
pub open spec fn max_block_id(bs: Seq<(BlockId, BasicBlock)>) -> u32
    decreases bs.len(),
{
    if bs.len() == 0 {
        0
    } else {
        let m = max_block_id(bs.drop_last());
        if bs.last().0.0 > m { bs.last().0.0 } else { m }
    }
}

/// The block lists after each insertion in turn, and the next free block
/// id before each.
pub open spec fn insertions(hs: Seq<Seq<(BlockId, BasicBlock)>>, nexts: Seq<u32>, spans: Seq<ScopeSpan>) -> bool {
    &&& hs.len() == spans.len() + 1
    &&& nexts.len() == spans.len() + 1
    &&& forall|k: int| 0 <= k < spans.len() ==> {
        &&& scope_inserted(hs[k + 1], hs[k], (#[trigger] spans[k]).0, nexts[k])
        &&& nexts[k + 1] == (if first_block(hs[k], spans[k].0, 0) == -1 { nexts[k] } else { (nexts[k] + 2) as u32 })
    }
}

fn collect_scope_ids(blocks: &Vec<(BlockId, BasicBlock)>) -> (r: FxHashSet<u32>)
    ensures
        r@ == scoped_ids(blocks@),
{
    let ghost bs = blocks@;
    let mut ids: FxHashSet<u32> = FxHashSet::default();
    proof {
        assert(ids@ =~= Set::<u32>::empty());
    }
    let mut b: usize = 0;
    while b < blocks.len()
        invariant
            b <= bs.len(),
            bs == blocks@,
            ids@ == Set::new(|sid: u32| exists|k: int| 0 <= k < b && block_has_scope(#[trigger] bs[k].1, sid)),
        decreases blocks.len() - b,
    {
        let block = &blocks[b].1;
        let ghost before = ids@;
        let mut i: usize = 0;
        while i < block.instructions.len()
            invariant
                i <= block.instructions@.len(),
                block == bs[b as int].1,
                ids@ == before.union(Set::new(|sid: u32| exists|j: int| 0 <= j < i && in_scope(#[trigger] block.instructions@[j], sid))),
            decreases block.instructions.len() - i,
        {
            if let Some(sc) = &block.instructions[i].lvalue.identifier.scope {
                fx_set_insert(&mut ids, sc.id.0);
            }
            proof {
                assert(ids@ =~= before.union(Set::new(|sid: u32| exists|j: int| 0 <= j < i + 1 && in_scope(#[trigger] block.instructions@[j], sid)))) by {
                    assert forall|sid: u32| (exists|j: int| 0 <= j < i + 1 && in_scope(#[trigger] block.instructions@[j], sid))
                        == ((exists|j: int| 0 <= j < i && in_scope(#[trigger] block.instructions@[j], sid)) || in_scope(block.instructions@[i as int], sid)) by {
                        if exists|j: int| 0 <= j < i + 1 && in_scope(#[trigger] block.instructions@[j], sid) {
                            let j = choose|j: int| 0 <= j < i + 1 && in_scope(#[trigger] block.instructions@[j], sid);
                            if j < i {
                            }
                        }
                    }
                }
            }
            i = i + 1;
        }
        proof {
            assert(ids@ =~= Set::new(|sid: u32| exists|k: int| 0 <= k < b + 1 && block_has_scope(#[trigger] bs[k].1, sid))) by {
                assert forall|sid: u32| (exists|k: int| 0 <= k < b + 1 && block_has_scope(#[trigger] bs[k].1, sid))
                    == ((exists|k: int| 0 <= k < b && block_has_scope(#[trigger] bs[k].1, sid)) || block_has_scope(bs[b as int].1, sid)) by {
                    if exists|k: int| 0 <= k < b + 1 && block_has_scope(#[trigger] bs[k].1, sid) {
                        let k = choose|k: int| 0 <= k < b + 1 && block_has_scope(#[trigger] bs[k].1, sid);
                    }
                }
                assert forall|sid: u32| block_has_scope(bs[b as int].1, sid) == (exists|j: int| 0 <= j < block.instructions@.len() && in_scope(#[trigger] block.instructions@[j], sid)) by {}
            }
        }
        b = b + 1;
    }
    proof {
        assert(ids@ =~= scoped_ids(bs));
    }
    ids
}

/// The span of a scope of the list, computed as `scope_span` states.
fn compute_scope_span(blocks: &Vec<(BlockId, BasicBlock)>, sid: u32) -> (r: ScopeSpan)
    requires
        scoped_ids(blocks@).contains(sid),
    ensures
        r == scope_span(blocks@, sid),
        r.2 < r.3,
{
    let ghost bs = blocks@;
    proof {
        lemma_first_block(bs, sid, 0);
        let k = choose|k: int| 0 <= k < bs.len() && block_has_scope(#[trigger] bs[k].1, sid);
    }
    let b = match find_first_block(blocks, sid) {
        Some(b) => b,
        None => {
            return (sid, 0, 0, 1);
        },
    };
    let ghost q = bs[b as int].1.instructions@;
    let total = blocks[b].1.instructions.len();
    proof {
        assert(q.len() == total);
        lemma_first_in_scope(q, sid, 0);
        lemma_last_in_scope(q, sid, q.len() as int);
        let i = choose|i: int| 0 <= i < q.len() && in_scope(#[trigger] q[i], sid);
    }
    let first = match find_first_in_scope(&blocks[b].1.instructions, sid) {
        Some(p) => p,
        None => {
            return (sid, 0, 0, 1);
        },
    };
    let last = match find_last_in_scope(&blocks[b].1.instructions, sid) {
        Some(p) => p,
        None => first,
    };
    proof {
        assert(first <= last);
    }
    (sid, b, first, last + 1)
}

fn max_id(blocks: &Vec<(BlockId, BasicBlock)>) -> (r: u32)
    ensures
        r == max_block_id(blocks@),
{
    let mut m: u32 = 0;
    let mut k: usize = 0;
    proof {
        assert(blocks@.take(0) =~= Seq::<(BlockId, BasicBlock)>::empty());
    }
    while k < blocks.len()
        invariant
            k <= blocks@.len(),
            m == max_block_id(blocks@.take(k as int)),
        decreases blocks.len() - k,
    {
        if blocks[k].0.0 > m {
            m = blocks[k].0.0;
        }
        proof {
            assert(blocks@.take(k + 1).drop_last() =~= blocks@.take(k as int));
            assert(blocks@.take(k + 1).last() == blocks@[k as int]);
        }
        k = k + 1;
    }
    proof {
        assert(blocks@.take(k as int) =~= blocks@);
    }
    m
}

/// Give every scope of the graph its own `Scope` terminal: the scopes, in
/// the order the set of scope ids is walked, are sorted by span (shorter
/// first, stable) and inserted in turn with block ids from one past the
/// largest id, as `scope_inserted` states; then the stale annotations are
/// cleared. Without scopes the graph is unchanged. The order in which the
/// set of scope ids is walked is not stated: the result holds for the order
/// that was walked.
pub fn build_reactive_scope_terminals_hir(hir: &mut HIR)
    requires
        scoped_ids(old(hir).blocks@).len() > 0 ==> max_block_id(old(hir).blocks@) + 1 + 2 * scoped_ids(old(hir).blocks@).len() <= u32::MAX,
    ensures
        final(hir).entry == old(hir).entry,
        scoped_ids(old(hir).blocks@) =~= Set::empty() ==> final(hir).blocks@ == old(hir).blocks@,
        !(scoped_ids(old(hir).blocks@) =~= Set::empty()) ==> exists|order: Seq<u32>, hs: Seq<Seq<(BlockId, BasicBlock)>>, nexts: Seq<u32>| {
            &&& order.no_duplicates()
            &&& order.to_set() == scoped_ids(old(hir).blocks@)
            &&& hs.len() > 0
            &&& hs[0] == old(hir).blocks@
            &&& nexts.len() > 0
            &&& nexts[0] == max_block_id(old(hir).blocks@) + 1
            &&& insertions(hs, nexts, sort_by_span(order.map_values(|sid: u32| scope_span(old(hir).blocks@, sid))))
            &&& stale_cleared(final(hir).blocks@, hs.last(), scope_block_map(hs.last()))
        },
{
    let ghost ob = hir.blocks@;
    let ids = collect_scope_ids(&hir.blocks);
    let order = fx_set_elements(&ids);
    if order.len() == 0 {
        proof {
            assert forall|x: u32| !ids@.contains(x) by {
                if ids@.contains(x) {
                    assert(order@.to_set().contains(x));
                }
            }
            assert(scoped_ids(ob) =~= Set::empty());
        }
        return;
    }
    proof {
        assert(scoped_ids(ob).contains(order@[0])) by {
            assert(order@.to_set().contains(order@[0]));
        }
        assert(!(scoped_ids(ob) =~= Set::empty()));
        order@.unique_seq_to_set();
        assert(order@.len() == scoped_ids(ob).len());
    }
    let mut spans: Vec<ScopeSpan> = Vec::new();
    let mut k: usize = 0;
    while k < order.len()
        invariant
            k <= order@.len(),
            ob == hir.blocks@,
            order@.to_set() == scoped_ids(ob),
            spans@ == order@.take(k as int).map_values(|sid: u32| scope_span(ob, sid)),
            forall|j: int| 0 <= j < spans@.len() ==> (#[trigger] spans@[j]).2 < spans@[j].3,
        decreases order.len() - k,
    {
        proof {
            assert(order@.to_set().contains(order@[k as int]));
        }
        let sp = compute_scope_span(&hir.blocks, order[k]);
        spans.push(sp);
        proof {
            assert(order@.take(k + 1).map_values(|sid: u32| scope_span(ob, sid))
                =~= order@.take(k as int).map_values(|sid: u32| scope_span(ob, sid)).push(scope_span(ob, order@[k as int])));
        }
        k = k + 1;
    }
    proof {
        assert(order@.take(k as int) =~= order@);
    }
    let ghost unsorted = spans@;
    let sorted = sort_spans(spans);
    proof {
        lemma_sort_by_span_sorted(unsorted);
    }
    let mut next_id: u32 = max_id(&hir.blocks) + 1;
    let ghost mut hs: Seq<Seq<(BlockId, BasicBlock)>> = seq![ob];
    let ghost mut nexts: Seq<u32> = seq![next_id];
    let mut t: usize = 0;
    while t < sorted.len()
        invariant
            t <= sorted@.len(),
            sorted@.len() == order@.len(),
            order@.len() == scoped_ids(ob).len(),
            max_block_id(ob) + 1 + 2 * scoped_ids(ob).len() <= u32::MAX,
            next_id <= max_block_id(ob) + 1 + 2 * t,
            hir.entry == old(hir).entry,
            hs.len() == t + 1,
            nexts.len() == t + 1,
            hs[0] == ob,
            nexts[0] == max_block_id(ob) + 1,
            hs.last() == hir.blocks@,
            nexts.last() == next_id,
            insertions(hs, nexts, sorted@.take(t as int)),
        decreases sorted.len() - t,
    {
        let sid = sorted[t].0;
        let ghost before = hir.blocks@;
        insert_scope_terminal_by_position(&mut hir.blocks, sid, &mut next_id);
        proof {
            let hs2 = hs.push(hir.blocks@);
            let nexts2 = nexts.push(next_id);
            let sp = sorted@.take(t + 1);
            assert forall|k: int| 0 <= k < sp.len() implies {
                &&& scope_inserted(hs2[k + 1], hs2[k], (#[trigger] sp[k]).0, nexts2[k])
                &&& nexts2[k + 1] == (if first_block(hs2[k], sp[k].0, 0) == -1 { nexts2[k] } else { (nexts2[k] + 2) as u32 })
            } by {
                if k < t {
                    assert(sp[k] == sorted@.take(t as int)[k]);
                    assert(hs2[k] == hs[k] && hs2[k + 1] == hs[k + 1]);
                    assert(nexts2[k] == nexts[k] && nexts2[k + 1] == nexts[k + 1]);
                } else {
                    assert(hs2[k] == before);
                    assert(sp[k].0 == sid);
                }
            }
            hs = hs2;
            nexts = nexts2;
        }
        t = t + 1;
    }
    proof {
        assert(sorted@.take(t as int) =~= sorted@);
    }
    let ghost last = hir.blocks@;
    let scope_blocks = collect_scope_blocks(&hir.blocks);
    clear_stale_annotations(&mut hir.blocks, &scope_blocks);
    proof {
        assert(hs.last() == last);
        assert(insertions(hs, nexts, sort_by_span(order@.map_values(|sid: u32| scope_span(ob, sid)))));
    }
}

} // verus!
