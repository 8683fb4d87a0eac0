//! Dead code elimination: drop instructions whose results are never used
//! (unless they have side effects) and blocks unreachable from the entry.

use vstd::prelude::*;
use rustc_hash::FxHashSet;
use crate::fxhash::{fx_set_contains, fx_set_insert};
use crate::hir::types::{
    ArrayElement, BasicBlock, BlockId, DestructureArrayItem, DestructureObjectProperty,
    DestructurePattern, DestructureTarget, HIR, Instruction, InstructionValue, JsxAttribute,
    ObjectProperty, ObjectPropertyKey, Phi, Place, Terminal,
};

verus! {

// ---------------------------------------------------------------------------
// Control-flow successors and reachability
// ---------------------------------------------------------------------------

/// The successor block ids of a terminal, in the order the pass lists them.
pub open spec fn successors(t: Terminal) -> Seq<BlockId> {
    match t {
        Terminal::Goto { block } => seq![block],
        Terminal::If { consequent, alternate, fallthrough, .. } => seq![consequent, alternate, fallthrough],
        Terminal::Branch { consequent, alternate, .. } => seq![consequent, alternate],
        Terminal::Switch { cases, fallthrough, .. } => cases@.map_values(|c: crate::hir::types::Case| c.block).push(fallthrough),
        Terminal::Return { .. } | Terminal::Throw { .. } | Terminal::Unreachable => seq![],
        Terminal::For { init, test, update, body, fallthrough } => match update {
            Some(u) => seq![init, test, body, fallthrough, u],
            None => seq![init, test, body, fallthrough],
        },
        Terminal::ForOf { init, test, body, fallthrough } => seq![init, test, body, fallthrough],
        Terminal::ForIn { init, test, body, fallthrough } => seq![init, test, body, fallthrough],
        Terminal::DoWhile { body, test, fallthrough } => seq![body, test, fallthrough],
        Terminal::While { test, body, fallthrough } => seq![test, body, fallthrough],
        Terminal::Logical { left, right, fallthrough, .. } => seq![left, right, fallthrough],
        Terminal::Ternary { consequent, alternate, fallthrough, .. } => seq![consequent, alternate, fallthrough],
        Terminal::Optional { consequent, fallthrough, .. } => seq![consequent, fallthrough],
        Terminal::Sequence { blocks, fallthrough } => blocks@.push(fallthrough),
        Terminal::Label { block, fallthrough, .. } => seq![block, fallthrough],
        Terminal::MaybeThrow { continuation, handler } => seq![continuation, handler],
        Terminal::Try { block, handler, fallthrough } => seq![block, handler, fallthrough],
        Terminal::Scope { block, fallthrough, .. } => seq![block, fallthrough],
        Terminal::PrunedScope { block, fallthrough, .. } => seq![block, fallthrough],
    }
}

/// The control-flow graph of a block list: each block id with the
/// successors of its terminal, in block order.
pub open spec fn cfg(blocks: Seq<(BlockId, BasicBlock)>) -> Seq<(BlockId, Seq<BlockId>)> {
    blocks.map_values(|e: (BlockId, BasicBlock)| (e.0, successors(e.1.terminal)))
}

/// The position of the first block with id `b`, if there is one.
pub open spec fn first_index(g: Seq<(BlockId, Seq<BlockId>)>, b: BlockId) -> Option<int> {
    if exists|i: int| 0 <= i < g.len() && g[i].0 == b {
        Some(choose|i: int| 0 <= i < g.len() && g[i].0 == b && forall|j: int| 0 <= j < i ==> g[j].0 != b)
    } else {
        None
    }
}

/// An edge `a -> b`: `b` is a successor of the first block with id `a`.
pub open spec fn edge(g: Seq<(BlockId, Seq<BlockId>)>, a: BlockId, b: BlockId) -> bool {
    match first_index(g, a) {
        Some(i) => g[i].1.contains(b),
        None => false,
    }
}

/// A walk along edges from `p[0]` to `p.last()`.
pub open spec fn is_walk(g: Seq<(BlockId, Seq<BlockId>)>, p: Seq<BlockId>) -> bool {
    &&& p.len() >= 1
    &&& forall|k: int| 0 <= k < p.len() - 1 ==> edge(g, #[trigger] p[k], p[k + 1])
}

/// Block id `b` can be reached from `entry` by following edges.
pub open spec fn is_reachable(g: Seq<(BlockId, Seq<BlockId>)>, entry: BlockId, b: BlockId) -> bool {
    exists|p: Seq<BlockId>| #[trigger] is_walk(g, p) && p[0] == entry && p.last() == b
}

/// Returns all successor block IDs for a given terminal.
pub fn terminal_successors(terminal: &Terminal) -> (r: Vec<BlockId>)
    ensures
        r@ == successors(*terminal),
{
    match terminal {
        Terminal::Goto { block } => vec![*block],
        Terminal::If { consequent, alternate, fallthrough, .. } => vec![*consequent, *alternate, *fallthrough],
        Terminal::Branch { consequent, alternate, .. } => vec![*consequent, *alternate],
        Terminal::Switch { cases, fallthrough, .. } => {
            let mut succs: Vec<BlockId> = Vec::new();
            let mut i: usize = 0;
            while i < cases.len()
                invariant
                    i <= cases@.len(),
                    succs@ == cases@.take(i as int).map_values(|c: crate::hir::types::Case| c.block),
                decreases cases.len() - i,
            {
                succs.push(cases[i].block);
                proof {
                    assert(cases@.take(i + 1).map_values(|c: crate::hir::types::Case| c.block) =~= cases@.take(i as int).map_values(|c: crate::hir::types::Case| c.block).push(cases@[i as int].block));
                }
                i = i + 1;
            }
            proof {
                assert(cases@.take(i as int) =~= cases@);
            }
            succs.push(*fallthrough);
            succs
        },
        Terminal::Return { .. } | Terminal::Throw { .. } | Terminal::Unreachable => vec![],
        Terminal::For { init, test, update, body, fallthrough } => {
            let mut succs = vec![*init, *test, *body, *fallthrough];
            if let Some(u) = update {
                succs.push(*u);
            }
            proof {
                assert(succs@ =~= successors(*terminal));
            }
            succs
        },
        Terminal::ForOf { init, test, body, fallthrough } => vec![*init, *test, *body, *fallthrough],
        Terminal::ForIn { init, test, body, fallthrough } => vec![*init, *test, *body, *fallthrough],
        Terminal::DoWhile { body, test, fallthrough } => vec![*body, *test, *fallthrough],
        Terminal::While { test, body, fallthrough } => vec![*test, *body, *fallthrough],
        Terminal::Logical { left, right, fallthrough, .. } => vec![*left, *right, *fallthrough],
        Terminal::Ternary { consequent, alternate, fallthrough, .. } => vec![*consequent, *alternate, *fallthrough],
        Terminal::Optional { consequent, fallthrough, .. } => vec![*consequent, *fallthrough],
        Terminal::Sequence { blocks, fallthrough } => {
            let mut succs: Vec<BlockId> = Vec::new();
            let mut i: usize = 0;
            while i < blocks.len()
                invariant
                    i <= blocks@.len(),
                    succs@ == blocks@.take(i as int),
                decreases blocks.len() - i,
            {
                succs.push(blocks[i]);
                proof {
                    assert(blocks@.take(i + 1) =~= blocks@.take(i as int).push(blocks@[i as int]));
                }
                i = i + 1;
            }
            proof {
                assert(blocks@.take(i as int) =~= blocks@);
            }
            succs.push(*fallthrough);
            succs
        },
        Terminal::Label { block, fallthrough, .. } => vec![*block, *fallthrough],
        Terminal::MaybeThrow { continuation, handler } => vec![*continuation, *handler],
        Terminal::Try { block, handler, fallthrough } => vec![*block, *handler, *fallthrough],
        Terminal::Scope { block, fallthrough, .. } => vec![*block, *fallthrough],
        Terminal::PrunedScope { block, fallthrough, .. } => vec![*block, *fallthrough],
    }
}


/// Every successor id named in the graph, block by block.
pub open spec fn successor_ids(g: Seq<(BlockId, Seq<BlockId>)>) -> Seq<u32>
    decreases g.len(),
{
    if g.len() == 0 {
        Seq::empty()
    } else {
        successor_ids(g.drop_last()) + g.last().1.map_values(|b: BlockId| b.0)
    }
}

proof fn lemma_successor_ids(g: Seq<(BlockId, Seq<BlockId>)>, i: int, j: int)
    requires
        0 <= i < g.len(),
        0 <= j < g[i].1.len(),
    ensures
        successor_ids(g).contains(g[i].1[j].0),
    decreases g.len(),
{
    let last = g.last().1.map_values(|b: BlockId| b.0);
    if i == g.len() - 1 {
        assert((successor_ids(g.drop_last()) + last)[successor_ids(g.drop_last()).len() + j] == g[i].1[j].0);
    } else {
        lemma_successor_ids(g.drop_last(), i, j);
        let k = choose|k: int| 0 <= k < successor_ids(g.drop_last()).len() && successor_ids(g.drop_last())[k] == g[i].1[j].0;
        assert((successor_ids(g.drop_last()) + last)[k] == g[i].1[j].0);
    }
}

pub proof fn lemma_first_index(g: Seq<(BlockId, Seq<BlockId>)>, b: BlockId)
    ensures
        first_index(g, b) matches Some(i) ==> 0 <= i < g.len() && g[i].0 == b && forall|j: int| 0 <= j < i ==> g[j].0 != b,
        first_index(g, b) is None ==> forall|j: int| 0 <= j < g.len() ==> g[j].0 != b,
{
    if exists|i: int| 0 <= i < g.len() && g[i].0 == b {
        let w = choose|i: int| 0 <= i < g.len() && g[i].0 == b;
        lemma_first_exists(g, b, w);
    }
}

proof fn lemma_first_exists(g: Seq<(BlockId, Seq<BlockId>)>, b: BlockId, w: int)
    requires
        0 <= w < g.len(),
        g[w].0 == b,
    ensures
        exists|i: int| 0 <= i < g.len() && g[i].0 == b && forall|j: int| 0 <= j < i ==> g[j].0 != b,
    decreases w,
{
    if exists|j: int| 0 <= j < w && g[j].0 == b {
        let j = choose|j: int| 0 <= j < w && g[j].0 == b;
        lemma_first_exists(g, b, j);
    }
}

/// The position of the first block with id `id`.
pub fn find_block_index(blocks: &Vec<(BlockId, BasicBlock)>, id: BlockId) -> (r: Option<usize>)
    ensures
        r matches Some(i) ==> first_index(cfg(blocks@), id) == Some(i as int),
        r is None ==> first_index(cfg(blocks@), id) is None,
        r matches Some(i) ==> i < blocks@.len() && blocks@[i as int].0 == id,
{
    let ghost g = cfg(blocks@);
    let mut i: usize = 0;
    while i < blocks.len()
        invariant
            i <= blocks@.len(),
            g == cfg(blocks@),
            g.len() == blocks@.len(),
            forall|j: int| 0 <= j < i ==> g[j].0 != id,
        decreases blocks.len() - i,
    {
        if blocks[i].0 == id {
            proof {
                assert(g[i as int].0 == id);
                let c = choose|c: int| 0 <= c < g.len() && g[c].0 == id && forall|j: int| 0 <= j < c ==> g[j].0 != id;
                if c < i {
                } else if c > i {
                    assert(g[i as int].0 != id);
                }
            }
            return Some(i);
        }
        i = i + 1;
    }
    None
}

proof fn lemma_closed_contains_reachable(
    g: Seq<(BlockId, Seq<BlockId>)>,
    entry: BlockId,
    r: Set<u32>,
    p: Seq<BlockId>,
    k: int,
)
    requires
        r.contains(entry.0),
        forall|x: u32, b: BlockId| r.contains(x) && #[trigger] edge(g, BlockId(x), b) ==> r.contains(b.0),
        is_walk(g, p),
        p[0] == entry,
        0 <= k < p.len(),
    ensures
        r.contains(p[k].0),
    decreases k,
{
    if k > 0 {
        lemma_closed_contains_reachable(g, entry, r, p, k - 1);
        assert(edge(g, p[k - 1], p[k]));
        assert(BlockId(p[k - 1].0) == p[k - 1]);
    }
}

/// Every block id in `r` has all its successors in `r` or in `w`.
#[verifier::opaque]
pub open spec fn closed_under_edges(g: Seq<(BlockId, Seq<BlockId>)>, r: Set<u32>, w: Seq<BlockId>) -> bool {
    forall|x: u32, b: BlockId| r.contains(x) && #[trigger] edge(g, BlockId(x), b) ==> r.contains(b.0) || w.contains(b)
}

/// Everything visited or pending is reachable from `entry`.
#[verifier::opaque]
pub open spec fn all_reachable(g: Seq<(BlockId, Seq<BlockId>)>, entry: BlockId, r: Set<u32>, w: Seq<BlockId>) -> bool {
    &&& forall|x: u32| r.contains(x) ==> is_reachable(g, entry, BlockId(x))
    &&& forall|k: int| 0 <= k < w.len() ==> is_reachable(g, entry, #[trigger] w[k])
}

/// Visited and pending ids stay inside the finite set `univ`.
#[verifier::opaque]
pub open spec fn within(univ: Set<u32>, r: Set<u32>, w: Seq<BlockId>) -> bool {
    &&& univ.finite()
    &&& r.finite()
    &&& r.subset_of(univ)
    &&& forall|k: int| 0 <= k < w.len() ==> univ.contains((#[trigger] w[k]).0)
}

proof fn lemma_pop_visited(
    g: Seq<(BlockId, Seq<BlockId>)>,
    entry: BlockId,
    univ: Set<u32>,
    r: Set<u32>,
    w1: Seq<BlockId>,
    bid: BlockId,
)
    requires
        closed_under_edges(g, r, w1.push(bid)),
        all_reachable(g, entry, r, w1.push(bid)),
        within(univ, r, w1.push(bid)),
        r.contains(entry.0) || w1.push(bid).contains(entry),
        r.contains(bid.0),
    ensures
        closed_under_edges(g, r, w1),
        all_reachable(g, entry, r, w1),
        within(univ, r, w1),
        r.contains(entry.0) || w1.contains(entry),
{
    reveal(closed_under_edges);
    reveal(all_reachable);
    reveal(within);
    assert forall|x: u32, b: BlockId| r.contains(x) && #[trigger] edge(g, BlockId(x), b) implies r.contains(b.0) || w1.contains(b) by {
        if !r.contains(b.0) {
            let k = choose|k: int| 0 <= k < w1.push(bid).len() && w1.push(bid)[k] == b;
            assert(k < w1.len());
            assert(w1[k] == b);
        }
    }
    assert forall|k: int| 0 <= k < w1.len() implies is_reachable(g, entry, #[trigger] w1[k]) by {
        assert(w1.push(bid)[k] == w1[k]);
    }
    assert forall|k: int| 0 <= k < w1.len() implies univ.contains((#[trigger] w1[k]).0) by {
        assert(w1.push(bid)[k] == w1[k]);
    }
    if !r.contains(entry.0) {
        let k = choose|k: int| 0 <= k < w1.push(bid).len() && w1.push(bid)[k] == entry;
        assert(k < w1.len());
        assert(w1[k] == entry);
    }
}

/// The requirements on a worklist step that visits a new block `bid`.
pub open spec fn visit_step(
    g: Seq<(BlockId, Seq<BlockId>)>,
    r0: Set<u32>,
    w1: Seq<BlockId>,
    bid: BlockId,
    w2: Seq<BlockId>,
) -> bool {
    &&& w1.len() <= w2.len()
    &&& forall|k: int| 0 <= k < w1.len() ==> w2[k] == w1[k]
    &&& match first_index(g, bid) {
        Some(i) => {
            &&& forall|k: int| w1.len() <= k < w2.len() ==> g[i].1.contains(#[trigger] w2[k])
            &&& forall|k: int| 0 <= k < g[i].1.len() ==> r0.insert(bid.0).contains((#[trigger] g[i].1[k]).0) || w2.contains(g[i].1[k])
        },
        None => w2.len() == w1.len(),
    }
}

proof fn lemma_visit_closed(
    g: Seq<(BlockId, Seq<BlockId>)>,
    r0: Set<u32>,
    w1: Seq<BlockId>,
    bid: BlockId,
    w2: Seq<BlockId>,
)
    requires
        closed_under_edges(g, r0, w1.push(bid)),
        visit_step(g, r0, w1, bid, w2),
    ensures
        closed_under_edges(g, r0.insert(bid.0), w2),
{
    reveal(closed_under_edges);
    let r1 = r0.insert(bid.0);
    assert forall|x: u32, b: BlockId| r1.contains(x) && #[trigger] edge(g, BlockId(x), b) implies r1.contains(b.0) || w2.contains(b) by {
        if x == bid.0 {
            assert(BlockId(x) == bid);
            let i = first_index(g, bid)->0;
            let k = choose|k: int| 0 <= k < g[i].1.len() && g[i].1[k] == b;
            assert(r1.contains((g[i].1[k]).0) || w2.contains(g[i].1[k]));
        } else if !r1.contains(b.0) {
            assert(r0.contains(x));
            assert(w1.push(bid).contains(b));
            let k = choose|k: int| 0 <= k < w1.push(bid).len() && w1.push(bid)[k] == b;
            assert(k < w1.len());
            assert(w2[k] == b);
        }
    }
}

proof fn lemma_visit_new_entry(
    g: Seq<(BlockId, Seq<BlockId>)>,
    entry: BlockId,
    univ: Set<u32>,
    r0: Set<u32>,
    bid: BlockId,
    s: BlockId,
)
    requires
        univ == (seq![entry.0] + successor_ids(g)).to_set(),
        is_reachable(g, entry, bid),
        first_index(g, bid) matches Some(i) && g[i].1.contains(s),
    ensures
        is_reachable(g, entry, s),
        univ.contains(s.0),
{
    lemma_first_index(g, bid);
    let i = first_index(g, bid)->0;
    let j = choose|j: int| 0 <= j < g[i].1.len() && g[i].1[j] == s;
    lemma_successor_ids(g, i, j);
    let m = choose|m: int| 0 <= m < successor_ids(g).len() && successor_ids(g)[m] == s.0;
    assert((seq![entry.0] + successor_ids(g))[m + 1] == s.0);
    let pw = choose|pw: Seq<BlockId>| #[trigger] is_walk(g, pw) && pw[0] == entry && pw.last() == bid;
    let pw2 = pw.push(s);
    assert(edge(g, bid, s));
    assert forall|q: int| 0 <= q < pw2.len() - 1 implies edge(g, #[trigger] pw2[q], pw2[q + 1]) by {
        if q < pw.len() - 1 {
            assert(pw2[q] == pw[q] && pw2[q + 1] == pw[q + 1]);
        }
    }
    assert(is_walk(g, pw2));
}

#[verifier::rlimit(30)]
proof fn lemma_visit(
    g: Seq<(BlockId, Seq<BlockId>)>,
    entry: BlockId,
    univ: Set<u32>,
    r0: Set<u32>,
    w1: Seq<BlockId>,
    bid: BlockId,
    w2: Seq<BlockId>,
)
    requires
        univ == (seq![entry.0] + successor_ids(g)).to_set(),
        closed_under_edges(g, r0, w1.push(bid)),
        all_reachable(g, entry, r0, w1.push(bid)),
        within(univ, r0, w1.push(bid)),
        r0.contains(entry.0) || w1.push(bid).contains(entry),
        !r0.contains(bid.0),
        visit_step(g, r0, w1, bid, w2),
    ensures
        closed_under_edges(g, r0.insert(bid.0), w2),
        all_reachable(g, entry, r0.insert(bid.0), w2),
        within(univ, r0.insert(bid.0), w2),
        r0.insert(bid.0).contains(entry.0) || w2.contains(entry),
        r0.insert(bid.0).len() == r0.len() + 1,
{
    lemma_visit_closed(g, r0, w1, bid, w2);
    reveal(all_reachable);
    reveal(within);
    let r1 = r0.insert(bid.0);
    assert(w1.push(bid)[w1.len() as int] == bid);
    assert(is_reachable(g, entry, bid));
    assert forall|k: int| 0 <= k < w2.len() implies is_reachable(g, entry, #[trigger] w2[k]) && univ.contains(w2[k].0) by {
        if k < w1.len() {
            assert(w1.push(bid)[k] == w1[k]);
        } else {
            lemma_visit_new_entry(g, entry, univ, r0, bid, w2[k]);
        }
    }
    assert forall|x: u32| r1.contains(x) implies is_reachable(g, entry, BlockId(x)) by {
        if x == bid.0 {
            assert(BlockId(x) == bid);
        }
    }
    if !r1.contains(entry.0) {
        let k = choose|k: int| 0 <= k < w1.push(bid).len() && w1.push(bid)[k] == entry;
        assert(k < w1.len());
        assert(w2[k] == entry);
    }
}

/// Append to `worklist` every successor not yet visited, in order.
fn push_unvisited(succs: &Vec<BlockId>, visited: &FxHashSet<u32>, worklist: &mut Vec<BlockId>)
    ensures
        old(worklist)@.len() <= final(worklist)@.len(),
        forall|k: int| 0 <= k < old(worklist)@.len() ==> final(worklist)@[k] == old(worklist)@[k],
        forall|k: int| old(worklist)@.len() <= k < final(worklist)@.len() ==> succs@.contains(#[trigger] final(worklist)@[k]),
        forall|k: int| 0 <= k < succs@.len() ==> visited@.contains((#[trigger] succs@[k]).0) || final(worklist)@.contains(succs@[k]),
{
    let mut j: usize = 0;
    while j < succs.len()
        invariant
            j <= succs@.len(),
            old(worklist)@.len() <= worklist@.len(),
            forall|k: int| 0 <= k < old(worklist)@.len() ==> worklist@[k] == old(worklist)@[k],
            forall|k: int| old(worklist)@.len() <= k < worklist@.len() ==> succs@.contains(#[trigger] worklist@[k]),
            forall|k: int| 0 <= k < j ==> visited@.contains((#[trigger] succs@[k]).0) || worklist@.contains(succs@[k]),
        decreases succs@.len() - j,
    {
        let s = succs[j];
        let ghost wb = worklist@;
        if !fx_set_contains(visited, s.0) {
            worklist.push(s);
            proof {
                assert(worklist@[worklist@.len() - 1] == s);
                assert forall|k: int| 0 <= k < j + 1 implies visited@.contains((#[trigger] succs@[k]).0) || worklist@.contains(succs@[k]) by {
                    if k < j && !visited@.contains(succs@[k].0) {
                        let m = choose|m: int| 0 <= m < wb.len() && wb[m] == succs@[k];
                        assert(worklist@[m] == succs@[k]);
                    }
                }
            }
        }
        j = j + 1;
    }
}

/// The set of block ids reachable from the entry block.
pub fn find_reachable_blocks(hir: &HIR) -> (r: FxHashSet<u32>)
    ensures
        forall|x: u32| r@.contains(x) <==> is_reachable(cfg(hir.blocks@), hir.entry, BlockId(x)),
{
    let ghost g = cfg(hir.blocks@);
    let ghost univ = (seq![hir.entry.0] + successor_ids(g)).to_set();
    let mut reachable: FxHashSet<u32> = FxHashSet::default();
    let mut worklist: Vec<BlockId> = vec![hir.entry];
    proof {
        reveal(closed_under_edges);
        reveal(all_reachable);
        reveal(within);
        vstd::seq_lib::seq_to_set_is_finite(seq![hir.entry.0] + successor_ids(g));
        assert((seq![hir.entry.0] + successor_ids(g))[0] == hir.entry.0);
        let p = seq![hir.entry];
        assert(is_walk(g, p));
        assert(worklist@[0] == hir.entry);
    }
    while worklist.len() > 0
        invariant
            g == cfg(hir.blocks@),
            univ == (seq![hir.entry.0] + successor_ids(g)).to_set(),
            closed_under_edges(g, reachable@, worklist@),
            all_reachable(g, hir.entry, reachable@, worklist@),
            within(univ, reachable@, worklist@),
            reachable@.contains(hir.entry.0) || worklist@.contains(hir.entry),
        decreases univ.len() - reachable@.len(), worklist@.len(),
    {
        proof {
            reveal(within);
            vstd::set_lib::lemma_len_subset(reachable@, univ);
        }
        let ghost w0 = worklist@;
        let bid = worklist.pop().unwrap();
        let ghost w1 = worklist@;
        proof {
            assert(w0 =~= w1.push(bid));
        }
        let ghost r0 = reachable@;
        if !fx_set_insert(&mut reachable, bid.0) {
            proof {
                assert(reachable@ =~= r0);
                lemma_pop_visited(g, hir.entry, univ, r0, w1, bid);
            }
            continue;
        }
        match find_block_index(&hir.blocks, bid) {
            Some(idx) => {
                let succs = terminal_successors(&hir.blocks[idx].1.terminal);
                push_unvisited(&succs, &reachable, &mut worklist);
                proof {
                    assert(g[idx as int].1 == succs@);
                }
            },
            None => {},
        }
        proof {
            lemma_visit(g, hir.entry, univ, r0, w1, bid, worklist@);
            reveal(within);
            vstd::set_lib::lemma_len_subset(reachable@, univ);
        }
    }
    proof {
        reveal(closed_under_edges);
        assert forall|x: u32| is_reachable(g, hir.entry, BlockId(x)) implies reachable@.contains(x) by {
            let p = choose|p: Seq<BlockId>| #[trigger] is_walk(g, p) && p[0] == hir.entry && p.last() == BlockId(x);
            lemma_closed_contains_reachable(g, hir.entry, reachable@, p, p.len() - 1);
        }
        reveal(all_reachable);
    }
    reachable
}

/// Remove blocks that are not reachable from the entry block.
pub fn remove_unreachable_blocks(hir: &mut HIR)
    ensures
        final(hir).entry == old(hir).entry,
        final(hir).blocks@ == old(hir).blocks@.filter(
            |e: (BlockId, BasicBlock)| is_reachable(cfg(old(hir).blocks@), old(hir).entry, e.0),
        ),
{
    let reachable_set = find_reachable_blocks(hir);
    let ghost pred = |e: (BlockId, BasicBlock)| is_reachable(cfg(old(hir).blocks@), old(hir).entry, e.0);
    let mut rest: Vec<(BlockId, BasicBlock)> = Vec::new();
    std::mem::swap(&mut hir.blocks, &mut rest);
    let ghost orig = rest@;
    let ghost mut k: int = 0;
    while rest.len() > 0
        invariant
            0 <= k <= orig.len(),
            orig == old(hir).blocks@,
            hir.entry == old(hir).entry,
            rest@ == orig.skip(k),
            pred == |e: (BlockId, BasicBlock)| is_reachable(cfg(old(hir).blocks@), old(hir).entry, e.0),
            forall|x: u32| reachable_set@.contains(x) <==> is_reachable(cfg(orig), hir.entry, BlockId(x)),
            hir.blocks@ == orig.take(k).filter(pred),
        decreases rest.len(),
    {
        let e = rest.remove(0);
        proof {
            assert(orig.skip(k)[0] == orig[k]);
            assert(orig.take(k + 1).drop_last() =~= orig.take(k));
            assert(orig.take(k + 1).last() == orig[k]);
            reveal_with_fuel(Seq::filter, 1);
            assert(BlockId(e.0.0) == e.0);
        }
        if fx_set_contains(&reachable_set, e.0.0) {
            hir.blocks.push(e);
        }
        proof {
            assert(orig.skip(k + 1) =~= orig.skip(k).drop_first());
            k = k + 1;
        }
    }
    proof {
        assert(orig.take(k) =~= orig);
    }
}

// ---------------------------------------------------------------------------
// Identifier uses
// ---------------------------------------------------------------------------

/// The identifier ids of a sequence of places.
pub open spec fn place_ids(q: Seq<Place>) -> Set<u32>
    decreases q.len(),
{
    if q.len() == 0 {
        Set::empty()
    } else {
        place_ids(q.drop_last()).insert(q.last().identifier.id.0)
    }
}

/// Ids of the default-value places of a destructuring pattern, nested patterns included.
pub open spec fn pattern_default_uses(p: DestructurePattern) -> Set<u32>
    decreases p,
{
    match p {
        DestructurePattern::Object { properties, .. } => object_default_uses(properties@),
        DestructurePattern::Array { items, .. } => array_default_uses(items@),
    }
}

pub open spec fn object_default_uses(q: Seq<DestructureObjectProperty>) -> Set<u32>
    decreases q,
{
    if q.len() == 0 {
        Set::empty()
    } else {
        object_default_uses(q.drop_last()).union(property_default_uses(q.last()))
    }
}

pub open spec fn property_default_uses(prop: DestructureObjectProperty) -> Set<u32>
    decreases prop,
{
    let own = match prop.default_value {
        Some(p) => set![p.identifier.id.0],
        None => Set::empty(),
    };
    let nested = match prop.value {
        DestructureTarget::Pattern(n) => pattern_default_uses(*n),
        DestructureTarget::Place(_) => Set::empty(),
    };
    own.union(nested)
}

pub open spec fn array_default_uses(q: Seq<DestructureArrayItem>) -> Set<u32>
    decreases q,
{
    if q.len() == 0 {
        Set::empty()
    } else {
        let last = match q.last() {
            DestructureArrayItem::Value(DestructureTarget::Pattern(n)) => pattern_default_uses(*n),
            _ => Set::empty(),
        };
        array_default_uses(q.drop_last()).union(last)
    }
}

pub open spec fn object_expression_uses(q: Seq<ObjectProperty>) -> Set<u32>
    decreases q.len(),
{
    if q.len() == 0 {
        Set::empty()
    } else {
        let prop = q.last();
        let key = match prop.key {
            ObjectPropertyKey::Computed(c) => set![c.identifier.id.0],
            _ => Set::empty(),
        };
        object_expression_uses(q.drop_last()).insert(prop.value.identifier.id.0).union(key)
    }
}

pub open spec fn array_element_uses(q: Seq<ArrayElement>) -> Set<u32>
    decreases q.len(),
{
    if q.len() == 0 {
        Set::empty()
    } else {
        let own = match q.last() {
            ArrayElement::Expression(p) => set![p.identifier.id.0],
            ArrayElement::Spread(p) => set![p.identifier.id.0],
            ArrayElement::Hole => Set::empty(),
        };
        array_element_uses(q.drop_last()).union(own)
    }
}

pub open spec fn attribute_uses(q: Seq<JsxAttribute>) -> Set<u32>
    decreases q.len(),
{
    if q.len() == 0 {
        Set::empty()
    } else {
        attribute_uses(q.drop_last()).insert(q.last().value.identifier.id.0)
    }
}

pub open spec fn case_test_uses(q: Seq<crate::hir::types::Case>) -> Set<u32>
    decreases q.len(),
{
    if q.len() == 0 {
        Set::empty()
    } else {
        let own = match q.last().test {
            Some(p) => set![p.identifier.id.0],
            None => Set::empty(),
        };
        case_test_uses(q.drop_last()).union(own)
    }
}

/// The identifier ids an instruction value reads.
pub open spec fn value_uses(v: InstructionValue) -> Set<u32> {
    match v {
        InstructionValue::LoadLocal { place } => set![place.identifier.id.0],
        InstructionValue::StoreLocal { lvalue, value, .. } => set![lvalue.identifier.id.0, value.identifier.id.0],
        InstructionValue::LoadContext { place } => set![place.identifier.id.0],
        InstructionValue::StoreContext { lvalue, value } => set![lvalue.identifier.id.0, value.identifier.id.0],
        InstructionValue::DeclareLocal { lvalue, .. } => set![lvalue.identifier.id.0],
        InstructionValue::DeclareContext { lvalue } => set![lvalue.identifier.id.0],
        InstructionValue::Destructure { value, lvalue_pattern } => set![value.identifier.id.0].union(pattern_default_uses(lvalue_pattern)),
        InstructionValue::BinaryExpression { left, right, .. } => set![left.identifier.id.0, right.identifier.id.0],
        InstructionValue::UnaryExpression { value, .. } => set![value.identifier.id.0],
        InstructionValue::PrefixUpdate { lvalue, .. } => set![lvalue.identifier.id.0],
        InstructionValue::PostfixUpdate { lvalue, .. } => set![lvalue.identifier.id.0],
        InstructionValue::CallExpression { callee, args } => set![callee.identifier.id.0].union(place_ids(args@)),
        InstructionValue::MethodCall { receiver, args, .. } => set![receiver.identifier.id.0].union(place_ids(args@)),
        InstructionValue::NewExpression { callee, args } => set![callee.identifier.id.0].union(place_ids(args@)),
        InstructionValue::PropertyLoad { object, .. } => set![object.identifier.id.0],
        InstructionValue::PropertyStore { object, value, .. } => set![object.identifier.id.0, value.identifier.id.0],
        InstructionValue::ComputedLoad { object, property } => set![object.identifier.id.0, property.identifier.id.0],
        InstructionValue::ComputedStore { object, property, value } => set![object.identifier.id.0, property.identifier.id.0, value.identifier.id.0],
        InstructionValue::PropertyDelete { object, .. } => set![object.identifier.id.0],
        InstructionValue::ComputedDelete { object, property } => set![object.identifier.id.0, property.identifier.id.0],
        InstructionValue::ObjectExpression { properties } => object_expression_uses(properties@),
        InstructionValue::ArrayExpression { elements } => array_element_uses(elements@),
        InstructionValue::JsxExpression { tag, props, children } => set![tag.identifier.id.0].union(attribute_uses(props@)).union(place_ids(children@)),
        InstructionValue::JsxFragment { children } => place_ids(children@),
        InstructionValue::Await { value } => set![value.identifier.id.0],
        InstructionValue::GetIterator { collection } => set![collection.identifier.id.0],
        InstructionValue::IteratorNext { iterator, .. } => set![iterator.identifier.id.0],
        InstructionValue::NextPropertyOf { value } => set![value.identifier.id.0],
        InstructionValue::TypeCastExpression { value, .. } => set![value.identifier.id.0],
        InstructionValue::TaggedTemplateExpression { tag, value } => set![tag.identifier.id.0].union(place_ids(value.subexpressions@)),
        InstructionValue::FinishMemoize { decl, deps, .. } => set![decl.identifier.id.0].union(place_ids(deps@)),
        InstructionValue::TemplateLiteral { subexpressions, .. } => place_ids(subexpressions@),
        InstructionValue::StoreGlobal { value, .. } => set![value.identifier.id.0],
        _ => Set::empty(),
    }
}

/// The identifier ids a terminal reads.
pub open spec fn terminal_uses(t: Terminal) -> Set<u32> {
    match t {
        Terminal::If { test, .. } => set![test.identifier.id.0],
        Terminal::Branch { test, .. } => set![test.identifier.id.0],
        Terminal::Ternary { test, .. } => set![test.identifier.id.0],
        Terminal::Optional { test, .. } => set![test.identifier.id.0],
        Terminal::Switch { test, cases, .. } => set![test.identifier.id.0].union(case_test_uses(cases@)),
        Terminal::Return { value } => set![value.identifier.id.0],
        Terminal::Throw { value } => set![value.identifier.id.0],
        _ => Set::empty(),
    }
}

/// The identifier ids a block reads: in instructions, terminal and phi operands.
pub open spec fn instructions_uses(q: Seq<Instruction>) -> Set<u32>
    decreases q.len(),
{
    if q.len() == 0 {
        Set::empty()
    } else {
        instructions_uses(q.drop_last()).union(value_uses(q.last().value))
    }
}

pub open spec fn operand_ids(q: Seq<(BlockId, Place)>) -> Set<u32>
    decreases q.len(),
{
    if q.len() == 0 {
        Set::empty()
    } else {
        operand_ids(q.drop_last()).insert(q.last().1.identifier.id.0)
    }
}

pub open spec fn phis_uses(q: Seq<Phi>) -> Set<u32>
    decreases q.len(),
{
    if q.len() == 0 {
        Set::empty()
    } else {
        phis_uses(q.drop_last()).union(operand_ids(q.last().operands@))
    }
}

pub open spec fn block_uses(b: BasicBlock) -> Set<u32> {
    instructions_uses(b.instructions@).union(terminal_uses(b.terminal)).union(phis_uses(b.phis@))
}

/// Every identifier id used as an operand anywhere in the blocks.
pub open spec fn used_ids(blocks: Seq<(BlockId, BasicBlock)>) -> Set<u32>
    decreases blocks.len(),
{
    if blocks.len() == 0 {
        Set::empty()
    } else {
        used_ids(blocks.drop_last()).union(block_uses(blocks.last().1))
    }
}

/// Whether an instruction value must be kept even when its result is unused.
pub open spec fn side_effecting(v: InstructionValue) -> bool {
    match v {
        InstructionValue::CallExpression { .. }
        | InstructionValue::MethodCall { .. }
        | InstructionValue::NewExpression { .. }
        | InstructionValue::StoreLocal { .. }
        | InstructionValue::StoreContext { .. }
        | InstructionValue::StoreGlobal { .. }
        | InstructionValue::PropertyStore { .. }
        | InstructionValue::ComputedStore { .. }
        | InstructionValue::PropertyDelete { .. }
        | InstructionValue::ComputedDelete { .. }
        | InstructionValue::PrefixUpdate { .. }
        | InstructionValue::PostfixUpdate { .. }
        | InstructionValue::DeclareLocal { .. }
        | InstructionValue::DeclareContext { .. }
        | InstructionValue::Destructure { .. }
        | InstructionValue::Await { .. }
        | InstructionValue::StartMemoize { .. }
        | InstructionValue::FinishMemoize { .. }
        | InstructionValue::UnsupportedNode { .. } => true,
        _ => false,
    }
}

pub(crate) fn add_place(used: &mut FxHashSet<u32>, place: &Place)
    ensures
        final(used)@ == old(used)@.insert(place.identifier.id.0),
{
    fx_set_insert(used, place.identifier.id.0);
}

pub(crate) fn add_places(used: &mut FxHashSet<u32>, places: &Vec<Place>)
    ensures
        final(used)@ == old(used)@.union(place_ids(places@)),
{
    let mut i: usize = 0;
    while i < places.len()
        invariant
            i <= places@.len(),
            used@ == old(used)@.union(place_ids(places@.take(i as int))),
        decreases places.len() - i,
    {
        add_place(used, &places[i]);
        proof {
            assert(places@.take(i + 1).drop_last() =~= places@.take(i as int));
            assert(used@ =~= old(used)@.union(place_ids(places@.take(i + 1))));
        }
        i = i + 1;
    }
    proof {
        assert(places@.take(i as int) =~= places@);
    }
}

/// Collect the ids of default value places in a destructure pattern.
fn collect_default_value_uses(pattern: &DestructurePattern, used: &mut FxHashSet<u32>)
    ensures
        final(used)@ == old(used)@.union(pattern_default_uses(*pattern)),
    decreases pattern,
{
    match pattern {
        DestructurePattern::Object { properties, .. } => {
            let mut i: usize = 0;
            while i < properties.len()
                invariant
                    i <= properties@.len(),
                    *pattern is Object,
                    pattern->properties == *properties,
                    used@ == old(used)@.union(object_default_uses(properties@.take(i as int))),
                decreases properties.len() - i,
            {
                let prop = &properties[i];
                let ghost before = used@;
                if let Some(default_place) = &prop.default_value {
                    fx_set_insert(used, default_place.identifier.id.0);
                }
                if let DestructureTarget::Pattern(nested) = &prop.value {
                    proof {
                        assert(decreases_to!(*pattern => pattern->properties));
                        assert(decreases_to!(*properties => properties@));
                        assert(decreases_to!(properties@ => properties@[i as int]));
                        assert(decreases_to!(properties@[i as int] => properties@[i as int].value));
                        assert(decreases_to!(prop.value => **nested));
                    }
                    collect_default_value_uses(nested, used);
                }
                proof {
                    assert(properties@.take(i + 1).drop_last() =~= properties@.take(i as int));
                    assert(used@ =~= before.union(property_default_uses(*prop)));
                    assert(used@ =~= old(used)@.union(object_default_uses(properties@.take(i + 1))));
                }
                i = i + 1;
            }
            proof {
                assert(properties@.take(i as int) =~= properties@);
            }
        },
        DestructurePattern::Array { items, .. } => {
            let mut i: usize = 0;
            while i < items.len()
                invariant
                    i <= items@.len(),
                    *pattern is Array,
                    pattern->items == *items,
                    used@ == old(used)@.union(array_default_uses(items@.take(i as int))),
                decreases items.len() - i,
            {
                let ghost before = used@;
                if let DestructureArrayItem::Value(DestructureTarget::Pattern(nested)) = &items[i] {
                    proof {
                        assert(decreases_to!(*pattern => pattern->items));
                        assert(decreases_to!(*items => items@));
                        assert(decreases_to!(items@ => items@[i as int]));
                    }
                    collect_default_value_uses(nested, used);
                }
                proof {
                    assert(items@.take(i + 1).drop_last() =~= items@.take(i as int));
                    assert(used@ =~= old(used)@.union(array_default_uses(items@.take(i + 1))));
                }
                i = i + 1;
            }
            proof {
                assert(items@.take(i as int) =~= items@);
            }
        },
    }
}


pub(crate) fn add_object_property_uses(used: &mut FxHashSet<u32>, properties: &Vec<ObjectProperty>)
    ensures
        final(used)@ == old(used)@.union(object_expression_uses(properties@)),
{
    let mut i: usize = 0;
    while i < properties.len()
        invariant
            i <= properties@.len(),
            used@ == old(used)@.union(object_expression_uses(properties@.take(i as int))),
        decreases properties.len() - i,
    {
        let prop = &properties[i];
        add_place(used, &prop.value);
        if let ObjectPropertyKey::Computed(p) = &prop.key {
            add_place(used, p);
        }
        proof {
            assert(properties@.take(i + 1).drop_last() =~= properties@.take(i as int));
            assert(used@ =~= old(used)@.union(object_expression_uses(properties@.take(i + 1))));
        }
        i = i + 1;
    }
    proof {
        assert(properties@.take(i as int) =~= properties@);
    }
}

pub(crate) fn add_array_element_uses(used: &mut FxHashSet<u32>, elements: &Vec<ArrayElement>)
    ensures
        final(used)@ == old(used)@.union(array_element_uses(elements@)),
{
    let mut i: usize = 0;
    while i < elements.len()
        invariant
            i <= elements@.len(),
            used@ == old(used)@.union(array_element_uses(elements@.take(i as int))),
        decreases elements.len() - i,
    {
        match &elements[i] {
            ArrayElement::Expression(p) | ArrayElement::Spread(p) => add_place(used, p),
            ArrayElement::Hole => {},
        }
        proof {
            assert(elements@.take(i + 1).drop_last() =~= elements@.take(i as int));
            assert(used@ =~= old(used)@.union(array_element_uses(elements@.take(i + 1))));
        }
        i = i + 1;
    }
    proof {
        assert(elements@.take(i as int) =~= elements@);
    }
}

pub(crate) fn add_attribute_uses(used: &mut FxHashSet<u32>, props: &Vec<JsxAttribute>)
    ensures
        final(used)@ == old(used)@.union(attribute_uses(props@)),
{
    let mut i: usize = 0;
    while i < props.len()
        invariant
            i <= props@.len(),
            used@ == old(used)@.union(attribute_uses(props@.take(i as int))),
        decreases props.len() - i,
    {
        add_place(used, &props[i].value);
        proof {
            assert(props@.take(i + 1).drop_last() =~= props@.take(i as int));
            assert(used@ =~= old(used)@.union(attribute_uses(props@.take(i + 1))));
        }
        i = i + 1;
    }
    proof {
        assert(props@.take(i as int) =~= props@);
    }
}

pub(crate) fn collect_used_in_instruction_value(value: &InstructionValue, used: &mut FxHashSet<u32>)
    ensures
        final(used)@ == old(used)@.union(value_uses(*value)),
{
    match value {
        InstructionValue::LoadLocal { place } => add_place(used, place),
        InstructionValue::StoreLocal { lvalue, value, .. } => {
            add_place(used, lvalue);
            add_place(used, value);
        },
        InstructionValue::LoadContext { place } => add_place(used, place),
        InstructionValue::StoreContext { lvalue, value } => {
            add_place(used, lvalue);
            add_place(used, value);
        },
        InstructionValue::DeclareLocal { lvalue, .. } => add_place(used, lvalue),
        InstructionValue::DeclareContext { lvalue } => add_place(used, lvalue),
        InstructionValue::Destructure { value, lvalue_pattern } => {
            add_place(used, value);
            collect_default_value_uses(lvalue_pattern, used);
        },
        InstructionValue::BinaryExpression { left, right, .. } => {
            add_place(used, left);
            add_place(used, right);
        },
        InstructionValue::UnaryExpression { value, .. } => add_place(used, value),
        InstructionValue::PrefixUpdate { lvalue, .. } => add_place(used, lvalue),
        InstructionValue::PostfixUpdate { lvalue, .. } => add_place(used, lvalue),
        InstructionValue::CallExpression { callee, args } => {
            add_place(used, callee);
            add_places(used, args);
        },
        InstructionValue::MethodCall { receiver, args, .. } => {
            add_place(used, receiver);
            add_places(used, args);
        },
        InstructionValue::NewExpression { callee, args } => {
            add_place(used, callee);
            add_places(used, args);
        },
        InstructionValue::PropertyLoad { object, .. } => add_place(used, object),
        InstructionValue::PropertyStore { object, value, .. } => {
            add_place(used, object);
            add_place(used, value);
        },
        InstructionValue::ComputedLoad { object, property } => {
            add_place(used, object);
            add_place(used, property);
        },
        InstructionValue::ComputedStore { object, property, value } => {
            add_place(used, object);
            add_place(used, property);
            add_place(used, value);
        },
        InstructionValue::PropertyDelete { object, .. } => add_place(used, object),
        InstructionValue::ComputedDelete { object, property } => {
            add_place(used, object);
            add_place(used, property);
        },
        InstructionValue::ObjectExpression { properties } => add_object_property_uses(used, properties),
        InstructionValue::ArrayExpression { elements } => add_array_element_uses(used, elements),
        InstructionValue::JsxExpression { tag, props, children } => {
            add_place(used, tag);
            add_attribute_uses(used, props);
            add_places(used, children);
        },
        InstructionValue::JsxFragment { children } => add_places(used, children),
        InstructionValue::Await { value } => add_place(used, value),
        InstructionValue::GetIterator { collection } => add_place(used, collection),
        InstructionValue::IteratorNext { iterator, .. } => add_place(used, iterator),
        InstructionValue::NextPropertyOf { value } => add_place(used, value),
        InstructionValue::TypeCastExpression { value, .. } => add_place(used, value),
        InstructionValue::TaggedTemplateExpression { tag, value } => {
            add_place(used, tag);
            add_places(used, &value.subexpressions);
        },
        InstructionValue::FinishMemoize { decl, deps, .. } => {
            add_place(used, decl);
            add_places(used, deps);
        },
        InstructionValue::TemplateLiteral { subexpressions, .. } => add_places(used, subexpressions),
        InstructionValue::StoreGlobal { value, .. } => add_place(used, value),
        // Function expressions capture places internally; the captured
        // variables are handled via the nested function body, not here.
        InstructionValue::FunctionExpression { .. } | InstructionValue::ObjectMethod { .. } => {},
        InstructionValue::Primitive { .. }
        | InstructionValue::JSXText { .. }
        | InstructionValue::RegExpLiteral { .. }
        | InstructionValue::LoadGlobal { .. }
        | InstructionValue::StartMemoize { .. }
        | InstructionValue::UnsupportedNode { .. } => {},
    }
    assert(final(used)@ =~= old(used)@.union(value_uses(*value)));
}

fn collect_used_in_terminal(terminal: &Terminal, used: &mut FxHashSet<u32>)
    ensures
        final(used)@ == old(used)@.union(terminal_uses(*terminal)),
{
    match terminal {
        Terminal::If { test, .. }
        | Terminal::Branch { test, .. }
        | Terminal::Ternary { test, .. }
        | Terminal::Optional { test, .. } => {
            fx_set_insert(used, test.identifier.id.0);
        },
        Terminal::Switch { test, cases, .. } => {
            fx_set_insert(used, test.identifier.id.0);
            let ghost base = used@;
            let mut i: usize = 0;
            while i < cases.len()
                invariant
                    i <= cases@.len(),
                    used@ == base.union(case_test_uses(cases@.take(i as int))),
                decreases cases.len() - i,
            {
                if let Some(t) = &cases[i].test {
                    fx_set_insert(used, t.identifier.id.0);
                }
                proof {
                    assert(cases@.take(i + 1).drop_last() =~= cases@.take(i as int));
                    assert(used@ =~= base.union(case_test_uses(cases@.take(i + 1))));
                }
                i = i + 1;
            }
            proof {
                assert(cases@.take(i as int) =~= cases@);
            }
        },
        Terminal::Return { value, .. } | Terminal::Throw { value } => {
            fx_set_insert(used, value.identifier.id.0);
        },
        Terminal::Goto { .. }
        | Terminal::For { .. }
        | Terminal::ForOf { .. }
        | Terminal::ForIn { .. }
        | Terminal::DoWhile { .. }
        | Terminal::While { .. }
        | Terminal::Logical { .. }
        | Terminal::Sequence { .. }
        | Terminal::Label { .. }
        | Terminal::MaybeThrow { .. }
        | Terminal::Try { .. }
        | Terminal::Scope { .. }
        | Terminal::PrunedScope { .. }
        | Terminal::Unreachable => {},
    }
    assert(final(used)@ =~= old(used)@.union(terminal_uses(*terminal)));
}

fn collect_used_in_block(block: &BasicBlock, used: &mut FxHashSet<u32>)
    ensures
        final(used)@ == old(used)@.union(block_uses(*block)),
{
    let mut i: usize = 0;
    while i < block.instructions.len()
        invariant
            i <= block.instructions@.len(),
            used@ == old(used)@.union(instructions_uses(block.instructions@.take(i as int))),
        decreases block.instructions.len() - i,
    {
        collect_used_in_instruction_value(&block.instructions[i].value, used);
        proof {
            assert(block.instructions@.take(i + 1).drop_last() =~= block.instructions@.take(i as int));
            assert(used@ =~= old(used)@.union(instructions_uses(block.instructions@.take(i + 1))));
        }
        i = i + 1;
    }
    proof {
        assert(block.instructions@.take(i as int) =~= block.instructions@);
    }
    collect_used_in_terminal(&block.terminal, used);
    let ghost base = used@;
    let mut j: usize = 0;
    while j < block.phis.len()
        invariant
            j <= block.phis@.len(),
            used@ == base.union(phis_uses(block.phis@.take(j as int))),
        decreases block.phis.len() - j,
    {
        let phi = &block.phis[j];
        let ghost before = used@;
        let mut k: usize = 0;
        while k < phi.operands.len()
            invariant
                k <= phi.operands@.len(),
                used@ == before.union(operand_ids(phi.operands@.take(k as int))),
            decreases phi.operands.len() - k,
        {
            fx_set_insert(used, phi.operands[k].1.identifier.id.0);
            proof {
                assert(phi.operands@.take(k + 1).drop_last() =~= phi.operands@.take(k as int));
                assert(used@ =~= before.union(operand_ids(phi.operands@.take(k + 1))));
            }
            k = k + 1;
        }
        proof {
            assert(phi.operands@.take(k as int) =~= phi.operands@);
            assert(block.phis@.take(j + 1).drop_last() =~= block.phis@.take(j as int));
            assert(used@ =~= base.union(phis_uses(block.phis@.take(j + 1))));
        }
        j = j + 1;
    }
    proof {
        assert(block.phis@.take(j as int) =~= block.phis@);
        assert(used@ =~= old(used)@.union(block_uses(*block)));
    }
}

/// Collect all identifier ids that are used as operands anywhere.
fn collect_used_identifiers(hir: &HIR) -> (r: FxHashSet<u32>)
    ensures
        r@ == used_ids(hir.blocks@),
{
    let mut used: FxHashSet<u32> = FxHashSet::default();
    let mut i: usize = 0;
    while i < hir.blocks.len()
        invariant
            i <= hir.blocks@.len(),
            used@ == used_ids(hir.blocks@.take(i as int)),
        decreases hir.blocks.len() - i,
    {
        collect_used_in_block(&hir.blocks[i].1, &mut used);
        proof {
            assert(hir.blocks@.take(i + 1).drop_last() =~= hir.blocks@.take(i as int));
            assert(used@ =~= used_ids(hir.blocks@.take(i + 1)));
        }
        i = i + 1;
    }
    proof {
        assert(hir.blocks@.take(i as int) =~= hir.blocks@);
    }
    used
}

/// Check if an instruction has side effects (should not be removed even if unused).
fn has_side_effects(value: &InstructionValue) -> (r: bool)
    ensures
        r == side_effecting(*value),
{
    match value {
        InstructionValue::CallExpression { .. }
        | InstructionValue::MethodCall { .. }
        | InstructionValue::NewExpression { .. }
        | InstructionValue::StoreLocal { .. }
        | InstructionValue::StoreContext { .. }
        | InstructionValue::StoreGlobal { .. }
        | InstructionValue::PropertyStore { .. }
        | InstructionValue::ComputedStore { .. }
        | InstructionValue::PropertyDelete { .. }
        | InstructionValue::ComputedDelete { .. }
        | InstructionValue::PrefixUpdate { .. }
        | InstructionValue::PostfixUpdate { .. }
        | InstructionValue::DeclareLocal { .. }
        | InstructionValue::DeclareContext { .. }
        | InstructionValue::Destructure { .. }
        | InstructionValue::Await { .. }
        | InstructionValue::StartMemoize { .. }
        | InstructionValue::FinishMemoize { .. }
        | InstructionValue::UnsupportedNode { .. } => true,
        _ => false,
    }
}

/// An instruction survives elimination: it has side effects or its result is used.
pub open spec fn keeps(i: Instruction, used: Set<u32>) -> bool {
    side_effecting(i.value) || used.contains(i.lvalue.identifier.id.0)
}

/// `n` is `o` with the instructions that do not survive removed.
pub open spec fn pruned_block(n: BasicBlock, o: BasicBlock, used: Set<u32>) -> bool {
    &&& n.kind == o.kind
    &&& n.id == o.id
    &&& n.terminal == o.terminal
    &&& n.preds == o.preds
    &&& n.phis == o.phis
    &&& n.instructions@ == o.instructions@.filter(|i: Instruction| keeps(i, used))
}

fn prune_block_instructions(block: &mut BasicBlock, used: &FxHashSet<u32>)
    ensures
        pruned_block(*final(block), *old(block), used@),
{
    let ghost pred = |i: Instruction| keeps(i, used@);
    let mut rest: Vec<Instruction> = Vec::new();
    std::mem::swap(&mut block.instructions, &mut rest);
    let ghost orig = rest@;
    let ghost mut k: int = 0;
    while rest.len() > 0
        invariant
            0 <= k <= orig.len(),
            orig == old(block).instructions@,
            rest@ == orig.skip(k),
            pred == |i: Instruction| keeps(i, used@),
            block.instructions@ == orig.take(k).filter(pred),
            block.kind == old(block).kind,
            block.id == old(block).id,
            block.terminal == old(block).terminal,
            block.preds == old(block).preds,
            block.phis == old(block).phis,
        decreases rest.len(),
    {
        let instr = rest.remove(0);
        proof {
            assert(orig.skip(k)[0] == orig[k]);
            assert(orig.take(k + 1).drop_last() =~= orig.take(k));
            assert(orig.take(k + 1).last() == orig[k]);
            reveal_with_fuel(Seq::filter, 1);
        }
        if has_side_effects(&instr.value) || fx_set_contains(used, instr.lvalue.identifier.id.0) {
            block.instructions.push(instr);
        }
        proof {
            assert(orig.skip(k + 1) =~= orig.skip(k).drop_first());
            k = k + 1;
        }
    }
    proof {
        assert(orig.take(k) =~= orig);
    }
}

proof fn lemma_filter_pointwise(
    mid: Seq<(BlockId, BasicBlock)>,
    orig: Seq<(BlockId, BasicBlock)>,
    pred: spec_fn((BlockId, BasicBlock)) -> bool,
    used: Set<u32>,
)
    requires
        mid.len() == orig.len(),
        forall|k: int| 0 <= k < mid.len() ==> (#[trigger] mid[k]).0 == orig[k].0 && pruned_block(mid[k].1, orig[k].1, used),
        forall|k: int| 0 <= k < mid.len() ==> pred(#[trigger] mid[k]) == pred(orig[k]),
    ensures
        mid.filter(pred).len() == orig.filter(pred).len(),
        forall|k: int| 0 <= k < mid.filter(pred).len() ==> (#[trigger] mid.filter(pred)[k]).0 == orig.filter(pred)[k].0 && pruned_block(mid.filter(pred)[k].1, orig.filter(pred)[k].1, used),
    decreases mid.len(),
{
    reveal_with_fuel(Seq::filter, 1);
    if mid.len() > 0 {
        let m1 = mid.drop_last();
        let o1 = orig.drop_last();
        assert forall|k: int| 0 <= k < m1.len() implies (#[trigger] m1[k]).0 == o1[k].0 && pruned_block(m1[k].1, o1[k].1, used) by {
            assert(m1[k] == mid[k] && o1[k] == orig[k]);
        }
        assert forall|k: int| 0 <= k < m1.len() implies pred(#[trigger] m1[k]) == pred(o1[k]) by {
            assert(m1[k] == mid[k] && o1[k] == orig[k]);
        }
        lemma_filter_pointwise(m1, o1, pred, used);
        assert(mid.last() == mid[mid.len() - 1]);
        assert(orig.last() == orig[orig.len() - 1]);
    }
}

/// Remove instructions whose results are never used (keeping those with
/// side effects), then remove blocks unreachable from the entry.
pub fn dead_code_elimination(hir: &mut HIR)
    ensures
        final(hir).entry == old(hir).entry,
        final(hir).blocks@.len() == old(hir).blocks@.filter(
            |e: (BlockId, BasicBlock)| is_reachable(cfg(old(hir).blocks@), old(hir).entry, e.0),
        ).len(),
        forall|k: int|
            0 <= k < final(hir).blocks@.len() ==> {
                let kept = old(hir).blocks@.filter(
                    |e: (BlockId, BasicBlock)| is_reachable(cfg(old(hir).blocks@), old(hir).entry, e.0),
                );
                &&& (#[trigger] final(hir).blocks@[k]).0 == kept[k].0
                &&& pruned_block(final(hir).blocks@[k].1, kept[k].1, used_ids(old(hir).blocks@))
            },
{
    let used = collect_used_identifiers(hir);
    let ghost orig = hir.blocks@;
    let mut i: usize = 0;
    while i < hir.blocks.len()
        invariant
            i <= hir.blocks@.len(),
            hir.blocks@.len() == orig.len(),
            hir.entry == old(hir).entry,
            orig == old(hir).blocks@,
            used@ == used_ids(orig),
            forall|k: int| 0 <= k < i ==> (#[trigger] hir.blocks@[k]).0 == orig[k].0 && pruned_block(hir.blocks@[k].1, orig[k].1, used@),
            forall|k: int| i <= k < hir.blocks@.len() ==> #[trigger] hir.blocks@[k] == orig[k],
        decreases hir.blocks.len() - i,
    {
        prune_block_instructions(&mut hir.blocks[i].1, &used);
        i = i + 1;
    }
    let ghost mid = hir.blocks@;
    proof {
        assert(cfg(mid) =~= cfg(orig)) by {
            assert forall|k: int| 0 <= k < mid.len() implies #[trigger] cfg(mid)[k] == cfg(orig)[k] by {
                assert(mid[k].0 == orig[k].0 && pruned_block(mid[k].1, orig[k].1, used@));
            }
        }
    }
    remove_unreachable_blocks(hir);
    proof {
        let pred = |e: (BlockId, BasicBlock)| is_reachable(cfg(orig), old(hir).entry, e.0);
        let pred_mid = |e: (BlockId, BasicBlock)| is_reachable(cfg(mid), old(hir).entry, e.0);
        assert(pred_mid =~= pred);
        assert forall|k: int| 0 <= k < mid.len() implies pred(#[trigger] mid[k]) == pred(orig[k]) by {
            assert(mid[k].0 == orig[k].0 && pruned_block(mid[k].1, orig[k].1, used@));
        }
        lemma_filter_pointwise(mid, orig, pred, used@);
    }
}

proof fn lemma_block_uses_in_used(blocks: Seq<(BlockId, BasicBlock)>, k: int)
    requires
        0 <= k < blocks.len(),
    ensures
        block_uses(blocks[k].1).subset_of(used_ids(blocks)),
    decreases blocks.len(),
{
    if k < blocks.len() - 1 {
        lemma_block_uses_in_used(blocks.drop_last(), k);
        assert(blocks.drop_last()[k] == blocks[k]);
    }
}

proof fn lemma_case_test_used(cases: Seq<crate::hir::types::Case>, j: int)
    requires
        0 <= j < cases.len(),
        cases[j].test is Some,
    ensures
        case_test_uses(cases).contains(cases[j].test->0.identifier.id.0),
    decreases cases.len(),
{
    if j < cases.len() - 1 {
        lemma_case_test_used(cases.drop_last(), j);
        assert(cases.drop_last()[j] == cases[j]);
    }
}

/// Every identifier that a block's terminal reads is used: the test of an
/// `if`, `branch`, ternary, optional chain or `switch`, the value of a
/// `return` or `throw`, and the test of every case of a `switch`. So an
/// instruction `i` that defines a switch case test survives elimination,
/// whether or not it has side effects.
pub proof fn lemma_terminal_reads_are_used(blocks: Seq<(BlockId, BasicBlock)>, k: int, i: Instruction)
    requires
        0 <= k < blocks.len(),
    ensures
        match blocks[k].1.terminal {
            Terminal::If { test, .. } | Terminal::Branch { test, .. } | Terminal::Ternary { test, .. } | Terminal::Optional {
                test,
                ..
            } => used_ids(blocks).contains(test.identifier.id.0),
            Terminal::Return { value } | Terminal::Throw { value } => used_ids(blocks).contains(value.identifier.id.0),
            Terminal::Switch { test, cases, .. } => {
                &&& used_ids(blocks).contains(test.identifier.id.0)
                &&& forall|j: int|
                    0 <= j < cases@.len() && (#[trigger] cases@[j]).test is Some ==> {
                        &&& used_ids(blocks).contains(cases@[j].test->0.identifier.id.0)
                        &&& (i.lvalue.identifier.id.0 == cases@[j].test->0.identifier.id.0 ==> keeps(i, used_ids(blocks)))
                    }
            },
            _ => true,
        },
{
    lemma_block_uses_in_used(blocks, k);
    let t = blocks[k].1.terminal;
    assert(terminal_uses(t).subset_of(used_ids(blocks)));
    match t {
        Terminal::Switch { test, cases, .. } => {
            assert forall|j: int| 0 <= j < cases@.len() && (#[trigger] cases@[j]).test is Some implies used_ids(
                blocks,
            ).contains(cases@[j].test->0.identifier.id.0) by {
                lemma_case_test_used(cases@, j);
            }
        },
        _ => {},
    }
}

} // verus!

