//! Pull unscoped instructions into the scope that consumes them: an
//! instruction without a scope whose result is read only by instructions of
//! one and the same scope joins that scope, until nothing changes. Scopes
//! already assigned are never changed.

use vstd::prelude::*;
use rustc_hash::{FxHashMap, FxHashSet};
use crate::fxhash::{fx_map_get, fx_map_insert, fx_map_remove, fx_set_elements, fx_set_insert};
use crate::hir::copy::copy_scope;
use crate::hir::model::{ScopeModel, scope_model};
use crate::hir::types::{BasicBlock, BlockId, HIR, Identifier, Instruction, Phi, Place, ReactiveScope, ScopeId};
use crate::reactive_scopes::prune_unused::{collect_instruction_operand_ids, operand_ids};

verus! {

// ---------------------------------------------------------------------------
// The scopes already assigned
// ---------------------------------------------------------------------------

/// The scope of each identifier (by number), and the first scope seen with
/// each scope id.
pub type ScopeIndex = (Map<u32, u32>, Map<ScopeId, ScopeModel>);

pub open spec fn index_identifier(st: ScopeIndex, x: Identifier) -> ScopeIndex {
    match x.scope {
        Some(s) => (
            st.0.insert(x.id.0, s.id.0),
            if st.1.contains_key(s.id) { st.1 } else { st.1.insert(s.id, scope_model(*s)) },
        ),
        None => st,
    }
}

pub open spec fn index_instructions(st: ScopeIndex, q: Seq<Instruction>) -> ScopeIndex
    decreases q.len(),
{
    if q.len() == 0 {
        st
    } else {
        index_identifier(index_instructions(st, q.drop_last()), q.last().lvalue.identifier)
    }
}

pub open spec fn index_phis(st: ScopeIndex, q: Seq<Phi>) -> ScopeIndex
    decreases q.len(),
{
    if q.len() == 0 {
        st
    } else {
        index_identifier(index_phis(st, q.drop_last()), q.last().place.identifier)
    }
}

/// The scopes assigned in a list of blocks: each block's instruction
/// results, then its phis.
pub open spec fn index_blocks(bs: Seq<(BlockId, BasicBlock)>) -> ScopeIndex
    decreases bs.len(),
{
    if bs.len() == 0 {
        (Map::empty(), Map::empty())
    } else {
        let st = index_blocks(bs.drop_last());
        index_phis(index_instructions(st, bs.last().1.instructions@), bs.last().1.phis@)
    }
}

pub struct ScopeIndexMaps {
    pub scope_of: FxHashMap<u32, u32>,
    pub first: FxHashMap<u32, ReactiveScope>,
}

pub open spec fn first_view(m: Map<u32, ReactiveScope>) -> Map<ScopeId, ScopeModel> {
    Map::new(|k: ScopeId| m.contains_key(k.0), |k: ScopeId| scope_model(m[k.0]))
}

pub open spec fn index_view(m: ScopeIndexMaps) -> ScopeIndex {
    (m.scope_of@, first_view(m.first@))
}

fn note_identifier(maps: &mut ScopeIndexMaps, x: &Identifier)
    ensures
        index_view(*final(maps)) == index_identifier(index_view(*old(maps)), *x),
{
    match &x.scope {
        Some(s) => {
            fx_map_insert(&mut maps.scope_of, x.id.0, s.id.0);
            let ghost f0 = maps.first@;
            if fx_map_get(&maps.first, s.id.0).is_none() {
                let c = copy_scope(&**s);
                fx_map_insert(&mut maps.first, s.id.0, c);
                proof {
                    assert(first_view(maps.first@) =~= first_view(f0).insert(s.id, scope_model(**s)));
                }
            }
        },
        None => {},
    }
}

fn index_scopes(hir: &HIR) -> (maps: ScopeIndexMaps)
    ensures
        index_view(maps) == index_blocks(hir.blocks@),
{
    let mut maps = ScopeIndexMaps { scope_of: FxHashMap::default(), first: FxHashMap::default() };
    proof {
        assert(index_view(maps) =~= (Map::<u32, u32>::empty(), Map::<ScopeId, ScopeModel>::empty())) by {
            assert(first_view(maps.first@) =~= Map::<ScopeId, ScopeModel>::empty());
        }
        assert(hir.blocks@.take(0) =~= Seq::<(BlockId, BasicBlock)>::empty());
    }
    let mut b: usize = 0;
    while b < hir.blocks.len()
        invariant
            b <= hir.blocks@.len(),
            index_view(maps) == index_blocks(hir.blocks@.take(b as int)),
        decreases hir.blocks.len() - b,
    {
        let block = &hir.blocks[b].1;
        let ghost st = index_view(maps);
        let mut i: usize = 0;
        proof {
            assert(block.instructions@.take(0) =~= Seq::<Instruction>::empty());
        }
        while i < block.instructions.len()
            invariant
                i <= block.instructions@.len(),
                index_view(maps) == index_instructions(st, block.instructions@.take(i as int)),
            decreases block.instructions.len() - i,
        {
            note_identifier(&mut maps, &block.instructions[i].lvalue.identifier);
            proof {
                assert(block.instructions@.take(i + 1).drop_last() =~= block.instructions@.take(i as int));
            }
            i = i + 1;
        }
        proof {
            assert(block.instructions@.take(i as int) =~= block.instructions@);
        }
        let ghost st2 = index_view(maps);
        let mut j: usize = 0;
        proof {
            assert(block.phis@.take(0) =~= Seq::<Phi>::empty());
        }
        while j < block.phis.len()
            invariant
                j <= block.phis@.len(),
                index_view(maps) == index_phis(st2, block.phis@.take(j as int)),
            decreases block.phis.len() - j,
        {
            note_identifier(&mut maps, &block.phis[j].place.identifier);
            proof {
                assert(block.phis@.take(j + 1).drop_last() =~= block.phis@.take(j as int));
            }
            j = j + 1;
        }
        proof {
            assert(block.phis@.take(j as int) =~= block.phis@);
            assert(hir.blocks@.take(b + 1).drop_last() =~= hir.blocks@.take(b as int));
            assert(hir.blocks@.take(b + 1).last() == hir.blocks@[b as int]);
        }
        b = b + 1;
    }
    proof {
        assert(hir.blocks@.take(b as int) =~= hir.blocks@);
    }
    maps
}

// ---------------------------------------------------------------------------
// Consumers
// ---------------------------------------------------------------------------

/// `m` with `c` added to the consumers of each identifier of `ops`.
pub open spec fn add_consumer(m: Map<u32, Set<u32>>, ops: Set<u32>, c: u32) -> Map<u32, Set<u32>> {
    Map::new(
        |k: u32| m.contains_key(k) || ops.contains(k),
        |k: u32| if ops.contains(k) { (if m.contains_key(k) { m[k] } else { Set::empty() }).insert(c) } else { m[k] },
    )
}

pub open spec fn consumers_instructions(m: Map<u32, Set<u32>>, q: Seq<Instruction>) -> Map<u32, Set<u32>>
    decreases q.len(),
{
    if q.len() == 0 {
        m
    } else {
        let ins = q.last();
        add_consumer(consumers_instructions(m, q.drop_last()), operand_ids(ins.value), ins.lvalue.identifier.id.0)
    }
}

/// For each identifier, the results of the instructions that read it.
pub open spec fn consumers_blocks(bs: Seq<(BlockId, BasicBlock)>) -> Map<u32, Set<u32>>
    decreases bs.len(),
{
    if bs.len() == 0 {
        Map::empty()
    } else {
        consumers_instructions(consumers_blocks(bs.drop_last()), bs.last().1.instructions@)
    }
}

pub open spec fn consumers_view(m: Map<u32, FxHashSet<u32>>) -> Map<u32, Set<u32>> {
    Map::new(|k: u32| m.contains_key(k), |k: u32| m[k]@)
}

fn record_consumers(consumers: &mut FxHashMap<u32, FxHashSet<u32>>, ins: &Instruction)
    ensures
        consumers_view(final(consumers)@) == add_consumer(consumers_view(old(consumers)@), operand_ids(ins.value), ins.lvalue.identifier.id.0),
{
    let c = ins.lvalue.identifier.id.0;
    let mut ops: FxHashSet<u32> = FxHashSet::default();
    proof {
        assert(ops@ =~= Set::<u32>::empty());
    }
    collect_instruction_operand_ids(&ins.value, &mut ops);
    proof {
        assert(ops@ =~= operand_ids(ins.value));
    }
    let elems = fx_set_elements(&ops);
    let ghost m0 = consumers_view(consumers@);
    let mut j: usize = 0;
    proof {
        assert(elems@.take(0).to_set() =~= Set::<u32>::empty());
        assert(consumers_view(consumers@) =~= add_consumer(m0, elems@.take(0).to_set(), c));
    }
    while j < elems.len()
        invariant
            j <= elems@.len(),
            consumers_view(consumers@) == add_consumer(m0, elems@.take(j as int).to_set(), c),
        decreases elems.len() - j,
    {
        let x = elems[j];
        let ghost s = elems@.take(j as int).to_set();
        let ghost before = consumers_view(consumers@);
        proof {
            assert(elems@.take(j + 1) =~= elems@.take(j as int).push(x));
            elems@.take(j as int).lemma_push_to_set_commute(x);
        }
        let ghost cm0 = consumers@;
        let mut set = match fx_map_remove(consumers, x) {
            Some(s) => s,
            None => {
                let e: FxHashSet<u32> = FxHashSet::default();
                proof {
                    assert(e@ =~= Set::<u32>::empty());
                }
                e
            },
        };
        proof {
            assert(cm0.contains_key(x) ==> set@ == cm0[x]@);
            assert(!cm0.contains_key(x) ==> set@ == Set::<u32>::empty());
        }
        fx_set_insert(&mut set, c);
        let ghost setv = set@;
        fx_map_insert(consumers, x, set);
        proof {
            assert(consumers@ == cm0.remove(x).insert(x, set));
            assert(consumers@.dom() =~= cm0.dom().insert(x));
            assert(consumers@[x]@ == setv);
            assert(before.dom() =~= cm0.dom());
            let after = consumers_view(consumers@);
            assert(after[x] == setv);
            let want = add_consumer(m0, s.insert(x), c);
            assert forall|k: u32| after.contains_key(k) implies after[k] =~= want[k] by {
                if k == x {
                    if before.contains_key(x) {
                        assert(after[k] =~= before[x].insert(c));
                    } else {
                        assert(after[k] =~= Set::<u32>::empty().insert(c));
                    }
                } else {
                    assert(after[k] == before[k]);
                }
            }
            assert(after.dom() =~= want.dom());
            assert(after =~= want);
        }
        j = j + 1;
    }
    proof {
        assert(elems@.take(j as int) =~= elems@);
    }
}

fn collect_consumers(hir: &HIR) -> (consumers: FxHashMap<u32, FxHashSet<u32>>)
    ensures
        consumers_view(consumers@) == consumers_blocks(hir.blocks@),
{
    let mut consumers: FxHashMap<u32, FxHashSet<u32>> = FxHashMap::default();
    proof {
        assert(consumers_view(consumers@) =~= Map::<u32, Set<u32>>::empty());
        assert(hir.blocks@.take(0) =~= Seq::<(BlockId, BasicBlock)>::empty());
    }
    let mut b: usize = 0;
    while b < hir.blocks.len()
        invariant
            b <= hir.blocks@.len(),
            consumers_view(consumers@) == consumers_blocks(hir.blocks@.take(b as int)),
        decreases hir.blocks.len() - b,
    {
        let block = &hir.blocks[b].1;
        let ghost st = consumers_view(consumers@);
        let mut i: usize = 0;
        proof {
            assert(block.instructions@.take(0) =~= Seq::<Instruction>::empty());
        }
        while i < block.instructions.len()
            invariant
                i <= block.instructions@.len(),
                consumers_view(consumers@) == consumers_instructions(st, block.instructions@.take(i as int)),
            decreases block.instructions.len() - i,
        {
            record_consumers(&mut consumers, &block.instructions[i]);
            proof {
                assert(block.instructions@.take(i + 1).drop_last() =~= block.instructions@.take(i as int));
            }
            i = i + 1;
        }
        proof {
            assert(block.instructions@.take(i as int) =~= block.instructions@);
            assert(hir.blocks@.take(b + 1).drop_last() =~= hir.blocks@.take(b as int));
            assert(hir.blocks@.take(b + 1).last() == hir.blocks@[b as int]);
        }
        b = b + 1;
    }
    proof {
        assert(hir.blocks@.take(b as int) =~= hir.blocks@);
    }
    consumers
}


// ---------------------------------------------------------------------------
// Pulling instructions into their consumers' scope
// ---------------------------------------------------------------------------

/// Some instruction of the blocks has `y` as its result.
pub open spec fn is_result(bs: Seq<(BlockId, BasicBlock)>, y: u32) -> bool {
    exists|b: int, i: int|
        0 <= b < bs.len() && 0 <= i < bs[b].1.instructions@.len() && (#[trigger] bs[b].1.instructions@[i]).lvalue.identifier.id.0 == y
}

/// Every identifier of `cs` has scope `s` in `m`.
pub open spec fn agrees(m: Map<u32, u32>, cs: Set<u32>, s: u32) -> bool {
    forall|c: u32| #[trigger] cs.contains(c) ==> m.contains_key(c) && m[c] == s
}

pub open spec fn nonempty(cs: Set<u32>) -> bool {
    exists|c: u32| #[trigger] cs.contains(c)
}

/// The result `y`, unscoped at first, is read, and only by instructions of
/// scope `s`.
pub open spec fn pulled_into(
    m: Map<u32, u32>,
    m0: Map<u32, u32>,
    cons: Map<u32, Set<u32>>,
    bs: Seq<(BlockId, BasicBlock)>,
    y: u32,
    s: u32,
) -> bool {
    &&& !m0.contains_key(y)
    &&& is_result(bs, y)
    &&& cons.contains_key(y)
    &&& nonempty(cons[y])
    &&& agrees(m, cons[y], s)
}

pub open spec fn closed_membership(m: Map<u32, u32>, m0: Map<u32, u32>, cons: Map<u32, Set<u32>>, bs: Seq<(BlockId, BasicBlock)>) -> bool {
    forall|y: u32, s: u32| #[trigger] pulled_into(m, m0, cons, bs, y, s) ==> m.contains_key(y) && m[y] == s
}

/// `m` is the least extension of `m0` in which every result read only by
/// instructions of one scope has that scope.
pub open spec fn least_membership(m: Map<u32, u32>, m0: Map<u32, u32>, cons: Map<u32, Set<u32>>, bs: Seq<(BlockId, BasicBlock)>) -> bool {
    &&& m0.submap_of(m)
    &&& closed_membership(m, m0, cons, bs)
    &&& forall|c: Map<u32, u32>| m0.submap_of(c) && #[trigger] closed_membership(c, m0, cons, bs) ==> m.submap_of(c)
}

/// The number of instruction results of `q` without a scope in `d`.
pub open spec fn count_unscoped_instructions(q: Seq<Instruction>, d: Set<u32>) -> nat
    decreases q.len(),
{
    if q.len() == 0 {
        0
    } else {
        count_unscoped_instructions(q.drop_last(), d) + if d.contains(q.last().lvalue.identifier.id.0) { 0nat } else { 1nat }
    }
}

pub open spec fn count_unscoped(bs: Seq<(BlockId, BasicBlock)>, d: Set<u32>) -> nat
    decreases bs.len(),
{
    if bs.len() == 0 {
        0
    } else {
        count_unscoped(bs.drop_last(), d) + count_unscoped_instructions(bs.last().1.instructions@, d)
    }
}

proof fn lemma_count_instructions_mono(q: Seq<Instruction>, d1: Set<u32>, d2: Set<u32>)
    requires
        d1.subset_of(d2),
    ensures
        count_unscoped_instructions(q, d2) <= count_unscoped_instructions(q, d1),
    decreases q.len(),
{
    if q.len() > 0 {
        lemma_count_instructions_mono(q.drop_last(), d1, d2);
    }
}

proof fn lemma_count_mono(bs: Seq<(BlockId, BasicBlock)>, d1: Set<u32>, d2: Set<u32>)
    requires
        d1.subset_of(d2),
    ensures
        count_unscoped(bs, d2) <= count_unscoped(bs, d1),
    decreases bs.len(),
{
    if bs.len() > 0 {
        lemma_count_mono(bs.drop_last(), d1, d2);
        lemma_count_instructions_mono(bs.last().1.instructions@, d1, d2);
    }
}

proof fn lemma_count_instructions_insert(q: Seq<Instruction>, d: Set<u32>, i: int)
    requires
        0 <= i < q.len(),
        !d.contains(q[i].lvalue.identifier.id.0),
    ensures
        count_unscoped_instructions(q, d.insert(q[i].lvalue.identifier.id.0)) < count_unscoped_instructions(q, d),
    decreases q.len(),
{
    let y = q[i].lvalue.identifier.id.0;
    lemma_count_instructions_mono(q.drop_last(), d, d.insert(y));
    if i < q.len() - 1 {
        assert(q.drop_last()[i] == q[i]);
        lemma_count_instructions_insert(q.drop_last(), d, i);
    }
}

proof fn lemma_count_insert(bs: Seq<(BlockId, BasicBlock)>, d: Set<u32>, b: int, i: int)
    requires
        0 <= b < bs.len(),
        0 <= i < bs[b].1.instructions@.len(),
        !d.contains(bs[b].1.instructions@[i].lvalue.identifier.id.0),
    ensures
        count_unscoped(bs, d.insert(bs[b].1.instructions@[i].lvalue.identifier.id.0)) < count_unscoped(bs, d),
    decreases bs.len(),
{
    let y = bs[b].1.instructions@[i].lvalue.identifier.id.0;
    if b < bs.len() - 1 {
        assert(bs.drop_last()[b] == bs[b]);
        lemma_count_insert(bs.drop_last(), d, b, i);
        lemma_count_instructions_mono(bs.last().1.instructions@, d, d.insert(y));
    } else {
        lemma_count_mono(bs.drop_last(), d, d.insert(y));
        lemma_count_instructions_insert(bs.last().1.instructions@, d, i);
    }
}

/// The one scope all of `cs` have in `m`, if `cs` is not empty and they all
/// have one.
fn unanimous_scope(cs: &FxHashSet<u32>, m: &FxHashMap<u32, u32>) -> (r: Option<u32>)
    ensures
        r is Some ==> nonempty(cs@) && agrees(m@, cs@, r->0),
        r is None ==> forall|s: u32| !(nonempty(cs@) && agrees(m@, cs@, s)),
{
    let elems = fx_set_elements(cs);
    proof {
        assert forall|k: int| 0 <= k < elems@.len() implies cs@.contains(#[trigger] elems@[k]) by {
            assert(elems@.to_set().contains(elems@[k]));
        }
    }
    if elems.len() == 0 {
        proof {
            assert forall|s: u32| !(nonempty(cs@) && agrees(m@, cs@, s)) by {
                if nonempty(cs@) {
                    let c = choose|c: u32| #[trigger] cs@.contains(c);
                    assert(elems@.to_set().contains(c));
                }
            }
        }
        return None;
    }
    let first: u32 = match fx_map_get(m, elems[0]) {
        Some(s) => *s,
        None => {
            return None;
        },
    };
    let mut j: usize = 1;
    while j < elems.len()
        invariant
            1 <= j <= elems@.len(),
            elems@.to_set() == cs@,
            m@.contains_key(elems@[0]) && m@[elems@[0]] == first,
            forall|k: int| 0 <= k < elems@.len() ==> cs@.contains(#[trigger] elems@[k]),
            forall|k: int| 0 <= k < j ==> m@.contains_key(#[trigger] elems@[k]) && m@[elems@[k]] == first,
        decreases elems.len() - j,
    {
        match fx_map_get(m, elems[j]) {
            Some(s) => {
                if *s != first {
                    proof {
                        assert forall|t: u32| !(nonempty(cs@) && agrees(m@, cs@, t)) by {
                            if agrees(m@, cs@, t) {
                                assert(cs@.contains(elems@[0]));
                                assert(cs@.contains(elems@[j as int]));
                            }
                        }
                    }
                    return None;
                }
            },
            None => {
                proof {
                    assert(cs@.contains(elems@[j as int]));
                }
                return None;
            },
        }
        j = j + 1;
    }
    proof {
        assert(cs@.contains(elems@[0]));
        assert forall|c: u32| #[trigger] cs@.contains(c) implies m@.contains_key(c) && m@[c] == first by {
            assert(elems@.to_set().contains(c));
            let k = choose|k: int| 0 <= k < elems@.len() && elems@[k] == c;
            assert(m@.contains_key(elems@[k]));
        }
    }
    Some(first)
}


/// Once `y` has been pulled into `s`, it stays so in any larger map.
proof fn lemma_pulled_mono(
    m: Map<u32, u32>,
    c: Map<u32, u32>,
    m0: Map<u32, u32>,
    cons: Map<u32, Set<u32>>,
    bs: Seq<(BlockId, BasicBlock)>,
    y: u32,
    s: u32,
)
    requires
        pulled_into(m, m0, cons, bs, y, s),
        m.submap_of(c),
    ensures
        pulled_into(c, m0, cons, bs, y, s),
{
    assert forall|x: u32| #[trigger] cons[y].contains(x) implies c.contains_key(x) && c[x] == s by {
        assert(m.contains_key(x));
    }
}

/// Assign scopes to unscoped results read only by one scope, until nothing
/// changes.
fn propagate_membership(m: &mut FxHashMap<u32, u32>, consumers: &FxHashMap<u32, FxHashSet<u32>>, hir: &HIR)
    ensures
        least_membership(final(m)@, old(m)@, consumers_view(consumers@), hir.blocks@),
{
    let ghost m0 = m@;
    let ghost cons = consumers_view(consumers@);
    let ghost bs = hir.blocks@;
    proof {
        assert forall|c: Map<u32, u32>| m0.submap_of(c) && #[trigger] closed_membership(c, m0, cons, bs) implies m@.submap_of(c) by {}
    }
    loop
        invariant
            m0.submap_of(m@),
            cons == consumers_view(consumers@),
            bs == hir.blocks@,
            forall|c: Map<u32, u32>| m0.submap_of(c) && #[trigger] closed_membership(c, m0, cons, bs) ==> m@.submap_of(c),
            forall|y: u32| #[trigger] m@.contains_key(y) && !m0.contains_key(y) ==> pulled_into(m@, m0, cons, bs, y, m@[y]),
        ensures
            least_membership(m@, m0, cons, bs),
        decreases count_unscoped(bs, m@.dom()),
    {
        let ghost start = m@;
        let mut changed = false;
        let mut b: usize = 0;
        while b < hir.blocks.len()
            invariant
                b <= bs.len(),
                m0.submap_of(m@),
                start.submap_of(m@),
                cons == consumers_view(consumers@),
                bs == hir.blocks@,
                forall|c: Map<u32, u32>| m0.submap_of(c) && #[trigger] closed_membership(c, m0, cons, bs) ==> m@.submap_of(c),
                forall|y: u32| #[trigger] m@.contains_key(y) && !m0.contains_key(y) ==> pulled_into(m@, m0, cons, bs, y, m@[y]),
                !changed ==> m@ == start,
                changed ==> count_unscoped(bs, m@.dom()) < count_unscoped(bs, start.dom()),
                !changed ==> forall|bb: int, ii: int| 0 <= bb < b && 0 <= ii < bs[bb].1.instructions@.len() ==>
                    start.contains_key(#[trigger] bs[bb].1.instructions@[ii].lvalue.identifier.id.0)
                    || forall|s: u32| !pulled_into(start, m0, cons, bs, bs[bb].1.instructions@[ii].lvalue.identifier.id.0, s),
            decreases hir.blocks.len() - b,
        {
            let block = &hir.blocks[b].1;
            let mut i: usize = 0;
            while i < block.instructions.len()
                invariant
                    b < bs.len(),
                    block == bs[b as int].1,
                    i <= block.instructions@.len(),
                    m0.submap_of(m@),
                    start.submap_of(m@),
                    cons == consumers_view(consumers@),
                    bs == hir.blocks@,
                    forall|c: Map<u32, u32>| m0.submap_of(c) && #[trigger] closed_membership(c, m0, cons, bs) ==> m@.submap_of(c),
                    forall|y: u32| #[trigger] m@.contains_key(y) && !m0.contains_key(y) ==> pulled_into(m@, m0, cons, bs, y, m@[y]),
                    !changed ==> m@ == start,
                    changed ==> count_unscoped(bs, m@.dom()) < count_unscoped(bs, start.dom()),
                    !changed ==> forall|bb: int, ii: int| 0 <= bb < b && 0 <= ii < bs[bb].1.instructions@.len() ==>
                        start.contains_key(#[trigger] bs[bb].1.instructions@[ii].lvalue.identifier.id.0)
                        || forall|s: u32| !pulled_into(start, m0, cons, bs, bs[bb].1.instructions@[ii].lvalue.identifier.id.0, s),
                    !changed ==> forall|ii: int| 0 <= ii < i ==>
                        start.contains_key(#[trigger] block.instructions@[ii].lvalue.identifier.id.0)
                        || forall|s: u32| !pulled_into(start, m0, cons, bs, block.instructions@[ii].lvalue.identifier.id.0, s),
                decreases block.instructions.len() - i,
            {
                let id = block.instructions[i].lvalue.identifier.id.0;
                let ghost before = m@;
                proof {
                    assert(is_result(bs, id)) by {
                        assert(bs[b as int].1.instructions@[i as int].lvalue.identifier.id.0 == id);
                    }
                }
                if fx_map_get(m, id).is_none() {
                    let found = match fx_map_get(consumers, id) {
                        Some(cs) => unanimous_scope(cs, m),
                        None => None,
                    };
                    proof {
                        assert(!m0.contains_key(id));
                        if found is None {
                            assert forall|s: u32| !pulled_into(before, m0, cons, bs, id, s) by {
                                if consumers@.contains_key(id) {
                                    assert(cons[id] == consumers@[id]@);
                                }
                            }
                        }
                    }
                    match found {
                        Some(s) => {
                            fx_map_insert(m, id, s);
                            changed = true;
                            proof {
                                assert(cons[id] == consumers@[id]@);
                                assert(pulled_into(before, m0, cons, bs, id, s));
                                assert(before.submap_of(m@));
                                assert forall|c: Map<u32, u32>| m0.submap_of(c) && #[trigger] closed_membership(c, m0, cons, bs) implies m@.submap_of(c) by {
                                    lemma_pulled_mono(before, c, m0, cons, bs, id, s);
                                    assert(pulled_into(c, m0, cons, bs, id, s));
                                }
                                assert forall|y: u32| #[trigger] m@.contains_key(y) && !m0.contains_key(y) implies pulled_into(m@, m0, cons, bs, y, m@[y]) by {
                                    if y == id {
                                        lemma_pulled_mono(before, m@, m0, cons, bs, id, s);
                                    } else {
                                        lemma_pulled_mono(before, m@, m0, cons, bs, y, before[y]);
                                    }
                                }
                                assert(m@.dom() == before.dom().insert(id));
                                lemma_count_insert(bs, before.dom(), b as int, i as int);
                                lemma_count_mono(bs, start.dom(), before.dom());
                            }
                        },
                        None => {},
                    }
                }
                i = i + 1;
            }
            b = b + 1;
        }
        if !changed {
            proof {
                assert forall|y: u32, s: u32| #[trigger] pulled_into(m@, m0, cons, bs, y, s) implies m@.contains_key(y) && m@[y] == s by {
                    let (bb, ii) = choose|bb: int, ii: int|
                        0 <= bb < bs.len() && 0 <= ii < bs[bb].1.instructions@.len() && (#[trigger] bs[bb].1.instructions@[ii]).lvalue.identifier.id.0 == y;
                    if m@.contains_key(y) {
                        let t = m@[y];
                        assert(pulled_into(m@, m0, cons, bs, y, t));
                        let c = choose|c: u32| #[trigger] cons[y].contains(c);
                        assert(m@[c] == s && m@[c] == t);
                    } else {
                        assert(start.contains_key(bs[bb].1.instructions@[ii].lvalue.identifier.id.0)
                            || forall|s2: u32| !pulled_into(start, m0, cons, bs, bs[bb].1.instructions@[ii].lvalue.identifier.id.0, s2));
                    }
                }
            }
            break;
        }
    }
}


// ---------------------------------------------------------------------------
// Writing the scopes back
// ---------------------------------------------------------------------------

/// `n` is the identifier `o` after the pass: an unscoped identifier with a
/// scope in `m` whose first occurrence is known gets (a copy of) that
/// scope; any other identifier is unchanged.
pub open spec fn member_identifier(n: Identifier, o: Identifier, m: Map<u32, u32>, first: Map<ScopeId, ScopeModel>) -> bool {
    if o.scope is None && m.contains_key(o.id.0) && first.contains_key(ScopeId(m[o.id.0])) {
        &&& n == Identifier { scope: n.scope, ..o }
        &&& n.scope matches Some(sc) && scope_model(*sc) == first[ScopeId(m[o.id.0])]
    } else {
        n == o
    }
}

pub open spec fn member_instruction(n: Instruction, o: Instruction, m: Map<u32, u32>, first: Map<ScopeId, ScopeModel>) -> bool {
    &&& n == Instruction { lvalue: Place { identifier: n.lvalue.identifier, ..o.lvalue }, ..o }
    &&& member_identifier(n.lvalue.identifier, o.lvalue.identifier, m, first)
}

pub open spec fn member_phi(n: Phi, o: Phi, m: Map<u32, u32>, first: Map<ScopeId, ScopeModel>) -> bool {
    &&& n == Phi { place: Place { identifier: n.place.identifier, ..o.place }, ..o }
    &&& member_identifier(n.place.identifier, o.place.identifier, m, first)
}

/// `n` is the block `o` with the scopes of its instruction results and phis
/// written back.
pub open spec fn member_block(n: BasicBlock, o: BasicBlock, m: Map<u32, u32>, first: Map<ScopeId, ScopeModel>) -> bool {
    &&& n.kind == o.kind
    &&& n.id == o.id
    &&& n.terminal == o.terminal
    &&& n.preds == o.preds
    &&& n.instructions@.len() == o.instructions@.len()
    &&& forall|j: int| 0 <= j < n.instructions@.len() ==> member_instruction(#[trigger] n.instructions@[j], o.instructions@[j], m, first)
    &&& n.phis@.len() == o.phis@.len()
    &&& forall|j: int| 0 <= j < n.phis@.len() ==> member_phi(#[trigger] n.phis@[j], o.phis@[j], m, first)
}

fn assign_scope(x: &mut Identifier, m: &FxHashMap<u32, u32>, first: &FxHashMap<u32, ReactiveScope>)
    ensures
        member_identifier(*final(x), *old(x), m@, first_view(first@)),
{
    if x.scope.is_none() {
        match fx_map_get(m, x.id.0) {
            Some(sid) => {
                match fx_map_get(first, *sid) {
                    Some(sc) => {
                        x.scope = Some(Box::new(copy_scope(sc)));
                    },
                    None => {},
                }
            },
            None => {},
        }
    }
}

fn write_back_block(block: &mut BasicBlock, m: &FxHashMap<u32, u32>, first: &FxHashMap<u32, ReactiveScope>)
    ensures
        member_block(*final(block), *old(block), m@, first_view(first@)),
{
    let mut j: usize = 0;
    while j < block.instructions.len()
        invariant
            j <= block.instructions@.len(),
            block.instructions@.len() == old(block).instructions@.len(),
            block.kind == old(block).kind,
            block.id == old(block).id,
            block.preds == old(block).preds,
            block.phis == old(block).phis,
            block.terminal == old(block).terminal,
            forall|k: int| 0 <= k < j ==> member_instruction(#[trigger] block.instructions@[k], old(block).instructions@[k], m@, first_view(first@)),
            forall|k: int| j <= k < block.instructions@.len() ==> #[trigger] block.instructions@[k] == old(block).instructions@[k],
        decreases block.instructions.len() - j,
    {
        assign_scope(&mut block.instructions[j].lvalue.identifier, m, first);
        j = j + 1;
    }
    let mut k: usize = 0;
    while k < block.phis.len()
        invariant
            k <= block.phis@.len(),
            block.phis@.len() == old(block).phis@.len(),
            block.instructions@.len() == old(block).instructions@.len(),
            block.kind == old(block).kind,
            block.id == old(block).id,
            block.preds == old(block).preds,
            block.terminal == old(block).terminal,
            forall|q: int| 0 <= q < block.instructions@.len() ==> member_instruction(#[trigger] block.instructions@[q], old(block).instructions@[q], m@, first_view(first@)),
            forall|q: int| 0 <= q < k ==> member_phi(#[trigger] block.phis@[q], old(block).phis@[q], m@, first_view(first@)),
            forall|q: int| k <= q < block.phis@.len() ==> #[trigger] block.phis@[q] == old(block).phis@[q],
        decreases block.phis.len() - k,
    {
        assign_scope(&mut block.phis[k].place.identifier, m, first);
        k = k + 1;
    }
}

/// Pull unscoped instructions into the scope of their consumers: the
/// scopes already assigned are `index_blocks(blocks).0`; the result is its
/// least extension closed under `pulled_into`, written back to every
/// unscoped instruction result and phi as a copy of the first scope seen
/// with that id. Nothing else changes.
pub fn propagate_scope_membership_hir(hir: &mut HIR)
    ensures
        final(hir).entry == old(hir).entry,
        final(hir).blocks@.len() == old(hir).blocks@.len(),
        exists|m: Map<u32, u32>| {
            &&& least_membership(m, index_blocks(old(hir).blocks@).0, consumers_blocks(old(hir).blocks@), old(hir).blocks@)
            &&& forall|k: int| 0 <= k < old(hir).blocks@.len() ==> {
                &&& (#[trigger] final(hir).blocks@[k]).0 == old(hir).blocks@[k].0
                &&& member_block(final(hir).blocks@[k].1, old(hir).blocks@[k].1, m, index_blocks(old(hir).blocks@).1)
            }
        },
{
    let maps = index_scopes(hir);
    let consumers = collect_consumers(hir);
    let mut scope_of = maps.scope_of;
    propagate_membership(&mut scope_of, &consumers, hir);
    let ghost mm = scope_of@;
    let ghost ob = hir.blocks@;
    let mut b: usize = 0;
    while b < hir.blocks.len()
        invariant
            b <= hir.blocks@.len(),
            hir.blocks@.len() == ob.len(),
            hir.entry == old(hir).entry,
            ob == old(hir).blocks@,
            mm == scope_of@,
            forall|k: int| 0 <= k < b ==> (#[trigger] hir.blocks@[k]).0 == ob[k].0
                && member_block(hir.blocks@[k].1, ob[k].1, mm, first_view(maps.first@)),
            forall|k: int| b <= k < hir.blocks@.len() ==> #[trigger] hir.blocks@[k] == ob[k],
        decreases hir.blocks.len() - b,
    {
        write_back_block(&mut hir.blocks[b].1, &scope_of, &maps.first);
        b = b + 1;
    }
    proof {
        assert(least_membership(mm, index_blocks(ob).0, consumers_blocks(ob), ob));
    }
}

} // verus!
