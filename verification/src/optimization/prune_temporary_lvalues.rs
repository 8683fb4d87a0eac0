//! Detect single-use temporaries that are only stored into a local.
//!
//! The pass finds `StoreLocal` instructions with an unnamed lvalue whose
//! stored value is used exactly once in the function; the removal of such
//! pass-through assignments is left to code generation, so the function is
//! returned unchanged.

use vstd::prelude::*;
use rustc_hash::FxHashMap;
use crate::fxhash::{fx_map_get, fx_map_insert};
use crate::hir::types::{BasicBlock, BlockId, HIR, Instruction, InstructionValue, Place};

verus! {

pub open spec fn place_id(p: Place) -> u32 {
    p.identifier.id.0
}

/// The identifiers an instruction value reads, as counted by the pass, in
/// order.
pub open spec fn operand_ids(v: InstructionValue) -> Seq<u32> {
    match v {
        InstructionValue::StoreLocal { value, .. } => seq![place_id(value)],
        InstructionValue::LoadLocal { place } => seq![place_id(place)],
        InstructionValue::PropertyLoad { object, .. } => seq![place_id(object)],
        InstructionValue::PropertyStore { object, value, .. } => seq![place_id(object), place_id(value)],
        InstructionValue::CallExpression { callee, args } => seq![place_id(callee)] + args@.map_values(|a: Place| place_id(a)),
        InstructionValue::MethodCall { receiver, args, .. } => seq![place_id(receiver)] + args@.map_values(|a: Place| place_id(a)),
        InstructionValue::BinaryExpression { left, right, .. } => seq![place_id(left), place_id(right)],
        InstructionValue::UnaryExpression { value, .. } => seq![place_id(value)],
        InstructionValue::Destructure { value, .. } => seq![place_id(value)],
        _ => Seq::empty(),
    }
}

/// The identifiers read by the instructions `q`, in order.
pub open spec fn instrs_operand_ids(q: Seq<Instruction>) -> Seq<u32>
    decreases q.len(),
{
    if q.len() == 0 {
        Seq::empty()
    } else {
        instrs_operand_ids(q.drop_last()) + operand_ids(q.last().value)
    }
}

/// The identifiers read by all instructions of the blocks, in order.
pub open spec fn blocks_operand_ids(bs: Seq<(BlockId, BasicBlock)>) -> Seq<u32>
    decreases bs.len(),
{
    if bs.len() == 0 {
        Seq::empty()
    } else {
        blocks_operand_ids(bs.drop_last()) + instrs_operand_ids(bs.last().1.instructions@)
    }
}

/// How often `x` occurs in `s`.
pub open spec fn occurrences(s: Seq<u32>, x: u32) -> nat
    decreases s.len(),
{
    if s.len() == 0 {
        0
    } else {
        occurrences(s.drop_last(), x) + if s.last() == x { 1nat } else { 0nat }
    }
}

/// `counts` holds, for each identifier of `s`, how often it occurs,
/// saturating at `usize::MAX`, and nothing else.
pub open spec fn counts_of(counts: Map<u32, usize>, s: Seq<u32>) -> bool {
    forall|x: u32|
        #![trigger counts.contains_key(x)]
        #![trigger occurrences(s, x)]
        (counts.contains_key(x) <==> occurrences(s, x) > 0)
            && (counts.contains_key(x) ==> counts[x] as int == if occurrences(s, x) < usize::MAX { occurrences(s, x) as int } else { usize::MAX as int })
}

proof fn lemma_counts_push(counts: Map<u32, usize>, s: Seq<u32>, x: u32)
    requires
        counts_of(counts, s),
    ensures
        counts_of(
            if (if counts.contains_key(x) { counts[x] } else { 0usize }) < usize::MAX {
                counts.insert(x, ((if counts.contains_key(x) { counts[x] } else { 0usize }) + 1) as usize)
            } else {
                counts
            },
            s.push(x),
        ),
{
    assert(s.push(x).drop_last() =~= s);
    assert forall|y: u32| #![auto] occurrences(s.push(x), y) == occurrences(s, y) + if y == x { 1nat } else { 0nat } by {
        assert(s.push(x).drop_last() =~= s);
    }
    let _ = occurrences(s, x);
}

/// The identifiers an instruction reads, for counting uses.
fn collect_operand_ids(value: &InstructionValue) -> (ids: Vec<u32>)
    ensures
        ids@ == operand_ids(*value),
{
    let mut ids: Vec<u32> = Vec::new();
    match value {
        InstructionValue::StoreLocal { value, .. } => ids.push(value.identifier.id.0),
        InstructionValue::LoadLocal { place } => ids.push(place.identifier.id.0),
        InstructionValue::PropertyLoad { object, .. } => ids.push(object.identifier.id.0),
        InstructionValue::PropertyStore { object, value, .. } => {
            ids.push(object.identifier.id.0);
            ids.push(value.identifier.id.0);
        },
        InstructionValue::CallExpression { callee, args } => {
            ids.push(callee.identifier.id.0);
            let mut i: usize = 0;
            while i < args.len()
                invariant
                    i <= args@.len(),
                    ids@ == seq![place_id(*callee)] + args@.take(i as int).map_values(|a: Place| place_id(a)),
                decreases args.len() - i,
            {
                ids.push(args[i].identifier.id.0);
                i = i + 1;
                proof {
                    assert(args@.take(i as int).map_values(|a: Place| place_id(a)) =~= args@.take(i - 1).map_values(|a: Place| place_id(a)).push(place_id(args@[i - 1])));
                }
            }
            proof {
                assert(args@.take(i as int) =~= args@);
            }
        },
        InstructionValue::MethodCall { receiver, args, .. } => {
            ids.push(receiver.identifier.id.0);
            let mut i: usize = 0;
            while i < args.len()
                invariant
                    i <= args@.len(),
                    ids@ == seq![place_id(*receiver)] + args@.take(i as int).map_values(|a: Place| place_id(a)),
                decreases args.len() - i,
            {
                ids.push(args[i].identifier.id.0);
                i = i + 1;
                proof {
                    assert(args@.take(i as int).map_values(|a: Place| place_id(a)) =~= args@.take(i - 1).map_values(|a: Place| place_id(a)).push(place_id(args@[i - 1])));
                }
            }
            proof {
                assert(args@.take(i as int) =~= args@);
            }
        },
        InstructionValue::BinaryExpression { left, right, .. } => {
            ids.push(left.identifier.id.0);
            ids.push(right.identifier.id.0);
        },
        InstructionValue::UnaryExpression { value, .. } => ids.push(value.identifier.id.0),
        InstructionValue::Destructure { value, .. } => ids.push(value.identifier.id.0),
        _ => {},
    }
    proof {
        assert(ids@ =~= operand_ids(*value));
    }
    ids
}

/// Count how often each identifier is read by the instructions of the
/// function (saturating at `usize::MAX`).
fn count_uses(hir: &HIR) -> (counts: FxHashMap<u32, usize>)
    ensures
        counts_of(counts@, blocks_operand_ids(hir.blocks@)),
{
    let mut counts: FxHashMap<u32, usize> = FxHashMap::default();
    let ghost bs = hir.blocks@;
    let mut b: usize = 0;
    proof {
        assert(bs.take(0) =~= Seq::<(BlockId, BasicBlock)>::empty());
    }
    while b < hir.blocks.len()
        invariant
            b <= bs.len(),
            bs == hir.blocks@,
            counts_of(counts@, blocks_operand_ids(bs.take(b as int))),
        decreases hir.blocks.len() - b,
    {
        let block = &hir.blocks[b].1;
        let ghost q = block.instructions@;
        let ghost pre = blocks_operand_ids(bs.take(b as int));
        let mut i: usize = 0;
        proof {
            assert(q.take(0) =~= Seq::<Instruction>::empty());
            assert(pre + instrs_operand_ids(q.take(0)) =~= pre);
        }
        while i < block.instructions.len()
            invariant
                i <= q.len(),
                q == block.instructions@,
                counts_of(counts@, pre + instrs_operand_ids(q.take(i as int))),
            decreases block.instructions.len() - i,
        {
            let ids = collect_operand_ids(&block.instructions[i].value);
            let ghost base = pre + instrs_operand_ids(q.take(i as int));
            let mut j: usize = 0;
            proof {
                assert(base + ids@.take(0) =~= base);
            }
            while j < ids.len()
                invariant
                    j <= ids@.len(),
                    counts_of(counts@, base + ids@.take(j as int)),
                decreases ids.len() - j,
            {
                let ghost s0 = base + ids@.take(j as int);
                let c: usize = match fx_map_get(&counts, ids[j]) {
                    Some(c) => *c,
                    None => 0,
                };
                proof {
                    lemma_counts_push(counts@, s0, ids@[j as int]);
                    assert(s0.push(ids@[j as int]) =~= base + ids@.take(j + 1));
                }
                if c < usize::MAX {
                    fx_map_insert(&mut counts, ids[j], c + 1);
                }
                j = j + 1;
            }
            proof {
                assert(ids@.take(j as int) =~= ids@);
                assert(q.take(i + 1).drop_last() =~= q.take(i as int));
                assert(base + ids@ =~= pre + instrs_operand_ids(q.take(i + 1)));
            }
            i = i + 1;
        }
        proof {
            assert(q.take(i as int) =~= q);
            assert(bs.take(b + 1).drop_last() =~= bs.take(b as int));
        }
        b = b + 1;
    }
    proof {
        assert(bs.take(b as int) =~= bs);
    }
    counts
}

/// The count of `x` in `counts`, 0 when absent.
pub open spec fn count_in(counts: Map<u32, usize>, x: u32) -> usize {
    if counts.contains_key(x) { counts[x] } else { 0 }
}

/// Record instruction `ins`, at index `i` of its block: a `StoreLocal` into
/// an unnamed lvalue whose stored value is read exactly once maps that
/// value to `i`.
pub open spec fn mark_store(m: Map<u32, usize>, ins: Instruction, i: int, counts: Map<u32, usize>) -> Map<u32, usize> {
    match ins.value {
        InstructionValue::StoreLocal { value, .. } => if count_in(counts, place_id(value)) == 1 && ins.lvalue.identifier.name is None {
            m.insert(place_id(value), i as usize)
        } else {
            m
        },
        _ => m,
    }
}

/// `mark_store` over the instructions `q` of a block, in order.
pub open spec fn mark_instrs(m: Map<u32, usize>, q: Seq<Instruction>, counts: Map<u32, usize>) -> Map<u32, usize>
    decreases q.len(),
{
    if q.len() == 0 {
        m
    } else {
        mark_store(mark_instrs(m, q.drop_last(), counts), q.last(), q.len() - 1, counts)
    }
}

/// `mark_store` over all blocks in order: each single-use stored value maps
/// to the index of its last such store.
pub open spec fn mark_blocks(bs: Seq<(BlockId, BasicBlock)>, counts: Map<u32, usize>) -> Map<u32, usize>
    decreases bs.len(),
{
    if bs.len() == 0 {
        Map::empty()
    } else {
        mark_instrs(mark_blocks(bs.drop_last(), counts), bs.last().1.instructions@, counts)
    }
}

/// The single-use temporaries stored by `StoreLocal` into an unnamed
/// lvalue, each with the index of the store in its block.
fn single_use_stores(hir: &HIR, counts: &FxHashMap<u32, usize>) -> (removable: FxHashMap<u32, usize>)
    ensures
        removable@ == mark_blocks(hir.blocks@, counts@),
{
    let mut removable: FxHashMap<u32, usize> = FxHashMap::default();
    let ghost bs = hir.blocks@;
    let mut b: usize = 0;
    proof {
        assert(bs.take(0) =~= Seq::<(BlockId, BasicBlock)>::empty());
    }
    while b < hir.blocks.len()
        invariant
            b <= bs.len(),
            bs == hir.blocks@,
            removable@ == mark_blocks(bs.take(b as int), counts@),
        decreases hir.blocks.len() - b,
    {
        let block = &hir.blocks[b].1;
        let ghost q = block.instructions@;
        let ghost m0 = removable@;
        let mut i: usize = 0;
        proof {
            assert(q.take(0) =~= Seq::<Instruction>::empty());
        }
        while i < block.instructions.len()
            invariant
                i <= q.len(),
                q == block.instructions@,
                removable@ == mark_instrs(m0, q.take(i as int), counts@),
            decreases block.instructions.len() - i,
        {
            proof {
                assert(q.take(i + 1).drop_last() =~= q.take(i as int));
            }
            let instr = &block.instructions[i];
            if let InstructionValue::StoreLocal { value, .. } = &instr.value {
                let val_id = value.identifier.id.0;
                let uses: usize = match fx_map_get(counts, val_id) {
                    Some(c) => *c,
                    None => 0,
                };
                if uses == 1 && instr.lvalue.identifier.name.is_none() {
                    fx_map_insert(&mut removable, val_id, i);
                }
            }
            i = i + 1;
        }
        proof {
            assert(q.take(i as int) =~= q);
            assert(bs.take(b + 1).drop_last() =~= bs.take(b as int));
        }
        b = b + 1;
    }
    proof {
        assert(bs.take(b as int) =~= bs);
    }
    removable
}

/// Find the single-use temporaries whose only use is a `StoreLocal`. The
/// assignments are left in place for code generation to skip, so the
/// function itself does not change.
pub fn prune_temporary_lvalues(hir: &mut HIR)
    ensures
        *final(hir) == *old(hir),
{
    let counts = count_uses(hir);
    let _removable = single_use_stores(hir, &counts);
}

} // verus!
