//! Mark nested functions that capture nothing as candidates for hoisting to
//! module level, by naming them `__hoistable_<id>`.

use vstd::prelude::*;
use vstd::string::StringExecFns;
use crate::text::{decimal, push_decimal};
use crate::hir::types::{BasicBlock, BlockId, HIR, IdentifierId, Instruction, InstructionValue};
use crate::hir::shape::{blocks_instructions_related, instructions_related, same_block_except_instructions};

verus! {

/// A function expression that captures no context and is neither a
/// generator nor async.
pub open spec fn hoistable(i: Instruction) -> bool {
    match i.value {
        InstructionValue::FunctionExpression { lowered_func, .. } => {
            &&& lowered_func.context@.len() == 0
            &&& !lowered_func.is_generator
            &&& !lowered_func.is_async
        },
        _ => false,
    }
}

/// The lvalue ids of the hoistable instructions of a list.
pub open spec fn hoistable_ids_in(q: Seq<Instruction>) -> Set<IdentifierId>
    decreases q.len(),
{
    if q.len() == 0 {
        Set::empty()
    } else {
        let prev = hoistable_ids_in(q.drop_last());
        if hoistable(q.last()) { prev.insert(q.last().lvalue.identifier.id) } else { prev }
    }
}

/// The lvalue ids of the hoistable instructions of all blocks.
pub open spec fn hoistable_ids(blocks: Seq<(BlockId, BasicBlock)>) -> Set<IdentifierId>
    decreases blocks.len(),
{
    if blocks.len() == 0 {
        Set::empty()
    } else {
        hoistable_ids(blocks.drop_last()) + hoistable_ids_in(blocks.last().1.instructions@)
    }
}

/// The name given to a hoistable function whose lvalue has id `id`.
pub open spec fn hoistable_name(id: IdentifierId) -> Seq<char> {
    "__hoistable_"@ + decimal(id.0 as nat)
}

/// `n` is `o` after the pass, given the hoistable ids: an unnamed function
/// expression whose lvalue id is hoistable gets its hoistable name.
pub open spec fn outlined(n: Instruction, o: Instruction, ids: Set<IdentifierId>) -> bool {
    match o.value {
        InstructionValue::FunctionExpression { name: None, lowered_func, expr_type } if ids.contains(o.lvalue.identifier.id) => {
            &&& n.id == o.id
            &&& n.lvalue == o.lvalue
            &&& n.loc == o.loc
            &&& n.value matches InstructionValue::FunctionExpression { name: Some(nm), lowered_func: nf, expr_type: ne }
            &&& nm@ == hoistable_name(o.lvalue.identifier.id)
            &&& nf == lowered_func
            &&& ne == expr_type
        },
        _ => n == o,
    }
}

fn is_hoistable(instr: &Instruction) -> (r: bool)
    ensures
        r == hoistable(*instr),
{
    match &instr.value {
        InstructionValue::FunctionExpression { lowered_func, .. } => lowered_func.context.len() == 0
            && !lowered_func.is_generator && !lowered_func.is_async,
        _ => false,
    }
}

fn collect_hoistable_ids(hir: &HIR) -> (r: Vec<IdentifierId>)
    ensures
        r@.to_set() == hoistable_ids(hir.blocks@),
{
    let mut ids: Vec<IdentifierId> = Vec::new();
    let mut i: usize = 0;
    while i < hir.blocks.len()
        invariant
            i <= hir.blocks@.len(),
            ids@.to_set() == hoistable_ids(hir.blocks@.take(i as int)),
        decreases hir.blocks.len() - i,
    {
        let block = &hir.blocks[i].1;
        let ghost before = ids@.to_set();
        let mut j: usize = 0;
        while j < block.instructions.len()
            invariant
                j <= block.instructions@.len(),
                ids@.to_set() == before + hoistable_ids_in(block.instructions@.take(j as int)),
            decreases block.instructions.len() - j,
        {
            proof {
                assert(block.instructions@.take(j + 1).drop_last() =~= block.instructions@.take(j as int));
            }
            let instr = &block.instructions[j];
            if is_hoistable(instr) {
                let ghost old_ids = ids@;
                ids.push(instr.lvalue.identifier.id);
                proof {
                    assert(ids@ =~= old_ids + seq![instr.lvalue.identifier.id]);
                    Seq::lemma_to_set_insert_commutes(old_ids, instr.lvalue.identifier.id);
                }
            }
            proof {
                assert(ids@.to_set() =~= before + hoistable_ids_in(block.instructions@.take(j + 1)));
            }
            j = j + 1;
        }
        proof {
            assert(block.instructions@.take(j as int) =~= block.instructions@);
            assert(hir.blocks@.take(i + 1).drop_last() =~= hir.blocks@.take(i as int));
        }
        i = i + 1;
    }
    proof {
        assert(hir.blocks@.take(i as int) =~= hir.blocks@);
    }
    ids
}

fn contains_id(ids: &Vec<IdentifierId>, x: IdentifierId) -> (r: bool)
    ensures
        r == ids@.contains(x),
{
    let mut k: usize = 0;
    while k < ids.len()
        invariant
            k <= ids@.len(),
            forall|m: int| 0 <= m < k ==> ids@[m] != x,
        decreases ids.len() - k,
    {
        if ids[k] == x {
            return true;
        }
        k = k + 1;
    }
    false
}

fn outline_instruction(instr: &mut Instruction, ids: &Vec<IdentifierId>)
    ensures
        outlined(*final(instr), *old(instr), ids@.to_set()),
{
    let id = instr.lvalue.identifier.id;
    if contains_id(ids, id) {
        if let InstructionValue::FunctionExpression { name, .. } = &mut instr.value {
            if name.is_none() {
                let mut s = String::from_str("__hoistable_");
                push_decimal(&mut s, id.0);
                *name = Some(s);
            }
        }
    }
}

/// Outline nested function expressions: an unnamed function expression that
/// captures no context and is neither a generator nor async is named
/// `__hoistable_<id>`, `<id>` being its lvalue's identifier id, so that code
/// generation can hoist it to module level.
pub fn outline_functions(hir: &mut HIR)
    ensures
        final(hir).entry == old(hir).entry,
        blocks_instructions_related(
            final(hir).blocks@,
            old(hir).blocks@,
            |n: Instruction, o: Instruction| outlined(n, o, hoistable_ids(old(hir).blocks@)),
        ),
{
    let ids = collect_hoistable_ids(hir);
    let ghost hs = hoistable_ids(old(hir).blocks@);
    let mut i: usize = 0;
    while i < hir.blocks.len()
        invariant
            i <= hir.blocks@.len(),
            hir.entry == old(hir).entry,
            hir.blocks@.len() == old(hir).blocks@.len(),
            ids@.to_set() == hs,
            hs == hoistable_ids(old(hir).blocks@),
            forall|k: int| 0 <= k < i ==> {
                &&& (#[trigger] hir.blocks@[k]).0 == old(hir).blocks@[k].0
                &&& same_block_except_instructions(hir.blocks@[k].1, old(hir).blocks@[k].1)
                &&& instructions_related(hir.blocks@[k].1.instructions@, old(hir).blocks@[k].1.instructions@, |n: Instruction, o: Instruction| outlined(n, o, hs))
            },
            forall|k: int| i <= k < hir.blocks@.len() ==> #[trigger] hir.blocks@[k] == old(hir).blocks@[k],
        decreases hir.blocks.len() - i,
    {
        let block = &mut hir.blocks[i].1;
        let ghost ob = *block;
        let mut j: usize = 0;
        while j < block.instructions.len()
            invariant
                j <= block.instructions@.len(),
                same_block_except_instructions(*block, ob),
                block.instructions@.len() == ob.instructions@.len(),
                ids@.to_set() == hs,
                forall|m: int| 0 <= m < j ==> outlined(#[trigger] block.instructions@[m], ob.instructions@[m], hs),
                forall|m: int| j <= m < block.instructions@.len() ==> #[trigger] block.instructions@[m] == ob.instructions@[m],
            decreases block.instructions.len() - j,
        {
            outline_instruction(&mut block.instructions[j], &ids);
            j = j + 1;
        }
        i = i + 1;
    }
}

} // verus!
