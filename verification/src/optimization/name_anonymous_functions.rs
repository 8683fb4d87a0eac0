//! Give names to anonymous function expressions based on their assignment
//! target: `const foo = () => {}` names the function "foo".

use vstd::prelude::*;
use crate::hir::types::{BasicBlock, HIR, Instruction, InstructionValue};
use crate::hir::shape::{blocks_instructions_related, instructions_related, same_block_except_instructions};

verus! {

/// `n` is `o` with an unnamed function expression given the name of the
/// variable it is assigned to, when that variable has one.
pub open spec fn named_instruction(n: Instruction, o: Instruction) -> bool {
    &&& n.id == o.id
    &&& n.lvalue == o.lvalue
    &&& n.loc == o.loc
    &&& match o.value {
        InstructionValue::FunctionExpression { name: None, lowered_func, expr_type } if o.lvalue.identifier.name is Some => n.value
            == InstructionValue::FunctionExpression { name: o.lvalue.identifier.name, lowered_func, expr_type },
        _ => n.value == o.value,
    }
}

fn name_instruction(instr: &mut Instruction)
    ensures
        named_instruction(*final(instr), *old(instr)),
{
    if let InstructionValue::FunctionExpression { name, .. } = &mut instr.value {
        if name.is_none() {
            if let Some(lvalue_name) = &instr.lvalue.identifier.name {
                *name = Some(lvalue_name.clone());
            }
        }
    }
}

fn name_block(block: &mut BasicBlock)
    ensures
        same_block_except_instructions(*final(block), *old(block)),
        instructions_related(final(block).instructions@, old(block).instructions@, |n: Instruction, o: Instruction| named_instruction(n, o)),
{
    let mut j: usize = 0;
    while j < block.instructions.len()
        invariant
            j <= block.instructions@.len(),
            same_block_except_instructions(*block, *old(block)),
            block.instructions@.len() == old(block).instructions@.len(),
            forall|m: int| 0 <= m < j ==> named_instruction(#[trigger] block.instructions@[m], old(block).instructions@[m]),
            forall|m: int| j <= m < block.instructions@.len() ==> #[trigger] block.instructions@[m] == old(block).instructions@[m],
        decreases block.instructions.len() - j,
    {
        name_instruction(&mut block.instructions[j]);
        j = j + 1;
    }
}

/// Give names to anonymous function expressions based on their assignment target.
pub fn name_anonymous_functions(hir: &mut HIR)
    ensures
        final(hir).entry == old(hir).entry,
        blocks_instructions_related(final(hir).blocks@, old(hir).blocks@, |n: Instruction, o: Instruction| named_instruction(n, o)),
{
    let mut i: usize = 0;
    while i < hir.blocks.len()
        invariant
            i <= hir.blocks@.len(),
            hir.entry == old(hir).entry,
            hir.blocks@.len() == old(hir).blocks@.len(),
            forall|k: int| 0 <= k < i ==> {
                &&& (#[trigger] hir.blocks@[k]).0 == old(hir).blocks@[k].0
                &&& same_block_except_instructions(hir.blocks@[k].1, old(hir).blocks@[k].1)
                &&& instructions_related(hir.blocks@[k].1.instructions@, old(hir).blocks@[k].1.instructions@, |n: Instruction, o: Instruction| named_instruction(n, o))
            },
            forall|k: int| i <= k < hir.blocks@.len() ==> #[trigger] hir.blocks@[k] == old(hir).blocks@[k],
        decreases hir.blocks.len() - i,
    {
        name_block(&mut hir.blocks[i].1);
        i = i + 1;
    }
}

} // verus!
