//! Replace `MaybeThrow` terminals of blocks that cannot throw by a plain
//! `Goto` to the continuation.

use vstd::prelude::*;
use crate::hir::types::{BasicBlock, BlockId, HIR, Instruction, InstructionValue, Terminal};
use crate::hir::shape::{blocks_related, same_block_except_terminal};

verus! {

/// Instructions that may throw: calls, `new`, property reads, `await`
/// and iteration.
pub open spec fn may_throw(v: InstructionValue) -> bool {
    ||| v is CallExpression
    ||| v is MethodCall
    ||| v is NewExpression
    ||| v is PropertyLoad
    ||| v is ComputedLoad
    ||| v is Await
    ||| v is GetIterator
    ||| v is IteratorNext
}

/// Some instruction of the list may throw.
pub open spec fn any_may_throw(q: Seq<Instruction>) -> bool {
    exists|i: int| 0 <= i < q.len() && may_throw(#[trigger] q[i].value)
}

/// The terminal of `b` after the pass.
pub open spec fn pruned_terminal(b: BasicBlock) -> Terminal {
    match b.terminal {
        Terminal::MaybeThrow { continuation, .. } if !any_may_throw(b.instructions@) => Terminal::Goto {
            block: continuation,
        },
        _ => b.terminal,
    }
}

/// `n` is `o` after the pass.
pub open spec fn pruned_maybe_throw_block(n: BasicBlock, o: BasicBlock) -> bool {
    same_block_except_terminal(n, o) && n.terminal == pruned_terminal(o)
}

fn block_may_throw(instructions: &Vec<Instruction>) -> (r: bool)
    ensures
        r == any_may_throw(instructions@),
{
    let mut i: usize = 0;
    while i < instructions.len()
        invariant
            i <= instructions@.len(),
            forall|j: int| 0 <= j < i ==> !may_throw(#[trigger] instructions@[j].value),
        decreases instructions.len() - i,
    {
        let v = &instructions[i].value;
        if matches!(
            v,
            InstructionValue::CallExpression { .. } | InstructionValue::MethodCall { .. }
                | InstructionValue::NewExpression { .. } | InstructionValue::PropertyLoad { .. }
                | InstructionValue::ComputedLoad { .. } | InstructionValue::Await { .. }
                | InstructionValue::GetIterator { .. } | InstructionValue::IteratorNext { .. }
        ) {
            return true;
        }
        i = i + 1;
    }
    false
}

fn prune_block(block: &mut BasicBlock)
    ensures
        pruned_maybe_throw_block(*final(block), *old(block)),
{
    let cont = match &block.terminal {
        Terminal::MaybeThrow { continuation, .. } => Some(*continuation),
        _ => None,
    };
    if let Some(c) = cont {
        if !block_may_throw(&block.instructions) {
            block.terminal = Terminal::Goto { block: c };
        }
    }
}

/// Remove unnecessary `MaybeThrow` terminals: a block none of whose
/// instructions can throw jumps straight to its continuation.
pub fn prune_maybe_throws(hir: &mut HIR)
    ensures
        final(hir).entry == old(hir).entry,
        blocks_related(final(hir).blocks@, old(hir).blocks@, |n: BasicBlock, o: BasicBlock| pruned_maybe_throw_block(n, o)),
{
    let mut i: usize = 0;
    while i < hir.blocks.len()
        invariant
            i <= hir.blocks@.len(),
            hir.entry == old(hir).entry,
            hir.blocks@.len() == old(hir).blocks@.len(),
            forall|k: int| 0 <= k < i ==> (#[trigger] hir.blocks@[k]).0 == old(hir).blocks@[k].0
                && pruned_maybe_throw_block(hir.blocks@[k].1, old(hir).blocks@[k].1),
            forall|k: int| i <= k < hir.blocks@.len() ==> #[trigger] hir.blocks@[k] == old(hir).blocks@[k],
        decreases hir.blocks.len() - i,
    {
        prune_block(&mut hir.blocks[i].1);
        i = i + 1;
    }
}

} // verus!
