//! Relations between a control-flow graph before and after a pass that
//! rewrites instructions one at a time.

use vstd::prelude::*;
use crate::hir::types::{BasicBlock, BlockId, Instruction};

verus! {

/// `n` and `o` agree on everything but their instruction lists.
pub open spec fn same_block_except_instructions(n: BasicBlock, o: BasicBlock) -> bool {
    &&& n.kind == o.kind
    &&& n.id == o.id
    &&& n.terminal == o.terminal
    &&& n.preds == o.preds
    &&& n.phis == o.phis
}

/// `n` and `o` agree on everything but their terminals.
pub open spec fn same_block_except_terminal(n: BasicBlock, o: BasicBlock) -> bool {
    &&& n.kind == o.kind
    &&& n.id == o.id
    &&& n.instructions == o.instructions
    &&& n.preds == o.preds
    &&& n.phis == o.phis
}

/// The two block lists have the same ids in the same order, and their
/// blocks are related position by position.
pub open spec fn blocks_related(
    n: Seq<(BlockId, BasicBlock)>,
    o: Seq<(BlockId, BasicBlock)>,
    rel: spec_fn(BasicBlock, BasicBlock) -> bool,
) -> bool {
    &&& n.len() == o.len()
    &&& forall|k: int| 0 <= k < n.len() ==> (#[trigger] n[k]).0 == o[k].0 && rel(n[k].1, o[k].1)
}

/// The two instruction lists have the same length and are related position by position.
pub open spec fn instructions_related(
    n: Seq<Instruction>,
    o: Seq<Instruction>,
    rel: spec_fn(Instruction, Instruction) -> bool,
) -> bool {
    &&& n.len() == o.len()
    &&& forall|j: int| 0 <= j < n.len() ==> #[trigger] rel(n[j], o[j])
}

/// The two block lists differ only in their instructions, which are related
/// position by position.
pub open spec fn blocks_instructions_related(
    n: Seq<(BlockId, BasicBlock)>,
    o: Seq<(BlockId, BasicBlock)>,
    rel: spec_fn(Instruction, Instruction) -> bool,
) -> bool {
    &&& n.len() == o.len()
    &&& forall|k: int|
        0 <= k < n.len() ==> {
            &&& (#[trigger] n[k]).0 == o[k].0
            &&& same_block_except_instructions(n[k].1, o[k].1)
            &&& instructions_related(n[k].1.instructions@, o[k].1.instructions@, rel)
        }
}

} // verus!
