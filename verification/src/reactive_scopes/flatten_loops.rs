//! Scopes inside loop bodies cannot be memoized, since a loop body runs a
//! different number of times on each render: remove the scopes of the
//! instructions of loop-body blocks.

use vstd::prelude::*;
use crate::hir::types::{BasicBlock, BlockId, HIR, Identifier, Instruction, Place, Terminal};
use crate::hir::shape::{instructions_related, same_block_except_instructions};

verus! {

/// The body block of a loop terminal.
pub open spec fn loop_body(t: Terminal) -> Option<BlockId> {
    match t {
        Terminal::For { body, .. } => Some(body),
        Terminal::ForOf { body, .. } => Some(body),
        Terminal::ForIn { body, .. } => Some(body),
        Terminal::While { body, .. } => Some(body),
        Terminal::DoWhile { body, .. } => Some(body),
        _ => None,
    }
}

/// The body blocks of the loop terminals of a block list.
pub open spec fn loop_bodies(blocks: Seq<(BlockId, BasicBlock)>) -> Set<BlockId>
    decreases blocks.len(),
{
    if blocks.len() == 0 {
        Set::empty()
    } else {
        let prev = loop_bodies(blocks.drop_last());
        match loop_body(blocks.last().1.terminal) {
            Some(b) => prev.insert(b),
            None => prev,
        }
    }
}

/// `i` with the scope of its lvalue removed.
pub open spec fn unscoped(i: Instruction) -> Instruction {
    Instruction {
        lvalue: Place { identifier: Identifier { scope: None, ..i.lvalue.identifier }, ..i.lvalue },
        ..i
    }
}

fn contains_block(ids: &Vec<BlockId>, x: BlockId) -> (r: bool)
    ensures
        r == ids@.contains(x),
{
    let mut k: usize = 0;
    while k < ids.len()
        invariant
            k <= ids@.len(),
            forall|m: int| 0 <= m < k ==> ids@[m] != x,
        decreases ids.len() - k,
    {
        if ids[k] == x {
            return true;
        }
        k = k + 1;
    }
    false
}

fn collect_loop_bodies(hir: &HIR) -> (r: Vec<BlockId>)
    ensures
        r@.to_set() == loop_bodies(hir.blocks@),
{
    let mut bodies: Vec<BlockId> = Vec::new();
    let mut i: usize = 0;
    while i < hir.blocks.len()
        invariant
            i <= hir.blocks@.len(),
            bodies@.to_set() == loop_bodies(hir.blocks@.take(i as int)),
        decreases hir.blocks.len() - i,
    {
        proof {
            assert(hir.blocks@.take(i + 1).drop_last() =~= hir.blocks@.take(i as int));
        }
        let body = match &hir.blocks[i].1.terminal {
            Terminal::For { body, .. } => Some(*body),
            Terminal::ForOf { body, .. } => Some(*body),
            Terminal::ForIn { body, .. } => Some(*body),
            Terminal::While { body, .. } => Some(*body),
            Terminal::DoWhile { body, .. } => Some(*body),
            _ => None,
        };
        if let Some(b) = body {
            let ghost prev = bodies@;
            bodies.push(b);
            proof {
                assert(bodies@ =~= prev + seq![b]);
                Seq::lemma_to_set_insert_commutes(prev, b);
            }
        }
        i = i + 1;
    }
    proof {
        assert(hir.blocks@.take(i as int) =~= hir.blocks@);
    }
    bodies
}

/// Flatten reactive loops: every instruction of a block that is the body of
/// a `for`, `for-of`, `for-in`, `while` or `do-while` loop loses the scope
/// of its lvalue; other blocks are unchanged.
pub fn flatten_reactive_loops_hir(hir: &mut HIR)
    ensures
        final(hir).entry == old(hir).entry,
        final(hir).blocks@.len() == old(hir).blocks@.len(),
        forall|k: int| 0 <= k < old(hir).blocks@.len() ==> {
            let o = old(hir).blocks@[k];
            &&& (#[trigger] final(hir).blocks@[k]).0 == o.0
            &&& if loop_bodies(old(hir).blocks@).contains(o.0) {
                &&& same_block_except_instructions(final(hir).blocks@[k].1, o.1)
                &&& instructions_related(final(hir).blocks@[k].1.instructions@, o.1.instructions@, |n: Instruction, p: Instruction| n == unscoped(p))
            } else {
                final(hir).blocks@[k] == o
            }
        },
{
    let bodies = collect_loop_bodies(hir);
    let ghost lb = loop_bodies(old(hir).blocks@);
    let mut i: usize = 0;
    while i < hir.blocks.len()
        invariant
            i <= hir.blocks@.len(),
            hir.entry == old(hir).entry,
            hir.blocks@.len() == old(hir).blocks@.len(),
            bodies@.to_set() == lb,
            lb == loop_bodies(old(hir).blocks@),
            forall|k: int| 0 <= k < i ==> {
                let o = old(hir).blocks@[k];
                &&& (#[trigger] hir.blocks@[k]).0 == o.0
                &&& if lb.contains(o.0) {
                    &&& same_block_except_instructions(hir.blocks@[k].1, o.1)
                    &&& instructions_related(hir.blocks@[k].1.instructions@, o.1.instructions@, |n: Instruction, p: Instruction| n == unscoped(p))
                } else {
                    hir.blocks@[k] == o
                }
            },
            forall|k: int| i <= k < hir.blocks@.len() ==> #[trigger] hir.blocks@[k] == old(hir).blocks@[k],
        decreases hir.blocks.len() - i,
    {
        let id = hir.blocks[i].0;
        if contains_block(&bodies, id) {
            let block = &mut hir.blocks[i].1;
            let ghost ob = *block;
            let mut j: usize = 0;
            while j < block.instructions.len()
                invariant
                    j <= block.instructions@.len(),
                    same_block_except_instructions(*block, ob),
                    block.instructions@.len() == ob.instructions@.len(),
                    forall|m: int| 0 <= m < j ==> #[trigger] block.instructions@[m] == unscoped(ob.instructions@[m]),
                    forall|m: int| j <= m < block.instructions@.len() ==> #[trigger] block.instructions@[m] == ob.instructions@[m],
                decreases block.instructions.len() - j,
            {
                block.instructions[j].lvalue.identifier.scope = None;
                j = j + 1;
            }
        }
        i = i + 1;
    }
}

/// Keep the operands of fbt and macro calls in the scope of the call. The
/// graph has no fbt or macro calls to group, so it is left as it is.
pub fn memoize_fbt_and_macro_operands_in_same_scope(hir: &mut HIR)
    ensures
        *final(hir) == *old(hir),
{
}

} // verus!
