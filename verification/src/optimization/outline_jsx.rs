//! Outline JSX children into their own temporaries. Lowering already gives
//! every JSX child its own temporary, so the pass finds nothing to do; it
//! computes the next free instruction and identifier ids it would use.

use vstd::prelude::*;
use crate::hir::types::{BasicBlock, BlockId, HIR, Instruction};

verus! {

/// The largest value of `f` over a list of instructions, or 0 if it is empty.
pub open spec fn max_over(q: Seq<Instruction>, f: spec_fn(Instruction) -> u32) -> u32
    decreases q.len(),
{
    if q.len() == 0 {
        0
    } else {
        let prev = max_over(q.drop_last(), f);
        if f(q.last()) > prev { f(q.last()) } else { prev }
    }
}

/// The largest value of `f` over the instructions of all blocks, or 0.
pub open spec fn max_over_blocks(blocks: Seq<(BlockId, BasicBlock)>, f: spec_fn(Instruction) -> u32) -> u32
    decreases blocks.len(),
{
    if blocks.len() == 0 {
        0
    } else {
        let prev = max_over_blocks(blocks.drop_last(), f);
        let here = max_over(blocks.last().1.instructions@, f);
        if here > prev { here } else { prev }
    }
}

/// The instruction id of an instruction.
pub open spec fn instruction_id_of(i: Instruction) -> u32 {
    i.id.0
}

/// The identifier id of an instruction's lvalue.
pub open spec fn lvalue_id_of(i: Instruction) -> u32 {
    i.lvalue.identifier.id.0
}

/// The largest instruction id and the largest lvalue identifier id of the
/// graph, in that order.
pub(crate) fn max_ids(hir: &HIR) -> (r: (u32, u32))
    ensures
        r.0 == max_over_blocks(hir.blocks@, |i: Instruction| instruction_id_of(i)),
        r.1 == max_over_blocks(hir.blocks@, |i: Instruction| lvalue_id_of(i)),
{
    let ghost fi = |i: Instruction| instruction_id_of(i);
    let ghost fl = |i: Instruction| lvalue_id_of(i);
    let mut mi: u32 = 0;
    let mut ml: u32 = 0;
    let mut k: usize = 0;
    while k < hir.blocks.len()
        invariant
            k <= hir.blocks@.len(),
            fi == |i: Instruction| instruction_id_of(i),
            fl == |i: Instruction| lvalue_id_of(i),
            mi == max_over_blocks(hir.blocks@.take(k as int), fi),
            ml == max_over_blocks(hir.blocks@.take(k as int), fl),
        decreases hir.blocks.len() - k,
    {
        let instrs = &hir.blocks[k].1.instructions;
        let mut bi: u32 = 0;
        let mut bl: u32 = 0;
        let mut j: usize = 0;
        while j < instrs.len()
            invariant
                j <= instrs@.len(),
                fi == |i: Instruction| instruction_id_of(i),
                fl == |i: Instruction| lvalue_id_of(i),
                bi == max_over(instrs@.take(j as int), fi),
                bl == max_over(instrs@.take(j as int), fl),
            decreases instrs.len() - j,
        {
            proof {
                assert(instrs@.take(j + 1).drop_last() =~= instrs@.take(j as int));
            }
            let x = instrs[j].id.0;
            let y = instrs[j].lvalue.identifier.id.0;
            if x > bi {
                bi = x;
            }
            if y > bl {
                bl = y;
            }
            j = j + 1;
        }
        proof {
            assert(instrs@.take(j as int) =~= instrs@);
            assert(hir.blocks@.take(k + 1).drop_last() =~= hir.blocks@.take(k as int));
        }
        if bi > mi {
            mi = bi;
        }
        if bl > ml {
            ml = bl;
        }
        k = k + 1;
    }
    proof {
        assert(hir.blocks@.take(k as int) =~= hir.blocks@);
    }
    (mi, ml)
}

/// Outline JSX expressions into separate variables. Lowering already
/// places every JSX child in a temporary of its own, so the graph is left
/// as it is. The pass computes the next free instruction and identifier ids,
/// one past the largest in use, which must therefore be below `u32::MAX`.
pub fn outline_jsx(hir: &mut HIR)
    requires
        max_over_blocks(old(hir).blocks@, |i: Instruction| instruction_id_of(i)) < u32::MAX,
        max_over_blocks(old(hir).blocks@, |i: Instruction| lvalue_id_of(i)) < u32::MAX,
    ensures
        *final(hir) == *old(hir),
{
    let (mi, ml) = max_ids(hir);
    let _next_instr_id: u32 = mi + 1;
    let _next_ident_id: u32 = ml + 1;
}

} // verus!
