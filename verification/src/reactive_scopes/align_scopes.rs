//! Adjust the instruction ranges of reactive scopes: widen a scope to cover
//! the scopes of the values it is built from, and clamp scopes to the block
//! that holds their instruction.

use vstd::prelude::*;
use rustc_hash::FxHashSet;
use crate::fxhash::fx_set_insert;
use crate::hir::types::{
    BasicBlock, HIR, Identifier, Instruction, InstructionId, InstructionValue, MutableRange,
    ObjectProperty, Place, ReactiveScope, Terminal,
};
use crate::hir::shape::{blocks_instructions_related, instructions_related, same_block_except_instructions};

verus! {

/// The smallest range that covers both `a` and `b`.
pub open spec fn covering(a: MutableRange, b: MutableRange) -> MutableRange {
    MutableRange {
        start: InstructionId(if a.start.0 <= b.start.0 { a.start.0 } else { b.start.0 }),
        end: InstructionId(if a.end.0 >= b.end.0 { a.end.0 } else { b.end.0 }),
    }
}

/// `i` with the range of its lvalue's scope replaced by `r` (unchanged when
/// the lvalue has no scope).
pub open spec fn with_lvalue_range(i: Instruction, r: MutableRange) -> Instruction {
    match i.lvalue.identifier.scope {
        Some(s) => Instruction {
            lvalue: Place {
                identifier: Identifier {
                    scope: Some(Box::new(ReactiveScope { range: r, ..*s })),
                    ..i.lvalue.identifier
                },
                ..i.lvalue
            },
            ..i
        },
        None => i,
    }
}

/// The range of the scope of `p`'s identifier, if it has one.
pub open spec fn scope_range(p: Place) -> Option<MutableRange> {
    match p.identifier.scope {
        Some(s) => Some(s.range),
        None => None,
    }
}

/// The instruction `o` after method-call alignment: when both the receiver
/// and the lvalue of a method call have scopes, the lvalue's scope grows to
/// cover the receiver's.
pub open spec fn method_call_aligned(o: Instruction) -> Instruction {
    match o.value {
        InstructionValue::MethodCall { receiver, .. } => match (scope_range(o.lvalue), scope_range(receiver)) {
            (Some(l), Some(r)) => with_lvalue_range(o, covering(l, r)),
            _ => o,
        },
        _ => o,
    }
}

/// `r` widened, in order, by the scope range of each property value that
/// has a scope.
pub open spec fn covering_properties(r: MutableRange, q: Seq<ObjectProperty>) -> MutableRange
    decreases q.len(),
{
    if q.len() == 0 {
        r
    } else {
        let prev = covering_properties(r, q.drop_last());
        match scope_range(q.last().value) {
            Some(p) => covering(prev, p),
            None => prev,
        }
    }
}

/// The instruction `o` after object-method alignment: the scope of an
/// object expression's lvalue grows to cover the scopes of its property
/// values.
pub open spec fn object_method_aligned(o: Instruction) -> Instruction {
    match o.value {
        InstructionValue::ObjectExpression { properties } => match scope_range(o.lvalue) {
            Some(l) => with_lvalue_range(o, covering_properties(l, properties@)),
            None => o,
        },
        _ => o,
    }
}

fn cover(a: MutableRange, b: MutableRange) -> (r: MutableRange)
    ensures
        r == covering(a, b),
{
    MutableRange {
        start: InstructionId(if a.start.0 <= b.start.0 { a.start.0 } else { b.start.0 }),
        end: InstructionId(if a.end.0 >= b.end.0 { a.end.0 } else { b.end.0 }),
    }
}

fn place_scope_range(p: &Place) -> (r: Option<MutableRange>)
    ensures
        r == scope_range(*p),
{
    match &p.identifier.scope {
        Some(s) => Some(s.range),
        None => None,
    }
}

fn set_lvalue_range(instr: &mut Instruction, r: MutableRange)
    ensures
        *final(instr) == with_lvalue_range(*old(instr), r),
{
    if let Some(s) = &mut instr.lvalue.identifier.scope {
        s.range = r;
    }
}

fn align_method_call(instr: &mut Instruction)
    ensures
        *final(instr) == method_call_aligned(*old(instr)),
{
    let receiver_range = match &instr.value {
        InstructionValue::MethodCall { receiver, .. } => place_scope_range(receiver),
        _ => None,
    };
    if let Some(rr) = receiver_range {
        if let Some(lr) = place_scope_range(&instr.lvalue) {
            set_lvalue_range(instr, cover(lr, rr));
        }
    }
}

/// Align method call scopes: when the receiver of a method call and the
/// call's result both have scopes, the result's scope is widened to cover
/// the receiver's.
pub fn align_method_call_scopes(hir: &mut HIR)
    ensures
        final(hir).entry == old(hir).entry,
        blocks_instructions_related(final(hir).blocks@, old(hir).blocks@, |n: Instruction, o: Instruction| n == method_call_aligned(o)),
{
    let mut i: usize = 0;
    while i < hir.blocks.len()
        invariant
            i <= hir.blocks@.len(),
            hir.entry == old(hir).entry,
            hir.blocks@.len() == old(hir).blocks@.len(),
            forall|k: int| 0 <= k < i ==> {
                &&& (#[trigger] hir.blocks@[k]).0 == old(hir).blocks@[k].0
                &&& same_block_except_instructions(hir.blocks@[k].1, old(hir).blocks@[k].1)
                &&& instructions_related(hir.blocks@[k].1.instructions@, old(hir).blocks@[k].1.instructions@, |n: Instruction, o: Instruction| n == method_call_aligned(o))
            },
            forall|k: int| i <= k < hir.blocks@.len() ==> #[trigger] hir.blocks@[k] == old(hir).blocks@[k],
        decreases hir.blocks.len() - i,
    {
        let block = &mut hir.blocks[i].1;
        let ghost ob = *block;
        let mut j: usize = 0;
        while j < block.instructions.len()
            invariant
                j <= block.instructions@.len(),
                same_block_except_instructions(*block, ob),
                block.instructions@.len() == ob.instructions@.len(),
                forall|m: int| 0 <= m < j ==> #[trigger] block.instructions@[m] == method_call_aligned(ob.instructions@[m]),
                forall|m: int| j <= m < block.instructions@.len() ==> #[trigger] block.instructions@[m] == ob.instructions@[m],
            decreases block.instructions.len() - j,
        {
            align_method_call(&mut block.instructions[j]);
            j = j + 1;
        }
        i = i + 1;
    }
}

fn align_object_method(instr: &mut Instruction)
    ensures
        *final(instr) == object_method_aligned(*old(instr)),
{
    let lvalue_range = place_scope_range(&instr.lvalue);
    if let Some(l) = lvalue_range {
        let mut r = l;
        if let InstructionValue::ObjectExpression { properties } = &instr.value {
            let mut k: usize = 0;
            while k < properties.len()
                invariant
                    k <= properties@.len(),
                    r == covering_properties(l, properties@.take(k as int)),
                decreases properties.len() - k,
            {
                proof {
                    assert(properties@.take(k + 1).drop_last() =~= properties@.take(k as int));
                }
                if let Some(p) = place_scope_range(&properties[k].value) {
                    r = cover(r, p);
                }
                k = k + 1;
            }
            proof {
                assert(properties@.take(k as int) =~= properties@);
            }
        }
        set_lvalue_range(instr, r);
    }
}

/// Align object method scopes: the scope of an object expression's result
/// is widened to cover the scope of each property value that has one.
pub fn align_object_method_scopes(hir: &mut HIR)
    ensures
        final(hir).entry == old(hir).entry,
        blocks_instructions_related(final(hir).blocks@, old(hir).blocks@, |n: Instruction, o: Instruction| n == object_method_aligned(o)),
{
    let mut i: usize = 0;
    while i < hir.blocks.len()
        invariant
            i <= hir.blocks@.len(),
            hir.entry == old(hir).entry,
            hir.blocks@.len() == old(hir).blocks@.len(),
            forall|k: int| 0 <= k < i ==> {
                &&& (#[trigger] hir.blocks@[k]).0 == old(hir).blocks@[k].0
                &&& same_block_except_instructions(hir.blocks@[k].1, old(hir).blocks@[k].1)
                &&& instructions_related(hir.blocks@[k].1.instructions@, old(hir).blocks@[k].1.instructions@, |n: Instruction, o: Instruction| n == object_method_aligned(o))
            },
            forall|k: int| i <= k < hir.blocks@.len() ==> #[trigger] hir.blocks@[k] == old(hir).blocks@[k],
        decreases hir.blocks.len() - i,
    {
        let block = &mut hir.blocks[i].1;
        let ghost ob = *block;
        let mut j: usize = 0;
        while j < block.instructions.len()
            invariant
                j <= block.instructions@.len(),
                same_block_except_instructions(*block, ob),
                block.instructions@.len() == ob.instructions@.len(),
                forall|m: int| 0 <= m < j ==> #[trigger] block.instructions@[m] == object_method_aligned(ob.instructions@[m]),
                forall|m: int| j <= m < block.instructions@.len() ==> #[trigger] block.instructions@[m] == ob.instructions@[m],
            decreases block.instructions.len() - j,
        {
            align_object_method(&mut block.instructions[j]);
            j = j + 1;
        }
        i = i + 1;
    }
}

/// `r` clamped to the instruction range `[lo, hi)` of a block: a start
/// before `lo` moves up to `lo`, an end after `hi` moves down to `hi`.
pub open spec fn clamped(r: MutableRange, lo: u32, hi: u32) -> MutableRange {
    MutableRange {
        start: if r.start.0 < lo { InstructionId(lo) } else { r.start },
        end: if r.end.0 > hi { InstructionId(hi) } else { r.end },
    }
}

/// The id of the first instruction of a block, or 0 for an empty block.
pub open spec fn block_start(q: Seq<Instruction>) -> u32 {
    if q.len() > 0 { q[0].id.0 } else { 0 }
}

/// One past the id of the last instruction of a block, or 0 for an empty
/// block.
pub open spec fn block_end(q: Seq<Instruction>) -> int {
    if q.len() > 0 { q.last().id.0 + 1 } else { 0 }
}

/// The last instruction of every non-empty block has an id below `u32::MAX`,
/// so that one past it is an id too.
pub open spec fn block_ends_fit(blocks: Seq<(crate::hir::types::BlockId, BasicBlock)>) -> bool {
    forall|k: int| 0 <= k < blocks.len() ==> block_end((#[trigger] blocks[k]).1.instructions@) <= u32::MAX
}

/// The instruction `o` of a block spanning `[lo, hi)` after the pass: its
/// lvalue's scope, if any, is clamped to the block.
pub open spec fn clamped_instruction(o: Instruction, lo: u32, hi: u32) -> Instruction {
    match scope_range(o.lvalue) {
        Some(r) => with_lvalue_range(o, clamped(r, lo, hi)),
        None => o,
    }
}

fn clamp_instruction(instr: &mut Instruction, lo: u32, hi: u32)
    ensures
        *final(instr) == clamped_instruction(*old(instr), lo, hi),
{
    if let Some(r) = place_scope_range(&instr.lvalue) {
        let start = if r.start.0 < lo { InstructionId(lo) } else { r.start };
        let end = if r.end.0 > hi { InstructionId(hi) } else { r.end };
        set_lvalue_range(instr, MutableRange { start, end });
    }
}

/// Align reactive scopes to block scopes: the scope of every instruction's
/// lvalue is clamped to the range of instruction ids of its block, so that
/// no scope crosses a block boundary.
pub fn align_reactive_scopes_to_block_scopes_hir(hir: &mut HIR)
    requires
        block_ends_fit(old(hir).blocks@),
    ensures
        final(hir).entry == old(hir).entry,
        final(hir).blocks@.len() == old(hir).blocks@.len(),
        forall|k: int| 0 <= k < old(hir).blocks@.len() ==> {
            let ob = old(hir).blocks@[k].1;
            &&& (#[trigger] final(hir).blocks@[k]).0 == old(hir).blocks@[k].0
            &&& same_block_except_instructions(final(hir).blocks@[k].1, ob)
            &&& instructions_related(
                final(hir).blocks@[k].1.instructions@,
                ob.instructions@,
                |n: Instruction, o: Instruction| n == clamped_instruction(o, block_start(ob.instructions@), block_end(ob.instructions@) as u32),
            )
        },
{
    let mut i: usize = 0;
    while i < hir.blocks.len()
        invariant
            i <= hir.blocks@.len(),
            hir.entry == old(hir).entry,
            hir.blocks@.len() == old(hir).blocks@.len(),
            block_ends_fit(old(hir).blocks@),
            forall|k: int| 0 <= k < i ==> {
                let ob = old(hir).blocks@[k].1;
                &&& (#[trigger] hir.blocks@[k]).0 == old(hir).blocks@[k].0
                &&& same_block_except_instructions(hir.blocks@[k].1, ob)
                &&& instructions_related(
                    hir.blocks@[k].1.instructions@,
                    ob.instructions@,
                    |n: Instruction, o: Instruction| n == clamped_instruction(o, block_start(ob.instructions@), block_end(ob.instructions@) as u32),
                )
            },
            forall|k: int| i <= k < hir.blocks@.len() ==> #[trigger] hir.blocks@[k] == old(hir).blocks@[k],
        decreases hir.blocks.len() - i,
    {
        proof {
            assert(block_end(hir.blocks@[i as int].1.instructions@) <= u32::MAX);
        }
        let block = &mut hir.blocks[i].1;
        let ghost ob = *block;
        let n = block.instructions.len();
        let lo: u32 = if n > 0 { block.instructions[0].id.0 } else { 0 };
        let hi: u32 = if n > 0 { block.instructions[n - 1].id.0 + 1 } else { 0 };
        assert(lo == block_start(ob.instructions@));
        assert(hi == block_end(ob.instructions@));
        let mut j: usize = 0;
        while j < block.instructions.len()
            invariant
                j <= block.instructions@.len(),
                same_block_except_instructions(*block, ob),
                block.instructions@.len() == ob.instructions@.len(),
                forall|m: int| 0 <= m < j ==> #[trigger] block.instructions@[m] == clamped_instruction(ob.instructions@[m], lo, hi),
                forall|m: int| j <= m < block.instructions@.len() ==> #[trigger] block.instructions@[m] == ob.instructions@[m],
            decreases block.instructions.len() - j,
        {
            clamp_instruction(&mut block.instructions[j], lo, hi);
            j = j + 1;
        }
        i = i + 1;
    }
}

/// Prune unused labels of the control-flow graph. Every `Label` terminal's
/// label is recorded as used, so no label is pruned and the graph is left
/// as it is.
pub fn prune_unused_labels_hir(hir: &mut HIR)
    ensures
        *final(hir) == *old(hir),
{
    let mut used_labels: FxHashSet<u32> = FxHashSet::default();
    let mut label_blocks: Vec<(crate::hir::types::BlockId, u32, crate::hir::types::BlockId)> = Vec::new();
    let mut i: usize = 0;
    while i < hir.blocks.len()
        invariant
            i <= hir.blocks@.len(),
        decreases hir.blocks.len() - i,
    {
        let entry = &hir.blocks[i];
        if let Terminal::Label { fallthrough, label, .. } = &entry.1.terminal {
            label_blocks.push((entry.0, *label, *fallthrough));
            fx_set_insert(&mut used_labels, *label);
        }
        i = i + 1;
    }
}

} // verus!
