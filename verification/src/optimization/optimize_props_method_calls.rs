//! Split method calls on props into a property load and a plain call, so
//! that the load and the call can be memoized in different scopes:
//! `props.onClick(x)` becomes `t = props.onClick; t(x)`.

use vstd::prelude::*;
use vstd::string::{StrSliceExecFns, StringExecFns};
use crate::hir::types::{
    BasicBlock, BlockId, Effect, HIR, Identifier, IdentifierId, Instruction, InstructionId,
    InstructionValue, MutableRange, Place, Type,
};
use crate::optimization::outline_jsx::{instruction_id_of, lvalue_id_of, max_over_blocks, max_ids};

verus! {

/// A receiver treated as the props object: an object named `props` or
/// starting with `_t`.
pub open spec fn props_receiver(p: Place) -> bool {
    &&& p.identifier.type_ == Type::Object
    &&& p.identifier.name matches Some(n) && (n@ == "props"@ || (n@.len() >= 2 && n@[0] == '_' && n@[1] == 't'))
}

/// A method call on props, which the pass splits.
pub open spec fn splits(i: Instruction) -> bool {
    i.value matches InstructionValue::MethodCall { receiver, .. } && props_receiver(receiver)
}

/// The number of instructions of a list that the pass splits.
pub open spec fn split_count(q: Seq<Instruction>) -> nat
    decreases q.len(),
{
    if q.len() == 0 {
        0
    } else {
        split_count(q.drop_last()) + if splits(q.last()) { 1nat } else { 0nat }
    }
}

/// The number of instructions of all blocks that the pass splits.
pub open spec fn split_count_blocks(blocks: Seq<(BlockId, BasicBlock)>) -> nat
    decreases blocks.len(),
{
    if blocks.len() == 0 {
        0
    } else {
        split_count_blocks(blocks.drop_last()) + split_count(blocks.last().1.instructions@)
    }
}

/// The temporary that receives the loaded method: identifier `t`, defined
/// by instruction `ii`, a function, at the location of the call.
pub open spec fn method_temp(loc: crate::hir::types::SourceLocation, ii: u32, t: u32) -> Place {
    Place {
        identifier: Identifier {
            id: IdentifierId(t),
            ssa_version: 0,
            declaration_id: None,
            name: None,
            mutable_range: MutableRange { start: InstructionId(ii), end: InstructionId((ii + 1) as u32) },
            last_use: InstructionId(0),
            scope: None,
            type_: Type::Function,
            loc,
        },
        effect: Effect::Read,
        reactive: false,
        loc,
    }
}

/// `load` and `call` are the split of the method call `o`, the load taking
/// instruction id `ii` and temporary id `t`.
pub open spec fn split_pair(load: Instruction, call: Instruction, o: Instruction, ii: u32, t: u32) -> bool {
    match o.value {
        InstructionValue::MethodCall { receiver, property, args } => {
            &&& load.id == InstructionId(ii)
            &&& load.lvalue == method_temp(o.loc, ii, t)
            &&& load.loc == o.loc
            &&& load.value == InstructionValue::PropertyLoad { object: receiver, property }
            &&& call.id == o.id
            &&& call.lvalue == o.lvalue
            &&& call.loc == o.loc
            &&& call.value == InstructionValue::CallExpression { callee: method_temp(o.loc, ii, t), args }
        },
        _ => false,
    }
}

/// `n` is the instruction list `o` after the pass, fresh ids starting at
/// `si` (instructions) and `st` (temporaries): each method call on props is
/// replaced by its load and call, in place; other instructions are kept.
pub open spec fn split_instructions(n: Seq<Instruction>, o: Seq<Instruction>, si: int, st: int) -> bool
    decreases o.len(),
{
    if o.len() == 0 {
        n.len() == 0
    } else {
        let c = split_count(o.drop_last());
        if splits(o.last()) {
            &&& n.len() >= 2
            &&& split_instructions(n.take(n.len() - 2), o.drop_last(), si, st)
            &&& split_pair(n[n.len() - 2], n[n.len() - 1], o.last(), (si + c) as u32, (st + c) as u32)
        } else {
            &&& n.len() >= 1
            &&& split_instructions(n.drop_last(), o.drop_last(), si, st)
            &&& n.last() == o.last()
        }
    }
}

fn is_props_receiver(p: &Place) -> (r: bool)
    ensures
        r == props_receiver(*p),
{
    if p.identifier.type_ != Type::Object {
        return false;
    }
    match &p.identifier.name {
        Some(n) => {
            let props = String::from_str("props");
            proof {
                reveal_strlit("props");
            }
            if *n == props {
                return true;
            }
            let s = n.as_str();
            let len = s.unicode_len();
            len >= 2 && s.get_char(0) == '_' && s.get_char(1) == 't'
        },
        None => false,
    }
}

fn split_block(block: &mut BasicBlock, next_instr_id: &mut u32, next_ident_id: &mut u32)
    requires
        *old(next_instr_id) + split_count(old(block).instructions@) <= u32::MAX,
        *old(next_ident_id) + split_count(old(block).instructions@) <= u32::MAX,
    ensures
        final(block).kind == old(block).kind,
        final(block).id == old(block).id,
        final(block).terminal == old(block).terminal,
        final(block).preds == old(block).preds,
        final(block).phis == old(block).phis,
        split_instructions(final(block).instructions@, old(block).instructions@, *old(next_instr_id) as int, *old(next_ident_id) as int),
        *final(next_instr_id) == *old(next_instr_id) + split_count(old(block).instructions@),
        *final(next_ident_id) == *old(next_ident_id) + split_count(old(block).instructions@),
{
    let mut rest: Vec<Instruction> = Vec::new();
    std::mem::swap(&mut block.instructions, &mut rest);
    let ghost orig = rest@;
    let ghost si = *next_instr_id as int;
    let ghost st = *next_ident_id as int;
    let ghost mut k: int = 0;
    while rest.len() > 0
        invariant
            0 <= k <= orig.len(),
            orig == old(block).instructions@,
            rest@ == orig.skip(k),
            block.kind == old(block).kind,
            block.id == old(block).id,
            block.terminal == old(block).terminal,
            block.preds == old(block).preds,
            block.phis == old(block).phis,
            si == *old(next_instr_id) as int,
            st == *old(next_ident_id) as int,
            si + split_count(orig) <= u32::MAX,
            st + split_count(orig) <= u32::MAX,
            *next_instr_id == si + split_count(orig.take(k)),
            *next_ident_id == st + split_count(orig.take(k)),
            split_instructions(block.instructions@, orig.take(k), si, st),
        decreases rest.len(),
    {
        let instr = rest.remove(0);
        proof {
            assert(orig.skip(k)[0] == orig[k]);
            assert(orig.take(k + 1).drop_last() =~= orig.take(k));
            assert(orig.take(k + 1).last() == orig[k]);
            lemma_split_count_prefix(orig, k + 1);
        }
        let ghost before = block.instructions@;
        let Instruction { id, lvalue, value, loc } = instr;
        match value {
            InstructionValue::MethodCall { receiver, property, args } => {
                if is_props_receiver(&receiver) {
                    let temp_id = IdentifierId(*next_ident_id);
                    *next_ident_id = *next_ident_id + 1;
                    let load_instr_id = InstructionId(*next_instr_id);
                    *next_instr_id = *next_instr_id + 1;
                    let load = Instruction {
                        id: load_instr_id,
                        lvalue: Place {
                            identifier: Identifier {
                                id: temp_id,
                                ssa_version: 0,
                                declaration_id: None,
                                name: None,
                                mutable_range: MutableRange { start: load_instr_id, end: InstructionId(load_instr_id.0 + 1) },
                                last_use: InstructionId(0),
                                scope: None,
                                type_: Type::Function,
                                loc: loc,
                            },
                            effect: Effect::Read,
                            reactive: false,
                            loc: loc,
                        },
                        value: InstructionValue::PropertyLoad { object: receiver, property },
                        loc: loc,
                    };
                    let callee = Place {
                        identifier: Identifier {
                            id: temp_id,
                            ssa_version: 0,
                            declaration_id: None,
                            name: None,
                            mutable_range: MutableRange { start: load_instr_id, end: InstructionId(load_instr_id.0 + 1) },
                            last_use: InstructionId(0),
                            scope: None,
                            type_: Type::Function,
                            loc: loc,
                        },
                        effect: Effect::Read,
                        reactive: false,
                        loc: loc,
                    };
                    block.instructions.push(load);
                    block.instructions.push(Instruction { id, lvalue, value: InstructionValue::CallExpression { callee, args }, loc });
                    proof {
                        let n = block.instructions@;
                        assert(n.take(n.len() - 2) =~= before);
                    }
                } else {
                    block.instructions.push(Instruction { id, lvalue, value: InstructionValue::MethodCall { receiver, property, args }, loc });
                    proof {
                        assert(block.instructions@.drop_last() =~= before);
                    }
                }
            },
            other => {
                block.instructions.push(Instruction { id, lvalue, value: other, loc });
                proof {
                    assert(block.instructions@.drop_last() =~= before);
                }
            },
        }
        proof {
            assert(orig.skip(k + 1) =~= orig.skip(k).drop_first());
            k = k + 1;
        }
    }
    proof {
        assert(orig.take(k) =~= orig);
    }
}

proof fn lemma_split_count_prefix(q: Seq<Instruction>, i: int)
    requires
        0 <= i <= q.len(),
    ensures
        split_count(q.take(i)) <= split_count(q),
    decreases q.len() - i,
{
    if i < q.len() {
        lemma_split_count_prefix(q, i + 1);
        assert(q.take(i + 1).drop_last() =~= q.take(i));
    } else {
        assert(q.take(i) =~= q);
    }
}

proof fn lemma_split_count_blocks_prefix(b: Seq<(BlockId, BasicBlock)>, i: int)
    requires
        0 <= i <= b.len(),
    ensures
        split_count_blocks(b.take(i)) <= split_count_blocks(b),
    decreases b.len() - i,
{
    if i < b.len() {
        lemma_split_count_blocks_prefix(b, i + 1);
        assert(b.take(i + 1).drop_last() =~= b.take(i));
    } else {
        assert(b.take(i) =~= b);
    }
}

/// Optimize method calls on props: each `MethodCall` whose receiver is an
/// object named `props` (or starting with `_t`) becomes a `PropertyLoad`
/// of the method into a fresh temporary, placed just before, and a
/// `CallExpression` of that temporary with the same arguments. Fresh
/// instruction and identifier ids count up from one past the largest in
/// use, in block order; they must fit a `u32`.
pub fn optimize_props_method_calls(hir: &mut HIR)
    requires
        max_over_blocks(old(hir).blocks@, |i: Instruction| instruction_id_of(i)) + 1 + split_count_blocks(old(hir).blocks@) <= u32::MAX,
        max_over_blocks(old(hir).blocks@, |i: Instruction| lvalue_id_of(i)) + 1 + split_count_blocks(old(hir).blocks@) <= u32::MAX,
    ensures
        final(hir).entry == old(hir).entry,
        final(hir).blocks@.len() == old(hir).blocks@.len(),
        forall|k: int| 0 <= k < old(hir).blocks@.len() ==> {
            let o = old(hir).blocks@[k];
            let n = #[trigger] final(hir).blocks@[k];
            let before = split_count_blocks(old(hir).blocks@.take(k));
            &&& n.0 == o.0
            &&& n.1.kind == o.1.kind
            &&& n.1.id == o.1.id
            &&& n.1.terminal == o.1.terminal
            &&& n.1.preds == o.1.preds
            &&& n.1.phis == o.1.phis
            &&& split_instructions(
                n.1.instructions@,
                o.1.instructions@,
                max_over_blocks(old(hir).blocks@, |i: Instruction| instruction_id_of(i)) + 1 + before,
                max_over_blocks(old(hir).blocks@, |i: Instruction| lvalue_id_of(i)) + 1 + before,
            )
        },
{
    let (mi, ml) = max_ids(hir);
    let mut next_instr_id: u32 = mi + 1;
    let mut next_ident_id: u32 = ml + 1;
    let ghost si = next_instr_id as int;
    let ghost st = next_ident_id as int;
    let ghost total = split_count_blocks(old(hir).blocks@);
    let mut i: usize = 0;
    while i < hir.blocks.len()
        invariant
            i <= hir.blocks@.len(),
            hir.entry == old(hir).entry,
            hir.blocks@.len() == old(hir).blocks@.len(),
            si == max_over_blocks(old(hir).blocks@, |i: Instruction| instruction_id_of(i)) + 1,
            st == max_over_blocks(old(hir).blocks@, |i: Instruction| lvalue_id_of(i)) + 1,
            total == split_count_blocks(old(hir).blocks@),
            si + total <= u32::MAX,
            st + total <= u32::MAX,
            next_instr_id == si + split_count_blocks(old(hir).blocks@.take(i as int)),
            next_ident_id == st + split_count_blocks(old(hir).blocks@.take(i as int)),
            forall|k: int| 0 <= k < i ==> {
                let o = old(hir).blocks@[k];
                let n = #[trigger] hir.blocks@[k];
                let before = split_count_blocks(old(hir).blocks@.take(k));
                &&& n.0 == o.0
                &&& n.1.kind == o.1.kind
                &&& n.1.id == o.1.id
                &&& n.1.terminal == o.1.terminal
                &&& n.1.preds == o.1.preds
                &&& n.1.phis == o.1.phis
                &&& split_instructions(n.1.instructions@, o.1.instructions@, si + before, st + before)
            },
            forall|k: int| i <= k < hir.blocks@.len() ==> #[trigger] hir.blocks@[k] == old(hir).blocks@[k],
        decreases hir.blocks.len() - i,
    {
        proof {
            let b = old(hir).blocks@;
            assert(b.take(i + 1).drop_last() =~= b.take(i as int));
            assert(b.take(i + 1).last() == b[i as int]);
            lemma_split_count_blocks_prefix(b, i + 1);
        }
        split_block(&mut hir.blocks[i].1, &mut next_instr_id, &mut next_ident_id);
        i = i + 1;
    }
}

} // verus!
