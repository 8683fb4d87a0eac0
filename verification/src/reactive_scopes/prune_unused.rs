//! Pruning of a reactive function by the identifiers it references: scopes
//! whose outputs nobody uses (and that have no dependencies and allocate
//! nothing) are dissolved into their parent block, and instructions whose
//! result nobody uses (and that have no side effect) are dropped.

use vstd::prelude::*;
use rustc_hash::FxHashSet;
use crate::fxhash::{fx_set_contains, fx_set_insert};
use crate::hir::types::{
    InstructionValue, Place, ReactiveBlock, ReactiveFunction, ReactiveInstruction, ReactiveScope,
    ReactiveScopeBlock, ReactiveTerminal,
};
use crate::optimization::dead_code_elimination::{add_place, collect_used_in_instruction_value, value_uses};
use crate::reactive_scopes::reactive_tree::same_terminal_fields;

verus! {

// ---------------------------------------------------------------------------
// Referenced identifiers
// ---------------------------------------------------------------------------

/// The identifiers an instruction value references as operands (targets of
/// stores and declarations included, default values of destructuring not).
pub open spec fn operand_ids(v: InstructionValue) -> Set<u32> {
    match v {
        InstructionValue::Destructure { value, .. } => set![value.identifier.id.0],
        _ => value_uses(v),
    }
}

/// The identifiers referenced in a block: the operands and targets of its
/// instructions, nested scopes and terminal blocks included (the operands of
/// terminals themselves are not).
pub open spec fn referenced_ids(b: ReactiveBlock) -> Set<u32>
    decreases b,
{
    referenced_in(b.instructions@)
}

pub open spec fn referenced_in(q: Seq<ReactiveInstruction>) -> Set<u32>
    decreases q,
{
    if q.len() == 0 {
        Set::empty()
    } else {
        referenced_in(q.drop_last()).union(referenced_item(q.last()))
    }
}

pub open spec fn referenced_item(i: ReactiveInstruction) -> Set<u32>
    decreases i,
{
    match i {
        ReactiveInstruction::Instruction(ins) => operand_ids(ins.value).insert(ins.lvalue.identifier.id.0),
        ReactiveInstruction::Scope(sb) => referenced_ids(sb.instructions),
        ReactiveInstruction::Terminal(t) => referenced_terminal(t),
    }
}

pub open spec fn referenced_cases(q: Seq<(Option<Place>, ReactiveBlock)>) -> Set<u32>
    decreases q,
{
    if q.len() == 0 {
        Set::empty()
    } else {
        referenced_cases(q.drop_last()).union(referenced_ids(q.last().1))
    }
}

pub open spec fn referenced_terminal(t: ReactiveTerminal) -> Set<u32>
    decreases t,
{
    match t {
        ReactiveTerminal::If { consequent, alternate, .. } => referenced_ids(consequent).union(referenced_ids(alternate)),
        ReactiveTerminal::Switch { cases, .. } => referenced_cases(cases@),
        ReactiveTerminal::For { init, test, update, body, .. } => referenced_ids(init).union(referenced_ids(test)).union(
            match update {
                Some(u) => referenced_ids(u),
                None => Set::empty(),
            },
        ).union(referenced_ids(body)),
        ReactiveTerminal::ForOf { init, test, body, .. } => referenced_ids(init).union(referenced_ids(test)).union(referenced_ids(body)),
        ReactiveTerminal::ForIn { init, test, body, .. } => referenced_ids(init).union(referenced_ids(test)).union(referenced_ids(body)),
        ReactiveTerminal::While { test, body, .. } => referenced_ids(test).union(referenced_ids(body)),
        ReactiveTerminal::DoWhile { body, test, .. } => referenced_ids(test).union(referenced_ids(body)),
        ReactiveTerminal::Try { block, handler, .. } => referenced_ids(block).union(referenced_ids(handler)),
        ReactiveTerminal::Label { block, .. } => referenced_ids(block),
        ReactiveTerminal::Logical { right, .. } => referenced_ids(right),
        _ => Set::empty(),
    }
}

/// Add the operand ids of an instruction value.
pub(crate) fn collect_instruction_operand_ids(value: &InstructionValue, used: &mut FxHashSet<u32>)
    ensures
        final(used)@ == old(used)@.union(operand_ids(*value)),
{
    match value {
        InstructionValue::Destructure { value: v, .. } => {
            add_place(used, v);
            proof {
                assert(used@ =~= old(used)@.union(operand_ids(*value)));
            }
        },
        _ => collect_used_in_instruction_value(value, used),
    }
}

/// Add the identifiers referenced in a block.
fn collect_all_referenced_ids(block: &ReactiveBlock, referenced: &mut FxHashSet<u32>)
    ensures
        final(referenced)@ == old(referenced)@.union(referenced_ids(*block)),
    decreases *block,
{
    let ghost q = block.instructions@;
    let mut i: usize = 0;
    proof {
        assert(q.take(0) =~= Seq::<ReactiveInstruction>::empty());
        assert(referenced@ =~= old(referenced)@.union(referenced_in(q.take(0))));
    }
    while i < block.instructions.len()
        invariant
            i <= q.len(),
            q == block.instructions@,
            referenced@ == old(referenced)@.union(referenced_in(q.take(i as int))),
        decreases block.instructions.len() - i,
    {
        proof {
            assert(q.take(i + 1).drop_last() =~= q.take(i as int));
            assert(q.take(i + 1).last() == q[i as int]);
            assert(decreases_to!(*block => block.instructions));
            assert(decreases_to!(block.instructions => q));
            assert(decreases_to!(q => q[i as int]));
        }
        let ghost before = referenced@;
        match &block.instructions[i] {
            ReactiveInstruction::Instruction(instruction) => {
                collect_instruction_operand_ids(&instruction.value, referenced);
                fx_set_insert(referenced, instruction.lvalue.identifier.id.0);
            },
            ReactiveInstruction::Scope(scope_block) => {
                proof {
                    assert(decreases_to!(q[i as int] => scope_block.instructions));
                }
                collect_all_referenced_ids(&scope_block.instructions, referenced);
            },
            ReactiveInstruction::Terminal(terminal) => {
                proof {
                    assert(decreases_to!(q[i as int] => *terminal));
                }
                collect_referenced_in_terminal(terminal, referenced);
            },
        }
        proof {
            assert(referenced@ =~= before.union(referenced_item(q[i as int])));
            assert(referenced@ =~= old(referenced)@.union(referenced_in(q.take(i + 1))));
        }
        i = i + 1;
    }
    proof {
        assert(q.take(i as int) =~= q);
    }
}

fn collect_referenced_in_terminal(terminal: &ReactiveTerminal, referenced: &mut FxHashSet<u32>)
    ensures
        final(referenced)@ == old(referenced)@.union(referenced_terminal(*terminal)),
    decreases *terminal,
{
    match terminal {
        ReactiveTerminal::If { consequent, alternate, .. } => {
            collect_all_referenced_ids(consequent, referenced);
            collect_all_referenced_ids(alternate, referenced);
        },
        ReactiveTerminal::Switch { cases, .. } => {
            let ghost q = cases@;
            let mut i: usize = 0;
            proof {
                assert(q.take(0) =~= Seq::<(Option<Place>, ReactiveBlock)>::empty());
                assert(referenced@ =~= old(referenced)@.union(referenced_cases(q.take(0))));
            }
            while i < cases.len()
                invariant
                    i <= q.len(),
                    q == cases@,
                    *terminal is Switch,
                    q == (*terminal)->Switch_cases@,
                    referenced@ == old(referenced)@.union(referenced_cases(q.take(i as int))),
                decreases cases.len() - i,
            {
                proof {
                    assert(q.take(i + 1).drop_last() =~= q.take(i as int));
                    assert(q.take(i + 1).last() == q[i as int]);
                    assert(decreases_to!(*terminal => (*terminal)->Switch_cases));
                    assert(decreases_to!((*terminal)->Switch_cases => q));
                    assert(decreases_to!(q => q[i as int]));
                }
                collect_all_referenced_ids(&cases[i].1, referenced);
                proof {
                    assert(referenced@ =~= old(referenced)@.union(referenced_cases(q.take(i + 1))));
                }
                i = i + 1;
            }
            proof {
                assert(q.take(i as int) =~= q);
            }
        },
        ReactiveTerminal::For { init, test, update, body, .. } => {
            collect_all_referenced_ids(init, referenced);
            collect_all_referenced_ids(test, referenced);
            if let Some(u) = update {
                collect_all_referenced_ids(u, referenced);
            }
            collect_all_referenced_ids(body, referenced);
        },
        ReactiveTerminal::ForOf { init, test, body, .. } => {
            collect_all_referenced_ids(init, referenced);
            collect_all_referenced_ids(test, referenced);
            collect_all_referenced_ids(body, referenced);
        },
        ReactiveTerminal::ForIn { init, test, body, .. } => {
            collect_all_referenced_ids(init, referenced);
            collect_all_referenced_ids(test, referenced);
            collect_all_referenced_ids(body, referenced);
        },
        ReactiveTerminal::While { test, body, .. } => {
            collect_all_referenced_ids(test, referenced);
            collect_all_referenced_ids(body, referenced);
        },
        ReactiveTerminal::DoWhile { body, test, .. } => {
            collect_all_referenced_ids(test, referenced);
            collect_all_referenced_ids(body, referenced);
        },
        ReactiveTerminal::Try { block, handler, .. } => {
            collect_all_referenced_ids(block, referenced);
            collect_all_referenced_ids(handler, referenced);
        },
        ReactiveTerminal::Label { block, .. } => {
            collect_all_referenced_ids(block, referenced);
        },
        ReactiveTerminal::Logical { right, .. } => {
            collect_all_referenced_ids(right, referenced);
        },
        _ => {},
    }
    proof {
        assert(referenced@ =~= old(referenced)@.union(referenced_terminal(*terminal)));
    }
}

// ---------------------------------------------------------------------------
// Unused scopes
// ---------------------------------------------------------------------------

/// A scope stays when one of its declarations is referenced, when it has
/// dependencies, or when it allocates.
pub open spec fn keeps_scope(s: ReactiveScope, r: Set<u32>) -> bool {
    ||| exists|j: int| 0 <= j < s.declarations@.len() && r.contains(#[trigger] s.declarations@[j].0.0)
    ||| s.dependencies@.len() > 0
    ||| s.is_allocating
}

/// The decision of the pass on a scope, as a predicate.
pub open spec fn unused_keep(r: Set<u32>) -> spec_fn(ReactiveScope) -> bool {
    |s: ReactiveScope| keeps_scope(s, r)
}

/// The number of instructions a list becomes: a dissolved scope is
/// replaced by the instructions its body becomes.
pub open spec fn scopes_out_len(q: Seq<ReactiveInstruction>, keep: spec_fn(ReactiveScope) -> bool) -> nat
    decreases q,
{
    if q.len() == 0 {
        0
    } else {
        scopes_out_len(q.drop_last(), keep) + scopes_item_len(q.last(), keep)
    }
}

pub open spec fn scopes_item_len(i: ReactiveInstruction, keep: spec_fn(ReactiveScope) -> bool) -> nat
    decreases i,
{
    match i {
        ReactiveInstruction::Scope(sb) => if keep(sb.scope) {
            1
        } else {
            scopes_out_len(sb.instructions.instructions@, keep)
        },
        _ => 1,
    }
}

/// `n` is the list `o` with the scopes that `keep` rejects dissolved, at
/// every depth.
pub open spec fn scopes_pruned(n: Seq<ReactiveInstruction>, o: Seq<ReactiveInstruction>, keep: spec_fn(ReactiveScope) -> bool) -> bool
    decreases o,
{
    &&& n.len() == scopes_out_len(o, keep)
    &&& o.len() > 0 ==> {
        let k = scopes_out_len(o.drop_last(), keep) as int;
        &&& scopes_pruned(n.take(k), o.drop_last(), keep)
        &&& scopes_pruned_item(n.skip(k), o.last(), keep)
    }
}

/// What one instruction becomes: a plain instruction stays; a kept scope
/// keeps its scope and has its body pruned; a dissolved scope becomes its
/// pruned body; a terminal has its blocks pruned.
pub open spec fn scopes_pruned_item(out: Seq<ReactiveInstruction>, o: ReactiveInstruction, keep: spec_fn(ReactiveScope) -> bool) -> bool
    decreases o,
{
    match o {
        ReactiveInstruction::Instruction(_) => out == seq![o],
        ReactiveInstruction::Scope(sb) => if keep(sb.scope) {
            &&& out.len() == 1
            &&& out[0] matches ReactiveInstruction::Scope(nsb)
            &&& nsb.scope == sb.scope
            &&& scopes_pruned(nsb.instructions.instructions@, sb.instructions.instructions@, keep)
        } else {
            scopes_pruned(out, sb.instructions.instructions@, keep)
        },
        ReactiveInstruction::Terminal(t) => {
            &&& out.len() == 1
            &&& out[0] matches ReactiveInstruction::Terminal(nt)
            &&& scopes_pruned_terminal(nt, t, keep)
        },
    }
}

pub open spec fn scopes_pruned_block(n: ReactiveBlock, o: ReactiveBlock, keep: spec_fn(ReactiveScope) -> bool) -> bool
    decreases o,
{
    scopes_pruned(n.instructions@, o.instructions@, keep)
}

pub open spec fn scopes_pruned_cases(n: Seq<(Option<Place>, ReactiveBlock)>, o: Seq<(Option<Place>, ReactiveBlock)>, keep: spec_fn(ReactiveScope) -> bool) -> bool
    decreases o,
{
    &&& n.len() == o.len()
    &&& o.len() > 0 ==> {
        &&& scopes_pruned_cases(n.drop_last(), o.drop_last(), keep)
        &&& n.last().0 == o.last().0
        &&& scopes_pruned_block(n.last().1, o.last().1, keep)
    }
}

pub open spec fn scopes_pruned_terminal(n: ReactiveTerminal, o: ReactiveTerminal, keep: spec_fn(ReactiveScope) -> bool) -> bool
    decreases o,
{
    &&& same_terminal_fields(n, o)
    &&& match o {
        ReactiveTerminal::If { consequent, alternate, .. } => {
            &&& n matches ReactiveTerminal::If { consequent: nc, alternate: na, .. }
            &&& scopes_pruned_block(nc, consequent, keep)
            &&& scopes_pruned_block(na, alternate, keep)
        },
        ReactiveTerminal::Switch { cases, .. } => {
            &&& n matches ReactiveTerminal::Switch { cases: nc, .. }
            &&& scopes_pruned_cases(nc@, cases@, keep)
        },
        ReactiveTerminal::For { init, test, update, body, .. } => {
            &&& n matches ReactiveTerminal::For { init: n1, test: n2, update: n3, body: n4, .. }
            &&& scopes_pruned_block(n1, init, keep)
            &&& scopes_pruned_block(n2, test, keep)
            &&& match update {
                Some(u) => n3 matches Some(nu) && scopes_pruned_block(nu, u, keep),
                None => n3 is None,
            }
            &&& scopes_pruned_block(n4, body, keep)
        },
        ReactiveTerminal::ForOf { init, test, body, .. } => {
            &&& n matches ReactiveTerminal::ForOf { init: n1, test: n2, body: n4, .. }
            &&& scopes_pruned_block(n1, init, keep)
            &&& scopes_pruned_block(n2, test, keep)
            &&& scopes_pruned_block(n4, body, keep)
        },
        ReactiveTerminal::ForIn { init, test, body, .. } => {
            &&& n matches ReactiveTerminal::ForIn { init: n1, test: n2, body: n4, .. }
            &&& scopes_pruned_block(n1, init, keep)
            &&& scopes_pruned_block(n2, test, keep)
            &&& scopes_pruned_block(n4, body, keep)
        },
        ReactiveTerminal::While { test, body, .. } => {
            &&& n matches ReactiveTerminal::While { test: n2, body: n4, .. }
            &&& scopes_pruned_block(n2, test, keep)
            &&& scopes_pruned_block(n4, body, keep)
        },
        ReactiveTerminal::DoWhile { body, test, .. } => {
            &&& n matches ReactiveTerminal::DoWhile { body: n4, test: n2, .. }
            &&& scopes_pruned_block(n2, test, keep)
            &&& scopes_pruned_block(n4, body, keep)
        },
        ReactiveTerminal::Try { block, handler, .. } => {
            &&& n matches ReactiveTerminal::Try { block: nb, handler: nh, .. }
            &&& scopes_pruned_block(nb, block, keep)
            &&& scopes_pruned_block(nh, handler, keep)
        },
        ReactiveTerminal::Label { block, .. } => {
            &&& n matches ReactiveTerminal::Label { block: nb, .. }
            &&& scopes_pruned_block(nb, block, keep)
        },
        ReactiveTerminal::Logical { right, .. } => {
            &&& n matches ReactiveTerminal::Logical { right: nr, .. }
            &&& scopes_pruned_block(nr, right, keep)
        },
        _ => true,
    }
}

pub(crate) proof fn lemma_scopes_step(out: Seq<ReactiveInstruction>, added: Seq<ReactiveInstruction>, o: Seq<ReactiveInstruction>, k: int, keep: spec_fn(ReactiveScope) -> bool)
    requires
        0 <= k < o.len(),
        scopes_pruned(out, o.take(k), keep),
        scopes_pruned_item(added, o[k], keep),
        added.len() == scopes_item_len(o[k], keep),
    ensures
        scopes_pruned(out + added, o.take(k + 1), keep),
{
    let n = out + added;
    assert(o.take(k + 1).drop_last() =~= o.take(k));
    assert(o.take(k + 1).last() == o[k]);
    assert(n.take(out.len() as int) =~= out);
    assert(n.skip(out.len() as int) =~= added);
}

pub(crate) proof fn lemma_scopes_pruned_len(n: Seq<ReactiveInstruction>, o: Seq<ReactiveInstruction>, keep: spec_fn(ReactiveScope) -> bool)
    requires
        scopes_pruned(n, o, keep),
    ensures
        n.len() == scopes_out_len(o, keep),
{
}

/// Does the scope declare an identifier of `referenced`?
fn has_used_declaration(s: &ReactiveScope, referenced: &FxHashSet<u32>) -> (b: bool)
    ensures
        b == exists|j: int| 0 <= j < s.declarations@.len() && referenced@.contains(#[trigger] s.declarations@[j].0.0),
{
    let mut j: usize = 0;
    while j < s.declarations.len()
        invariant
            j <= s.declarations@.len(),
            forall|m: int| 0 <= m < j ==> !referenced@.contains(#[trigger] s.declarations@[m].0.0),
        decreases s.declarations.len() - j,
    {
        if fx_set_contains(referenced, s.declarations[j].0.0) {
            return true;
        }
        j = j + 1;
    }
    false
}

fn prune_unused_scopes_in_block(block: &mut ReactiveBlock, referenced: &FxHashSet<u32>)
    ensures
        scopes_pruned_block(*final(block), *old(block), unused_keep(referenced@)),
    decreases *old(block),
{
    let ghost o = old(block).instructions@;
    let ghost r = unused_keep(referenced@);
    let mut rest: Vec<ReactiveInstruction> = Vec::new();
    std::mem::swap(&mut rest, &mut block.instructions);
    let mut out: Vec<ReactiveInstruction> = Vec::new();
    let ghost mut k: int = 0;
    proof {
        assert(o.skip(0) =~= o);
        assert(o.take(0) =~= Seq::<ReactiveInstruction>::empty());
        assert(out@ =~= Seq::<ReactiveInstruction>::empty());
    }
    while rest.len() > 0
        invariant
            0 <= k <= o.len(),
            o == old(block).instructions@,
            r == unused_keep(referenced@),
            rest@ == o.skip(k),
            scopes_pruned(out@, o.take(k), r),
        decreases rest.len(),
    {
        proof {
            assert(o.skip(k)[0] == o[k]);
            assert(decreases_to!(*old(block) => old(block).instructions));
            assert(decreases_to!(old(block).instructions => o));
            assert(decreases_to!(o => o[k]));
        }
        let item = rest.remove(0);
        proof {
            assert(item == o[k]);
        }
        let ghost outb = out@;
        match item {
            ReactiveInstruction::Scope(mut scope_block) => {
                let ghost osb = scope_block;
                proof {
                    assert(decreases_to!(o[k] => osb.instructions));
                }
                prune_unused_scopes_in_block(&mut scope_block.instructions, referenced);
                let has_used_decls = has_used_declaration(&scope_block.scope, referenced);
                let has_deps = scope_block.scope.dependencies.len() > 0;
                proof {
                    assert(r(scope_block.scope) == keeps_scope(scope_block.scope, referenced@));
                }
                if has_used_decls || has_deps || scope_block.scope.is_allocating {
                    let ghost nsb = scope_block;
                    out.push(ReactiveInstruction::Scope(scope_block));
                    proof {
                        let added = seq![ReactiveInstruction::Scope(nsb)];
                        assert(out@ =~= outb + added);
                        lemma_scopes_pruned_len(nsb.instructions.instructions@, osb.instructions.instructions@, r);
                        lemma_scopes_step(outb, added, o, k, r);
                    }
                } else {
                    let ghost inner = scope_block.instructions.instructions@;
                    let mut body = scope_block.instructions.instructions;
                    let ghost mut j: int = 0;
                    proof {
                        assert(body@.skip(0) =~= body@);
                        assert(out@.take(outb.len() as int) =~= outb);
                        assert(out@.skip(outb.len() as int) =~= inner.take(0));
                    }
                    while body.len() > 0
                        invariant
                            0 <= j <= inner.len(),
                            body@ == inner.skip(j),
                            out@.len() == outb.len() + j,
                            out@.take(outb.len() as int) == outb,
                            out@.skip(outb.len() as int) == inner.take(j),
                        decreases body.len(),
                    {
                        let x = body.remove(0);
                        proof {
                            assert(inner.skip(j)[0] == x);
                        }
                        let ghost prev = out@;
                        out.push(x);
                        proof {
                            assert(out@.take(outb.len() as int) =~= prev.take(outb.len() as int));
                            assert(out@.skip(outb.len() as int) =~= inner.take(j + 1));
                            j = j + 1;
                            assert(body@ =~= inner.skip(j));
                        }
                    }
                    proof {
                        assert(inner.take(j) =~= inner);
                        let added = out@.skip(outb.len() as int);
                        assert(out@ =~= outb + added);
                        lemma_scopes_pruned_len(inner, osb.instructions.instructions@, r);
                        lemma_scopes_step(outb, added, o, k, r);
                    }
                }
            },
            ReactiveInstruction::Terminal(mut terminal) => {
                let ghost ot = terminal;
                proof {
                    assert(decreases_to!(o[k] => ot));
                }
                prune_unused_scopes_in_terminal(&mut terminal, referenced);
                let ghost nt = terminal;
                out.push(ReactiveInstruction::Terminal(terminal));
                proof {
                    let added = seq![ReactiveInstruction::Terminal(nt)];
                    assert(out@ =~= outb + added);
                    lemma_scopes_step(outb, added, o, k, r);
                }
            },
            ReactiveInstruction::Instruction(i) => {
                out.push(ReactiveInstruction::Instruction(i));
                proof {
                    assert(out@ =~= outb + seq![o[k]]);
                    lemma_scopes_step(outb, seq![o[k]], o, k, r);
                }
            },
        }
        proof {
            k = k + 1;
            assert(rest@ =~= o.skip(k));
        }
    }
    proof {
        assert(o.take(k) =~= o);
    }
    block.instructions = out;
}

fn prune_unused_scopes_in_terminal(terminal: &mut ReactiveTerminal, referenced: &FxHashSet<u32>)
    ensures
        scopes_pruned_terminal(*final(terminal), *old(terminal), unused_keep(referenced@)),
    decreases *old(terminal),
{
    match terminal {
        ReactiveTerminal::If { consequent, alternate, .. } => {
            prune_unused_scopes_in_block(consequent, referenced);
            prune_unused_scopes_in_block(alternate, referenced);
        },
        ReactiveTerminal::Switch { cases, .. } => {
            let ghost oc = old(terminal)->Switch_cases@;
            proof {
                assert(cases@.take(0) =~= Seq::<(Option<Place>, ReactiveBlock)>::empty());
                assert(oc.take(0) =~= Seq::<(Option<Place>, ReactiveBlock)>::empty());
            }
            let mut i: usize = 0;
            while i < cases.len()
                invariant
                    i <= cases@.len(),
                    cases@.len() == oc.len(),
                    *old(terminal) is Switch,
                    oc == old(terminal)->Switch_cases@,
                    scopes_pruned_cases(cases@.take(i as int), oc.take(i as int), unused_keep(referenced@)),
                    forall|m: int| i <= m < oc.len() ==> #[trigger] cases@[m] == oc[m],
                decreases cases.len() - i,
            {
                proof {
                    assert(decreases_to!(*old(terminal) => old(terminal)->Switch_cases));
                    assert(decreases_to!(old(terminal)->Switch_cases => oc));
                    assert(decreases_to!(oc => oc[i as int]));
                }
                let ghost prevc = cases@;
                prune_unused_scopes_in_block(&mut cases[i].1, referenced);
                proof {
                    let n = cases@;
                    assert(n.take(i as int) =~= prevc.take(i as int));
                    assert(n.take(i + 1).drop_last() =~= n.take(i as int));
                    assert(oc.take(i + 1).drop_last() =~= oc.take(i as int));
                    assert(n.take(i + 1).last() == n[i as int]);
                    assert(oc.take(i + 1).last() == oc[i as int]);
                }
                i = i + 1;
            }
            proof {
                assert(cases@.take(i as int) =~= cases@);
                assert(oc.take(i as int) =~= oc);
            }
        },
        ReactiveTerminal::For { init, test, update, body, .. } => {
            prune_unused_scopes_in_block(init, referenced);
            prune_unused_scopes_in_block(test, referenced);
            if let Some(u) = update {
                prune_unused_scopes_in_block(u, referenced);
            }
            prune_unused_scopes_in_block(body, referenced);
        },
        ReactiveTerminal::ForOf { init, test, body, .. } => {
            prune_unused_scopes_in_block(init, referenced);
            prune_unused_scopes_in_block(test, referenced);
            prune_unused_scopes_in_block(body, referenced);
        },
        ReactiveTerminal::ForIn { init, test, body, .. } => {
            prune_unused_scopes_in_block(init, referenced);
            prune_unused_scopes_in_block(test, referenced);
            prune_unused_scopes_in_block(body, referenced);
        },
        ReactiveTerminal::While { test, body, .. } => {
            prune_unused_scopes_in_block(test, referenced);
            prune_unused_scopes_in_block(body, referenced);
        },
        ReactiveTerminal::DoWhile { body, test, .. } => {
            prune_unused_scopes_in_block(test, referenced);
            prune_unused_scopes_in_block(body, referenced);
        },
        ReactiveTerminal::Try { block, handler, .. } => {
            prune_unused_scopes_in_block(block, referenced);
            prune_unused_scopes_in_block(handler, referenced);
        },
        ReactiveTerminal::Label { block, .. } => {
            prune_unused_scopes_in_block(block, referenced);
        },
        ReactiveTerminal::Logical { right, .. } => {
            prune_unused_scopes_in_block(right, referenced);
        },
        _ => {},
    }
}

/// Dissolve every scope that declares nothing the function references, has
/// no dependencies and does not allocate: its (pruned) body takes its place.
/// The referenced identifiers are those of `referenced_ids(body)`; the
/// result is as `scopes_pruned_block` states, and the function's other
/// fields are unchanged.
pub fn prune_unused_scopes(rf: &mut ReactiveFunction)
    ensures
        final(rf).loc == old(rf).loc,
        final(rf).id == old(rf).id,
        final(rf).params == old(rf).params,
        final(rf).directives == old(rf).directives,
        final(rf).is_arrow == old(rf).is_arrow,
        final(rf).is_async == old(rf).is_async,
        final(rf).is_generator == old(rf).is_generator,
        scopes_pruned_block(final(rf).body, old(rf).body, unused_keep(referenced_ids(old(rf).body))),
{
    let mut referenced: FxHashSet<u32> = FxHashSet::default();
    proof {
        assert(referenced@ =~= Set::<u32>::empty());
    }
    collect_all_referenced_ids(&rf.body, &mut referenced);
    proof {
        assert(referenced@ =~= referenced_ids(rf.body));
    }
    prune_unused_scopes_in_block(&mut rf.body, &referenced);
}

// ---------------------------------------------------------------------------
// Unused results
// ---------------------------------------------------------------------------

/// Instructions that must stay even when their result is unused.
pub open spec fn has_side_effects(v: InstructionValue) -> bool {
    ||| v is CallExpression
    ||| v is MethodCall
    ||| v is NewExpression
    ||| v is StoreLocal
    ||| v is StoreContext
    ||| v is StoreGlobal
    ||| v is PropertyStore
    ||| v is ComputedStore
    ||| v is PropertyDelete
    ||| v is ComputedDelete
    ||| v is PrefixUpdate
    ||| v is PostfixUpdate
    ||| v is Await
    ||| v is Destructure
}

/// An instruction stays when its result is referenced or it has a side
/// effect; scopes and terminals always stay.
pub open spec fn keeps_item(i: ReactiveInstruction, r: Set<u32>) -> bool {
    match i {
        ReactiveInstruction::Instruction(ins) => r.contains(ins.lvalue.identifier.id.0) || has_side_effects(ins.value),
        _ => true,
    }
}

pub open spec fn kept_count(q: Seq<ReactiveInstruction>, r: Set<u32>) -> nat
    decreases q.len(),
{
    if q.len() == 0 {
        0
    } else {
        kept_count(q.drop_last(), r) + if keeps_item(q.last(), r) { 1nat } else { 0nat }
    }
}

/// `n` is the list `o` without its unused results, at every depth.
pub open spec fn lvalues_pruned(n: Seq<ReactiveInstruction>, o: Seq<ReactiveInstruction>, r: Set<u32>) -> bool
    decreases o,
{
    &&& n.len() == kept_count(o, r)
    &&& o.len() > 0 ==> {
        let k = kept_count(o.drop_last(), r) as int;
        &&& lvalues_pruned(n.take(k), o.drop_last(), r)
        &&& keeps_item(o.last(), r) ==> lvalues_pruned_item(n[k], o.last(), r)
    }
}

/// A kept item: an instruction is unchanged, a scope has its body pruned, a
/// terminal its blocks.
pub open spec fn lvalues_pruned_item(n: ReactiveInstruction, o: ReactiveInstruction, r: Set<u32>) -> bool
    decreases o,
{
    match o {
        ReactiveInstruction::Instruction(_) => n == o,
        ReactiveInstruction::Scope(sb) => {
            &&& n matches ReactiveInstruction::Scope(nsb)
            &&& nsb.scope == sb.scope
            &&& lvalues_pruned_block(nsb.instructions, sb.instructions, r)
        },
        ReactiveInstruction::Terminal(t) => {
            &&& n matches ReactiveInstruction::Terminal(nt)
            &&& lvalues_pruned_terminal(nt, t, r)
        },
    }
}

pub open spec fn lvalues_pruned_block(n: ReactiveBlock, o: ReactiveBlock, r: Set<u32>) -> bool
    decreases o,
{
    lvalues_pruned(n.instructions@, o.instructions@, r)
}

pub open spec fn lvalues_pruned_cases(n: Seq<(Option<Place>, ReactiveBlock)>, o: Seq<(Option<Place>, ReactiveBlock)>, r: Set<u32>) -> bool
    decreases o,
{
    &&& n.len() == o.len()
    &&& o.len() > 0 ==> {
        &&& lvalues_pruned_cases(n.drop_last(), o.drop_last(), r)
        &&& n.last().0 == o.last().0
        &&& lvalues_pruned_block(n.last().1, o.last().1, r)
    }
}

pub open spec fn lvalues_pruned_terminal(n: ReactiveTerminal, o: ReactiveTerminal, r: Set<u32>) -> bool
    decreases o,
{
    &&& same_terminal_fields(n, o)
    &&& match o {
        ReactiveTerminal::If { consequent, alternate, .. } => {
            &&& n matches ReactiveTerminal::If { consequent: nc, alternate: na, .. }
            &&& lvalues_pruned_block(nc, consequent, r)
            &&& lvalues_pruned_block(na, alternate, r)
        },
        ReactiveTerminal::Switch { cases, .. } => {
            &&& n matches ReactiveTerminal::Switch { cases: nc, .. }
            &&& lvalues_pruned_cases(nc@, cases@, r)
        },
        ReactiveTerminal::For { init, test, update, body, .. } => {
            &&& n matches ReactiveTerminal::For { init: n1, test: n2, update: n3, body: n4, .. }
            &&& lvalues_pruned_block(n1, init, r)
            &&& lvalues_pruned_block(n2, test, r)
            &&& match update {
                Some(u) => n3 matches Some(nu) && lvalues_pruned_block(nu, u, r),
                None => n3 is None,
            }
            &&& lvalues_pruned_block(n4, body, r)
        },
        ReactiveTerminal::ForOf { init, test, body, .. } => {
            &&& n matches ReactiveTerminal::ForOf { init: n1, test: n2, body: n4, .. }
            &&& lvalues_pruned_block(n1, init, r)
            &&& lvalues_pruned_block(n2, test, r)
            &&& lvalues_pruned_block(n4, body, r)
        },
        ReactiveTerminal::ForIn { init, test, body, .. } => {
            &&& n matches ReactiveTerminal::ForIn { init: n1, test: n2, body: n4, .. }
            &&& lvalues_pruned_block(n1, init, r)
            &&& lvalues_pruned_block(n2, test, r)
            &&& lvalues_pruned_block(n4, body, r)
        },
        ReactiveTerminal::While { test, body, .. } => {
            &&& n matches ReactiveTerminal::While { test: n2, body: n4, .. }
            &&& lvalues_pruned_block(n2, test, r)
            &&& lvalues_pruned_block(n4, body, r)
        },
        ReactiveTerminal::DoWhile { body, test, .. } => {
            &&& n matches ReactiveTerminal::DoWhile { body: n4, test: n2, .. }
            &&& lvalues_pruned_block(n2, test, r)
            &&& lvalues_pruned_block(n4, body, r)
        },
        ReactiveTerminal::Try { block, handler, .. } => {
            &&& n matches ReactiveTerminal::Try { block: nb, handler: nh, .. }
            &&& lvalues_pruned_block(nb, block, r)
            &&& lvalues_pruned_block(nh, handler, r)
        },
        ReactiveTerminal::Label { block, .. } => {
            &&& n matches ReactiveTerminal::Label { block: nb, .. }
            &&& lvalues_pruned_block(nb, block, r)
        },
        ReactiveTerminal::Logical { right, .. } => {
            &&& n matches ReactiveTerminal::Logical { right: nr, .. }
            &&& lvalues_pruned_block(nr, right, r)
        },
        _ => true,
    }
}

proof fn lemma_lvalues_step(out: Seq<ReactiveInstruction>, added: Seq<ReactiveInstruction>, o: Seq<ReactiveInstruction>, k: int, r: Set<u32>)
    requires
        0 <= k < o.len(),
        lvalues_pruned(out, o.take(k), r),
        if keeps_item(o[k], r) {
            added.len() == 1 && lvalues_pruned_item(added[0], o[k], r)
        } else {
            added.len() == 0
        },
    ensures
        lvalues_pruned(out + added, o.take(k + 1), r),
{
    let n = out + added;
    assert(o.take(k + 1).drop_last() =~= o.take(k));
    assert(o.take(k + 1).last() == o[k]);
    assert(n.take(out.len() as int) =~= out);
    if keeps_item(o[k], r) {
        assert(n[out.len() as int] == added[0]);
    }
}

fn side_effecting(v: &InstructionValue) -> (b: bool)
    ensures
        b == has_side_effects(*v),
{
    match v {
        InstructionValue::CallExpression { .. } => true,
        InstructionValue::MethodCall { .. } => true,
        InstructionValue::NewExpression { .. } => true,
        InstructionValue::StoreLocal { .. } => true,
        InstructionValue::StoreContext { .. } => true,
        InstructionValue::StoreGlobal { .. } => true,
        InstructionValue::PropertyStore { .. } => true,
        InstructionValue::ComputedStore { .. } => true,
        InstructionValue::PropertyDelete { .. } => true,
        InstructionValue::ComputedDelete { .. } => true,
        InstructionValue::PrefixUpdate { .. } => true,
        InstructionValue::PostfixUpdate { .. } => true,
        InstructionValue::Await { .. } => true,
        InstructionValue::Destructure { .. } => true,
        _ => false,
    }
}

fn prune_lvalues_in_block(block: &mut ReactiveBlock, referenced: &FxHashSet<u32>)
    ensures
        lvalues_pruned_block(*final(block), *old(block), referenced@),
    decreases *old(block),
{
    let ghost o = old(block).instructions@;
    let ghost r = referenced@;
    let mut rest: Vec<ReactiveInstruction> = Vec::new();
    std::mem::swap(&mut rest, &mut block.instructions);
    let mut out: Vec<ReactiveInstruction> = Vec::new();
    let ghost mut k: int = 0;
    proof {
        assert(o.skip(0) =~= o);
        assert(o.take(0) =~= Seq::<ReactiveInstruction>::empty());
        assert(out@ =~= Seq::<ReactiveInstruction>::empty());
    }
    while rest.len() > 0
        invariant
            0 <= k <= o.len(),
            o == old(block).instructions@,
            r == referenced@,
            rest@ == o.skip(k),
            lvalues_pruned(out@, o.take(k), r),
        decreases rest.len(),
    {
        proof {
            assert(o.skip(k)[0] == o[k]);
            assert(decreases_to!(*old(block) => old(block).instructions));
            assert(decreases_to!(old(block).instructions => o));
            assert(decreases_to!(o => o[k]));
            assert(o.take(k + 1).drop_last() =~= o.take(k));
            assert(o.take(k + 1).last() == o[k]);
        }
        let item = rest.remove(0);
        proof {
            assert(item == o[k]);
        }
        let ghost outb = out@;
        match item {
            ReactiveInstruction::Instruction(instruction) => {
                let keep = fx_set_contains(referenced, instruction.lvalue.identifier.id.0) || side_effecting(&instruction.value);
                if keep {
                    out.push(ReactiveInstruction::Instruction(instruction));
                    proof {
                        assert(out@ =~= outb + seq![o[k]]);
                        lemma_lvalues_step(outb, seq![o[k]], o, k, r);
                    }
                } else {
                    proof {
                        assert(out@ =~= outb + Seq::<ReactiveInstruction>::empty());
                        lemma_lvalues_step(outb, Seq::<ReactiveInstruction>::empty(), o, k, r);
                    }
                }
            },
            ReactiveInstruction::Scope(mut scope_block) => {
                let ghost osb = scope_block;
                proof {
                    assert(decreases_to!(o[k] => osb.instructions));
                }
                prune_lvalues_in_block(&mut scope_block.instructions, referenced);
                let ghost nsb = scope_block;
                out.push(ReactiveInstruction::Scope(scope_block));
                proof {
                    let added = seq![ReactiveInstruction::Scope(nsb)];
                    assert(out@ =~= outb + added);
                    lemma_lvalues_step(outb, added, o, k, r);
                }
            },
            ReactiveInstruction::Terminal(mut terminal) => {
                let ghost ot = terminal;
                proof {
                    assert(decreases_to!(o[k] => ot));
                }
                prune_lvalues_in_terminal(&mut terminal, referenced);
                let ghost nt = terminal;
                out.push(ReactiveInstruction::Terminal(terminal));
                proof {
                    let added = seq![ReactiveInstruction::Terminal(nt)];
                    assert(out@ =~= outb + added);
                    lemma_lvalues_step(outb, added, o, k, r);
                }
            },
        }
        proof {
            k = k + 1;
            assert(rest@ =~= o.skip(k));
        }
    }
    proof {
        assert(o.take(k) =~= o);
    }
    block.instructions = out;
}

fn prune_lvalues_in_terminal(terminal: &mut ReactiveTerminal, referenced: &FxHashSet<u32>)
    ensures
        lvalues_pruned_terminal(*final(terminal), *old(terminal), referenced@),
    decreases *old(terminal),
{
    match terminal {
        ReactiveTerminal::If { consequent, alternate, .. } => {
            prune_lvalues_in_block(consequent, referenced);
            prune_lvalues_in_block(alternate, referenced);
        },
        ReactiveTerminal::Switch { cases, .. } => {
            let ghost oc = old(terminal)->Switch_cases@;
            proof {
                assert(cases@.take(0) =~= Seq::<(Option<Place>, ReactiveBlock)>::empty());
                assert(oc.take(0) =~= Seq::<(Option<Place>, ReactiveBlock)>::empty());
            }
            let mut i: usize = 0;
            while i < cases.len()
                invariant
                    i <= cases@.len(),
                    cases@.len() == oc.len(),
                    *old(terminal) is Switch,
                    oc == old(terminal)->Switch_cases@,
                    lvalues_pruned_cases(cases@.take(i as int), oc.take(i as int), referenced@),
                    forall|m: int| i <= m < oc.len() ==> #[trigger] cases@[m] == oc[m],
                decreases cases.len() - i,
            {
                proof {
                    assert(decreases_to!(*old(terminal) => old(terminal)->Switch_cases));
                    assert(decreases_to!(old(terminal)->Switch_cases => oc));
                    assert(decreases_to!(oc => oc[i as int]));
                }
                let ghost prevc = cases@;
                prune_lvalues_in_block(&mut cases[i].1, referenced);
                proof {
                    let n = cases@;
                    assert(n.take(i as int) =~= prevc.take(i as int));
                    assert(n.take(i + 1).drop_last() =~= n.take(i as int));
                    assert(oc.take(i + 1).drop_last() =~= oc.take(i as int));
                    assert(n.take(i + 1).last() == n[i as int]);
                    assert(oc.take(i + 1).last() == oc[i as int]);
                }
                i = i + 1;
            }
            proof {
                assert(cases@.take(i as int) =~= cases@);
                assert(oc.take(i as int) =~= oc);
            }
        },
        ReactiveTerminal::For { init, test, update, body, .. } => {
            prune_lvalues_in_block(init, referenced);
            prune_lvalues_in_block(test, referenced);
            if let Some(u) = update {
                prune_lvalues_in_block(u, referenced);
            }
            prune_lvalues_in_block(body, referenced);
        },
        ReactiveTerminal::ForOf { init, test, body, .. } => {
            prune_lvalues_in_block(init, referenced);
            prune_lvalues_in_block(test, referenced);
            prune_lvalues_in_block(body, referenced);
        },
        ReactiveTerminal::ForIn { init, test, body, .. } => {
            prune_lvalues_in_block(init, referenced);
            prune_lvalues_in_block(test, referenced);
            prune_lvalues_in_block(body, referenced);
        },
        ReactiveTerminal::While { test, body, .. } => {
            prune_lvalues_in_block(test, referenced);
            prune_lvalues_in_block(body, referenced);
        },
        ReactiveTerminal::DoWhile { body, test, .. } => {
            prune_lvalues_in_block(test, referenced);
            prune_lvalues_in_block(body, referenced);
        },
        ReactiveTerminal::Try { block, handler, .. } => {
            prune_lvalues_in_block(block, referenced);
            prune_lvalues_in_block(handler, referenced);
        },
        ReactiveTerminal::Label { block, .. } => {
            prune_lvalues_in_block(block, referenced);
        },
        ReactiveTerminal::Logical { right, .. } => {
            prune_lvalues_in_block(right, referenced);
        },
        _ => {},
    }
}

/// Drop every instruction whose result the function never references and
/// that has no side effect, at every depth, as `lvalues_pruned_block`
/// states over `referenced_ids(body)`; the function's other fields are
/// unchanged.
pub fn prune_unused_lvalues(rf: &mut ReactiveFunction)
    ensures
        final(rf).loc == old(rf).loc,
        final(rf).id == old(rf).id,
        final(rf).params == old(rf).params,
        final(rf).directives == old(rf).directives,
        final(rf).is_arrow == old(rf).is_arrow,
        final(rf).is_async == old(rf).is_async,
        final(rf).is_generator == old(rf).is_generator,
        lvalues_pruned_block(final(rf).body, old(rf).body, referenced_ids(old(rf).body)),
{
    let mut referenced: FxHashSet<u32> = FxHashSet::default();
    proof {
        assert(referenced@ =~= Set::<u32>::empty());
    }
    collect_all_referenced_ids(&rf.body, &mut referenced);
    proof {
        assert(referenced@ =~= referenced_ids(rf.body));
    }
    prune_lvalues_in_block(&mut rf.body, &referenced);
}

} // verus!
