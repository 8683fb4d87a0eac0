//! Prune scopes that invalidate on every render: a scope that depends on a
//! value freshly allocated outside any scope (an array, object, JSX element,
//! function or `new` result, or a local copied from one) recomputes every
//! time, so its instructions are moved out into the enclosing block.

use vstd::prelude::*;
use rustc_hash::FxHashSet;
use crate::fxhash::{fx_set_contains, fx_set_insert};
use crate::hir::types::{
    IdentifierId, Instruction, InstructionValue, Place, ReactiveBlock, ReactiveFunction,
    ReactiveInstruction, ReactiveScope, ReactiveTerminal, ScopeDeclaration,
};
use crate::reactive_scopes::reactive_tree::same_terminal_fields;

verus! {

/// The identifiers known to hold always-invalidating values, and those of
/// them not memoized by any scope.
pub type KnownValues = (Set<u32>, Set<u32>);

/// The value is allocated anew each time it is evaluated.
pub open spec fn allocates_fresh(v: InstructionValue) -> bool {
    ||| v is ArrayExpression
    ||| v is ObjectExpression
    ||| v is JsxExpression
    ||| v is JsxFragment
    ||| v is NewExpression
    ||| v is FunctionExpression
    ||| v is ObjectMethod
}

/// `lv` takes on what is known of `src`.
pub open spec fn alias_step(s: KnownValues, lv: u32, src: u32) -> KnownValues {
    (
        if s.0.contains(src) { s.0.insert(lv) } else { s.0 },
        if s.1.contains(src) { s.1.insert(lv) } else { s.1 },
    )
}

/// What an instruction adds: a fresh allocation is always invalidating, and
/// unmemoized outside a scope; a load or store copies what is known of its
/// source.
pub open spec fn instruction_step(ins: Instruction, within: bool, s: KnownValues) -> KnownValues {
    let lv = ins.lvalue.identifier.id.0;
    let s1 = if allocates_fresh(ins.value) {
        (s.0.insert(lv), if within { s.1 } else { s.1.insert(lv) })
    } else {
        s
    };
    match ins.value {
        InstructionValue::StoreLocal { value, .. } => alias_step(s1, lv, value.identifier.id.0),
        InstructionValue::StoreContext { value, .. } => alias_step(s1, lv, value.identifier.id.0),
        InstructionValue::LoadLocal { place } => alias_step(s1, lv, place.identifier.id.0),
        InstructionValue::LoadContext { place } => alias_step(s1, lv, place.identifier.id.0),
        _ => s1,
    }
}

/// Some dependency of the scope is unmemoized.
pub open spec fn invalidates(scope: ReactiveScope, s: KnownValues) -> bool {
    exists|j: int| 0 <= j < scope.dependencies@.len() && s.1.contains(#[trigger] scope.dependencies@[j].identifier.id.0)
}

/// The declarations of a pruned scope that hold always-invalidating values
/// become unmemoized.
pub open spec fn release_declarations(ai: Set<u32>, um: Set<u32>, q: Seq<(IdentifierId, ScopeDeclaration)>) -> Set<u32>
    decreases q.len(),
{
    if q.len() == 0 {
        um
    } else {
        let u = release_declarations(ai, um, q.drop_last());
        if ai.contains(q.last().0.0) { u.insert(q.last().0.0) } else { u }
    }
}

/// What is known after a list of instructions.
pub open spec fn ai_state(q: Seq<ReactiveInstruction>, within: bool, s: KnownValues) -> KnownValues
    decreases q,
{
    if q.len() == 0 {
        s
    } else {
        ai_item_state(q.last(), within, ai_state(q.drop_last(), within, s))
    }
}

pub open spec fn ai_item_state(i: ReactiveInstruction, within: bool, s: KnownValues) -> KnownValues
    decreases i,
{
    match i {
        ReactiveInstruction::Instruction(ins) => instruction_step(ins, within, s),
        ReactiveInstruction::Scope(sb) => {
            let sb_s = ai_state(sb.instructions.instructions@, true, s);
            if invalidates(sb.scope, sb_s) {
                (sb_s.0, release_declarations(sb_s.0, sb_s.1, sb.scope.declarations@))
            } else {
                sb_s
            }
        },
        ReactiveInstruction::Terminal(t) => ai_terminal_state(t, within, s),
    }
}

pub open spec fn ai_cases_state(q: Seq<(Option<Place>, ReactiveBlock)>, within: bool, s: KnownValues) -> KnownValues
    decreases q,
{
    if q.len() == 0 {
        s
    } else {
        ai_state(q.last().1.instructions@, within, ai_cases_state(q.drop_last(), within, s))
    }
}

/// What is known after the blocks of a terminal, in order.
pub open spec fn ai_terminal_state(t: ReactiveTerminal, within: bool, s: KnownValues) -> KnownValues
    decreases t,
{
    match t {
        ReactiveTerminal::If { consequent, alternate, .. } =>
            ai_state(alternate.instructions@, within, ai_state(consequent.instructions@, within, s)),
        ReactiveTerminal::Switch { cases, .. } => ai_cases_state(cases@, within, s),
        ReactiveTerminal::For { init, test, update, body, .. } => {
            let s2 = ai_state(test.instructions@, within, ai_state(init.instructions@, within, s));
            let s3 = match update {
                Some(u) => ai_state(u.instructions@, within, s2),
                None => s2,
            };
            ai_state(body.instructions@, within, s3)
        },
        ReactiveTerminal::ForOf { init, test, body, .. } =>
            ai_state(body.instructions@, within, ai_state(test.instructions@, within, ai_state(init.instructions@, within, s))),
        ReactiveTerminal::ForIn { init, test, body, .. } =>
            ai_state(body.instructions@, within, ai_state(test.instructions@, within, ai_state(init.instructions@, within, s))),
        ReactiveTerminal::While { test, body, .. } =>
            ai_state(body.instructions@, within, ai_state(test.instructions@, within, s)),
        ReactiveTerminal::DoWhile { body, test, .. } =>
            ai_state(body.instructions@, within, ai_state(test.instructions@, within, s)),
        ReactiveTerminal::Try { block, handler, .. } =>
            ai_state(handler.instructions@, within, ai_state(block.instructions@, within, s)),
        ReactiveTerminal::Label { block, .. } => ai_state(block.instructions@, within, s),
        ReactiveTerminal::Logical { right, .. } => ai_state(right.instructions@, within, s),
        _ => s,
    }
}

/// The number of instructions a list becomes.
pub open spec fn ai_out_len(q: Seq<ReactiveInstruction>, within: bool, s: KnownValues) -> nat
    decreases q,
{
    if q.len() == 0 {
        0
    } else {
        ai_out_len(q.drop_last(), within, s) + ai_item_len(q.last(), within, ai_state(q.drop_last(), within, s))
    }
}

pub open spec fn ai_item_len(i: ReactiveInstruction, within: bool, s: KnownValues) -> nat
    decreases i,
{
    match i {
        ReactiveInstruction::Scope(sb) => if invalidates(sb.scope, ai_state(sb.instructions.instructions@, true, s)) {
            ai_out_len(sb.instructions.instructions@, true, s)
        } else {
            1
        },
        _ => 1,
    }
}

/// `n` is the list `o` with always-invalidating scopes pruned, starting
/// from what is known in `s`.
pub open spec fn ai_pruned(n: Seq<ReactiveInstruction>, o: Seq<ReactiveInstruction>, within: bool, s: KnownValues) -> bool
    decreases o,
{
    &&& n.len() == ai_out_len(o, within, s)
    &&& o.len() > 0 ==> {
        let k = ai_out_len(o.drop_last(), within, s) as int;
        &&& ai_pruned(n.take(k), o.drop_last(), within, s)
        &&& ai_pruned_item(n.skip(k), o.last(), within, ai_state(o.drop_last(), within, s))
    }
}

/// What one instruction becomes: a plain instruction stays; a scope has its
/// body processed (inside a scope) and is then either kept or, when a
/// dependency is unmemoized, replaced by that body; a terminal has its
/// blocks processed in order.
pub open spec fn ai_pruned_item(out: Seq<ReactiveInstruction>, o: ReactiveInstruction, within: bool, s: KnownValues) -> bool
    decreases o,
{
    match o {
        ReactiveInstruction::Instruction(_) => out == seq![o],
        ReactiveInstruction::Scope(sb) => if invalidates(sb.scope, ai_state(sb.instructions.instructions@, true, s)) {
            ai_pruned(out, sb.instructions.instructions@, true, s)
        } else {
            &&& out.len() == 1
            &&& out[0] matches ReactiveInstruction::Scope(nsb)
            &&& nsb.scope == sb.scope
            &&& ai_pruned(nsb.instructions.instructions@, sb.instructions.instructions@, true, s)
        },
        ReactiveInstruction::Terminal(t) => {
            &&& out.len() == 1
            &&& out[0] matches ReactiveInstruction::Terminal(nt)
            &&& ai_pruned_terminal(nt, t, within, s)
        },
    }
}

pub open spec fn ai_pruned_cases(n: Seq<(Option<Place>, ReactiveBlock)>, o: Seq<(Option<Place>, ReactiveBlock)>, within: bool, s: KnownValues) -> bool
    decreases o,
{
    &&& n.len() == o.len()
    &&& o.len() > 0 ==> {
        &&& ai_pruned_cases(n.drop_last(), o.drop_last(), within, s)
        &&& n.last().0 == o.last().0
        &&& ai_pruned(n.last().1.instructions@, o.last().1.instructions@, within, ai_cases_state(o.drop_last(), within, s))
    }
}

pub open spec fn ai_pruned_terminal(n: ReactiveTerminal, o: ReactiveTerminal, w: bool, s: KnownValues) -> bool
    decreases o,
{
    &&& same_terminal_fields(n, o)
    &&& match o {
        ReactiveTerminal::If { consequent, alternate, .. } => {
            &&& n matches ReactiveTerminal::If { consequent: nc, alternate: na, .. }
            &&& ai_pruned(nc.instructions@, consequent.instructions@, w, s)
            &&& ai_pruned(na.instructions@, alternate.instructions@, w, ai_state(consequent.instructions@, w, s))
        },
        ReactiveTerminal::Switch { cases, .. } => {
            &&& n matches ReactiveTerminal::Switch { cases: nc, .. }
            &&& ai_pruned_cases(nc@, cases@, w, s)
        },
        ReactiveTerminal::For { init, test, update, body, .. } => {
            let s1 = ai_state(init.instructions@, w, s);
            let s2 = ai_state(test.instructions@, w, s1);
            let s3 = match update {
                Some(u) => ai_state(u.instructions@, w, s2),
                None => s2,
            };
            &&& n matches ReactiveTerminal::For { init: n1, test: n2, update: n3, body: n4, .. }
            &&& ai_pruned(n1.instructions@, init.instructions@, w, s)
            &&& ai_pruned(n2.instructions@, test.instructions@, w, s1)
            &&& match update {
                Some(u) => n3 matches Some(nu) && ai_pruned(nu.instructions@, u.instructions@, w, s2),
                None => n3 is None,
            }
            &&& ai_pruned(n4.instructions@, body.instructions@, w, s3)
        },
        ReactiveTerminal::ForOf { init, test, body, .. } => {
            let s1 = ai_state(init.instructions@, w, s);
            &&& n matches ReactiveTerminal::ForOf { init: n1, test: n2, body: n4, .. }
            &&& ai_pruned(n1.instructions@, init.instructions@, w, s)
            &&& ai_pruned(n2.instructions@, test.instructions@, w, s1)
            &&& ai_pruned(n4.instructions@, body.instructions@, w, ai_state(test.instructions@, w, s1))
        },
        ReactiveTerminal::ForIn { init, test, body, .. } => {
            let s1 = ai_state(init.instructions@, w, s);
            &&& n matches ReactiveTerminal::ForIn { init: n1, test: n2, body: n4, .. }
            &&& ai_pruned(n1.instructions@, init.instructions@, w, s)
            &&& ai_pruned(n2.instructions@, test.instructions@, w, s1)
            &&& ai_pruned(n4.instructions@, body.instructions@, w, ai_state(test.instructions@, w, s1))
        },
        ReactiveTerminal::While { test, body, .. } => {
            &&& n matches ReactiveTerminal::While { test: n2, body: n4, .. }
            &&& ai_pruned(n2.instructions@, test.instructions@, w, s)
            &&& ai_pruned(n4.instructions@, body.instructions@, w, ai_state(test.instructions@, w, s))
        },
        ReactiveTerminal::DoWhile { body, test, .. } => {
            &&& n matches ReactiveTerminal::DoWhile { body: n4, test: n2, .. }
            &&& ai_pruned(n2.instructions@, test.instructions@, w, s)
            &&& ai_pruned(n4.instructions@, body.instructions@, w, ai_state(test.instructions@, w, s))
        },
        ReactiveTerminal::Try { block, handler, .. } => {
            &&& n matches ReactiveTerminal::Try { block: nb, handler: nh, .. }
            &&& ai_pruned(nb.instructions@, block.instructions@, w, s)
            &&& ai_pruned(nh.instructions@, handler.instructions@, w, ai_state(block.instructions@, w, s))
        },
        ReactiveTerminal::Label { block, .. } => {
            &&& n matches ReactiveTerminal::Label { block: nb, .. }
            &&& ai_pruned(nb.instructions@, block.instructions@, w, s)
        },
        ReactiveTerminal::Logical { right, .. } => {
            &&& n matches ReactiveTerminal::Logical { right: nr, .. }
            &&& ai_pruned(nr.instructions@, right.instructions@, w, s)
        },
        _ => true,
    }
}

proof fn lemma_ai_step(
    out: Seq<ReactiveInstruction>,
    added: Seq<ReactiveInstruction>,
    o: Seq<ReactiveInstruction>,
    k: int,
    w: bool,
    s: KnownValues,
)
    requires
        0 <= k < o.len(),
        ai_pruned(out, o.take(k), w, s),
        ai_pruned_item(added, o[k], w, ai_state(o.take(k), w, s)),
        added.len() == ai_item_len(o[k], w, ai_state(o.take(k), w, s)),
    ensures
        ai_pruned(out + added, o.take(k + 1), w, s),
        ai_state(o.take(k + 1), w, s) == ai_item_state(o[k], w, ai_state(o.take(k), w, s)),
{
    let n = out + added;
    assert(o.take(k + 1).drop_last() =~= o.take(k));
    assert(o.take(k + 1).last() == o[k]);
    assert(n.take(out.len() as int) =~= out);
    assert(n.skip(out.len() as int) =~= added);
}

proof fn lemma_ai_pruned_len(n: Seq<ReactiveInstruction>, o: Seq<ReactiveInstruction>, w: bool, s: KnownValues)
    requires
        ai_pruned(n, o, w, s),
    ensures
        n.len() == ai_out_len(o, w, s),
{
}

fn fresh_allocation(v: &InstructionValue) -> (b: bool)
    ensures
        b == allocates_fresh(*v),
{
    match v {
        InstructionValue::ArrayExpression { .. } => true,
        InstructionValue::ObjectExpression { .. } => true,
        InstructionValue::JsxExpression { .. } => true,
        InstructionValue::JsxFragment { .. } => true,
        InstructionValue::NewExpression { .. } => true,
        InstructionValue::FunctionExpression { .. } => true,
        InstructionValue::ObjectMethod { .. } => true,
        _ => false,
    }
}

fn copy_known(lv: u32, src: u32, always_invalidating: &mut FxHashSet<u32>, unmemoized: &mut FxHashSet<u32>)
    ensures
        (final(always_invalidating)@, final(unmemoized)@) == alias_step((old(always_invalidating)@, old(unmemoized)@), lv, src),
{
    if fx_set_contains(always_invalidating, src) {
        fx_set_insert(always_invalidating, lv);
    }
    if fx_set_contains(unmemoized, src) {
        fx_set_insert(unmemoized, lv);
    }
}

fn track_instruction(instruction: &Instruction, within: bool, always_invalidating: &mut FxHashSet<u32>, unmemoized: &mut FxHashSet<u32>)
    ensures
        (final(always_invalidating)@, final(unmemoized)@) == instruction_step(*instruction, within, (old(always_invalidating)@, old(unmemoized)@)),
{
    let lv = instruction.lvalue.identifier.id.0;
    if fresh_allocation(&instruction.value) {
        fx_set_insert(always_invalidating, lv);
        if !within {
            fx_set_insert(unmemoized, lv);
        }
    }
    match &instruction.value {
        InstructionValue::StoreLocal { value, .. } => copy_known(lv, value.identifier.id.0, always_invalidating, unmemoized),
        InstructionValue::StoreContext { value, .. } => copy_known(lv, value.identifier.id.0, always_invalidating, unmemoized),
        InstructionValue::LoadLocal { place } => copy_known(lv, place.identifier.id.0, always_invalidating, unmemoized),
        InstructionValue::LoadContext { place } => copy_known(lv, place.identifier.id.0, always_invalidating, unmemoized),
        _ => {},
    }
}

fn depends_on_unmemoized(scope: &ReactiveScope, unmemoized: &FxHashSet<u32>) -> (b: bool)
    ensures
        b == exists|j: int| 0 <= j < scope.dependencies@.len() && unmemoized@.contains(#[trigger] scope.dependencies@[j].identifier.id.0),
{
    let mut j: usize = 0;
    while j < scope.dependencies.len()
        invariant
            j <= scope.dependencies@.len(),
            forall|m: int| 0 <= m < j ==> !unmemoized@.contains(#[trigger] scope.dependencies@[m].identifier.id.0),
        decreases scope.dependencies.len() - j,
    {
        if fx_set_contains(unmemoized, scope.dependencies[j].identifier.id.0) {
            return true;
        }
        j = j + 1;
    }
    false
}

fn prune_always_invalidating_in_block(
    block: &mut ReactiveBlock,
    within: bool,
    always_invalidating: &mut FxHashSet<u32>,
    unmemoized: &mut FxHashSet<u32>,
)
    ensures
        (final(always_invalidating)@, final(unmemoized)@) == ai_state(old(block).instructions@, within, (old(always_invalidating)@, old(unmemoized)@)),
        ai_pruned(final(block).instructions@, old(block).instructions@, within, (old(always_invalidating)@, old(unmemoized)@)),
    decreases *old(block),
{
    let ghost o = old(block).instructions@;
    let ghost s0 = (always_invalidating@, unmemoized@);
    let mut rest: Vec<ReactiveInstruction> = Vec::new();
    std::mem::swap(&mut rest, &mut block.instructions);
    let mut out: Vec<ReactiveInstruction> = Vec::new();
    let ghost mut k: int = 0;
    proof {
        assert(o.skip(0) =~= o);
        assert(o.take(0) =~= Seq::<ReactiveInstruction>::empty());
        assert(out@ =~= Seq::<ReactiveInstruction>::empty());
    }
    while rest.len() > 0
        invariant
            0 <= k <= o.len(),
            o == old(block).instructions@,
            rest@ == o.skip(k),
            (always_invalidating@, unmemoized@) == ai_state(o.take(k), within, s0),
            ai_pruned(out@, o.take(k), within, s0),
        decreases rest.len(),
    {
        proof {
            assert(o.skip(k)[0] == o[k]);
            assert(decreases_to!(*old(block) => old(block).instructions));
            assert(decreases_to!(old(block).instructions => o));
            assert(decreases_to!(o => o[k]));
        }
        let item = rest.remove(0);
        proof {
            assert(item == o[k]);
        }
        let ghost outb = out@;
        let ghost sk = (always_invalidating@, unmemoized@);
        match item {
            ReactiveInstruction::Instruction(instruction) => {
                track_instruction(&instruction, within, always_invalidating, unmemoized);
                out.push(ReactiveInstruction::Instruction(instruction));
                proof {
                    assert(out@ =~= outb + seq![o[k]]);
                    lemma_ai_step(outb, seq![o[k]], o, k, within, s0);
                }
            },
            ReactiveInstruction::Scope(mut scope_block) => {
                let ghost osb = scope_block;
                proof {
                    assert(decreases_to!(o[k] => osb.instructions));
                }
                prune_always_invalidating_in_block(&mut scope_block.instructions, true, always_invalidating, unmemoized);
                let ghost sb_s = (always_invalidating@, unmemoized@);
                if depends_on_unmemoized(&scope_block.scope, unmemoized) {
                    let ghost d = scope_block.scope.declarations@;
                    let mut j: usize = 0;
                    proof {
                        assert(d.take(0) =~= Seq::<(IdentifierId, ScopeDeclaration)>::empty());
                    }
                    while j < scope_block.scope.declarations.len()
                        invariant
                            j <= d.len(),
                            d == scope_block.scope.declarations@,
                            always_invalidating@ == sb_s.0,
                            unmemoized@ == release_declarations(sb_s.0, sb_s.1, d.take(j as int)),
                        decreases scope_block.scope.declarations.len() - j,
                    {
                        proof {
                            assert(d.take(j + 1).drop_last() =~= d.take(j as int));
                            assert(d.take(j + 1).last() == d[j as int]);
                        }
                        let decl_id = scope_block.scope.declarations[j].0.0;
                        if fx_set_contains(always_invalidating, decl_id) {
                            fx_set_insert(unmemoized, decl_id);
                        }
                        j = j + 1;
                    }
                    proof {
                        assert(d.take(j as int) =~= d);
                    }
                    let ghost inner = scope_block.instructions.instructions@;
                    let mut body = scope_block.instructions.instructions;
                    let ghost mut m: int = 0;
                    proof {
                        assert(body@.skip(0) =~= body@);
                        assert(out@.take(outb.len() as int) =~= outb);
                        assert(out@.skip(outb.len() as int) =~= inner.take(0));
                    }
                    while body.len() > 0
                        invariant
                            0 <= m <= inner.len(),
                            body@ == inner.skip(m),
                            out@.len() == outb.len() + m,
                            out@.take(outb.len() as int) == outb,
                            out@.skip(outb.len() as int) == inner.take(m),
                        decreases body.len(),
                    {
                        let x = body.remove(0);
                        proof {
                            assert(inner.skip(m)[0] == x);
                        }
                        let ghost prev = out@;
                        out.push(x);
                        proof {
                            assert(out@.take(outb.len() as int) =~= prev.take(outb.len() as int));
                            assert(out@.skip(outb.len() as int) =~= inner.take(m + 1));
                            m = m + 1;
                            assert(body@ =~= inner.skip(m));
                        }
                    }
                    proof {
                        assert(inner.take(m) =~= inner);
                        let added = out@.skip(outb.len() as int);
                        assert(out@ =~= outb + added);
                        lemma_ai_pruned_len(inner, osb.instructions.instructions@, true, sk);
                        lemma_ai_step(outb, added, o, k, within, s0);
                    }
                } else {
                    let ghost nsb = scope_block;
                    out.push(ReactiveInstruction::Scope(scope_block));
                    proof {
                        let added = seq![ReactiveInstruction::Scope(nsb)];
                        assert(out@ =~= outb + added);
                        lemma_ai_step(outb, added, o, k, within, s0);
                    }
                }
            },
            ReactiveInstruction::Terminal(mut terminal) => {
                let ghost ot = terminal;
                proof {
                    assert(decreases_to!(o[k] => ot));
                }
                prune_always_invalidating_in_terminal(&mut terminal, within, always_invalidating, unmemoized);
                let ghost nt = terminal;
                out.push(ReactiveInstruction::Terminal(terminal));
                proof {
                    let added = seq![ReactiveInstruction::Terminal(nt)];
                    assert(out@ =~= outb + added);
                    lemma_ai_step(outb, added, o, k, within, s0);
                }
            },
        }
        proof {
            k = k + 1;
            assert(rest@ =~= o.skip(k));
        }
    }
    proof {
        assert(o.take(k) =~= o);
    }
    block.instructions = out;
}

fn prune_always_invalidating_in_terminal(
    terminal: &mut ReactiveTerminal,
    within: bool,
    always_invalidating: &mut FxHashSet<u32>,
    unmemoized: &mut FxHashSet<u32>,
)
    ensures
        (final(always_invalidating)@, final(unmemoized)@) == ai_terminal_state(*old(terminal), within, (old(always_invalidating)@, old(unmemoized)@)),
        ai_pruned_terminal(*final(terminal), *old(terminal), within, (old(always_invalidating)@, old(unmemoized)@)),
    decreases *old(terminal),
{
    match terminal {
        ReactiveTerminal::If { consequent, alternate, .. } => {
            prune_always_invalidating_in_block(consequent, within, always_invalidating, unmemoized);
            prune_always_invalidating_in_block(alternate, within, always_invalidating, unmemoized);
        },
        ReactiveTerminal::Switch { cases, .. } => {
            let ghost oc = old(terminal)->Switch_cases@;
            let ghost s0 = (always_invalidating@, unmemoized@);
            proof {
                assert(cases@.take(0) =~= Seq::<(Option<Place>, ReactiveBlock)>::empty());
                assert(oc.take(0) =~= Seq::<(Option<Place>, ReactiveBlock)>::empty());
            }
            let mut i: usize = 0;
            while i < cases.len()
                invariant
                    i <= cases@.len(),
                    cases@.len() == oc.len(),
                    *old(terminal) is Switch,
                    oc == old(terminal)->Switch_cases@,
                    (always_invalidating@, unmemoized@) == ai_cases_state(oc.take(i as int), within, s0),
                    ai_pruned_cases(cases@.take(i as int), oc.take(i as int), within, s0),
                    forall|m: int| i <= m < oc.len() ==> #[trigger] cases@[m] == oc[m],
                decreases cases.len() - i,
            {
                proof {
                    assert(decreases_to!(*old(terminal) => old(terminal)->Switch_cases));
                    assert(decreases_to!(old(terminal)->Switch_cases => oc));
                    assert(decreases_to!(oc => oc[i as int]));
                    assert(oc.take(i + 1).drop_last() =~= oc.take(i as int));
                    assert(oc.take(i + 1).last() == oc[i as int]);
                }
                let ghost prevc = cases@;
                prune_always_invalidating_in_block(&mut cases[i].1, within, always_invalidating, unmemoized);
                proof {
                    let n = cases@;
                    assert(n.take(i as int) =~= prevc.take(i as int));
                    assert(n.take(i + 1).drop_last() =~= n.take(i as int));
                    assert(n.take(i + 1).last() == n[i as int]);
                }
                i = i + 1;
            }
            proof {
                assert(cases@.take(i as int) =~= cases@);
                assert(oc.take(i as int) =~= oc);
            }
        },
        ReactiveTerminal::For { init, test, update, body, .. } => {
            prune_always_invalidating_in_block(init, within, always_invalidating, unmemoized);
            prune_always_invalidating_in_block(test, within, always_invalidating, unmemoized);
            if let Some(u) = update {
                prune_always_invalidating_in_block(u, within, always_invalidating, unmemoized);
            }
            prune_always_invalidating_in_block(body, within, always_invalidating, unmemoized);
        },
        ReactiveTerminal::ForOf { init, test, body, .. } => {
            prune_always_invalidating_in_block(init, within, always_invalidating, unmemoized);
            prune_always_invalidating_in_block(test, within, always_invalidating, unmemoized);
            prune_always_invalidating_in_block(body, within, always_invalidating, unmemoized);
        },
        ReactiveTerminal::ForIn { init, test, body, .. } => {
            prune_always_invalidating_in_block(init, within, always_invalidating, unmemoized);
            prune_always_invalidating_in_block(test, within, always_invalidating, unmemoized);
            prune_always_invalidating_in_block(body, within, always_invalidating, unmemoized);
        },
        ReactiveTerminal::While { test, body, .. } => {
            prune_always_invalidating_in_block(test, within, always_invalidating, unmemoized);
            prune_always_invalidating_in_block(body, within, always_invalidating, unmemoized);
        },
        ReactiveTerminal::DoWhile { body, test, .. } => {
            prune_always_invalidating_in_block(test, within, always_invalidating, unmemoized);
            prune_always_invalidating_in_block(body, within, always_invalidating, unmemoized);
        },
        ReactiveTerminal::Try { block, handler, .. } => {
            prune_always_invalidating_in_block(block, within, always_invalidating, unmemoized);
            prune_always_invalidating_in_block(handler, within, always_invalidating, unmemoized);
        },
        ReactiveTerminal::Label { block, .. } => {
            prune_always_invalidating_in_block(block, within, always_invalidating, unmemoized);
        },
        ReactiveTerminal::Logical { right, .. } => {
            prune_always_invalidating_in_block(right, within, always_invalidating, unmemoized);
        },
        _ => {},
    }
}

/// Prune the scopes that invalidate on every render: walking the function in
/// order from nothing known, each scope whose dependency is an unmemoized
/// always-invalidating value is replaced by its (processed) body, as
/// `ai_pruned` states; the function's other fields are unchanged.
pub fn prune_always_invalidating_scopes(rf: &mut ReactiveFunction)
    ensures
        final(rf).loc == old(rf).loc,
        final(rf).id == old(rf).id,
        final(rf).params == old(rf).params,
        final(rf).directives == old(rf).directives,
        final(rf).is_arrow == old(rf).is_arrow,
        final(rf).is_async == old(rf).is_async,
        final(rf).is_generator == old(rf).is_generator,
        ai_pruned(final(rf).body.instructions@, old(rf).body.instructions@, false, (Set::empty(), Set::empty())),
{
    let mut always_invalidating: FxHashSet<u32> = FxHashSet::default();
    let mut unmemoized: FxHashSet<u32> = FxHashSet::default();
    proof {
        assert(always_invalidating@ =~= Set::<u32>::empty());
        assert(unmemoized@ =~= Set::<u32>::empty());
    }
    prune_always_invalidating_in_block(&mut rf.body, false, &mut always_invalidating, &mut unmemoized);
}

} // verus!
