//! Dissolve the reactive scopes whose outputs do not escape: a scope stays
//! when one of its declarations or reassigned identifiers is used as more
//! than a condition test, when it declares and reassigns nothing, when it
//! allocates (unless all it declares is only tested), or when it returns
//! early. An identifier is "only tested" when it appears as the test of an
//! `if` or `switch` and is never read as a value, or when it is only stored
//! into such identifiers.

use vstd::prelude::*;
use rustc_hash::{FxHashMap, FxHashSet};
use crate::fxhash::{fx_map_get, fx_map_insert, fx_map_keys, fx_map_remove, fx_set_contains, fx_set_elements, fx_set_insert};
use crate::hir::types::{
    Instruction, InstructionValue, Place, ReactiveBlock, ReactiveFunction, ReactiveInstruction, ReactiveScope,
    ReactiveTerminal,
};
use crate::optimization::dead_code_elimination::{add_place, collect_used_in_instruction_value, value_uses};
use crate::reactive_scopes::prune_unused::{
    collect_instruction_operand_ids, lemma_scopes_pruned_len, lemma_scopes_step, operand_ids, scopes_pruned,
    scopes_pruned_block, scopes_pruned_cases, scopes_pruned_terminal,
};

verus! {

// ---------------------------------------------------------------------------
// Identifiers used in the tree
// ---------------------------------------------------------------------------

/// Which uses of identifiers a walk of the tree collects: every operand
/// (`Any`), the tests of `if` and `switch` (`Test`), or the operands read as
/// values, tests excluded (`Value`).
#[derive(Clone, Copy)]
pub enum UseKind {
    Any,
    Test,
    Value,
}

/// The operands an instruction value reads: its operands without the
/// targets of stores and declarations, and without the default values of a
/// destructuring.
pub open spec fn read_ids(v: InstructionValue) -> Set<u32> {
    match v {
        InstructionValue::StoreLocal { value, .. } => set![value.identifier.id.0],
        InstructionValue::StoreContext { value, .. } => set![value.identifier.id.0],
        InstructionValue::DeclareLocal { .. } => Set::empty(),
        InstructionValue::DeclareContext { .. } => Set::empty(),
        InstructionValue::Destructure { value, .. } => set![value.identifier.id.0],
        _ => value_uses(v),
    }
}

pub open spec fn instruction_ids(v: InstructionValue, kind: UseKind) -> Set<u32> {
    match kind {
        UseKind::Any => operand_ids(v),
        UseKind::Test => Set::empty(),
        UseKind::Value => read_ids(v),
    }
}

/// The identifiers a terminal uses itself (its child blocks aside): the
/// test of an `if` or `switch`, the value of a `return` or `throw`, the
/// result of a logical expression.
pub open spec fn terminal_own_ids(t: ReactiveTerminal, kind: UseKind) -> Set<u32> {
    match t {
        ReactiveTerminal::If { test, .. } => if kind is Value { Set::empty() } else { set![test.identifier.id.0] },
        ReactiveTerminal::Switch { test, .. } => if kind is Value { Set::empty() } else { set![test.identifier.id.0] },
        ReactiveTerminal::Return { value, .. } => if kind is Test { Set::empty() } else { set![value.identifier.id.0] },
        ReactiveTerminal::Throw { value, .. } => if kind is Test { Set::empty() } else { set![value.identifier.id.0] },
        ReactiveTerminal::Logical { result, .. } => if kind is Test {
            Set::empty()
        } else {
            match result {
                Some(r) => set![r.identifier.id.0],
                None => Set::empty(),
            }
        },
        _ => Set::empty(),
    }
}

/// The identifiers of the given kind used in a block, at every depth.
pub open spec fn ids_block(b: ReactiveBlock, kind: UseKind) -> Set<u32>
    decreases b,
{
    ids_in(b.instructions@, kind)
}

pub open spec fn ids_in(q: Seq<ReactiveInstruction>, kind: UseKind) -> Set<u32>
    decreases q,
{
    if q.len() == 0 {
        Set::empty()
    } else {
        ids_in(q.drop_last(), kind).union(ids_item(q.last(), kind))
    }
}

pub open spec fn ids_item(i: ReactiveInstruction, kind: UseKind) -> Set<u32>
    decreases i,
{
    match i {
        ReactiveInstruction::Instruction(ins) => instruction_ids(ins.value, kind),
        ReactiveInstruction::Scope(sb) => ids_block(sb.instructions, kind),
        ReactiveInstruction::Terminal(t) => ids_terminal(t, kind),
    }
}

pub open spec fn ids_cases(q: Seq<(Option<Place>, ReactiveBlock)>, kind: UseKind) -> Set<u32>
    decreases q,
{
    if q.len() == 0 {
        Set::empty()
    } else {
        ids_cases(q.drop_last(), kind).union(ids_block(q.last().1, kind))
    }
}

pub open spec fn ids_terminal(t: ReactiveTerminal, kind: UseKind) -> Set<u32>
    decreases t,
{
    terminal_own_ids(t, kind).union(
        match t {
            ReactiveTerminal::If { consequent, alternate, .. } => ids_block(consequent, kind).union(ids_block(alternate, kind)),
            ReactiveTerminal::Switch { cases, .. } => ids_cases(cases@, kind),
            ReactiveTerminal::For { init, test, update, body, .. } => ids_block(init, kind).union(ids_block(test, kind)).union(
                match update {
                    Some(u) => ids_block(u, kind),
                    None => Set::empty(),
                },
            ).union(ids_block(body, kind)),
            ReactiveTerminal::ForOf { init, test, body, .. } => ids_block(init, kind).union(ids_block(test, kind)).union(ids_block(body, kind)),
            ReactiveTerminal::ForIn { init, test, body, .. } => ids_block(init, kind).union(ids_block(test, kind)).union(ids_block(body, kind)),
            ReactiveTerminal::While { test, body, .. } => ids_block(test, kind).union(ids_block(body, kind)),
            ReactiveTerminal::DoWhile { body, test, .. } => ids_block(test, kind).union(ids_block(body, kind)),
            ReactiveTerminal::Try { block, handler, .. } => ids_block(block, kind).union(ids_block(handler, kind)),
            ReactiveTerminal::Label { block, .. } => ids_block(block, kind),
            ReactiveTerminal::Logical { right, .. } => ids_block(right, kind),
            _ => Set::empty(),
        },
    )
}

/// Add the operands an instruction value reads.
fn collect_read_operand_ids(value: &InstructionValue, used: &mut FxHashSet<u32>)
    ensures
        final(used)@ == old(used)@.union(read_ids(*value)),
{
    match value {
        InstructionValue::StoreLocal { value: v, .. } => add_place(used, v),
        InstructionValue::StoreContext { value: v, .. } => add_place(used, v),
        InstructionValue::Destructure { value: v, .. } => add_place(used, v),
        InstructionValue::DeclareLocal { .. } => {},
        InstructionValue::DeclareContext { .. } => {},
        _ => collect_used_in_instruction_value(value, used),
    }
    proof {
        assert(used@ =~= old(used)@.union(read_ids(*value)));
    }
}

fn collect_instruction_ids(value: &InstructionValue, kind: UseKind, used: &mut FxHashSet<u32>)
    ensures
        final(used)@ == old(used)@.union(instruction_ids(*value, kind)),
{
    match kind {
        UseKind::Any => collect_instruction_operand_ids(value, used),
        UseKind::Test => {
            proof {
                assert(used@ =~= old(used)@.union(instruction_ids(*value, kind)));
            }
        },
        UseKind::Value => collect_read_operand_ids(value, used),
    }
}

/// Add the identifiers of the given kind used in a block.
fn collect_ids(block: &ReactiveBlock, kind: UseKind, used: &mut FxHashSet<u32>)
    ensures
        final(used)@ == old(used)@.union(ids_block(*block, kind)),
    decreases *block,
{
    let ghost q = block.instructions@;
    let mut i: usize = 0;
    proof {
        assert(q.take(0) =~= Seq::<ReactiveInstruction>::empty());
        assert(used@ =~= old(used)@.union(ids_in(q.take(0), kind)));
    }
    while i < block.instructions.len()
        invariant
            i <= q.len(),
            q == block.instructions@,
            used@ == old(used)@.union(ids_in(q.take(i as int), kind)),
        decreases block.instructions.len() - i,
    {
        proof {
            assert(q.take(i + 1).drop_last() =~= q.take(i as int));
            assert(q.take(i + 1).last() == q[i as int]);
            assert(decreases_to!(*block => block.instructions));
            assert(decreases_to!(block.instructions => q));
            assert(decreases_to!(q => q[i as int]));
        }
        let ghost before = used@;
        match &block.instructions[i] {
            ReactiveInstruction::Instruction(instruction) => {
                collect_instruction_ids(&instruction.value, kind, used);
            },
            ReactiveInstruction::Scope(scope_block) => {
                proof {
                    assert(decreases_to!(q[i as int] => scope_block.instructions));
                }
                collect_ids(&scope_block.instructions, kind, used);
            },
            ReactiveInstruction::Terminal(terminal) => {
                proof {
                    assert(decreases_to!(q[i as int] => *terminal));
                }
                collect_ids_in_terminal(terminal, kind, used);
            },
        }
        proof {
            assert(used@ =~= before.union(ids_item(q[i as int], kind)));
            assert(used@ =~= old(used)@.union(ids_in(q.take(i + 1), kind)));
        }
        i = i + 1;
    }
    proof {
        assert(q.take(i as int) =~= q);
    }
}

fn collect_ids_in_terminal(terminal: &ReactiveTerminal, kind: UseKind, used: &mut FxHashSet<u32>)
    ensures
        final(used)@ == old(used)@.union(ids_terminal(*terminal, kind)),
    decreases *terminal,
{
    match terminal {
        ReactiveTerminal::If { test, consequent, alternate, .. } => {
            match kind {
                UseKind::Value => {},
                _ => add_place(used, test),
            }
            collect_ids(consequent, kind, used);
            collect_ids(alternate, kind, used);
        },
        ReactiveTerminal::Switch { test, cases, .. } => {
            match kind {
                UseKind::Value => {},
                _ => add_place(used, test),
            }
            let ghost q = cases@;
            let ghost u0 = used@;
            let mut i: usize = 0;
            proof {
                assert(q.take(0) =~= Seq::<(Option<Place>, ReactiveBlock)>::empty());
                assert(used@ =~= u0.union(ids_cases(q.take(0), kind)));
            }
            while i < cases.len()
                invariant
                    i <= q.len(),
                    q == cases@,
                    *terminal is Switch,
                    q == (*terminal)->Switch_cases@,
                    used@ == u0.union(ids_cases(q.take(i as int), kind)),
                decreases cases.len() - i,
            {
                proof {
                    assert(q.take(i + 1).drop_last() =~= q.take(i as int));
                    assert(q.take(i + 1).last() == q[i as int]);
                    assert(decreases_to!(*terminal => (*terminal)->Switch_cases));
                    assert(decreases_to!((*terminal)->Switch_cases => q));
                    assert(decreases_to!(q => q[i as int]));
                }
                collect_ids(&cases[i].1, kind, used);
                proof {
                    assert(used@ =~= u0.union(ids_cases(q.take(i + 1), kind)));
                }
                i = i + 1;
            }
            proof {
                assert(q.take(i as int) =~= q);
            }
        },
        ReactiveTerminal::For { init, test, update, body, .. } => {
            collect_ids(init, kind, used);
            collect_ids(test, kind, used);
            if let Some(u) = update {
                collect_ids(u, kind, used);
            }
            collect_ids(body, kind, used);
        },
        ReactiveTerminal::ForOf { init, test, body, .. } => {
            collect_ids(init, kind, used);
            collect_ids(test, kind, used);
            collect_ids(body, kind, used);
        },
        ReactiveTerminal::ForIn { init, test, body, .. } => {
            collect_ids(init, kind, used);
            collect_ids(test, kind, used);
            collect_ids(body, kind, used);
        },
        ReactiveTerminal::While { test, body, .. } => {
            collect_ids(test, kind, used);
            collect_ids(body, kind, used);
        },
        ReactiveTerminal::DoWhile { body, test, .. } => {
            collect_ids(test, kind, used);
            collect_ids(body, kind, used);
        },
        ReactiveTerminal::Try { block, handler, .. } => {
            collect_ids(block, kind, used);
            collect_ids(handler, kind, used);
        },
        ReactiveTerminal::Label { block, .. } => {
            collect_ids(block, kind, used);
        },
        ReactiveTerminal::Logical { right, result, .. } => {
            collect_ids(right, kind, used);
            match kind {
                UseKind::Test => {},
                _ => {
                    if let Some(r) = result {
                        add_place(used, r);
                    }
                },
            }
        },
        ReactiveTerminal::Return { value, .. } => {
            match kind {
                UseKind::Test => {},
                _ => add_place(used, value),
            }
        },
        ReactiveTerminal::Throw { value, .. } => {
            match kind {
                UseKind::Test => {},
                _ => add_place(used, value),
            }
        },
        _ => {},
    }
    proof {
        assert(used@ =~= old(used)@.union(ids_terminal(*terminal, kind)));
    }
}


// ---------------------------------------------------------------------------
// Aliases and read counts
// ---------------------------------------------------------------------------

/// For each identifier, the identifiers it is stored or loaded into, in
/// order; and for each identifier, how many instructions and terminals read
/// it (an instruction counts once however often it reads the identifier;
/// the count stops at `usize::MAX`).
pub type AliasInfo = (Map<u32, Seq<u32>>, Map<u32, usize>);

pub open spec fn push_alias(a: Map<u32, Seq<u32>>, k: u32, t: u32) -> Map<u32, Seq<u32>> {
    a.insert(k, if a.contains_key(k) { a[k].push(t) } else { seq![t] })
}

pub open spec fn count_of(c: Map<u32, usize>, k: u32) -> usize {
    if c.contains_key(k) { c[k] } else { 0 }
}

pub open spec fn bump(c: usize) -> usize {
    if c < usize::MAX { (c + 1) as usize } else { c }
}

pub open spec fn bump_one(c: Map<u32, usize>, k: u32) -> Map<u32, usize> {
    c.insert(k, bump(count_of(c, k)))
}

/// `c` with the count of each identifier of `s` increased by one.
pub open spec fn bump_all(c: Map<u32, usize>, s: Set<u32>) -> Map<u32, usize> {
    Map::new(
        |k: u32| c.contains_key(k) || s.contains(k),
        |k: u32| if s.contains(k) { bump(count_of(c, k)) } else { c[k] },
    )
}

pub open spec fn alias_instruction(st: AliasInfo, ins: Instruction) -> AliasInfo {
    let a = match ins.value {
        InstructionValue::StoreLocal { lvalue, value, .. } => push_alias(st.0, value.identifier.id.0, lvalue.identifier.id.0),
        InstructionValue::LoadLocal { place } => push_alias(st.0, place.identifier.id.0, ins.lvalue.identifier.id.0),
        _ => st.0,
    };
    (a, bump_all(st.1, read_ids(ins.value)))
}

pub open spec fn bump_place(st: AliasInfo, p: Place) -> AliasInfo {
    (st.0, bump_one(st.1, p.identifier.id.0))
}

/// The alias information after a list of instructions, in order.
pub open spec fn alias_in(q: Seq<ReactiveInstruction>, st: AliasInfo) -> AliasInfo
    decreases q,
{
    if q.len() == 0 {
        st
    } else {
        alias_item(q.last(), alias_in(q.drop_last(), st))
    }
}

pub open spec fn alias_item(i: ReactiveInstruction, st: AliasInfo) -> AliasInfo
    decreases i,
{
    match i {
        ReactiveInstruction::Instruction(ins) => alias_instruction(st, ins),
        ReactiveInstruction::Scope(sb) => alias_in(sb.instructions.instructions@, st),
        ReactiveInstruction::Terminal(t) => alias_terminal(t, st),
    }
}

pub open spec fn alias_cases(q: Seq<(Option<Place>, ReactiveBlock)>, st: AliasInfo) -> AliasInfo
    decreases q,
{
    if q.len() == 0 {
        st
    } else {
        alias_in(q.last().1.instructions@, alias_cases(q.drop_last(), st))
    }
}

/// A terminal reads its test, its returned or thrown value and its result
/// (after its right block); its blocks follow in order.
pub open spec fn alias_terminal(t: ReactiveTerminal, st: AliasInfo) -> AliasInfo
    decreases t,
{
    match t {
        ReactiveTerminal::If { test, consequent, alternate, .. } =>
            alias_in(alternate.instructions@, alias_in(consequent.instructions@, bump_place(st, test))),
        ReactiveTerminal::Switch { test, cases, .. } => alias_cases(cases@, bump_place(st, test)),
        ReactiveTerminal::Return { value, .. } => bump_place(st, value),
        ReactiveTerminal::Throw { value, .. } => bump_place(st, value),
        ReactiveTerminal::For { init, test, update, body, .. } => {
            let s2 = alias_in(test.instructions@, alias_in(init.instructions@, st));
            let s3 = match update {
                Some(u) => alias_in(u.instructions@, s2),
                None => s2,
            };
            alias_in(body.instructions@, s3)
        },
        ReactiveTerminal::ForOf { init, test, body, .. } =>
            alias_in(body.instructions@, alias_in(test.instructions@, alias_in(init.instructions@, st))),
        ReactiveTerminal::ForIn { init, test, body, .. } =>
            alias_in(body.instructions@, alias_in(test.instructions@, alias_in(init.instructions@, st))),
        ReactiveTerminal::While { test, body, .. } => alias_in(body.instructions@, alias_in(test.instructions@, st)),
        ReactiveTerminal::DoWhile { body, test, .. } => alias_in(body.instructions@, alias_in(test.instructions@, st)),
        ReactiveTerminal::Try { block, handler, .. } => alias_in(handler.instructions@, alias_in(block.instructions@, st)),
        ReactiveTerminal::Label { block, .. } => alias_in(block.instructions@, st),
        ReactiveTerminal::Logical { right, result, .. } => {
            let s2 = alias_in(right.instructions@, st);
            match result {
                Some(r) => bump_place(s2, r),
                None => s2,
            }
        },
        _ => st,
    }
}

pub open spec fn alias_map_view(m: Map<u32, Vec<u32>>) -> Map<u32, Seq<u32>> {
    m.map_values(|v: Vec<u32>| v@)
}

pub struct AliasMaps {
    pub aliases: FxHashMap<u32, Vec<u32>>,
    pub counts: FxHashMap<u32, usize>,
}

pub open spec fn alias_maps_view(m: AliasMaps) -> AliasInfo {
    (alias_map_view(m.aliases@), m.counts@)
}

fn record_alias(maps: &mut AliasMaps, k: u32, t: u32)
    ensures
        alias_maps_view(*final(maps)) == (push_alias(alias_maps_view(*old(maps)).0, k, t), alias_maps_view(*old(maps)).1),
{
    let ghost a0 = maps.aliases@;
    let mut v = match fx_map_remove(&mut maps.aliases, k) {
        Some(v) => v,
        None => Vec::new(),
    };
    v.push(t);
    fx_map_insert(&mut maps.aliases, k, v);
    proof {
        assert(alias_map_view(maps.aliases@) =~= push_alias(alias_map_view(a0), k, t));
    }
}

fn bump_count(counts: &mut FxHashMap<u32, usize>, k: u32)
    ensures
        final(counts)@ == bump_one(old(counts)@, k),
{
    let c: usize = match fx_map_get(counts, k) {
        Some(c) => *c,
        None => 0,
    };
    let n: usize = if c < usize::MAX { c + 1 } else { c };
    fx_map_insert(counts, k, n);
}

/// Count one read of each identifier an instruction value reads.
fn count_reads(value: &InstructionValue, counts: &mut FxHashMap<u32, usize>)
    ensures
        final(counts)@ == bump_all(old(counts)@, read_ids(*value)),
{
    let mut temp: FxHashSet<u32> = FxHashSet::default();
    proof {
        assert(temp@ =~= Set::<u32>::empty());
    }
    collect_read_operand_ids(value, &mut temp);
    proof {
        assert(temp@ =~= read_ids(*value));
    }
    let elems = fx_set_elements(&temp);
    let ghost c0 = counts@;
    let mut j: usize = 0;
    proof {
        assert(elems@.take(0).to_set() =~= Set::<u32>::empty());
        assert(counts@ =~= bump_all(c0, elems@.take(0).to_set()));
    }
    while j < elems.len()
        invariant
            j <= elems@.len(),
            elems@.no_duplicates(),
            counts@ == bump_all(c0, elems@.take(j as int).to_set()),
        decreases elems.len() - j,
    {
        let x = elems[j];
        let ghost s = elems@.take(j as int).to_set();
        proof {
            assert(!s.contains(x)) by {
                if s.contains(x) {
                    let m = choose|m: int| 0 <= m < j && #[trigger] elems@.take(j as int)[m] == x;
                    assert(elems@[m] == elems@[j as int]);
                }
            }
            assert(elems@.take(j + 1) =~= elems@.take(j as int).push(x));
            elems@.take(j as int).lemma_push_to_set_commute(x);
            assert(elems@.take(j + 1).to_set() =~= s.insert(x));
        }
        bump_count(counts, x);
        proof {
            assert(counts@ =~= bump_all(c0, s.insert(x)));
        }
        j = j + 1;
    }
    proof {
        assert(elems@.take(j as int) =~= elems@);
    }
}

/// Record the aliases and read counts of a block.
fn collect_alias_info(block: &ReactiveBlock, maps: &mut AliasMaps)
    ensures
        alias_maps_view(*final(maps)) == alias_in(block.instructions@, alias_maps_view(*old(maps))),
    decreases *block,
{
    let ghost q = block.instructions@;
    let ghost s0 = alias_maps_view(*maps);
    let mut i: usize = 0;
    proof {
        assert(q.take(0) =~= Seq::<ReactiveInstruction>::empty());
    }
    while i < block.instructions.len()
        invariant
            i <= q.len(),
            q == block.instructions@,
            alias_maps_view(*maps) == alias_in(q.take(i as int), s0),
        decreases block.instructions.len() - i,
    {
        proof {
            assert(q.take(i + 1).drop_last() =~= q.take(i as int));
            assert(q.take(i + 1).last() == q[i as int]);
            assert(decreases_to!(*block => block.instructions));
            assert(decreases_to!(block.instructions => q));
            assert(decreases_to!(q => q[i as int]));
        }
        let ghost prev = alias_maps_view(*maps);
        match &block.instructions[i] {
            ReactiveInstruction::Instruction(instruction) => {
                match &instruction.value {
                    InstructionValue::StoreLocal { lvalue, value, .. } => {
                        record_alias(maps, value.identifier.id.0, lvalue.identifier.id.0);
                    },
                    InstructionValue::LoadLocal { place } => {
                        record_alias(maps, place.identifier.id.0, instruction.lvalue.identifier.id.0);
                    },
                    _ => {},
                }
                let ghost mid = alias_maps_view(*maps);
                proof {
                    assert(mid.0 == alias_instruction(prev, *instruction).0);
                    assert(mid.1 == prev.1);
                }
                count_reads(&instruction.value, &mut maps.counts);
                proof {
                    assert(alias_maps_view(*maps).0 == mid.0);
                    assert(alias_maps_view(*maps) == alias_instruction(prev, *instruction));
                }
            },
            ReactiveInstruction::Scope(scope_block) => {
                proof {
                    assert(decreases_to!(q[i as int] => scope_block.instructions));
                }
                collect_alias_info(&scope_block.instructions, maps);
            },
            ReactiveInstruction::Terminal(terminal) => {
                proof {
                    assert(decreases_to!(q[i as int] => *terminal));
                }
                collect_alias_info_in_terminal(terminal, maps);
            },
        }
        proof {
            assert(alias_maps_view(*maps) == alias_item(q[i as int], prev));
        }
        i = i + 1;
    }
    proof {
        assert(q.take(i as int) =~= q);
    }
}

fn collect_alias_info_in_terminal(terminal: &ReactiveTerminal, maps: &mut AliasMaps)
    ensures
        alias_maps_view(*final(maps)) == alias_terminal(*terminal, alias_maps_view(*old(maps))),
    decreases *terminal,
{
    match terminal {
        ReactiveTerminal::If { test, consequent, alternate, .. } => {
            bump_count(&mut maps.counts, test.identifier.id.0);
            collect_alias_info(consequent, maps);
            collect_alias_info(alternate, maps);
        },
        ReactiveTerminal::Switch { test, cases, .. } => {
            bump_count(&mut maps.counts, test.identifier.id.0);
            let ghost q = cases@;
            let ghost s1 = alias_maps_view(*maps);
            let mut i: usize = 0;
            proof {
                assert(q.take(0) =~= Seq::<(Option<Place>, ReactiveBlock)>::empty());
            }
            while i < cases.len()
                invariant
                    i <= q.len(),
                    q == cases@,
                    *terminal is Switch,
                    q == (*terminal)->Switch_cases@,
                    alias_maps_view(*maps) == alias_cases(q.take(i as int), s1),
                decreases cases.len() - i,
            {
                proof {
                    assert(q.take(i + 1).drop_last() =~= q.take(i as int));
                    assert(q.take(i + 1).last() == q[i as int]);
                    assert(decreases_to!(*terminal => (*terminal)->Switch_cases));
                    assert(decreases_to!((*terminal)->Switch_cases => q));
                    assert(decreases_to!(q => q[i as int]));
                }
                collect_alias_info(&cases[i].1, maps);
                i = i + 1;
            }
            proof {
                assert(q.take(i as int) =~= q);
            }
        },
        ReactiveTerminal::Return { value, .. } => {
            bump_count(&mut maps.counts, value.identifier.id.0);
        },
        ReactiveTerminal::Throw { value, .. } => {
            bump_count(&mut maps.counts, value.identifier.id.0);
        },
        ReactiveTerminal::For { init, test, update, body, .. } => {
            collect_alias_info(init, maps);
            collect_alias_info(test, maps);
            if let Some(u) = update {
                collect_alias_info(u, maps);
            }
            collect_alias_info(body, maps);
        },
        ReactiveTerminal::ForOf { init, test, body, .. } => {
            collect_alias_info(init, maps);
            collect_alias_info(test, maps);
            collect_alias_info(body, maps);
        },
        ReactiveTerminal::ForIn { init, test, body, .. } => {
            collect_alias_info(init, maps);
            collect_alias_info(test, maps);
            collect_alias_info(body, maps);
        },
        ReactiveTerminal::While { test, body, .. } => {
            collect_alias_info(test, maps);
            collect_alias_info(body, maps);
        },
        ReactiveTerminal::DoWhile { body, test, .. } => {
            collect_alias_info(test, maps);
            collect_alias_info(body, maps);
        },
        ReactiveTerminal::Try { block, handler, .. } => {
            collect_alias_info(block, maps);
            collect_alias_info(handler, maps);
        },
        ReactiveTerminal::Label { block, .. } => {
            collect_alias_info(block, maps);
        },
        ReactiveTerminal::Logical { right, result, .. } => {
            collect_alias_info(right, maps);
            if let Some(r) = result {
                bump_count(&mut maps.counts, r.identifier.id.0);
            }
        },
        _ => {},
    }
}


// ---------------------------------------------------------------------------
// Identifiers only used as tests
// ---------------------------------------------------------------------------

/// `v` is stored or loaded only into identifiers of `s`, and read nowhere
/// else.
pub open spec fn alias_rule(s: Set<u32>, info: AliasInfo, v: u32) -> bool {
    &&& info.0.contains_key(v)
    &&& forall|j: int| 0 <= j < info.0[v].len() ==> s.contains(#[trigger] info.0[v][j])
    &&& count_of(info.1, v) == info.0[v].len()
}

pub open spec fn closed_under_aliases(s: Set<u32>, info: AliasInfo) -> bool {
    forall|v: u32| #[trigger] alias_rule(s, info, v) ==> s.contains(v)
}

/// `s` is the least set of identifiers that contains `base` and every
/// identifier stored or loaded only into identifiers of the set.
pub open spec fn least_test_only(s: Set<u32>, base: Set<u32>, info: AliasInfo) -> bool {
    &&& base.subset_of(s)
    &&& closed_under_aliases(s, info)
    &&& forall|c: Set<u32>| base.subset_of(c) && #[trigger] closed_under_aliases(c, info) ==> s.subset_of(c)
}

/// The number of entries of `q` that are not in `s`.
pub open spec fn count_out(q: Seq<u32>, s: Set<u32>) -> nat
    decreases q.len(),
{
    if q.len() == 0 {
        0
    } else {
        count_out(q.drop_last(), s) + if s.contains(q.last()) { 0nat } else { 1nat }
    }
}

proof fn lemma_count_out_mono(q: Seq<u32>, s1: Set<u32>, s2: Set<u32>)
    requires
        s1.subset_of(s2),
    ensures
        count_out(q, s2) <= count_out(q, s1),
    decreases q.len(),
{
    if q.len() > 0 {
        lemma_count_out_mono(q.drop_last(), s1, s2);
    }
}

proof fn lemma_count_out_insert(q: Seq<u32>, s: Set<u32>, x: u32)
    requires
        q.contains(x),
        !s.contains(x),
    ensures
        count_out(q, s.insert(x)) < count_out(q, s),
    decreases q.len(),
{
    let l = q.drop_last();
    lemma_count_out_mono(l, s, s.insert(x));
    if q.last() != x {
        let j = choose|j: int| 0 <= j < q.len() && q[j] == x;
        assert(j < q.len() - 1);
        assert(l[j] == x);
        lemma_count_out_insert(l, s, x);
    }
}

/// Are all the identifiers of `targets` in `s`?
fn all_in(targets: &Vec<u32>, s: &FxHashSet<u32>) -> (b: bool)
    ensures
        b == forall|j: int| 0 <= j < targets@.len() ==> s@.contains(#[trigger] targets@[j]),
{
    let mut j: usize = 0;
    while j < targets.len()
        invariant
            j <= targets@.len(),
            forall|m: int| 0 <= m < j ==> s@.contains(#[trigger] targets@[m]),
        decreases targets.len() - j,
    {
        if !fx_set_contains(s, targets[j]) {
            return false;
        }
        j = j + 1;
    }
    true
}

/// Extend the identifiers only used as tests with those stored or loaded
/// only into them, until nothing changes.
fn propagate_test_only(test_only: &mut FxHashSet<u32>, maps: &AliasMaps)
    ensures
        least_test_only(final(test_only)@, old(test_only)@, alias_maps_view(*maps)),
{
    let ghost info = alias_maps_view(*maps);
    let ghost base = test_only@;
    let keys = fx_map_keys(&maps.aliases);
    proof {
        assert forall|c: Set<u32>| base.subset_of(c) && #[trigger] closed_under_aliases(c, info) implies test_only@.subset_of(c) by {}
    }
    loop
        invariant
            info == alias_maps_view(*maps),
            keys@.to_set() == maps.aliases@.dom(),
            base.subset_of(test_only@),
            forall|c: Set<u32>| base.subset_of(c) && #[trigger] closed_under_aliases(c, info) ==> test_only@.subset_of(c),
        ensures
            least_test_only(test_only@, base, info),
        decreases count_out(keys@, test_only@),
    {
        let ghost start = test_only@;
        let mut changed = false;
        let mut i: usize = 0;
        while i < keys.len()
            invariant
                i <= keys@.len(),
                info == alias_maps_view(*maps),
                keys@.to_set() == maps.aliases@.dom(),
                base.subset_of(test_only@),
                start.subset_of(test_only@),
                forall|c: Set<u32>| base.subset_of(c) && #[trigger] closed_under_aliases(c, info) ==> test_only@.subset_of(c),
                !changed ==> test_only@ == start,
                changed ==> count_out(keys@, test_only@) < count_out(keys@, start),
                !changed ==> forall|j: int| 0 <= j < i ==> start.contains(#[trigger] keys@[j]) || !alias_rule(start, info, keys@[j]),
            decreases keys.len() - i,
        {
            let v = keys[i];
            let ghost before = test_only@;
            if !fx_set_contains(test_only, v) {
                proof {
                    assert(keys@.to_set().contains(v)) by {
                        assert(keys@.contains(v)) by {
                            assert(keys@[i as int] == v);
                        }
                    }
                }
                match fx_map_get(&maps.aliases, v) {
                    Some(targets) => {
                        let store_count = targets.len();
                        let total: usize = match fx_map_get(&maps.counts, v) {
                            Some(c) => *c,
                            None => 0,
                        };
                        let all = all_in(targets, test_only);
                        proof {
                            assert(info.0[v] == targets@);
                            assert(alias_rule(before, info, v) == (all && total == store_count));
                        }
                        if all && total == store_count {
                            fx_set_insert(test_only, v);
                            changed = true;
                            proof {
                                assert forall|c: Set<u32>| base.subset_of(c) && #[trigger] closed_under_aliases(c, info) implies test_only@.subset_of(c) by {
                                    assert(before.subset_of(c));
                                    assert(alias_rule(c, info, v));
                                }
                                assert(keys@.contains(v)) by {
                                    assert(keys@[i as int] == v);
                                }
                                lemma_count_out_insert(keys@, before, v);
                                lemma_count_out_mono(keys@, start, before);
                            }
                        }
                    },
                    None => {},
                }
            }
            i = i + 1;
        }
        if !changed {
            proof {
                assert forall|v: u32| #[trigger] alias_rule(test_only@, info, v) implies test_only@.contains(v) by {
                    assert(maps.aliases@.dom().contains(v));
                    assert(keys@.to_set().contains(v));
                    let j = choose|j: int| 0 <= j < keys@.len() && keys@[j] == v;
                    assert(start.contains(keys@[j]) || !alias_rule(start, info, keys@[j]));
                }
            }
            break;
        }
    }
}

// ---------------------------------------------------------------------------
// Pruning
// ---------------------------------------------------------------------------

pub open spec fn escapes(id: u32, used: Set<u32>, test_only: Set<u32>) -> bool {
    used.contains(id) && !test_only.contains(id)
}

/// Every declaration of the scope is only used as a test (and there is one).
pub open spec fn only_tested(s: ReactiveScope, test_only: Set<u32>) -> bool {
    &&& s.declarations@.len() > 0
    &&& forall|j: int| 0 <= j < s.declarations@.len() ==> test_only.contains(#[trigger] s.declarations@[j].0.0)
}

/// A scope stays when a declaration or reassigned identifier escapes, when
/// it declares and reassigns nothing, when it allocates and not everything
/// it declares is only tested, or when it returns early.
pub open spec fn keeps_escaping_scope(s: ReactiveScope, used: Set<u32>, test_only: Set<u32>) -> bool {
    ||| exists|j: int| 0 <= j < s.declarations@.len() && escapes(#[trigger] s.declarations@[j].0.0, used, test_only)
    ||| exists|j: int| 0 <= j < s.reassignments@.len() && escapes(#[trigger] s.reassignments@[j].id.0, used, test_only)
    ||| (s.declarations@.len() == 0 && s.reassignments@.len() == 0)
    ||| (s.is_allocating && !only_tested(s, test_only))
    ||| s.early_return_value is Some
}

pub open spec fn escaping_keep(used: Set<u32>, test_only: Set<u32>) -> spec_fn(ReactiveScope) -> bool {
    |s: ReactiveScope| keeps_escaping_scope(s, used, test_only)
}

fn declaration_escapes(s: &ReactiveScope, used: &FxHashSet<u32>, test_only: &FxHashSet<u32>) -> (b: bool)
    ensures
        b == exists|j: int| 0 <= j < s.declarations@.len() && escapes(#[trigger] s.declarations@[j].0.0, used@, test_only@),
{
    let mut j: usize = 0;
    while j < s.declarations.len()
        invariant
            j <= s.declarations@.len(),
            forall|m: int| 0 <= m < j ==> !escapes(#[trigger] s.declarations@[m].0.0, used@, test_only@),
        decreases s.declarations.len() - j,
    {
        let id = s.declarations[j].0.0;
        if fx_set_contains(used, id) && !fx_set_contains(test_only, id) {
            return true;
        }
        j = j + 1;
    }
    false
}

fn reassignment_escapes(s: &ReactiveScope, used: &FxHashSet<u32>, test_only: &FxHashSet<u32>) -> (b: bool)
    ensures
        b == exists|j: int| 0 <= j < s.reassignments@.len() && escapes(#[trigger] s.reassignments@[j].id.0, used@, test_only@),
{
    let mut j: usize = 0;
    while j < s.reassignments.len()
        invariant
            j <= s.reassignments@.len(),
            forall|m: int| 0 <= m < j ==> !escapes(#[trigger] s.reassignments@[m].id.0, used@, test_only@),
        decreases s.reassignments.len() - j,
    {
        let id = s.reassignments[j].id.0;
        if fx_set_contains(used, id) && !fx_set_contains(test_only, id) {
            return true;
        }
        j = j + 1;
    }
    false
}

fn all_declarations_only_tested(s: &ReactiveScope, test_only: &FxHashSet<u32>) -> (b: bool)
    ensures
        b == only_tested(*s, test_only@),
{
    if s.declarations.len() == 0 {
        return false;
    }
    let mut j: usize = 0;
    while j < s.declarations.len()
        invariant
            j <= s.declarations@.len(),
            s.declarations@.len() > 0,
            forall|m: int| 0 <= m < j ==> test_only@.contains(#[trigger] s.declarations@[m].0.0),
        decreases s.declarations.len() - j,
    {
        if !fx_set_contains(test_only, s.declarations[j].0.0) {
            return false;
        }
        j = j + 1;
    }
    true
}

fn prune_scopes_in_block(block: &mut ReactiveBlock, used: &FxHashSet<u32>, test_only: &FxHashSet<u32>)
    ensures
        scopes_pruned_block(*final(block), *old(block), escaping_keep(used@, test_only@)),
    decreases *old(block),
{
    let ghost o = old(block).instructions@;
    let ghost r = escaping_keep(used@, test_only@);
    let mut rest: Vec<ReactiveInstruction> = Vec::new();
    std::mem::swap(&mut rest, &mut block.instructions);
    let mut out: Vec<ReactiveInstruction> = Vec::new();
    let ghost mut k: int = 0;
    proof {
        assert(o.skip(0) =~= o);
        assert(o.take(0) =~= Seq::<ReactiveInstruction>::empty());
        assert(out@ =~= Seq::<ReactiveInstruction>::empty());
    }
    while rest.len() > 0
        invariant
            0 <= k <= o.len(),
            o == old(block).instructions@,
            r == escaping_keep(used@, test_only@),
            rest@ == o.skip(k),
            scopes_pruned(out@, o.take(k), r),
        decreases rest.len(),
    {
        proof {
            assert(o.skip(k)[0] == o[k]);
            assert(decreases_to!(*old(block) => old(block).instructions));
            assert(decreases_to!(old(block).instructions => o));
            assert(decreases_to!(o => o[k]));
        }
        let item = rest.remove(0);
        proof {
            assert(item == o[k]);
        }
        let ghost outb = out@;
        match item {
            ReactiveInstruction::Scope(mut scope_block) => {
                let ghost osb = scope_block;
                proof {
                    assert(decreases_to!(o[k] => osb.instructions));
                }
                let any_decl_used = declaration_escapes(&scope_block.scope, used, test_only);
                let any_reassign_used = reassignment_escapes(&scope_block.scope, used, test_only);
                prune_scopes_in_block(&mut scope_block.instructions, used, test_only);
                let all_decls_test_only = all_declarations_only_tested(&scope_block.scope, test_only);
                proof {
                    assert(r(scope_block.scope) == keeps_escaping_scope(scope_block.scope, used@, test_only@));
                }
                if any_decl_used || any_reassign_used
                    || (scope_block.scope.declarations.len() == 0 && scope_block.scope.reassignments.len() == 0)
                    || (scope_block.scope.is_allocating && !all_decls_test_only)
                    || scope_block.scope.early_return_value.is_some()
                {
                    let ghost nsb = scope_block;
                    out.push(ReactiveInstruction::Scope(scope_block));
                    proof {
                        let added = seq![ReactiveInstruction::Scope(nsb)];
                        assert(out@ =~= outb + added);
                        lemma_scopes_pruned_len(nsb.instructions.instructions@, osb.instructions.instructions@, r);
                        lemma_scopes_step(outb, added, o, k, r);
                    }
                } else {
                    let ghost inner = scope_block.instructions.instructions@;
                    let mut body = scope_block.instructions.instructions;
                    let ghost mut j: int = 0;
                    proof {
                        assert(body@.skip(0) =~= body@);
                        assert(out@.take(outb.len() as int) =~= outb);
                        assert(out@.skip(outb.len() as int) =~= inner.take(0));
                    }
                    while body.len() > 0
                        invariant
                            0 <= j <= inner.len(),
                            body@ == inner.skip(j),
                            out@.len() == outb.len() + j,
                            out@.take(outb.len() as int) == outb,
                            out@.skip(outb.len() as int) == inner.take(j),
                        decreases body.len(),
                    {
                        let x = body.remove(0);
                        proof {
                            assert(inner.skip(j)[0] == x);
                        }
                        let ghost prev = out@;
                        out.push(x);
                        proof {
                            assert(out@.take(outb.len() as int) =~= prev.take(outb.len() as int));
                            assert(out@.skip(outb.len() as int) =~= inner.take(j + 1));
                            j = j + 1;
                            assert(body@ =~= inner.skip(j));
                        }
                    }
                    proof {
                        assert(inner.take(j) =~= inner);
                        let added = out@.skip(outb.len() as int);
                        assert(out@ =~= outb + added);
                        lemma_scopes_pruned_len(inner, osb.instructions.instructions@, r);
                        lemma_scopes_step(outb, added, o, k, r);
                    }
                }
            },
            ReactiveInstruction::Terminal(mut terminal) => {
                let ghost ot = terminal;
                proof {
                    assert(decreases_to!(o[k] => ot));
                }
                prune_scopes_in_terminal(&mut terminal, used, test_only);
                let ghost nt = terminal;
                out.push(ReactiveInstruction::Terminal(terminal));
                proof {
                    let added = seq![ReactiveInstruction::Terminal(nt)];
                    assert(out@ =~= outb + added);
                    lemma_scopes_step(outb, added, o, k, r);
                }
            },
            ReactiveInstruction::Instruction(i) => {
                out.push(ReactiveInstruction::Instruction(i));
                proof {
                    assert(out@ =~= outb + seq![o[k]]);
                    lemma_scopes_step(outb, seq![o[k]], o, k, r);
                }
            },
        }
        proof {
            k = k + 1;
            assert(rest@ =~= o.skip(k));
        }
    }
    proof {
        assert(o.take(k) =~= o);
    }
    block.instructions = out;
}

fn prune_scopes_in_terminal(terminal: &mut ReactiveTerminal, used: &FxHashSet<u32>, test_only: &FxHashSet<u32>)
    ensures
        scopes_pruned_terminal(*final(terminal), *old(terminal), escaping_keep(used@, test_only@)),
    decreases *old(terminal),
{
    match terminal {
        ReactiveTerminal::If { consequent, alternate, .. } => {
            prune_scopes_in_block(consequent, used, test_only);
            prune_scopes_in_block(alternate, used, test_only);
        },
        ReactiveTerminal::Switch { cases, .. } => {
            let ghost oc = old(terminal)->Switch_cases@;
            proof {
                assert(cases@.take(0) =~= Seq::<(Option<Place>, ReactiveBlock)>::empty());
                assert(oc.take(0) =~= Seq::<(Option<Place>, ReactiveBlock)>::empty());
            }
            let mut i: usize = 0;
            while i < cases.len()
                invariant
                    i <= cases@.len(),
                    cases@.len() == oc.len(),
                    *old(terminal) is Switch,
                    oc == old(terminal)->Switch_cases@,
                    scopes_pruned_cases(cases@.take(i as int), oc.take(i as int), escaping_keep(used@, test_only@)),
                    forall|m: int| i <= m < oc.len() ==> #[trigger] cases@[m] == oc[m],
                decreases cases.len() - i,
            {
                proof {
                    assert(decreases_to!(*old(terminal) => old(terminal)->Switch_cases));
                    assert(decreases_to!(old(terminal)->Switch_cases => oc));
                    assert(decreases_to!(oc => oc[i as int]));
                }
                let ghost prevc = cases@;
                prune_scopes_in_block(&mut cases[i].1, used, test_only);
                proof {
                    let n = cases@;
                    assert(n.take(i as int) =~= prevc.take(i as int));
                    assert(n.take(i + 1).drop_last() =~= n.take(i as int));
                    assert(oc.take(i + 1).drop_last() =~= oc.take(i as int));
                    assert(n.take(i + 1).last() == n[i as int]);
                    assert(oc.take(i + 1).last() == oc[i as int]);
                }
                i = i + 1;
            }
            proof {
                assert(cases@.take(i as int) =~= cases@);
                assert(oc.take(i as int) =~= oc);
            }
        },
        ReactiveTerminal::For { init, test, update, body, .. } => {
            prune_scopes_in_block(init, used, test_only);
            prune_scopes_in_block(test, used, test_only);
            if let Some(u) = update {
                prune_scopes_in_block(u, used, test_only);
            }
            prune_scopes_in_block(body, used, test_only);
        },
        ReactiveTerminal::ForOf { init, test, body, .. } => {
            prune_scopes_in_block(init, used, test_only);
            prune_scopes_in_block(test, used, test_only);
            prune_scopes_in_block(body, used, test_only);
        },
        ReactiveTerminal::ForIn { init, test, body, .. } => {
            prune_scopes_in_block(init, used, test_only);
            prune_scopes_in_block(test, used, test_only);
            prune_scopes_in_block(body, used, test_only);
        },
        ReactiveTerminal::While { test, body, .. } => {
            prune_scopes_in_block(test, used, test_only);
            prune_scopes_in_block(body, used, test_only);
        },
        ReactiveTerminal::DoWhile { body, test, .. } => {
            prune_scopes_in_block(test, used, test_only);
            prune_scopes_in_block(body, used, test_only);
        },
        ReactiveTerminal::Try { block, handler, .. } => {
            prune_scopes_in_block(block, used, test_only);
            prune_scopes_in_block(handler, used, test_only);
        },
        ReactiveTerminal::Label { block, .. } => {
            prune_scopes_in_block(block, used, test_only);
        },
        ReactiveTerminal::Logical { right, .. } => {
            prune_scopes_in_block(right, used, test_only);
        },
        _ => {},
    }
}

/// The alias information of a function body.
pub open spec fn body_aliases(b: ReactiveBlock) -> AliasInfo {
    alias_in(b.instructions@, (Map::empty(), Map::empty()))
}

/// The identifiers used as tests of `if` and `switch` and never read as a
/// value.
pub open spec fn tested_not_read(b: ReactiveBlock) -> Set<u32> {
    ids_block(b, UseKind::Test).difference(ids_block(b, UseKind::Value))
}

/// Dissolve the scopes whose outputs do not escape (see the module
/// documentation): the used identifiers are `ids_block(body, Any)`, the
/// identifiers only used as tests are the least set containing
/// `tested_not_read(body)` closed under aliases; the result is as
/// `scopes_pruned_block` states, and the function's other fields are
/// unchanged.
pub fn prune_non_escaping_scopes(rf: &mut ReactiveFunction)
    ensures
        final(rf).loc == old(rf).loc,
        final(rf).id == old(rf).id,
        final(rf).params == old(rf).params,
        final(rf).directives == old(rf).directives,
        final(rf).is_arrow == old(rf).is_arrow,
        final(rf).is_async == old(rf).is_async,
        final(rf).is_generator == old(rf).is_generator,
        exists|test_only: Set<u32>|
            least_test_only(test_only, tested_not_read(old(rf).body), body_aliases(old(rf).body))
                && scopes_pruned_block(final(rf).body, old(rf).body, escaping_keep(ids_block(old(rf).body, UseKind::Any), test_only)),
{
    let mut used_ids: FxHashSet<u32> = FxHashSet::default();
    proof {
        assert(used_ids@ =~= Set::<u32>::empty());
    }
    collect_ids(&rf.body, UseKind::Any, &mut used_ids);
    proof {
        assert(used_ids@ =~= ids_block(rf.body, UseKind::Any));
    }
    let mut test_ids: FxHashSet<u32> = FxHashSet::default();
    proof {
        assert(test_ids@ =~= Set::<u32>::empty());
    }
    collect_ids(&rf.body, UseKind::Test, &mut test_ids);
    proof {
        assert(test_ids@ =~= ids_block(rf.body, UseKind::Test));
    }
    let mut value_ids: FxHashSet<u32> = FxHashSet::default();
    proof {
        assert(value_ids@ =~= Set::<u32>::empty());
    }
    collect_ids(&rf.body, UseKind::Value, &mut value_ids);
    proof {
        assert(value_ids@ =~= ids_block(rf.body, UseKind::Value));
    }
    let tested = fx_set_elements(&test_ids);
    let mut test_only: FxHashSet<u32> = FxHashSet::default();
    let ghost base = tested_not_read(rf.body);
    proof {
        assert(test_only@ =~= Set::<u32>::empty());
    }
    let mut j: usize = 0;
    while j < tested.len()
        invariant
            j <= tested@.len(),
            tested@.to_set() == test_ids@,
            test_ids@ == ids_block(rf.body, UseKind::Test),
            value_ids@ == ids_block(rf.body, UseKind::Value),
            base == tested_not_read(rf.body),
            test_only@ == tested@.take(j as int).to_set().difference(value_ids@),
        decreases tested.len() - j,
    {
        let x = tested[j];
        proof {
            assert(tested@.take(j + 1) =~= tested@.take(j as int).push(x));
            tested@.take(j as int).lemma_push_to_set_commute(x);
        }
        if !fx_set_contains(&value_ids, x) {
            fx_set_insert(&mut test_only, x);
        }
        proof {
            assert(test_only@ =~= tested@.take(j + 1).to_set().difference(value_ids@));
        }
        j = j + 1;
    }
    proof {
        assert(tested@.take(j as int) =~= tested@);
        assert(test_only@ =~= base);
    }
    let mut maps = AliasMaps { aliases: FxHashMap::default(), counts: FxHashMap::default() };
    proof {
        assert(alias_maps_view(maps) =~= (Map::<u32, Seq<u32>>::empty(), Map::<u32, usize>::empty())) by {
            assert(alias_map_view(maps.aliases@) =~= Map::<u32, Seq<u32>>::empty());
        }
    }
    collect_alias_info(&rf.body, &mut maps);
    propagate_test_only(&mut test_only, &maps);
    let ghost to = test_only@;
    let ghost ob = rf.body;
    prune_scopes_in_block(&mut rf.body, &used_ids, &test_only);
    proof {
        assert(least_test_only(to, tested_not_read(ob), body_aliases(ob)));
        assert(scopes_pruned_block(rf.body, ob, escaping_keep(ids_block(ob, UseKind::Any), to)));
    }
}

// ---------------------------------------------------------------------------
// What the used sets cover
// ---------------------------------------------------------------------------

proof fn lemma_ids_in_covers_item(q: Seq<ReactiveInstruction>, i: int, kind: UseKind)
    requires
        0 <= i < q.len(),
    ensures
        ids_item(q[i], kind).subset_of(ids_in(q, kind)),
    decreases q.len(),
{
    if i < q.len() - 1 {
        lemma_ids_in_covers_item(q.drop_last(), i, kind);
        assert(q.drop_last()[i] == q[i]);
    }
}

proof fn lemma_ids_cases_covers_case(q: Seq<(Option<Place>, ReactiveBlock)>, j: int, kind: UseKind)
    requires
        0 <= j < q.len(),
    ensures
        ids_block(q[j].1, kind).subset_of(ids_cases(q, kind)),
    decreases q.len(),
{
    if j < q.len() - 1 {
        lemma_ids_cases_covers_case(q.drop_last(), j, kind);
        assert(q.drop_last()[j] == q[j]);
    }
}

/// Each instruction of a list, at any position, contributes all the
/// identifiers it uses to the list's used set.
pub proof fn lemma_used_set_covers_every_instruction(b: ReactiveBlock, i: int, kind: UseKind)
    requires
        0 <= i < b.instructions@.len(),
    ensures
        ids_item(b.instructions@[i], kind).subset_of(ids_block(b, kind)),
{
    lemma_ids_in_covers_item(b.instructions@, i, kind);
}

/// A terminal's used set covers the identifiers it uses itself and those
/// of every block it holds: both branches of an `if`, every case of a
/// `switch`, the init, test, update and body of a loop, the block and the
/// handler of a `try`, the block of a label and the right side of a logical
/// expression.
pub proof fn lemma_used_set_covers_every_branch(t: ReactiveTerminal, kind: UseKind)
    ensures
        terminal_own_ids(t, kind).subset_of(ids_terminal(t, kind)),
        match t {
            ReactiveTerminal::If { consequent, alternate, .. } => ids_block(consequent, kind).subset_of(
                ids_terminal(t, kind),
            ) && ids_block(alternate, kind).subset_of(ids_terminal(t, kind)),
            ReactiveTerminal::Switch { cases, .. } => forall|j: int|
                0 <= j < cases@.len() ==> ids_block((#[trigger] cases@[j]).1, kind).subset_of(ids_terminal(t, kind)),
            ReactiveTerminal::For { init, test, update, body, .. } => {
                &&& ids_block(init, kind).subset_of(ids_terminal(t, kind))
                &&& ids_block(test, kind).subset_of(ids_terminal(t, kind))
                &&& ids_block(body, kind).subset_of(ids_terminal(t, kind))
                &&& (update matches Some(u) ==> ids_block(u, kind).subset_of(ids_terminal(t, kind)))
            },
            ReactiveTerminal::ForOf { init, test, body, .. } | ReactiveTerminal::ForIn { init, test, body, .. } => {
                &&& ids_block(init, kind).subset_of(ids_terminal(t, kind))
                &&& ids_block(test, kind).subset_of(ids_terminal(t, kind))
                &&& ids_block(body, kind).subset_of(ids_terminal(t, kind))
            },
            ReactiveTerminal::While { test, body, .. } | ReactiveTerminal::DoWhile { body, test, .. } => ids_block(
                test,
                kind,
            ).subset_of(ids_terminal(t, kind)) && ids_block(body, kind).subset_of(ids_terminal(t, kind)),
            ReactiveTerminal::Try { block, handler, .. } => ids_block(block, kind).subset_of(ids_terminal(t, kind))
                && ids_block(handler, kind).subset_of(ids_terminal(t, kind)),
            ReactiveTerminal::Label { block, .. } => ids_block(block, kind).subset_of(ids_terminal(t, kind)),
            ReactiveTerminal::Logical { right, .. } => ids_block(right, kind).subset_of(ids_terminal(t, kind)),
            _ => true,
        },
{
    match t {
        ReactiveTerminal::Switch { cases, .. } => {
            assert forall|j: int| 0 <= j < cases@.len() implies ids_block((#[trigger] cases@[j]).1, kind).subset_of(
                ids_terminal(t, kind),
            ) by {
                lemma_ids_cases_covers_case(cases@, j, kind);
            }
        },
        _ => {},
    }
}

proof fn lemma_value_ids_block(b: ReactiveBlock)
    ensures
        ids_block(b, UseKind::Value).subset_of(ids_block(b, UseKind::Any)),
    decreases b,
{
    lemma_value_ids_in(b.instructions@);
}

proof fn lemma_value_ids_in(q: Seq<ReactiveInstruction>)
    ensures
        ids_in(q, UseKind::Value).subset_of(ids_in(q, UseKind::Any)),
    decreases q,
{
    if q.len() > 0 {
        lemma_value_ids_in(q.drop_last());
        lemma_value_ids_item(q.last());
    }
}

proof fn lemma_value_ids_item(i: ReactiveInstruction)
    ensures
        ids_item(i, UseKind::Value).subset_of(ids_item(i, UseKind::Any)),
    decreases i,
{
    match i {
        ReactiveInstruction::Instruction(ins) => {},
        ReactiveInstruction::Scope(sb) => lemma_value_ids_block(sb.instructions),
        ReactiveInstruction::Terminal(t) => lemma_value_ids_terminal(t),
    }
}

proof fn lemma_value_ids_cases(q: Seq<(Option<Place>, ReactiveBlock)>)
    ensures
        ids_cases(q, UseKind::Value).subset_of(ids_cases(q, UseKind::Any)),
    decreases q,
{
    if q.len() > 0 {
        lemma_value_ids_cases(q.drop_last());
        lemma_value_ids_block(q.last().1);
    }
}

proof fn lemma_value_ids_terminal(t: ReactiveTerminal)
    ensures
        ids_terminal(t, UseKind::Value).subset_of(ids_terminal(t, UseKind::Any)),
    decreases t,
{
    match t {
        ReactiveTerminal::If { consequent, alternate, .. } => {
            lemma_value_ids_block(consequent);
            lemma_value_ids_block(alternate);
        },
        ReactiveTerminal::Switch { cases, .. } => lemma_value_ids_cases(cases@),
        ReactiveTerminal::For { init, test, update, body, .. } => {
            lemma_value_ids_block(init);
            lemma_value_ids_block(test);
            lemma_value_ids_block(body);
            match update {
                Some(u) => lemma_value_ids_block(u),
                None => {},
            }
        },
        ReactiveTerminal::ForOf { init, test, body, .. } => {
            lemma_value_ids_block(init);
            lemma_value_ids_block(test);
            lemma_value_ids_block(body);
        },
        ReactiveTerminal::ForIn { init, test, body, .. } => {
            lemma_value_ids_block(init);
            lemma_value_ids_block(test);
            lemma_value_ids_block(body);
        },
        ReactiveTerminal::While { test, body, .. } => {
            lemma_value_ids_block(test);
            lemma_value_ids_block(body);
        },
        ReactiveTerminal::DoWhile { body, test, .. } => {
            lemma_value_ids_block(test);
            lemma_value_ids_block(body);
        },
        ReactiveTerminal::Try { block, handler, .. } => {
            lemma_value_ids_block(block);
            lemma_value_ids_block(handler);
        },
        ReactiveTerminal::Label { block, .. } => lemma_value_ids_block(block),
        ReactiveTerminal::Logical { right, .. } => lemma_value_ids_block(right),
        _ => {},
    }
}

/// An identifier read as a value in either branch of an `if` of the body
/// escapes: it is in the set of used identifiers that the pass computes
/// (`ids_block(body, Any)`) and not among those only used as tests
/// (`tested_not_read(body)`), and a scope that declares it is kept under
/// any set of test-only identifiers that leaves it out.
pub proof fn lemma_value_read_in_branch_keeps_scope(
    body: ReactiveBlock,
    i: int,
    d: u32,
    s: ReactiveScope,
    j: int,
    test_only: Set<u32>,
)
    requires
        0 <= i < body.instructions@.len(),
        body.instructions@[i] is Terminal,
        body.instructions@[i]->Terminal_0 is If,
        ids_block(body.instructions@[i]->Terminal_0->If_consequent, UseKind::Value).contains(d)
            || ids_block(body.instructions@[i]->Terminal_0->If_alternate, UseKind::Value).contains(d),
        0 <= j < s.declarations@.len(),
        s.declarations@[j].0.0 == d,
        !test_only.contains(d),
    ensures
        ids_block(body, UseKind::Any).contains(d),
        ids_block(body, UseKind::Value).contains(d),
        !tested_not_read(body).contains(d),
        keeps_escaping_scope(s, ids_block(body, UseKind::Any), test_only),
{
    let t = body.instructions@[i]->Terminal_0;
    lemma_used_set_covers_every_branch(t, UseKind::Value);
    lemma_used_set_covers_every_instruction(body, i, UseKind::Value);
    lemma_value_ids_block(body);
    assert(escapes(s.declarations@[j].0.0, ids_block(body, UseKind::Any), test_only));
}

} // verus!

