//! Merge consecutive reactive scopes that always invalidate together: a
//! scope is absorbed into an earlier one when both have the same
//! dependencies, or when it only depends on always-invalidating outputs of
//! the earlier one, and the instructions between them are simple and their
//! results are not used after the merged scope. Nested scopes with the same
//! dependencies as their parent are flattened into it first.

use vstd::prelude::*;
use rustc_hash::{FxHashMap, FxHashSet};
use crate::fxhash::{fx_map_get, fx_map_insert, fx_set_contains, fx_set_elements, fx_set_insert};
use crate::hir::types::{
    ArrayElement, DependencyPathEntry, IdentifierId, Instruction, InstructionId, InstructionKind, MutableRange,
    InstructionValue, JsxAttribute, ObjectProperty, ObjectPropertyKey, Place, ReactiveBlock,
    ReactiveFunction, ReactiveInstruction, ReactiveScope, ReactiveScopeBlock,
    ReactiveScopeDependency, ReactiveTerminal, ScopeDeclaration, ScopeId, Type,
};
use crate::reactive_scopes::rename_variables::{
    attribute_read_places, element_read_places, property_read_places, read_places,
};
use crate::reactive_scopes::reactive_tree::same_terminal_fields;
use crate::reactive_scopes::scope_dependency_utils::{paths_equal, same_path};

verus! {

// ---------------------------------------------------------------------------
// Last uses
// ---------------------------------------------------------------------------

/// The last instruction at which each identifier (first map) and each
/// declaration (second map) is read; terminals read at `u32::MAX`.
pub type LastUses = (Map<u32, u32>, Map<u32, u32>);

/// `m` with `k` read at `at`: the later of the two reads.
pub open spec fn record(m: Map<u32, u32>, k: u32, at: u32) -> Map<u32, u32> {
    if m.contains_key(k) {
        m.insert(k, if m[k] >= at { m[k] } else { at })
    } else {
        m.insert(k, at)
    }
}

pub open spec fn record_place(s: LastUses, p: Place, at: u32) -> LastUses {
    (
        record(s.0, p.identifier.id.0, at),
        match p.identifier.declaration_id {
            Some(d) => record(s.1, d.0, at),
            None => s.1,
        },
    )
}

pub open spec fn record_places(s: LastUses, q: Seq<Place>, at: u32) -> LastUses
    decreases q.len(),
{
    if q.len() == 0 {
        s
    } else {
        record_place(record_places(s, q.drop_last(), at), q.last(), at)
    }
}

pub open spec fn opt_record(s: LastUses, p: Option<Place>, at: u32) -> LastUses {
    match p {
        Some(x) => record_place(s, x, at),
        None => s,
    }
}

/// The last uses after a list of instructions, in order.
pub open spec fn last_uses(q: Seq<ReactiveInstruction>, s: LastUses) -> LastUses
    decreases q,
{
    if q.len() == 0 {
        s
    } else {
        last_uses_item(q.last(), last_uses(q.drop_last(), s))
    }
}

pub open spec fn last_uses_item(i: ReactiveInstruction, s: LastUses) -> LastUses
    decreases i,
{
    match i {
        ReactiveInstruction::Instruction(ins) => record_places(s, read_places(ins.value), ins.id.0),
        ReactiveInstruction::Scope(sb) => last_uses(sb.instructions.instructions@, s),
        ReactiveInstruction::Terminal(t) => last_uses_terminal(t, s),
    }
}

pub open spec fn last_uses_cases(q: Seq<(Option<Place>, ReactiveBlock)>, s: LastUses) -> LastUses
    decreases q,
{
    if q.len() == 0 {
        s
    } else {
        last_uses(q.last().1.instructions@, opt_record(last_uses_cases(q.drop_last(), s), q.last().0, u32::MAX))
    }
}

/// The last uses after a terminal: its tests, values and results read at
/// `u32::MAX`, its blocks in order.
pub open spec fn last_uses_terminal(t: ReactiveTerminal, s: LastUses) -> LastUses
    decreases t,
{
    match t {
        ReactiveTerminal::If { test, consequent, alternate, .. } =>
            last_uses(alternate.instructions@, last_uses(consequent.instructions@, record_place(s, test, u32::MAX))),
        ReactiveTerminal::For { init, test, update, body, .. } => {
            let s2 = last_uses(test.instructions@, last_uses(init.instructions@, s));
            let s3 = match update {
                Some(u) => last_uses(u.instructions@, s2),
                None => s2,
            };
            last_uses(body.instructions@, s3)
        },
        ReactiveTerminal::ForOf { init, test, body, .. } =>
            last_uses(body.instructions@, last_uses(test.instructions@, last_uses(init.instructions@, s))),
        ReactiveTerminal::ForIn { init, test, body, .. } =>
            last_uses(body.instructions@, last_uses(test.instructions@, last_uses(init.instructions@, s))),
        ReactiveTerminal::While { test, body, .. } =>
            last_uses(body.instructions@, last_uses(test.instructions@, s)),
        ReactiveTerminal::DoWhile { body, test, .. } =>
            last_uses(body.instructions@, last_uses(test.instructions@, s)),
        ReactiveTerminal::Switch { test, cases, .. } => last_uses_cases(cases@, record_place(s, test, u32::MAX)),
        ReactiveTerminal::Try { block, handler, .. } =>
            last_uses(handler.instructions@, last_uses(block.instructions@, s)),
        ReactiveTerminal::Label { block, .. } => last_uses(block.instructions@, s),
        ReactiveTerminal::Logical { right, result, .. } => opt_record(last_uses(right.instructions@, s), result, u32::MAX),
        ReactiveTerminal::Return { value, .. } => record_place(s, value, u32::MAX),
        ReactiveTerminal::Throw { value, .. } => record_place(s, value, u32::MAX),
        _ => s,
    }
}

pub struct LastUseMaps {
    pub by_id: FxHashMap<u32, u32>,
    pub by_declaration: FxHashMap<u32, u32>,
}

pub open spec fn maps_view(m: LastUseMaps) -> LastUses {
    (m.by_id@, m.by_declaration@)
}

fn record_in(m: &mut FxHashMap<u32, u32>, k: u32, at: u32)
    ensures
        final(m)@ == record(old(m)@, k, at),
{
    let v = match fx_map_get(m, k) {
        Some(prev) => if *prev >= at { *prev } else { at },
        None => at,
    };
    fx_map_insert(m, k, v);
}

/// Record that `place` is read at `at`, in both maps.
fn record_place_usage(place: &Place, at: u32, maps: &mut LastUseMaps)
    ensures
        maps_view(*final(maps)) == record_place(maps_view(*old(maps)), *place, at),
{
    record_in(&mut maps.by_id, place.identifier.id.0, at);
    if let Some(d) = place.identifier.declaration_id {
        record_in(&mut maps.by_declaration, d.0, at);
    }
}

proof fn lemma_record_places_append(s: LastUses, a: Seq<Place>, b: Seq<Place>, at: u32)
    ensures
        record_places(s, a + b, at) == record_places(record_places(s, a, at), b, at),
    decreases b.len(),
{
    if b.len() > 0 {
        lemma_record_places_append(s, a, b.drop_last(), at);
        assert((a + b).drop_last() =~= a + b.drop_last());
    } else {
        assert(a + b =~= a);
    }
}

proof fn lemma_record_one(s: LastUses, p: Place, at: u32)
    ensures
        record_places(s, seq![p], at) == record_place(s, p, at),
{
    assert(seq![p].drop_last() =~= Seq::<Place>::empty());
    assert(seq![p].last() == p);
    assert(record_places(s, Seq::<Place>::empty(), at) == s);
}

fn record_places_vec(places: &Vec<Place>, at: u32, maps: &mut LastUseMaps)
    ensures
        maps_view(*final(maps)) == record_places(maps_view(*old(maps)), places@, at),
{
    let mut i: usize = 0;
    proof {
        assert(places@.take(0) =~= Seq::<Place>::empty());
    }
    while i < places.len()
        invariant
            i <= places@.len(),
            maps_view(*maps) == record_places(maps_view(*old(maps)), places@.take(i as int), at),
        decreases places.len() - i,
    {
        record_place_usage(&places[i], at, maps);
        proof {
            assert(places@.take(i + 1).drop_last() =~= places@.take(i as int));
            assert(places@.take(i + 1).last() == places@[i as int]);
        }
        i = i + 1;
    }
    proof {
        assert(places@.take(i as int) =~= places@);
    }
}

fn record_elements(elements: &Vec<ArrayElement>, at: u32, maps: &mut LastUseMaps)
    ensures
        maps_view(*final(maps)) == record_places(maps_view(*old(maps)), element_read_places(elements@), at),
{
    let mut i: usize = 0;
    proof {
        assert(elements@.take(0) =~= Seq::<ArrayElement>::empty());
    }
    while i < elements.len()
        invariant
            i <= elements@.len(),
            maps_view(*maps) == record_places(maps_view(*old(maps)), element_read_places(elements@.take(i as int)), at),
        decreases elements.len() - i,
    {
        let ghost before = element_read_places(elements@.take(i as int));
        proof {
            assert(elements@.take(i + 1).drop_last() =~= elements@.take(i as int));
        }
        match &elements[i] {
            ArrayElement::Expression(p) => {
                record_place_usage(p, at, maps);
                proof {
                    lemma_record_places_append(maps_view(*old(maps)), before, seq![*p], at);
                    lemma_record_one(record_places(maps_view(*old(maps)), before, at), *p, at);
                }
            },
            ArrayElement::Spread(p) => {
                record_place_usage(p, at, maps);
                proof {
                    lemma_record_places_append(maps_view(*old(maps)), before, seq![*p], at);
                    lemma_record_one(record_places(maps_view(*old(maps)), before, at), *p, at);
                }
            },
            ArrayElement::Hole => {
                proof {
                    assert(before + Seq::<Place>::empty() =~= before);
                }
            },
        }
        i = i + 1;
    }
    proof {
        assert(elements@.take(i as int) =~= elements@);
    }
}

fn record_properties(properties: &Vec<ObjectProperty>, at: u32, maps: &mut LastUseMaps)
    ensures
        maps_view(*final(maps)) == record_places(maps_view(*old(maps)), property_read_places(properties@), at),
{
    let mut i: usize = 0;
    proof {
        assert(properties@.take(0) =~= Seq::<ObjectProperty>::empty());
    }
    while i < properties.len()
        invariant
            i <= properties@.len(),
            maps_view(*maps) == record_places(maps_view(*old(maps)), property_read_places(properties@.take(i as int)), at),
        decreases properties.len() - i,
    {
        let ghost before = property_read_places(properties@.take(i as int));
        let ghost s0 = maps_view(*old(maps));
        let prop = &properties[i];
        proof {
            assert(properties@.take(i + 1).drop_last() =~= properties@.take(i as int));
            lemma_record_places_append(s0, before, seq![prop.value], at);
            lemma_record_one(record_places(s0, before, at), prop.value, at);
        }
        record_place_usage(&prop.value, at, maps);
        match &prop.key {
            ObjectPropertyKey::Computed(k) => {
                record_place_usage(k, at, maps);
                proof {
                    lemma_record_places_append(s0, before + seq![prop.value], seq![*k], at);
                    lemma_record_one(record_places(s0, before + seq![prop.value], at), *k, at);
                }
            },
            _ => {
                proof {
                    assert(before + seq![prop.value] + Seq::<Place>::empty() =~= before + seq![prop.value]);
                }
            },
        }
        i = i + 1;
    }
    proof {
        assert(properties@.take(i as int) =~= properties@);
    }
}

fn record_attributes(attributes: &Vec<JsxAttribute>, at: u32, maps: &mut LastUseMaps)
    ensures
        maps_view(*final(maps)) == record_places(maps_view(*old(maps)), attribute_read_places(attributes@), at),
{
    let mut i: usize = 0;
    proof {
        assert(attributes@.take(0) =~= Seq::<JsxAttribute>::empty());
    }
    while i < attributes.len()
        invariant
            i <= attributes@.len(),
            maps_view(*maps) == record_places(maps_view(*old(maps)), attribute_read_places(attributes@.take(i as int)), at),
        decreases attributes.len() - i,
    {
        let ghost before = attribute_read_places(attributes@.take(i as int));
        proof {
            assert(attributes@.take(i + 1).drop_last() =~= attributes@.take(i as int));
            lemma_record_places_append(maps_view(*old(maps)), before, seq![attributes@[i as int].value], at);
            lemma_record_one(record_places(maps_view(*old(maps)), before, at), attributes@[i as int].value, at);
        }
        record_place_usage(&attributes[i].value, at, maps);
        i = i + 1;
    }
    proof {
        assert(attributes@.take(i as int) =~= attributes@);
    }
}

proof fn lemma_record_two(s: LastUses, a: Place, b: Place, at: u32)
    ensures
        record_places(s, seq![a, b], at) == record_place(record_place(s, a, at), b, at),
{
    assert(seq![a, b] =~= seq![a] + seq![b]);
    lemma_record_places_append(s, seq![a], seq![b], at);
    lemma_record_one(s, a, at);
    lemma_record_one(record_place(s, a, at), b, at);
}

proof fn lemma_record_three(s: LastUses, a: Place, b: Place, c: Place, at: u32)
    ensures
        record_places(s, seq![a, b, c], at) == record_place(record_place(record_place(s, a, at), b, at), c, at),
{
    assert(seq![a, b, c] =~= seq![a, b] + seq![c]);
    lemma_record_places_append(s, seq![a, b], seq![c], at);
    lemma_record_two(s, a, b, at);
    lemma_record_one(record_place(record_place(s, a, at), b, at), c, at);
}

proof fn lemma_record_head(s: LastUses, a: Place, rest: Seq<Place>, at: u32)
    ensures
        record_places(s, seq![a] + rest, at) == record_places(record_place(s, a, at), rest, at),
{
    lemma_record_places_append(s, seq![a], rest, at);
    lemma_record_one(s, a, at);
}

/// Record the reads of an instruction value at `at`.
fn visit_instruction_read_places(value: &InstructionValue, at: u32, maps: &mut LastUseMaps)
    ensures
        maps_view(*final(maps)) == record_places(maps_view(*old(maps)), read_places(*value), at),
{
    let ghost s0 = maps_view(*maps);
    match value {
        InstructionValue::LoadLocal { place } => {
            record_place_usage(place, at, maps);
            proof { lemma_record_one(s0, *place, at); }
        },
        InstructionValue::LoadContext { place } => {
            record_place_usage(place, at, maps);
            proof { lemma_record_one(s0, *place, at); }
        },
        InstructionValue::StoreLocal { value, .. } => {
            record_place_usage(value, at, maps);
            proof { lemma_record_one(s0, *value, at); }
        },
        InstructionValue::StoreContext { value, .. } => {
            record_place_usage(value, at, maps);
            proof { lemma_record_one(s0, *value, at); }
        },
        InstructionValue::Destructure { value, .. } => {
            record_place_usage(value, at, maps);
            proof { lemma_record_one(s0, *value, at); }
        },
        InstructionValue::BinaryExpression { left, right, .. } => {
            record_place_usage(left, at, maps);
            record_place_usage(right, at, maps);
            proof { lemma_record_two(s0, *left, *right, at); }
        },
        InstructionValue::UnaryExpression { value, .. } => {
            record_place_usage(value, at, maps);
            proof { lemma_record_one(s0, *value, at); }
        },
        InstructionValue::PrefixUpdate { lvalue, .. } => {
            record_place_usage(lvalue, at, maps);
            proof { lemma_record_one(s0, *lvalue, at); }
        },
        InstructionValue::PostfixUpdate { lvalue, .. } => {
            record_place_usage(lvalue, at, maps);
            proof { lemma_record_one(s0, *lvalue, at); }
        },
        InstructionValue::TemplateLiteral { subexpressions, .. } => record_places_vec(subexpressions, at, maps),
        InstructionValue::CallExpression { callee, args } => {
            record_place_usage(callee, at, maps);
            record_places_vec(args, at, maps);
            proof { lemma_record_head(s0, *callee, args@, at); }
        },
        InstructionValue::MethodCall { receiver, args, .. } => {
            record_place_usage(receiver, at, maps);
            record_places_vec(args, at, maps);
            proof { lemma_record_head(s0, *receiver, args@, at); }
        },
        InstructionValue::NewExpression { callee, args } => {
            record_place_usage(callee, at, maps);
            record_places_vec(args, at, maps);
            proof { lemma_record_head(s0, *callee, args@, at); }
        },
        InstructionValue::PropertyLoad { object, .. } => {
            record_place_usage(object, at, maps);
            proof { lemma_record_one(s0, *object, at); }
        },
        InstructionValue::PropertyStore { object, value, .. } => {
            record_place_usage(object, at, maps);
            record_place_usage(value, at, maps);
            proof { lemma_record_two(s0, *object, *value, at); }
        },
        InstructionValue::ComputedLoad { object, property } => {
            record_place_usage(object, at, maps);
            record_place_usage(property, at, maps);
            proof { lemma_record_two(s0, *object, *property, at); }
        },
        InstructionValue::ComputedStore { object, property, value } => {
            record_place_usage(object, at, maps);
            record_place_usage(property, at, maps);
            record_place_usage(value, at, maps);
            proof { lemma_record_three(s0, *object, *property, *value, at); }
        },
        InstructionValue::PropertyDelete { object, .. } => {
            record_place_usage(object, at, maps);
            proof { lemma_record_one(s0, *object, at); }
        },
        InstructionValue::ComputedDelete { object, property } => {
            record_place_usage(object, at, maps);
            record_place_usage(property, at, maps);
            proof { lemma_record_two(s0, *object, *property, at); }
        },
        InstructionValue::ObjectExpression { properties } => record_properties(properties, at, maps),
        InstructionValue::ArrayExpression { elements } => record_elements(elements, at, maps),
        InstructionValue::JsxExpression { tag, props, children } => {
            record_place_usage(tag, at, maps);
            let ghost s1 = maps_view(*maps);
            record_attributes(props, at, maps);
            let ghost s2 = maps_view(*maps);
            record_places_vec(children, at, maps);
            proof {
                lemma_record_head(s0, *tag, attribute_read_places(props@) + children@, at);
                assert(seq![*tag] + attribute_read_places(props@) + children@ =~= seq![*tag] + (attribute_read_places(props@) + children@));
                lemma_record_places_append(s1, attribute_read_places(props@), children@, at);
            }
        },
        InstructionValue::JsxFragment { children } => record_places_vec(children, at, maps),
        InstructionValue::TypeCastExpression { value, .. } => {
            record_place_usage(value, at, maps);
            proof { lemma_record_one(s0, *value, at); }
        },
        InstructionValue::Await { value } => {
            record_place_usage(value, at, maps);
            proof { lemma_record_one(s0, *value, at); }
        },
        InstructionValue::NextPropertyOf { value } => {
            record_place_usage(value, at, maps);
            proof { lemma_record_one(s0, *value, at); }
        },
        InstructionValue::GetIterator { collection } => {
            record_place_usage(collection, at, maps);
            proof { lemma_record_one(s0, *collection, at); }
        },
        InstructionValue::IteratorNext { iterator, .. } => {
            record_place_usage(iterator, at, maps);
            proof { lemma_record_one(s0, *iterator, at); }
        },
        InstructionValue::TaggedTemplateExpression { tag, value } => {
            record_place_usage(tag, at, maps);
            record_places_vec(&value.subexpressions, at, maps);
            proof { lemma_record_head(s0, *tag, value.subexpressions@, at); }
        },
        InstructionValue::StoreGlobal { value, .. } => {
            record_place_usage(value, at, maps);
            proof { lemma_record_one(s0, *value, at); }
        },
        InstructionValue::FinishMemoize { decl, deps, .. } => {
            record_place_usage(decl, at, maps);
            record_places_vec(deps, at, maps);
            proof { lemma_record_head(s0, *decl, deps@, at); }
        },
        _ => {},
    }
}

fn record_opt(p: &Option<Place>, at: u32, maps: &mut LastUseMaps)
    ensures
        maps_view(*final(maps)) == opt_record(maps_view(*old(maps)), *p, at),
{
    if let Some(x) = p {
        record_place_usage(x, at, maps);
    }
}

fn collect_last_usage_in_block(block: &ReactiveBlock, maps: &mut LastUseMaps)
    ensures
        maps_view(*final(maps)) == last_uses(block.instructions@, maps_view(*old(maps))),
    decreases *block,
{
    let ghost q = block.instructions@;
    let mut i: usize = 0;
    proof {
        assert(q.take(0) =~= Seq::<ReactiveInstruction>::empty());
    }
    while i < block.instructions.len()
        invariant
            i <= q.len(),
            q == block.instructions@,
            maps_view(*maps) == last_uses(q.take(i as int), maps_view(*old(maps))),
        decreases block.instructions.len() - i,
    {
        proof {
            assert(q.take(i + 1).drop_last() =~= q.take(i as int));
            assert(q.take(i + 1).last() == q[i as int]);
            assert(decreases_to!(*block => block.instructions));
            assert(decreases_to!(block.instructions => q));
            assert(decreases_to!(q => q[i as int]));
        }
        let ghost sprev = maps_view(*maps);
        match &block.instructions[i] {
            ReactiveInstruction::Instruction(ins) => {
                visit_instruction_read_places(&ins.value, ins.id.0, maps);
                proof {
                    assert(maps_view(*maps) == last_uses_item(q[i as int], sprev));
                }
            },
            ReactiveInstruction::Scope(sb) => {
                proof {
                    assert(decreases_to!(q[i as int] => sb.instructions));
                }
                collect_last_usage_in_block(&sb.instructions, maps);
                proof {
                    assert(maps_view(*maps) == last_uses_item(q[i as int], sprev));
                }
            },
            ReactiveInstruction::Terminal(t) => {
                proof {
                    assert(decreases_to!(q[i as int] => *t));
                }
                collect_last_usage_in_terminal(t, maps);
                proof {
                    assert(maps_view(*maps) == last_uses_item(q[i as int], sprev));
                }
            },
        }
        proof {
            assert(last_uses(q.take(i + 1), maps_view(*old(maps))) == last_uses_item(q[i as int], sprev));
        }
        i = i + 1;
    }
    proof {
        assert(q.take(i as int) =~= q);
    }
}

fn collect_last_usage_in_terminal(terminal: &ReactiveTerminal, maps: &mut LastUseMaps)
    ensures
        maps_view(*final(maps)) == last_uses_terminal(*terminal, maps_view(*old(maps))),
    decreases *terminal,
{
    match terminal {
        ReactiveTerminal::If { test, consequent, alternate, .. } => {
            record_place_usage(test, u32::MAX, maps);
            collect_last_usage_in_block(consequent, maps);
            collect_last_usage_in_block(alternate, maps);
        },
        ReactiveTerminal::For { init, test, update, body, .. } => {
            collect_last_usage_in_block(init, maps);
            collect_last_usage_in_block(test, maps);
            if let Some(u) = update {
                collect_last_usage_in_block(u, maps);
            }
            collect_last_usage_in_block(body, maps);
        },
        ReactiveTerminal::ForOf { init, test, body, .. } => {
            collect_last_usage_in_block(init, maps);
            collect_last_usage_in_block(test, maps);
            collect_last_usage_in_block(body, maps);
        },
        ReactiveTerminal::ForIn { init, test, body, .. } => {
            collect_last_usage_in_block(init, maps);
            collect_last_usage_in_block(test, maps);
            collect_last_usage_in_block(body, maps);
        },
        ReactiveTerminal::While { test, body, .. } => {
            collect_last_usage_in_block(test, maps);
            collect_last_usage_in_block(body, maps);
        },
        ReactiveTerminal::DoWhile { body, test, .. } => {
            collect_last_usage_in_block(test, maps);
            collect_last_usage_in_block(body, maps);
        },
        ReactiveTerminal::Switch { test, cases, .. } => {
            record_place_usage(test, u32::MAX, maps);
            let ghost q = cases@;
            let ghost s1 = maps_view(*maps);
            let mut i: usize = 0;
            proof {
                assert(q.take(0) =~= Seq::<(Option<Place>, ReactiveBlock)>::empty());
            }
            while i < cases.len()
                invariant
                    i <= q.len(),
                    q == cases@,
                    *terminal is Switch,
                    q == (*terminal)->Switch_cases@,
                    maps_view(*maps) == last_uses_cases(q.take(i as int), s1),
                decreases cases.len() - i,
            {
                proof {
                    assert(q.take(i + 1).drop_last() =~= q.take(i as int));
                    assert(q.take(i + 1).last() == q[i as int]);
                    assert(decreases_to!(*terminal => (*terminal)->Switch_cases));
                    assert(decreases_to!((*terminal)->Switch_cases => q));
                    assert(decreases_to!(q => q[i as int]));
                }
                record_opt(&cases[i].0, u32::MAX, maps);
                collect_last_usage_in_block(&cases[i].1, maps);
                i = i + 1;
            }
            proof {
                assert(q.take(i as int) =~= q);
            }
        },
        ReactiveTerminal::Try { block, handler, .. } => {
            collect_last_usage_in_block(block, maps);
            collect_last_usage_in_block(handler, maps);
        },
        ReactiveTerminal::Label { block, .. } => {
            collect_last_usage_in_block(block, maps);
        },
        ReactiveTerminal::Logical { right, result, .. } => {
            collect_last_usage_in_block(right, maps);
            record_opt(result, u32::MAX, maps);
        },
        ReactiveTerminal::Return { value, .. } => record_place_usage(value, u32::MAX, maps),
        ReactiveTerminal::Throw { value, .. } => record_place_usage(value, u32::MAX, maps),
        _ => {},
    }
}

/// The last uses of every identifier and declaration in the function body.
fn build_last_usage_maps(rf: &ReactiveFunction) -> (maps: LastUseMaps)
    ensures
        maps_view(maps) == last_uses(rf.body.instructions@, (Map::empty(), Map::empty())),
{
    let mut maps = LastUseMaps { by_id: FxHashMap::default(), by_declaration: FxHashMap::default() };
    proof {
        assert(maps_view(maps) =~= (Map::<u32, u32>::empty(), Map::<u32, u32>::empty()));
    }
    collect_last_usage_in_block(&rf.body, &mut maps);
    maps
}

// ---------------------------------------------------------------------------
// When two scopes may merge
// ---------------------------------------------------------------------------

/// Two dependencies have the same key: declaration, identifier and path.
pub open spec fn same_key(a: ReactiveScopeDependency, b: ReactiveScopeDependency) -> bool {
    &&& a.identifier.declaration_id == b.identifier.declaration_id
    &&& a.identifier.id == b.identifier.id
    &&& same_path(a.path@, b.path@)
}

pub open spec fn has_key(q: Seq<ReactiveScopeDependency>, d: ReactiveScopeDependency) -> bool {
    exists|k: int| 0 <= k < q.len() && same_key(#[trigger] q[k], d)
}

/// The two lists have the same set of keys.
pub open spec fn same_keys(a: Seq<ReactiveScopeDependency>, b: Seq<ReactiveScopeDependency>) -> bool {
    &&& forall|i: int| 0 <= i < a.len() ==> has_key(b, #[trigger] a[i])
    &&& forall|j: int| 0 <= j < b.len() ==> has_key(a, #[trigger] b[j])
}

pub open spec fn is_always_invalidating_type(t: Type) -> bool {
    t == Type::Object || t == Type::Function
}

pub open spec fn alias_of(temps: Map<u32, u32>, id: u32) -> Option<u32> {
    if temps.contains_key(id) { Some(temps[id]) } else { None }
}

/// The dependency is the declaration: by declaration id, or through the
/// alias of the dependency recorded between the scopes.
pub open spec fn decl_matches(dep: ReactiveScopeDependency, decl: crate::hir::types::Identifier, alias: Option<u32>) -> bool {
    ||| (dep.identifier.declaration_id is Some && decl.declaration_id is Some && dep.identifier.declaration_id == decl.declaration_id)
    ||| (alias is Some && (decl.id.0 == alias->Some_0 || (decl.declaration_id is Some && dep.identifier.declaration_id == decl.declaration_id)))
}

/// A dependency of the later scope that is an always-invalidating output of
/// the earlier one, read without a path.
pub open spec fn chains_to(dep: ReactiveScopeDependency, prev: ReactiveScope, temps: Map<u32, u32>) -> bool {
    &&& dep.path@.len() == 0
    &&& is_always_invalidating_type(dep.identifier.type_)
    &&& exists|j: int| 0 <= j < prev.declarations@.len()
        && decl_matches(dep, (#[trigger] prev.declarations@[j]).1.identifier, alias_of(temps, dep.identifier.id.0))
}

/// Neither scope reassigns anything, and either both have the same
/// (non-empty) dependencies, or every dependency of `next` chains to `prev`.
pub open spec fn can_merge(prev: ReactiveScope, next: ReactiveScope, temps: Map<u32, u32>) -> bool {
    &&& prev.reassignments@.len() == 0
    &&& next.reassignments@.len() == 0
    &&& {
        ||| (prev.dependencies@.len() > 0 && same_keys(prev.dependencies@, next.dependencies@))
        ||| (next.dependencies@.len() > 0 && forall|i: int| 0 <= i < next.dependencies@.len() ==> chains_to(#[trigger] next.dependencies@[i], prev, temps))
    }
}

/// A scope later scopes may merge into: it reassigns nothing, and it has no
/// dependencies or declares an always-invalidating value.
pub open spec fn eligible_for_merging(s: ReactiveScope) -> bool {
    &&& s.reassignments@.len() == 0
    &&& {
        ||| s.dependencies@.len() == 0
        ||| exists|j: int| 0 <= j < s.declarations@.len() && is_always_invalidating_type((#[trigger] s.declarations@[j]).1.identifier.type_)
    }
}

fn same_dependency_key(a: &ReactiveScopeDependency, b: &ReactiveScopeDependency) -> (r: bool)
    ensures
        r == same_key(*a, *b),
{
    a.identifier.declaration_id == b.identifier.declaration_id && a.identifier.id == b.identifier.id
        && paths_equal(a.path.as_slice(), b.path.as_slice())
}

fn contains_key(q: &Vec<ReactiveScopeDependency>, d: &ReactiveScopeDependency) -> (r: bool)
    ensures
        r == has_key(q@, *d),
{
    let mut k: usize = 0;
    while k < q.len()
        invariant
            k <= q@.len(),
            forall|m: int| 0 <= m < k ==> !same_key(#[trigger] q@[m], *d),
        decreases q.len() - k,
    {
        if same_dependency_key(&q[k], d) {
            return true;
        }
        k = k + 1;
    }
    false
}

fn all_keys_in(a: &Vec<ReactiveScopeDependency>, b: &Vec<ReactiveScopeDependency>) -> (r: bool)
    ensures
        r == forall|i: int| 0 <= i < a@.len() ==> has_key(b@, #[trigger] a@[i]),
{
    let mut i: usize = 0;
    while i < a.len()
        invariant
            i <= a@.len(),
            forall|m: int| 0 <= m < i ==> has_key(b@, #[trigger] a@[m]),
        decreases a.len() - i,
    {
        if !contains_key(b, &a[i]) {
            return false;
        }
        i = i + 1;
    }
    true
}

/// Whether the two scopes have the same set of dependency keys.
fn same_dependency_keys(a: &ReactiveScope, b: &ReactiveScope) -> (r: bool)
    ensures
        r == same_keys(a.dependencies@, b.dependencies@),
{
    all_keys_in(&a.dependencies, &b.dependencies) && all_keys_in(&b.dependencies, &a.dependencies)
}

fn always_invalidating_type(t: &Type) -> (r: bool)
    ensures
        r == is_always_invalidating_type(*t),
{
    match t {
        Type::Object => true,
        Type::Function => true,
        _ => false,
    }
}

fn matches_declaration(dep: &ReactiveScopeDependency, decl: &crate::hir::types::Identifier, alias: Option<u32>) -> (r: bool)
    ensures
        r == decl_matches(*dep, *decl, alias),
{
    if let (Some(dd), Some(cd)) = (dep.identifier.declaration_id, decl.declaration_id) {
        if dd == cd {
            return true;
        }
    }
    if let Some(a) = alias {
        if decl.id.0 == a {
            return true;
        }
        if let Some(cd) = decl.declaration_id {
            if let Some(dd) = dep.identifier.declaration_id {
                if dd == cd {
                    return true;
                }
            }
        }
    }
    false
}

fn chains_to_declaration(dep: &ReactiveScopeDependency, prev: &ReactiveScope, temporaries: &FxHashMap<u32, u32>) -> (r: bool)
    ensures
        r == chains_to(*dep, *prev, temporaries@),
{
    if dep.path.len() != 0 {
        return false;
    }
    if !always_invalidating_type(&dep.identifier.type_) {
        return false;
    }
    let alias = match fx_map_get(temporaries, dep.identifier.id.0) {
        Some(a) => Some(*a),
        None => None,
    };
    let mut j: usize = 0;
    while j < prev.declarations.len()
        invariant
            j <= prev.declarations@.len(),
            dep.path@.len() == 0,
            is_always_invalidating_type(dep.identifier.type_),
            alias == alias_of(temporaries@, dep.identifier.id.0),
            forall|m: int| 0 <= m < j ==> !decl_matches(*dep, (#[trigger] prev.declarations@[m]).1.identifier, alias),
        decreases prev.declarations.len() - j,
    {
        if matches_declaration(dep, &prev.declarations[j].1.identifier, alias) {
            proof {
                assert(decl_matches(*dep, prev.declarations@[j as int].1.identifier, alias_of(temporaries@, dep.identifier.id.0)));
            }
            return true;
        }
        j = j + 1;
    }
    false
}

/// Whether `next` may merge into `prev`, given the aliases recorded between
/// them.
fn can_merge_scopes(prev: &ReactiveScope, next: &ReactiveScope, temporaries: &FxHashMap<u32, u32>) -> (r: bool)
    ensures
        r == can_merge(*prev, *next, temporaries@),
{
    if prev.reassignments.len() != 0 || next.reassignments.len() != 0 {
        return false;
    }
    if prev.dependencies.len() > 0 && same_dependency_keys(prev, next) {
        return true;
    }
    if next.dependencies.len() == 0 {
        return false;
    }
    let mut i: usize = 0;
    while i < next.dependencies.len()
        invariant
            i <= next.dependencies@.len(),
            prev.reassignments@.len() == 0,
            next.reassignments@.len() == 0,
            !(prev.dependencies@.len() > 0 && same_keys(prev.dependencies@, next.dependencies@)),
            next.dependencies@.len() > 0,
            forall|m: int| 0 <= m < i ==> chains_to(#[trigger] next.dependencies@[m], *prev, temporaries@),
        decreases next.dependencies.len() - i,
    {
        if !chains_to_declaration(&next.dependencies[i], prev, temporaries) {
            proof {
                assert(!chains_to(next.dependencies@[i as int], *prev, temporaries@));
            }
            return false;
        }
        i = i + 1;
    }
    true
}

fn scope_is_eligible_for_merging(s: &ReactiveScope) -> (r: bool)
    ensures
        r == eligible_for_merging(*s),
{
    if s.reassignments.len() != 0 {
        return false;
    }
    if s.dependencies.len() == 0 {
        return true;
    }
    let mut j: usize = 0;
    while j < s.declarations.len()
        invariant
            j <= s.declarations@.len(),
            s.reassignments@.len() == 0,
            s.dependencies@.len() > 0,
            forall|m: int| 0 <= m < j ==> !is_always_invalidating_type((#[trigger] s.declarations@[m]).1.identifier.type_),
        decreases s.declarations.len() - j,
    {
        if always_invalidating_type(&s.declarations[j].1.identifier.type_) {
            proof {
                assert(is_always_invalidating_type(s.declarations@[j as int].1.identifier.type_));
            }
            return true;
        }
        j = j + 1;
    }
    false
}

// ---------------------------------------------------------------------------
// Instructions between two scopes
// ---------------------------------------------------------------------------

/// The results of the instructions between two scopes, and the aliases
/// (temporary to source) they record.
pub type Acc = (Set<u32>, Map<u32, u32>);

pub open spec fn is_simple(v: InstructionValue) -> bool {
    ||| v is BinaryExpression
    ||| v is ComputedLoad
    ||| v is JSXText
    ||| v is LoadGlobal
    ||| v is LoadLocal
    ||| v is Primitive
    ||| v is PropertyLoad
    ||| v is TemplateLiteral
    ||| v is UnaryExpression
}

pub open spec fn is_const_store(v: InstructionValue) -> bool {
    v matches InstructionValue::StoreLocal { type_, .. } && type_ == Some(InstructionKind::Const)
}

/// The accumulator after an instruction between two scopes, or `None` when
/// the instruction stops the merge.
pub open spec fn accumulate(acc: Acc, ins: Instruction) -> Option<Acc> {
    let lv = ins.lvalue.identifier.id.0;
    if is_simple(ins.value) {
        Some((
            acc.0.insert(lv),
            match ins.value {
                InstructionValue::LoadLocal { place } => acc.1.insert(lv, place.identifier.id.0),
                _ => acc.1,
            },
        ))
    } else if is_const_store(ins.value) {
        match ins.value {
            InstructionValue::StoreLocal { lvalue, value, .. } => {
                let src = value.identifier.id.0;
                let aliased = if acc.1.contains_key(src) { acc.1[src] } else { src };
                Some((acc.0.insert(lv), acc.1.insert(lvalue.identifier.id.0, aliased)))
            },
            _ => None,
        }
    } else {
        None
    }
}

/// An instruction between two scopes is absorbed into the merge exactly
/// when it is a binary expression, a computed load, JSX text, a load of a
/// global or a local, a primitive, a property load, a template literal, a
/// unary expression or a `const` store of a local. Anything else stops the
/// merge; in particular a call, a method call or a `new` expression never
/// moves into a memoized scope. An absorbed instruction adds its result to
/// the accumulated results.
pub proof fn lemma_only_pure_instructions_absorbed(acc: Acc, ins: Instruction)
    ensures
        accumulate(acc, ins) is Some <==> ({
            ||| ins.value is BinaryExpression
            ||| ins.value is ComputedLoad
            ||| ins.value is JSXText
            ||| ins.value is LoadGlobal
            ||| ins.value is LoadLocal
            ||| ins.value is Primitive
            ||| ins.value is PropertyLoad
            ||| ins.value is TemplateLiteral
            ||| ins.value is UnaryExpression
            ||| (ins.value matches InstructionValue::StoreLocal { type_, .. } && type_ == Some(InstructionKind::Const))
        }),
        (ins.value is CallExpression || ins.value is MethodCall || ins.value is NewExpression) ==> (accumulate(
            acc,
            ins,
        ) is None),
        accumulate(acc, ins) is Some ==> accumulate(acc, ins)->Some_0.0 == acc.0.insert(ins.lvalue.identifier.id.0),
{
}

/// None of `lvalues` is read at or after the end of the scope.
pub open spec fn lvalues_die_in(scope: ReactiveScope, lvalues: Set<u32>, lu: Map<u32, u32>) -> bool {
    forall|id: u32| lvalues.contains(id) && lu.contains_key(id) ==> lu[id] < scope.range.end.0
}

pub struct Accumulator {
    pub lvalues: FxHashSet<u32>,
    pub temporaries: FxHashMap<u32, u32>,
}

pub open spec fn acc_view(a: Accumulator) -> Acc {
    (a.lvalues@, a.temporaries@)
}

fn new_accumulator() -> (a: Accumulator)
    ensures
        acc_view(a) == (Set::<u32>::empty(), Map::<u32, u32>::empty()),
{
    let a = Accumulator { lvalues: FxHashSet::default(), temporaries: FxHashMap::default() };
    proof {
        assert(a.lvalues@ =~= Set::<u32>::empty());
        assert(a.temporaries@ =~= Map::<u32, u32>::empty());
    }
    a
}

/// Absorb an instruction between two scopes; `false` when it stops the
/// merge (the accumulator is then left as it was).
fn accumulate_intermediate_instruction(instr: &Instruction, acc: &mut Accumulator) -> (r: bool)
    ensures
        r == accumulate(acc_view(*old(acc)), *instr) is Some,
        r ==> acc_view(*final(acc)) == accumulate(acc_view(*old(acc)), *instr)->Some_0,
{
    let lv = instr.lvalue.identifier.id.0;
    let simple = match &instr.value {
        InstructionValue::BinaryExpression { .. } => true,
        InstructionValue::ComputedLoad { .. } => true,
        InstructionValue::JSXText { .. } => true,
        InstructionValue::LoadGlobal { .. } => true,
        InstructionValue::LoadLocal { .. } => true,
        InstructionValue::Primitive { .. } => true,
        InstructionValue::PropertyLoad { .. } => true,
        InstructionValue::TemplateLiteral { .. } => true,
        InstructionValue::UnaryExpression { .. } => true,
        _ => false,
    };
    if simple {
        fx_set_insert(&mut acc.lvalues, lv);
        if let InstructionValue::LoadLocal { place } = &instr.value {
            fx_map_insert(&mut acc.temporaries, lv, place.identifier.id.0);
        }
        return true;
    }
    match &instr.value {
        InstructionValue::StoreLocal { lvalue, value, type_: Some(InstructionKind::Const) } => {
            fx_set_insert(&mut acc.lvalues, lv);
            let src = value.identifier.id.0;
            let aliased = match fx_map_get(&acc.temporaries, src) {
                Some(a) => *a,
                None => src,
            };
            fx_map_insert(&mut acc.temporaries, lvalue.identifier.id.0, aliased);
            true
        },
        _ => false,
    }
}

/// Whether none of the accumulated results is read at or after the end of
/// `scope`.
fn are_lvalues_last_used_by_scope(scope: &ReactiveScope, lvalues: &FxHashSet<u32>, last_usage: &FxHashMap<u32, u32>) -> (r: bool)
    ensures
        r == lvalues_die_in(*scope, lvalues@, last_usage@),
{
    let ids = fx_set_elements(lvalues);
    let scope_end = scope.range.end.0;
    let mut i: usize = 0;
    while i < ids.len()
        invariant
            i <= ids@.len(),
            ids@.to_set() == lvalues@,
            scope_end == scope.range.end.0,
            forall|m: int| 0 <= m < i ==> !last_usage@.contains_key(#[trigger] ids@[m]) || last_usage@[ids@[m]] < scope_end,
        decreases ids.len() - i,
    {
        if let Some(last) = fx_map_get(last_usage, ids[i]) {
            if *last >= scope_end {
                proof {
                    assert(ids@.to_set().contains(ids@[i as int]));
                    assert(lvalues@.contains(ids@[i as int]) && last_usage@.contains_key(ids@[i as int]) && !(last_usage@[ids@[i as int]] < scope.range.end.0));
                }
                return false;
            }
        }
        i = i + 1;
    }
    proof {
        assert forall|id: u32| lvalues@.contains(id) && last_usage@.contains_key(id) implies last_usage@[id] < scope.range.end.0 by {
            assert(ids@.to_set().contains(id));
            let m = choose|m: int| 0 <= m < ids@.len() && ids@[m] == id;
        }
    }
    true
}

// ---------------------------------------------------------------------------
// Flattening nested scopes with the same dependencies
// ---------------------------------------------------------------------------

/// `r` widened to cover `inner`.
pub open spec fn widen_range(r: MutableRange, inner: MutableRange) -> MutableRange {
    MutableRange {
        start: if inner.start.0 < r.start.0 { inner.start } else { r.start },
        end: if inner.end.0 > r.end.0 { inner.end } else { r.end },
    }
}

/// The body is a single scope with the same (non-empty) dependency keys as
/// `deps`.
pub open spec fn flattenable(deps: Seq<ReactiveScopeDependency>, body: ReactiveBlock) -> bool {
    &&& body.instructions@.len() == 1
    &&& body.instructions@[0] is Scope
    &&& deps.len() > 0
    &&& same_keys(deps, body.instructions@[0]->Scope_0.scope.dependencies@)
}

/// What repeatedly absorbing single nested scopes with the same dependencies
/// adds: their declarations, their ids and merged ids, the covering range,
/// and the innermost body that is left.
pub open spec fn flatten_chain(
    deps: Seq<ReactiveScopeDependency>,
    body: ReactiveBlock,
    range: MutableRange,
) -> (Seq<(IdentifierId, ScopeDeclaration)>, Seq<ScopeId>, MutableRange, ReactiveBlock)
    decreases body,
{
    if flattenable(deps, body) {
        let inner = body.instructions@[0]->Scope_0;
        proof {
            assert(decreases_to!(body => body.instructions));
            assert(decreases_to!(body.instructions => body.instructions@));
            assert(decreases_to!(body.instructions@ => body.instructions@[0]));
            assert(decreases_to!(body.instructions@[0] => inner));
            assert(decreases_to!(inner => inner.instructions));
        }
        let rest = flatten_chain(deps, inner.instructions, widen_range(range, inner.scope.range));
        (inner.scope.declarations@ + rest.0, seq![inner.scope.id] + inner.scope.merged@ + rest.1, rest.2, rest.3)
    } else {
        (Seq::empty(), Seq::empty(), range, body)
    }
}

/// `n` is the scope block `o` after flattening its nested scopes with the
/// same dependencies into it.
pub open spec fn flattened(n: ReactiveScopeBlock, o: ReactiveScopeBlock) -> bool {
    let c = flatten_chain(o.scope.dependencies@, o.instructions, o.scope.range);
    &&& n.instructions == c.3
    &&& n.scope == ReactiveScope {
        declarations: n.scope.declarations,
        merged: n.scope.merged,
        range: n.scope.range,
        ..o.scope
    }
    &&& n.scope.declarations@ == o.scope.declarations@ + c.0
    &&& n.scope.merged@ == o.scope.merged@ + c.1
    &&& n.scope.range == c.2
}

fn flatten_nested_identical_scopes(outer: &mut ReactiveScopeBlock)
    ensures
        flattened(*final(outer), *old(outer)),
    decreases old(outer).instructions,
{
    let should_flatten = outer.instructions.instructions.len() == 1 && match &outer.instructions.instructions[0] {
        ReactiveInstruction::Scope(inner) => outer.scope.dependencies.len() > 0 && same_dependency_keys(&outer.scope, &inner.scope),
        _ => false,
    };
    if !should_flatten {
        return;
    }
    let ghost o = *outer;
    let inner_instr = outer.instructions.instructions.remove(0);
    if let ReactiveInstruction::Scope(inner_scope) = inner_instr {
        proof {
            assert(decreases_to!(o.instructions => o.instructions.instructions));
            assert(decreases_to!(o.instructions.instructions => o.instructions.instructions@));
            assert(decreases_to!(o.instructions.instructions@ => o.instructions.instructions@[0]));
            assert(decreases_to!(o.instructions.instructions@[0] => inner_scope));
            assert(decreases_to!(inner_scope => inner_scope.instructions));
        }
        let ReactiveScopeBlock { scope: mut iscope, instructions: ibody } = inner_scope;
        outer.instructions = ibody;
        outer.scope.declarations.append(&mut iscope.declarations);
        outer.scope.merged.push(iscope.id);
        outer.scope.merged.append(&mut iscope.merged);
        if iscope.range.start.0 < outer.scope.range.start.0 {
            outer.scope.range.start = iscope.range.start;
        }
        if iscope.range.end.0 > outer.scope.range.end.0 {
            outer.scope.range.end = iscope.range.end;
        }
        let ghost mid = *outer;
        flatten_nested_identical_scopes(outer);
        proof {
            let rest = flatten_chain(o.scope.dependencies@, ibody, widen_range(o.scope.range, iscope.range));
            assert(mid.scope.dependencies == o.scope.dependencies);
            assert(outer.scope.declarations@ =~= o.scope.declarations@ + flatten_chain(o.scope.dependencies@, o.instructions, o.scope.range).0);
            assert(outer.scope.merged@ =~= o.scope.merged@ + flatten_chain(o.scope.dependencies@, o.instructions, o.scope.range).1);
        }
    }
}

// ---------------------------------------------------------------------------
// The merge plan of a block
// ---------------------------------------------------------------------------

/// A candidate to merge into: its index, what lies between it and the
/// current instruction, and the indices of those instructions.
pub type Cand = (usize, Acc, Seq<usize>);

/// A merge: the index of the scope merged into, the instructions between,
/// and the index of the scope absorbed.
pub type Rec = (usize, Seq<usize>, usize);

pub type Plan = (Option<Cand>, Seq<Rec>);

pub open spec fn empty_acc() -> Acc {
    (Set::empty(), Map::empty())
}

/// One step of the plan at instruction `i`: a terminal drops the candidate;
/// an instruction joins the candidate's gap or drops it; a scope that can
/// merge into the candidate is recorded as a merge (the candidate stays if
/// the scope is eligible itself), otherwise it becomes the candidate when
/// eligible.
pub open spec fn plan_step(p: Plan, q: Seq<ReactiveInstruction>, i: usize, lu: Map<u32, u32>) -> Plan {
    match q[i as int] {
        ReactiveInstruction::Terminal(_) => (None, p.1),
        ReactiveInstruction::Instruction(ins) => match p.0 {
            Some(c) => match accumulate(c.1, ins) {
                Some(a) => (Some((c.0, a, c.2.push(i))), p.1),
                None => (None, p.1),
            },
            None => p,
        },
        ReactiveInstruction::Scope(sb) => {
            let should = match p.0 {
                Some(c) => q[c.0 as int] is Scope
                    && can_merge(q[c.0 as int]->Scope_0.scope, sb.scope, c.1.1)
                    && lvalues_die_in(sb.scope, c.1.0, lu),
                None => false,
            };
            if should {
                let c = p.0->Some_0;
                (
                    if eligible_for_merging(sb.scope) { Some((c.0, empty_acc(), Seq::empty())) } else { None },
                    p.1.push((c.0, c.2, i)),
                )
            } else {
                (if eligible_for_merging(sb.scope) { Some((i, empty_acc(), Seq::empty())) } else { None }, p.1)
            }
        },
    }
}

pub open spec fn plan_upto(q: Seq<ReactiveInstruction>, k: nat, lu: Map<u32, u32>) -> Plan
    decreases k,
{
    if k == 0 {
        (None, Seq::empty())
    } else {
        plan_step(plan_upto(q, (k - 1) as nat, lu), q, (k - 1) as usize, lu)
    }
}

/// The merges of a list of instructions, in order.
pub open spec fn merge_plan(q: Seq<ReactiveInstruction>, lu: Map<u32, u32>) -> Seq<Rec> {
    plan_upto(q, q.len(), lu).1
}

pub open spec fn cand_view(c: Option<(usize, Accumulator, Vec<usize>)>) -> Option<Cand> {
    match c {
        Some(x) => Some((x.0, acc_view(x.1), x.2@)),
        None => None,
    }
}

pub open spec fn records_view(r: Seq<(usize, Vec<usize>, usize)>) -> Seq<Rec> {
    r.map_values(|x: (usize, Vec<usize>, usize)| (x.0, x.1@, x.2))
}

/// Walk the instructions of a block and record which scopes merge.
fn build_merge_plan(items: &Vec<ReactiveInstruction>, last_usage: &FxHashMap<u32, u32>) -> (records: Vec<(usize, Vec<usize>, usize)>)
    requires
        items@.len() <= usize::MAX,
    ensures
        records_view(records@) == merge_plan(items@, last_usage@),
{
    let ghost q = items@;
    let ghost lu = last_usage@;
    let mut records: Vec<(usize, Vec<usize>, usize)> = Vec::new();
    let mut candidate: Option<(usize, Accumulator, Vec<usize>)> = None;
    proof {
        assert(records_view(records@) =~= Seq::<Rec>::empty());
    }
    let mut i: usize = 0;
    while i < items.len()
        invariant
            i <= q.len(),
            q == items@,
            lu == last_usage@,
            q.len() <= usize::MAX,
            (cand_view(candidate), records_view(records@)) == plan_upto(q, i as nat, lu),
            match candidate {
                Some(c) => c.0 < i,
                None => true,
            },
        decreases items.len() - i,
    {
        let ghost p = plan_upto(q, i as nat, lu);
        match &items[i] {
            ReactiveInstruction::Terminal(_) => {
                candidate = None;
            },
            ReactiveInstruction::Instruction(instr) => {
                let keep = match &mut candidate {
                    Some(c) => {
                        if accumulate_intermediate_instruction(instr, &mut c.1) {
                            c.2.push(i);
                            true
                        } else {
                            false
                        }
                    },
                    None => true,
                };
                if !keep {
                    candidate = None;
                }
            },
            ReactiveInstruction::Scope(scope_block) => {
                let should_merge = match &candidate {
                    Some(c) => match &items[c.0] {
                        ReactiveInstruction::Scope(cand_scope) => can_merge_scopes(&cand_scope.scope, &scope_block.scope, &c.1.temporaries)
                            && are_lvalues_last_used_by_scope(&scope_block.scope, &c.1.lvalues, last_usage),
                        _ => false,
                    },
                    None => false,
                };
                let eligible = scope_is_eligible_for_merging(&scope_block.scope);
                if should_merge {
                    let mut taken: Option<(usize, Accumulator, Vec<usize>)> = None;
                    std::mem::swap(&mut taken, &mut candidate);
                    match taken {
                        Some((winner, _acc, gaps)) => {
                            let ghost prev = records@;
                            records.push((winner, gaps, i));
                            proof {
                                assert(records_view(records@) =~= records_view(prev).push((winner, gaps@, i)));
                            }
                            if eligible {
                                candidate = Some((winner, new_accumulator(), Vec::new()));
                            }
                        },
                        None => {},
                    }
                } else {
                    if eligible {
                        candidate = Some((i, new_accumulator(), Vec::new()));
                    } else {
                        candidate = None;
                    }
                }
            },
        }
        proof {
            assert(plan_upto(q, (i + 1) as nat, lu) == plan_step(p, q, i, lu));
        }
        i = i + 1;
    }
    records
}

/// A merge of a scope into an earlier scope, over instructions between them
/// in increasing order.
pub open spec fn rec_ok(q: Seq<ReactiveInstruction>, r: Rec) -> bool {
    &&& r.0 < r.2 < q.len()
    &&& q[r.0 as int] is Scope
    &&& q[r.2 as int] is Scope
    &&& forall|j: int| 0 <= j < r.1.len() ==> r.0 < #[trigger] r.1[j] < r.2 && q[r.1[j] as int] is Instruction
    &&& forall|j1: int, j2: int| 0 <= j1 < j2 < r.1.len() ==> r.1[j1] < r.1[j2]
}

/// Later merges absorb later instructions, and merge into the same scope or
/// into one after the earlier absorbed scopes.
pub open spec fn recs_ordered(recs: Seq<Rec>) -> bool {
    forall|k1: int, k2: int| 0 <= k1 < k2 < recs.len() ==> {
        &&& (#[trigger] recs[k1]).2 < (#[trigger] recs[k2]).2
        &&& forall|j: int| 0 <= j < recs[k2].1.len() ==> recs[k1].2 < #[trigger] recs[k2].1[j]
        &&& (recs[k2].0 == recs[k1].0 || recs[k1].2 < recs[k2].0)
    }
}

pub open spec fn cand_ok(q: Seq<ReactiveInstruction>, c: Cand, recs: Seq<Rec>, k: nat) -> bool {
    &&& c.0 < k
    &&& q[c.0 as int] is Scope
    &&& forall|j: int| 0 <= j < c.2.len() ==> c.0 < #[trigger] c.2[j] < k && q[c.2[j] as int] is Instruction
    &&& forall|j1: int, j2: int| 0 <= j1 < j2 < c.2.len() ==> c.2[j1] < c.2[j2]
    &&& forall|m: int, j: int| 0 <= m < recs.len() && 0 <= j < c.2.len() ==> (#[trigger] recs[m]).2 < #[trigger] c.2[j]
    &&& recs.len() > 0 ==> (c.0 == recs.last().0 || recs.last().2 < c.0)
}

pub open spec fn plan_ok(q: Seq<ReactiveInstruction>, p: Plan, k: nat) -> bool {
    &&& forall|m: int| 0 <= m < p.1.len() ==> rec_ok(q, #[trigger] p.1[m]) && p.1[m].2 < k
    &&& recs_ordered(p.1)
    &&& match p.0 {
        Some(c) => cand_ok(q, c, p.1, k),
        None => true,
    }
}

proof fn lemma_plan_ok(q: Seq<ReactiveInstruction>, k: nat, lu: Map<u32, u32>)
    requires
        k <= q.len(),
        q.len() <= usize::MAX,
    ensures
        plan_ok(q, plan_upto(q, k, lu), k),
    decreases k,
{
    if k > 0 {
        let k1 = (k - 1) as nat;
        lemma_plan_ok(q, k1, lu);
        let p = plan_upto(q, k1, lu);
        let i = k1 as usize;
        let np = plan_step(p, q, i, lu);
        assert(plan_upto(q, k, lu) == np);
        match q[i as int] {
            ReactiveInstruction::Terminal(_) => {
                assert(plan_ok(q, np, k));
            },
            ReactiveInstruction::Instruction(ins) => {
                match p.0 {
                    Some(c) => {
                        match accumulate(c.1, ins) {
                            Some(a) => {
                                let nc = (c.0, a, c.2.push(i));
                                assert(np.0 == Some(nc));
                                assert forall|j: int| 0 <= j < nc.2.len() implies nc.0 < #[trigger] nc.2[j] < k && q[nc.2[j] as int] is Instruction by {
                                    if j < c.2.len() {
                                        assert(nc.2[j] == c.2[j]);
                                    }
                                }
                                assert forall|j1: int, j2: int| 0 <= j1 < j2 < nc.2.len() implies nc.2[j1] < nc.2[j2] by {
                                    assert(nc.2[j1] == c.2[j1]);
                                    if j2 < c.2.len() {
                                        assert(nc.2[j2] == c.2[j2]);
                                    }
                                }
                                assert forall|m: int, j: int| 0 <= m < p.1.len() && 0 <= j < nc.2.len() implies (#[trigger] p.1[m]).2 < #[trigger] nc.2[j] by {
                                    if j < c.2.len() {
                                        assert(nc.2[j] == c.2[j]);
                                    }
                                }
                                assert(cand_ok(q, nc, p.1, k));
                            },
                            None => {},
                        }
                    },
                    None => {},
                }
                assert(plan_ok(q, np, k));
            },
            ReactiveInstruction::Scope(sb) => {
                let should = match p.0 {
                    Some(c) => q[c.0 as int] is Scope
                        && can_merge(q[c.0 as int]->Scope_0.scope, sb.scope, c.1.1)
                        && lvalues_die_in(sb.scope, c.1.0, lu),
                    None => false,
                };
                if should {
                    let c = p.0->Some_0;
                    let r = (c.0, c.2, i);
                    let recs = p.1.push(r);
                    assert(np.1 == recs);
                    assert(rec_ok(q, r));
                    assert forall|m: int| 0 <= m < recs.len() implies rec_ok(q, #[trigger] recs[m]) && recs[m].2 < k by {
                        if m < p.1.len() {
                            assert(recs[m] == p.1[m]);
                        }
                    }
                    assert forall|k1: int, k2: int| 0 <= k1 < k2 < recs.len() implies {
                        &&& (#[trigger] recs[k1]).2 < (#[trigger] recs[k2]).2
                        &&& forall|j: int| 0 <= j < recs[k2].1.len() ==> recs[k1].2 < #[trigger] recs[k2].1[j]
                        &&& (recs[k2].0 == recs[k1].0 || recs[k1].2 < recs[k2].0)
                    } by {
                        assert(recs[k1] == p.1[k1]);
                        if k2 < p.1.len() {
                            assert(recs[k2] == p.1[k2]);
                        } else {
                            assert(recs[k2] == r);
                            if p.1.len() > 0 {
                                let l = p.1.len() - 1;
                                assert(p.1.last() == p.1[l]);
                                if k1 < l {
                                    assert(p.1[k1].2 < p.1[l].2);
                                    assert(p.1[l].0 == p.1[k1].0 || p.1[k1].2 < p.1[l].0);
                                }
                            }
                        }
                    }
                    if eligible_for_merging(sb.scope) {
                        let nc = (c.0, empty_acc(), Seq::<usize>::empty());
                        assert(recs.last() == r);
                        assert(cand_ok(q, nc, recs, k));
                    }
                    assert(plan_ok(q, np, k));
                } else {
                    if eligible_for_merging(sb.scope) {
                        let nc = (i, empty_acc(), Seq::<usize>::empty());
                        if p.1.len() > 0 {
                            assert(p.1.last() == p.1[p.1.len() - 1]);
                        }
                        assert(cand_ok(q, nc, p.1, k));
                    }
                    assert(plan_ok(q, np, k));
                }
            },
        }
    }
}

// ---------------------------------------------------------------------------
// Applying the merge plan
// ---------------------------------------------------------------------------

/// A scope merged into so far: its body, dependencies, declarations,
/// merged ids and the end of its range.
pub struct WinnerState {
    pub body: Seq<ReactiveInstruction>,
    pub deps: Seq<ReactiveScopeDependency>,
    pub decls: Seq<(IdentifierId, ScopeDeclaration)>,
    pub merged: Seq<ScopeId>,
    pub end: InstructionId,
}

pub open spec fn initial_state(sb: ReactiveScopeBlock) -> WinnerState {
    WinnerState {
        body: sb.instructions.instructions@,
        deps: sb.scope.dependencies@,
        decls: sb.scope.declarations@,
        merged: sb.scope.merged@,
        end: sb.scope.range.end,
    }
}

/// A declaration stays in a merged scope unless its last read is known to
/// come before the scope's end.
pub open spec fn keep_decl(x: crate::hir::types::Identifier, end: u32, du: Map<u32, u32>) -> bool {
    match x.declaration_id {
        Some(d) => !du.contains_key(d.0) || du[d.0] >= end,
        None => true,
    }
}

pub open spec fn gap_items(q: Seq<ReactiveInstruction>, gaps: Seq<usize>) -> Seq<ReactiveInstruction> {
    gaps.map_values(|g: usize| q[g as int])
}

/// The scope after absorbing a merge: the range extends to the absorbed
/// scope's end, the instructions between and the absorbed body are
/// appended, new dependency keys are added, the absorbed declarations are
/// appended and the declarations no longer read after the scope dropped,
/// and the absorbed scope's id is recorded.
pub open spec fn absorb(ws: WinnerState, q: Seq<ReactiveInstruction>, r: Rec, du: Map<u32, u32>) -> WinnerState {
    match q[r.2 as int] {
        ReactiveInstruction::Scope(ab) => WinnerState {
            body: ws.body + gap_items(q, r.1) + ab.instructions.instructions@,
            deps: ws.deps + ab.scope.dependencies@.filter(|d: ReactiveScopeDependency| !has_key(ws.deps, d)),
            decls: (ws.decls + ab.scope.declarations@).filter(
                |e: (IdentifierId, ScopeDeclaration)| keep_decl(e.1.identifier, ab.scope.range.end.0, du),
            ),
            merged: ws.merged.push(ab.scope.id),
            end: ab.scope.range.end,
        },
        _ => ws,
    }
}

/// The scope at `w` after all the merges into it, in order.
pub open spec fn winner_state(q: Seq<ReactiveInstruction>, recs: Seq<Rec>, w: usize, du: Map<u32, u32>) -> WinnerState
    decreases recs.len(),
{
    if recs.len() == 0 {
        initial_state(q[w as int]->Scope_0)
    } else {
        let ws = winner_state(q, recs.drop_last(), w, du);
        if recs.last().0 == w { absorb(ws, q, recs.last(), du) } else { ws }
    }
}

/// The indices absorbed by the merges: instructions between and absorbed
/// scopes.
pub open spec fn absorbed(recs: Seq<Rec>) -> Set<usize>
    decreases recs.len(),
{
    if recs.len() == 0 {
        Set::empty()
    } else {
        absorbed(recs.drop_last()).union(recs.last().1.to_set()).insert(recs.last().2)
    }
}

pub open spec fn is_winner(recs: Seq<Rec>, i: usize) -> bool {
    exists|m: int| 0 <= m < recs.len() && (#[trigger] recs[m]).0 == i
}

/// The indices that remain, in order.
pub open spec fn survivors(len: nat, ab: Set<usize>) -> Seq<usize> {
    Seq::new(len, |i: int| i as usize).filter(|i: usize| !ab.contains(i))
}

/// What the instruction at `i` becomes: a scope merged into carries its
/// final state; anything else is unchanged.
pub open spec fn output_item(x: ReactiveInstruction, q: Seq<ReactiveInstruction>, i: usize, recs: Seq<Rec>, du: Map<u32, u32>) -> bool {
    if is_winner(recs, i) {
        let ws = winner_state(q, recs, i, du);
        let osb = q[i as int]->Scope_0;
        &&& x matches ReactiveInstruction::Scope(nsb)
        &&& nsb.instructions.instructions@ == ws.body
        &&& nsb.scope.dependencies@ == ws.deps
        &&& nsb.scope.declarations@ == ws.decls
        &&& nsb.scope.merged@ == ws.merged
        &&& nsb.scope.range == (MutableRange { start: osb.scope.range.start, end: ws.end })
        &&& nsb.scope == ReactiveScope {
            dependencies: nsb.scope.dependencies,
            declarations: nsb.scope.declarations,
            merged: nsb.scope.merged,
            range: nsb.scope.range,
            ..osb.scope
        }
    } else {
        x == q[i as int]
    }
}

/// `n` is `q` with the merges applied: the absorbed instructions removed and
/// the scopes merged into updated.
pub open spec fn merged_output(n: Seq<ReactiveInstruction>, q: Seq<ReactiveInstruction>, recs: Seq<Rec>, du: Map<u32, u32>) -> bool {
    let surv = survivors(q.len(), absorbed(recs));
    &&& n.len() == surv.len()
    &&& forall|j: int| 0 <= j < n.len() ==> output_item(#[trigger] n[j], q, surv[j], recs, du)
}

fn contains_key_prefix(q: &Vec<ReactiveScopeDependency>, n: usize, d: &ReactiveScopeDependency) -> (r: bool)
    requires
        n <= q@.len(),
    ensures
        r == has_key(q@.take(n as int), *d),
{
    let mut k: usize = 0;
    while k < n
        invariant
            k <= n <= q@.len(),
            forall|m: int| 0 <= m < k ==> !same_key(#[trigger] q@[m], *d),
        decreases n - k,
    {
        if same_dependency_key(&q[k], d) {
            proof {
                assert(q@.take(n as int)[k as int] == q@[k as int]);
            }
            return true;
        }
        k = k + 1;
    }
    proof {
        assert forall|m: int| 0 <= m < q@.take(n as int).len() implies !same_key(#[trigger] q@.take(n as int)[m], *d) by {
            assert(q@.take(n as int)[m] == q@[m]);
        }
    }
    false
}

/// Add the dependencies of an absorbed scope whose key the winner lacks.
fn merge_scope_deps(winner: &mut Vec<ReactiveScopeDependency>, absorbee: Vec<ReactiveScopeDependency>)
    ensures
        final(winner)@ == old(winner)@ + absorbee@.filter(|d: ReactiveScopeDependency| !has_key(old(winner)@, d)),
{
    let ghost o = winner@;
    let ghost a = absorbee@;
    let ghost pred = |d: ReactiveScopeDependency| !has_key(o, d);
    let n0 = winner.len();
    let mut rest = absorbee;
    let ghost mut k: int = 0;
    proof {
        assert(a.skip(0) =~= a);
        assert(a.take(0) =~= Seq::<ReactiveScopeDependency>::empty());
        assert(winner@ =~= o + a.take(0).filter(pred));
    }
    while rest.len() > 0
        invariant
            0 <= k <= a.len(),
            rest@ == a.skip(k),
            n0 == o.len(),
            pred == (|d: ReactiveScopeDependency| !has_key(o, d)),
            winner@ == o + a.take(k).filter(pred),
        decreases rest.len(),
    {
        let d = rest.remove(0);
        proof {
            assert(a.skip(k)[0] == a[k]);
            assert(a.take(k + 1).drop_last() =~= a.take(k));
            assert(a.take(k + 1).last() == a[k]);
            reveal_with_fuel(Seq::filter, 1);
            assert(winner@.take(n0 as int) =~= o);
        }
        if !contains_key_prefix(winner, n0, &d) {
            winner.push(d);
            proof {
                assert(winner@ =~= o + a.take(k + 1).filter(pred));
            }
        } else {
            proof {
                assert(winner@ =~= o + a.take(k + 1).filter(pred));
            }
        }
        proof {
            k = k + 1;
            assert(rest@ =~= a.skip(k));
        }
    }
    proof {
        assert(a.take(k) =~= a);
    }
}

fn keeps_declaration(x: &crate::hir::types::Identifier, end: u32, decl_last_usage: &FxHashMap<u32, u32>) -> (r: bool)
    ensures
        r == keep_decl(*x, end, decl_last_usage@),
{
    match x.declaration_id {
        Some(d) => match fx_map_get(decl_last_usage, d.0) {
            Some(last) => *last >= end,
            None => true,
        },
        None => true,
    }
}

/// Drop the declarations last read before the scope's end.
fn update_scope_declarations(decls: &mut Vec<(IdentifierId, ScopeDeclaration)>, end: u32, decl_last_usage: &FxHashMap<u32, u32>)
    ensures
        final(decls)@ == old(decls)@.filter(|e: (IdentifierId, ScopeDeclaration)| keep_decl(e.1.identifier, end, decl_last_usage@)),
{
    let ghost a = decls@;
    let ghost pred = |e: (IdentifierId, ScopeDeclaration)| keep_decl(e.1.identifier, end, decl_last_usage@);
    let mut rest: Vec<(IdentifierId, ScopeDeclaration)> = Vec::new();
    std::mem::swap(&mut rest, decls);
    let ghost mut k: int = 0;
    proof {
        assert(a.skip(0) =~= a);
        assert(a.take(0) =~= Seq::<(IdentifierId, ScopeDeclaration)>::empty());
        assert(decls@ =~= a.take(0).filter(pred));
    }
    while rest.len() > 0
        invariant
            0 <= k <= a.len(),
            rest@ == a.skip(k),
            pred == (|e: (IdentifierId, ScopeDeclaration)| keep_decl(e.1.identifier, end, decl_last_usage@)),
            decls@ == a.take(k).filter(pred),
        decreases rest.len(),
    {
        let e = rest.remove(0);
        proof {
            assert(a.skip(k)[0] == a[k]);
            assert(a.take(k + 1).drop_last() =~= a.take(k));
            assert(a.take(k + 1).last() == a[k]);
            reveal_with_fuel(Seq::filter, 1);
        }
        if keeps_declaration(&e.1.identifier, end, decl_last_usage) {
            decls.push(e);
        }
        proof {
            assert(decls@ =~= a.take(k + 1).filter(pred));
            k = k + 1;
            assert(rest@ =~= a.skip(k));
        }
    }
    proof {
        assert(a.take(k) =~= a);
    }
}

/// Absorb the instructions between and the absorbed scope into the winner.
fn absorb_into(
    winner: &mut ReactiveScopeBlock,
    gaps: Vec<ReactiveInstruction>,
    absorbee: ReactiveScopeBlock,
    decl_last_usage: &FxHashMap<u32, u32>,
)
    ensures
        final(winner).instructions.instructions@ == old(winner).instructions.instructions@ + gaps@ + absorbee.instructions.instructions@,
        final(winner).scope.dependencies@ == old(winner).scope.dependencies@ + absorbee.scope.dependencies@.filter(
            |d: ReactiveScopeDependency| !has_key(old(winner).scope.dependencies@, d),
        ),
        final(winner).scope.declarations@ == (old(winner).scope.declarations@ + absorbee.scope.declarations@).filter(
            |e: (IdentifierId, ScopeDeclaration)| keep_decl(e.1.identifier, absorbee.scope.range.end.0, decl_last_usage@),
        ),
        final(winner).scope.merged@ == old(winner).scope.merged@.push(absorbee.scope.id),
        final(winner).scope.range == (MutableRange { start: old(winner).scope.range.start, end: absorbee.scope.range.end }),
        final(winner).scope == (ReactiveScope {
            dependencies: final(winner).scope.dependencies,
            declarations: final(winner).scope.declarations,
            merged: final(winner).scope.merged,
            range: final(winner).scope.range,
            ..old(winner).scope
        }),
{
    let ReactiveScopeBlock { scope: mut ascope, instructions: mut abody } = absorbee;
    let mut gaps = gaps;
    winner.scope.range.end = ascope.range.end;
    winner.instructions.instructions.append(&mut gaps);
    winner.instructions.instructions.append(&mut abody.instructions);
    let mut adeps: Vec<ReactiveScopeDependency> = Vec::new();
    std::mem::swap(&mut adeps, &mut ascope.dependencies);
    merge_scope_deps(&mut winner.scope.dependencies, adeps);
    winner.scope.declarations.append(&mut ascope.declarations);
    update_scope_declarations(&mut winner.scope.declarations, winner.scope.range.end.0, decl_last_usage);
    winner.scope.merged.push(ascope.id);
}

proof fn lemma_absorbed_contains(recs: Seq<Rec>, x: usize)
    ensures
        absorbed(recs).contains(x) <==> exists|k: int| 0 <= k < recs.len() && ((#[trigger] recs[k]).1.contains(x) || recs[k].2 == x),
    decreases recs.len(),
{
    if recs.len() > 0 {
        lemma_absorbed_contains(recs.drop_last(), x);
        let l = recs.len() - 1;
        if absorbed(recs).contains(x) {
            if absorbed(recs.drop_last()).contains(x) {
                let k = choose|k: int| 0 <= k < recs.drop_last().len() && ((#[trigger] recs.drop_last()[k]).1.contains(x) || recs.drop_last()[k].2 == x);
                assert(recs[k] == recs.drop_last()[k]);
            } else {
                assert(recs[l] == recs.last());
                assert(recs.last().1.to_set().contains(x) ==> recs.last().1.contains(x));
            }
        }
        if exists|k: int| 0 <= k < recs.len() && ((#[trigger] recs[k]).1.contains(x) || recs[k].2 == x) {
            let k = choose|k: int| 0 <= k < recs.len() && ((#[trigger] recs[k]).1.contains(x) || recs[k].2 == x);
            if k < l {
                assert(recs.drop_last()[k] == recs[k]);
            } else {
                assert(recs[k] == recs.last());
                if recs.last().1.contains(x) {
                    assert(recs.last().1.to_set().contains(x));
                }
            }
        }
    }
}

proof fn lemma_initial_when_not_winner(q: Seq<ReactiveInstruction>, recs: Seq<Rec>, w: usize, du: Map<u32, u32>)
    requires
        !is_winner(recs, w),
    ensures
        winner_state(q, recs, w, du) == initial_state(q[w as int]->Scope_0),
    decreases recs.len(),
{
    if recs.len() > 0 {
        assert(recs.last() == recs[recs.len() - 1]);
        assert forall|m: int| 0 <= m < recs.drop_last().len() implies (#[trigger] recs.drop_last()[m]).0 != w by {
            assert(recs.drop_last()[m] == recs[m]);
        }
        lemma_initial_when_not_winner(q, recs.drop_last(), w, du);
    }
}

/// The slots while merges are applied: each absorbed index is empty, every
/// other one holds what `output_item` says for the merges done so far.
pub open spec fn slots_ok(slots: Seq<Option<ReactiveInstruction>>, q: Seq<ReactiveInstruction>, done: Seq<Rec>, du: Map<u32, u32>) -> bool {
    &&& slots.len() == q.len()
    &&& forall|i: int| 0 <= i < q.len() ==> {
        if absorbed(done).contains(i as usize) {
            (#[trigger] slots[i]) is None
        } else {
            slots[i] matches Some(x) && output_item(x, q, i as usize, done, du)
        }
    }
}

/// Facts about the next merge, given the earlier ones: what it absorbs is
/// not absorbed yet and is no scope merged into, and the scope it merges
/// into is never absorbed.
proof fn lemma_next_merge(q: Seq<ReactiveInstruction>, recs: Seq<Rec>, t: int)
    requires
        0 <= t < recs.len(),
        forall|m: int| 0 <= m < recs.len() ==> rec_ok(q, #[trigger] recs[m]),
        recs_ordered(recs),
    ensures
        forall|j: int| 0 <= j < recs[t].1.len() ==> !absorbed(recs.take(t)).contains(#[trigger] recs[t].1[j]) && !is_winner(recs.take(t), recs[t].1[j]),
        !absorbed(recs.take(t)).contains(recs[t].2),
        !is_winner(recs.take(t), recs[t].2),
        !absorbed(recs.take(t + 1)).contains(recs[t].0),
{
    let done = recs.take(t);
    let r = recs[t];
    assert(rec_ok(q, r));
    assert forall|j: int| 0 <= j < r.1.len() implies !absorbed(done).contains(#[trigger] r.1[j]) && !is_winner(done, r.1[j]) by {
        let g = r.1[j];
        lemma_absorbed_contains(done, g);
        if absorbed(done).contains(g) {
            let k = choose|k: int| 0 <= k < done.len() && ((#[trigger] done[k]).1.contains(g) || done[k].2 == g);
            assert(done[k] == recs[k]);
            assert(rec_ok(q, recs[k]));
            assert(recs[k].2 < recs[t].1[j]);
            if recs[k].1.contains(g) {
                let jj = choose|jj: int| 0 <= jj < recs[k].1.len() && recs[k].1[jj] == g;
                assert(recs[k].1[jj] < recs[k].2);
            }
        }
        if is_winner(done, g) {
            let m = choose|m: int| 0 <= m < done.len() && (#[trigger] done[m]).0 == g;
            assert(done[m] == recs[m]);
            assert(rec_ok(q, recs[m]));
        }
    }
    lemma_absorbed_contains(done, r.2);
    if absorbed(done).contains(r.2) {
        let k = choose|k: int| 0 <= k < done.len() && ((#[trigger] done[k]).1.contains(r.2) || done[k].2 == r.2);
        assert(done[k] == recs[k]);
        assert(rec_ok(q, recs[k]));
        assert(recs[k].2 < recs[t].2);
        if recs[k].1.contains(r.2) {
            let jj = choose|jj: int| 0 <= jj < recs[k].1.len() && recs[k].1[jj] == r.2;
            assert(recs[k].1[jj] < recs[k].2);
        }
    }
    if is_winner(done, r.2) {
        let m = choose|m: int| 0 <= m < done.len() && (#[trigger] done[m]).0 == r.2;
        assert(done[m] == recs[m]);
        assert(rec_ok(q, recs[m]));
        assert(recs[m].2 < recs[t].2);
    }
    let done1 = recs.take(t + 1);
    lemma_absorbed_contains(done1, r.0);
    if absorbed(done1).contains(r.0) {
        let k = choose|k: int| 0 <= k < done1.len() && ((#[trigger] done1[k]).1.contains(r.0) || done1[k].2 == r.0);
        assert(done1[k] == recs[k]);
        assert(rec_ok(q, recs[k]));
        if k < t {
            assert(recs[t].0 == recs[k].0 || recs[k].2 < recs[t].0);
        }
        if recs[k].1.contains(r.0) {
            let jj = choose|jj: int| 0 <= jj < recs[k].1.len() && recs[k].1[jj] == r.0;
            assert(recs[k].0 < recs[k].1[jj] < recs[k].2);
        }
    }
}


/// The winner after `absorb_into`, from the winner before, the instructions
/// between and the absorbed scope.
pub open spec fn absorbed_into(n: ReactiveScopeBlock, o: ReactiveScopeBlock, gaps: Seq<ReactiveInstruction>, ab: ReactiveScopeBlock, du: Map<u32, u32>) -> bool {
    &&& n.instructions.instructions@ == o.instructions.instructions@ + gaps + ab.instructions.instructions@
    &&& n.scope.dependencies@ == o.scope.dependencies@ + ab.scope.dependencies@.filter(
        |d: ReactiveScopeDependency| !has_key(o.scope.dependencies@, d),
    )
    &&& n.scope.declarations@ == (o.scope.declarations@ + ab.scope.declarations@).filter(
        |e: (IdentifierId, ScopeDeclaration)| keep_decl(e.1.identifier, ab.scope.range.end.0, du),
    )
    &&& n.scope.merged@ == o.scope.merged@.push(ab.scope.id)
    &&& n.scope.range == (MutableRange { start: o.scope.range.start, end: ab.scope.range.end })
    &&& n.scope == ReactiveScope {
        dependencies: n.scope.dependencies,
        declarations: n.scope.declarations,
        merged: n.scope.merged,
        range: n.scope.range,
        ..o.scope
    }
}

proof fn lemma_slots_after_merge(
    before: Seq<Option<ReactiveInstruction>>,
    after: Seq<Option<ReactiveInstruction>>,
    q: Seq<ReactiveInstruction>,
    recs: Seq<Rec>,
    t: int,
    du: Map<u32, u32>,
    ob: ReactiveScopeBlock,
    nb: ReactiveScopeBlock,
)
    requires
        0 <= t < recs.len(),
        forall|m: int| 0 <= m < recs.len() ==> rec_ok(q, #[trigger] recs[m]),
        recs_ordered(recs),
        slots_ok(before, q, recs.take(t), du),
        after.len() == q.len(),
        before[recs[t].0 as int] == Some(ReactiveInstruction::Scope(ob)),
        after[recs[t].0 as int] == Some(ReactiveInstruction::Scope(nb)),
        absorbed_into(nb, ob, gap_items(q, recs[t].1), q[recs[t].2 as int]->Scope_0, du),
        q.len() <= usize::MAX,
        after[recs[t].2 as int] is None,
        forall|j: int| 0 <= j < recs[t].1.len() ==> after[#[trigger] recs[t].1[j] as int] is None,
        forall|i: int| 0 <= i < q.len() && i != recs[t].0 as int && i != recs[t].2 as int && !recs[t].1.contains(i as usize) ==> #[trigger] after[i] == before[i],
    ensures
        slots_ok(after, q, recs.take(t + 1), du),
{
    let done = recs.take(t);
    let done1 = recs.take(t + 1);
    let r = recs[t];
    let w = r.0;
    lemma_next_merge(q, recs, t);
    assert(done1.drop_last() =~= done);
    assert(done1.last() == r);
    assert(absorbed(done1) == absorbed(done).union(r.1.to_set()).insert(r.2));
    assert(rec_ok(q, r));
    if !is_winner(done, w) {
        lemma_initial_when_not_winner(q, done, w, du);
    }
    assert(winner_state(q, done1, w, du) == absorb(winner_state(q, done, w, du), q, r, du));
    assert(is_winner(done1, w)) by {
        assert(done1[t] == r);
    }
    assert forall|i: int| 0 <= i < q.len() implies {
        if absorbed(done1).contains(i as usize) {
            (#[trigger] after[i]) is None
        } else {
            after[i] matches Some(x) && output_item(x, q, i as usize, done1, du)
        }
    } by {
        let iu = i as usize;
        if r.1.to_set().contains(iu) {
            assert(r.1.contains(iu));
            let j = choose|j: int| 0 <= j < r.1.len() && r.1[j] == iu;
            assert(after[r.1[j] as int] is None);
        } else if iu == r.2 {
        } else if iu == w {
            assert(!absorbed(done).contains(w));
            assert(!absorbed(done1).contains(w));
            let ws = winner_state(q, done, w, du);
            let ws1 = winner_state(q, done1, w, du);
            let osb = q[w as int]->Scope_0;
            let ab = q[r.2 as int]->Scope_0;
            assert(output_item(ReactiveInstruction::Scope(ob), q, w, done, du));
            if !is_winner(done, w) {
                assert(ReactiveInstruction::Scope(ob) == q[w as int]);
            }
            assert(ob.instructions.instructions@ == ws.body);
            assert(ob.scope.dependencies@ == ws.deps);
            assert(ob.scope.declarations@ == ws.decls);
            assert(ob.scope.merged@ == ws.merged);
            assert(ob.scope.range.end == ws.end);
            assert(ob.scope.range.start == osb.scope.range.start);
            assert(q[r.2 as int] == ReactiveInstruction::Scope(ab));
            assert(ws1 == absorb(ws, q, r, du));
            assert(nb.instructions.instructions@ == ws1.body);
            assert(nb.scope.dependencies@ == ws1.deps);
            assert(nb.scope.declarations@ == ws1.decls);
            assert(nb.scope.merged@ == ws1.merged);
            assert(nb.scope.range == (MutableRange { start: osb.scope.range.start, end: ws1.end }));
            assert(after[i] == Some(ReactiveInstruction::Scope(nb)));
            assert(output_item(after[i]->Some_0, q, iu, done1, du));
        } else {
            assert(!r.1.contains(iu)) by {
                if r.1.contains(iu) {
                    assert(r.1.to_set().contains(iu));
                }
            }
            assert(after[i] == before[i]);
            assert(winner_state(q, done1, iu, du) == winner_state(q, done, iu, du));
            assert(is_winner(done1, iu) == is_winner(done, iu)) by {
                if is_winner(done1, iu) {
                    let m = choose|m: int| 0 <= m < done1.len() && (#[trigger] done1[m]).0 == iu;
                    assert(m < t);
                    assert(done[m] == done1[m]);
                }
                if is_winner(done, iu) {
                    let m = choose|m: int| 0 <= m < done.len() && (#[trigger] done[m]).0 == iu;
                    assert(done1[m] == done[m]);
                }
            }
            assert(absorbed(done1).contains(iu) == absorbed(done).contains(iu));
        }
    }
}

/// Apply the merges to the instructions of a block.
fn apply_merge_plan(
    items: Vec<ReactiveInstruction>,
    records: &Vec<(usize, Vec<usize>, usize)>,
    decl_last_usage: &FxHashMap<u32, u32>,
) -> (out: Vec<ReactiveInstruction>)
    requires
        forall|m: int| 0 <= m < records@.len() ==> rec_ok(items@, #[trigger] records_view(records@)[m]),
        recs_ordered(records_view(records@)),
    ensures
        merged_output(out@, items@, records_view(records@), decl_last_usage@),
{
    let ghost q = items@;
    let ghost recs = records_view(records@);
    let ghost du = decl_last_usage@;
    let n_items = items.len();
    proof {
        assert(q.len() == n_items);
    }
    let mut indexed: Vec<Option<ReactiveInstruction>> = Vec::new();
    let mut rest = items;
    let ghost mut k: int = 0;
    proof {
        assert(q.skip(0) =~= q);
    }
    while rest.len() > 0
        invariant
            0 <= k <= q.len(),
            q.len() <= usize::MAX,
            rest@ == q.skip(k),
            indexed@.len() == k,
            forall|i: int| 0 <= i < k ==> #[trigger] indexed@[i] == Some(q[i]),
        decreases rest.len(),
    {
        let x = rest.remove(0);
        proof {
            assert(q.skip(k)[0] == q[k]);
        }
        indexed.push(Some(x));
        proof {
            k = k + 1;
            assert(rest@ =~= q.skip(k));
        }
    }
    proof {
        assert(k == q.len());
        assert(recs.take(0) =~= Seq::<Rec>::empty());
        assert forall|i: int| 0 <= i < q.len() implies {
            if absorbed(recs.take(0)).contains(i as usize) {
                (#[trigger] indexed@[i]) is None
            } else {
                indexed@[i] matches Some(x) && output_item(x, q, i as usize, recs.take(0), du)
            }
        } by {
            assert(!absorbed(Seq::<Rec>::empty()).contains(i as usize));
            assert(!is_winner(Seq::<Rec>::empty(), i as usize));
            assert(indexed@[i] == Some(q[i]));
        }
    }
    let mut t: usize = 0;
    while t < records.len()
        invariant
            t <= records@.len(),
            q == items@,
            q.len() <= usize::MAX,
            recs == records_view(records@),
            du == decl_last_usage@,
            forall|m: int| 0 <= m < recs.len() ==> rec_ok(q, #[trigger] recs[m]),
            recs_ordered(recs),
            slots_ok(indexed@, q, recs.take(t as int), du),
        decreases records.len() - t,
    {
        let ghost r = recs[t as int];
        let ghost before = indexed@;
        proof {
            lemma_next_merge(q, recs, t as int);
            assert(r == (records@[t as int].0, records@[t as int].1@, records@[t as int].2));
            assert(rec_ok(q, r));
            assert forall|jj: int| 0 <= jj < r.1.len() implies #[trigger] before[r.1[jj] as int] == Some(q[r.1[jj] as int]) by {
                assert(!is_winner(recs.take(t as int), r.1[jj]));
                assert(!absorbed(recs.take(t as int)).contains(r.1[jj]));
            }
            assert(before[r.2 as int] == Some(q[r.2 as int]));
        }
        let gaps = &records[t].1;
        let mut gap_instrs: Vec<ReactiveInstruction> = Vec::new();
        let mut j: usize = 0;
        proof {
            assert(r.1.take(0) =~= Seq::<usize>::empty());
            assert(gap_items(q, r.1.take(0)) =~= Seq::<ReactiveInstruction>::empty());
        }
        while j < gaps.len()
            invariant
                j <= r.1.len(),
                q.len() <= usize::MAX,
                gaps@ == r.1,
                rec_ok(q, r),
                indexed@.len() == q.len(),
                before.len() == q.len(),
                forall|jj: int| 0 <= jj < r.1.len() ==> #[trigger] before[r.1[jj] as int] == Some(q[r.1[jj] as int]),
                gap_instrs@ == gap_items(q, r.1.take(j as int)),
                forall|i: int| 0 <= i < q.len() ==> #[trigger] indexed@[i] == (if r.1.take(j as int).contains(i as usize) { None } else { before[i] }),
            decreases gaps.len() - j,
        {
            let gi = gaps[j];
            let ghost pre = indexed@;
            proof {
                assert(!r.1.take(j as int).contains(gi)) by {
                    if r.1.take(j as int).contains(gi) {
                        let t0 = r.1.take(j as int);
                        let m = choose|m: int| 0 <= m < t0.len() && #[trigger] t0[m] == gi;
                        assert(r.1[m] < r.1[j as int]);
                    }
                }
                assert(pre[gi as int] == before[gi as int]);
            }
            let mut slot: Option<ReactiveInstruction> = None;
            std::mem::swap(&mut slot, &mut indexed[gi]);
            proof {
                assert(slot == Some(q[gi as int]));
                assert(indexed@ == pre.update(gi as int, None));
                let t0 = r.1.take(j as int);
                let t1 = r.1.take(j + 1);
                assert(t1 =~= t0.push(gi));
                assert forall|i: int| 0 <= i < q.len() implies #[trigger] indexed@[i] == (if t1.contains(i as usize) { None } else { before[i] }) by {
                    if i != gi as int {
                        if t1.contains(i as usize) {
                            let m = choose|m: int| 0 <= m < t1.len() && #[trigger] t1[m] == i as usize;
                            assert(m < j);
                            assert(t0[m] == i as usize);
                        }
                        if t0.contains(i as usize) {
                            let m = choose|m: int| 0 <= m < t0.len() && #[trigger] t0[m] == i as usize;
                            assert(t1[m] == i as usize);
                        }
                    } else {
                        assert(t1[j as int] == gi);
                    }
                }
            }
            if let Some(x) = slot {
                gap_instrs.push(x);
            }
            proof {
                assert(gap_instrs@ =~= gap_items(q, r.1.take(j + 1)));
            }
            j = j + 1;
        }
        proof {
            assert(r.1.take(j as int) =~= r.1);
        }
        let a = records[t].2;
        let w = records[t].0;
        proof {
            assert(!r.1.contains(a)) by {
                if r.1.contains(a) {
                    let m = choose|m: int| 0 <= m < r.1.len() && #[trigger] r.1[m] == a;
                }
            }
            assert(!r.1.contains(w)) by {
                if r.1.contains(w) {
                    let m = choose|m: int| 0 <= m < r.1.len() && #[trigger] r.1[m] == w;
                }
            }
        }
        let mut aslot: Option<ReactiveInstruction> = None;
        std::mem::swap(&mut aslot, &mut indexed[a]);
        let ghost mid = indexed@;
        proof {
            assert(aslot == Some(q[a as int]));
            assert(mid[w as int] == before[w as int]);
            assert(!absorbed(recs.take(t as int)).contains(w)) by {
                lemma_absorbed_contains(recs.take(t as int + 1), w);
                lemma_absorbed_contains(recs.take(t as int), w);
                if absorbed(recs.take(t as int)).contains(w) {
                    let kk = choose|kk: int| 0 <= kk < recs.take(t as int).len() && ((#[trigger] recs.take(t as int)[kk]).1.contains(w) || recs.take(t as int)[kk].2 == w);
                    assert(recs.take(t as int + 1)[kk] == recs.take(t as int)[kk]);
                }
            }
        }
        if let Some(ReactiveInstruction::Scope(absorbee)) = aslot {
            let ghost ob = before[w as int]->Some_0->Scope_0;
            proof {
                if !is_winner(recs.take(t as int), w) {
                    assert(before[w as int] == Some(q[w as int]));
                }
                assert(before[w as int] == Some(ReactiveInstruction::Scope(ob)));
            }
            match &mut indexed[w] {
                Some(ReactiveInstruction::Scope(winner)) => {
                    absorb_into(winner, gap_instrs, absorbee, decl_last_usage);
                },
                _ => {},
            }
            proof {
                let after = indexed@;
                let nb = after[w as int]->Some_0->Scope_0;
                assert(after[w as int] == Some(ReactiveInstruction::Scope(nb)));
                assert(absorbed_into(nb, ob, gap_items(q, r.1), q[r.2 as int]->Scope_0, du));
                assert forall|i: int| 0 <= i < q.len() && i != r.0 as int && i != r.2 as int && !r.1.contains(i as usize) implies #[trigger] after[i] == before[i] by {
                    if r.1.take(r.1.len() as int).contains(i as usize) {
                        assert(r.1.take(r.1.len() as int) =~= r.1);
                    }
                }
                assert forall|jj: int| 0 <= jj < r.1.len() implies after[#[trigger] r.1[jj] as int] is None by {
                    assert(r.1.take(r.1.len() as int) =~= r.1);
                    assert(r.1.contains(r.1[jj]));
                }
                lemma_slots_after_merge(before, after, q, recs, t as int, du, ob, nb);
            }
        }
        t = t + 1;
    }
    proof {
        assert(recs.take(records@.len() as int) =~= recs);
    }
    let ghost ab = absorbed(recs);
    let mut out: Vec<ReactiveInstruction> = Vec::new();
    let mut slots = indexed;
    let ghost slots0 = slots@;
    let ghost mut m: int = 0;
    proof {
        assert(slots0.skip(0) =~= slots0);
        assert(survivors(0, ab) =~= Seq::<usize>::empty()) by {
            reveal_with_fuel(Seq::filter, 1);
            assert(Seq::new(0, |i: int| i as usize) =~= Seq::<usize>::empty());
        }
    }
    while slots.len() > 0
        invariant
            0 <= m <= q.len(),
            q.len() <= usize::MAX,
            slots0.len() == q.len(),
            slots@ == slots0.skip(m),
            slots_ok(slots0, q, recs, du),
            ab == absorbed(recs),
            out@.len() == survivors(m as nat, ab).len(),
            forall|jj: int| 0 <= jj < out@.len() ==> output_item(#[trigger] out@[jj], q, survivors(m as nat, ab)[jj], recs, du),
        decreases slots.len(),
    {
        let slot = slots.remove(0);
        proof {
            assert(slots0.skip(m)[0] == slots0[m]);
            let f = |i: int| i as usize;
            let p = |i: usize| !ab.contains(i);
            assert(Seq::new((m + 1) as nat, f).drop_last() =~= Seq::new(m as nat, f));
            assert(Seq::new((m + 1) as nat, f).last() == m as usize);
            reveal_with_fuel(Seq::filter, 1);
            assert(survivors((m + 1) as nat, ab) == survivors(m as nat, ab) + (if p(m as usize) { seq![m as usize] } else { Seq::empty() }));
        }
        let ghost prev = out@;
        if let Some(x) = slot {
            out.push(x);
            proof {
                assert(!ab.contains(m as usize));
                assert forall|jj: int| 0 <= jj < out@.len() implies output_item(#[trigger] out@[jj], q, survivors((m + 1) as nat, ab)[jj], recs, du) by {
                    if jj < prev.len() {
                        assert(out@[jj] == prev[jj]);
                        assert(survivors((m + 1) as nat, ab)[jj] == survivors(m as nat, ab)[jj]);
                    } else {
                        assert(survivors((m + 1) as nat, ab)[jj] == m as usize);
                    }
                }
            }
        } else {
            proof {
                assert(ab.contains(m as usize));
                assert(survivors((m + 1) as nat, ab) =~= survivors(m as nat, ab));
            }
        }
        proof {
            m = m + 1;
            assert(slots@ =~= slots0.skip(m));
        }
    }
    out
}


// ---------------------------------------------------------------------------
// The pass over the tree
// ---------------------------------------------------------------------------

/// The intermediate results the pass produces while it walks the tree, so
/// that the relation below can name them: for a block, its instructions
/// after the nested blocks were merged and nested scopes flattened, with a
/// trace per instruction; for a scope, its body after merging; for a
/// terminal, a trace per child block.
pub enum MergeTrace {
    Block(Seq<ReactiveInstruction>, Seq<MergeTrace>),
    Scope(ReactiveBlock, Box<MergeTrace>),
    Terminal(Seq<MergeTrace>),
    Plain,
}

/// `n` is the block `o` after merging: first every nested block is merged
/// and every scope flattened, giving `mid`; then the merges that the plan
/// finds in `mid` are applied.
pub open spec fn merged_block(n: ReactiveBlock, o: ReactiveBlock, lu: Map<u32, u32>, du: Map<u32, u32>, t: MergeTrace) -> bool
    decreases o,
{
    &&& t matches MergeTrace::Block(mid, ts)
    &&& merged_items(mid, o.instructions@, lu, du, ts)
    &&& merged_output(n.instructions@, mid, merge_plan(mid, lu), du)
}

/// Each instruction of `o` becomes the instruction of `mid` at the same index.
pub open spec fn merged_items(
    mid: Seq<ReactiveInstruction>,
    o: Seq<ReactiveInstruction>,
    lu: Map<u32, u32>,
    du: Map<u32, u32>,
    ts: Seq<MergeTrace>,
) -> bool
    decreases o,
{
    &&& mid.len() == o.len()
    &&& ts.len() == o.len()
    &&& o.len() > 0 ==> {
        &&& merged_items(mid.drop_last(), o.drop_last(), lu, du, ts.drop_last())
        &&& merged_item(mid.last(), o.last(), lu, du, ts.last())
    }
}

/// A plain instruction stays; a terminal has its blocks merged; a scope has
/// its body merged and is then flattened.
pub open spec fn merged_item(x: ReactiveInstruction, o: ReactiveInstruction, lu: Map<u32, u32>, du: Map<u32, u32>, t: MergeTrace) -> bool
    decreases o,
{
    match o {
        ReactiveInstruction::Instruction(_) => x == o,
        ReactiveInstruction::Terminal(tm) => {
            &&& x matches ReactiveInstruction::Terminal(nt)
            &&& merged_terminal(nt, tm, lu, du, t)
        },
        ReactiveInstruction::Scope(sb) => {
            &&& x matches ReactiveInstruction::Scope(fb)
            &&& t matches MergeTrace::Scope(nb, inner)
            &&& merged_block(nb, sb.instructions, lu, du, *inner)
            &&& flattened(fb, ReactiveScopeBlock { scope: sb.scope, instructions: nb })
        },
    }
}

pub open spec fn merged_opt(n: Option<ReactiveBlock>, o: Option<ReactiveBlock>, lu: Map<u32, u32>, du: Map<u32, u32>, t: MergeTrace) -> bool
    decreases o,
{
    match o {
        Some(ob) => n matches Some(nb) && merged_block(nb, ob, lu, du, t),
        None => n is None,
    }
}

pub open spec fn merged_cases(
    n: Seq<(Option<Place>, ReactiveBlock)>,
    o: Seq<(Option<Place>, ReactiveBlock)>,
    lu: Map<u32, u32>,
    du: Map<u32, u32>,
    ts: Seq<MergeTrace>,
) -> bool
    decreases o,
{
    &&& n.len() == o.len()
    &&& ts.len() == o.len()
    &&& o.len() > 0 ==> {
        &&& n.last().0 == o.last().0
        &&& merged_cases(n.drop_last(), o.drop_last(), lu, du, ts.drop_last())
        &&& merged_block(n.last().1, o.last().1, lu, du, ts.last())
    }
}

/// A terminal with its own fields unchanged and each child block merged.
pub open spec fn merged_terminal(n: ReactiveTerminal, o: ReactiveTerminal, lu: Map<u32, u32>, du: Map<u32, u32>, tr: MergeTrace) -> bool
    decreases o,
{
    &&& same_terminal_fields(n, o)
    &&& tr matches MergeTrace::Terminal(t)
    &&& match o {
        ReactiveTerminal::If { consequent, alternate, .. } => {
            &&& n matches ReactiveTerminal::If { consequent: nc, alternate: na, .. }
            &&& t.len() == 2
            &&& merged_block(nc, consequent, lu, du, t[0])
            &&& merged_block(na, alternate, lu, du, t[1])
        },
        ReactiveTerminal::Switch { cases, .. } => {
            &&& n matches ReactiveTerminal::Switch { cases: nc, .. }
            &&& merged_cases(nc@, cases@, lu, du, t)
        },
        ReactiveTerminal::For { init, test, update, body, .. } => {
            &&& n matches ReactiveTerminal::For { init: n1, test: n2, update: n3, body: n4, .. }
            &&& t.len() == 4
            &&& merged_block(n1, init, lu, du, t[0])
            &&& merged_block(n2, test, lu, du, t[1])
            &&& merged_opt(n3, update, lu, du, t[2])
            &&& merged_block(n4, body, lu, du, t[3])
        },
        ReactiveTerminal::ForOf { init, test, body, .. } => {
            &&& n matches ReactiveTerminal::ForOf { init: n1, test: n2, body: n4, .. }
            &&& t.len() == 3
            &&& merged_block(n1, init, lu, du, t[0])
            &&& merged_block(n2, test, lu, du, t[1])
            &&& merged_block(n4, body, lu, du, t[2])
        },
        ReactiveTerminal::ForIn { init, test, body, .. } => {
            &&& n matches ReactiveTerminal::ForIn { init: n1, test: n2, body: n4, .. }
            &&& t.len() == 3
            &&& merged_block(n1, init, lu, du, t[0])
            &&& merged_block(n2, test, lu, du, t[1])
            &&& merged_block(n4, body, lu, du, t[2])
        },
        ReactiveTerminal::While { test, body, .. } => {
            &&& n matches ReactiveTerminal::While { test: n2, body: n4, .. }
            &&& t.len() == 2
            &&& merged_block(n2, test, lu, du, t[0])
            &&& merged_block(n4, body, lu, du, t[1])
        },
        ReactiveTerminal::DoWhile { body, test, .. } => {
            &&& n matches ReactiveTerminal::DoWhile { body: n4, test: n2, .. }
            &&& t.len() == 2
            &&& merged_block(n2, test, lu, du, t[0])
            &&& merged_block(n4, body, lu, du, t[1])
        },
        ReactiveTerminal::Try { block, handler, .. } => {
            &&& n matches ReactiveTerminal::Try { block: nb, handler: nh, .. }
            &&& t.len() == 2
            &&& merged_block(nb, block, lu, du, t[0])
            &&& merged_block(nh, handler, lu, du, t[1])
        },
        ReactiveTerminal::Label { block, .. } => {
            &&& n matches ReactiveTerminal::Label { block: nb, .. }
            &&& t.len() == 1
            &&& merged_block(nb, block, lu, du, t[0])
        },
        ReactiveTerminal::Logical { right, .. } => {
            &&& n matches ReactiveTerminal::Logical { right: nr, .. }
            &&& t.len() == 1
            &&& merged_block(nr, right, lu, du, t[0])
        },
        _ => n == o,
    }
}

proof fn lemma_merged_items_step(
    mid: Seq<ReactiveInstruction>,
    o: Seq<ReactiveInstruction>,
    k: int,
    lu: Map<u32, u32>,
    du: Map<u32, u32>,
    ts: Seq<MergeTrace>,
    x: ReactiveInstruction,
    t: MergeTrace,
)
    requires
        0 <= k < o.len(),
        merged_items(mid, o.take(k), lu, du, ts),
        merged_item(x, o[k], lu, du, t),
    ensures
        merged_items(mid.push(x), o.take(k + 1), lu, du, ts.push(t)),
{
    assert(o.take(k + 1).drop_last() =~= o.take(k));
    assert(o.take(k + 1).last() == o[k]);
    assert(mid.push(x).drop_last() =~= mid);
    assert(ts.push(t).drop_last() =~= ts);
}

fn merge_scopes_in_block(block: &mut ReactiveBlock, last_usage: &FxHashMap<u32, u32>, decl_last_usage: &FxHashMap<u32, u32>) -> (t: Ghost<MergeTrace>)
    ensures
        merged_block(*final(block), *old(block), last_usage@, decl_last_usage@, t@),
    decreases *old(block),
{
    let ghost o = old(block).instructions@;
    let ghost lu = last_usage@;
    let ghost du = decl_last_usage@;
    let mut rest: Vec<ReactiveInstruction> = Vec::new();
    std::mem::swap(&mut rest, &mut block.instructions);
    let mut mid: Vec<ReactiveInstruction> = Vec::new();
    let ghost mut k: int = 0;
    let ghost mut ts: Seq<MergeTrace> = Seq::empty();
    proof {
        assert(o.skip(0) =~= o);
        assert(o.take(0) =~= Seq::<ReactiveInstruction>::empty());
    }
    while rest.len() > 0
        invariant
            0 <= k <= o.len(),
            o == old(block).instructions@,
            lu == last_usage@,
            du == decl_last_usage@,
            rest@ == o.skip(k),
            merged_items(mid@, o.take(k), lu, du, ts),
        decreases rest.len(),
    {
        proof {
            assert(o.skip(k)[0] == o[k]);
            assert(decreases_to!(*old(block) => old(block).instructions));
            assert(decreases_to!(old(block).instructions => o));
            assert(decreases_to!(o => o[k]));
        }
        let item = rest.remove(0);
        proof {
            assert(item == o[k]);
        }
        let ghost prev = mid@;
        match item {
            ReactiveInstruction::Instruction(i) => {
                mid.push(ReactiveInstruction::Instruction(i));
                proof {
                    lemma_merged_items_step(prev, o, k, lu, du, ts, o[k], MergeTrace::Plain);
                    ts = ts.push(MergeTrace::Plain);
                }
            },
            ReactiveInstruction::Terminal(mut tm) => {
                let ghost ot = tm;
                proof {
                    assert(decreases_to!(o[k] => ot));
                }
                let tt = merge_scopes_in_terminal(&mut tm, last_usage, decl_last_usage);
                let ghost x = ReactiveInstruction::Terminal(tm);
                mid.push(ReactiveInstruction::Terminal(tm));
                proof {
                    lemma_merged_items_step(prev, o, k, lu, du, ts, x, tt@);
                    ts = ts.push(tt@);
                }
            },
            ReactiveInstruction::Scope(mut sb) => {
                let ghost osb = sb;
                proof {
                    assert(decreases_to!(o[k] => osb.instructions));
                }
                let inner = merge_scopes_in_block(&mut sb.instructions, last_usage, decl_last_usage);
                let ghost nb = sb.instructions;
                proof {
                    assert(sb == (ReactiveScopeBlock { scope: osb.scope, instructions: nb }));
                }
                flatten_nested_identical_scopes(&mut sb);
                let ghost x = ReactiveInstruction::Scope(sb);
                mid.push(ReactiveInstruction::Scope(sb));
                proof {
                    let it = MergeTrace::Scope(nb, Box::new(inner@));
                    assert(merged_item(x, o[k], lu, du, it));
                    lemma_merged_items_step(prev, o, k, lu, du, ts, x, it);
                    ts = ts.push(it);
                }
            },
        }
        proof {
            k = k + 1;
            assert(rest@ =~= o.skip(k));
        }
    }
    proof {
        assert(o.take(k) =~= o);
    }
    let n_mid = mid.len();
    proof {
        assert(mid@.len() == n_mid);
    }
    let records = build_merge_plan(&mid, last_usage);
    proof {
        lemma_plan_ok(mid@, mid@.len(), lu);
        assert forall|m: int| 0 <= m < records@.len() implies rec_ok(mid@, #[trigger] records_view(records@)[m]) by {
            assert(records_view(records@)[m] == merge_plan(mid@, lu)[m]);
        }
    }
    let ghost midv = mid@;
    block.instructions = apply_merge_plan(mid, &records, decl_last_usage);
    Ghost(MergeTrace::Block(midv, ts))
}

/// Merge in the blocks of a terminal.
fn merge_scopes_in_terminal(terminal: &mut ReactiveTerminal, last_usage: &FxHashMap<u32, u32>, decl_last_usage: &FxHashMap<u32, u32>) -> (t: Ghost<MergeTrace>)
    ensures
        merged_terminal(*final(terminal), *old(terminal), last_usage@, decl_last_usage@, t@),
    decreases *old(terminal),
{
    match terminal {
        ReactiveTerminal::If { consequent, alternate, .. } => {
            let t0 = merge_scopes_in_block(consequent, last_usage, decl_last_usage);
            let t1 = merge_scopes_in_block(alternate, last_usage, decl_last_usage);
            Ghost(MergeTrace::Terminal(seq![t0@, t1@]))
        },
        ReactiveTerminal::Switch { cases, .. } => {
            let ghost oc = old(terminal)->Switch_cases@;
            let ghost lu = last_usage@;
            let ghost du = decl_last_usage@;
            let ghost mut ts: Seq<MergeTrace> = Seq::empty();
            proof {
                assert(cases@.take(0) =~= Seq::<(Option<Place>, ReactiveBlock)>::empty());
                assert(oc.take(0) =~= Seq::<(Option<Place>, ReactiveBlock)>::empty());
            }
            let mut i: usize = 0;
            while i < cases.len()
                invariant
                    i <= cases@.len(),
                    cases@.len() == oc.len(),
                    *old(terminal) is Switch,
                    oc == old(terminal)->Switch_cases@,
                    lu == last_usage@,
                    du == decl_last_usage@,
                    merged_cases(cases@.take(i as int), oc.take(i as int), lu, du, ts),
                    forall|m: int| i <= m < oc.len() ==> #[trigger] cases@[m] == oc[m],
                decreases cases.len() - i,
            {
                proof {
                    assert(decreases_to!(*old(terminal) => old(terminal)->Switch_cases));
                    assert(decreases_to!(old(terminal)->Switch_cases => oc));
                    assert(decreases_to!(oc => oc[i as int]));
                    assert(oc.take(i + 1).drop_last() =~= oc.take(i as int));
                    assert(oc.take(i + 1).last() == oc[i as int]);
                }
                let ghost prevc = cases@;
                let tb = merge_scopes_in_block(&mut cases[i].1, last_usage, decl_last_usage);
                proof {
                    let n = cases@;
                    let ts2 = ts.push(tb@);
                    assert(n.take(i as int) =~= prevc.take(i as int));
                    assert(n.take(i + 1).drop_last() =~= n.take(i as int));
                    assert(n.take(i + 1).last() == n[i as int]);
                    assert(ts2.drop_last() =~= ts);
                    assert(merged_cases(n.take(i + 1), oc.take(i + 1), lu, du, ts2));
                    ts = ts2;
                }
                i = i + 1;
            }
            proof {
                assert(cases@.take(i as int) =~= cases@);
                assert(oc.take(i as int) =~= oc);
            }
            Ghost(MergeTrace::Terminal(ts))
        },
        ReactiveTerminal::For { init, test, update, body, .. } => {
            let t0 = merge_scopes_in_block(init, last_usage, decl_last_usage);
            let t1 = merge_scopes_in_block(test, last_usage, decl_last_usage);
            let ghost mut t2 = MergeTrace::Plain;
            match update {
                Some(u) => {
                    let tu = merge_scopes_in_block(u, last_usage, decl_last_usage);
                    proof {
                        t2 = tu@;
                    }
                },
                None => {},
            }
            let t3 = merge_scopes_in_block(body, last_usage, decl_last_usage);
            Ghost(MergeTrace::Terminal(seq![t0@, t1@, t2, t3@]))
        },
        ReactiveTerminal::ForOf { init, test, body, .. } => {
            let t0 = merge_scopes_in_block(init, last_usage, decl_last_usage);
            let t1 = merge_scopes_in_block(test, last_usage, decl_last_usage);
            let t2 = merge_scopes_in_block(body, last_usage, decl_last_usage);
            Ghost(MergeTrace::Terminal(seq![t0@, t1@, t2@]))
        },
        ReactiveTerminal::ForIn { init, test, body, .. } => {
            let t0 = merge_scopes_in_block(init, last_usage, decl_last_usage);
            let t1 = merge_scopes_in_block(test, last_usage, decl_last_usage);
            let t2 = merge_scopes_in_block(body, last_usage, decl_last_usage);
            Ghost(MergeTrace::Terminal(seq![t0@, t1@, t2@]))
        },
        ReactiveTerminal::While { test, body, .. } => {
            let t0 = merge_scopes_in_block(test, last_usage, decl_last_usage);
            let t1 = merge_scopes_in_block(body, last_usage, decl_last_usage);
            Ghost(MergeTrace::Terminal(seq![t0@, t1@]))
        },
        ReactiveTerminal::DoWhile { body, test, .. } => {
            let t0 = merge_scopes_in_block(test, last_usage, decl_last_usage);
            let t1 = merge_scopes_in_block(body, last_usage, decl_last_usage);
            Ghost(MergeTrace::Terminal(seq![t0@, t1@]))
        },
        ReactiveTerminal::Try { block, handler, .. } => {
            let t0 = merge_scopes_in_block(block, last_usage, decl_last_usage);
            let t1 = merge_scopes_in_block(handler, last_usage, decl_last_usage);
            Ghost(MergeTrace::Terminal(seq![t0@, t1@]))
        },
        ReactiveTerminal::Label { block, .. } => {
            let t0 = merge_scopes_in_block(block, last_usage, decl_last_usage);
            Ghost(MergeTrace::Terminal(seq![t0@]))
        },
        ReactiveTerminal::Logical { right, .. } => {
            let t0 = merge_scopes_in_block(right, last_usage, decl_last_usage);
            Ghost(MergeTrace::Terminal(seq![t0@]))
        },
        _ => Ghost(MergeTrace::Terminal(Seq::empty())),
    }
}

/// Merge the reactive scopes of a function that always invalidate
/// together: nested blocks first, then, in each block, consecutive scopes
/// with the same dependencies (or whose dependencies are always-invalidating
/// outputs of the earlier scope) separated only by simple instructions whose
/// results die in the merged scope.
pub fn merge_reactive_scopes_that_invalidate_together(reactive_fn: &mut ReactiveFunction)
    ensures
        exists|t: MergeTrace| merged_block(final(reactive_fn).body, old(reactive_fn).body,
            last_uses(old(reactive_fn).body.instructions@, (Map::empty(), Map::empty())).0,
            last_uses(old(reactive_fn).body.instructions@, (Map::empty(), Map::empty())).1, t),
        final(reactive_fn).loc == old(reactive_fn).loc,
        final(reactive_fn).id == old(reactive_fn).id,
        final(reactive_fn).params == old(reactive_fn).params,
        final(reactive_fn).directives == old(reactive_fn).directives,
        final(reactive_fn).is_arrow == old(reactive_fn).is_arrow,
        final(reactive_fn).is_async == old(reactive_fn).is_async,
        final(reactive_fn).is_generator == old(reactive_fn).is_generator,
{
    let maps = build_last_usage_maps(reactive_fn);
    let ghost lus = last_uses(old(reactive_fn).body.instructions@, (Map::empty(), Map::empty()));
    proof {
        assert(maps.by_id@ == lus.0);
        assert(maps.by_declaration@ == lus.1);
    }
    let t = merge_scopes_in_block(&mut reactive_fn.body, &maps.by_id, &maps.by_declaration);
    proof {
        assert(merged_block(reactive_fn.body, old(reactive_fn).body, lus.0, lus.1, t@));
    }
}

} // verus!
