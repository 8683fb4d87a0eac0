//! Strip memoization for server-side rendering, where every render produces
//! fresh output: every identifier loses its reactive scope and every place
//! its reactive flag.

use vstd::prelude::*;
use crate::hir::types::{
    ArrayElement, BasicBlock, Case, DestructureArrayItem, DestructureObjectProperty, DestructurePattern,
    DestructureTarget, HIR, Identifier, Instruction, InstructionValue, JsxAttribute, ObjectProperty,
    ObjectPropertyKey, Phi, Place, Terminal,
};
use crate::hir::shape::{blocks_related, instructions_related};
use crate::reactive_scopes::promote_temporaries::{
    attributes_mapped, element_mapped, elements_mapped, key_mapped, places_mapped, properties_mapped,
    value_places_mapped,
};

verus! {

/// `p` with no reactive flag and its identifier with no scope.
pub open spec fn ssr_place(p: Place) -> Place {
    Place { reactive: false, identifier: Identifier { scope: None, ..p.identifier }, ..p }
}

/// The relation of a place after the pass to the place before it.
pub open spec fn ssr_pf() -> spec_fn(Place, Place) -> bool {
    |a: Place, b: Place| a == ssr_place(b)
}

pub open spec fn ssr_opt(n: Option<Place>, o: Option<Place>) -> bool {
    match o {
        Some(p) => n == Some(ssr_place(p)),
        None => n is None,
    }
}

/// `n` is the destructuring pattern `o` with every place stripped.
pub open spec fn ssr_pattern(n: DestructurePattern, o: DestructurePattern) -> bool
    decreases o,
{
    match o {
        DestructurePattern::Object { properties, rest } => n matches DestructurePattern::Object { properties: np, rest: nr }
            && ssr_opt(nr, rest) && ssr_object_props(np@, properties@),
        DestructurePattern::Array { items, rest } => n matches DestructurePattern::Array { items: ni, rest: nr }
            && ssr_opt(nr, rest) && ssr_items(ni@, items@),
    }
}

pub open spec fn ssr_object_props(n: Seq<DestructureObjectProperty>, o: Seq<DestructureObjectProperty>) -> bool
    decreases o,
{
    if n.len() != o.len() {
        false
    } else if o.len() == 0 {
        true
    } else {
        &&& ssr_object_props(n.drop_last(), o.drop_last())
        &&& n.last().key == o.last().key
        &&& ssr_opt(n.last().default_value, o.last().default_value)
        &&& ssr_target(n.last().value, o.last().value)
    }
}

pub open spec fn ssr_target(n: DestructureTarget, o: DestructureTarget) -> bool
    decreases o,
{
    match o {
        DestructureTarget::Place(p) => n == DestructureTarget::Place(ssr_place(p)),
        DestructureTarget::Pattern(b) => n matches DestructureTarget::Pattern(nb) && ssr_pattern(*nb, *b),
    }
}

pub open spec fn ssr_items(n: Seq<DestructureArrayItem>, o: Seq<DestructureArrayItem>) -> bool
    decreases o,
{
    if n.len() != o.len() {
        false
    } else if o.len() == 0 {
        true
    } else {
        &&& ssr_items(n.drop_last(), o.drop_last())
        &&& match o.last() {
            DestructureArrayItem::Value(t) => n.last() matches DestructureArrayItem::Value(nt) && ssr_target(nt, t),
            DestructureArrayItem::Spread(p) => n.last() == DestructureArrayItem::Spread(ssr_place(p)),
            DestructureArrayItem::Hole => n.last() is Hole,
        }
    }
}

/// `n` is the value `o` with every place it holds stripped (nested
/// functions are left alone).
pub open spec fn ssr_value(n: InstructionValue, o: InstructionValue) -> bool {
    match o {
        InstructionValue::Destructure { value, lvalue_pattern } => n matches InstructionValue::Destructure { value: v, lvalue_pattern: p }
            && v == ssr_place(value) && ssr_pattern(p, lvalue_pattern),
        InstructionValue::IteratorNext { iterator, collection } => n matches InstructionValue::IteratorNext { iterator: i, collection: c }
            && i == ssr_place(iterator) && c == ssr_place(collection),
        _ => value_places_mapped(n, o, ssr_pf()),
    }
}

/// `n` is the instruction `o` after the pass.
pub open spec fn ssr_instruction(n: Instruction, o: Instruction) -> bool {
    &&& n.id == o.id
    &&& n.loc == o.loc
    &&& n.lvalue == ssr_place(o.lvalue)
    &&& ssr_value(n.value, o.value)
}

/// `n` is the phi `o` with its place and operand places stripped.
pub open spec fn ssr_phi(n: Phi, o: Phi) -> bool {
    &&& n.place == ssr_place(o.place)
    &&& n.operands@.len() == o.operands@.len()
    &&& forall|i: int| 0 <= i < o.operands@.len() ==> (#[trigger] n.operands@[i]).0 == o.operands@[i].0
        && n.operands@[i].1 == ssr_place(o.operands@[i].1)
}

/// `n` is the terminal `o` with every place it holds stripped.
pub open spec fn ssr_terminal(n: Terminal, o: Terminal) -> bool {
    match o {
        Terminal::Return { value } => n == Terminal::Return { value: ssr_place(value) },
        Terminal::Throw { value } => n == Terminal::Throw { value: ssr_place(value) },
        Terminal::If { test, consequent, alternate, fallthrough } => n == Terminal::If {
            test: ssr_place(test),
            consequent,
            alternate,
            fallthrough,
        },
        Terminal::Branch { test, consequent, alternate } => n == Terminal::Branch {
            test: ssr_place(test),
            consequent,
            alternate,
        },
        Terminal::Switch { test, cases, fallthrough } => {
            &&& n matches Terminal::Switch { test: t, cases: cs, fallthrough: f }
            &&& t == ssr_place(test)
            &&& f == fallthrough
            &&& cs@.len() == cases@.len()
            &&& forall|i: int| 0 <= i < cases@.len() ==> (#[trigger] cs@[i]).block == cases@[i].block
                && ssr_opt(cs@[i].test, cases@[i].test)
        },
        Terminal::Ternary { test, consequent, alternate, fallthrough, result } => {
            &&& n matches Terminal::Ternary { test: t, consequent: c, alternate: a, fallthrough: f, result: r }
            &&& t == ssr_place(test) && c == consequent && a == alternate && f == fallthrough
            &&& ssr_opt(r, result)
        },
        Terminal::Logical { operator, left, right, fallthrough, result } => {
            &&& n matches Terminal::Logical { operator: op, left: l, right: r, fallthrough: f, result: res }
            &&& op == operator && l == left && r == right && f == fallthrough
            &&& ssr_opt(res, result)
        },
        Terminal::Optional { test, consequent, fallthrough, optional } => n == Terminal::Optional {
            test: ssr_place(test),
            consequent,
            fallthrough,
            optional,
        },
        _ => n == o,
    }
}

/// `n` is the block `o` after the pass.
pub open spec fn ssr_block(n: BasicBlock, o: BasicBlock) -> bool {
    &&& n.kind == o.kind
    &&& n.id == o.id
    &&& n.preds == o.preds
    &&& n.phis@.len() == o.phis@.len()
    &&& forall|i: int| 0 <= i < o.phis@.len() ==> ssr_phi(#[trigger] n.phis@[i], o.phis@[i])
    &&& ssr_terminal(n.terminal, o.terminal)
    &&& instructions_related(n.instructions@, o.instructions@, |a: Instruction, b: Instruction| ssr_instruction(a, b))
}

fn strip_place(place: &mut Place)
    ensures
        *final(place) == ssr_place(*old(place)),
{
    place.identifier.scope = None;
    place.reactive = false;
}

fn strip_opt(place: &mut Option<Place>)
    ensures
        ssr_opt(*final(place), *old(place)),
{
    if let Some(p) = place {
        strip_place(p);
    }
}

fn strip_places(places: &mut Vec<Place>)
    ensures
        places_mapped(final(places)@, old(places)@, ssr_pf()),
{
    let ghost o = places@;
    let mut i: usize = 0;
    while i < places.len()
        invariant
            i <= places@.len(),
            places@.len() == o.len(),
            forall|k: int| 0 <= k < i ==> #[trigger] places@[k] == ssr_place(o[k]),
            forall|k: int| i <= k < o.len() ==> #[trigger] places@[k] == o[k],
        decreases places.len() - i,
    {
        strip_place(&mut places[i]);
        i = i + 1;
    }
}

fn strip_properties(properties: &mut Vec<ObjectProperty>)
    ensures
        properties_mapped(final(properties)@, old(properties)@, ssr_pf()),
{
    let ghost o = properties@;
    let ghost pf = ssr_pf();
    let mut i: usize = 0;
    while i < properties.len()
        invariant
            i <= properties@.len(),
            properties@.len() == o.len(),
            pf == ssr_pf(),
            forall|k: int| 0 <= k < i ==> {
                &&& (#[trigger] properties@[k]).shorthand == o[k].shorthand
                &&& pf(properties@[k].value, o[k].value)
                &&& key_mapped(properties@[k].key, o[k].key, pf)
            },
            forall|k: int| i <= k < o.len() ==> #[trigger] properties@[k] == o[k],
        decreases properties.len() - i,
    {
        strip_place(&mut properties[i].value);
        if let ObjectPropertyKey::Computed(p) = &mut properties[i].key {
            strip_place(p);
        }
        i = i + 1;
    }
}

fn strip_elements(elements: &mut Vec<ArrayElement>)
    ensures
        elements_mapped(final(elements)@, old(elements)@, ssr_pf()),
{
    let ghost o = elements@;
    let ghost pf = ssr_pf();
    let mut i: usize = 0;
    while i < elements.len()
        invariant
            i <= elements@.len(),
            elements@.len() == o.len(),
            pf == ssr_pf(),
            forall|k: int| 0 <= k < i ==> element_mapped(#[trigger] elements@[k], o[k], pf),
            forall|k: int| i <= k < o.len() ==> #[trigger] elements@[k] == o[k],
        decreases elements.len() - i,
    {
        match &mut elements[i] {
            ArrayElement::Expression(p) => strip_place(p),
            ArrayElement::Spread(p) => strip_place(p),
            ArrayElement::Hole => {},
        }
        i = i + 1;
    }
}

fn strip_attributes(attributes: &mut Vec<JsxAttribute>)
    ensures
        attributes_mapped(final(attributes)@, old(attributes)@, ssr_pf()),
{
    let ghost o = attributes@;
    let mut i: usize = 0;
    while i < attributes.len()
        invariant
            i <= attributes@.len(),
            attributes@.len() == o.len(),
            forall|k: int| 0 <= k < i ==> (#[trigger] attributes@[k]).name == o[k].name && attributes@[k].value == ssr_place(o[k].value),
            forall|k: int| i <= k < o.len() ==> #[trigger] attributes@[k] == o[k],
        decreases attributes.len() - i,
    {
        strip_place(&mut attributes[i].value);
        i = i + 1;
    }
}

/// Strip every place of a destructuring pattern.
fn strip_pattern(pattern: &mut DestructurePattern)
    ensures
        ssr_pattern(*final(pattern), *old(pattern)),
    decreases *old(pattern),
{
    match pattern {
        DestructurePattern::Object { properties, rest } => {
            let ghost o = properties@;
            proof {
                assert(decreases_to!(*old(pattern) => old(pattern)->properties));
                assert(decreases_to!(old(pattern)->properties => o));
            }
            let mut i: usize = 0;
            proof {
                assert(properties@.take(0) =~= Seq::<DestructureObjectProperty>::empty());
                assert(o.take(0) =~= Seq::<DestructureObjectProperty>::empty());
            }
            while i < properties.len()
                invariant
                    i <= properties@.len(),
                    properties@.len() == o.len(),
                    o == old(pattern)->properties@,
                    *old(pattern) is Object,
                    ssr_object_props(properties@.take(i as int), o.take(i as int)),
                    forall|k: int| i <= k < o.len() ==> #[trigger] properties@[k] == o[k],
                decreases properties.len() - i,
            {
                let ghost before = properties@;
                proof {
                    assert(decreases_to!(*old(pattern) => old(pattern)->properties));
                    assert(decreases_to!(old(pattern)->properties => o));
                    assert(decreases_to!(o => o[i as int]));
                    assert(decreases_to!(o[i as int] => o[i as int].value));
                    assert(properties@[i as int].value == o[i as int].value);
                }
                strip_target(&mut properties[i].value);
                strip_opt(&mut properties[i].default_value);
                proof {
                    assert(properties@.take(i + 1).drop_last() =~= before.take(i as int));
                    assert(o.take(i + 1).drop_last() =~= o.take(i as int));
                }
                i = i + 1;
            }
            proof {
                assert(properties@.take(i as int) =~= properties@);
                assert(o.take(i as int) =~= o);
            }
            strip_opt(rest);
        },
        DestructurePattern::Array { items, rest } => {
            let ghost o = items@;
            proof {
                assert(decreases_to!(*old(pattern) => old(pattern)->items));
                assert(decreases_to!(old(pattern)->items => o));
            }
            let mut i: usize = 0;
            proof {
                assert(items@.take(0) =~= Seq::<DestructureArrayItem>::empty());
                assert(o.take(0) =~= Seq::<DestructureArrayItem>::empty());
            }
            while i < items.len()
                invariant
                    i <= items@.len(),
                    items@.len() == o.len(),
                    o == old(pattern)->items@,
                    *old(pattern) is Array,
                    ssr_items(items@.take(i as int), o.take(i as int)),
                    forall|k: int| i <= k < o.len() ==> #[trigger] items@[k] == o[k],
                decreases items.len() - i,
            {
                let ghost before = items@;
                proof {
                    assert(decreases_to!(*old(pattern) => old(pattern)->items));
                    assert(decreases_to!(old(pattern)->items => o));
                    assert(decreases_to!(o => o[i as int]));
                    assert(items@[i as int] == o[i as int]);
                }
                match &mut items[i] {
                    DestructureArrayItem::Value(t) => {
                        proof {
                            assert(decreases_to!(o[i as int] => o[i as int]->Value_0));
                        }
                        strip_target(t);
                    },
                    DestructureArrayItem::Spread(p) => strip_place(p),
                    DestructureArrayItem::Hole => {},
                }
                proof {
                    assert(items@.take(i + 1).drop_last() =~= before.take(i as int));
                    assert(o.take(i + 1).drop_last() =~= o.take(i as int));
                }
                i = i + 1;
            }
            proof {
                assert(items@.take(i as int) =~= items@);
                assert(o.take(i as int) =~= o);
            }
            strip_opt(rest);
        },
    }
}

fn strip_target(target: &mut DestructureTarget)
    ensures
        ssr_target(*final(target), *old(target)),
    decreases *old(target),
{
    match target {
        DestructureTarget::Place(p) => strip_place(p),
        DestructureTarget::Pattern(b) => {
            proof {
                assert(decreases_to!(*old(target) => old(target)->Pattern_0));
            }
            strip_pattern(b);
        },
    }
}

/// Strip every place an instruction value holds.
fn strip_places_in_value(value: &mut InstructionValue)
    ensures
        ssr_value(*final(value), *old(value)),
{
    match value {
        InstructionValue::LoadLocal { place } => strip_place(place),
        InstructionValue::LoadContext { place } => strip_place(place),
        InstructionValue::StoreLocal { lvalue, value, .. } => {
            strip_place(lvalue);
            strip_place(value);
        },
        InstructionValue::StoreContext { lvalue, value } => {
            strip_place(lvalue);
            strip_place(value);
        },
        InstructionValue::DeclareLocal { lvalue, .. } => strip_place(lvalue),
        InstructionValue::DeclareContext { lvalue } => strip_place(lvalue),
        InstructionValue::Destructure { value, lvalue_pattern } => {
            strip_place(value);
            strip_pattern(lvalue_pattern);
        },
        InstructionValue::BinaryExpression { left, right, .. } => {
            strip_place(left);
            strip_place(right);
        },
        InstructionValue::UnaryExpression { value, .. } => strip_place(value),
        InstructionValue::PrefixUpdate { lvalue, .. } => strip_place(lvalue),
        InstructionValue::PostfixUpdate { lvalue, .. } => strip_place(lvalue),
        InstructionValue::CallExpression { callee, args } => {
            strip_place(callee);
            strip_places(args);
        },
        InstructionValue::MethodCall { receiver, args, .. } => {
            strip_place(receiver);
            strip_places(args);
        },
        InstructionValue::NewExpression { callee, args } => {
            strip_place(callee);
            strip_places(args);
        },
        InstructionValue::PropertyLoad { object, .. } => strip_place(object),
        InstructionValue::PropertyStore { object, value, .. } => {
            strip_place(object);
            strip_place(value);
        },
        InstructionValue::ComputedLoad { object, property } => {
            strip_place(object);
            strip_place(property);
        },
        InstructionValue::ComputedStore { object, property, value } => {
            strip_place(object);
            strip_place(property);
            strip_place(value);
        },
        InstructionValue::PropertyDelete { object, .. } => strip_place(object),
        InstructionValue::ComputedDelete { object, property } => {
            strip_place(object);
            strip_place(property);
        },
        InstructionValue::ObjectExpression { properties } => strip_properties(properties),
        InstructionValue::ArrayExpression { elements } => strip_elements(elements),
        InstructionValue::JsxExpression { tag, props, children } => {
            strip_place(tag);
            strip_attributes(props);
            strip_places(children);
        },
        InstructionValue::JsxFragment { children } => strip_places(children),
        InstructionValue::TemplateLiteral { subexpressions, .. } => strip_places(subexpressions),
        InstructionValue::TaggedTemplateExpression { tag, value } => {
            strip_place(tag);
            strip_places(&mut value.subexpressions);
        },
        InstructionValue::StoreGlobal { value, .. } => strip_place(value),
        InstructionValue::Await { value } => strip_place(value),
        InstructionValue::GetIterator { collection } => strip_place(collection),
        InstructionValue::IteratorNext { iterator, collection } => {
            strip_place(iterator);
            strip_place(collection);
        },
        InstructionValue::NextPropertyOf { value } => strip_place(value),
        InstructionValue::TypeCastExpression { value, .. } => strip_place(value),
        InstructionValue::FinishMemoize { decl, deps, .. } => {
            strip_place(decl);
            strip_places(deps);
        },
        _ => {},
    }
}

/// Strip every place a terminal holds.
fn strip_terminal(terminal: &mut Terminal)
    ensures
        ssr_terminal(*final(terminal), *old(terminal)),
{
    match terminal {
        Terminal::Return { value } => strip_place(value),
        Terminal::Throw { value } => strip_place(value),
        Terminal::If { test, .. } => strip_place(test),
        Terminal::Branch { test, .. } => strip_place(test),
        Terminal::Switch { test, cases, .. } => {
            strip_place(test);
            let ghost o = cases@;
            let mut i: usize = 0;
            while i < cases.len()
                invariant
                    i <= cases@.len(),
                    cases@.len() == o.len(),
                    forall|k: int| 0 <= k < i ==> (#[trigger] cases@[k]).block == o[k].block && ssr_opt(cases@[k].test, o[k].test),
                    forall|k: int| i <= k < o.len() ==> #[trigger] cases@[k] == o[k],
                decreases cases.len() - i,
            {
                strip_opt(&mut cases[i].test);
                i = i + 1;
            }
        },
        Terminal::Ternary { test, result, .. } => {
            strip_place(test);
            strip_opt(result);
        },
        Terminal::Logical { result, .. } => strip_opt(result),
        Terminal::Optional { test, .. } => strip_place(test),
        _ => {},
    }
}

fn strip_phis(phis: &mut Vec<Phi>)
    ensures
        final(phis)@.len() == old(phis)@.len(),
        forall|i: int| 0 <= i < old(phis)@.len() ==> ssr_phi(#[trigger] final(phis)@[i], old(phis)@[i]),
{
    let ghost o = phis@;
    let mut i: usize = 0;
    while i < phis.len()
        invariant
            i <= phis@.len(),
            phis@.len() == o.len(),
            forall|k: int| 0 <= k < i ==> ssr_phi(#[trigger] phis@[k], o[k]),
            forall|k: int| i <= k < o.len() ==> #[trigger] phis@[k] == o[k],
        decreases phis.len() - i,
    {
        strip_place(&mut phis[i].place);
        let ghost ops = phis@[i as int].operands@;
        let mut j: usize = 0;
        while j < phis[i].operands.len()
            invariant
                i < phis@.len(),
                phis@.len() == o.len(),
                j <= ops.len(),
                phis@[i as int].operands@.len() == ops.len(),
                phis@[i as int].place == ssr_place(o[i as int].place),
                ops == o[i as int].operands@,
                forall|k: int| 0 <= k < j ==> (#[trigger] phis@[i as int].operands@[k]).0 == ops[k].0
                    && phis@[i as int].operands@[k].1 == ssr_place(ops[k].1),
                forall|k: int| j <= k < ops.len() ==> #[trigger] phis@[i as int].operands@[k] == ops[k],
                forall|k: int| 0 <= k < i ==> ssr_phi(#[trigger] phis@[k], o[k]),
                forall|k: int| i < k < o.len() ==> #[trigger] phis@[k] == o[k],
            decreases ops.len() - j,
        {
            strip_place(&mut phis[i].operands[j].1);
            j = j + 1;
        }
        i = i + 1;
    }
}

fn strip_instruction(instr: &mut Instruction)
    ensures
        ssr_instruction(*final(instr), *old(instr)),
{
    strip_place(&mut instr.lvalue);
    strip_places_in_value(&mut instr.value);
}

fn strip_block(block: &mut BasicBlock)
    ensures
        ssr_block(*final(block), *old(block)),
{
    let mut j: usize = 0;
    while j < block.instructions.len()
        invariant
            j <= block.instructions@.len(),
            block.instructions@.len() == old(block).instructions@.len(),
            block.kind == old(block).kind,
            block.id == old(block).id,
            block.preds == old(block).preds,
            block.phis == old(block).phis,
            block.terminal == old(block).terminal,
            forall|m: int| 0 <= m < j ==> ssr_instruction(#[trigger] block.instructions@[m], old(block).instructions@[m]),
            forall|m: int| j <= m < block.instructions@.len() ==> #[trigger] block.instructions@[m] == old(block).instructions@[m],
        decreases block.instructions.len() - j,
    {
        strip_instruction(&mut block.instructions[j]);
        j = j + 1;
    }
    strip_terminal(&mut block.terminal);
    strip_phis(&mut block.phis);
}

/// Optimize a function for server-side rendering by stripping memoization:
/// every place of every instruction (lvalues and operands, destructuring
/// patterns included), terminal and phi loses its reactive flag, and its
/// identifier its reactive scope. Nested function bodies are left alone.
pub fn optimize_for_ssr(hir: &mut HIR)
    ensures
        final(hir).entry == old(hir).entry,
        blocks_related(final(hir).blocks@, old(hir).blocks@, |n: BasicBlock, o: BasicBlock| ssr_block(n, o)),
{
    let mut i: usize = 0;
    while i < hir.blocks.len()
        invariant
            i <= hir.blocks@.len(),
            hir.entry == old(hir).entry,
            hir.blocks@.len() == old(hir).blocks@.len(),
            forall|k: int| 0 <= k < i ==> (#[trigger] hir.blocks@[k]).0 == old(hir).blocks@[k].0
                && ssr_block(hir.blocks@[k].1, old(hir).blocks@[k].1),
            forall|k: int| i <= k < hir.blocks@.len() ==> #[trigger] hir.blocks@[k] == old(hir).blocks@[k],
        decreases hir.blocks.len() - i,
    {
        strip_block(&mut hir.blocks[i].1);
        i = i + 1;
    }
}

} // verus!
