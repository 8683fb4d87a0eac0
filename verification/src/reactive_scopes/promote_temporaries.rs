//! Give every unnamed temporary of a reactive function the name `t<id>`, so
//! that temporaries used across scopes can be declared by name.

use vstd::prelude::*;
use vstd::string::StringExecFns;
use crate::text::{decimal, push_decimal};
use crate::hir::types::{
    ArrayElement, Identifier, IdentifierId, Instruction, InstructionValue, JsxAttribute,
    ObjectProperty, ObjectPropertyKey, Place, ReactiveBlock, ReactiveFunction, ReactiveInstruction,
    ReactiveScope, ReactiveScopeBlock, ReactiveScopeDependency, ReactiveTerminal, ScopeDeclaration,
};
use crate::reactive_scopes::reactive_tree::{
    TreeRel, block_rel, instructions_rel, instruction_rel, cases_rel, terminal_rel, opt_block_rel,
    same_terminal_fields,
};

verus! {

// ---------------------------------------------------------------------------
// Places of an instruction value
// ---------------------------------------------------------------------------

/// The two lists have the same length and are related by `pf` position by
/// position.
pub open spec fn places_mapped(n: Seq<Place>, o: Seq<Place>, pf: spec_fn(Place, Place) -> bool) -> bool {
    &&& n.len() == o.len()
    &&& forall|i: int| 0 <= i < n.len() ==> #[trigger] pf(n[i], o[i])
}

pub open spec fn key_mapped(n: ObjectPropertyKey, o: ObjectPropertyKey, pf: spec_fn(Place, Place) -> bool) -> bool {
    match o {
        ObjectPropertyKey::Computed(p) => n matches ObjectPropertyKey::Computed(q) && pf(q, p),
        _ => n == o,
    }
}

pub open spec fn properties_mapped(n: Seq<ObjectProperty>, o: Seq<ObjectProperty>, pf: spec_fn(Place, Place) -> bool) -> bool {
    &&& n.len() == o.len()
    &&& forall|i: int| 0 <= i < n.len() ==> {
        &&& (#[trigger] n[i]).shorthand == o[i].shorthand
        &&& pf(n[i].value, o[i].value)
        &&& key_mapped(n[i].key, o[i].key, pf)
    }
}

pub open spec fn element_mapped(n: ArrayElement, o: ArrayElement, pf: spec_fn(Place, Place) -> bool) -> bool {
    match o {
        ArrayElement::Expression(p) => n matches ArrayElement::Expression(q) && pf(q, p),
        ArrayElement::Spread(p) => n matches ArrayElement::Spread(q) && pf(q, p),
        ArrayElement::Hole => n is Hole,
    }
}

pub open spec fn elements_mapped(n: Seq<ArrayElement>, o: Seq<ArrayElement>, pf: spec_fn(Place, Place) -> bool) -> bool {
    &&& n.len() == o.len()
    &&& forall|i: int| 0 <= i < n.len() ==> element_mapped(#[trigger] n[i], o[i], pf)
}

pub open spec fn attributes_mapped(n: Seq<JsxAttribute>, o: Seq<JsxAttribute>, pf: spec_fn(Place, Place) -> bool) -> bool {
    &&& n.len() == o.len()
    &&& forall|i: int| 0 <= i < n.len() ==> (#[trigger] n[i]).name == o[i].name && pf(n[i].value, o[i].value)
}

/// `n` is the value `o` with each operand place it reads or writes related
/// by `pf` to the old one (destructuring patterns, the collection of an
/// iterator step and nested functions are left alone), and nothing else
/// changed.
pub open spec fn value_places_mapped(n: InstructionValue, o: InstructionValue, pf: spec_fn(Place, Place) -> bool) -> bool {
    match o {
        InstructionValue::LoadLocal { place } => n matches InstructionValue::LoadLocal { place: p } && pf(p, place),
        InstructionValue::LoadContext { place } => n matches InstructionValue::LoadContext { place: p } && pf(p, place),
        InstructionValue::StoreLocal { lvalue, value, type_ } => n matches InstructionValue::StoreLocal { lvalue: l, value: v, type_: t }
            && pf(l, lvalue) && pf(v, value) && t == type_,
        InstructionValue::StoreContext { lvalue, value } => n matches InstructionValue::StoreContext { lvalue: l, value: v }
            && pf(l, lvalue) && pf(v, value),
        InstructionValue::DeclareLocal { lvalue, type_ } => n matches InstructionValue::DeclareLocal { lvalue: l, type_: t }
            && pf(l, lvalue) && t == type_,
        InstructionValue::DeclareContext { lvalue } => n matches InstructionValue::DeclareContext { lvalue: l } && pf(l, lvalue),
        InstructionValue::Destructure { value, lvalue_pattern } => n matches InstructionValue::Destructure { value: v, lvalue_pattern: p }
            && pf(v, value) && p == lvalue_pattern,
        InstructionValue::BinaryExpression { op, left, right } => n matches InstructionValue::BinaryExpression { op: x, left: l, right: r }
            && x == op && pf(l, left) && pf(r, right),
        InstructionValue::UnaryExpression { op, value } => n matches InstructionValue::UnaryExpression { op: x, value: v }
            && x == op && pf(v, value),
        InstructionValue::PrefixUpdate { op, lvalue } => n matches InstructionValue::PrefixUpdate { op: x, lvalue: l }
            && x == op && pf(l, lvalue),
        InstructionValue::PostfixUpdate { op, lvalue } => n matches InstructionValue::PostfixUpdate { op: x, lvalue: l }
            && x == op && pf(l, lvalue),
        InstructionValue::CallExpression { callee, args } => n matches InstructionValue::CallExpression { callee: c, args: a }
            && pf(c, callee) && places_mapped(a@, args@, pf),
        InstructionValue::MethodCall { receiver, property, args } => n matches InstructionValue::MethodCall { receiver: r, property: p, args: a }
            && pf(r, receiver) && p == property && places_mapped(a@, args@, pf),
        InstructionValue::NewExpression { callee, args } => n matches InstructionValue::NewExpression { callee: c, args: a }
            && pf(c, callee) && places_mapped(a@, args@, pf),
        InstructionValue::PropertyLoad { object, property } => n matches InstructionValue::PropertyLoad { object: ob, property: p }
            && pf(ob, object) && p == property,
        InstructionValue::PropertyStore { object, property, value } => n matches InstructionValue::PropertyStore { object: ob, property: p, value: v }
            && pf(ob, object) && p == property && pf(v, value),
        InstructionValue::ComputedLoad { object, property } => n matches InstructionValue::ComputedLoad { object: ob, property: p }
            && pf(ob, object) && pf(p, property),
        InstructionValue::ComputedStore { object, property, value } => n matches InstructionValue::ComputedStore { object: ob, property: p, value: v }
            && pf(ob, object) && pf(p, property) && pf(v, value),
        InstructionValue::PropertyDelete { object, property } => n matches InstructionValue::PropertyDelete { object: ob, property: p }
            && pf(ob, object) && p == property,
        InstructionValue::ComputedDelete { object, property } => n matches InstructionValue::ComputedDelete { object: ob, property: p }
            && pf(ob, object) && pf(p, property),
        InstructionValue::ObjectExpression { properties } => n matches InstructionValue::ObjectExpression { properties: p }
            && properties_mapped(p@, properties@, pf),
        InstructionValue::ArrayExpression { elements } => n matches InstructionValue::ArrayExpression { elements: e }
            && elements_mapped(e@, elements@, pf),
        InstructionValue::JsxExpression { tag, props, children } => n matches InstructionValue::JsxExpression { tag: t, props: p, children: c }
            && pf(t, tag) && attributes_mapped(p@, props@, pf) && places_mapped(c@, children@, pf),
        InstructionValue::JsxFragment { children } => n matches InstructionValue::JsxFragment { children: c }
            && places_mapped(c@, children@, pf),
        InstructionValue::TemplateLiteral { quasis, subexpressions } => n matches InstructionValue::TemplateLiteral { quasis: q, subexpressions: s }
            && q == quasis && places_mapped(s@, subexpressions@, pf),
        InstructionValue::TaggedTemplateExpression { tag, value } => n matches InstructionValue::TaggedTemplateExpression { tag: t, value: v }
            && pf(t, tag) && v.quasis == value.quasis && places_mapped(v.subexpressions@, value.subexpressions@, pf),
        InstructionValue::StoreGlobal { name, value } => n matches InstructionValue::StoreGlobal { name: nm, value: v }
            && nm == name && pf(v, value),
        InstructionValue::Await { value } => n matches InstructionValue::Await { value: v } && pf(v, value),
        InstructionValue::GetIterator { collection } => n matches InstructionValue::GetIterator { collection: c } && pf(c, collection),
        InstructionValue::IteratorNext { iterator, collection } => n matches InstructionValue::IteratorNext { iterator: i, collection: c }
            && pf(i, iterator) && c == collection,
        InstructionValue::NextPropertyOf { value } => n matches InstructionValue::NextPropertyOf { value: v } && pf(v, value),
        InstructionValue::TypeCastExpression { value, type_ } => n matches InstructionValue::TypeCastExpression { value: v, type_: t }
            && pf(v, value) && t == type_,
        InstructionValue::FinishMemoize { manual_memo_id, decl, deps } => n matches InstructionValue::FinishMemoize { manual_memo_id: m, decl: d, deps: ds }
            && m == manual_memo_id && pf(d, decl) && places_mapped(ds@, deps@, pf),
        _ => n == o,
    }
}

// ---------------------------------------------------------------------------
// Promotion
// ---------------------------------------------------------------------------

/// The name a promoted temporary gets.
pub open spec fn temp_name(id: IdentifierId) -> Seq<char> {
    "t"@ + decimal(id.0 as nat)
}

/// `n` is `o`, named `t<id>` if it had no name.
pub open spec fn promoted_identifier(n: Identifier, o: Identifier) -> bool {
    &&& n == Identifier { name: n.name, ..o }
    &&& match o.name {
        None => n.name matches Some(s) && s@ == temp_name(o.id),
        Some(_) => n.name == o.name,
    }
}

pub open spec fn promoted_place(n: Place, o: Place) -> bool {
    &&& n == Place { identifier: n.identifier, ..o }
    &&& promoted_identifier(n.identifier, o.identifier)
}

/// The scope of `sb` with the identifiers of its dependencies and
/// declarations promoted.
pub open spec fn promoted_scope(ns: ReactiveScope, sb: ReactiveScopeBlock) -> bool {
    let o = sb.scope;
    &&& ns == ReactiveScope { dependencies: ns.dependencies, declarations: ns.declarations, ..o }
    &&& ns.dependencies@.len() == o.dependencies@.len()
    &&& forall|i: int| 0 <= i < o.dependencies@.len() ==> {
        let d = #[trigger] ns.dependencies@[i];
        &&& d == ReactiveScopeDependency { identifier: d.identifier, ..o.dependencies@[i] }
        &&& promoted_identifier(d.identifier, o.dependencies@[i].identifier)
    }
    &&& ns.declarations@.len() == o.declarations@.len()
    &&& forall|i: int| 0 <= i < o.declarations@.len() ==> {
        let d = #[trigger] ns.declarations@[i];
        &&& d.0 == o.declarations@[i].0
        &&& promoted_identifier(d.1.identifier, o.declarations@[i].1.identifier)
    }
}

/// The own fields of a terminal after promotion: its test, returned or
/// thrown value, or result is promoted.
pub open spec fn promoted_terminal_fields(n: ReactiveTerminal, o: ReactiveTerminal) -> bool {
    match o {
        ReactiveTerminal::If { test, id, .. } => n matches ReactiveTerminal::If { test: t, id: i, .. } && promoted_place(t, test) && i == id,
        ReactiveTerminal::Switch { test, id, .. } => n matches ReactiveTerminal::Switch { test: t, id: i, .. } && promoted_place(t, test) && i == id,
        ReactiveTerminal::Return { value, id } => n matches ReactiveTerminal::Return { value: v, id: i } && promoted_place(v, value) && i == id,
        ReactiveTerminal::Throw { value, id } => n matches ReactiveTerminal::Throw { value: v, id: i } && promoted_place(v, value) && i == id,
        ReactiveTerminal::Logical { operator, result, id, .. } => n matches ReactiveTerminal::Logical { operator: op, result: res, id: i, .. }
            && op == operator && i == id && match result {
                Some(r) => res matches Some(x) && promoted_place(x, r),
                None => res is None,
            },
        _ => same_terminal_fields(n, o),
    }
}

/// The relation of the promotion pass.
pub open spec fn promotion_rel() -> TreeRel {
    TreeRel {
        instruction: |n: Instruction, o: Instruction| {
            &&& n.id == o.id
            &&& n.loc == o.loc
            &&& promoted_place(n.lvalue, o.lvalue)
            &&& value_places_mapped(n.value, o.value, |a: Place, b: Place| promoted_place(a, b))
        },
        scope: |ns: ReactiveScope, sb: ReactiveScopeBlock| promoted_scope(ns, sb),
        terminal: |n: ReactiveTerminal, o: ReactiveTerminal| promoted_terminal_fields(n, o),
        case_test: |n: Option<Place>, o: Option<Place>| match o {
            Some(p) => n matches Some(q) && promoted_place(q, p),
            None => n is None,
        },
    }
}

fn promote_identifier(identifier: &mut Identifier)
    ensures
        promoted_identifier(*final(identifier), *old(identifier)),
{
    if identifier.name.is_none() {
        let mut s = String::from_str("t");
        push_decimal(&mut s, identifier.id.0);
        identifier.name = Some(s);
    }
}

fn promote_place(place: &mut Place)
    ensures
        promoted_place(*final(place), *old(place)),
{
    promote_identifier(&mut place.identifier);
}

fn promote_places(places: &mut Vec<Place>)
    ensures
        places_mapped(final(places)@, old(places)@, |a: Place, b: Place| promoted_place(a, b)),
{
    let ghost o = places@;
    let mut i: usize = 0;
    while i < places.len()
        invariant
            i <= places@.len(),
            places@.len() == o.len(),
            forall|k: int| 0 <= k < i ==> promoted_place(#[trigger] places@[k], o[k]),
            forall|k: int| i <= k < o.len() ==> #[trigger] places@[k] == o[k],
        decreases places.len() - i,
    {
        promote_place(&mut places[i]);
        i = i + 1;
    }
}

fn promote_properties(properties: &mut Vec<ObjectProperty>)
    ensures
        properties_mapped(final(properties)@, old(properties)@, |a: Place, b: Place| promoted_place(a, b)),
{
    let ghost o = properties@;
    let ghost pf = |a: Place, b: Place| promoted_place(a, b);
    let mut i: usize = 0;
    while i < properties.len()
        invariant
            i <= properties@.len(),
            properties@.len() == o.len(),
            pf == |a: Place, b: Place| promoted_place(a, b),
            forall|k: int| 0 <= k < i ==> {
                &&& (#[trigger] properties@[k]).shorthand == o[k].shorthand
                &&& pf(properties@[k].value, o[k].value)
                &&& key_mapped(properties@[k].key, o[k].key, pf)
            },
            forall|k: int| i <= k < o.len() ==> #[trigger] properties@[k] == o[k],
        decreases properties.len() - i,
    {
        promote_place(&mut properties[i].value);
        if let ObjectPropertyKey::Computed(p) = &mut properties[i].key {
            promote_place(p);
        }
        i = i + 1;
    }
}

fn promote_elements(elements: &mut Vec<ArrayElement>)
    ensures
        elements_mapped(final(elements)@, old(elements)@, |a: Place, b: Place| promoted_place(a, b)),
{
    let ghost o = elements@;
    let ghost pf = |a: Place, b: Place| promoted_place(a, b);
    let mut i: usize = 0;
    while i < elements.len()
        invariant
            i <= elements@.len(),
            elements@.len() == o.len(),
            pf == |a: Place, b: Place| promoted_place(a, b),
            forall|k: int| 0 <= k < i ==> element_mapped(#[trigger] elements@[k], o[k], pf),
            forall|k: int| i <= k < o.len() ==> #[trigger] elements@[k] == o[k],
        decreases elements.len() - i,
    {
        match &mut elements[i] {
            ArrayElement::Expression(p) => promote_place(p),
            ArrayElement::Spread(p) => promote_place(p),
            ArrayElement::Hole => {},
        }
        i = i + 1;
    }
}

fn promote_attributes(attributes: &mut Vec<JsxAttribute>)
    ensures
        attributes_mapped(final(attributes)@, old(attributes)@, |a: Place, b: Place| promoted_place(a, b)),
{
    let ghost o = attributes@;
    let mut i: usize = 0;
    while i < attributes.len()
        invariant
            i <= attributes@.len(),
            attributes@.len() == o.len(),
            forall|k: int| 0 <= k < i ==> (#[trigger] attributes@[k]).name == o[k].name && promoted_place(attributes@[k].value, o[k].value),
            forall|k: int| i <= k < o.len() ==> #[trigger] attributes@[k] == o[k],
        decreases attributes.len() - i,
    {
        promote_place(&mut attributes[i].value);
        i = i + 1;
    }
}

/// Promote the operand places of an instruction value.
fn promote_places_in_value(value: &mut InstructionValue)
    ensures
        value_places_mapped(*final(value), *old(value), |a: Place, b: Place| promoted_place(a, b)),
{
    match value {
        InstructionValue::LoadLocal { place } => promote_place(place),
        InstructionValue::LoadContext { place } => promote_place(place),
        InstructionValue::StoreLocal { lvalue, value, .. } => {
            promote_place(lvalue);
            promote_place(value);
        },
        InstructionValue::StoreContext { lvalue, value } => {
            promote_place(lvalue);
            promote_place(value);
        },
        InstructionValue::DeclareLocal { lvalue, .. } => promote_place(lvalue),
        InstructionValue::DeclareContext { lvalue } => promote_place(lvalue),
        InstructionValue::Destructure { value, .. } => promote_place(value),
        InstructionValue::BinaryExpression { left, right, .. } => {
            promote_place(left);
            promote_place(right);
        },
        InstructionValue::UnaryExpression { value, .. } => promote_place(value),
        InstructionValue::PrefixUpdate { lvalue, .. } => promote_place(lvalue),
        InstructionValue::PostfixUpdate { lvalue, .. } => promote_place(lvalue),
        InstructionValue::CallExpression { callee, args } => {
            promote_place(callee);
            promote_places(args);
        },
        InstructionValue::MethodCall { receiver, args, .. } => {
            promote_place(receiver);
            promote_places(args);
        },
        InstructionValue::NewExpression { callee, args } => {
            promote_place(callee);
            promote_places(args);
        },
        InstructionValue::PropertyLoad { object, .. } => promote_place(object),
        InstructionValue::PropertyStore { object, value, .. } => {
            promote_place(object);
            promote_place(value);
        },
        InstructionValue::ComputedLoad { object, property } => {
            promote_place(object);
            promote_place(property);
        },
        InstructionValue::ComputedStore { object, property, value } => {
            promote_place(object);
            promote_place(property);
            promote_place(value);
        },
        InstructionValue::PropertyDelete { object, .. } => promote_place(object),
        InstructionValue::ComputedDelete { object, property } => {
            promote_place(object);
            promote_place(property);
        },
        InstructionValue::ObjectExpression { properties } => promote_properties(properties),
        InstructionValue::ArrayExpression { elements } => promote_elements(elements),
        InstructionValue::JsxExpression { tag, props, children } => {
            promote_place(tag);
            promote_attributes(props);
            promote_places(children);
        },
        InstructionValue::JsxFragment { children } => promote_places(children),
        InstructionValue::TemplateLiteral { subexpressions, .. } => promote_places(subexpressions),
        InstructionValue::TaggedTemplateExpression { tag, value } => {
            promote_place(tag);
            promote_places(&mut value.subexpressions);
        },
        InstructionValue::StoreGlobal { value, .. } => promote_place(value),
        InstructionValue::Await { value } => promote_place(value),
        InstructionValue::GetIterator { collection } => promote_place(collection),
        InstructionValue::IteratorNext { iterator, .. } => promote_place(iterator),
        InstructionValue::NextPropertyOf { value } => promote_place(value),
        InstructionValue::TypeCastExpression { value, .. } => promote_place(value),
        InstructionValue::FinishMemoize { decl, deps, .. } => {
            promote_place(decl);
            promote_places(deps);
        },
        _ => {},
    }
}


fn promote_scope(scope: &mut ReactiveScope)
    ensures
        forall|b: ReactiveBlock| promoted_scope(*final(scope), ReactiveScopeBlock { scope: *old(scope), instructions: b }),
{
    let ghost o = *scope;
    let mut i: usize = 0;
    while i < scope.dependencies.len()
        invariant
            i <= scope.dependencies@.len(),
            scope.dependencies@.len() == o.dependencies@.len(),
            *scope == (ReactiveScope { dependencies: scope.dependencies, ..o }),
            forall|k: int| 0 <= k < i ==> {
                let d = #[trigger] scope.dependencies@[k];
                &&& d == ReactiveScopeDependency { identifier: d.identifier, ..o.dependencies@[k] }
                &&& promoted_identifier(d.identifier, o.dependencies@[k].identifier)
            },
            forall|k: int| i <= k < o.dependencies@.len() ==> #[trigger] scope.dependencies@[k] == o.dependencies@[k],
        decreases scope.dependencies.len() - i,
    {
        promote_identifier(&mut scope.dependencies[i].identifier);
        i = i + 1;
    }
    let ghost mid = *scope;
    let mut j: usize = 0;
    while j < scope.declarations.len()
        invariant
            j <= scope.declarations@.len(),
            scope.declarations@.len() == o.declarations@.len(),
            *scope == (ReactiveScope { declarations: scope.declarations, ..mid }),
            forall|k: int| 0 <= k < j ==> {
                let d = #[trigger] scope.declarations@[k];
                &&& d.0 == o.declarations@[k].0
                &&& promoted_identifier(d.1.identifier, o.declarations@[k].1.identifier)
            },
            forall|k: int| j <= k < o.declarations@.len() ==> #[trigger] scope.declarations@[k] == o.declarations@[k],
        decreases scope.declarations.len() - j,
    {
        promote_identifier(&mut scope.declarations[j].1.identifier);
        j = j + 1;
    }
}

/// Promote the places a terminal holds itself (not those of its blocks).
fn promote_places_in_terminal(terminal: &mut ReactiveTerminal)
    ensures
        promoted_terminal_fields(*final(terminal), *old(terminal)),
        same_blocks(*final(terminal), *old(terminal)),
{
    match terminal {
        ReactiveTerminal::If { test, .. } => promote_place(test),
        ReactiveTerminal::Switch { test, cases, .. } => {
            promote_place(test);
            let ghost oc = cases@;
            let mut i: usize = 0;
            while i < cases.len()
                invariant
                    i <= cases@.len(),
                    cases@.len() == oc.len(),
                    forall|k: int| 0 <= k < i ==> {
                        &&& (#[trigger] cases@[k]).1 == oc[k].1
                        &&& match oc[k].0 {
                            Some(p) => cases@[k].0 matches Some(q) && promoted_place(q, p),
                            None => cases@[k].0 is None,
                        }
                    },
                    forall|k: int| i <= k < oc.len() ==> #[trigger] cases@[k] == oc[k],
                decreases cases.len() - i,
            {
                if let Some(tv) = &mut cases[i].0 {
                    promote_place(tv);
                }
                i = i + 1;
            }
        },
        ReactiveTerminal::Return { value, .. } => promote_place(value),
        ReactiveTerminal::Throw { value, .. } => promote_place(value),
        ReactiveTerminal::Logical { result, .. } => {
            if let Some(r) = result {
                promote_place(r);
            }
        },
        _ => {},
    }
}

/// The two terminals have the same child blocks; switch cases keep their
/// blocks and have their tests promoted.
pub open spec fn same_blocks(n: ReactiveTerminal, o: ReactiveTerminal) -> bool {
    match o {
        ReactiveTerminal::If { consequent, alternate, .. } => n matches ReactiveTerminal::If { consequent: c, alternate: a, .. } && c == consequent && a == alternate,
        ReactiveTerminal::Switch { cases, .. } => n matches ReactiveTerminal::Switch { cases: nc, .. } && nc@.len() == cases@.len() && forall|k: int| 0 <= k < cases@.len() ==> {
            &&& (#[trigger] nc@[k]).1 == cases@[k].1
            &&& match cases@[k].0 {
                Some(p) => nc@[k].0 matches Some(q) && promoted_place(q, p),
                None => nc@[k].0 is None,
            }
        },
        ReactiveTerminal::For { init, test, update, body, .. } => n matches ReactiveTerminal::For { init: a, test: b, update: c, body: d, .. } && a == init && b == test && c == update && d == body,
        ReactiveTerminal::ForOf { init, test, body, .. } => n matches ReactiveTerminal::ForOf { init: a, test: b, body: d, .. } && a == init && b == test && d == body,
        ReactiveTerminal::ForIn { init, test, body, .. } => n matches ReactiveTerminal::ForIn { init: a, test: b, body: d, .. } && a == init && b == test && d == body,
        ReactiveTerminal::While { test, body, .. } => n matches ReactiveTerminal::While { test: b, body: d, .. } && b == test && d == body,
        ReactiveTerminal::DoWhile { body, test, .. } => n matches ReactiveTerminal::DoWhile { body: d, test: b, .. } && b == test && d == body,
        ReactiveTerminal::Try { block, handler, .. } => n matches ReactiveTerminal::Try { block: a, handler: b, .. } && a == block && b == handler,
        ReactiveTerminal::Label { block, .. } => n matches ReactiveTerminal::Label { block: a, .. } && a == block,
        ReactiveTerminal::Logical { right, .. } => n matches ReactiveTerminal::Logical { right: a, .. } && a == right,
        _ => true,
    }
}

fn promote_temps_in_block(block: &mut ReactiveBlock, counter: &mut u32)
    ensures
        block_rel(*final(block), *old(block), promotion_rel()),
        *final(counter) == *old(counter),
    decreases *old(block),
{
    let ghost f = promotion_rel();
    let ghost o = old(block).instructions@;
    let mut i: usize = 0;
    while i < block.instructions.len()
        invariant
            i <= block.instructions@.len(),
            block.instructions@.len() == o.len(),
            o == old(block).instructions@,
            f == promotion_rel(),
            *counter == *old(counter),
            instructions_rel(block.instructions@.take(i as int), o.take(i as int), f),
            forall|k: int| i <= k < o.len() ==> #[trigger] block.instructions@[k] == o[k],
        decreases block.instructions.len() - i,
    {
        let ghost oi = o[i as int];
        let ghost prev = block.instructions@;
        proof {
            assert(decreases_to!(*old(block) => old(block).instructions));
            assert(decreases_to!(old(block).instructions => o));
            assert(decreases_to!(o => o[i as int]));
        }
        match &mut block.instructions[i] {
            ReactiveInstruction::Instruction(instruction) => {
                let ghost oinst = *instruction;
                promote_place(&mut instruction.lvalue);
                promote_places_in_value(&mut instruction.value);
                proof {
                    assert((f.instruction)(*instruction, oinst));
                }
            },
            ReactiveInstruction::Scope(scope_block) => {
                let ghost osb = *scope_block;
                proof {
                    assert(decreases_to!(oi => osb.instructions));
                }
                promote_scope(&mut scope_block.scope);
                proof {
                    assert(promoted_scope(scope_block.scope, osb));
                }
                promote_temps_in_block(&mut scope_block.instructions, counter);
                proof {
                    assert((f.scope)(scope_block.scope, osb));
                }
            },
            ReactiveInstruction::Terminal(terminal) => {
                let ghost ot = *terminal;
                proof {
                    assert(decreases_to!(oi => ot));
                }
                promote_places_in_terminal(terminal);
                promote_blocks_in_terminal(terminal, Ghost(ot), counter);
                proof {
                    assert(terminal_rel(*terminal, ot, f));
                }
            },
        }
        proof {
            assert(instruction_rel(block.instructions@[i as int], oi, f));
            assert(block.instructions@.take(i as int) =~= prev.take(i as int));
            assert(block.instructions@.take(i + 1).drop_last() =~= block.instructions@.take(i as int));
            assert(o.take(i + 1).drop_last() =~= o.take(i as int));
        }
        i = i + 1;
    }
    proof {
        assert(block.instructions@.take(i as int) =~= block.instructions@);
        assert(o.take(i as int) =~= o);
    }
}

/// Promote the blocks of a terminal whose own fields are already promoted
/// from those of `ot`.
fn promote_blocks_in_terminal(terminal: &mut ReactiveTerminal, Ghost(ot): Ghost<ReactiveTerminal>, counter: &mut u32)
    requires
        promoted_terminal_fields(*old(terminal), ot),
        same_blocks(*old(terminal), ot),
    ensures
        terminal_rel(*final(terminal), ot, promotion_rel()),
        *final(counter) == *old(counter),
    decreases ot,
{
    let ghost f = promotion_rel();
    match terminal {
        ReactiveTerminal::If { consequent, alternate, .. } => {
            promote_temps_in_block(consequent, counter);
            promote_temps_in_block(alternate, counter);
        },
        ReactiveTerminal::Switch { cases, .. } => {
            let ghost oc = ot->Switch_cases@;
            let ghost mc = cases@;
            let mut i: usize = 0;
            while i < cases.len()
                invariant
                    i <= cases@.len(),
                    cases@.len() == oc.len(),
                    mc.len() == oc.len(),
                    ot is Switch,
                    oc == ot->Switch_cases@,
                    f == promotion_rel(),
                    *counter == *old(counter),
                    forall|k: int| 0 <= k < oc.len() ==> {
                        &&& (#[trigger] mc[k]).1 == oc[k].1
                        &&& match oc[k].0 {
                            Some(p) => mc[k].0 matches Some(q) && promoted_place(q, p),
                            None => mc[k].0 is None,
                        }
                    },
                    cases_rel(cases@.take(i as int), oc.take(i as int), f),
                    forall|k: int| i <= k < oc.len() ==> #[trigger] cases@[k] == mc[k],
                decreases cases.len() - i,
            {
                proof {
                    assert(decreases_to!(ot => ot->Switch_cases));
                    assert(decreases_to!(ot->Switch_cases => oc));
                    assert(decreases_to!(oc => oc[i as int]));
                }
                let ghost prevc = cases@;
                promote_temps_in_block(&mut cases[i].1, counter);
                proof {
                    let n = cases@;
                    assert(n.take(i as int) =~= prevc.take(i as int));
                    assert(n.take(i + 1).drop_last() =~= n.take(i as int));
                    assert(oc.take(i + 1).drop_last() =~= oc.take(i as int));
                }
                i = i + 1;
            }
            proof {
                assert(cases@.take(i as int) =~= cases@);
                assert(oc.take(i as int) =~= oc);
            }
        },
        ReactiveTerminal::For { init, test, update, body, .. } => {
            promote_temps_in_block(init, counter);
            promote_temps_in_block(test, counter);
            if let Some(u) = update {
                promote_temps_in_block(u, counter);
            }
            promote_temps_in_block(body, counter);
        },
        ReactiveTerminal::ForOf { init, test, body, .. } => {
            promote_temps_in_block(init, counter);
            promote_temps_in_block(test, counter);
            promote_temps_in_block(body, counter);
        },
        ReactiveTerminal::ForIn { init, test, body, .. } => {
            promote_temps_in_block(init, counter);
            promote_temps_in_block(test, counter);
            promote_temps_in_block(body, counter);
        },
        ReactiveTerminal::While { test, body, .. } => {
            promote_temps_in_block(test, counter);
            promote_temps_in_block(body, counter);
        },
        ReactiveTerminal::DoWhile { body, test, .. } => {
            promote_temps_in_block(test, counter);
            promote_temps_in_block(body, counter);
        },
        ReactiveTerminal::Try { block, handler, .. } => {
            promote_temps_in_block(block, counter);
            promote_temps_in_block(handler, counter);
        },
        ReactiveTerminal::Label { block, .. } => {
            promote_temps_in_block(block, counter);
        },
        ReactiveTerminal::Logical { right, .. } => {
            promote_temps_in_block(right, counter);
        },
        _ => {},
    }
}

/// Promote used temporaries: every unnamed identifier of the function's
/// instructions (lvalues and operands), of its scopes' dependencies and
/// declarations, and of its terminals' tests, values and results is named
/// `t<id>`. Named identifiers and everything else are unchanged.
pub fn promote_used_temporaries(rf: &mut ReactiveFunction)
    ensures
        final(rf).loc == old(rf).loc,
        final(rf).id == old(rf).id,
        final(rf).params == old(rf).params,
        final(rf).directives == old(rf).directives,
        final(rf).is_arrow == old(rf).is_arrow,
        final(rf).is_async == old(rf).is_async,
        final(rf).is_generator == old(rf).is_generator,
        block_rel(final(rf).body, old(rf).body, promotion_rel()),
{
    let mut counter: u32 = 0;
    promote_temps_in_block(&mut rf.body, &mut counter);
}

} // verus!
