//! Inline loads of locals: an operand that reads an unnamed temporary
//! holding `LoadLocal(x)` reads `x` itself instead.
//!
//! Each block collects the loads of its own instructions (and those of the
//! scopes directly inside it that load a named variable), follows chains of
//! such temporaries, and rewrites the operands of its instructions, the
//! dependencies and declarations of its scopes and the tests and values of
//! its terminals. The instructions of a scope's body are rewritten first with
//! the substitutions of the enclosing block, then with their own.

use vstd::prelude::*;
use rustc_hash::FxHashMap;
use crate::fxhash::{fx_map_get, fx_map_insert};
use crate::hir::copy::{copy_identifier, copy_place};
use crate::hir::model::{identifier_model, place_model, IdentifierModel, PlaceModel};
use crate::hir::types::{
    ArrayElement, Identifier, Instruction, InstructionValue, JsxAttribute, ObjectProperty,
    ObjectPropertyKey, Place, ReactiveBlock, ReactiveFunction, ReactiveInstruction, ReactiveScope,
    ReactiveScopeDependency, ReactiveTerminal,
};
use crate::reactive_scopes::promote_temporaries::{
    attributes_mapped, element_mapped, elements_mapped, key_mapped, places_mapped,
    properties_mapped, value_places_mapped,
};
use crate::reactive_scopes::reactive_tree::same_terminal_fields;

verus! {

// ---------------------------------------------------------------------------
// Substitutions
// ---------------------------------------------------------------------------

/// The models of the places of a map keyed by identifier id.
pub open spec fn place_models(m: Map<u32, Place>) -> Map<u32, PlaceModel> {
    Map::new(|k: u32| m.contains_key(k), |k: u32| place_model(m[k]))
}

/// `p`, replaced by the place `m` maps its identifier to, if any.
pub open spec fn subst(p: PlaceModel, m: Map<u32, PlaceModel>) -> PlaceModel {
    if m.contains_key(p.identifier.id.0) {
        m[p.identifier.id.0]
    } else {
        p
    }
}

/// `x`, replaced by the identifier of the place `m` maps it to, if any.
pub open spec fn subst_identifier(x: IdentifierModel, m: Map<u32, PlaceModel>) -> IdentifierModel {
    if m.contains_key(x.id.0) {
        m[x.id.0].identifier
    } else {
        x
    }
}

/// Follow `m` from `p` for at most `fuel` links.
pub open spec fn chase(m: Map<u32, PlaceModel>, p: PlaceModel, fuel: nat) -> PlaceModel
    decreases fuel,
{
    if fuel > 0 && m.contains_key(p.identifier.id.0) {
        chase(m, m[p.identifier.id.0], (fuel - 1) as nat)
    } else {
        p
    }
}

/// The number of links a chain of temporaries is followed for.
pub open spec fn chain_limit() -> nat {
    21
}

/// Each key of `m` mapped to the end of its chain of substitutions.
pub open spec fn resolve(m: Map<u32, PlaceModel>) -> Map<u32, PlaceModel> {
    Map::new(|k: u32| m.contains_key(k), |k: u32| chase(m, m[k], chain_limit()))
}

/// The loads inside a scope body that the enclosing block inlines: those of
/// a named variable into an unnamed temporary, added to `m` in order.
pub open spec fn scope_loads(m: Map<u32, PlaceModel>, q: Seq<ReactiveInstruction>) -> Map<u32, PlaceModel>
    decreases q.len(),
{
    if q.len() == 0 {
        m
    } else {
        let m1 = scope_loads(m, q.drop_last());
        match q.last() {
            ReactiveInstruction::Instruction(ins) => match ins.value {
                InstructionValue::LoadLocal { place } => if place.identifier.name is Some && ins.lvalue.identifier.name is None {
                    m1.insert(ins.lvalue.identifier.id.0, place_model(place))
                } else {
                    m1
                },
                _ => m1,
            },
            _ => m1,
        }
    }
}

/// The substitutions of a block whose own instructions were first rewritten
/// by `outer`: each load into an unnamed temporary maps it to the (rewritten)
/// loaded place, and each scope adds its loads; later entries replace
/// earlier ones.
pub open spec fn block_loads(q: Seq<ReactiveInstruction>, outer: Map<u32, PlaceModel>) -> Map<u32, PlaceModel>
    decreases q.len(),
{
    if q.len() == 0 {
        Map::empty()
    } else {
        let m = block_loads(q.drop_last(), outer);
        match q.last() {
            ReactiveInstruction::Instruction(ins) => match ins.value {
                InstructionValue::LoadLocal { place } => if ins.lvalue.identifier.name is None {
                    m.insert(ins.lvalue.identifier.id.0, subst(place_model(place), outer))
                } else {
                    m
                },
                _ => m,
            },
            ReactiveInstruction::Scope(sb) => scope_loads(m, sb.instructions.instructions@),
            ReactiveInstruction::Terminal(_) => m,
        }
    }
}

/// `a` is `b` rewritten by `outer`, then by `r`.
pub open spec fn inlined_place(a: Place, b: Place, outer: Map<u32, PlaceModel>, r: Map<u32, PlaceModel>) -> bool {
    place_model(a) == subst(subst(place_model(b), outer), r)
}

pub open spec fn inline_pf(outer: Map<u32, PlaceModel>, r: Map<u32, PlaceModel>) -> spec_fn(Place, Place) -> bool {
    |a: Place, b: Place| inlined_place(a, b, outer, r)
}

/// The scope with the identifiers of its dependencies and declarations
/// rewritten by `r`.
pub open spec fn inlined_scope(ns: ReactiveScope, o: ReactiveScope, r: Map<u32, PlaceModel>) -> bool {
    &&& ns == ReactiveScope { dependencies: ns.dependencies, declarations: ns.declarations, ..o }
    &&& ns.dependencies@.len() == o.dependencies@.len()
    &&& forall|i: int| 0 <= i < o.dependencies@.len() ==> {
        let d = #[trigger] ns.dependencies@[i];
        &&& d == ReactiveScopeDependency { identifier: d.identifier, ..o.dependencies@[i] }
        &&& identifier_model(d.identifier) == subst_identifier(identifier_model(o.dependencies@[i].identifier), r)
    }
    &&& ns.declarations@.len() == o.declarations@.len()
    &&& forall|i: int| 0 <= i < o.declarations@.len() ==> {
        let d = #[trigger] ns.declarations@[i];
        &&& d.0 == o.declarations@[i].0
        &&& identifier_model(d.1.identifier) == subst_identifier(identifier_model(o.declarations@[i].1.identifier), r)
    }
}

pub open spec fn opt_inlined(n: Option<Place>, o: Option<Place>, r: Map<u32, PlaceModel>) -> bool {
    match o {
        Some(p) => n matches Some(q) && place_model(q) == subst(place_model(p), r),
        None => n is None,
    }
}

/// The own fields of a terminal rewritten by `r`: the test of an `if` or a
/// `switch` (not its case tests), the returned or thrown value, the result
/// of a logical expression.
pub open spec fn inlined_terminal_fields(n: ReactiveTerminal, o: ReactiveTerminal, r: Map<u32, PlaceModel>) -> bool {
    match o {
        ReactiveTerminal::If { test, id, .. } => n matches ReactiveTerminal::If { test: t, id: i, .. }
            && place_model(t) == subst(place_model(test), r) && i == id,
        ReactiveTerminal::Switch { test, id, .. } => n matches ReactiveTerminal::Switch { test: t, id: i, .. }
            && place_model(t) == subst(place_model(test), r) && i == id,
        ReactiveTerminal::Return { value, id } => n matches ReactiveTerminal::Return { value: v, id: i }
            && place_model(v) == subst(place_model(value), r) && i == id,
        ReactiveTerminal::Throw { value, id } => n matches ReactiveTerminal::Throw { value: v, id: i }
            && place_model(v) == subst(place_model(value), r) && i == id,
        ReactiveTerminal::Logical { operator, result, id, .. } => n matches ReactiveTerminal::Logical { operator: op, result: res, id: i, .. }
            && op == operator && i == id && opt_inlined(res, result, r),
        _ => same_terminal_fields(n, o),
    }
}

// ---------------------------------------------------------------------------
// The relation of the pass
// ---------------------------------------------------------------------------

/// `n` is the block `o`, whose own instructions were first rewritten by
/// `outer`, after inlining its loads.
pub open spec fn inlined_block(n: ReactiveBlock, o: ReactiveBlock, outer: Map<u32, PlaceModel>) -> bool
    decreases o,
{
    inlined_instructions(n.instructions@, o.instructions@, outer, resolve(block_loads(o.instructions@, outer)))
}

pub open spec fn inlined_instructions(
    n: Seq<ReactiveInstruction>,
    o: Seq<ReactiveInstruction>,
    outer: Map<u32, PlaceModel>,
    r: Map<u32, PlaceModel>,
) -> bool
    decreases o,
{
    &&& n.len() == o.len()
    &&& o.len() > 0 ==> inlined_instructions(n.drop_last(), o.drop_last(), outer, r) && inlined_instruction(n.last(), o.last(), outer, r)
}

pub open spec fn inlined_instruction(
    n: ReactiveInstruction,
    o: ReactiveInstruction,
    outer: Map<u32, PlaceModel>,
    r: Map<u32, PlaceModel>,
) -> bool
    decreases o,
{
    match o {
        ReactiveInstruction::Instruction(i) => {
            &&& n matches ReactiveInstruction::Instruction(ni)
            &&& ni.id == i.id
            &&& ni.lvalue == i.lvalue
            &&& ni.loc == i.loc
            &&& value_places_mapped(ni.value, i.value, inline_pf(outer, r))
        },
        ReactiveInstruction::Scope(sb) => {
            &&& n matches ReactiveInstruction::Scope(nsb)
            &&& inlined_scope(nsb.scope, sb.scope, r)
            &&& inlined_block(nsb.instructions, sb.instructions, r)
        },
        ReactiveInstruction::Terminal(t) => {
            &&& n matches ReactiveInstruction::Terminal(nt)
            &&& inlined_terminal(nt, t, r)
        },
    }
}

pub open spec fn inlined_opt_block(n: Option<ReactiveBlock>, o: Option<ReactiveBlock>) -> bool
    decreases o,
{
    match o {
        Some(ob) => n matches Some(nb) && inlined_block(nb, ob, Map::empty()),
        None => n is None,
    }
}

pub open spec fn inlined_cases(n: Seq<(Option<Place>, ReactiveBlock)>, o: Seq<(Option<Place>, ReactiveBlock)>) -> bool
    decreases o,
{
    &&& n.len() == o.len()
    &&& o.len() > 0 ==> {
        &&& inlined_cases(n.drop_last(), o.drop_last())
        &&& n.last().0 == o.last().0
        &&& inlined_block(n.last().1, o.last().1, Map::empty())
    }
}

/// A terminal with its own fields rewritten by `r` and its blocks inlined
/// on their own.
pub open spec fn inlined_terminal(n: ReactiveTerminal, o: ReactiveTerminal, r: Map<u32, PlaceModel>) -> bool
    decreases o,
{
    &&& inlined_terminal_fields(n, o, r)
    &&& match o {
        ReactiveTerminal::If { consequent, alternate, .. } => {
            &&& n matches ReactiveTerminal::If { consequent: nc, alternate: na, .. }
            &&& inlined_block(nc, consequent, Map::empty())
            &&& inlined_block(na, alternate, Map::empty())
        },
        ReactiveTerminal::Switch { cases, .. } => {
            &&& n matches ReactiveTerminal::Switch { cases: nc, .. }
            &&& inlined_cases(nc@, cases@)
        },
        ReactiveTerminal::For { init, test, update, body, .. } => {
            &&& n matches ReactiveTerminal::For { init: n1, test: n2, update: n3, body: n4, .. }
            &&& inlined_block(n1, init, Map::empty())
            &&& inlined_block(n2, test, Map::empty())
            &&& inlined_opt_block(n3, update)
            &&& inlined_block(n4, body, Map::empty())
        },
        ReactiveTerminal::ForOf { init, test, body, .. } => {
            &&& n matches ReactiveTerminal::ForOf { init: n1, test: n2, body: n4, .. }
            &&& inlined_block(n1, init, Map::empty())
            &&& inlined_block(n2, test, Map::empty())
            &&& inlined_block(n4, body, Map::empty())
        },
        ReactiveTerminal::ForIn { init, test, body, .. } => {
            &&& n matches ReactiveTerminal::ForIn { init: n1, test: n2, body: n4, .. }
            &&& inlined_block(n1, init, Map::empty())
            &&& inlined_block(n2, test, Map::empty())
            &&& inlined_block(n4, body, Map::empty())
        },
        ReactiveTerminal::While { test, body, .. } => {
            &&& n matches ReactiveTerminal::While { test: n2, body: n4, .. }
            &&& inlined_block(n2, test, Map::empty())
            &&& inlined_block(n4, body, Map::empty())
        },
        ReactiveTerminal::DoWhile { body, test, .. } => {
            &&& n matches ReactiveTerminal::DoWhile { body: n4, test: n2, .. }
            &&& inlined_block(n2, test, Map::empty())
            &&& inlined_block(n4, body, Map::empty())
        },
        ReactiveTerminal::Try { block, handler, .. } => {
            &&& n matches ReactiveTerminal::Try { block: nb, handler: nh, .. }
            &&& inlined_block(nb, block, Map::empty())
            &&& inlined_block(nh, handler, Map::empty())
        },
        ReactiveTerminal::Label { block, .. } => {
            &&& n matches ReactiveTerminal::Label { block: nb, .. }
            &&& inlined_block(nb, block, Map::empty())
        },
        ReactiveTerminal::Logical { right, .. } => {
            &&& n matches ReactiveTerminal::Logical { right: nr, .. }
            &&& inlined_block(nr, right, Map::empty())
        },
        _ => true,
    }
}

// ---------------------------------------------------------------------------
// Rewriting places
// ---------------------------------------------------------------------------

fn substitute_once(place: &mut Place, m: &FxHashMap<u32, Place>)
    ensures
        place_model(*final(place)) == subst(place_model(*old(place)), place_models(m@)),
{
    match fx_map_get(m, place.identifier.id.0) {
        Some(rep) => {
            *place = copy_place(rep);
        },
        None => {},
    }
}

fn substitute_place(place: &mut Place, outer: &FxHashMap<u32, Place>, r: &FxHashMap<u32, Place>)
    ensures
        inlined_place(*final(place), *old(place), place_models(outer@), place_models(r@)),
{
    substitute_once(place, outer);
    substitute_once(place, r);
}

fn substitute_identifier(identifier: &mut Identifier, r: &FxHashMap<u32, Place>)
    ensures
        identifier_model(*final(identifier)) == subst_identifier(identifier_model(*old(identifier)), place_models(r@)),
{
    match fx_map_get(r, identifier.id.0) {
        Some(rep) => {
            *identifier = copy_identifier(&rep.identifier);
        },
        None => {},
    }
}

fn substitute_places(places: &mut Vec<Place>, outer: &FxHashMap<u32, Place>, r: &FxHashMap<u32, Place>)
    ensures
        places_mapped(final(places)@, old(places)@, inline_pf(place_models(outer@), place_models(r@))),
{
    let ghost o = places@;
    let ghost pf = inline_pf(place_models(outer@), place_models(r@));
    let mut i: usize = 0;
    while i < places.len()
        invariant
            i <= places@.len(),
            places@.len() == o.len(),
            pf == inline_pf(place_models(outer@), place_models(r@)),
            forall|k: int| 0 <= k < i ==> #[trigger] pf(places@[k], o[k]),
            forall|k: int| i <= k < o.len() ==> #[trigger] places@[k] == o[k],
        decreases places.len() - i,
    {
        substitute_place(&mut places[i], outer, r);
        proof {
            assert(pf(places@[i as int], o[i as int]));
        }
        i = i + 1;
    }
}

fn substitute_properties(properties: &mut Vec<ObjectProperty>, outer: &FxHashMap<u32, Place>, r: &FxHashMap<u32, Place>)
    ensures
        properties_mapped(final(properties)@, old(properties)@, inline_pf(place_models(outer@), place_models(r@))),
{
    let ghost o = properties@;
    let ghost pf = inline_pf(place_models(outer@), place_models(r@));
    let mut i: usize = 0;
    while i < properties.len()
        invariant
            i <= properties@.len(),
            properties@.len() == o.len(),
            pf == inline_pf(place_models(outer@), place_models(r@)),
            forall|k: int| 0 <= k < i ==> {
                &&& (#[trigger] properties@[k]).shorthand == o[k].shorthand
                &&& pf(properties@[k].value, o[k].value)
                &&& key_mapped(properties@[k].key, o[k].key, pf)
            },
            forall|k: int| i <= k < o.len() ==> #[trigger] properties@[k] == o[k],
        decreases properties.len() - i,
    {
        substitute_place(&mut properties[i].value, outer, r);
        if let ObjectPropertyKey::Computed(p) = &mut properties[i].key {
            substitute_place(p, outer, r);
        }
        proof {
            assert(pf(properties@[i as int].value, o[i as int].value));
            assert(key_mapped(properties@[i as int].key, o[i as int].key, pf));
        }
        i = i + 1;
    }
}

fn substitute_elements(elements: &mut Vec<ArrayElement>, outer: &FxHashMap<u32, Place>, r: &FxHashMap<u32, Place>)
    ensures
        elements_mapped(final(elements)@, old(elements)@, inline_pf(place_models(outer@), place_models(r@))),
{
    let ghost o = elements@;
    let ghost pf = inline_pf(place_models(outer@), place_models(r@));
    let mut i: usize = 0;
    while i < elements.len()
        invariant
            i <= elements@.len(),
            elements@.len() == o.len(),
            pf == inline_pf(place_models(outer@), place_models(r@)),
            forall|k: int| 0 <= k < i ==> element_mapped(#[trigger] elements@[k], o[k], pf),
            forall|k: int| i <= k < o.len() ==> #[trigger] elements@[k] == o[k],
        decreases elements.len() - i,
    {
        match &mut elements[i] {
            ArrayElement::Expression(p) => substitute_place(p, outer, r),
            ArrayElement::Spread(p) => substitute_place(p, outer, r),
            ArrayElement::Hole => {},
        }
        proof {
            assert(element_mapped(elements@[i as int], o[i as int], pf));
        }
        i = i + 1;
    }
}

fn substitute_attributes(attributes: &mut Vec<JsxAttribute>, outer: &FxHashMap<u32, Place>, r: &FxHashMap<u32, Place>)
    ensures
        attributes_mapped(final(attributes)@, old(attributes)@, inline_pf(place_models(outer@), place_models(r@))),
{
    let ghost o = attributes@;
    let ghost pf = inline_pf(place_models(outer@), place_models(r@));
    let mut i: usize = 0;
    while i < attributes.len()
        invariant
            i <= attributes@.len(),
            attributes@.len() == o.len(),
            pf == inline_pf(place_models(outer@), place_models(r@)),
            forall|k: int| 0 <= k < i ==> (#[trigger] attributes@[k]).name == o[k].name && pf(attributes@[k].value, o[k].value),
            forall|k: int| i <= k < o.len() ==> #[trigger] attributes@[k] == o[k],
        decreases attributes.len() - i,
    {
        substitute_place(&mut attributes[i].value, outer, r);
        proof {
            assert(pf(attributes@[i as int].value, o[i as int].value));
        }
        i = i + 1;
    }
}

/// Rewrite the operand places of an instruction value by `outer`, then `r`.
fn substitute_places_in_value(value: &mut InstructionValue, outer: &FxHashMap<u32, Place>, r: &FxHashMap<u32, Place>)
    ensures
        value_places_mapped(*final(value), *old(value), inline_pf(place_models(outer@), place_models(r@))),
{
    match value {
        InstructionValue::LoadLocal { place } => substitute_place(place, outer, r),
        InstructionValue::LoadContext { place } => substitute_place(place, outer, r),
        InstructionValue::StoreLocal { lvalue, value, .. } => {
            substitute_place(lvalue, outer, r);
            substitute_place(value, outer, r);
        },
        InstructionValue::StoreContext { lvalue, value } => {
            substitute_place(lvalue, outer, r);
            substitute_place(value, outer, r);
        },
        InstructionValue::DeclareLocal { lvalue, .. } => substitute_place(lvalue, outer, r),
        InstructionValue::DeclareContext { lvalue } => substitute_place(lvalue, outer, r),
        InstructionValue::Destructure { value, .. } => substitute_place(value, outer, r),
        InstructionValue::BinaryExpression { left, right, .. } => {
            substitute_place(left, outer, r);
            substitute_place(right, outer, r);
        },
        InstructionValue::UnaryExpression { value, .. } => substitute_place(value, outer, r),
        InstructionValue::PrefixUpdate { lvalue, .. } => substitute_place(lvalue, outer, r),
        InstructionValue::PostfixUpdate { lvalue, .. } => substitute_place(lvalue, outer, r),
        InstructionValue::CallExpression { callee, args } => {
            substitute_place(callee, outer, r);
            substitute_places(args, outer, r);
        },
        InstructionValue::MethodCall { receiver, args, .. } => {
            substitute_place(receiver, outer, r);
            substitute_places(args, outer, r);
        },
        InstructionValue::NewExpression { callee, args } => {
            substitute_place(callee, outer, r);
            substitute_places(args, outer, r);
        },
        InstructionValue::PropertyLoad { object, .. } => substitute_place(object, outer, r),
        InstructionValue::PropertyStore { object, value, .. } => {
            substitute_place(object, outer, r);
            substitute_place(value, outer, r);
        },
        InstructionValue::ComputedLoad { object, property } => {
            substitute_place(object, outer, r);
            substitute_place(property, outer, r);
        },
        InstructionValue::ComputedStore { object, property, value } => {
            substitute_place(object, outer, r);
            substitute_place(property, outer, r);
            substitute_place(value, outer, r);
        },
        InstructionValue::PropertyDelete { object, .. } => substitute_place(object, outer, r),
        InstructionValue::ComputedDelete { object, property } => {
            substitute_place(object, outer, r);
            substitute_place(property, outer, r);
        },
        InstructionValue::ObjectExpression { properties } => substitute_properties(properties, outer, r),
        InstructionValue::ArrayExpression { elements } => substitute_elements(elements, outer, r),
        InstructionValue::JsxExpression { tag, props, children } => {
            substitute_place(tag, outer, r);
            substitute_attributes(props, outer, r);
            substitute_places(children, outer, r);
        },
        InstructionValue::JsxFragment { children } => substitute_places(children, outer, r),
        InstructionValue::TemplateLiteral { subexpressions, .. } => substitute_places(subexpressions, outer, r),
        InstructionValue::TaggedTemplateExpression { tag, value } => {
            substitute_place(tag, outer, r);
            substitute_places(&mut value.subexpressions, outer, r);
        },
        InstructionValue::StoreGlobal { value, .. } => substitute_place(value, outer, r),
        InstructionValue::Await { value } => substitute_place(value, outer, r),
        InstructionValue::GetIterator { collection } => substitute_place(collection, outer, r),
        InstructionValue::IteratorNext { iterator, .. } => substitute_place(iterator, outer, r),
        InstructionValue::NextPropertyOf { value } => substitute_place(value, outer, r),
        InstructionValue::TypeCastExpression { value, .. } => substitute_place(value, outer, r),
        InstructionValue::FinishMemoize { decl, deps, .. } => {
            substitute_place(decl, outer, r);
            substitute_places(deps, outer, r);
        },
        _ => {},
    }
}

// ---------------------------------------------------------------------------
// Chains of temporaries
// ---------------------------------------------------------------------------

/// Map each key of `subs` to the end of its chain of substitutions, the
/// chain being followed for at most `chain_limit()` links.
fn resolve_transitive_subs(subs: &FxHashMap<u32, Place>, keys: &Vec<u32>) -> (resolved: FxHashMap<u32, Place>)
    requires
        forall|k: u32| subs@.contains_key(k) <==> keys@.contains(k),
    ensures
        place_models(resolved@) == resolve(place_models(subs@)),
{
    let ghost sm = place_models(subs@);
    let mut resolved: FxHashMap<u32, Place> = FxHashMap::default();
    let mut i: usize = 0;
    while i < keys.len()
        invariant
            i <= keys@.len(),
            sm == place_models(subs@),
            forall|k: u32| subs@.contains_key(k) <==> keys@.contains(k),
            forall|k: u32| resolved@.contains_key(k) <==> keys@.take(i as int).contains(k),
            forall|k: u32| #[trigger] resolved@.contains_key(k) ==> place_model(resolved@[k]) == chase(sm, sm[k], chain_limit()),
        decreases keys.len() - i,
    {
        let k = keys[i];
        proof {
            assert(keys@.contains(k)) by {
                assert(keys@[i as int] == k);
            }
        }
        let start = fx_map_get(subs, k).unwrap();
        let mut current = copy_place(start);
        let mut depth: u32 = 0;
        let mut more = fx_map_get(subs, current.identifier.id.0).is_some();
        while depth <= 20 && more
            invariant
                depth <= 21,
                sm == place_models(subs@),
                subs@.contains_key(k),
                more == subs@.contains_key(current.identifier.id.0),
                chase(sm, place_model(current), (chain_limit() - depth) as nat) == chase(sm, sm[k], chain_limit()),
            decreases 21 - depth,
        {
            let next = fx_map_get(subs, current.identifier.id.0).unwrap();
            current = copy_place(next);
            depth = depth + 1;
            more = fx_map_get(subs, current.identifier.id.0).is_some();
        }
        let ghost prev = resolved@;
        fx_map_insert(&mut resolved, k, current);
        proof {
            assert(keys@.take(i + 1) =~= keys@.take(i as int).push(k));
            assert forall|x: u32| resolved@.contains_key(x) <==> keys@.take(i + 1).contains(x) by {
                if x != k {
                    assert(keys@.take(i as int).push(k).contains(x) ==> keys@.take(i as int).contains(x)) by {
                        if keys@.take(i as int).push(k).contains(x) {
                            let j = choose|j: int| 0 <= j < keys@.take(i as int).push(k).len() && keys@.take(i as int).push(k)[j] == x;
                            assert(j < i);
                        }
                    }
                } else {
                    assert(keys@.take(i as int).push(k)[i as int] == k);
                }
            }
        }
        i = i + 1;
    }
    proof {
        assert(keys@.take(keys@.len() as int) =~= keys@);
        assert(place_models(resolved@) =~= resolve(sm));
    }
    resolved
}

// ---------------------------------------------------------------------------
// Scopes and terminals
// ---------------------------------------------------------------------------

fn substitute_scope(scope: &mut ReactiveScope, r: &FxHashMap<u32, Place>)
    ensures
        inlined_scope(*final(scope), *old(scope), place_models(r@)),
{
    let ghost o = *scope;
    let ghost rm = place_models(r@);
    let mut i: usize = 0;
    while i < scope.dependencies.len()
        invariant
            i <= scope.dependencies@.len(),
            scope.dependencies@.len() == o.dependencies@.len(),
            rm == place_models(r@),
            *scope == (ReactiveScope { dependencies: scope.dependencies, ..o }),
            forall|k: int| 0 <= k < i ==> {
                let d = #[trigger] scope.dependencies@[k];
                &&& d == ReactiveScopeDependency { identifier: d.identifier, ..o.dependencies@[k] }
                &&& identifier_model(d.identifier) == subst_identifier(identifier_model(o.dependencies@[k].identifier), rm)
            },
            forall|k: int| i <= k < o.dependencies@.len() ==> #[trigger] scope.dependencies@[k] == o.dependencies@[k],
        decreases scope.dependencies.len() - i,
    {
        substitute_identifier(&mut scope.dependencies[i].identifier, r);
        i = i + 1;
    }
    let ghost mid = *scope;
    let mut j: usize = 0;
    while j < scope.declarations.len()
        invariant
            j <= scope.declarations@.len(),
            scope.declarations@.len() == o.declarations@.len(),
            rm == place_models(r@),
            *scope == (ReactiveScope { declarations: scope.declarations, ..mid }),
            forall|k: int| 0 <= k < j ==> {
                let d = #[trigger] scope.declarations@[k];
                &&& d.0 == o.declarations@[k].0
                &&& identifier_model(d.1.identifier) == subst_identifier(identifier_model(o.declarations@[k].1.identifier), rm)
            },
            forall|k: int| j <= k < o.declarations@.len() ==> #[trigger] scope.declarations@[k] == o.declarations@[k],
        decreases scope.declarations.len() - j,
    {
        substitute_identifier(&mut scope.declarations[j].1.identifier, r);
        j = j + 1;
    }
}

/// The two terminals have the same child blocks (and switch cases).
pub open spec fn same_children(n: ReactiveTerminal, o: ReactiveTerminal) -> bool {
    match o {
        ReactiveTerminal::If { consequent, alternate, .. } => n matches ReactiveTerminal::If { consequent: c, alternate: a, .. } && c == consequent && a == alternate,
        ReactiveTerminal::Switch { cases, .. } => n matches ReactiveTerminal::Switch { cases: nc, .. } && nc == cases,
        ReactiveTerminal::For { init, test, update, body, .. } => n matches ReactiveTerminal::For { init: a, test: b, update: c, body: d, .. } && a == init && b == test && c == update && d == body,
        ReactiveTerminal::ForOf { init, test, body, .. } => n matches ReactiveTerminal::ForOf { init: a, test: b, body: d, .. } && a == init && b == test && d == body,
        ReactiveTerminal::ForIn { init, test, body, .. } => n matches ReactiveTerminal::ForIn { init: a, test: b, body: d, .. } && a == init && b == test && d == body,
        ReactiveTerminal::While { test, body, .. } => n matches ReactiveTerminal::While { test: b, body: d, .. } && b == test && d == body,
        ReactiveTerminal::DoWhile { body, test, .. } => n matches ReactiveTerminal::DoWhile { body: d, test: b, .. } && b == test && d == body,
        ReactiveTerminal::Try { block, handler, .. } => n matches ReactiveTerminal::Try { block: a, handler: b, .. } && a == block && b == handler,
        ReactiveTerminal::Label { block, .. } => n matches ReactiveTerminal::Label { block: a, .. } && a == block,
        ReactiveTerminal::Logical { right, .. } => n matches ReactiveTerminal::Logical { right: a, .. } && a == right,
        _ => true,
    }
}

/// Rewrite the places a terminal holds itself (not those of its blocks).
fn substitute_places_in_terminal(terminal: &mut ReactiveTerminal, r: &FxHashMap<u32, Place>)
    ensures
        inlined_terminal_fields(*final(terminal), *old(terminal), place_models(r@)),
        same_children(*final(terminal), *old(terminal)),
{
    match terminal {
        ReactiveTerminal::If { test, .. } => substitute_once(test, r),
        ReactiveTerminal::Switch { test, .. } => substitute_once(test, r),
        ReactiveTerminal::Return { value, .. } => substitute_once(value, r),
        ReactiveTerminal::Throw { value, .. } => substitute_once(value, r),
        ReactiveTerminal::Logical { result, .. } => {
            if let Some(p) = result {
                substitute_once(p, r);
            }
        },
        _ => {},
    }
}

// ---------------------------------------------------------------------------
// Blocks
// ---------------------------------------------------------------------------

proof fn lemma_inlined_prefix(
    n: Seq<ReactiveInstruction>,
    o: Seq<ReactiveInstruction>,
    i: int,
    outer: Map<u32, PlaceModel>,
    r: Map<u32, PlaceModel>,
)
    requires
        0 <= i < o.len(),
        n.len() == o.len(),
        inlined_instructions(n.take(i), o.take(i), outer, r),
        inlined_instruction(n[i], o[i], outer, r),
    ensures
        inlined_instructions(n.take(i + 1), o.take(i + 1), outer, r),
{
    assert(n.take(i + 1).drop_last() =~= n.take(i));
    assert(o.take(i + 1).drop_last() =~= o.take(i));
}

proof fn lemma_place_models_insert(m: Map<u32, Place>, k: u32, p: Place)
    ensures
        place_models(m.insert(k, p)) == place_models(m).insert(k, place_model(p)),
{
    assert(place_models(m.insert(k, p)) =~= place_models(m).insert(k, place_model(p)));
}

/// Add `id -> p` to the substitutions and `id` to their key list.
fn record_load(subs: &mut FxHashMap<u32, Place>, keys: &mut Vec<u32>, id: u32, p: Place)
    requires
        forall|k: u32| old(subs)@.contains_key(k) <==> old(keys)@.contains(k),
    ensures
        final(subs)@ == old(subs)@.insert(id, p),
        forall|k: u32| final(subs)@.contains_key(k) <==> final(keys)@.contains(k),
{
    let ghost ok = keys@;
    fx_map_insert(subs, id, p);
    keys.push(id);
    proof {
        assert forall|k: u32| subs@.contains_key(k) <==> keys@.contains(k) by {
            if k == id {
                assert(keys@[ok.len() as int] == id);
            } else {
                if ok.contains(k) {
                    let j = choose|j: int| 0 <= j < ok.len() && ok[j] == k;
                    assert(keys@[j] == k);
                }
                if keys@.contains(k) {
                    let j = choose|j: int| 0 <= j < keys@.len() && keys@[j] == k;
                    assert(ok[j] == k);
                }
            }
        }
    }
}

/// Collect the substitutions of a block whose own instructions are to be
/// rewritten by `outer` first; `keys` lists the keys of the result.
fn collect_loads(block: &ReactiveBlock, outer: &FxHashMap<u32, Place>) -> (res: (FxHashMap<u32, Place>, Vec<u32>))
    ensures
        place_models(res.0@) == block_loads(block.instructions@, place_models(outer@)),
        forall|k: u32| res.0@.contains_key(k) <==> res.1@.contains(k),
{
    let ghost om = place_models(outer@);
    let ghost o = block.instructions@;
    let mut subs: FxHashMap<u32, Place> = FxHashMap::default();
    let mut keys: Vec<u32> = Vec::new();
    proof {
        assert(place_models(subs@) =~= Map::empty());
        assert(o.take(0) =~= Seq::empty());
    }
    let mut i: usize = 0;
    while i < block.instructions.len()
        invariant
            i <= o.len(),
            o == block.instructions@,
            om == place_models(outer@),
            place_models(subs@) == block_loads(o.take(i as int), om),
            forall|k: u32| subs@.contains_key(k) <==> keys@.contains(k),
        decreases block.instructions.len() - i,
    {
        proof {
            assert(o.take(i + 1).drop_last() =~= o.take(i as int));
            assert(o.take(i + 1).last() == o[i as int]);
        }
        match &block.instructions[i] {
            ReactiveInstruction::Instruction(instruction) => {
                if let InstructionValue::LoadLocal { place: source } = &instruction.value {
                    if instruction.lvalue.identifier.name.is_none() {
                        let mut src = copy_place(source);
                        substitute_once(&mut src, outer);
                        let id = instruction.lvalue.identifier.id.0;
                        proof {
                            lemma_place_models_insert(subs@, id, src);
                        }
                        record_load(&mut subs, &mut keys, id, src);
                    }
                }
            },
            ReactiveInstruction::Scope(scope_block) => {
                let inner = &scope_block.instructions.instructions;
                let ghost m0 = place_models(subs@);
                proof {
                    assert(inner@.take(0) =~= Seq::<ReactiveInstruction>::empty());
                }
                let mut j: usize = 0;
                while j < inner.len()
                    invariant
                        j <= inner@.len(),
                        place_models(subs@) == scope_loads(m0, inner@.take(j as int)),
                        forall|k: u32| subs@.contains_key(k) <==> keys@.contains(k),
                    decreases inner.len() - j,
                {
                    proof {
                        assert(inner@.take(j + 1).drop_last() =~= inner@.take(j as int));
                        assert(inner@.take(j + 1).last() == inner@[j as int]);
                    }
                    if let ReactiveInstruction::Instruction(instruction) = &inner[j] {
                        if let InstructionValue::LoadLocal { place: source } = &instruction.value {
                            if source.identifier.name.is_some() && instruction.lvalue.identifier.name.is_none() {
                                let src = copy_place(source);
                                let id = instruction.lvalue.identifier.id.0;
                                proof {
                                    lemma_place_models_insert(subs@, id, src);
                                }
                                record_load(&mut subs, &mut keys, id, src);
                            }
                        }
                    }
                    j = j + 1;
                }
                proof {
                    assert(inner@.take(inner@.len() as int) =~= inner@);
                }
            },
            ReactiveInstruction::Terminal(_) => {},
        }
        i = i + 1;
    }
    proof {
        assert(o.take(o.len() as int) =~= o);
    }
    (subs, keys)
}

fn inline_loads_in_block(block: &mut ReactiveBlock, outer: &FxHashMap<u32, Place>)
    ensures
        inlined_block(*final(block), *old(block), place_models(outer@)),
    decreases *old(block),
{
    let ghost om = place_models(outer@);
    let ghost o = old(block).instructions@;
    let (subs, keys) = collect_loads(block, outer);
    let resolved = resolve_transitive_subs(&subs, &keys);
    let ghost rm = place_models(resolved@);
    let empty: FxHashMap<u32, Place> = FxHashMap::default();
    proof {
        assert(place_models(empty@) =~= Map::<u32, PlaceModel>::empty());
        assert(block.instructions@.take(0) =~= Seq::<ReactiveInstruction>::empty());
        assert(o.take(0) =~= Seq::<ReactiveInstruction>::empty());
    }
    let mut i: usize = 0;
    while i < block.instructions.len()
        invariant
            i <= block.instructions@.len(),
            block.instructions@.len() == o.len(),
            o == old(block).instructions@,
            om == place_models(outer@),
            rm == place_models(resolved@),
            rm == resolve(block_loads(o, om)),
            place_models(empty@) == Map::<u32, PlaceModel>::empty(),
            inlined_instructions(block.instructions@.take(i as int), o.take(i as int), om, rm),
            forall|k: int| i <= k < o.len() ==> #[trigger] block.instructions@[k] == o[k],
        decreases block.instructions.len() - i,
    {
        let ghost oi = o[i as int];
        let ghost prev = block.instructions@;
        proof {
            assert(decreases_to!(*old(block) => old(block).instructions));
            assert(decreases_to!(old(block).instructions => o));
            assert(decreases_to!(o => o[i as int]));
        }
        match &mut block.instructions[i] {
            ReactiveInstruction::Instruction(instruction) => {
                substitute_places_in_value(&mut instruction.value, outer, &resolved);
            },
            ReactiveInstruction::Scope(scope_block) => {
                let ghost osb = *scope_block;
                proof {
                    assert(decreases_to!(oi => osb.instructions));
                }
                substitute_scope(&mut scope_block.scope, &resolved);
                inline_loads_in_block(&mut scope_block.instructions, &resolved);
            },
            ReactiveInstruction::Terminal(terminal) => {
                let ghost ot = *terminal;
                proof {
                    assert(decreases_to!(oi => ot));
                }
                substitute_places_in_terminal(terminal, &resolved);
                inline_blocks_in_terminal(terminal, Ghost(ot), Ghost(rm), &empty);
            },
        }
        proof {
            assert(inlined_instruction(block.instructions@[i as int], oi, om, rm));
            assert(block.instructions@.take(i as int) =~= prev.take(i as int));
            lemma_inlined_prefix(block.instructions@, o, i as int, om, rm);
        }
        i = i + 1;
    }
    proof {
        assert(block.instructions@.take(i as int) =~= block.instructions@);
        assert(o.take(i as int) =~= o);
    }
}

/// Inline the loads of the blocks of a terminal whose own fields are already
/// rewritten from those of `ot` by `r`.
fn inline_blocks_in_terminal(
    terminal: &mut ReactiveTerminal,
    Ghost(ot): Ghost<ReactiveTerminal>,
    Ghost(r): Ghost<Map<u32, PlaceModel>>,
    empty: &FxHashMap<u32, Place>,
)
    requires
        inlined_terminal_fields(*old(terminal), ot, r),
        same_children(*old(terminal), ot),
        place_models(empty@) == Map::<u32, PlaceModel>::empty(),
    ensures
        inlined_terminal(*final(terminal), ot, r),
    decreases ot,
{
    match terminal {
        ReactiveTerminal::If { consequent, alternate, .. } => {
            inline_loads_in_block(consequent, empty);
            inline_loads_in_block(alternate, empty);
        },
        ReactiveTerminal::Switch { cases, .. } => {
            let ghost oc = ot->Switch_cases@;
            proof {
                assert(cases@.take(0) =~= Seq::<(Option<Place>, ReactiveBlock)>::empty());
                assert(oc.take(0) =~= Seq::<(Option<Place>, ReactiveBlock)>::empty());
            }
            let mut i: usize = 0;
            while i < cases.len()
                invariant
                    i <= cases@.len(),
                    cases@.len() == oc.len(),
                    ot is Switch,
                    oc == ot->Switch_cases@,
                    place_models(empty@) == Map::<u32, PlaceModel>::empty(),
                    inlined_cases(cases@.take(i as int), oc.take(i as int)),
                    forall|k: int| i <= k < oc.len() ==> #[trigger] cases@[k] == oc[k],
                decreases cases.len() - i,
            {
                proof {
                    assert(decreases_to!(ot => ot->Switch_cases));
                    assert(decreases_to!(ot->Switch_cases => oc));
                    assert(decreases_to!(oc => oc[i as int]));
                }
                let ghost prevc = cases@;
                inline_loads_in_block(&mut cases[i].1, empty);
                proof {
                    let n = cases@;
                    assert(n.take(i as int) =~= prevc.take(i as int));
                    assert(n.take(i + 1).drop_last() =~= n.take(i as int));
                    assert(oc.take(i + 1).drop_last() =~= oc.take(i as int));
                }
                i = i + 1;
            }
            proof {
                assert(cases@.take(i as int) =~= cases@);
                assert(oc.take(i as int) =~= oc);
            }
        },
        ReactiveTerminal::For { init, test, update, body, .. } => {
            inline_loads_in_block(init, empty);
            inline_loads_in_block(test, empty);
            if let Some(u) = update {
                inline_loads_in_block(u, empty);
            }
            inline_loads_in_block(body, empty);
        },
        ReactiveTerminal::ForOf { init, test, body, .. } => {
            inline_loads_in_block(init, empty);
            inline_loads_in_block(test, empty);
            inline_loads_in_block(body, empty);
        },
        ReactiveTerminal::ForIn { init, test, body, .. } => {
            inline_loads_in_block(init, empty);
            inline_loads_in_block(test, empty);
            inline_loads_in_block(body, empty);
        },
        ReactiveTerminal::While { test, body, .. } => {
            inline_loads_in_block(test, empty);
            inline_loads_in_block(body, empty);
        },
        ReactiveTerminal::DoWhile { body, test, .. } => {
            inline_loads_in_block(test, empty);
            inline_loads_in_block(body, empty);
        },
        ReactiveTerminal::Try { block, handler, .. } => {
            inline_loads_in_block(block, empty);
            inline_loads_in_block(handler, empty);
        },
        ReactiveTerminal::Label { block, .. } => {
            inline_loads_in_block(block, empty);
        },
        ReactiveTerminal::Logical { right, .. } => {
            inline_loads_in_block(right, empty);
        },
        _ => {},
    }
}

/// Inline loads of locals into unnamed temporaries throughout the function
/// body: every operand that reads such a temporary reads the loaded place
/// instead (following chains of temporaries), as `inlined_block` states for
/// each block; the function's other fields are unchanged.
pub fn inline_load_locals(rf: &mut ReactiveFunction)
    ensures
        final(rf).loc == old(rf).loc,
        final(rf).id == old(rf).id,
        final(rf).params == old(rf).params,
        final(rf).directives == old(rf).directives,
        final(rf).is_arrow == old(rf).is_arrow,
        final(rf).is_async == old(rf).is_async,
        final(rf).is_generator == old(rf).is_generator,
        inlined_block(final(rf).body, old(rf).body, Map::empty()),
{
    let empty: FxHashMap<u32, Place> = FxHashMap::default();
    proof {
        assert(place_models(empty@) =~= Map::<u32, PlaceModel>::empty());
    }
    inline_loads_in_block(&mut rf.body, &empty);
}

} // verus!
