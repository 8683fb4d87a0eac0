//! How many memo-cache slots the generated code of a reactive function
//! needs: each reactive scope takes one slot per dependency and one per
//! declaration (at least one for a scope with no dependencies).

use vstd::prelude::*;
use vstd::string::StringExecFns;
use rustc_hash::FxHashSet;
use crate::fxhash::{fx_set_contains, fx_set_insert};
use crate::text::{decimal, push_decimal};
use crate::hir::types::{
    DestructureArrayItem, DestructureObjectProperty, DestructurePattern, DestructureTarget,
    IdentifierId, InstructionValue, Place, ReactiveBlock, ReactiveFunction, ReactiveInstruction,
    ReactiveScopeBlock, ReactiveTerminal, ScopeDeclaration,
};

verus! {

// ---------------------------------------------------------------------------
// The places a destructuring pattern binds
// ---------------------------------------------------------------------------

/// The places bound by a destructuring pattern, in source order, the rest
/// element last.
pub open spec fn pattern_places(p: DestructurePattern) -> Seq<Place>
    decreases p,
{
    match p {
        DestructurePattern::Object { properties, rest } => object_pattern_places(properties@) + match rest {
            Some(r) => seq![r],
            None => Seq::empty(),
        },
        DestructurePattern::Array { items, rest } => array_pattern_places(items@) + match rest {
            Some(r) => seq![r],
            None => Seq::empty(),
        },
    }
}

pub open spec fn object_pattern_places(q: Seq<DestructureObjectProperty>) -> Seq<Place>
    decreases q,
{
    if q.len() == 0 {
        Seq::empty()
    } else {
        object_pattern_places(q.drop_last()) + target_places(q.last().value)
    }
}

pub open spec fn target_places(t: DestructureTarget) -> Seq<Place>
    decreases t,
{
    match t {
        DestructureTarget::Place(p) => seq![p],
        DestructureTarget::Pattern(n) => pattern_places(*n),
    }
}

pub open spec fn array_pattern_places(q: Seq<DestructureArrayItem>) -> Seq<Place>
    decreases q,
{
    if q.len() == 0 {
        Seq::empty()
    } else {
        array_pattern_places(q.drop_last()) + match q.last() {
            DestructureArrayItem::Value(t) => target_places(t),
            DestructureArrayItem::Spread(p) => seq![p],
            DestructureArrayItem::Hole => Seq::empty(),
        }
    }
}

/// The name a place is printed with: its identifier's name, or `t<id>`.
pub open spec fn place_display_name(p: Place) -> Seq<char> {
    match p.identifier.name {
        Some(n) => n@,
        None => "t"@ + decimal(p.identifier.id.0 as nat),
    }
}

/// The texts of a list of strings.
pub open spec fn texts(v: Seq<String>) -> Seq<Seq<char>> {
    v.map_values(|s: String| s@)
}

/// The declaration ids of a list of places.
pub open spec fn declaration_ids(q: Seq<Place>) -> Set<u32> {
    Set::new(|d: u32| exists|i: int| 0 <= i < q.len() && (#[trigger] q[i].identifier.declaration_id matches Some(x) && x.0 == d))
}

/// The names of a list of places.
pub open spec fn place_names(q: Seq<Place>) -> Set<Seq<char>> {
    Set::new(|n: Seq<char>| exists|i: int| 0 <= i < q.len() && (#[trigger] q[i].identifier.name matches Some(x) && x@ == n))
}

fn place_name(place: &Place) -> (r: String)
    ensures
        r@ == place_display_name(*place),
{
    match &place.identifier.name {
        Some(name) => name.clone(),
        None => {
            let mut s = String::from_str("t");
            push_decimal(&mut s, place.identifier.id.0);
            s
        },
    }
}

fn push_place_name(names: &mut Vec<String>, place: &Place)
    ensures
        texts(final(names)@) == texts(old(names)@).push(place_display_name(*place)),
{
    let n = place_name(place);
    names.push(n);
    proof {
        assert(texts(names@) =~= texts(old(names)@).push(place_display_name(*place)));
    }
}

/// Collect the printed names of all places a destructuring pattern binds.
fn collect_pattern_name_strings(pattern: &DestructurePattern, names: &mut Vec<String>)
    ensures
        texts(final(names)@) == texts(old(names)@) + pattern_places(*pattern).map_values(|p: Place| place_display_name(p)),
    decreases pattern,
{
    let ghost f = |p: Place| place_display_name(p);
    match pattern {
        DestructurePattern::Object { properties, rest } => {
            let mut i: usize = 0;
            while i < properties.len()
                invariant
                    i <= properties@.len(),
                    *pattern is Object,
                    pattern->properties == *properties,
                    f == |p: Place| place_display_name(p),
                    texts(names@) == texts(old(names)@) + object_pattern_places(properties@.take(i as int)).map_values(f),
                decreases properties.len() - i,
            {
                let ghost before = texts(names@);
                proof {
                    assert(properties@.take(i + 1).drop_last() =~= properties@.take(i as int));
                }
                match &properties[i].value {
                    DestructureTarget::Place(place) => {
                        push_place_name(names, place);
                    },
                    DestructureTarget::Pattern(nested) => {
                        proof {
                            assert(decreases_to!(*pattern => pattern->properties));
                            assert(decreases_to!(*properties => properties@));
                            assert(decreases_to!(properties@ => properties@[i as int]));
                            assert(decreases_to!(properties@[i as int] => properties@[i as int].value));
                        }
                        collect_pattern_name_strings(nested, names);
                    },
                }
                proof {
                    let prev = object_pattern_places(properties@.take(i as int));
                    let here = target_places(properties@[i as int].value);
                    assert((prev + here).map_values(f) =~= prev.map_values(f) + here.map_values(f));
                    assert(texts(names@) =~= before + here.map_values(f));
                }
                i = i + 1;
            }
            proof {
                assert(properties@.take(i as int) =~= properties@);
            }
            let ghost mid = texts(names@);
            if let Some(rest_place) = rest {
                push_place_name(names, rest_place);
            }
            proof {
                let a = object_pattern_places(properties@);
                let r = match rest { Some(x) => seq![*x], None => Seq::<Place>::empty() };
                assert((a + r).map_values(f) =~= a.map_values(f) + r.map_values(f));
                assert(texts(names@) =~= mid + r.map_values(f));
            }
        },
        DestructurePattern::Array { items, rest } => {
            let mut i: usize = 0;
            while i < items.len()
                invariant
                    i <= items@.len(),
                    *pattern is Array,
                    pattern->items == *items,
                    f == |p: Place| place_display_name(p),
                    texts(names@) == texts(old(names)@) + array_pattern_places(items@.take(i as int)).map_values(f),
                decreases items.len() - i,
            {
                let ghost before = texts(names@);
                proof {
                    assert(items@.take(i + 1).drop_last() =~= items@.take(i as int));
                }
                match &items[i] {
                    DestructureArrayItem::Value(target) => match target {
                        DestructureTarget::Place(place) => {
                            push_place_name(names, place);
                        },
                        DestructureTarget::Pattern(nested) => {
                            proof {
                                assert(decreases_to!(*pattern => pattern->items));
                                assert(decreases_to!(*items => items@));
                                assert(decreases_to!(items@ => items@[i as int]));
                            }
                            collect_pattern_name_strings(nested, names);
                        },
                    },
                    DestructureArrayItem::Spread(place) => {
                        push_place_name(names, place);
                    },
                    DestructureArrayItem::Hole => {},
                }
                proof {
                    let prev = array_pattern_places(items@.take(i as int));
                    let here = match items@[i as int] {
                        DestructureArrayItem::Value(t) => target_places(t),
                        DestructureArrayItem::Spread(p) => seq![p],
                        DestructureArrayItem::Hole => Seq::<Place>::empty(),
                    };
                    assert((prev + here).map_values(f) =~= prev.map_values(f) + here.map_values(f));
                    assert(texts(names@) =~= before + here.map_values(f));
                }
                i = i + 1;
            }
            proof {
                assert(items@.take(i as int) =~= items@);
            }
            let ghost mid = texts(names@);
            if let Some(rest_place) = rest {
                push_place_name(names, rest_place);
            }
            proof {
                let a = array_pattern_places(items@);
                let r = match rest { Some(x) => seq![*x], None => Seq::<Place>::empty() };
                assert((a + r).map_values(f) =~= a.map_values(f) + r.map_values(f));
                assert(texts(names@) =~= mid + r.map_values(f));
            }
        },
    }
}


proof fn lemma_ids_names_concat(a: Seq<Place>, b: Seq<Place>)
    ensures
        declaration_ids(a + b) == declaration_ids(a) + declaration_ids(b),
        place_names(a + b) == place_names(a) + place_names(b),
{
    let c = a + b;
    assert forall|d: u32| declaration_ids(c).contains(d) <==> (declaration_ids(a) + declaration_ids(b)).contains(d) by {
        if declaration_ids(c).contains(d) {
            let i = choose|i: int| 0 <= i < c.len() && (#[trigger] c[i].identifier.declaration_id matches Some(x) && x.0 == d);
            if i < a.len() {
                assert(a[i] == c[i]);
            } else {
                assert(b[i - a.len()] == c[i]);
            }
        }
        if declaration_ids(a).contains(d) {
            let i = choose|i: int| 0 <= i < a.len() && (#[trigger] a[i].identifier.declaration_id matches Some(x) && x.0 == d);
            assert(c[i] == a[i]);
        }
        if declaration_ids(b).contains(d) {
            let i = choose|i: int| 0 <= i < b.len() && (#[trigger] b[i].identifier.declaration_id matches Some(x) && x.0 == d);
            assert(c[a.len() + i] == b[i]);
        }
    }
    assert forall|n: Seq<char>| place_names(c).contains(n) <==> (place_names(a) + place_names(b)).contains(n) by {
        if place_names(c).contains(n) {
            let i = choose|i: int| 0 <= i < c.len() && (#[trigger] c[i].identifier.name matches Some(x) && x@ == n);
            if i < a.len() {
                assert(a[i] == c[i]);
            } else {
                assert(b[i - a.len()] == c[i]);
            }
        }
        if place_names(a).contains(n) {
            let i = choose|i: int| 0 <= i < a.len() && (#[trigger] a[i].identifier.name matches Some(x) && x@ == n);
            assert(c[i] == a[i]);
        }
        if place_names(b).contains(n) {
            let i = choose|i: int| 0 <= i < b.len() && (#[trigger] b[i].identifier.name matches Some(x) && x@ == n);
            assert(c[a.len() + i] == b[i]);
        }
    }
    assert(declaration_ids(c) =~= declaration_ids(a) + declaration_ids(b));
    assert(place_names(c) =~= place_names(a) + place_names(b));
}

proof fn lemma_ids_names_single(p: Place)
    ensures
        declaration_ids(seq![p]) == (match p.identifier.declaration_id {
            Some(d) => set![d.0],
            None => Set::<u32>::empty(),
        }),
        place_names(seq![p]) == (match p.identifier.name {
            Some(n) => set![n@],
            None => Set::<Seq<char>>::empty(),
        }),
{
    let q = seq![p];
    assert(q[0] == p);
    assert(declaration_ids(q) =~= (match p.identifier.declaration_id {
        Some(d) => set![d.0],
        None => Set::<u32>::empty(),
    }));
    assert(place_names(q) =~= (match p.identifier.name {
        Some(n) => set![n@],
        None => Set::<Seq<char>>::empty(),
    }));
}

/// The declaration id and the name of `place` are added to the sets.
fn add_place_identifiers(place: &Place, decl_ids: &mut FxHashSet<u32>, names: &mut Vec<String>)
    ensures
        final(decl_ids)@ == old(decl_ids)@ + declaration_ids(seq![*place]),
        texts(final(names)@).to_set() == texts(old(names)@).to_set() + place_names(seq![*place]),
{
    proof {
        lemma_ids_names_single(*place);
    }
    if let Some(did) = place.identifier.declaration_id {
        fx_set_insert(decl_ids, did.0);
    }
    if let Some(name) = &place.identifier.name {
        let ghost before = texts(names@);
        names.push(name.clone());
        proof {
            assert(texts(names@) =~= before + seq![name@]);
            Seq::lemma_to_set_insert_commutes(before, name@);
        }
    }
    proof {
        assert(decl_ids@ =~= old(decl_ids)@ + declaration_ids(seq![*place]));
        assert(texts(names@).to_set() =~= texts(old(names)@).to_set() + place_names(seq![*place]));
    }
}

/// Collect the declaration ids and names of all places a destructuring
/// pattern binds.
fn collect_pattern_identifiers(pattern: &DestructurePattern, decl_ids: &mut FxHashSet<u32>, names: &mut Vec<String>)
    ensures
        final(decl_ids)@ == old(decl_ids)@ + declaration_ids(pattern_places(*pattern)),
        texts(final(names)@).to_set() == texts(old(names)@).to_set() + place_names(pattern_places(*pattern)),
    decreases pattern,
{
    match pattern {
        DestructurePattern::Object { properties, rest } => {
            let mut i: usize = 0;
            while i < properties.len()
                invariant
                    i <= properties@.len(),
                    *pattern is Object,
                    pattern->properties == *properties,
                    decl_ids@ == old(decl_ids)@ + declaration_ids(object_pattern_places(properties@.take(i as int))),
                    texts(names@).to_set() == texts(old(names)@).to_set() + place_names(object_pattern_places(properties@.take(i as int))),
                decreases properties.len() - i,
            {
                proof {
                    assert(properties@.take(i + 1).drop_last() =~= properties@.take(i as int));
                    lemma_ids_names_concat(object_pattern_places(properties@.take(i as int)), target_places(properties@[i as int].value));
                }
                match &properties[i].value {
                    DestructureTarget::Place(place) => {
                        add_place_identifiers(place, decl_ids, names);
                    },
                    DestructureTarget::Pattern(nested) => {
                        proof {
                            assert(decreases_to!(*pattern => pattern->properties));
                            assert(decreases_to!(*properties => properties@));
                            assert(decreases_to!(properties@ => properties@[i as int]));
                            assert(decreases_to!(properties@[i as int] => properties@[i as int].value));
                        }
                        collect_pattern_identifiers(nested, decl_ids, names);
                    },
                }
                proof {
                    assert(decl_ids@ =~= old(decl_ids)@ + declaration_ids(object_pattern_places(properties@.take(i + 1))));
                    assert(texts(names@).to_set() =~= texts(old(names)@).to_set() + place_names(object_pattern_places(properties@.take(i + 1))));
                }
                i = i + 1;
            }
            proof {
                assert(properties@.take(i as int) =~= properties@);
                let r = match rest { Some(x) => seq![*x], None => Seq::<Place>::empty() };
                lemma_ids_names_concat(object_pattern_places(properties@), r);
                assert(declaration_ids(Seq::<Place>::empty()) =~= Set::<u32>::empty());
                assert(place_names(Seq::<Place>::empty()) =~= Set::<Seq<char>>::empty());
            }
            if let Some(rest_place) = rest {
                add_place_identifiers(rest_place, decl_ids, names);
            }
            proof {
                assert(decl_ids@ =~= old(decl_ids)@ + declaration_ids(pattern_places(*pattern)));
                assert(texts(names@).to_set() =~= texts(old(names)@).to_set() + place_names(pattern_places(*pattern)));
            }
        },
        DestructurePattern::Array { items, rest } => {
            let mut i: usize = 0;
            while i < items.len()
                invariant
                    i <= items@.len(),
                    *pattern is Array,
                    pattern->items == *items,
                    decl_ids@ == old(decl_ids)@ + declaration_ids(array_pattern_places(items@.take(i as int))),
                    texts(names@).to_set() == texts(old(names)@).to_set() + place_names(array_pattern_places(items@.take(i as int))),
                decreases items.len() - i,
            {
                let ghost here = match items@[i as int] {
                    DestructureArrayItem::Value(t) => target_places(t),
                    DestructureArrayItem::Spread(p) => seq![p],
                    DestructureArrayItem::Hole => Seq::<Place>::empty(),
                };
                proof {
                    assert(items@.take(i + 1).drop_last() =~= items@.take(i as int));
                    lemma_ids_names_concat(array_pattern_places(items@.take(i as int)), here);
                    assert(declaration_ids(Seq::<Place>::empty()) =~= Set::<u32>::empty());
                    assert(place_names(Seq::<Place>::empty()) =~= Set::<Seq<char>>::empty());
                }
                match &items[i] {
                    DestructureArrayItem::Value(target) => match target {
                        DestructureTarget::Place(place) => {
                            add_place_identifiers(place, decl_ids, names);
                        },
                        DestructureTarget::Pattern(nested) => {
                            proof {
                                assert(decreases_to!(*pattern => pattern->items));
                                assert(decreases_to!(*items => items@));
                                assert(decreases_to!(items@ => items@[i as int]));
                            }
                            collect_pattern_identifiers(nested, decl_ids, names);
                        },
                    },
                    DestructureArrayItem::Spread(place) => {
                        add_place_identifiers(place, decl_ids, names);
                    },
                    DestructureArrayItem::Hole => {},
                }
                proof {
                    assert(decl_ids@ =~= old(decl_ids)@ + declaration_ids(array_pattern_places(items@.take(i + 1))));
                    assert(texts(names@).to_set() =~= texts(old(names)@).to_set() + place_names(array_pattern_places(items@.take(i + 1))));
                }
                i = i + 1;
            }
            proof {
                assert(items@.take(i as int) =~= items@);
                let r = match rest { Some(x) => seq![*x], None => Seq::<Place>::empty() };
                lemma_ids_names_concat(array_pattern_places(items@), r);
                assert(declaration_ids(Seq::<Place>::empty()) =~= Set::<u32>::empty());
                assert(place_names(Seq::<Place>::empty()) =~= Set::<Seq<char>>::empty());
            }
            if let Some(rest_place) = rest {
                add_place_identifiers(rest_place, decl_ids, names);
            }
            proof {
                assert(decl_ids@ =~= old(decl_ids)@ + declaration_ids(pattern_places(*pattern)));
                assert(texts(names@).to_set() =~= texts(old(names)@).to_set() + place_names(pattern_places(*pattern)));
            }
        },
    }
}

// ---------------------------------------------------------------------------
// Declarations replaced by destructuring
// ---------------------------------------------------------------------------

/// The pattern of a destructuring instruction.
pub open spec fn destructure_pattern(i: ReactiveInstruction) -> Option<DestructurePattern> {
    match i {
        ReactiveInstruction::Instruction(instr) => match instr.value {
            InstructionValue::Destructure { lvalue_pattern, .. } => Some(lvalue_pattern),
            _ => None,
        },
        _ => None,
    }
}

/// The places bound by the destructuring instructions of a list, in order.
pub open spec fn destructured_places(q: Seq<ReactiveInstruction>) -> Seq<Place>
    decreases q.len(),
{
    if q.len() == 0 {
        Seq::empty()
    } else {
        destructured_places(q.drop_last()) + match destructure_pattern(q.last()) {
            Some(p) => pattern_places(p),
            None => Seq::empty(),
        }
    }
}

/// A declared place whose declaration id is among `d` or whose name is
/// among `n`.
pub open spec fn declare_matches(lvalue: Place, d: Set<u32>, n: Set<Seq<char>>) -> bool {
    ||| (lvalue.identifier.declaration_id matches Some(x) && d.contains(x.0))
    ||| (lvalue.identifier.name matches Some(x) && n.contains(x@))
}

/// The lvalue ids of the `DeclareLocal` instructions of a list whose
/// declared place matches `d` or `n`.
pub open spec fn matching_declares(q: Seq<ReactiveInstruction>, d: Set<u32>, n: Set<Seq<char>>) -> Set<u32>
    decreases q.len(),
{
    if q.len() == 0 {
        Set::empty()
    } else {
        matching_declares(q.drop_last(), d, n) + match q.last() {
            ReactiveInstruction::Instruction(instr) => match instr.value {
                InstructionValue::DeclareLocal { lvalue, .. } => if declare_matches(lvalue, d, n) {
                    set![instr.lvalue.identifier.id.0]
                } else {
                    Set::empty()
                },
                _ => Set::empty(),
            },
            _ => Set::empty(),
        }
    }
}

/// The ids of the declarations of a scope that stand for variables its
/// destructuring instructions bind (by declaration id or by name).
pub open spec fn destructured_declare_ids(sb: ReactiveScopeBlock) -> Set<u32> {
    let q = sb.instructions.instructions@;
    let ps = destructured_places(q);
    matching_declares(q, declaration_ids(ps), place_names(ps))
}

fn contains_name(names: &Vec<String>, n: &String) -> (r: bool)
    ensures
        r == texts(names@).to_set().contains(n@),
{
    let mut k: usize = 0;
    while k < names.len()
        invariant
            k <= names@.len(),
            forall|m: int| 0 <= m < k ==> names@[m]@ != n@,
        decreases names.len() - k,
    {
        if names[k] == *n {
            proof {
                assert(texts(names@)[k as int] == n@);
            }
            return true;
        }
        k = k + 1;
    }
    proof {
        if texts(names@).to_set().contains(n@) {
            let m = choose|m: int| 0 <= m < texts(names@).len() && texts(names@)[m] == n@;
            assert(names@[m]@ == n@);
        }
    }
    false
}

/// The ids of DeclareLocal instructions of the scope whose target is also
/// bound by a destructuring instruction of the scope.
fn find_destructured_declare_ids(scope: &ReactiveScopeBlock) -> (r: FxHashSet<u32>)
    ensures
        r@ == destructured_declare_ids(*scope),
{
    let q = &scope.instructions.instructions;
    let mut decl_ids: FxHashSet<u32> = FxHashSet::default();
    let mut names: Vec<String> = Vec::new();
    let mut i: usize = 0;
    while i < q.len()
        invariant
            i <= q@.len(),
            decl_ids@ == declaration_ids(destructured_places(q@.take(i as int))),
            texts(names@).to_set() == place_names(destructured_places(q@.take(i as int))),
        decreases q.len() - i,
    {
        proof {
            assert(q@.take(i + 1).drop_last() =~= q@.take(i as int));
            let here = match destructure_pattern(q@[i as int]) {
                Some(p) => pattern_places(p),
                None => Seq::<Place>::empty(),
            };
            lemma_ids_names_concat(destructured_places(q@.take(i as int)), here);
            assert(declaration_ids(Seq::<Place>::empty()) =~= Set::<u32>::empty());
            assert(place_names(Seq::<Place>::empty()) =~= Set::<Seq<char>>::empty());
        }
        if let ReactiveInstruction::Instruction(instruction) = &q[i] {
            if let InstructionValue::Destructure { lvalue_pattern, .. } = &instruction.value {
                collect_pattern_identifiers(lvalue_pattern, &mut decl_ids, &mut names);
            }
        }
        proof {
            assert(decl_ids@ =~= declaration_ids(destructured_places(q@.take(i + 1))));
            assert(texts(names@).to_set() =~= place_names(destructured_places(q@.take(i + 1))));
        }
        i = i + 1;
    }
    proof {
        assert(q@.take(i as int) =~= q@);
    }
    let ghost d = decl_ids@;
    let ghost n = texts(names@).to_set();
    if decl_ids.is_empty() && names.len() == 0 {
        proof {
            lemma_no_matches(q@, d, n);
        }
        return FxHashSet::default();
    }
    let mut result: FxHashSet<u32> = FxHashSet::default();
    let mut j: usize = 0;
    while j < q.len()
        invariant
            j <= q@.len(),
            d == decl_ids@,
            n == texts(names@).to_set(),
            result@ == matching_declares(q@.take(j as int), d, n),
        decreases q.len() - j,
    {
        proof {
            assert(q@.take(j + 1).drop_last() =~= q@.take(j as int));
        }
        if let ReactiveInstruction::Instruction(instruction) = &q[j] {
            if let InstructionValue::DeclareLocal { lvalue, .. } = &instruction.value {
                let by_id = match lvalue.identifier.declaration_id {
                    Some(did) => fx_set_contains(&decl_ids, did.0),
                    None => false,
                };
                let by_name = match &lvalue.identifier.name {
                    Some(nm) => contains_name(&names, nm),
                    None => false,
                };
                if by_id || by_name {
                    fx_set_insert(&mut result, instruction.lvalue.identifier.id.0);
                }
            }
        }
        proof {
            assert(result@ =~= matching_declares(q@.take(j + 1), d, n));
        }
        j = j + 1;
    }
    proof {
        assert(q@.take(j as int) =~= q@);
    }
    result
}

proof fn lemma_no_matches(q: Seq<ReactiveInstruction>, d: Set<u32>, n: Set<Seq<char>>)
    requires
        d.is_empty(),
        n.is_empty(),
    ensures
        matching_declares(q, d, n) == Set::<u32>::empty(),
    decreases q.len(),
{
    if q.len() > 0 {
        lemma_no_matches(q.drop_last(), d, n);
        assert(matching_declares(q, d, n) =~= Set::<u32>::empty());
    }
}

// ---------------------------------------------------------------------------
// Slot counts
// ---------------------------------------------------------------------------

/// The declarations of a scope that are not stand-ins for destructured
/// variables.
pub open spec fn non_phantom_declarations(sb: ReactiveScopeBlock) -> Seq<(IdentifierId, ScopeDeclaration)> {
    let ids = destructured_declare_ids(sb);
    sb.scope.declarations@.filter(|e: (IdentifierId, ScopeDeclaration)| !ids.contains(e.0.0))
}

/// The slots a scope takes for itself: its effective declarations are the
/// non-phantom ones plus one per variable its destructurings bind; a scope
/// without dependencies takes one slot per effective declaration, at least
/// one; otherwise one per dependency and one per effective declaration.
pub open spec fn scope_own_slots(sb: ReactiveScopeBlock) -> nat {
    let effective = non_phantom_declarations(sb).len() + destructured_places(sb.instructions.instructions@).len();
    if sb.scope.dependencies@.len() == 0 {
        if effective >= 1 { effective } else { 1 }
    } else {
        sb.scope.dependencies@.len() + effective
    }
}

/// The cache slots of a block: those of its scopes, nested ones included.
pub open spec fn block_slots(b: ReactiveBlock) -> nat
    decreases b,
{
    instructions_slots(b.instructions@)
}

pub open spec fn instructions_slots(q: Seq<ReactiveInstruction>) -> nat
    decreases q,
{
    if q.len() == 0 {
        0
    } else {
        instructions_slots(q.drop_last()) + instruction_slots(q.last())
    }
}

pub open spec fn instruction_slots(i: ReactiveInstruction) -> nat
    decreases i,
{
    match i {
        ReactiveInstruction::Scope(sb) => scope_own_slots(sb) + block_slots(sb.instructions),
        ReactiveInstruction::Terminal(t) => terminal_slots(t),
        ReactiveInstruction::Instruction(_) => 0,
    }
}

pub open spec fn terminal_slots(t: ReactiveTerminal) -> nat
    decreases t,
{
    match t {
        ReactiveTerminal::If { consequent, alternate, .. } => block_slots(consequent) + block_slots(alternate),
        ReactiveTerminal::Switch { cases, .. } => cases_slots(cases@),
        ReactiveTerminal::For { init, test, update, body, .. } => block_slots(init) + block_slots(test) + match update {
            Some(u) => block_slots(u),
            None => 0,
        } + block_slots(body),
        ReactiveTerminal::ForOf { init, test, body, .. } => block_slots(init) + block_slots(test) + block_slots(body),
        ReactiveTerminal::ForIn { init, test, body, .. } => block_slots(init) + block_slots(test) + block_slots(body),
        ReactiveTerminal::While { test, body, .. } => block_slots(test) + block_slots(body),
        ReactiveTerminal::DoWhile { body, test, .. } => block_slots(test) + block_slots(body),
        ReactiveTerminal::Try { block, handler, .. } => block_slots(block) + block_slots(handler),
        ReactiveTerminal::Label { block, .. } => block_slots(block),
        ReactiveTerminal::Logical { right, .. } => block_slots(right),
        _ => 0,
    }
}

pub open spec fn cases_slots(q: Seq<(Option<Place>, ReactiveBlock)>) -> nat
    decreases q,
{
    if q.len() == 0 {
        0
    } else {
        cases_slots(q.drop_last()) + block_slots(q.last().1)
    }
}

proof fn lemma_instructions_slots_prefix(q: Seq<ReactiveInstruction>, i: int)
    requires
        0 <= i < q.len(),
    ensures
        instructions_slots(q.take(i + 1)) == instructions_slots(q.take(i)) + instruction_slots(q[i]),
        instructions_slots(q.take(i + 1)) <= instructions_slots(q),
    decreases q.len() - i,
{
    assert(q.take(i + 1).drop_last() =~= q.take(i));
    if i + 1 < q.len() {
        lemma_instructions_slots_prefix(q, i + 1);
    } else {
        assert(q.take(i + 1) =~= q);
    }
}

proof fn lemma_cases_slots_prefix(q: Seq<(Option<Place>, ReactiveBlock)>, i: int)
    requires
        0 <= i < q.len(),
    ensures
        cases_slots(q.take(i + 1)) == cases_slots(q.take(i)) + block_slots(q[i].1),
        cases_slots(q.take(i + 1)) <= cases_slots(q),
    decreases q.len() - i,
{
    assert(q.take(i + 1).drop_last() =~= q.take(i));
    if i + 1 < q.len() {
        lemma_cases_slots_prefix(q, i + 1);
    } else {
        assert(q.take(i + 1) =~= q);
    }
}

proof fn lemma_destructured_places_prefix(q: Seq<ReactiveInstruction>, i: int)
    requires
        0 <= i <= q.len(),
    ensures
        destructured_places(q.take(i)).len() <= destructured_places(q).len(),
    decreases q.len() - i,
{
    if i < q.len() {
        lemma_destructured_places_prefix(q, i + 1);
        assert(q.take(i + 1).drop_last() =~= q.take(i));
    } else {
        assert(q.take(i) =~= q);
    }
}

fn count_destructured_names(q: &Vec<ReactiveInstruction>) -> (r: usize)
    requires
        destructured_places(q@).len() <= u32::MAX,
    ensures
        r == destructured_places(q@).len(),
{
    let mut count: usize = 0;
    let mut i: usize = 0;
    while i < q.len()
        invariant
            i <= q@.len(),
            destructured_places(q@).len() <= u32::MAX,
            count == destructured_places(q@.take(i as int)).len(),
        decreases q.len() - i,
    {
        proof {
            assert(q@.take(i + 1).drop_last() =~= q@.take(i as int));
            lemma_destructured_places_prefix(q@, i + 1);
        }
        if let ReactiveInstruction::Instruction(instruction) = &q[i] {
            if let InstructionValue::Destructure { lvalue_pattern, .. } = &instruction.value {
                let mut names: Vec<String> = Vec::new();
                collect_pattern_name_strings(lvalue_pattern, &mut names);
                proof {
                    assert(texts(names@).len() == names@.len());
                }
                count = count + names.len();
            }
        }
        i = i + 1;
    }
    proof {
        assert(q@.take(i as int) =~= q@);
    }
    count
}

fn count_non_phantom(sb: &ReactiveScopeBlock, ids: &FxHashSet<u32>) -> (r: usize)
    requires
        ids@ == destructured_declare_ids(*sb),
    ensures
        r == non_phantom_declarations(*sb).len(),
{
    let decls = &sb.scope.declarations;
    let ghost pred = |e: (IdentifierId, ScopeDeclaration)| !ids@.contains(e.0.0);
    let mut count: usize = 0;
    let mut k: usize = 0;
    while k < decls.len()
        invariant
            k <= decls@.len(),
            pred == |e: (IdentifierId, ScopeDeclaration)| !ids@.contains(e.0.0),
            count == decls@.take(k as int).filter(pred).len(),
            count <= k,
        decreases decls.len() - k,
    {
        proof {
            assert(decls@.take(k + 1).drop_last() =~= decls@.take(k as int));
            reveal_with_fuel(Seq::filter, 1);
        }
        if !fx_set_contains(ids, decls[k].0.0) {
            count = count + 1;
        }
        k = k + 1;
    }
    proof {
        assert(decls@.take(k as int) =~= decls@);
    }
    count
}

/// Count the cache slots needed by a block.
fn count_cache_slots(block: &ReactiveBlock) -> (r: u32)
    requires
        block_slots(*block) <= u32::MAX,
    ensures
        r == block_slots(*block),
    decreases block,
{
    let q = &block.instructions;
    let mut count: u32 = 0;
    let mut i: usize = 0;
    while i < q.len()
        invariant
            i <= q@.len(),
            *q == block.instructions,
            instructions_slots(q@) == block_slots(*block),
            block_slots(*block) <= u32::MAX,
            count == instructions_slots(q@.take(i as int)),
        decreases q.len() - i,
    {
        proof {
            lemma_instructions_slots_prefix(q@, i as int);
        }
        match &q[i] {
            ReactiveInstruction::Scope(scope) => {
                let ids = find_destructured_declare_ids(scope);
                proof {
                    assert(scope_own_slots(*scope) <= u32::MAX);
                }
                let replacement_name_count = count_destructured_names(&scope.instructions.instructions);
                let non_phantom_decls = count_non_phantom(scope, &ids);
                let effective_decls = (non_phantom_decls + replacement_name_count) as u32;
                if scope.scope.dependencies.len() == 0 {
                    count = count + if effective_decls > 1 { effective_decls } else { 1 };
                } else {
                    count = count + scope.scope.dependencies.len() as u32 + effective_decls;
                }
                proof {
                    assert(decreases_to!(*block => block.instructions));
                    assert(decreases_to!(block.instructions => block.instructions@));
                    assert(decreases_to!(block.instructions@ => block.instructions@[i as int]));
                }
                count = count + count_cache_slots(&scope.instructions);
            },
            ReactiveInstruction::Terminal(terminal) => {
                proof {
                    assert(decreases_to!(*block => block.instructions));
                    assert(decreases_to!(block.instructions => block.instructions@));
                    assert(decreases_to!(block.instructions@ => block.instructions@[i as int]));
                }
                count = count + count_terminal_slots(terminal);
            },
            ReactiveInstruction::Instruction(_) => {},
        }
        i = i + 1;
    }
    proof {
        assert(q@.take(i as int) =~= q@);
    }
    count
}

fn count_terminal_slots(terminal: &ReactiveTerminal) -> (r: u32)
    requires
        terminal_slots(*terminal) <= u32::MAX,
    ensures
        r == terminal_slots(*terminal),
    decreases terminal,
{
    match terminal {
        ReactiveTerminal::If { consequent, alternate, .. } => count_cache_slots(consequent) + count_cache_slots(alternate),
        ReactiveTerminal::For { init, test, update, body, .. } => {
            let u = match update {
                Some(b) => count_cache_slots(b),
                None => 0,
            };
            count_cache_slots(init) + count_cache_slots(test) + u + count_cache_slots(body)
        },
        ReactiveTerminal::While { test, body, .. } => count_cache_slots(test) + count_cache_slots(body),
        ReactiveTerminal::DoWhile { body, test, .. } => count_cache_slots(test) + count_cache_slots(body),
        ReactiveTerminal::ForOf { init, test, body, .. } => count_cache_slots(init) + count_cache_slots(test) + count_cache_slots(body),
        ReactiveTerminal::ForIn { init, test, body, .. } => count_cache_slots(init) + count_cache_slots(test) + count_cache_slots(body),
        ReactiveTerminal::Try { block, handler, .. } => count_cache_slots(block) + count_cache_slots(handler),
        ReactiveTerminal::Switch { cases, .. } => {
            let mut sum: u32 = 0;
            let mut i: usize = 0;
            while i < cases.len()
                invariant
                    i <= cases@.len(),
                    *terminal is Switch,
                    terminal->cases == *cases,
                    cases_slots(cases@) <= u32::MAX,
                    sum == cases_slots(cases@.take(i as int)),
                decreases cases.len() - i,
            {
                proof {
                    lemma_cases_slots_prefix(cases@, i as int);
                    assert(decreases_to!(*terminal => terminal->cases));
                    assert(decreases_to!(*cases => cases@));
                    assert(decreases_to!(cases@ => cases@[i as int]));
                }
                sum = sum + count_cache_slots(&cases[i].1);
                i = i + 1;
            }
            proof {
                assert(cases@.take(i as int) =~= cases@);
            }
            sum
        },
        ReactiveTerminal::Label { block, .. } => count_cache_slots(block),
        ReactiveTerminal::Logical { right, .. } => count_cache_slots(right),
        _ => 0,
    }
}

/// Whether the function needs any cache slot. A function with none has no
/// reactive scope left, and the compiler leaves it as it was. The slot
/// count must fit a `u32`.
pub fn has_cache_slots(rf: &ReactiveFunction) -> (r: bool)
    requires
        block_slots(rf.body) <= u32::MAX,
    ensures
        r == (block_slots(rf.body) > 0),
{
    count_cache_slots(&rf.body) > 0
}

} // verus!
