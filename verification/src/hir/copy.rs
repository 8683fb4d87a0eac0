//! Deep copies of IR values, each proved equal to its source.

use vstd::prelude::*;
use crate::hir::types::{
    DependencyPathEntry, EarlyReturnValue, Identifier, IdentifierId, Place, ReactiveScope,
    ReactiveScopeDependency, ScopeDeclaration, ScopeId,
};
use crate::hir::model::{
    declarations_model, dependencies_model, dependency_model, identifier_model, identifiers_model,
    place_model, scope_model,
};

verus! {

pub fn copy_string(s: &String) -> (r: String)
    ensures
        r == *s,
{
    s.clone()
}

pub fn copy_opt_string(s: &Option<String>) -> (r: Option<String>)
    ensures
        r == *s,
{
    match s {
        Some(x) => Some(x.clone()),
        None => None,
    }
}

pub fn copy_path_entry(e: &DependencyPathEntry) -> (r: DependencyPathEntry)
    ensures
        r == *e,
{
    DependencyPathEntry { property: e.property.clone(), optional: e.optional }
}

pub fn copy_path(v: &Vec<DependencyPathEntry>) -> (r: Vec<DependencyPathEntry>)
    ensures
        r@ == v@,
{
    let mut out: Vec<DependencyPathEntry> = Vec::new();
    let mut i: usize = 0;
    while i < v.len()
        invariant
            i <= v.len(),
            out@ == v@.take(i as int),
        decreases v.len() - i,
    {
        out.push(copy_path_entry(&v[i]));
        proof {
            assert(v@.take(i + 1) =~= v@.take(i as int).push(v@[i as int]));
        }
        i = i + 1;
    }
    proof {
        assert(v@.take(v.len() as int) =~= v@);
    }
    out
}

pub fn copy_identifier(x: &Identifier) -> (r: Identifier)
    ensures
        identifier_model(r) == identifier_model(*x),
        r.id == x.id,
        r.name == x.name,
        r.declaration_id == x.declaration_id,
    decreases x,
{
    let scope = match &x.scope {
        Some(s) => Some(Box::new(copy_scope(&**s))),
        None => None,
    };
    Identifier {
        id: x.id,
        ssa_version: x.ssa_version,
        declaration_id: x.declaration_id,
        name: copy_opt_string(&x.name),
        mutable_range: x.mutable_range,
        last_use: x.last_use,
        scope,
        type_: x.type_,
        loc: x.loc,
    }
}

pub fn copy_place(p: &Place) -> (r: Place)
    ensures
        place_model(r) == place_model(*p),
        r.identifier.id == p.identifier.id,
        r.identifier.name == p.identifier.name,
    decreases p,
{
    Place {
        identifier: copy_identifier(&p.identifier),
        effect: p.effect,
        reactive: p.reactive,
        loc: p.loc,
    }
}

pub fn copy_dependency(d: &ReactiveScopeDependency) -> (r: ReactiveScopeDependency)
    ensures
        dependency_model(r) == dependency_model(*d),
        r.identifier.id == d.identifier.id,
        r.path@ == d.path@,
    decreases d,
{
    ReactiveScopeDependency {
        identifier: copy_identifier(&d.identifier),
        reactive: d.reactive,
        path: copy_path(&d.path),
    }
}

pub fn copy_scope(s: &ReactiveScope) -> (r: ReactiveScope)
    ensures
        scope_model(r) == scope_model(*s),
        r.id == s.id,
        r.range == s.range,
    decreases s,
{
    let mut dependencies: Vec<ReactiveScopeDependency> = Vec::new();
    let mut i: usize = 0;
    while i < s.dependencies.len()
        invariant
            i <= s.dependencies.len(),
            dependencies_model(dependencies@) == dependencies_model(s.dependencies@.take(i as int)),
        decreases s.dependencies.len() - i,
    {
        let c = copy_dependency(&s.dependencies[i]);
        let ghost prev = dependencies@;
        dependencies.push(c);
        proof {
            assert(dependencies@.drop_last() =~= prev);
            assert(s.dependencies@.take(i + 1).drop_last() =~= s.dependencies@.take(i as int));
        }
        i = i + 1;
    }
    let mut declarations: Vec<(IdentifierId, ScopeDeclaration)> = Vec::new();
    let mut j: usize = 0;
    while j < s.declarations.len()
        invariant
            j <= s.declarations.len(),
            declarations_model(declarations@) == declarations_model(s.declarations@.take(j as int)),
        decreases s.declarations.len() - j,
    {
        let (id, decl) = &s.declarations[j];
        let c = copy_identifier(&decl.identifier);
        let ghost prev = declarations@;
        declarations.push((*id, ScopeDeclaration { identifier: c }));
        proof {
            assert(declarations@.drop_last() =~= prev);
            assert(s.declarations@.take(j + 1).drop_last() =~= s.declarations@.take(j as int));
        }
        j = j + 1;
    }
    let mut reassignments: Vec<Identifier> = Vec::new();
    let mut k: usize = 0;
    while k < s.reassignments.len()
        invariant
            k <= s.reassignments.len(),
            identifiers_model(reassignments@) == identifiers_model(s.reassignments@.take(k as int)),
        decreases s.reassignments.len() - k,
    {
        let c = copy_identifier(&s.reassignments[k]);
        let ghost prev = reassignments@;
        reassignments.push(c);
        proof {
            assert(reassignments@.drop_last() =~= prev);
            assert(s.reassignments@.take(k + 1).drop_last() =~= s.reassignments@.take(k as int));
        }
        k = k + 1;
    }
    let early_return_value = match &s.early_return_value {
        Some(e) => Some(EarlyReturnValue { value: copy_place(&e.value), loc: e.loc }),
        None => None,
    };
    let mut merged: Vec<ScopeId> = Vec::new();
    let mut m: usize = 0;
    while m < s.merged.len()
        invariant
            m <= s.merged.len(),
            merged@ == s.merged@.take(m as int),
        decreases s.merged.len() - m,
    {
        merged.push(s.merged[m]);
        proof {
            assert(s.merged@.take(m + 1) =~= s.merged@.take(m as int).push(s.merged@[m as int]));
        }
        m = m + 1;
    }
    proof {
        assert(s.dependencies@.take(s.dependencies.len() as int) =~= s.dependencies@);
        assert(s.declarations@.take(s.declarations.len() as int) =~= s.declarations@);
        assert(s.reassignments@.take(s.reassignments.len() as int) =~= s.reassignments@);
        assert(s.merged@.take(s.merged.len() as int) =~= s.merged@);
    }
    ReactiveScope {
        id: s.id,
        range: s.range,
        dependencies,
        declarations,
        reassignments,
        early_return_value,
        merged,
        loc: s.loc,
        is_allocating: s.is_allocating,
    }
}

} // verus!
