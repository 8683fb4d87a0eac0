//! Mathematical models of identifiers, places, scopes and dependencies:
//! the same data with every `Vec` replaced by the `Seq` of its elements.
//! Two values with equal models hold the same information.

use vstd::prelude::*;
use crate::hir::types::{
    DeclarationId, DependencyPathEntry, Effect, Identifier, IdentifierId, InstructionId, MutableRange, Place,
    ReactiveScope, ReactiveScopeDependency, ScopeDeclaration, ScopeId, SourceLocation, Type,
};

verus! {

pub struct IdentifierModel {
    pub id: IdentifierId,
    pub ssa_version: u32,
    pub declaration_id: Option<DeclarationId>,
    pub name: Option<String>,
    pub mutable_range: MutableRange,
    pub last_use: InstructionId,
    pub scope: Option<Box<ScopeModel>>,
    pub type_: Type,
    pub loc: SourceLocation,
}

pub struct PlaceModel {
    pub identifier: IdentifierModel,
    pub effect: Effect,
    pub reactive: bool,
    pub loc: SourceLocation,
}

pub struct DependencyModel {
    pub identifier: IdentifierModel,
    pub reactive: bool,
    pub path: Seq<DependencyPathEntry>,
}

pub struct ScopeModel {
    pub id: ScopeId,
    pub range: MutableRange,
    pub dependencies: Seq<DependencyModel>,
    pub declarations: Seq<(IdentifierId, IdentifierModel)>,
    pub reassignments: Seq<IdentifierModel>,
    pub early_return_value: Option<(PlaceModel, SourceLocation)>,
    pub merged: Seq<ScopeId>,
    pub loc: SourceLocation,
    pub is_allocating: bool,
}

pub open spec fn identifier_model(x: Identifier) -> IdentifierModel
    decreases x,
{
    IdentifierModel {
        id: x.id,
        ssa_version: x.ssa_version,
        declaration_id: x.declaration_id,
        name: x.name,
        mutable_range: x.mutable_range,
        last_use: x.last_use,
        scope: match x.scope {
            Some(s) => Some(Box::new(scope_model(*s))),
            None => None,
        },
        type_: x.type_,
        loc: x.loc,
    }
}

pub open spec fn place_model(p: Place) -> PlaceModel
    decreases p,
{
    PlaceModel {
        identifier: identifier_model(p.identifier),
        effect: p.effect,
        reactive: p.reactive,
        loc: p.loc,
    }
}

pub open spec fn dependency_model(d: ReactiveScopeDependency) -> DependencyModel
    decreases d,
{
    DependencyModel { identifier: identifier_model(d.identifier), reactive: d.reactive, path: d.path@ }
}

pub open spec fn dependencies_model(q: Seq<ReactiveScopeDependency>) -> Seq<DependencyModel>
    decreases q,
{
    if q.len() == 0 {
        Seq::empty()
    } else {
        dependencies_model(q.drop_last()).push(dependency_model(q.last()))
    }
}

pub open spec fn declarations_model(q: Seq<(IdentifierId, ScopeDeclaration)>) -> Seq<
    (IdentifierId, IdentifierModel),
>
    decreases q,
{
    if q.len() == 0 {
        Seq::empty()
    } else {
        declarations_model(q.drop_last()).push(
            (q.last().0, identifier_model(q.last().1.identifier)),
        )
    }
}

pub open spec fn identifiers_model(q: Seq<Identifier>) -> Seq<IdentifierModel>
    decreases q,
{
    if q.len() == 0 {
        Seq::empty()
    } else {
        identifiers_model(q.drop_last()).push(identifier_model(q.last()))
    }
}

pub open spec fn scope_model(s: ReactiveScope) -> ScopeModel
    decreases s,
{
    ScopeModel {
        id: s.id,
        range: s.range,
        dependencies: dependencies_model(s.dependencies@),
        declarations: declarations_model(s.declarations@),
        reassignments: identifiers_model(s.reassignments@),
        early_return_value: match s.early_return_value {
            Some(e) => Some((place_model(e.value), e.loc)),
            None => None,
        },
        merged: s.merged@,
        loc: s.loc,
        is_allocating: s.is_allocating,
    }
}

/// The models of a sequence of places.
pub open spec fn places_model(q: Seq<Place>) -> Seq<PlaceModel>
    decreases q,
{
    if q.len() == 0 {
        Seq::empty()
    } else {
        places_model(q.drop_last()).push(place_model(q.last()))
    }
}

pub proof fn lemma_dependencies_model_len(q: Seq<ReactiveScopeDependency>)
    ensures
        dependencies_model(q).len() == q.len(),
    decreases q.len(),
{
    if q.len() > 0 {
        lemma_dependencies_model_len(q.drop_last());
    }
}

pub proof fn lemma_dependencies_model_index(q: Seq<ReactiveScopeDependency>, i: int)
    requires
        0 <= i < q.len(),
    ensures
        dependencies_model(q)[i] == dependency_model(q[i]),
    decreases q.len(),
{
    lemma_dependencies_model_len(q.drop_last());
    if i < q.len() - 1 {
        lemma_dependencies_model_index(q.drop_last(), i);
    }
}

} // verus!
