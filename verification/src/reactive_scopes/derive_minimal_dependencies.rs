//! Reduce the dependency list of each reactive scope to a minimal one: if a
//! scope depends on both `props.a` and `props.a.b`, only `props.a` needs to
//! be tracked, since a change of `props.a.b` is a change of `props.a`.

use vstd::prelude::*;
use crate::hir::types::{HIR, Identifier, Instruction, Place, ReactiveScope, ReactiveScopeDependency};
use crate::hir::model::{DependencyModel, dependencies_model, lemma_dependencies_model_index, lemma_dependencies_model_len};
use crate::hir::shape::{blocks_instructions_related, instructions_related, same_block_except_instructions};
use crate::reactive_scopes::scope_dependency_utils::{add_all, add_dependency};

verus! {

/// `i` with the dependency list of its lvalue's scope replaced by `d`.
pub open spec fn with_scope_dependencies(i: Instruction, d: Vec<ReactiveScopeDependency>) -> Instruction {
    match i.lvalue.identifier.scope {
        Some(s) => Instruction {
            lvalue: Place {
                identifier: Identifier {
                    scope: Some(Box::new(ReactiveScope { dependencies: d, ..*s })),
                    ..i.lvalue.identifier
                },
                ..i.lvalue
            },
            ..i
        },
        None => i,
    }
}

/// `n` is `o` after the pass: a scope with two or more dependencies keeps
/// the list that adding them one by one, in order, to an empty list gives
/// (each addition drops what the new entry subsumes and is skipped if an
/// entry subsumes it); everything else is unchanged.
pub open spec fn minimized(n: Instruction, o: Instruction) -> bool {
    match o.lvalue.identifier.scope {
        Some(s) if s.dependencies@.len() > 1 => {
            &&& n.lvalue.identifier.scope matches Some(ns)
            &&& dependencies_model(ns.dependencies@) == add_all(Seq::<DependencyModel>::empty(), dependencies_model(s.dependencies@))
            &&& n == with_scope_dependencies(o, ns.dependencies)
        },
        _ => n == o,
    }
}

fn minimize_dependencies(deps: &mut Vec<ReactiveScopeDependency>)
    ensures
        dependencies_model(final(deps)@) == add_all(Seq::<DependencyModel>::empty(), dependencies_model(old(deps)@)),
{
    let mut rest: Vec<ReactiveScopeDependency> = Vec::new();
    std::mem::swap(deps, &mut rest);
    let ghost orig = rest@;
    let ghost m = dependencies_model(orig);
    proof {
        lemma_dependencies_model_len(orig);
    }
    let ghost mut k: int = 0;
    while rest.len() > 0
        invariant
            0 <= k <= orig.len(),
            m == dependencies_model(orig),
            m.len() == orig.len(),
            rest@ == orig.skip(k),
            dependencies_model(deps@) == add_all(Seq::<DependencyModel>::empty(), m.take(k)),
        decreases rest.len(),
    {
        let d = rest.remove(0);
        proof {
            assert(orig.skip(k)[0] == orig[k]);
            lemma_dependencies_model_index(orig, k);
            assert(m.take(k + 1).drop_last() =~= m.take(k));
        }
        add_dependency(deps, d);
        proof {
            assert(orig.skip(k + 1) =~= orig.skip(k).drop_first());
            k = k + 1;
        }
    }
    proof {
        assert(m.take(k) =~= m);
    }
}

fn minimize_instruction(instr: &mut Instruction)
    ensures
        minimized(*final(instr), *old(instr)),
{
    if let Some(scope) = &mut instr.lvalue.identifier.scope {
        if scope.dependencies.len() > 1 {
            minimize_dependencies(&mut scope.dependencies);
        }
    }
}

/// Minimize the dependency list of each reactive scope of the graph: a list
/// of two or more entries is rebuilt by adding its entries in order, so
/// that no remaining entry is subsumed by another.
pub fn derive_minimal_dependencies_hir(hir: &mut HIR)
    ensures
        final(hir).entry == old(hir).entry,
        blocks_instructions_related(final(hir).blocks@, old(hir).blocks@, |n: Instruction, o: Instruction| minimized(n, o)),
{
    let mut i: usize = 0;
    while i < hir.blocks.len()
        invariant
            i <= hir.blocks@.len(),
            hir.entry == old(hir).entry,
            hir.blocks@.len() == old(hir).blocks@.len(),
            forall|k: int| 0 <= k < i ==> {
                &&& (#[trigger] hir.blocks@[k]).0 == old(hir).blocks@[k].0
                &&& same_block_except_instructions(hir.blocks@[k].1, old(hir).blocks@[k].1)
                &&& instructions_related(hir.blocks@[k].1.instructions@, old(hir).blocks@[k].1.instructions@, |n: Instruction, o: Instruction| minimized(n, o))
            },
            forall|k: int| i <= k < hir.blocks@.len() ==> #[trigger] hir.blocks@[k] == old(hir).blocks@[k],
        decreases hir.blocks.len() - i,
    {
        let block = &mut hir.blocks[i].1;
        let ghost ob = *block;
        let mut j: usize = 0;
        while j < block.instructions.len()
            invariant
                j <= block.instructions@.len(),
                same_block_except_instructions(*block, ob),
                block.instructions@.len() == ob.instructions@.len(),
                forall|m: int| 0 <= m < j ==> minimized(#[trigger] block.instructions@[m], ob.instructions@[m]),
                forall|m: int| j <= m < block.instructions@.len() ==> #[trigger] block.instructions@[m] == ob.instructions@[m],
            decreases block.instructions.len() - j,
        {
            minimize_instruction(&mut block.instructions[j]);
            j = j + 1;
        }
        i = i + 1;
    }
}

} // verus!
