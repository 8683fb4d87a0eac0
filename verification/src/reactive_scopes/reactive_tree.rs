//! Passes over the tree-shaped IR that keep its shape: blocks, instructions
//! and terminals stay where they are, and only the scopes change.

use vstd::prelude::*;
use crate::hir::copy::copy_place;
use crate::hir::model::place_model;
use crate::hir::types::{
    EarlyReturnValue, Instruction, Place, ReactiveBlock, ReactiveFunction, ReactiveInstruction, ReactiveScope,
    ReactiveScopeBlock, ReactiveTerminal,
};

verus! {

/// How a pass over the tree relates each node it keeps to the old one:
/// plain instructions, the scope of a scope block (given the old block),
/// the own fields of a terminal (its blocks are related by the tree
/// relation), and the test of a switch case.
pub struct TreeRel {
    pub instruction: spec_fn(Instruction, Instruction) -> bool,
    pub scope: spec_fn(ReactiveScope, ReactiveScopeBlock) -> bool,
    pub terminal: spec_fn(ReactiveTerminal, ReactiveTerminal) -> bool,
    pub case_test: spec_fn(Option<Place>, Option<Place>) -> bool,
}

/// `n` has the shape of `o`, and its nodes are related to those of `o` by `r`.
pub open spec fn block_rel(n: ReactiveBlock, o: ReactiveBlock, r: TreeRel) -> bool
    decreases o,
{
    instructions_rel(n.instructions@, o.instructions@, r)
}

pub open spec fn instructions_rel(n: Seq<ReactiveInstruction>, o: Seq<ReactiveInstruction>, r: TreeRel) -> bool
    decreases o,
{
    &&& n.len() == o.len()
    &&& o.len() > 0 ==> instructions_rel(n.drop_last(), o.drop_last(), r) && instruction_rel(n.last(), o.last(), r)
}

pub open spec fn instruction_rel(n: ReactiveInstruction, o: ReactiveInstruction, r: TreeRel) -> bool
    decreases o,
{
    match o {
        ReactiveInstruction::Instruction(i) => {
            &&& n matches ReactiveInstruction::Instruction(ni)
            &&& (r.instruction)(ni, i)
        },
        ReactiveInstruction::Scope(sb) => {
            &&& n matches ReactiveInstruction::Scope(nsb)
            &&& (r.scope)(nsb.scope, sb)
            &&& block_rel(nsb.instructions, sb.instructions, r)
        },
        ReactiveInstruction::Terminal(t) => {
            &&& n matches ReactiveInstruction::Terminal(nt)
            &&& terminal_rel(nt, t, r)
        },
    }
}

pub open spec fn opt_block_rel(n: Option<ReactiveBlock>, o: Option<ReactiveBlock>, r: TreeRel) -> bool
    decreases o,
{
    match o {
        Some(ob) => n matches Some(nb) && block_rel(nb, ob, r),
        None => n is None,
    }
}

pub open spec fn cases_rel(n: Seq<(Option<Place>, ReactiveBlock)>, o: Seq<(Option<Place>, ReactiveBlock)>, r: TreeRel) -> bool
    decreases o,
{
    &&& n.len() == o.len()
    &&& o.len() > 0 ==> {
        &&& cases_rel(n.drop_last(), o.drop_last(), r)
        &&& (r.case_test)(n.last().0, o.last().0)
        &&& block_rel(n.last().1, o.last().1, r)
    }
}

/// Same variant, own fields related by `r.terminal`, child blocks related
/// by the tree relation.
pub open spec fn terminal_rel(n: ReactiveTerminal, o: ReactiveTerminal, r: TreeRel) -> bool
    decreases o,
{
    &&& (r.terminal)(n, o)
    &&& match o {
        ReactiveTerminal::If { consequent, alternate, .. } => {
            &&& n matches ReactiveTerminal::If { consequent: nc, alternate: na, .. }
            &&& block_rel(nc, consequent, r)
            &&& block_rel(na, alternate, r)
        },
        ReactiveTerminal::Switch { cases, .. } => {
            &&& n matches ReactiveTerminal::Switch { cases: nc, .. }
            &&& cases_rel(nc@, cases@, r)
        },
        ReactiveTerminal::For { init, test, update, body, .. } => {
            &&& n matches ReactiveTerminal::For { init: n1, test: n2, update: n3, body: n4, .. }
            &&& block_rel(n1, init, r)
            &&& block_rel(n2, test, r)
            &&& opt_block_rel(n3, update, r)
            &&& block_rel(n4, body, r)
        },
        ReactiveTerminal::ForOf { init, test, body, .. } => {
            &&& n matches ReactiveTerminal::ForOf { init: n1, test: n2, body: n4, .. }
            &&& block_rel(n1, init, r)
            &&& block_rel(n2, test, r)
            &&& block_rel(n4, body, r)
        },
        ReactiveTerminal::ForIn { init, test, body, .. } => {
            &&& n matches ReactiveTerminal::ForIn { init: n1, test: n2, body: n4, .. }
            &&& block_rel(n1, init, r)
            &&& block_rel(n2, test, r)
            &&& block_rel(n4, body, r)
        },
        ReactiveTerminal::While { test, body, .. } => {
            &&& n matches ReactiveTerminal::While { test: n2, body: n4, .. }
            &&& block_rel(n2, test, r)
            &&& block_rel(n4, body, r)
        },
        ReactiveTerminal::DoWhile { body, test, .. } => {
            &&& n matches ReactiveTerminal::DoWhile { body: n4, test: n2, .. }
            &&& block_rel(n2, test, r)
            &&& block_rel(n4, body, r)
        },
        ReactiveTerminal::Try { block, handler, .. } => {
            &&& n matches ReactiveTerminal::Try { block: nb, handler: nh, .. }
            &&& block_rel(nb, block, r)
            &&& block_rel(nh, handler, r)
        },
        ReactiveTerminal::Label { block, .. } => {
            &&& n matches ReactiveTerminal::Label { block: nb, .. }
            &&& block_rel(nb, block, r)
        },
        ReactiveTerminal::Logical { right, .. } => {
            &&& n matches ReactiveTerminal::Logical { right: nr, .. }
            &&& block_rel(nr, right, r)
        },
        _ => true,
    }
}

/// The two terminals agree on everything but their child blocks.
pub open spec fn same_terminal_fields(n: ReactiveTerminal, o: ReactiveTerminal) -> bool {
    match o {
        ReactiveTerminal::If { test, id, .. } => n matches ReactiveTerminal::If { test: t, id: i, .. } && t == test && i == id,
        ReactiveTerminal::Switch { test, id, .. } => n matches ReactiveTerminal::Switch { test: t, id: i, .. } && t == test && i == id,
        ReactiveTerminal::For { id, .. } => n matches ReactiveTerminal::For { id: i, .. } && i == id,
        ReactiveTerminal::ForOf { id, .. } => n matches ReactiveTerminal::ForOf { id: i, .. } && i == id,
        ReactiveTerminal::ForIn { id, .. } => n matches ReactiveTerminal::ForIn { id: i, .. } && i == id,
        ReactiveTerminal::While { id, .. } => n matches ReactiveTerminal::While { id: i, .. } && i == id,
        ReactiveTerminal::DoWhile { id, .. } => n matches ReactiveTerminal::DoWhile { id: i, .. } && i == id,
        ReactiveTerminal::Try { id, .. } => n matches ReactiveTerminal::Try { id: i, .. } && i == id,
        ReactiveTerminal::Label { id, label, .. } => n matches ReactiveTerminal::Label { id: i, label: l, .. } && i == id && l == label,
        ReactiveTerminal::Logical { operator, result, id, .. } => n matches ReactiveTerminal::Logical { operator: op, result: res, id: i, .. } && op == operator && res == result && i == id,
        _ => n == o,
    }
}

proof fn lemma_instructions_rel_prefix(n: Seq<ReactiveInstruction>, o: Seq<ReactiveInstruction>, i: int, r: TreeRel)
    requires
        0 <= i < o.len(),
        n.len() == o.len(),
        instructions_rel(n.take(i), o.take(i), r),
        instruction_rel(n[i], o[i], r),
    ensures
        instructions_rel(n.take(i + 1), o.take(i + 1), r),
{
    assert(n.take(i + 1).drop_last() =~= n.take(i));
    assert(o.take(i + 1).drop_last() =~= o.take(i));
}

proof fn lemma_cases_rel_prefix(n: Seq<(Option<Place>, ReactiveBlock)>, o: Seq<(Option<Place>, ReactiveBlock)>, i: int, r: TreeRel)
    requires
        0 <= i < o.len(),
        n.len() == o.len(),
        cases_rel(n.take(i), o.take(i), r),
        (r.case_test)(n[i].0, o[i].0),
        block_rel(n[i].1, o[i].1, r),
    ensures
        cases_rel(n.take(i + 1), o.take(i + 1), r),
{
    assert(n.take(i + 1).drop_last() =~= n.take(i));
    assert(o.take(i + 1).drop_last() =~= o.take(i));
}

// ---------------------------------------------------------------------------
// Early returns
// ---------------------------------------------------------------------------

/// The returned place when the last instruction of a list is a `return`.
pub open spec fn trailing_return(q: Seq<ReactiveInstruction>) -> Option<Place> {
    if q.len() > 0 {
        match q.last() {
            ReactiveInstruction::Terminal(ReactiveTerminal::Return { value, .. }) => Some(value),
            _ => None,
        }
    } else {
        None
    }
}

/// The relation of the early-return pass: scopes as `early_return_scope`
/// says, everything else unchanged.
pub open spec fn early_return_rel() -> TreeRel {
    TreeRel {
        instruction: |n: Instruction, o: Instruction| n == o,
        scope: |ns: ReactiveScope, sb: ReactiveScopeBlock| early_return_scope(ns, sb),
        terminal: |n: ReactiveTerminal, o: ReactiveTerminal| same_terminal_fields(n, o),
        case_test: |n: Option<Place>, o: Option<Place>| n == o,
    }
}

/// The scope `ns` is the scope of `sb` after the pass: when the scope's
/// body ends with a `return`, the scope records a copy of the returned place
/// as its early-return value (with the scope's location); otherwise the
/// scope is unchanged.
pub open spec fn early_return_scope(ns: ReactiveScope, sb: ReactiveScopeBlock) -> bool {
    match trailing_return(sb.instructions.instructions@) {
        Some(v) => {
            &&& ns.early_return_value matches Some(e)
            &&& place_model(e.value) == place_model(v)
            &&& e.loc == sb.scope.loc
            &&& ns == ReactiveScope { early_return_value: ns.early_return_value, ..sb.scope }
        },
        None => ns == sb.scope,
    }
}

proof fn lemma_trailing_return_kept(n: Seq<ReactiveInstruction>, o: Seq<ReactiveInstruction>, f: TreeRel)
    requires
        instructions_rel(n, o, f),
        f == early_return_rel(),
    ensures
        trailing_return(n) == trailing_return(o),
{
    if o.len() > 0 {
        assert(instruction_rel(n.last(), o.last(), f));
        match o.last() {
            ReactiveInstruction::Terminal(t) => {
                let nt = n.last()->Terminal_0;
                assert(terminal_rel(nt, t, f));
                if t is Return {
                    assert(same_terminal_fields(nt, t));
                    assert(nt == t);
                }
            },
            _ => {},
        }
    }
}

fn early_returns_in_block(block: &mut ReactiveBlock)
    ensures
        block_rel(*final(block), *old(block), early_return_rel()),
    decreases *old(block),
{
    let ghost f = early_return_rel();
    let ghost o = old(block).instructions@;
    let mut i: usize = 0;
    while i < block.instructions.len()
        invariant
            i <= block.instructions@.len(),
            block.instructions@.len() == o.len(),
            o == old(block).instructions@,
            f == early_return_rel(),
            instructions_rel(block.instructions@.take(i as int), o.take(i as int), f),
            forall|k: int| i <= k < o.len() ==> #[trigger] block.instructions@[k] == o[k],
        decreases block.instructions.len() - i,
    {
        let ghost oi = o[i as int];
        let ghost prev = block.instructions@;
        proof {
            assert(decreases_to!(*old(block) => old(block).instructions));
            assert(decreases_to!(old(block).instructions => o));
            assert(decreases_to!(o => o[i as int]));
        }
        match &mut block.instructions[i] {
            ReactiveInstruction::Scope(scope_block) => {
                let ghost osb = *scope_block;
                proof {
                    assert(decreases_to!(oi => osb.instructions));
                }
                early_returns_in_block(&mut scope_block.instructions);
                proof {
                    lemma_trailing_return_kept(scope_block.instructions.instructions@, osb.instructions.instructions@, f);
                }
                let n = scope_block.instructions.instructions.len();
                if n > 0 {
                    if let ReactiveInstruction::Terminal(ReactiveTerminal::Return { value, .. }) = &scope_block.instructions.instructions[n - 1] {
                        let v = copy_place(value);
                        scope_block.scope.early_return_value = Some(EarlyReturnValue { value: v, loc: scope_block.scope.loc });
                    }
                }
            },
            ReactiveInstruction::Terminal(terminal) => {
                proof {
                    assert(decreases_to!(oi => *terminal));
                }
                early_returns_in_terminal(terminal);
            },
            ReactiveInstruction::Instruction(_) => {},
        }
        proof {
            assert(block.instructions@.take(i as int) =~= prev.take(i as int));
            lemma_instructions_rel_prefix(block.instructions@, o, i as int, f);
        }
        i = i + 1;
    }
    proof {
        assert(block.instructions@.take(i as int) =~= block.instructions@);
        assert(o.take(i as int) =~= o);
    }
}

fn early_returns_in_terminal(terminal: &mut ReactiveTerminal)
    ensures
        terminal_rel(*final(terminal), *old(terminal), early_return_rel()),
    decreases *old(terminal),
{
    let ghost f = early_return_rel();
    match terminal {
        ReactiveTerminal::If { consequent, alternate, .. } => {
            early_returns_in_block(consequent);
            early_returns_in_block(alternate);
        },
        ReactiveTerminal::Switch { cases, .. } => {
            let ghost oc = cases@;
            let mut i: usize = 0;
            while i < cases.len()
                invariant
                    i <= cases@.len(),
                    cases@.len() == oc.len(),
                    *old(terminal) is Switch,
                    oc == old(terminal)->Switch_cases@,
                    f == early_return_rel(),
                    cases_rel(cases@.take(i as int), oc.take(i as int), f),
                    forall|k: int| i <= k < oc.len() ==> #[trigger] cases@[k] == oc[k],
                decreases cases.len() - i,
            {
                proof {
                    assert(decreases_to!(*old(terminal) => old(terminal)->Switch_cases));
                    assert(decreases_to!(old(terminal)->Switch_cases => oc));
                    assert(decreases_to!(oc => oc[i as int]));
                }
                let ghost prevc = cases@;
                early_returns_in_block(&mut cases[i].1);
                proof {
                    assert(cases@.take(i as int) =~= prevc.take(i as int));
                    lemma_cases_rel_prefix(cases@, oc, i as int, f);
                }
                i = i + 1;
            }
            proof {
                assert(cases@.take(i as int) =~= cases@);
                assert(oc.take(i as int) =~= oc);
            }
        },
        ReactiveTerminal::For { init, test, update, body, .. } => {
            early_returns_in_block(init);
            early_returns_in_block(test);
            if let Some(u) = update {
                early_returns_in_block(u);
            }
            early_returns_in_block(body);
        },
        ReactiveTerminal::ForOf { init, test, body, .. } => {
            early_returns_in_block(init);
            early_returns_in_block(test);
            early_returns_in_block(body);
        },
        ReactiveTerminal::ForIn { init, test, body, .. } => {
            early_returns_in_block(init);
            early_returns_in_block(test);
            early_returns_in_block(body);
        },
        ReactiveTerminal::While { test, body, .. } => {
            early_returns_in_block(test);
            early_returns_in_block(body);
        },
        ReactiveTerminal::DoWhile { body, test, .. } => {
            early_returns_in_block(test);
            early_returns_in_block(body);
        },
        ReactiveTerminal::Try { block, handler, .. } => {
            early_returns_in_block(block);
            early_returns_in_block(handler);
        },
        ReactiveTerminal::Label { block, .. } => {
            early_returns_in_block(block);
        },
        ReactiveTerminal::Logical { right, .. } => {
            early_returns_in_block(right);
        },
        _ => {},
    }
}

/// Propagate early returns through scopes: every scope whose body ends
/// with a `return` records a copy of the returned place, with the scope's
/// location, as its early-return value. Nothing else changes.
pub fn propagate_early_returns(rf: &mut ReactiveFunction)
    ensures
        final(rf).loc == old(rf).loc,
        final(rf).id == old(rf).id,
        final(rf).params == old(rf).params,
        final(rf).directives == old(rf).directives,
        final(rf).is_arrow == old(rf).is_arrow,
        final(rf).is_async == old(rf).is_async,
        final(rf).is_generator == old(rf).is_generator,
        block_rel(final(rf).body, old(rf).body, early_return_rel()),
{
    early_returns_in_block(&mut rf.body);
}

// ---------------------------------------------------------------------------
// Passes that keep the function as it is
// ---------------------------------------------------------------------------

/// Prune the non-reactive dependencies of scopes. Every value a scope reads
/// from outside is needed to invalidate its cache, whether reactive or not,
/// so all dependencies are kept and the function is left as it is.
pub fn prune_non_reactive_dependencies(rf: &mut ReactiveFunction)
    ensures
        *final(rf) == *old(rf),
{
}

/// Prune unused labels. Breaks and continues are encoded in the structure
/// of the tree, so no label is known to be unused: every labeled block is
/// kept and the function is left as it is.
pub fn prune_unused_labels(rf: &mut ReactiveFunction)
    ensures
        *final(rf) == *old(rf),
{
}

/// Prune hoisted contexts. The tree holds no hoisted `DeclareContext` to
/// remove, so the function is left as it is.
pub fn prune_hoisted_contexts(rf: &mut ReactiveFunction)
    ensures
        *final(rf) == *old(rf),
{
}

/// Extract scope declarations from destructuring. Destructured variables
/// are handled where cache slots are counted and code is generated, so the
/// function is left as it is.
pub fn extract_scope_declarations_from_destructuring(rf: &mut ReactiveFunction)
    ensures
        *final(rf) == *old(rf),
{
}

} // verus!
