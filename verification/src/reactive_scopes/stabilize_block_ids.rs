//! Renumber the block ids of the terminals of a reactive function in
//! visiting order, so that output does not depend on how blocks were
//! numbered before.

use vstd::prelude::*;
use crate::hir::types::{
    BlockId, Place, ReactiveBlock, ReactiveFunction, ReactiveInstruction, ReactiveTerminal,
};

verus! {

// ---------------------------------------------------------------------------
// Counting terminals
// ---------------------------------------------------------------------------

/// The number of terminals in a block, nested ones included.
pub open spec fn block_terminals(b: ReactiveBlock) -> nat
    decreases b,
{
    instructions_terminals(b.instructions@)
}

pub open spec fn instructions_terminals(q: Seq<ReactiveInstruction>) -> nat
    decreases q,
{
    if q.len() == 0 {
        0
    } else {
        instructions_terminals(q.drop_last()) + instruction_terminals(q.last())
    }
}

pub open spec fn instruction_terminals(i: ReactiveInstruction) -> nat
    decreases i,
{
    match i {
        ReactiveInstruction::Scope(sb) => block_terminals(sb.instructions),
        ReactiveInstruction::Terminal(t) => 1 + child_terminals(t),
        ReactiveInstruction::Instruction(_) => 0,
    }
}

/// The number of terminals in the child blocks of a terminal.
pub open spec fn child_terminals(t: ReactiveTerminal) -> nat
    decreases t,
{
    match t {
        ReactiveTerminal::If { consequent, alternate, .. } => block_terminals(consequent) + block_terminals(alternate),
        ReactiveTerminal::Switch { cases, .. } => cases_terminals(cases@),
        ReactiveTerminal::For { init, test, update, body, .. } => block_terminals(init) + block_terminals(test) + match update {
            Some(u) => block_terminals(u),
            None => 0,
        } + block_terminals(body),
        ReactiveTerminal::ForOf { init, test, body, .. } => block_terminals(init) + block_terminals(test) + block_terminals(body),
        ReactiveTerminal::ForIn { init, test, body, .. } => block_terminals(init) + block_terminals(test) + block_terminals(body),
        ReactiveTerminal::While { test, body, .. } => block_terminals(test) + block_terminals(body),
        ReactiveTerminal::DoWhile { body, test, .. } => block_terminals(test) + block_terminals(body),
        ReactiveTerminal::Try { block, handler, .. } => block_terminals(block) + block_terminals(handler),
        ReactiveTerminal::Label { block, .. } => block_terminals(block),
        ReactiveTerminal::Logical { right, .. } => block_terminals(right),
        _ => 0,
    }
}

pub open spec fn cases_terminals(q: Seq<(Option<Place>, ReactiveBlock)>) -> nat
    decreases q,
{
    if q.len() == 0 {
        0
    } else {
        cases_terminals(q.drop_last()) + block_terminals(q.last().1)
    }
}

// ---------------------------------------------------------------------------
// Renumbering
// ---------------------------------------------------------------------------

/// `n` is `o` with its terminals numbered from `s` in visiting order: a
/// terminal takes the next number before its child blocks are numbered,
/// child blocks in order; nothing else changes.
pub open spec fn renumbered_block(n: ReactiveBlock, o: ReactiveBlock, s: int) -> bool
    decreases o,
{
    renumbered_instructions(n.instructions@, o.instructions@, s)
}

pub open spec fn renumbered_instructions(n: Seq<ReactiveInstruction>, o: Seq<ReactiveInstruction>, s: int) -> bool
    decreases o,
{
    &&& n.len() == o.len()
    &&& o.len() > 0 ==> {
        &&& renumbered_instructions(n.drop_last(), o.drop_last(), s)
        &&& renumbered_instruction(n.last(), o.last(), s + instructions_terminals(o.drop_last()))
    }
}

pub open spec fn renumbered_instruction(n: ReactiveInstruction, o: ReactiveInstruction, s: int) -> bool
    decreases o,
{
    match o {
        ReactiveInstruction::Instruction(_) => n == o,
        ReactiveInstruction::Scope(sb) => {
            &&& n matches ReactiveInstruction::Scope(nsb)
            &&& nsb.scope == sb.scope
            &&& renumbered_block(nsb.instructions, sb.instructions, s)
        },
        ReactiveInstruction::Terminal(t) => {
            &&& n matches ReactiveInstruction::Terminal(nt)
            &&& renumbered_terminal(nt, t, s)
        },
    }
}

pub open spec fn renumbered_cases(n: Seq<(Option<Place>, ReactiveBlock)>, o: Seq<(Option<Place>, ReactiveBlock)>, s: int) -> bool
    decreases o,
{
    &&& n.len() == o.len()
    &&& o.len() > 0 ==> {
        &&& renumbered_cases(n.drop_last(), o.drop_last(), s)
        &&& n.last().0 == o.last().0
        &&& renumbered_block(n.last().1, o.last().1, s + cases_terminals(o.drop_last()))
    }
}

/// `n` is the terminal `o` given number `s`, its child blocks numbered from
/// `s + 1` in order.
pub open spec fn renumbered_terminal(n: ReactiveTerminal, o: ReactiveTerminal, s: int) -> bool
    decreases o,
{
    let id = BlockId(s as u32);
    match o {
        ReactiveTerminal::If { test, consequent, alternate, .. } => {
            &&& n matches ReactiveTerminal::If { test: nt, consequent: nc, alternate: na, id: ni }
            &&& nt == test && ni == id
            &&& renumbered_block(nc, consequent, s + 1)
            &&& renumbered_block(na, alternate, s + 1 + block_terminals(consequent))
        },
        ReactiveTerminal::Switch { test, cases, .. } => {
            &&& n matches ReactiveTerminal::Switch { test: nt, cases: nc, id: ni }
            &&& nt == test && ni == id
            &&& renumbered_cases(nc@, cases@, s + 1)
        },
        ReactiveTerminal::For { init, test, update, body, .. } => {
            let after_test = s + 1 + block_terminals(init) + block_terminals(test);
            &&& n matches ReactiveTerminal::For { init: n1, test: n2, update: n3, body: n4, id: ni }
            &&& ni == id
            &&& renumbered_block(n1, init, s + 1)
            &&& renumbered_block(n2, test, s + 1 + block_terminals(init))
            &&& match update {
                Some(u) => n3 matches Some(nu) && renumbered_block(nu, u, after_test) && renumbered_block(n4, body, after_test + block_terminals(u)),
                None => n3 is None && renumbered_block(n4, body, after_test),
            }
        },
        ReactiveTerminal::ForOf { init, test, body, .. } => {
            &&& n matches ReactiveTerminal::ForOf { init: n1, test: n2, body: n4, id: ni }
            &&& ni == id
            &&& renumbered_block(n1, init, s + 1)
            &&& renumbered_block(n2, test, s + 1 + block_terminals(init))
            &&& renumbered_block(n4, body, s + 1 + block_terminals(init) + block_terminals(test))
        },
        ReactiveTerminal::ForIn { init, test, body, .. } => {
            &&& n matches ReactiveTerminal::ForIn { init: n1, test: n2, body: n4, id: ni }
            &&& ni == id
            &&& renumbered_block(n1, init, s + 1)
            &&& renumbered_block(n2, test, s + 1 + block_terminals(init))
            &&& renumbered_block(n4, body, s + 1 + block_terminals(init) + block_terminals(test))
        },
        ReactiveTerminal::While { test, body, .. } => {
            &&& n matches ReactiveTerminal::While { test: n2, body: n4, id: ni }
            &&& ni == id
            &&& renumbered_block(n2, test, s + 1)
            &&& renumbered_block(n4, body, s + 1 + block_terminals(test))
        },
        ReactiveTerminal::DoWhile { body, test, .. } => {
            &&& n matches ReactiveTerminal::DoWhile { body: n4, test: n2, id: ni }
            &&& ni == id
            &&& renumbered_block(n2, test, s + 1)
            &&& renumbered_block(n4, body, s + 1 + block_terminals(test))
        },
        ReactiveTerminal::Try { block, handler, .. } => {
            &&& n matches ReactiveTerminal::Try { block: nb, handler: nh, id: ni }
            &&& ni == id
            &&& renumbered_block(nb, block, s + 1)
            &&& renumbered_block(nh, handler, s + 1 + block_terminals(block))
        },
        ReactiveTerminal::Label { block, label, .. } => {
            &&& n matches ReactiveTerminal::Label { block: nb, id: ni, label: nl }
            &&& ni == id && nl == label
            &&& renumbered_block(nb, block, s + 1)
        },
        ReactiveTerminal::Logical { operator, right, result, .. } => {
            &&& n matches ReactiveTerminal::Logical { operator: no, right: nr, result: nres, id: ni }
            &&& no == operator && nres == result && ni == id
            &&& renumbered_block(nr, right, s + 1)
        },
        ReactiveTerminal::Return { value, .. } => n == ReactiveTerminal::Return { value, id },
        ReactiveTerminal::Throw { value, .. } => n == ReactiveTerminal::Throw { value, id },
        ReactiveTerminal::Continue { .. } => n == ReactiveTerminal::Continue { id },
        ReactiveTerminal::Break { .. } => n == ReactiveTerminal::Break { id },
    }
}

// ---------------------------------------------------------------------------
// The pass
// ---------------------------------------------------------------------------

/// `t` with its block id replaced by `id`.
pub open spec fn terminal_with_id(t: ReactiveTerminal, id: BlockId) -> ReactiveTerminal {
    match t {
        ReactiveTerminal::If { test, consequent, alternate, .. } => ReactiveTerminal::If { test, consequent, alternate, id },
        ReactiveTerminal::Switch { test, cases, .. } => ReactiveTerminal::Switch { test, cases, id },
        ReactiveTerminal::For { init, test, update, body, .. } => ReactiveTerminal::For { init, test, update, body, id },
        ReactiveTerminal::ForOf { init, test, body, .. } => ReactiveTerminal::ForOf { init, test, body, id },
        ReactiveTerminal::ForIn { init, test, body, .. } => ReactiveTerminal::ForIn { init, test, body, id },
        ReactiveTerminal::While { test, body, .. } => ReactiveTerminal::While { test, body, id },
        ReactiveTerminal::DoWhile { body, test, .. } => ReactiveTerminal::DoWhile { body, test, id },
        ReactiveTerminal::Try { block, handler, .. } => ReactiveTerminal::Try { block, handler, id },
        ReactiveTerminal::Label { block, label, .. } => ReactiveTerminal::Label { block, id, label },
        ReactiveTerminal::Logical { operator, right, result, .. } => ReactiveTerminal::Logical { operator, right, result, id },
        ReactiveTerminal::Return { value, .. } => ReactiveTerminal::Return { value, id },
        ReactiveTerminal::Throw { value, .. } => ReactiveTerminal::Throw { value, id },
        ReactiveTerminal::Continue { .. } => ReactiveTerminal::Continue { id },
        ReactiveTerminal::Break { .. } => ReactiveTerminal::Break { id },
    }
}

fn set_terminal_id(terminal: &mut ReactiveTerminal, new_id: BlockId)
    ensures
        *final(terminal) == terminal_with_id(*old(terminal), new_id),
{
    match terminal {
        ReactiveTerminal::If { id, .. } => *id = new_id,
        ReactiveTerminal::Switch { id, .. } => *id = new_id,
        ReactiveTerminal::For { id, .. } => *id = new_id,
        ReactiveTerminal::ForOf { id, .. } => *id = new_id,
        ReactiveTerminal::ForIn { id, .. } => *id = new_id,
        ReactiveTerminal::While { id, .. } => *id = new_id,
        ReactiveTerminal::DoWhile { id, .. } => *id = new_id,
        ReactiveTerminal::Label { id, .. } => *id = new_id,
        ReactiveTerminal::Try { id, .. } => *id = new_id,
        ReactiveTerminal::Logical { id, .. } => *id = new_id,
        ReactiveTerminal::Return { id, .. } => *id = new_id,
        ReactiveTerminal::Throw { id, .. } => *id = new_id,
        ReactiveTerminal::Continue { id, .. } => *id = new_id,
        ReactiveTerminal::Break { id, .. } => *id = new_id,
    }
}

proof fn lemma_instructions_terminals_prefix(q: Seq<ReactiveInstruction>, i: int)
    requires
        0 <= i < q.len(),
    ensures
        instructions_terminals(q.take(i + 1)) == instructions_terminals(q.take(i)) + instruction_terminals(q[i]),
        instructions_terminals(q.take(i + 1)) <= instructions_terminals(q),
    decreases q.len() - i,
{
    assert(q.take(i + 1).drop_last() =~= q.take(i));
    if i + 1 < q.len() {
        lemma_instructions_terminals_prefix(q, i + 1);
    } else {
        assert(q.take(i + 1) =~= q);
    }
}

proof fn lemma_cases_terminals_prefix(q: Seq<(Option<Place>, ReactiveBlock)>, i: int)
    requires
        0 <= i < q.len(),
    ensures
        cases_terminals(q.take(i + 1)) == cases_terminals(q.take(i)) + block_terminals(q[i].1),
        cases_terminals(q.take(i + 1)) <= cases_terminals(q),
    decreases q.len() - i,
{
    assert(q.take(i + 1).drop_last() =~= q.take(i));
    if i + 1 < q.len() {
        lemma_cases_terminals_prefix(q, i + 1);
    } else {
        assert(q.take(i + 1) =~= q);
    }
}

fn stabilize_ids_in_block(block: &mut ReactiveBlock, next_id: &mut u32)
    requires
        *old(next_id) + block_terminals(*old(block)) <= u32::MAX,
    ensures
        renumbered_block(*final(block), *old(block), *old(next_id) as int),
        *final(next_id) == *old(next_id) + block_terminals(*old(block)),
    decreases *old(block),
{
    let ghost o = old(block).instructions@;
    let ghost s0 = *old(next_id) as int;
    let mut i: usize = 0;
    while i < block.instructions.len()
        invariant
            i <= block.instructions@.len(),
            block.instructions@.len() == o.len(),
            o == old(block).instructions@,
            s0 == *old(next_id) as int,
            s0 + instructions_terminals(o) <= u32::MAX,
            *next_id == s0 + instructions_terminals(o.take(i as int)),
            renumbered_instructions(block.instructions@.take(i as int), o.take(i as int), s0),
            forall|k: int| i <= k < o.len() ==> #[trigger] block.instructions@[k] == o[k],
        decreases block.instructions.len() - i,
    {
        let ghost oi = o[i as int];
        let ghost prev = block.instructions@;
        let ghost start = *next_id as int;
        proof {
            lemma_instructions_terminals_prefix(o, i as int);
            assert(decreases_to!(*old(block) => old(block).instructions));
            assert(decreases_to!(old(block).instructions => o));
            assert(decreases_to!(o => o[i as int]));
        }
        match &mut block.instructions[i] {
            ReactiveInstruction::Scope(scope_block) => {
                proof {
                    assert(decreases_to!(oi => oi->Scope_0.instructions));
                }
                stabilize_ids_in_block(&mut scope_block.instructions, next_id);
            },
            ReactiveInstruction::Terminal(terminal) => {
                proof {
                    assert(decreases_to!(oi => oi->Terminal_0));
                }
                stabilize_terminal(terminal, next_id);
            },
            ReactiveInstruction::Instruction(_) => {},
        }
        proof {
            let n = block.instructions@;
            assert(n.take(i as int) =~= prev.take(i as int));
            assert(renumbered_instruction(n[i as int], oi, start));
            assert(n.take(i + 1).drop_last() =~= n.take(i as int));
            assert(o.take(i + 1).drop_last() =~= o.take(i as int));
        }
        i = i + 1;
    }
    proof {
        assert(block.instructions@.take(i as int) =~= block.instructions@);
        assert(o.take(i as int) =~= o);
    }
}

fn stabilize_terminal(terminal: &mut ReactiveTerminal, next_id: &mut u32)
    requires
        *old(next_id) + 1 + child_terminals(*old(terminal)) <= u32::MAX,
    ensures
        renumbered_terminal(*final(terminal), *old(terminal), *old(next_id) as int),
        *final(next_id) == *old(next_id) + 1 + child_terminals(*old(terminal)),
    decreases *old(terminal),
{
    set_terminal_id(terminal, BlockId(*next_id));
    *next_id = *next_id + 1;
    match terminal {
        ReactiveTerminal::If { consequent, alternate, .. } => {
            stabilize_ids_in_block(consequent, next_id);
            stabilize_ids_in_block(alternate, next_id);
        },
        ReactiveTerminal::Switch { cases, .. } => {
            let ghost oc = cases@;
            let ghost s1 = *next_id as int;
            let mut i: usize = 0;
            while i < cases.len()
                invariant
                    i <= cases@.len(),
                    cases@.len() == oc.len(),
                    *old(terminal) is Switch,
                    oc == old(terminal)->Switch_cases@,
                    s1 + cases_terminals(oc) <= u32::MAX,
                    *next_id == s1 + cases_terminals(oc.take(i as int)),
                    renumbered_cases(cases@.take(i as int), oc.take(i as int), s1),
                    forall|k: int| i <= k < oc.len() ==> #[trigger] cases@[k] == oc[k],
                decreases cases.len() - i,
            {
                let ghost prevc = cases@;
                let ghost start = *next_id as int;
                proof {
                    lemma_cases_terminals_prefix(oc, i as int);
                    assert(decreases_to!(*old(terminal) => old(terminal)->Switch_cases));
                    assert(decreases_to!(old(terminal)->Switch_cases => oc));
                    assert(decreases_to!(oc => oc[i as int]));
                }
                stabilize_ids_in_block(&mut cases[i].1, next_id);
                proof {
                    let n = cases@;
                    assert(n.take(i as int) =~= prevc.take(i as int));
                    assert(n.take(i + 1).drop_last() =~= n.take(i as int));
                    assert(oc.take(i + 1).drop_last() =~= oc.take(i as int));
                }
                i = i + 1;
            }
            proof {
                assert(cases@.take(i as int) =~= cases@);
                assert(oc.take(i as int) =~= oc);
            }
        },
        ReactiveTerminal::For { init, test, update, body, .. } => {
            stabilize_ids_in_block(init, next_id);
            stabilize_ids_in_block(test, next_id);
            if let Some(u) = update {
                stabilize_ids_in_block(u, next_id);
            }
            stabilize_ids_in_block(body, next_id);
        },
        ReactiveTerminal::ForOf { init, test, body, .. } => {
            stabilize_ids_in_block(init, next_id);
            stabilize_ids_in_block(test, next_id);
            stabilize_ids_in_block(body, next_id);
        },
        ReactiveTerminal::ForIn { init, test, body, .. } => {
            stabilize_ids_in_block(init, next_id);
            stabilize_ids_in_block(test, next_id);
            stabilize_ids_in_block(body, next_id);
        },
        ReactiveTerminal::While { test, body, .. } => {
            stabilize_ids_in_block(test, next_id);
            stabilize_ids_in_block(body, next_id);
        },
        ReactiveTerminal::DoWhile { body, test, .. } => {
            stabilize_ids_in_block(test, next_id);
            stabilize_ids_in_block(body, next_id);
        },
        ReactiveTerminal::Try { block, handler, .. } => {
            stabilize_ids_in_block(block, next_id);
            stabilize_ids_in_block(handler, next_id);
        },
        ReactiveTerminal::Label { block, .. } => {
            stabilize_ids_in_block(block, next_id);
        },
        ReactiveTerminal::Logical { right, .. } => {
            stabilize_ids_in_block(right, next_id);
        },
        _ => {},
    }
}

/// Stabilize block ids for deterministic output: the terminals of the
/// function are numbered 0, 1, 2, ... in visiting order (a terminal before
/// its child blocks, child blocks in order). The number of terminals must
/// fit a `u32`.
pub fn stabilize_block_ids(rf: &mut ReactiveFunction)
    requires
        block_terminals(old(rf).body) <= u32::MAX,
    ensures
        final(rf).loc == old(rf).loc,
        final(rf).id == old(rf).id,
        final(rf).params == old(rf).params,
        final(rf).directives == old(rf).directives,
        final(rf).is_arrow == old(rf).is_arrow,
        final(rf).is_async == old(rf).is_async,
        final(rf).is_generator == old(rf).is_generator,
        renumbered_block(final(rf).body, old(rf).body, 0),
{
    let mut next_id: u32 = 0;
    stabilize_ids_in_block(&mut rf.body, &mut next_id);
}

} // verus!
