//! The parts of constant propagation that need no floating-point
//! arithmetic: which identifiers hold a single known constant, JavaScript
//! truthiness and strict equality of constants, folding branches on a known
//! test, and the graph clean-up after folding. A number constant is held
//! as the IEEE-754 bit pattern of its value.

use vstd::prelude::*;
use vstd::string::StringExecFns;
use rustc_hash::FxHashMap;
use rustc_hash::FxHashSet;
use crate::fxhash::{fx_map_get, fx_map_insert, fx_map_keys, fx_set_contains, fx_set_insert};
use crate::optimization::dead_code_elimination::{cfg, is_reachable, remove_unreachable_blocks, successors, terminal_successors};
use crate::optimization::merge_consecutive_blocks::{
    check_cfg_for_merging, first_candidate, merge_consecutive_blocks, merge_trace, mergeable_cfg,
};
use crate::hir::types::{BasicBlock, BinaryOp, BlockId, HIR, Instruction, InstructionValue, Phi, Place, Primitive, Terminal, UnaryOp};

verus! {

// ---------------------------------------------------------------------------
// Constants
// ---------------------------------------------------------------------------

/// The bits of a double's exponent.
pub open spec fn exponent_bits(b: u64) -> u64 {
    b & 0x7FF0_0000_0000_0000
}

/// A double's bit pattern is NaN: all exponent bits set and a non-zero
/// fraction.
pub open spec fn number_is_nan(b: u64) -> bool {
    exponent_bits(b) == 0x7FF0_0000_0000_0000 && (b & 0x000F_FFFF_FFFF_FFFF) != 0
}

/// A double's bit pattern is +0 or -0.
pub open spec fn number_is_zero(b: u64) -> bool {
    (b & 0x7FFF_FFFF_FFFF_FFFF) == 0
}

/// Two doubles compare equal: neither is NaN, and they are the same value
/// (+0 and -0 are equal).
pub open spec fn numbers_equal(a: u64, b: u64) -> bool {
    !number_is_nan(a) && !number_is_nan(b) && (a == b || (number_is_zero(a) && number_is_zero(b)))
}

/// JavaScript strict equality (`===`) of two constants.
pub open spec fn strictly_equal(l: Primitive, r: Primitive) -> bool {
    match (l, r) {
        (Primitive::Null, Primitive::Null) => true,
        (Primitive::Undefined, Primitive::Undefined) => true,
        (Primitive::Boolean(a), Primitive::Boolean(b)) => a == b,
        (Primitive::Number(a), Primitive::Number(b)) => numbers_equal(a, b),
        (Primitive::String(a), Primitive::String(b)) => a@ == b@,
        (Primitive::BigInt(a), Primitive::BigInt(b)) => a@ == b@,
        _ => false,
    }
}

/// JavaScript truthiness (`ToBoolean`) of a constant.
pub open spec fn truthy(v: Primitive) -> bool {
    match v {
        Primitive::Null | Primitive::Undefined => false,
        Primitive::Boolean(b) => b,
        Primitive::Number(n) => !number_is_zero(n) && !number_is_nan(n),
        Primitive::String(s) => s@.len() > 0,
        Primitive::BigInt(s) => s@ != "0"@ && s@.len() > 0,
    }
}

fn is_nan(b: u64) -> (r: bool)
    ensures
        r == number_is_nan(b),
{
    (b & 0x7FF0_0000_0000_0000) == 0x7FF0_0000_0000_0000 && (b & 0x000F_FFFF_FFFF_FFFF) != 0
}

fn is_zero(b: u64) -> (r: bool)
    ensures
        r == number_is_zero(b),
{
    (b & 0x7FFF_FFFF_FFFF_FFFF) == 0
}

/// Coerce a constant to a boolean (JavaScript `ToBoolean`).
pub fn to_boolean(val: &Primitive) -> (r: bool)
    ensures
        r == truthy(*val),
{
    match val {
        Primitive::Null | Primitive::Undefined => false,
        Primitive::Boolean(b) => *b,
        Primitive::Number(n) => !is_zero(*n) && !is_nan(*n),
        Primitive::String(s) => !s.as_str().is_empty(),
        Primitive::BigInt(s) => {
            proof {
                reveal_strlit("0");
            }
            *s != String::from_str("0") && !s.as_str().is_empty()
        },
    }
}

/// Strict equality (`===`) between two constants.
pub fn strict_eq(left: &Primitive, right: &Primitive) -> (r: bool)
    ensures
        r == strictly_equal(*left, *right),
{
    match (left, right) {
        (Primitive::Null, Primitive::Null) => true,
        (Primitive::Undefined, Primitive::Undefined) => true,
        (Primitive::Boolean(a), Primitive::Boolean(b)) => *a == *b,
        (Primitive::Number(a), Primitive::Number(b)) => {
            if is_nan(*a) || is_nan(*b) {
                return false;
            }
            *a == *b || (is_zero(*a) && is_zero(*b))
        },
        (Primitive::String(a), Primitive::String(b)) => *a == *b,
        (Primitive::BigInt(a), Primitive::BigInt(b)) => *a == *b,
        _ => false,
    }
}

/// An exact copy of a constant.
pub fn copy_primitive(p: &Primitive) -> (r: Primitive)
    ensures
        r == *p,
{
    match p {
        Primitive::Null => Primitive::Null,
        Primitive::Undefined => Primitive::Undefined,
        Primitive::Boolean(b) => Primitive::Boolean(*b),
        Primitive::Number(n) => Primitive::Number(*n),
        Primitive::String(s) => Primitive::String(s.clone()),
        Primitive::BigInt(s) => Primitive::BigInt(s.clone()),
    }
}

// ---------------------------------------------------------------------------
// Folding branches
// ---------------------------------------------------------------------------

/// The terminal a conditional becomes when its test is a known constant:
/// `if`, `branch` and ternaries go to the branch the test's truthiness
/// selects; an optional chain goes to its fallthrough on `null` or
/// `undefined` and to its consequent otherwise. `None` when it stays.
pub open spec fn folded_terminal(t: Terminal, constants: Map<u32, Primitive>) -> Option<Terminal> {
    match t {
        Terminal::If { test, consequent, alternate, .. } | Terminal::Ternary { test, consequent, alternate, .. } =>
            if constants.contains_key(test.identifier.id.0) {
                Some(Terminal::Goto { block: if truthy(constants[test.identifier.id.0]) { consequent } else { alternate } })
            } else {
                None
            },
        Terminal::Branch { test, consequent, alternate } => if constants.contains_key(test.identifier.id.0) {
            Some(Terminal::Goto { block: if truthy(constants[test.identifier.id.0]) { consequent } else { alternate } })
        } else {
            None
        },
        Terminal::Optional { test, consequent, fallthrough, .. } => if constants.contains_key(test.identifier.id.0) {
            let v = constants[test.identifier.id.0];
            Some(Terminal::Goto { block: if (v is Null || v is Undefined) { fallthrough } else { consequent } })
        } else {
            None
        },
        _ => None,
    }
}

/// Replace a conditional terminal by a `Goto` when its test is a known
/// constant. Returns whether the terminal was folded.
pub fn try_fold_terminal(terminal: &mut Terminal, constants: &FxHashMap<u32, Primitive>) -> (r: bool)
    ensures
        r == folded_terminal(*old(terminal), constants@) is Some,
        *final(terminal) == match folded_terminal(*old(terminal), constants@) {
            Some(t) => t,
            None => *old(terminal),
        },
{
    let target = match terminal {
        Terminal::If { test, consequent, alternate, .. } => match fx_map_get(constants, test.identifier.id.0) {
            Some(val) => Some(if to_boolean(val) { *consequent } else { *alternate }),
            None => None,
        },
        Terminal::Branch { test, consequent, alternate } => match fx_map_get(constants, test.identifier.id.0) {
            Some(val) => Some(if to_boolean(val) { *consequent } else { *alternate }),
            None => None,
        },
        Terminal::Ternary { test, consequent, alternate, .. } => match fx_map_get(constants, test.identifier.id.0) {
            Some(val) => Some(if to_boolean(val) { *consequent } else { *alternate }),
            None => None,
        },
        Terminal::Optional { test, consequent, fallthrough, .. } => match fx_map_get(constants, test.identifier.id.0) {
            Some(val) => {
                let is_nullish = matches!(val, Primitive::Null | Primitive::Undefined);
                Some(if is_nullish { *fallthrough } else { *consequent })
            },
            None => None,
        },
        _ => None,
    };
    match target {
        Some(b) => {
            *terminal = Terminal::Goto { block: b };
            true
        },
        None => false,
    }
}

/// A conditional whose test is a known constant folds the same way whatever
/// its kind: an `if`, a `branch` and a ternary with the same test and arms
/// all become a `Goto` to the consequent when the constant is truthy and to
/// the alternate when it is falsy. In particular `true` selects the
/// consequent, and `false`, `null` and `undefined` select the alternate.
pub proof fn lemma_conditional_fold_selects_arm(
    test: Place,
    consequent: BlockId,
    alternate: BlockId,
    fallthrough: BlockId,
    result: Option<Place>,
    constants: Map<u32, Primitive>,
)
    requires
        constants.contains_key(test.identifier.id.0),
    ensures
        truthy(constants[test.identifier.id.0]) ==> folded_terminal(
            Terminal::Ternary { test, consequent, alternate, fallthrough, result },
            constants,
        ) == Some(Terminal::Goto { block: consequent }),
        !truthy(constants[test.identifier.id.0]) ==> folded_terminal(
            Terminal::Ternary { test, consequent, alternate, fallthrough, result },
            constants,
        ) == Some(Terminal::Goto { block: alternate }),
        folded_terminal(Terminal::Ternary { test, consequent, alternate, fallthrough, result }, constants)
            == folded_terminal(Terminal::If { test, consequent, alternate, fallthrough }, constants),
        folded_terminal(Terminal::Branch { test, consequent, alternate }, constants)
            == folded_terminal(Terminal::If { test, consequent, alternate, fallthrough }, constants),
        constants[test.identifier.id.0] == Primitive::Boolean(true) ==> folded_terminal(
            Terminal::Ternary { test, consequent, alternate, fallthrough, result },
            constants,
        ) == Some(Terminal::Goto { block: consequent }) && folded_terminal(
            Terminal::If { test, consequent, alternate, fallthrough },
            constants,
        ) == Some(Terminal::Goto { block: consequent }),
        (constants[test.identifier.id.0] == Primitive::Boolean(false) || constants[test.identifier.id.0] is Null
            || constants[test.identifier.id.0] is Undefined) ==> folded_terminal(
            Terminal::Ternary { test, consequent, alternate, fallthrough, result },
            constants,
        ) == Some(Terminal::Goto { block: alternate }) && folded_terminal(
            Terminal::If { test, consequent, alternate, fallthrough },
            constants,
        ) == Some(Terminal::Goto { block: alternate }),
{
}

/// Folding only ever picks one of a conditional's own targets: a terminal
/// that folds is an `if`, `branch`, ternary or optional chain and becomes a
/// `Goto` to its consequent or its alternate (to its consequent or its
/// fallthrough for an optional chain, the fallthrough exactly when the
/// constant is `null` or `undefined`); every other terminal stays.
pub proof fn lemma_fold_targets_an_arm(t: Terminal, constants: Map<u32, Primitive>)
    ensures
        match t {
            Terminal::If { test, consequent, alternate, .. } | Terminal::Branch { test, consequent, alternate } | Terminal::Ternary {
                test,
                consequent,
                alternate,
                ..
            } => (folded_terminal(t, constants) is Some <==> constants.contains_key(test.identifier.id.0)) && (
            folded_terminal(t, constants) is Some ==> (folded_terminal(t, constants) == Some(
                Terminal::Goto { block: consequent },
            ) || folded_terminal(t, constants) == Some(Terminal::Goto { block: alternate }))),
            Terminal::Optional { test, consequent, fallthrough, .. } => (folded_terminal(t, constants) is Some
                <==> constants.contains_key(test.identifier.id.0)) && (constants.contains_key(test.identifier.id.0) ==> (
            folded_terminal(t, constants) == Some(
                Terminal::Goto {
                    block: if (constants[test.identifier.id.0] is Null || constants[test.identifier.id.0] is Undefined) {
                        fallthrough
                    } else {
                        consequent
                    },
                },
            ))),
            _ => folded_terminal(t, constants) is None,
        },
{
}


// ---------------------------------------------------------------------------
// Collecting constants
// ---------------------------------------------------------------------------

/// One instruction's effect on what is known: a literal assigned to an
/// identifier seen for the first time makes it that constant; the same
/// constant again keeps it; anything else (another value, a store, any
/// other instruction) marks it as not a single constant (`None`). A store
/// also marks its target.
pub open spec fn assign_step(st: Map<u32, Option<Primitive>>, i: Instruction) -> Map<u32, Option<Primitive>> {
    let id = i.lvalue.identifier.id.0;
    match i.value {
        InstructionValue::Primitive { value } => if !st.contains_key(id) {
            st.insert(id, Some(value))
        } else if (st[id] matches Some(e) && strictly_equal(e, value)) {
            st
        } else {
            st.insert(id, None)
        },
        InstructionValue::StoreLocal { lvalue, .. } => st.insert(lvalue.identifier.id.0, None).insert(id, None),
        _ => st.insert(id, None),
    }
}

pub open spec fn assign_instructions(st: Map<u32, Option<Primitive>>, q: Seq<Instruction>) -> Map<u32, Option<Primitive>>
    decreases q.len(),
{
    if q.len() == 0 {
        st
    } else {
        assign_step(assign_instructions(st, q.drop_last()), q.last())
    }
}

pub open spec fn assign_blocks(st: Map<u32, Option<Primitive>>, b: Seq<(BlockId, BasicBlock)>) -> Map<u32, Option<Primitive>>
    decreases b.len(),
{
    if b.len() == 0 {
        st
    } else {
        assign_instructions(assign_blocks(st, b.drop_last()), b.last().1.instructions@)
    }
}

/// The identifier of a phi operand.
pub open spec fn operand_id(op: (BlockId, Place)) -> u32 {
    op.1.identifier.id.0
}

/// The constant all operands of a phi hold, when each holds one and all
/// are strictly equal to the first.
pub open spec fn phi_common(st: Map<u32, Option<Primitive>>, ops: Seq<(BlockId, Place)>) -> Option<Primitive> {
    if ops.len() > 0 && (forall|i: int| 0 <= i < ops.len() ==> st.contains_key(operand_id(#[trigger] ops[i])) && st[operand_id(ops[i])] is Some)
        && (forall|i: int| 1 <= i < ops.len() ==> strictly_equal(st[operand_id(ops[0])]->Some_0, st[operand_id(#[trigger] ops[i])]->Some_0)) {
        Some(st[operand_id(ops[0])]->Some_0)
    } else {
        None
    }
}

/// One phi's effect: a phi not yet known gets the common constant of its
/// operands, if they have one. Also says whether something was added.
pub open spec fn phi_step(st: Map<u32, Option<Primitive>>, phi: Phi) -> (Map<u32, Option<Primitive>>, bool) {
    let pid = phi.place.identifier.id.0;
    if st.contains_key(pid) {
        (st, false)
    } else {
        match phi_common(st, phi.operands@) {
            Some(c) => (st.insert(pid, Some(c)), true),
            None => (st, false),
        }
    }
}

pub open spec fn phi_round_phis(st: Map<u32, Option<Primitive>>, q: Seq<Phi>) -> (Map<u32, Option<Primitive>>, bool)
    decreases q.len(),
{
    if q.len() == 0 {
        (st, false)
    } else {
        let (s1, c1) = phi_round_phis(st, q.drop_last());
        let (s2, c2) = phi_step(s1, q.last());
        (s2, c1 || c2)
    }
}

/// One pass over all phis, in block order.
pub open spec fn phi_round(st: Map<u32, Option<Primitive>>, b: Seq<(BlockId, BasicBlock)>) -> (Map<u32, Option<Primitive>>, bool)
    decreases b.len(),
{
    if b.len() == 0 {
        (st, false)
    } else {
        let (s1, c1) = phi_round(st, b.drop_last());
        let (s2, c2) = phi_round_phis(s1, b.last().1.phis@);
        (s2, c1 || c2)
    }
}

pub open spec fn phi_ids_of(q: Seq<Phi>) -> Set<u32>
    decreases q.len(),
{
    if q.len() == 0 {
        Set::empty()
    } else {
        phi_ids_of(q.drop_last()).insert(q.last().place.identifier.id.0)
    }
}

/// The ids of all phis of the graph.
pub open spec fn phi_ids(b: Seq<(BlockId, BasicBlock)>) -> Set<u32>
    decreases b.len(),
{
    if b.len() == 0 {
        Set::empty()
    } else {
        phi_ids(b.drop_last()) + phi_ids_of(b.last().1.phis@)
    }
}

pub proof fn lemma_phi_ids_finite(b: Seq<(BlockId, BasicBlock)>)
    ensures
        phi_ids(b).finite(),
    decreases b.len(),
{
    if b.len() > 0 {
        lemma_phi_ids_finite(b.drop_last());
        lemma_phi_ids_of_finite(b.last().1.phis@);
    }
}

pub proof fn lemma_phi_ids_of_finite(q: Seq<Phi>)
    ensures
        phi_ids_of(q).finite(),
    decreases q.len(),
{
    if q.len() > 0 {
        lemma_phi_ids_of_finite(q.drop_last());
    }
}

pub proof fn lemma_phi_round_phis(st: Map<u32, Option<Primitive>>, q: Seq<Phi>)
    ensures
        st.dom().subset_of(phi_round_phis(st, q).0.dom()),
        phi_round_phis(st, q).0.dom().subset_of(st.dom() + phi_ids_of(q)),
        phi_round_phis(st, q).1 ==> exists|k: u32| phi_ids_of(q).contains(k) && !st.dom().contains(k) && phi_round_phis(st, q).0.dom().contains(k),
        !phi_round_phis(st, q).1 ==> phi_round_phis(st, q).0 == st,
    decreases q.len(),
{
    if q.len() > 0 {
        lemma_phi_round_phis(st, q.drop_last());
        let (s1, c1) = phi_round_phis(st, q.drop_last());
        let pid = q.last().place.identifier.id.0;
        if c1 {
            let k = choose|k: u32| phi_ids_of(q.drop_last()).contains(k) && !st.dom().contains(k) && s1.dom().contains(k);
            assert(phi_ids_of(q).contains(k));
        }
        if phi_step(s1, q.last()).1 {
            assert(phi_ids_of(q).contains(pid));
        }
    }
}

pub proof fn lemma_phi_round(st: Map<u32, Option<Primitive>>, b: Seq<(BlockId, BasicBlock)>)
    ensures
        st.dom().subset_of(phi_round(st, b).0.dom()),
        phi_round(st, b).0.dom().subset_of(st.dom() + phi_ids(b)),
        phi_round(st, b).1 ==> exists|k: u32| phi_ids(b).contains(k) && !st.dom().contains(k) && phi_round(st, b).0.dom().contains(k),
        !phi_round(st, b).1 ==> phi_round(st, b).0 == st,
    decreases b.len(),
{
    if b.len() > 0 {
        lemma_phi_round(st, b.drop_last());
        let (s1, c1) = phi_round(st, b.drop_last());
        lemma_phi_round_phis(s1, b.last().1.phis@);
        if c1 {
            let k = choose|k: u32| phi_ids(b.drop_last()).contains(k) && !st.dom().contains(k) && s1.dom().contains(k);
            assert(phi_ids(b).contains(k));
        }
    }
}

pub proof fn lemma_round_measure(st: Map<u32, Option<Primitive>>, b: Seq<(BlockId, BasicBlock)>)
    requires
        phi_round(st, b).1,
    ensures
        phi_ids(b).difference(phi_round(st, b).0.dom()).len() < phi_ids(b).difference(st.dom()).len(),
{
    lemma_phi_round(st, b);
    lemma_phi_ids_finite(b);
    let s2 = phi_round(st, b).0;
    let k = choose|k: u32| phi_ids(b).contains(k) && !st.dom().contains(k) && s2.dom().contains(k);
    let a = phi_ids(b).difference(st.dom());
    let c = phi_ids(b).difference(s2.dom());
    assert(c.subset_of(a.remove(k)));
    vstd::set_lib::lemma_len_subset(c, a.remove(k));
}

/// Propagate constants through phis until nothing changes.
pub open spec fn phi_fixpoint(st: Map<u32, Option<Primitive>>, b: Seq<(BlockId, BasicBlock)>) -> Map<u32, Option<Primitive>>
    decreases phi_ids(b).difference(st.dom()).len(),
{
    let (s2, changed) = phi_round(st, b);
    if changed {
        proof {
            lemma_round_measure(st, b);
        }
        phi_fixpoint(s2, b)
    } else {
        st
    }
}

/// The identifiers of the graph that hold a single known constant, with
/// that constant: literals assigned once (or always the same constant),
/// then phis whose operands all hold the same constant, repeated until
/// nothing changes.
pub open spec fn known_constants(b: Seq<(BlockId, BasicBlock)>) -> Map<u32, Primitive> {
    let st = phi_fixpoint(assign_blocks(Map::empty(), b), b);
    Map::new(|k: u32| st.contains_key(k) && st[k] is Some, |k: u32| st[k]->Some_0)
}

/// The state's keys are exactly the recorded keys.
pub open spec fn keys_match(state: Map<u32, Option<Primitive>>, keys: Seq<u32>) -> bool {
    forall|x: u32| state.contains_key(x) <==> keys.contains(x)
}

fn record(state: &mut FxHashMap<u32, Option<Primitive>>, keys: &mut Vec<u32>, k: u32, v: Option<Primitive>)
    requires
        keys_match(old(state)@, old(keys)@),
    ensures
        final(state)@ == old(state)@.insert(k, v),
        keys_match(final(state)@, final(keys)@),
{
    fx_map_insert(state, k, v);
    keys.push(k);
    proof {
        assert forall|x: u32| state@.contains_key(x) <==> keys@.contains(x) by {
            if x == k {
                assert(keys@[keys@.len() - 1] == k);
            } else if old(keys)@.contains(x) {
                let j = choose|j: int| 0 <= j < old(keys)@.len() && old(keys)@[j] == x;
                assert(keys@[j] == x);
            } else if keys@.contains(x) {
                let j = choose|j: int| 0 <= j < keys@.len() && keys@[j] == x;
                assert(old(keys)@[j] == x);
            }
        }
    }
}

fn assign_instruction(state: &mut FxHashMap<u32, Option<Primitive>>, keys: &mut Vec<u32>, instr: &Instruction)
    requires
        keys_match(old(state)@, old(keys)@),
    ensures
        final(state)@ == assign_step(old(state)@, *instr),
        keys_match(final(state)@, final(keys)@),
{
    let id = instr.lvalue.identifier.id.0;
    match &instr.value {
        InstructionValue::Primitive { value } => {
            let (fresh, same) = match fx_map_get(state, id) {
                None => (true, false),
                Some(Some(existing)) => (false, strict_eq(existing, value)),
                Some(None) => (false, false),
            };
            if fresh {
                record(state, keys, id, Some(copy_primitive(value)));
            } else if !same {
                record(state, keys, id, None);
            }
        },
        InstructionValue::StoreLocal { lvalue, .. } => {
            record(state, keys, lvalue.identifier.id.0, None);
            record(state, keys, id, None);
        },
        _ => {
            record(state, keys, id, None);
        },
    }
}

fn phi_common_exec(state: &FxHashMap<u32, Option<Primitive>>, ops: &Vec<(BlockId, Place)>) -> (r: Option<Primitive>)
    ensures
        r == phi_common(state@, ops@),
{
    let ghost st = state@;
    let mut phi_const: Option<Primitive> = None;
    let mut i: usize = 0;
    while i < ops.len()
        invariant
            i <= ops@.len(),
            st == state@,
            forall|j: int| 0 <= j < i ==> st.contains_key(operand_id(#[trigger] ops@[j])) && st[operand_id(ops@[j])] is Some,
            forall|j: int| 1 <= j < i ==> strictly_equal(st[operand_id(ops@[0])]->Some_0, st[operand_id(#[trigger] ops@[j])]->Some_0),
            i == 0 <==> phi_const is None,
            i > 0 ==> phi_const == Some(st[operand_id(ops@[0])]->Some_0),
        decreases ops.len() - i,
    {
        let ok = match fx_map_get(state, ops[i].1.identifier.id.0) {
            Some(Some(c)) => match &phi_const {
                None => {
                    phi_const = Some(copy_primitive(c));
                    true
                },
                Some(existing) => strict_eq(existing, c),
            },
            _ => false,
        };
        if !ok {
            return None;
        }
        i = i + 1;
    }
    phi_const
}

fn phi_round_exec(state: &mut FxHashMap<u32, Option<Primitive>>, keys: &mut Vec<u32>, hir: &HIR) -> (changed: bool)
    requires
        keys_match(old(state)@, old(keys)@),
    ensures
        (final(state)@, changed) == phi_round(old(state)@, hir.blocks@),
        keys_match(final(state)@, final(keys)@),
{
    let mut changed = false;
    let mut i: usize = 0;
    while i < hir.blocks.len()
        invariant
            i <= hir.blocks@.len(),
            keys_match(state@, keys@),
            (state@, changed) == phi_round(old(state)@, hir.blocks@.take(i as int)),
        decreases hir.blocks.len() - i,
    {
        proof {
            assert(hir.blocks@.take(i + 1).drop_last() =~= hir.blocks@.take(i as int));
        }
        let phis = &hir.blocks[i].1.phis;
        let ghost s1 = state@;
        let ghost c1 = changed;
        let mut inner = false;
        let mut j: usize = 0;
        while j < phis.len()
            invariant
                j <= phis@.len(),
                keys_match(state@, keys@),
                (state@, inner) == phi_round_phis(s1, phis@.take(j as int)),
            decreases phis.len() - j,
        {
            proof {
                assert(phis@.take(j + 1).drop_last() =~= phis@.take(j as int));
            }
            let pid = phis[j].place.identifier.id.0;
            let known = fx_map_get(state, pid).is_some();
            if !known {
                let common = phi_common_exec(state, &phis[j].operands);
                if let Some(c) = common {
                    record(state, keys, pid, Some(c));
                    inner = true;
                }
            }
            j = j + 1;
        }
        proof {
            assert(phis@.take(j as int) =~= phis@);
        }
        changed = changed || inner;
        i = i + 1;
    }
    proof {
        assert(hir.blocks@.take(i as int) =~= hir.blocks@);
    }
    changed
}

/// Collect the identifiers that hold exactly one constant value: see
/// `known_constants`.
pub fn collect_constants(hir: &HIR) -> (r: FxHashMap<u32, Primitive>)
    ensures
        r@ == known_constants(hir.blocks@),
{
    let mut state: FxHashMap<u32, Option<Primitive>> = FxHashMap::default();
    let mut keys: Vec<u32> = Vec::new();
    proof {
        assert(state@ =~= Map::<u32, Option<Primitive>>::empty());
    }
    let mut i: usize = 0;
    while i < hir.blocks.len()
        invariant
            i <= hir.blocks@.len(),
            keys_match(state@, keys@),
            state@ == assign_blocks(Map::empty(), hir.blocks@.take(i as int)),
        decreases hir.blocks.len() - i,
    {
        proof {
            assert(hir.blocks@.take(i + 1).drop_last() =~= hir.blocks@.take(i as int));
        }
        let instrs = &hir.blocks[i].1.instructions;
        let ghost s0 = state@;
        let mut j: usize = 0;
        while j < instrs.len()
            invariant
                j <= instrs@.len(),
                keys_match(state@, keys@),
                state@ == assign_instructions(s0, instrs@.take(j as int)),
            decreases instrs.len() - j,
        {
            proof {
                assert(instrs@.take(j + 1).drop_last() =~= instrs@.take(j as int));
            }
            assign_instruction(&mut state, &mut keys, &instrs[j]);
            j = j + 1;
        }
        proof {
            assert(instrs@.take(j as int) =~= instrs@);
        }
        i = i + 1;
    }
    proof {
        assert(hir.blocks@.take(i as int) =~= hir.blocks@);
        lemma_phi_ids_finite(hir.blocks@);
    }
    let ghost start = state@;
    loop
        invariant
            keys_match(state@, keys@),
            phi_fixpoint(state@, hir.blocks@) == phi_fixpoint(start, hir.blocks@),
            start == assign_blocks(Map::empty(), hir.blocks@),
        ensures
            keys_match(state@, keys@),
            state@ == phi_fixpoint(start, hir.blocks@),
        decreases phi_ids(hir.blocks@).difference(state@.dom()).len(),
    {
        let ghost before = state@;
        let changed = phi_round_exec(&mut state, &mut keys, hir);
        proof {
            lemma_phi_round(before, hir.blocks@);
        }
        if !changed {
            break;
        }
        proof {
            lemma_round_measure(before, hir.blocks@);
        }
    }
    let ghost fin = state@;
    let mut result: FxHashMap<u32, Primitive> = FxHashMap::default();
    let mut k: usize = 0;
    proof {
        assert(result@ =~= Map::new(|x: u32| keys@.take(0).contains(x) && fin.contains_key(x) && fin[x] is Some, |x: u32| fin[x]->Some_0));
    }
    while k < keys.len()
        invariant
            k <= keys@.len(),
            fin == state@,
            keys_match(fin, keys@),
            result@ == Map::new(|x: u32| keys@.take(k as int).contains(x) && fin.contains_key(x) && fin[x] is Some, |x: u32| fin[x]->Some_0),
        decreases keys.len() - k,
    {
        let key = keys[k];
        let ghost before = result@;
        match fx_map_get(&state, key) {
            Some(Some(v)) => {
                fx_map_insert(&mut result, key, copy_primitive(v));
            },
            _ => {},
        }
        proof {
            assert(keys@.take(k + 1) =~= keys@.take(k as int).push(key));
            assert forall|x: u32| #[trigger] keys@.take(k + 1).contains(x) <==> (keys@.take(k as int).contains(x) || x == key) by {
                if keys@.take(k + 1).contains(x) {
                    let j = choose|j: int| 0 <= j < k + 1 && #[trigger] keys@.take(k + 1)[j] == x;
                    if j < k {
                        assert(keys@.take(k as int)[j] == x);
                    }
                }
                if keys@.take(k as int).contains(x) {
                    let j = choose|j: int| 0 <= j < k && #[trigger] keys@.take(k as int)[j] == x;
                    assert(keys@.take(k + 1)[j] == x);
                }
                if x == key {
                    assert(keys@.take(k + 1)[k as int] == x);
                }
            }
            assert(result@ =~= Map::new(|x: u32| keys@.take(k + 1).contains(x) && fin.contains_key(x) && fin[x] is Some, |x: u32| fin[x]->Some_0));
        }
        k = k + 1;
    }
    proof {
        assert(keys@.take(k as int) =~= keys@);
        assert(result@ =~= known_constants(hir.blocks@));
    }
    result
}

// ---------------------------------------------------------------------------
// Clean-up after folding
// ---------------------------------------------------------------------------

/// The last position of a block with id `b`.
pub open spec fn last_index(g: Seq<(BlockId, Seq<BlockId>)>, b: BlockId) -> Option<int>
    decreases g.len(),
{
    if g.len() == 0 {
        None
    } else if g.last().0 == b {
        Some(g.len() - 1)
    } else {
        last_index(g.drop_last(), b)
    }
}

/// `s` with `x` appended unless it is already there.
pub open spec fn push_new(s: Seq<BlockId>, x: BlockId) -> Seq<BlockId> {
    if s.contains(x) { s } else { s.push(x) }
}

/// `acc` after the edges from `from` to `succs` that lead to the block at
/// position `pos` of `g` are recorded.
pub open spec fn add_edges(acc: Seq<BlockId>, from: BlockId, succs: Seq<BlockId>, g: Seq<(BlockId, Seq<BlockId>)>, pos: int) -> Seq<BlockId>
    decreases succs.len(),
{
    if succs.len() == 0 {
        acc
    } else {
        let a = add_edges(acc, from, succs.drop_last(), g, pos);
        if last_index(g, succs.last()) == Some(pos) { push_new(a, from) } else { a }
    }
}

/// The predecessors of the block at position `pos` of `g` recorded from
/// the edges of the blocks of `prefix`, in order, each once.
pub open spec fn preds_from(g: Seq<(BlockId, Seq<BlockId>)>, prefix: Seq<(BlockId, Seq<BlockId>)>, pos: int) -> Seq<BlockId>
    decreases prefix.len(),
{
    if prefix.len() == 0 {
        Seq::empty()
    } else {
        add_edges(preds_from(g, prefix.drop_last(), pos), prefix.last().0, prefix.last().1, g, pos)
    }
}

/// The predecessor list rebuilt for the block at position `pos`: the ids
/// of the blocks with an edge to it, in the order the edges are met, each
/// once (an edge to an id goes to the last block with that id).
pub open spec fn rebuilt_preds(blocks: Seq<(BlockId, BasicBlock)>, pos: int) -> Seq<BlockId> {
    preds_from(cfg(blocks), cfg(blocks), pos)
}

fn contains_block_id(v: &Vec<BlockId>, x: BlockId) -> (r: bool)
    ensures
        r == v@.contains(x),
{
    let mut k: usize = 0;
    while k < v.len()
        invariant
            k <= v@.len(),
            forall|m: int| 0 <= m < k ==> v@[m] != x,
        decreases v.len() - k,
    {
        if v[k] == x {
            return true;
        }
        k = k + 1;
    }
    false
}

/// Rebuild the predecessor lists of all blocks from the successor edges of
/// their terminals.
pub fn rebuild_predecessors(hir: &mut HIR)
    ensures
        final(hir).entry == old(hir).entry,
        final(hir).blocks@.len() == old(hir).blocks@.len(),
        forall|p: int| 0 <= p < old(hir).blocks@.len() ==> {
            let n = #[trigger] final(hir).blocks@[p];
            let o = old(hir).blocks@[p];
            &&& n.0 == o.0
            &&& n.1.kind == o.1.kind
            &&& n.1.id == o.1.id
            &&& n.1.instructions == o.1.instructions
            &&& n.1.terminal == o.1.terminal
            &&& n.1.phis == o.1.phis
            &&& n.1.preds@ == rebuilt_preds(old(hir).blocks@, p)
        },
{
    let ghost g = cfg(hir.blocks@);
    let ghost ob = hir.blocks@;
    // Position of each block id (the last block with the id).
    let mut index: FxHashMap<u32, usize> = FxHashMap::default();
    let mut i: usize = 0;
    proof {
        assert(index@ =~= Map::<u32, usize>::empty());
    }
    while i < hir.blocks.len()
        invariant
            i <= hir.blocks@.len(),
            g == cfg(hir.blocks@),
            hir.entry == old(hir).entry,
            hir.blocks@ == old(hir).blocks@,
            forall|b: BlockId| (#[trigger] index@.contains_key(b.0) ==> last_index(g.take(i as int), b) == Some(index@[b.0] as int)),
            forall|b: BlockId| (!(#[trigger] index@.contains_key(b.0)) ==> last_index(g.take(i as int), b) is None),
        decreases hir.blocks.len() - i,
    {
        proof {
            assert(g.take(i + 1).drop_last() =~= g.take(i as int));
            assert(g.take(i + 1).last() == g[i as int]);
        }
        fx_map_insert(&mut index, hir.blocks[i].0.0, i);
        proof {
            assert forall|b: BlockId| #[trigger] index@.contains_key(b.0) implies last_index(g.take(i + 1), b) == Some(index@[b.0] as int) by {
                if b.0 == hir.blocks@[i as int].0.0 {
                    assert(b == hir.blocks@[i as int].0);
                }
            }
            assert forall|b: BlockId| !(#[trigger] index@.contains_key(b.0)) implies last_index(g.take(i + 1), b) is None by {
                assert(b != hir.blocks@[i as int].0);
            }
        }
        i = i + 1;
    }
    proof {
        assert(g.take(i as int) =~= g);
    }
    // Clear all predecessor lists.
    let mut c: usize = 0;
    while c < hir.blocks.len()
        invariant
            c <= hir.blocks@.len(),
            hir.blocks@.len() == ob.len(),
            hir.entry == old(hir).entry,
            forall|p: int| 0 <= p < ob.len() ==> {
                let n = #[trigger] hir.blocks@[p];
                &&& n.0 == ob[p].0
                &&& n.1.kind == ob[p].1.kind
                &&& n.1.id == ob[p].1.id
                &&& n.1.instructions == ob[p].1.instructions
                &&& n.1.terminal == ob[p].1.terminal
                &&& n.1.phis == ob[p].1.phis
                &&& p < c ==> n.1.preds@ == Seq::<BlockId>::empty()
                &&& p >= c ==> n == ob[p]
            },
        decreases hir.blocks.len() - c,
    {
        hir.blocks[c].1.preds = Vec::new();
        c = c + 1;
    }
    // Collect the successor edges.
    let mut edges: Vec<(BlockId, Vec<BlockId>)> = Vec::new();
    let mut e: usize = 0;
    while e < hir.blocks.len()
        invariant
            e <= hir.blocks@.len(),
            hir.blocks@.len() == ob.len(),
            hir.entry == old(hir).entry,
            g == cfg(ob),
            forall|p: int| 0 <= p < ob.len() ==> (#[trigger] hir.blocks@[p]).0 == ob[p].0 && hir.blocks@[p].1.terminal == ob[p].1.terminal,
            edges@.len() == e,
            forall|p: int| 0 <= p < e ==> (#[trigger] edges@[p]).0 == g[p].0 && edges@[p].1@ == g[p].1,
        decreases hir.blocks.len() - e,
    {
        let succs = terminal_successors(&hir.blocks[e].1.terminal);
        edges.push((hir.blocks[e].0, succs));
        e = e + 1;
    }
    // Record each edge at its target.
    let mut k: usize = 0;
    while k < edges.len()
        invariant
            k <= edges@.len(),
            edges@.len() == ob.len(),
            hir.blocks@.len() == ob.len(),
            g == cfg(ob),
            hir.entry == old(hir).entry,
            ob == old(hir).blocks@,
            forall|p: int| 0 <= p < ob.len() ==> (#[trigger] edges@[p]).0 == g[p].0 && edges@[p].1@ == g[p].1,
            forall|b: BlockId| (#[trigger] index@.contains_key(b.0) ==> last_index(g, b) == Some(index@[b.0] as int)),
            forall|b: BlockId| (!(#[trigger] index@.contains_key(b.0)) ==> last_index(g, b) is None),
            forall|p: int| 0 <= p < ob.len() ==> {
                let n = #[trigger] hir.blocks@[p];
                &&& n.0 == ob[p].0
                &&& n.1.kind == ob[p].1.kind
                &&& n.1.id == ob[p].1.id
                &&& n.1.instructions == ob[p].1.instructions
                &&& n.1.terminal == ob[p].1.terminal
                &&& n.1.phis == ob[p].1.phis
                &&& n.1.preds@ == preds_from(g, g.take(k as int), p)
            },
        decreases edges.len() - k,
    {
        let pred_id = edges[k].0;
        let ghost succs = g[k as int].1;
        let ghost before = hir.blocks@;
        let mut j: usize = 0;
        while j < edges[k].1.len()
            invariant
                j <= succs.len(),
                k < edges@.len(),
                hir.entry == old(hir).entry,
                edges@.len() == ob.len(),
                hir.blocks@.len() == ob.len(),
                g == cfg(ob),
                succs == g[k as int].1,
                edges@[k as int].1@ == succs,
                pred_id == g[k as int].0,
                forall|b: BlockId| (#[trigger] index@.contains_key(b.0) ==> last_index(g, b) == Some(index@[b.0] as int)),
                forall|b: BlockId| (!(#[trigger] index@.contains_key(b.0)) ==> last_index(g, b) is None),
                forall|p: int| 0 <= p < ob.len() ==> {
                    let n = #[trigger] hir.blocks@[p];
                    &&& n.0 == ob[p].0
                    &&& n.1.kind == ob[p].1.kind
                    &&& n.1.id == ob[p].1.id
                    &&& n.1.instructions == ob[p].1.instructions
                    &&& n.1.terminal == ob[p].1.terminal
                    &&& n.1.phis == ob[p].1.phis
                    &&& n.1.preds@ == add_edges(preds_from(g, g.take(k as int), p), pred_id, succs.take(j as int), g, p)
                },
            decreases succs.len() - j,
        {
            let succ_id = edges[k].1[j];
            proof {
                assert(succs.take(j + 1).drop_last() =~= succs.take(j as int));
                assert(succs.take(j + 1).last() == succ_id);
                assert(BlockId(succ_id.0) == succ_id);
            }
            match fx_map_get(&index, succ_id.0) {
                Some(idx) => {
                    let idx = *idx;
                    proof {
                        crate::optimization::constant_propagation::lemma_last_index_bound(g, succ_id);
                    }
                    if !contains_block_id(&hir.blocks[idx].1.preds, pred_id) {
                        hir.blocks[idx].1.preds.push(pred_id);
                    }
                },
                None => {},
            }
            j = j + 1;
        }
        proof {
            assert(succs.take(j as int) =~= succs);
            assert(g.take(k + 1).drop_last() =~= g.take(k as int));
            assert(g.take(k + 1).last() == g[k as int]);
        }
        k = k + 1;
    }
    proof {
        assert(g.take(k as int) =~= g);
    }
}

pub proof fn lemma_last_index_bound(g: Seq<(BlockId, Seq<BlockId>)>, b: BlockId)
    ensures
        last_index(g, b) matches Some(i) ==> 0 <= i < g.len(),
    decreases g.len(),
{
    if g.len() > 0 && g.last().0 != b {
        lemma_last_index_bound(g.drop_last(), b);
    }
}

/// Remove the phi operands that come from blocks that are no longer
/// predecessors.
pub fn prune_unreachable_phi_operands(hir: &mut HIR)
    ensures
        final(hir).entry == old(hir).entry,
        final(hir).blocks@.len() == old(hir).blocks@.len(),
        forall|p: int| 0 <= p < old(hir).blocks@.len() ==> {
            let n = #[trigger] final(hir).blocks@[p];
            let o = old(hir).blocks@[p];
            &&& n.0 == o.0
            &&& n.1.kind == o.1.kind
            &&& n.1.id == o.1.id
            &&& n.1.instructions == o.1.instructions
            &&& n.1.terminal == o.1.terminal
            &&& n.1.preds == o.1.preds
            &&& n.1.phis@.len() == o.1.phis@.len()
            &&& forall|q: int| 0 <= q < o.1.phis@.len() ==> {
                &&& (#[trigger] n.1.phis@[q]).place == o.1.phis@[q].place
                &&& n.1.phis@[q].operands@ == o.1.phis@[q].operands@.filter(|op: (BlockId, Place)| o.1.preds@.contains(op.0))
            }
        },
{
    let mut i: usize = 0;
    while i < hir.blocks.len()
        invariant
            i <= hir.blocks@.len(),
            hir.entry == old(hir).entry,
            hir.blocks@.len() == old(hir).blocks@.len(),
            forall|p: int| 0 <= p < i ==> {
                let n = #[trigger] hir.blocks@[p];
                let o = old(hir).blocks@[p];
                &&& n.0 == o.0
                &&& n.1.kind == o.1.kind
                &&& n.1.id == o.1.id
                &&& n.1.instructions == o.1.instructions
                &&& n.1.terminal == o.1.terminal
                &&& n.1.preds == o.1.preds
                &&& n.1.phis@.len() == o.1.phis@.len()
                &&& forall|q: int| 0 <= q < o.1.phis@.len() ==> {
                    &&& (#[trigger] n.1.phis@[q]).place == o.1.phis@[q].place
                    &&& n.1.phis@[q].operands@ == o.1.phis@[q].operands@.filter(|op: (BlockId, Place)| o.1.preds@.contains(op.0))
                }
            },
            forall|p: int| i <= p < hir.blocks@.len() ==> #[trigger] hir.blocks@[p] == old(hir).blocks@[p],
        decreases hir.blocks.len() - i,
    {
        let block = &mut hir.blocks[i].1;
        let ghost ob = *block;
        let mut preds: FxHashSet<u32> = FxHashSet::default();
        let mut k: usize = 0;
        while k < block.preds.len()
            invariant
                k <= block.preds@.len(),
                *block == ob,
                forall|x: u32| #[trigger] preds@.contains(x) <==> block.preds@.take(k as int).contains(BlockId(x)),
            decreases block.preds.len() - k,
        {
            let ghost before = preds@;
            fx_set_insert(&mut preds, block.preds[k].0);
            proof {
                assert forall|x: u32| #[trigger] preds@.contains(x) <==> block.preds@.take(k + 1).contains(BlockId(x)) by {
                    let t = block.preds@.take(k + 1);
                    if x == block.preds@[k as int].0 {
                        assert(t[k as int] == BlockId(x));
                    }
                    if before.contains(x) {
                        let j = choose|j: int| 0 <= j < k && #[trigger] block.preds@.take(k as int)[j] == BlockId(x);
                        assert(t[j] == BlockId(x));
                    }
                    if t.contains(BlockId(x)) {
                        let j = choose|j: int| 0 <= j < k + 1 && #[trigger] t[j] == BlockId(x);
                        if j < k {
                            assert(block.preds@.take(k as int)[j] == BlockId(x));
                        }
                    }
                }
            }
            k = k + 1;
        }
        proof {
            assert(block.preds@.take(k as int) =~= block.preds@);
        }
        let ghost pred = |op: (BlockId, Place)| ob.preds@.contains(op.0);
        let mut q: usize = 0;
        while q < block.phis.len()
            invariant
                q <= block.phis@.len(),
                block.phis@.len() == ob.phis@.len(),
                block.kind == ob.kind,
                block.id == ob.id,
                block.instructions == ob.instructions,
                block.terminal == ob.terminal,
                block.preds == ob.preds,
                pred == |op: (BlockId, Place)| ob.preds@.contains(op.0),
                forall|x: u32| #[trigger] preds@.contains(x) <==> ob.preds@.contains(BlockId(x)),
                forall|m: int| 0 <= m < q ==> {
                    &&& (#[trigger] block.phis@[m]).place == ob.phis@[m].place
                    &&& block.phis@[m].operands@ == ob.phis@[m].operands@.filter(pred)
                },
                forall|m: int| q <= m < ob.phis@.len() ==> #[trigger] block.phis@[m] == ob.phis@[m],
            decreases block.phis.len() - q,
        {
            let mut rest: Vec<(BlockId, Place)> = Vec::new();
            std::mem::swap(&mut block.phis[q].operands, &mut rest);
            let ghost orig = rest@;
            assert(orig == ob.phis@[q as int].operands@);
            let ghost mut t: int = 0;
            while rest.len() > 0
                invariant
                    0 <= t <= orig.len(),
                    rest@ == orig.skip(t),
                    q < block.phis@.len(),
                    block.phis@.len() == ob.phis@.len(),
                    block.kind == ob.kind,
                    block.id == ob.id,
                    block.instructions == ob.instructions,
                    block.terminal == ob.terminal,
                    block.preds == ob.preds,
                    pred == |op: (BlockId, Place)| ob.preds@.contains(op.0),
                    forall|x: u32| #[trigger] preds@.contains(x) <==> ob.preds@.contains(BlockId(x)),
                    block.phis@[q as int].place == ob.phis@[q as int].place,
                    block.phis@[q as int].operands@ == orig.take(t).filter(pred),
                    forall|m: int| 0 <= m < q ==> {
                        &&& (#[trigger] block.phis@[m]).place == ob.phis@[m].place
                        &&& block.phis@[m].operands@ == ob.phis@[m].operands@.filter(pred)
                    },
                    forall|m: int| q < m < ob.phis@.len() ==> #[trigger] block.phis@[m] == ob.phis@[m],
                decreases rest.len(),
            {
                let op = rest.remove(0);
                proof {
                    assert(orig.skip(t)[0] == orig[t]);
                    assert(orig.take(t + 1).drop_last() =~= orig.take(t));
                    assert(orig.take(t + 1).last() == orig[t]);
                    reveal_with_fuel(Seq::filter, 1);
                    assert(BlockId(op.0.0) == op.0);
                }
                if fx_set_contains(&preds, op.0.0) {
                    block.phis[q].operands.push(op);
                }
                proof {
                    assert(orig.skip(t + 1) =~= orig.skip(t).drop_first());
                    t = t + 1;
                }
            }
            proof {
                assert(orig.take(t) =~= orig);
            }
            q = q + 1;
        }
        i = i + 1;
    }
}

// ---------------------------------------------------------------------------
// Propagating constants into instructions
// ---------------------------------------------------------------------------

pub open spec fn lvalue_id(i: Instruction) -> u32 {
    i.lvalue.identifier.id.0
}

/// `r` is a result the folding functions may give for instruction `o` under
/// the constants `c`: a fold of a binary or unary expression whose operands
/// are all known constants, and `None` for every other instruction.
pub open spec fn fold_allowed<FB: Fn(BinaryOp, Primitive, Primitive) -> Option<Primitive>, FU: Fn(UnaryOp, Primitive) -> Option<Primitive>>(
    o: Instruction,
    c: Map<u32, Primitive>,
    r: Option<Primitive>,
    fb: FB,
    fu: FU,
) -> bool {
    match o.value {
        InstructionValue::BinaryExpression { op, left, right } => if c.contains_key(left.identifier.id.0) && c.contains_key(right.identifier.id.0) {
            call_ensures(fb, (op, c[left.identifier.id.0], c[right.identifier.id.0]), r)
        } else {
            r is None
        },
        InstructionValue::UnaryExpression { op, value } => if c.contains_key(value.identifier.id.0) {
            call_ensures(fu, (op, c[value.identifier.id.0]), r)
        } else {
            r is None
        },
        _ => r is None,
    }
}

/// Instruction `o` under the constants `c`, with fold result `r`: the
/// instruction after, the constants after, and whether it changed. A load
/// of a known constant becomes that constant; a folded expression becomes
/// its result, which is recorded as the constant of its lvalue.
pub open spec fn propagated(o: Instruction, c: Map<u32, Primitive>, r: Option<Primitive>) -> (Instruction, Map<u32, Primitive>, bool) {
    match o.value {
        InstructionValue::LoadLocal { place } => if c.contains_key(place.identifier.id.0) {
            (Instruction { value: InstructionValue::Primitive { value: c[place.identifier.id.0] }, ..o }, c, true)
        } else {
            (o, c, false)
        },
        InstructionValue::BinaryExpression { .. } | InstructionValue::UnaryExpression { .. } => match r {
            Some(v) => (Instruction { value: InstructionValue::Primitive { value: v }, ..o }, c.insert(lvalue_id(o), v), true),
            None => (o, c, false),
        },
        _ => (o, c, false),
    }
}

/// The instructions `q` in turn under constants `c`, with fold results
/// `rs`: the instructions after, the constants after and the number changed.
pub open spec fn propagated_all(q: Seq<Instruction>, c: Map<u32, Primitive>, rs: Seq<Option<Primitive>>) -> (Seq<Instruction>, Map<u32, Primitive>, nat)
    decreases q.len(),
{
    if q.len() == 0 {
        (Seq::empty(), c, 0)
    } else {
        let p = propagated_all(q.drop_last(), c, rs.drop_last());
        let s = propagated(q.last(), p.1, rs.last());
        (p.0.push(s.0), s.1, p.2 + if s.2 { 1nat } else { 0nat })
    }
}

/// Each fold result of `rs` is one the folding functions may give.
pub open spec fn folds_allowed<FB: Fn(BinaryOp, Primitive, Primitive) -> Option<Primitive>, FU: Fn(UnaryOp, Primitive) -> Option<Primitive>>(
    q: Seq<Instruction>,
    c: Map<u32, Primitive>,
    rs: Seq<Option<Primitive>>,
    fb: FB,
    fu: FU,
) -> bool
    decreases q.len(),
{
    if q.len() == 0 {
        rs.len() == 0
    } else {
        &&& rs.len() == q.len()
        &&& folds_allowed(q.drop_last(), c, rs.drop_last(), fb, fu)
        &&& fold_allowed(q.last(), propagated_all(q.drop_last(), c, rs.drop_last()).1, rs.last(), fb, fu)
    }
}

/// The constants before block `k`, the blocks walked in order with fold
/// results `rss`.
pub open spec fn constants_before(bs: Seq<(BlockId, BasicBlock)>, c: Map<u32, Primitive>, rss: Seq<Seq<Option<Primitive>>>, k: int) -> Map<u32, Primitive>
    decreases k,
{
    if k <= 0 {
        c
    } else {
        propagated_all(bs[k - 1].1.instructions@, constants_before(bs, c, rss, k - 1), rss[k - 1]).1
    }
}

/// The number of instructions changed in the first `k` blocks.
pub open spec fn changes_before(bs: Seq<(BlockId, BasicBlock)>, c: Map<u32, Primitive>, rss: Seq<Seq<Option<Primitive>>>, k: int) -> nat
    decreases k,
{
    if k <= 0 {
        0
    } else {
        changes_before(bs, c, rss, k - 1) + propagated_all(bs[k - 1].1.instructions@, constants_before(bs, c, rss, k - 1), rss[k - 1]).2
    }
}

/// Whether a terminal of the first `k` blocks is folded.
pub open spec fn folds_before(bs: Seq<(BlockId, BasicBlock)>, c: Map<u32, Primitive>, rss: Seq<Seq<Option<Primitive>>>, k: int) -> bool
    decreases k,
{
    if k <= 0 {
        false
    } else {
        folds_before(bs, c, rss, k - 1) || folded_terminal(bs[k - 1].1.terminal, constants_before(bs, c, rss, k)) is Some
    }
}

/// The walk over blocks `0..k` with fold results `rss`: each block's
/// instructions propagated in turn, then its terminal folded under the
/// constants known after them; everything else kept.
pub open spec fn propagation_run<FB: Fn(BinaryOp, Primitive, Primitive) -> Option<Primitive>, FU: Fn(UnaryOp, Primitive) -> Option<Primitive>>(
    n: Seq<(BlockId, BasicBlock)>,
    o: Seq<(BlockId, BasicBlock)>,
    c: Map<u32, Primitive>,
    rss: Seq<Seq<Option<Primitive>>>,
    k: int,
    fb: FB,
    fu: FU,
) -> bool {
    &&& n.len() == o.len()
    &&& rss.len() == k
    &&& forall|j: int| 0 <= j < k ==> folds_allowed(#[trigger] o[j].1.instructions@, constants_before(o, c, rss, j), rss[j], fb, fu)
    &&& forall|j: int| 0 <= j < k ==> {
        let nb = #[trigger] n[j];
        let ob = o[j];
        &&& nb.0 == ob.0
        &&& nb.1.kind == ob.1.kind
        &&& nb.1.id == ob.1.id
        &&& nb.1.preds == ob.1.preds
        &&& nb.1.phis == ob.1.phis
        &&& nb.1.instructions@ == propagated_all(ob.1.instructions@, constants_before(o, c, rss, j), rss[j]).0
        &&& nb.1.terminal == match folded_terminal(ob.1.terminal, constants_before(o, c, rss, j + 1)) {
            Some(t) => t,
            None => ob.1.terminal,
        }
    }
    &&& forall|j: int| k <= j < o.len() ==> #[trigger] n[j] == o[j]
}

fn propagate_instruction<FB: Fn(BinaryOp, Primitive, Primitive) -> Option<Primitive>, FU: Fn(UnaryOp, Primitive) -> Option<Primitive>>(
    instr: &mut Instruction,
    constants: &mut FxHashMap<u32, Primitive>,
    fold_binary: &FB,
    fold_unary: &FU,
) -> (r: (bool, Ghost<Option<Primitive>>))
    requires
        forall|op: BinaryOp, a: Primitive, b: Primitive| call_requires(*fold_binary, (op, a, b)),
        forall|op: UnaryOp, a: Primitive| call_requires(*fold_unary, (op, a)),
    ensures
        fold_allowed(*old(instr), old(constants)@, r.1@, *fold_binary, *fold_unary),
        (*final(instr), final(constants)@, r.0) == propagated(*old(instr), old(constants)@, r.1@),
{
    let ghost mut g: Option<Primitive> = None;
    let (new_value, record): (Option<Primitive>, bool) = match &instr.value {
        InstructionValue::LoadLocal { place } => match fx_map_get(constants, place.identifier.id.0) {
            Some(c) => (Some(copy_primitive(c)), false),
            None => (None, false),
        },
        InstructionValue::BinaryExpression { op, left, right } => match fx_map_get(constants, left.identifier.id.0) {
            Some(lv) => match fx_map_get(constants, right.identifier.id.0) {
                Some(rv) => {
                    let x = fold_binary(*op, copy_primitive(lv), copy_primitive(rv));
                    proof {
                        g = x;
                    }
                    (x, true)
                },
                None => (None, true),
            },
            None => (None, true),
        },
        InstructionValue::UnaryExpression { op, value } => match fx_map_get(constants, value.identifier.id.0) {
            Some(v) => {
                let x = fold_unary(*op, copy_primitive(v));
                proof {
                    g = x;
                }
                (x, true)
            },
            None => (None, true),
        },
        _ => (None, false),
    };
    match new_value {
        Some(v) => {
            if record {
                fx_map_insert(constants, instr.lvalue.identifier.id.0, copy_primitive(&v));
            }
            instr.value = InstructionValue::Primitive { value: v };
            (true, Ghost(g))
        },
        None => (false, Ghost(g)),
    }
}

/// Replace loads of known constants by the constants, fold binary and
/// unary expressions of known constants with `fold_binary` and
/// `fold_unary` (recording each result as the constant of its lvalue, so
/// later instructions see it), and after each block's instructions fold
/// its terminal if its test is a known constant. Returns the number of
/// instructions changed (saturating at `usize::MAX`) and whether a
/// terminal was folded. Every fold result is one the functions may give.
pub fn apply_propagation<FB: Fn(BinaryOp, Primitive, Primitive) -> Option<Primitive>, FU: Fn(UnaryOp, Primitive) -> Option<Primitive>>(
    hir: &mut HIR,
    constants: &mut FxHashMap<u32, Primitive>,
    fold_binary: &FB,
    fold_unary: &FU,
) -> (r: (usize, bool))
    requires
        forall|op: BinaryOp, a: Primitive, b: Primitive| call_requires(*fold_binary, (op, a, b)),
        forall|op: UnaryOp, a: Primitive| call_requires(*fold_unary, (op, a)),
    ensures
        final(hir).entry == old(hir).entry,
        exists|rss: Seq<Seq<Option<Primitive>>>| {
            &&& propagation_run(final(hir).blocks@, old(hir).blocks@, old(constants)@, rss, old(hir).blocks@.len() as int, *fold_binary, *fold_unary)
            &&& final(constants)@ == constants_before(old(hir).blocks@, old(constants)@, rss, old(hir).blocks@.len() as int)
            &&& r.0 as int == if changes_before(old(hir).blocks@, old(constants)@, rss, old(hir).blocks@.len() as int) < usize::MAX {
                changes_before(old(hir).blocks@, old(constants)@, rss, old(hir).blocks@.len() as int) as int
            } else {
                usize::MAX as int
            }
            &&& r.1 == folds_before(old(hir).blocks@, old(constants)@, rss, old(hir).blocks@.len() as int)
        },
{
    let ghost o = hir.blocks@;
    let ghost c0 = constants@;
    let ghost mut rss: Seq<Seq<Option<Primitive>>> = Seq::empty();
    let mut changed: usize = 0;
    let mut terminals_changed = false;
    let mut b: usize = 0;
    while b < hir.blocks.len()
        invariant
            b <= o.len(),
            hir.entry == old(hir).entry,
            o == old(hir).blocks@,
            c0 == old(constants)@,
            forall|op: BinaryOp, a: Primitive, x: Primitive| call_requires(*fold_binary, (op, a, x)),
            forall|op: UnaryOp, a: Primitive| call_requires(*fold_unary, (op, a)),
            propagation_run(hir.blocks@, o, c0, rss, b as int, *fold_binary, *fold_unary),
            constants@ == constants_before(o, c0, rss, b as int),
            changed as int == if changes_before(o, c0, rss, b as int) < usize::MAX {
                changes_before(o, c0, rss, b as int) as int
            } else {
                usize::MAX as int
            },
            terminals_changed == folds_before(o, c0, rss, b as int),
        decreases o.len() - b,
    {
        let ghost ob = o[b as int].1;
        let ghost q = ob.instructions@;
        let ghost cb = constants@;
        let ghost snap = hir.blocks@;
        let ghost ch0 = changes_before(o, c0, rss, b as int);
        let ghost mut rs: Seq<Option<Primitive>> = Seq::empty();
        let ghost mut cnt: nat = 0;
        let mut i: usize = 0;
        proof {
            assert(hir.blocks@[b as int] == o[b as int]);
            assert(q.take(0) =~= Seq::<Instruction>::empty());
        }
        while i < hir.blocks[b].1.instructions.len()
            invariant
                b < o.len(),
                hir.blocks@.len() == o.len(),
                q == o[b as int].1.instructions@,
                i <= q.len(),
                forall|op: BinaryOp, a: Primitive, x: Primitive| call_requires(*fold_binary, (op, a, x)),
                forall|op: UnaryOp, a: Primitive| call_requires(*fold_unary, (op, a)),
                hir.blocks@[b as int].0 == o[b as int].0,
                hir.blocks@[b as int].1.kind == o[b as int].1.kind,
                hir.blocks@[b as int].1.id == o[b as int].1.id,
                hir.blocks@[b as int].1.preds == o[b as int].1.preds,
                hir.blocks@[b as int].1.phis == o[b as int].1.phis,
                hir.blocks@[b as int].1.terminal == o[b as int].1.terminal,
                hir.blocks@[b as int].1.instructions@.len() == q.len(),
                rs.len() == i,
                folds_allowed(q.take(i as int), cb, rs, *fold_binary, *fold_unary),
                hir.blocks@[b as int].1.instructions@.take(i as int) == propagated_all(q.take(i as int), cb, rs).0,
                forall|m: int| i <= m < q.len() ==> #[trigger] hir.blocks@[b as int].1.instructions@[m] == q[m],
                constants@ == propagated_all(q.take(i as int), cb, rs).1,
                cnt == propagated_all(q.take(i as int), cb, rs).2,
                changed as int == if ch0 + cnt < usize::MAX { (ch0 + cnt) as int } else { usize::MAX as int },
                hir.entry == old(hir).entry,
                snap.len() == o.len(),
                forall|j: int| 0 <= j < o.len() && j != b ==> #[trigger] hir.blocks@[j] == snap[j],
            decreases q.len() - i,
        {
            let ghost before = hir.blocks@[b as int].1.instructions@;
            let ghost cbefore = constants@;
            let (ch, gr) = propagate_instruction(&mut hir.blocks[b].1.instructions[i], constants, fold_binary, fold_unary);
            if ch && changed < usize::MAX {
                changed = changed + 1;
            }
            proof {
                assert(q.take(i + 1).drop_last() =~= q.take(i as int));
                assert(q.take(i + 1).last() == q[i as int]);
                let rs2 = rs.push(gr@);
                assert(rs2.drop_last() =~= rs);
                assert(hir.blocks@[b as int].1.instructions@.take(i + 1) =~= before.take(i as int).push(hir.blocks@[b as int].1.instructions@[i as int]));
                cnt = cnt + if ch { 1nat } else { 0nat };
                rs = rs2;
            }
            i = i + 1;
        }
        proof {
            assert(q.take(i as int) =~= q);
            assert(hir.blocks@[b as int].1.instructions@.take(i as int) =~= hir.blocks@[b as int].1.instructions@);
        }
        let folded = try_fold_terminal(&mut hir.blocks[b].1.terminal, constants);
        if folded {
            terminals_changed = true;
        }
        proof {
            let rss2 = rss.push(rs);
            assert forall|j: int| 0 <= j <= b implies #[trigger] constants_before(o, c0, rss2, j) == constants_before(o, c0, rss, j) by {
                lemma_constants_before_push(o, c0, rss, rs, j);
            }
            lemma_constants_before_push(o, c0, rss, rs, b as int);
            assert(constants_before(o, c0, rss2, b as int) == cb);
            assert(rss2[b as int] == rs);
            assert(constants_before(o, c0, rss2, b + 1) == propagated_all(q, cb, rs).1);
            assert(constants_before(o, c0, rss2, b + 1) == constants@);
            assert(changes_before(o, c0, rss2, b + 1) == ch0 + cnt) by {
                lemma_changes_before_push(o, c0, rss, rs, b as int);
            }
            assert(folds_before(o, c0, rss2, b + 1) == terminals_changed) by {
                lemma_folds_before_push(o, c0, rss, rs, b as int);
            }
            assert(rss2[b as int] == rs);
            assert forall|j: int| 0 <= j < b + 1 implies folds_allowed(#[trigger] o[j].1.instructions@, constants_before(o, c0, rss2, j), rss2[j], *fold_binary, *fold_unary) by {
                if j < b {
                    assert(rss2[j] == rss[j]);
                }
            }
            rss = rss2;
        }
        b = b + 1;
    }
    (changed, terminals_changed)
}

proof fn lemma_constants_before_push(o: Seq<(BlockId, BasicBlock)>, c: Map<u32, Primitive>, rss: Seq<Seq<Option<Primitive>>>, rs: Seq<Option<Primitive>>, j: int)
    requires
        0 <= j <= rss.len(),
    ensures
        constants_before(o, c, rss.push(rs), j) == constants_before(o, c, rss, j),
    decreases j,
{
    if j > 0 {
        lemma_constants_before_push(o, c, rss, rs, j - 1);
        assert(rss.push(rs)[j - 1] == rss[j - 1]);
    }
}

proof fn lemma_changes_before_push(o: Seq<(BlockId, BasicBlock)>, c: Map<u32, Primitive>, rss: Seq<Seq<Option<Primitive>>>, rs: Seq<Option<Primitive>>, j: int)
    requires
        0 <= j <= rss.len(),
    ensures
        changes_before(o, c, rss.push(rs), j) == changes_before(o, c, rss, j),
    decreases j,
{
    if j > 0 {
        lemma_changes_before_push(o, c, rss, rs, j - 1);
        lemma_constants_before_push(o, c, rss, rs, j - 1);
        assert(rss.push(rs)[j - 1] == rss[j - 1]);
    }
}

proof fn lemma_folds_before_push(o: Seq<(BlockId, BasicBlock)>, c: Map<u32, Primitive>, rss: Seq<Seq<Option<Primitive>>>, rs: Seq<Option<Primitive>>, j: int)
    requires
        0 <= j <= rss.len(),
    ensures
        folds_before(o, c, rss.push(rs), j) == folds_before(o, c, rss, j),
    decreases j,
{
    if j > 0 {
        lemma_folds_before_push(o, c, rss, rs, j - 1);
        lemma_constants_before_push(o, c, rss, rs, j);
    }
}

// ---------------------------------------------------------------------------
// Rounds of propagation and cleanup
// ---------------------------------------------------------------------------

/// An entry block and the blocks of a function.
pub open spec fn state_of(h: HIR) -> (BlockId, Seq<(BlockId, BasicBlock)>) {
    (h.entry, h.blocks@)
}

/// `b` is `a` with the constants `c` propagated (`apply_propagation`):
/// `cnt` instructions changed, `folded` whether a terminal was folded.
pub open spec fn propagation_of<FB: Fn(BinaryOp, Primitive, Primitive) -> Option<Primitive>, FU: Fn(UnaryOp, Primitive) -> Option<Primitive>>(
    a: Seq<(BlockId, BasicBlock)>,
    b: Seq<(BlockId, BasicBlock)>,
    c: Map<u32, Primitive>,
    cnt: nat,
    folded: bool,
    fb: FB,
    fu: FU,
) -> bool {
    exists|rss: Seq<Seq<Option<Primitive>>>| {
        &&& #[trigger] propagation_run(b, a, c, rss, a.len() as int, fb, fu)
        &&& cnt == changes_before(a, c, rss, a.len() as int)
        &&& folded == folds_before(a, c, rss, a.len() as int)
    }
}

/// The blocks of `a` reachable from its entry, in order.
pub open spec fn reachable_part(a: (BlockId, Seq<(BlockId, BasicBlock)>)) -> Seq<(BlockId, BasicBlock)> {
    a.1.filter(|e: (BlockId, BasicBlock)| is_reachable(cfg(a.1), a.0, e.0))
}

/// `n` is `o` with every predecessor list rebuilt from the edges.
pub open spec fn preds_rebuilt(n: Seq<(BlockId, BasicBlock)>, o: Seq<(BlockId, BasicBlock)>) -> bool {
    &&& n.len() == o.len()
    &&& forall|p: int| 0 <= p < o.len() ==> {
        let x = #[trigger] n[p];
        let y = o[p];
        &&& x.0 == y.0
        &&& x.1.kind == y.1.kind
        &&& x.1.id == y.1.id
        &&& x.1.instructions == y.1.instructions
        &&& x.1.terminal == y.1.terminal
        &&& x.1.phis == y.1.phis
        &&& x.1.preds@ == rebuilt_preds(o, p)
    }
}

/// `n` is `o` with the phi operands from non-predecessors removed.
pub open spec fn phis_pruned(n: Seq<(BlockId, BasicBlock)>, o: Seq<(BlockId, BasicBlock)>) -> bool {
    &&& n.len() == o.len()
    &&& forall|p: int| 0 <= p < o.len() ==> {
        let x = #[trigger] n[p];
        let y = o[p];
        &&& x.0 == y.0
        &&& x.1.kind == y.1.kind
        &&& x.1.id == y.1.id
        &&& x.1.instructions == y.1.instructions
        &&& x.1.terminal == y.1.terminal
        &&& x.1.preds == y.1.preds
        &&& x.1.phis@.len() == y.1.phis@.len()
        &&& forall|q: int| 0 <= q < y.1.phis@.len() ==> {
            &&& (#[trigger] x.1.phis@[q]).place == y.1.phis@[q].place
            &&& x.1.phis@[q].operands@ == y.1.phis@[q].operands@.filter(|op: (BlockId, Place)| y.1.preds@.contains(op.0))
        }
    }
}

/// The cleanup of `a` up to merging: unreachable blocks removed,
/// predecessors rebuilt, unreachable phi operands pruned.
pub open spec fn cleaned(a: (BlockId, Seq<(BlockId, BasicBlock)>), x: Seq<(BlockId, BasicBlock)>) -> bool {
    exists|y: Seq<(BlockId, BasicBlock)>| preds_rebuilt(y, reachable_part(a)) && #[trigger] phis_pruned(x, y)
}

/// `b` is `a` after all merges of consecutive blocks.
pub open spec fn fully_merged(a: (BlockId, Seq<(BlockId, BasicBlock)>), b: (BlockId, Seq<(BlockId, BasicBlock)>)) -> bool {
    &&& first_candidate(b.1) is None
    &&& exists|tr: Seq<(BlockId, Seq<(BlockId, BasicBlock)>)>| #[trigger] merge_trace(tr, a, b)
}

/// A round that folds a terminal: the constants of `a` (some) propagated,
/// then the cleanup and the merging; `n` is the number of changed
/// instructions plus one.
pub open spec fn folding_round<FB: Fn(BinaryOp, Primitive, Primitive) -> Option<Primitive>, FU: Fn(UnaryOp, Primitive) -> Option<Primitive>>(
    a: (BlockId, Seq<(BlockId, BasicBlock)>),
    b: (BlockId, Seq<(BlockId, BasicBlock)>),
    n: nat,
    fb: FB,
    fu: FU,
) -> bool {
    exists|m: Seq<(BlockId, BasicBlock)>, x: Seq<(BlockId, BasicBlock)>, cnt: nat| {
        &&& known_constants(a.1).dom() != Set::<u32>::empty()
        &&& #[trigger] propagation_of(a.1, m, known_constants(a.1), cnt, true, fb, fu)
        &&& #[trigger] cleaned((a.0, m), x)
        &&& mergeable_cfg(x)
        &&& fully_merged((a.0, x), b)
        &&& n == cnt + 1
    }
}

/// The last round of a run: either the constants of `a` (some) are
/// propagated and no terminal folds, or one folds but after the cleanup a
/// `Goto` leads to no block, so merging would not end and the run stops.
pub open spec fn last_round<FB: Fn(BinaryOp, Primitive, Primitive) -> Option<Primitive>, FU: Fn(UnaryOp, Primitive) -> Option<Primitive>>(
    a: (BlockId, Seq<(BlockId, BasicBlock)>),
    b: (BlockId, Seq<(BlockId, BasicBlock)>),
    n: nat,
    fb: FB,
    fu: FU,
) -> bool {
    ||| {
        &&& known_constants(a.1).dom() != Set::<u32>::empty()
        &&& b.0 == a.0
        &&& propagation_of(a.1, b.1, known_constants(a.1), n, false, fb, fu)
    }
    ||| exists|m: Seq<(BlockId, BasicBlock)>, cnt: nat| {
        &&& known_constants(a.1).dom() != Set::<u32>::empty()
        &&& #[trigger] propagation_of(a.1, m, known_constants(a.1), cnt, true, fb, fu)
        &&& b.0 == a.0
        &&& cleaned((a.0, m), b.1)
        &&& !mergeable_cfg(b.1)
        &&& n == cnt + 1
    }
}

pub open spec fn sum_of(ns: Seq<nat>) -> nat
    decreases ns.len(),
{
    if ns.len() == 0 { 0 } else { sum_of(ns.drop_last()) + ns.last() }
}

/// The most rounds the propagation runs.
pub const MAX_ROUNDS: usize = 100;

/// `tr` is a run of the propagation from `tr[0]`, with `ns[i]` counted in
/// round `i`: folding rounds, then possibly one last round; it ends after
/// `MAX_ROUNDS` rounds, when no constant is known, or after a last round.
pub open spec fn propagation_trace<FB: Fn(BinaryOp, Primitive, Primitive) -> Option<Primitive>, FU: Fn(UnaryOp, Primitive) -> Option<Primitive>>(
    tr: Seq<(BlockId, Seq<(BlockId, BasicBlock)>)>,
    ns: Seq<nat>,
    fb: FB,
    fu: FU,
) -> bool {
    &&& tr.len() >= 1
    &&& ns.len() == tr.len() - 1
    &&& tr.len() - 1 <= MAX_ROUNDS
    &&& forall|i: int| 0 <= i < tr.len() - 2 ==> #[trigger] folding_round(tr[i], tr[i + 1], ns[i], fb, fu)
    &&& tr.len() >= 2 ==> {
        ||| folding_round(tr[tr.len() - 2], tr.last(), ns.last(), fb, fu) && (tr.len() - 1 == MAX_ROUNDS || known_constants(tr.last().1).dom() == Set::<u32>::empty())
        ||| last_round(tr[tr.len() - 2], tr.last(), ns.last(), fb, fu)
    }
    &&& tr.len() == 1 ==> known_constants(tr[0].1).dom() == Set::<u32>::empty()
}

/// Propagate known constants through the function and fold constant
/// expressions with `fold_binary` and `fold_unary`, cleaning the graph up
/// after a branch is folded, round after round until nothing folds (at
/// most `MAX_ROUNDS` rounds). A round that leaves a `Goto` to no block
/// after the cleanup ends the run before merging, which would not end on
/// such a graph. Returns the number of instructions changed, plus one per
/// round that folded a terminal (saturating at `usize::MAX`).
pub fn constant_propagation<FB: Fn(BinaryOp, Primitive, Primitive) -> Option<Primitive>, FU: Fn(UnaryOp, Primitive) -> Option<Primitive>>(
    hir: &mut HIR,
    fold_binary: &FB,
    fold_unary: &FU,
) -> (r: usize)
    requires
        forall|op: BinaryOp, a: Primitive, b: Primitive| call_requires(*fold_binary, (op, a, b)),
        forall|op: UnaryOp, a: Primitive| call_requires(*fold_unary, (op, a)),
    ensures
        exists|tr: Seq<(BlockId, Seq<(BlockId, BasicBlock)>)>, ns: Seq<nat>| {
            &&& #[trigger] propagation_trace(tr, ns, *fold_binary, *fold_unary)
            &&& tr[0] == state_of(*old(hir))
            &&& tr.last() == state_of(*final(hir))
            &&& r as int == if sum_of(ns) < usize::MAX { sum_of(ns) as int } else { usize::MAX as int }
        },
        known_constants(old(hir).blocks@).dom() == Set::<u32>::empty() ==> {
            &&& state_of(*final(hir)) == state_of(*old(hir))
            &&& r == 0
        },
{
    let ghost mut tr: Seq<(BlockId, Seq<(BlockId, BasicBlock)>)> = seq![state_of(*hir)];
    let ghost mut ns: Seq<nat> = Seq::empty();
    let mut total: usize = 0;
    let mut round: usize = 0;
    loop
        invariant_except_break
            tr.len() == round + 1,
            ns.len() == round,
            tr.last() == state_of(*hir),
            forall|i: int| 0 <= i < tr.len() - 1 ==> #[trigger] folding_round(tr[i], tr[i + 1], ns[i], *fold_binary, *fold_unary),
            total as int == if sum_of(ns) < usize::MAX { sum_of(ns) as int } else { usize::MAX as int },
        invariant
            forall|op: BinaryOp, a: Primitive, b: Primitive| call_requires(*fold_binary, (op, a, b)),
            forall|op: UnaryOp, a: Primitive| call_requires(*fold_unary, (op, a)),
            round <= MAX_ROUNDS,
            tr.len() >= 1,
            tr[0] == state_of(*old(hir)),
        ensures
            propagation_trace(tr, ns, *fold_binary, *fold_unary),
            tr[0] == state_of(*old(hir)),
            tr.last() == state_of(*hir),
            total as int == if sum_of(ns) < usize::MAX { sum_of(ns) as int } else { usize::MAX as int },
        decreases MAX_ROUNDS - round,
    {
        if round >= MAX_ROUNDS {
            proof {
                assert(tr[tr.len() - 2 + 1] == tr.last());
            }
            break;
        }
        let ghost a = state_of(*hir);
        let mut constants = collect_constants(hir);
        let keys = fx_map_keys(&constants);
        if keys.len() == 0 {
            proof {
                assert(known_constants(a.1).dom() =~= Set::<u32>::empty()) by {
                    assert(keys@.to_set() =~= Set::<u32>::empty());
                }
                if tr.len() >= 2 {
                    assert(tr[tr.len() - 2 + 1] == tr.last());
                }
            }
            break;
        }
        proof {
            assert(keys@.to_set().contains(keys@[0]));
            assert(known_constants(a.1).dom() != Set::<u32>::empty());
        }
        let ghost kc = known_constants(a.1);
        let ghost c_before = constants@;
        let (instr_changed, terminals_changed) = apply_propagation(hir, &mut constants, fold_binary, fold_unary);
        let ghost m = hir.blocks@;
        let ghost rss = choose|rss: Seq<Seq<Option<Primitive>>>| {
            &&& propagation_run(m, a.1, c_before, rss, a.1.len() as int, *fold_binary, *fold_unary)
            &&& constants@ == constants_before(a.1, c_before, rss, a.1.len() as int)
            &&& instr_changed as int == if changes_before(a.1, c_before, rss, a.1.len() as int) < usize::MAX {
                changes_before(a.1, c_before, rss, a.1.len() as int) as int
            } else {
                usize::MAX as int
            }
            &&& terminals_changed == folds_before(a.1, c_before, rss, a.1.len() as int)
        };
        let ghost cnt = changes_before(a.1, kc, rss, a.1.len() as int);
        let ghost s0 = sum_of(ns);
        proof {
            assert(c_before == kc);
            assert(propagation_of(a.1, m, kc, cnt, terminals_changed, *fold_binary, *fold_unary));
            assert(ns.push(cnt).drop_last() =~= ns);
            assert(ns.push(cnt + 1).drop_last() =~= ns);
        }
        total = if instr_changed <= usize::MAX - total { total + instr_changed } else { usize::MAX };
        if !terminals_changed {
            proof {
                let b = state_of(*hir);
                assert(last_round(a, b, cnt, *fold_binary, *fold_unary));
                tr = tr.push(b);
                ns = ns.push(cnt);
                assert(sum_of(ns) == s0 + cnt);
                assert(tr[tr.len() - 2] == a);
                assert forall|i: int| 0 <= i < tr.len() - 2 implies #[trigger] folding_round(tr[i], tr[i + 1], ns[i], *fold_binary, *fold_unary) by {
                    assert(tr[i] == tr.drop_last()[i]);
                    assert(tr[i + 1] == tr.drop_last()[i + 1]);
                    assert(ns[i] == ns.drop_last()[i]);
                }
            }
            break;
        }
        total = if total < usize::MAX { total + 1 } else { usize::MAX };
        let ghost pm = state_of(*hir);
        remove_unreachable_blocks(hir);
        let ghost y0 = hir.blocks@;
        rebuild_predecessors(hir);
        let ghost y = hir.blocks@;
        prune_unreachable_phi_operands(hir);
        let ghost x = hir.blocks@;
        proof {
            assert(y0 == reachable_part(pm));
            assert(preds_rebuilt(y, y0));
            assert(phis_pruned(x, y));
            assert(cleaned(pm, x));
        }
        if !check_cfg_for_merging(hir) {
            proof {
                let b = state_of(*hir);
                assert(last_round(a, b, cnt + 1, *fold_binary, *fold_unary));
                let tr0 = tr;
                let ns0 = ns;
                tr = tr.push(b);
                ns = ns.push(cnt + 1);
                assert(sum_of(ns) == s0 + cnt + 1);
                assert(tr[tr.len() - 2] == a);
                assert forall|i: int| 0 <= i < tr.len() - 2 implies #[trigger] folding_round(tr[i], tr[i + 1], ns[i], *fold_binary, *fold_unary) by {
                    assert(tr[i] == tr0[i]);
                    assert(tr[i + 1] == tr0[i + 1]);
                    assert(ns[i] == ns0[i]);
                }
            }
            break;
        }
        merge_consecutive_blocks(hir);
        proof {
            let b = state_of(*hir);
            assert(fully_merged((a.0, x), b));
            assert(folding_round(a, b, cnt + 1, *fold_binary, *fold_unary));
            let tr0 = tr;
            let ns0 = ns;
            tr = tr.push(b);
            ns = ns.push(cnt + 1);
            assert(sum_of(ns) == s0 + cnt + 1);
            assert forall|i: int| 0 <= i < tr.len() - 1 implies #[trigger] folding_round(tr[i], tr[i + 1], ns[i], *fold_binary, *fold_unary) by {
                if i < tr.len() - 2 {
                    assert(tr[i] == tr0[i]);
                    assert(tr[i + 1] == tr0[i + 1]);
                    assert(ns[i] == ns0[i]);
                }
            }
        }
        round = round + 1;
    }
    proof {
        if known_constants(old(hir).blocks@).dom() == Set::<u32>::empty() {
            lemma_no_constants_no_rounds(tr, ns, *fold_binary, *fold_unary);
        }
    }
    total
}

/// Where no constant is known, the propagation runs no round: the run is
/// its starting state alone, and nothing is counted.
pub proof fn lemma_no_constants_no_rounds<FB: Fn(BinaryOp, Primitive, Primitive) -> Option<Primitive>, FU: Fn(UnaryOp, Primitive) -> Option<Primitive>>(
    tr: Seq<(BlockId, Seq<(BlockId, BasicBlock)>)>,
    ns: Seq<nat>,
    fb: FB,
    fu: FU,
)
    requires
        propagation_trace(tr, ns, fb, fu),
        known_constants(tr[0].1).dom() == Set::<u32>::empty(),
    ensures
        tr.len() == 1,
        sum_of(ns) == 0,
{
    if tr.len() >= 3 {
        let i = 0int;
        assert(folding_round(tr[i], tr[i + 1], ns[i], fb, fu));
    } else if tr.len() == 2 {
        assert(tr[tr.len() - 2] == tr[0]);
    }
    assert(ns.len() == 0);
}

} // verus!
