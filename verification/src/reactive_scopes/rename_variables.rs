//! Rename scope outputs to compiler temporaries: a declaration `x` of a
//! scope that is assigned once, as the scope's last instruction, and not
//! otherwise used in it, is renamed `t<N>` (from a counter above every
//! existing temporary), the new name is used throughout the scope body, and
//! `const x = t<N>` follows the scope.

use vstd::prelude::*;
use vstd::string::StringExecFns;
use crate::text::{decimal, push_decimal};
use crate::hir::copy::copy_string;
use crate::hir::types::{
    ArrayElement, DeclarationId, Effect, Identifier, IdentifierId, Instruction, InstructionId,
    InstructionKind, InstructionValue, JsxAttribute, MutableRange, ObjectProperty,
    ObjectPropertyKey, Param, Place, ReactiveBlock, ReactiveFunction, ReactiveInstruction,
    ReactiveScope, ReactiveScopeBlock, ReactiveScopeDependency, ReactiveTerminal, ScopeDeclaration,
    SourceLocation, Type,
};
use crate::reactive_scopes::codegen::{is_ascii_digit, is_temp_name, is_temp_var_name};
use crate::reactive_scopes::promote_temporaries::{
    attributes_mapped, element_mapped, elements_mapped, key_mapped, places_mapped,
    properties_mapped, value_places_mapped,
};
use crate::reactive_scopes::reactive_tree::{
    TreeRel, block_rel, instructions_rel, instruction_rel, cases_rel, terminal_rel, opt_block_rel,
    same_terminal_fields,
};

verus! {

// ---------------------------------------------------------------------------
// Uses of a name
// ---------------------------------------------------------------------------

/// The place is named `name`.
pub open spec fn has_name(p: Place, name: Seq<char>) -> bool {
    p.identifier.name matches Some(s) && s@ == name
}

/// How many places of `q` are named `name`.
pub open spec fn count_named(q: Seq<Place>, name: Seq<char>) -> nat
    decreases q.len(),
{
    if q.len() == 0 {
        0
    } else {
        count_named(q.drop_last(), name) + if has_name(q.last(), name) { 1nat } else { 0nat }
    }
}

pub open spec fn element_read_places(q: Seq<ArrayElement>) -> Seq<Place>
    decreases q.len(),
{
    if q.len() == 0 {
        Seq::empty()
    } else {
        element_read_places(q.drop_last()) + match q.last() {
            ArrayElement::Expression(p) => seq![p],
            ArrayElement::Spread(p) => seq![p],
            ArrayElement::Hole => Seq::empty(),
        }
    }
}

pub open spec fn property_read_places(q: Seq<ObjectProperty>) -> Seq<Place>
    decreases q.len(),
{
    if q.len() == 0 {
        Seq::empty()
    } else {
        property_read_places(q.drop_last()) + seq![q.last().value] + match q.last().key {
            ObjectPropertyKey::Computed(p) => seq![p],
            _ => Seq::empty(),
        }
    }
}

pub open spec fn attribute_read_places(q: Seq<JsxAttribute>) -> Seq<Place>
    decreases q.len(),
{
    if q.len() == 0 {
        Seq::empty()
    } else {
        attribute_read_places(q.drop_last()) + seq![q.last().value]
    }
}

/// The operands an instruction value reads: every operand place except the
/// targets of stores and declarations (an update's target counts as read).
pub open spec fn read_places(v: InstructionValue) -> Seq<Place> {
    match v {
        InstructionValue::LoadLocal { place } => seq![place],
        InstructionValue::LoadContext { place } => seq![place],
        InstructionValue::StoreLocal { value, .. } => seq![value],
        InstructionValue::StoreContext { value, .. } => seq![value],
        InstructionValue::CallExpression { callee, args } => seq![callee] + args@,
        InstructionValue::NewExpression { callee, args } => seq![callee] + args@,
        InstructionValue::MethodCall { receiver, args, .. } => seq![receiver] + args@,
        InstructionValue::PropertyStore { object, value, .. } => seq![object, value],
        InstructionValue::ComputedStore { object, property, value } => seq![object, property, value],
        InstructionValue::PropertyDelete { object, .. } => seq![object],
        InstructionValue::ComputedDelete { object, property } => seq![object, property],
        InstructionValue::PropertyLoad { object, .. } => seq![object],
        InstructionValue::ComputedLoad { object, property } => seq![object, property],
        InstructionValue::BinaryExpression { left, right, .. } => seq![left, right],
        InstructionValue::UnaryExpression { value, .. } => seq![value],
        InstructionValue::Await { value } => seq![value],
        InstructionValue::GetIterator { collection } => seq![collection],
        InstructionValue::NextPropertyOf { value } => seq![value],
        InstructionValue::TypeCastExpression { value, .. } => seq![value],
        InstructionValue::StoreGlobal { value, .. } => seq![value],
        InstructionValue::PrefixUpdate { lvalue, .. } => seq![lvalue],
        InstructionValue::PostfixUpdate { lvalue, .. } => seq![lvalue],
        InstructionValue::IteratorNext { iterator, .. } => seq![iterator],
        InstructionValue::Destructure { value, .. } => seq![value],
        InstructionValue::ArrayExpression { elements } => element_read_places(elements@),
        InstructionValue::ObjectExpression { properties } => property_read_places(properties@),
        InstructionValue::JsxExpression { tag, props, children } => seq![tag] + attribute_read_places(props@) + children@,
        InstructionValue::JsxFragment { children } => children@,
        InstructionValue::TemplateLiteral { subexpressions, .. } => subexpressions@,
        InstructionValue::TaggedTemplateExpression { tag, value } => seq![tag] + value.subexpressions@,
        InstructionValue::FinishMemoize { decl, deps, .. } => seq![decl] + deps@,
        _ => Seq::empty(),
    }
}

/// An update (`++`/`--`) of `name` also writes it.
pub open spec fn update_writes(v: InstructionValue, name: Seq<char>) -> nat {
    match v {
        InstructionValue::PrefixUpdate { lvalue, .. } => if has_name(lvalue, name) { 1nat } else { 0nat },
        InstructionValue::PostfixUpdate { lvalue, .. } => if has_name(lvalue, name) { 1nat } else { 0nat },
        _ => 0nat,
    }
}

pub open spec fn is_declaration(v: InstructionValue) -> bool {
    v is DeclareLocal || v is DeclareContext
}

/// The writes, reads, and reassignment of a name in a part of the tree.
pub struct Usage {
    pub writes: nat,
    pub reads: nat,
    pub reassigned: bool,
}

pub open spec fn no_usage() -> Usage {
    Usage { writes: 0, reads: 0, reassigned: false }
}

pub open spec fn add_usage(a: Usage, b: Usage) -> Usage {
    Usage { writes: a.writes + b.writes, reads: a.reads + b.reads, reassigned: a.reassigned || b.reassigned }
}

/// The use of `name` by one instruction: a write if it assigns the name
/// (declarations excepted) or updates it, a read for each operand read, and
/// a reassignment if it is a `StoreLocal` of kind `Reassign` to the name.
pub open spec fn instruction_usage(i: Instruction, name: Seq<char>) -> Usage {
    Usage {
        writes: (if has_name(i.lvalue, name) && !is_declaration(i.value) { 1nat } else { 0nat }) + update_writes(i.value, name),
        reads: count_named(read_places(i.value), name),
        reassigned: match i.value {
            InstructionValue::StoreLocal { lvalue, type_, .. } => type_ == Some(InstructionKind::Reassign) && has_name(lvalue, name),
            _ => false,
        },
    }
}

/// The reads of `name` by a terminal's own operands: the test of an `if` or
/// a `switch` and its case tests, the returned or thrown value.
pub open spec fn terminal_reads(t: ReactiveTerminal, name: Seq<char>) -> nat {
    match t {
        ReactiveTerminal::If { test, .. } => if has_name(test, name) { 1nat } else { 0nat },
        ReactiveTerminal::Switch { test, cases, .. } => (if has_name(test, name) { 1nat } else { 0nat }) + case_test_reads(cases@, name),
        ReactiveTerminal::Return { value, .. } => if has_name(value, name) { 1nat } else { 0nat },
        ReactiveTerminal::Throw { value, .. } => if has_name(value, name) { 1nat } else { 0nat },
        _ => 0nat,
    }
}

pub open spec fn case_test_reads(q: Seq<(Option<Place>, ReactiveBlock)>, name: Seq<char>) -> nat
    decreases q.len(),
{
    if q.len() == 0 {
        0
    } else {
        case_test_reads(q.drop_last(), name) + match q.last().0 {
            Some(p) => if has_name(p, name) { 1nat } else { 0nat },
            None => 0nat,
        }
    }
}

pub open spec fn block_usage(b: ReactiveBlock, name: Seq<char>) -> Usage
    decreases b,
{
    instructions_usage(b.instructions@, name)
}

pub open spec fn instructions_usage(q: Seq<ReactiveInstruction>, name: Seq<char>) -> Usage
    decreases q,
{
    if q.len() == 0 {
        no_usage()
    } else {
        add_usage(instructions_usage(q.drop_last(), name), item_usage(q.last(), name))
    }
}

pub open spec fn item_usage(i: ReactiveInstruction, name: Seq<char>) -> Usage
    decreases i,
{
    match i {
        ReactiveInstruction::Instruction(ins) => instruction_usage(ins, name),
        ReactiveInstruction::Scope(sb) => block_usage(sb.instructions, name),
        ReactiveInstruction::Terminal(t) => add_usage(
            Usage { writes: 0, reads: terminal_reads(t, name), reassigned: false },
            terminal_blocks_usage(t, name),
        ),
    }
}

pub open spec fn cases_usage(q: Seq<(Option<Place>, ReactiveBlock)>, name: Seq<char>) -> Usage
    decreases q,
{
    if q.len() == 0 {
        no_usage()
    } else {
        add_usage(cases_usage(q.drop_last(), name), block_usage(q.last().1, name))
    }
}

/// The use of `name` inside the blocks of a terminal.
pub open spec fn terminal_blocks_usage(t: ReactiveTerminal, name: Seq<char>) -> Usage
    decreases t,
{
    match t {
        ReactiveTerminal::If { consequent, alternate, .. } => add_usage(block_usage(consequent, name), block_usage(alternate, name)),
        ReactiveTerminal::Switch { cases, .. } => cases_usage(cases@, name),
        ReactiveTerminal::For { init, test, update, body, .. } => add_usage(
            add_usage(block_usage(init, name), block_usage(test, name)),
            add_usage(
                match update {
                    Some(u) => block_usage(u, name),
                    None => no_usage(),
                },
                block_usage(body, name),
            ),
        ),
        ReactiveTerminal::ForOf { init, test, body, .. } => add_usage(add_usage(block_usage(init, name), block_usage(test, name)), block_usage(body, name)),
        ReactiveTerminal::ForIn { init, test, body, .. } => add_usage(add_usage(block_usage(init, name), block_usage(test, name)), block_usage(body, name)),
        ReactiveTerminal::While { test, body, .. } => add_usage(block_usage(test, name), block_usage(body, name)),
        ReactiveTerminal::DoWhile { body, test, .. } => add_usage(block_usage(test, name), block_usage(body, name)),
        ReactiveTerminal::Try { block, handler, .. } => add_usage(block_usage(block, name), block_usage(handler, name)),
        ReactiveTerminal::Label { block, .. } => block_usage(block, name),
        ReactiveTerminal::Logical { right, .. } => block_usage(right, name),
        _ => no_usage(),
    }
}

/// The instruction assigns `name` (a declaration does not).
pub open spec fn assigns(i: ReactiveInstruction, name: Seq<char>) -> bool {
    i matches ReactiveInstruction::Instruction(ins) && has_name(ins.lvalue, name) && !is_declaration(ins.value)
}

/// The first instruction of the body that assigns `name` is its last one.
pub open spec fn assigned_last(q: Seq<ReactiveInstruction>, name: Seq<char>) -> bool {
    &&& q.len() > 0
    &&& assigns(q.last(), name)
    &&& forall|j: int| 0 <= j < q.len() - 1 ==> !assigns(#[trigger] q[j], name)
}

/// A scope output named `name` can take a temporary's name: the body does
/// not reassign it, assigns it at most once, never reads it, and assigns it
/// as its last instruction.
pub open spec fn can_rename(name: Seq<char>, body: ReactiveBlock) -> bool {
    let u = block_usage(body, name);
    &&& !u.reassigned
    &&& u.writes <= 1
    &&& u.reads == 0
    &&& assigned_last(body.instructions@, name)
}

// ---------------------------------------------------------------------------
// Counting uses
// ---------------------------------------------------------------------------

/// `x`, capped at `u32::MAX`.
pub open spec fn sat(x: int) -> int {
    if x > u32::MAX { u32::MAX as int } else { x }
}

fn bump(c: &mut u32)
    ensures
        *final(c) == sat(*old(c) + 1),
{
    if *c < u32::MAX {
        *c = *c + 1;
    }
}

fn is_named(place: &Place, name: &String) -> (r: bool)
    ensures
        r == has_name(*place, name@),
{
    match &place.identifier.name {
        Some(s) => *s == *name,
        None => false,
    }
}

fn count_place(place: &Place, name: &String, reads: &mut u32)
    ensures
        *final(reads) == sat(*old(reads) + count_named(seq![*place], name@)),
{
    proof {
        assert(seq![*place].drop_last() =~= Seq::<Place>::empty());
        assert(seq![*place].last() == *place);
        assert(count_named(Seq::<Place>::empty(), name@) == 0);
    }
    if is_named(place, name) {
        bump(reads);
    }
}

proof fn lemma_count_named_append(a: Seq<Place>, b: Seq<Place>, name: Seq<char>)
    ensures
        count_named(a + b, name) == count_named(a, name) + count_named(b, name),
    decreases b.len(),
{
    if b.len() > 0 {
        lemma_count_named_append(a, b.drop_last(), name);
        assert((a + b).drop_last() =~= a + b.drop_last());
    } else {
        assert(a + b =~= a);
    }
}

fn count_places(places: &Vec<Place>, name: &String, reads: &mut u32)
    ensures
        *final(reads) == sat(*old(reads) + count_named(places@, name@)),
{
    let mut i: usize = 0;
    proof {
        assert(places@.take(0) =~= Seq::<Place>::empty());
    }
    while i < places.len()
        invariant
            i <= places@.len(),
            *reads == sat(*old(reads) + count_named(places@.take(i as int), name@)),
        decreases places.len() - i,
    {
        count_place(&places[i], name, reads);
        proof {
            assert(places@.take(i + 1) =~= places@.take(i as int) + seq![places@[i as int]]);
            lemma_count_named_append(places@.take(i as int), seq![places@[i as int]], name@);
        }
        i = i + 1;
    }
    proof {
        assert(places@.take(i as int) =~= places@);
    }
}

proof fn lemma_count_two(a: Place, b: Place, name: Seq<char>)
    ensures
        count_named(seq![a, b], name) == count_named(seq![a], name) + count_named(seq![b], name),
{
    assert(seq![a, b] =~= seq![a] + seq![b]);
    lemma_count_named_append(seq![a], seq![b], name);
}

proof fn lemma_count_three(a: Place, b: Place, c: Place, name: Seq<char>)
    ensures
        count_named(seq![a, b, c], name) == count_named(seq![a], name) + count_named(seq![b], name) + count_named(seq![c], name),
{
    assert(seq![a, b, c] =~= seq![a, b] + seq![c]);
    lemma_count_named_append(seq![a, b], seq![c], name);
    lemma_count_two(a, b, name);
}

fn count_elements(elements: &Vec<ArrayElement>, name: &String, reads: &mut u32)
    ensures
        *final(reads) == sat(*old(reads) + count_named(element_read_places(elements@), name@)),
{
    let mut i: usize = 0;
    proof {
        assert(elements@.take(0) =~= Seq::<ArrayElement>::empty());
    }
    while i < elements.len()
        invariant
            i <= elements@.len(),
            *reads == sat(*old(reads) + count_named(element_read_places(elements@.take(i as int)), name@)),
        decreases elements.len() - i,
    {
        let ghost before = element_read_places(elements@.take(i as int));
        proof {
            assert(elements@.take(i + 1).drop_last() =~= elements@.take(i as int));
        }
        match &elements[i] {
            ArrayElement::Expression(p) => {
                count_place(p, name, reads);
                proof {
                    lemma_count_named_append(before, seq![*p], name@);
                }
            },
            ArrayElement::Spread(p) => {
                count_place(p, name, reads);
                proof {
                    lemma_count_named_append(before, seq![*p], name@);
                }
            },
            ArrayElement::Hole => {
                proof {
                    assert(before + Seq::<Place>::empty() =~= before);
                }
            },
        }
        i = i + 1;
    }
    proof {
        assert(elements@.take(i as int) =~= elements@);
    }
}

fn count_properties(properties: &Vec<ObjectProperty>, name: &String, reads: &mut u32)
    ensures
        *final(reads) == sat(*old(reads) + count_named(property_read_places(properties@), name@)),
{
    let mut i: usize = 0;
    proof {
        assert(properties@.take(0) =~= Seq::<ObjectProperty>::empty());
    }
    while i < properties.len()
        invariant
            i <= properties@.len(),
            *reads == sat(*old(reads) + count_named(property_read_places(properties@.take(i as int)), name@)),
        decreases properties.len() - i,
    {
        let ghost before = property_read_places(properties@.take(i as int));
        let prop = &properties[i];
        proof {
            assert(properties@.take(i + 1).drop_last() =~= properties@.take(i as int));
            lemma_count_named_append(before, seq![prop.value], name@);
        }
        count_place(&prop.value, name, reads);
        match &prop.key {
            ObjectPropertyKey::Computed(k) => {
                count_place(k, name, reads);
                proof {
                    lemma_count_named_append(before + seq![prop.value], seq![*k], name@);
                }
            },
            _ => {
                proof {
                    assert(before + seq![prop.value] + Seq::<Place>::empty() =~= before + seq![prop.value]);
                }
            },
        }
        i = i + 1;
    }
    proof {
        assert(properties@.take(i as int) =~= properties@);
    }
}

fn count_attributes(attributes: &Vec<JsxAttribute>, name: &String, reads: &mut u32)
    ensures
        *final(reads) == sat(*old(reads) + count_named(attribute_read_places(attributes@), name@)),
{
    let mut i: usize = 0;
    proof {
        assert(attributes@.take(0) =~= Seq::<JsxAttribute>::empty());
    }
    while i < attributes.len()
        invariant
            i <= attributes@.len(),
            *reads == sat(*old(reads) + count_named(attribute_read_places(attributes@.take(i as int)), name@)),
        decreases attributes.len() - i,
    {
        let ghost before = attribute_read_places(attributes@.take(i as int));
        proof {
            assert(attributes@.take(i + 1).drop_last() =~= attributes@.take(i as int));
            lemma_count_named_append(before, seq![attributes@[i as int].value], name@);
        }
        count_place(&attributes[i].value, name, reads);
        i = i + 1;
    }
    proof {
        assert(attributes@.take(i as int) =~= attributes@);
    }
}

/// Count the reads of `name` by the operands of an instruction value, and
/// the writes of an update of it.
fn count_reads_in_value(value: &InstructionValue, name: &String, lvalue_count: &mut u32, read_count: &mut u32)
    ensures
        *final(read_count) == sat(*old(read_count) + count_named(read_places(*value), name@)),
        *final(lvalue_count) == sat(*old(lvalue_count) + update_writes(*value, name@)),
{
    match value {
        InstructionValue::LoadLocal { place } => count_place(place, name, read_count),
        InstructionValue::LoadContext { place } => count_place(place, name, read_count),
        InstructionValue::StoreLocal { value, .. } => count_place(value, name, read_count),
        InstructionValue::StoreContext { value, .. } => count_place(value, name, read_count),
        InstructionValue::DeclareLocal { .. } => {},
        InstructionValue::DeclareContext { .. } => {},
        InstructionValue::CallExpression { callee, args } => {
            count_place(callee, name, read_count);
            count_places(args, name, read_count);
            proof {
                lemma_count_named_append(seq![*callee], args@, name@);
            }
        },
        InstructionValue::NewExpression { callee, args } => {
            count_place(callee, name, read_count);
            count_places(args, name, read_count);
            proof {
                lemma_count_named_append(seq![*callee], args@, name@);
            }
        },
        InstructionValue::MethodCall { receiver, args, .. } => {
            count_place(receiver, name, read_count);
            count_places(args, name, read_count);
            proof {
                lemma_count_named_append(seq![*receiver], args@, name@);
            }
        },
        InstructionValue::PropertyStore { object, value, .. } => {
            count_place(object, name, read_count);
            count_place(value, name, read_count);
            proof {
                lemma_count_two(*object, *value, name@);
            }
        },
        InstructionValue::ComputedStore { object, property, value } => {
            count_place(object, name, read_count);
            count_place(property, name, read_count);
            count_place(value, name, read_count);
            proof {
                lemma_count_three(*object, *property, *value, name@);
            }
        },
        InstructionValue::PropertyDelete { object, .. } => count_place(object, name, read_count),
        InstructionValue::ComputedDelete { object, property } => {
            count_place(object, name, read_count);
            count_place(property, name, read_count);
            proof {
                lemma_count_two(*object, *property, name@);
            }
        },
        InstructionValue::PropertyLoad { object, .. } => count_place(object, name, read_count),
        InstructionValue::ComputedLoad { object, property } => {
            count_place(object, name, read_count);
            count_place(property, name, read_count);
            proof {
                lemma_count_two(*object, *property, name@);
            }
        },
        InstructionValue::BinaryExpression { left, right, .. } => {
            count_place(left, name, read_count);
            count_place(right, name, read_count);
            proof {
                lemma_count_two(*left, *right, name@);
            }
        },
        InstructionValue::UnaryExpression { value, .. } => count_place(value, name, read_count),
        InstructionValue::Await { value } => count_place(value, name, read_count),
        InstructionValue::GetIterator { collection } => count_place(collection, name, read_count),
        InstructionValue::NextPropertyOf { value } => count_place(value, name, read_count),
        InstructionValue::TypeCastExpression { value, .. } => count_place(value, name, read_count),
        InstructionValue::StoreGlobal { value, .. } => count_place(value, name, read_count),
        InstructionValue::PrefixUpdate { lvalue, .. } => {
            if is_named(lvalue, name) {
                bump(lvalue_count);
            }
            count_place(lvalue, name, read_count);
        },
        InstructionValue::PostfixUpdate { lvalue, .. } => {
            if is_named(lvalue, name) {
                bump(lvalue_count);
            }
            count_place(lvalue, name, read_count);
        },
        InstructionValue::IteratorNext { iterator, .. } => count_place(iterator, name, read_count),
        InstructionValue::Destructure { value, .. } => count_place(value, name, read_count),
        InstructionValue::ArrayExpression { elements } => count_elements(elements, name, read_count),
        InstructionValue::ObjectExpression { properties } => count_properties(properties, name, read_count),
        InstructionValue::JsxExpression { tag, props, children } => {
            count_place(tag, name, read_count);
            count_attributes(props, name, read_count);
            count_places(children, name, read_count);
            proof {
                lemma_count_named_append(seq![*tag], attribute_read_places(props@), name@);
                lemma_count_named_append(seq![*tag] + attribute_read_places(props@), children@, name@);
            }
        },
        InstructionValue::JsxFragment { children } => count_places(children, name, read_count),
        InstructionValue::TemplateLiteral { subexpressions, .. } => count_places(subexpressions, name, read_count),
        InstructionValue::TaggedTemplateExpression { tag, value } => {
            count_place(tag, name, read_count);
            count_places(&value.subexpressions, name, read_count);
            proof {
                lemma_count_named_append(seq![*tag], value.subexpressions@, name@);
            }
        },
        InstructionValue::FinishMemoize { decl, deps, .. } => {
            count_place(decl, name, read_count);
            count_places(deps, name, read_count);
            proof {
                lemma_count_named_append(seq![*decl], deps@, name@);
            }
        },
        _ => {
            proof {
                assert(count_named(Seq::<Place>::empty(), name@) == 0);
            }
        },
    }
}

proof fn lemma_count_one(p: Place, name: Seq<char>)
    ensures
        count_named(seq![p], name) == if has_name(p, name) { 1nat } else { 0nat },
{
    assert(seq![p].drop_last() =~= Seq::<Place>::empty());
    assert(seq![p].last() == p);
    assert(count_named(Seq::<Place>::empty(), name) == 0);
}

proof fn lemma_sat(a: int, b: int)
    requires
        a >= 0,
        b >= 0,
    ensures
        sat(sat(a) + b) == sat(a + b),
{
}

/// Count the reads of `name` by a terminal's own operands.
fn count_reads_in_terminal(terminal: &ReactiveTerminal, name: &String, read_count: &mut u32)
    ensures
        *final(read_count) == sat(*old(read_count) + terminal_reads(*terminal, name@)),
{
    match terminal {
        ReactiveTerminal::If { test, .. } => {
            proof {
                lemma_count_one(*test, name@);
            }
            count_place(test, name, read_count);
        },
        ReactiveTerminal::Switch { test, cases, .. } => {
            proof {
                lemma_count_one(*test, name@);
            }
            count_place(test, name, read_count);
            let ghost r1 = *read_count;
            let mut i: usize = 0;
            proof {
                assert(cases@.take(0) =~= Seq::<(Option<Place>, ReactiveBlock)>::empty());
            }
            while i < cases.len()
                invariant
                    i <= cases@.len(),
                    r1 <= u32::MAX,
                    *read_count == sat(r1 + case_test_reads(cases@.take(i as int), name@)),
                decreases cases.len() - i,
            {
                proof {
                    assert(cases@.take(i + 1).drop_last() =~= cases@.take(i as int));
                }
                if let Some(tv) = &cases[i].0 {
                    proof {
                        lemma_count_one(*tv, name@);
                    }
                    count_place(tv, name, read_count);
                }
                i = i + 1;
            }
            proof {
                assert(cases@.take(i as int) =~= cases@);
            }
        },
        ReactiveTerminal::Return { value, .. } => {
            proof {
                lemma_count_one(*value, name@);
            }
            count_place(value, name, read_count);
        },
        ReactiveTerminal::Throw { value, .. } => {
            proof {
                lemma_count_one(*value, name@);
            }
            count_place(value, name, read_count);
        },
        _ => {},
    }
}

/// Accumulate the use of `name` in a block: writes, reads, reassignment.
fn check_rename_eligibility(block: &ReactiveBlock, name: &String, lvalue_count: &mut u32, read_count: &mut u32, is_reassign: &mut bool)
    ensures
        *final(lvalue_count) == sat(*old(lvalue_count) + block_usage(*block, name@).writes),
        *final(read_count) == sat(*old(read_count) + block_usage(*block, name@).reads),
        *final(is_reassign) == (*old(is_reassign) || block_usage(*block, name@).reassigned),
    decreases *block,
{
    let ghost q = block.instructions@;
    let mut i: usize = 0;
    proof {
        assert(q.take(0) =~= Seq::<ReactiveInstruction>::empty());
    }
    while i < block.instructions.len()
        invariant
            i <= q.len(),
            q == block.instructions@,
            *lvalue_count == sat(*old(lvalue_count) + instructions_usage(q.take(i as int), name@).writes),
            *read_count == sat(*old(read_count) + instructions_usage(q.take(i as int), name@).reads),
            *is_reassign == (*old(is_reassign) || instructions_usage(q.take(i as int), name@).reassigned),
        decreases block.instructions.len() - i,
    {
        proof {
            assert(q.take(i + 1).drop_last() =~= q.take(i as int));
            assert(q.take(i + 1).last() == q[i as int]);
            assert(decreases_to!(*block => block.instructions));
            assert(decreases_to!(block.instructions => q));
            assert(decreases_to!(q => q[i as int]));
        }
        let ghost u0 = instructions_usage(q.take(i as int), name@);
        match &block.instructions[i] {
            ReactiveInstruction::Instruction(ins) => {
                let declares = match &ins.value {
                    InstructionValue::DeclareLocal { .. } => true,
                    InstructionValue::DeclareContext { .. } => true,
                    _ => false,
                };
                if is_named(&ins.lvalue, name) && !declares {
                    bump(lvalue_count);
                }
                if let InstructionValue::StoreLocal { lvalue, type_: Some(InstructionKind::Reassign), .. } = &ins.value {
                    if is_named(lvalue, name) {
                        *is_reassign = true;
                    }
                }
                count_reads_in_value(&ins.value, name, lvalue_count, read_count);
            },
            ReactiveInstruction::Scope(sb) => {
                proof {
                    assert(decreases_to!(q[i as int] => sb.instructions));
                }
                check_rename_eligibility(&sb.instructions, name, lvalue_count, read_count, is_reassign);
            },
            ReactiveInstruction::Terminal(t) => {
                proof {
                    assert(decreases_to!(q[i as int] => *t));
                }
                count_reads_in_terminal(t, name, read_count);
                check_eligibility_in_terminal(t, name, lvalue_count, read_count, is_reassign);
            },
        }
        proof {
            let it = item_usage(q[i as int], name@);
            assert(instructions_usage(q.take(i + 1), name@) == add_usage(u0, it));
            lemma_sat(*old(lvalue_count) + u0.writes, it.writes as int);
            lemma_sat(*old(read_count) + u0.reads, it.reads as int);
        }
        i = i + 1;
    }
    proof {
        assert(q.take(i as int) =~= q);
    }
}

/// Accumulate the use of `name` in the blocks of a terminal.
fn check_eligibility_in_terminal(terminal: &ReactiveTerminal, name: &String, lvalue_count: &mut u32, read_count: &mut u32, is_reassign: &mut bool)
    ensures
        *final(lvalue_count) == sat(*old(lvalue_count) + terminal_blocks_usage(*terminal, name@).writes),
        *final(read_count) == sat(*old(read_count) + terminal_blocks_usage(*terminal, name@).reads),
        *final(is_reassign) == (*old(is_reassign) || terminal_blocks_usage(*terminal, name@).reassigned),
    decreases *terminal,
{
    match terminal {
        ReactiveTerminal::If { consequent, alternate, .. } => {
            check_rename_eligibility(consequent, name, lvalue_count, read_count, is_reassign);
            check_rename_eligibility(alternate, name, lvalue_count, read_count, is_reassign);
        },
        ReactiveTerminal::Switch { cases, .. } => {
            let ghost q = cases@;
            let ghost (l0, r0, a0) = (*lvalue_count, *read_count, *is_reassign);
            let mut i: usize = 0;
            proof {
                assert(q.take(0) =~= Seq::<(Option<Place>, ReactiveBlock)>::empty());
            }
            while i < cases.len()
                invariant
                    i <= q.len(),
                    q == cases@,
                    *terminal is Switch,
                    q == (*terminal)->Switch_cases@,
                    l0 <= u32::MAX,
                    r0 <= u32::MAX,
                    *lvalue_count == sat(l0 + cases_usage(q.take(i as int), name@).writes),
                    *read_count == sat(r0 + cases_usage(q.take(i as int), name@).reads),
                    *is_reassign == (a0 || cases_usage(q.take(i as int), name@).reassigned),
                decreases cases.len() - i,
            {
                proof {
                    assert(q.take(i + 1).drop_last() =~= q.take(i as int));
                    assert(q.take(i + 1).last() == q[i as int]);
                    assert(decreases_to!(*terminal => (*terminal)->Switch_cases));
                    assert(decreases_to!((*terminal)->Switch_cases => q));
                    assert(decreases_to!(q => q[i as int]));
                }
                check_rename_eligibility(&cases[i].1, name, lvalue_count, read_count, is_reassign);
                i = i + 1;
            }
            proof {
                assert(q.take(i as int) =~= q);
            }
        },
        ReactiveTerminal::For { init, test, update, body, .. } => {
            check_rename_eligibility(init, name, lvalue_count, read_count, is_reassign);
            check_rename_eligibility(test, name, lvalue_count, read_count, is_reassign);
            if let Some(u) = update {
                check_rename_eligibility(u, name, lvalue_count, read_count, is_reassign);
            }
            check_rename_eligibility(body, name, lvalue_count, read_count, is_reassign);
        },
        ReactiveTerminal::ForOf { init, test, body, .. } => {
            check_rename_eligibility(init, name, lvalue_count, read_count, is_reassign);
            check_rename_eligibility(test, name, lvalue_count, read_count, is_reassign);
            check_rename_eligibility(body, name, lvalue_count, read_count, is_reassign);
        },
        ReactiveTerminal::ForIn { init, test, body, .. } => {
            check_rename_eligibility(init, name, lvalue_count, read_count, is_reassign);
            check_rename_eligibility(test, name, lvalue_count, read_count, is_reassign);
            check_rename_eligibility(body, name, lvalue_count, read_count, is_reassign);
        },
        ReactiveTerminal::While { test, body, .. } => {
            check_rename_eligibility(test, name, lvalue_count, read_count, is_reassign);
            check_rename_eligibility(body, name, lvalue_count, read_count, is_reassign);
        },
        ReactiveTerminal::DoWhile { body, test, .. } => {
            check_rename_eligibility(test, name, lvalue_count, read_count, is_reassign);
            check_rename_eligibility(body, name, lvalue_count, read_count, is_reassign);
        },
        ReactiveTerminal::Try { block, handler, .. } => {
            check_rename_eligibility(block, name, lvalue_count, read_count, is_reassign);
            check_rename_eligibility(handler, name, lvalue_count, read_count, is_reassign);
        },
        ReactiveTerminal::Label { block, .. } => {
            check_rename_eligibility(block, name, lvalue_count, read_count, is_reassign);
        },
        ReactiveTerminal::Logical { right, .. } => {
            check_rename_eligibility(right, name, lvalue_count, read_count, is_reassign);
        },
        _ => {},
    }
}

/// Whether the first instruction of the body that assigns `name` is its
/// last one.
fn is_last_assignment_in_scope(name: &String, body: &ReactiveBlock) -> (r: bool)
    ensures
        r == assigned_last(body.instructions@, name@),
{
    let ghost q = body.instructions@;
    let mut found = false;
    let mut i: usize = 0;
    while i < body.instructions.len()
        invariant
            i <= q.len(),
            q == body.instructions@,
            found == (i > 0 && assigns(q[i - 1], name@)),
            forall|j: int| 0 <= j < i - 1 ==> !assigns(#[trigger] q[j], name@),
        decreases body.instructions.len() - i,
    {
        if found {
            return false;
        }
        if let ReactiveInstruction::Instruction(ins) = &body.instructions[i] {
            let declares = match &ins.value {
                InstructionValue::DeclareLocal { .. } => true,
                InstructionValue::DeclareContext { .. } => true,
                _ => false,
            };
            if is_named(&ins.lvalue, name) && !declares {
                found = true;
            }
        }
        i = i + 1;
    }
    found
}

/// Whether a scope output named `name` can be renamed, given the scope body.
fn can_rename_scope_decl(name: &String, body: &ReactiveBlock) -> (r: bool)
    ensures
        r == can_rename(name@, *body),
{
    let mut lvalue_count: u32 = 0;
    let mut read_count: u32 = 0;
    let mut is_reassign = false;
    check_rename_eligibility(body, name, &mut lvalue_count, &mut read_count, &mut is_reassign);
    if is_reassign || lvalue_count > 1 || read_count > 0 {
        return false;
    }
    is_last_assignment_in_scope(name, body)
}

// ---------------------------------------------------------------------------
// Applying renames
// ---------------------------------------------------------------------------

/// The text of an optional name.
pub open spec fn name_view(n: Option<String>) -> Option<Seq<char>> {
    match n {
        Some(s) => Some(s@),
        None => None,
    }
}

/// The texts of a list of renames (old name, new name).
pub open spec fn renames_view(v: Seq<(String, String)>) -> Seq<(Seq<char>, Seq<char>)> {
    v.map_values(|p: (String, String)| (p.0@, p.1@))
}

/// `name`, replaced by the new name of the first rename of it in `rs`.
pub open spec fn renamed_name(name: Option<Seq<char>>, rs: Seq<(Seq<char>, Seq<char>)>) -> Option<Seq<char>>
    decreases rs.len(),
{
    match name {
        Some(s) => if rs.len() == 0 {
            name
        } else if rs[0].0 == s {
            Some(rs[0].1)
        } else {
            renamed_name(name, rs.drop_first())
        },
        None => None,
    }
}

pub open spec fn renamed_identifier(n: Identifier, o: Identifier, rs: Seq<(Seq<char>, Seq<char>)>) -> bool {
    &&& n == Identifier { name: n.name, ..o }
    &&& name_view(n.name) == renamed_name(name_view(o.name), rs)
}

pub open spec fn renamed_place(n: Place, o: Place, rs: Seq<(Seq<char>, Seq<char>)>) -> bool {
    &&& n == Place { identifier: n.identifier, ..o }
    &&& renamed_identifier(n.identifier, o.identifier, rs)
}

pub open spec fn rename_pf(rs: Seq<(Seq<char>, Seq<char>)>) -> spec_fn(Place, Place) -> bool {
    |a: Place, b: Place| renamed_place(a, b, rs)
}

/// The scope with the identifiers of its dependencies and declarations
/// renamed.
pub open spec fn renamed_scope(ns: ReactiveScope, sb: ReactiveScopeBlock, rs: Seq<(Seq<char>, Seq<char>)>) -> bool {
    let o = sb.scope;
    &&& ns == ReactiveScope { dependencies: ns.dependencies, declarations: ns.declarations, ..o }
    &&& ns.dependencies@.len() == o.dependencies@.len()
    &&& forall|i: int| 0 <= i < o.dependencies@.len() ==> {
        let d = #[trigger] ns.dependencies@[i];
        &&& d == ReactiveScopeDependency { identifier: d.identifier, ..o.dependencies@[i] }
        &&& renamed_identifier(d.identifier, o.dependencies@[i].identifier, rs)
    }
    &&& ns.declarations@.len() == o.declarations@.len()
    &&& forall|i: int| 0 <= i < o.declarations@.len() ==> {
        let d = #[trigger] ns.declarations@[i];
        &&& d.0 == o.declarations@[i].0
        &&& renamed_identifier(d.1.identifier, o.declarations@[i].1.identifier, rs)
    }
}

/// The own places of a terminal renamed: the test of an `if` or a `switch`,
/// the returned or thrown value.
pub open spec fn renamed_terminal_fields(n: ReactiveTerminal, o: ReactiveTerminal, rs: Seq<(Seq<char>, Seq<char>)>) -> bool {
    match o {
        ReactiveTerminal::If { test, id, .. } => n matches ReactiveTerminal::If { test: t, id: i, .. } && renamed_place(t, test, rs) && i == id,
        ReactiveTerminal::Switch { test, id, .. } => n matches ReactiveTerminal::Switch { test: t, id: i, .. } && renamed_place(t, test, rs) && i == id,
        ReactiveTerminal::Return { value, id } => n matches ReactiveTerminal::Return { value: v, id: i } && renamed_place(v, value, rs) && i == id,
        ReactiveTerminal::Throw { value, id } => n matches ReactiveTerminal::Throw { value: v, id: i } && renamed_place(v, value, rs) && i == id,
        _ => same_terminal_fields(n, o),
    }
}

/// Renaming throughout a block: instruction targets and operands, scope
/// dependencies and declarations, terminal tests and values.
pub open spec fn rename_rel(rs: Seq<(Seq<char>, Seq<char>)>) -> TreeRel {
    TreeRel {
        instruction: |n: Instruction, o: Instruction| {
            &&& n.id == o.id
            &&& n.loc == o.loc
            &&& renamed_place(n.lvalue, o.lvalue, rs)
            &&& value_places_mapped(n.value, o.value, rename_pf(rs))
        },
        scope: |ns: ReactiveScope, sb: ReactiveScopeBlock| renamed_scope(ns, sb, rs),
        terminal: |n: ReactiveTerminal, o: ReactiveTerminal| renamed_terminal_fields(n, o, rs),
        case_test: |n: Option<Place>, o: Option<Place>| match o {
            Some(p) => n matches Some(q) && renamed_place(q, p, rs),
            None => n is None,
        },
    }
}

proof fn lemma_renamed_first(s: Seq<char>, rs: Seq<(Seq<char>, Seq<char>)>, j: int)
    requires
        0 <= j < rs.len(),
        rs[j].0 == s,
        forall|k: int| 0 <= k < j ==> rs[k].0 != s,
    ensures
        renamed_name(Some(s), rs) == Some(rs[j].1),
    decreases j,
{
    if j > 0 {
        lemma_renamed_first(s, rs.drop_first(), j - 1);
    }
}

proof fn lemma_renamed_none(s: Seq<char>, rs: Seq<(Seq<char>, Seq<char>)>)
    requires
        forall|k: int| 0 <= k < rs.len() ==> rs[k].0 != s,
    ensures
        renamed_name(Some(s), rs) == Some(s),
    decreases rs.len(),
{
    if rs.len() > 0 {
        lemma_renamed_none(s, rs.drop_first());
    }
}

fn apply_renames_to_identifier(identifier: &mut Identifier, renames: &Vec<(String, String)>)
    ensures
        renamed_identifier(*final(identifier), *old(identifier), renames_view(renames@)),
{
    let ghost rs = renames_view(renames@);
    let mut found: Option<usize> = None;
    if let Some(name) = &identifier.name {
        let mut j: usize = 0;
        while j < renames.len() && found.is_none()
            invariant
                j <= renames@.len(),
                rs == renames_view(renames@),
                identifier.name == Some(*name),
                match found {
                    Some(f) => f < j && rs[f as int].0 == name@ && forall|k: int| 0 <= k < f ==> rs[k].0 != name@,
                    None => forall|k: int| 0 <= k < j ==> rs[k].0 != name@,
                },
            decreases renames.len() - j,
        {
            if *name == renames[j].0 {
                found = Some(j);
            }
            j = j + 1;
        }
        proof {
            match found {
                Some(f) => lemma_renamed_first(name@, rs, f as int),
                None => lemma_renamed_none(name@, rs),
            }
        }
    }
    if let Some(f) = found {
        identifier.name = Some(copy_string(&renames[f].1));
    }
}

fn apply_renames_to_place(place: &mut Place, renames: &Vec<(String, String)>)
    ensures
        renamed_place(*final(place), *old(place), renames_view(renames@)),
{
    apply_renames_to_identifier(&mut place.identifier, renames);
}

fn apply_renames_to_places(places: &mut Vec<Place>, renames: &Vec<(String, String)>)
    ensures
        places_mapped(final(places)@, old(places)@, rename_pf(renames_view(renames@))),
{
    let ghost o = places@;
    let mut i: usize = 0;
    while i < places.len()
        invariant
            i <= places@.len(),
            places@.len() == o.len(),
            forall|k: int| 0 <= k < i ==> renamed_place(#[trigger] places@[k], o[k], renames_view(renames@)),
            forall|k: int| i <= k < o.len() ==> #[trigger] places@[k] == o[k],
        decreases places.len() - i,
    {
        apply_renames_to_place(&mut places[i], renames);
        i = i + 1;
    }
}

fn apply_renames_to_properties(properties: &mut Vec<ObjectProperty>, renames: &Vec<(String, String)>)
    ensures
        properties_mapped(final(properties)@, old(properties)@, rename_pf(renames_view(renames@))),
{
    let ghost o = properties@;
    let ghost pf = rename_pf(renames_view(renames@));
    let mut i: usize = 0;
    while i < properties.len()
        invariant
            i <= properties@.len(),
            properties@.len() == o.len(),
            pf == rename_pf(renames_view(renames@)),
            forall|k: int| 0 <= k < i ==> {
                &&& (#[trigger] properties@[k]).shorthand == o[k].shorthand
                &&& pf(properties@[k].value, o[k].value)
                &&& key_mapped(properties@[k].key, o[k].key, pf)
            },
            forall|k: int| i <= k < o.len() ==> #[trigger] properties@[k] == o[k],
        decreases properties.len() - i,
    {
        apply_renames_to_place(&mut properties[i].value, renames);
        if let ObjectPropertyKey::Computed(p) = &mut properties[i].key {
            apply_renames_to_place(p, renames);
        }
        i = i + 1;
    }
}

fn apply_renames_to_elements(elements: &mut Vec<ArrayElement>, renames: &Vec<(String, String)>)
    ensures
        elements_mapped(final(elements)@, old(elements)@, rename_pf(renames_view(renames@))),
{
    let ghost o = elements@;
    let ghost pf = rename_pf(renames_view(renames@));
    let mut i: usize = 0;
    while i < elements.len()
        invariant
            i <= elements@.len(),
            elements@.len() == o.len(),
            pf == rename_pf(renames_view(renames@)),
            forall|k: int| 0 <= k < i ==> element_mapped(#[trigger] elements@[k], o[k], pf),
            forall|k: int| i <= k < o.len() ==> #[trigger] elements@[k] == o[k],
        decreases elements.len() - i,
    {
        match &mut elements[i] {
            ArrayElement::Expression(p) => apply_renames_to_place(p, renames),
            ArrayElement::Spread(p) => apply_renames_to_place(p, renames),
            ArrayElement::Hole => {},
        }
        i = i + 1;
    }
}

fn apply_renames_to_attributes(attributes: &mut Vec<JsxAttribute>, renames: &Vec<(String, String)>)
    ensures
        attributes_mapped(final(attributes)@, old(attributes)@, rename_pf(renames_view(renames@))),
{
    let ghost o = attributes@;
    let mut i: usize = 0;
    while i < attributes.len()
        invariant
            i <= attributes@.len(),
            attributes@.len() == o.len(),
            forall|k: int| 0 <= k < i ==> (#[trigger] attributes@[k]).name == o[k].name && renamed_place(attributes@[k].value, o[k].value, renames_view(renames@)),
            forall|k: int| i <= k < o.len() ==> #[trigger] attributes@[k] == o[k],
        decreases attributes.len() - i,
    {
        apply_renames_to_place(&mut attributes[i].value, renames);
        i = i + 1;
    }
}

/// Rename the operand places of an instruction value.
fn apply_renames_to_value(value: &mut InstructionValue, renames: &Vec<(String, String)>)
    ensures
        value_places_mapped(*final(value), *old(value), rename_pf(renames_view(renames@))),
{
    match value {
        InstructionValue::LoadLocal { place } => apply_renames_to_place(place, renames),
        InstructionValue::LoadContext { place } => apply_renames_to_place(place, renames),
        InstructionValue::StoreLocal { lvalue, value, .. } => {
            apply_renames_to_place(lvalue, renames);
            apply_renames_to_place(value, renames);
        },
        InstructionValue::StoreContext { lvalue, value } => {
            apply_renames_to_place(lvalue, renames);
            apply_renames_to_place(value, renames);
        },
        InstructionValue::DeclareLocal { lvalue, .. } => apply_renames_to_place(lvalue, renames),
        InstructionValue::DeclareContext { lvalue } => apply_renames_to_place(lvalue, renames),
        InstructionValue::Destructure { value, .. } => apply_renames_to_place(value, renames),
        InstructionValue::BinaryExpression { left, right, .. } => {
            apply_renames_to_place(left, renames);
            apply_renames_to_place(right, renames);
        },
        InstructionValue::UnaryExpression { value, .. } => apply_renames_to_place(value, renames),
        InstructionValue::PrefixUpdate { lvalue, .. } => apply_renames_to_place(lvalue, renames),
        InstructionValue::PostfixUpdate { lvalue, .. } => apply_renames_to_place(lvalue, renames),
        InstructionValue::CallExpression { callee, args } => {
            apply_renames_to_place(callee, renames);
            apply_renames_to_places(args, renames);
        },
        InstructionValue::MethodCall { receiver, args, .. } => {
            apply_renames_to_place(receiver, renames);
            apply_renames_to_places(args, renames);
        },
        InstructionValue::NewExpression { callee, args } => {
            apply_renames_to_place(callee, renames);
            apply_renames_to_places(args, renames);
        },
        InstructionValue::PropertyLoad { object, .. } => apply_renames_to_place(object, renames),
        InstructionValue::PropertyStore { object, value, .. } => {
            apply_renames_to_place(object, renames);
            apply_renames_to_place(value, renames);
        },
        InstructionValue::ComputedLoad { object, property } => {
            apply_renames_to_place(object, renames);
            apply_renames_to_place(property, renames);
        },
        InstructionValue::ComputedStore { object, property, value } => {
            apply_renames_to_place(object, renames);
            apply_renames_to_place(property, renames);
            apply_renames_to_place(value, renames);
        },
        InstructionValue::PropertyDelete { object, .. } => apply_renames_to_place(object, renames),
        InstructionValue::ComputedDelete { object, property } => {
            apply_renames_to_place(object, renames);
            apply_renames_to_place(property, renames);
        },
        InstructionValue::ObjectExpression { properties } => apply_renames_to_properties(properties, renames),
        InstructionValue::ArrayExpression { elements } => apply_renames_to_elements(elements, renames),
        InstructionValue::JsxExpression { tag, props, children } => {
            apply_renames_to_place(tag, renames);
            apply_renames_to_attributes(props, renames);
            apply_renames_to_places(children, renames);
        },
        InstructionValue::JsxFragment { children } => apply_renames_to_places(children, renames),
        InstructionValue::TemplateLiteral { subexpressions, .. } => apply_renames_to_places(subexpressions, renames),
        InstructionValue::TaggedTemplateExpression { tag, value } => {
            apply_renames_to_place(tag, renames);
            apply_renames_to_places(&mut value.subexpressions, renames);
        },
        InstructionValue::StoreGlobal { value, .. } => apply_renames_to_place(value, renames),
        InstructionValue::Await { value } => apply_renames_to_place(value, renames),
        InstructionValue::GetIterator { collection } => apply_renames_to_place(collection, renames),
        InstructionValue::IteratorNext { iterator, .. } => apply_renames_to_place(iterator, renames),
        InstructionValue::NextPropertyOf { value } => apply_renames_to_place(value, renames),
        InstructionValue::TypeCastExpression { value, .. } => apply_renames_to_place(value, renames),
        InstructionValue::FinishMemoize { decl, deps, .. } => {
            apply_renames_to_place(decl, renames);
            apply_renames_to_places(deps, renames);
        },
        _ => {},
    }
}



fn apply_renames_to_scope(scope: &mut ReactiveScope, renames: &Vec<(String, String)>)
    ensures
        forall|b: ReactiveBlock| renamed_scope(*final(scope), ReactiveScopeBlock { scope: *old(scope), instructions: b }, renames_view(renames@)),
{
    let ghost o = *scope;
    let mut i: usize = 0;
    while i < scope.dependencies.len()
        invariant
            i <= scope.dependencies@.len(),
            scope.dependencies@.len() == o.dependencies@.len(),
            *scope == (ReactiveScope { dependencies: scope.dependencies, ..o }),
            forall|k: int| 0 <= k < i ==> {
                let d = #[trigger] scope.dependencies@[k];
                &&& d == ReactiveScopeDependency { identifier: d.identifier, ..o.dependencies@[k] }
                &&& renamed_identifier(d.identifier, o.dependencies@[k].identifier, renames_view(renames@))
            },
            forall|k: int| i <= k < o.dependencies@.len() ==> #[trigger] scope.dependencies@[k] == o.dependencies@[k],
        decreases scope.dependencies.len() - i,
    {
        apply_renames_to_identifier(&mut scope.dependencies[i].identifier, renames);
        i = i + 1;
    }
    let ghost mid = *scope;
    let mut j: usize = 0;
    while j < scope.declarations.len()
        invariant
            j <= scope.declarations@.len(),
            scope.declarations@.len() == o.declarations@.len(),
            *scope == (ReactiveScope { declarations: scope.declarations, ..mid }),
            forall|k: int| 0 <= k < j ==> {
                let d = #[trigger] scope.declarations@[k];
                &&& d.0 == o.declarations@[k].0
                &&& renamed_identifier(d.1.identifier, o.declarations@[k].1.identifier, renames_view(renames@))
            },
            forall|k: int| j <= k < o.declarations@.len() ==> #[trigger] scope.declarations@[k] == o.declarations@[k],
        decreases scope.declarations.len() - j,
    {
        apply_renames_to_identifier(&mut scope.declarations[j].1.identifier, renames);
        j = j + 1;
    }
}

/// Rename the places a terminal holds itself (not those of its blocks).
fn apply_renames_to_terminal(terminal: &mut ReactiveTerminal, renames: &Vec<(String, String)>)
    ensures
        renamed_terminal_fields(*final(terminal), *old(terminal), renames_view(renames@)),
        renamed_children(*final(terminal), *old(terminal), renames_view(renames@)),
{
    match terminal {
        ReactiveTerminal::If { test, .. } => apply_renames_to_place(test, renames),
        ReactiveTerminal::Switch { test, cases, .. } => {
            apply_renames_to_place(test, renames);
            let ghost oc = cases@;
            let mut i: usize = 0;
            while i < cases.len()
                invariant
                    i <= cases@.len(),
                    cases@.len() == oc.len(),
                    forall|k: int| 0 <= k < i ==> {
                        &&& (#[trigger] cases@[k]).1 == oc[k].1
                        &&& match oc[k].0 {
                            Some(p) => cases@[k].0 matches Some(q) && renamed_place(q, p, renames_view(renames@)),
                            None => cases@[k].0 is None,
                        }
                    },
                    forall|k: int| i <= k < oc.len() ==> #[trigger] cases@[k] == oc[k],
                decreases cases.len() - i,
            {
                if let Some(tv) = &mut cases[i].0 {
                    apply_renames_to_place(tv, renames);
                }
                i = i + 1;
            }
        },
        ReactiveTerminal::Return { value, .. } => apply_renames_to_place(value, renames),
        ReactiveTerminal::Throw { value, .. } => apply_renames_to_place(value, renames),
        _ => {},
    }
}

/// The two terminals have the same child blocks; switch cases keep their
/// blocks and have their tests renamed.
pub open spec fn renamed_children(n: ReactiveTerminal, o: ReactiveTerminal, rs: Seq<(Seq<char>, Seq<char>)>) -> bool {
    match o {
        ReactiveTerminal::If { consequent, alternate, .. } => n matches ReactiveTerminal::If { consequent: c, alternate: a, .. } && c == consequent && a == alternate,
        ReactiveTerminal::Switch { cases, .. } => n matches ReactiveTerminal::Switch { cases: nc, .. } && nc@.len() == cases@.len() && forall|k: int| 0 <= k < cases@.len() ==> {
            &&& (#[trigger] nc@[k]).1 == cases@[k].1
            &&& match cases@[k].0 {
                Some(p) => nc@[k].0 matches Some(q) && renamed_place(q, p, rs),
                None => nc@[k].0 is None,
            }
        },
        ReactiveTerminal::For { init, test, update, body, .. } => n matches ReactiveTerminal::For { init: a, test: b, update: c, body: d, .. } && a == init && b == test && c == update && d == body,
        ReactiveTerminal::ForOf { init, test, body, .. } => n matches ReactiveTerminal::ForOf { init: a, test: b, body: d, .. } && a == init && b == test && d == body,
        ReactiveTerminal::ForIn { init, test, body, .. } => n matches ReactiveTerminal::ForIn { init: a, test: b, body: d, .. } && a == init && b == test && d == body,
        ReactiveTerminal::While { test, body, .. } => n matches ReactiveTerminal::While { test: b, body: d, .. } && b == test && d == body,
        ReactiveTerminal::DoWhile { body, test, .. } => n matches ReactiveTerminal::DoWhile { body: d, test: b, .. } && b == test && d == body,
        ReactiveTerminal::Try { block, handler, .. } => n matches ReactiveTerminal::Try { block: a, handler: b, .. } && a == block && b == handler,
        ReactiveTerminal::Label { block, .. } => n matches ReactiveTerminal::Label { block: a, .. } && a == block,
        ReactiveTerminal::Logical { right, .. } => n matches ReactiveTerminal::Logical { right: a, .. } && a == right,
        _ => true,
    }
}

fn apply_renames_in_block(block: &mut ReactiveBlock, renames: &Vec<(String, String)>)
    ensures
        block_rel(*final(block), *old(block), rename_rel(renames_view(renames@))),
    decreases *old(block),
{
    let ghost f = rename_rel(renames_view(renames@));
    let ghost o = old(block).instructions@;
    let mut i: usize = 0;
    while i < block.instructions.len()
        invariant
            i <= block.instructions@.len(),
            block.instructions@.len() == o.len(),
            o == old(block).instructions@,
            f == rename_rel(renames_view(renames@)),
            instructions_rel(block.instructions@.take(i as int), o.take(i as int), f),
            forall|k: int| i <= k < o.len() ==> #[trigger] block.instructions@[k] == o[k],
        decreases block.instructions.len() - i,
    {
        let ghost oi = o[i as int];
        let ghost prev = block.instructions@;
        proof {
            assert(decreases_to!(*old(block) => old(block).instructions));
            assert(decreases_to!(old(block).instructions => o));
            assert(decreases_to!(o => o[i as int]));
        }
        match &mut block.instructions[i] {
            ReactiveInstruction::Instruction(instruction) => {
                let ghost oinst = *instruction;
                apply_renames_to_place(&mut instruction.lvalue, renames);
                apply_renames_to_value(&mut instruction.value, renames);
                proof {
                    assert((f.instruction)(*instruction, oinst));
                }
            },
            ReactiveInstruction::Scope(scope_block) => {
                let ghost osb = *scope_block;
                proof {
                    assert(decreases_to!(oi => osb.instructions));
                }
                apply_renames_to_scope(&mut scope_block.scope, renames);
                proof {
                    assert(renamed_scope(scope_block.scope, osb, renames_view(renames@)));
                }
                apply_renames_in_block(&mut scope_block.instructions, renames);
                proof {
                    assert((f.scope)(scope_block.scope, osb));
                }
            },
            ReactiveInstruction::Terminal(terminal) => {
                let ghost ot = *terminal;
                proof {
                    assert(decreases_to!(oi => ot));
                }
                apply_renames_to_terminal(terminal, renames);
                apply_renames_in_terminal_blocks(terminal, Ghost(ot), renames);
                proof {
                    assert(terminal_rel(*terminal, ot, f));
                }
            },
        }
        proof {
            assert(instruction_rel(block.instructions@[i as int], oi, f));
            assert(block.instructions@.take(i as int) =~= prev.take(i as int));
            assert(block.instructions@.take(i + 1).drop_last() =~= block.instructions@.take(i as int));
            assert(o.take(i + 1).drop_last() =~= o.take(i as int));
        }
        i = i + 1;
    }
    proof {
        assert(block.instructions@.take(i as int) =~= block.instructions@);
        assert(o.take(i as int) =~= o);
    }
}

/// Rename in the blocks of a terminal whose own fields are already renamed
/// from those of `ot`.
fn apply_renames_in_terminal_blocks(terminal: &mut ReactiveTerminal, Ghost(ot): Ghost<ReactiveTerminal>, renames: &Vec<(String, String)>)
    requires
        renamed_terminal_fields(*old(terminal), ot, renames_view(renames@)),
        renamed_children(*old(terminal), ot, renames_view(renames@)),
    ensures
        terminal_rel(*final(terminal), ot, rename_rel(renames_view(renames@))),
    decreases ot,
{
    let ghost f = rename_rel(renames_view(renames@));
    match terminal {
        ReactiveTerminal::If { consequent, alternate, .. } => {
            apply_renames_in_block(consequent, renames);
            apply_renames_in_block(alternate, renames);
        },
        ReactiveTerminal::Switch { cases, .. } => {
            let ghost oc = ot->Switch_cases@;
            let ghost mc = cases@;
            let mut i: usize = 0;
            while i < cases.len()
                invariant
                    i <= cases@.len(),
                    cases@.len() == oc.len(),
                    mc.len() == oc.len(),
                    ot is Switch,
                    oc == ot->Switch_cases@,
                    f == rename_rel(renames_view(renames@)),
                            forall|k: int| 0 <= k < oc.len() ==> {
                        &&& (#[trigger] mc[k]).1 == oc[k].1
                        &&& match oc[k].0 {
                            Some(p) => mc[k].0 matches Some(q) && renamed_place(q, p, renames_view(renames@)),
                            None => mc[k].0 is None,
                        }
                    },
                    cases_rel(cases@.take(i as int), oc.take(i as int), f),
                    forall|k: int| i <= k < oc.len() ==> #[trigger] cases@[k] == mc[k],
                decreases cases.len() - i,
            {
                proof {
                    assert(decreases_to!(ot => ot->Switch_cases));
                    assert(decreases_to!(ot->Switch_cases => oc));
                    assert(decreases_to!(oc => oc[i as int]));
                }
                let ghost prevc = cases@;
                apply_renames_in_block(&mut cases[i].1, renames);
                proof {
                    let n = cases@;
                    assert(n.take(i as int) =~= prevc.take(i as int));
                    assert(n.take(i + 1).drop_last() =~= n.take(i as int));
                    assert(oc.take(i + 1).drop_last() =~= oc.take(i as int));
                }
                i = i + 1;
            }
            proof {
                assert(cases@.take(i as int) =~= cases@);
                assert(oc.take(i as int) =~= oc);
            }
        },
        ReactiveTerminal::For { init, test, update, body, .. } => {
            apply_renames_in_block(init, renames);
            apply_renames_in_block(test, renames);
            if let Some(u) = update {
                apply_renames_in_block(u, renames);
            }
            apply_renames_in_block(body, renames);
        },
        ReactiveTerminal::ForOf { init, test, body, .. } => {
            apply_renames_in_block(init, renames);
            apply_renames_in_block(test, renames);
            apply_renames_in_block(body, renames);
        },
        ReactiveTerminal::ForIn { init, test, body, .. } => {
            apply_renames_in_block(init, renames);
            apply_renames_in_block(test, renames);
            apply_renames_in_block(body, renames);
        },
        ReactiveTerminal::While { test, body, .. } => {
            apply_renames_in_block(test, renames);
            apply_renames_in_block(body, renames);
        },
        ReactiveTerminal::DoWhile { body, test, .. } => {
            apply_renames_in_block(test, renames);
            apply_renames_in_block(body, renames);
        },
        ReactiveTerminal::Try { block, handler, .. } => {
            apply_renames_in_block(block, renames);
            apply_renames_in_block(handler, renames);
        },
        ReactiveTerminal::Label { block, .. } => {
            apply_renames_in_block(block, renames);
        },
        ReactiveTerminal::Logical { right, .. } => {
            apply_renames_in_block(right, renames);
        },
        _ => {},
    }
}


// ---------------------------------------------------------------------------
// Renaming the outputs of a scope
// ---------------------------------------------------------------------------

/// The `k`-th temporary name, `t<k>`.
pub open spec fn temp_name_at(k: nat) -> Seq<char> {
    "t"@ + decimal(k)
}

pub open spec fn named_as(x: Identifier, s: Seq<char>) -> bool {
    x.name matches Some(r) && r@ == s
}

/// Some reassignment of the scope is named `s`.
pub open spec fn reassigned_name(q: Seq<Identifier>, s: Seq<char>) -> bool {
    exists|k: int| 0 <= k < q.len() && named_as(#[trigger] q[k], s)
}

/// A declaration is renamed when it has a name that is not already a
/// temporary's, that no reassignment of the scope carries, and that the
/// scope body allows (`can_rename`).
pub open spec fn eligible_decl(x: Identifier, reassignments: Seq<Identifier>, body: ReactiveBlock) -> bool {
    match x.name {
        Some(s) => !is_temp_name(s@) && !reassigned_name(reassignments, s@) && can_rename(s@, body),
        None => false,
    }
}

/// The renames of a scope's declarations, in order, the counter starting at
/// `c`: each eligible declaration takes the next temporary name.
pub open spec fn scope_renames(
    d: Seq<(IdentifierId, ScopeDeclaration)>,
    reassignments: Seq<Identifier>,
    body: ReactiveBlock,
    c: nat,
) -> Seq<(Seq<char>, Seq<char>)>
    decreases d.len(),
{
    if d.len() == 0 {
        Seq::empty()
    } else {
        let prev = scope_renames(d.drop_last(), reassignments, body, c);
        let x = d.last().1.identifier;
        if eligible_decl(x, reassignments, body) {
            prev.push((x.name->Some_0@, temp_name_at(c + prev.len())))
        } else {
            prev
        }
    }
}

/// The declarations after renaming: each eligible one carries its temporary
/// name, everything else is unchanged.
pub open spec fn renamed_declarations(
    nd: Seq<(IdentifierId, ScopeDeclaration)>,
    od: Seq<(IdentifierId, ScopeDeclaration)>,
    reassignments: Seq<Identifier>,
    body: ReactiveBlock,
    c: nat,
) -> bool {
    &&& nd.len() == od.len()
    &&& forall|j: int| 0 <= j < od.len() ==> {
        let x = (#[trigger] nd[j]).1.identifier;
        let y = od[j].1.identifier;
        &&& nd[j].0 == od[j].0
        &&& x == Identifier { name: x.name, ..y }
        &&& name_view(x.name) == if eligible_decl(y, reassignments, body) {
            Some(temp_name_at(c + scope_renames(od.take(j), reassignments, body, c).len()))
        } else {
            name_view(y.name)
        }
    }
}

fn has_reassignment_named(reassignments: &Vec<Identifier>, name: &String) -> (r: bool)
    ensures
        r == reassigned_name(reassignments@, name@),
{
    let mut k: usize = 0;
    while k < reassignments.len()
        invariant
            k <= reassignments@.len(),
            forall|m: int| 0 <= m < k ==> !named_as(#[trigger] reassignments@[m], name@),
        decreases reassignments.len() - k,
    {
        let hit = match &reassignments[k].name {
            Some(r) => *r == *name,
            None => false,
        };
        if hit {
            proof {
                assert(named_as(reassignments@[k as int], name@));
            }
            return true;
        }
        k = k + 1;
    }
    false
}

/// Rename the eligible declarations of a scope (given its body) to the next
/// temporaries; returns the renames made.
fn rename_scope_declarations(scope: &mut ReactiveScope, body: &ReactiveBlock, counter: &mut u32) -> (renames: Vec<(String, String)>)
    requires
        *old(counter) + old(scope).declarations@.len() <= u32::MAX,
    ensures
        renames_view(renames@) == scope_renames(old(scope).declarations@, old(scope).reassignments@, *body, *old(counter) as nat),
        *final(counter) == *old(counter) + renames@.len(),
        renames@.len() <= old(scope).declarations@.len(),
        *final(scope) == (ReactiveScope { declarations: final(scope).declarations, ..*old(scope) }),
        renamed_declarations(final(scope).declarations@, old(scope).declarations@, old(scope).reassignments@, *body, *old(counter) as nat),
{
    let ghost o = *scope;
    let ghost c0 = *counter as nat;
    let ghost od = o.declarations@;
    let ghost ra = o.reassignments@;
    let mut renames: Vec<(String, String)> = Vec::new();
    proof {
        assert(od.take(0) =~= Seq::<(IdentifierId, ScopeDeclaration)>::empty());
        assert(renames_view(renames@) =~= Seq::<(Seq<char>, Seq<char>)>::empty());
    }
    let mut j: usize = 0;
    while j < scope.declarations.len()
        invariant
            j <= od.len(),
            scope.declarations@.len() == od.len(),
            od == o.declarations@,
            ra == o.reassignments@,
            *scope == (ReactiveScope { declarations: scope.declarations, ..o }),
            renames_view(renames@) == scope_renames(od.take(j as int), ra, *body, c0),
            *counter == c0 + renames@.len(),
            renames@.len() <= j,
            c0 + od.len() <= u32::MAX,
            forall|k: int| 0 <= k < j ==> {
                let x = (#[trigger] scope.declarations@[k]).1.identifier;
                let y = od[k].1.identifier;
                &&& scope.declarations@[k].0 == od[k].0
                &&& x == Identifier { name: x.name, ..y }
                &&& name_view(x.name) == if eligible_decl(y, ra, *body) {
                    Some(temp_name_at(c0 + scope_renames(od.take(k), ra, *body, c0).len()))
                } else {
                    name_view(y.name)
                }
            },
            forall|k: int| j <= k < od.len() ==> #[trigger] scope.declarations@[k] == od[k],
        decreases scope.declarations.len() - j,
    {
        proof {
            assert(od.take(j + 1).drop_last() =~= od.take(j as int));
            assert(od.take(j + 1).last() == od[j as int]);
        }
        let original: Option<String> = match &scope.declarations[j].1.identifier.name {
            Some(name) => {
                if !is_temp_var_name(name.as_str()) && !has_reassignment_named(&scope.reassignments, name)
                    && can_rename_scope_decl(name, body) {
                    Some(copy_string(name))
                } else {
                    None
                }
            },
            None => None,
        };
        match original {
            Some(orig) => {
                let mut temp = String::from_str("t");
                push_decimal(&mut temp, *counter);
                *counter = *counter + 1;
                let ghost prev = renames@;
                scope.declarations[j].1.identifier.name = Some(copy_string(&temp));
                renames.push((orig, temp));
                proof {
                    assert(renames_view(renames@) =~= renames_view(prev).push((orig@, temp@)));
                }
            },
            None => {},
        }
        j = j + 1;
    }
    proof {
        assert(od.take(od.len() as int) =~= od);
    }
    renames
}

pub open spec fn zero_loc() -> SourceLocation {
    SourceLocation { start: 0, end: 0 }
}

/// A place made for a rename assignment: identifier 0, named `name`, with
/// no declaration, scope or range, at location zero.
pub open spec fn is_rename_place(p: Place, name: Seq<char>) -> bool {
    &&& p.identifier.id == IdentifierId(0)
    &&& p.identifier.declaration_id is None
    &&& name_view(p.identifier.name) == Some(name)
    &&& p.identifier.mutable_range == (MutableRange { start: InstructionId(0), end: InstructionId(0) })
    &&& p.identifier.scope is None
    &&& p.identifier.type_ == Type::Poly
    &&& p.identifier.loc == zero_loc()
    &&& p.effect == Effect::Unknown
    &&& !p.reactive
    &&& p.loc == zero_loc()
}

/// `const <r.0> = <r.1>;`: a `StoreLocal` of kind `Const`, instruction 0 at
/// location zero.
pub open spec fn is_rename_assignment(i: ReactiveInstruction, r: (Seq<char>, Seq<char>)) -> bool {
    &&& i matches ReactiveInstruction::Instruction(ins)
    &&& ins.id == InstructionId(0)
    &&& ins.loc == zero_loc()
    &&& is_rename_place(ins.lvalue, r.0)
    &&& ins.value matches InstructionValue::StoreLocal { lvalue, value, type_ }
    &&& is_rename_place(lvalue, r.0)
    &&& is_rename_place(value, r.1)
    &&& type_ == Some(InstructionKind::Const)
}

/// One rename assignment per rename, in order.
pub open spec fn rename_assignments(q: Seq<ReactiveInstruction>, rs: Seq<(Seq<char>, Seq<char>)>) -> bool {
    &&& q.len() == rs.len()
    &&& forall|j: int| 0 <= j < rs.len() ==> is_rename_assignment(#[trigger] q[j], rs[j])
}

fn make_rename_place(name: &String) -> (p: Place)
    ensures
        is_rename_place(p, name@),
{
    Place {
        identifier: Identifier {
            id: IdentifierId(0),
            ssa_version: 0,
            declaration_id: None,
            name: Some(copy_string(name)),
            mutable_range: MutableRange { start: InstructionId(0), end: InstructionId(0) },
            last_use: InstructionId(0),
            scope: None,
            type_: Type::Poly,
            loc: SourceLocation { start: 0, end: 0 },
        },
        effect: Effect::Unknown,
        reactive: false,
        loc: SourceLocation { start: 0, end: 0 },
    }
}

/// The instruction `const original = temp;`.
fn create_rename_assignment(original: &String, temp: &String) -> (i: Instruction)
    ensures
        is_rename_assignment(ReactiveInstruction::Instruction(i), (original@, temp@)),
{
    Instruction {
        id: InstructionId(0),
        loc: SourceLocation { start: 0, end: 0 },
        lvalue: make_rename_place(original),
        value: InstructionValue::StoreLocal {
            lvalue: make_rename_place(original),
            value: make_rename_place(temp),
            type_: Some(InstructionKind::Const),
        },
    }
}

// ---------------------------------------------------------------------------
// Declarations in a tree
// ---------------------------------------------------------------------------

/// The number of scope declarations in a block, nested ones included: a
/// bound on the renames the pass makes in it.
pub open spec fn decl_count(b: ReactiveBlock) -> nat
    decreases b,
{
    decl_count_instructions(b.instructions@)
}

pub open spec fn decl_count_instructions(q: Seq<ReactiveInstruction>) -> nat
    decreases q,
{
    if q.len() == 0 {
        0
    } else {
        decl_count_instructions(q.drop_last()) + decl_count_item(q.last())
    }
}

pub open spec fn decl_count_item(i: ReactiveInstruction) -> nat
    decreases i,
{
    match i {
        ReactiveInstruction::Scope(sb) => sb.scope.declarations@.len() + decl_count(sb.instructions),
        ReactiveInstruction::Terminal(t) => decl_count_terminal(t),
        ReactiveInstruction::Instruction(_) => 0,
    }
}

pub open spec fn decl_count_cases(q: Seq<(Option<Place>, ReactiveBlock)>) -> nat
    decreases q,
{
    if q.len() == 0 {
        0
    } else {
        decl_count_cases(q.drop_last()) + decl_count(q.last().1)
    }
}

pub open spec fn decl_count_terminal(t: ReactiveTerminal) -> nat
    decreases t,
{
    match t {
        ReactiveTerminal::If { consequent, alternate, .. } => decl_count(consequent) + decl_count(alternate),
        ReactiveTerminal::Switch { cases, .. } => decl_count_cases(cases@),
        ReactiveTerminal::For { init, test, update, body, .. } => decl_count(init) + decl_count(test) + match update {
            Some(u) => decl_count(u),
            None => 0,
        } + decl_count(body),
        ReactiveTerminal::ForOf { init, test, body, .. } => decl_count(init) + decl_count(test) + decl_count(body),
        ReactiveTerminal::ForIn { init, test, body, .. } => decl_count(init) + decl_count(test) + decl_count(body),
        ReactiveTerminal::While { test, body, .. } => decl_count(test) + decl_count(body),
        ReactiveTerminal::DoWhile { body, test, .. } => decl_count(test) + decl_count(body),
        ReactiveTerminal::Try { block, handler, .. } => decl_count(block) + decl_count(handler),
        ReactiveTerminal::Label { block, .. } => decl_count(block),
        ReactiveTerminal::Logical { right, .. } => decl_count(right),
        _ => 0,
    }
}

proof fn lemma_decl_count_prefix(q: Seq<ReactiveInstruction>, k: int)
    requires
        0 <= k <= q.len(),
    ensures
        decl_count_instructions(q.take(k)) <= decl_count_instructions(q),
    decreases q.len() - k,
{
    if k < q.len() {
        lemma_decl_count_prefix(q, k + 1);
        assert(q.take(k + 1).drop_last() =~= q.take(k));
    } else {
        assert(q.take(k) =~= q);
    }
}

proof fn lemma_decl_count_cases_prefix(q: Seq<(Option<Place>, ReactiveBlock)>, k: int)
    requires
        0 <= k <= q.len(),
    ensures
        decl_count_cases(q.take(k)) <= decl_count_cases(q),
    decreases q.len() - k,
{
    if k < q.len() {
        lemma_decl_count_cases_prefix(q, k + 1);
        assert(q.take(k + 1).drop_last() =~= q.take(k));
    } else {
        assert(q.take(k) =~= q);
    }
}

// ---------------------------------------------------------------------------
// The relation of the pass
// ---------------------------------------------------------------------------

/// The choices the pass makes while it walks the tree, recorded so that the
/// relation below can name them: for a block, where the run of each
/// instruction starts in the new block and the counter before it; for a
/// scope, its body after renaming and the counter then; for a terminal, the
/// counter before each of its blocks.
pub enum RenameTrace {
    Block(Seq<(int, nat, RenameTrace)>),
    Scope(ReactiveBlock, nat, Box<RenameTrace>),
    Terminal(Seq<(nat, RenameTrace)>),
    Plain,
}

/// `n` is the block `o` after renaming, the counter going from `c0` to `c1`.
pub open spec fn renamed_vars_block(n: ReactiveBlock, o: ReactiveBlock, c0: nat, c1: nat, t: RenameTrace) -> bool
    decreases o,
{
    renamed_vars_instructions(n.instructions@, o.instructions@, c0, c1, t)
}

/// Each instruction of `o`, in order, becomes a run of instructions of `n`.
pub open spec fn renamed_vars_instructions(
    n: Seq<ReactiveInstruction>,
    o: Seq<ReactiveInstruction>,
    c0: nat,
    c1: nat,
    t: RenameTrace,
) -> bool
    decreases o,
{
    &&& t matches RenameTrace::Block(e)
    &&& e.len() == o.len()
    &&& if o.len() == 0 {
        n.len() == 0 && c1 == c0
    } else {
        let k = e.last().0;
        let cm = e.last().1;
        &&& 0 <= k <= n.len()
        &&& renamed_vars_instructions(n.take(k), o.drop_last(), c0, cm, RenameTrace::Block(e.drop_last()))
        &&& renamed_vars_item(n.skip(k), o.last(), cm, c1, e.last().2)
    }
}

/// What one instruction becomes: a plain instruction stays; a terminal has
/// its blocks renamed; a scope has its body renamed first, then its eligible
/// declarations renamed (judged on that body), the renames applied to the
/// body, and a `const` assignment per rename placed after it.
pub open spec fn renamed_vars_item(out: Seq<ReactiveInstruction>, o: ReactiveInstruction, c0: nat, c1: nat, t: RenameTrace) -> bool
    decreases o,
{
    match o {
        ReactiveInstruction::Instruction(_) => out == seq![o] && c1 == c0,
        ReactiveInstruction::Terminal(tm) => {
            &&& out.len() == 1
            &&& out[0] matches ReactiveInstruction::Terminal(nt)
            &&& renamed_vars_terminal(nt, tm, c0, c1, t)
        },
        ReactiveInstruction::Scope(sb) => {
            &&& out.len() >= 1
            &&& out[0] matches ReactiveInstruction::Scope(nsb)
            &&& t matches RenameTrace::Scope(mid, cm, inner)
            &&& renamed_vars_block(mid, sb.instructions, c0, cm, *inner)
            &&& renamed_scope_outputs(nsb, sb, mid, cm, c1, out.skip(1))
        },
    }
}

/// The scope `nsb` made from `sb` whose body was renamed into `mid`, the
/// counter going from `cm` to `c1`, and the assignments that follow it.
pub open spec fn renamed_scope_outputs(
    nsb: ReactiveScopeBlock,
    sb: ReactiveScopeBlock,
    mid: ReactiveBlock,
    cm: nat,
    c1: nat,
    post: Seq<ReactiveInstruction>,
) -> bool {
    let rs = scope_renames(sb.scope.declarations@, sb.scope.reassignments@, mid, cm);
    &&& c1 == cm + rs.len()
    &&& nsb.scope == ReactiveScope { declarations: nsb.scope.declarations, ..sb.scope }
    &&& renamed_declarations(nsb.scope.declarations@, sb.scope.declarations@, sb.scope.reassignments@, mid, cm)
    &&& if rs.len() == 0 {
        nsb.instructions == mid
    } else {
        block_rel(nsb.instructions, mid, rename_rel(rs))
    }
    &&& rename_assignments(post, rs)
}

pub open spec fn renamed_vars_opt(n: Option<ReactiveBlock>, o: Option<ReactiveBlock>, c0: nat, c1: nat, t: RenameTrace) -> bool
    decreases o,
{
    match o {
        Some(ob) => n matches Some(nb) && renamed_vars_block(nb, ob, c0, c1, t),
        None => n is None && c1 == c0,
    }
}

pub open spec fn renamed_vars_cases(
    n: Seq<(Option<Place>, ReactiveBlock)>,
    o: Seq<(Option<Place>, ReactiveBlock)>,
    c0: nat,
    c1: nat,
    t: Seq<(nat, RenameTrace)>,
) -> bool
    decreases o,
{
    &&& n.len() == o.len()
    &&& t.len() == o.len()
    &&& if o.len() == 0 {
        c1 == c0
    } else {
        &&& n.last().0 == o.last().0
        &&& renamed_vars_cases(n.drop_last(), o.drop_last(), c0, t.last().0, t.drop_last())
        &&& renamed_vars_block(n.last().1, o.last().1, t.last().0, c1, t.last().1)
    }
}

/// A terminal with its own fields unchanged and its blocks renamed in order
/// (`if`: consequent, alternate; loops: init, test, update, body; `while`
/// and `do`: test, body; `try`: block, handler); `t` holds the counter
/// before each block and its trace.
pub open spec fn renamed_vars_terminal(n: ReactiveTerminal, o: ReactiveTerminal, c0: nat, c1: nat, tr: RenameTrace) -> bool
    decreases o,
{
    &&& same_terminal_fields(n, o)
    &&& tr matches RenameTrace::Terminal(t)
    &&& match o {
        ReactiveTerminal::If { consequent, alternate, .. } => {
            &&& n matches ReactiveTerminal::If { consequent: nc, alternate: na, .. }
            &&& t.len() == 2
            &&& renamed_vars_block(nc, consequent, c0, t[1].0, t[0].1)
            &&& renamed_vars_block(na, alternate, t[1].0, c1, t[1].1)
        },
        ReactiveTerminal::Switch { cases, .. } => {
            &&& n matches ReactiveTerminal::Switch { cases: nc, .. }
            &&& renamed_vars_cases(nc@, cases@, c0, c1, t)
        },
        ReactiveTerminal::For { init, test, update, body, .. } => {
            &&& n matches ReactiveTerminal::For { init: n1, test: n2, update: n3, body: n4, .. }
            &&& t.len() == 4
            &&& renamed_vars_block(n1, init, c0, t[1].0, t[0].1)
            &&& renamed_vars_block(n2, test, t[1].0, t[2].0, t[1].1)
            &&& renamed_vars_opt(n3, update, t[2].0, t[3].0, t[2].1)
            &&& renamed_vars_block(n4, body, t[3].0, c1, t[3].1)
        },
        ReactiveTerminal::ForOf { init, test, body, .. } => {
            &&& n matches ReactiveTerminal::ForOf { init: n1, test: n2, body: n4, .. }
            &&& t.len() == 3
            &&& renamed_vars_block(n1, init, c0, t[1].0, t[0].1)
            &&& renamed_vars_block(n2, test, t[1].0, t[2].0, t[1].1)
            &&& renamed_vars_block(n4, body, t[2].0, c1, t[2].1)
        },
        ReactiveTerminal::ForIn { init, test, body, .. } => {
            &&& n matches ReactiveTerminal::ForIn { init: n1, test: n2, body: n4, .. }
            &&& t.len() == 3
            &&& renamed_vars_block(n1, init, c0, t[1].0, t[0].1)
            &&& renamed_vars_block(n2, test, t[1].0, t[2].0, t[1].1)
            &&& renamed_vars_block(n4, body, t[2].0, c1, t[2].1)
        },
        ReactiveTerminal::While { test, body, .. } => {
            &&& n matches ReactiveTerminal::While { test: n2, body: n4, .. }
            &&& t.len() == 2
            &&& renamed_vars_block(n2, test, c0, t[1].0, t[0].1)
            &&& renamed_vars_block(n4, body, t[1].0, c1, t[1].1)
        },
        ReactiveTerminal::DoWhile { body, test, .. } => {
            &&& n matches ReactiveTerminal::DoWhile { body: n4, test: n2, .. }
            &&& t.len() == 2
            &&& renamed_vars_block(n2, test, c0, t[1].0, t[0].1)
            &&& renamed_vars_block(n4, body, t[1].0, c1, t[1].1)
        },
        ReactiveTerminal::Try { block, handler, .. } => {
            &&& n matches ReactiveTerminal::Try { block: nb, handler: nh, .. }
            &&& t.len() == 2
            &&& renamed_vars_block(nb, block, c0, t[1].0, t[0].1)
            &&& renamed_vars_block(nh, handler, t[1].0, c1, t[1].1)
        },
        ReactiveTerminal::Label { block, .. } => {
            &&& n matches ReactiveTerminal::Label { block: nb, .. }
            &&& t.len() == 1
            &&& renamed_vars_block(nb, block, c0, c1, t[0].1)
        },
        ReactiveTerminal::Logical { right, .. } => {
            &&& n matches ReactiveTerminal::Logical { right: nr, .. }
            &&& t.len() == 1
            &&& renamed_vars_block(nr, right, c0, c1, t[0].1)
        },
        _ => n == o && c1 == c0,
    }
}

// ---------------------------------------------------------------------------
// The pass
// ---------------------------------------------------------------------------

proof fn lemma_rename_step(
    out: Seq<ReactiveInstruction>,
    added: Seq<ReactiveInstruction>,
    o: Seq<ReactiveInstruction>,
    k: int,
    c0: nat,
    cm: nat,
    c1: nat,
    e: Seq<(int, nat, RenameTrace)>,
    it: RenameTrace,
)
    requires
        0 <= k < o.len(),
        renamed_vars_instructions(out, o.take(k), c0, cm, RenameTrace::Block(e)),
        renamed_vars_item(added, o[k], cm, c1, it),
    ensures
        renamed_vars_instructions(out + added, o.take(k + 1), c0, c1, RenameTrace::Block(e.push((out.len() as int, cm, it)))),
{
    let n = out + added;
    let e2 = e.push((out.len() as int, cm, it));
    assert(n.take(out.len() as int) =~= out);
    assert(n.skip(out.len() as int) =~= added);
    assert(o.take(k + 1).drop_last() =~= o.take(k));
    assert(o.take(k + 1).last() == o[k]);
    assert(e2.drop_last() =~= e);
}

fn rename_vars_in_block(block: &mut ReactiveBlock, counter: &mut u32) -> (t: Ghost<RenameTrace>)
    requires
        *old(counter) + decl_count(*old(block)) <= u32::MAX,
    ensures
        renamed_vars_block(*final(block), *old(block), *old(counter) as nat, *final(counter) as nat, t@),
        *old(counter) <= *final(counter) <= *old(counter) + decl_count(*old(block)),
    decreases *old(block),
{
    let ghost o = old(block).instructions@;
    let ghost c0 = *counter as nat;
    let mut rest: Vec<ReactiveInstruction> = Vec::new();
    std::mem::swap(&mut rest, &mut block.instructions);
    let mut out: Vec<ReactiveInstruction> = Vec::new();
    let ghost mut k: int = 0;
    let ghost mut e: Seq<(int, nat, RenameTrace)> = Seq::empty();
    proof {
        assert(o.skip(0) =~= o);
        assert(o.take(0) =~= Seq::<ReactiveInstruction>::empty());
        assert(out@ =~= Seq::<ReactiveInstruction>::empty());
    }
    while rest.len() > 0
        invariant
            0 <= k <= o.len(),
            o == old(block).instructions@,
            rest@ == o.skip(k),
            renamed_vars_instructions(out@, o.take(k), c0, *counter as nat, RenameTrace::Block(e)),
            c0 <= *counter <= c0 + decl_count_instructions(o.take(k)),
            c0 + decl_count_instructions(o) <= u32::MAX,
        decreases rest.len(),
    {
        proof {
            assert(o.skip(k)[0] == o[k]);
            assert(decreases_to!(*old(block) => old(block).instructions));
            assert(decreases_to!(old(block).instructions => o));
            assert(decreases_to!(o => o[k]));
            lemma_decl_count_prefix(o, k + 1);
            assert(o.take(k + 1).drop_last() =~= o.take(k));
            assert(o.take(k + 1).last() == o[k]);
            assert(decl_count_instructions(o.take(k + 1)) == decl_count_instructions(o.take(k)) + decl_count_item(o[k]));
        }
        let item = rest.remove(0);
        proof {
            assert(item == o[k]);
        }
        let ghost cb = *counter as nat;
        let ghost outb = out@;
        match item {
            ReactiveInstruction::Instruction(i) => {
                out.push(ReactiveInstruction::Instruction(i));
                proof {
                    assert(out@ =~= outb + seq![o[k]]);
                    lemma_rename_step(outb, seq![o[k]], o, k, c0, cb, cb, e, RenameTrace::Plain);
                    e = e.push((outb.len() as int, cb, RenameTrace::Plain));
                }
            },
            ReactiveInstruction::Terminal(mut t) => {
                let ghost ot = t;
                proof {
                    assert(decreases_to!(o[k] => ot));
                }
                let tt = rename_vars_in_terminal(&mut t, counter);
                let ghost nt = t;
                out.push(ReactiveInstruction::Terminal(t));
                proof {
                    let added = seq![ReactiveInstruction::Terminal(nt)];
                    assert(out@ =~= outb + added);
                    assert(renamed_vars_item(added, o[k], cb, *counter as nat, tt@));
                    lemma_rename_step(outb, added, o, k, c0, cb, *counter as nat, e, tt@);
                    e = e.push((outb.len() as int, cb, tt@));
                }
            },
            ReactiveInstruction::Scope(mut sb) => {
                let ghost osb = sb;
                proof {
                    assert(decreases_to!(o[k] => osb.instructions));
                }
                let inner = rename_vars_in_block(&mut sb.instructions, counter);
                let ghost mid = sb.instructions;
                let ghost cm = *counter as nat;
                let renames = rename_scope_declarations(&mut sb.scope, &sb.instructions, counter);
                if renames.len() > 0 {
                    apply_renames_in_block(&mut sb.instructions, &renames);
                }
                let ghost nsb = sb;
                out.push(ReactiveInstruction::Scope(sb));
                let ghost rs = renames_view(renames@);
                let ghost base = out@;
                let mut j: usize = 0;
                while j < renames.len()
                    invariant
                        j <= renames@.len(),
                        rs == renames_view(renames@),
                        base == outb.push(ReactiveInstruction::Scope(nsb)),
                        out@.len() == base.len() + j,
                        out@.take(base.len() as int) == base,
                        forall|m: int| 0 <= m < j ==> is_rename_assignment(#[trigger] out@[base.len() + m], rs[m]),
                    decreases renames.len() - j,
                {
                    let a = create_rename_assignment(&renames[j].0, &renames[j].1);
                    let ghost prev = out@;
                    out.push(ReactiveInstruction::Instruction(a));
                    proof {
                        assert(out@.take(base.len() as int) =~= prev.take(base.len() as int));
                        assert(out@[base.len() + j] == ReactiveInstruction::Instruction(a));
                    }
                    j = j + 1;
                }
                proof {
                    let added = out@.skip(outb.len() as int);
                    assert(out@.take(outb.len() as int) =~= outb);
                    assert(out@ =~= outb + added);
                    assert(added[0] == out@[outb.len() as int]);
                    assert(out@[outb.len() as int] == base[outb.len() as int]);
                    assert(added[0] == ReactiveInstruction::Scope(nsb));
                    let post = added.skip(1);
                    assert forall|m: int| 0 <= m < rs.len() implies is_rename_assignment(#[trigger] post[m], rs[m]) by {
                        assert(post[m] == out@[base.len() + m]);
                    }
                    assert(renamed_scope_outputs(nsb, osb, mid, cm, *counter as nat, post));
                    let it = RenameTrace::Scope(mid, cm, Box::new(inner@));
                    assert(renamed_vars_item(added, o[k], cb, *counter as nat, it));
                    lemma_rename_step(outb, added, o, k, c0, cb, *counter as nat, e, it);
                    e = e.push((outb.len() as int, cb, it));
                }
            },
        }
        proof {
            k = k + 1;
            assert(rest@ =~= o.skip(k));
        }
    }
    proof {
        assert(o.take(k) =~= o);
    }
    block.instructions = out;
    Ghost(RenameTrace::Block(e))
}

/// Rename in the blocks of a terminal, in order.
fn rename_vars_in_terminal(terminal: &mut ReactiveTerminal, counter: &mut u32) -> (t: Ghost<RenameTrace>)
    requires
        *old(counter) + decl_count_terminal(*old(terminal)) <= u32::MAX,
    ensures
        renamed_vars_terminal(*final(terminal), *old(terminal), *old(counter) as nat, *final(counter) as nat, t@),
        *old(counter) <= *final(counter) <= *old(counter) + decl_count_terminal(*old(terminal)),
    decreases *old(terminal),
{
    let ghost c0 = *counter as nat;
    match terminal {
        ReactiveTerminal::If { consequent, alternate, .. } => {
            let t0 = rename_vars_in_block(consequent, counter);
            let ghost ca = *counter as nat;
            let t1 = rename_vars_in_block(alternate, counter);
            Ghost(RenameTrace::Terminal(seq![(c0, t0@), (ca, t1@)]))
        },
        ReactiveTerminal::Switch { cases, .. } => {
            let ghost oc = old(terminal)->Switch_cases@;
            let ghost mut ts: Seq<(nat, RenameTrace)> = Seq::empty();
            proof {
                assert(cases@.take(0) =~= Seq::<(Option<Place>, ReactiveBlock)>::empty());
                assert(oc.take(0) =~= Seq::<(Option<Place>, ReactiveBlock)>::empty());
                lemma_decl_count_cases_prefix(oc, 0);
            }
            let mut i: usize = 0;
            while i < cases.len()
                invariant
                    i <= cases@.len(),
                    cases@.len() == oc.len(),
                    *old(terminal) is Switch,
                    oc == old(terminal)->Switch_cases@,
                    renamed_vars_cases(cases@.take(i as int), oc.take(i as int), c0, *counter as nat, ts),
                    c0 <= *counter <= c0 + decl_count_cases(oc.take(i as int)),
                    c0 + decl_count_cases(oc) <= u32::MAX,
                    forall|m: int| i <= m < oc.len() ==> #[trigger] cases@[m] == oc[m],
                decreases cases.len() - i,
            {
                proof {
                    assert(decreases_to!(*old(terminal) => old(terminal)->Switch_cases));
                    assert(decreases_to!(old(terminal)->Switch_cases => oc));
                    assert(decreases_to!(oc => oc[i as int]));
                    lemma_decl_count_cases_prefix(oc, i + 1);
                    assert(oc.take(i + 1).drop_last() =~= oc.take(i as int));
                    assert(oc.take(i + 1).last() == oc[i as int]);
                    assert(decl_count_cases(oc.take(i + 1)) == decl_count_cases(oc.take(i as int)) + decl_count(oc[i as int].1));
                }
                let ghost prevc = cases@;
                let ghost cb = *counter as nat;
                let tb = rename_vars_in_block(&mut cases[i].1, counter);
                proof {
                    let n = cases@;
                    let ts2 = ts.push((cb, tb@));
                    assert(n.take(i as int) =~= prevc.take(i as int));
                    assert(n.take(i + 1).drop_last() =~= n.take(i as int));
                    assert(n.take(i + 1).last() == n[i as int]);
                    assert(ts2.drop_last() =~= ts);
                    assert(renamed_vars_cases(n.take(i + 1), oc.take(i + 1), c0, *counter as nat, ts2));
                    ts = ts2;
                }
                i = i + 1;
            }
            proof {
                assert(cases@.take(i as int) =~= cases@);
                assert(oc.take(i as int) =~= oc);
            }
            Ghost(RenameTrace::Terminal(ts))
        },
        ReactiveTerminal::For { init, test, update, body, .. } => {
            let t0 = rename_vars_in_block(init, counter);
            let ghost ca = *counter as nat;
            let t1 = rename_vars_in_block(test, counter);
            let ghost cb = *counter as nat;
            let ghost mut t2 = RenameTrace::Plain;
            if let Some(u) = update {
                let tu = rename_vars_in_block(u, counter);
                proof {
                    t2 = tu@;
                }
            }
            let ghost cc = *counter as nat;
            let t3 = rename_vars_in_block(body, counter);
            Ghost(RenameTrace::Terminal(seq![(c0, t0@), (ca, t1@), (cb, t2), (cc, t3@)]))
        },
        ReactiveTerminal::ForOf { init, test, body, .. } => {
            let t0 = rename_vars_in_block(init, counter);
            let ghost ca = *counter as nat;
            let t1 = rename_vars_in_block(test, counter);
            let ghost cb = *counter as nat;
            let t2 = rename_vars_in_block(body, counter);
            Ghost(RenameTrace::Terminal(seq![(c0, t0@), (ca, t1@), (cb, t2@)]))
        },
        ReactiveTerminal::ForIn { init, test, body, .. } => {
            let t0 = rename_vars_in_block(init, counter);
            let ghost ca = *counter as nat;
            let t1 = rename_vars_in_block(test, counter);
            let ghost cb = *counter as nat;
            let t2 = rename_vars_in_block(body, counter);
            Ghost(RenameTrace::Terminal(seq![(c0, t0@), (ca, t1@), (cb, t2@)]))
        },
        ReactiveTerminal::While { test, body, .. } => {
            let t0 = rename_vars_in_block(test, counter);
            let ghost ca = *counter as nat;
            let t1 = rename_vars_in_block(body, counter);
            Ghost(RenameTrace::Terminal(seq![(c0, t0@), (ca, t1@)]))
        },
        ReactiveTerminal::DoWhile { body, test, .. } => {
            let t0 = rename_vars_in_block(test, counter);
            let ghost ca = *counter as nat;
            let t1 = rename_vars_in_block(body, counter);
            Ghost(RenameTrace::Terminal(seq![(c0, t0@), (ca, t1@)]))
        },
        ReactiveTerminal::Try { block, handler, .. } => {
            let t0 = rename_vars_in_block(block, counter);
            let ghost ca = *counter as nat;
            let t1 = rename_vars_in_block(handler, counter);
            Ghost(RenameTrace::Terminal(seq![(c0, t0@), (ca, t1@)]))
        },
        ReactiveTerminal::Label { block, .. } => {
            let t0 = rename_vars_in_block(block, counter);
            Ghost(RenameTrace::Terminal(seq![(c0, t0@)]))
        },
        ReactiveTerminal::Logical { right, .. } => {
            let t0 = rename_vars_in_block(right, counter);
            Ghost(RenameTrace::Terminal(seq![(c0, t0@)]))
        },
        _ => Ghost(RenameTrace::Terminal(Seq::empty())),
    }
}

// ---------------------------------------------------------------------------
// The first free temporary
// ---------------------------------------------------------------------------

pub open spec fn digit_of(c: char) -> nat {
    (c as int - '0' as int) as nat
}

/// The value of a string of decimal digits.
pub open spec fn digits_value(q: Seq<char>) -> nat
    decreases q.len(),
{
    if q.len() == 0 {
        0
    } else {
        digits_value(q.drop_last()) * 10 + digit_of(q.last())
    }
}

/// The index `k` of a temporary's name `t<k>`, when `k` fits in a `u32`.
pub open spec fn temp_index(s: Seq<char>) -> Option<nat> {
    if is_temp_name(s) && digits_value(s.skip(1)) <= u32::MAX {
        Some(digits_value(s.skip(1)))
    } else {
        None
    }
}

/// `m`, raised above the index of `name` if it is a temporary's name.
pub open spec fn bump_max(m: nat, name: Option<String>) -> nat {
    match name {
        Some(s) => match temp_index(s@) {
            Some(k) => if k + 1 > m { k + 1 } else { m },
            None => m,
        },
        None => m,
    }
}

pub open spec fn scan_params(q: Seq<Param>, m: nat) -> nat
    decreases q.len(),
{
    if q.len() == 0 {
        m
    } else {
        let p = match q.last() {
            Param::Identifier(p) => p,
            Param::Spread(p) => p,
        };
        bump_max(scan_params(q.drop_last(), m), p.identifier.name)
    }
}

pub open spec fn scan_declarations(q: Seq<(IdentifierId, ScopeDeclaration)>, m: nat) -> nat
    decreases q.len(),
{
    if q.len() == 0 {
        m
    } else {
        bump_max(scan_declarations(q.drop_last(), m), q.last().1.identifier.name)
    }
}

/// `m` raised above every temporary named by an instruction target or a
/// scope declaration of the block.
pub open spec fn scan_block(b: ReactiveBlock, m: nat) -> nat
    decreases b,
{
    scan_instructions(b.instructions@, m)
}

pub open spec fn scan_instructions(q: Seq<ReactiveInstruction>, m: nat) -> nat
    decreases q,
{
    if q.len() == 0 {
        m
    } else {
        scan_item(q.last(), scan_instructions(q.drop_last(), m))
    }
}

pub open spec fn scan_item(i: ReactiveInstruction, m: nat) -> nat
    decreases i,
{
    match i {
        ReactiveInstruction::Instruction(ins) => bump_max(m, ins.lvalue.identifier.name),
        ReactiveInstruction::Scope(sb) => scan_block(sb.instructions, scan_declarations(sb.scope.declarations@, m)),
        ReactiveInstruction::Terminal(t) => scan_terminal(t, m),
    }
}

pub open spec fn scan_cases(q: Seq<(Option<Place>, ReactiveBlock)>, m: nat) -> nat
    decreases q,
{
    if q.len() == 0 {
        m
    } else {
        scan_block(q.last().1, scan_cases(q.drop_last(), m))
    }
}

pub open spec fn scan_terminal(t: ReactiveTerminal, m: nat) -> nat
    decreases t,
{
    match t {
        ReactiveTerminal::If { consequent, alternate, .. } => scan_block(alternate, scan_block(consequent, m)),
        ReactiveTerminal::Switch { cases, .. } => scan_cases(cases@, m),
        ReactiveTerminal::For { init, test, update, body, .. } => {
            let m2 = scan_block(test, scan_block(init, m));
            let m3 = match update {
                Some(u) => scan_block(u, m2),
                None => m2,
            };
            scan_block(body, m3)
        },
        ReactiveTerminal::ForOf { init, test, body, .. } => scan_block(body, scan_block(test, scan_block(init, m))),
        ReactiveTerminal::ForIn { init, test, body, .. } => scan_block(body, scan_block(test, scan_block(init, m))),
        ReactiveTerminal::While { test, body, .. } => scan_block(body, scan_block(test, m)),
        ReactiveTerminal::DoWhile { body, test, .. } => scan_block(body, scan_block(test, m)),
        ReactiveTerminal::Try { block, handler, .. } => scan_block(handler, scan_block(block, m)),
        ReactiveTerminal::Label { block, .. } => scan_block(block, m),
        ReactiveTerminal::Logical { right, .. } => scan_block(right, m),
        _ => m,
    }
}

/// One past the highest index of a temporary named by a parameter, an
/// instruction target or a scope declaration of the function (0 if none).
pub open spec fn max_temp_counter(rf: ReactiveFunction) -> nat {
    scan_block(rf.body, scan_params(rf.params@, 0))
}

proof fn lemma_digits_prefix(q: Seq<char>, i: int)
    requires
        0 <= i <= q.len(),
    ensures
        digits_value(q.take(i)) <= digits_value(q),
    decreases q.len() - i,
{
    if i < q.len() {
        lemma_digits_prefix(q, i + 1);
        assert(q.take(i + 1).drop_last() =~= q.take(i));
    } else {
        assert(q.take(i) =~= q);
    }
}

/// The index of a temporary's name, if it parses as a `u32`.
fn temp_name_index(name: &str) -> (r: Option<u32>)
    ensures
        r == (match temp_index(name@) {
            Some(k) => Some(k as u32),
            None => None,
        }),
{
    if !is_temp_var_name(name) {
        return None;
    }
    let cs = crate::text::str_chars(name);
    let ghost digits = name@.skip(1);
    let mut v: u64 = 0;
    let mut i: usize = 1;
    proof {
        assert(digits.take(0) =~= Seq::<char>::empty());
    }
    while i < cs.len()
        invariant
            1 <= i <= cs@.len(),
            cs@ == name@,
            digits == name@.skip(1),
            is_temp_name(name@),
            v == digits_value(digits.take(i - 1)),
            v <= u32::MAX,
        decreases cs.len() - i,
    {
        let c = cs[i];
        proof {
            assert(is_ascii_digit(cs@[i as int]));
            assert(digits[i - 1] == c);
            assert(digits.take(i as int).drop_last() =~= digits.take(i - 1));
            assert(digits.take(i as int).last() == c);
        }
        let d = (c as u32) - ('0' as u32);
        v = v * 10 + d as u64;
        if v > 0xffff_ffff {
            proof {
                lemma_digits_prefix(digits, i as int);
            }
            return None;
        }
        i = i + 1;
    }
    proof {
        assert(digits.take(i - 1) =~= digits);
    }
    Some(v as u32)
}

fn update_max_temp(name: &Option<String>, max: &mut u64)
    requires
        *old(max) <= 0x1_0000_0000,
    ensures
        *final(max) == bump_max(*old(max) as nat, *name),
        *final(max) <= 0x1_0000_0000,
{
    if let Some(s) = name {
        if let Some(n) = temp_name_index(s.as_str()) {
            let c = n as u64 + 1;
            if c > *max {
                *max = c;
            }
        }
    }
}

fn scan_max_in_block(block: &ReactiveBlock, max: &mut u64)
    requires
        *old(max) <= 0x1_0000_0000,
    ensures
        *final(max) == scan_block(*block, *old(max) as nat),
        *final(max) <= 0x1_0000_0000,
    decreases *block,
{
    let ghost q = block.instructions@;
    let ghost m0 = *max as nat;
    let mut i: usize = 0;
    proof {
        assert(q.take(0) =~= Seq::<ReactiveInstruction>::empty());
    }
    while i < block.instructions.len()
        invariant
            i <= q.len(),
            q == block.instructions@,
            *max == scan_instructions(q.take(i as int), m0),
            *max <= 0x1_0000_0000,
        decreases block.instructions.len() - i,
    {
        proof {
            assert(q.take(i + 1).drop_last() =~= q.take(i as int));
            assert(q.take(i + 1).last() == q[i as int]);
            assert(decreases_to!(*block => block.instructions));
            assert(decreases_to!(block.instructions => q));
            assert(decreases_to!(q => q[i as int]));
        }
        let ghost mprev = *max as nat;
        match &block.instructions[i] {
            ReactiveInstruction::Instruction(ins) => {
                update_max_temp(&ins.lvalue.identifier.name, max);
                proof {
                    assert(*max == scan_item(q[i as int], mprev));
                }
            },
            ReactiveInstruction::Scope(sb) => {
                let ghost d = sb.scope.declarations@;
                let ghost m1 = *max as nat;
                let mut j: usize = 0;
                proof {
                    assert(d.take(0) =~= Seq::<(IdentifierId, ScopeDeclaration)>::empty());
                }
                while j < sb.scope.declarations.len()
                    invariant
                        j <= d.len(),
                        d == sb.scope.declarations@,
                        i < q.len(),
                        q[i as int] == ReactiveInstruction::Scope(*sb),
                        m1 == scan_instructions(q.take(i as int), m0),
                        *max == scan_declarations(d.take(j as int), m1),
                        *max <= 0x1_0000_0000,
                    decreases sb.scope.declarations.len() - j,
                {
                    proof {
                        assert(d.take(j + 1).drop_last() =~= d.take(j as int));
                        assert(d.take(j + 1).last() == d[j as int]);
                    }
                    update_max_temp(&sb.scope.declarations[j].1.identifier.name, max);
                    j = j + 1;
                }
                proof {
                    assert(d.take(j as int) =~= d);
                    assert(decreases_to!(q[i as int] => sb.instructions));
                }
                scan_max_in_block(&sb.instructions, max);
                proof {
                    assert(*max == scan_item(q[i as int], mprev));
                }
            },
            ReactiveInstruction::Terminal(t) => {
                proof {
                    assert(decreases_to!(q[i as int] => *t));
                }
                scan_max_in_terminal(t, max);
                proof {
                    assert(*max == scan_item(q[i as int], mprev));
                }
            },
        }
        proof {
            assert(scan_instructions(q.take(i + 1), m0) == scan_item(q[i as int], mprev));
        }
        i = i + 1;
    }
    proof {
        assert(q.take(i as int) =~= q);
    }
}

fn scan_max_in_terminal(terminal: &ReactiveTerminal, max: &mut u64)
    requires
        *old(max) <= 0x1_0000_0000,
    ensures
        *final(max) == scan_terminal(*terminal, *old(max) as nat),
        *final(max) <= 0x1_0000_0000,
    decreases *terminal,
{
    match terminal {
        ReactiveTerminal::If { consequent, alternate, .. } => {
            scan_max_in_block(consequent, max);
            scan_max_in_block(alternate, max);
        },
        ReactiveTerminal::Switch { cases, .. } => {
            let ghost q = cases@;
            let ghost m0 = *max as nat;
            let mut i: usize = 0;
            proof {
                assert(q.take(0) =~= Seq::<(Option<Place>, ReactiveBlock)>::empty());
            }
            while i < cases.len()
                invariant
                    i <= q.len(),
                    q == cases@,
                    *terminal is Switch,
                    q == (*terminal)->Switch_cases@,
                    *max == scan_cases(q.take(i as int), m0),
                    *max <= 0x1_0000_0000,
                decreases cases.len() - i,
            {
                proof {
                    assert(q.take(i + 1).drop_last() =~= q.take(i as int));
                    assert(q.take(i + 1).last() == q[i as int]);
                    assert(decreases_to!(*terminal => (*terminal)->Switch_cases));
                    assert(decreases_to!((*terminal)->Switch_cases => q));
                    assert(decreases_to!(q => q[i as int]));
                }
                scan_max_in_block(&cases[i].1, max);
                i = i + 1;
            }
            proof {
                assert(q.take(i as int) =~= q);
            }
        },
        ReactiveTerminal::For { init, test, update, body, .. } => {
            scan_max_in_block(init, max);
            scan_max_in_block(test, max);
            if let Some(u) = update {
                scan_max_in_block(u, max);
            }
            scan_max_in_block(body, max);
        },
        ReactiveTerminal::ForOf { init, test, body, .. } => {
            scan_max_in_block(init, max);
            scan_max_in_block(test, max);
            scan_max_in_block(body, max);
        },
        ReactiveTerminal::ForIn { init, test, body, .. } => {
            scan_max_in_block(init, max);
            scan_max_in_block(test, max);
            scan_max_in_block(body, max);
        },
        ReactiveTerminal::While { test, body, .. } => {
            scan_max_in_block(test, max);
            scan_max_in_block(body, max);
        },
        ReactiveTerminal::DoWhile { body, test, .. } => {
            scan_max_in_block(test, max);
            scan_max_in_block(body, max);
        },
        ReactiveTerminal::Try { block, handler, .. } => {
            scan_max_in_block(block, max);
            scan_max_in_block(handler, max);
        },
        ReactiveTerminal::Label { block, .. } => {
            scan_max_in_block(block, max);
        },
        ReactiveTerminal::Logical { right, .. } => {
            scan_max_in_block(right, max);
        },
        _ => {},
    }
}

/// The counter the renaming starts from: one past the highest temporary
/// index named by a parameter, an instruction target or a scope
/// declaration.
fn scan_max_temp_counter(rf: &ReactiveFunction) -> (r: u64)
    ensures
        r == max_temp_counter(*rf),
{
    let ghost q = rf.params@;
    let mut max: u64 = 0;
    let mut i: usize = 0;
    proof {
        assert(q.take(0) =~= Seq::<Param>::empty());
    }
    while i < rf.params.len()
        invariant
            i <= q.len(),
            q == rf.params@,
            max == scan_params(q.take(i as int), 0),
            max <= 0x1_0000_0000,
        decreases rf.params.len() - i,
    {
        proof {
            assert(q.take(i + 1).drop_last() =~= q.take(i as int));
            assert(q.take(i + 1).last() == q[i as int]);
        }
        let place = match &rf.params[i] {
            Param::Identifier(p) => p,
            Param::Spread(p) => p,
        };
        update_max_temp(&place.identifier.name, &mut max);
        i = i + 1;
    }
    proof {
        assert(q.take(i as int) =~= q);
    }
    scan_max_in_block(&rf.body, &mut max);
    max
}

/// Rename scope outputs to temporaries: starting from one past the highest
/// temporary index already in use, each scope (inner ones first, in program
/// order) renames its eligible declarations to the next temporaries, uses
/// the new names throughout its body, and is followed by `const x = t<N>`
/// per rename, as `renamed_vars_block` states. The function's other fields
/// are unchanged. The counter must not pass `u32::MAX`.
pub fn rename_variables(rf: &mut ReactiveFunction)
    requires
        max_temp_counter(*old(rf)) + decl_count(old(rf).body) <= u32::MAX,
    ensures
        final(rf).loc == old(rf).loc,
        final(rf).id == old(rf).id,
        final(rf).params == old(rf).params,
        final(rf).directives == old(rf).directives,
        final(rf).is_arrow == old(rf).is_arrow,
        final(rf).is_async == old(rf).is_async,
        final(rf).is_generator == old(rf).is_generator,
        exists|c1: nat, t: RenameTrace| renamed_vars_block(final(rf).body, old(rf).body, max_temp_counter(*old(rf)), c1, t),
{
    let start = scan_max_temp_counter(rf);
    let mut counter: u32 = start as u32;
    let t = rename_vars_in_block(&mut rf.body, &mut counter);
    proof {
        assert(renamed_vars_block(rf.body, old(rf).body, max_temp_counter(*old(rf)), counter as nat, t@));
    }
}

} // verus!
