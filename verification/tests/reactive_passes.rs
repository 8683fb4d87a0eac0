use oxc_react_compiler::hir::types::{
    BlockId, DestructureArrayItem, DestructureObjectProperty, DestructurePattern, DestructureTarget, Effect, Identifier,
    IdentifierId, Instruction, InstructionId, InstructionKind, InstructionValue, MutableRange,
    Place, Primitive, ReactiveBlock, ReactiveFunction, ReactiveInstruction, ReactiveScope,
    ReactiveScopeBlock, ReactiveScopeDependency, ReactiveTerminal, ScopeDeclaration, ScopeId,
    SourceLocation, Type, DeclarationId, Param,
};
use oxc_react_compiler::reactive_scopes::cache_slots::has_cache_slots;
use oxc_react_compiler::reactive_scopes::reactive_tree::{
    extract_scope_declarations_from_destructuring, propagate_early_returns,
    prune_hoisted_contexts, prune_non_reactive_dependencies, prune_unused_labels,
};
use oxc_react_compiler::reactive_scopes::stabilize_block_ids::stabilize_block_ids;
use oxc_react_compiler::reactive_scopes::promote_temporaries::promote_used_temporaries;
use oxc_react_compiler::reactive_scopes::inline_load_locals::inline_load_locals;
use oxc_react_compiler::reactive_scopes::rename_variables::rename_variables;
use oxc_react_compiler::reactive_scopes::prune_unused::{prune_unused_lvalues, prune_unused_scopes};
use oxc_react_compiler::reactive_scopes::always_invalidating::prune_always_invalidating_scopes;
use oxc_react_compiler::reactive_scopes::merge_scopes::merge_reactive_scopes_that_invalidate_together;
use oxc_react_compiler::reactive_scopes::prune_non_escaping::prune_non_escaping_scopes;

fn loc(start: u32) -> SourceLocation {
    SourceLocation { start, end: start + 1 }
}

fn ident(id: u32, name: Option<&str>, decl: Option<u32>) -> Identifier {
    Identifier {
        id: IdentifierId(id),
        ssa_version: 0,
        declaration_id: decl.map(DeclarationId),
        name: name.map(|n| n.to_string()),
        mutable_range: MutableRange { start: InstructionId(0), end: InstructionId(0) },
        last_use: InstructionId(0),
        scope: None,
        type_: Type::default(),
        loc: loc(0),
    }
}

fn place(id: u32) -> Place {
    Place { identifier: ident(id, None, None), effect: Effect::Unknown, reactive: false, loc: loc(0) }
}

fn decl_place(id: u32, name: &str, decl: u32) -> Place {
    Place { identifier: ident(id, Some(name), Some(decl)), effect: Effect::Unknown, reactive: false, loc: loc(0) }
}

fn scope(id: u32, deps: usize, decls: &[u32]) -> ReactiveScope {
    ReactiveScope {
        id: ScopeId(id),
        range: MutableRange { start: InstructionId(0), end: InstructionId(10) },
        dependencies: (0..deps)
            .map(|k| ReactiveScopeDependency { identifier: ident(100 + k as u32, None, None), reactive: true, path: vec![] })
            .collect(),
        declarations: decls.iter().map(|d| (IdentifierId(*d), ScopeDeclaration { identifier: ident(*d, None, None) })).collect(),
        reassignments: vec![],
        early_return_value: None,
        merged: vec![],
        loc: loc(40 + id),
        is_allocating: false,
    }
}

fn scope_block(s: ReactiveScope, body: Vec<ReactiveInstruction>) -> ReactiveInstruction {
    ReactiveInstruction::Scope(ReactiveScopeBlock { scope: s, instructions: ReactiveBlock { instructions: body } })
}

fn instr(id: u32, lvalue: Place, value: InstructionValue) -> ReactiveInstruction {
    ReactiveInstruction::Instruction(Instruction { id: InstructionId(id), lvalue, value, loc: loc(id) })
}

fn ret(value: u32, id: u32) -> ReactiveInstruction {
    ReactiveInstruction::Terminal(ReactiveTerminal::Return { value: place(value), id: BlockId(id) })
}

fn function(body: Vec<ReactiveInstruction>) -> ReactiveFunction {
    ReactiveFunction {
        loc: loc(0),
        id: Some("Component".to_string()),
        params: vec![],
        body: ReactiveBlock { instructions: body },
        directives: vec![],
        is_arrow: false,
        is_async: false,
        is_generator: false,
    }
}

#[test]
fn function_without_scopes_has_no_cache_slots() {
    let rf = function(vec![instr(1, place(1), InstructionValue::Primitive { value: Primitive::Null }), ret(1, 0)]);
    assert!(!has_cache_slots(&rf));
}

#[test]
fn sentinel_scope_takes_a_slot() {
    let rf = function(vec![scope_block(scope(0, 0, &[]), vec![]), ret(1, 0)]);
    assert!(has_cache_slots(&rf));
}

#[test]
fn nested_scope_in_branch_takes_slots() {
    let rf = function(vec![ReactiveInstruction::Terminal(ReactiveTerminal::If {
        test: place(1),
        consequent: ReactiveBlock { instructions: vec![] },
        alternate: ReactiveBlock { instructions: vec![scope_block(scope(1, 1, &[2]), vec![])] },
        id: BlockId(0),
    })]);
    assert!(has_cache_slots(&rf));
}

#[test]
fn spread_destructured_declarations_count() {
    let pattern = DestructurePattern::Array {
        items: vec![DestructureArrayItem::Spread(decl_place(7, "a", 3))],
        rest: None,
    };
    let body = vec![
        instr(1, place(6), InstructionValue::DeclareLocal { lvalue: decl_place(5, "a", 3), type_: InstructionKind::Let }),
        instr(2, place(8), InstructionValue::Destructure { value: place(9), lvalue_pattern: pattern }),
    ];
    let rf = function(vec![scope_block(scope(0, 1, &[6]), body)]);
    assert!(has_cache_slots(&rf));
}

#[test]
fn destructured_declarations_still_count() {
    let pattern = DestructurePattern::Object {
        properties: vec![DestructureObjectProperty {
            key: "a".to_string(),
            value: DestructureTarget::Place(decl_place(7, "a", 3)),
            default_value: None,
        }],
        rest: None,
    };
    let body = vec![
        instr(1, place(6), InstructionValue::DeclareLocal { lvalue: decl_place(5, "a", 3), type_: InstructionKind::Let }),
        instr(2, place(8), InstructionValue::Destructure { value: place(9), lvalue_pattern: pattern }),
    ];
    let rf = function(vec![scope_block(scope(0, 1, &[6]), body)]);
    assert!(has_cache_slots(&rf));
}

#[test]
fn trailing_return_becomes_early_return_value() {
    let mut rf = function(vec![
        scope_block(scope(0, 1, &[]), vec![instr(1, place(1), InstructionValue::Primitive { value: Primitive::Null }), ret(5, 9)]),
        scope_block(scope(1, 1, &[]), vec![ret(6, 9), instr(2, place(2), InstructionValue::Primitive { value: Primitive::Null })]),
    ]);
    propagate_early_returns(&mut rf);
    match &rf.body.instructions[0] {
        ReactiveInstruction::Scope(sb) => {
            let e = sb.scope.early_return_value.as_ref().expect("early return expected");
            assert_eq!(e.value.identifier.id, IdentifierId(5));
            assert_eq!(e.loc, loc(40));
        }
        _ => panic!("scope expected"),
    }
    match &rf.body.instructions[1] {
        ReactiveInstruction::Scope(sb) => assert!(sb.scope.early_return_value.is_none()),
        _ => panic!("scope expected"),
    }
}

fn terminal_id(i: &ReactiveInstruction) -> u32 {
    match i {
        ReactiveInstruction::Terminal(ReactiveTerminal::If { id, .. })
        | ReactiveInstruction::Terminal(ReactiveTerminal::Return { id, .. })
        | ReactiveInstruction::Terminal(ReactiveTerminal::Break { id })
        | ReactiveInstruction::Terminal(ReactiveTerminal::Label { id, .. }) => id.0,
        _ => panic!("terminal expected"),
    }
}

#[test]
fn block_ids_are_numbered_in_visiting_order() {
    let mut rf = function(vec![
        ReactiveInstruction::Terminal(ReactiveTerminal::If {
            test: place(1),
            consequent: ReactiveBlock { instructions: vec![ret(1, 90)] },
            alternate: ReactiveBlock {
                instructions: vec![ReactiveInstruction::Terminal(ReactiveTerminal::Break { id: BlockId(70) })],
            },
            id: BlockId(30),
        }),
        scope_block(scope(0, 0, &[]), vec![ret(2, 200)]),
        ReactiveInstruction::Terminal(ReactiveTerminal::Label {
            block: ReactiveBlock { instructions: vec![ret(3, 5)] },
            id: BlockId(11),
            label: 4,
        }),
    ]);
    stabilize_block_ids(&mut rf);
    let body = &rf.body.instructions;
    assert_eq!(terminal_id(&body[0]), 0);
    match &body[0] {
        ReactiveInstruction::Terminal(ReactiveTerminal::If { consequent, alternate, .. }) => {
            assert_eq!(terminal_id(&consequent.instructions[0]), 1);
            assert_eq!(terminal_id(&alternate.instructions[0]), 2);
        }
        _ => panic!("if expected"),
    }
    match &body[1] {
        ReactiveInstruction::Scope(sb) => assert_eq!(terminal_id(&sb.instructions.instructions[0]), 3),
        _ => panic!("scope expected"),
    }
    assert_eq!(terminal_id(&body[2]), 4);
    match &body[2] {
        ReactiveInstruction::Terminal(ReactiveTerminal::Label { block, label, .. }) => {
            assert_eq!(*label, 4);
            assert_eq!(terminal_id(&block.instructions[0]), 5);
        }
        _ => panic!("label expected"),
    }
}

#[test]
fn identity_passes_keep_the_function() {
    let mut rf = function(vec![scope_block(scope(0, 2, &[3]), vec![ret(1, 8)])]);
    prune_non_reactive_dependencies(&mut rf);
    prune_unused_labels(&mut rf);
    prune_hoisted_contexts(&mut rf);
    extract_scope_declarations_from_destructuring(&mut rf);
    match &rf.body.instructions[0] {
        ReactiveInstruction::Scope(sb) => {
            assert_eq!(sb.scope.dependencies.len(), 2);
            assert_eq!(sb.scope.declarations.len(), 1);
            assert_eq!(terminal_id(&sb.instructions.instructions[0]), 8);
        }
        _ => panic!("scope expected"),
    }
}

#[test]
fn unnamed_temporaries_are_named_by_id() {
    let mut rf = function(vec![
        instr(1, place(3), InstructionValue::CallExpression { callee: decl_place(4, "f", 1), args: vec![place(12), decl_place(5, "x", 2)] }),
        scope_block(scope(0, 1, &[7]), vec![instr(2, place(7), InstructionValue::LoadLocal { place: place(3) })]),
        ret(7, 0),
    ]);
    promote_used_temporaries(&mut rf);
    let body = &rf.body.instructions;
    match &body[0] {
        ReactiveInstruction::Instruction(i) => {
            assert_eq!(i.lvalue.identifier.name.as_deref(), Some("t3"));
            match &i.value {
                InstructionValue::CallExpression { callee, args } => {
                    assert_eq!(callee.identifier.name.as_deref(), Some("f"));
                    assert_eq!(args[0].identifier.name.as_deref(), Some("t12"));
                    assert_eq!(args[1].identifier.name.as_deref(), Some("x"));
                }
                _ => panic!("call expected"),
            }
        }
        _ => panic!("instruction expected"),
    }
    match &body[1] {
        ReactiveInstruction::Scope(sb) => {
            assert_eq!(sb.scope.dependencies[0].identifier.name.as_deref(), Some("t100"));
            assert_eq!(sb.scope.declarations[0].1.identifier.name.as_deref(), Some("t7"));
            match &sb.instructions.instructions[0] {
                ReactiveInstruction::Instruction(i) => assert_eq!(i.lvalue.identifier.name.as_deref(), Some("t7")),
                _ => panic!("instruction expected"),
            }
        }
        _ => panic!("scope expected"),
    }
    match &body[2] {
        ReactiveInstruction::Terminal(ReactiveTerminal::Return { value, .. }) => {
            assert_eq!(value.identifier.name.as_deref(), Some("t7"))
        }
        _ => panic!("return expected"),
    }
}

fn returned_identifier(rf: &ReactiveFunction) -> (u32, Option<String>) {
    match rf.body.instructions.last() {
        Some(ReactiveInstruction::Terminal(ReactiveTerminal::Return { value, .. })) => {
            (value.identifier.id.0, value.identifier.name.clone())
        }
        _ => panic!("expected a return"),
    }
}

#[test]
fn inline_load_locals_replaces_a_loaded_temporary() {
    let mut rf = function(vec![
        instr(1, place(1), InstructionValue::LoadLocal { place: decl_place(5, "x", 5) }),
        ret(1, 0),
    ]);
    inline_load_locals(&mut rf);
    assert_eq!(returned_identifier(&rf), (5, Some("x".to_string())));
}

#[test]
fn inline_load_locals_follows_chains() {
    let mut rf = function(vec![
        instr(1, place(1), InstructionValue::LoadLocal { place: decl_place(5, "x", 5) }),
        instr(2, place(2), InstructionValue::LoadLocal { place: place(1) }),
        ret(2, 0),
    ]);
    inline_load_locals(&mut rf);
    assert_eq!(returned_identifier(&rf), (5, Some("x".to_string())));
    match &rf.body.instructions[1] {
        ReactiveInstruction::Instruction(i) => match &i.value {
            InstructionValue::LoadLocal { place } => assert_eq!(place.identifier.id.0, 5),
            _ => panic!("expected a load"),
        },
        _ => panic!("expected an instruction"),
    }
}

#[test]
fn inline_load_locals_sees_named_loads_inside_scopes() {
    let body = vec![instr(3, place(3), InstructionValue::LoadLocal { place: decl_place(6, "y", 6) })];
    let mut rf = function(vec![scope_block(scope(0, 0, &[]), body), ret(3, 0)]);
    inline_load_locals(&mut rf);
    assert_eq!(returned_identifier(&rf), (6, Some("y".to_string())));
}

#[test]
fn inline_load_locals_keeps_named_lvalues() {
    let mut rf = function(vec![
        instr(1, decl_place(1, "z", 1), InstructionValue::LoadLocal { place: decl_place(5, "x", 5) }),
        ret(1, 0),
    ]);
    inline_load_locals(&mut rf);
    assert_eq!(returned_identifier(&rf).0, 1);
}

fn named_scope(id: u32, decl_id: u32, name: &str) -> ReactiveScope {
    let mut s = scope(id, 1, &[]);
    s.declarations = vec![(IdentifierId(decl_id), ScopeDeclaration { identifier: ident(decl_id, Some(name), Some(decl_id)) })];
    s
}

fn store_x(id: u32) -> ReactiveInstruction {
    instr(
        id,
        decl_place(5, "x", 5),
        InstructionValue::StoreLocal { lvalue: decl_place(5, "x", 5), value: place(2), type_: Some(InstructionKind::Const) },
    )
}

fn scope_decl_name(i: &ReactiveInstruction) -> Option<String> {
    match i {
        ReactiveInstruction::Scope(sb) => sb.scope.declarations[0].1.identifier.name.clone(),
        _ => panic!("expected a scope"),
    }
}

#[test]
fn rename_variables_renames_a_scope_output() {
    let mut rf = function(vec![scope_block(named_scope(0, 5, "x"), vec![store_x(1)]), ret(9, 0)]);
    rename_variables(&mut rf);
    assert_eq!(rf.body.instructions.len(), 3);
    assert_eq!(scope_decl_name(&rf.body.instructions[0]), Some("t0".to_string()));
    match &rf.body.instructions[0] {
        ReactiveInstruction::Scope(sb) => match &sb.instructions.instructions[0] {
            ReactiveInstruction::Instruction(i) => assert_eq!(i.lvalue.identifier.name, Some("t0".to_string())),
            _ => panic!("expected an instruction"),
        },
        _ => panic!("expected a scope"),
    }
    match &rf.body.instructions[1] {
        ReactiveInstruction::Instruction(i) => match &i.value {
            InstructionValue::StoreLocal { lvalue, value, type_ } => {
                assert_eq!(lvalue.identifier.name, Some("x".to_string()));
                assert_eq!(value.identifier.name, Some("t0".to_string()));
                assert_eq!(*type_, Some(InstructionKind::Const));
            }
            _ => panic!("expected a store"),
        },
        _ => panic!("expected an instruction"),
    }
}

#[test]
fn rename_variables_counts_from_existing_temporaries() {
    let mut rf = function(vec![scope_block(named_scope(0, 5, "x"), vec![store_x(1)])]);
    rf.params = vec![Param::Identifier(decl_place(3, "t3", 3))];
    rename_variables(&mut rf);
    assert_eq!(scope_decl_name(&rf.body.instructions[0]), Some("t4".to_string()));
}

#[test]
fn rename_variables_keeps_outputs_read_in_the_scope() {
    let read = instr(2, place(7), InstructionValue::LoadLocal { place: decl_place(5, "x", 5) });
    let mut rf = function(vec![scope_block(named_scope(0, 5, "x"), vec![store_x(1), read])]);
    rename_variables(&mut rf);
    assert_eq!(rf.body.instructions.len(), 1);
    assert_eq!(scope_decl_name(&rf.body.instructions[0]), Some("x".to_string()));
}

fn null_instr(id: u32, lvalue: u32) -> ReactiveInstruction {
    instr(id, place(lvalue), InstructionValue::Primitive { value: Primitive::Null })
}

#[test]
fn prune_unused_scopes_dissolves_an_unreferenced_scope() {
    let mut rf = function(vec![scope_block(scope(0, 0, &[8]), vec![null_instr(1, 1)]), ret(1, 0)]);
    prune_unused_scopes(&mut rf);
    assert_eq!(rf.body.instructions.len(), 2);
    assert!(matches!(rf.body.instructions[0], ReactiveInstruction::Instruction(_)));
}

#[test]
fn prune_unused_scopes_keeps_scopes_with_dependencies_or_used_outputs() {
    let mut rf = function(vec![
        scope_block(scope(0, 1, &[8]), vec![null_instr(1, 1)]),
        scope_block(scope(1, 0, &[2]), vec![null_instr(2, 2)]),
    ]);
    prune_unused_scopes(&mut rf);
    assert_eq!(rf.body.instructions.len(), 2);
    assert!(matches!(rf.body.instructions[0], ReactiveInstruction::Scope(_)));
    assert!(matches!(rf.body.instructions[1], ReactiveInstruction::Scope(_)));
}

#[test]
fn prune_unused_lvalues_keeps_every_recorded_result() {
    let mut rf = function(vec![
        null_instr(1, 1),
        instr(2, place(2), InstructionValue::LoadLocal { place: place(1) }),
        ret(2, 0),
    ]);
    prune_unused_lvalues(&mut rf);
    assert_eq!(rf.body.instructions.len(), 3);
}

fn scope_depending_on(id: u32, dep: u32, body: Vec<ReactiveInstruction>) -> ReactiveInstruction {
    let mut s = scope(id, 0, &[]);
    s.dependencies = vec![ReactiveScopeDependency { identifier: ident(dep, None, None), reactive: true, path: vec![] }];
    scope_block(s, body)
}

#[test]
fn prune_always_invalidating_scopes_unwraps_scopes_on_fresh_values() {
    let mut rf = function(vec![
        instr(1, place(1), InstructionValue::ArrayExpression { elements: vec![] }),
        scope_depending_on(0, 1, vec![null_instr(2, 2), null_instr(3, 3)]),
        ret(3, 0),
    ]);
    prune_always_invalidating_scopes(&mut rf);
    assert_eq!(rf.body.instructions.len(), 4);
    assert!(rf.body.instructions.iter().all(|i| !matches!(i, ReactiveInstruction::Scope(_))));
}

#[test]
fn prune_always_invalidating_scopes_keeps_scopes_on_memoized_values() {
    let mut rf = function(vec![
        scope_block(scope(0, 0, &[1]), vec![instr(1, place(1), InstructionValue::ArrayExpression { elements: vec![] })]),
        scope_depending_on(1, 1, vec![null_instr(2, 2)]),
    ]);
    prune_always_invalidating_scopes(&mut rf);
    assert_eq!(rf.body.instructions.len(), 2);
    assert!(matches!(rf.body.instructions[1], ReactiveInstruction::Scope(_)));
}

fn object_ident(id: u32) -> Identifier {
    Identifier { type_: Type::Object, ..ident(id, None, None) }
}

fn merge_scope(id: u32, dep: u32, decl: u32, start: u32, end: u32, body: Vec<ReactiveInstruction>) -> ReactiveInstruction {
    let s = ReactiveScope {
        id: ScopeId(id),
        range: MutableRange { start: InstructionId(start), end: InstructionId(end) },
        dependencies: vec![ReactiveScopeDependency { identifier: ident(dep, None, None), reactive: true, path: vec![] }],
        declarations: vec![(IdentifierId(decl), ScopeDeclaration { identifier: object_ident(decl) })],
        reassignments: vec![],
        early_return_value: None,
        merged: vec![],
        loc: loc(40 + id),
        is_allocating: false,
    };
    scope_block(s, body)
}

fn scope_summary(i: &ReactiveInstruction) -> Option<(u32, Vec<u32>, Vec<u32>, u32, usize)> {
    match i {
        ReactiveInstruction::Scope(sb) => Some((
            sb.scope.id.0,
            sb.scope.merged.iter().map(|m| m.0).collect(),
            sb.instructions.instructions.iter().map(|x| match x {
                ReactiveInstruction::Instruction(ins) => ins.id.0,
                _ => 0,
            }).collect(),
            sb.scope.range.end.0,
            sb.scope.dependencies.len(),
        )),
        _ => None,
    }
}

#[test]
fn merge_scopes_joins_scopes_with_the_same_dependencies() {
    let mut rf = function(vec![
        merge_scope(0, 100, 5, 1, 3, vec![null_instr(1, 5)]),
        merge_scope(1, 100, 6, 3, 5, vec![null_instr(3, 6)]),
        ret(6, 0),
    ]);
    merge_reactive_scopes_that_invalidate_together(&mut rf);
    assert_eq!(rf.body.instructions.len(), 2);
    assert_eq!(scope_summary(&rf.body.instructions[0]), Some((0, vec![1], vec![1, 3], 5, 1)));
    match &rf.body.instructions[0] {
        ReactiveInstruction::Scope(sb) => {
            let decls: Vec<u32> = sb.scope.declarations.iter().map(|d| d.0 .0).collect();
            assert_eq!(decls, vec![5, 6]);
            assert_eq!(sb.scope.range.start.0, 1);
        }
        _ => panic!("expected a scope"),
    }
}

#[test]
fn merge_scopes_keeps_scopes_with_different_dependencies() {
    let mut rf = function(vec![
        merge_scope(0, 100, 5, 1, 3, vec![null_instr(1, 5)]),
        merge_scope(1, 101, 6, 3, 5, vec![null_instr(3, 6)]),
        ret(6, 0),
    ]);
    merge_reactive_scopes_that_invalidate_together(&mut rf);
    assert_eq!(rf.body.instructions.len(), 3);
    assert_eq!(scope_summary(&rf.body.instructions[0]), Some((0, vec![], vec![1], 3, 1)));
    assert_eq!(scope_summary(&rf.body.instructions[1]), Some((1, vec![], vec![3], 5, 1)));
}

#[test]
fn merge_scopes_absorbs_simple_instructions_between() {
    let mut rf = function(vec![
        merge_scope(0, 100, 5, 1, 3, vec![null_instr(1, 5)]),
        null_instr(2, 20),
        merge_scope(1, 100, 6, 3, 5, vec![null_instr(3, 6)]),
        ret(6, 0),
    ]);
    merge_reactive_scopes_that_invalidate_together(&mut rf);
    assert_eq!(rf.body.instructions.len(), 2);
    assert_eq!(scope_summary(&rf.body.instructions[0]), Some((0, vec![1], vec![1, 2, 3], 5, 1)));
}

#[test]
fn merge_scopes_stops_at_values_read_after_the_scope() {
    let mut rf = function(vec![
        merge_scope(0, 100, 5, 1, 3, vec![null_instr(1, 5)]),
        null_instr(2, 20),
        merge_scope(1, 100, 6, 3, 5, vec![null_instr(3, 6)]),
        ret(20, 0),
    ]);
    merge_reactive_scopes_that_invalidate_together(&mut rf);
    assert_eq!(rf.body.instructions.len(), 4);
    assert_eq!(scope_summary(&rf.body.instructions[0]), Some((0, vec![], vec![1], 3, 1)));
}

#[test]
fn merge_scopes_does_not_merge_across_terminals() {
    let mut rf = function(vec![
        merge_scope(0, 100, 5, 1, 3, vec![null_instr(1, 5)]),
        ReactiveInstruction::Terminal(ReactiveTerminal::If {
            test: place(1),
            consequent: ReactiveBlock { instructions: vec![] },
            alternate: ReactiveBlock { instructions: vec![] },
            id: BlockId(1),
        }),
        merge_scope(1, 100, 6, 3, 5, vec![null_instr(3, 6)]),
        ret(6, 0),
    ]);
    merge_reactive_scopes_that_invalidate_together(&mut rf);
    assert_eq!(rf.body.instructions.len(), 4);
}

#[test]
fn merge_scopes_flattens_a_nested_scope_with_the_same_dependencies() {
    let inner = merge_scope(1, 100, 6, 2, 4, vec![null_instr(2, 6)]);
    let mut rf = function(vec![merge_scope(0, 100, 5, 1, 5, vec![inner]), ret(6, 0)]);
    merge_reactive_scopes_that_invalidate_together(&mut rf);
    assert_eq!(rf.body.instructions.len(), 2);
    assert_eq!(scope_summary(&rf.body.instructions[0]), Some((0, vec![1], vec![2], 5, 1)));
}

#[test]
fn merge_scopes_works_inside_branches() {
    let mut rf = function(vec![ReactiveInstruction::Terminal(ReactiveTerminal::If {
        test: place(1),
        consequent: ReactiveBlock {
            instructions: vec![
                merge_scope(0, 100, 5, 1, 3, vec![null_instr(1, 5)]),
                merge_scope(1, 100, 6, 3, 5, vec![null_instr(3, 6)]),
            ],
        },
        alternate: ReactiveBlock { instructions: vec![] },
        id: BlockId(1),
    })]);
    merge_reactive_scopes_that_invalidate_together(&mut rf);
    match &rf.body.instructions[0] {
        ReactiveInstruction::Terminal(ReactiveTerminal::If { consequent, .. }) => {
            assert_eq!(consequent.instructions.len(), 1);
            assert_eq!(scope_summary(&consequent.instructions[0]), Some((0, vec![1], vec![1, 3], 5, 1)));
        }
        _ => panic!("expected an if"),
    }
}

fn declaring_scope(id: u32, decl: u32, body: Vec<ReactiveInstruction>) -> ReactiveInstruction {
    scope_block(scope(id, 0, &[decl]), body)
}

fn if_on(test: u32) -> ReactiveInstruction {
    ReactiveInstruction::Terminal(ReactiveTerminal::If {
        test: place(test),
        consequent: ReactiveBlock { instructions: vec![] },
        alternate: ReactiveBlock { instructions: vec![] },
        id: BlockId(1),
    })
}

#[test]
fn prune_non_escaping_dissolves_a_scope_nobody_reads() {
    let mut rf = function(vec![declaring_scope(0, 5, vec![null_instr(1, 5)]), ret(9, 0)]);
    prune_non_escaping_scopes(&mut rf);
    assert_eq!(rf.body.instructions.len(), 2);
    assert!(matches!(&rf.body.instructions[0], ReactiveInstruction::Instruction(i) if i.id.0 == 1));
}

#[test]
fn prune_non_escaping_keeps_a_returned_output() {
    let mut rf = function(vec![declaring_scope(0, 5, vec![null_instr(1, 5)]), ret(5, 0)]);
    prune_non_escaping_scopes(&mut rf);
    assert_eq!(rf.body.instructions.len(), 2);
    assert!(matches!(&rf.body.instructions[0], ReactiveInstruction::Scope(_)));
}

#[test]
fn prune_non_escaping_dissolves_an_output_only_tested() {
    let mut rf = function(vec![declaring_scope(0, 5, vec![null_instr(1, 5)]), if_on(5)]);
    prune_non_escaping_scopes(&mut rf);
    assert_eq!(rf.body.instructions.len(), 2);
    assert!(matches!(&rf.body.instructions[0], ReactiveInstruction::Instruction(_)));
}

#[test]
fn prune_non_escaping_follows_stores_into_tested_values() {
    let store = instr(
        2,
        place(20),
        InstructionValue::StoreLocal { lvalue: place(6), value: place(5), type_: Some(InstructionKind::Const) },
    );
    let mut rf = function(vec![declaring_scope(0, 5, vec![null_instr(1, 5)]), store, if_on(6)]);
    prune_non_escaping_scopes(&mut rf);
    assert_eq!(rf.body.instructions.len(), 3);
    assert!(matches!(&rf.body.instructions[0], ReactiveInstruction::Instruction(_)));
}

#[test]
fn prune_non_escaping_keeps_a_value_stored_and_read() {
    let store = instr(
        2,
        place(20),
        InstructionValue::StoreLocal { lvalue: place(6), value: place(5), type_: Some(InstructionKind::Const) },
    );
    let mut rf = function(vec![declaring_scope(0, 5, vec![null_instr(1, 5)]), store, if_on(6), ret(5, 0)]);
    prune_non_escaping_scopes(&mut rf);
    assert_eq!(rf.body.instructions.len(), 4);
    assert!(matches!(&rf.body.instructions[0], ReactiveInstruction::Scope(_)));
}

#[test]
fn prune_non_escaping_keeps_scopes_without_declarations() {
    let mut rf = function(vec![scope_block(scope(0, 0, &[]), vec![null_instr(1, 5)]), ret(9, 0)]);
    prune_non_escaping_scopes(&mut rf);
    assert!(matches!(&rf.body.instructions[0], ReactiveInstruction::Scope(_)));
}
