use oxc_react_compiler::hir::types::{
    BasicBlock, BlockId, BlockKind, Param, DependencyPathEntry, Effect, FunctionExprType, HIRFunction,
    Identifier, IdentifierId, Instruction, InstructionId, InstructionValue, MutableRange,
    ObjectProperty, ObjectPropertyKey, Phi, Place, Primitive, ReactiveScope, ReactiveScopeDependency,
    ScopeId, SourceLocation, Terminal, Type, HIR,
};
use oxc_react_compiler::optimization::dead_code_elimination::dead_code_elimination;
use oxc_react_compiler::optimization::merge_consecutive_blocks::merge_consecutive_blocks;
use oxc_react_compiler::optimization::name_anonymous_functions::name_anonymous_functions;
use oxc_react_compiler::optimization::inline_iife::inline_iife;
use oxc_react_compiler::optimization::optimize_props_method_calls::optimize_props_method_calls;
use oxc_react_compiler::optimization::optimize_for_ssr::optimize_for_ssr;
use oxc_react_compiler::optimization::outline_functions::outline_functions;
use oxc_react_compiler::optimization::outline_jsx::outline_jsx;
use oxc_react_compiler::optimization::prune_maybe_throws::prune_maybe_throws;
use oxc_react_compiler::optimization::prune_temporary_lvalues::prune_temporary_lvalues;
use oxc_react_compiler::reactive_scopes::scope_membership::propagate_scope_membership_hir;
use oxc_react_compiler::reactive_scopes::scope_terminals::build_reactive_scope_terminals_hir;
use oxc_react_compiler::reactive_scopes::align_scopes::{
    align_method_call_scopes, align_object_method_scopes,
    align_reactive_scopes_to_block_scopes_hir, prune_unused_labels_hir,
};
use oxc_react_compiler::reactive_scopes::derive_minimal_dependencies::derive_minimal_dependencies_hir;
use oxc_react_compiler::reactive_scopes::flatten_loops::{
    flatten_reactive_loops_hir, memoize_fbt_and_macro_operands_in_same_scope,
};

fn loc() -> SourceLocation {
    SourceLocation { start: 0, end: 0 }
}

fn range(start: u32, end: u32) -> MutableRange {
    MutableRange { start: InstructionId(start), end: InstructionId(end) }
}

fn scope(id: u32, start: u32, end: u32) -> ReactiveScope {
    ReactiveScope {
        id: ScopeId(id),
        range: range(start, end),
        dependencies: Vec::new(),
        declarations: Vec::new(),
        reassignments: Vec::new(),
        early_return_value: None,
        merged: Vec::new(),
        loc: loc(),
        is_allocating: false,
    }
}

fn ident(id: u32, name: Option<&str>, scope: Option<ReactiveScope>) -> Identifier {
    Identifier {
        id: IdentifierId(id),
        ssa_version: 0,
        declaration_id: None,
        name: name.map(|n| n.to_string()),
        mutable_range: range(0, 0),
        last_use: InstructionId(0),
        scope: scope.map(Box::new),
        type_: Type::default(),
        loc: loc(),
    }
}

fn place(id: u32) -> Place {
    Place { identifier: ident(id, None, None), effect: Effect::Unknown, reactive: false, loc: loc() }
}

fn reactive_place(id: u32) -> Place {
    Place { identifier: ident(id, None, None), effect: Effect::Read, reactive: true, loc: loc() }
}

fn named_place(id: u32, name: &str) -> Place {
    Place { identifier: ident(id, Some(name), None), effect: Effect::Unknown, reactive: false, loc: loc() }
}

fn scoped_place(id: u32, s: ReactiveScope) -> Place {
    Place { identifier: ident(id, None, Some(s)), effect: Effect::Unknown, reactive: false, loc: loc() }
}

fn instr(id: u32, lvalue: Place, value: InstructionValue) -> Instruction {
    Instruction { id: InstructionId(id), lvalue, value, loc: loc() }
}

fn undefined() -> InstructionValue {
    InstructionValue::Primitive { value: Primitive::Undefined }
}

fn block(id: u32, instructions: Vec<Instruction>, terminal: Terminal) -> (BlockId, BasicBlock) {
    (
        BlockId(id),
        BasicBlock {
            kind: BlockKind::Block,
            id: BlockId(id),
            instructions,
            terminal,
            preds: Vec::new(),
            phis: Vec::new(),
        },
    )
}

fn ret(id: u32) -> Terminal {
    Terminal::Return { value: place(id) }
}

fn hir(blocks: Vec<(BlockId, BasicBlock)>) -> HIR {
    HIR { entry: BlockId(0), blocks }
}

fn lvalue_scope_range(hir: &HIR, b: usize, i: usize) -> Option<(u32, u32)> {
    hir.blocks[b].1.instructions[i]
        .lvalue
        .identifier
        .scope
        .as_ref()
        .map(|s| (s.range.start.0, s.range.end.0))
}

fn make_dep(id: u32, path: &[&str]) -> ReactiveScopeDependency {
    ReactiveScopeDependency {
        identifier: Identifier {
            id: IdentifierId(id),
            ssa_version: 0,
            declaration_id: None,
            name: Some(format!("v{id}")),
            mutable_range: range(0, 0),
            last_use: InstructionId(0),
            scope: None,
            type_: Type::default(),
            loc: loc(),
        },
        reactive: true,
        path: path
            .iter()
            .map(|p| DependencyPathEntry { property: p.to_string(), optional: false })
            .collect(),
    }
}

fn make_instruction_with_scope(deps: Vec<ReactiveScopeDependency>) -> Instruction {
    let mut s = scope(0, 0, 10);
    s.dependencies = deps;
    Instruction {
        id: InstructionId(0),
        lvalue: Place {
            identifier: ident(99, None, Some(s)),
            effect: Effect::Unknown,
            reactive: false,
            loc: loc(),
        },
        value: undefined(),
        loc: loc(),
    }
}

#[test]
fn test_minimize_removes_subsumed_dep() {
    let deps = vec![make_dep(1, &["a"]), make_dep(1, &["a", "b"])];
    let mut hir = hir(vec![block(0, vec![make_instruction_with_scope(deps)], ret(0))]);

    derive_minimal_dependencies_hir(&mut hir);

    let scope = hir.blocks[0].1.instructions[0].lvalue.identifier.scope.as_ref().unwrap();
    assert_eq!(scope.dependencies.len(), 1);
    assert_eq!(scope.dependencies[0].path.len(), 1);
    assert_eq!(scope.dependencies[0].path[0].property, "a");
}

#[test]
fn test_keeps_divergent_paths() {
    let deps = vec![make_dep(1, &["a"]), make_dep(1, &["b"])];
    let mut hir = hir(vec![block(0, vec![make_instruction_with_scope(deps)], ret(0))]);

    derive_minimal_dependencies_hir(&mut hir);

    let scope = hir.blocks[0].1.instructions[0].lvalue.identifier.scope.as_ref().unwrap();
    assert_eq!(scope.dependencies.len(), 2);
}

#[test]
fn minimal_dependencies_leave_single_dependency_alone() {
    let deps = vec![make_dep(1, &["a", "b"])];
    let mut hir = hir(vec![block(0, vec![make_instruction_with_scope(deps)], ret(0))]);
    derive_minimal_dependencies_hir(&mut hir);
    let scope = hir.blocks[0].1.instructions[0].lvalue.identifier.scope.as_ref().unwrap();
    assert_eq!(scope.dependencies.len(), 1);
    assert_eq!(scope.dependencies[0].path.len(), 2);
}

#[test]
fn minimal_dependencies_keep_root_over_paths() {
    let deps = vec![make_dep(1, &["a", "b"]), make_dep(2, &["c"]), make_dep(1, &[]), make_dep(1, &["d"])];
    let mut hir = hir(vec![block(0, vec![make_instruction_with_scope(deps)], ret(0))]);
    derive_minimal_dependencies_hir(&mut hir);
    let scope = hir.blocks[0].1.instructions[0].lvalue.identifier.scope.as_ref().unwrap();
    let ids: Vec<(u32, usize)> =
        scope.dependencies.iter().map(|d| (d.identifier.id.0, d.path.len())).collect();
    assert_eq!(ids, vec![(2, 1), (1, 0)]);
}

#[test]
fn maybe_throw_without_throwing_instruction_becomes_goto() {
    let mut h = hir(vec![
        block(0, vec![instr(1, place(1), undefined())], Terminal::MaybeThrow {
            continuation: BlockId(1),
            handler: BlockId(2),
        }),
        block(1, vec![instr(2, place(2), InstructionValue::CallExpression { callee: place(1), args: vec![] })], Terminal::MaybeThrow {
            continuation: BlockId(2),
            handler: BlockId(3),
        }),
        block(2, vec![], ret(0)),
    ]);
    prune_maybe_throws(&mut h);
    assert!(matches!(h.blocks[0].1.terminal, Terminal::Goto { block: BlockId(1) }));
    assert!(matches!(h.blocks[1].1.terminal, Terminal::MaybeThrow { continuation: BlockId(2), handler: BlockId(3) }));
    assert!(matches!(h.blocks[2].1.terminal, Terminal::Return { .. }));
    assert_eq!(h.blocks[1].1.instructions.len(), 1);
}

#[test]
fn ssr_strips_phis_and_operand_scopes() {
    let mut blk = block(
        0,
        vec![instr(1, place(7), InstructionValue::LoadLocal { place: scoped_place(5, scope(0, 0, 3)) })],
        Terminal::Return { value: reactive_place(7) },
    );
    blk.1.phis.push(Phi { place: reactive_place(8), operands: vec![(BlockId(1), reactive_place(9))] });
    let mut h = hir(vec![blk]);
    optimize_for_ssr(&mut h);
    let b = &h.blocks[0].1;
    assert!(!b.phis[0].place.reactive);
    assert!(!b.phis[0].operands[0].1.reactive);
    assert_eq!(b.phis[0].operands[0].0, BlockId(1));
    match &b.instructions[0].value {
        InstructionValue::LoadLocal { place } => assert!(place.identifier.scope.is_none()),
        _ => panic!("load expected"),
    }
}

#[test]
fn ssr_strips_scopes_and_reactivity() {
    let mut h = hir(vec![block(
        0,
        vec![
            instr(1, scoped_place(5, scope(0, 0, 3)), InstructionValue::CallExpression {
                callee: reactive_place(1),
                args: vec![reactive_place(2), reactive_place(3)],
            }),
            instr(2, reactive_place(6), InstructionValue::ComputedLoad {
                object: reactive_place(4),
                property: reactive_place(5),
            }),
        ],
        Terminal::Return { value: reactive_place(6) },
    )]);
    optimize_for_ssr(&mut h);
    let b = &h.blocks[0].1;
    assert!(b.instructions[0].lvalue.identifier.scope.is_none());
    assert!(!b.instructions[1].lvalue.reactive);
    match &b.instructions[0].value {
        InstructionValue::CallExpression { callee, args } => {
            assert!(!callee.reactive);
            assert!(args.iter().all(|a| !a.reactive));
            assert_eq!(args.len(), 2);
        }
        _ => panic!("call expression expected"),
    }
    match &b.instructions[1].value {
        InstructionValue::ComputedLoad { object, property } => {
            assert!(!object.reactive);
            assert!(!property.reactive);
        }
        _ => panic!("computed load expected"),
    }
    match &b.terminal {
        Terminal::Return { value } => assert!(!value.reactive),
        _ => panic!("return expected"),
    }
}

#[test]
fn method_call_scope_covers_receiver_scope() {
    let mut h = hir(vec![block(
        0,
        vec![
            instr(4, scoped_place(9, scope(1, 4, 8)), InstructionValue::MethodCall {
                receiver: scoped_place(3, scope(2, 2, 5)),
                property: "map".to_string(),
                args: vec![],
            }),
            instr(5, scoped_place(10, scope(3, 6, 7)), InstructionValue::MethodCall {
                receiver: place(3),
                property: "map".to_string(),
                args: vec![],
            }),
        ],
        ret(9),
    )]);
    align_method_call_scopes(&mut h);
    assert_eq!(lvalue_scope_range(&h, 0, 0), Some((2, 8)));
    assert_eq!(lvalue_scope_range(&h, 0, 1), Some((6, 7)));
}

#[test]
fn object_scope_covers_property_scopes() {
    let prop = |p: Place| ObjectProperty { key: ObjectPropertyKey::Identifier("k".to_string()), value: p, shorthand: false };
    let mut h = hir(vec![block(
        0,
        vec![instr(5, scoped_place(9, scope(1, 5, 6)), InstructionValue::ObjectExpression {
            properties: vec![prop(scoped_place(1, scope(2, 3, 4))), prop(place(2)), prop(scoped_place(3, scope(3, 4, 9)))],
        })],
        ret(9),
    )]);
    align_object_method_scopes(&mut h);
    assert_eq!(lvalue_scope_range(&h, 0, 0), Some((3, 9)));
}

#[test]
fn scopes_are_clamped_to_their_block() {
    let mut h = hir(vec![
        block(0, vec![
            instr(3, scoped_place(1, scope(1, 0, 20)), undefined()),
            instr(5, scoped_place(2, scope(2, 4, 5)), undefined()),
        ], Terminal::Goto { block: BlockId(1) }),
        block(1, vec![], ret(0)),
    ]);
    align_reactive_scopes_to_block_scopes_hir(&mut h);
    assert_eq!(lvalue_scope_range(&h, 0, 0), Some((3, 6)));
    assert_eq!(lvalue_scope_range(&h, 0, 1), Some((4, 5)));
}

#[test]
fn labels_are_kept() {
    let mut h = hir(vec![
        block(0, vec![], Terminal::Label { block: BlockId(1), fallthrough: BlockId(2), label: 7 }),
        block(1, vec![], Terminal::Goto { block: BlockId(2) }),
        block(2, vec![], ret(0)),
    ]);
    prune_unused_labels_hir(&mut h);
    assert_eq!(h.blocks.len(), 3);
    assert!(matches!(h.blocks[0].1.terminal, Terminal::Label { label: 7, .. }));
}

#[test]
fn loop_body_scopes_are_removed() {
    let mut h = hir(vec![
        block(0, vec![instr(1, scoped_place(1, scope(1, 1, 2)), undefined())], Terminal::While {
            test: BlockId(1),
            body: BlockId(2),
            fallthrough: BlockId(3),
        }),
        block(1, vec![instr(2, scoped_place(2, scope(2, 2, 3)), undefined())], Terminal::Goto { block: BlockId(2) }),
        block(2, vec![instr(3, scoped_place(3, scope(3, 3, 4)), undefined())], Terminal::Goto { block: BlockId(1) }),
        block(3, vec![], ret(0)),
    ]);
    flatten_reactive_loops_hir(&mut h);
    assert!(h.blocks[0].1.instructions[0].lvalue.identifier.scope.is_some());
    assert!(h.blocks[1].1.instructions[0].lvalue.identifier.scope.is_some());
    assert!(h.blocks[2].1.instructions[0].lvalue.identifier.scope.is_none());
}

#[test]
fn fbt_pass_leaves_graph_unchanged() {
    let mut h = hir(vec![block(0, vec![instr(1, scoped_place(1, scope(1, 1, 2)), undefined())], ret(1))]);
    memoize_fbt_and_macro_operands_in_same_scope(&mut h);
    assert_eq!(lvalue_scope_range(&h, 0, 0), Some((1, 2)));
    assert_eq!(h.blocks.len(), 1);
}

fn function_expr(name: Option<&str>, context: Vec<Place>, is_async: bool) -> InstructionValue {
    InstructionValue::FunctionExpression {
        name: name.map(|n| n.to_string()),
        lowered_func: Box::new(HIRFunction {
            params: vec![],
            body: hir(vec![block(0, vec![], ret(0))]),
            context,
            is_generator: false,
            is_async,
        }),
        expr_type: FunctionExprType::ArrowFunction,
    }
}

fn function_name(h: &HIR, b: usize, i: usize) -> Option<String> {
    match &h.blocks[b].1.instructions[i].value {
        InstructionValue::FunctionExpression { name, .. } => name.clone(),
        _ => panic!("function expression expected"),
    }
}

#[test]
fn capture_free_functions_are_marked_hoistable() {
    let mut h = hir(vec![block(
        0,
        vec![
            instr(1, place(7), function_expr(None, vec![], false)),
            instr(2, place(8), function_expr(None, vec![place(1)], false)),
            instr(3, place(9), function_expr(None, vec![], true)),
            instr(4, place(10), function_expr(Some("f"), vec![], false)),
            instr(5, place(1234), function_expr(None, vec![], false)),
        ],
        ret(7),
    )]);
    outline_functions(&mut h);
    assert_eq!(function_name(&h, 0, 0), Some("__hoistable_7".to_string()));
    assert_eq!(function_name(&h, 0, 1), None);
    assert_eq!(function_name(&h, 0, 2), None);
    assert_eq!(function_name(&h, 0, 3), Some("f".to_string()));
    assert_eq!(function_name(&h, 0, 4), Some("__hoistable_1234".to_string()));
}

#[test]
fn anonymous_functions_take_their_variable_name() {
    let mut h = hir(vec![block(
        0,
        vec![
            instr(1, named_place(1, "foo"), function_expr(None, vec![place(2)], false)),
            instr(2, place(2), function_expr(None, vec![place(2)], false)),
            instr(3, named_place(3, "bar"), function_expr(Some("baz"), vec![place(2)], false)),
        ],
        ret(1),
    )]);
    name_anonymous_functions(&mut h);
    assert_eq!(function_name(&h, 0, 0), Some("foo".to_string()));
    assert_eq!(function_name(&h, 0, 1), None);
    assert_eq!(function_name(&h, 0, 2), Some("baz".to_string()));
}

#[test]
fn jsx_outlining_leaves_graph_unchanged() {
    let mut h = hir(vec![block(0, vec![instr(4, place(2), InstructionValue::JsxFragment { children: vec![place(1)] })], ret(2))]);
    outline_jsx(&mut h);
    assert_eq!(h.blocks[0].1.instructions.len(), 1);
    assert_eq!(h.blocks[0].1.instructions[0].id.0, 4);
}

#[test]
fn dead_code_is_removed() {
    let mut h = hir(vec![
        block(0, vec![
            instr(1, place(1), undefined()),
            instr(2, place(2), undefined()),
            instr(3, place(3), InstructionValue::CallExpression { callee: place(2), args: vec![] }),
        ], Terminal::Goto { block: BlockId(2) }),
        block(1, vec![instr(4, place(4), undefined())], ret(4)),
        block(2, vec![], ret(0)),
    ]);
    dead_code_elimination(&mut h);
    assert_eq!(h.blocks.len(), 2);
    assert_eq!(h.blocks[0].0, BlockId(0));
    assert_eq!(h.blocks[1].0, BlockId(2));
    let ids: Vec<u32> = h.blocks[0].1.instructions.iter().map(|i| i.id.0).collect();
    assert_eq!(ids, vec![2, 3]);
}

#[test]
fn consecutive_blocks_are_merged() {
    let mut h = hir(vec![
        block(0, vec![instr(1, place(1), undefined())], Terminal::Goto { block: BlockId(1) }),
        block(1, vec![instr(2, place(2), undefined())], Terminal::Goto { block: BlockId(2) }),
        block(2, vec![instr(3, place(3), undefined())], Terminal::If {
            test: place(3),
            consequent: BlockId(3),
            alternate: BlockId(4),
            fallthrough: BlockId(5),
        }),
        block(3, vec![], Terminal::Goto { block: BlockId(5) }),
        block(4, vec![], Terminal::Goto { block: BlockId(5) }),
        block(5, vec![], ret(0)),
    ]);
    merge_consecutive_blocks(&mut h);
    let ids: Vec<u32> = h.blocks.iter().map(|(id, _)| id.0).collect();
    assert_eq!(ids, vec![0, 3, 4, 5]);
    let instrs: Vec<u32> = h.blocks[0].1.instructions.iter().map(|i| i.id.0).collect();
    assert_eq!(instrs, vec![1, 2, 3]);
    assert!(matches!(h.blocks[0].1.terminal, Terminal::If { consequent: BlockId(3), .. }));
    assert_eq!(h.entry, BlockId(0));
}

#[test]
fn block_with_two_predecessors_is_not_merged() {
    let mut h = hir(vec![
        block(0, vec![], Terminal::Branch { test: place(1), consequent: BlockId(1), alternate: BlockId(2) }),
        block(1, vec![], Terminal::Goto { block: BlockId(2) }),
        block(2, vec![instr(1, place(1), undefined())], ret(1)),
    ]);
    merge_consecutive_blocks(&mut h);
    assert_eq!(h.blocks.len(), 3);
}

#[test]
fn merging_runs_with_duplicate_ids_and_dangling_branches() {
    let mut h = hir(vec![
        block(0, vec![instr(1, place(1), undefined())], Terminal::Goto { block: BlockId(1) }),
        block(1, vec![instr(2, place(2), undefined())], Terminal::Branch { test: place(1), consequent: BlockId(8), alternate: BlockId(9) }),
        block(5, vec![], ret(1)),
        block(5, vec![], ret(2)),
    ]);
    merge_consecutive_blocks(&mut h);
    let ids: Vec<u32> = h.blocks.iter().map(|(id, _)| id.0).collect();
    assert_eq!(ids, vec![0, 5, 5]);
    let instrs: Vec<u32> = h.blocks[0].1.instructions.iter().map(|i| i.id.0).collect();
    assert_eq!(instrs, vec![1, 2]);
    assert!(matches!(h.blocks[0].1.terminal, Terminal::Branch { consequent: BlockId(8), .. }));
}

#[test]
fn simple_iife_is_inlined() {
    let func = InstructionValue::FunctionExpression {
        name: None,
        lowered_func: Box::new(HIRFunction {
            params: vec![Param::Identifier(named_place(10, "x"))],
            body: hir(vec![block(0, vec![instr(50, place(11), InstructionValue::LoadLocal { place: named_place(10, "x") })], Terminal::Return { value: place(11) })]),
            context: vec![],
            is_generator: false,
            is_async: false,
        }),
        expr_type: FunctionExprType::ArrowFunction,
    };
    let mut h = hir(vec![block(
        0,
        vec![
            instr(1, place(1), func),
            instr(2, place(2), InstructionValue::CallExpression { callee: place(1), args: vec![place(5)] }),
            instr(3, place(3), undefined()),
        ],
        ret(2),
    )]);
    inline_iife(&mut h);
    let instrs = &h.blocks[0].1.instructions;
    assert_eq!(instrs.len(), 4);
    assert_eq!(instrs[0].id.0, 1);
    assert_eq!(instrs[0].lvalue.identifier.id.0, 10);
    assert!(matches!(&instrs[0].value, InstructionValue::LoadLocal { place } if place.identifier.id.0 == 5));
    assert_eq!(instrs[1].id.0, 50);
    assert_eq!(instrs[2].id.0, 2);
    assert_eq!(instrs[2].lvalue.identifier.id.0, 2);
    assert!(matches!(&instrs[2].value, InstructionValue::LoadLocal { place } if place.identifier.id.0 == 11));
    assert_eq!(instrs[3].id.0, 3);
}

#[test]
fn capturing_function_call_is_not_inlined() {
    let func = function_expr(None, vec![place(9)], false);
    let mut h = hir(vec![block(
        0,
        vec![
            instr(1, place(1), func),
            instr(2, place(2), InstructionValue::CallExpression { callee: place(1), args: vec![] }),
        ],
        ret(2),
    )]);
    inline_iife(&mut h);
    assert_eq!(h.blocks[0].1.instructions.len(), 2);
    assert!(matches!(h.blocks[0].1.instructions[1].value, InstructionValue::CallExpression { .. }));
}

fn object_place(id: u32, name: &str) -> Place {
    let mut p = named_place(id, name);
    p.identifier.type_ = Type::Object;
    p
}

#[test]
fn props_method_call_is_split() {
    let mut h = hir(vec![block(
        0,
        vec![
            instr(3, place(4), InstructionValue::MethodCall { receiver: object_place(1, "props"), property: "onClick".to_string(), args: vec![place(2)] }),
            instr(1, place(6), InstructionValue::MethodCall { receiver: object_place(7, "other"), property: "f".to_string(), args: vec![] }),
            instr(2, place(8), InstructionValue::MethodCall { receiver: object_place(9, "_temp"), property: "g".to_string(), args: vec![] }),
        ],
        ret(4),
    )]);
    optimize_props_method_calls(&mut h);
    let instrs = &h.blocks[0].1.instructions;
    assert_eq!(instrs.len(), 5);
    assert_eq!(instrs[0].id.0, 4);
    assert_eq!(instrs[0].lvalue.identifier.id.0, 9);
    assert_eq!(instrs[0].lvalue.identifier.type_, Type::Function);
    assert!(matches!(&instrs[0].value, InstructionValue::PropertyLoad { object, property } if object.identifier.id.0 == 1 && property == "onClick"));
    assert_eq!(instrs[1].id.0, 3);
    assert!(matches!(&instrs[1].value, InstructionValue::CallExpression { callee, args } if callee.identifier.id.0 == 9 && args.len() == 1));
    assert!(matches!(instrs[2].value, InstructionValue::MethodCall { .. }));
    assert_eq!(instrs[3].id.0, 5);
    assert_eq!(instrs[3].lvalue.identifier.id.0, 10);
    assert!(matches!(&instrs[4].value, InstructionValue::CallExpression { callee, .. } if callee.identifier.id.0 == 10));
}

#[test]
fn prune_temporary_lvalues_leaves_the_graph_unchanged() {
    let store = InstructionValue::StoreLocal { lvalue: named_place(2, "x"), value: place(1), type_: None };
    let mut h = hir(vec![block(0, vec![instr(1, place(1), undefined()), instr(2, place(3), store)], ret(2))]);
    let before = format!("{:?}", h);
    prune_temporary_lvalues(&mut h);
    assert_eq!(format!("{:?}", h), before);
}

fn lvalue_scope_id(hir: &HIR, b: usize, i: usize) -> Option<u32> {
    hir.blocks[b].1.instructions[i].lvalue.identifier.scope.as_ref().map(|s| s.id.0)
}

fn add(left: u32, right: u32) -> InstructionValue {
    InstructionValue::BinaryExpression { op: oxc_react_compiler::hir::types::BinaryOp::Add, left: place(left), right: place(right) }
}

#[test]
fn membership_pulls_a_value_into_its_only_consumer_scope() {
    let mut h = hir(vec![block(
        0,
        vec![instr(1, place(1), undefined()), instr(2, scoped_place(2, scope(5, 2, 3)), add(1, 1))],
        ret(2),
    )]);
    propagate_scope_membership_hir(&mut h);
    assert_eq!(lvalue_scope_id(&h, 0, 0), Some(5));
    assert_eq!(lvalue_scope_range(&h, 0, 0), Some((2, 3)));
    assert_eq!(lvalue_scope_id(&h, 0, 1), Some(5));
}

#[test]
fn membership_leaves_values_read_by_two_scopes() {
    let mut h = hir(vec![block(
        0,
        vec![
            instr(1, place(1), undefined()),
            instr(2, scoped_place(2, scope(5, 2, 3)), add(1, 1)),
            instr(3, scoped_place(3, scope(6, 3, 4)), add(1, 2)),
        ],
        ret(3),
    )]);
    propagate_scope_membership_hir(&mut h);
    assert_eq!(lvalue_scope_id(&h, 0, 0), None);
}

#[test]
fn membership_follows_chains_of_unscoped_values() {
    let mut h = hir(vec![block(
        0,
        vec![
            instr(1, place(1), undefined()),
            instr(2, place(2), add(1, 1)),
            instr(3, scoped_place(3, scope(7, 3, 4)), add(2, 2)),
        ],
        ret(3),
    )]);
    propagate_scope_membership_hir(&mut h);
    assert_eq!(lvalue_scope_id(&h, 0, 1), Some(7));
    assert_eq!(lvalue_scope_id(&h, 0, 0), Some(7));
}

#[test]
fn membership_keeps_values_read_by_unscoped_instructions() {
    let mut h = hir(vec![block(
        0,
        vec![
            instr(1, place(1), undefined()),
            instr(2, scoped_place(2, scope(5, 2, 3)), add(1, 1)),
            instr(3, place(3), add(1, 1)),
        ],
        ret(3),
    )]);
    propagate_scope_membership_hir(&mut h);
    assert_eq!(lvalue_scope_id(&h, 0, 0), None);
}

fn instr_ids(h: &HIR, b: usize) -> Vec<u32> {
    h.blocks[b].1.instructions.iter().map(|i| i.id.0).collect()
}

#[test]
fn scope_terminals_split_a_block_around_its_scope() {
    let mut h = hir(vec![block(
        0,
        vec![
            instr(1, place(1), undefined()),
            instr(2, scoped_place(2, scope(5, 2, 4)), undefined()),
            instr(3, scoped_place(3, scope(5, 2, 4)), undefined()),
            instr(4, place(4), undefined()),
        ],
        ret(4),
    )]);
    build_reactive_scope_terminals_hir(&mut h);
    assert_eq!(h.blocks.len(), 3);
    assert_eq!(instr_ids(&h, 0), vec![1]);
    assert!(matches!(h.blocks[0].1.terminal, Terminal::Scope { scope, block, fallthrough }
        if scope.0 == 5 && block.0 == 1 && fallthrough.0 == 2));
    assert_eq!(h.blocks[1].0 .0, 1);
    assert_eq!(instr_ids(&h, 1), vec![2, 3]);
    assert!(matches!(h.blocks[1].1.terminal, Terminal::Goto { block } if block.0 == 2));
    assert_eq!(h.blocks[1].1.preds, vec![BlockId(0)]);
    assert_eq!(instr_ids(&h, 2), vec![4]);
    assert!(matches!(h.blocks[2].1.terminal, Terminal::Return { .. }));
    assert_eq!(h.blocks[2].1.preds, vec![BlockId(1)]);
}

#[test]
fn scope_terminals_leave_unscoped_graphs_alone() {
    let mut h = hir(vec![block(0, vec![instr(1, place(1), undefined())], ret(1))]);
    build_reactive_scope_terminals_hir(&mut h);
    assert_eq!(h.blocks.len(), 1);
    assert_eq!(instr_ids(&h, 0), vec![1]);
}

#[test]
fn scope_terminals_keep_branching_terminals_with_the_scope() {
    let branch = Terminal::If { test: place(2), consequent: BlockId(1), alternate: BlockId(2), fallthrough: BlockId(3) };
    let mut consequent = block(1, vec![], Terminal::Goto { block: BlockId(3) });
    consequent.1.preds = vec![BlockId(0)];
    let mut h = hir(vec![
        block(0, vec![instr(1, place(1), undefined()), instr(2, scoped_place(2, scope(5, 2, 3)), undefined())], branch),
        consequent,
        block(2, vec![], Terminal::Goto { block: BlockId(3) }),
        block(3, vec![], ret(1)),
    ]);
    build_reactive_scope_terminals_hir(&mut h);
    assert_eq!(h.blocks.len(), 6);
    assert!(matches!(h.blocks[0].1.terminal, Terminal::Scope { block, fallthrough, .. } if block.0 == 4 && fallthrough.0 == 5));
    assert!(matches!(h.blocks[4].1.terminal, Terminal::If { .. }));
    assert!(matches!(h.blocks[5].1.terminal, Terminal::Goto { block } if block.0 == 3));
    assert_eq!(h.blocks[1].1.preds, vec![BlockId(4)]);
}

#[test]
fn scope_terminals_clear_annotations_left_in_other_blocks() {
    let mut h = hir(vec![
        block(0, vec![instr(1, scoped_place(1, scope(5, 1, 2)), undefined())], Terminal::Goto { block: BlockId(1) }),
        block(1, vec![instr(2, scoped_place(2, scope(5, 1, 2)), undefined())], ret(2)),
    ]);
    build_reactive_scope_terminals_hir(&mut h);
    assert_eq!(lvalue_scope_id(&h, 1, 0), None);
    assert_eq!(instr_ids(&h, 2), vec![1]);
    assert_eq!(lvalue_scope_id(&h, 2, 0), Some(5));
}
