use oxc_react_compiler::hir::types::{
    BasicBlock, BlockId, BlockKind, Effect, Identifier, IdentifierId, Instruction, InstructionId,
    InstructionValue, MutableRange, Param, Place, Primitive, ReactiveInstruction, ReactiveScope,
    ReactiveTerminal, ScopeId, SourceLocation, Terminal, Type, HIR,
};
use oxc_react_compiler::reactive_scopes::build_reactive::{
    build_reactive_block_from_hir, build_reactive_function,
};

fn loc() -> SourceLocation {
    SourceLocation { start: 0, end: 0 }
}

fn range(start: u32, end: u32) -> MutableRange {
    MutableRange { start: InstructionId(start), end: InstructionId(end) }
}

fn scope(id: u32) -> ReactiveScope {
    ReactiveScope {
        id: ScopeId(id),
        range: range(1, 2),
        dependencies: Vec::new(),
        declarations: Vec::new(),
        reassignments: Vec::new(),
        early_return_value: None,
        merged: Vec::new(),
        loc: loc(),
        is_allocating: false,
    }
}

fn place_with(id: u32, s: Option<ReactiveScope>) -> Place {
    Place {
        identifier: Identifier {
            id: IdentifierId(id),
            ssa_version: 0,
            declaration_id: None,
            name: None,
            mutable_range: range(0, 0),
            last_use: InstructionId(0),
            scope: s.map(Box::new),
            type_: Type::default(),
            loc: loc(),
        },
        effect: Effect::Unknown,
        reactive: false,
        loc: loc(),
    }
}

fn place(id: u32) -> Place {
    place_with(id, None)
}

fn instr(id: u32) -> Instruction {
    Instruction {
        id: InstructionId(id),
        lvalue: place(100 + id),
        value: InstructionValue::Primitive { value: Primitive::Undefined },
        loc: loc(),
    }
}

fn block(id: u32, instructions: Vec<Instruction>, terminal: Terminal) -> (BlockId, BasicBlock) {
    (
        BlockId(id),
        BasicBlock {
            kind: BlockKind::Block,
            id: BlockId(id),
            instructions,
            terminal,
            preds: Vec::new(),
            phis: Vec::new(),
        },
    )
}

fn hir(blocks: Vec<(BlockId, BasicBlock)>) -> HIR {
    HIR { entry: BlockId(0), blocks }
}

fn instr_id(i: &ReactiveInstruction) -> Option<u32> {
    match i {
        ReactiveInstruction::Instruction(x) => Some(x.id.0),
        _ => None,
    }
}

#[test]
fn gotos_are_inlined_in_order() {
    let h = hir(vec![
        block(0, vec![instr(1)], Terminal::Goto { block: BlockId(1) }),
        block(1, vec![instr(2)], Terminal::Return { value: place(3) }),
    ]);
    let body = build_reactive_block_from_hir(h, BlockId(0));
    assert_eq!(body.instructions.len(), 3);
    assert_eq!(instr_id(&body.instructions[0]), Some(1));
    assert_eq!(instr_id(&body.instructions[1]), Some(2));
    assert!(matches!(
        &body.instructions[2],
        ReactiveInstruction::Terminal(ReactiveTerminal::Return { id: BlockId(1), .. })
    ));
}

#[test]
fn if_branches_stop_at_the_fallthrough() {
    let h = hir(vec![
        block(
            0,
            vec![instr(1)],
            Terminal::If { test: place(9), consequent: BlockId(1), alternate: BlockId(2), fallthrough: BlockId(3) },
        ),
        block(1, vec![instr(2)], Terminal::Goto { block: BlockId(3) }),
        block(2, vec![], Terminal::Goto { block: BlockId(3) }),
        block(3, vec![instr(3)], Terminal::Return { value: place(9) }),
    ]);
    let body = build_reactive_block_from_hir(h, BlockId(0));
    assert_eq!(body.instructions.len(), 4);
    assert_eq!(instr_id(&body.instructions[0]), Some(1));
    match &body.instructions[1] {
        ReactiveInstruction::Terminal(ReactiveTerminal::If { consequent, alternate, id, .. }) => {
            assert_eq!(*id, BlockId(0));
            assert_eq!(consequent.instructions.len(), 1);
            assert_eq!(instr_id(&consequent.instructions[0]), Some(2));
            assert_eq!(alternate.instructions.len(), 0);
        }
        _ => panic!("expected an if"),
    }
    assert_eq!(instr_id(&body.instructions[2]), Some(3));
    assert!(matches!(
        &body.instructions[3],
        ReactiveInstruction::Terminal(ReactiveTerminal::Return { id: BlockId(3), .. })
    ));
}

#[test]
fn loop_exit_becomes_break_and_back_edge_in_a_branch_becomes_continue() {
    let h = hir(vec![
        block(0, vec![], Terminal::While { test: BlockId(1), body: BlockId(2), fallthrough: BlockId(3) }),
        block(1, vec![instr(1)], Terminal::Unreachable),
        block(
            2,
            vec![instr(2)],
            Terminal::If { test: place(9), consequent: BlockId(4), alternate: BlockId(5), fallthrough: BlockId(6) },
        ),
        block(3, vec![instr(3)], Terminal::Return { value: place(9) }),
        block(4, vec![], Terminal::Goto { block: BlockId(1) }),
        block(5, vec![], Terminal::Goto { block: BlockId(3) }),
        block(6, vec![], Terminal::Unreachable),
    ]);
    let body = build_reactive_block_from_hir(h, BlockId(0));
    assert_eq!(body.instructions.len(), 3);
    match &body.instructions[0] {
        ReactiveInstruction::Terminal(ReactiveTerminal::While { test, body: b, id }) => {
            assert_eq!(*id, BlockId(0));
            assert_eq!(test.instructions.len(), 1);
            assert_eq!(instr_id(&test.instructions[0]), Some(1));
            assert_eq!(b.instructions.len(), 2);
            assert_eq!(instr_id(&b.instructions[0]), Some(2));
            match &b.instructions[1] {
                ReactiveInstruction::Terminal(ReactiveTerminal::If { consequent, alternate, .. }) => {
                    assert!(matches!(
                        consequent.instructions.as_slice(),
                        [ReactiveInstruction::Terminal(ReactiveTerminal::Continue { id: BlockId(1) })]
                    ));
                    assert!(matches!(
                        alternate.instructions.as_slice(),
                        [ReactiveInstruction::Terminal(ReactiveTerminal::Break { id: BlockId(5) })]
                    ));
                }
                _ => panic!("expected an if in the loop body"),
            }
        }
        _ => panic!("expected a while loop"),
    }
    assert_eq!(instr_id(&body.instructions[1]), Some(3));
    assert!(matches!(
        &body.instructions[2],
        ReactiveInstruction::Terminal(ReactiveTerminal::Return { id: BlockId(3), .. })
    ));
}

#[test]
fn scope_terminal_wraps_its_blocks_in_a_scope_block() {
    let scoped = Instruction {
        id: InstructionId(1),
        lvalue: place_with(101, Some(scope(7))),
        value: InstructionValue::Primitive { value: Primitive::Undefined },
        loc: loc(),
    };
    let h = hir(vec![
        block(0, vec![], Terminal::Scope { scope: ScopeId(7), block: BlockId(1), fallthrough: BlockId(2) }),
        block(1, vec![scoped], Terminal::Goto { block: BlockId(2) }),
        block(2, vec![instr(2)], Terminal::Return { value: place(9) }),
    ]);
    let body = build_reactive_block_from_hir(h, BlockId(0));
    assert_eq!(body.instructions.len(), 3);
    match &body.instructions[0] {
        ReactiveInstruction::Scope(sb) => {
            assert_eq!(sb.scope.id, ScopeId(7));
            assert_eq!(sb.scope.range, range(1, 2));
            assert_eq!(sb.instructions.instructions.len(), 1);
            assert_eq!(instr_id(&sb.instructions.instructions[0]), Some(1));
        }
        _ => panic!("expected a scope block"),
    }
    assert_eq!(instr_id(&body.instructions[1]), Some(2));
}

#[test]
fn scope_without_annotated_instruction_is_inlined() {
    let h = hir(vec![
        block(0, vec![], Terminal::Scope { scope: ScopeId(7), block: BlockId(1), fallthrough: BlockId(2) }),
        block(1, vec![instr(1)], Terminal::Goto { block: BlockId(2) }),
        block(2, vec![], Terminal::Return { value: place(9) }),
    ]);
    let body = build_reactive_block_from_hir(h, BlockId(0));
    assert_eq!(body.instructions.len(), 2);
    assert_eq!(instr_id(&body.instructions[0]), Some(1));
    assert!(matches!(
        &body.instructions[1],
        ReactiveInstruction::Terminal(ReactiveTerminal::Return { id: BlockId(2), .. })
    ));
}

#[test]
fn a_block_reached_twice_is_emitted_once() {
    let h = hir(vec![
        block(0, vec![instr(1)], Terminal::Goto { block: BlockId(1) }),
        block(1, vec![instr(2)], Terminal::Goto { block: BlockId(0) }),
    ]);
    let body = build_reactive_block_from_hir(h, BlockId(0));
    assert_eq!(body.instructions.len(), 2);
    assert_eq!(instr_id(&body.instructions[0]), Some(1));
    assert_eq!(instr_id(&body.instructions[1]), Some(2));
}

#[test]
fn reactive_function_keeps_its_signature() {
    let h = hir(vec![block(0, vec![instr(1)], Terminal::Return { value: place(9) })]);
    let f = build_reactive_function(
        h,
        vec![Param::Identifier(place(5))],
        Some("Component".to_string()),
        SourceLocation { start: 3, end: 40 },
        vec!["use memo".to_string()],
        false,
        true,
        false,
    );
    assert_eq!(f.id, Some("Component".to_string()));
    assert_eq!(f.loc, SourceLocation { start: 3, end: 40 });
    assert_eq!(f.params.len(), 1);
    assert_eq!(f.directives, vec!["use memo".to_string()]);
    assert!(!f.is_arrow);
    assert!(f.is_async);
    assert!(!f.is_generator);
    assert_eq!(f.body.instructions.len(), 2);
    assert_eq!(instr_id(&f.body.instructions[0]), Some(1));
}
