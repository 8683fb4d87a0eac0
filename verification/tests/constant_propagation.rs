use oxc_react_compiler::hir::types::{
    BasicBlock, BinaryOp, BlockId, BlockKind, Effect, Identifier, IdentifierId, Instruction, InstructionId,
    InstructionValue, MutableRange, Phi, Place, Primitive, SourceLocation, Terminal, Type, UnaryOp, HIR,
};
use oxc_react_compiler::optimization::constant_propagation::{
    apply_propagation, collect_constants, constant_propagation, prune_unreachable_phi_operands, rebuild_predecessors, strict_eq,
    to_boolean, try_fold_terminal,
};
use oxc_react_compiler::optimization::merge_consecutive_blocks::check_cfg_for_merging;

fn loc() -> SourceLocation {
    SourceLocation { start: 0, end: 0 }
}

fn place(id: u32) -> Place {
    Place {
        identifier: Identifier {
            id: IdentifierId(id),
            ssa_version: 0,
            declaration_id: None,
            name: None,
            mutable_range: MutableRange { start: InstructionId(0), end: InstructionId(0) },
            last_use: InstructionId(0),
            scope: None,
            type_: Type::default(),
            loc: loc(),
        },
        effect: Effect::Unknown,
        reactive: false,
        loc: loc(),
    }
}

fn num(x: f64) -> Primitive {
    Primitive::Number(x.to_bits())
}

fn instr(id: u32, lvalue: u32, value: InstructionValue) -> Instruction {
    Instruction { id: InstructionId(id), lvalue: place(lvalue), value, loc: loc() }
}

fn block(id: u32, instructions: Vec<Instruction>, terminal: Terminal) -> (BlockId, BasicBlock) {
    (BlockId(id), BasicBlock { kind: BlockKind::Block, id: BlockId(id), instructions, terminal, preds: vec![], phis: vec![] })
}

#[test]
fn truthiness_of_constants() {
    assert!(!to_boolean(&num(0.0)));
    assert!(!to_boolean(&num(-0.0)));
    assert!(!to_boolean(&num(f64::NAN)));
    assert!(to_boolean(&num(1.5)));
    assert!(!to_boolean(&Primitive::String(String::new())));
    assert!(to_boolean(&Primitive::String("a".to_string())));
    assert!(!to_boolean(&Primitive::BigInt("0".to_string())));
    assert!(to_boolean(&Primitive::BigInt("10".to_string())));
    assert!(!to_boolean(&Primitive::Null));
    assert!(!to_boolean(&Primitive::Undefined));
    assert!(to_boolean(&Primitive::Boolean(true)));
}

#[test]
fn strict_equality_of_constants() {
    assert!(strict_eq(&num(1.0), &num(1.0)));
    assert!(!strict_eq(&num(f64::NAN), &num(f64::NAN)));
    assert!(strict_eq(&num(0.0), &num(-0.0)));
    assert!(!strict_eq(&num(1.0), &num(2.0)));
    assert!(strict_eq(&Primitive::String("a".to_string()), &Primitive::String("a".to_string())));
    assert!(!strict_eq(&Primitive::Null, &Primitive::Undefined));
    assert!(!strict_eq(&num(1.0), &Primitive::Boolean(true)));
}

#[test]
fn constants_are_collected_through_phis() {
    let mut b1 = block(1, vec![], Terminal::Return { value: place(5) });
    b1.1.phis.push(Phi { place: place(5), operands: vec![(BlockId(0), place(1))] });
    b1.1.phis.push(Phi { place: place(6), operands: vec![(BlockId(0), place(1)), (BlockId(0), place(2))] });
    let hir = HIR {
        entry: BlockId(0),
        blocks: vec![
            block(0, vec![
                instr(1, 1, InstructionValue::Primitive { value: num(2.0) }),
                instr(2, 2, InstructionValue::Primitive { value: Primitive::String("x".to_string()) }),
                instr(3, 2, InstructionValue::Primitive { value: Primitive::String("y".to_string()) }),
                instr(4, 3, InstructionValue::StoreLocal { lvalue: place(4), value: place(1), type_: None }),
                instr(5, 7, InstructionValue::Primitive { value: Primitive::Null }),
                instr(6, 7, InstructionValue::Primitive { value: Primitive::Null }),
            ], Terminal::Goto { block: BlockId(1) }),
            b1,
        ],
    };
    let constants = collect_constants(&hir);
    let mut keys: Vec<u32> = constants.keys().copied().collect();
    keys.sort();
    assert_eq!(keys, vec![1, 5, 7]);
    assert!(strict_eq(&constants[&5], &num(2.0)));
    assert!(matches!(constants[&7], Primitive::Null));
}

#[test]
fn branches_on_constants_are_folded() {
    let hir = HIR {
        entry: BlockId(0),
        blocks: vec![block(0, vec![
            instr(1, 1, InstructionValue::Primitive { value: num(2.0) }),
            instr(2, 2, InstructionValue::Primitive { value: Primitive::Undefined }),
        ], Terminal::Return { value: place(1) })],
    };
    let constants = collect_constants(&hir);
    let mut t = Terminal::If { test: place(1), consequent: BlockId(1), alternate: BlockId(2), fallthrough: BlockId(3) };
    assert!(try_fold_terminal(&mut t, &constants));
    assert!(matches!(t, Terminal::Goto { block: BlockId(1) }));
    let mut o = Terminal::Optional { test: place(2), consequent: BlockId(4), fallthrough: BlockId(5), optional: true };
    assert!(try_fold_terminal(&mut o, &constants));
    assert!(matches!(o, Terminal::Goto { block: BlockId(5) }));
    let mut unknown = Terminal::Branch { test: place(9), consequent: BlockId(1), alternate: BlockId(2) };
    assert!(!try_fold_terminal(&mut unknown, &constants));
    assert!(matches!(unknown, Terminal::Branch { .. }));
}

fn diamond() -> HIR {
    HIR {
        entry: BlockId(0),
        blocks: vec![
            block(0, vec![], Terminal::If { test: place(1), consequent: BlockId(1), alternate: BlockId(2), fallthrough: BlockId(3) }),
            block(1, vec![], Terminal::Goto { block: BlockId(3) }),
            block(2, vec![], Terminal::Goto { block: BlockId(3) }),
            block(3, vec![], Terminal::Return { value: place(1) }),
        ],
    }
}

#[test]
fn predecessors_are_rebuilt_from_edges() {
    let mut h = diamond();
    h.blocks[3].1.preds = vec![BlockId(9)];
    rebuild_predecessors(&mut h);
    let preds: Vec<Vec<u32>> = h.blocks.iter().map(|(_, b)| b.preds.iter().map(|p| p.0).collect()).collect();
    assert_eq!(preds, vec![vec![], vec![0], vec![0], vec![0, 1, 2]]);
}

#[test]
fn phi_operands_from_non_predecessors_are_dropped() {
    let mut h = diamond();
    h.blocks[3].1.preds = vec![BlockId(1)];
    h.blocks[3].1.phis.push(Phi { place: place(8), operands: vec![(BlockId(1), place(6)), (BlockId(2), place(7))] });
    prune_unreachable_phi_operands(&mut h);
    let ops: Vec<u32> = h.blocks[3].1.phis[0].operands.iter().map(|(b, _)| b.0).collect();
    assert_eq!(ops, vec![1]);
}

#[test]
fn graph_checks_before_merging() {
    assert!(check_cfg_for_merging(&diamond()));
    let mut dangling = diamond();
    dangling.blocks[1].1.terminal = Terminal::Goto { block: BlockId(7) };
    assert!(!check_cfg_for_merging(&dangling));
    let mut duplicate = diamond();
    duplicate.blocks[2].0 = BlockId(1);
    assert!(check_cfg_for_merging(&duplicate));
    let mut dangling_branch = diamond();
    dangling_branch.blocks[0].1.terminal = Terminal::If {
        test: place(1),
        consequent: BlockId(1),
        alternate: BlockId(9),
        fallthrough: BlockId(3),
    };
    assert!(check_cfg_for_merging(&dangling_branch));
}

#[test]
fn propagation_replaces_loads_folds_expressions_and_branches() {
    let mut h = HIR {
        entry: BlockId(0),
        blocks: vec![
            block(
                0,
                vec![
                    instr(1, 1, InstructionValue::LoadLocal { place: place(5) }),
                    instr(2, 2, InstructionValue::BinaryExpression { op: BinaryOp::StrictEq, left: place(5), right: place(6) }),
                    instr(3, 3, InstructionValue::LoadLocal { place: place(9) }),
                ],
                Terminal::If { test: place(2), consequent: BlockId(1), alternate: BlockId(2), fallthrough: BlockId(3) },
            ),
            block(1, vec![], Terminal::Return { value: place(1) }),
        ],
    };
    let mut constants = collect_constants(&HIR { entry: BlockId(0), blocks: vec![] });
    constants.insert(5, Primitive::Boolean(true));
    constants.insert(6, Primitive::Null);
    let (changed, folded) = apply_propagation(
        &mut h,
        &mut constants,
        &|op: BinaryOp, l: Primitive, r: Primitive| {
            assert_eq!(op, BinaryOp::StrictEq);
            Some(Primitive::Boolean(strict_eq(&l, &r)))
        },
        &|_op: UnaryOp, _v: Primitive| None,
    );
    assert_eq!(changed, 2);
    assert!(folded);
    assert!(matches!(h.blocks[0].1.instructions[0].value, InstructionValue::Primitive { value: Primitive::Boolean(true) }));
    assert!(matches!(h.blocks[0].1.instructions[1].value, InstructionValue::Primitive { value: Primitive::Boolean(false) }));
    assert!(matches!(h.blocks[0].1.instructions[2].value, InstructionValue::LoadLocal { .. }));
    assert!(matches!(h.blocks[0].1.terminal, Terminal::Goto { block: BlockId(2) }));
    assert!(matches!(constants.get(&2), Some(Primitive::Boolean(false))));
}

#[test]
fn propagation_rounds_fold_branches_and_clean_up() {
    let mut h = HIR {
        entry: BlockId(0),
        blocks: vec![
            block(
                0,
                vec![instr(1, 1, InstructionValue::Primitive { value: Primitive::Boolean(true) })],
                Terminal::If { test: place(1), consequent: BlockId(1), alternate: BlockId(2), fallthrough: BlockId(3) },
            ),
            block(1, vec![instr(2, 2, InstructionValue::LoadLocal { place: place(1) })], Terminal::Goto { block: BlockId(3) }),
            block(2, vec![], Terminal::Goto { block: BlockId(3) }),
            block(3, vec![], Terminal::Return { value: place(2) }),
        ],
    };
    let changed = constant_propagation(
        &mut h,
        &|_op: BinaryOp, _l: Primitive, _r: Primitive| None,
        &|_op: UnaryOp, _v: Primitive| None,
    );
    assert_eq!(changed, 2);
    assert_eq!(h.blocks.len(), 1);
    assert_eq!(h.blocks[0].0, BlockId(0));
    assert_eq!(h.blocks[0].1.instructions.len(), 2);
    assert!(matches!(h.blocks[0].1.instructions[1].value, InstructionValue::Primitive { value: Primitive::Boolean(true) }));
    assert!(matches!(h.blocks[0].1.terminal, Terminal::Return { .. }));
}
