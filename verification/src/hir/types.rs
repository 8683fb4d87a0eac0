//! The intermediate representations the passes work on: the control-flow
//! graph form (`HIR`) and the tree form (`ReactiveFunction`).
//!
//! Source positions are kept as plain byte offsets (`SourceLocation`), and a
//! numeric literal is kept as the IEEE-754 bit pattern of its value.

use vstd::prelude::*;

verus! {

/// Identifies a basic block.
#[derive(Clone, Copy, Debug, PartialEq, Eq, Structural, Hash, PartialOrd, Ord)]
pub struct BlockId(pub u32);

/// Identifies an SSA identifier.
#[derive(Clone, Copy, Debug, PartialEq, Eq, Structural, Hash, PartialOrd, Ord)]
pub struct IdentifierId(pub u32);

/// Identifies an instruction (its position in program order).
#[derive(Clone, Copy, Debug, PartialEq, Eq, Structural, Hash, PartialOrd, Ord)]
pub struct InstructionId(pub u32);

/// Identifies a reactive scope.
#[derive(Clone, Copy, Debug, PartialEq, Eq, Structural, Hash, PartialOrd, Ord)]
pub struct ScopeId(pub u32);

/// Identifies the source-level declaration an identifier belongs to
/// (shared by all SSA versions of one variable).
#[derive(Clone, Copy, Debug, PartialEq, Eq, Structural, Hash, PartialOrd, Ord)]
pub struct DeclarationId(pub u32);

/// A byte range in the original source text.
#[derive(Clone, Copy, Debug, PartialEq, Eq, Structural, Hash)]
pub struct SourceLocation {
    pub start: u32,
    pub end: u32,
}

/// A half-open range of instruction ids.
#[derive(Clone, Copy, Debug, PartialEq, Eq, Structural, Hash)]
pub struct MutableRange {
    pub start: InstructionId,
    pub end: InstructionId,
}

/// The inferred type of an identifier.
#[derive(Clone, Copy, Debug, PartialEq, Eq, Structural, Hash)]
pub enum Type {
    Poly,
    Primitive,
    Object,
    Function,
    Ref,
    SetState,
}

impl Default for Type {
    fn default() -> (r: Self)
        ensures
            r == Type::Poly,
    {
        Type::Poly
    }
}

/// How an operand is used by the instruction that reads it.
#[derive(Clone, Copy, Debug, PartialEq, Eq, Structural, Hash)]
pub enum Effect {
    Unknown,
    Read,
    Capture,
    Store,
    Freeze,
    Mutate,
    MutateConditionally,
    MutateTransitive,
    MutateTransitiveConditionally,
}

/// One property access in a dependency path (`.property` or `?.property`).
#[derive(Debug)]
pub struct DependencyPathEntry {
    pub property: String,
    pub optional: bool,
}

/// An identifier together with the scope it was assigned to, if any.
#[derive(Debug)]
pub struct Identifier {
    pub id: IdentifierId,
    pub ssa_version: u32,
    pub declaration_id: Option<DeclarationId>,
    pub name: Option<String>,
    pub mutable_range: MutableRange,
    pub last_use: InstructionId,
    pub scope: Option<Box<ReactiveScope>>,
    pub type_: Type,
    pub loc: SourceLocation,
}

/// A use or definition site of an identifier.
#[derive(Debug)]
pub struct Place {
    pub identifier: Identifier,
    pub effect: Effect,
    pub reactive: bool,
    pub loc: SourceLocation,
}

/// A value that a reactive scope depends on: a root identifier and a
/// property path below it.
#[derive(Debug)]
pub struct ReactiveScopeDependency {
    pub identifier: Identifier,
    pub reactive: bool,
    pub path: Vec<DependencyPathEntry>,
}

/// A value produced inside a reactive scope and used after it.
#[derive(Debug)]
pub struct ScopeDeclaration {
    pub identifier: Identifier,
}

/// The value a scope returns early with.
#[derive(Debug)]
pub struct EarlyReturnValue {
    pub value: Place,
    pub loc: SourceLocation,
}

/// A group of instructions that is memoized together.
#[derive(Debug)]
pub struct ReactiveScope {
    pub id: ScopeId,
    pub range: MutableRange,
    pub dependencies: Vec<ReactiveScopeDependency>,
    pub declarations: Vec<(IdentifierId, ScopeDeclaration)>,
    pub reassignments: Vec<Identifier>,
    pub early_return_value: Option<EarlyReturnValue>,
    pub merged: Vec<ScopeId>,
    pub loc: SourceLocation,
    pub is_allocating: bool,
}

/// A compile-time constant. A number is held as the bit pattern of its
/// IEEE-754 double value.
#[derive(Debug)]
pub enum Primitive {
    Null,
    Undefined,
    Boolean(bool),
    Number(u64),
    String(String),
    BigInt(String),
}

#[derive(Clone, Copy, Debug, PartialEq, Eq, Structural, Hash)]
pub enum BinaryOp {
    Add,
    Sub,
    Mul,
    Div,
    Mod,
    Exp,
    BitwiseAnd,
    BitwiseOr,
    BitwiseXor,
    ShiftLeft,
    ShiftRight,
    UnsignedShiftRight,
    StrictEq,
    StrictNotEq,
    EqEq,
    NotEq,
    Lt,
    LtEq,
    Gt,
    GtEq,
    In,
    InstanceOf,
    NullishCoalescing,
}

#[derive(Clone, Copy, Debug, PartialEq, Eq, Structural, Hash)]
pub enum UnaryOp {
    Minus,
    Plus,
    Not,
    BitwiseNot,
    TypeOf,
    Void,
    Delete,
}

#[derive(Clone, Copy, Debug, PartialEq, Eq, Structural, Hash)]
pub enum UpdateOperator {
    Increment,
    Decrement,
}

#[derive(Clone, Copy, Debug, PartialEq, Eq, Structural, Hash)]
pub enum LogicalOperator {
    And,
    Or,
    NullishCoalescing,
}

#[derive(Clone, Copy, Debug, PartialEq, Eq, Structural, Hash)]
pub enum InstructionKind {
    Const,
    Let,
    Reassign,
    Var,
    HoistedConst,
    HoistedLet,
    HoistedFunction,
    Function,
}

#[derive(Clone, Copy, Debug, PartialEq, Eq, Structural, Hash)]
pub enum FunctionExprType {
    ArrowFunction,
    FunctionExpression,
    FunctionDeclaration,
}

#[derive(Clone, Copy, Debug, PartialEq, Eq, Structural, Hash)]
pub enum BlockKind {
    Block,
    Value,
    Loop,
    Sequence,
    Catch,
}

/// A global or module-level name read by `LoadGlobal`.
#[derive(Debug)]
pub struct NonLocalBinding {
    pub name: String,
}

#[derive(Debug)]
pub enum ObjectPropertyKey {
    Identifier(String),
    String(String),
    Computed(Place),
}

#[derive(Debug)]
pub struct ObjectProperty {
    pub key: ObjectPropertyKey,
    pub value: Place,
    pub shorthand: bool,
}

#[derive(Debug)]
pub enum ArrayElement {
    Expression(Place),
    Spread(Place),
    Hole,
}

#[derive(Debug)]
pub struct JsxAttribute {
    pub name: String,
    pub value: Place,
}

/// The quasis and embedded expressions of a template literal.
#[derive(Debug)]
pub struct TemplateLiteralValue {
    pub quasis: Vec<String>,
    pub subexpressions: Vec<Place>,
}

#[derive(Debug)]
pub enum DestructureTarget {
    Place(Place),
    Pattern(Box<DestructurePattern>),
}

#[derive(Debug)]
pub struct DestructureObjectProperty {
    pub key: String,
    pub value: DestructureTarget,
    pub default_value: Option<Place>,
}

#[derive(Debug)]
pub enum DestructureArrayItem {
    Value(DestructureTarget),
    Spread(Place),
    Hole,
}

#[derive(Debug)]
pub enum DestructurePattern {
    Object { properties: Vec<DestructureObjectProperty>, rest: Option<Place> },
    Array { items: Vec<DestructureArrayItem>, rest: Option<Place> },
}

#[derive(Debug)]
pub enum Param {
    Identifier(Place),
    Spread(Place),
}

/// A nested function, lowered to its own control-flow graph.
#[derive(Debug)]
pub struct HIRFunction {
    pub params: Vec<Param>,
    pub body: HIR,
    pub context: Vec<Place>,
    pub is_generator: bool,
    pub is_async: bool,
}

/// The right-hand side of an instruction.
#[derive(Debug)]
pub enum InstructionValue {
    LoadLocal { place: Place },
    StoreLocal { lvalue: Place, value: Place, type_: Option<InstructionKind> },
    LoadContext { place: Place },
    StoreContext { lvalue: Place, value: Place },
    DeclareLocal { lvalue: Place, type_: InstructionKind },
    DeclareContext { lvalue: Place },
    Destructure { value: Place, lvalue_pattern: DestructurePattern },
    BinaryExpression { op: BinaryOp, left: Place, right: Place },
    UnaryExpression { op: UnaryOp, value: Place },
    PrefixUpdate { op: UpdateOperator, lvalue: Place },
    PostfixUpdate { op: UpdateOperator, lvalue: Place },
    CallExpression { callee: Place, args: Vec<Place> },
    MethodCall { receiver: Place, property: String, args: Vec<Place> },
    NewExpression { callee: Place, args: Vec<Place> },
    PropertyLoad { object: Place, property: String },
    PropertyStore { object: Place, property: String, value: Place },
    ComputedLoad { object: Place, property: Place },
    ComputedStore { object: Place, property: Place, value: Place },
    PropertyDelete { object: Place, property: String },
    ComputedDelete { object: Place, property: Place },
    ObjectExpression { properties: Vec<ObjectProperty> },
    ArrayExpression { elements: Vec<ArrayElement> },
    JsxExpression { tag: Place, props: Vec<JsxAttribute>, children: Vec<Place> },
    JsxFragment { children: Vec<Place> },
    Await { value: Place },
    GetIterator { collection: Place },
    IteratorNext { iterator: Place, collection: Place },
    NextPropertyOf { value: Place },
    TypeCastExpression { value: Place, type_: Type },
    TaggedTemplateExpression { tag: Place, value: TemplateLiteralValue },
    TemplateLiteral { quasis: Vec<String>, subexpressions: Vec<Place> },
    StoreGlobal { name: String, value: Place },
    FunctionExpression {
        name: Option<String>,
        lowered_func: Box<HIRFunction>,
        expr_type: FunctionExprType,
    },
    ObjectMethod { lowered_func: Box<HIRFunction> },
    Primitive { value: Primitive },
    JSXText { value: String },
    RegExpLiteral { pattern: String, flags: String },
    LoadGlobal { binding: NonLocalBinding },
    StartMemoize { manual_memo_id: u32 },
    FinishMemoize { manual_memo_id: u32, decl: Place, deps: Vec<Place> },
    UnsupportedNode { node: String },
}

#[derive(Debug)]
pub struct Instruction {
    pub id: InstructionId,
    pub lvalue: Place,
    pub value: InstructionValue,
    pub loc: SourceLocation,
}

/// An SSA phi node: one operand per predecessor block.
#[derive(Debug)]
pub struct Phi {
    pub place: Place,
    pub operands: Vec<(BlockId, Place)>,
}

#[derive(Debug)]
pub struct Case {
    pub test: Option<Place>,
    pub block: BlockId,
}

/// How control leaves a basic block.
#[derive(Debug)]
pub enum Terminal {
    Goto { block: BlockId },
    If { test: Place, consequent: BlockId, alternate: BlockId, fallthrough: BlockId },
    Branch { test: Place, consequent: BlockId, alternate: BlockId },
    Switch { test: Place, cases: Vec<Case>, fallthrough: BlockId },
    Return { value: Place },
    Throw { value: Place },
    Unreachable,
    For {
        init: BlockId,
        test: BlockId,
        update: Option<BlockId>,
        body: BlockId,
        fallthrough: BlockId,
    },
    ForOf { init: BlockId, test: BlockId, body: BlockId, fallthrough: BlockId },
    ForIn { init: BlockId, test: BlockId, body: BlockId, fallthrough: BlockId },
    DoWhile { body: BlockId, test: BlockId, fallthrough: BlockId },
    While { test: BlockId, body: BlockId, fallthrough: BlockId },
    Logical {
        operator: LogicalOperator,
        left: BlockId,
        right: BlockId,
        fallthrough: BlockId,
        result: Option<Place>,
    },
    Ternary {
        test: Place,
        consequent: BlockId,
        alternate: BlockId,
        fallthrough: BlockId,
        result: Option<Place>,
    },
    Optional { test: Place, consequent: BlockId, fallthrough: BlockId, optional: bool },
    Sequence { blocks: Vec<BlockId>, fallthrough: BlockId },
    Label { block: BlockId, fallthrough: BlockId, label: u32 },
    MaybeThrow { continuation: BlockId, handler: BlockId },
    Try { block: BlockId, handler: BlockId, fallthrough: BlockId },
    Scope { scope: ScopeId, block: BlockId, fallthrough: BlockId },
    PrunedScope { scope: ScopeId, block: BlockId, fallthrough: BlockId },
}

#[derive(Debug)]
pub struct BasicBlock {
    pub kind: BlockKind,
    pub id: BlockId,
    pub instructions: Vec<Instruction>,
    pub terminal: Terminal,
    pub preds: Vec<BlockId>,
    pub phis: Vec<Phi>,
}

/// A function body as a control-flow graph of basic blocks.
#[derive(Debug)]
pub struct HIR {
    pub entry: BlockId,
    pub blocks: Vec<(BlockId, BasicBlock)>,
}

/// A block of the tree-shaped IR.
#[derive(Debug)]
pub struct ReactiveBlock {
    pub instructions: Vec<ReactiveInstruction>,
}

#[derive(Debug)]
pub enum ReactiveInstruction {
    Instruction(Instruction),
    Terminal(ReactiveTerminal),
    Scope(ReactiveScopeBlock),
}

/// A memoized scope and the instructions it covers.
#[derive(Debug)]
pub struct ReactiveScopeBlock {
    pub scope: ReactiveScope,
    pub instructions: ReactiveBlock,
}

/// Structured control flow of the tree-shaped IR.
#[derive(Debug)]
pub enum ReactiveTerminal {
    If { test: Place, consequent: ReactiveBlock, alternate: ReactiveBlock, id: BlockId },
    Switch { test: Place, cases: Vec<(Option<Place>, ReactiveBlock)>, id: BlockId },
    For {
        init: ReactiveBlock,
        test: ReactiveBlock,
        update: Option<ReactiveBlock>,
        body: ReactiveBlock,
        id: BlockId,
    },
    ForOf { init: ReactiveBlock, test: ReactiveBlock, body: ReactiveBlock, id: BlockId },
    ForIn { init: ReactiveBlock, test: ReactiveBlock, body: ReactiveBlock, id: BlockId },
    While { test: ReactiveBlock, body: ReactiveBlock, id: BlockId },
    DoWhile { body: ReactiveBlock, test: ReactiveBlock, id: BlockId },
    Try { block: ReactiveBlock, handler: ReactiveBlock, id: BlockId },
    Label { block: ReactiveBlock, id: BlockId, label: u32 },
    Logical {
        operator: LogicalOperator,
        right: ReactiveBlock,
        result: Option<Place>,
        id: BlockId,
    },
    Return { value: Place, id: BlockId },
    Throw { value: Place, id: BlockId },
    Continue { id: BlockId },
    Break { id: BlockId },
}

/// A function in the tree-shaped IR, ready for code generation.
#[derive(Debug)]
pub struct ReactiveFunction {
    pub loc: SourceLocation,
    pub id: Option<String>,
    pub params: Vec<Param>,
    pub body: ReactiveBlock,
    pub directives: Vec<String>,
    pub is_arrow: bool,
    pub is_async: bool,
    pub is_generator: bool,
}

} // verus!
