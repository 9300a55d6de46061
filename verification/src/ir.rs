//! The intermediate representation that the verifier reads: modules of
//! functions, functions of basic blocks, blocks of instructions.
//!
//! A value is known by its printed form, its name and its type. Operands
//! stand in the order in which the IR stores them: a conditional branch
//! holds its condition, then the block taken when the condition is false,
//! then the block taken when it is true; a switch holds its discriminant,
//! its default block, and then a value and a block for each case.

use vstd::prelude::*;

verus! {

/// What an instruction does.
#[derive(Clone, Copy, Debug, PartialEq, Eq, Structural)]
pub enum Opcode {
    Return,
    Br,
    Switch,
    IndirectBr,
    Invoke,
    Unreachable,
    CallBr,
    Resume,
    CatchSwitch,
    CatchRet,
    CleanupRet,
    Call,
    Load,
    Store,
    Alloca,
    Xor,
    ICmp,
    ExtractValue,
    Phi,
    Trunc,
    ZExt,
    Select,
    /// Any opcode that the verifier has no use for.
    Other,
}

/// The comparison that an `icmp` makes.
#[derive(Clone, Copy, Debug, PartialEq, Eq, Structural)]
pub enum IntPredicate {
    EQ,
    NE,
    UGT,
    UGE,
    ULT,
    ULE,
    SGT,
    SGE,
    SLT,
    SLE,
}

/// The type of a value, as far as the verifier tells types apart.
#[derive(Clone, Copy, Debug, PartialEq, Eq, Structural)]
pub enum IrType {
    /// An integer of the given width in bits; width 1 is the boolean.
    Int(u32),
    /// A pointer.
    Pointer,
    /// Anything else.
    Other,
}

impl IrType {
    /// The one-bit integer.
    pub open spec fn is_bool(self) -> bool {
        self == IrType::Int(1)
    }

    /// An integer of a width that the encoding takes: 8, 16, 32 or 64
    /// bits, or the one bit of a boolean.
    pub open spec fn is_int(self) -> bool {
        self == IrType::Int(1) || self == IrType::Int(8) || self == IrType::Int(16) || self
            == IrType::Int(32) || self == IrType::Int(64)
    }

    /// Whether this is the one-bit integer.
    pub fn bool_type(&self) -> (r: bool)
        ensures
            r == self.is_bool(),
    {
        match self {
            IrType::Int(w) => *w == 1,
            _ => false,
        }
    }

    /// Whether this is an integer of a width that the encoding takes.
    pub fn int_type(&self) -> (r: bool)
        ensures
            r == self.is_int(),
    {
        match self {
            IrType::Int(w) => *w == 1 || *w == 8 || *w == 16 || *w == 32 || *w == 64,
            _ => false,
        }
    }
}

impl Opcode {
    /// Whether an instruction with this opcode ends a block.
    pub open spec fn is_terminator(self) -> bool {
        match self {
            Opcode::Return
            | Opcode::Br
            | Opcode::Switch
            | Opcode::IndirectBr
            | Opcode::Invoke
            | Opcode::Unreachable
            | Opcode::CallBr
            | Opcode::Resume
            | Opcode::CatchSwitch
            | Opcode::CatchRet
            | Opcode::CleanupRet => true,
            _ => false,
        }
    }

    /// Whether an instruction with this opcode ends a block.
    pub fn ends_block(&self) -> (r: bool)
        ensures
            r == self.is_terminator(),
    {
        match self {
            Opcode::Return
            | Opcode::Br
            | Opcode::Switch
            | Opcode::IndirectBr
            | Opcode::Invoke
            | Opcode::Unreachable
            | Opcode::CallBr
            | Opcode::Resume
            | Opcode::CatchSwitch
            | Opcode::CatchRet
            | Opcode::CleanupRet => true,
            _ => false,
        }
    }
}

/// A value: a register, a parameter, a constant or a function.
#[derive(Clone, Debug, PartialEq, Eq)]
pub struct Value {
    /// The printed form, holding either `%` and a register name, or a type and a literal.
    pub text: String,
    /// The name; empty for a constant and for an unnamed value.
    pub name: String,
    /// The type.
    pub ty: IrType,
}

/// One operand of an instruction.
#[derive(Clone, Debug, PartialEq, Eq)]
pub enum Operand {
    /// A value.
    Value(Value),
    /// A basic block, by its name.
    Block(String),
}

/// One way into a phi instruction: the value that arrives from a predecessor.
#[derive(Clone, Debug, PartialEq, Eq)]
pub struct Incoming {
    /// The value that the phi takes.
    pub value: Value,
    /// The name of the predecessor block that control comes from.
    pub block: String,
}

/// An instruction.
#[derive(Clone, Debug, PartialEq, Eq)]
pub struct Instruction {
    /// What the instruction does.
    pub opcode: Opcode,
    /// The printed form.
    pub text: String,
    /// The type of the result.
    pub ty: IrType,
    /// The operands, in the order of the IR.
    pub operands: Vec<Operand>,
    /// The comparison, for an `icmp`.
    pub predicate: Option<IntPredicate>,
    /// The incoming pairs, for a phi.
    pub incoming: Vec<Incoming>,
}

/// A basic block: a name and its instructions, the terminator last.
#[derive(Clone, Debug, PartialEq, Eq)]
pub struct BasicBlock {
    pub name: String,
    pub instructions: Vec<Instruction>,
}

/// A function: a name, its parameters and its blocks, the entry block first.
#[derive(Clone, Debug, PartialEq, Eq)]
pub struct Function {
    /// The name as the IR has it, mangled.
    pub name: String,
    pub params: Vec<Value>,
    pub blocks: Vec<BasicBlock>,
}

/// A module: a name and its functions.
#[derive(Clone, Debug, PartialEq, Eq)]
pub struct Module {
    pub name: String,
    pub functions: Vec<Function>,
}

impl Instruction {
    /// Whether operand `i` exists and is a value.
    pub open spec fn has_value(&self, i: int) -> bool {
        0 <= i < self.operands.len() && self.operands[i] is Value
    }

    /// Whether operand `i` exists and is a block.
    pub open spec fn has_block(&self, i: int) -> bool {
        0 <= i < self.operands.len() && self.operands[i] is Block
    }

    /// Operand `i` as a value.
    pub open spec fn value(&self, i: int) -> Value
        recommends
            self.has_value(i),
    {
        self.operands[i]->Value_0
    }

    /// The name of the block that operand `i` is.
    pub open spec fn block(&self, i: int) -> Seq<char>
        recommends
            self.has_block(i),
    {
        self.operands[i]->Block_0@
    }

    /// Operand `i`, where it is a value.
    pub fn value_operand(&self, i: usize) -> (r: Option<&Value>)
        ensures
            r is Some == self.has_value(i as int),
            r is Some ==> *r->Some_0 == self.value(i as int),
    {
        if i < self.operands.len() {
            match &self.operands[i] {
                Operand::Value(v) => Some(v),
                Operand::Block(_) => None,
            }
        } else {
            None
        }
    }

    /// The name of operand `i`, where it is a block.
    pub fn block_operand(&self, i: usize) -> (r: Option<&String>)
        ensures
            r is Some == self.has_block(i as int),
            r is Some ==> r->Some_0@ == self.block(i as int),
    {
        if i < self.operands.len() {
            match &self.operands[i] {
                Operand::Value(_) => None,
                Operand::Block(b) => Some(b),
            }
        } else {
            None
        }
    }
}

impl BasicBlock {
    /// Whether the block ends in a terminator.
    pub open spec fn has_terminator(&self) -> bool {
        self.instructions.len() > 0 && self.instructions[self.instructions.len()
            - 1].opcode.is_terminator()
    }

    /// The terminator.
    pub open spec fn terminator(&self) -> Instruction
        recommends
            self.has_terminator(),
    {
        self.instructions[self.instructions.len() - 1]
    }

    /// The terminator, where the block has one.
    pub fn get_terminator(&self) -> (r: Option<&Instruction>)
        ensures
            r is Some == self.has_terminator(),
            r is Some ==> *r->Some_0 == self.terminator(),
    {
        let n = self.instructions.len();
        if n > 0 && self.instructions[n - 1].opcode.ends_block() {
            Some(&self.instructions[n - 1])
        } else {
            None
        }
    }
}

/// A `Value` as contracts see it.
pub struct ValueView {
    pub text: Seq<char>,
    pub name: Seq<char>,
    pub ty: IrType,
}

/// An `Operand` as contracts see it.
pub enum OperandView {
    Value(ValueView),
    Block(Seq<char>),
}

/// An `Incoming` as contracts see it.
pub struct IncomingView {
    pub value: ValueView,
    pub block: Seq<char>,
}

/// An `Instruction` as contracts see it.
pub struct InstructionView {
    pub opcode: Opcode,
    pub text: Seq<char>,
    pub ty: IrType,
    pub operands: Seq<OperandView>,
    pub predicate: Option<IntPredicate>,
    pub incoming: Seq<IncomingView>,
}

/// A `BasicBlock` as contracts see it.
pub struct BlockView {
    pub name: Seq<char>,
    pub instructions: Seq<InstructionView>,
}

/// A `Function` as contracts see it.
pub struct FunctionView {
    pub name: Seq<char>,
    pub params: Seq<ValueView>,
    pub blocks: Seq<BlockView>,
}

/// A `Module` as contracts see it.
pub struct ModuleView {
    pub name: Seq<char>,
    pub functions: Seq<FunctionView>,
}

impl View for Value {
    type V = ValueView;

    open spec fn view(&self) -> ValueView {
        ValueView { text: self.text@, name: self.name@, ty: self.ty }
    }
}

impl View for Operand {
    type V = OperandView;

    open spec fn view(&self) -> OperandView {
        match self {
            Operand::Value(v) => OperandView::Value(v@),
            Operand::Block(b) => OperandView::Block(b@),
        }
    }
}

impl View for Incoming {
    type V = IncomingView;

    open spec fn view(&self) -> IncomingView {
        IncomingView { value: self.value@, block: self.block@ }
    }
}

impl View for Instruction {
    type V = InstructionView;

    open spec fn view(&self) -> InstructionView {
        InstructionView {
            opcode: self.opcode,
            text: self.text@,
            ty: self.ty,
            operands: self.operands@.map_values(|o: Operand| o@),
            predicate: self.predicate,
            incoming: self.incoming@.map_values(|i: Incoming| i@),
        }
    }
}

impl View for BasicBlock {
    type V = BlockView;

    open spec fn view(&self) -> BlockView {
        BlockView {
            name: self.name@,
            instructions: self.instructions@.map_values(|i: Instruction| i@),
        }
    }
}

impl View for Function {
    type V = FunctionView;

    open spec fn view(&self) -> FunctionView {
        FunctionView {
            name: self.name@,
            params: self.params@.map_values(|p: Value| p@),
            blocks: self.blocks@.map_values(|b: BasicBlock| b@),
        }
    }
}

impl View for Module {
    type V = ModuleView;

    open spec fn view(&self) -> ModuleView {
        ModuleView { name: self.name@, functions: self.functions@.map_values(|f: Function| f@) }
    }
}

/// Copies a value.
pub fn clone_value(v: &Value) -> (r: Value)
    ensures
        r@ == v@,
{
    Value { text: v.text.clone(), name: v.name.clone(), ty: v.ty }
}

/// Copies an operand.
pub fn clone_operand(o: &Operand) -> (r: Operand)
    ensures
        r@ == o@,
{
    match o {
        Operand::Value(v) => Operand::Value(clone_value(v)),
        Operand::Block(b) => Operand::Block(b.clone()),
    }
}

/// Copies an instruction.
pub fn clone_instruction(i: &Instruction) -> (r: Instruction)
    ensures
        r@ == i@,
{
    let mut operands: Vec<Operand> = Vec::new();
    let mut k: usize = 0;
    while k < i.operands.len()
        invariant
            k <= i.operands.len(),
            operands.len() == k,
            forall|j: int| 0 <= j < k ==> (#[trigger] operands[j])@ == i.operands[j]@,
        decreases i.operands.len() - k,
    {
        operands.push(clone_operand(&i.operands[k]));
        k = k + 1;
    }
    let mut incoming: Vec<Incoming> = Vec::new();
    let mut k: usize = 0;
    while k < i.incoming.len()
        invariant
            k <= i.incoming.len(),
            incoming.len() == k,
            forall|j: int| 0 <= j < k ==> (#[trigger] incoming[j])@ == i.incoming[j]@,
        decreases i.incoming.len() - k,
    {
        incoming.push(
            Incoming { value: clone_value(&i.incoming[k].value), block: i.incoming[k].block.clone() },
        );
        k = k + 1;
    }
    let r = Instruction {
        opcode: i.opcode,
        text: i.text.clone(),
        ty: i.ty,
        operands,
        predicate: i.predicate,
        incoming,
    };
    assert(r@.operands =~= i@.operands);
    assert(r@.incoming =~= i@.incoming);
    r
}

} // verus!
