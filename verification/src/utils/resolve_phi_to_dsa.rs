//! Phi elimination.
//!
//! A phi picks a value by the edge that control arrived on. Each phi is
//! replaced by a stack slot: the slot is allocated in the entry block,
//! loaded where the phi stood, and stored to on each incoming edge, in a
//! block of its own that is put between the predecessor and the block of
//! the phi.

use vstd::prelude::*;
use crate::ir::{
    clone_instruction, clone_operand, clone_value, BasicBlock, BlockView, Function, FunctionView,
    Instruction, InstructionView, IrType, Module, ModuleView, Opcode, Operand, OperandView, Value,
    ValueView,
};
use crate::text::{
    concat_str, push_unique, scan, scan_str, slice_to_string, str_eq, unique, views, CharClass,
};

verus! {

/// The name of the register that a phi printed as `text` defines: what
/// follows its first `%`, up to the next double quote, space or comma.
pub open spec fn phi_variable(text: Seq<char>) -> Seq<char> {
    let start = scan(text, CharClass::Exactly('%'), 0) + 1;
    if start > text.len() {
        seq![]
    } else {
        text.subrange(start, scan(text, CharClass::NameEnd, start))
    }
}

/// The name of the stack slot for the register `variable`.
pub open spec fn slot_name(variable: Seq<char>) -> Seq<char> {
    variable + "_ptr"@
}

/// The stack slot for the register `variable`, as an operand.
pub open spec fn slot_value(variable: Seq<char>) -> ValueView {
    ValueView {
        text: "%"@ + slot_name(variable),
        name: slot_name(variable),
        ty: IrType::Pointer,
    }
}

/// The instruction that allocates the slot for `variable`.
pub open spec fn alloca_of(variable: Seq<char>) -> InstructionView {
    InstructionView {
        opcode: Opcode::Alloca,
        text: "  %"@ + slot_name(variable) + " = alloca"@,
        ty: IrType::Pointer,
        operands: seq![],
        predicate: None,
        incoming: seq![],
    }
}

/// The instruction that loads `variable`, of the type `ty`, from its slot.
pub open spec fn load_of(variable: Seq<char>, ty: IrType) -> InstructionView {
    InstructionView {
        opcode: Opcode::Load,
        text: "  %"@ + variable + " = load %"@ + slot_name(variable),
        ty,
        operands: seq![OperandView::Value(slot_value(variable))],
        predicate: None,
        incoming: seq![],
    }
}

/// The instruction that stores `value` to the slot of `variable`.
pub open spec fn store_of(value: ValueView, variable: Seq<char>) -> InstructionView {
    InstructionView {
        opcode: Opcode::Store,
        text: "  store "@ + value.text + ", %"@ + slot_name(variable),
        ty: IrType::Other,
        operands: seq![OperandView::Value(value), OperandView::Value(slot_value(variable))],
        predicate: None,
        incoming: seq![],
    }
}

/// The unconditional branch to the block `target`.
pub open spec fn jump_to(target: Seq<char>) -> InstructionView {
    InstructionView {
        opcode: Opcode::Br,
        text: "  br label %"@ + target,
        ty: IrType::Other,
        operands: seq![OperandView::Block(target)],
        predicate: None,
        incoming: seq![],
    }
}

/// The loads that replace the phis among the first `k` of `instructions`, in their order.
pub open spec fn loads_for(instructions: Seq<InstructionView>, k: int) -> Seq<InstructionView>
    decreases k,
{
    if k <= 0 {
        seq![]
    } else if instructions[k - 1].opcode == Opcode::Phi {
        loads_for(instructions, k - 1).push(
            load_of(phi_variable(instructions[k - 1].text), instructions[k - 1].ty),
        )
    } else {
        loads_for(instructions, k - 1)
    }
}

/// Those of the first `k` of `instructions` that are no phi, in their order.
pub open spec fn others(instructions: Seq<InstructionView>, k: int) -> Seq<InstructionView>
    decreases k,
{
    if k <= 0 {
        seq![]
    } else if instructions[k - 1].opcode == Opcode::Phi {
        others(instructions, k - 1)
    } else {
        others(instructions, k - 1).push(instructions[k - 1])
    }
}

/// The allocations of the slots of the phis among the first `k` of
/// `instructions`, that of the last phi first.
pub open spec fn allocas_for(instructions: Seq<InstructionView>, k: int) -> Seq<InstructionView>
    decreases k,
{
    if k <= 0 {
        seq![]
    } else if instructions[k - 1].opcode == Opcode::Phi {
        seq![alloca_of(phi_variable(instructions[k - 1].text))] + allocas_for(instructions, k - 1)
    } else {
        allocas_for(instructions, k - 1)
    }
}

/// The blocks that the first `j` incoming pairs of `phi` come from.
pub open spec fn sources_of(phi: InstructionView, j: int) -> Seq<Seq<char>>
    decreases j,
{
    if j <= 0 {
        seq![]
    } else {
        sources_of(phi, j - 1).push(phi.incoming[j - 1].block)
    }
}

/// The blocks that the incoming pairs of the phis among the first `k` of
/// `instructions` come from, in the order of the phis and of their pairs.
pub open spec fn incoming_blocks(instructions: Seq<InstructionView>, k: int) -> Seq<Seq<char>>
    decreases k,
{
    if k <= 0 {
        seq![]
    } else if instructions[k - 1].opcode == Opcode::Phi {
        incoming_blocks(instructions, k - 1) + sources_of(
            instructions[k - 1],
            instructions[k - 1].incoming.len() as int,
        )
    } else {
        incoming_blocks(instructions, k - 1)
    }
}

/// The stores for those of the first `j` incoming pairs of `phi` that come from `pred`.
pub open spec fn stores_of(phi: InstructionView, pred: Seq<char>, j: int) -> Seq<InstructionView>
    decreases j,
{
    if j <= 0 {
        seq![]
    } else if phi.incoming[j - 1].block == pred {
        stores_of(phi, pred, j - 1).push(
            store_of(phi.incoming[j - 1].value, phi_variable(phi.text)),
        )
    } else {
        stores_of(phi, pred, j - 1)
    }
}

/// The stores on the edge from `pred` for the phis among the first `k` of `instructions`.
pub open spec fn stores_for(instructions: Seq<InstructionView>, pred: Seq<char>, k: int) -> Seq<
    InstructionView,
>
    decreases k,
{
    if k <= 0 {
        seq![]
    } else if instructions[k - 1].opcode == Opcode::Phi {
        stores_for(instructions, pred, k - 1) + stores_of(
            instructions[k - 1],
            pred,
            instructions[k - 1].incoming.len() as int,
        )
    } else {
        stores_for(instructions, pred, k - 1)
    }
}

/// The name of the block on the edge from `pred` to `block`.
pub open spec fn edge_name(pred: Seq<char>, block: Seq<char>) -> Seq<char> {
    pred + "_"@ + block
}

/// The block on the edge from `pred` to `block`: the stores for the phis
/// of `block`, and a branch to `block`.
pub open spec fn edge_block(block: BlockView, pred: Seq<char>) -> BlockView {
    BlockView {
        name: edge_name(pred, block.name),
        instructions: stores_for(
            block.instructions,
            pred,
            block.instructions.len() as int,
        ).push(jump_to(block.name)),
    }
}

/// `operand`, with the block `to` in place of the block `from`.
pub open spec fn redirected_operand(operand: OperandView, from: Seq<char>, to: Seq<char>) -> OperandView {
    if operand == OperandView::Block(from) {
        OperandView::Block(to)
    } else {
        operand
    }
}

/// `i`, with the block `to` in place of every operand that is the block `from`.
pub open spec fn redirected_instruction(
    i: InstructionView,
    from: Seq<char>,
    to: Seq<char>,
) -> InstructionView {
    InstructionView {
        operands: i.operands.map_values(|o: OperandView| redirected_operand(o, from, to)),
        ..i
    }
}

/// Whether the last instruction of `b` is a branch or a switch.
pub open spec fn ends_in_branch(b: BlockView) -> bool {
    b.instructions.len() > 0 && (b.instructions.last().opcode == Opcode::Br
        || b.instructions.last().opcode == Opcode::Switch)
}

/// `b`, with its branch or switch leading to the block `to` wherever it
/// led to the block `from`; `b` itself where it ends in neither.
pub open spec fn redirected(b: BlockView, from: Seq<char>, to: Seq<char>) -> BlockView {
    if ends_in_branch(b) {
        BlockView {
            instructions: b.instructions.update(
                b.instructions.len() - 1,
                redirected_instruction(b.instructions.last(), from, to),
            ),
            ..b
        }
    } else {
        b
    }
}

/// The first of `blocks`, at or after position `k`, that is called `name`;
/// the number of blocks where there is none.
pub open spec fn position_of(blocks: Seq<BlockView>, name: Seq<char>, k: int) -> int
    decreases blocks.len() - k,
{
    if k < 0 || k >= blocks.len() {
        blocks.len() as int
    } else if blocks[k].name == name {
        k
    } else {
        position_of(blocks, name, k + 1)
    }
}

/// `f` with the edge from `pred` to `block` split: the edge block is
/// appended, and `pred`, where `f` has it, leads to the edge block wherever
/// it led to `block`.
pub open spec fn with_edge(f: FunctionView, block: BlockView, pred: Seq<char>) -> FunctionView {
    let at = position_of(f.blocks, pred, 0);
    let appended = f.blocks.push(edge_block(block, pred));
    if at < f.blocks.len() {
        FunctionView {
            blocks: appended.update(
                at,
                redirected(f.blocks[at], block.name, edge_name(pred, block.name)),
            ),
            ..f
        }
    } else {
        FunctionView { blocks: appended, ..f }
    }
}

/// `f` with the edges from the first `k` of `preds` to `block` split, in their order.
pub open spec fn with_edges(f: FunctionView, block: BlockView, preds: Seq<Seq<char>>, k: int) -> FunctionView
    decreases k,
{
    if k <= 0 {
        f
    } else {
        with_edge(with_edges(f, block, preds, k - 1), block, preds[k - 1])
    }
}

/// Whether one of the first `k` of `instructions` is a phi.
pub open spec fn any_phi(instructions: Seq<InstructionView>, k: int) -> bool {
    exists|i: int| 0 <= i < k && i < instructions.len() && (
    #[trigger] instructions[i]).opcode == Opcode::Phi
}

/// Whether `b` holds a phi.
pub open spec fn has_phi(b: BlockView) -> bool {
    any_phi(b.instructions, b.instructions.len() as int)
}

/// `f` with the phis of its block `at` eliminated: the block holds a load
/// for each phi, before its other instructions; the entry block begins with
/// the allocation of their slots; and each edge that a phi names is split.
/// A block without a phi leaves `f` as it is.
pub open spec fn resolved_block(f: FunctionView, at: int) -> FunctionView {
    let block = f.blocks[at];
    let n = block.instructions.len() as int;
    if !has_phi(block) {
        f
    } else {
        let loaded = f.blocks.update(
            at,
            BlockView {
                instructions: loads_for(block.instructions, n) + others(block.instructions, n),
                ..block
            },
        );
        let allocated = loaded.update(
            0,
            BlockView {
                instructions: allocas_for(block.instructions, n) + loaded[0].instructions,
                ..loaded[0]
            },
        );
        let preds = unique(incoming_blocks(block.instructions, n));
        with_edges(FunctionView { blocks: allocated, ..f }, block, preds, preds.len() as int)
    }
}

/// `f` with the phis of its first `k` blocks eliminated, block by block.
pub open spec fn resolved_blocks(f: FunctionView, k: int) -> FunctionView
    decreases k,
{
    if k <= 0 {
        f
    } else {
        resolved_block(resolved_blocks(f, k - 1), k - 1)
    }
}

/// `f` with its phis eliminated: those of each block that `f` has.
pub open spec fn resolved_function(f: FunctionView) -> FunctionView {
    resolved_blocks(f, f.blocks.len() as int)
}

/// `m` with the phis of each function eliminated.
pub open spec fn resolved_module(m: ModuleView) -> ModuleView {
    ModuleView { functions: m.functions.map_values(|f: FunctionView| resolved_function(f)), ..m }
}

/// The mathematical content of a list of instructions.
pub open spec fn instruction_views(v: Seq<Instruction>) -> Seq<InstructionView> {
    v.map_values(|i: Instruction| i@)
}

/// Gives the name of the register that a phi printed as `text` defines.
pub fn get_phi_variable(text: &str) -> (variable: String)
    ensures
        variable@ == phi_variable(text@),
{
    let n = text.unicode_len();
    let percent = scan_str(text, CharClass::Exactly('%'), 0);
    if percent >= n {
        return String::new();
    }
    let start = percent + 1;
    let end = scan_str(text, CharClass::NameEnd, start);
    slice_to_string(text, start, end)
}

/// Builds the stack slot for the register `variable`, as an operand.
pub fn make_slot(variable: &str) -> (r: Value)
    ensures
        r@ == slot_value(variable@),
{
    let name = concat_str(variable, "_ptr");
    Value { text: concat_str("%", name.as_str()), name, ty: IrType::Pointer }
}

/// Builds the instruction that allocates the slot for `variable`.
pub fn make_alloca(variable: &str) -> (r: Instruction)
    ensures
        r@ == alloca_of(variable@),
{
    let name = concat_str(variable, "_ptr");
    let head = concat_str("  %", name.as_str());
    let r = Instruction {
        opcode: Opcode::Alloca,
        text: concat_str(head.as_str(), " = alloca"),
        ty: IrType::Pointer,
        operands: Vec::new(),
        predicate: None,
        incoming: Vec::new(),
    };
    assert(r@.operands =~= alloca_of(variable@).operands);
    assert(r@.incoming =~= alloca_of(variable@).incoming);
    r
}

/// Builds the instruction that loads `variable` from its slot.
pub fn make_load(variable: &str, ty: IrType) -> (r: Instruction)
    ensures
        r@ == load_of(variable@, ty),
{
    let name = concat_str(variable, "_ptr");
    let head = concat_str("  %", variable);
    let middle = concat_str(head.as_str(), " = load %");
    let mut operands: Vec<Operand> = Vec::new();
    operands.push(Operand::Value(make_slot(variable)));
    let r = Instruction {
        opcode: Opcode::Load,
        text: concat_str(middle.as_str(), name.as_str()),
        ty,
        operands,
        predicate: None,
        incoming: Vec::new(),
    };
    assert(r@.operands =~= load_of(variable@, ty).operands);
    assert(r@.incoming =~= load_of(variable@, ty).incoming);
    r
}

/// Builds the instruction that stores `value` to the slot of `variable`.
pub fn make_store(value: &Value, variable: &str) -> (r: Instruction)
    ensures
        r@ == store_of(value@, variable@),
{
    let name = concat_str(variable, "_ptr");
    let head = concat_str("  store ", value.text.as_str());
    let middle = concat_str(head.as_str(), ", %");
    let mut operands: Vec<Operand> = Vec::new();
    operands.push(Operand::Value(clone_value(value)));
    operands.push(Operand::Value(make_slot(variable)));
    let r = Instruction {
        opcode: Opcode::Store,
        text: concat_str(middle.as_str(), name.as_str()),
        ty: IrType::Other,
        operands,
        predicate: None,
        incoming: Vec::new(),
    };
    assert(r@.operands =~= store_of(value@, variable@).operands);
    assert(r@.incoming =~= store_of(value@, variable@).incoming);
    r
}

/// Builds the unconditional branch to the block `target`.
pub fn make_jump(target: &str) -> (r: Instruction)
    ensures
        r@ == jump_to(target@),
{
    let mut operands: Vec<Operand> = Vec::new();
    operands.push(Operand::Block(target.to_owned()));
    let r = Instruction {
        opcode: Opcode::Br,
        text: concat_str("  br label %", target),
        ty: IrType::Other,
        operands,
        predicate: None,
        incoming: Vec::new(),
    };
    assert(r@.operands =~= jump_to(target@).operands);
    assert(r@.incoming =~= jump_to(target@).incoming);
    r
}

/// Appends `i` to `v`.
pub(crate) fn push_instruction(v: &mut Vec<Instruction>, i: Instruction)
    ensures
        instruction_views(final(v)@) == instruction_views(old(v)@).push(i@),
{
    v.push(i);
    assert(instruction_views(v@) =~= instruction_views(old(v)@).push(i@));
}

/// Puts `i` before everything in `v`.
fn prepend_instruction(v: &mut Vec<Instruction>, i: Instruction)
    ensures
        instruction_views(final(v)@) == seq![i@] + instruction_views(old(v)@),
{
    v.insert(0, i);
    assert(instruction_views(v@) =~= seq![i@] + instruction_views(old(v)@));
}

/// Tells whether `b` holds a phi.
pub fn block_has_phi(b: &BasicBlock) -> (r: bool)
    ensures
        r == has_phi(b@),
{
    let mut k: usize = 0;
    while k < b.instructions.len()
        invariant
            k <= b.instructions.len(),
            !any_phi(b@.instructions, k as int),
        decreases b.instructions.len() - k,
    {
        if b.instructions[k].opcode == Opcode::Phi {
            assert(b@.instructions[k as int].opcode == Opcode::Phi);
            return true;
        }
        k = k + 1;
    }
    false
}

/// Builds the stores on the edge from `pred` for the phis among `instructions`.
fn edge_stores(instructions: &Vec<Instruction>, pred: &str) -> (r: Vec<Instruction>)
    ensures
        instruction_views(r@) == stores_for(
            instruction_views(instructions@),
            pred@,
            instructions.len() as int,
        ),
{
    let ghost all = instruction_views(instructions@);
    let mut r: Vec<Instruction> = Vec::new();
    assert(instruction_views(r@) =~= seq![]);
    let mut k: usize = 0;
    while k < instructions.len()
        invariant
            k <= instructions.len(),
            all == instruction_views(instructions@),
            instruction_views(r@) == stores_for(all, pred@, k as int),
        decreases instructions.len() - k,
    {
        let phi = &instructions[k];
        assert(all[k as int] == phi@);
        if phi.opcode == Opcode::Phi {
            let variable = get_phi_variable(phi.text.as_str());
            let ghost before = instruction_views(r@);
            let mut j: usize = 0;
            assert(before + stores_of(phi@, pred@, 0) =~= before);
            while j < phi.incoming.len()
                invariant
                    j <= phi.incoming.len(),
                    variable@ == phi_variable(phi@.text),
                    instruction_views(r@) == before + stores_of(phi@, pred@, j as int),
                decreases phi.incoming.len() - j,
            {
                assert(phi@.incoming[j as int] == phi.incoming[j as int]@);
                if str_eq(phi.incoming[j].block.as_str(), pred) {
                    let ghost sofar = stores_of(phi@, pred@, j as int);
                    let store = make_store(&phi.incoming[j].value, variable.as_str());
                    push_instruction(&mut r, store);
                    assert((before + sofar).push(store@) =~= before + sofar.push(store@));
                }
                j = j + 1;
            }
            assert(phi@.incoming.len() == phi.incoming.len());
        }
        k = k + 1;
    }
    r
}

/// Makes the branch or switch at the end of `b` lead to the block `to`
/// wherever it led to the block `from`.
pub(crate) fn redirect_block(b: &mut BasicBlock, from: &str, to: &str)
    ensures
        final(b)@ == redirected(old(b)@, from@, to@),
{
    let n = b.instructions.len();
    if n == 0 {
        return ;
    }
    assert(b@.instructions.last() == b.instructions[n - 1]@);
    if !(b.instructions[n - 1].opcode == Opcode::Br || b.instructions[n - 1].opcode
        == Opcode::Switch) {
        return ;
    }
    let ghost last = b.instructions[n - 1]@;
    let mut operands: Vec<Operand> = Vec::new();
    let mut k: usize = 0;
    while k < b.instructions[n - 1].operands.len()
        invariant
            n == b.instructions.len(),
            n > 0,
            *b == *old(b),
            last == b.instructions[n - 1]@,
            k <= b.instructions[n - 1].operands.len(),
            operands.len() == k,
            forall|j: int|
                0 <= j < k ==> (#[trigger] operands[j])@ == redirected_operand(
                    last.operands[j],
                    from@,
                    to@,
                ),
        decreases b.instructions[n - 1].operands.len() - k,
    {
        let o = &b.instructions[n - 1].operands[k];
        assert(last.operands[k as int] == o@);
        let moved = match o {
            Operand::Block(name) => str_eq(name.as_str(), from),
            Operand::Value(_) => false,
        };
        if moved {
            operands.push(Operand::Block(to.to_owned()));
        } else {
            operands.push(clone_operand(o));
        }
        k = k + 1;
    }
    let ghost target = redirected_instruction(last, from@, to@);
    assert(operands@.map_values(|o: Operand| o@) =~= target.operands);
    b.instructions[n - 1].operands = operands;
    assert(b.instructions[n - 1]@ == target);
    assert(b@.instructions =~= old(b)@.instructions.update(n - 1, target));
}

/// Finds the first block of `f` that is called `name`.
pub(crate) fn find_position(f: &Function, name: &str) -> (r: usize)
    ensures
        r == position_of(f@.blocks, name@, 0),
        r <= f.blocks.len(),
{
    let mut k: usize = 0;
    while k < f.blocks.len()
        invariant
            k <= f.blocks.len(),
            position_of(f@.blocks, name@, 0) == position_of(f@.blocks, name@, k as int),
        decreases f.blocks.len() - k,
    {
        assert(f@.blocks[k as int] == f.blocks[k as int]@);
        if str_eq(f.blocks[k].name.as_str(), name) {
            return k;
        }
        k = k + 1;
    }
    k
}

/// Splits the edge from `pred` to the block that `block` was before its
/// phis were taken out.
fn split_edge(f: &mut Function, block: &BasicBlock, pred: &str)
    ensures
        final(f)@ == with_edge(old(f)@, block@, pred@),
{
    let at = find_position(f, pred);
    let n = f.blocks.len();
    let underscored = concat_str(pred, "_");
    let name = concat_str(underscored.as_str(), block.name.as_str());
    let mut instructions = edge_stores(&block.instructions, pred);
    push_instruction(&mut instructions, make_jump(block.name.as_str()));
    let edge = BasicBlock { name: name.clone(), instructions };
    assert(edge@ == edge_block(block@, pred@));
    f.blocks.push(edge);
    assert(f@.blocks =~= old(f)@.blocks.push(edge_block(block@, pred@)));
    if at < n {
        let ghost before = f@.blocks;
        assert(before[at as int] == old(f)@.blocks[at as int]);
        redirect_block(&mut f.blocks[at], block.name.as_str(), name.as_str());
        assert(f@.blocks =~= before.update(
            at as int,
            redirected(before[at as int], block@.name, name@),
        ));
    }
}

/// Copies a block.
pub(crate) fn clone_block(b: &BasicBlock) -> (r: BasicBlock)
    ensures
        r@ == b@,
{
    let mut instructions: Vec<Instruction> = Vec::new();
    let mut k: usize = 0;
    while k < b.instructions.len()
        invariant
            k <= b.instructions.len(),
            instructions.len() == k,
            forall|j: int| 0 <= j < k ==> (#[trigger] instructions[j])@ == b.instructions[j]@,
        decreases b.instructions.len() - k,
    {
        instructions.push(clone_instruction(&b.instructions[k]));
        k = k + 1;
    }
    let r = BasicBlock { name: b.name.clone(), instructions };
    assert(r@.instructions =~= b@.instructions);
    r
}

/// Eliminates the phis of the block `at` of `f`.
pub fn resolve_block(f: &mut Function, at: usize)
    requires
        at < old(f).blocks.len(),
    ensures
        final(f)@ == resolved_block(old(f)@, at as int),
{
    assert(f@.blocks[at as int] == f.blocks[at as int]@);
    if !block_has_phi(&f.blocks[at]) {
        return ;
    }
    let block = clone_block(&f.blocks[at]);
    let ghost source = block@.instructions;
    let n = block.instructions.len();
    let mut loads: Vec<Instruction> = Vec::new();
    let mut rest: Vec<Instruction> = Vec::new();
    let mut allocas: Vec<Instruction> = Vec::new();
    let mut preds: Vec<String> = Vec::new();
    assert(instruction_views(loads@) =~= seq![]);
    assert(instruction_views(rest@) =~= seq![]);
    assert(instruction_views(allocas@) =~= seq![]);
    assert(views(preds@) =~= unique(seq![]));
    let mut k: usize = 0;
    while k < n
        invariant
            k <= n,
            n == block.instructions.len(),
            source == block@.instructions,
            instruction_views(loads@) == loads_for(source, k as int),
            instruction_views(rest@) == others(source, k as int),
            instruction_views(allocas@) == allocas_for(source, k as int),
            views(preds@) == unique(incoming_blocks(source, k as int)),
        decreases n - k,
    {
        let i = &block.instructions[k];
        assert(source[k as int] == i@);
        if i.opcode == Opcode::Phi {
            let variable = get_phi_variable(i.text.as_str());
            push_instruction(&mut loads, make_load(variable.as_str(), i.ty));
            prepend_instruction(&mut allocas, make_alloca(variable.as_str()));
            let ghost before = incoming_blocks(source, k as int);
            let mut j: usize = 0;
            assert(before + sources_of(i@, 0) =~= before);
            while j < i.incoming.len()
                invariant
                    j <= i.incoming.len(),
                    views(preds@) == unique(before + sources_of(i@, j as int)),
                decreases i.incoming.len() - j,
            {
                assert(i@.incoming[j as int] == i.incoming[j as int]@);
                let ghost sofar = before + sources_of(i@, j as int);
                push_unique(&mut preds, i.incoming[j].block.clone());
                assert(sofar.push(i.incoming[j as int].block@) =~= before + sources_of(
                    i@,
                    j + 1,
                ));
                assert(sofar.push(i.incoming[j as int].block@).drop_last() =~= sofar);
                j = j + 1;
            }
            assert(i@.incoming.len() == i.incoming.len());
        } else {
            push_instruction(&mut rest, clone_instruction(i));
        }
        k = k + 1;
    }
    let ghost loaded_view = loads_for(source, n as int) + others(source, n as int);
    let mut r: usize = 0;
    while r < rest.len()
        invariant
            r <= rest.len(),
            instruction_views(loads@) == loads_for(source, n as int) + instruction_views(
                rest@,
            ).subrange(0, r as int),
        decreases rest.len() - r,
    {
        let ghost sofar = instruction_views(loads@);
        push_instruction(&mut loads, clone_instruction(&rest[r]));
        assert(instruction_views(rest@)[r as int] == rest[r as int]@);
        assert(sofar.push(rest[r as int]@) =~= loads_for(source, n as int) + instruction_views(
            rest@,
        ).subrange(0, r + 1));
        r = r + 1;
    }
    assert(instruction_views(rest@).subrange(0, rest.len() as int) =~= instruction_views(rest@));
    assert(instruction_views(loads@) == loaded_view);
    let ghost start = f@.blocks;
    f.blocks[at].instructions = loads;
    let ghost loaded = start.update(
        at as int,
        BlockView { instructions: loaded_view, ..start[at as int] },
    );
    assert(f@.blocks =~= loaded);
    let mut a: usize = allocas.len();
    let ghost all_allocas = instruction_views(allocas@);
    while a > 0
        invariant
            a <= allocas.len(),
            all_allocas == instruction_views(allocas@),
            f.blocks.len() == old(f).blocks.len(),
            f.blocks.len() > 0,
            loaded.len() == f.blocks.len(),
            f@.name == old(f)@.name,
            f@.params == old(f)@.params,
            f@.blocks == loaded.update(
                0,
                BlockView {
                    instructions: all_allocas.subrange(a as int, allocas.len() as int)
                        + loaded[0].instructions,
                    ..loaded[0]
                },
            ),
        decreases a,
    {
        a = a - 1;
        let ghost before = f@.blocks;
        let ghost exec_before = f.blocks@;
        let ghost entry = f.blocks[0]@.instructions;
        assert(before[0] == f.blocks[0]@);
        prepend_instruction(&mut f.blocks[0].instructions, clone_instruction(&allocas[a]));
        assert(all_allocas[a as int] == allocas[a as int]@);
        assert(f.blocks[0]@.instructions == seq![allocas[a as int]@] + entry);
        assert(f.blocks[0]@.name == before[0].name);
        assert(forall|j: int| 0 < j < f.blocks.len() ==> f.blocks@[j] == exec_before[j]);
        assert(forall|j: int| 0 < j < f.blocks.len() ==> f@.blocks[j] == before[j]);
        assert(entry == all_allocas.subrange(a + 1, allocas.len() as int)
            + loaded[0].instructions);
        assert(f@.blocks[0] == f.blocks[0]@);
        assert(f@.blocks[0].instructions == all_allocas.subrange(a as int, allocas.len() as int)
            + loaded[0].instructions);
        assert(f@.blocks[0].name == loaded[0].name);
        assert(f@.blocks.len() == loaded.len());
        let ghost target = loaded.update(
            0,
            BlockView {
                instructions: all_allocas.subrange(a as int, allocas.len() as int)
                    + loaded[0].instructions,
                ..loaded[0]
            },
        );
        assert forall|j: int| 0 <= j < loaded.len() implies f@.blocks[j] == target[j] by {
            if j > 0 {
                assert(before[j] == loaded[j]);
            }
        }
        assert(seq![allocas[a as int]@] + (all_allocas.subrange(a + 1, allocas.len() as int)
            + loaded[0].instructions) =~= all_allocas.subrange(a as int, allocas.len() as int)
            + loaded[0].instructions);
        assert(f@.blocks =~= loaded.update(
            0,
            BlockView {
                instructions: all_allocas.subrange(a as int, allocas.len() as int)
                    + loaded[0].instructions,
                ..loaded[0]
            },
        ));
    }
    assert(all_allocas.subrange(0, allocas.len() as int) =~= all_allocas);
    let ghost allocated = loaded.update(
        0,
        BlockView { instructions: all_allocas + loaded[0].instructions, ..loaded[0] },
    );
    let ghost base = FunctionView { blocks: allocated, ..old(f)@ };
    assert(f@ == base);
    let mut p: usize = 0;
    while p < preds.len()
        invariant
            p <= preds.len(),
            f@ == with_edges(base, block@, views(preds@), p as int),
        decreases preds.len() - p,
    {
        split_edge(f, &block, preds[p].as_str());
        assert(views(preds@)[p as int] == preds[p as int]@);
        p = p + 1;
    }
    assert(views(preds@).len() == preds.len());
}

/// Eliminates the phis of `f`.
pub fn resolve_function(f: &mut Function)
    ensures
        final(f)@ == resolved_function(old(f)@),
{
    let n = f.blocks.len();
    let mut k: usize = 0;
    while k < n
        invariant
            k <= n,
            n == old(f).blocks.len(),
            n <= f.blocks.len(),
            f@ == resolved_blocks(old(f)@, k as int),
        decreases n - k,
    {
        let ghost before = f.blocks.len();
        resolve_block(f, k);
        proof {
            lemma_resolved_block_grows(resolved_blocks(old(f)@, k as int), k as int);
            assert(f@.blocks.len() == f.blocks.len());
        }
        k = k + 1;
    }
    assert(old(f)@.blocks.len() == n);
}

/// Eliminates the phis of every function of `module`: afterwards no block
/// holds a phi, and a module without a phi is left as it is.
pub fn resolve_phi_to_dsa(module: &mut Module)
    ensures
        final(module)@ == resolved_module(old(module)@),
        module_phi_free(final(module)@),
        module_phi_free(old(module)@) ==> final(module)@ == old(module)@,
        final(module).functions.len() == old(module).functions.len(),
{
    let n = module.functions.len();
    let mut k: usize = 0;
    while k < n
        invariant
            k <= n,
            n == module.functions.len(),
            n == old(module).functions.len(),
            module@.name == old(module)@.name,
            forall|j: int| 0 <= j < k ==> (#[trigger] module.functions[j])@ == resolved_function(
                old(module).functions[j]@,
            ),
            forall|j: int| k <= j < n ==> #[trigger] module.functions[j] == old(module).functions[j],
        decreases n - k,
    {
        resolve_function(&mut module.functions[k]);
        k = k + 1;
    }
    assert(module@.functions =~= resolved_module(old(module)@).functions);
    proof {
        lemma_resolve_idempotent(old(module)@);
        if module_phi_free(old(module)@) {
            assert forall|j: int| 0 <= j < n implies resolved_function(
                #[trigger] old(module)@.functions[j],
            ) == old(module)@.functions[j] by {
                lemma_phi_free_is_fixed(
                    old(module)@.functions[j],
                    old(module)@.functions[j].blocks.len() as int,
                );
            }
            assert(module@.functions =~= old(module)@.functions);
        }
    }
}

/// `position_of` stays between its starting point and the number of blocks.
pub proof fn lemma_position_bounds(blocks: Seq<BlockView>, name: Seq<char>, k: int)
    requires
        0 <= k <= blocks.len(),
    ensures
        k <= position_of(blocks, name, k) <= blocks.len(),
    decreases blocks.len() - k,
{
    if k < blocks.len() && blocks[k].name != name {
        lemma_position_bounds(blocks, name, k + 1);
    }
}

/// Splitting edges only appends blocks.
pub proof fn lemma_with_edges_grows(f: FunctionView, block: BlockView, preds: Seq<Seq<char>>, k: int)
    ensures
        with_edges(f, block, preds, k).blocks.len() >= f.blocks.len(),
    decreases k,
{
    if k > 0 {
        lemma_with_edges_grows(f, block, preds, k - 1);
        let g = with_edges(f, block, preds, k - 1);
        lemma_position_bounds(g.blocks, preds[k - 1], 0);
        assert(with_edge(g, block, preds[k - 1]).blocks.len() == g.blocks.len() + 1);
    }
}

/// Eliminating the phis of a block takes no block away.
pub proof fn lemma_resolved_block_grows(f: FunctionView, at: int)
    requires
        0 <= at < f.blocks.len(),
    ensures
        resolved_block(f, at).blocks.len() >= f.blocks.len(),
{
    let block = f.blocks[at];
    let n = block.instructions.len() as int;
    if has_phi(block) {
        let loaded = f.blocks.update(
            at,
            BlockView {
                instructions: loads_for(block.instructions, n) + others(block.instructions, n),
                ..block
            },
        );
        let allocated = loaded.update(
            0,
            BlockView {
                instructions: allocas_for(block.instructions, n) + loaded[0].instructions,
                ..loaded[0]
            },
        );
        let preds = unique(incoming_blocks(block.instructions, n));
        lemma_with_edges_grows(
            FunctionView { blocks: allocated, ..f },
            block,
            preds,
            preds.len() as int,
        );
    }
}

/// Whether none of `instructions` is a phi.
pub open spec fn phi_free(instructions: Seq<InstructionView>) -> bool {
    forall|i: int| 0 <= i < instructions.len() ==> (#[trigger] instructions[i]).opcode != Opcode::Phi
}

/// Whether no block of `f` holds a phi.
pub open spec fn function_phi_free(f: FunctionView) -> bool {
    forall|j: int| 0 <= j < f.blocks.len() ==> !has_phi(#[trigger] f.blocks[j])
}

/// Whether no block of `m` holds a phi.
pub open spec fn module_phi_free(m: ModuleView) -> bool {
    forall|j: int| 0 <= j < m.functions.len() ==> function_phi_free(#[trigger] m.functions[j])
}

/// Whether `b` ends in a branch with one operand, which is a block: `b`
/// has exactly one successor.
pub open spec fn ends_in_jump(b: BlockView) -> bool {
    &&& b.instructions.len() > 0
    &&& b.instructions.last().opcode == Opcode::Br
    &&& b.instructions.last().operands.len() == 1
    &&& b.instructions.last().operands[0] is Block
}

proof fn lemma_has_phi(b: BlockView)
    ensures
        has_phi(b) == !phi_free(b.instructions),
{
    if !phi_free(b.instructions) {
        let i = choose|i: int|
            0 <= i < b.instructions.len() && (#[trigger] b.instructions[i]).opcode == Opcode::Phi;
        assert(b.instructions[i].opcode == Opcode::Phi);
    }
}

proof fn lemma_loads_phi_free(instructions: Seq<InstructionView>, k: int)
    ensures
        phi_free(loads_for(instructions, k)),
        phi_free(others(instructions, k)),
        phi_free(allocas_for(instructions, k)),
    decreases k,
{
    if k > 0 {
        lemma_loads_phi_free(instructions, k - 1);
    }
}

proof fn lemma_stores_of_phi_free(phi: InstructionView, pred: Seq<char>, j: int)
    ensures
        phi_free(stores_of(phi, pred, j)),
    decreases j,
{
    if j > 0 {
        lemma_stores_of_phi_free(phi, pred, j - 1);
    }
}

proof fn lemma_stores_phi_free(instructions: Seq<InstructionView>, pred: Seq<char>, k: int)
    ensures
        phi_free(stores_for(instructions, pred, k)),
    decreases k,
{
    if k > 0 {
        lemma_stores_phi_free(instructions, pred, k - 1);
        lemma_stores_of_phi_free(
            instructions[k - 1],
            pred,
            instructions[k - 1].incoming.len() as int,
        );
    }
}

/// The last of the instructions that are no phi is the last instruction,
/// where that is no phi.
proof fn lemma_others_last(instructions: Seq<InstructionView>)
    requires
        instructions.len() > 0,
        instructions.last().opcode != Opcode::Phi,
    ensures
        others(instructions, instructions.len() as int).len() > 0,
        others(instructions, instructions.len() as int).last() == instructions.last(),
{
}

proof fn lemma_redirected(b: BlockView, from: Seq<char>, to: Seq<char>)
    ensures
        phi_free(redirected(b, from, to).instructions) == phi_free(b.instructions),
        ends_in_jump(b) ==> ends_in_jump(redirected(b, from, to)),
        redirected(b, from, to).name == b.name,
{
    let r = redirected(b, from, to);
    if ends_in_branch(b) {
        assert forall|i: int| 0 <= i < b.instructions.len() implies (
        #[trigger] r.instructions[i]).opcode == b.instructions[i].opcode by {}
        if phi_free(b.instructions) {
            assert forall|i: int| 0 <= i < r.instructions.len() implies (
            #[trigger] r.instructions[i]).opcode != Opcode::Phi by {
                assert(b.instructions[i].opcode != Opcode::Phi);
            }
        }
        if phi_free(r.instructions) {
            assert forall|i: int| 0 <= i < b.instructions.len() implies (
            #[trigger] b.instructions[i]).opcode != Opcode::Phi by {
                assert(r.instructions[i].opcode != Opcode::Phi);
            }
        }
    }
}

/// What splitting one edge does to the blocks: those that were there keep
/// their phis and their single successor, and the new one has no phi and
/// a single successor.
proof fn lemma_with_edge(f: FunctionView, block: BlockView, pred: Seq<char>)
    ensures
        with_edge(f, block, pred).blocks.len() == f.blocks.len() + 1,
        forall|j: int|
            0 <= j < f.blocks.len() ==> has_phi(#[trigger] with_edge(f, block, pred).blocks[j])
                == has_phi(f.blocks[j]),
        forall|j: int|
            0 <= j < f.blocks.len() && ends_in_jump(f.blocks[j]) ==> ends_in_jump(
                #[trigger] with_edge(f, block, pred).blocks[j],
            ),
        !has_phi(with_edge(f, block, pred).blocks[f.blocks.len() as int]),
        ends_in_jump(with_edge(f, block, pred).blocks[f.blocks.len() as int]),
{
    let h = with_edge(f, block, pred);
    let at = position_of(f.blocks, pred, 0);
    lemma_position_bounds(f.blocks, pred, 0);
    let edge = edge_block(block, pred);
    lemma_stores_phi_free(block.instructions, pred, block.instructions.len() as int);
    lemma_has_phi(edge);
    if at < f.blocks.len() {
        lemma_redirected(f.blocks[at], block.name, edge_name(pred, block.name));
        lemma_has_phi(f.blocks[at]);
        lemma_has_phi(redirected(f.blocks[at], block.name, edge_name(pred, block.name)));
    }
    assert(h.blocks[f.blocks.len() as int] == edge);
    assert forall|j: int| 0 <= j < f.blocks.len() implies has_phi(#[trigger] h.blocks[j])
        == has_phi(f.blocks[j]) by {}
    assert forall|j: int| 0 <= j < f.blocks.len() && ends_in_jump(f.blocks[j]) implies ends_in_jump(
        #[trigger] h.blocks[j],
    ) by {}
}

proof fn lemma_with_edges(f: FunctionView, block: BlockView, preds: Seq<Seq<char>>, k: int)
    requires
        0 <= k <= preds.len(),
    ensures
        with_edges(f, block, preds, k).blocks.len() == f.blocks.len() + k,
        forall|j: int|
            0 <= j < f.blocks.len() ==> has_phi(
                #[trigger] with_edges(f, block, preds, k).blocks[j],
            ) == has_phi(f.blocks[j]),
        forall|j: int|
            0 <= j < f.blocks.len() && ends_in_jump(f.blocks[j]) ==> ends_in_jump(
                #[trigger] with_edges(f, block, preds, k).blocks[j],
            ),
        forall|j: int|
            f.blocks.len() <= j < f.blocks.len() + k ==> !has_phi(
                #[trigger] with_edges(f, block, preds, k).blocks[j],
            ) && ends_in_jump(with_edges(f, block, preds, k).blocks[j]),
    decreases k,
{
    if k > 0 {
        let g = with_edges(f, block, preds, k - 1);
        lemma_with_edges(f, block, preds, k - 1);
        lemma_with_edge(g, block, preds[k - 1]);
        let h = with_edge(g, block, preds[k - 1]);
        assert forall|j: int| 0 <= j < f.blocks.len() implies has_phi(#[trigger] h.blocks[j])
            == has_phi(f.blocks[j]) by {
            assert(has_phi(h.blocks[j]) == has_phi(g.blocks[j]));
        }
        assert forall|j: int| 0 <= j < f.blocks.len() && ends_in_jump(f.blocks[j]) implies ends_in_jump(
            #[trigger] h.blocks[j],
        ) by {
            assert(ends_in_jump(g.blocks[j]));
        }
        assert forall|j: int| f.blocks.len() <= j < f.blocks.len() + k implies !has_phi(
            #[trigger] h.blocks[j],
        ) && ends_in_jump(h.blocks[j]) by {
            if j < f.blocks.len() + k - 1 {
                assert(has_phi(h.blocks[j]) == has_phi(g.blocks[j]));
                assert(ends_in_jump(g.blocks[j]));
            }
        }
    }
}

/// What the elimination of the phis of one block does to the blocks: the
/// block has no phi left, the others keep theirs, every block that had a
/// single successor keeps one, and every new block has no phi and a single
/// successor.
pub proof fn lemma_resolved_block(f: FunctionView, at: int)
    requires
        0 <= at < f.blocks.len(),
    ensures
        resolved_block(f, at).blocks.len() >= f.blocks.len(),
        !has_phi(resolved_block(f, at).blocks[at]),
        forall|j: int|
            0 <= j < f.blocks.len() && j != at ==> has_phi(
                #[trigger] resolved_block(f, at).blocks[j],
            ) == has_phi(f.blocks[j]),
        forall|j: int|
            0 <= j < f.blocks.len() && ends_in_jump(f.blocks[j]) ==> ends_in_jump(
                #[trigger] resolved_block(f, at).blocks[j],
            ),
        forall|j: int|
            f.blocks.len() <= j < resolved_block(f, at).blocks.len() ==> !has_phi(
                #[trigger] resolved_block(f, at).blocks[j],
            ) && ends_in_jump(resolved_block(f, at).blocks[j]),
{
    let block = f.blocks[at];
    let n = block.instructions.len() as int;
    if has_phi(block) {
        let new_block = BlockView {
            instructions: loads_for(block.instructions, n) + others(block.instructions, n),
            ..block
        };
        let loaded = f.blocks.update(at, new_block);
        let new_entry = BlockView {
            instructions: allocas_for(block.instructions, n) + loaded[0].instructions,
            ..loaded[0]
        };
        let allocated = loaded.update(0, new_entry);
        let base = FunctionView { blocks: allocated, ..f };
        let preds = unique(incoming_blocks(block.instructions, n));
        lemma_loads_phi_free(block.instructions, n);
        lemma_has_phi(new_block);
        lemma_has_phi(new_entry);
        lemma_has_phi(loaded[0]);
        assert(!has_phi(new_block));
        assert(has_phi(new_entry) == has_phi(loaded[0])) by {
            let a = allocas_for(block.instructions, n);
            if phi_free(loaded[0].instructions) {
                assert forall|i: int| 0 <= i < new_entry.instructions.len() implies (
                #[trigger] new_entry.instructions[i]).opcode != Opcode::Phi by {
                    if i >= a.len() {
                        assert(new_entry.instructions[i] == loaded[0].instructions[i - a.len()]);
                    } else {
                        assert(new_entry.instructions[i] == a[i]);
                    }
                }
            }
            if phi_free(new_entry.instructions) {
                assert forall|i: int| 0 <= i < loaded[0].instructions.len() implies (
                #[trigger] loaded[0].instructions[i]).opcode != Opcode::Phi by {
                    assert(new_entry.instructions[i + a.len()] == loaded[0].instructions[i]);
                }
            }
        }
        assert(ends_in_jump(block) ==> ends_in_jump(new_block)) by {
            if ends_in_jump(block) {
                lemma_others_last(block.instructions);
                let o = others(block.instructions, n);
                let l = loads_for(block.instructions, n);
                assert(new_block.instructions.last() == o.last());
            }
        }
        assert(ends_in_jump(loaded[0]) ==> ends_in_jump(new_entry)) by {
            if ends_in_jump(loaded[0]) {
                assert(new_entry.instructions.last() == loaded[0].instructions.last());
            }
        }
        lemma_with_edges(base, block, preds, preds.len() as int);
        let h = with_edges(base, block, preds, preds.len() as int);
        assert(h == resolved_block(f, at));
        assert forall|j: int| 0 <= j < f.blocks.len() && j != at implies has_phi(
            #[trigger] h.blocks[j],
        ) == has_phi(f.blocks[j]) by {
            assert(has_phi(h.blocks[j]) == has_phi(base.blocks[j]));
        }
        assert(!has_phi(h.blocks[at])) by {
            assert(has_phi(h.blocks[at]) == has_phi(base.blocks[at]));
        }
        assert forall|j: int| 0 <= j < f.blocks.len() && ends_in_jump(f.blocks[j]) implies ends_in_jump(
            #[trigger] h.blocks[j],
        ) by {
            assert(ends_in_jump(loaded[j]));
            assert(ends_in_jump(base.blocks[j]));
        }
    }
}

/// What the elimination of the phis of the first `k` blocks does.
pub proof fn lemma_resolved_blocks(f: FunctionView, k: int)
    requires
        0 <= k <= f.blocks.len(),
    ensures
        resolved_blocks(f, k).blocks.len() >= f.blocks.len(),
        forall|j: int| 0 <= j < k ==> !has_phi(#[trigger] resolved_blocks(f, k).blocks[j]),
        forall|j: int|
            k <= j < f.blocks.len() ==> has_phi(#[trigger] resolved_blocks(f, k).blocks[j])
                == has_phi(f.blocks[j]),
        forall|j: int|
            f.blocks.len() <= j < resolved_blocks(f, k).blocks.len() ==> !has_phi(
                #[trigger] resolved_blocks(f, k).blocks[j],
            ) && ends_in_jump(resolved_blocks(f, k).blocks[j]),
    decreases k,
{
    if k > 0 {
        let g = resolved_blocks(f, k - 1);
        lemma_resolved_blocks(f, k - 1);
        lemma_resolved_block(g, k - 1);
        let h = resolved_block(g, k - 1);
        assert forall|j: int| 0 <= j < k implies !has_phi(#[trigger] h.blocks[j]) by {
            if j < k - 1 {
                assert(has_phi(h.blocks[j]) == has_phi(g.blocks[j]));
            }
        }
        assert forall|j: int| k <= j < f.blocks.len() implies has_phi(#[trigger] h.blocks[j])
            == has_phi(f.blocks[j]) by {
            assert(has_phi(h.blocks[j]) == has_phi(g.blocks[j]));
        }
        assert forall|j: int| f.blocks.len() <= j < h.blocks.len() implies !has_phi(
            #[trigger] h.blocks[j],
        ) && ends_in_jump(h.blocks[j]) by {
            if j < g.blocks.len() {
                assert(has_phi(h.blocks[j]) == has_phi(g.blocks[j]));
                assert(ends_in_jump(g.blocks[j]));
            }
        }
    }
}

/// After phi elimination no block of a function holds a phi, and every
/// block that was added on an edge has exactly one successor.
pub proof fn lemma_no_phi_remains(f: FunctionView)
    ensures
        function_phi_free(resolved_function(f)),
        resolved_function(f).blocks.len() >= f.blocks.len(),
        forall|j: int|
            f.blocks.len() <= j < resolved_function(f).blocks.len() ==> ends_in_jump(
                #[trigger] resolved_function(f).blocks[j],
            ),
{
    lemma_resolved_blocks(f, f.blocks.len() as int);
}

/// Phi elimination leaves a function without a phi as it is.
pub proof fn lemma_phi_free_is_fixed(f: FunctionView, k: int)
    requires
        function_phi_free(f),
        0 <= k <= f.blocks.len(),
    ensures
        resolved_blocks(f, k) == f,
    decreases k,
{
    if k > 0 {
        lemma_phi_free_is_fixed(f, k - 1);
        assert(!has_phi(f.blocks[k - 1]));
    }
}

/// Phi elimination a second time changes nothing.
pub proof fn lemma_resolve_idempotent(m: ModuleView)
    ensures
        module_phi_free(resolved_module(m)),
        resolved_module(resolved_module(m)) == resolved_module(m),
{
    let once = resolved_module(m);
    assert forall|j: int| 0 <= j < once.functions.len() implies function_phi_free(
        #[trigger] once.functions[j],
    ) by {
        lemma_no_phi_remains(m.functions[j]);
    }
    assert forall|j: int| 0 <= j < once.functions.len() implies resolved_function(
        #[trigger] once.functions[j],
    ) == once.functions[j] by {
        lemma_no_phi_remains(m.functions[j]);
        lemma_phi_free_is_fixed(once.functions[j], once.functions[j].blocks.len() as int);
    }
    assert(resolved_module(once).functions =~= once.functions);
}

} // verus!
