//! Phi elimination without loads.
//!
//! Each phi is taken out of its block, and each incoming pair gets a slot
//! of its own on its edge: an allocation under the name of the phi with a
//! mark behind it, and a store of the incoming value. The block of the phi
//! reads none of the slots; `resolve_phi_to_dsa` is the elimination that
//! loads what the edges store.

use vstd::prelude::*;
use crate::ir::{
    clone_instruction, clone_value, BasicBlock, BlockView, Function, FunctionView, Instruction,
    InstructionView, IrType, Module, ModuleView, Opcode, Operand, OperandView, Value, ValueView,
};
use crate::text::{concat_str, push_unique, str_eq, unique, views};
use crate::utils::resolve_phi_to_dsa::{
    block_has_phi, clone_block, edge_name, find_position, get_phi_variable, has_phi,
    incoming_blocks, instruction_views, jump_to, lemma_position_bounds, make_jump, others,
    phi_variable, position_of, push_instruction, redirect_block, redirected, sources_of,
};

verus! {

/// What stands behind the name of a phi in the name of each of its slots.
pub const MAGIC_STRING_TERMINATOR: &'static str = "WHYISLIFEPAIN";

/// The name of the slots of the register `variable`.
pub open spec fn marked_name(variable: Seq<char>) -> Seq<char> {
    variable + MAGIC_STRING_TERMINATOR@
}

/// A slot of the register `variable`, as an operand.
pub open spec fn marked_slot(variable: Seq<char>) -> ValueView {
    ValueView {
        text: "%"@ + marked_name(variable),
        name: marked_name(variable),
        ty: IrType::Pointer,
    }
}

/// The instruction that allocates a slot of `variable`.
pub open spec fn marked_alloca(variable: Seq<char>) -> InstructionView {
    InstructionView {
        opcode: Opcode::Alloca,
        text: "  %"@ + marked_name(variable) + " = alloca"@,
        ty: IrType::Pointer,
        operands: seq![],
        predicate: None,
        incoming: seq![],
    }
}

/// The instruction that stores `value` to a slot of `variable`.
pub open spec fn marked_store(value: ValueView, variable: Seq<char>) -> InstructionView {
    InstructionView {
        opcode: Opcode::Store,
        text: "  store "@ + value.text + ", %"@ + marked_name(variable),
        ty: IrType::Other,
        operands: seq![OperandView::Value(value), OperandView::Value(marked_slot(variable))],
        predicate: None,
        incoming: seq![],
    }
}

/// An allocation and a store for each of the first `j` incoming pairs of `phi` that come
/// from `pred`.
pub open spec fn stashes_of(phi: InstructionView, pred: Seq<char>, j: int) -> Seq<InstructionView>
    decreases j,
{
    if j <= 0 {
        seq![]
    } else if phi.incoming[j - 1].block == pred {
        stashes_of(phi, pred, j - 1).push(marked_alloca(phi_variable(phi.text))).push(
            marked_store(phi.incoming[j - 1].value, phi_variable(phi.text)),
        )
    } else {
        stashes_of(phi, pred, j - 1)
    }
}

/// The allocations and stores on the edge from `pred` for the phis among
/// the first `k` of `instructions`.
pub open spec fn stashes_for(instructions: Seq<InstructionView>, pred: Seq<char>, k: int) -> Seq<
    InstructionView,
>
    decreases k,
{
    if k <= 0 {
        seq![]
    } else if instructions[k - 1].opcode == Opcode::Phi {
        stashes_for(instructions, pred, k - 1) + stashes_of(
            instructions[k - 1],
            pred,
            instructions[k - 1].incoming.len() as int,
        )
    } else {
        stashes_for(instructions, pred, k - 1)
    }
}

/// The block on the edge from `pred` to `block`: a slot and a store for
/// each incoming pair, and a branch to `block`.
pub open spec fn marked_edge_block(block: BlockView, pred: Seq<char>) -> BlockView {
    BlockView {
        name: edge_name(pred, block.name),
        instructions: stashes_for(
            block.instructions,
            pred,
            block.instructions.len() as int,
        ).push(jump_to(block.name)),
    }
}

/// `f` with the edge from `pred` to `block` split: the edge block is
/// appended, and `pred`, where `f` has it, leads to the edge block wherever
/// it led to `block`.
pub open spec fn with_marked_edge(f: FunctionView, block: BlockView, pred: Seq<char>) -> FunctionView {
    let at = position_of(f.blocks, pred, 0);
    let appended = f.blocks.push(marked_edge_block(block, pred));
    if at < f.blocks.len() {
        FunctionView {
            blocks: appended.update(
                at,
                redirected(f.blocks[at], block.name, edge_name(pred, block.name)),
            ),
            ..f
        }
    } else {
        FunctionView { blocks: appended, ..f }
    }
}

/// `f` with the edges from the first `k` of `preds` to `block` split, in their order.
pub open spec fn with_marked_edges(
    f: FunctionView,
    block: BlockView,
    preds: Seq<Seq<char>>,
    k: int,
) -> FunctionView
    decreases k,
{
    if k <= 0 {
        f
    } else {
        with_marked_edge(with_marked_edges(f, block, preds, k - 1), block, preds[k - 1])
    }
}

/// `f` with the phis of its block `at` taken out, and each edge that a phi names split.
pub open spec fn unphied_block(f: FunctionView, at: int) -> FunctionView {
    let block = f.blocks[at];
    let n = block.instructions.len() as int;
    if !has_phi(block) {
        f
    } else {
        let preds = unique(incoming_blocks(block.instructions, n));
        with_marked_edges(
            FunctionView {
                blocks: f.blocks.update(
                    at,
                    BlockView { instructions: others(block.instructions, n), ..block },
                ),
                ..f
            },
            block,
            preds,
            preds.len() as int,
        )
    }
}

/// `f` with the phis of its first `k` blocks taken out, block by block.
pub open spec fn unphied_blocks(f: FunctionView, k: int) -> FunctionView
    decreases k,
{
    if k <= 0 {
        f
    } else {
        unphied_block(unphied_blocks(f, k - 1), k - 1)
    }
}

/// `m` with the phis of each function taken out.
pub open spec fn unphied_module(m: ModuleView) -> ModuleView {
    ModuleView {
        functions: m.functions.map_values(
            |f: FunctionView| unphied_blocks(f, f.blocks.len() as int),
        ),
        ..m
    }
}


/// Builds a slot of the register `variable`, as an operand.
pub fn make_marked_slot(variable: &str) -> (r: Value)
    ensures
        r@ == marked_slot(variable@),
{
    let name = concat_str(variable, MAGIC_STRING_TERMINATOR);
    Value { text: concat_str("%", name.as_str()), name, ty: IrType::Pointer }
}

/// Builds the instruction that allocates a slot of `variable`.
pub fn make_marked_alloca(variable: &str) -> (r: Instruction)
    ensures
        r@ == marked_alloca(variable@),
{
    let name = concat_str(variable, MAGIC_STRING_TERMINATOR);
    let head = concat_str("  %", name.as_str());
    let r = Instruction {
        opcode: Opcode::Alloca,
        text: concat_str(head.as_str(), " = alloca"),
        ty: IrType::Pointer,
        operands: Vec::new(),
        predicate: None,
        incoming: Vec::new(),
    };
    assert(r@.operands =~= marked_alloca(variable@).operands);
    assert(r@.incoming =~= marked_alloca(variable@).incoming);
    r
}

/// Builds the instruction that stores `value` to a slot of `variable`.
pub fn make_marked_store(value: &Value, variable: &str) -> (r: Instruction)
    ensures
        r@ == marked_store(value@, variable@),
{
    let name = concat_str(variable, MAGIC_STRING_TERMINATOR);
    let head = concat_str("  store ", value.text.as_str());
    let middle = concat_str(head.as_str(), ", %");
    let mut operands: Vec<Operand> = Vec::new();
    operands.push(Operand::Value(clone_value(value)));
    operands.push(Operand::Value(make_marked_slot(variable)));
    let r = Instruction {
        opcode: Opcode::Store,
        text: concat_str(middle.as_str(), name.as_str()),
        ty: IrType::Other,
        operands,
        predicate: None,
        incoming: Vec::new(),
    };
    assert(r@.operands =~= marked_store(value@, variable@).operands);
    assert(r@.incoming =~= marked_store(value@, variable@).incoming);
    r
}

/// Builds the allocations and stores on the edge from `pred` for the phis among `instructions`.
fn edge_stashes(instructions: &Vec<Instruction>, pred: &str) -> (r: Vec<Instruction>)
    ensures
        instruction_views(r@) == stashes_for(
            instruction_views(instructions@),
            pred@,
            instructions.len() as int,
        ),
{
    let ghost all = instruction_views(instructions@);
    let mut r: Vec<Instruction> = Vec::new();
    assert(instruction_views(r@) =~= seq![]);
    let mut k: usize = 0;
    while k < instructions.len()
        invariant
            k <= instructions.len(),
            all == instruction_views(instructions@),
            instruction_views(r@) == stashes_for(all, pred@, k as int),
        decreases instructions.len() - k,
    {
        let phi = &instructions[k];
        assert(all[k as int] == phi@);
        if phi.opcode == Opcode::Phi {
            let variable = get_phi_variable(phi.text.as_str());
            let ghost before = instruction_views(r@);
            let mut j: usize = 0;
            assert(before + stashes_of(phi@, pred@, 0) =~= before);
            while j < phi.incoming.len()
                invariant
                    j <= phi.incoming.len(),
                    variable@ == phi_variable(phi@.text),
                    instruction_views(r@) == before + stashes_of(phi@, pred@, j as int),
                decreases phi.incoming.len() - j,
            {
                assert(phi@.incoming[j as int] == phi.incoming[j as int]@);
                if str_eq(phi.incoming[j].block.as_str(), pred) {
                    let ghost sofar = stashes_of(phi@, pred@, j as int);
                    let alloca = make_marked_alloca(variable.as_str());
                    let store = make_marked_store(&phi.incoming[j].value, variable.as_str());
                    push_instruction(&mut r, alloca);
                    push_instruction(&mut r, store);
                    assert((before + sofar).push(alloca@).push(store@) =~= before + sofar.push(
                        alloca@,
                    ).push(store@));
                }
                j = j + 1;
            }
            assert(phi@.incoming.len() == phi.incoming.len());
        }
        k = k + 1;
    }
    r
}

/// Splits the edge from `pred` to the block that `block` was before its
/// phis were taken out.
fn split_marked_edge(f: &mut Function, block: &BasicBlock, pred: &str)
    ensures
        final(f)@ == with_marked_edge(old(f)@, block@, pred@),
{
    let at = find_position(f, pred);
    let n = f.blocks.len();
    let underscored = concat_str(pred, "_");
    let name = concat_str(underscored.as_str(), block.name.as_str());
    let mut instructions = edge_stashes(&block.instructions, pred);
    push_instruction(&mut instructions, make_jump(block.name.as_str()));
    let edge = BasicBlock { name: name.clone(), instructions };
    assert(edge@ == marked_edge_block(block@, pred@));
    f.blocks.push(edge);
    assert(f@.blocks =~= old(f)@.blocks.push(marked_edge_block(block@, pred@)));
    if at < n {
        let ghost before = f@.blocks;
        assert(before[at as int] == old(f)@.blocks[at as int]);
        redirect_block(&mut f.blocks[at], block.name.as_str(), name.as_str());
        assert(f@.blocks =~= before.update(
            at as int,
            redirected(before[at as int], block@.name, name@),
        ));
    }
}

/// Takes the phis out of the block `at` of `f`, and splits each edge that they name.
pub fn unphi_block(f: &mut Function, at: usize)
    requires
        at < old(f).blocks.len(),
    ensures
        final(f)@ == unphied_block(old(f)@, at as int),
{
    assert(f@.blocks[at as int] == f.blocks[at as int]@);
    if !block_has_phi(&f.blocks[at]) {
        return ;
    }
    let block = clone_block(&f.blocks[at]);
    let ghost source = block@.instructions;
    let n = block.instructions.len();
    let mut rest: Vec<Instruction> = Vec::new();
    let mut preds: Vec<String> = Vec::new();
    assert(instruction_views(rest@) =~= seq![]);
    assert(views(preds@) =~= unique(seq![]));
    let mut k: usize = 0;
    while k < n
        invariant
            k <= n,
            n == block.instructions.len(),
            source == block@.instructions,
            instruction_views(rest@) == others(source, k as int),
            views(preds@) == unique(incoming_blocks(source, k as int)),
        decreases n - k,
    {
        let i = &block.instructions[k];
        assert(source[k as int] == i@);
        if i.opcode == Opcode::Phi {
            let ghost before = incoming_blocks(source, k as int);
            let mut j: usize = 0;
            assert(before + sources_of(i@, 0) =~= before);
            while j < i.incoming.len()
                invariant
                    j <= i.incoming.len(),
                    views(preds@) == unique(before + sources_of(i@, j as int)),
                decreases i.incoming.len() - j,
            {
                assert(i@.incoming[j as int] == i.incoming[j as int]@);
                let ghost sofar = before + sources_of(i@, j as int);
                push_unique(&mut preds, i.incoming[j].block.clone());
                assert(sofar.push(i.incoming[j as int].block@) =~= before + sources_of(
                    i@,
                    j + 1,
                ));
                assert(sofar.push(i.incoming[j as int].block@).drop_last() =~= sofar);
                j = j + 1;
            }
            assert(i@.incoming.len() == i.incoming.len());
        } else {
            push_instruction(&mut rest, clone_instruction(i));
        }
        k = k + 1;
    }
    let ghost start = f@.blocks;
    f.blocks[at].instructions = rest;
    let ghost base = FunctionView {
        blocks: start.update(
            at as int,
            BlockView { instructions: others(source, n as int), ..start[at as int] },
        ),
        ..old(f)@
    };
    assert(f@.blocks =~= base.blocks);
    let mut p: usize = 0;
    while p < preds.len()
        invariant
            p <= preds.len(),
            f@ == with_marked_edges(base, block@, views(preds@), p as int),
        decreases preds.len() - p,
    {
        split_marked_edge(f, &block, preds[p].as_str());
        assert(views(preds@)[p as int] == preds[p as int]@);
        p = p + 1;
    }
    assert(views(preds@).len() == preds.len());
}

/// Splitting edges only appends blocks.
proof fn lemma_marked_edges_grow(f: FunctionView, block: BlockView, preds: Seq<Seq<char>>, k: int)
    ensures
        with_marked_edges(f, block, preds, k).blocks.len() >= f.blocks.len(),
    decreases k,
{
    if k > 0 {
        lemma_marked_edges_grow(f, block, preds, k - 1);
        let g = with_marked_edges(f, block, preds, k - 1);
        lemma_position_bounds(g.blocks, preds[k - 1], 0);
        assert(with_marked_edge(g, block, preds[k - 1]).blocks.len() == g.blocks.len() + 1);
    }
}

/// Taking the phis out of a block takes no block away.
proof fn lemma_unphied_block_grows(f: FunctionView, at: int)
    requires
        0 <= at < f.blocks.len(),
    ensures
        unphied_block(f, at).blocks.len() >= f.blocks.len(),
{
    let block = f.blocks[at];
    let n = block.instructions.len() as int;
    if has_phi(block) {
        let preds = unique(incoming_blocks(block.instructions, n));
        lemma_marked_edges_grow(
            FunctionView {
                blocks: f.blocks.update(
                    at,
                    BlockView { instructions: others(block.instructions, n), ..block },
                ),
                ..f
            },
            block,
            preds,
            preds.len() as int,
        );
    }
}

/// `f` with its phis taken out: those of each block that `f` has.
pub open spec fn unphied_function(f: FunctionView) -> FunctionView {
    unphied_blocks(f, f.blocks.len() as int)
}

/// Takes the phis out of `f`.
pub fn unphi_function(f: &mut Function)
    ensures
        final(f)@ == unphied_function(old(f)@),
{
    let n = f.blocks.len();
    let mut k: usize = 0;
    while k < n
        invariant
            k <= n,
            n == old(f).blocks.len(),
            n <= f.blocks.len(),
            f@ == unphied_blocks(old(f)@, k as int),
        decreases n - k,
    {
        unphi_block(f, k);
        proof {
            lemma_unphied_block_grows(unphied_blocks(old(f)@, k as int), k as int);
            assert(f@.blocks.len() == f.blocks.len());
        }
        k = k + 1;
    }
    assert(old(f)@.blocks.len() == n);
}

/// Takes the phis out of every function of `module`, and puts a block
/// with a slot and a store for each incoming pair on each edge that a phi
/// names.
pub fn resolve_phi(module: &mut Module)
    ensures
        final(module)@ == unphied_module(old(module)@),
{
    let n = module.functions.len();
    let mut k: usize = 0;
    while k < n
        invariant
            k <= n,
            n == module.functions.len(),
            n == old(module).functions.len(),
            module@.name == old(module)@.name,
            forall|j: int| 0 <= j < k ==> (#[trigger] module.functions[j])@ == unphied_function(
                old(module).functions[j]@,
            ),
            forall|j: int| k <= j < n ==> #[trigger] module.functions[j] == old(module).functions[j],
        decreases n - k,
    {
        unphi_function(&mut module.functions[k]);
        k = k + 1;
    }
    assert(module@.functions =~= unphied_module(old(module)@).functions);
}

} // verus!
