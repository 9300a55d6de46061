//! The blocks on the edges.
//!
//! Phi elimination puts a block on each edge that a phi names. Where the
//! names of the function are in order, each such block is there, holds
//! stores and the branch to the block of the phi, and has exactly one
//! predecessor: the block that the edge came from.

use vstd::prelude::*;
use crate::ir::{BlockView, FunctionView, InstructionView, Opcode, OperandView};
use crate::text::{lemma_unique, unique};
use crate::utils::resolve_phi_to_dsa::{
    allocas_for, edge_block, edge_name, ends_in_branch, has_phi, incoming_blocks, jump_to,
    lemma_position_bounds, loads_for, others, position_of, redirected, redirected_instruction,
    redirected_operand, resolved_block, resolved_blocks, resolved_function, sources_of, stores_for,
    stores_of, with_edge, with_edges,
};

verus! {

/// Whether an operand of one of `instructions` is the block called `name`.
pub open spec fn mentioned_in(instructions: Seq<InstructionView>, name: Seq<char>) -> bool {
    exists|q: int, r: int|
        0 <= q < instructions.len() && 0 <= r < instructions[q].operands.len()
            && #[trigger] instructions[q].operands[r] == OperandView::Block(name)
}

/// Whether an operand of an instruction of `b` is the block called `name`.
pub open spec fn mentions(b: BlockView, name: Seq<char>) -> bool {
    mentioned_in(b.instructions, name)
}

/// Whether `b` ends in a branch or a switch that names the block called
/// `name`: `b` is a predecessor of that block.
pub open spec fn leads_to(b: BlockView, name: Seq<char>) -> bool {
    ends_in_branch(b) && exists|r: int|
        0 <= r < b.instructions.last().operands.len() && #[trigger] b.instructions.last().operands[r]
            == OperandView::Block(name)
}

/// The blocks that the phis of block `j` of `f` name.
pub open spec fn phi_sources(f: FunctionView, j: int) -> Seq<Seq<char>> {
    unique(incoming_blocks(f.blocks[j].instructions, f.blocks[j].instructions.len() as int))
}

/// Whether a phi of block `j` of `f` names the block called `p`: phi
/// elimination splits the edge from `p` to block `j`.
pub open spec fn is_edge(f: FunctionView, p: Seq<char>, j: int) -> bool {
    0 <= j < f.blocks.len() && has_phi(f.blocks[j]) && phi_sources(f, j).contains(p)
}

/// The name of the block that phi elimination puts on the edge from `p` to block `j` of `f`.
pub open spec fn name_of_edge(f: FunctionView, p: Seq<char>, j: int) -> Seq<char> {
    edge_name(p, f.blocks[j].name)
}

/// Whether the names of `f` are in order for phi elimination: no two
/// blocks have one name; each block that a phi names is a block of `f`
/// that leads to the block of the phi; the name of a block that goes on
/// an edge is neither the name of a block nor an operand anywhere; and no
/// two edges get blocks of one name.
pub open spec fn names_in_order(f: FunctionView) -> bool {
    &&& forall|i: int, j: int|
        0 <= i < f.blocks.len() && 0 <= j < f.blocks.len() && i != j ==> (
        #[trigger] f.blocks[i]).name != (#[trigger] f.blocks[j]).name
    &&& forall|p: Seq<char>, j: int| #[trigger]
        is_edge(f, p, j) ==> {
            &&& position_of(f.blocks, p, 0) < f.blocks.len()
            &&& leads_to(f.blocks[position_of(f.blocks, p, 0)], f.blocks[j].name)
        }
    &&& forall|p: Seq<char>, j: int, i: int|
        #![trigger is_edge(f, p, j), f.blocks[i]]
        is_edge(f, p, j) && 0 <= i < f.blocks.len() ==> f.blocks[i].name != name_of_edge(f, p, j)
            && !mentions(f.blocks[i], name_of_edge(f, p, j))
    &&& forall|p: Seq<char>, j: int, q: Seq<char>, k: int|
        #![trigger is_edge(f, p, j), is_edge(f, q, k)]
        is_edge(f, p, j) && is_edge(f, q, k) && name_of_edge(f, p, j) == name_of_edge(f, q, k)
            ==> p == q && j == k
}

/// A block that leads to a block mentions it.
pub proof fn lemma_leads_to_mentions(b: BlockView, name: Seq<char>)
    requires
        leads_to(b, name),
    ensures
        mentions(b, name),
{
    let r = choose|r: int|
        0 <= r < b.instructions.last().operands.len() && #[trigger] b.instructions.last().operands[r]
            == OperandView::Block(name);
    assert(b.instructions[b.instructions.len() - 1].operands[r] == OperandView::Block(name));
}

/// Where two lists are joined, a block is mentioned in the whole exactly
/// when it is mentioned in a part.
pub proof fn lemma_mentioned_in_parts(
    a: Seq<InstructionView>,
    b: Seq<InstructionView>,
    name: Seq<char>,
)
    ensures
        mentioned_in(a + b, name) == (mentioned_in(a, name) || mentioned_in(b, name)),
{
    let all = a + b;
    if mentioned_in(a, name) {
        let (q, r) = choose|q: int, r: int|
            0 <= q < a.len() && 0 <= r < a[q].operands.len() && #[trigger] a[q].operands[r]
                == OperandView::Block(name);
        assert(all[q].operands[r] == OperandView::Block(name));
    }
    if mentioned_in(b, name) {
        let (q, r) = choose|q: int, r: int|
            0 <= q < b.len() && 0 <= r < b[q].operands.len() && #[trigger] b[q].operands[r]
                == OperandView::Block(name);
        assert(all[a.len() + q].operands[r] == OperandView::Block(name));
    }
    if mentioned_in(all, name) {
        let (q, r) = choose|q: int, r: int|
            0 <= q < all.len() && 0 <= r < all[q].operands.len() && #[trigger] all[q].operands[r]
                == OperandView::Block(name);
        if q < a.len() {
            assert(a[q].operands[r] == OperandView::Block(name));
        } else {
            assert(b[q - a.len()].operands[r] == OperandView::Block(name));
        }
    }
}

/// The loads and the allocations of slots mention no block, and the
/// instructions that are kept mention no block that was not mentioned.
pub proof fn lemma_replacements_mention_nothing(
    instructions: Seq<InstructionView>,
    k: int,
    name: Seq<char>,
)
    requires
        0 <= k <= instructions.len(),
    ensures
        !mentioned_in(loads_for(instructions, k), name),
        !mentioned_in(allocas_for(instructions, k), name),
        mentioned_in(others(instructions, k), name) ==> mentioned_in(instructions, name),
    decreases k,
{
    if k > 0 {
        lemma_replacements_mention_nothing(instructions, k - 1, name);
        let i = instructions[k - 1];
        if i.opcode == Opcode::Phi {
            let loads = loads_for(instructions, k);
            if mentioned_in(loads, name) {
                let (q, r) = choose|q: int, r: int|
                    0 <= q < loads.len() && 0 <= r < loads[q].operands.len()
                        && #[trigger] loads[q].operands[r] == OperandView::Block(name);
                if q < loads.len() - 1 {
                    assert(loads_for(instructions, k - 1)[q].operands[r] == OperandView::Block(
                        name,
                    ));
                }
            }
            let allocas = allocas_for(instructions, k);
            if mentioned_in(allocas, name) {
                let (q, r) = choose|q: int, r: int|
                    0 <= q < allocas.len() && 0 <= r < allocas[q].operands.len()
                        && #[trigger] allocas[q].operands[r] == OperandView::Block(name);
                if q > 0 {
                    assert(allocas_for(instructions, k - 1)[q - 1].operands[r]
                        == OperandView::Block(name));
                }
            }
        } else {
            let kept = others(instructions, k);
            if mentioned_in(kept, name) {
                let (q, r) = choose|q: int, r: int|
                    0 <= q < kept.len() && 0 <= r < kept[q].operands.len()
                        && #[trigger] kept[q].operands[r] == OperandView::Block(name);
                if q < kept.len() - 1 {
                    assert(others(instructions, k - 1)[q].operands[r] == OperandView::Block(name));
                } else {
                    assert(instructions[k - 1].operands[r] == OperandView::Block(name));
                }
            }
        }
    } else {
        assert(!mentioned_in(loads_for(instructions, k), name));
        assert(!mentioned_in(allocas_for(instructions, k), name));
        assert(!mentioned_in(others(instructions, k), name));
    }
}

/// The stores on an edge mention no block.
pub proof fn lemma_stores_mention_nothing(
    instructions: Seq<InstructionView>,
    pred: Seq<char>,
    k: int,
    name: Seq<char>,
)
    ensures
        !mentioned_in(stores_for(instructions, pred, k), name),
    decreases k,
{
    if k > 0 {
        lemma_stores_mention_nothing(instructions, pred, k - 1, name);
        if instructions[k - 1].opcode == Opcode::Phi {
            lemma_stores_of_mention_nothing(
                instructions[k - 1],
                pred,
                instructions[k - 1].incoming.len() as int,
                name,
            );
            lemma_mentioned_in_parts(
                stores_for(instructions, pred, k - 1),
                stores_of(instructions[k - 1], pred, instructions[k - 1].incoming.len() as int),
                name,
            );
        }
    } else {
        assert(!mentioned_in(stores_for(instructions, pred, k), name));
    }
}

proof fn lemma_stores_of_mention_nothing(
    phi: InstructionView,
    pred: Seq<char>,
    j: int,
    name: Seq<char>,
)
    ensures
        !mentioned_in(stores_of(phi, pred, j), name),
    decreases j,
{
    if j > 0 {
        lemma_stores_of_mention_nothing(phi, pred, j - 1, name);
        let stores = stores_of(phi, pred, j);
        if mentioned_in(stores, name) {
            let (q, r) = choose|q: int, r: int|
                0 <= q < stores.len() && 0 <= r < stores[q].operands.len()
                    && #[trigger] stores[q].operands[r] == OperandView::Block(name);
            if q < stores_of(phi, pred, j - 1).len() {
                assert(stores_of(phi, pred, j - 1)[q].operands[r] == OperandView::Block(name));
            }
        }
    } else {
        assert(!mentioned_in(stores_of(phi, pred, j), name));
    }
}

/// An edge block mentions the block that it leads to, and no other.
pub proof fn lemma_edge_block_mentions(block: BlockView, pred: Seq<char>, name: Seq<char>)
    ensures
        mentions(edge_block(block, pred), name) == (name == block.name),
        leads_to(edge_block(block, pred), block.name),
{
    let e = edge_block(block, pred);
    let stores = stores_for(block.instructions, pred, block.instructions.len() as int);
    lemma_stores_mention_nothing(block.instructions, pred, block.instructions.len() as int, name);
    assert(e.instructions =~= stores + seq![jump_to(block.name)]);
    lemma_mentioned_in_parts(stores, seq![jump_to(block.name)], name);
    let last = seq![jump_to(block.name)];
    if name == block.name {
        assert(last[0].operands[0] == OperandView::Block(name));
    }
    if mentioned_in(last, name) {
        let (q, r) = choose|q: int, r: int|
            0 <= q < last.len() && 0 <= r < last[q].operands.len() && #[trigger] last[q].operands[r]
                == OperandView::Block(name);
    }
    assert(e.instructions.last() == jump_to(block.name));
    assert(e.instructions.last().operands[0] == OperandView::Block(block.name));
}

/// What redirecting a block from `from` to `to` does to what it mentions
/// and leads to: any other block is mentioned and led to as before; `to`
/// is led to where `from` was.
pub proof fn lemma_redirected_mentions(b: BlockView, from: Seq<char>, to: Seq<char>, name: Seq<char>)
    ensures
        name != from && name != to ==> mentions(redirected(b, from, to), name) == mentions(
            b,
            name,
        ),
        name != from && name != to ==> leads_to(redirected(b, from, to), name) == leads_to(
            b,
            name,
        ),
        leads_to(b, from) ==> leads_to(redirected(b, from, to), to),
        mentions(redirected(b, from, to), to) ==> mentions(b, to) || leads_to(b, from),
{
    let r = redirected(b, from, to);
    if ends_in_branch(b) {
        let n = b.instructions.len() as int;
        let old_last = b.instructions.last();
        let new_last = redirected_instruction(old_last, from, to);
        assert(r.instructions.last() == new_last);
        assert forall|q: int| 0 <= q < old_last.operands.len() implies new_last.operands[q]
            == redirected_operand(#[trigger] old_last.operands[q], from, to) by {}
        if name != from && name != to {
            if mentions(b, name) {
                let (q, p) = choose|q: int, p: int|
                    0 <= q < n && 0 <= p < b.instructions[q].operands.len()
                        && #[trigger] b.instructions[q].operands[p] == OperandView::Block(name);
                if q == n - 1 {
                    assert(old_last.operands[p] == OperandView::Block(name));
                    assert(r.instructions[q].operands[p] == OperandView::Block(name));
                } else {
                    assert(r.instructions[q].operands[p] == OperandView::Block(name));
                }
            }
            if mentions(r, name) {
                let (q, p) = choose|q: int, p: int|
                    0 <= q < n && 0 <= p < r.instructions[q].operands.len()
                        && #[trigger] r.instructions[q].operands[p] == OperandView::Block(name);
                if q == n - 1 {
                    assert(old_last.operands[p] == OperandView::Block(name));
                    assert(b.instructions[q].operands[p] == OperandView::Block(name));
                } else {
                    assert(b.instructions[q].operands[p] == OperandView::Block(name));
                }
            }
            if leads_to(b, name) {
                let p = choose|p: int|
                    0 <= p < old_last.operands.len() && #[trigger] old_last.operands[p]
                        == OperandView::Block(name);
                assert(new_last.operands[p] == OperandView::Block(name));
            }
            if leads_to(r, name) {
                let p = choose|p: int|
                    0 <= p < new_last.operands.len() && #[trigger] new_last.operands[p]
                        == OperandView::Block(name);
                assert(old_last.operands[p] == OperandView::Block(name));
            }
        }
        if leads_to(b, from) {
            let p = choose|p: int|
                0 <= p < old_last.operands.len() && #[trigger] old_last.operands[p]
                    == OperandView::Block(from);
            assert(new_last.operands[p] == OperandView::Block(to));
        }
        if mentions(r, to) {
            let (q, p) = choose|q: int, p: int|
                0 <= q < n && 0 <= p < r.instructions[q].operands.len()
                    && #[trigger] r.instructions[q].operands[p] == OperandView::Block(to);
            if q == n - 1 {
                if old_last.operands[p] == OperandView::Block(from) {
                    assert(leads_to(b, from));
                } else {
                    assert(b.instructions[q].operands[p] == OperandView::Block(to));
                }
            } else {
                assert(b.instructions[q].operands[p] == OperandView::Block(to));
            }
        }
    }
}

/// Where `f` has the block called `p`.
pub open spec fn home(f: FunctionView, p: Seq<char>) -> int {
    position_of(f.blocks, p, 0)
}

/// Whether the edge from `p` to block `j` is split once the blocks before
/// `k` are done and the first `q` edges into block `k` are split.
pub open spec fn is_split(f: FunctionView, k: int, q: int, p: Seq<char>, j: int) -> bool {
    is_edge(f, p, j) && (j < k || (j == k && exists|r: int|
        0 <= r < q && r < phi_sources(f, k).len() && #[trigger] phi_sources(f, k)[r] == p))
}

/// Whether, in `g`, the block on the edge from `p` to block `j` has the
/// block called `p` for a predecessor, and no other block mentions it.
pub open spec fn is_settled(f: FunctionView, g: FunctionView, p: Seq<char>, j: int) -> bool {
    &&& leads_to(g.blocks[home(f, p)], name_of_edge(f, p, j))
    &&& forall|i: int|
        0 <= i < g.blocks.len() && mentions(#[trigger] g.blocks[i], name_of_edge(f, p, j)) ==> i
            == home(f, p)
}

/// Whether, in `g`, the edge from `p` to block `j` is as it was: the
/// block called `p` leads to block `j`, and the name of the edge block is
/// neither a name nor an operand.
pub open spec fn is_pending(f: FunctionView, g: FunctionView, p: Seq<char>, j: int) -> bool {
    &&& leads_to(g.blocks[home(f, p)], f.blocks[j].name)
    &&& forall|i: int|
        0 <= i < g.blocks.len() ==> !mentions(#[trigger] g.blocks[i], name_of_edge(f, p, j))
            && g.blocks[i].name != name_of_edge(f, p, j)
}

/// Whether block `e` of `g` is the block on an edge that is split.
pub open spec fn is_edge_block(f: FunctionView, g: FunctionView, k: int, q: int, e: int) -> bool {
    exists|p: Seq<char>, j: int| #[trigger]
        is_split(f, k, q, p, j) && g.blocks[e].name == name_of_edge(f, p, j)
}

/// What holds of `g`, which phi elimination made of `f`, once the blocks
/// before `k` are done and the first `q` edges into block `k` are split.
pub open spec fn in_progress(f: FunctionView, g: FunctionView, k: int, q: int) -> bool {
    &&& g.blocks.len() >= f.blocks.len()
    &&& forall|i: int| 0 <= i < f.blocks.len() ==> (#[trigger] g.blocks[i]).name == f.blocks[i].name
    &&& forall|e: int|
        f.blocks.len() <= e < g.blocks.len() ==> #[trigger] is_edge_block(f, g, k, q, e)
    &&& forall|p: Seq<char>, j: int| #[trigger] is_split(f, k, q, p, j) ==> is_settled(f, g, p, j)
    &&& forall|p: Seq<char>, j: int|
        #![trigger is_split(f, k, q, p, j)]
        is_edge(f, p, j) && !is_split(f, k, q, p, j) ==> is_pending(f, g, p, j)
}

/// Whether the blocks of `g` from `from` on hold the phis that they hold in `f`.
pub open spec fn phis_kept(f: FunctionView, g: FunctionView, from: int) -> bool {
    forall|j: int|
        from <= j < f.blocks.len() && j < g.blocks.len() ==> has_phi(#[trigger] g.blocks[j])
            == has_phi(f.blocks[j]) && incoming_blocks(
            g.blocks[j].instructions,
            g.blocks[j].instructions.len() as int,
        ) == incoming_blocks(f.blocks[j].instructions, f.blocks[j].instructions.len() as int)
}

/// A block that has the name that it has in `f` is found in `g` where it is in `f`.
proof fn lemma_home_is_kept(f: FunctionView, g: FunctionView, p: Seq<char>, k: int)
    requires
        g.blocks.len() >= f.blocks.len(),
        forall|i: int| 0 <= i < f.blocks.len() ==> (#[trigger] g.blocks[i]).name == f.blocks[i].name,
        0 <= k <= f.blocks.len(),
        position_of(f.blocks, p, k) < f.blocks.len(),
    ensures
        position_of(g.blocks, p, k) == position_of(f.blocks, p, k),
    decreases f.blocks.len() - k,
{
    if k < f.blocks.len() {
        assert(g.blocks[k].name == f.blocks[k].name);
        if f.blocks[k].name != p {
            lemma_home_is_kept(f, g, p, k + 1);
        }
    }
}

/// What is found by name has that name.
proof fn lemma_position_has_name(blocks: Seq<BlockView>, p: Seq<char>, k: int)
    requires
        0 <= k,
        position_of(blocks, p, k) < blocks.len(),
    ensures
        blocks[position_of(blocks, p, k)].name == p,
        k <= position_of(blocks, p, k),
    decreases blocks.len() - k,
{
    if k < blocks.len() && blocks[k].name != p {
        lemma_position_has_name(blocks, p, k + 1);
    }
}

/// Which instructions are phis, and what they name, decides the blocks that the phis name.
proof fn lemma_incoming_blocks_depend_on_phis(
    a: Seq<InstructionView>,
    b: Seq<InstructionView>,
    k: int,
)
    requires
        0 <= k <= a.len(),
        a.len() == b.len(),
        forall|i: int|
            0 <= i < a.len() ==> (#[trigger] a[i]).opcode == b[i].opcode && a[i].incoming
                == b[i].incoming,
    ensures
        incoming_blocks(a, k) == incoming_blocks(b, k),
    decreases k,
{
    if k > 0 {
        lemma_incoming_blocks_depend_on_phis(a, b, k - 1);
        assert(a[k - 1].opcode == b[k - 1].opcode && a[k - 1].incoming == b[k - 1].incoming);
        if a[k - 1].opcode == Opcode::Phi {
            lemma_sources_of_depend_on_incoming(a[k - 1], b[k - 1], a[k - 1].incoming.len() as int);
        }
    }
}

proof fn lemma_sources_of_depend_on_incoming(a: InstructionView, b: InstructionView, j: int)
    requires
        a.incoming == b.incoming,
    ensures
        sources_of(a, j)
            == sources_of(b, j),
    decreases j,
{
    if j > 0 {
        lemma_sources_of_depend_on_incoming(a, b, j - 1);
    }
}

/// Redirecting a block leaves its phis as they are.
proof fn lemma_redirected_keeps_phis(b: BlockView, from: Seq<char>, to: Seq<char>)
    ensures
        has_phi(redirected(b, from, to)) == has_phi(b),
        incoming_blocks(
            redirected(b, from, to).instructions,
            redirected(b, from, to).instructions.len() as int,
        ) == incoming_blocks(b.instructions, b.instructions.len() as int),
        redirected(b, from, to).name == b.name,
{
    let r = redirected(b, from, to);
    assert(r.instructions.len() == b.instructions.len());
    assert forall|i: int| 0 <= i < r.instructions.len() implies (
    #[trigger] r.instructions[i]).opcode == b.instructions[i].opcode && r.instructions[i].incoming
        == b.instructions[i].incoming by {}
    lemma_incoming_blocks_depend_on_phis(
        r.instructions,
        b.instructions,
        b.instructions.len() as int,
    );
    if has_phi(b) {
        let i = choose|i: int|
            0 <= i < b.instructions.len() && i < b.instructions.len() && (
            #[trigger] b.instructions[i]).opcode == Opcode::Phi;
        assert(r.instructions[i].opcode == Opcode::Phi);
    }
    if has_phi(r) {
        let i = choose|i: int|
            0 <= i < r.instructions.len() && i < r.instructions.len() && (
            #[trigger] r.instructions[i]).opcode == Opcode::Phi;
        assert(b.instructions[i].opcode == Opcode::Phi);
    }
}

/// Splitting the next edge into block `k` keeps the progress in order.
proof fn lemma_split_one(f: FunctionView, g: FunctionView, block: BlockView, k: int, q: int)
    requires
        names_in_order(f),
        in_progress(f, g, k, q),
        0 <= k < f.blocks.len(),
        has_phi(f.blocks[k]),
        0 <= q < phi_sources(f, k).len(),
        block.name == f.blocks[k].name,
    ensures
        in_progress(f, with_edge(g, block, phi_sources(f, k)[q]), k, q + 1),
        phis_kept(f, g, k + 1) ==> phis_kept(f, with_edge(g, block, phi_sources(f, k)[q]), k + 1),
{
    let sources = phi_sources(f, k);
    let p = sources[q];
    let edge = name_of_edge(f, p, k);
    let after = with_edge(g, block, p);
    lemma_unique(incoming_blocks(f.blocks[k].instructions, f.blocks[k].instructions.len() as int));
    assert(sources.contains(p));
    assert(is_edge(f, p, k));
    assert(!is_split(f, k, q, p, k)) by {
        if is_split(f, k, q, p, k) {
            let r = choose|r: int| 0 <= r < q && r < sources.len() && #[trigger] sources[r] == p;
            assert(sources[r] == sources[q]);
        }
    }
    assert(is_split(f, k, q + 1, p, k)) by {
        assert(sources[q] == p);
    }
    assert(is_pending(f, g, p, k));
    let h = home(f, p);
    lemma_position_bounds(f.blocks, p, 0);
    lemma_home_is_kept(f, g, p, 0);
    lemma_position_has_name(f.blocks, p, 0);
    assert(position_of(g.blocks, p, 0) == h);
    let new_block = edge_block(block, p);
    let turned = redirected(g.blocks[h], block.name, edge);
    assert(after.blocks == g.blocks.push(new_block).update(h, turned));
    lemma_redirected_keeps_phis(g.blocks[h], block.name, edge);
    assert forall|i: int| 0 <= i < f.blocks.len() implies (#[trigger] after.blocks[i]).name
        == f.blocks[i].name by {
        assert(g.blocks[i].name == f.blocks[i].name);
    }
    assert forall|e: int| f.blocks.len() <= e < after.blocks.len() implies #[trigger] is_edge_block(
        f,
        after,
        k,
        q + 1,
        e,
    ) by {
        if e < g.blocks.len() {
            assert(is_edge_block(f, g, k, q, e));
            let (pa, ja) = choose|pa: Seq<char>, ja: int| #[trigger]
                is_split(f, k, q, pa, ja) && g.blocks[e].name == name_of_edge(f, pa, ja);
            assert(is_split(f, k, q + 1, pa, ja)) by {
                if ja == k {
                    let r = choose|r: int|
                        0 <= r < q && r < sources.len() && #[trigger] sources[r] == pa;
                    assert(sources[r] == pa);
                }
            }
            assert(after.blocks[e] == g.blocks[e]);
        } else {
            assert(after.blocks[e] == new_block);
        }
    }
    assert forall|pa: Seq<char>, ja: int| #[trigger] is_split(f, k, q + 1, pa, ja) implies is_settled(
        f,
        after,
        pa,
        ja,
    ) by {
        let ea = name_of_edge(f, pa, ja);
        lemma_redirected_mentions(g.blocks[h], block.name, edge, ea);
        lemma_edge_block_mentions(block, p, ea);
        assert(f.blocks[k].name != ea && !mentions(f.blocks[k], ea));
        if is_split(f, k, q, pa, ja) {
            assert(is_settled(f, g, pa, ja));
            assert(ea != edge) by {
                if ea == edge {
                    assert(is_edge(f, pa, ja) && is_edge(f, p, k));
                }
            }
            let ha = home(f, pa);
            lemma_position_bounds(f.blocks, pa, 0);
            assert(leads_to(after.blocks[ha], ea)) by {
                if ha != h {
                    assert(after.blocks[ha] == g.blocks[ha]);
                }
            }
            assert forall|i: int|
                0 <= i < after.blocks.len() && mentions(#[trigger] after.blocks[i], ea) implies i
                == ha by {
                if i == g.blocks.len() {
                    assert(after.blocks[i] == new_block);
                } else if i == h {
                    assert(mentions(g.blocks[i], ea));
                } else {
                    assert(after.blocks[i] == g.blocks[i]);
                }
            }
        } else {
            assert(ja == k);
            let r = choose|r: int|
                0 <= r < q + 1 && r < sources.len() && #[trigger] sources[r] == pa;
            assert(r == q) by {
                if r < q {
                    assert(is_split(f, k, q, pa, ja));
                }
            }
            assert(pa == p);
            assert(after.blocks[h] == turned);
            assert forall|i: int|
                0 <= i < after.blocks.len() && mentions(#[trigger] after.blocks[i], edge) implies i
                == h by {
                if i == g.blocks.len() {
                    assert(after.blocks[i] == new_block);
                } else if i != h {
                    assert(after.blocks[i] == g.blocks[i]);
                    assert(!mentions(g.blocks[i], edge));
                }
            }
        }
    }
    assert forall|pb: Seq<char>, jb: int|
        #![trigger is_split(f, k, q + 1, pb, jb)]
        is_edge(f, pb, jb) && !is_split(f, k, q + 1, pb, jb) implies is_pending(
        f,
        after,
        pb,
        jb,
    ) by {
        let eb = name_of_edge(f, pb, jb);
        assert(!is_split(f, k, q, pb, jb)) by {
            if is_split(f, k, q, pb, jb) {
                if jb == k {
                    let r = choose|r: int|
                        0 <= r < q && r < sources.len() && #[trigger] sources[r] == pb;
                    assert(sources[r] == pb);
                }
            }
        }
        assert(is_pending(f, g, pb, jb));
        assert(eb != edge) by {
            if eb == edge {
                assert(is_edge(f, pb, jb) && is_edge(f, p, k));
            }
        }
        let hb = home(f, pb);
        lemma_position_bounds(f.blocks, pb, 0);
        lemma_position_has_name(f.blocks, pb, 0);
        let target = f.blocks[jb].name;
        lemma_redirected_mentions(g.blocks[h], block.name, edge, target);
        lemma_redirected_mentions(g.blocks[h], block.name, edge, eb);
        lemma_edge_block_mentions(block, p, eb);
        assert(f.blocks[k].name != eb && !mentions(f.blocks[k], eb));
        assert(f.blocks[jb].name != edge && !mentions(f.blocks[jb], edge));
        assert(leads_to(after.blocks[hb], target)) by {
            if hb != h {
                assert(after.blocks[hb] == g.blocks[hb]);
            } else {
                assert(pb == p);
                assert(jb != k);
                assert(f.blocks[jb].name != f.blocks[k].name);
            }
        }
        assert forall|i: int| 0 <= i < after.blocks.len() implies !mentions(
            #[trigger] after.blocks[i],
            eb,
        ) && after.blocks[i].name != eb by {
            if i == g.blocks.len() {
                assert(after.blocks[i] == new_block);
            } else if i == h {
                assert(!mentions(g.blocks[i], eb));
                assert(g.blocks[i].name != eb);
            } else {
                assert(after.blocks[i] == g.blocks[i]);
            }
        }
    }
    if phis_kept(f, g, k + 1) {
        assert forall|j: int|
            k + 1 <= j < f.blocks.len() && j < after.blocks.len() implies has_phi(
            #[trigger] after.blocks[j],
        ) == has_phi(f.blocks[j]) && incoming_blocks(
            after.blocks[j].instructions,
            after.blocks[j].instructions.len() as int,
        ) == incoming_blocks(f.blocks[j].instructions, f.blocks[j].instructions.len() as int) by {
            assert(has_phi(g.blocks[j]) == has_phi(f.blocks[j]));
            if j != h {
                assert(after.blocks[j] == g.blocks[j]);
            }
        }
    }
}

/// Splitting the first `q` edges into block `k` keeps the progress in order.
proof fn lemma_split_all(f: FunctionView, g: FunctionView, block: BlockView, k: int, q: int)
    requires
        names_in_order(f),
        in_progress(f, g, k, 0),
        0 <= k < f.blocks.len(),
        has_phi(f.blocks[k]),
        0 <= q <= phi_sources(f, k).len(),
        block.name == f.blocks[k].name,
    ensures
        in_progress(f, with_edges(g, block, phi_sources(f, k), q), k, q),
        phis_kept(f, g, k + 1) ==> phis_kept(
            f,
            with_edges(g, block, phi_sources(f, k), q),
            k + 1,
        ),
    decreases q,
{
    if q > 0 {
        lemma_split_all(f, g, block, k, q - 1);
        lemma_split_one(f, with_edges(g, block, phi_sources(f, k), q - 1), block, k, q - 1);
    }
}

/// Where a list that ends in no phi has its phis replaced, its last
/// instruction stays the last.
proof fn lemma_last_is_kept(
    front: Seq<InstructionView>,
    instructions: Seq<InstructionView>,
)
    requires
        instructions.len() > 0,
        instructions.last().opcode != Opcode::Phi,
    ensures
        (front + others(instructions, instructions.len() as int)).len() > 0,
        (front + others(instructions, instructions.len() as int)).last() == instructions.last(),
{
    let kept = others(instructions, instructions.len() as int);
    assert(kept.len() > 0 && kept.last() == instructions.last());
    assert((front + kept).last() == kept.last());
}

/// The block that takes the place of a block with phis mentions no block
/// that the block did not mention, and leads where the block led.
proof fn lemma_loaded_block(b: BlockView, front: Seq<InstructionView>, name: Seq<char>)
    requires
        !mentioned_in(front, name),
    ensures
        mentioned_in(
            front + loads_for(b.instructions, b.instructions.len() as int) + others(
                b.instructions,
                b.instructions.len() as int,
            ),
            name,
        ) ==> mentions(b, name),
        leads_to(b, name) ==> leads_to(
            BlockView {
                instructions: front + loads_for(b.instructions, b.instructions.len() as int)
                    + others(b.instructions, b.instructions.len() as int),
                ..b
            },
            name,
        ),
{
    let n = b.instructions.len() as int;
    let loads = loads_for(b.instructions, n);
    let kept = others(b.instructions, n);
    lemma_replacements_mention_nothing(b.instructions, n, name);
    lemma_mentioned_in_parts(front, loads, name);
    lemma_mentioned_in_parts(front + loads, kept, name);
    if leads_to(b, name) {
        lemma_last_is_kept(front + loads, b.instructions);
    }
}

/// Putting instructions that mention no block in front of a block changes
/// neither what it mentions nor where it leads.
proof fn lemma_fronted_block(b: BlockView, front: Seq<InstructionView>, name: Seq<char>)
    requires
        !mentioned_in(front, name),
    ensures
        mentioned_in(front + b.instructions, name) == mentions(b, name),
        leads_to(b, name) ==> leads_to(
            BlockView { instructions: front + b.instructions, ..b },
            name,
        ),
{
    lemma_mentioned_in_parts(front, b.instructions, name);
    if leads_to(b, name) {
        assert((front + b.instructions).last() == b.instructions.last());
    }
}

/// The function in which block `k` has loads for its phis, and the entry
/// block the allocations of their slots.
pub open spec fn with_slots(g: FunctionView, k: int) -> FunctionView {
    let block = g.blocks[k];
    let n = block.instructions.len() as int;
    let loaded = g.blocks.update(
        k,
        BlockView {
            instructions: loads_for(block.instructions, n) + others(block.instructions, n),
            ..block
        },
    );
    FunctionView {
        blocks: loaded.update(
            0,
            BlockView {
                instructions: allocas_for(block.instructions, n) + loaded[0].instructions,
                ..loaded[0]
            },
        ),
        ..g
    }
}

/// Each block of the function with slots has the name that it had,
/// mentions no block that it did not mention, and leads where it led.
proof fn lemma_with_slots(g: FunctionView, k: int, i: int, name: Seq<char>)
    requires
        0 <= k < g.blocks.len(),
        0 <= i < g.blocks.len(),
    ensures
        with_slots(g, k).blocks.len() == g.blocks.len(),
        with_slots(g, k).blocks[i].name == g.blocks[i].name,
        mentions(with_slots(g, k).blocks[i], name) ==> mentions(g.blocks[i], name),
        leads_to(g.blocks[i], name) ==> leads_to(with_slots(g, k).blocks[i], name),
        i != k && i != 0 ==> with_slots(g, k).blocks[i] == g.blocks[i],
{
    let block = g.blocks[k];
    let n = block.instructions.len() as int;
    let none = Seq::<InstructionView>::empty();
    let allocas = allocas_for(block.instructions, n);
    lemma_replacements_mention_nothing(block.instructions, n, name);
    assert(!mentioned_in(none, name));
    let new_block = BlockView {
        instructions: loads_for(block.instructions, n) + others(block.instructions, n),
        ..block
    };
    let loaded = g.blocks.update(k, new_block);
    assert(none + loads_for(block.instructions, n) =~= loads_for(block.instructions, n));
    lemma_loaded_block(block, none, name);
    lemma_fronted_block(loaded[0], allocas, name);
    let result = with_slots(g, k).blocks[i];
    if i == 0 {
        assert(result.instructions == allocas + loaded[0].instructions);
        if k == 0 {
            assert(loaded[0] == new_block);
        } else {
            assert(loaded[0] == g.blocks[0]);
        }
    } else if i == k {
        assert(result == new_block);
    }
}

/// Giving block `k` its slots keeps the progress in order.
proof fn lemma_slots_keep_progress(f: FunctionView, g: FunctionView, k: int)
    requires
        names_in_order(f),
        in_progress(f, g, k, 0),
        0 <= k < f.blocks.len(),
    ensures
        in_progress(f, with_slots(g, k), k, 0),
        phis_kept(f, g, k + 1) ==> phis_kept(f, with_slots(g, k), k + 1),
{
    let base = with_slots(g, k);
    assert forall|i: int| 0 <= i < base.blocks.len() implies base.blocks[i].name
        == g.blocks[i].name by {
        lemma_with_slots(g, k, i, Seq::<char>::empty());
    }
    assert(base.blocks.len() == g.blocks.len()) by {
        lemma_with_slots(g, k, 0, Seq::<char>::empty());
    }
    assert forall|e: int| f.blocks.len() <= e < base.blocks.len() implies #[trigger] is_edge_block(
        f,
        base,
        k,
        0,
        e,
    ) by {
        assert(is_edge_block(f, g, k, 0, e));
        let (pa, ja) = choose|pa: Seq<char>, ja: int| #[trigger]
            is_split(f, k, 0, pa, ja) && g.blocks[e].name == name_of_edge(f, pa, ja);
        assert(is_split(f, k, 0, pa, ja) && base.blocks[e].name == name_of_edge(f, pa, ja));
    }
    assert forall|pa: Seq<char>, ja: int| #[trigger] is_split(f, k, 0, pa, ja) implies is_settled(
        f,
        base,
        pa,
        ja,
    ) by {
        let ea = name_of_edge(f, pa, ja);
        assert(is_settled(f, g, pa, ja));
        lemma_position_bounds(f.blocks, pa, 0);
        lemma_with_slots(g, k, home(f, pa), ea);
        assert forall|i: int|
            0 <= i < base.blocks.len() && mentions(#[trigger] base.blocks[i], ea) implies i
            == home(f, pa) by {
            lemma_with_slots(g, k, i, ea);
            assert(mentions(g.blocks[i], ea));
        }
    }
    assert forall|pb: Seq<char>, jb: int|
        #![trigger is_split(f, k, 0, pb, jb)]
        is_edge(f, pb, jb) && !is_split(f, k, 0, pb, jb) implies is_pending(f, base, pb, jb) by {
        let eb = name_of_edge(f, pb, jb);
        assert(is_pending(f, g, pb, jb));
        lemma_position_bounds(f.blocks, pb, 0);
        lemma_with_slots(g, k, home(f, pb), f.blocks[jb].name);
        assert forall|i: int| 0 <= i < base.blocks.len() implies !mentions(
            #[trigger] base.blocks[i],
            eb,
        ) && base.blocks[i].name != eb by {
            lemma_with_slots(g, k, i, eb);
            assert(!mentions(g.blocks[i], eb) && g.blocks[i].name != eb);
        }
    }
    if phis_kept(f, g, k + 1) {
        assert forall|j: int|
            k + 1 <= j < f.blocks.len() && j < base.blocks.len() implies has_phi(
            #[trigger] base.blocks[j],
        ) == has_phi(f.blocks[j]) && incoming_blocks(
            base.blocks[j].instructions,
            base.blocks[j].instructions.len() as int,
        ) == incoming_blocks(f.blocks[j].instructions, f.blocks[j].instructions.len() as int) by {
            lemma_with_slots(g, k, j, Seq::<char>::empty());
            assert(has_phi(g.blocks[j]) == has_phi(f.blocks[j]));
        }
    }
}

/// Once every edge into block `k` is split, block `k` is done.
proof fn lemma_block_is_done(f: FunctionView, g: FunctionView, k: int)
    requires
        0 <= k < f.blocks.len(),
        in_progress(
            f,
            g,
            k,
            if has_phi(f.blocks[k]) {
                phi_sources(f, k).len() as int
            } else {
                0
            },
        ),
    ensures
        in_progress(f, g, k + 1, 0),
{
    let q = if has_phi(f.blocks[k]) {
        phi_sources(f, k).len() as int
    } else {
        0
    };
    assert forall|p: Seq<char>, j: int| is_split(f, k, q, p, j) == is_split(f, k + 1, 0, p, j) by {
        if is_split(f, k + 1, 0, p, j) && j == k {
            let r = choose|r: int|
                0 <= r < phi_sources(f, k).len() && phi_sources(f, k)[r] == p;
            assert(phi_sources(f, k)[r] == p);
        }
    }
    assert forall|e: int| f.blocks.len() <= e < g.blocks.len() implies #[trigger] is_edge_block(
        f,
        g,
        k + 1,
        0,
        e,
    ) by {
        assert(is_edge_block(f, g, k, q, e));
        let (pa, ja) = choose|pa: Seq<char>, ja: int| #[trigger]
            is_split(f, k, q, pa, ja) && g.blocks[e].name == name_of_edge(f, pa, ja);
        assert(is_split(f, k + 1, 0, pa, ja));
    }
    assert forall|p: Seq<char>, j: int| #[trigger] is_split(f, k + 1, 0, p, j) implies is_settled(
        f,
        g,
        p,
        j,
    ) by {
        assert(is_split(f, k, q, p, j));
    }
    assert forall|p: Seq<char>, j: int|
        #![trigger is_split(f, k + 1, 0, p, j)]
        is_edge(f, p, j) && !is_split(f, k + 1, 0, p, j) implies is_pending(f, g, p, j) by {
        assert(!is_split(f, k, q, p, j));
    }
}

/// Eliminating the phis of block `k` keeps the progress in order.
proof fn lemma_block_step(f: FunctionView, g: FunctionView, k: int)
    requires
        names_in_order(f),
        in_progress(f, g, k, 0),
        phis_kept(f, g, k),
        0 <= k < f.blocks.len(),
    ensures
        in_progress(f, resolved_block(g, k), k + 1, 0),
        phis_kept(f, resolved_block(g, k), k + 1),
{
    assert(has_phi(g.blocks[k]) == has_phi(f.blocks[k]));
    assert(phis_kept(f, g, k + 1));
    if has_phi(g.blocks[k]) {
        let block = g.blocks[k];
        let n = block.instructions.len() as int;
        let preds = unique(incoming_blocks(block.instructions, n));
        assert(preds == phi_sources(f, k));
        lemma_slots_keep_progress(f, g, k);
        let base = with_slots(g, k);
        assert(resolved_block(g, k) == with_edges(base, block, preds, preds.len() as int));
        lemma_split_all(f, base, block, k, preds.len() as int);
        lemma_block_is_done(f, resolved_block(g, k), k);
    } else {
        lemma_block_is_done(f, g, k);
    }
}

/// Eliminating the phis of the first `k` blocks keeps the progress in order.
proof fn lemma_blocks_steps(f: FunctionView, k: int)
    requires
        names_in_order(f),
        0 <= k <= f.blocks.len(),
    ensures
        in_progress(f, resolved_blocks(f, k), k, 0),
        phis_kept(f, resolved_blocks(f, k), k),
    decreases k,
{
    if k > 0 {
        lemma_blocks_steps(f, k - 1);
        lemma_block_step(f, resolved_blocks(f, k - 1), k - 1);
    } else {
        assert forall|p: Seq<char>, j: int|
            #![trigger is_split(f, 0, 0, p, j)]
            is_edge(f, p, j) && !is_split(f, 0, 0, p, j) implies is_pending(f, f, p, j) by {
            assert forall|i: int| 0 <= i < f.blocks.len() implies !mentions(
                #[trigger] f.blocks[i],
                name_of_edge(f, p, j),
            ) && f.blocks[i].name != name_of_edge(f, p, j) by {}
        }
    }
}

/// Where the names of a function are in order, every block that phi
/// elimination puts on an edge has exactly one predecessor: one block
/// leads to it, and no other.
pub proof fn lemma_edge_block_has_one_predecessor(f: FunctionView, e: int)
    requires
        names_in_order(f),
        f.blocks.len() <= e < resolved_function(f).blocks.len(),
    ensures
        exists|i: int|
            0 <= i < resolved_function(f).blocks.len() && #[trigger] leads_to(
                resolved_function(f).blocks[i],
                resolved_function(f).blocks[e].name,
            ) && forall|other: int|
                0 <= other < resolved_function(f).blocks.len() && #[trigger] leads_to(
                    resolved_function(f).blocks[other],
                    resolved_function(f).blocks[e].name,
                ) ==> other == i,
{
    let g = resolved_function(f);
    let n = f.blocks.len() as int;
    lemma_blocks_steps(f, n);
    assert(is_edge_block(f, g, n, 0, e));
    let (p, j) = choose|p: Seq<char>, j: int| #[trigger]
        is_split(f, n, 0, p, j) && g.blocks[e].name == name_of_edge(f, p, j);
    assert(is_settled(f, g, p, j));
    let i = home(f, p);
    lemma_position_bounds(f.blocks, p, 0);
    assert(leads_to(g.blocks[i], g.blocks[e].name));
    assert forall|other: int|
        0 <= other < g.blocks.len() && #[trigger] leads_to(
            g.blocks[other],
            g.blocks[e].name,
        ) implies other == i by {
        lemma_leads_to_mentions(g.blocks[other], g.blocks[e].name);
    }
}

/// Whether `b` is a block on the edge from the block called `p` to the
/// block called `target`: it has the name of that edge, and holds stores
/// and, behind them, the branch to `target`.
pub open spec fn stands_on_edge(b: BlockView, p: Seq<char>, target: Seq<char>) -> bool {
    &&& b.name == edge_name(p, target)
    &&& b.instructions.len() > 0
    &&& b.instructions.last() == jump_to(target)
    &&& forall|i: int|
        0 <= i < b.instructions.len() - 1 ==> (#[trigger] b.instructions[i]).opcode
            == Opcode::Store
}

/// Whether `g` holds, behind the blocks of `f`, a block on each edge that
/// is split once the blocks before `k` are done and the first `q` edges
/// into block `k` are split.
pub open spec fn edges_stand(f: FunctionView, g: FunctionView, k: int, q: int) -> bool {
    forall|p: Seq<char>, j: int| #[trigger]
        is_split(f, k, q, p, j) ==> exists|e: int|
            f.blocks.len() <= e < g.blocks.len() && stands_on_edge(
                #[trigger] g.blocks[e],
                p,
                f.blocks[j].name,
            )
}

proof fn lemma_stores_of_are_stores(phi: InstructionView, pred: Seq<char>, j: int)
    ensures
        forall|i: int|
            0 <= i < stores_of(phi, pred, j).len() ==> (#[trigger] stores_of(phi, pred, j)[i]).opcode
                == Opcode::Store,
    decreases j,
{
    if j > 0 {
        lemma_stores_of_are_stores(phi, pred, j - 1);
    }
}

proof fn lemma_stores_for_are_stores(instructions: Seq<InstructionView>, pred: Seq<char>, k: int)
    ensures
        forall|i: int|
            0 <= i < stores_for(instructions, pred, k).len() ==> (#[trigger] stores_for(
                instructions,
                pred,
                k,
            )[i]).opcode == Opcode::Store,
    decreases k,
{
    if k > 0 {
        lemma_stores_for_are_stores(instructions, pred, k - 1);
        lemma_stores_of_are_stores(
            instructions[k - 1],
            pred,
            instructions[k - 1].incoming.len() as int,
        );
    }
}

/// The block that goes on an edge stands on that edge.
proof fn lemma_edge_block_stands_on_edge(block: BlockView, pred: Seq<char>)
    ensures
        stands_on_edge(edge_block(block, pred), pred, block.name),
{
    lemma_stores_for_are_stores(block.instructions, pred, block.instructions.len() as int);
    let stores = stores_for(block.instructions, pred, block.instructions.len() as int);
    let all = edge_block(block, pred).instructions;
    assert(all.last() == jump_to(block.name));
    assert forall|i: int| 0 <= i < all.len() - 1 implies (#[trigger] all[i]).opcode
        == Opcode::Store by {
        assert(all[i] == stores[i]);
    }
}

/// Splitting one more edge into block `k` keeps the blocks that stand on
/// edges and adds the block of that edge.
proof fn lemma_stand_one(f: FunctionView, g: FunctionView, block: BlockView, k: int, q: int)
    requires
        names_in_order(f),
        in_progress(f, g, k, q),
        edges_stand(f, g, k, q),
        0 <= k < f.blocks.len(),
        has_phi(f.blocks[k]),
        0 <= q < phi_sources(f, k).len(),
        block.name == f.blocks[k].name,
    ensures
        edges_stand(f, with_edge(g, block, phi_sources(f, k)[q]), k, q + 1),
{
    let sources = phi_sources(f, k);
    let pred = sources[q];
    let after = with_edge(g, block, pred);
    assert(sources.contains(pred));
    assert(is_edge(f, pred, k));
    lemma_home_is_kept(f, g, pred, 0);
    let at = position_of(g.blocks, pred, 0);
    assert(at < f.blocks.len());
    lemma_position_has_name(g.blocks, pred, 0);
    lemma_edge_block_stands_on_edge(block, pred);
    let appended = g.blocks.push(edge_block(block, pred));
    assert(after.blocks == appended.update(
        at,
        redirected(g.blocks[at], block.name, edge_name(pred, block.name)),
    ));
    assert(after.blocks.len() == g.blocks.len() + 1);
    assert(after.blocks[g.blocks.len() as int] == edge_block(block, pred));
    assert forall|p: Seq<char>, j: int| #[trigger] is_split(f, k, q + 1, p, j) implies exists|
        e: int,
    |
        f.blocks.len() <= e < after.blocks.len() && stands_on_edge(
            #[trigger] after.blocks[e],
            p,
            f.blocks[j].name,
        ) by {
        if is_split(f, k, q, p, j) {
            let e = choose|e: int|
                f.blocks.len() <= e < g.blocks.len() && stands_on_edge(
                    #[trigger] g.blocks[e],
                    p,
                    f.blocks[j].name,
                );
            assert(after.blocks[e] == g.blocks[e]);
        } else {
            let r = choose|r: int| 0 <= r < q + 1 && r < sources.len() && #[trigger] sources[r] == p;
            assert(r == q);
            assert(stands_on_edge(after.blocks[g.blocks.len() as int], p, f.blocks[j].name));
        }
    }
}

/// Splitting the first `q` edges into block `k` keeps the blocks that
/// stand on edges and adds the blocks of those edges.
proof fn lemma_stand_all(f: FunctionView, g: FunctionView, block: BlockView, k: int, q: int)
    requires
        names_in_order(f),
        in_progress(f, g, k, 0),
        edges_stand(f, g, k, 0),
        0 <= k < f.blocks.len(),
        has_phi(f.blocks[k]),
        0 <= q <= phi_sources(f, k).len(),
        block.name == f.blocks[k].name,
    ensures
        edges_stand(f, with_edges(g, block, phi_sources(f, k), q), k, q),
    decreases q,
{
    if q > 0 {
        lemma_stand_all(f, g, block, k, q - 1);
        lemma_split_all(f, g, block, k, q - 1);
        lemma_stand_one(f, with_edges(g, block, phi_sources(f, k), q - 1), block, k, q - 1);
    }
}

/// Eliminating the phis of the first `k` blocks puts a block on each edge
/// into one of them.
proof fn lemma_stand_steps(f: FunctionView, k: int)
    requires
        names_in_order(f),
        0 <= k <= f.blocks.len(),
    ensures
        edges_stand(f, resolved_blocks(f, k), k, 0),
    decreases k,
{
    if k > 0 {
        let at = k - 1;
        let g = resolved_blocks(f, at);
        lemma_stand_steps(f, at);
        lemma_blocks_steps(f, at);
        assert(has_phi(g.blocks[at]) == has_phi(f.blocks[at]));
        let q = if has_phi(f.blocks[at]) {
            phi_sources(f, at).len() as int
        } else {
            0
        };
        let h = resolved_block(g, at);
        if has_phi(g.blocks[at]) {
            let block = g.blocks[at];
            let preds = unique(
                incoming_blocks(block.instructions, block.instructions.len() as int),
            );
            assert(preds == phi_sources(f, at));
            lemma_slots_keep_progress(f, g, at);
            let base = with_slots(g, at);
            assert(h == with_edges(base, block, preds, preds.len() as int));
            assert(edges_stand(f, base, at, 0)) by {
                assert forall|p: Seq<char>, j: int| #[trigger]
                    is_split(f, at, 0, p, j) implies exists|e: int|
                    f.blocks.len() <= e < base.blocks.len() && stands_on_edge(
                        #[trigger] base.blocks[e],
                        p,
                        f.blocks[j].name,
                    ) by {
                    let e = choose|e: int|
                        f.blocks.len() <= e < g.blocks.len() && stands_on_edge(
                            #[trigger] g.blocks[e],
                            p,
                            f.blocks[j].name,
                        );
                    assert(base.blocks[e] == g.blocks[e]);
                }
            }
            lemma_stand_all(f, base, block, at, q);
        }
        assert forall|p: Seq<char>, j: int| #[trigger] is_split(f, k, 0, p, j) implies exists|
            e: int,
        |
            f.blocks.len() <= e < h.blocks.len() && stands_on_edge(
                #[trigger] h.blocks[e],
                p,
                f.blocks[j].name,
            ) by {
            if j == at {
                let r = choose|r: int|
                    0 <= r < phi_sources(f, at).len() && phi_sources(f, at)[r] == p;
                assert(phi_sources(f, at)[r] == p);
            }
            assert(is_split(f, at, q, p, j));
        }
    }
}

/// Where the names of a function are in order, phi elimination puts a
/// block on every edge that a phi names: a new block with the name of the
/// edge, that holds stores and then the branch to the block of the phi,
/// and to which the block that the phi names leads.
pub proof fn lemma_edge_block_stands(f: FunctionView, p: Seq<char>, j: int)
    requires
        names_in_order(f),
        is_edge(f, p, j),
    ensures
        exists|e: int|
            f.blocks.len() <= e < resolved_function(f).blocks.len() && stands_on_edge(
                #[trigger] resolved_function(f).blocks[e],
                p,
                f.blocks[j].name,
            ),
        home(f, p) < f.blocks.len(),
        resolved_function(f).blocks[home(f, p)].name == p,
        leads_to(resolved_function(f).blocks[home(f, p)], edge_name(p, f.blocks[j].name)),
{
    let n = f.blocks.len() as int;
    lemma_stand_steps(f, n);
    lemma_blocks_steps(f, n);
    assert(is_split(f, n, 0, p, j));
    assert(is_settled(f, resolved_function(f), p, j));
    lemma_position_has_name(f.blocks, p, 0);
}

} // verus!
