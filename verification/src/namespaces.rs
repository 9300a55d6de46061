//! The graph of a function under two namespaces.
//!
//! A namespace only renames the nodes of a function. Unless a node gets the
//! name of the return target or of the common end node, which would turn a
//! return or a panic into an edge between blocks, the blocks are sorted in
//! the same order under every namespace. A function without a cycle
//! therefore stays without one when it is inlined. Two calls in one
//! namespace get namespaces of their own where the registers that take
//! their results are apart.

use vstd::prelude::*;
use crate::codegen::codegen_call::{callee_namespace, post_node_name};
use crate::control_flow_graph::{
    all_in, backward_targets, forward_targets, is_cyclic, node_name, ready, sources, successors,
    successors_known, sweep, sweeps, switch_targets, topological_order,
};
use crate::ir::{BasicBlock, Function, Instruction, Opcode};
use crate::symbolic_execution::COMMON_END_NODE;
use crate::text::{lemma_unique, starts_with, unique};
use crate::utils::var_utils::{is_register, register_name, var_name};

verus! {

/// Whether no block of `f`, named in `ns`, has the name of the return
/// target or of the common end node.
pub open spec fn keeps_ends_apart(f: Function, ns: Seq<char>, return_target: Seq<char>) -> bool {
    forall|j: int|
        0 <= j < f.blocks.len() ==> #[trigger] node_name(f, j, ns) != return_target && node_name(
            f,
            j,
            ns,
        ) != COMMON_END_NODE@
}

/// Whether one of the odd operands of the switch `t`, among its first `k`
/// operands, is the block called `name`.
pub open spec fn switches_to(t: Instruction, name: Seq<char>, k: int) -> bool
    decreases k,
{
    if k <= 0 {
        false
    } else {
        ((k - 1) % 2 == 1 && t.has_block(k - 1) && t.block(k - 1) == name) || switches_to(
            t,
            name,
            k - 1,
        )
    }
}

/// Whether the terminator of `b` names the block called `name` as a target.
pub open spec fn leads_to(b: BasicBlock, name: Seq<char>) -> bool {
    successors_known(b) && match b.terminator().opcode {
        Opcode::Br => if b.terminator().operands.len() == 1 {
            b.terminator().block(0) == name
        } else {
            b.terminator().block(1) == name || b.terminator().block(2) == name
        },
        Opcode::Switch => switches_to(b.terminator(), name, b.terminator().operands.len() as int),
        _ => false,
    }
}

/// A prefix can be taken off both sides of an equation.
pub proof fn lemma_prefix_cancels(ns: Seq<char>, x: Seq<char>, y: Seq<char>)
    ensures
        (ns + x == ns + y) == (x == y),
{
    if ns + x == ns + y {
        assert(x =~= (ns + x).subrange(ns.len() as int, (ns + x).len() as int));
        assert(y =~= (ns + y).subrange(ns.len() as int, (ns + y).len() as int));
    }
}

proof fn lemma_switch_targets(t: Instruction, ns: Seq<char>, name: Seq<char>, k: int)
    ensures
        switch_targets(t, ns, k).contains(ns + name) == switches_to(t, name, k),
    decreases k,
{
    if k > 0 {
        lemma_switch_targets(t, ns, name, k - 1);
        let rest = switch_targets(t, ns, k - 1);
        if (k - 1) % 2 == 1 && t.has_block(k - 1) {
            let added = ns + t.block(k - 1);
            lemma_prefix_cancels(ns, t.block(k - 1), name);
            let all = rest.push(added);
            if rest.contains(ns + name) {
                let i = choose|i: int| 0 <= i < rest.len() && rest[i] == ns + name;
                assert(all[i] == ns + name);
            }
            if added == ns + name {
                assert(all[rest.len() as int] == ns + name);
            }
            if all.contains(ns + name) {
                let i = choose|i: int| 0 <= i < all.len() && all[i] == ns + name;
                if i < rest.len() {
                    assert(rest[i] == ns + name);
                }
            }
        }
    } else {
        assert(!switch_targets(t, ns, k).contains(ns + name));
    }
}

/// Whether block `i` has an edge to a node that is neither the return
/// target nor the common end node depends on the terminator of `i` alone.
proof fn lemma_edge(
    f: Function,
    ns: Seq<char>,
    return_target: Seq<char>,
    i: int,
    name: Seq<char>,
)
    requires
        0 <= i < f.blocks.len(),
        ns + name != return_target,
        ns + name != COMMON_END_NODE@,
    ensures
        forward_targets(f, i, ns, return_target).contains(ns + name) == leads_to(
            f.blocks[i],
            name,
        ),
{
    let b = f.blocks[i];
    let raw = successors(b, ns, return_target);
    lemma_unique(raw);
    if successors_known(b) {
        let t = b.terminator();
        match t.opcode {
            Opcode::Return => {
                if raw.contains(ns + name) {
                    let k = choose|k: int| 0 <= k < raw.len() && raw[k] == ns + name;
                }
            },
            Opcode::Unreachable => {
                if raw.contains(ns + name) {
                    let k = choose|k: int| 0 <= k < raw.len() && raw[k] == ns + name;
                }
            },
            Opcode::Switch => {
                lemma_switch_targets(t, ns, name, t.operands.len() as int);
            },
            _ => {
                if t.operands.len() == 1 {
                    lemma_prefix_cancels(ns, t.block(0), name);
                    if raw.contains(ns + name) {
                        let k = choose|k: int| 0 <= k < raw.len() && raw[k] == ns + name;
                    }
                    if t.block(0) == name {
                        assert(raw[0] == ns + name);
                    }
                } else {
                    lemma_prefix_cancels(ns, t.block(1), name);
                    lemma_prefix_cancels(ns, t.block(2), name);
                    if raw.contains(ns + name) {
                        let k = choose|k: int| 0 <= k < raw.len() && raw[k] == ns + name;
                    }
                    if t.block(1) == name {
                        assert(raw[0] == ns + name);
                    }
                    if t.block(2) == name {
                        assert(raw[1] == ns + name);
                    }
                }
            },
        }
    } else {
        if raw.contains(ns + name) {
            let k = choose|k: int| 0 <= k < raw.len() && raw[k] == ns + name;
        }
    }
}

/// The blocks with an edge to block `j`, among the first `k`, are those
/// whose terminator names block `j`.
proof fn lemma_sources(
    f: Function,
    ns: Seq<char>,
    return_target: Seq<char>,
    j: int,
    k: int,
    x: Seq<char>,
)
    requires
        keeps_ends_apart(f, ns, return_target),
        0 <= j < f.blocks.len(),
        0 <= k <= f.blocks.len(),
    ensures
        sources(f, ns, return_target, node_name(f, j, ns), k).contains(ns + x) == exists|i: int|
            0 <= i < k && #[trigger] leads_to(f.blocks[i], f.blocks[j].name@) && f.blocks[i].name@
                == x,
    decreases k,
{
    let node = node_name(f, j, ns);
    if k > 0 {
        lemma_sources(f, ns, return_target, j, k - 1, x);
        let rest = sources(f, ns, return_target, node, k - 1);
        assert(node_name(f, j, ns) != return_target);
        lemma_edge(f, ns, return_target, k - 1, f.blocks[j].name@);
        lemma_prefix_cancels(ns, f.blocks[k - 1].name@, x);
        if forward_targets(f, k - 1, ns, return_target).contains(node) {
            let all = rest.push(node_name(f, k - 1, ns));
            if rest.contains(ns + x) {
                let at = choose|at: int| 0 <= at < rest.len() && rest[at] == ns + x;
                assert(all[at] == ns + x);
            }
            if all.contains(ns + x) {
                let at = choose|at: int| 0 <= at < all.len() && all[at] == ns + x;
                if at < rest.len() {
                    assert(rest[at] == ns + x);
                } else {
                    assert(leads_to(f.blocks[k - 1], f.blocks[j].name@));
                }
            }
            if f.blocks[k - 1].name@ == x {
                assert(all[rest.len() as int] == ns + x);
            }
        }
    } else {
        assert(!sources(f, ns, return_target, node, k).contains(ns + x));
    }
}

/// Every node with an edge to a block is a block.
proof fn lemma_sources_are_blocks(
    f: Function,
    ns: Seq<char>,
    return_target: Seq<char>,
    node: Seq<char>,
    k: int,
    at: int,
)
    requires
        0 <= k <= f.blocks.len(),
        0 <= at < sources(f, ns, return_target, node, k).len(),
    ensures
        exists|i: int|
            0 <= i < k && sources(f, ns, return_target, node, k)[at] == #[trigger] node_name(
                f,
                i,
                ns,
            ),
    decreases k,
{
    if k > 0 {
        let rest = sources(f, ns, return_target, node, k - 1);
        if at < rest.len() {
            lemma_sources_are_blocks(f, ns, return_target, node, k - 1, at);
            let i = choose|i: int| 0 <= i < k - 1 && rest[at] == #[trigger] node_name(f, i, ns);
            assert(sources(f, ns, return_target, node, k)[at] == node_name(f, i, ns));
        } else {
            assert(sources(f, ns, return_target, node, k)[at] == node_name(f, k - 1, ns));
        }
    }
}

/// Whether `first` and `second` hold the same block at position `k`, each
/// named in its namespace.
pub open spec fn same_block_at(
    first: Seq<Seq<char>>,
    ns1: Seq<char>,
    second: Seq<Seq<char>>,
    ns2: Seq<char>,
    k: int,
) -> bool {
    exists|x: Seq<char>| #![trigger ns1 + x] first[k] == ns1 + x && second[k] == ns2 + x
}

/// Whether `first` and `second` hold the same blocks in the same places,
/// each named in its namespace.
pub open spec fn same_blocks(
    f: Function,
    first: Seq<Seq<char>>,
    ns1: Seq<char>,
    second: Seq<Seq<char>>,
    ns2: Seq<char>,
) -> bool {
    &&& first.len() == second.len()
    &&& forall|k: int|
        0 <= k < first.len() ==> #[trigger] same_block_at(first, ns1, second, ns2, k)
}

proof fn lemma_same_blocks_contain(
    f: Function,
    first: Seq<Seq<char>>,
    ns1: Seq<char>,
    second: Seq<Seq<char>>,
    ns2: Seq<char>,
    x: Seq<char>,
)
    requires
        same_blocks(f, first, ns1, second, ns2),
    ensures
        first.contains(ns1 + x) == second.contains(ns2 + x),
{
    if first.contains(ns1 + x) {
        let k = choose|k: int| 0 <= k < first.len() && first[k] == ns1 + x;
        assert(same_block_at(first, ns1, second, ns2, k));
        let y = choose|y: Seq<char>|
            #![trigger ns1 + y]
            first[k] == ns1 + y && second[k] == ns2 + y;
        lemma_prefix_cancels(ns1, x, y);
        assert(second[k] == ns2 + x);
    }
    if second.contains(ns2 + x) {
        let k = choose|k: int| 0 <= k < second.len() && second[k] == ns2 + x;
        assert(same_block_at(first, ns1, second, ns2, k));
        let y = choose|y: Seq<char>|
            #![trigger ns1 + y]
            first[k] == ns1 + y && second[k] == ns2 + y;
        lemma_prefix_cancels(ns2, x, y);
        assert(first[k] == ns1 + x);
    }
}

/// Whether all the predecessors of block `j` are in a list depends on the
/// blocks that the list holds, not on the namespace.
proof fn lemma_all_in(
    f: Function,
    ns1: Seq<char>,
    rt1: Seq<char>,
    ns2: Seq<char>,
    rt2: Seq<char>,
    j: int,
    first: Seq<Seq<char>>,
    second: Seq<Seq<char>>,
)
    requires
        keeps_ends_apart(f, ns1, rt1),
        keeps_ends_apart(f, ns2, rt2),
        same_blocks(f, first, ns1, second, ns2),
        0 <= j < f.blocks.len(),
        all_in(backward_targets(f, j, ns1, rt1), first),
    ensures
        all_in(backward_targets(f, j, ns2, rt2), second),
{
    let n = f.blocks.len() as int;
    let back1 = backward_targets(f, j, ns1, rt1);
    let back2 = backward_targets(f, j, ns2, rt2);
    let raw1 = sources(f, ns1, rt1, node_name(f, j, ns1), n);
    let raw2 = sources(f, ns2, rt2, node_name(f, j, ns2), n);
    lemma_unique(raw1);
    lemma_unique(raw2);
    assert forall|k: int| 0 <= k < back2.len() implies second.contains(#[trigger] back2[k]) by {
        assert(back2.contains(back2[k]));
        assert(raw2.contains(back2[k]));
        let at = choose|at: int| 0 <= at < raw2.len() && raw2[at] == back2[k];
        lemma_sources_are_blocks(f, ns2, rt2, node_name(f, j, ns2), n, at);
        let i = choose|i: int| 0 <= i < n && raw2[at] == #[trigger] node_name(f, i, ns2);
        let x = f.blocks[i].name@;
        lemma_sources(f, ns2, rt2, j, n, x);
        lemma_sources(f, ns1, rt1, j, n, x);
        assert(raw1.contains(ns1 + x));
        assert(back1.contains(ns1 + x));
        let in_back = choose|p: int| 0 <= p < back1.len() && back1[p] == ns1 + x;
        assert(first.contains(back1[in_back]));
        lemma_same_blocks_contain(f, first, ns1, second, ns2, x);
    }
}

proof fn lemma_ready(
    f: Function,
    ns1: Seq<char>,
    rt1: Seq<char>,
    ns2: Seq<char>,
    rt2: Seq<char>,
    j: int,
    first: Seq<Seq<char>>,
    second: Seq<Seq<char>>,
)
    requires
        keeps_ends_apart(f, ns1, rt1),
        keeps_ends_apart(f, ns2, rt2),
        same_blocks(f, first, ns1, second, ns2),
        0 <= j < f.blocks.len(),
    ensures
        ready(f, ns1, rt1, j, first) == ready(f, ns2, rt2, j, second),
{
    lemma_same_blocks_contain(f, first, ns1, second, ns2, f.blocks[j].name@);
    if all_in(backward_targets(f, j, ns1, rt1), first) {
        lemma_all_in(f, ns1, rt1, ns2, rt2, j, first, second);
    }
    if all_in(backward_targets(f, j, ns2, rt2), second) {
        assert(same_blocks(f, second, ns2, first, ns1)) by {
            assert forall|k: int| 0 <= k < second.len() implies #[trigger] same_block_at(
                second,
                ns2,
                first,
                ns1,
                k,
            ) by {
                assert(same_block_at(first, ns1, second, ns2, k));
                let x = choose|x: Seq<char>|
                    #![trigger ns1 + x]
                    first[k] == ns1 + x && second[k] == ns2 + x;
                assert(second[k] == ns2 + x && first[k] == ns1 + x);
            }
        }
        lemma_all_in(f, ns2, rt2, ns1, rt1, j, second, first);
    }
}

proof fn lemma_sweep(
    f: Function,
    ns1: Seq<char>,
    rt1: Seq<char>,
    ns2: Seq<char>,
    rt2: Seq<char>,
    first: Seq<Seq<char>>,
    second: Seq<Seq<char>>,
    j: int,
)
    requires
        keeps_ends_apart(f, ns1, rt1),
        keeps_ends_apart(f, ns2, rt2),
        same_blocks(f, first, ns1, second, ns2),
        0 <= j,
    ensures
        same_blocks(f, sweep(f, ns1, rt1, first, j), ns1, sweep(f, ns2, rt2, second, j), ns2),
    decreases f.blocks.len() - j,
{
    if j < f.blocks.len() {
        lemma_ready(f, ns1, rt1, ns2, rt2, j, first, second);
        if ready(f, ns1, rt1, j, first) {
            let next1 = first.push(node_name(f, j, ns1));
            let next2 = second.push(node_name(f, j, ns2));
            assert forall|k: int| 0 <= k < next1.len() implies #[trigger] same_block_at(
                next1,
                ns1,
                next2,
                ns2,
                k,
            ) by {
                if k < first.len() {
                    assert(same_block_at(first, ns1, second, ns2, k));
                    let x = choose|x: Seq<char>|
                        #![trigger ns1 + x]
                        first[k] == ns1 + x && second[k] == ns2 + x;
                    assert(next1[k] == ns1 + x && next2[k] == ns2 + x);
                } else {
                    let x = f.blocks[j].name@;
                    assert(next1[k] == ns1 + x && next2[k] == ns2 + x);
                }
            }
            lemma_sweep(f, ns1, rt1, ns2, rt2, next1, next2, j + 1);
        } else {
            lemma_sweep(f, ns1, rt1, ns2, rt2, first, second, j + 1);
        }
    }
}

proof fn lemma_sweeps(
    f: Function,
    ns1: Seq<char>,
    rt1: Seq<char>,
    ns2: Seq<char>,
    rt2: Seq<char>,
    first: Seq<Seq<char>>,
    second: Seq<Seq<char>>,
    fuel: nat,
)
    requires
        keeps_ends_apart(f, ns1, rt1),
        keeps_ends_apart(f, ns2, rt2),
        same_blocks(f, first, ns1, second, ns2),
    ensures
        same_blocks(
            f,
            sweeps(f, ns1, rt1, first, fuel),
            ns1,
            sweeps(f, ns2, rt2, second, fuel),
            ns2,
        ),
    decreases fuel,
{
    lemma_sweep(f, ns1, rt1, ns2, rt2, first, second, 0);
    if fuel > 0 && sweep(f, ns1, rt1, first, 0).len() != first.len() {
        lemma_sweeps(
            f,
            ns1,
            rt1,
            ns2,
            rt2,
            sweep(f, ns1, rt1, first, 0),
            sweep(f, ns2, rt2, second, 0),
            (fuel - 1) as nat,
        );
    }
}

/// Under two namespaces that keep the ends apart, the blocks of a
/// function are sorted in the same order, and the function has a cycle
/// under both or under neither.
pub proof fn lemma_order_ignores_namespace(
    f: Function,
    ns1: Seq<char>,
    rt1: Seq<char>,
    ns2: Seq<char>,
    rt2: Seq<char>,
)
    requires
        keeps_ends_apart(f, ns1, rt1),
        keeps_ends_apart(f, ns2, rt2),
    ensures
        same_blocks(
            f,
            topological_order(f, ns1, rt1),
            ns1,
            topological_order(f, ns2, rt2),
            ns2,
        ),
        is_cyclic(f, ns1, rt1) == is_cyclic(f, ns2, rt2),
{
    let none = Seq::<Seq<char>>::empty();
    assert(same_blocks(f, none, ns1, none, ns2));
    lemma_sweeps(f, ns1, rt1, ns2, rt2, none, none, f.blocks.len() as nat);
}

/// The namespace of an inlined copy keeps the ends apart: every node of
/// the copy has a name that is longer than that of the node behind the
/// call, and that holds a dot, which the name of the common end node does
/// not.
pub proof fn lemma_callee_namespace_keeps_ends_apart(f: Function, post_node: Seq<char>)
    ensures
        keeps_ends_apart(f, callee_namespace(post_node), post_node),
{
    let ns = callee_namespace(post_node);
    reveal_strlit("common_end_node");
    reveal_strlit(".");
    assert forall|j: int| 0 <= j < f.blocks.len() implies #[trigger] node_name(f, j, ns)
        != post_node && node_name(f, j, ns) != COMMON_END_NODE@ by {
        let name = node_name(f, j, ns);
        assert(name.len() > post_node.len());
        assert(name[post_node.len() as int] == '.');
        if name == COMMON_END_NODE@ {
            assert(COMMON_END_NODE@[post_node.len() as int] == '.');
        }
    }
}

/// Inlining preserves acyclicity: a function has a cycle in the namespace
/// of an inlined copy exactly when it has one on its own.
pub proof fn lemma_inlining_preserves_acyclicity(
    f: Function,
    post_node: Seq<char>,
    ns: Seq<char>,
    return_target: Seq<char>,
)
    requires
        keeps_ends_apart(f, ns, return_target),
    ensures
        is_cyclic(f, callee_namespace(post_node), post_node) == is_cyclic(f, ns, return_target),
{
    lemma_callee_namespace_keeps_ends_apart(f, post_node);
    lemma_order_ignores_namespace(f, callee_namespace(post_node), post_node, ns, return_target);
}

/// In the copy of a function that is inlined at a call, a block that ends
/// in a return leads to the node behind the call, and to no other node.
pub proof fn lemma_return_leads_behind_the_call(f: Function, j: int, post_node: Seq<char>)
    requires
        0 <= j < f.blocks.len(),
        f.blocks[j].has_terminator(),
        f.blocks[j].terminator().opcode == Opcode::Return,
    ensures
        forward_targets(f, j, callee_namespace(post_node), post_node) == seq![post_node],
{
    let ns = callee_namespace(post_node);
    let all = successors(f.blocks[j], ns, post_node);
    assert(all == seq![post_node]);
    lemma_unique(all);
    assert(all.drop_last() =~= Seq::<Seq<char>>::empty());
    assert(unique(all.drop_last()) =~= Seq::<Seq<char>>::empty());
    assert(unique(all) =~= seq![post_node]);
}

/// Whether the registers `a` and `b` keep the calls whose results they
/// take apart: they differ, and neither begins with the other and a dot.
pub open spec fn registers_apart(a: Seq<char>, b: Seq<char>) -> bool {
    a != b && !starts_with(a, b + "."@) && !starts_with(b, a + "."@)
}

/// What begins with a register and a dot, and is also another register
/// alone or with a dot and more behind it, shows that the second register
/// is the first or begins with the first and a dot.
proof fn lemma_dotted(a: Seq<char>, x: Seq<char>, b: Seq<char>, y: Seq<char>)
    requires
        a + "."@ + x == b + y,
        y.len() == 0 || y[0] == '.',
        a.len() <= b.len(),
    ensures
        a == b || starts_with(b, a + "."@),
{
    reveal_strlit(".");
    let whole = a + "."@ + x;
    assert(whole.subrange(0, a.len() as int) =~= a);
    assert(whole.subrange(0, b.len() as int) =~= b);
    if a.len() == b.len() {
        assert(a =~= b);
    } else {
        let k = a.len() as int + 1;
        assert(whole.subrange(0, k) =~= a + "."@);
        assert(b.subrange(0, k) =~= whole.subrange(0, k));
    }
}

/// Two calls in one namespace whose results go to registers that are
/// apart get nodes and namespaces of their own: the nodes behind the two
/// calls differ, no name in the namespace of one copy is a name in the
/// namespace of the other, and none is the node behind the other call.
/// This holds of every name in such a namespace: of the blocks of the copy
/// and of all that calls within the copy bring in.
pub proof fn lemma_call_sites_are_apart(
    ns: Seq<char>,
    a: Seq<char>,
    b: Seq<char>,
    x: Seq<char>,
    y: Seq<char>,
)
    requires
        registers_apart(a, b),
    ensures
        post_node_name(ns, a) != post_node_name(ns, b),
        callee_namespace(post_node_name(ns, a)) + x != callee_namespace(post_node_name(ns, b)) + y,
        callee_namespace(post_node_name(ns, a)) + x != post_node_name(ns, b),
{
    reveal_strlit(".");
    let front = ns + "_"@;
    let none = Seq::<char>::empty();
    lemma_prefix_cancels(front, a, b);
    assert(callee_namespace(post_node_name(ns, a)) + x =~= front + (a + "."@ + x));
    assert(callee_namespace(post_node_name(ns, b)) + y =~= front + (b + "."@ + y));
    assert(post_node_name(ns, b) =~= front + (b + none));
    lemma_prefix_cancels(front, a + "."@ + x, b + "."@ + y);
    lemma_prefix_cancels(front, a + "."@ + x, b + none);
    if a + "."@ + x == b + "."@ + y {
        assert(b + "."@ + y =~= b + ("."@ + y));
        assert(a + "."@ + x =~= a + ("."@ + x));
        if a.len() <= b.len() {
            lemma_dotted(a, x, b, "."@ + y);
        } else {
            lemma_dotted(b, y, a, "."@ + x);
        }
    }
    if a + "."@ + x == b + none {
        assert(b + none =~= b);
        assert((a + "."@ + x).len() == a.len() + 1 + x.len());
        lemma_dotted(a, x, b, none);
    }
}

/// Two calls in one namespace whose instructions name registers that are
/// apart get nodes and namespaces of their own.
pub proof fn lemma_calls_of_apart_registers_are_apart(
    ns: Seq<char>,
    first: Seq<char>,
    second: Seq<char>,
    x: Seq<char>,
    y: Seq<char>,
)
    requires
        is_register(first),
        is_register(second),
        registers_apart(register_name(first), register_name(second)),
    ensures
        post_node_name(ns, var_name(first, ns)) != post_node_name(ns, var_name(second, ns)),
        callee_namespace(post_node_name(ns, var_name(first, ns))) + x != callee_namespace(
            post_node_name(ns, var_name(second, ns)),
        ) + y,
        callee_namespace(post_node_name(ns, var_name(first, ns))) + x != post_node_name(
            ns,
            var_name(second, ns),
        ),
{
    let a = register_name(first);
    let b = register_name(second);
    lemma_prefix_cancels(ns, a, b);
    assert(registers_apart(ns + a, ns + b)) by {
        assert((ns + b) + "."@ =~= ns + (b + "."@));
        assert((ns + a) + "."@ =~= ns + (a + "."@));
        lemma_prefix_starts(ns, a, b + "."@);
        lemma_prefix_starts(ns, b, a + "."@);
    }
    lemma_call_sites_are_apart(ns, ns + a, ns + b, x, y);
}

/// A prefix can be taken off both sides where one string begins with another.
proof fn lemma_prefix_starts(ns: Seq<char>, x: Seq<char>, y: Seq<char>)
    ensures
        starts_with(ns + x, ns + y) == starts_with(x, y),
{
    if starts_with(ns + x, ns + y) {
        assert(x.subrange(0, y.len() as int) =~= (ns + x).subrange(0, (ns + y).len() as int).subrange(
            ns.len() as int,
            (ns + y).len() as int,
        ));
        assert((ns + y).subrange(ns.len() as int, (ns + y).len() as int) =~= y);
    }
    if starts_with(x, y) {
        assert((ns + x).subrange(0, (ns + y).len() as int) =~= ns + x.subrange(0, y.len() as int));
    }
}

} // verus!
