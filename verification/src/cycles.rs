//! Cycles in the graph of a function.
//!
//! The topological order is built by sweeps that append the blocks whose
//! predecessors are all in place. Where the blocks of a function have
//! names of their own, the order leaves a block out exactly where the graph
//! has a cycle: a walk along edges that comes back to where it began. A
//! function without a cycle has none in the copy that is inlined at a call.

use vstd::prelude::*;
use vstd::set_lib::{lemma_int_range, lemma_len_subset, set_int_range};
use crate::codegen::codegen_call::callee_namespace;
use crate::control_flow_graph::{
    all_in, backward_targets, forward_targets, is_cyclic, is_placed,
    lemma_acyclic_order_is_complete, lemma_pigeonhole, lemma_topological_order, node_name,
    node_names, ready, sources, topological_order,
};
use crate::ir::{Function, Opcode};
use crate::namespaces::{
    keeps_ends_apart, lemma_callee_namespace_keeps_ends_apart,
    lemma_inlining_preserves_acyclicity, lemma_prefix_cancels, lemma_return_leads_behind_the_call,
};
use crate::text::lemma_unique;

verus! {

/// Whether block `a` of `f` has an edge to block `b` of `f`.
pub open spec fn has_edge(
    f: Function,
    ns: Seq<char>,
    return_target: Seq<char>,
    a: int,
    b: int,
) -> bool {
    &&& 0 <= a < f.blocks.len()
    &&& 0 <= b < f.blocks.len()
    &&& forward_targets(f, a, ns, return_target).contains(node_name(f, b, ns))
}

/// Whether `path` is a walk along edges of `f`, over one edge at least,
/// that ends at the block where it begins.
pub open spec fn is_cycle(
    f: Function,
    ns: Seq<char>,
    return_target: Seq<char>,
    path: Seq<int>,
) -> bool {
    &&& path.len() >= 2
    &&& path.first() == path.last()
    &&& forall|i: int|
        0 <= i < path.len() - 1 ==> has_edge(f, ns, return_target, #[trigger] path[i], path[i + 1])
}

/// Whether the graph of `f` has a cycle.
pub open spec fn has_cycle(f: Function, ns: Seq<char>, return_target: Seq<char>) -> bool {
    exists|path: Seq<int>| is_cycle(f, ns, return_target, path)
}

/// Whether no two blocks of `f` have the same name.
pub open spec fn distinct_names(f: Function) -> bool {
    forall|a: int, b: int|
        0 <= a < f.blocks.len() && 0 <= b < f.blocks.len() && a != b ==> (
        #[trigger] f.blocks[a]).name@ != (#[trigger] f.blocks[b]).name@
}

/// Whether block `j` of `f` is not in `order`.
pub open spec fn left_out(f: Function, ns: Seq<char>, order: Seq<Seq<char>>, j: int) -> bool {
    0 <= j < f.blocks.len() && !order.contains(node_name(f, j, ns))
}

/// The nodes with an edge to `node` among the first `k` blocks are the
/// blocks among them whose targets hold `node`.
proof fn lemma_sources(
    f: Function,
    ns: Seq<char>,
    return_target: Seq<char>,
    node: Seq<char>,
    k: int,
    x: Seq<char>,
)
    requires
        0 <= k <= f.blocks.len(),
    ensures
        sources(f, ns, return_target, node, k).contains(x) <==> exists|a: int|
            0 <= a < k && x == #[trigger] node_name(f, a, ns) && forward_targets(
                f,
                a,
                ns,
                return_target,
            ).contains(node),
    decreases k,
{
    if k > 0 {
        lemma_sources(f, ns, return_target, node, k - 1, x);
        let before = sources(f, ns, return_target, node, k - 1);
        let all = sources(f, ns, return_target, node, k);
        let found = forward_targets(f, k - 1, ns, return_target).contains(node);
        if all.contains(x) {
            let at = choose|at: int| 0 <= at < all.len() && all[at] == x;
            if found && at == before.len() {
                assert(x == node_name(f, k - 1, ns));
            } else {
                assert(before[at] == x);
                assert(before.contains(x));
            }
        }
        if exists|a: int|
            0 <= a < k && x == #[trigger] node_name(f, a, ns) && forward_targets(
                f,
                a,
                ns,
                return_target,
            ).contains(node) {
            let a = choose|a: int|
                0 <= a < k && x == #[trigger] node_name(f, a, ns) && forward_targets(
                    f,
                    a,
                    ns,
                    return_target,
                ).contains(node);
            if a == k - 1 {
                assert(all[before.len() as int] == x);
            } else {
                assert(before.contains(x));
                let at = choose|at: int| 0 <= at < before.len() && before[at] == x;
                assert(all[at] == x);
            }
        }
    }
}

/// The predecessors of a block are the blocks with an edge to it.
pub proof fn lemma_predecessors(
    f: Function,
    ns: Seq<char>,
    return_target: Seq<char>,
    b: int,
    x: Seq<char>,
)
    requires
        0 <= b < f.blocks.len(),
    ensures
        backward_targets(f, b, ns, return_target).contains(x) <==> exists|a: int|
            x == #[trigger] node_name(f, a, ns) && has_edge(f, ns, return_target, a, b),
{
    let node = node_name(f, b, ns);
    lemma_unique(sources(f, ns, return_target, node, f.blocks.len() as int));
    lemma_sources(f, ns, return_target, node, f.blocks.len() as int, x);
    if backward_targets(f, b, ns, return_target).contains(x) {
        let a = choose|a: int|
            0 <= a < f.blocks.len() && x == #[trigger] node_name(f, a, ns) && forward_targets(
                f,
                a,
                ns,
                return_target,
            ).contains(node);
        assert(has_edge(f, ns, return_target, a, b));
    }
    if exists|a: int| x == #[trigger] node_name(f, a, ns) && has_edge(f, ns, return_target, a, b) {
        let a = choose|a: int|
            x == #[trigger] node_name(f, a, ns) && has_edge(f, ns, return_target, a, b);
        assert(0 <= a < f.blocks.len() && x == node_name(f, a, ns) && forward_targets(
            f,
            a,
            ns,
            return_target,
        ).contains(node));
    }
}

/// Blocks with names of their own have nodes of their own.
proof fn lemma_distinct_nodes(f: Function, ns: Seq<char>, a: int, b: int)
    requires
        distinct_names(f),
        0 <= a < f.blocks.len(),
        0 <= b < f.blocks.len(),
        node_name(f, a, ns) == node_name(f, b, ns),
    ensures
        a == b,
{
    lemma_prefix_cancels(ns, f.blocks[a].name@, f.blocks[b].name@);
}

/// In a topological order, a block stands before each block that it has an edge to.
proof fn lemma_edge_rises(
    f: Function,
    ns: Seq<char>,
    return_target: Seq<char>,
    order: Seq<Seq<char>>,
    a: int,
    b: int,
    ka: int,
    kb: int,
)
    requires
        distinct_names(f),
        order.no_duplicates(),
        has_edge(f, ns, return_target, a, b),
        0 <= ka < order.len(),
        0 <= kb < order.len(),
        order[ka] == node_name(f, a, ns),
        order[kb] == node_name(f, b, ns),
        is_placed(f, ns, return_target, order, kb),
    ensures
        ka < kb,
{
    let j = choose|j: int|
        0 <= j < f.blocks.len() && #[trigger] node_name(f, j, ns) == order[kb] && all_in(
            backward_targets(f, j, ns, return_target),
            order.subrange(0, kb),
        );
    lemma_distinct_nodes(f, ns, j, b);
    let x = node_name(f, a, ns);
    lemma_predecessors(f, ns, return_target, b, x);
    let predecessors = backward_targets(f, b, ns, return_target);
    let at = choose|at: int| 0 <= at < predecessors.len() && predecessors[at] == x;
    assert(order.subrange(0, kb).contains(predecessors[at]));
    let k = choose|k: int| 0 <= k < kb && order.subrange(0, kb)[k] == x;
    assert(order[k] == order[ka]);
}

/// Along a walk over edges, in a topological order that holds every
/// block, each block behind the first stands behind the first.
proof fn lemma_walk_rises(
    f: Function,
    ns: Seq<char>,
    return_target: Seq<char>,
    order: Seq<Seq<char>>,
    path: Seq<int>,
    i: int,
) -> (at: (int, int))
    requires
        distinct_names(f),
        order.no_duplicates(),
        forall|k: int| 0 <= k < order.len() ==> #[trigger] is_placed(f, ns, return_target, order, k),
        forall|j: int| 0 <= j < f.blocks.len() ==> order.contains(#[trigger] node_name(f, j, ns)),
        forall|k: int|
            0 <= k < path.len() - 1 ==> has_edge(
                f,
                ns,
                return_target,
                #[trigger] path[k],
                path[k + 1],
            ),
        1 <= i < path.len(),
    ensures
        0 <= at.0 < at.1 < order.len(),
        order[at.0] == node_name(f, path[0], ns),
        order[at.1] == node_name(f, path[i], ns),
    decreases i,
{
    assert(has_edge(f, ns, return_target, path[i - 1], path[i]));
    assert(order.contains(node_name(f, path[i - 1], ns)));
    assert(order.contains(node_name(f, path[i], ns)));
    let ka = choose|k: int| 0 <= k < order.len() && order[k] == node_name(f, path[i - 1], ns);
    let kb = choose|k: int| 0 <= k < order.len() && order[k] == node_name(f, path[i], ns);
    assert(is_placed(f, ns, return_target, order, kb));
    lemma_edge_rises(f, ns, return_target, order, path[i - 1], path[i], ka, kb);
    if i == 1 {
        (ka, kb)
    } else {
        let before = lemma_walk_rises(f, ns, return_target, order, path, i - 1);
        assert(order[before.1] == order[ka]);
        (before.0, kb)
    }
}

/// Where the graph has a cycle, the topological order leaves a block out.
pub proof fn lemma_cycle_leaves_a_block_out(
    f: Function,
    ns: Seq<char>,
    return_target: Seq<char>,
    path: Seq<int>,
)
    requires
        distinct_names(f),
        is_cycle(f, ns, return_target, path),
    ensures
        is_cyclic(f, ns, return_target),
{
    let order = topological_order(f, ns, return_target);
    lemma_topological_order(f, ns, return_target);
    if !is_cyclic(f, ns, return_target) {
        let names = node_names(f, ns);
        assert forall|k: int| 0 <= k < order.len() implies names.contains(#[trigger] order[k]) by {
            assert(is_placed(f, ns, return_target, order, k));
            let j = choose|j: int|
                0 <= j < f.blocks.len() && #[trigger] node_name(f, j, ns) == order[k] && all_in(
                    backward_targets(f, j, ns, return_target),
                    order.subrange(0, k),
                );
            assert(names[j] == order[k]);
        }
        lemma_pigeonhole(order, names);
        assert forall|j: int| 0 <= j < f.blocks.len() implies order.contains(
            #[trigger] node_name(f, j, ns),
        ) by {
            assert(names[j] == node_name(f, j, ns));
        }
        let at = lemma_walk_rises(f, ns, return_target, order, path, path.len() - 1);
        assert(order[at.0] == order[at.1]);
    }
}

/// A block that the topological order leaves out has a predecessor that
/// it leaves out.
proof fn lemma_left_out_predecessor(
    f: Function,
    ns: Seq<char>,
    return_target: Seq<char>,
    j: int,
) -> (a: int)
    requires
        left_out(f, ns, topological_order(f, ns, return_target), j),
    ensures
        left_out(f, ns, topological_order(f, ns, return_target), a),
        has_edge(f, ns, return_target, a, j),
{
    let order = topological_order(f, ns, return_target);
    lemma_topological_order(f, ns, return_target);
    assert(!ready(f, ns, return_target, j, order));
    let predecessors = backward_targets(f, j, ns, return_target);
    let k = choose|k: int| 0 <= k < predecessors.len() && !order.contains(predecessors[k]);
    let x = predecessors[k];
    assert(predecessors.contains(x));
    lemma_predecessors(f, ns, return_target, j, x);
    choose|a: int| x == #[trigger] node_name(f, a, ns) && has_edge(f, ns, return_target, a, j)
}

/// A walk of `steps` edges, against their direction, from a block that
/// the topological order leaves out, over such blocks alone. It ends at
/// the first item.
proof fn lemma_walk_back(
    f: Function,
    ns: Seq<char>,
    return_target: Seq<char>,
    j: int,
    steps: nat,
) -> (walk: Seq<int>)
    requires
        left_out(f, ns, topological_order(f, ns, return_target), j),
    ensures
        walk.len() == steps + 1,
        forall|k: int| 0 <= k < walk.len() ==> 0 <= #[trigger] walk[k] < f.blocks.len(),
        forall|k: int|
            0 <= k < walk.len() - 1 ==> has_edge(
                f,
                ns,
                return_target,
                #[trigger] walk[k],
                walk[k + 1],
            ),
        left_out(f, ns, topological_order(f, ns, return_target), walk.first()),
    decreases steps,
{
    if steps == 0 {
        seq![j]
    } else {
        let shorter = lemma_walk_back(f, ns, return_target, j, (steps - 1) as nat);
        let a = lemma_left_out_predecessor(f, ns, return_target, shorter.first());
        let walk = seq![a] + shorter;
        assert forall|k: int| 0 <= k < walk.len() - 1 implies has_edge(
            f,
            ns,
            return_target,
            #[trigger] walk[k],
            walk[k + 1],
        ) by {
            if k > 0 {
                assert(walk[k] == shorter[k - 1]);
                assert(walk[k + 1] == shorter[k]);
            }
        }
        walk
    }
}

/// A list of more than `n` numbers below `n` holds one of them twice.
proof fn lemma_repetition(s: Seq<int>, n: int) -> (at: (int, int))
    requires
        forall|k: int| 0 <= k < s.len() ==> 0 <= #[trigger] s[k] < n,
        s.len() > n >= 0,
    ensures
        0 <= at.0 < at.1 < s.len(),
        s[at.0] == s[at.1],
{
    if s.no_duplicates() {
        s.unique_seq_to_set();
        lemma_int_range(0, n);
        assert(s.to_set().subset_of(set_int_range(0, n))) by {
            assert forall|x: int| s.to_set().contains(x) implies set_int_range(0, n).contains(
                x,
            ) by {
                let k = choose|k: int| 0 <= k < s.len() && s[k] == x;
                assert(0 <= s[k] < n);
            }
        }
        lemma_len_subset(s.to_set(), set_int_range(0, n));
        assert(false);
    }
    let (a, b) = choose|a: int, b: int|
        0 <= a < s.len() && 0 <= b < s.len() && a != b && s[a] == s[b];
    if a < b {
        (a, b)
    } else {
        (b, a)
    }
}

/// Where the topological order leaves a block out, the graph has a cycle.
pub proof fn lemma_block_left_out_is_behind_a_cycle(
    f: Function,
    ns: Seq<char>,
    return_target: Seq<char>,
)
    requires
        distinct_names(f),
        is_cyclic(f, ns, return_target),
    ensures
        has_cycle(f, ns, return_target),
{
    let order = topological_order(f, ns, return_target);
    let names = node_names(f, ns);
    lemma_topological_order(f, ns, return_target);
    if forall|j: int| 0 <= j < f.blocks.len() ==> order.contains(#[trigger] node_name(f, j, ns)) {
        assert(names.no_duplicates()) by {
            assert forall|a: int, b: int|
                0 <= a < names.len() && 0 <= b < names.len() && a != b implies names[a]
                != names[b] by {
                if names[a] == names[b] {
                    lemma_distinct_nodes(f, ns, a, b);
                }
            }
        }
        assert forall|k: int| 0 <= k < names.len() implies order.contains(#[trigger] names[k]) by {
            assert(names[k] == node_name(f, k, ns));
        }
        lemma_pigeonhole(names, order);
    }
    let j = choose|j: int| 0 <= j < f.blocks.len() && !order.contains(#[trigger] node_name(f, j, ns));
    let walk = lemma_walk_back(f, ns, return_target, j, f.blocks.len() as nat);
    let at = lemma_repetition(walk, f.blocks.len() as int);
    let path = walk.subrange(at.0, at.1 + 1);
    assert forall|i: int| 0 <= i < path.len() - 1 implies has_edge(
        f,
        ns,
        return_target,
        #[trigger] path[i],
        path[i + 1],
    ) by {
        assert(path[i] == walk[at.0 + i]);
        assert(path[i + 1] == walk[at.0 + i + 1]);
    }
    assert(is_cycle(f, ns, return_target, path));
}

/// Where the blocks of a function have names of their own, the
/// topological order leaves a block out exactly where the graph of the
/// function has a cycle.
pub proof fn lemma_cyclic_means_cycle(f: Function, ns: Seq<char>, return_target: Seq<char>)
    requires
        distinct_names(f),
    ensures
        is_cyclic(f, ns, return_target) <==> has_cycle(f, ns, return_target),
{
    if is_cyclic(f, ns, return_target) {
        lemma_block_left_out_is_behind_a_cycle(f, ns, return_target);
    }
    if has_cycle(f, ns, return_target) {
        let path = choose|path: Seq<int>| is_cycle(f, ns, return_target, path);
        lemma_cycle_leaves_a_block_out(f, ns, return_target, path);
    }
}

/// Inlining keeps a graph without a cycle without one. Take a function
/// whose blocks have names of their own, and whose graph, in a namespace
/// in which no block bears the name of an end, has no cycle. Then the copy
/// that is inlined at a call has no cycle either; the encoder sorts all
/// its blocks; each block of the copy that returns leads to the node
/// behind the call and nowhere else; and no block of the copy bears the
/// name of that node or of the common end node.
pub proof fn lemma_inlined_copy_has_no_cycle(
    f: Function,
    ns: Seq<char>,
    return_target: Seq<char>,
    post_node: Seq<char>,
)
    requires
        distinct_names(f),
        keeps_ends_apart(f, ns, return_target),
        !has_cycle(f, ns, return_target),
    ensures
        !has_cycle(f, callee_namespace(post_node), post_node),
        !is_cyclic(f, callee_namespace(post_node), post_node),
        topological_order(f, callee_namespace(post_node), post_node).len() == f.blocks.len(),
        keeps_ends_apart(f, callee_namespace(post_node), post_node),
        forall|j: int|
            0 <= j < f.blocks.len() && (#[trigger] f.blocks[j]).has_terminator()
                && f.blocks[j].terminator().opcode == Opcode::Return ==> forward_targets(
                f,
                j,
                callee_namespace(post_node),
                post_node,
            ) == seq![post_node],
{
    let copy = callee_namespace(post_node);
    lemma_cyclic_means_cycle(f, ns, return_target);
    lemma_inlining_preserves_acyclicity(f, post_node, ns, return_target);
    lemma_cyclic_means_cycle(f, copy, post_node);
    lemma_acyclic_order_is_complete(f, copy, post_node);
    lemma_callee_namespace_keeps_ends_apart(f, post_node);
    assert forall|j: int|
        0 <= j < f.blocks.len() && (#[trigger] f.blocks[j]).has_terminator()
            && f.blocks[j].terminator().opcode == Opcode::Return implies forward_targets(
        f,
        j,
        copy,
        post_node,
    ) == seq![post_node] by {
        lemma_return_leads_behind_the_call(f, j, post_node);
    }
}

} // verus!
