//! The control flow graph of a function: its edges, forwards and backwards,
//! and its blocks in topological order.
//!
//! Nodes are named: a block by its namespace and its own name, the node that
//! returns lead to by the name the caller gives, the node that panics lead
//! to by `COMMON_END_NODE`.

use vstd::prelude::*;
use crate::ir::{BasicBlock, Function, Instruction, Opcode};
use crate::symbolic_execution::COMMON_END_NODE;
use crate::text::{concat_str, contains_string, push_string, push_unique, str_eq, unique, views};

verus! {

/// The edges of one node: the nodes on their other ends, none twice.
#[derive(Debug, PartialEq, Eq)]
pub struct NodeEdges {
    /// The node.
    pub node: String,
    /// The nodes that its edges lead to, or come from.
    pub targets: Vec<String>,
}

/// The edges of a graph, node by node.
pub type EdgeSet = Vec<NodeEdges>;

/// The name of the node for block `i` of `f` in namespace `ns`.
pub open spec fn node_name(f: Function, i: int, ns: Seq<char>) -> Seq<char> {
    ns + f.blocks[i].name@
}

/// The blocks named by the odd operands of a switch among its first `k`
/// operands: the default block and the block of each case.
pub open spec fn switch_targets(t: Instruction, ns: Seq<char>, k: int) -> Seq<Seq<char>>
    decreases k,
{
    if k <= 0 {
        seq![]
    } else if (k - 1) % 2 == 1 && t.has_block(k - 1) {
        switch_targets(t, ns, k - 1).push(ns + t.block(k - 1))
    } else {
        switch_targets(t, ns, k - 1)
    }
}

/// Whether the successors of a block are known: it ends in a return, an
/// `unreachable`, a switch, or a branch with one target or with a condition
/// and two targets.
pub open spec fn successors_known(b: BasicBlock) -> bool {
    b.has_terminator() && match b.terminator().opcode {
        Opcode::Return | Opcode::Unreachable | Opcode::Switch => true,
        Opcode::Br => (b.terminator().operands.len() == 1 && b.terminator().has_block(0)) || (
        b.terminator().operands.len() == 3 && b.terminator().has_block(1)
            && b.terminator().has_block(2)),
        _ => false,
    }
}

/// The nodes that the terminator of `b` leads to, in the order of its
/// operands; none where the successors of `b` are not known.
pub open spec fn successors(b: BasicBlock, ns: Seq<char>, return_target: Seq<char>) -> Seq<
    Seq<char>,
> {
    if !successors_known(b) {
        seq![]
    } else {
        let t = b.terminator();
        match t.opcode {
            Opcode::Return => seq![return_target],
            Opcode::Unreachable => seq![COMMON_END_NODE@],
            Opcode::Switch => switch_targets(t, ns, t.operands.len() as int),
            _ => if t.operands.len() == 1 {
                seq![ns + t.block(0)]
            } else {
                seq![ns + t.block(1), ns + t.block(2)]
            },
        }
    }
}

/// The nodes that block `i` of `f` has an edge to, none twice.
pub open spec fn forward_targets(
    f: Function,
    i: int,
    ns: Seq<char>,
    return_target: Seq<char>,
) -> Seq<Seq<char>> {
    unique(successors(f.blocks[i], ns, return_target))
}

/// The nodes among the first `k` blocks of `f` that have an edge to `node`.
pub open spec fn sources(
    f: Function,
    ns: Seq<char>,
    return_target: Seq<char>,
    node: Seq<char>,
    k: int,
) -> Seq<Seq<char>>
    decreases k,
{
    if k <= 0 {
        seq![]
    } else if forward_targets(f, k - 1, ns, return_target).contains(node) {
        sources(f, ns, return_target, node, k - 1).push(node_name(f, k - 1, ns))
    } else {
        sources(f, ns, return_target, node, k - 1)
    }
}

/// The nodes of `f` that have an edge to block `i` of `f`, none twice.
pub open spec fn backward_targets(
    f: Function,
    i: int,
    ns: Seq<char>,
    return_target: Seq<char>,
) -> Seq<Seq<char>> {
    unique(sources(f, ns, return_target, node_name(f, i, ns), f.blocks.len() as int))
}

/// Edges as contracts see them: for each node, its name and the names on the other ends.
pub type EdgesView = Seq<(Seq<char>, Seq<Seq<char>>)>;

/// The mathematical content of a set of edges.
pub open spec fn edges_view(edges: Seq<NodeEdges>) -> EdgesView {
    edges.map_values(|e: NodeEdges| (e.node@, views(e.targets@)))
}

/// The first entry of `edges`, at or after position `k`, that is for
/// `node`; the number of entries where there is none.
pub open spec fn entry_of(edges: EdgesView, node: Seq<char>, k: int) -> int
    decreases edges.len() - k,
{
    if k < 0 || k >= edges.len() {
        edges.len() as int
    } else if edges[k].0 == node {
        k
    } else {
        entry_of(edges, node, k + 1)
    }
}

/// The nodes on the other ends of the edges of `node`; none where `edges` has no entry for it.
pub open spec fn targets_of(edges: EdgesView, node: Seq<char>) -> Seq<Seq<char>> {
    if entry_of(edges, node, 0) < edges.len() {
        edges[entry_of(edges, node, 0)].1
    } else {
        seq![]
    }
}

/// The forward edges of `f`.
pub open spec fn forward_edges_of(f: Function, ns: Seq<char>, return_target: Seq<char>) -> EdgesView {
    Seq::new(
        f.blocks.len() as nat,
        |i: int| (node_name(f, i, ns), forward_targets(f, i, ns, return_target)),
    )
}

/// The backward edges of `f`.
pub open spec fn backward_edges_of(f: Function, ns: Seq<char>, return_target: Seq<char>) -> EdgesView {
    Seq::new(
        f.blocks.len() as nat,
        |i: int| (node_name(f, i, ns), backward_targets(f, i, ns, return_target)),
    )
}

/// Whether `edges` holds the forward edges of `f`: one entry for each block, in order.
pub open spec fn is_forward_edges(
    edges: Seq<NodeEdges>,
    f: Function,
    ns: Seq<char>,
    return_target: Seq<char>,
) -> bool {
    &&& edges.len() == f.blocks.len()
    &&& forall|i: int|
        0 <= i < edges.len() ==> (#[trigger] edges[i]).node@ == node_name(f, i, ns) && views(
            edges[i].targets@,
        ) == forward_targets(f, i, ns, return_target)
}

/// Whether `edges` holds the backward edges of `f`: one entry for each block, in order.
pub open spec fn is_backward_edges(
    edges: Seq<NodeEdges>,
    f: Function,
    ns: Seq<char>,
    return_target: Seq<char>,
) -> bool {
    &&& edges.len() == f.blocks.len()
    &&& forall|i: int|
        0 <= i < edges.len() ==> (#[trigger] edges[i]).node@ == node_name(f, i, ns) && views(
            edges[i].targets@,
        ) == backward_targets(f, i, ns, return_target)
}

/// Whether the successors of `b` are known.
pub fn has_known_successors(b: &BasicBlock) -> (r: bool)
    ensures
        r == successors_known(*b),
{
    match b.get_terminator() {
        None => false,
        Some(t) => match t.opcode {
            Opcode::Return | Opcode::Unreachable | Opcode::Switch => true,
            Opcode::Br => (t.operands.len() == 1 && t.block_operand(0).is_some()) || (
            t.operands.len() == 3 && t.block_operand(1).is_some() && t.block_operand(
                2,
            ).is_some()),
            _ => false,
        },
    }
}

/// The nodes that `b` has an edge to, none twice.
pub fn block_successors(b: &BasicBlock, namespace: &str, return_target_node: &str) -> (r: Vec<
    String,
>)
    ensures
        views(r@) == unique(successors(*b, namespace@, return_target_node@)),
{
    let mut targets: Vec<String> = Vec::new();
    assert(views(targets@) =~= unique(seq![]));
    if !has_known_successors(b) {
        return targets;
    }
    let t = b.get_terminator().unwrap();
    let ghost ns = namespace@;
    match t.opcode {
        Opcode::Return => {
            push_unique(&mut targets, return_target_node.to_owned());
            assert(seq![return_target_node@].drop_last() =~= seq![]);
            assert(views(targets@) == unique(seq![return_target_node@]));
        },
        Opcode::Unreachable => {
            push_unique(&mut targets, COMMON_END_NODE.to_owned());
            assert(seq![COMMON_END_NODE@].drop_last() =~= seq![]);
            assert(views(targets@) == unique(seq![COMMON_END_NODE@]));
        },
        Opcode::Switch => {
            let mut k: usize = 0;
            while k < t.operands.len()
                invariant
                    k <= t.operands.len(),
                    ns == namespace@,
                    views(targets@) == unique(switch_targets(*t, ns, k as int)),
                decreases t.operands.len() - k,
            {
                if k % 2 == 1 {
                    if let Some(name) = t.block_operand(k) {
                        let ghost before = switch_targets(*t, ns, k as int);
                        push_unique(&mut targets, concat_str(namespace, name.as_str()));
                        assert(before.push(ns + t.block(k as int)).drop_last() =~= before);
                    }
                }
                k = k + 1;
            }
        },
        _ => {
            if t.operands.len() == 1 {
                let name = t.block_operand(0).unwrap();
                push_unique(&mut targets, concat_str(namespace, name.as_str()));
                assert(seq![ns + t.block(0)].drop_last() =~= seq![]);
                assert(views(targets@) == unique(seq![ns + t.block(0)]));
            } else {
                let first = t.block_operand(1).unwrap();
                let second = t.block_operand(2).unwrap();
                push_unique(&mut targets, concat_str(namespace, first.as_str()));
                push_unique(&mut targets, concat_str(namespace, second.as_str()));
                let ghost both = seq![ns + t.block(1), ns + t.block(2)];
                assert(both.drop_last() =~= seq![ns + t.block(1)]);
                assert(both.drop_last().drop_last() =~= seq![]);
                assert(unique(both.drop_last()) =~= seq![ns + t.block(1)]);
                assert(views(targets@) == unique(both));
            }
        },
    }
    targets
}

/// The forward edges of `function`: for each block, the nodes that its
/// terminator leads to. A return leads to `return_target_node`, an
/// `unreachable` to `COMMON_END_NODE`.
pub fn get_forward_edges(function: &Function, namespace: &str, return_target_node: &str) -> (edges:
    EdgeSet)
    ensures
        is_forward_edges(edges@, *function, namespace@, return_target_node@),
        edges_view(edges@) == forward_edges_of(*function, namespace@, return_target_node@),
{
    let mut edges: EdgeSet = Vec::new();
    let mut i: usize = 0;
    while i < function.blocks.len()
        invariant
            i <= function.blocks.len(),
            edges.len() == i,
            forall|k: int|
                0 <= k < i ==> (#[trigger] edges[k]).node@ == node_name(*function, k, namespace@)
                    && views(edges[k].targets@) == forward_targets(
                    *function,
                    k,
                    namespace@,
                    return_target_node@,
                ),
        decreases function.blocks.len() - i,
    {
        let b = &function.blocks[i];
        let node = concat_str(namespace, b.name.as_str());
        let targets = block_successors(b, namespace, return_target_node);
        edges.push(NodeEdges { node, targets });
        i = i + 1;
    }
    assert(edges_view(edges@) =~= forward_edges_of(
        *function,
        namespace@,
        return_target_node@,
    ));
    edges
}

/// The backward edges of `function`: for each block, the blocks of
/// `function` that have an edge to it.
pub fn get_backward_edges(function: &Function, namespace: &str, return_target_node: &str) -> (edges:
    EdgeSet)
    ensures
        is_backward_edges(edges@, *function, namespace@, return_target_node@),
        edges_view(edges@) == backward_edges_of(*function, namespace@, return_target_node@),
{
    let forward = get_forward_edges(function, namespace, return_target_node);
    let n = function.blocks.len();
    let ghost ns = namespace@;
    let ghost ret = return_target_node@;
    let mut edges: EdgeSet = Vec::new();
    let mut i: usize = 0;
    while i < n
        invariant
            i <= n,
            n == function.blocks.len(),
            ns == namespace@,
            ret == return_target_node@,
            edges.len() == i,
            is_forward_edges(forward@, *function, ns, ret),
            forall|k: int|
                0 <= k < i ==> (#[trigger] edges[k]).node@ == node_name(*function, k, ns) && views(
                    edges[k].targets@,
                ) == backward_targets(*function, k, ns, ret),
        decreases n - i,
    {
        let node = concat_str(namespace, function.blocks[i].name.as_str());
        let mut from: Vec<String> = Vec::new();
        assert(views(from@) =~= unique(seq![]));
        let mut j: usize = 0;
        while j < n
            invariant
                j <= n,
                n == function.blocks.len(),
                is_forward_edges(forward@, *function, ns, ret),
                node@ == node_name(*function, i as int, ns),
                views(from@) == unique(sources(*function, ns, ret, node@, j as int)),
            decreases n - j,
        {
            if contains_string(&forward[j].targets, node.as_str()) {
                let ghost before = sources(*function, ns, ret, node@, j as int);
                push_unique(&mut from, forward[j].node.clone());
                assert(before.push(node_name(*function, j as int, ns)).drop_last() =~= before);
            }
            j = j + 1;
        }
        edges.push(NodeEdges { node, targets: from });
        i = i + 1;
    }
    assert(edges_view(edges@) =~= backward_edges_of(*function, ns, ret));
    edges
}

/// Finds the entry of `edges` for `node`.
pub fn find_entry(edges: &EdgeSet, node: &str) -> (r: Option<usize>)
    ensures
        match r {
            Some(i) => i < edges.len() && entry_of(edges_view(edges@), node@, 0) == i && views(
                edges[i as int].targets@,
            ) == targets_of(edges_view(edges@), node@),
            None => entry_of(edges_view(edges@), node@, 0) >= edges.len() && targets_of(
                edges_view(edges@),
                node@,
            ) == Seq::<Seq<char>>::empty(),
        },
{
    let mut i: usize = 0;
    while i < edges.len()
        invariant
            i <= edges.len(),
            entry_of(edges_view(edges@), node@, 0) == entry_of(edges_view(edges@), node@, i as int),
        decreases edges.len() - i,
    {
        if str_eq(edges[i].node.as_str(), node) {
            return Some(i);
        }
        i = i + 1;
    }
    None
}

/// Whether `set` holds every item of `items`.
pub open spec fn all_in(items: Seq<Seq<char>>, set: Seq<Seq<char>>) -> bool {
    forall|k: int| 0 <= k < items.len() ==> set.contains(#[trigger] items[k])
}

/// Whether block `j` of `f` can follow `sorted`: it is not in `sorted`, and
/// every block with an edge to it is.
pub open spec fn ready(
    f: Function,
    ns: Seq<char>,
    return_target: Seq<char>,
    j: int,
    sorted: Seq<Seq<char>>,
) -> bool {
    !sorted.contains(node_name(f, j, ns)) && all_in(
        backward_targets(f, j, ns, return_target),
        sorted,
    )
}

/// `sorted` after one sweep over the blocks of `f` from block `j` on: each
/// block that is ready when the sweep comes to it is appended.
pub open spec fn sweep(
    f: Function,
    ns: Seq<char>,
    return_target: Seq<char>,
    sorted: Seq<Seq<char>>,
    j: int,
) -> Seq<Seq<char>>
    decreases f.blocks.len() - j,
{
    if j < 0 || j >= f.blocks.len() {
        sorted
    } else if ready(f, ns, return_target, j, sorted) {
        sweep(f, ns, return_target, sorted.push(node_name(f, j, ns)), j + 1)
    } else {
        sweep(f, ns, return_target, sorted, j + 1)
    }
}

/// `sorted` after at most `fuel` sweeps, the last of which appends nothing.
pub open spec fn sweeps(
    f: Function,
    ns: Seq<char>,
    return_target: Seq<char>,
    sorted: Seq<Seq<char>>,
    fuel: nat,
) -> Seq<Seq<char>>
    decreases fuel,
{
    if fuel == 0 || sweep(f, ns, return_target, sorted, 0).len() == sorted.len() {
        sorted
    } else {
        sweeps(f, ns, return_target, sweep(f, ns, return_target, sorted, 0), (fuel - 1) as nat)
    }
}

/// The blocks of `f` in topological order, as far as they can be ordered:
/// sweeps over the blocks, each appending the blocks whose predecessors are
/// all in place, until a sweep appends nothing.
pub open spec fn topological_order(f: Function, ns: Seq<char>, return_target: Seq<char>) -> Seq<
    Seq<char>,
> {
    sweeps(f, ns, return_target, seq![], f.blocks.len() as nat)
}

/// Whether the graph of `f` counts as having a cycle: the topological
/// order leaves a block out. Where the blocks have names of their own,
/// that is so exactly where a walk along edges comes back to its start,
/// as the module `cycles` shows.
pub open spec fn is_cyclic(f: Function, ns: Seq<char>, return_target: Seq<char>) -> bool {
    topological_order(f, ns, return_target).len() < f.blocks.len()
}

/// A sweep only appends: what it starts from is a prefix of what it gives.
pub proof fn lemma_sweep_extends(
    f: Function,
    ns: Seq<char>,
    return_target: Seq<char>,
    sorted: Seq<Seq<char>>,
    j: int,
)
    ensures
        sorted.is_prefix_of(sweep(f, ns, return_target, sorted, j)),
    decreases f.blocks.len() - j,
{
    if 0 <= j < f.blocks.len() {
        if ready(f, ns, return_target, j, sorted) {
            lemma_sweep_extends(f, ns, return_target, sorted.push(node_name(f, j, ns)), j + 1);
        } else {
            lemma_sweep_extends(f, ns, return_target, sorted, j + 1);
        }
    }
}

/// Whether `sorted` holds every string of `items`.
pub fn holds_all(items: &Vec<String>, sorted: &Vec<String>) -> (r: bool)
    ensures
        r == all_in(views(items@), views(sorted@)),
{
    let mut k: usize = 0;
    while k < items.len()
        invariant
            k <= items.len(),
            forall|m: int| 0 <= m < k ==> views(sorted@).contains(#[trigger] views(items@)[m]),
        decreases items.len() - k,
    {
        if !contains_string(sorted, items[k].as_str()) {
            assert(!views(sorted@).contains(views(items@)[k as int]));
            return false;
        }
        k = k + 1;
    }
    true
}

/// The blocks of `function` in topological order: each block after all the
/// blocks that have an edge to it. Where the graph has a cycle, the blocks
/// on it and those behind it are left out.
pub fn forward_topological_sort(
    function: &Function,
    namespace: &str,
    return_target_node: &str,
) -> (sorted: Vec<String>)
    ensures
        views(sorted@) == topological_order(*function, namespace@, return_target_node@),
{
    let backward = get_backward_edges(function, namespace, return_target_node);
    let n = function.blocks.len();
    let ghost ns = namespace@;
    let ghost ret = return_target_node@;
    let mut sorted: Vec<String> = Vec::new();
    assert(views(sorted@) =~= seq![]);
    let mut fuel: usize = n;
    while fuel > 0
        invariant
            n == function.blocks.len(),
            ns == namespace@,
            ret == return_target_node@,
            is_backward_edges(backward@, *function, ns, ret),
            topological_order(*function, ns, ret) == sweeps(
                *function,
                ns,
                ret,
                views(sorted@),
                fuel as nat,
            ),
        decreases fuel,
    {
        let ghost start = views(sorted@);
        let before = sorted.len();
        assert(start.len() == before);
        let mut j: usize = 0;
        while j < n
            invariant
                j <= n,
                n == function.blocks.len(),
                is_backward_edges(backward@, *function, ns, ret),
                sweep(*function, ns, ret, start, 0) == sweep(
                    *function,
                    ns,
                    ret,
                    views(sorted@),
                    j as int,
                ),
            decreases n - j,
        {
            if !contains_string(&sorted, backward[j].node.as_str()) && holds_all(
                &backward[j].targets,
                &sorted,
            ) {
                push_string(&mut sorted, backward[j].node.clone());
            }
            j = j + 1;
        }
        assert(views(sorted@).len() == sorted.len());
        assert(sweep(*function, ns, ret, start, 0) == views(sorted@));
        if sorted.len() == before {
            proof {
                lemma_sweep_extends(*function, ns, ret, start, 0);
                assert(views(sorted@) =~= start);
                assert(sweeps(*function, ns, ret, start, fuel as nat) == start);
            }
            return sorted;
        }
        fuel = fuel - 1;
    }
    sorted
}

/// The blocks of `function` in reverse topological order: each block before
/// all the blocks that have an edge to it.
pub fn backward_topological_sort(
    function: &Function,
    namespace: &str,
    return_target_node: &str,
) -> (sorted: Vec<String>)
    ensures
        views(sorted@) == topological_order(
            *function,
            namespace@,
            return_target_node@,
        ).reverse(),
{
    let forward = forward_topological_sort(function, namespace, return_target_node);
    let mut sorted: Vec<String> = Vec::new();
    let mut i: usize = forward.len();
    while i > 0
        invariant
            i <= forward.len(),
            sorted.len() == forward.len() - i,
            forall|k: int|
                0 <= k < sorted.len() ==> #[trigger] sorted[k]@ == forward[forward.len() - 1 - k]@,
        decreases i,
    {
        sorted.push(forward[i - 1].clone());
        i = i - 1;
    }
    assert(views(sorted@) =~= views(forward@).reverse());
    sorted
}

/// The names of the nodes of the blocks of `f`, in the order of the blocks.
pub open spec fn node_names(f: Function, ns: Seq<char>) -> Seq<Seq<char>> {
    Seq::new(f.blocks.len() as nat, |j: int| node_name(f, j, ns))
}

/// Whether node `k` of `sorted` is a block of `f` that stands behind all
/// the blocks that have an edge to it.
pub open spec fn is_placed(
    f: Function,
    ns: Seq<char>,
    return_target: Seq<char>,
    sorted: Seq<Seq<char>>,
    k: int,
) -> bool {
    exists|j: int|
        0 <= j < f.blocks.len() && #[trigger] node_name(f, j, ns) == sorted[k] && all_in(
            backward_targets(f, j, ns, return_target),
            sorted.subrange(0, k),
        )
}

/// Whether each node of `sorted` is a block of `f` that stands behind all
/// the blocks that have an edge to it.
pub open spec fn follows_predecessors(
    f: Function,
    ns: Seq<char>,
    return_target: Seq<char>,
    sorted: Seq<Seq<char>>,
) -> bool {
    forall|k: int|
        0 <= k < sorted.len() ==> #[trigger] is_placed(f, ns, return_target, sorted, k)
}

/// Whether `sorted` is a topological order of some of the blocks of `f`:
/// no node twice, each behind its predecessors.
pub open spec fn is_topological(
    f: Function,
    ns: Seq<char>,
    return_target: Seq<char>,
    sorted: Seq<Seq<char>>,
) -> bool {
    sorted.no_duplicates() && follows_predecessors(f, ns, return_target, sorted)
}

/// Whether no block of `f` can follow `sorted`: each block is in `sorted`
/// or has a predecessor that is not.
pub open spec fn is_maximal(
    f: Function,
    ns: Seq<char>,
    return_target: Seq<char>,
    sorted: Seq<Seq<char>>,
) -> bool {
    forall|j: int| 0 <= j < f.blocks.len() ==> !#[trigger] ready(f, ns, return_target, j, sorted)
}

/// A list without repetition, drawn from `names`, is no longer than
/// `names`; and where it is as long, it holds every one of `names`.
pub proof fn lemma_pigeonhole(sorted: Seq<Seq<char>>, names: Seq<Seq<char>>)
    requires
        sorted.no_duplicates(),
        forall|k: int| 0 <= k < sorted.len() ==> names.contains(#[trigger] sorted[k]),
    ensures
        sorted.len() <= names.len(),
        sorted.len() == names.len() ==> forall|j: int|
            0 <= j < names.len() ==> sorted.contains(#[trigger] names[j]),
{
    sorted.unique_seq_to_set();
    names.lemma_cardinality_of_set();
    vstd::seq_lib::seq_to_set_is_finite(sorted);
    vstd::seq_lib::seq_to_set_is_finite(names);
    assert(sorted.to_set().subset_of(names.to_set())) by {
        assert forall|x: Seq<char>| sorted.to_set().contains(x) implies names.to_set().contains(
            x,
        ) by {
            let k = choose|k: int| 0 <= k < sorted.len() && sorted[k] == x;
            assert(names.contains(sorted[k]));
        }
    }
    vstd::set_lib::lemma_len_subset(sorted.to_set(), names.to_set());
    if sorted.len() == names.len() {
        vstd::set_lib::lemma_subset_equality(sorted.to_set(), names.to_set());
        assert forall|j: int| 0 <= j < names.len() implies sorted.contains(
            #[trigger] names[j],
        ) by {
            assert(names.contains(names[j]));
            assert(names.to_set().contains(names[j]));
            assert(sorted.to_set().contains(names[j]));
        }
    }
}

/// What is drawn from the nodes of `f` without repetition is no longer
/// than `f` has blocks.
pub proof fn lemma_topological_is_short(
    f: Function,
    ns: Seq<char>,
    return_target: Seq<char>,
    sorted: Seq<Seq<char>>,
)
    requires
        is_topological(f, ns, return_target, sorted),
    ensures
        sorted.len() <= f.blocks.len(),
        sorted.len() == f.blocks.len() ==> forall|j: int|
            0 <= j < f.blocks.len() ==> sorted.contains(#[trigger] node_name(f, j, ns)),
{
    let names = node_names(f, ns);
    assert forall|k: int| 0 <= k < sorted.len() implies names.contains(#[trigger] sorted[k]) by {
        assert(is_placed(f, ns, return_target, sorted, k));
        let j = choose|j: int|
            0 <= j < f.blocks.len() && #[trigger] node_name(f, j, ns) == sorted[k] && all_in(
                backward_targets(f, j, ns, return_target),
                sorted.subrange(0, k),
            );
        assert(names[j] == sorted[k]);
    }
    lemma_pigeonhole(sorted, names);
    if sorted.len() == f.blocks.len() {
        assert forall|j: int| 0 <= j < f.blocks.len() implies sorted.contains(
            #[trigger] node_name(f, j, ns),
        ) by {
            assert(names[j] == node_name(f, j, ns));
        }
    }
}

/// A sweep keeps a topological order topological.
pub proof fn lemma_sweep_is_topological(
    f: Function,
    ns: Seq<char>,
    return_target: Seq<char>,
    sorted: Seq<Seq<char>>,
    j: int,
)
    requires
        is_topological(f, ns, return_target, sorted),
        0 <= j,
    ensures
        is_topological(f, ns, return_target, sweep(f, ns, return_target, sorted, j)),
    decreases f.blocks.len() - j,
{
    if j < f.blocks.len() {
        if ready(f, ns, return_target, j, sorted) {
            let name = node_name(f, j, ns);
            let next = sorted.push(name);
            assert(next.no_duplicates()) by {
                assert forall|a: int, b: int|
                    0 <= a < next.len() && 0 <= b < next.len() && a != b implies next[a]
                    != next[b] by {
                    if a == sorted.len() {
                        assert(sorted[b] == next[b]);
                    } else if b == sorted.len() {
                        assert(sorted[a] == next[a]);
                    }
                }
            }
            assert forall|k: int| 0 <= k < next.len() implies #[trigger] is_placed(
                f,
                ns,
                return_target,
                next,
                k,
            ) by {
                if k < sorted.len() {
                    assert(is_placed(f, ns, return_target, sorted, k));
                    let i = choose|i: int|
                        0 <= i < f.blocks.len() && #[trigger] node_name(f, i, ns) == sorted[k]
                            && all_in(
                            backward_targets(f, i, ns, return_target),
                            sorted.subrange(0, k),
                        );
                    assert(next.subrange(0, k) =~= sorted.subrange(0, k));
                    assert(node_name(f, i, ns) == next[k]);
                } else {
                    assert(next.subrange(0, k) =~= sorted);
                    assert(node_name(f, j, ns) == next[k]);
                }
            }
            lemma_sweep_is_topological(f, ns, return_target, next, j + 1);
        } else {
            lemma_sweep_is_topological(f, ns, return_target, sorted, j + 1);
        }
    }
}

/// A sweep that appends nothing shows that no block from `j` on is ready.
pub proof fn lemma_idle_sweep(
    f: Function,
    ns: Seq<char>,
    return_target: Seq<char>,
    sorted: Seq<Seq<char>>,
    j: int,
)
    requires
        0 <= j,
        sweep(f, ns, return_target, sorted, j).len() == sorted.len(),
    ensures
        forall|i: int|
            j <= i < f.blocks.len() ==> !#[trigger] ready(f, ns, return_target, i, sorted),
    decreases f.blocks.len() - j,
{
    if j < f.blocks.len() {
        if ready(f, ns, return_target, j, sorted) {
            lemma_sweep_extends(f, ns, return_target, sorted.push(node_name(f, j, ns)), j + 1);
        } else {
            lemma_idle_sweep(f, ns, return_target, sorted, j + 1);
        }
    }
}

/// Sweeping until nothing is appended, with fuel for every block that is
/// not yet sorted, gives a topological order that no block can follow.
pub proof fn lemma_sweeps(
    f: Function,
    ns: Seq<char>,
    return_target: Seq<char>,
    sorted: Seq<Seq<char>>,
    fuel: nat,
)
    requires
        is_topological(f, ns, return_target, sorted),
        sorted.len() + fuel >= f.blocks.len(),
    ensures
        is_topological(f, ns, return_target, sweeps(f, ns, return_target, sorted, fuel)),
        is_maximal(f, ns, return_target, sweeps(f, ns, return_target, sorted, fuel)),
    decreases fuel,
{
    let next = sweep(f, ns, return_target, sorted, 0);
    lemma_sweep_is_topological(f, ns, return_target, sorted, 0);
    lemma_sweep_extends(f, ns, return_target, sorted, 0);
    lemma_topological_is_short(f, ns, return_target, next);
    if fuel == 0 || next.len() == sorted.len() {
        assert(next.len() == sorted.len());
        lemma_idle_sweep(f, ns, return_target, sorted, 0);
    } else {
        lemma_sweeps(f, ns, return_target, next, (fuel - 1) as nat);
    }
}

/// The topological order of the blocks of a function holds no node twice
/// and each node behind its predecessors, and leaves out only blocks that
/// have a predecessor that is left out: the blocks on a cycle and those
/// behind one.
pub proof fn lemma_topological_order(f: Function, ns: Seq<char>, return_target: Seq<char>)
    ensures
        is_topological(f, ns, return_target, topological_order(f, ns, return_target)),
        is_maximal(f, ns, return_target, topological_order(f, ns, return_target)),
        topological_order(f, ns, return_target).len() <= f.blocks.len(),
{
    let none = Seq::<Seq<char>>::empty();
    assert(is_topological(f, ns, return_target, none));
    lemma_sweeps(f, ns, return_target, none, f.blocks.len() as nat);
    lemma_topological_is_short(f, ns, return_target, topological_order(f, ns, return_target));
}

/// Where the graph of a function has no cycle, the topological order holds
/// every block, once.
pub proof fn lemma_acyclic_order_is_complete(f: Function, ns: Seq<char>, return_target: Seq<char>)
    requires
        !is_cyclic(f, ns, return_target),
    ensures
        topological_order(f, ns, return_target).len() == f.blocks.len(),
        topological_order(f, ns, return_target).no_duplicates(),
        forall|j: int|
            0 <= j < f.blocks.len() ==> topological_order(f, ns, return_target).contains(
                #[trigger] node_name(f, j, ns),
            ),
{
    lemma_topological_order(f, ns, return_target);
    lemma_topological_is_short(f, ns, return_target, topological_order(f, ns, return_target));
}

} // verus!
