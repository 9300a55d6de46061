//! The encoding of one function: a predicate for each of its blocks.

use vstd::prelude::*;
use crate::codegen::codegen_basic_block::{
    codegen_basic_block, defines_block, encode_block, lemma_block_is_defined_last,
};
use crate::codegen::codegen_call::depth_left;
use crate::codegen::encoding_twice::lemma_function_keeps_consistency;
use crate::control_flow_graph::{
    all_in, backward_edges_of, backward_targets, backward_topological_sort, edges_view,
    forward_edges_of, get_backward_edges, get_forward_edges, has_known_successors, is_cyclic,
    is_placed, lemma_acyclic_order_is_complete, lemma_topological_order, node_name,
    successors_known, topological_order, EdgesView,
};
use crate::ir::{Function, Module};
use crate::query::{Query, QueryState, Warning};
use crate::text::{str_eq, views};
use crate::utils::var_utils::is_consistent;

verus! {

/// Whether the function on top of the call stack is on it a second time.
pub open spec fn is_recursive(stack: Seq<Seq<char>>) -> bool {
    stack.len() >= 2 && stack.drop_last().contains(stack.last())
}

/// `st` with a warning for each of the first `k` blocks of `f` whose
/// successors are not known.
pub open spec fn terminator_warnings(st: QueryState, f: Function, k: int) -> QueryState
    decreases k,
{
    if k <= 0 {
        st
    } else if successors_known(f.blocks[k - 1]) {
        terminator_warnings(st, f, k - 1)
    } else {
        terminator_warnings(st, f, k - 1).warning(Warning::UnsupportedTerminator)
    }
}

/// The query after the first `k` nodes of `order` were encoded, in that order.
pub open spec fn encode_blocks(
    m: Module,
    f: Function,
    st: QueryState,
    forward: EdgesView,
    backward: EdgesView,
    ns: Seq<char>,
    stack: Seq<Seq<char>>,
    return_register: Seq<char>,
    order: Seq<Seq<char>>,
    k: int,
) -> QueryState
    decreases depth_left(m, stack), 5nat, k,
{
    if k <= 0 {
        st
    } else {
        encode_block(
            m,
            f,
            encode_blocks(m, f, st, forward, backward, ns, stack, return_register, order, k - 1),
            order[k - 1],
            forward,
            backward,
            ns,
            stack,
            return_register,
        )
    }
}

/// The query after the function `f` was encoded in the namespace `ns`.
/// A function that is on the call stack a second time leaves a warning and
/// nothing else, and so does one whose graph has a cycle. Otherwise each
/// block whose successors are not known leaves a warning, and the blocks
/// are encoded in reverse topological order, so that the predicate of each
/// successor is defined before it is used.
pub open spec fn encode_function(
    m: Module,
    f: Function,
    st: QueryState,
    ns: Seq<char>,
    stack: Seq<Seq<char>>,
    return_target: Seq<char>,
    return_register: Seq<char>,
) -> QueryState
    decreases depth_left(m, stack), 6nat, 0nat,
{
    if is_recursive(stack) {
        st.warning(Warning::RecursiveCall)
    } else if is_cyclic(f, ns, return_target) {
        st.warning(Warning::CyclicCfg)
    } else {
        encode_blocks(
            m,
            f,
            terminator_warnings(st, f, f.blocks.len() as int),
            forward_edges_of(f, ns, return_target),
            backward_edges_of(f, ns, return_target),
            ns,
            stack,
            return_register,
            topological_order(f, ns, return_target).reverse(),
            topological_order(f, ns, return_target).len() as int,
        )
    }
}

/// Whether the last string of `stack` occurs in it before.
pub fn repeats_last(stack: &Vec<String>) -> (r: bool)
    ensures
        r == is_recursive(views(stack@)),
{
    let n = stack.len();
    if n < 2 {
        return false;
    }
    let ghost all = views(stack@);
    let mut k: usize = 0;
    while k < n - 1
        invariant
            k <= n - 1,
            n == stack.len(),
            n >= 2,
            all == views(stack@),
            forall|j: int| 0 <= j < k ==> all.drop_last()[j] != all.last(),
        decreases n - 1 - k,
    {
        if str_eq(stack[k].as_str(), stack[n - 1].as_str()) {
            assert(all.drop_last()[k as int] == all.last());
            return true;
        }
        k = k + 1;
    }
    false
}

/// Encodes `function` in `namespace`: asserts the definition of the
/// predicate of each of its blocks. Returns lead to `return_target_node`,
/// and the returned value goes to `return_register`. `call_stack` holds the
/// symbols of the functions that are being inlined, this one last.
pub fn codegen_function(
    module: &Module,
    function: &Function,
    solver: &mut Query,
    namespace: &str,
    call_stack: &Vec<String>,
    return_target_node: &str,
    return_register: &str,
)
    ensures
        final(solver)@ == encode_function(
            *module,
            *function,
            old(solver)@,
            namespace@,
            views(call_stack@),
            return_target_node@,
            return_register@,
        ),
        is_consistent(old(solver)@) ==> is_consistent(final(solver)@),
    decreases depth_left(*module, views(call_stack@)), 6nat, 0nat,
{
    proof {
        if is_consistent(old(solver)@) {
            lemma_function_keeps_consistency(
                *module,
                *function,
                old(solver)@,
                namespace@,
                views(call_stack@),
                return_target_node@,
                return_register@,
            );
        }
    }
    if repeats_last(call_stack) {
        solver.warn(Warning::RecursiveCall);
        return ;
    }
    let order = backward_topological_sort(function, namespace, return_target_node);
    let n = function.blocks.len();
    assert(views(order@).len() == order.len());
    if order.len() < n {
        solver.warn(Warning::CyclicCfg);
        return ;
    }
    let forward_edges = get_forward_edges(function, namespace, return_target_node);
    let backward_edges = get_backward_edges(function, namespace, return_target_node);
    let mut b: usize = 0;
    while b < n
        invariant
            b <= n,
            n == function.blocks.len(),
            solver@ == terminator_warnings(old(solver)@, *function, b as int),
        decreases n - b,
    {
        if !has_known_successors(&function.blocks[b]) {
            solver.warn(Warning::UnsupportedTerminator);
        }
        b = b + 1;
    }
    let ghost start = solver@;
    let mut k: usize = 0;
    while k < order.len()
        invariant
            k <= order.len(),
            solver@ == encode_blocks(
                *module,
                *function,
                start,
                forward_edges_of(*function, namespace@, return_target_node@),
                backward_edges_of(*function, namespace@, return_target_node@),
                namespace@,
                views(call_stack@),
                return_register@,
                views(order@),
                k as int,
            ),
            edges_view(forward_edges@) == forward_edges_of(
                *function,
                namespace@,
                return_target_node@,
            ),
            edges_view(backward_edges@) == backward_edges_of(
                *function,
                namespace@,
                return_target_node@,
            ),
        decreases order.len() - k,
    {
        codegen_basic_block(
            module,
            order[k].clone(),
            &forward_edges,
            &backward_edges,
            function,
            solver,
            namespace,
            call_stack,
            return_register,
        );
        k = k + 1;
    }
}

/// In a function whose graph has no cycle, every block is encoded exactly
/// once, and the encoding of each block ends with the one assertion that
/// defines its predicate: the order in which the blocks are encoded holds
/// each node once, and the query after each step ends with the definition
/// of the node of that step.
pub proof fn lemma_every_block_is_defined_once(
    m: Module,
    f: Function,
    st: QueryState,
    ns: Seq<char>,
    stack: Seq<Seq<char>>,
    return_target: Seq<char>,
    return_register: Seq<char>,
)
    requires
        !is_recursive(stack),
        !is_cyclic(f, ns, return_target),
    ensures
        topological_order(f, ns, return_target).reverse().no_duplicates(),
        topological_order(f, ns, return_target).len() == f.blocks.len(),
        forall|j: int|
            0 <= j < f.blocks.len() ==> topological_order(f, ns, return_target).reverse().contains(
                #[trigger] node_name(f, j, ns),
            ),
        forall|k: int|
            0 <= k < f.blocks.len() ==> defines_block(
                (#[trigger] encode_blocks(
                    m,
                    f,
                    terminator_warnings(st, f, f.blocks.len() as int),
                    forward_edges_of(f, ns, return_target),
                    backward_edges_of(f, ns, return_target),
                    ns,
                    stack,
                    return_register,
                    topological_order(f, ns, return_target).reverse(),
                    k + 1,
                )).assertions.last(),
                topological_order(f, ns, return_target).reverse()[k],
            ),
        encode_function(m, f, st, ns, stack, return_target, return_register) == encode_blocks(
            m,
            f,
            terminator_warnings(st, f, f.blocks.len() as int),
            forward_edges_of(f, ns, return_target),
            backward_edges_of(f, ns, return_target),
            ns,
            stack,
            return_register,
            topological_order(f, ns, return_target).reverse(),
            f.blocks.len() as int,
        ),
{
    let order = topological_order(f, ns, return_target);
    let reversed = order.reverse();
    lemma_topological_order(f, ns, return_target);
    lemma_acyclic_order_is_complete(f, ns, return_target);
    assert(reversed.no_duplicates()) by {
        assert forall|a: int, b: int|
            0 <= a < reversed.len() && 0 <= b < reversed.len() && a != b implies reversed[a]
            != reversed[b] by {
            assert(reversed[a] == order[order.len() - 1 - a]);
            assert(reversed[b] == order[order.len() - 1 - b]);
        }
    }
    assert forall|j: int| 0 <= j < f.blocks.len() implies reversed.contains(
        #[trigger] node_name(f, j, ns),
    ) by {
        let at = choose|at: int| 0 <= at < order.len() && order[at] == node_name(f, j, ns);
        assert(reversed[order.len() - 1 - at] == node_name(f, j, ns));
    }
    let start = terminator_warnings(st, f, f.blocks.len() as int);
    let forward = forward_edges_of(f, ns, return_target);
    let backward = backward_edges_of(f, ns, return_target);
    assert forall|k: int| 0 <= k < f.blocks.len() implies defines_block(
        (#[trigger] encode_blocks(
            m,
            f,
            start,
            forward,
            backward,
            ns,
            stack,
            return_register,
            reversed,
            k + 1,
        )).assertions.last(),
        reversed[k],
    ) by {
        let at = order.len() - 1 - k;
        assert(reversed[k] == order[at]);
        assert(is_placed(f, ns, return_target, order, at));
        let j = choose|j: int|
            0 <= j < f.blocks.len() && #[trigger] node_name(f, j, ns) == order[at] && all_in(
                backward_targets(f, j, ns, return_target),
                order.subrange(0, at),
            );
        lemma_block_is_defined_last(
            m,
            f,
            encode_blocks(
                m,
                f,
                start,
                forward,
                backward,
                ns,
                stack,
                return_register,
                reversed,
                k,
            ),
            j,
            forward,
            backward,
            ns,
            stack,
            return_register,
        );
    }
}

} // verus!
