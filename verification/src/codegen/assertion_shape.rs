//! The shape of what the encoder asserts.
//!
//! Every assertion of the encoder is the definition of a constant, of a
//! block or of the node behind a call, or a range constraint. None of them
//! equates a predicate with a negation. The definition of the common end
//! node does, so it stands in a query exactly once: where the driver puts it.

use vstd::prelude::*;
use crate::backward_symbolic_execution::query_for;
use crate::codegen::{common_end_definition, encode_target, parameter_constraints};
use crate::codegen::codegen_basic_block::{
    block_exit, block_index, default_condition, encode_block, encode_instructions, entry_condition,
    entry_conjunction, successor_conjunction,
};
use crate::codegen::codegen_call::{
    bind_arguments, call_kind, call_node, callee_namespace, callee_symbol, depth_left, encode_call,
    encode_general_call, encode_intrinsic, has_callee, lemma_push_decreases, post_node_name,
    CallKind,
};
use crate::codegen::codegen_function::{
    encode_blocks, encode_function, is_recursive, terminator_warnings,
};
use crate::codegen::codegen_instruction::{encode_instruction, encode_plain};
use crate::control_flow_graph::{
    backward_edges_of, forward_edges_of, is_cyclic, targets_of, topological_order, EdgesView,
};
use crate::formula::{bool_const, equivalence, implication, Formula, Prop};
use crate::ir::{BasicBlock, Function, Instruction, Module, Opcode};
use crate::query::QueryState;
use crate::symbolic_execution::{module_name, COMMON_END_NODE, MAIN_FUNCTION_RETURN_REGISTER};
use crate::utils::function_utils::{demangled, function_index, lemma_first_match_bounds};
use crate::utils::var_utils::{resolved, var_name};

verus! {

/// Whether `a` does not equate a predicate with a negation.
pub open spec fn unlike_end(a: Prop) -> bool {
    !(a matches Formula::Iff(_, r) && *r is Not)
}

/// Whether no assertion of `st` equates a predicate with a negation.
pub open spec fn all_unlike_end(st: QueryState) -> bool {
    forall|i: int| 0 <= i < st.assertions.len() ==> unlike_end(#[trigger] st.assertions[i])
}

/// Whether `p` is no negation.
pub open spec fn plain(p: Prop) -> bool {
    !(p is Not)
}

proof fn lemma_asserting(st: QueryState, a: Prop)
    requires
        all_unlike_end(st),
        unlike_end(a),
    ensures
        all_unlike_end(st.asserting(a)),
{
    assert forall|i: int| 0 <= i < st.asserting(a).assertions.len() implies unlike_end(
        #[trigger] st.asserting(a).assertions[i],
    ) by {
        if i < st.assertions.len() {
            assert(st.asserting(a).assertions[i] == st.assertions[i]);
        }
    }
}

proof fn lemma_resolved(st: QueryState, text: Seq<char>)
    requires
        all_unlike_end(st),
    ensures
        all_unlike_end(resolved(st, text)),
{
    let r = resolved(st, text);
    assert forall|i: int| 0 <= i < r.assertions.len() implies unlike_end(
        #[trigger] r.assertions[i],
    ) by {
        if i < st.assertions.len() {
            assert(r.assertions[i] == st.assertions[i]);
        }
    }
}

proof fn lemma_resolved_everywhere()
    ensures
        forall|st: QueryState, text: Seq<char>|
            all_unlike_end(st) ==> all_unlike_end(#[trigger] resolved(st, text)),
{
    assert forall|st: QueryState, text: Seq<char>| all_unlike_end(st) implies all_unlike_end(
        #[trigger] resolved(st, text),
    ) by {
        lemma_resolved(st, text);
    }
}

proof fn lemma_plain_instruction(
    st: QueryState,
    post: Prop,
    i: Instruction,
    ns: Seq<char>,
    return_register: Seq<char>,
)
    requires
        all_unlike_end(st),
        plain(post),
    ensures
        all_unlike_end(encode_plain(st, post, i, ns, return_register).0),
        plain(encode_plain(st, post, i, ns, return_register).1),
{
    lemma_resolved_everywhere();
}

proof fn lemma_intrinsic(
    st: QueryState,
    post: Prop,
    i: Instruction,
    ns: Seq<char>,
    name: Seq<char>,
    kind: CallKind,
)
    requires
        all_unlike_end(st),
        plain(post),
    ensures
        all_unlike_end(encode_intrinsic(st, post, i, ns, name, kind).0),
        plain(encode_intrinsic(st, post, i, ns, name, kind).1),
{
    lemma_resolved_everywhere();
}

proof fn lemma_bindings(
    st: QueryState,
    node: Prop,
    callee: Function,
    i: Instruction,
    ns: Seq<char>,
    callee_ns: Seq<char>,
    k: int,
)
    requires
        all_unlike_end(st),
        plain(node),
    ensures
        all_unlike_end(bind_arguments(st, node, callee, i, ns, callee_ns, k).0),
        plain(bind_arguments(st, node, callee, i, ns, callee_ns, k).1),
    decreases k,
{
    lemma_resolved_everywhere();
    if k > 0 {
        lemma_bindings(st, node, callee, i, ns, callee_ns, k - 1);
    }
}

proof fn lemma_default_condition(st: QueryState, t: Instruction, d: Seq<char>, ns: Seq<char>, j: int)
    requires
        all_unlike_end(st),
    ensures
        all_unlike_end(default_condition(st, t, d, ns, j).0),
    decreases j,
{
    lemma_resolved_everywhere();
    if j > 2 {
        lemma_default_condition(st, t, d, ns, j - 1);
    }
}

proof fn lemma_entry_condition(
    st: QueryState,
    f: Function,
    predecessor: Seq<char>,
    node: Seq<char>,
    ns: Seq<char>,
)
    requires
        all_unlike_end(st),
    ensures
        all_unlike_end(entry_condition(st, f, predecessor, node, ns).0),
{
    lemma_resolved_everywhere();
    match block_index(f, ns, predecessor) {
        Some(p) => {
            if f.blocks[p].has_terminator() {
                let t = f.blocks[p].terminator();
                if t.opcode == Opcode::Switch && t.has_value(0) {
                    let st1 = resolved(st, t.value(0).text@);
                    lemma_default_condition(
                        st1,
                        t,
                        var_name(t.value(0).text@, ns),
                        ns,
                        t.operands.len() as int,
                    );
                }
            }
        },
        None => {},
    }
}

proof fn lemma_entry_conjunction(
    st: QueryState,
    f: Function,
    predecessors: Seq<Seq<char>>,
    node: Seq<char>,
    ns: Seq<char>,
    k: int,
)
    requires
        all_unlike_end(st),
    ensures
        all_unlike_end(entry_conjunction(st, f, predecessors, node, ns, k).0),
    decreases k,
{
    if k > 0 {
        lemma_entry_conjunction(st, f, predecessors, node, ns, k - 1);
        lemma_entry_condition(
            entry_conjunction(st, f, predecessors, node, ns, k - 1).0,
            f,
            predecessors[k - 1],
            node,
            ns,
        );
    }
}

proof fn lemma_terminator_warnings(st: QueryState, f: Function, k: int)
    requires
        all_unlike_end(st),
    ensures
        all_unlike_end(terminator_warnings(st, f, k)),
    decreases k,
{
    if k > 0 {
        lemma_terminator_warnings(st, f, k - 1);
    }
}

/// Constraining parameters leaves what was asserted where it is, and adds
/// nothing that equates a predicate with a negation.
proof fn lemma_constraints_leave_the_rest(st: QueryState, f: Function, ns: Seq<char>, k: int)
    ensures
        st.assertions.is_prefix_of(parameter_constraints(st, f, ns, k).assertions),
        forall|i: int|
            st.assertions.len() <= i < parameter_constraints(st, f, ns, k).assertions.len()
                ==> unlike_end(#[trigger] parameter_constraints(st, f, ns, k).assertions[i]),
    decreases k,
{
    if k > 0 {
        lemma_constraints_leave_the_rest(st, f, ns, k - 1);
        let before = parameter_constraints(st, f, ns, k - 1);
        let after = parameter_constraints(st, f, ns, k);
        let r = resolved(before, f.params[k - 1].text@);
        assert forall|i: int| st.assertions.len() <= i < after.assertions.len() implies unlike_end(
            #[trigger] after.assertions[i],
        ) by {
            if i < before.assertions.len() {
                assert(after.assertions[i] == before.assertions[i]);
            }
        }
    }
}

proof fn lemma_general_call(
    m: Module,
    st: QueryState,
    post: Prop,
    i: Instruction,
    ns: Seq<char>,
    stack: Seq<Seq<char>>,
    name: Seq<char>,
)
    requires
        all_unlike_end(st),
        plain(post),
    ensures
        all_unlike_end(encode_general_call(m, st, post, i, ns, stack, name).0),
        plain(encode_general_call(m, st, post, i, ns, stack, name).1),
    decreases depth_left(m, stack), 0nat, 0nat,
{
    match function_index(m, name) {
        None => {},
        Some(c) => {
            let callee = m.functions[c];
            if !stack.contains(callee.name@) {
                let result_register = var_name(i.text@, ns);
                let post_node = post_node_name(ns, result_register);
                let callee_ns = callee_namespace(post_node);
                lemma_resolved(st, i.text@);
                lemma_asserting(
                    resolved(st, i.text@),
                    equivalence(bool_const(post_node), post),
                );
                let st1 = resolved(st, i.text@).asserting(
                    equivalence(bool_const(post_node), post),
                );
                lemma_first_match_bounds(m, name, 0);
                lemma_push_decreases(m, stack, c, m.functions.len() as int);
                lemma_function(
                    m,
                    callee,
                    st1,
                    callee_ns,
                    stack.push(callee.name@),
                    post_node,
                    result_register,
                );
                let st2 = encode_function(
                    m,
                    callee,
                    st1,
                    callee_ns,
                    stack.push(callee.name@),
                    post_node,
                    result_register,
                );
                lemma_bindings(
                    st2,
                    call_node(callee, callee_ns, post_node),
                    callee,
                    i,
                    ns,
                    callee_ns,
                    callee.params.len() as int,
                );
            }
        },
    }
}

proof fn lemma_call(
    m: Module,
    st: QueryState,
    post: Prop,
    i: Instruction,
    ns: Seq<char>,
    stack: Seq<Seq<char>>,
)
    requires
        all_unlike_end(st),
        plain(post),
    ensures
        all_unlike_end(encode_call(m, st, post, i, ns, stack).0),
        plain(encode_call(m, st, post, i, ns, stack).1),
    decreases depth_left(m, stack), 1nat, 0nat,
{
    if has_callee(i) {
        let name = demangled(callee_symbol(i));
        let kind = call_kind(name, module_name(m.name@));
        if kind == CallKind::General {
            lemma_general_call(m, st, post, i, ns, stack, name);
        } else {
            lemma_intrinsic(st, post, i, ns, name, kind);
        }
    }
}

proof fn lemma_instruction(
    m: Module,
    st: QueryState,
    post: Prop,
    i: Instruction,
    ns: Seq<char>,
    stack: Seq<Seq<char>>,
    return_register: Seq<char>,
)
    requires
        all_unlike_end(st),
        plain(post),
    ensures
        all_unlike_end(encode_instruction(m, st, post, i, ns, stack, return_register).0),
        plain(encode_instruction(m, st, post, i, ns, stack, return_register).1),
    decreases depth_left(m, stack), 2nat, 0nat,
{
    if i.opcode == Opcode::Call {
        lemma_call(m, st, post, i, ns, stack);
    } else {
        lemma_plain_instruction(st, post, i, ns, return_register);
    }
}

proof fn lemma_instructions(
    m: Module,
    st: QueryState,
    post: Prop,
    b: BasicBlock,
    ns: Seq<char>,
    stack: Seq<Seq<char>>,
    return_register: Seq<char>,
    from: int,
)
    requires
        all_unlike_end(st),
        plain(post),
    ensures
        all_unlike_end(encode_instructions(m, st, post, b, ns, stack, return_register, from).0),
        plain(encode_instructions(m, st, post, b, ns, stack, return_register, from).1),
    decreases depth_left(m, stack), 3nat, b.instructions.len() - from,
{
    if 0 <= from < b.instructions.len() {
        lemma_instructions(m, st, post, b, ns, stack, return_register, from + 1);
        let behind = encode_instructions(m, st, post, b, ns, stack, return_register, from + 1);
        lemma_instruction(
            m,
            behind.0,
            behind.1,
            b.instructions[from],
            ns,
            stack,
            return_register,
        );
    }
}

proof fn lemma_block(
    m: Module,
    f: Function,
    st: QueryState,
    node: Seq<char>,
    forward: EdgesView,
    backward: EdgesView,
    ns: Seq<char>,
    stack: Seq<Seq<char>>,
    return_register: Seq<char>,
)
    requires
        all_unlike_end(st),
    ensures
        all_unlike_end(
            encode_block(m, f, st, node, forward, backward, ns, stack, return_register),
        ),
    decreases depth_left(m, stack), 4nat, 0nat,
{
    match block_index(f, ns, node) {
        None => {},
        Some(b) => {
            let exit = block_exit(f.blocks[b], targets_of(forward, node));
            let successors = targets_of(forward, node);
            assert(plain(successor_conjunction(successors, successors.len() as int)));
            lemma_instructions(m, st, exit, f.blocks[b], ns, stack, return_register, 0);
            let body = encode_instructions(
                m,
                st,
                exit,
                f.blocks[b],
                ns,
                stack,
                return_register,
                0,
            );
            lemma_entry_conjunction(
                body.0,
                f,
                targets_of(backward, node),
                node,
                ns,
                targets_of(backward, node).len() as int,
            );
            let entry = entry_conjunction(
                body.0,
                f,
                targets_of(backward, node),
                node,
                ns,
                targets_of(backward, node).len() as int,
            );
            lemma_asserting(
                entry.0,
                equivalence(
                    bool_const(node),
                    implication(entry.1, body.1),
                ),
            );
        },
    }
}

proof fn lemma_blocks(
    m: Module,
    f: Function,
    st: QueryState,
    forward: EdgesView,
    backward: EdgesView,
    ns: Seq<char>,
    stack: Seq<Seq<char>>,
    return_register: Seq<char>,
    order: Seq<Seq<char>>,
    k: int,
)
    requires
        all_unlike_end(st),
    ensures
        all_unlike_end(
            encode_blocks(m, f, st, forward, backward, ns, stack, return_register, order, k),
        ),
    decreases depth_left(m, stack), 5nat, k,
{
    if k > 0 {
        lemma_blocks(m, f, st, forward, backward, ns, stack, return_register, order, k - 1);
        lemma_block(
            m,
            f,
            encode_blocks(m, f, st, forward, backward, ns, stack, return_register, order, k - 1),
            order[k - 1],
            forward,
            backward,
            ns,
            stack,
            return_register,
        );
    }
}

/// The encoding of a function asserts nothing that equates a predicate with a negation.
pub proof fn lemma_function(
    m: Module,
    f: Function,
    st: QueryState,
    ns: Seq<char>,
    stack: Seq<Seq<char>>,
    return_target: Seq<char>,
    return_register: Seq<char>,
)
    requires
        all_unlike_end(st),
    ensures
        all_unlike_end(encode_function(m, f, st, ns, stack, return_target, return_register)),
    decreases depth_left(m, stack), 6nat, 0nat,
{
    if !is_recursive(stack) && !is_cyclic(f, ns, return_target) {
        lemma_terminator_warnings(st, f, f.blocks.len() as int);
        lemma_blocks(
            m,
            f,
            terminator_warnings(st, f, f.blocks.len() as int),
            forward_edges_of(f, ns, return_target),
            backward_edges_of(f, ns, return_target),
            ns,
            stack,
            return_register,
            topological_order(f, ns, return_target).reverse(),
            topological_order(f, ns, return_target).len() as int,
        );
    }
}

/// A query that starts from nothing holds the definition of the common
/// end node exactly once.
pub proof fn lemma_common_end_defined_once(m: Module, f: Function, ns: Seq<char>)
    ensures
        exists|at: int|
            0 <= at < query_for(m, f, QueryState::empty(), ns).assertions.len() && (
            #[trigger] query_for(m, f, QueryState::empty(), ns).assertions[at])
                == common_end_definition() && forall|other: int|
                0 <= other < query_for(m, f, QueryState::empty(), ns).assertions.len() && (
                #[trigger] query_for(m, f, QueryState::empty(), ns).assertions[other])
                    == common_end_definition() ==> other == at,
{
    let none = QueryState::empty();
    let stack = seq![f.name@];
    lemma_function(
        m,
        f,
        none,
        ns,
        stack,
        COMMON_END_NODE@,
        MAIN_FUNCTION_RETURN_REGISTER@,
    );
    let encoded = encode_function(
        m,
        f,
        none,
        ns,
        stack,
        COMMON_END_NODE@,
        MAIN_FUNCTION_RETURN_REGISTER@,
    );
    let defined = encoded.asserting(common_end_definition());
    let at = encoded.assertions.len() as int;
    lemma_constraints_leave_the_rest(defined, f, ns, f.params.len() as int);
    let target = encode_target(m, f, none, ns);
    let q = query_for(m, f, none, ns).assertions;
    assert(defined.assertions[at] == common_end_definition());
    assert(target.assertions[at] == common_end_definition());
    assert(q[at] == common_end_definition());
    assert forall|other: int|
        0 <= other < q.len() && (#[trigger] q[other]) == common_end_definition() implies other
        == at by {
        if other < at {
            assert(q[other] == target.assertions[other]);
            assert(target.assertions[other] == defined.assertions[other]);
            assert(defined.assertions[other] == encoded.assertions[other]);
            assert(unlike_end(encoded.assertions[other]));
        } else if at < other < target.assertions.len() {
            assert(q[other] == target.assertions[other]);
        }
    }
}

} // verus!
