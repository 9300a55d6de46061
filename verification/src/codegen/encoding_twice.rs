//! Encoding a second time adds no new assertion.
//!
//! What the encoder asserts depends on the program and the names alone. The
//! query only decides which literal constants still get their definition,
//! and a constant that is passed over has its definition in the query
//! already. So a second encoding repeats assertions of the first, and the
//! set of assertions stays as it was.

use vstd::prelude::*;
use crate::codegen::codegen_basic_block::{
    block_exit, block_index, default_condition, encode_block, encode_instructions, entry_condition,
    entry_conjunction,
};
use crate::codegen::codegen_call::{
    bind_arguments, call_kind, call_node, callee_namespace, callee_symbol, depth_left, encode_call,
    encode_general_call, encode_intrinsic, has_callee, lemma_push_decreases, post_node_name,
    CallKind,
};
use crate::codegen::codegen_function::{
    encode_blocks, encode_function, is_recursive, terminator_warnings,
};
use crate::codegen::codegen_instruction::{encode_instruction, encode_plain};
use crate::control_flow_graph::{
    backward_edges_of, forward_edges_of, is_cyclic, targets_of, topological_order, EdgesView,
};
use crate::formula::{bool_const, equivalence, implication, Prop};
use crate::ir::{BasicBlock, Function, Instruction, Module, Opcode};
use crate::meaning::{holds, satisfies, Valuation};
use crate::query::{QueryState, Warning};
use crate::symbolic_execution::module_name;
use crate::text::second_word;
use crate::utils::function_utils::{demangled, function_index, lemma_first_match_bounds};
use crate::utils::var_utils::{
    constant_name, definition_of, is_consistent, is_register, lemma_definition_of_constant,
    literal_definition, resolved, var_name,
};

verus! {

/// Whether `later` holds every assertion and every constant of `earlier`.
pub open spec fn covers(later: QueryState, earlier: QueryState) -> bool {
    &&& forall|i: int|
        0 <= i < earlier.assertions.len() ==> later.assertions.contains(
            #[trigger] earlier.assertions[i],
        )
    &&& forall|i: int|
        0 <= i < earlier.constants.len() ==> later.constants.contains(
            #[trigger] earlier.constants[i],
        )
}

/// Whether every assertion and every constant of `st` is one of `base` or one of `first`.
pub open spec fn within(st: QueryState, base: QueryState, first: QueryState) -> bool {
    &&& forall|i: int|
        0 <= i < st.assertions.len() ==> base.assertions.contains(#[trigger] st.assertions[i])
            || first.assertions.contains(st.assertions[i])
    &&& forall|i: int|
        0 <= i < st.constants.len() ==> base.constants.contains(#[trigger] st.constants[i])
            || first.constants.contains(st.constants[i])
}

/// Whether the query `a` of a first encoding and the query `b` of a second
/// one, which began at `base`, go together: both are consistent, `b` holds
/// what `a` and `base` hold, and nothing but what `base` or `a` holds.
pub open spec fn paired(a: QueryState, b: QueryState, base: QueryState) -> bool {
    &&& is_consistent(a)
    &&& is_consistent(b)
    &&& covers(b, a)
    &&& covers(b, base)
    &&& within(b, base, a)
}

proof fn lemma_contains_after_push<A>(s: Seq<A>, x: A, y: A)
    requires
        s.contains(y) || x == y,
    ensures
        s.push(x).contains(y),
{
    if s.contains(y) {
        let i = choose|i: int| 0 <= i < s.len() && s[i] == y;
        assert(s.push(x)[i] == y);
    } else {
        assert(s.push(x)[s.len() as int] == y);
    }
}

proof fn lemma_paired_asserting(a: QueryState, b: QueryState, base: QueryState, x: Prop)
    requires
        paired(a, b, base),
    ensures
        paired(a.asserting(x), b.asserting(x), base),
{
    let a1 = a.asserting(x);
    let b1 = b.asserting(x);
    assert forall|i: int| 0 <= i < a1.constants.len() implies definition_of(
        #[trigger] a1.constants[i],
    ) is Some && a1.assertions.contains(definition_of(a1.constants[i])->Some_0) by {
        lemma_contains_after_push(a.assertions, x, definition_of(a.constants[i])->Some_0);
    }
    assert forall|i: int| 0 <= i < b1.constants.len() implies definition_of(
        #[trigger] b1.constants[i],
    ) is Some && b1.assertions.contains(definition_of(b1.constants[i])->Some_0) by {
        lemma_contains_after_push(b.assertions, x, definition_of(b.constants[i])->Some_0);
    }
    assert forall|i: int| 0 <= i < a1.assertions.len() implies b1.assertions.contains(
        #[trigger] a1.assertions[i],
    ) by {
        if i < a.assertions.len() {
            assert(a1.assertions[i] == a.assertions[i]);
        }
        lemma_contains_after_push(b.assertions, x, a1.assertions[i]);
    }
    assert forall|i: int| 0 <= i < b1.assertions.len() implies base.assertions.contains(
        #[trigger] b1.assertions[i],
    ) || a1.assertions.contains(b1.assertions[i]) by {
        if i < b.assertions.len() {
            assert(b1.assertions[i] == b.assertions[i]);
            if a.assertions.contains(b.assertions[i]) {
                lemma_contains_after_push(a.assertions, x, b.assertions[i]);
            }
        } else {
            lemma_contains_after_push(a.assertions, x, x);
        }
    }
    assert forall|i: int| 0 <= i < base.assertions.len() implies b1.assertions.contains(
        #[trigger] base.assertions[i],
    ) by {
        lemma_contains_after_push(b.assertions, x, base.assertions[i]);
    }
}

proof fn lemma_paired_defining(
    a: QueryState,
    b: QueryState,
    base: QueryState,
    name: Seq<char>,
    x: Prop,
)
    requires
        paired(a, b, base),
        definition_of(name) == Some(x),
    ensures
        paired(a.defining(name, x), b.defining(name, x), base),
        paired(a.defining(name, x), b, base) <== b.constants.contains(name),
{
    lemma_paired_asserting(a, b, base, x);
    let a1 = a.defining(name, x);
    let b1 = b.defining(name, x);
    assert(a1.assertions == a.asserting(x).assertions);
    assert(b1.assertions == b.asserting(x).assertions);
    assert forall|i: int| 0 <= i < a1.constants.len() implies definition_of(
        #[trigger] a1.constants[i],
    ) is Some && a1.assertions.contains(definition_of(a1.constants[i])->Some_0) by {
        if i < a.constants.len() {
            lemma_contains_after_push(a.assertions, x, definition_of(a.constants[i])->Some_0);
        } else {
            lemma_contains_after_push(a.assertions, x, x);
        }
    }
    assert forall|i: int| 0 <= i < b1.constants.len() implies definition_of(
        #[trigger] b1.constants[i],
    ) is Some && b1.assertions.contains(definition_of(b1.constants[i])->Some_0) by {
        if i < b.constants.len() {
            lemma_contains_after_push(b.assertions, x, definition_of(b.constants[i])->Some_0);
        } else {
            lemma_contains_after_push(b.assertions, x, x);
        }
    }
    assert forall|i: int| 0 <= i < a1.constants.len() implies b1.constants.contains(
        #[trigger] a1.constants[i],
    ) by {
        if i < a.constants.len() {
            assert(a1.constants[i] == a.constants[i]);
        }
        lemma_contains_after_push(b.constants, name, a1.constants[i]);
    }
    assert forall|i: int| 0 <= i < base.constants.len() implies b1.constants.contains(
        #[trigger] base.constants[i],
    ) by {
        lemma_contains_after_push(b.constants, name, base.constants[i]);
    }
    assert forall|i: int| 0 <= i < b1.constants.len() implies base.constants.contains(
        #[trigger] b1.constants[i],
    ) || a1.constants.contains(b1.constants[i]) by {
        if i < b.constants.len() {
            assert(b1.constants[i] == b.constants[i]);
            if a.constants.contains(b.constants[i]) {
                lemma_contains_after_push(a.constants, name, b.constants[i]);
            }
        } else {
            lemma_contains_after_push(a.constants, name, name);
        }
    }
    if b.constants.contains(name) {
        let at = choose|at: int| 0 <= at < b.constants.len() && b.constants[at] == name;
        assert(b.assertions.contains(definition_of(b.constants[at])->Some_0));
        assert forall|i: int| 0 <= i < a1.assertions.len() implies b.assertions.contains(
            #[trigger] a1.assertions[i],
        ) by {
            if i < a.assertions.len() {
                assert(a1.assertions[i] == a.assertions[i]);
            }
        }
        assert forall|i: int| 0 <= i < a1.constants.len() implies b.constants.contains(
            #[trigger] a1.constants[i],
        ) by {
            if i < a.constants.len() {
                assert(a1.constants[i] == a.constants[i]);
            }
        }
        assert forall|i: int| 0 <= i < b.assertions.len() implies base.assertions.contains(
            #[trigger] b.assertions[i],
        ) || a1.assertions.contains(b.assertions[i]) by {
            if a.assertions.contains(b.assertions[i]) {
                lemma_contains_after_push(a.assertions, x, b.assertions[i]);
            }
        }
        assert forall|i: int| 0 <= i < b.constants.len() implies base.constants.contains(
            #[trigger] b.constants[i],
        ) || a1.constants.contains(b.constants[i]) by {
            if a.constants.contains(b.constants[i]) {
                lemma_contains_after_push(a.constants, name, b.constants[i]);
            }
        }
    }
}

proof fn lemma_paired_warning(a: QueryState, b: QueryState, base: QueryState)
    requires
        paired(a, b, base),
    ensures
        forall|v: Warning, w: Warning|
            paired(#[trigger] a.warning(v), #[trigger] b.warning(w), base),
        forall|v: Warning| paired(#[trigger] a.warning(v), b, base),
        forall|w: Warning| paired(a, #[trigger] b.warning(w), base),
{
}

proof fn lemma_paired_resolved(a: QueryState, b: QueryState, base: QueryState, text: Seq<char>)
    requires
        paired(a, b, base),
    ensures
        paired(resolved(a, text), resolved(b, text), base),
{
    lemma_paired_warning(a, b, base);
    if !is_register(text) {
        let word = second_word(text);
        let name = constant_name(word);
        lemma_definition_of_constant(word);
        if a.constants.contains(name) {
            let at = choose|at: int| 0 <= at < a.constants.len() && a.constants[at] == name;
            assert(b.constants.contains(a.constants[at]));
        } else {
            match literal_definition(word) {
                Some(x) => {
                    lemma_paired_defining(a, b, base, name, x);
                },
                None => {
                    if b.constants.contains(name) {
                        let at = choose|at: int|
                            0 <= at < b.constants.len() && b.constants[at] == name;
                        assert(definition_of(b.constants[at]) is Some);
                    }
                },
            }
        }
    }
}

proof fn lemma_resolved_pairs()
    ensures
        forall|a: QueryState, b: QueryState, base: QueryState, text: Seq<char>|
            #![trigger paired(a, b, base), resolved(a, text), resolved(b, text)]
            paired(a, b, base) ==> paired(resolved(a, text), resolved(b, text), base),
        forall|a: QueryState, b: QueryState, base: QueryState, x: Prop|
            #![trigger paired(a, b, base), a.asserting(x), b.asserting(x)]
            paired(a, b, base) ==> paired(a.asserting(x), b.asserting(x), base),
        forall|
            a: QueryState,
            b: QueryState,
            base: QueryState,
            v: Warning,
            w: Warning,
        |
            #![trigger paired(a, b, base), a.warning(v), b.warning(w)]
            paired(a, b, base) ==> paired(a.warning(v), b.warning(w), base),
{
    assert forall|a: QueryState, b: QueryState, base: QueryState, text: Seq<char>|
        #![trigger paired(a, b, base), resolved(a, text), resolved(b, text)]
        paired(a, b, base) implies paired(resolved(a, text), resolved(b, text), base) by {
        lemma_paired_resolved(a, b, base, text);
    }
    assert forall|a: QueryState, b: QueryState, base: QueryState, x: Prop|
        #![trigger paired(a, b, base), a.asserting(x), b.asserting(x)]
        paired(a, b, base) implies paired(a.asserting(x), b.asserting(x), base) by {
        lemma_paired_asserting(a, b, base, x);
    }
    assert forall|
        a: QueryState,
        b: QueryState,
        base: QueryState,
        v: Warning,
        w: Warning,
    |
        #![trigger paired(a, b, base), a.warning(v), b.warning(w)]
        paired(a, b, base) implies paired(a.warning(v), b.warning(w), base) by {
        lemma_paired_warning(a, b, base);
    }
}

proof fn lemma_plain_instruction(
    a: QueryState,
    b: QueryState,
    base: QueryState,
    post: Prop,
    i: Instruction,
    ns: Seq<char>,
    return_register: Seq<char>,
)
    requires
        paired(a, b, base),
    ensures
        paired(
            encode_plain(a, post, i, ns, return_register).0,
            encode_plain(b, post, i, ns, return_register).0,
            base,
        ),
        encode_plain(a, post, i, ns, return_register).1 == encode_plain(
            b,
            post,
            i,
            ns,
            return_register,
        ).1,
{
    lemma_resolved_pairs();
}

proof fn lemma_intrinsic(
    a: QueryState,
    b: QueryState,
    base: QueryState,
    post: Prop,
    i: Instruction,
    ns: Seq<char>,
    name: Seq<char>,
    kind: CallKind,
)
    requires
        paired(a, b, base),
    ensures
        paired(
            encode_intrinsic(a, post, i, ns, name, kind).0,
            encode_intrinsic(b, post, i, ns, name, kind).0,
            base,
        ),
        encode_intrinsic(a, post, i, ns, name, kind).1 == encode_intrinsic(
            b,
            post,
            i,
            ns,
            name,
            kind,
        ).1,
{
    lemma_resolved_pairs();
}

proof fn lemma_bindings(
    a: QueryState,
    b: QueryState,
    base: QueryState,
    node: Prop,
    callee: Function,
    i: Instruction,
    ns: Seq<char>,
    callee_ns: Seq<char>,
    k: int,
)
    requires
        paired(a, b, base),
    ensures
        paired(
            bind_arguments(a, node, callee, i, ns, callee_ns, k).0,
            bind_arguments(b, node, callee, i, ns, callee_ns, k).0,
            base,
        ),
        bind_arguments(a, node, callee, i, ns, callee_ns, k).1 == bind_arguments(
            b,
            node,
            callee,
            i,
            ns,
            callee_ns,
            k,
        ).1,
    decreases k,
{
    lemma_resolved_pairs();
    if k > 0 {
        lemma_bindings(a, b, base, node, callee, i, ns, callee_ns, k - 1);
    }
}

proof fn lemma_default_condition(
    a: QueryState,
    b: QueryState,
    base: QueryState,
    t: Instruction,
    d: Seq<char>,
    ns: Seq<char>,
    j: int,
)
    requires
        paired(a, b, base),
    ensures
        paired(default_condition(a, t, d, ns, j).0, default_condition(b, t, d, ns, j).0, base),
        default_condition(a, t, d, ns, j).1 == default_condition(b, t, d, ns, j).1,
    decreases j,
{
    lemma_resolved_pairs();
    if j > 2 {
        lemma_default_condition(a, b, base, t, d, ns, j - 1);
    }
}

proof fn lemma_entry_condition(
    a: QueryState,
    b: QueryState,
    base: QueryState,
    f: Function,
    predecessor: Seq<char>,
    node: Seq<char>,
    ns: Seq<char>,
)
    requires
        paired(a, b, base),
    ensures
        paired(
            entry_condition(a, f, predecessor, node, ns).0,
            entry_condition(b, f, predecessor, node, ns).0,
            base,
        ),
        entry_condition(a, f, predecessor, node, ns).1 == entry_condition(
            b,
            f,
            predecessor,
            node,
            ns,
        ).1,
{
    lemma_resolved_pairs();
    match block_index(f, ns, predecessor) {
        Some(p) => {
            if f.blocks[p].has_terminator() {
                let t = f.blocks[p].terminator();
                if t.opcode == Opcode::Switch && t.has_value(0) {
                    lemma_paired_resolved(a, b, base, t.value(0).text@);
                    lemma_default_condition(
                        resolved(a, t.value(0).text@),
                        resolved(b, t.value(0).text@),
                        base,
                        t,
                        var_name(t.value(0).text@, ns),
                        ns,
                        t.operands.len() as int,
                    );
                }
            }
        },
        None => {},
    }
}

proof fn lemma_entry_conjunction(
    a: QueryState,
    b: QueryState,
    base: QueryState,
    f: Function,
    predecessors: Seq<Seq<char>>,
    node: Seq<char>,
    ns: Seq<char>,
    k: int,
)
    requires
        paired(a, b, base),
    ensures
        paired(
            entry_conjunction(a, f, predecessors, node, ns, k).0,
            entry_conjunction(b, f, predecessors, node, ns, k).0,
            base,
        ),
        entry_conjunction(a, f, predecessors, node, ns, k).1 == entry_conjunction(
            b,
            f,
            predecessors,
            node,
            ns,
            k,
        ).1,
    decreases k,
{
    if k > 0 {
        lemma_entry_conjunction(a, b, base, f, predecessors, node, ns, k - 1);
        lemma_entry_condition(
            entry_conjunction(a, f, predecessors, node, ns, k - 1).0,
            entry_conjunction(b, f, predecessors, node, ns, k - 1).0,
            base,
            f,
            predecessors[k - 1],
            node,
            ns,
        );
    }
}

proof fn lemma_terminator_warnings(
    a: QueryState,
    b: QueryState,
    base: QueryState,
    f: Function,
    k: int,
)
    requires
        paired(a, b, base),
    ensures
        paired(terminator_warnings(a, f, k), terminator_warnings(b, f, k), base),
    decreases k,
{
    lemma_resolved_pairs();
    if k > 0 {
        lemma_terminator_warnings(a, b, base, f, k - 1);
    }
}

proof fn lemma_general_call(
    m: Module,
    a: QueryState,
    b: QueryState,
    base: QueryState,
    post: Prop,
    i: Instruction,
    ns: Seq<char>,
    stack: Seq<Seq<char>>,
    name: Seq<char>,
)
    requires
        paired(a, b, base),
    ensures
        paired(
            encode_general_call(m, a, post, i, ns, stack, name).0,
            encode_general_call(m, b, post, i, ns, stack, name).0,
            base,
        ),
        encode_general_call(m, a, post, i, ns, stack, name).1 == encode_general_call(
            m,
            b,
            post,
            i,
            ns,
            stack,
            name,
        ).1,
    decreases depth_left(m, stack), 0nat, 0nat,
{
    lemma_paired_warning(a, b, base);
    match function_index(m, name) {
        None => {},
        Some(c) => {
            let callee = m.functions[c];
            if !stack.contains(callee.name@) {
                let result_register = var_name(i.text@, ns);
                let post_node = post_node_name(ns, result_register);
                let callee_ns = callee_namespace(post_node);
                let definition = equivalence(bool_const(post_node), post);
                lemma_paired_resolved(a, b, base, i.text@);
                lemma_paired_asserting(
                    resolved(a, i.text@),
                    resolved(b, i.text@),
                    base,
                    definition,
                );
                let a1 = resolved(a, i.text@).asserting(definition);
                let b1 = resolved(b, i.text@).asserting(definition);
                lemma_first_match_bounds(m, name, 0);
                lemma_push_decreases(m, stack, c, m.functions.len() as int);
                lemma_function(
                    m,
                    callee,
                    a1,
                    b1,
                    base,
                    callee_ns,
                    stack.push(callee.name@),
                    post_node,
                    result_register,
                );
                let a2 = encode_function(
                    m,
                    callee,
                    a1,
                    callee_ns,
                    stack.push(callee.name@),
                    post_node,
                    result_register,
                );
                let b2 = encode_function(
                    m,
                    callee,
                    b1,
                    callee_ns,
                    stack.push(callee.name@),
                    post_node,
                    result_register,
                );
                lemma_paired_warning(a2, b2, base);
                lemma_bindings(
                    a2,
                    b2,
                    base,
                    call_node(callee, callee_ns, post_node),
                    callee,
                    i,
                    ns,
                    callee_ns,
                    callee.params.len() as int,
                );
            }
        },
    }
}

proof fn lemma_call(
    m: Module,
    a: QueryState,
    b: QueryState,
    base: QueryState,
    post: Prop,
    i: Instruction,
    ns: Seq<char>,
    stack: Seq<Seq<char>>,
)
    requires
        paired(a, b, base),
    ensures
        paired(
            encode_call(m, a, post, i, ns, stack).0,
            encode_call(m, b, post, i, ns, stack).0,
            base,
        ),
        encode_call(m, a, post, i, ns, stack).1 == encode_call(m, b, post, i, ns, stack).1,
    decreases depth_left(m, stack), 1nat, 0nat,
{
    lemma_paired_warning(a, b, base);
    if has_callee(i) {
        let name = demangled(callee_symbol(i));
        let kind = call_kind(name, module_name(m.name@));
        if kind == CallKind::General {
            lemma_general_call(m, a, b, base, post, i, ns, stack, name);
        } else {
            lemma_intrinsic(a, b, base, post, i, ns, name, kind);
        }
    }
}

proof fn lemma_instruction(
    m: Module,
    a: QueryState,
    b: QueryState,
    base: QueryState,
    post: Prop,
    i: Instruction,
    ns: Seq<char>,
    stack: Seq<Seq<char>>,
    return_register: Seq<char>,
)
    requires
        paired(a, b, base),
    ensures
        paired(
            encode_instruction(m, a, post, i, ns, stack, return_register).0,
            encode_instruction(m, b, post, i, ns, stack, return_register).0,
            base,
        ),
        encode_instruction(m, a, post, i, ns, stack, return_register).1 == encode_instruction(
            m,
            b,
            post,
            i,
            ns,
            stack,
            return_register,
        ).1,
    decreases depth_left(m, stack), 2nat, 0nat,
{
    if i.opcode == Opcode::Call {
        lemma_call(m, a, b, base, post, i, ns, stack);
    } else {
        lemma_plain_instruction(a, b, base, post, i, ns, return_register);
    }
}

proof fn lemma_instructions(
    m: Module,
    a: QueryState,
    b: QueryState,
    base: QueryState,
    post: Prop,
    block: BasicBlock,
    ns: Seq<char>,
    stack: Seq<Seq<char>>,
    return_register: Seq<char>,
    from: int,
)
    requires
        paired(a, b, base),
    ensures
        paired(
            encode_instructions(m, a, post, block, ns, stack, return_register, from).0,
            encode_instructions(m, b, post, block, ns, stack, return_register, from).0,
            base,
        ),
        encode_instructions(m, a, post, block, ns, stack, return_register, from).1
            == encode_instructions(m, b, post, block, ns, stack, return_register, from).1,
    decreases depth_left(m, stack), 3nat, block.instructions.len() - from,
{
    if 0 <= from < block.instructions.len() {
        lemma_instructions(m, a, b, base, post, block, ns, stack, return_register, from + 1);
        let first = encode_instructions(m, a, post, block, ns, stack, return_register, from + 1);
        let second = encode_instructions(m, b, post, block, ns, stack, return_register, from + 1);
        lemma_instruction(
            m,
            first.0,
            second.0,
            base,
            first.1,
            block.instructions[from],
            ns,
            stack,
            return_register,
        );
    }
}

proof fn lemma_block(
    m: Module,
    f: Function,
    a: QueryState,
    b: QueryState,
    base: QueryState,
    node: Seq<char>,
    forward: EdgesView,
    backward: EdgesView,
    ns: Seq<char>,
    stack: Seq<Seq<char>>,
    return_register: Seq<char>,
)
    requires
        paired(a, b, base),
    ensures
        paired(
            encode_block(m, f, a, node, forward, backward, ns, stack, return_register),
            encode_block(m, f, b, node, forward, backward, ns, stack, return_register),
            base,
        ),
    decreases depth_left(m, stack), 4nat, 0nat,
{
    lemma_paired_warning(a, b, base);
    match block_index(f, ns, node) {
        None => {},
        Some(at) => {
            let exit = block_exit(f.blocks[at], targets_of(forward, node));
            lemma_instructions(m, a, b, base, exit, f.blocks[at], ns, stack, return_register, 0);
            let first = encode_instructions(
                m,
                a,
                exit,
                f.blocks[at],
                ns,
                stack,
                return_register,
                0,
            );
            let second = encode_instructions(
                m,
                b,
                exit,
                f.blocks[at],
                ns,
                stack,
                return_register,
                0,
            );
            let predecessors = targets_of(backward, node);
            lemma_entry_conjunction(
                first.0,
                second.0,
                base,
                f,
                predecessors,
                node,
                ns,
                predecessors.len() as int,
            );
            let entry_first = entry_conjunction(
                first.0,
                f,
                predecessors,
                node,
                ns,
                predecessors.len() as int,
            );
            let entry_second = entry_conjunction(
                second.0,
                f,
                predecessors,
                node,
                ns,
                predecessors.len() as int,
            );
            lemma_paired_asserting(
                entry_first.0,
                entry_second.0,
                base,
                equivalence(bool_const(node), implication(entry_first.1, first.1)),
            );
        },
    }
}

proof fn lemma_blocks(
    m: Module,
    f: Function,
    a: QueryState,
    b: QueryState,
    base: QueryState,
    forward: EdgesView,
    backward: EdgesView,
    ns: Seq<char>,
    stack: Seq<Seq<char>>,
    return_register: Seq<char>,
    order: Seq<Seq<char>>,
    k: int,
)
    requires
        paired(a, b, base),
    ensures
        paired(
            encode_blocks(m, f, a, forward, backward, ns, stack, return_register, order, k),
            encode_blocks(m, f, b, forward, backward, ns, stack, return_register, order, k),
            base,
        ),
    decreases depth_left(m, stack), 5nat, k,
{
    if k > 0 {
        lemma_blocks(m, f, a, b, base, forward, backward, ns, stack, return_register, order, k - 1);
        lemma_block(
            m,
            f,
            encode_blocks(m, f, a, forward, backward, ns, stack, return_register, order, k - 1),
            encode_blocks(m, f, b, forward, backward, ns, stack, return_register, order, k - 1),
            base,
            order[k - 1],
            forward,
            backward,
            ns,
            stack,
            return_register,
        );
    }
}

/// Two encodings of one function, one from a query `a` and one from a
/// query `b` that holds what `a` holds, stay paired: the second asserts
/// nothing but what its beginning or the first holds.
pub proof fn lemma_function(
    m: Module,
    f: Function,
    a: QueryState,
    b: QueryState,
    base: QueryState,
    ns: Seq<char>,
    stack: Seq<Seq<char>>,
    return_target: Seq<char>,
    return_register: Seq<char>,
)
    requires
        paired(a, b, base),
    ensures
        paired(
            encode_function(m, f, a, ns, stack, return_target, return_register),
            encode_function(m, f, b, ns, stack, return_target, return_register),
            base,
        ),
    decreases depth_left(m, stack), 6nat, 0nat,
{
    lemma_paired_warning(a, b, base);
    if !is_recursive(stack) && !is_cyclic(f, ns, return_target) {
        lemma_terminator_warnings(a, b, base, f, f.blocks.len() as int);
        lemma_blocks(
            m,
            f,
            terminator_warnings(a, f, f.blocks.len() as int),
            terminator_warnings(b, f, f.blocks.len() as int),
            base,
            forward_edges_of(f, ns, return_target),
            backward_edges_of(f, ns, return_target),
            ns,
            stack,
            return_register,
            topological_order(f, ns, return_target).reverse(),
            topological_order(f, ns, return_target).len() as int,
        );
    }
}

/// The encoding of a function keeps a consistent query consistent.
pub proof fn lemma_function_keeps_consistency(
    m: Module,
    f: Function,
    st: QueryState,
    ns: Seq<char>,
    stack: Seq<Seq<char>>,
    return_target: Seq<char>,
    return_register: Seq<char>,
)
    requires
        is_consistent(st),
    ensures
        is_consistent(encode_function(m, f, st, ns, stack, return_target, return_register)),
{
    assert(paired(st, st, st));
    lemma_function(m, f, st, st, st, ns, stack, return_target, return_register);
}

/// Encoding a function a second time, in the same namespace, leaves the
/// set of assertions as the first encoding left it: the second encoding
/// asserts nothing that the query does not hold already.
pub proof fn lemma_encoding_twice(
    m: Module,
    f: Function,
    st: QueryState,
    ns: Seq<char>,
    stack: Seq<Seq<char>>,
    return_target: Seq<char>,
    return_register: Seq<char>,
)
    requires
        is_consistent(st),
    ensures
        ({
            let once = encode_function(m, f, st, ns, stack, return_target, return_register);
            let twice = encode_function(m, f, once, ns, stack, return_target, return_register);
            &&& is_consistent(once)
            &&& forall|x: Prop| twice.assertions.contains(x) <==> once.assertions.contains(x)
            &&& forall|c: Seq<char>| twice.constants.contains(c) <==> once.constants.contains(c)
        }),
{
    let once = encode_function(m, f, st, ns, stack, return_target, return_register);
    let twice = encode_function(m, f, once, ns, stack, return_target, return_register);
    assert(paired(st, st, st));
    lemma_function(m, f, st, st, st, ns, stack, return_target, return_register);
    assert(paired(once, once, st));
    assert(paired(st, once, once));
    lemma_function(m, f, st, once, once, ns, stack, return_target, return_register);
    assert(paired(once, twice, once));
    assert forall|x: Prop| twice.assertions.contains(x) <==> once.assertions.contains(x) by {
        if twice.assertions.contains(x) {
            let i = choose|i: int| 0 <= i < twice.assertions.len() && twice.assertions[i] == x;
            assert(once.assertions.contains(twice.assertions[i]));
        }
        if once.assertions.contains(x) {
            let i = choose|i: int| 0 <= i < once.assertions.len() && once.assertions[i] == x;
            assert(twice.assertions.contains(once.assertions[i]));
        }
    }
    assert forall|c: Seq<char>| twice.constants.contains(c) <==> once.constants.contains(c) by {
        if twice.constants.contains(c) {
            let i = choose|i: int| 0 <= i < twice.constants.len() && twice.constants[i] == c;
            assert(once.constants.contains(twice.constants[i]));
        }
        if once.constants.contains(c) {
            let i = choose|i: int| 0 <= i < once.constants.len() && once.constants[i] == c;
            assert(twice.constants.contains(once.constants[i]));
        }
    }
}

/// A second encoding does not change what the query says: a valuation
/// satisfies the assertions after it exactly when it satisfies those before it.
pub proof fn lemma_second_encoding_means_the_same(
    m: Module,
    f: Function,
    st: QueryState,
    ns: Seq<char>,
    stack: Seq<Seq<char>>,
    return_target: Seq<char>,
    return_register: Seq<char>,
    v: Valuation,
)
    requires
        is_consistent(st),
    ensures
        ({
            let once = encode_function(m, f, st, ns, stack, return_target, return_register);
            let twice = encode_function(m, f, once, ns, stack, return_target, return_register);
            satisfies(v, twice.assertions) == satisfies(v, once.assertions)
        }),
{
    let once = encode_function(m, f, st, ns, stack, return_target, return_register);
    let twice = encode_function(m, f, once, ns, stack, return_target, return_register);
    lemma_encoding_twice(m, f, st, ns, stack, return_target, return_register);
    if satisfies(v, once.assertions) {
        assert forall|i: int| 0 <= i < twice.assertions.len() implies holds(
            #[trigger] twice.assertions[i],
            v,
        ) by {
            assert(twice.assertions.contains(twice.assertions[i]));
            let at = choose|at: int|
                0 <= at < once.assertions.len() && once.assertions[at] == twice.assertions[i];
            assert(holds(once.assertions[at], v));
        }
    }
    if satisfies(v, twice.assertions) {
        assert forall|i: int| 0 <= i < once.assertions.len() implies holds(
            #[trigger] once.assertions[i],
            v,
        ) by {
            assert(once.assertions.contains(once.assertions[i]));
            let at = choose|at: int|
                0 <= at < twice.assertions.len() && twice.assertions[at] == once.assertions[i];
            assert(holds(twice.assertions[at], v));
        }
    }
}

} // verus!
