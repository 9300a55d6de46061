//! One definition for each block.
//!
//! What the encoder asserts while it encodes a function is the definition
//! of a constant, the definition of a block of the function, or the
//! definition of a node that a call of the function brings in: the node
//! behind the call, or a block of the inlined copy of the callee. So where
//! no block of the function bears the name of a node that its calls bring
//! in, the predicate of each block is defined once: by the assertion at
//! the end of the encoding of the block.

use vstd::prelude::*;
use crate::backward_symbolic_execution::{entry_negation, query_for};
use crate::codegen::{common_end_definition, encode_target, parameter_constraints};
use crate::codegen::codegen_basic_block::{
    block_exit, block_index, default_condition, defines_block, encode_block, encode_instructions,
    entry_condition, entry_conjunction, lemma_block_is_found, lemma_block_named_is_named,
};
use crate::codegen::codegen_call::{
    bind_arguments, call_kind, call_node, callee_namespace, callee_symbol, depth_left, encode_call,
    encode_general_call, encode_intrinsic, has_callee, lemma_push_decreases, post_node_name,
    CallKind,
};
use crate::codegen::codegen_function::{
    encode_blocks, encode_function, is_recursive, terminator_warnings,
};
use crate::codegen::codegen_instruction::{encode_instruction, encode_plain};
use crate::control_flow_graph::{
    all_in, backward_edges_of, backward_targets, forward_edges_of, is_cyclic, is_placed,
    lemma_acyclic_order_is_complete, lemma_topological_order, node_name, targets_of,
    topological_order, EdgesView,
};
use crate::formula::{bool_const, equivalence, implication, Formula, Prop};
use crate::ir::{BasicBlock, Function, Instruction, Module, Opcode};
use crate::query::{QueryState, Warning};
use crate::symbolic_execution::{
    module_name, COMMON_END_NODE, MAIN_FUNCTION_NAMESPACE, MAIN_FUNCTION_RETURN_REGISTER,
};
use crate::text::starts_with;
use crate::utils::function_utils::{demangled, function_index, lemma_first_match_bounds};
use crate::utils::var_utils::{resolved, var_name};

verus! {

/// Whether `a`, where it defines a predicate by an implication, defines
/// one whose name is among `allowed`.
pub open spec fn confined(a: Prop, allowed: spec_fn(Seq<char>) -> bool) -> bool {
    a matches Formula::Iff(l, r) ==> (*l matches Formula::Const(name) ==> (*r is Implies
        ==> allowed(name)))
}

/// Whether `st` holds `base` and, behind it, nothing but what is confined to `allowed`.
pub open spec fn grown_from(
    st: QueryState,
    base: Seq<Prop>,
    allowed: spec_fn(Seq<char>) -> bool,
) -> bool {
    &&& base.is_prefix_of(st.assertions)
    &&& forall|i: int|
        base.len() <= i < st.assertions.len() ==> confined(#[trigger] st.assertions[i], allowed)
}

/// Whether the call `i`, made in the namespace `ns`, brings in a node
/// called `name`: the node behind the call, a block of the inlined copy of
/// the callee, or a node that a call of the callee brings in.
pub open spec fn inlined_by_call(
    m: Module,
    i: Instruction,
    ns: Seq<char>,
    stack: Seq<Seq<char>>,
    name: Seq<char>,
) -> bool
    decreases depth_left(m, stack), 0nat,
{
    if i.opcode == Opcode::Call && has_callee(i) && call_kind(
        demangled(callee_symbol(i)),
        module_name(m.name@),
    ) == CallKind::General {
        match function_index(m, demangled(callee_symbol(i))) {
            None => false,
            Some(c) => {
                let callee = m.functions[c];
                if stack.contains(callee.name@) {
                    false
                } else {
                    let post_node = post_node_name(ns, var_name(i.text@, ns));
                    proof {
                        lemma_first_match_bounds(m, demangled(callee_symbol(i)), 0);
                        lemma_push_decreases(m, stack, c, m.functions.len() as int);
                    }
                    name == post_node || inlined_by_function(
                        m,
                        callee,
                        callee_namespace(post_node),
                        stack.push(callee.name@),
                        name,
                    )
                }
            },
        }
    } else {
        false
    }
}

/// Whether a call of `f`, encoded in the namespace `ns`, brings in a node
/// called `name`.
pub open spec fn inlined_by_calls(
    m: Module,
    f: Function,
    ns: Seq<char>,
    stack: Seq<Seq<char>>,
    name: Seq<char>,
) -> bool
    decreases depth_left(m, stack), 1nat,
{
    exists|j: int, k: int|
        0 <= j < f.blocks.len() && 0 <= k < f.blocks[j].instructions.len() && inlined_by_call(
            m,
            #[trigger] f.blocks[j].instructions[k],
            ns,
            stack,
            name,
        )
}

/// Whether `name` is a node of the copy of `f` in the namespace `ns`: a
/// block of `f`, or a node that a call of `f` brings in.
pub open spec fn inlined_by_function(
    m: Module,
    f: Function,
    ns: Seq<char>,
    stack: Seq<Seq<char>>,
    name: Seq<char>,
) -> bool
    decreases depth_left(m, stack), 2nat,
{
    (exists|j: int| 0 <= j < f.blocks.len() && name == #[trigger] node_name(f, j, ns))
        || inlined_by_calls(m, f, ns, stack, name)
}

/// Whether `allowed` holds every node that the call `i` brings in.
pub open spec fn covers_call(
    m: Module,
    i: Instruction,
    ns: Seq<char>,
    stack: Seq<Seq<char>>,
    allowed: spec_fn(Seq<char>) -> bool,
) -> bool {
    forall|n: Seq<char>| #[trigger] inlined_by_call(m, i, ns, stack, n) ==> allowed(n)
}

/// Whether `allowed` holds every node that a call of `f` brings in.
pub open spec fn covers_calls(
    m: Module,
    f: Function,
    ns: Seq<char>,
    stack: Seq<Seq<char>>,
    allowed: spec_fn(Seq<char>) -> bool,
) -> bool {
    forall|n: Seq<char>| #[trigger] inlined_by_calls(m, f, ns, stack, n) ==> allowed(n)
}

/// Whether `allowed` holds every node of the copy of `f` in the namespace `ns`.
pub open spec fn covers_function(
    m: Module,
    f: Function,
    ns: Seq<char>,
    stack: Seq<Seq<char>>,
    allowed: spec_fn(Seq<char>) -> bool,
) -> bool {
    forall|n: Seq<char>| #[trigger] inlined_by_function(m, f, ns, stack, n) ==> allowed(n)
}

/// How many of the first `k` of `assertions` define the predicate of the node `name`.
pub open spec fn count_definitions(assertions: Seq<Prop>, name: Seq<char>, k: int) -> nat
    decreases k,
{
    if k <= 0 {
        0
    } else if defines_block(assertions[k - 1], name) {
        count_definitions(assertions, name, k - 1) + 1
    } else {
        count_definitions(assertions, name, k - 1)
    }
}

/// How many assertions of `st` define the predicate of the node `name`.
pub open spec fn definitions_in(st: QueryState, name: Seq<char>) -> nat {
    count_definitions(st.assertions, name, st.assertions.len() as int)
}

/// A string begins with each of its prefixes, and what begins with a
/// string begins with what that string begins with.
pub proof fn lemma_starts_with(x: Seq<char>, y: Seq<char>, z: Seq<char>)
    ensures
        starts_with(x + y, x),
        starts_with(x, y) && starts_with(y, z) ==> starts_with(x, z),
{
    assert((x + y).subrange(0, x.len() as int) =~= x);
    if starts_with(x, y) && starts_with(y, z) {
        assert(x.subrange(0, z.len() as int) =~= y.subrange(0, z.len() as int));
    }
}

/// A name in a namespace begins with the namespace and an underscore only
/// where the name itself begins with an underscore.
pub proof fn lemma_underscore(ns: Seq<char>, name: Seq<char>)
    ensures
        starts_with(ns + name, ns + "_"@) == starts_with(name, "_"@),
{
    let long = ns + name;
    let prefix = ns + "_"@;
    if starts_with(long, prefix) {
        assert(name.subrange(0, "_"@.len() as int) =~= long.subrange(
            ns.len() as int,
            prefix.len() as int,
        ));
        assert(long.subrange(ns.len() as int, prefix.len() as int) =~= long.subrange(
            0,
            prefix.len() as int,
        ).subrange(ns.len() as int, prefix.len() as int));
        assert(prefix.subrange(ns.len() as int, prefix.len() as int) =~= "_"@);
    }
    if starts_with(name, "_"@) {
        assert(long.subrange(0, prefix.len() as int) =~= ns + name.subrange(
            0,
            "_"@.len() as int,
        ));
    }
}

/// The namespace of an inlined copy begins with the namespace of the call and an underscore.
pub proof fn lemma_callee_namespace(ns: Seq<char>, register: Seq<char>)
    ensures
        starts_with(callee_namespace(post_node_name(ns, register)), ns + "_"@),
        starts_with(post_node_name(ns, register), ns + "_"@),
{
    let post_node = post_node_name(ns, register);
    assert(post_node =~= (ns + "_"@) + register);
    assert(callee_namespace(post_node) =~= (ns + "_"@) + (register + "."@));
    lemma_starts_with(ns + "_"@, register, seq![]);
    lemma_starts_with(ns + "_"@, register + "."@, seq![]);
}

/// Every node that a call brings in has a name that begins with the
/// namespace of the call and an underscore.
pub proof fn lemma_inlined_by_call_is_marked(
    m: Module,
    i: Instruction,
    ns: Seq<char>,
    stack: Seq<Seq<char>>,
    name: Seq<char>,
)
    requires
        inlined_by_call(m, i, ns, stack, name),
    ensures
        starts_with(name, ns + "_"@),
    decreases depth_left(m, stack), 0nat,
{
    let c = function_index(m, demangled(callee_symbol(i)))->Some_0;
    let callee = m.functions[c];
    let register = var_name(i.text@, ns);
    let post_node = post_node_name(ns, register);
    let callee_ns = callee_namespace(post_node);
    lemma_callee_namespace(ns, register);
    if name != post_node {
        lemma_first_match_bounds(m, demangled(callee_symbol(i)), 0);
        lemma_push_decreases(m, stack, c, m.functions.len() as int);
        lemma_inlined_by_function_is_in_namespace(
            m,
            callee,
            callee_ns,
            stack.push(callee.name@),
            name,
        );
        lemma_starts_with(name, callee_ns, ns + "_"@);
    }
}

/// Every node of the copy of a function in a namespace has a name that
/// begins with the namespace.
pub proof fn lemma_inlined_by_function_is_in_namespace(
    m: Module,
    f: Function,
    ns: Seq<char>,
    stack: Seq<Seq<char>>,
    name: Seq<char>,
)
    requires
        inlined_by_function(m, f, ns, stack, name),
    ensures
        starts_with(name, ns),
    decreases depth_left(m, stack), 2nat,
{
    if inlined_by_calls(m, f, ns, stack, name) {
        let (j, k) = choose|j: int, k: int|
            0 <= j < f.blocks.len() && 0 <= k < f.blocks[j].instructions.len()
                && inlined_by_call(m, #[trigger] f.blocks[j].instructions[k], ns, stack, name);
        lemma_inlined_by_call_is_marked(m, f.blocks[j].instructions[k], ns, stack, name);
        lemma_starts_with(ns, "_"@, seq![]);
        lemma_starts_with(name, ns + "_"@, ns);
    } else {
        let j = choose|j: int| 0 <= j < f.blocks.len() && name == #[trigger] node_name(f, j, ns);
        lemma_starts_with(ns, f.blocks[j].name@, seq![]);
    }
}

/// What counts up to a place does not depend on what stands behind it.
pub proof fn lemma_count_prefix(a: Seq<Prop>, b: Seq<Prop>, name: Seq<char>, k: int)
    requires
        0 <= k <= a.len(),
        a.is_prefix_of(b),
    ensures
        count_definitions(b, name, k) == count_definitions(a, name, k),
    decreases k,
{
    if k > 0 {
        lemma_count_prefix(a, b, name, k - 1);
        assert(b[k - 1] == a[k - 1]);
    }
}

/// What is confined to names that the name of a node is not among adds
/// no definition of the node.
pub proof fn lemma_count_grown(st: QueryState, base: Seq<Prop>, allowed: spec_fn(Seq<char>) -> bool, name: Seq<char>, k: int)
    requires
        grown_from(st, base, allowed),
        !allowed(name),
        base.len() <= k <= st.assertions.len(),
    ensures
        count_definitions(st.assertions, name, k) == count_definitions(
            base,
            name,
            base.len() as int,
        ),
    decreases k,
{
    if k > base.len() {
        lemma_count_grown(st, base, allowed, name, k - 1);
        assert(confined(st.assertions[k - 1], allowed));
    } else {
        lemma_count_prefix(base, st.assertions, name, k);
    }
}

proof fn lemma_grown_asserting(st: QueryState, base: Seq<Prop>, allowed: spec_fn(Seq<char>) -> bool, a: Prop)
    requires
        grown_from(st, base, allowed),
        confined(a, allowed),
    ensures
        grown_from(st.asserting(a), base, allowed),
{
    let after = st.asserting(a);
    assert forall|i: int| base.len() <= i < after.assertions.len() implies confined(
        #[trigger] after.assertions[i],
        allowed,
    ) by {
        if i < st.assertions.len() {
            assert(after.assertions[i] == st.assertions[i]);
        }
    }
}

proof fn lemma_grown_resolved(st: QueryState, base: Seq<Prop>, allowed: spec_fn(Seq<char>) -> bool, text: Seq<char>)
    requires
        grown_from(st, base, allowed),
    ensures
        grown_from(resolved(st, text), base, allowed),
{
    let after = resolved(st, text);
    assert forall|i: int| base.len() <= i < after.assertions.len() implies confined(
        #[trigger] after.assertions[i],
        allowed,
    ) by {
        if i < st.assertions.len() {
            assert(after.assertions[i] == st.assertions[i]);
        }
    }
}

proof fn lemma_grown_everywhere()
    ensures
        forall|st: QueryState, base: Seq<Prop>, allowed: spec_fn(Seq<char>) -> bool, text: Seq<char>|
            #![trigger grown_from(st, base, allowed), resolved(st, text)]
            grown_from(st, base, allowed) ==> grown_from(resolved(st, text), base, allowed),
        forall|st: QueryState, base: Seq<Prop>, allowed: spec_fn(Seq<char>) -> bool, w: Warning|
            #![trigger grown_from(st, base, allowed), st.warning(w)]
            grown_from(st, base, allowed) ==> grown_from(st.warning(w), base, allowed),
{
    assert forall|st: QueryState, base: Seq<Prop>, allowed: spec_fn(Seq<char>) -> bool, text: Seq<char>|
        #![trigger grown_from(st, base, allowed), resolved(st, text)]
        grown_from(st, base, allowed) implies grown_from(resolved(st, text), base, allowed) by {
        lemma_grown_resolved(st, base, allowed, text);
    }
}

proof fn lemma_plain_instruction(
    st: QueryState,
    base: Seq<Prop>,
    allowed: spec_fn(Seq<char>) -> bool,
    post: Prop,
    i: Instruction,
    ns: Seq<char>,
    return_register: Seq<char>,
)
    requires
        grown_from(st, base, allowed),
    ensures
        grown_from(encode_plain(st, post, i, ns, return_register).0, base, allowed),
{
    lemma_grown_everywhere();
}

proof fn lemma_intrinsic(
    st: QueryState,
    base: Seq<Prop>,
    allowed: spec_fn(Seq<char>) -> bool,
    post: Prop,
    i: Instruction,
    ns: Seq<char>,
    name: Seq<char>,
    kind: CallKind,
)
    requires
        grown_from(st, base, allowed),
    ensures
        grown_from(encode_intrinsic(st, post, i, ns, name, kind).0, base, allowed),
{
    lemma_grown_everywhere();
}

proof fn lemma_bindings(
    st: QueryState,
    base: Seq<Prop>,
    allowed: spec_fn(Seq<char>) -> bool,
    node: Prop,
    callee: Function,
    i: Instruction,
    ns: Seq<char>,
    callee_ns: Seq<char>,
    k: int,
)
    requires
        grown_from(st, base, allowed),
    ensures
        grown_from(bind_arguments(st, node, callee, i, ns, callee_ns, k).0, base, allowed),
    decreases k,
{
    lemma_grown_everywhere();
    if k > 0 {
        lemma_bindings(st, base, allowed, node, callee, i, ns, callee_ns, k - 1);
    }
}

proof fn lemma_default_condition(
    st: QueryState,
    base: Seq<Prop>,
    allowed: spec_fn(Seq<char>) -> bool,
    t: Instruction,
    d: Seq<char>,
    ns: Seq<char>,
    j: int,
)
    requires
        grown_from(st, base, allowed),
    ensures
        grown_from(default_condition(st, t, d, ns, j).0, base, allowed),
    decreases j,
{
    lemma_grown_everywhere();
    if j > 2 {
        lemma_default_condition(st, base, allowed, t, d, ns, j - 1);
    }
}

proof fn lemma_entry_condition(
    st: QueryState,
    base: Seq<Prop>,
    allowed: spec_fn(Seq<char>) -> bool,
    f: Function,
    predecessor: Seq<char>,
    node: Seq<char>,
    ns: Seq<char>,
)
    requires
        grown_from(st, base, allowed),
    ensures
        grown_from(entry_condition(st, f, predecessor, node, ns).0, base, allowed),
{
    lemma_grown_everywhere();
    match block_index(f, ns, predecessor) {
        Some(p) => {
            if f.blocks[p].has_terminator() {
                let t = f.blocks[p].terminator();
                if t.opcode == Opcode::Switch && t.has_value(0) {
                    lemma_grown_resolved(st, base, allowed, t.value(0).text@);
                    lemma_default_condition(
                        resolved(st, t.value(0).text@),
                        base,
                        allowed,
                        t,
                        var_name(t.value(0).text@, ns),
                        ns,
                        t.operands.len() as int,
                    );
                }
            }
        },
        None => {},
    }
}

proof fn lemma_entry_conjunction(
    st: QueryState,
    base: Seq<Prop>,
    allowed: spec_fn(Seq<char>) -> bool,
    f: Function,
    predecessors: Seq<Seq<char>>,
    node: Seq<char>,
    ns: Seq<char>,
    k: int,
)
    requires
        grown_from(st, base, allowed),
    ensures
        grown_from(entry_conjunction(st, f, predecessors, node, ns, k).0, base, allowed),
    decreases k,
{
    if k > 0 {
        lemma_entry_conjunction(st, base, allowed, f, predecessors, node, ns, k - 1);
        lemma_entry_condition(
            entry_conjunction(st, f, predecessors, node, ns, k - 1).0,
            base,
            allowed,
            f,
            predecessors[k - 1],
            node,
            ns,
        );
    }
}

proof fn lemma_terminator_warnings(
    st: QueryState,
    base: Seq<Prop>,
    allowed: spec_fn(Seq<char>) -> bool,
    f: Function,
    k: int,
)
    requires
        grown_from(st, base, allowed),
    ensures
        grown_from(terminator_warnings(st, f, k), base, allowed),
        terminator_warnings(st, f, k).assertions == st.assertions,
    decreases k,
{
    if k > 0 {
        lemma_terminator_warnings(st, base, allowed, f, k - 1);
    }
}

proof fn lemma_general_call(
    m: Module,
    st: QueryState,
    base: Seq<Prop>,
    allowed: spec_fn(Seq<char>) -> bool,
    post: Prop,
    i: Instruction,
    ns: Seq<char>,
    stack: Seq<Seq<char>>,
    name: Seq<char>,
)
    requires
        grown_from(st, base, allowed),
        i.opcode == Opcode::Call,
        has_callee(i),
        name == demangled(callee_symbol(i)),
        call_kind(name, module_name(m.name@)) == CallKind::General,
        covers_call(m, i, ns, stack, allowed),
    ensures
        grown_from(encode_general_call(m, st, post, i, ns, stack, name).0, base, allowed),
    decreases depth_left(m, stack), 0nat, 0nat,
{
    lemma_grown_everywhere();
    match function_index(m, name) {
        None => {},
        Some(c) => {
            let callee = m.functions[c];
            if !stack.contains(callee.name@) {
                let result_register = var_name(i.text@, ns);
                let post_node = post_node_name(ns, result_register);
                let callee_ns = callee_namespace(post_node);
                let deeper = stack.push(callee.name@);
                assert(inlined_by_call(m, i, ns, stack, post_node));
                assert forall|n: Seq<char>| #[trigger]
                    inlined_by_function(m, callee, callee_ns, deeper, n) implies allowed(n) by {
                    assert(inlined_by_call(m, i, ns, stack, n));
                }
                lemma_grown_resolved(st, base, allowed, i.text@);
                lemma_grown_asserting(
                    resolved(st, i.text@),
                    base,
                    allowed,
                    equivalence(bool_const(post_node), post),
                );
                let st1 = resolved(st, i.text@).asserting(
                    equivalence(bool_const(post_node), post),
                );
                lemma_first_match_bounds(m, name, 0);
                lemma_push_decreases(m, stack, c, m.functions.len() as int);
                lemma_function(
                    m,
                    callee,
                    st1,
                    base,
                    allowed,
                    callee_ns,
                    stack.push(callee.name@),
                    post_node,
                    result_register,
                );
                let st2 = encode_function(
                    m,
                    callee,
                    st1,
                    callee_ns,
                    stack.push(callee.name@),
                    post_node,
                    result_register,
                );
                lemma_bindings(
                    st2,
                    base,
                    allowed,
                    call_node(callee, callee_ns, post_node),
                    callee,
                    i,
                    ns,
                    callee_ns,
                    callee.params.len() as int,
                );
            }
        },
    }
}

proof fn lemma_call(
    m: Module,
    st: QueryState,
    base: Seq<Prop>,
    allowed: spec_fn(Seq<char>) -> bool,
    post: Prop,
    i: Instruction,
    ns: Seq<char>,
    stack: Seq<Seq<char>>,
)
    requires
        grown_from(st, base, allowed),
        i.opcode == Opcode::Call,
        covers_call(m, i, ns, stack, allowed),
    ensures
        grown_from(encode_call(m, st, post, i, ns, stack).0, base, allowed),
    decreases depth_left(m, stack), 1nat, 0nat,
{
    lemma_grown_everywhere();
    if has_callee(i) {
        let name = demangled(callee_symbol(i));
        let kind = call_kind(name, module_name(m.name@));
        if kind == CallKind::General {
            lemma_general_call(m, st, base, allowed, post, i, ns, stack, name);
        } else {
            lemma_intrinsic(st, base, allowed, post, i, ns, name, kind);
        }
    }
}

proof fn lemma_instruction(
    m: Module,
    st: QueryState,
    base: Seq<Prop>,
    allowed: spec_fn(Seq<char>) -> bool,
    post: Prop,
    i: Instruction,
    ns: Seq<char>,
    stack: Seq<Seq<char>>,
    return_register: Seq<char>,
)
    requires
        grown_from(st, base, allowed),
        covers_call(m, i, ns, stack, allowed),
    ensures
        grown_from(encode_instruction(m, st, post, i, ns, stack, return_register).0, base, allowed),
    decreases depth_left(m, stack), 2nat, 0nat,
{
    if i.opcode == Opcode::Call {
        lemma_call(m, st, base, allowed, post, i, ns, stack);
    } else {
        lemma_plain_instruction(st, base, allowed, post, i, ns, return_register);
    }
}

proof fn lemma_instructions(
    m: Module,
    st: QueryState,
    base: Seq<Prop>,
    allowed: spec_fn(Seq<char>) -> bool,
    post: Prop,
    block: BasicBlock,
    ns: Seq<char>,
    stack: Seq<Seq<char>>,
    return_register: Seq<char>,
    from: int,
)
    requires
        grown_from(st, base, allowed),
        forall|k: int|
            0 <= k < block.instructions.len() ==> covers_call(
                m,
                #[trigger] block.instructions[k],
                ns,
                stack,
                allowed,
            ),
    ensures
        grown_from(
            encode_instructions(m, st, post, block, ns, stack, return_register, from).0,
            base,
            allowed,
        ),
    decreases depth_left(m, stack), 3nat, block.instructions.len() - from,
{
    if 0 <= from < block.instructions.len() {
        lemma_instructions(m, st, base, allowed, post, block, ns, stack, return_register, from + 1);
        let behind = encode_instructions(
            m,
            st,
            post,
            block,
            ns,
            stack,
            return_register,
            from + 1,
        );
        lemma_instruction(
            m,
            behind.0,
            base,
            allowed,
            behind.1,
            block.instructions[from],
            ns,
            stack,
            return_register,
        );
    }
}

/// The query before the last assertion of the encoding of a block: what
/// the instructions and the conditions of entry leave.
pub open spec fn before_definition(
    m: Module,
    f: Function,
    st: QueryState,
    node: Seq<char>,
    forward: EdgesView,
    backward: EdgesView,
    ns: Seq<char>,
    stack: Seq<Seq<char>>,
    return_register: Seq<char>,
) -> QueryState {
    let at = block_index(f, ns, node)->Some_0;
    let body = encode_instructions(
        m,
        st,
        block_exit(f.blocks[at], targets_of(forward, node)),
        f.blocks[at],
        ns,
        stack,
        return_register,
        0,
    );
    entry_conjunction(
        body.0,
        f,
        targets_of(backward, node),
        node,
        ns,
        targets_of(backward, node).len() as int,
    ).0
}

proof fn lemma_before_definition(
    m: Module,
    f: Function,
    st: QueryState,
    base: Seq<Prop>,
    allowed: spec_fn(Seq<char>) -> bool,
    node: Seq<char>,
    forward: EdgesView,
    backward: EdgesView,
    ns: Seq<char>,
    stack: Seq<Seq<char>>,
    return_register: Seq<char>,
)
    requires
        grown_from(st, base, allowed),
        covers_calls(m, f, ns, stack, allowed),
        block_index(f, ns, node) is Some,
    ensures
        grown_from(
            before_definition(m, f, st, node, forward, backward, ns, stack, return_register),
            base,
            allowed,
        ),
        exists|a: Prop|
            defines_block(a, node) && #[trigger] before_definition(
                m,
                f,
                st,
                node,
                forward,
                backward,
                ns,
                stack,
                return_register,
            ).asserting(a) == encode_block(
                m,
                f,
                st,
                node,
                forward,
                backward,
                ns,
                stack,
                return_register,
            ),
    decreases depth_left(m, stack), 4nat, 0nat,
{
    let at = block_index(f, ns, node)->Some_0;
    let exit = block_exit(f.blocks[at], targets_of(forward, node));
    lemma_block_named_is_named(f, ns, node, f.blocks.len() as int);
    assert forall|k: int| 0 <= k < f.blocks[at].instructions.len() implies covers_call(
        m,
        #[trigger] f.blocks[at].instructions[k],
        ns,
        stack,
        allowed,
    ) by {
        assert forall|n: Seq<char>| #[trigger]
            inlined_by_call(m, f.blocks[at].instructions[k], ns, stack, n) implies allowed(
            n,
        ) by {
            assert(inlined_by_calls(m, f, ns, stack, n));
        }
    }
    lemma_instructions(m, st, base, allowed, exit, f.blocks[at], ns, stack, return_register, 0);
    let body = encode_instructions(m, st, exit, f.blocks[at], ns, stack, return_register, 0);
    let predecessors = targets_of(backward, node);
    lemma_entry_conjunction(
        body.0,
        base,
        allowed,
        f,
        predecessors,
        node,
        ns,
        predecessors.len() as int,
    );
    let entry = entry_conjunction(body.0, f, predecessors, node, ns, predecessors.len() as int);
    let a = equivalence(bool_const(node), implication(entry.1, body.1));
    assert(defines_block(a, node));
    assert(before_definition(
        m,
        f,
        st,
        node,
        forward,
        backward,
        ns,
        stack,
        return_register,
    ).asserting(a) == encode_block(
        m,
        f,
        st,
        node,
        forward,
        backward,
        ns,
        stack,
        return_register,
    ));
}

proof fn lemma_block(
    m: Module,
    f: Function,
    st: QueryState,
    base: Seq<Prop>,
    allowed: spec_fn(Seq<char>) -> bool,
    node: Seq<char>,
    forward: EdgesView,
    backward: EdgesView,
    ns: Seq<char>,
    stack: Seq<Seq<char>>,
    return_register: Seq<char>,
)
    requires
        grown_from(st, base, allowed),
        covers_function(m, f, ns, stack, allowed),
    ensures
        grown_from(
            encode_block(m, f, st, node, forward, backward, ns, stack, return_register),
            base,
            allowed,
        ),
    decreases depth_left(m, stack), 4nat, 1nat,
{
    lemma_grown_everywhere();
    assert forall|n: Seq<char>| #[trigger] inlined_by_calls(m, f, ns, stack, n) implies allowed(
        n,
    ) by {
        assert(inlined_by_function(m, f, ns, stack, n));
    }
    match block_index(f, ns, node) {
        None => {},
        Some(at) => {
            lemma_before_definition(
                m,
                f,
                st,
                base,
                allowed,
                node,
                forward,
                backward,
                ns,
                stack,
                return_register,
            );
            let before = before_definition(
                m,
                f,
                st,
                node,
                forward,
                backward,
                ns,
                stack,
                return_register,
            );
            let a = choose|a: Prop|
                defines_block(a, node) && #[trigger] before.asserting(a) == encode_block(
                    m,
                    f,
                    st,
                    node,
                    forward,
                    backward,
                    ns,
                    stack,
                    return_register,
                );
            lemma_block_named_is_named(
                f,
                ns,
                node,
                f.blocks.len() as int,
            );
            assert(node == node_name(f, at, ns));
            assert(inlined_by_function(m, f, ns, stack, node));
            lemma_grown_asserting(before, base, allowed, a);
        },
    }
}

proof fn lemma_blocks(
    m: Module,
    f: Function,
    st: QueryState,
    base: Seq<Prop>,
    allowed: spec_fn(Seq<char>) -> bool,
    forward: EdgesView,
    backward: EdgesView,
    ns: Seq<char>,
    stack: Seq<Seq<char>>,
    return_register: Seq<char>,
    order: Seq<Seq<char>>,
    k: int,
)
    requires
        grown_from(st, base, allowed),
        covers_function(m, f, ns, stack, allowed),
    ensures
        grown_from(
            encode_blocks(m, f, st, forward, backward, ns, stack, return_register, order, k),
            base,
            allowed,
        ),
    decreases depth_left(m, stack), 5nat, k,
{
    if k > 0 {
        lemma_blocks(
            m,
            f,
            st,
            base,
            allowed,
            forward,
            backward,
            ns,
            stack,
            return_register,
            order,
            k - 1,
        );
        lemma_block(
            m,
            f,
            encode_blocks(m, f, st, forward, backward, ns, stack, return_register, order, k - 1),
            base,
            allowed,
            order[k - 1],
            forward,
            backward,
            ns,
            stack,
            return_register,
        );
    }
}

/// What the encoding of a function in a namespace asserts is confined to
/// the nodes of its copy in that namespace.
pub proof fn lemma_function(
    m: Module,
    f: Function,
    st: QueryState,
    base: Seq<Prop>,
    allowed: spec_fn(Seq<char>) -> bool,
    ns: Seq<char>,
    stack: Seq<Seq<char>>,
    return_target: Seq<char>,
    return_register: Seq<char>,
)
    requires
        grown_from(st, base, allowed),
        covers_function(m, f, ns, stack, allowed),
    ensures
        grown_from(
            encode_function(m, f, st, ns, stack, return_target, return_register),
            base,
            allowed,
        ),
    decreases depth_left(m, stack), 6nat, 0nat,
{
    lemma_grown_everywhere();
    if !is_recursive(stack) && !is_cyclic(f, ns, return_target) {
        lemma_terminator_warnings(st, base, allowed, f, f.blocks.len() as int);
        lemma_blocks(
            m,
            f,
            terminator_warnings(st, f, f.blocks.len() as int),
            base,
            allowed,
            forward_edges_of(f, ns, return_target),
            backward_edges_of(f, ns, return_target),
            ns,
            stack,
            return_register,
            topological_order(f, ns, return_target).reverse(),
            topological_order(f, ns, return_target).len() as int,
        );
    }
}

/// How many of the first `k` of `order` are the node `name`.
pub open spec fn occurrences(order: Seq<Seq<char>>, name: Seq<char>, k: int) -> nat
    decreases k,
{
    if k <= 0 {
        0
    } else if order[k - 1] == name {
        occurrences(order, name, k - 1) + 1
    } else {
        occurrences(order, name, k - 1)
    }
}

/// A list without repetition holds each of its items once.
pub proof fn lemma_occurs_once(order: Seq<Seq<char>>, name: Seq<char>, k: int)
    requires
        order.no_duplicates(),
        0 <= k <= order.len(),
    ensures
        occurrences(order, name, k) == if exists|i: int| 0 <= i < k && order[i] == name {
            1nat
        } else {
            0nat
        },
    decreases k,
{
    if k > 0 {
        lemma_occurs_once(order, name, k - 1);
        if order[k - 1] == name {
            if exists|i: int| 0 <= i < k - 1 && order[i] == name {
                let i = choose|i: int| 0 <= i < k - 1 && order[i] == name;
                assert(order[i] == order[k - 1]);
            }
        } else if exists|i: int| 0 <= i < k && order[i] == name {
            let i = choose|i: int| 0 <= i < k && order[i] == name;
            assert(i < k - 1);
        }
    }
}

/// The encoding of a block adds one definition of its own node, and none
/// of any other node that no call of the function brings in.
pub proof fn lemma_block_adds_its_definition(
    m: Module,
    f: Function,
    st: QueryState,
    node: Seq<char>,
    forward: EdgesView,
    backward: EdgesView,
    ns: Seq<char>,
    stack: Seq<Seq<char>>,
    return_register: Seq<char>,
    name: Seq<char>,
)
    requires
        block_index(f, ns, node) is Some,
        !inlined_by_calls(m, f, ns, stack, name),
    ensures
        definitions_in(
            encode_block(m, f, st, node, forward, backward, ns, stack, return_register),
            name,
        ) == definitions_in(st, name) + if node == name {
            1nat
        } else {
            0nat
        },
{
    let allowed = |n: Seq<char>| inlined_by_calls(m, f, ns, stack, n);
    assert(grown_from(st, st.assertions, allowed));
    lemma_before_definition(
        m,
        f,
        st,
        st.assertions,
        allowed,
        node,
        forward,
        backward,
        ns,
        stack,
        return_register,
    );
    let before = before_definition(
        m,
        f,
        st,
        node,
        forward,
        backward,
        ns,
        stack,
        return_register,
    );
    let a = choose|a: Prop|
        defines_block(a, node) && #[trigger] before.asserting(a) == encode_block(
            m,
            f,
            st,
            node,
            forward,
            backward,
            ns,
            stack,
            return_register,
        );
    let after = before.asserting(a);
    lemma_count_grown(before, st.assertions, allowed, name, before.assertions.len() as int);
    lemma_count_prefix(
        before.assertions,
        after.assertions,
        name,
        before.assertions.len() as int,
    );
    assert(after.assertions[before.assertions.len() as int] == a);
    assert(defines_block(a, name) == (node == name));
}

/// The encoding of the first `k` nodes of `order` adds, for a node that no
/// call of the function brings in, as many definitions as the node stands
/// among them.
pub proof fn lemma_blocks_add_their_definitions(
    m: Module,
    f: Function,
    st: QueryState,
    forward: EdgesView,
    backward: EdgesView,
    ns: Seq<char>,
    stack: Seq<Seq<char>>,
    return_register: Seq<char>,
    order: Seq<Seq<char>>,
    k: int,
    name: Seq<char>,
)
    requires
        0 <= k <= order.len(),
        forall|i: int| 0 <= i < order.len() ==> block_index(f, ns, #[trigger] order[i]) is Some,
        !inlined_by_calls(m, f, ns, stack, name),
    ensures
        definitions_in(
            encode_blocks(m, f, st, forward, backward, ns, stack, return_register, order, k),
            name,
        ) == definitions_in(st, name) + occurrences(order, name, k),
    decreases k,
{
    if k > 0 {
        lemma_blocks_add_their_definitions(
            m,
            f,
            st,
            forward,
            backward,
            ns,
            stack,
            return_register,
            order,
            k - 1,
            name,
        );
        assert(block_index(f, ns, order[k - 1]) is Some);
        lemma_block_adds_its_definition(
            m,
            f,
            encode_blocks(m, f, st, forward, backward, ns, stack, return_register, order, k - 1),
            order[k - 1],
            forward,
            backward,
            ns,
            stack,
            return_register,
            name,
        );
    }
}

/// Whether no block of `f`, encoded in the namespace `ns`, bears the name
/// of a node that a call of `f` brings in: of the node behind a call, or
/// of a block of an inlined copy.
pub open spec fn blocks_apart_from_calls(
    m: Module,
    f: Function,
    ns: Seq<char>,
    stack: Seq<Seq<char>>,
) -> bool {
    forall|j: int|
        0 <= j < f.blocks.len() ==> !inlined_by_calls(m, f, ns, stack, #[trigger] node_name(f, j, ns))
}

/// Whether no block of `f` has a name that begins with an underscore.
pub open spec fn plain_block_names(f: Function) -> bool {
    forall|i: int| 0 <= i < f.blocks.len() ==> !starts_with(#[trigger] f.blocks[i].name@, "_"@)
}

/// Where no block of a function has a name that begins with an underscore,
/// no block bears the name of a node that a call brings in: those names
/// have an underscore behind the namespace.
pub proof fn lemma_plain_names_are_apart_from_calls(
    m: Module,
    f: Function,
    ns: Seq<char>,
    stack: Seq<Seq<char>>,
)
    requires
        plain_block_names(f),
    ensures
        blocks_apart_from_calls(m, f, ns, stack),
{
    assert forall|j: int| 0 <= j < f.blocks.len() implies !inlined_by_calls(
        m,
        f,
        ns,
        stack,
        #[trigger] node_name(f, j, ns),
    ) by {
        let name = node_name(f, j, ns);
        if inlined_by_calls(m, f, ns, stack, name) {
            let (b, k) = choose|b: int, k: int|
                0 <= b < f.blocks.len() && 0 <= k < f.blocks[b].instructions.len()
                    && inlined_by_call(m, #[trigger] f.blocks[b].instructions[k], ns, stack, name);
            lemma_inlined_by_call_is_marked(m, f.blocks[b].instructions[k], ns, stack, name);
            lemma_underscore(ns, f.blocks[j].name@);
        }
    }
}

/// In a function whose graph has no cycle, and none of whose blocks bears
/// the name of a node that its calls bring in, the encoding adds exactly
/// one definition of the predicate of each block.
pub proof fn lemma_one_definition_per_block(
    m: Module,
    f: Function,
    st: QueryState,
    ns: Seq<char>,
    stack: Seq<Seq<char>>,
    return_target: Seq<char>,
    return_register: Seq<char>,
    j: int,
)
    requires
        !is_recursive(stack),
        !is_cyclic(f, ns, return_target),
        blocks_apart_from_calls(m, f, ns, stack),
        0 <= j < f.blocks.len(),
    ensures
        definitions_in(
            encode_function(m, f, st, ns, stack, return_target, return_register),
            node_name(f, j, ns),
        ) == definitions_in(st, node_name(f, j, ns)) + 1,
{
    let name = node_name(f, j, ns);
    let order = topological_order(f, ns, return_target);
    let reversed = order.reverse();
    lemma_topological_order(f, ns, return_target);
    lemma_acyclic_order_is_complete(f, ns, return_target);
    assert(reversed.no_duplicates()) by {
        assert forall|a: int, b: int|
            0 <= a < reversed.len() && 0 <= b < reversed.len() && a != b implies reversed[a]
            != reversed[b] by {
            assert(reversed[a] == order[order.len() - 1 - a]);
            assert(reversed[b] == order[order.len() - 1 - b]);
        }
    }
    assert forall|i: int| 0 <= i < reversed.len() implies block_index(
        f,
        ns,
        #[trigger] reversed[i],
    ) is Some by {
        let at = order.len() - 1 - i;
        assert(reversed[i] == order[at]);
        assert(is_placed(f, ns, return_target, order, at));
        let b = choose|b: int|
            0 <= b < f.blocks.len() && #[trigger] node_name(f, b, ns) == order[at]
                && all_in(
                backward_targets(f, b, ns, return_target),
                order.subrange(0, at),
            );
        lemma_block_is_found(f, ns, b, f.blocks.len() as int);
    }
    let start = terminator_warnings(st, f, f.blocks.len() as int);
    let nothing = |n: Seq<char>| false;
    assert(grown_from(st, st.assertions, nothing));
    lemma_terminator_warnings(st, st.assertions, nothing, f, f.blocks.len() as int);
    lemma_blocks_add_their_definitions(
        m,
        f,
        start,
        forward_edges_of(f, ns, return_target),
        backward_edges_of(f, ns, return_target),
        ns,
        stack,
        return_register,
        reversed,
        reversed.len() as int,
        name,
    );
    lemma_occurs_once(reversed, name, reversed.len() as int);
    let at = choose|at: int| 0 <= at < order.len() && order[at] == name;
    assert(reversed[order.len() - 1 - at] == name);
}

proof fn lemma_parameter_constraints(
    st: QueryState,
    base: Seq<Prop>,
    allowed: spec_fn(Seq<char>) -> bool,
    f: Function,
    ns: Seq<char>,
    k: int,
)
    requires
        grown_from(st, base, allowed),
    ensures
        grown_from(parameter_constraints(st, f, ns, k), base, allowed),
    decreases k,
{
    lemma_grown_everywhere();
    if k > 0 {
        lemma_parameter_constraints(st, base, allowed, f, ns, k - 1);
        let before = parameter_constraints(st, f, ns, k - 1);
        lemma_grown_resolved(before, base, allowed, f.params[k - 1].text@);
        let after = parameter_constraints(st, f, ns, k);
        assert forall|i: int| base.len() <= i < after.assertions.len() implies confined(
            #[trigger] after.assertions[i],
            allowed,
        ) by {
            let r = resolved(before, f.params[k - 1].text@);
            if i < r.assertions.len() {
                assert(after.assertions[i] == r.assertions[i] || (i < before.assertions.len()
                    && after.assertions[i] == before.assertions[i]));
            }
        }
    }
}

/// For every block of a function whose graph has no cycle, and none of
/// whose blocks bears the name of a node that its calls bring in, a query
/// that starts from nothing holds exactly one assertion that defines the
/// predicate of the block.
pub proof fn lemma_query_defines_each_block_once(m: Module, f: Function, ns: Seq<char>, j: int)
    requires
        !is_cyclic(f, ns, COMMON_END_NODE@),
        blocks_apart_from_calls(m, f, ns, seq![f.name@]),
        0 <= j < f.blocks.len(),
    ensures
        definitions_in(query_for(m, f, QueryState::empty(), ns), node_name(f, j, ns)) == 1,
{
    let name = node_name(f, j, ns);
    let none = QueryState::empty();
    let stack = seq![f.name@];
    let allowed = |n: Seq<char>| false;
    lemma_one_definition_per_block(
        m,
        f,
        none,
        ns,
        stack,
        COMMON_END_NODE@,
        MAIN_FUNCTION_RETURN_REGISTER@,
        j,
    );
    let encoded = encode_function(
        m,
        f,
        none,
        ns,
        stack,
        COMMON_END_NODE@,
        MAIN_FUNCTION_RETURN_REGISTER@,
    );
    assert(grown_from(encoded, encoded.assertions, allowed));
    lemma_grown_asserting(encoded, encoded.assertions, allowed, common_end_definition());
    lemma_parameter_constraints(
        encoded.asserting(common_end_definition()),
        encoded.assertions,
        allowed,
        f,
        ns,
        f.params.len() as int,
    );
    let target = encode_target(m, f, none, ns);
    let q = query_for(m, f, none, ns);
    assert(grown_from(q, encoded.assertions, allowed)) by {
        if f.blocks.len() > 0 {
            lemma_grown_asserting(
                target,
                encoded.assertions,
                allowed,
                entry_negation(f, ns),
            );
        }
    }
    lemma_count_grown(q, encoded.assertions, allowed, name, q.assertions.len() as int);
}

/// Only the nodes of a function get a definition: the encoding of a
/// function adds no definition of a name that is neither a block of the
/// function nor a node that its calls bring in.
pub proof fn lemma_only_nodes_are_defined(
    m: Module,
    f: Function,
    st: QueryState,
    ns: Seq<char>,
    stack: Seq<Seq<char>>,
    return_target: Seq<char>,
    return_register: Seq<char>,
    name: Seq<char>,
)
    requires
        !inlined_by_function(m, f, ns, stack, name),
    ensures
        definitions_in(
            encode_function(m, f, st, ns, stack, return_target, return_register),
            name,
        ) == definitions_in(st, name),
{
    let allowed = |n: Seq<char>| inlined_by_function(m, f, ns, stack, n);
    assert(grown_from(st, st.assertions, allowed));
    lemma_function(m, f, st, st.assertions, allowed, ns, stack, return_target, return_register);
    let encoded = encode_function(m, f, st, ns, stack, return_target, return_register);
    lemma_count_grown(encoded, st.assertions, allowed, name, encoded.assertions.len() as int);
}

/// Where no block of the function under verification is called like the
/// common end node, no assertion of its query defines the common end node
/// as a block is defined: the one definition of the common end node is the
/// only assertion that defines it.
pub proof fn lemma_no_block_defines_the_common_end(m: Module, f: Function)
    requires
        forall|j: int| 0 <= j < f.blocks.len() ==> (#[trigger] f.blocks[j]).name@ != COMMON_END_NODE@,
    ensures
        definitions_in(
            query_for(m, f, QueryState::empty(), MAIN_FUNCTION_NAMESPACE@),
            COMMON_END_NODE@,
        ) == 0,
{
    let ns = MAIN_FUNCTION_NAMESPACE@;
    let name = COMMON_END_NODE@;
    let none = QueryState::empty();
    let stack = seq![f.name@];
    reveal_strlit("");
    reveal_strlit("_");
    reveal_strlit("common_end_node");
    assert(!inlined_by_function(m, f, ns, stack, name)) by {
        if inlined_by_calls(m, f, ns, stack, name) {
            let (b, k) = choose|b: int, k: int|
                0 <= b < f.blocks.len() && 0 <= k < f.blocks[b].instructions.len()
                    && inlined_by_call(m, #[trigger] f.blocks[b].instructions[k], ns, stack, name);
            lemma_inlined_by_call_is_marked(m, f.blocks[b].instructions[k], ns, stack, name);
            assert((ns + "_"@)[0] == '_');
            assert(name.subrange(0, (ns + "_"@).len() as int)[0] == name[0]);
        }
        if exists|j: int| 0 <= j < f.blocks.len() && name == #[trigger] node_name(f, j, ns) {
            let j = choose|j: int| 0 <= j < f.blocks.len() && name == #[trigger] node_name(f, j, ns);
            assert(node_name(f, j, ns) =~= f.blocks[j].name@);
        }
    }
    lemma_only_nodes_are_defined(
        m,
        f,
        none,
        ns,
        stack,
        COMMON_END_NODE@,
        MAIN_FUNCTION_RETURN_REGISTER@,
        name,
    );
    let encoded = encode_function(
        m,
        f,
        none,
        ns,
        stack,
        COMMON_END_NODE@,
        MAIN_FUNCTION_RETURN_REGISTER@,
    );
    let allowed = |n: Seq<char>| false;
    assert(grown_from(encoded, encoded.assertions, allowed));
    lemma_grown_asserting(encoded, encoded.assertions, allowed, common_end_definition());
    lemma_parameter_constraints(
        encoded.asserting(common_end_definition()),
        encoded.assertions,
        allowed,
        f,
        ns,
        f.params.len() as int,
    );
    let target = encode_target(m, f, none, ns);
    let q = query_for(m, f, none, ns);
    assert(grown_from(q, encoded.assertions, allowed)) by {
        if f.blocks.len() > 0 {
            lemma_grown_asserting(target, encoded.assertions, allowed, entry_negation(f, ns));
        }
    }
    lemma_count_grown(q, encoded.assertions, allowed, name, q.assertions.len() as int);
}

} // verus!
