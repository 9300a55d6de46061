//! The encoding of a call: the checked-arithmetic intrinsics, the branch
//! hint, the panic entry, and calls into the module itself, which are
//! inlined under a namespace of their own.

use vstd::prelude::*;
use crate::codegen::codegen_function::{codegen_function, encode_function};
use crate::codegen::codegen_instruction::skipped;
use crate::formula::{
    bool_const, bool_names_equal, conjunction, difference, disjunction, equivalence, gt,
    implication, int_const, int_eq, int_lit, int_names_equal, lt, mk_and, mk_bool_names_equal,
    mk_difference, mk_gt, mk_iff, mk_implies, mk_int_eq, mk_int_lit, mk_int_names_equal, mk_lt,
    mk_or, mk_product, mk_sum, named_bool, named_int, product, sum, IntProp, IntTerm, Prop, Term,
};
use crate::ir::{Function, Instruction, Module};
use crate::query::{Query, QueryState, Warning};
use crate::symbolic_execution::{get_module_name_from_file_name, module_name};
use crate::text::{
    concat_str, contains_str, contains_string, push_string, slice_to_string, starts_with,
    str_contains, str_eq, str_starts_with, views,
};
use crate::utils::function_utils::{
    demangled, find_function, function_index, get_function_name, lemma_first_match_bounds,
};
use crate::utils::var_utils::{
    bounds_of, get_min_max_signed_int, get_var_name, resolved, var_name,
};

verus! {

/// What the readable name of every checked addition begins with; the width follows.
pub const CHECKED_ADD_PREFIX: &'static str = "llvm.sadd.with.overflow.i";

/// What the readable name of every checked subtraction begins with; the width follows.
pub const CHECKED_SUB_PREFIX: &'static str = "llvm.ssub.with.overflow.i";

/// What the readable name of every checked multiplication begins with; the width follows.
pub const CHECKED_MUL_PREFIX: &'static str = "llvm.smul.with.overflow.i";

/// The readable name of the branch hint on booleans.
pub const EXPECT_NAME: &'static str = "llvm.expect.i1";

/// What the readable name of every entry into a panic begins with.
pub const PANIC_PREFIX: &'static str = "core::panicking::panic";

/// What a call calls.
#[derive(Clone, Copy, Debug, PartialEq, Eq, Structural)]
pub enum CallKind {
    /// A function of the module under verification.
    General,
    /// Signed addition with an overflow flag.
    CheckedAdd,
    /// Signed subtraction with an overflow flag.
    CheckedSub,
    /// Signed multiplication with an overflow flag.
    CheckedMul,
    /// The branch hint on booleans.
    Expect,
    /// The entry into a panic.
    Panic,
    /// Anything else.
    Unsupported,
}

/// What a call to the function with the readable name `name` calls, in the
/// module called `module`: a function of the module where the name holds
/// the module's name, else what the name says.
pub open spec fn call_kind(name: Seq<char>, module: Seq<char>) -> CallKind {
    if contains_str(name, module) {
        CallKind::General
    } else if starts_with(name, CHECKED_ADD_PREFIX@) {
        CallKind::CheckedAdd
    } else if starts_with(name, CHECKED_SUB_PREFIX@) {
        CallKind::CheckedSub
    } else if starts_with(name, CHECKED_MUL_PREFIX@) {
        CallKind::CheckedMul
    } else if name == EXPECT_NAME@ {
        CallKind::Expect
    } else if starts_with(name, PANIC_PREFIX@) {
        CallKind::Panic
    } else {
        CallKind::Unsupported
    }
}

/// Tells what a call to the function with the readable name `name` calls.
pub fn classify_call(name: &str, module: &str) -> (kind: CallKind)
    ensures
        kind == call_kind(name@, module@),
{
    if str_contains(name, module) {
        CallKind::General
    } else if str_starts_with(name, CHECKED_ADD_PREFIX) {
        CallKind::CheckedAdd
    } else if str_starts_with(name, CHECKED_SUB_PREFIX) {
        CallKind::CheckedSub
    } else if str_starts_with(name, CHECKED_MUL_PREFIX) {
        CallKind::CheckedMul
    } else if str_eq(name, EXPECT_NAME) {
        CallKind::Expect
    } else if str_starts_with(name, PANIC_PREFIX) {
        CallKind::Panic
    } else {
        CallKind::Unsupported
    }
}

/// The width that the readable name of a checked operation ends in: what
/// follows the part that all such names of one operation share.
pub open spec fn width_suffix(name: Seq<char>) -> Seq<char> {
    if CHECKED_ADD_PREFIX@.len() <= name.len() {
        name.subrange(CHECKED_ADD_PREFIX@.len() as int, name.len() as int)
    } else {
        seq![]
    }
}

/// The unbounded result of the checked operation `kind` on `a` and `b`.
pub open spec fn arithmetic(kind: CallKind, a: IntProp, b: IntProp) -> IntProp {
    match kind {
        CallKind::CheckedSub => difference(a, b),
        CallKind::CheckedMul => product(a, b),
        _ => sum(a, b),
    }
}

/// A checked operation: field 0 of the target is the unbounded result,
/// field 1 says whether that result lies outside the bounds of the width.
pub open spec fn encode_checked(
    st: QueryState,
    post: Prop,
    i: Instruction,
    ns: Seq<char>,
    kind: CallKind,
    size: Seq<char>,
) -> (QueryState, Prop) {
    match bounds_of(size) {
        None => skipped(st, Warning::UnsupportedType, post),
        Some(bounds) => if i.has_value(0) && i.has_value(1) {
            let st1 = resolved(resolved(resolved(st, i.value(0).text@), i.value(1).text@), i.text@);
            let result = arithmetic(
                kind,
                int_const(var_name(i.value(0).text@, ns)),
                int_const(var_name(i.value(1).text@, ns)),
            );
            let target = var_name(i.text@, ns);
            (
                st1,
                implication(
                    conjunction(
                        int_eq(int_const(target + ".0"@), result),
                        equivalence(
                            bool_const(target + ".1"@),
                            disjunction(
                                gt(result, int_lit(bounds.1)),
                                lt(result, int_lit(bounds.0)),
                            ),
                        ),
                    ),
                    post,
                ),
            )
        } else {
            skipped(st, Warning::MalformedInstruction, post)
        },
    }
}

/// The branch hint: the target equals the equality of its two operands.
pub open spec fn encode_expect(st: QueryState, post: Prop, i: Instruction, ns: Seq<char>) -> (
    QueryState,
    Prop,
) {
    if i.has_value(0) && i.has_value(1) {
        let st1 = resolved(resolved(resolved(st, i.text@), i.value(0).text@), i.value(1).text@);
        (
            st1,
            implication(
                equivalence(
                    bool_const(var_name(i.text@, ns)),
                    bool_names_equal(
                        var_name(i.value(0).text@, ns),
                        var_name(i.value(1).text@, ns),
                    ),
                ),
                post,
            ),
        )
    } else {
        skipped(st, Warning::MalformedInstruction, post)
    }
}

/// The encoding of a call of the kind `kind`, which is not a call into the
/// module, to the function with the readable name `name`. The entry into a
/// panic adds nothing: the `unreachable` behind it marks the block.
pub open spec fn encode_intrinsic(
    st: QueryState,
    post: Prop,
    i: Instruction,
    ns: Seq<char>,
    name: Seq<char>,
    kind: CallKind,
) -> (QueryState, Prop) {
    match kind {
        CallKind::CheckedAdd | CallKind::CheckedSub | CallKind::CheckedMul => encode_checked(
            st,
            post,
            i,
            ns,
            kind,
            width_suffix(name),
        ),
        CallKind::Expect => encode_expect(st, post, i, ns),
        CallKind::Panic => (st, post),
        _ => skipped(st, Warning::UnsupportedCall, post),
    }
}

/// Builds the unbounded result of the checked operation `kind` on the integers named `a` and `b`.
pub fn make_arithmetic(kind: CallKind, a: &str, b: &str) -> (r: IntTerm)
    ensures
        r@ == arithmetic(kind, int_const(a@), int_const(b@)),
{
    match kind {
        CallKind::CheckedSub => mk_difference(named_int(a), named_int(b)),
        CallKind::CheckedMul => mk_product(named_int(a), named_int(b)),
        _ => mk_sum(named_int(a), named_int(b)),
    }
}

/// Encodes a checked operation on integers of the width that `size` names.
pub fn codegen_checked(
    node_var: Term,
    instruction: &Instruction,
    solver: &mut Query,
    namespace: &str,
    kind: CallKind,
    size: &str,
) -> (r: Term)
    ensures
        (final(solver)@, r@) == encode_checked(
            old(solver)@,
            node_var@,
            *instruction,
            namespace@,
            kind,
            size@,
        ),
{
    let bounds = match get_min_max_signed_int(size) {
        Some(b) => b,
        None => {
            solver.warn(Warning::UnsupportedType);
            return node_var;
        },
    };
    match (instruction.value_operand(0), instruction.value_operand(1)) {
        (Some(a), Some(b)) => {
            let first = get_var_name(a.text.as_str(), solver, namespace);
            let second = get_var_name(b.text.as_str(), solver, namespace);
            let target = get_var_name(instruction.text.as_str(), solver, namespace);
            let value_field = concat_str(target.as_str(), ".0");
            let flag_field = concat_str(target.as_str(), ".1");
            let value = mk_int_eq(
                named_int(value_field.as_str()),
                make_arithmetic(kind, first.as_str(), second.as_str()),
            );
            let above = mk_gt(
                make_arithmetic(kind, first.as_str(), second.as_str()),
                mk_int_lit(bounds.1),
            );
            let below = mk_lt(
                make_arithmetic(kind, first.as_str(), second.as_str()),
                mk_int_lit(bounds.0),
            );
            let flag = mk_iff(named_bool(flag_field.as_str()), mk_or(above, below));
            mk_implies(mk_and(value, flag), node_var)
        },
        _ => {
            solver.warn(Warning::MalformedInstruction);
            node_var
        },
    }
}

/// Encodes the branch hint.
pub fn codegen_expect(
    node_var: Term,
    instruction: &Instruction,
    solver: &mut Query,
    namespace: &str,
) -> (r: Term)
    ensures
        (final(solver)@, r@) == encode_expect(old(solver)@, node_var@, *instruction, namespace@),
{
    match (instruction.value_operand(0), instruction.value_operand(1)) {
        (Some(a), Some(b)) => {
            let target = get_var_name(instruction.text.as_str(), solver, namespace);
            let first = get_var_name(a.text.as_str(), solver, namespace);
            let second = get_var_name(b.text.as_str(), solver, namespace);
            mk_implies(
                mk_iff(
                    named_bool(target.as_str()),
                    mk_bool_names_equal(first.as_str(), second.as_str()),
                ),
                node_var,
            )
        },
        _ => {
            solver.warn(Warning::MalformedInstruction);
            node_var
        },
    }
}

/// Encodes a call of the kind `kind`, which is not a call into the module,
/// to the function with the readable name `name`.
pub fn codegen_intrinsic(
    node_var: Term,
    instruction: &Instruction,
    solver: &mut Query,
    namespace: &str,
    name: &str,
    kind: CallKind,
) -> (r: Term)
    ensures
        (final(solver)@, r@) == encode_intrinsic(
            old(solver)@,
            node_var@,
            *instruction,
            namespace@,
            name@,
            kind,
        ),
{
    match kind {
        CallKind::CheckedAdd | CallKind::CheckedSub | CallKind::CheckedMul => {
            let from = CHECKED_ADD_PREFIX.unicode_len();
            let to = name.unicode_len();
            let size = if from <= to {
                slice_to_string(name, from, to)
            } else {
                String::new()
            };
            assert(size@ =~= width_suffix(name@));
            codegen_checked(node_var, instruction, solver, namespace, kind, size.as_str())
        },
        CallKind::Expect => codegen_expect(node_var, instruction, solver, namespace),
        CallKind::Panic => node_var,
        _ => {
            solver.warn(Warning::UnsupportedCall);
            node_var
        },
    }
}

/// The formula `node` behind the bindings of the first `k` parameters of
/// `callee` to the arguments of the call `i`: each parameter, in the
/// namespace of the callee, equals its argument in the namespace of the caller.
pub open spec fn bind_arguments(
    st: QueryState,
    node: Prop,
    callee: Function,
    i: Instruction,
    ns: Seq<char>,
    callee_ns: Seq<char>,
    k: int,
) -> (QueryState, Prop)
    decreases k,
{
    if k <= 0 {
        (st, node)
    } else {
        let (st1, bound) = bind_arguments(st, node, callee, i, ns, callee_ns, k - 1);
        let parameter = callee.params[k - 1];
        if !i.has_value(k - 1) {
            skipped(st1, Warning::MalformedInstruction, bound)
        } else if parameter.ty.is_bool() {
            (
                resolved(resolved(st1, parameter.text@), i.value(k - 1).text@),
                implication(
                    bool_names_equal(
                        var_name(parameter.text@, callee_ns),
                        var_name(i.value(k - 1).text@, ns),
                    ),
                    bound,
                ),
            )
        } else if parameter.ty.is_int() {
            (
                resolved(resolved(st1, parameter.text@), i.value(k - 1).text@),
                implication(
                    int_names_equal(
                        var_name(parameter.text@, callee_ns),
                        var_name(i.value(k - 1).text@, ns),
                    ),
                    bound,
                ),
            )
        } else {
            skipped(st1, Warning::UnsupportedType, bound)
        }
    }
}

/// Puts the bindings of the parameters of `callee` to the arguments of the
/// call `instruction` in front of `node_var`.
pub fn codegen_bindings(
    node_var: Term,
    callee: &Function,
    instruction: &Instruction,
    solver: &mut Query,
    namespace: &str,
    callee_namespace: &str,
) -> (r: Term)
    ensures
        (final(solver)@, r@) == bind_arguments(
            old(solver)@,
            node_var@,
            *callee,
            *instruction,
            namespace@,
            callee_namespace@,
            callee.params.len() as int,
        ),
{
    let mut node = node_var;
    let mut k: usize = 0;
    while k < callee.params.len()
        invariant
            k <= callee.params.len(),
            (solver@, node@) == bind_arguments(
                old(solver)@,
                node_var@,
                *callee,
                *instruction,
                namespace@,
                callee_namespace@,
                k as int,
            ),
        decreases callee.params.len() - k,
    {
        let parameter = &callee.params[k];
        match instruction.value_operand(k) {
            None => {
                solver.warn(Warning::MalformedInstruction);
            },
            Some(argument) => {
                if parameter.ty.bool_type() {
                    let to = get_var_name(parameter.text.as_str(), solver, callee_namespace);
                    let from = get_var_name(argument.text.as_str(), solver, namespace);
                    node = mk_implies(mk_bool_names_equal(to.as_str(), from.as_str()), node);
                } else if parameter.ty.int_type() {
                    let to = get_var_name(parameter.text.as_str(), solver, callee_namespace);
                    let from = get_var_name(argument.text.as_str(), solver, namespace);
                    node = mk_implies(mk_int_names_equal(to.as_str(), from.as_str()), node);
                } else {
                    solver.warn(Warning::UnsupportedType);
                }
            },
        }
        k = k + 1;
    }
    node
}

/// How many of the first `k` functions of `m` are not being inlined.
pub open spec fn unvisited(m: Module, stack: Seq<Seq<char>>, k: int) -> nat
    decreases k,
{
    if k <= 0 {
        0
    } else if stack.contains(m.functions[k - 1].name@) {
        unvisited(m, stack, k - 1)
    } else {
        unvisited(m, stack, k - 1) + 1
    }
}

/// How deep inlining can still go: the number of functions of `m` that are
/// not on the call stack.
pub open spec fn depth_left(m: Module, stack: Seq<Seq<char>>) -> nat {
    unvisited(m, stack, m.functions.len() as int)
}

/// One more function on the call stack leaves no more functions unvisited.
pub proof fn lemma_unvisited_monotonic(m: Module, stack: Seq<Seq<char>>, name: Seq<char>, k: int)
    requires
        0 <= k <= m.functions.len(),
    ensures
        unvisited(m, stack.push(name), k) <= unvisited(m, stack, k),
    decreases k,
{
    if k > 0 {
        lemma_unvisited_monotonic(m, stack, name, k - 1);
        let own = m.functions[k - 1].name@;
        if stack.contains(own) {
            let j = choose|j: int| 0 <= j < stack.len() && stack[j] == own;
            assert(stack.push(name)[j] == own);
        }
    }
}

/// Inlining a function that is not on the call stack leaves fewer
/// functions to inline: inlining ends.
pub proof fn lemma_push_decreases(m: Module, stack: Seq<Seq<char>>, c: int, k: int)
    requires
        0 <= c < k <= m.functions.len(),
        !stack.contains(m.functions[c].name@),
    ensures
        unvisited(m, stack.push(m.functions[c].name@), k) < unvisited(m, stack, k),
    decreases k,
{
    let name = m.functions[c].name@;
    let pushed = stack.push(name);
    if c == k - 1 {
        lemma_unvisited_monotonic(m, stack, name, k - 1);
        assert(pushed[stack.len() as int] == name);
        assert(pushed.contains(name));
    } else {
        lemma_push_decreases(m, stack, c, k - 1);
        let own = m.functions[k - 1].name@;
        if stack.contains(own) {
            let j = choose|j: int| 0 <= j < stack.len() && stack[j] == own;
            assert(pushed[j] == own);
        }
    }
}

/// The name of the node that stands for what follows a call: the
/// namespace of the caller, an underscore, and the register that takes the result.
pub open spec fn post_node_name(ns: Seq<char>, result_register: Seq<char>) -> Seq<char> {
    ns + "_"@ + result_register
}

/// The namespace of the inlined copy of a callee: the name of the node
/// that follows the call, and a dot.
pub open spec fn callee_namespace(post_node: Seq<char>) -> Seq<char> {
    post_node + "."@
}

/// The node at which the inlined copy of `callee` begins: its entry
/// block, or the node that follows the call where it has no block.
pub open spec fn call_node(callee: Function, callee_ns: Seq<char>, post_node: Seq<char>) -> Prop {
    if callee.blocks.len() > 0 {
        bool_const(callee_ns + callee.blocks[0].name@)
    } else {
        bool_const(post_node)
    }
}

/// The encoding of a call into the module, to the function with the
/// readable name `name`. A function that the module does not define leaves
/// a warning, and so does one that is already being inlined; neither adds
/// anything else. Otherwise what follows the call becomes a node of its
/// own, the callee is encoded under its own namespace with that node as the
/// target of its returns, and the formula before the call is the entry of
/// the callee behind the bindings of its parameters.
pub open spec fn encode_general_call(
    m: Module,
    st: QueryState,
    post: Prop,
    i: Instruction,
    ns: Seq<char>,
    stack: Seq<Seq<char>>,
    name: Seq<char>,
) -> (QueryState, Prop)
    decreases depth_left(m, stack), 0nat, 0nat,
{
    match function_index(m, name) {
        None => skipped(st, Warning::UnsupportedCall, post),
        Some(c) => {
            let callee = m.functions[c];
            if stack.contains(callee.name@) {
                skipped(st, Warning::RecursiveCall, post)
            } else {
                let result_register = var_name(i.text@, ns);
                let post_node = post_node_name(ns, result_register);
                let callee_ns = callee_namespace(post_node);
                let st1 = resolved(st, i.text@).asserting(
                    equivalence(bool_const(post_node), post),
                );
                proof {
                    lemma_first_match_bounds(m, name, 0);
                    lemma_push_decreases(m, stack, c, m.functions.len() as int);
                }
                let st2 = encode_function(
                    m,
                    callee,
                    st1,
                    callee_ns,
                    stack.push(callee.name@),
                    post_node,
                    result_register,
                );
                let entry = call_node(callee, callee_ns, post_node);
                if callee.params.len() + 1 != i.operands.len() {
                    skipped(st2, Warning::MalformedInstruction, entry)
                } else {
                    bind_arguments(st2, entry, callee, i, ns, callee_ns, callee.params.len() as int)
                }
            }
        },
    }
}

/// Whether the call `i` names what it calls: its last operand is a value.
pub open spec fn has_callee(i: Instruction) -> bool {
    i.operands.len() > 0 && i.has_value(i.operands.len() - 1)
}

/// The symbol of the function that the call `i` calls.
pub open spec fn callee_symbol(i: Instruction) -> Seq<char> {
    i.value(i.operands.len() - 1).name@
}

/// The encoding of a call: of a call into the module by inlining, of any
/// other call by what its readable name says.
pub open spec fn encode_call(
    m: Module,
    st: QueryState,
    post: Prop,
    i: Instruction,
    ns: Seq<char>,
    stack: Seq<Seq<char>>,
) -> (QueryState, Prop)
    decreases depth_left(m, stack), 1nat, 0nat,
{
    if !has_callee(i) {
        skipped(st, Warning::MalformedInstruction, post)
    } else {
        let name = demangled(callee_symbol(i));
        let kind = call_kind(name, module_name(m.name@));
        if kind == CallKind::General {
            encode_general_call(m, st, post, i, ns, stack, name)
        } else {
            encode_intrinsic(st, post, i, ns, name, kind)
        }
    }
}

/// Copies a list of strings.
pub fn clone_strings(v: &Vec<String>) -> (r: Vec<String>)
    ensures
        views(r@) == views(v@),
{
    let mut r: Vec<String> = Vec::new();
    let mut k: usize = 0;
    while k < v.len()
        invariant
            k <= v.len(),
            r.len() == k,
            forall|j: int| 0 <= j < k ==> #[trigger] r[j]@ == v[j]@,
        decreases v.len() - k,
    {
        r.push(v[k].clone());
        k = k + 1;
    }
    assert(views(r@) =~= views(v@));
    r
}

/// Encodes a call into the module, to the function with the readable name `callee_name`.
pub fn codegen_general_call(
    module: &Module,
    node_var: Term,
    instruction: &Instruction,
    solver: &mut Query,
    namespace: &str,
    call_stack: &Vec<String>,
    callee_name: &str,
) -> (r: Term)
    ensures
        (final(solver)@, r@) == encode_general_call(
            *module,
            old(solver)@,
            node_var@,
            *instruction,
            namespace@,
            views(call_stack@),
            callee_name@,
        ),
    decreases depth_left(*module, views(call_stack@)), 0nat, 0nat,
{
    let c = match find_function(module, callee_name) {
        Some(c) => c,
        None => {
            solver.warn(Warning::UnsupportedCall);
            return node_var;
        },
    };
    let callee = &module.functions[c];
    if contains_string(call_stack, callee.name.as_str()) {
        solver.warn(Warning::RecursiveCall);
        return node_var;
    }
    let result_register = get_var_name(instruction.text.as_str(), solver, namespace);
    let underscored = concat_str(namespace, "_");
    let post_node = concat_str(underscored.as_str(), result_register.as_str());
    let callee_ns = concat_str(post_node.as_str(), ".");
    solver.add_assertion(mk_iff(named_bool(post_node.as_str()), node_var));
    let mut new_stack = clone_strings(call_stack);
    push_string(&mut new_stack, callee.name.clone());
    proof {
        lemma_push_decreases(*module, views(call_stack@), c as int, module.functions.len() as int);
    }
    codegen_function(
        module,
        callee,
        solver,
        callee_ns.as_str(),
        &new_stack,
        post_node.as_str(),
        result_register.as_str(),
    );
    let entry = if callee.blocks.len() > 0 {
        let first = concat_str(callee_ns.as_str(), callee.blocks[0].name.as_str());
        named_bool(first.as_str())
    } else {
        named_bool(post_node.as_str())
    };
    if callee.params.len() != instruction.operands.len().wrapping_sub(1)
        || instruction.operands.len() == 0 {
        solver.warn(Warning::MalformedInstruction);
        return entry;
    }
    codegen_bindings(entry, callee, instruction, solver, namespace, callee_ns.as_str())
}

/// Encodes a call: a call into the module by inlining, any other call by
/// what its readable name says.
pub fn codegen_call(
    module: &Module,
    node_var: Term,
    instruction: &Instruction,
    solver: &mut Query,
    namespace: &str,
    call_stack: &Vec<String>,
) -> (r: Term)
    ensures
        (final(solver)@, r@) == encode_call(
            *module,
            old(solver)@,
            node_var@,
            *instruction,
            namespace@,
            views(call_stack@),
        ),
    decreases depth_left(*module, views(call_stack@)), 1nat, 0nat,
{
    let n = instruction.operands.len();
    if n == 0 {
        solver.warn(Warning::MalformedInstruction);
        return node_var;
    }
    let callee = match instruction.value_operand(n - 1) {
        Some(v) => v,
        None => {
            solver.warn(Warning::MalformedInstruction);
            return node_var;
        },
    };
    let name = get_function_name(callee.name.as_str());
    let module_name = get_module_name_from_file_name(module.name.as_str());
    let kind = classify_call(name.as_str(), module_name.as_str());
    match kind {
        CallKind::General => codegen_general_call(
            module,
            node_var,
            instruction,
            solver,
            namespace,
            call_stack,
            name.as_str(),
        ),
        _ => codegen_intrinsic(node_var, instruction, solver, namespace, name.as_str(), kind),
    }
}

} // verus!
