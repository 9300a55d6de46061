//! The encoding of instructions, calls, blocks and functions as formulas.

pub mod assertion_shape;
pub mod block_definitions;
pub mod codegen_basic_block;
pub mod codegen_call;
pub mod codegen_function;
pub mod codegen_instruction;
pub mod encoding_twice;

use vstd::prelude::*;
use vstd::arithmetic::power2::{lemma2_to64, lemma2_to64_rest};
use crate::codegen::codegen_function::{codegen_function, encode_function};
use crate::formula::{
    bool_const, conjunction, equivalence, ge, int_const, int_lit, le, mk_and, mk_ge, mk_iff,
    mk_int_lit, mk_le, mk_not, named_bool, named_int, negation, Prop,
};
use crate::ir::{Function, IrType, Module};
use crate::query::{Query, QueryState, Warning};
use crate::symbolic_execution::{COMMON_END_NODE, MAIN_FUNCTION_RETURN_REGISTER, PANIC_VAR_NAME};
use crate::text::views;
use crate::utils::var_utils::{
    bounds_of_width, get_var_name, lemma_resolved_extends, max_signed, min_signed, resolved,
    var_name,
};

verus! {

/// The integer named `name` lies within `bounds`, both ends included.
pub open spec fn range_constraint(name: Seq<char>, bounds: (i64, i64)) -> Prop {
    conjunction(ge(int_const(name), int_lit(bounds.0)), le(int_const(name), int_lit(bounds.1)))
}

/// The bounds of the values of a parameter of the type `ty`: those of a
/// two's-complement integer of its width, for the widths 8, 16, 32 and 64.
pub open spec fn parameter_bounds(ty: IrType) -> Option<(i64, i64)> {
    match ty {
        IrType::Int(w) => if w == 8 || w == 16 || w == 32 || w == 64 {
            Some((min_signed(w as nat) as i64, max_signed(w as nat) as i64))
        } else {
            None
        },
        _ => None,
    }
}

/// The query after the first `k` parameters of `f` were constrained: a
/// boolean is left free; an integer of a supported width is asserted to lie
/// within the bounds of its width; any other parameter leaves a warning.
pub open spec fn parameter_constraints(st: QueryState, f: Function, ns: Seq<char>, k: int) -> QueryState
    decreases k,
{
    if k <= 0 {
        st
    } else {
        let st1 = parameter_constraints(st, f, ns, k - 1);
        let p = f.params[k - 1];
        if p.ty.is_bool() {
            st1
        } else {
            match parameter_bounds(p.ty) {
                Some(bounds) => resolved(st1, p.text@).asserting(
                    range_constraint(var_name(p.text@, ns), bounds),
                ),
                None => st1.warning(Warning::UnsupportedType),
            }
        }
    }
}

/// The definition of the common end node: it is safe to arrive there
/// exactly when the path taken did not end in a panic.
pub open spec fn common_end_definition() -> Prop {
    equivalence(bool_const(COMMON_END_NODE@), negation(bool_const(PANIC_VAR_NAME@)))
}

/// The query after `f` was encoded as the function under verification:
/// its blocks are encoded with `f` alone on the call stack, with the common
/// end node as the target of its returns and the reserved return register;
/// then the common end node is defined; then the parameters of `f` are
/// constrained.
pub open spec fn encode_target(m: Module, f: Function, st: QueryState, ns: Seq<char>) -> QueryState {
    parameter_constraints(
        encode_function(
            m,
            f,
            st,
            ns,
            seq![f.name@],
            COMMON_END_NODE@,
            MAIN_FUNCTION_RETURN_REGISTER@,
        ).asserting(common_end_definition()),
        f,
        ns,
        f.params.len() as int,
    )
}

/// Constrains each integer parameter of `function` to the bounds of its width.
pub fn constrain_parameters(function: &Function, solver: &mut Query, namespace: &str)
    ensures
        final(solver)@ == parameter_constraints(
            old(solver)@,
            *function,
            namespace@,
            function.params.len() as int,
        ),
{
    let mut k: usize = 0;
    while k < function.params.len()
        invariant
            k <= function.params.len(),
            solver@ == parameter_constraints(old(solver)@, *function, namespace@, k as int),
        decreases function.params.len() - k,
    {
        let p = &function.params[k];
        if !p.ty.bool_type() {
            let bounds = match p.ty {
                IrType::Int(w) => bounds_of_width(w),
                _ => None,
            };
            match bounds {
                Some(b) => {
                    let name = get_var_name(p.text.as_str(), solver, namespace);
                    solver.add_assertion(
                        mk_and(
                            mk_ge(named_int(name.as_str()), mk_int_lit(b.0)),
                            mk_le(named_int(name.as_str()), mk_int_lit(b.1)),
                        ),
                    );
                },
                None => {
                    solver.warn(Warning::UnsupportedType);
                },
            }
        }
        k = k + 1;
    }
}

/// Encodes `function` as the function under verification: the predicates
/// of its blocks, the definition of the common end node, and the bounds of
/// its integer parameters.
pub fn function_codegen(module: &Module, function: &Function, solver: &mut Query, namespace: &str)
    ensures
        final(solver)@ == encode_target(*module, *function, old(solver)@, namespace@),
{
    let mut call_stack: Vec<String> = Vec::new();
    call_stack.push(function.name.clone());
    assert(views(call_stack@) =~= seq![function.name@]);
    codegen_function(
        module,
        function,
        solver,
        namespace,
        &call_stack,
        COMMON_END_NODE,
        MAIN_FUNCTION_RETURN_REGISTER,
    );
    solver.add_assertion(mk_iff(named_bool(COMMON_END_NODE), mk_not(named_bool(PANIC_VAR_NAME))));
    constrain_parameters(function, solver, namespace);
}

/// Once the first `k` parameters are constrained, the query holds the
/// range constraint of each parameter among them that is an integer of a
/// supported width.
pub proof fn lemma_parameter_constrained(st: QueryState, f: Function, ns: Seq<char>, k: int, i: int)
    requires
        0 <= i < k <= f.params.len(),
        parameter_bounds(f.params[i].ty) is Some,
    ensures
        parameter_constraints(st, f, ns, k).assertions.contains(
            range_constraint(
                var_name(f.params[i].text@, ns),
                parameter_bounds(f.params[i].ty)->Some_0,
            ),
        ),
    decreases k,
{
    let wanted = range_constraint(
        var_name(f.params[i].text@, ns),
        parameter_bounds(f.params[i].ty)->Some_0,
    );
    let before = parameter_constraints(st, f, ns, k - 1);
    let after = parameter_constraints(st, f, ns, k);
    if i == k - 1 {
        assert(after.assertions.last() == wanted);
    } else {
        lemma_parameter_constrained(st, f, ns, k - 1, i);
        lemma_resolved_extends(before, f.params[k - 1].text@);
        let at = choose|at: int| 0 <= at < before.assertions.len() && before.assertions[at] == wanted;
        assert(after.assertions[at] == wanted);
    }
}

/// For every integer parameter of a supported width, the encoding of the
/// function under verification holds the constraint that the parameter
/// lies within the two's-complement bounds of its width.
pub proof fn lemma_target_parameters_in_range(
    m: Module,
    f: Function,
    st: QueryState,
    ns: Seq<char>,
    i: int,
)
    requires
        0 <= i < f.params.len(),
        parameter_bounds(f.params[i].ty) is Some,
    ensures
        encode_target(m, f, st, ns).assertions.contains(
            range_constraint(
                var_name(f.params[i].text@, ns),
                parameter_bounds(f.params[i].ty)->Some_0,
            ),
        ),
        f.params[i].ty matches IrType::Int(w) && parameter_bounds(f.params[i].ty)->Some_0.0
            == min_signed(w as nat) && parameter_bounds(f.params[i].ty)->Some_0.1 == max_signed(
            w as nat,
        ),
{
    lemma_parameter_constrained(
        encode_function(
            m,
            f,
            st,
            ns,
            seq![f.name@],
            COMMON_END_NODE@,
            MAIN_FUNCTION_RETURN_REGISTER@,
        ).asserting(common_end_definition()),
        f,
        ns,
        f.params.len() as int,
        i,
    );
    lemma2_to64();
    lemma2_to64_rest();
}

} // verus!
