//! The query for one function: its encoding, and the claim that its entry
//! is not safe, which a decision procedure is asked to refute.

use vstd::prelude::*;
use crate::codegen::{
    encode_target, function_codegen, lemma_target_parameters_in_range, parameter_bounds,
    range_constraint,
};
use crate::formula::{bool_const, mk_not, named_bool, negation, Prop};
use crate::ir::{Function, Module};
use crate::query::{Query, QueryState};
use crate::text::concat_str;
use crate::utils::var_utils::var_name;

verus! {

/// The claim that the entry block of `f` is not safe.
pub open spec fn entry_negation(f: Function, ns: Seq<char>) -> Prop {
    negation(bool_const(ns + f.blocks[0].name@))
}

/// The query for `f`: `f` is encoded as the function under verification,
/// and, where `f` has a block, its entry is claimed not to be safe. The
/// query is satisfiable exactly when some input leads to a panic.
pub open spec fn query_for(m: Module, f: Function, st: QueryState, ns: Seq<char>) -> QueryState {
    if f.blocks.len() > 0 {
        encode_target(m, f, st, ns).asserting(entry_negation(f, ns))
    } else {
        encode_target(m, f, st, ns)
    }
}

/// Builds the query for `function` in `solver`, and tells whether
/// `function` has an entry block.
pub fn backward_symbolic_execution(
    module: &Module,
    function: &Function,
    solver: &mut Query,
    namespace: &str,
) -> (has_entry: bool)
    ensures
        final(solver)@ == query_for(*module, *function, old(solver)@, namespace@),
        has_entry == (function.blocks.len() > 0),
{
    function_codegen(module, function, solver, namespace);
    if function.blocks.len() > 0 {
        let entry = concat_str(namespace, function.blocks[0].name.as_str());
        solver.add_assertion(mk_not(named_bool(entry.as_str())));
        true
    } else {
        false
    }
}

/// For every integer parameter of a supported width, the query holds the
/// constraint that the parameter lies within the bounds of its width.
pub proof fn lemma_query_constrains_parameters(
    m: Module,
    f: Function,
    st: QueryState,
    ns: Seq<char>,
    i: int,
)
    requires
        0 <= i < f.params.len(),
        parameter_bounds(f.params[i].ty) is Some,
    ensures
        query_for(m, f, st, ns).assertions.contains(
            range_constraint(
                var_name(f.params[i].text@, ns),
                parameter_bounds(f.params[i].ty)->Some_0,
            ),
        ),
{
    lemma_target_parameters_in_range(m, f, st, ns, i);
    let wanted = range_constraint(
        var_name(f.params[i].text@, ns),
        parameter_bounds(f.params[i].ty)->Some_0,
    );
    let target = encode_target(m, f, st, ns).assertions;
    let at = choose|at: int| 0 <= at < target.len() && target[at] == wanted;
    assert(query_for(m, f, st, ns).assertions[at] == wanted);
}

} // verus!
