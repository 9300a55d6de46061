//! The driver: one query per function, from the IR to a verdict.

use vstd::prelude::*;
use crate::backward_symbolic_execution::{backward_symbolic_execution, query_for};
use crate::ir::{Function, Module};
use crate::query::{Query, QueryState, Warning};
use crate::formula::{clone_formula, Term};
use crate::smt::{check_sat, props, Answer, ModelValue, SatOutcome, Wanted};
use crate::text::{concat_str, scan_back, scan_back_str, slice_to_string};
use crate::utils::function_utils::{
    argument_views, find_function, function_index, get_all_function_argument_names, ArgumentName,
    ArgumentView,
};
use crate::utils::resolve_phi_to_dsa::{resolve_phi_to_dsa, resolved_module};

verus! {

/// The namespace of the function under verification itself.
pub const MAIN_FUNCTION_NAMESPACE: &'static str = "";

/// The name of the node that every return and every panic leads to.
pub const COMMON_END_NODE: &'static str = "common_end_node";

/// The name of the flag that says whether the path taken ends in a panic.
pub const PANIC_VAR_NAME: &'static str = "is_panic";

/// The name of the variable that takes the value returned by the function under verification.
pub const MAIN_FUNCTION_RETURN_REGISTER: &'static str = "wombat_symx_return_register";

/// Where the file name proper begins in a path: behind its last slash.
pub open spec fn stem_start(file_name: Seq<char>) -> int {
    scan_back(file_name, '/', file_name.len() as int) + 1
}

/// Where the file name proper ends: at the last dot, where that dot stands
/// in the file name proper; else at the end.
pub open spec fn stem_end(file_name: Seq<char>) -> int {
    if scan_back(file_name, '.', file_name.len() as int) >= stem_start(file_name) {
        scan_back(file_name, '.', file_name.len() as int)
    } else {
        file_name.len() as int
    }
}

/// The name of the module that a file holds: the file name without its
/// directories and without its extension.
pub open spec fn module_name(file_name: Seq<char>) -> Seq<char> {
    file_name.subrange(stem_start(file_name), stem_end(file_name))
}

/// Gives the name of the module that the file `file_name` holds.
pub fn get_module_name_from_file_name(file_name: &str) -> (name: String)
    ensures
        name@ == module_name(file_name@),
{
    let n = file_name.unicode_len();
    let start: usize = match scan_back_str(file_name, '/', n) {
        Some(i) => i + 1,
        None => 0,
    };
    let end: usize = match scan_back_str(file_name, '.', n) {
        Some(i) => if i >= start {
            i
        } else {
            n
        },
        None => n,
    };
    slice_to_string(file_name, start, end)
}

/// What the verifier says of a function.
#[derive(Clone, Copy, Debug, PartialEq, Eq, Structural)]
pub enum Verdict {
    /// No input leads to a panic.
    Safe,
    /// Some input leads to a panic.
    Unsafe,
    /// Neither could be established.
    Unknown,
}

/// The verdict that goes with an answer of the decision procedure. An
/// encoding that leaves out part of the program gives no verdict, whatever
/// the answer; else a query without a solution means that the function is
/// safe, and a solution is an input that leads to a panic.
pub open spec fn verdict_of(outcome: SatOutcome, incomplete: bool) -> Verdict {
    if incomplete {
        Verdict::Unknown
    } else {
        match outcome {
            SatOutcome::Unsat => Verdict::Safe,
            SatOutcome::Sat => Verdict::Unsafe,
            SatOutcome::Unknown => Verdict::Unknown,
        }
    }
}

/// Gives the verdict that goes with an answer of the decision procedure.
pub fn verdict(outcome: SatOutcome, incomplete: bool) -> (v: Verdict)
    ensures
        v == verdict_of(outcome, incomplete),
{
    if incomplete {
        Verdict::Unknown
    } else {
        match outcome {
            SatOutcome::Unsat => Verdict::Safe,
            SatOutcome::Sat => Verdict::Unsafe,
            SatOutcome::Unknown => Verdict::Unknown,
        }
    }
}

/// The value of one parameter in an input that leads to a panic.
#[derive(Debug, PartialEq, Eq)]
pub struct Assignment {
    /// The name that the source gives the parameter.
    pub name: String,
    /// The value, where the model gives one.
    pub value: Option<ModelValue>,
}

/// The outcome of the verification of one function.
#[derive(Debug, PartialEq, Eq)]
pub struct Report {
    /// The verdict.
    pub verdict: Verdict,
    /// Where the verdict is `Unsafe`: an input that leads to a panic.
    pub counterexample: Vec<Assignment>,
    /// What the encoder had to pass over.
    pub warnings: Vec<Warning>,
    /// The assertions that the decision procedure was asked about, in
    /// their order.
    pub query: Vec<Term>,
}

/// The mathematical content of a counterexample.
pub open spec fn assignment_views(v: Seq<Assignment>) -> Seq<(Seq<char>, Option<ModelValue>)> {
    v.map_values(|a: Assignment| (a.name@, a.value))
}

/// The counterexample that a model gives: each parameter with its value,
/// as far as there is a value for it.
pub open spec fn counterexample_of(
    arguments: Seq<ArgumentView>,
    values: Seq<Option<ModelValue>>,
) -> Seq<(Seq<char>, Option<ModelValue>)> {
    Seq::new(
        if arguments.len() <= values.len() {
            arguments.len()
        } else {
            values.len()
        },
        |i: int| (arguments[i].0, values[i]),
    )
}

/// Puts the answer of the decision procedure into a report: the verdict
/// that goes with it and, where that is `Unsafe`, the counterexample.
pub fn report_from(
    answer: &Answer,
    incomplete: bool,
    arguments: &Vec<ArgumentName>,
    warnings: &Vec<Warning>,
    query: &Vec<Term>,
) -> (report: Report)
    ensures
        report.verdict == verdict_of(answer.outcome, incomplete),
        report.warnings@ == warnings@,
        props(report.query@) == props(query@),
        assignment_views(report.counterexample@) == if report.verdict == Verdict::Unsafe {
            counterexample_of(argument_views(arguments@), answer.values@)
        } else {
            Seq::<(Seq<char>, Option<ModelValue>)>::empty()
        },
{
    let v = verdict(answer.outcome, incomplete);
    let mut counterexample: Vec<Assignment> = Vec::new();
    if v == Verdict::Unsafe {
        let n = if arguments.len() <= answer.values.len() {
            arguments.len()
        } else {
            answer.values.len()
        };
        let mut i: usize = 0;
        while i < n
            invariant
                i <= n,
                n <= arguments.len(),
                n <= answer.values.len(),
                counterexample.len() == i,
                forall|j: int|
                    0 <= j < i ==> (#[trigger] counterexample[j]).name@
                        == arguments[j].source_name@ && counterexample[j].value
                        == answer.values[j],
            decreases n - i,
        {
            counterexample.push(
                Assignment { name: arguments[i].source_name.clone(), value: answer.values[i] },
            );
            i = i + 1;
        }
        assert(assignment_views(counterexample@) =~= counterexample_of(
            argument_views(arguments@),
            answer.values@,
        ));
    } else {
        assert(assignment_views(counterexample@) =~= Seq::<
            (Seq<char>, Option<ModelValue>),
        >::empty());
    }
    let mut passed_over: Vec<Warning> = Vec::new();
    let mut k: usize = 0;
    while k < warnings.len()
        invariant
            k <= warnings.len(),
            passed_over@ == warnings@.subrange(0, k as int),
        decreases warnings.len() - k,
    {
        passed_over.push(warnings[k]);
        assert(passed_over@ =~= warnings@.subrange(0, k + 1));
        k = k + 1;
    }
    assert(passed_over@ =~= warnings@);
    let mut asked: Vec<Term> = Vec::new();
    let mut a: usize = 0;
    while a < query.len()
        invariant
            a <= query.len(),
            asked.len() == a,
            forall|j: int| 0 <= j < a ==> (#[trigger] asked[j])@ == query[j]@,
        decreases query.len() - a,
    {
        asked.push(clone_formula(&query[a]));
        a = a + 1;
    }
    assert(props(asked@) =~= props(query@));
    Report { verdict: v, counterexample, warnings: passed_over, query: asked }
}

/// What the readable name of the function `function_name` of the module
/// called `module` begins with: the two names with `::` between them.
pub open spec fn target_name(module: Seq<char>, function_name: Seq<char>) -> Seq<char> {
    module + "::"@ + function_name
}

/// The function of `m` that `function_name` asks for: the first whose
/// readable name begins with the name of the module, `::`, and `function_name`.
pub open spec fn target_of(m: Module, function_name: Seq<char>) -> Option<int> {
    function_index(m, target_name(module_name(m.name@), function_name))
}

/// Finds the function of `module` that `function_name` asks for.
pub fn find_target(module: &Module, function_name: &str) -> (r: Option<usize>)
    ensures
        r is Some == target_of(*module, function_name@) is Some,
        r matches Some(i) ==> i < module.functions.len() && target_of(*module, function_name@)
            == Some(i as int),
{
    let name = get_module_name_from_file_name(module.name.as_str());
    let scoped = concat_str(name.as_str(), "::");
    let target = concat_str(scoped.as_str(), function_name);
    find_function(module, target.as_str())
}

/// Whether the query for `f` can tell nothing of `f`: the encoding leaves
/// out part of the program, or `f` has no block.
pub open spec fn inconclusive(m: Module, f: Function) -> bool {
    f.blocks.len() == 0 || query_for(
        m,
        f,
        QueryState::empty(),
        MAIN_FUNCTION_NAMESPACE@,
    ).incomplete()
}

/// Verifies the function of `module` that `function_name` asks for, and
/// reports a counterexample over `arguments` where it finds one.
///
/// There is no report where the module has no such function. Else the
/// query for the function is built and Z3 is asked. What Z3 answers is not
/// for this library to say; whatever it answers, the verdict is `Unknown`
/// where the query can tell nothing of the function, and a counterexample
/// comes with the verdict `Unsafe` alone. `report_from` says which report
/// goes with which answer. The report holds the query that Z3 was asked
/// about: the query for the function.
pub fn verify_function(module: &Module, function_name: &str, arguments: &Vec<ArgumentName>) -> (r:
    Option<Report>)
    ensures
        r is Some == target_of(*module, function_name@) is Some,
        r matches Some(report) ==> {
            let f = module.functions[target_of(*module, function_name@)->Some_0];
            &&& inconclusive(*module, f) ==> report.verdict == Verdict::Unknown
            &&& report.warnings@ == query_for(
                *module,
                f,
                QueryState::empty(),
                MAIN_FUNCTION_NAMESPACE@,
            ).warnings
            &&& props(report.query@) == query_for(
                *module,
                f,
                QueryState::empty(),
                MAIN_FUNCTION_NAMESPACE@,
            ).assertions
            &&& report.verdict != Verdict::Unsafe ==> report.counterexample.len() == 0
            &&& report.verdict == Verdict::Unsafe ==> report.counterexample.len()
                == arguments.len()
            &&& forall|i: int|
                0 <= i < report.counterexample.len() && i < arguments.len() ==> (
                #[trigger] report.counterexample[i]).name@ == arguments[i].source_name@
        },
{
    let index = match find_target(module, function_name) {
        Some(i) => i,
        None => {
            return None;
        },
    };
    let function = &module.functions[index];
    let mut solver = Query::new();
    let has_entry = backward_symbolic_execution(
        module,
        function,
        &mut solver,
        MAIN_FUNCTION_NAMESPACE,
    );
    let mut wanted: Vec<Wanted> = Vec::new();
    let mut i: usize = 0;
    while i < arguments.len()
        invariant
            i <= arguments.len(),
            wanted.len() == i,
        decreases arguments.len() - i,
    {
        wanted.push(Wanted { name: arguments[i].smt_name.clone(), ty: arguments[i].ty });
        i = i + 1;
    }
    let answer = check_sat(&solver.assertions, &wanted);
    let incomplete = solver.is_incomplete() || !has_entry;
    let report = report_from(&answer, incomplete, arguments, &solver.warnings, &solver.assertions);
    proof {
        let views = assignment_views(report.counterexample@);
        assert(views.len() == report.counterexample.len());
        assert forall|i: int|
            0 <= i < report.counterexample.len() && i < arguments.len() implies (
        #[trigger] report.counterexample[i]).name@ == arguments[i].source_name@ by {
            assert(views[i].0 == report.counterexample[i].name@);
            assert(argument_views(arguments@)[i].0 == arguments[i].source_name@);
        }
    }
    Some(report)
}

/// Verifies the function of `module` that `function_name` asks for, with
/// the names of its parameters taken from `unpromoted`: the same module
/// before its stack slots were promoted to registers, where parameters
/// without a name still show under which name they are stored.
///
/// The parameters are listed, the phis of `module` are eliminated, and the
/// function is verified as `verify_function` says. There is no report
/// where `module` has no such function, nor where `unpromoted` has no
/// function in its place.
pub fn verify_promoted(unpromoted: &Module, module: &mut Module, function_name: &str) -> (r:
    Option<Report>)
    ensures
        final(module)@ == resolved_module(old(module)@),
        r is Some == (target_of(*final(module), function_name@) matches Some(i) && i
            < unpromoted.functions.len()),
        r matches Some(report) ==> {
            let f = final(module).functions[target_of(*final(module), function_name@)->Some_0];
            &&& inconclusive(*final(module), f) ==> report.verdict == Verdict::Unknown
            &&& report.verdict != Verdict::Unsafe ==> report.counterexample.len() == 0
            &&& report.warnings@ == query_for(
                *final(module),
                f,
                QueryState::empty(),
                MAIN_FUNCTION_NAMESPACE@,
            ).warnings
            &&& props(report.query@) == query_for(
                *final(module),
                f,
                QueryState::empty(),
                MAIN_FUNCTION_NAMESPACE@,
            ).assertions
        },
{
    let mut scratch = Query::new();
    let all = get_all_function_argument_names(unpromoted, &mut scratch, MAIN_FUNCTION_NAMESPACE);
    resolve_phi_to_dsa(module);
    let index = match find_target(module, function_name) {
        Some(i) => i,
        None => {
            return None;
        },
    };
    if index >= all.len() {
        return None;
    }
    verify_function(module, function_name, &all[index].1)
}

/// Tells whether `report` says that the function was found safe: no input
/// leads to a panic. An unsafe function and one of which nothing could be
/// established are both not found safe.
pub fn found_safe(report: &Report) -> (safe: bool)
    ensures
        safe == (report.verdict == Verdict::Safe),
{
    match report.verdict {
        Verdict::Safe => true,
        Verdict::Unsafe => false,
        Verdict::Unknown => false,
    }
}

/// Verifies the function of `module` that `function_name` asks for, and
/// tells whether it was found safe.
///
/// The parameters are listed, the phis of the module are eliminated, and
/// the function is verified. There is no answer where the module has no
/// such function; the answer is `false` where some input leads to a panic
/// and where nothing could be established.
pub fn symbolic_execution(module: &mut Module, function_name: &str) -> (r: Option<bool>)
    ensures
        final(module)@ == resolved_module(old(module)@),
        r is Some == target_of(*final(module), function_name@) is Some,
        r matches Some(safe) ==> (inconclusive(
            *final(module),
            final(module).functions[target_of(*final(module), function_name@)->Some_0],
        ) ==> !safe),
{
    let mut scratch = Query::new();
    let all = get_all_function_argument_names(module, &mut scratch, MAIN_FUNCTION_NAMESPACE);
    resolve_phi_to_dsa(module);
    let index = match find_target(module, function_name) {
        Some(i) => i,
        None => {
            return None;
        },
    };
    match verify_function(module, function_name, &all[index].1) {
        Some(report) => Some(found_safe(&report)),
        None => None,
    }
}

} // verus!
