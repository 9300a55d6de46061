//! Functions of a module: their readable names, and the search for one by name.

use vstd::prelude::*;
use crate::ir::{BasicBlock, Function, IrType, Module, Opcode};
use crate::query::{Query, QueryState};
use crate::text::{concat_str, starts_with, str_eq, str_starts_with};
use crate::utils::var_utils::{get_var_name, resolved, var_name};

verus! {

/// The readable form of a symbol name: what `rustc_demangle::demangle`
/// prints for it.
pub uninterp spec fn demangled(symbol: Seq<char>) -> Seq<char>;

/// Calls `rustc_demangle::demangle` and prints what it returns. The result
/// depends on the symbol alone; the contract gives it the name `demangled`
/// and claims nothing else of it.
#[verifier::external_body]
fn demangle_symbol(symbol: &str) -> (r: String)
    ensures
        r@ == demangled(symbol@),
{
    rustc_demangle::demangle(symbol).to_string()
}

/// The readable name of the function whose symbol is `symbol`.
pub fn get_function_name(symbol: &str) -> (name: String)
    ensures
        name@ == demangled(symbol@),
{
    demangle_symbol(symbol)
}

/// Whether a function whose readable name is `name` is one that `target`
/// asks for: the name begins with the target.
pub open spec fn name_matches(name: Seq<char>, target: Seq<char>) -> bool {
    starts_with(name, target)
}

/// Tells whether the readable name `name` of a function begins with `target`.
pub fn is_target(name: &str, target: &str) -> (r: bool)
    ensures
        r == name_matches(name@, target@),
{
    str_starts_with(name, target)
}

/// The first function of `m` at or after position `k` whose readable name
/// begins with `target`; the number of functions where there is none.
pub open spec fn first_match(m: Module, target: Seq<char>, k: int) -> int
    decreases m.functions.len() - k,
{
    if k < 0 || k >= m.functions.len() {
        m.functions.len() as int
    } else if name_matches(demangled(m.functions[k].name@), target) {
        k
    } else {
        first_match(m, target, k + 1)
    }
}

/// The position of the first function of `m` whose readable name begins with `target`.
pub open spec fn function_index(m: Module, target: Seq<char>) -> Option<int> {
    if first_match(m, target, 0) < m.functions.len() {
        Some(first_match(m, target, 0))
    } else {
        None
    }
}

/// `first_match` stays between its starting point and the number of functions.
pub proof fn lemma_first_match_bounds(m: Module, target: Seq<char>, k: int)
    requires
        0 <= k <= m.functions.len(),
    ensures
        k <= first_match(m, target, k) <= m.functions.len(),
    decreases m.functions.len() - k,
{
    if k < m.functions.len() && !name_matches(demangled(m.functions[k].name@), target) {
        lemma_first_match_bounds(m, target, k + 1);
    }
}

/// Finds the position of the first function of `module` whose readable name
/// begins with `target`.
pub fn find_function(module: &Module, target: &str) -> (r: Option<usize>)
    ensures
        r is Some == function_index(*module, target@) is Some,
        r matches Some(i) ==> i < module.functions.len() && function_index(*module, target@)
            == Some(i as int),
{
    let mut i: usize = 0;
    while i < module.functions.len()
        invariant
            i <= module.functions.len(),
            first_match(*module, target@, 0) == first_match(*module, target@, i as int),
        decreases module.functions.len() - i,
    {
        let name = get_function_name(module.functions[i].name.as_str());
        if is_target(name.as_str(), target) {
            return Some(i);
        }
        i = i + 1;
    }
    None
}

/// Finds the first function of `module` whose readable name begins with
/// `target_function_name_prefix`.
pub fn get_function_by_name<'a>(module: &'a Module, target_function_name_prefix: &str) -> (r:
    Option<&'a Function>)
    ensures
        r is Some == function_index(*module, target_function_name_prefix@) is Some,
        r matches Some(f) ==> *f == module.functions[function_index(
            *module,
            target_function_name_prefix@,
        )->Some_0],
{
    match find_function(module, target_function_name_prefix) {
        Some(i) => Some(&module.functions[i]),
        None => None,
    }
}

/// A parameter of a function under its two names.
#[derive(Debug, PartialEq, Eq)]
pub struct ArgumentName {
    /// The name that the source gives the parameter.
    pub source_name: String,
    /// The name of the SMT variable that stands for it.
    pub smt_name: String,
    /// Its type.
    pub ty: IrType,
}

/// An `ArgumentName` as contracts see it: the two names and the type.
pub type ArgumentView = (Seq<char>, Seq<char>, IrType);

/// The mathematical content of a list of argument names.
pub open spec fn argument_views(v: Seq<ArgumentName>) -> Seq<ArgumentView> {
    v.map_values(|a: ArgumentName| (a.source_name@, a.smt_name@, a.ty))
}

/// The names under which the unnamed parameter with the SMT name `alias`
/// is stored by the first `k` instructions of `b`: for each store of it,
/// the name of the slot.
pub open spec fn stored_names(
    st: QueryState,
    b: BasicBlock,
    alias: Seq<char>,
    ty: IrType,
    ns: Seq<char>,
    k: int,
) -> (QueryState, Seq<ArgumentView>)
    decreases k,
{
    if k <= 0 {
        (st, seq![])
    } else {
        let (st1, names) = stored_names(st, b, alias, ty, ns, k - 1);
        let i = b.instructions[k - 1];
        if i.opcode != Opcode::Store {
            (st1, names)
        } else if var_name(i.text@, ns) == alias && i.has_value(1) {
            (
                resolved(resolved(st1, i.text@), i.value(1).text@),
                names.push((var_name(i.value(1).text@, ns), alias, ty)),
            )
        } else {
            (resolved(st1, i.text@), names)
        }
    }
}

/// The names of the first `k` parameters of `f`, and whether the listing
/// stopped early. A named parameter is listed under its own name, with a
/// `%` and the namespace before it. An unnamed one is listed under the name
/// of each slot that the entry block stores it in; where `f` has no block,
/// the listing stops at the first unnamed parameter.
pub open spec fn argument_names(f: Function, st: QueryState, ns: Seq<char>, k: int) -> (
    QueryState,
    Seq<ArgumentView>,
    bool,
)
    decreases k,
{
    if k <= 0 {
        (st, seq![], false)
    } else {
        let (st1, names, stopped) = argument_names(f, st, ns, k - 1);
        let p = f.params[k - 1];
        if stopped {
            (st1, names, true)
        } else if p.name@.len() > 0 {
            (st1, names.push((ns + "%"@ + p.name@, ns + "%"@ + p.name@, p.ty)), false)
        } else if f.blocks.len() == 0 {
            (resolved(st1, p.text@), names, true)
        } else {
            let (st2, found) = stored_names(
                resolved(st1, p.text@),
                f.blocks[0],
                var_name(p.text@, ns),
                p.ty,
                ns,
                f.blocks[0].instructions.len() as int,
            );
            (st2, names + found, false)
        }
    }
}

/// Appends to `names` the names under which the entry block `b` stores the
/// unnamed parameter with the SMT name `alias`.
fn collect_stored_names(
    names: &mut Vec<ArgumentName>,
    b: &BasicBlock,
    alias: &str,
    ty: IrType,
    solver: &mut Query,
    namespace: &str,
)
    ensures
        (final(solver)@, argument_views(final(names)@)) == (
            stored_names(
                old(solver)@,
                *b,
                alias@,
                ty,
                namespace@,
                b.instructions.len() as int,
            ).0,
            argument_views(old(names)@) + stored_names(
                old(solver)@,
                *b,
                alias@,
                ty,
                namespace@,
                b.instructions.len() as int,
            ).1,
        ),
{
    let mut k: usize = 0;
    assert(argument_views(names@) =~= argument_views(old(names)@) + Seq::<ArgumentView>::empty());
    while k < b.instructions.len()
        invariant
            k <= b.instructions.len(),
            solver@ == stored_names(old(solver)@, *b, alias@, ty, namespace@, k as int).0,
            argument_views(names@) == argument_views(old(names)@) + stored_names(
                old(solver)@,
                *b,
                alias@,
                ty,
                namespace@,
                k as int,
            ).1,
        decreases b.instructions.len() - k,
    {
        let i = &b.instructions[k];
        if i.opcode == Opcode::Store {
            let stored = get_var_name(i.text.as_str(), solver, namespace);
            if str_eq(stored.as_str(), alias) {
                if let Some(slot) = i.value_operand(1) {
                    let source_name = get_var_name(slot.text.as_str(), solver, namespace);
                    let ghost before = argument_views(names@);
                    let ghost found = stored_names(
                        old(solver)@,
                        *b,
                        alias@,
                        ty,
                        namespace@,
                        k as int,
                    ).1;
                    let ghost slot_name = source_name@;
                    names.push(ArgumentName { source_name, smt_name: alias.to_owned(), ty });
                    assert(argument_views(names@) =~= before.push((slot_name, alias@, ty)));
                    assert(before.push((slot_name, alias@, ty)) =~= argument_views(old(names)@)
                        + found.push((slot_name, alias@, ty)));
                }
            }
        }
        k = k + 1;
    }
}

/// Lists the parameters of `function` under the names that the source
/// gives them and under the names of their SMT variables.
pub fn get_function_argument_names(function: &Function, solver: &mut Query, namespace: &str) -> (names:
    Vec<ArgumentName>)
    ensures
        (final(solver)@, argument_views(names@)) == (
            argument_names(*function, old(solver)@, namespace@, function.params.len() as int).0,
            argument_names(*function, old(solver)@, namespace@, function.params.len() as int).1,
        ),
{
    let mut names: Vec<ArgumentName> = Vec::new();
    let mut stopped = false;
    let mut k: usize = 0;
    assert(argument_views(names@) =~= Seq::<ArgumentView>::empty());
    while k < function.params.len()
        invariant
            k <= function.params.len(),
            (solver@, argument_views(names@), stopped) == argument_names(
                *function,
                old(solver)@,
                namespace@,
                k as int,
            ),
        decreases function.params.len() - k,
    {
        let p = &function.params[k];
        if !stopped {
            if p.name.as_str().unicode_len() > 0 {
                let with_percent = concat_str(namespace, "%");
                let name = concat_str(with_percent.as_str(), p.name.as_str());
                let ghost before = argument_views(names@);
                names.push(
                    ArgumentName { source_name: name.clone(), smt_name: name, ty: p.ty },
                );
                assert(argument_views(names@) =~= before.push((name@, name@, p.ty)));
            } else {
                let alias = get_var_name(p.text.as_str(), solver, namespace);
                if function.blocks.len() == 0 {
                    stopped = true;
                } else {
                    collect_stored_names(
                        &mut names,
                        &function.blocks[0],
                        alias.as_str(),
                        p.ty,
                        solver,
                        namespace,
                    );
                }
            }
        }
        k = k + 1;
    }
    names
}

/// The mathematical content of a listing of the parameters of several functions.
pub open spec fn listing_views(v: Seq<(String, Vec<ArgumentName>)>) -> Seq<
    (Seq<char>, Seq<ArgumentView>),
> {
    v.map_values(|e: (String, Vec<ArgumentName>)| (e.0@, argument_views(e.1@)))
}

/// The readable name and the parameters of each of the first `k` functions of `m`.
pub open spec fn all_argument_names(m: Module, st: QueryState, ns: Seq<char>, k: int) -> (
    QueryState,
    Seq<(Seq<char>, Seq<ArgumentView>)>,
)
    decreases k,
{
    if k <= 0 {
        (st, seq![])
    } else {
        let (st1, all) = all_argument_names(m, st, ns, k - 1);
        let f = m.functions[k - 1];
        let own = argument_names(f, st1, ns, f.params.len() as int);
        (own.0, all.push((demangled(f.name@), own.1)))
    }
}

/// Lists, for each function of `module`, its readable name and its parameters.
pub fn get_all_function_argument_names(module: &Module, solver: &mut Query, namespace: &str) -> (all:
    Vec<(String, Vec<ArgumentName>)>)
    ensures
        (final(solver)@, listing_views(all@)) == all_argument_names(
            *module,
            old(solver)@,
            namespace@,
            module.functions.len() as int,
        ),
        all.len() == module.functions.len(),
{
    let mut all: Vec<(String, Vec<ArgumentName>)> = Vec::new();
    let mut i: usize = 0;
    assert(listing_views(all@) =~= Seq::<(Seq<char>, Seq<ArgumentView>)>::empty());
    while i < module.functions.len()
        invariant
            i <= module.functions.len(),
            all.len() == i,
            (solver@, listing_views(all@)) == all_argument_names(
                *module,
                old(solver)@,
                namespace@,
                i as int,
            ),
        decreases module.functions.len() - i,
    {
        let name = get_function_name(module.functions[i].name.as_str());
        let names = get_function_argument_names(&module.functions[i], solver, namespace);
        let ghost before = listing_views(all@);
        let ghost entry = (name@, argument_views(names@));
        all.push((name, names));
        assert(listing_views(all@) =~= before.push(entry));
        i = i + 1;
    }
    all
}

} // verus!
