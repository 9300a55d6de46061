//! The decision procedure: formulas are handed to Z3, and its answer and
//! its model are read back as plain values.
//!
//! Every term of Z3 lives in a context and cannot be used in another one.
//! The types here keep, beside each object of Z3, the context that it was
//! made in, so that every operation can demand that its operands share one.
//! Beside each term they keep the formula that the term was built for, and
//! beside the solver the formulas that were asserted on it, so that the
//! solver is asked only when it holds the assertions of the query, each as
//! the term that stands for it.

use vstd::prelude::*;
use crate::formula::{
    bool_const, bool_lit, conjunction, difference, disjunction, equivalence, exclusive_or, ge,
    gt, implication, int_const, int_eq, int_lit, le, lt, negation, product, remainder, sum,
    Formula, IntExpr, IntProp, IntTerm, Prop, Term,
};
use crate::ir::IrType;
use crate::text::has_char;

verus! {

/// `z3::Config`, carried as it is: nothing is known of what it holds.
#[verifier::external_type_specification]
#[verifier::external_body]
pub struct ExConfig(z3::Config);

/// `z3::Context`, carried as it is: nothing is known of what it holds.
#[verifier::external_type_specification]
#[verifier::external_body]
pub struct ExContext(z3::Context);

/// `z3::Solver`, carried as it is: nothing is known of what it holds.
#[verifier::external_type_specification]
#[verifier::external_body]
pub struct ExSolver<'ctx>(z3::Solver<'ctx>);

/// `z3::Model`, carried as it is: nothing is known of what it holds.
#[verifier::external_type_specification]
#[verifier::external_body]
pub struct ExModel<'ctx>(z3::Model<'ctx>);

/// `z3::ast::Bool`, carried as it is: nothing is known of what it holds.
#[verifier::external_type_specification]
#[verifier::external_body]
pub struct ExBool<'ctx>(z3::ast::Bool<'ctx>);

/// `z3::ast::Int`, carried as it is: nothing is known of what it holds.
#[verifier::external_type_specification]
#[verifier::external_body]
pub struct ExInt<'ctx>(z3::ast::Int<'ctx>);

/// A solver of Z3, the context that it lives in, and the formulas that
/// were asserted on it, in the order in which they were.
struct Session<'ctx> {
    solver: z3::Solver<'ctx>,
    ctx: &'ctx z3::Context,
    asserted: Ghost<Seq<Prop>>,
}

/// A boolean term of Z3, the context that it lives in, and the formula
/// that it was built for.
struct BoolAst<'ctx> {
    ast: z3::ast::Bool<'ctx>,
    ctx: &'ctx z3::Context,
    term: Ghost<Prop>,
}

/// An integer term of Z3, the context that it lives in, and the term that
/// it was built for.
struct IntAst<'ctx> {
    ast: z3::ast::Int<'ctx>,
    ctx: &'ctx z3::Context,
    term: Ghost<IntProp>,
}

/// A model of Z3 and the context that it lives in.
struct ModelAst<'ctx> {
    model: z3::Model<'ctx>,
    ctx: &'ctx z3::Context,
}

/// What Z3 answers to a query.
#[derive(Clone, Copy, Debug, PartialEq, Eq, Structural)]
pub enum SatOutcome {
    /// No assignment satisfies the assertions.
    Unsat,
    /// Z3 gave up.
    Unknown,
    /// Some assignment satisfies the assertions.
    Sat,
}

/// The value of a variable in a model.
#[derive(Clone, Copy, Debug, PartialEq, Eq, Structural)]
pub enum ModelValue {
    Bool(bool),
    Int(i64),
}

impl<'ctx> Session<'ctx> {
    /// The context of the solver.
    closed spec fn context(&self) -> &'ctx z3::Context {
        self.ctx
    }

    /// The formulas asserted on the solver so far, the first one first.
    closed spec fn asserted(&self) -> Seq<Prop> {
        self.asserted@
    }
}

impl<'ctx> BoolAst<'ctx> {
    /// The context of the term.
    closed spec fn context(&self) -> &'ctx z3::Context {
        self.ctx
    }

    /// The formula that the term was built for.
    closed spec fn term(&self) -> Prop {
        self.term@
    }
}

impl<'ctx> IntAst<'ctx> {
    /// The context of the term.
    closed spec fn context(&self) -> &'ctx z3::Context {
        self.ctx
    }

    /// The integer term that the term was built for.
    closed spec fn term(&self) -> IntProp {
        self.term@
    }
}

impl<'ctx> ModelAst<'ctx> {
    /// The context of the model.
    closed spec fn context(&self) -> &'ctx z3::Context {
        self.ctx
    }
}

/// Calls `z3::Config::new`, which takes nothing; nothing is claimed of the result.
#[verifier::external_body]
fn z3_config() -> z3::Config {
    z3::Config::new()
}

/// Calls `z3::Context::new`; nothing is claimed of the result.
#[verifier::external_body]
fn z3_context(config: &z3::Config) -> z3::Context {
    z3::Context::new(config)
}

/// Calls `z3::Solver::new`. The solver lives in the context given, and
/// nothing is asserted on it yet.
#[verifier::external_body]
fn z3_session<'ctx>(ctx: &'ctx z3::Context) -> (s: Session<'ctx>)
    ensures
        s.context() == ctx,
        s.asserted() == Seq::<Prop>::empty(),
{
    Session { solver: z3::Solver::new(ctx), ctx, asserted: Ghost(Seq::empty()) }
}

/// Calls `z3::ast::Bool::new_const`, which turns the name into a C string
/// and so cannot take a name that holds a NUL. The term lives in the
/// context of the session.
/// The term stands for the boolean constant of that name.
#[verifier::external_body]
fn z3_bool_const<'ctx>(s: &Session<'ctx>, name: &str) -> (r: BoolAst<'ctx>)
    requires
        !name@.contains('\0'),
    ensures
        r.term() == bool_const(name@),
        r.context() == s.context(),
{
    BoolAst {
        ast: z3::ast::Bool::new_const(s.ctx, name),
        ctx: s.ctx,
        term: Ghost(bool_const(name@)),
    }
}

/// Calls `z3::ast::Int::new_const`, which turns the name into a C string
/// and so cannot take a name that holds a NUL. The term lives in the
/// context of the session.
/// The term stands for the integer constant of that name.
#[verifier::external_body]
fn z3_int_const<'ctx>(s: &Session<'ctx>, name: &str) -> (r: IntAst<'ctx>)
    requires
        !name@.contains('\0'),
    ensures
        r.term() == int_const(name@),
        r.context() == s.context(),
{
    IntAst { ast: z3::ast::Int::new_const(s.ctx, name), ctx: s.ctx, term: Ghost(int_const(name@)) }
}

/// Calls `z3::ast::Bool::from_bool`. The term lives in the context of the session.
/// The term stands for the truth value given.
#[verifier::external_body]
fn z3_bool_value<'ctx>(s: &Session<'ctx>, value: bool) -> (r: BoolAst<'ctx>)
    ensures
        r.term() == bool_lit(value),
        r.context() == s.context(),
{
    BoolAst {
        ast: z3::ast::Bool::from_bool(s.ctx, value),
        ctx: s.ctx,
        term: Ghost(bool_lit(value)),
    }
}

/// Calls `z3::ast::Int::from_i64`. The term lives in the context of the session.
/// The term stands for the number given.
#[verifier::external_body]
fn z3_int_value<'ctx>(s: &Session<'ctx>, value: i64) -> (r: IntAst<'ctx>)
    ensures
        r.term() == int_lit(value),
        r.context() == s.context(),
{
    IntAst { ast: z3::ast::Int::from_i64(s.ctx, value), ctx: s.ctx, term: Ghost(int_lit(value)) }
}

/// Calls `z3::ast::Bool::not`. The result lives where the operand lives.
/// The result stands for the negation of what the operand stands for.
#[verifier::external_body]
fn z3_not<'ctx>(a: &BoolAst<'ctx>) -> (r: BoolAst<'ctx>)
    ensures
        r.term() == negation(a.term()),
        r.context() == a.context(),
{
    BoolAst { ast: a.ast.not(), ctx: a.ctx, term: Ghost(negation(a.term())) }
}

/// Calls `z3::ast::Bool::and` on two terms, which must live in the context
/// given. The result lives there too.
/// The result stands for the conjunction of what the operands stand for.
#[verifier::external_body]
fn z3_and<'ctx>(s: &Session<'ctx>, a: &BoolAst<'ctx>, b: &BoolAst<'ctx>) -> (r: BoolAst<'ctx>)
    requires
        a.context() == s.context(),
        b.context() == s.context(),
    ensures
        r.term() == conjunction(a.term(), b.term()),
        r.context() == s.context(),
{
    BoolAst {
        ast: z3::ast::Bool::and(s.ctx, &[&a.ast, &b.ast]),
        ctx: s.ctx,
        term: Ghost(conjunction(a.term(), b.term())),
    }
}

/// Calls `z3::ast::Bool::or` on two terms, which must live in the context
/// given. The result lives there too.
/// The result stands for the disjunction of what the operands stand for.
#[verifier::external_body]
fn z3_or<'ctx>(s: &Session<'ctx>, a: &BoolAst<'ctx>, b: &BoolAst<'ctx>) -> (r: BoolAst<'ctx>)
    requires
        a.context() == s.context(),
        b.context() == s.context(),
    ensures
        r.term() == disjunction(a.term(), b.term()),
        r.context() == s.context(),
{
    BoolAst {
        ast: z3::ast::Bool::or(s.ctx, &[&a.ast, &b.ast]),
        ctx: s.ctx,
        term: Ghost(disjunction(a.term(), b.term())),
    }
}

/// Calls `z3::ast::Bool::implies`, which demands that both terms live in
/// one context. The result lives there too.
/// The result stands for the implication from the first operand to the second.
#[verifier::external_body]
fn z3_implies<'ctx>(a: &BoolAst<'ctx>, b: &BoolAst<'ctx>) -> (r: BoolAst<'ctx>)
    requires
        a.context() == b.context(),
    ensures
        r.term() == implication(a.term(), b.term()),
        r.context() == a.context(),
{
    BoolAst { ast: a.ast.implies(&b.ast), ctx: a.ctx, term: Ghost(implication(a.term(), b.term())) }
}

/// Calls `z3::ast::Bool::xor`, which demands that both terms live in one
/// context. The result lives there too.
/// The result stands for the exclusive disjunction of what the operands stand for.
#[verifier::external_body]
fn z3_xor<'ctx>(a: &BoolAst<'ctx>, b: &BoolAst<'ctx>) -> (r: BoolAst<'ctx>)
    requires
        a.context() == b.context(),
    ensures
        r.term() == exclusive_or(a.term(), b.term()),
        r.context() == a.context(),
{
    BoolAst { ast: a.ast.xor(&b.ast), ctx: a.ctx, term: Ghost(exclusive_or(a.term(), b.term())) }
}

/// Calls `z3::ast::Ast::_eq` on two boolean terms of one context. Both
/// have the same sort, so the call finds no difference of sorts to fail
/// on. The result lives where the operands live.
/// The result stands for the equivalence of what the operands stand for.
#[verifier::external_body]
fn z3_iff<'ctx>(a: &BoolAst<'ctx>, b: &BoolAst<'ctx>) -> (r: BoolAst<'ctx>)
    requires
        a.context() == b.context(),
    ensures
        r.term() == equivalence(a.term(), b.term()),
        r.context() == a.context(),
{
    BoolAst {
        ast: z3::ast::Ast::_eq(&a.ast, &b.ast),
        ctx: a.ctx,
        term: Ghost(equivalence(a.term(), b.term())),
    }
}

/// Calls `z3::ast::Ast::_eq` on two integer terms of one context. Both
/// have the same sort, so the call finds no difference of sorts to fail
/// on. The result lives where the operands live.
/// The result stands for the equation of what the operands stand for.
#[verifier::external_body]
fn z3_int_eq<'ctx>(a: &IntAst<'ctx>, b: &IntAst<'ctx>) -> (r: BoolAst<'ctx>)
    requires
        a.context() == b.context(),
    ensures
        r.term() == int_eq(a.term(), b.term()),
        r.context() == a.context(),
{
    BoolAst {
        ast: z3::ast::Ast::_eq(&a.ast, &b.ast),
        ctx: a.ctx,
        term: Ghost(int_eq(a.term(), b.term())),
    }
}

/// Calls `z3::ast::Int::lt`, which demands that both terms live in one
/// context. The result lives there too.
/// The result says that the first operand is less than the second.
#[verifier::external_body]
fn z3_lt<'ctx>(a: &IntAst<'ctx>, b: &IntAst<'ctx>) -> (r: BoolAst<'ctx>)
    requires
        a.context() == b.context(),
    ensures
        r.term() == lt(a.term(), b.term()),
        r.context() == a.context(),
{
    BoolAst { ast: a.ast.lt(&b.ast), ctx: a.ctx, term: Ghost(lt(a.term(), b.term())) }
}

/// Calls `z3::ast::Int::le`, which demands that both terms live in one
/// context. The result lives there too.
/// The result says that the first operand is at most the second.
#[verifier::external_body]
fn z3_le<'ctx>(a: &IntAst<'ctx>, b: &IntAst<'ctx>) -> (r: BoolAst<'ctx>)
    requires
        a.context() == b.context(),
    ensures
        r.term() == le(a.term(), b.term()),
        r.context() == a.context(),
{
    BoolAst { ast: a.ast.le(&b.ast), ctx: a.ctx, term: Ghost(le(a.term(), b.term())) }
}

/// Calls `z3::ast::Int::gt`, which demands that both terms live in one
/// context. The result lives there too.
/// The result says that the first operand is greater than the second.
#[verifier::external_body]
fn z3_gt<'ctx>(a: &IntAst<'ctx>, b: &IntAst<'ctx>) -> (r: BoolAst<'ctx>)
    requires
        a.context() == b.context(),
    ensures
        r.term() == gt(a.term(), b.term()),
        r.context() == a.context(),
{
    BoolAst { ast: a.ast.gt(&b.ast), ctx: a.ctx, term: Ghost(gt(a.term(), b.term())) }
}

/// Calls `z3::ast::Int::ge`, which demands that both terms live in one
/// context. The result lives there too.
/// The result says that the first operand is at least the second.
#[verifier::external_body]
fn z3_ge<'ctx>(a: &IntAst<'ctx>, b: &IntAst<'ctx>) -> (r: BoolAst<'ctx>)
    requires
        a.context() == b.context(),
    ensures
        r.term() == ge(a.term(), b.term()),
        r.context() == a.context(),
{
    BoolAst { ast: a.ast.ge(&b.ast), ctx: a.ctx, term: Ghost(ge(a.term(), b.term())) }
}

/// Calls `z3::ast::Int::add` on two terms, which must live in the context
/// given. The result lives there too.
/// The result stands for the sum of what the operands stand for.
#[verifier::external_body]
fn z3_add<'ctx>(s: &Session<'ctx>, a: &IntAst<'ctx>, b: &IntAst<'ctx>) -> (r: IntAst<'ctx>)
    requires
        a.context() == s.context(),
        b.context() == s.context(),
    ensures
        r.term() == sum(a.term(), b.term()),
        r.context() == s.context(),
{
    IntAst {
        ast: z3::ast::Int::add(s.ctx, &[&a.ast, &b.ast]),
        ctx: s.ctx,
        term: Ghost(sum(a.term(), b.term())),
    }
}

/// Calls `z3::ast::Int::sub` on two terms, which must live in the context
/// given. The result lives there too.
/// The result stands for the first operand less the second.
#[verifier::external_body]
fn z3_sub<'ctx>(s: &Session<'ctx>, a: &IntAst<'ctx>, b: &IntAst<'ctx>) -> (r: IntAst<'ctx>)
    requires
        a.context() == s.context(),
        b.context() == s.context(),
    ensures
        r.term() == difference(a.term(), b.term()),
        r.context() == s.context(),
{
    IntAst {
        ast: z3::ast::Int::sub(s.ctx, &[&a.ast, &b.ast]),
        ctx: s.ctx,
        term: Ghost(difference(a.term(), b.term())),
    }
}

/// Calls `z3::ast::Int::mul` on two terms, which must live in the context
/// given. The result lives there too.
/// The result stands for the product of what the operands stand for.
#[verifier::external_body]
fn z3_mul<'ctx>(s: &Session<'ctx>, a: &IntAst<'ctx>, b: &IntAst<'ctx>) -> (r: IntAst<'ctx>)
    requires
        a.context() == s.context(),
        b.context() == s.context(),
    ensures
        r.term() == product(a.term(), b.term()),
        r.context() == s.context(),
{
    IntAst {
        ast: z3::ast::Int::mul(s.ctx, &[&a.ast, &b.ast]),
        ctx: s.ctx,
        term: Ghost(product(a.term(), b.term())),
    }
}

/// Calls `z3::ast::Int::modulo`, which demands that both terms live in one
/// context. The result lives there too.
/// The result stands for the remainder of the first operand by the second.
#[verifier::external_body]
fn z3_modulo<'ctx>(a: &IntAst<'ctx>, b: &IntAst<'ctx>) -> (r: IntAst<'ctx>)
    requires
        a.context() == b.context(),
    ensures
        r.term() == remainder(a.term(), b.term()),
        r.context() == a.context(),
{
    IntAst { ast: a.ast.modulo(&b.ast), ctx: a.ctx, term: Ghost(remainder(a.term(), b.term())) }
}

/// Calls `z3::Solver::assert` with a term of the solver's context: the
/// formula of the term is asserted behind those that were before, and the
/// solver stays in its context.
#[verifier::external_body]
fn z3_assert<'ctx>(s: &mut Session<'ctx>, a: &BoolAst<'ctx>)
    requires
        a.context() == old(s).context(),
    ensures
        final(s).context() == old(s).context(),
        final(s).asserted() == old(s).asserted().push(a.term()),
{
    s.solver.assert(&a.ast)
}

/// Calls `z3::Solver::check` and tells its three answers apart. Which
/// answer comes is for Z3 to say.
#[verifier::external_body]
fn z3_check<'ctx>(s: &Session<'ctx>) -> SatOutcome {
    match s.solver.check() {
        z3::SatResult::Unsat => SatOutcome::Unsat,
        z3::SatResult::Unknown => SatOutcome::Unknown,
        z3::SatResult::Sat => SatOutcome::Sat,
    }
}

/// Calls `z3::Solver::get_model`. A model, where there is one, lives in
/// the context of the solver.
#[verifier::external_body]
fn z3_model<'ctx>(s: &Session<'ctx>) -> (r: Option<ModelAst<'ctx>>)
    ensures
        r matches Some(m) ==> m.context() == s.context(),
{
    match s.solver.get_model() {
        Some(model) => Some(ModelAst { model, ctx: s.ctx }),
        None => None,
    }
}

/// Calls `z3::Model::eval` on a boolean term of the model's context. What
/// it gives, where it gives something, lives there too.
#[verifier::external_body]
fn z3_eval_bool<'ctx>(m: &ModelAst<'ctx>, a: &BoolAst<'ctx>) -> (r: Option<BoolAst<'ctx>>)
    requires
        a.context() == m.context(),
    ensures
        r matches Some(v) ==> v.context() == m.context(),
{
    match m.model.eval(&a.ast) {
        Some(ast) => Some(BoolAst { ast, ctx: m.ctx, term: Ghost(a.term()) }),
        None => None,
    }
}

/// Calls `z3::Model::eval` on an integer term of the model's context. What
/// it gives, where it gives something, lives there too.
#[verifier::external_body]
fn z3_eval_int<'ctx>(m: &ModelAst<'ctx>, a: &IntAst<'ctx>) -> (r: Option<IntAst<'ctx>>)
    requires
        a.context() == m.context(),
    ensures
        r matches Some(v) ==> v.context() == m.context(),
{
    match m.model.eval(&a.ast) {
        Some(ast) => Some(IntAst { ast, ctx: m.ctx, term: Ghost(a.term()) }),
        None => None,
    }
}

/// Calls `z3::ast::Bool::as_bool`: the value of a term that is `true` or `false`.
#[verifier::external_body]
fn z3_as_bool<'ctx>(a: &BoolAst<'ctx>) -> Option<bool> {
    a.ast.as_bool()
}

/// Calls `z3::ast::Int::as_i64`: the value of a term that is a numeral of 64 bits.
#[verifier::external_body]
fn z3_as_i64<'ctx>(a: &IntAst<'ctx>) -> Option<i64> {
    a.ast.as_i64()
}

/// Whether Z3 can take `name` for the name of a constant: it holds no NUL.
pub open spec fn name_ok(name: Seq<char>) -> bool {
    !name.contains('\0')
}

/// Whether Z3 can take every name of the integer term.
pub open spec fn int_lowerable(e: IntProp) -> bool
    decreases e,
{
    match e {
        IntExpr::Const(n) => name_ok(n),
        IntExpr::Lit(_) => true,
        IntExpr::Add(a, b) | IntExpr::Sub(a, b) | IntExpr::Mul(a, b) | IntExpr::Mod(
            a,
            b,
        ) => int_lowerable(*a) && int_lowerable(*b),
    }
}

/// Whether Z3 can take every name of the formula.
pub open spec fn lowerable(f: Prop) -> bool
    decreases f,
{
    match f {
        Formula::Const(n) => name_ok(n),
        Formula::Lit(_) => true,
        Formula::Not(a) => lowerable(*a),
        Formula::And(a, b) | Formula::Or(a, b) | Formula::Implies(a, b) | Formula::Iff(
            a,
            b,
        ) | Formula::Xor(a, b) => lowerable(*a) && lowerable(*b),
        Formula::IntEq(a, b) | Formula::Lt(a, b) | Formula::Le(a, b) | Formula::Gt(
            a,
            b,
        ) | Formula::Ge(a, b) => int_lowerable(*a) && int_lowerable(*b),
    }
}

/// Whether Z3 can take every assertion among the first `k` of `assertions`.
pub open spec fn all_lowerable(assertions: Seq<Term>, k: int) -> bool {
    forall|i: int| 0 <= i < k && i < assertions.len() ==> lowerable((#[trigger] assertions[i])@)
}

/// Builds the term of Z3 for `e` in the context of `s`; none where a name of `e` holds a NUL.
fn lower_int<'ctx>(s: &Session<'ctx>, e: &IntTerm) -> (r: Option<IntAst<'ctx>>)
    ensures
        r is Some == int_lowerable(e@),
        r matches Some(a) ==> a.context() == s.context() && a.term() == e@,
    decreases e,
{
    match e {
        IntExpr::Const(n) => {
            if has_char(n.as_str(), '\0') {
                None
            } else {
                Some(z3_int_const(s, n.as_str()))
            }
        },
        IntExpr::Lit(v) => Some(z3_int_value(s, *v)),
        IntExpr::Add(a, b) => match (lower_int(s, a), lower_int(s, b)) {
            (Some(x), Some(y)) => Some(z3_add(s, &x, &y)),
            _ => None,
        },
        IntExpr::Sub(a, b) => match (lower_int(s, a), lower_int(s, b)) {
            (Some(x), Some(y)) => Some(z3_sub(s, &x, &y)),
            _ => None,
        },
        IntExpr::Mul(a, b) => match (lower_int(s, a), lower_int(s, b)) {
            (Some(x), Some(y)) => Some(z3_mul(s, &x, &y)),
            _ => None,
        },
        IntExpr::Mod(a, b) => match (lower_int(s, a), lower_int(s, b)) {
            (Some(x), Some(y)) => Some(z3_modulo(&x, &y)),
            _ => None,
        },
    }
}

/// Builds the term of Z3 for `f` in the context of `s`; none where a name of `f` holds a NUL.
fn lower_formula<'ctx>(s: &Session<'ctx>, f: &Term) -> (r: Option<BoolAst<'ctx>>)
    ensures
        r is Some == lowerable(f@),
        r matches Some(a) ==> a.context() == s.context() && a.term() == f@,
    decreases f,
{
    match f {
        Formula::Const(n) => {
            if has_char(n.as_str(), '\0') {
                None
            } else {
                Some(z3_bool_const(s, n.as_str()))
            }
        },
        Formula::Lit(b) => Some(z3_bool_value(s, *b)),
        Formula::Not(a) => match lower_formula(s, a) {
            Some(x) => Some(z3_not(&x)),
            None => None,
        },
        Formula::And(a, b) => match (lower_formula(s, a), lower_formula(s, b)) {
            (Some(x), Some(y)) => Some(z3_and(s, &x, &y)),
            _ => None,
        },
        Formula::Or(a, b) => match (lower_formula(s, a), lower_formula(s, b)) {
            (Some(x), Some(y)) => Some(z3_or(s, &x, &y)),
            _ => None,
        },
        Formula::Implies(a, b) => match (lower_formula(s, a), lower_formula(s, b)) {
            (Some(x), Some(y)) => Some(z3_implies(&x, &y)),
            _ => None,
        },
        Formula::Iff(a, b) => match (lower_formula(s, a), lower_formula(s, b)) {
            (Some(x), Some(y)) => Some(z3_iff(&x, &y)),
            _ => None,
        },
        Formula::Xor(a, b) => match (lower_formula(s, a), lower_formula(s, b)) {
            (Some(x), Some(y)) => Some(z3_xor(&x, &y)),
            _ => None,
        },
        Formula::IntEq(a, b) => match (lower_int(s, a), lower_int(s, b)) {
            (Some(x), Some(y)) => Some(z3_int_eq(&x, &y)),
            _ => None,
        },
        Formula::Lt(a, b) => match (lower_int(s, a), lower_int(s, b)) {
            (Some(x), Some(y)) => Some(z3_lt(&x, &y)),
            _ => None,
        },
        Formula::Le(a, b) => match (lower_int(s, a), lower_int(s, b)) {
            (Some(x), Some(y)) => Some(z3_le(&x, &y)),
            _ => None,
        },
        Formula::Gt(a, b) => match (lower_int(s, a), lower_int(s, b)) {
            (Some(x), Some(y)) => Some(z3_gt(&x, &y)),
            _ => None,
        },
        Formula::Ge(a, b) => match (lower_int(s, a), lower_int(s, b)) {
            (Some(x), Some(y)) => Some(z3_ge(&x, &y)),
            _ => None,
        },
    }
}

/// A variable whose value is wanted from a model.
#[derive(Debug, PartialEq, Eq)]
pub struct Wanted {
    /// The name of the variable.
    pub name: String,
    /// Its type: the one-bit integer for a boolean, any other integer for an integer.
    pub ty: IrType,
}

/// The answer to a query, and the values of the variables asked for.
#[derive(Debug, PartialEq, Eq)]
pub struct Answer {
    /// What Z3 said.
    pub outcome: SatOutcome,
    /// Where the outcome is `Sat`: for each variable asked for, its value
    /// in the model, where the model gives it one of its type.
    pub values: Vec<Option<ModelValue>>,
}

/// Whether `value` can be the value of a variable of the type `ty`.
pub open spec fn value_fits(value: Option<ModelValue>, ty: IrType) -> bool {
    match value {
        None => true,
        Some(ModelValue::Bool(_)) => ty.is_bool(),
        Some(ModelValue::Int(_)) => ty.is_int() && !ty.is_bool(),
    }
}

/// Whether a value can be read for `wanted` at all: Z3 can take its name,
/// and its type is an integer, the one-bit integer included.
pub open spec fn readable(wanted: Wanted) -> bool {
    name_ok(wanted.name@) && wanted.ty.is_int()
}

/// The value of a boolean variable for which a model gave `read`.
pub open spec fn truth_of(read: Option<bool>) -> Option<ModelValue> {
    match read {
        Some(b) => Some(ModelValue::Bool(b)),
        None => None,
    }
}

/// The value of an integer variable for which a model gave `read`.
pub open spec fn number_of(read: Option<i64>) -> Option<ModelValue> {
    match read {
        Some(i) => Some(ModelValue::Int(i)),
        None => None,
    }
}

/// The value of a boolean variable, from the truth value that was read
/// from a model, where one was read.
pub fn truth_value(read: Option<bool>) -> (r: Option<ModelValue>)
    ensures
        r == truth_of(read),
{
    match read {
        Some(b) => Some(ModelValue::Bool(b)),
        None => None,
    }
}

/// The value of an integer variable, from the number that was read from a
/// model, where one was read.
pub fn number_value(read: Option<i64>) -> (r: Option<ModelValue>)
    ensures
        r == number_of(read),
{
    match read {
        Some(i) => Some(ModelValue::Int(i)),
        None => None,
    }
}

/// Reads the value of one variable from a model.
///
/// Z3 is asked for a boolean where the variable has the one-bit type, and
/// for an integer where it has another integer type; what it gives is
/// turned into a value by `truth_value` or `number_value`. Whether it
/// gives anything is for Z3 to say. Where the name holds a NUL, or the
/// type is no integer, Z3 is not asked and there is no value.
fn read_value<'ctx>(s: &Session<'ctx>, m: &ModelAst<'ctx>, wanted: &Wanted) -> (r: Option<
    ModelValue,
>)
    requires
        m.context() == s.context(),
    ensures
        value_fits(r, wanted.ty),
        !readable(*wanted) ==> r is None,
{
    if has_char(wanted.name.as_str(), '\0') {
        None
    } else if wanted.ty.bool_type() {
        match z3_eval_bool(m, &z3_bool_const(s, wanted.name.as_str())) {
            Some(v) => truth_value(z3_as_bool(&v)),
            None => None,
        }
    } else if wanted.ty.int_type() {
        match z3_eval_int(m, &z3_int_const(s, wanted.name.as_str())) {
            Some(v) => number_value(z3_as_i64(&v)),
            None => None,
        }
    } else {
        None
    }
}

/// The formulas that `assertions` stand for, in their order.
pub open spec fn props(assertions: Seq<Term>) -> Seq<Prop> {
    assertions.map_values(|f: Term| f@)
}

/// Asks the solver of `s`, on which exactly `assertions` were asserted,
/// whether they can hold together.
fn ask<'ctx>(s: &Session<'ctx>, assertions: &Vec<Term>) -> (outcome: SatOutcome)
    requires
        s.asserted() == props(assertions@),
{
    z3_check(s)
}

/// Asks Z3 whether `assertions` can hold together, and where they can,
/// for the values of the variables `wanted`.
///
/// What Z3 answers is not for this library to say. What holds of every
/// answer: where a name in an assertion holds a NUL, which Z3 cannot take,
/// Z3 is not asked and the outcome is `Unknown`; values come with the
/// outcome `Sat` alone, one for each variable asked for, each of the type
/// of its variable, and none for a variable that cannot be read.
pub fn check_sat(assertions: &Vec<Term>, wanted: &Vec<Wanted>) -> (answer: Answer)
    ensures
        !all_lowerable(assertions@, assertions.len() as int) ==> answer.outcome
            == SatOutcome::Unknown,
        answer.outcome == SatOutcome::Sat ==> answer.values.len() == wanted.len(),
        answer.outcome != SatOutcome::Sat ==> answer.values.len() == 0,
        forall|i: int|
            0 <= i < answer.values.len() && i < wanted.len() ==> value_fits(
                #[trigger] answer.values[i],
                wanted[i].ty,
            ),
        forall|i: int|
            0 <= i < answer.values.len() && i < wanted.len() && !readable(wanted[i])
                ==> #[trigger] answer.values[i] is None,
{
    let config = z3_config();
    let context = z3_context(&config);
    let mut session = z3_session(&context);
    let mut k: usize = 0;
    while k < assertions.len()
        invariant
            k <= assertions.len(),
            all_lowerable(assertions@, k as int),
            session.context() == &context,
            session.asserted() == props(assertions@).subrange(0, k as int),
        decreases assertions.len() - k,
    {
        match lower_formula(&session, &assertions[k]) {
            Some(a) => {
                z3_assert(&mut session, &a);
            },
            None => {
                return Answer { outcome: SatOutcome::Unknown, values: Vec::new() };
            },
        }
        assert(session.asserted() =~= props(assertions@).subrange(0, k + 1));
        k = k + 1;
    }
    assert(props(assertions@).subrange(0, k as int) =~= props(assertions@));
    let outcome = ask(&session, assertions);
    let mut values: Vec<Option<ModelValue>> = Vec::new();
    if outcome == SatOutcome::Sat {
        match z3_model(&session) {
            Some(model) => {
                let mut i: usize = 0;
                while i < wanted.len()
                    invariant
                        i <= wanted.len(),
                        values.len() == i,
                        model.context() == session.context(),
                        forall|j: int|
                            0 <= j < i ==> value_fits(#[trigger] values[j], wanted[j].ty),
                        forall|j: int|
                            0 <= j < i && !readable(wanted[j]) ==> #[trigger] values[j] is None,
                    decreases wanted.len() - i,
                {
                    values.push(read_value(&session, &model, &wanted[i]));
                    i = i + 1;
                }
            },
            None => {
                let mut i: usize = 0;
                while i < wanted.len()
                    invariant
                        i <= wanted.len(),
                        values.len() == i,
                        forall|j: int| 0 <= j < i ==> #[trigger] values[j] is None,
                    decreases wanted.len() - i,
                {
                    values.push(None);
                    i = i + 1;
                }
            },
        }
    }
    Answer { outcome, values }
}

} // verus!
