//! Formulas over named boolean and integer constants.
//!
//! The two sorts are kept apart by type: a `Formula` is boolean, an `IntExpr`
//! is an unbounded integer. Both are generic in the type of a name, so that
//! the formula a program builds (`Formula<String>`) and the formula a contract
//! speaks of (`Formula<Seq<char>>`) have one shape.

use vstd::prelude::*;

verus! {

/// An integer-sorted term.
#[derive(Debug, PartialEq, Eq)]
pub enum IntExpr<N> {
    /// A named integer constant.
    Const(N),
    /// An integer literal.
    Lit(i64),
    /// The sum of two terms.
    Add(Box<IntExpr<N>>, Box<IntExpr<N>>),
    /// The difference of two terms.
    Sub(Box<IntExpr<N>>, Box<IntExpr<N>>),
    /// The product of two terms.
    Mul(Box<IntExpr<N>>, Box<IntExpr<N>>),
    /// The remainder of the first term by the second.
    Mod(Box<IntExpr<N>>, Box<IntExpr<N>>),
}

/// A boolean-sorted term.
#[derive(Debug, PartialEq, Eq)]
pub enum Formula<N> {
    /// A named boolean constant.
    Const(N),
    /// `true` or `false`.
    Lit(bool),
    /// Negation.
    Not(Box<Formula<N>>),
    /// Conjunction.
    And(Box<Formula<N>>, Box<Formula<N>>),
    /// Disjunction.
    Or(Box<Formula<N>>, Box<Formula<N>>),
    /// Implication: the first implies the second.
    Implies(Box<Formula<N>>, Box<Formula<N>>),
    /// Equality of two booleans.
    Iff(Box<Formula<N>>, Box<Formula<N>>),
    /// Exclusive or.
    Xor(Box<Formula<N>>, Box<Formula<N>>),
    /// Equality of two integers.
    IntEq(Box<IntExpr<N>>, Box<IntExpr<N>>),
    /// The first integer is less than the second.
    Lt(Box<IntExpr<N>>, Box<IntExpr<N>>),
    /// The first integer is at most the second.
    Le(Box<IntExpr<N>>, Box<IntExpr<N>>),
    /// The first integer is greater than the second.
    Gt(Box<IntExpr<N>>, Box<IntExpr<N>>),
    /// The first integer is at least the second.
    Ge(Box<IntExpr<N>>, Box<IntExpr<N>>),
}

/// An integer term as a program holds it.
pub type IntTerm = IntExpr<String>;

/// A formula as a program holds it.
pub type Term = Formula<String>;

/// An integer term as contracts see it.
pub type IntProp = IntExpr<Seq<char>>;

/// A formula as contracts see it.
pub type Prop = Formula<Seq<char>>;

/// The mathematical form of an integer term: each name by its characters.
pub open spec fn int_view(e: IntTerm) -> IntProp
    decreases e,
{
    match e {
        IntExpr::Const(n) => IntExpr::Const(n@),
        IntExpr::Lit(v) => IntExpr::Lit(v),
        IntExpr::Add(a, b) => IntExpr::Add(Box::new(int_view(*a)), Box::new(int_view(*b))),
        IntExpr::Sub(a, b) => IntExpr::Sub(Box::new(int_view(*a)), Box::new(int_view(*b))),
        IntExpr::Mul(a, b) => IntExpr::Mul(Box::new(int_view(*a)), Box::new(int_view(*b))),
        IntExpr::Mod(a, b) => IntExpr::Mod(Box::new(int_view(*a)), Box::new(int_view(*b))),
    }
}

/// The mathematical form of a formula: each name by its characters.
pub open spec fn formula_view(f: Term) -> Prop
    decreases f,
{
    match f {
        Formula::Const(n) => Formula::Const(n@),
        Formula::Lit(b) => Formula::Lit(b),
        Formula::Not(a) => Formula::Not(Box::new(formula_view(*a))),
        Formula::And(a, b) => Formula::And(
            Box::new(formula_view(*a)),
            Box::new(formula_view(*b)),
        ),
        Formula::Or(a, b) => Formula::Or(Box::new(formula_view(*a)), Box::new(formula_view(*b))),
        Formula::Implies(a, b) => Formula::Implies(
            Box::new(formula_view(*a)),
            Box::new(formula_view(*b)),
        ),
        Formula::Iff(a, b) => Formula::Iff(
            Box::new(formula_view(*a)),
            Box::new(formula_view(*b)),
        ),
        Formula::Xor(a, b) => Formula::Xor(
            Box::new(formula_view(*a)),
            Box::new(formula_view(*b)),
        ),
        Formula::IntEq(a, b) => Formula::IntEq(Box::new(int_view(*a)), Box::new(int_view(*b))),
        Formula::Lt(a, b) => Formula::Lt(Box::new(int_view(*a)), Box::new(int_view(*b))),
        Formula::Le(a, b) => Formula::Le(Box::new(int_view(*a)), Box::new(int_view(*b))),
        Formula::Gt(a, b) => Formula::Gt(Box::new(int_view(*a)), Box::new(int_view(*b))),
        Formula::Ge(a, b) => Formula::Ge(Box::new(int_view(*a)), Box::new(int_view(*b))),
    }
}

impl View for IntExpr<String> {
    type V = IntProp;

    open spec fn view(&self) -> IntProp {
        int_view(*self)
    }
}

impl View for Formula<String> {
    type V = Prop;

    open spec fn view(&self) -> Prop {
        formula_view(*self)
    }
}

/// A named boolean constant.
pub open spec fn bool_const(name: Seq<char>) -> Prop {
    Formula::Const(name)
}

/// A named integer constant.
pub open spec fn int_const(name: Seq<char>) -> IntProp {
    IntExpr::Const(name)
}

/// `a` implies `b`.
pub open spec fn implication(a: Prop, b: Prop) -> Prop {
    Formula::Implies(Box::new(a), Box::new(b))
}

/// `a` and `b`.
pub open spec fn conjunction(a: Prop, b: Prop) -> Prop {
    Formula::And(Box::new(a), Box::new(b))
}

/// `a` or `b`.
pub open spec fn disjunction(a: Prop, b: Prop) -> Prop {
    Formula::Or(Box::new(a), Box::new(b))
}

/// Not `a`.
pub open spec fn negation(a: Prop) -> Prop {
    Formula::Not(Box::new(a))
}

/// The booleans `a` and `b` are equal.
pub open spec fn equivalence(a: Prop, b: Prop) -> Prop {
    Formula::Iff(Box::new(a), Box::new(b))
}

/// The integers `a` and `b` are equal.
pub open spec fn int_eq(a: IntProp, b: IntProp) -> Prop {
    Formula::IntEq(Box::new(a), Box::new(b))
}

/// The boolean constants named `a` and `b` are equal.
pub open spec fn bool_names_equal(a: Seq<char>, b: Seq<char>) -> Prop {
    equivalence(bool_const(a), bool_const(b))
}

/// The integer constants named `a` and `b` are equal.
pub open spec fn int_names_equal(a: Seq<char>, b: Seq<char>) -> Prop {
    int_eq(int_const(a), int_const(b))
}

/// The boolean literal `b`.
pub open spec fn bool_lit(b: bool) -> Prop {
    Formula::Lit(b)
}

/// The integer literal `v`.
pub open spec fn int_lit(v: i64) -> IntProp {
    IntExpr::Lit(v)
}

/// Exactly one of `a` and `b`.
pub open spec fn exclusive_or(a: Prop, b: Prop) -> Prop {
    Formula::Xor(Box::new(a), Box::new(b))
}

/// `a < b`.
pub open spec fn lt(a: IntProp, b: IntProp) -> Prop {
    Formula::Lt(Box::new(a), Box::new(b))
}

/// `a <= b`.
pub open spec fn le(a: IntProp, b: IntProp) -> Prop {
    Formula::Le(Box::new(a), Box::new(b))
}

/// `a > b`.
pub open spec fn gt(a: IntProp, b: IntProp) -> Prop {
    Formula::Gt(Box::new(a), Box::new(b))
}

/// `a >= b`.
pub open spec fn ge(a: IntProp, b: IntProp) -> Prop {
    Formula::Ge(Box::new(a), Box::new(b))
}

/// `a + b`.
pub open spec fn sum(a: IntProp, b: IntProp) -> IntProp {
    IntExpr::Add(Box::new(a), Box::new(b))
}

/// `a - b`.
pub open spec fn difference(a: IntProp, b: IntProp) -> IntProp {
    IntExpr::Sub(Box::new(a), Box::new(b))
}

/// `a * b`.
pub open spec fn product(a: IntProp, b: IntProp) -> IntProp {
    IntExpr::Mul(Box::new(a), Box::new(b))
}

/// The remainder of `a` by `b`.
pub open spec fn remainder(a: IntProp, b: IntProp) -> IntProp {
    IntExpr::Mod(Box::new(a), Box::new(b))
}

/// Copies an integer term.
pub fn clone_int(e: &IntTerm) -> (r: IntTerm)
    ensures
        r@ == e@,
    decreases e,
{
    match e {
        IntExpr::Const(n) => IntExpr::Const(n.clone()),
        IntExpr::Lit(v) => IntExpr::Lit(*v),
        IntExpr::Add(a, b) => IntExpr::Add(Box::new(clone_int(a)), Box::new(clone_int(b))),
        IntExpr::Sub(a, b) => IntExpr::Sub(Box::new(clone_int(a)), Box::new(clone_int(b))),
        IntExpr::Mul(a, b) => IntExpr::Mul(Box::new(clone_int(a)), Box::new(clone_int(b))),
        IntExpr::Mod(a, b) => IntExpr::Mod(Box::new(clone_int(a)), Box::new(clone_int(b))),
    }
}

/// Copies a formula.
pub fn clone_formula(f: &Term) -> (r: Term)
    ensures
        r@ == f@,
    decreases f,
{
    match f {
        Formula::Const(n) => Formula::Const(n.clone()),
        Formula::Lit(b) => Formula::Lit(*b),
        Formula::Not(a) => Formula::Not(Box::new(clone_formula(a))),
        Formula::And(a, b) => Formula::And(Box::new(clone_formula(a)), Box::new(clone_formula(b))),
        Formula::Or(a, b) => Formula::Or(Box::new(clone_formula(a)), Box::new(clone_formula(b))),
        Formula::Implies(a, b) => Formula::Implies(
            Box::new(clone_formula(a)),
            Box::new(clone_formula(b)),
        ),
        Formula::Iff(a, b) => Formula::Iff(Box::new(clone_formula(a)), Box::new(clone_formula(b))),
        Formula::Xor(a, b) => Formula::Xor(Box::new(clone_formula(a)), Box::new(clone_formula(b))),
        Formula::IntEq(a, b) => Formula::IntEq(Box::new(clone_int(a)), Box::new(clone_int(b))),
        Formula::Lt(a, b) => Formula::Lt(Box::new(clone_int(a)), Box::new(clone_int(b))),
        Formula::Le(a, b) => Formula::Le(Box::new(clone_int(a)), Box::new(clone_int(b))),
        Formula::Gt(a, b) => Formula::Gt(Box::new(clone_int(a)), Box::new(clone_int(b))),
        Formula::Ge(a, b) => Formula::Ge(Box::new(clone_int(a)), Box::new(clone_int(b))),
    }
}

/// The boolean constant named `name`.
pub fn named_bool(name: &str) -> (r: Term)
    ensures
        r@ == bool_const(name@),
{
    Formula::Const(name.to_owned())
}

/// The integer constant named `name`.
pub fn named_int(name: &str) -> (r: IntTerm)
    ensures
        r@ == int_const(name@),
{
    IntExpr::Const(name.to_owned())
}

/// The formula `a ==> b`.
pub fn mk_implies(a: Term, b: Term) -> (r: Term)
    ensures
        r@ == implication(a@, b@),
{
    Formula::Implies(Box::new(a), Box::new(b))
}

/// The formula `a && b`.
pub fn mk_and(a: Term, b: Term) -> (r: Term)
    ensures
        r@ == conjunction(a@, b@),
{
    Formula::And(Box::new(a), Box::new(b))
}

/// The formula `a || b`.
pub fn mk_or(a: Term, b: Term) -> (r: Term)
    ensures
        r@ == disjunction(a@, b@),
{
    Formula::Or(Box::new(a), Box::new(b))
}

/// The formula `!a`.
pub fn mk_not(a: Term) -> (r: Term)
    ensures
        r@ == negation(a@),
{
    Formula::Not(Box::new(a))
}

/// The formula `a == b` over booleans.
pub fn mk_iff(a: Term, b: Term) -> (r: Term)
    ensures
        r@ == equivalence(a@, b@),
{
    Formula::Iff(Box::new(a), Box::new(b))
}

/// The formula `a == b` over integers.
pub fn mk_int_eq(a: IntTerm, b: IntTerm) -> (r: Term)
    ensures
        r@ == int_eq(a@, b@),
{
    Formula::IntEq(Box::new(a), Box::new(b))
}

/// The boolean literal `b`.
pub fn mk_bool_lit(b: bool) -> (r: Term)
    ensures
        r@ == bool_lit(b),
{
    Formula::Lit(b)
}

/// The integer literal `v`.
pub fn mk_int_lit(v: i64) -> (r: IntTerm)
    ensures
        r@ == int_lit(v),
{
    IntExpr::Lit(v)
}

/// The formula `a ^ b`.
pub fn mk_xor(a: Term, b: Term) -> (r: Term)
    ensures
        r@ == exclusive_or(a@, b@),
{
    Formula::Xor(Box::new(a), Box::new(b))
}

/// The formula `a < b`.
pub fn mk_lt(a: IntTerm, b: IntTerm) -> (r: Term)
    ensures
        r@ == lt(a@, b@),
{
    Formula::Lt(Box::new(a), Box::new(b))
}

/// The formula `a <= b`.
pub fn mk_le(a: IntTerm, b: IntTerm) -> (r: Term)
    ensures
        r@ == le(a@, b@),
{
    Formula::Le(Box::new(a), Box::new(b))
}

/// The formula `a > b`.
pub fn mk_gt(a: IntTerm, b: IntTerm) -> (r: Term)
    ensures
        r@ == gt(a@, b@),
{
    Formula::Gt(Box::new(a), Box::new(b))
}

/// The formula `a >= b`.
pub fn mk_ge(a: IntTerm, b: IntTerm) -> (r: Term)
    ensures
        r@ == ge(a@, b@),
{
    Formula::Ge(Box::new(a), Box::new(b))
}

/// The term `a + b`.
pub fn mk_sum(a: IntTerm, b: IntTerm) -> (r: IntTerm)
    ensures
        r@ == sum(a@, b@),
{
    IntExpr::Add(Box::new(a), Box::new(b))
}

/// The term `a - b`.
pub fn mk_difference(a: IntTerm, b: IntTerm) -> (r: IntTerm)
    ensures
        r@ == difference(a@, b@),
{
    IntExpr::Sub(Box::new(a), Box::new(b))
}

/// The term `a * b`.
pub fn mk_product(a: IntTerm, b: IntTerm) -> (r: IntTerm)
    ensures
        r@ == product(a@, b@),
{
    IntExpr::Mul(Box::new(a), Box::new(b))
}

/// The term for the remainder of `a` by `b`.
pub fn mk_remainder(a: IntTerm, b: IntTerm) -> (r: IntTerm)
    ensures
        r@ == remainder(a@, b@),
{
    IntExpr::Mod(Box::new(a), Box::new(b))
}

/// The formula that equates two named boolean constants.
pub fn mk_bool_names_equal(a: &str, b: &str) -> (r: Term)
    ensures
        r@ == bool_names_equal(a@, b@),
{
    mk_iff(named_bool(a), named_bool(b))
}

/// The formula that equates two named integer constants.
pub fn mk_int_names_equal(a: &str, b: &str) -> (r: Term)
    ensures
        r@ == int_names_equal(a@, b@),
{
    mk_int_eq(named_int(a), named_int(b))
}

} // verus!
