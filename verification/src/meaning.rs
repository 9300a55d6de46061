//! What a formula says.
//!
//! A valuation gives every boolean constant a truth value and every integer
//! constant an integer. A formula holds under a valuation or it does not; a
//! query is satisfiable when some valuation makes all its assertions hold.

use vstd::prelude::*;
use crate::codegen::{common_end_definition, range_constraint};
use crate::codegen::codegen_call::{arithmetic, CallKind};
use crate::codegen::codegen_instruction::comparison;
use crate::formula::{
    bool_const, conjunction, disjunction, equivalence, gt, implication, int_const, int_eq,
    int_lit, int_names_equal, lt, negation, remainder, Formula, IntExpr, IntProp, Prop,
};
use crate::ir::IntPredicate;
use crate::symbolic_execution::{COMMON_END_NODE, PANIC_VAR_NAME};

verus! {

/// A value for every constant.
pub struct Valuation {
    /// The truth value of each boolean constant.
    pub bools: spec_fn(Seq<char>) -> bool,
    /// The value of each integer constant.
    pub ints: spec_fn(Seq<char>) -> int,
}

/// The value of the integer term `e` under `v`. The remainder is never
/// negative: it is that of the division whose quotient leaves one.
pub open spec fn value_of(e: IntProp, v: Valuation) -> int
    decreases e,
{
    match e {
        IntExpr::Const(n) => (v.ints)(n),
        IntExpr::Lit(x) => x as int,
        IntExpr::Add(a, b) => value_of(*a, v) + value_of(*b, v),
        IntExpr::Sub(a, b) => value_of(*a, v) - value_of(*b, v),
        IntExpr::Mul(a, b) => value_of(*a, v) * value_of(*b, v),
        IntExpr::Mod(a, b) => value_of(*a, v) % value_of(*b, v),
    }
}

/// Whether the formula `f` holds under `v`.
pub open spec fn holds(f: Prop, v: Valuation) -> bool
    decreases f,
{
    match f {
        Formula::Const(n) => (v.bools)(n),
        Formula::Lit(b) => b,
        Formula::Not(a) => !holds(*a, v),
        Formula::And(a, b) => holds(*a, v) && holds(*b, v),
        Formula::Or(a, b) => holds(*a, v) || holds(*b, v),
        Formula::Implies(a, b) => holds(*a, v) ==> holds(*b, v),
        Formula::Iff(a, b) => holds(*a, v) == holds(*b, v),
        Formula::Xor(a, b) => holds(*a, v) != holds(*b, v),
        Formula::IntEq(a, b) => value_of(*a, v) == value_of(*b, v),
        Formula::Lt(a, b) => value_of(*a, v) < value_of(*b, v),
        Formula::Le(a, b) => value_of(*a, v) <= value_of(*b, v),
        Formula::Gt(a, b) => value_of(*a, v) > value_of(*b, v),
        Formula::Ge(a, b) => value_of(*a, v) >= value_of(*b, v),
    }
}

/// Whether every one of `assertions` holds under `v`.
pub open spec fn satisfies(v: Valuation, assertions: Seq<Prop>) -> bool {
    forall|i: int| 0 <= i < assertions.len() ==> holds(#[trigger] assertions[i], v)
}

/// A range constraint holds exactly when the value lies within the bounds.
pub proof fn lemma_range_constraint(name: Seq<char>, bounds: (i64, i64), v: Valuation)
    ensures
        holds(range_constraint(name, bounds), v) == (bounds.0 <= (v.ints)(name) <= bounds.1),
{
    reveal_with_fuel(holds, 3);
    reveal_with_fuel(value_of, 2);
}

/// A comparison holds exactly when the two values compare as the
/// predicate says. The predicates on unsigned integers compare as those on
/// signed ones.
pub proof fn lemma_comparison(predicate: IntPredicate, a: Seq<char>, b: Seq<char>, v: Valuation)
    ensures
        holds(comparison(predicate, a, b), v) == match predicate {
            IntPredicate::EQ => (v.ints)(a) == (v.ints)(b),
            IntPredicate::NE => (v.ints)(a) != (v.ints)(b),
            IntPredicate::SLT | IntPredicate::ULT => (v.ints)(a) < (v.ints)(b),
            IntPredicate::SLE | IntPredicate::ULE => (v.ints)(a) <= (v.ints)(b),
            IntPredicate::SGT | IntPredicate::UGT => (v.ints)(a) > (v.ints)(b),
            IntPredicate::SGE | IntPredicate::UGE => (v.ints)(a) >= (v.ints)(b),
        },
{
    reveal_with_fuel(holds, 3);
    reveal_with_fuel(value_of, 2);
}

/// The unbounded result of a checked operation on two values.
pub open spec fn unbounded(kind: CallKind, a: int, b: int) -> int {
    match kind {
        CallKind::CheckedSub => a - b,
        CallKind::CheckedMul => a * b,
        _ => a + b,
    }
}

/// What the encoding of a checked operation says: field 0 of the target
/// is the unbounded result, and field 1 is set exactly when that result
/// does not fit between the bounds.
pub proof fn lemma_checked_operation(
    kind: CallKind,
    target: Seq<char>,
    a: Seq<char>,
    b: Seq<char>,
    bounds: (i64, i64),
    v: Valuation,
)
    ensures
        ({
            let result = arithmetic(kind, int_const(a), int_const(b));
            holds(
                conjunction(
                    int_eq(int_const(target + ".0"@), result),
                    equivalence(
                        bool_const(target + ".1"@),
                        disjunction(
                            gt(result, int_lit(bounds.1)),
                            lt(result, int_lit(bounds.0)),
                        ),
                    ),
                ),
                v,
            ) == ((v.ints)(target + ".0"@) == unbounded(kind, (v.ints)(a), (v.ints)(b)) && (
            v.bools)(target + ".1"@) == !(bounds.0 <= unbounded(kind, (v.ints)(a), (v.ints)(b))
                <= bounds.1))
        }),
{
    reveal_with_fuel(holds, 5);
    reveal_with_fuel(value_of, 3);
}

/// The definition of the common end node holds exactly when arriving
/// there is safe on the paths that do not end in a panic, and on no other.
pub proof fn lemma_common_end(v: Valuation)
    ensures
        holds(common_end_definition(), v) == ((v.bools)(COMMON_END_NODE@) == !(v.bools)(
            PANIC_VAR_NAME@,
        )),
{
    reveal_with_fuel(holds, 4);
}

/// What the encoding of a zero extension of a boolean says: the target
/// is 1 where the boolean holds, and 0 where it does not.
pub proof fn lemma_zero_extension(target: Seq<char>, operand: Seq<char>, v: Valuation)
    ensures
        holds(
            conjunction(
                implication(bool_const(operand), int_eq(int_const(target), int_lit(1))),
                implication(negation(bool_const(operand)), int_eq(int_const(target), int_lit(0))),
            ),
            v,
        ) == ((v.ints)(target) == if (v.bools)(operand) {
            1int
        } else {
            0int
        }),
{
    reveal_with_fuel(holds, 5);
    reveal_with_fuel(value_of, 2);
}

/// What the encoding of a select of integers says: the target is the
/// first value where the condition holds, and the second where it does not.
pub proof fn lemma_select(
    target: Seq<char>,
    condition: Seq<char>,
    first: Seq<char>,
    second: Seq<char>,
    v: Valuation,
)
    ensures
        holds(
            conjunction(
                implication(bool_const(condition), int_names_equal(target, first)),
                implication(negation(bool_const(condition)), int_names_equal(target, second)),
            ),
            v,
        ) == ((v.ints)(target) == if (v.bools)(condition) {
            (v.ints)(first)
        } else {
            (v.ints)(second)
        }),
{
    reveal_with_fuel(holds, 5);
    reveal_with_fuel(value_of, 2);
}

/// What the encoding of a truncation to one bit says: the target holds
/// exactly where the operand is odd.
pub proof fn lemma_truncation(target: Seq<char>, operand: Seq<char>, v: Valuation)
    ensures
        holds(
            equivalence(
                bool_const(target),
                int_eq(remainder(int_const(operand), int_lit(2)), int_lit(1)),
            ),
            v,
        ) == ((v.bools)(target) == ((v.ints)(operand) % 2 == 1)),
{
    reveal_with_fuel(holds, 4);
    reveal_with_fuel(value_of, 3);
}

} // verus!
