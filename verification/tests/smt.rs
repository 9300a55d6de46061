use wombat_symx::formula::{Formula, IntExpr, Term};
use wombat_symx::ir::IrType;
use wombat_symx::query::Warning;
use wombat_symx::smt::{
    check_sat, number_value, truth_value, Answer, ModelValue, SatOutcome, Wanted,
};
use wombat_symx::symbolic_execution::{report_from, verdict, Assignment, Verdict};
use wombat_symx::utils::function_utils::ArgumentName;

fn b(name: &str) -> Term {
    Formula::Const(name.to_string())
}

fn i(name: &str) -> Box<IntExpr<String>> {
    Box::new(IntExpr::Const(name.to_string()))
}

fn n(v: i64) -> Box<IntExpr<String>> {
    Box::new(IntExpr::Lit(v))
}

fn wanted(name: &str, ty: IrType) -> Wanted {
    Wanted { name: name.to_string(), ty }
}

fn outcome(assertions: Vec<Term>) -> SatOutcome {
    check_sat(&assertions, &Vec::new()).outcome
}

#[test]
fn nothing_asserted_is_satisfiable() {
    assert_eq!(check_sat(&Vec::new(), &Vec::new()), Answer { outcome: SatOutcome::Sat, values: vec![] });
}

#[test]
fn literals_and_connectives_mean_what_they_say() {
    let t = || Formula::Lit(true);
    let f = || Formula::Lit(false);
    assert_eq!(outcome(vec![t()]), SatOutcome::Sat);
    assert_eq!(outcome(vec![f()]), SatOutcome::Unsat);
    assert_eq!(outcome(vec![Formula::Not(Box::new(t()))]), SatOutcome::Unsat);
    assert_eq!(outcome(vec![Formula::And(Box::new(t()), Box::new(f()))]), SatOutcome::Unsat);
    assert_eq!(outcome(vec![Formula::Or(Box::new(t()), Box::new(f()))]), SatOutcome::Sat);
    assert_eq!(outcome(vec![Formula::Or(Box::new(f()), Box::new(f()))]), SatOutcome::Unsat);
    assert_eq!(outcome(vec![Formula::Implies(Box::new(t()), Box::new(f()))]), SatOutcome::Unsat);
    assert_eq!(outcome(vec![Formula::Implies(Box::new(f()), Box::new(t()))]), SatOutcome::Sat);
    assert_eq!(outcome(vec![Formula::Implies(Box::new(f()), Box::new(f()))]), SatOutcome::Sat);
    assert_eq!(outcome(vec![Formula::Iff(Box::new(t()), Box::new(f()))]), SatOutcome::Unsat);
    assert_eq!(outcome(vec![Formula::Iff(Box::new(f()), Box::new(f()))]), SatOutcome::Sat);
    assert_eq!(outcome(vec![Formula::Xor(Box::new(t()), Box::new(f()))]), SatOutcome::Sat);
    assert_eq!(outcome(vec![Formula::Xor(Box::new(t()), Box::new(t()))]), SatOutcome::Unsat);
}

#[test]
fn comparisons_and_arithmetic_mean_what_they_say() {
    assert_eq!(outcome(vec![Formula::Lt(n(1), n(2))]), SatOutcome::Sat);
    assert_eq!(outcome(vec![Formula::Lt(n(2), n(2))]), SatOutcome::Unsat);
    assert_eq!(outcome(vec![Formula::Le(n(2), n(2))]), SatOutcome::Sat);
    assert_eq!(outcome(vec![Formula::Le(n(3), n(2))]), SatOutcome::Unsat);
    assert_eq!(outcome(vec![Formula::Gt(n(3), n(2))]), SatOutcome::Sat);
    assert_eq!(outcome(vec![Formula::Gt(n(2), n(2))]), SatOutcome::Unsat);
    assert_eq!(outcome(vec![Formula::Ge(n(2), n(2))]), SatOutcome::Sat);
    assert_eq!(outcome(vec![Formula::Ge(n(1), n(2))]), SatOutcome::Unsat);
    assert_eq!(outcome(vec![Formula::IntEq(n(2), n(2))]), SatOutcome::Sat);
    assert_eq!(outcome(vec![Formula::IntEq(n(1), n(2))]), SatOutcome::Unsat);
    let sum = Box::new(IntExpr::Add(n(5), n(3)));
    assert_eq!(outcome(vec![Formula::IntEq(sum, n(8))]), SatOutcome::Sat);
    let difference = Box::new(IntExpr::Sub(n(5), n(3)));
    assert_eq!(outcome(vec![Formula::IntEq(difference, n(2))]), SatOutcome::Sat);
    let product = Box::new(IntExpr::Mul(n(5), n(3)));
    assert_eq!(outcome(vec![Formula::IntEq(product, n(15))]), SatOutcome::Sat);
    let remainder = Box::new(IntExpr::Mod(n(7), n(2)));
    assert_eq!(outcome(vec![Formula::IntEq(remainder, n(1))]), SatOutcome::Sat);
    let of_negative = Box::new(IntExpr::Mod(n(-7), n(2)));
    assert_eq!(outcome(vec![Formula::IntEq(of_negative, n(1))]), SatOutcome::Sat);
    let beyond = Box::new(IntExpr::Add(n(i64::MAX), n(1)));
    assert_eq!(outcome(vec![Formula::Gt(beyond, n(i64::MAX))]), SatOutcome::Sat);
}

#[test]
fn constants_of_one_name_and_two_sorts_are_two_constants() {
    let assertions =
        vec![Formula::IntEq(i("x"), n(5)), Formula::Iff(Box::new(b("x")), Box::new(Formula::Lit(true)))];
    let answer = check_sat(
        &assertions,
        &vec![wanted("x", IrType::Int(32)), wanted("x", IrType::Int(1)), wanted("x", IrType::Other)],
    );
    assert_eq!(
        answer,
        Answer {
            outcome: SatOutcome::Sat,
            values: vec![Some(ModelValue::Int(5)), Some(ModelValue::Bool(true)), None],
        }
    );
}

#[test]
fn model_gives_the_values_asked_for() {
    let assertions = vec![
        Formula::Gt(i("%x"), n(41)),
        Formula::Lt(i("%x"), n(43)),
        Formula::Not(Box::new(b("%flag"))),
    ];
    let answer =
        check_sat(&assertions, &vec![wanted("%flag", IrType::Int(1)), wanted("%x", IrType::Int(8))]);
    assert_eq!(answer.outcome, SatOutcome::Sat);
    assert_eq!(answer.values, vec![Some(ModelValue::Bool(false)), Some(ModelValue::Int(42))]);
}

#[test]
fn no_values_without_a_model() {
    let answer = check_sat(&vec![Formula::Lit(false)], &vec![wanted("%x", IrType::Int(32))]);
    assert_eq!(answer, Answer { outcome: SatOutcome::Unsat, values: vec![] });
}

#[test]
fn name_with_a_nul_is_not_handed_to_the_solver() {
    let answer = check_sat(&vec![Formula::Lit(false), b("a\0b")], &Vec::new());
    assert_eq!(answer, Answer { outcome: SatOutcome::Unknown, values: vec![] });
    let answer = check_sat(&vec![Formula::IntEq(i("\0"), n(1))], &Vec::new());
    assert_eq!(answer.outcome, SatOutcome::Unknown);
    let answer = check_sat(&vec![Formula::Lit(true)], &vec![wanted("a\0", IrType::Int(32))]);
    assert_eq!(answer, Answer { outcome: SatOutcome::Sat, values: vec![None] });
}

#[test]
fn verdict_follows_the_answer_unless_the_encoding_is_incomplete() {
    assert_eq!(verdict(SatOutcome::Unsat, false), Verdict::Safe);
    assert_eq!(verdict(SatOutcome::Sat, false), Verdict::Unsafe);
    assert_eq!(verdict(SatOutcome::Unknown, false), Verdict::Unknown);
    assert_eq!(verdict(SatOutcome::Unsat, true), Verdict::Unknown);
    assert_eq!(verdict(SatOutcome::Sat, true), Verdict::Unknown);
    assert_eq!(verdict(SatOutcome::Unknown, true), Verdict::Unknown);
}

fn argument(name: &str) -> ArgumentName {
    ArgumentName {
        source_name: format!("%{}", name),
        smt_name: format!("%{}.alias", name),
        ty: IrType::Int(32),
    }
}

#[test]
fn report_pairs_parameters_with_values() {
    let answer = Answer {
        outcome: SatOutcome::Sat,
        values: vec![Some(ModelValue::Int(3)), None, Some(ModelValue::Bool(true))],
    };
    let arguments = vec![argument("a"), argument("b")];
    let report = report_from(&answer, false, &arguments, &vec![Warning::UnsupportedType], &vec![b("p")]);
    assert_eq!(report.query, vec![b("p")]);
    assert_eq!(report.warnings, vec![Warning::UnsupportedType]);
    assert_eq!(report.verdict, Verdict::Unsafe);
    assert_eq!(
        report.counterexample,
        vec![
            Assignment { name: "%a".to_string(), value: Some(ModelValue::Int(3)) },
            Assignment { name: "%b".to_string(), value: None },
        ]
    );
    let incomplete = report_from(&answer, true, &arguments, &vec![Warning::CyclicCfg], &vec![]);
    assert_eq!(incomplete.verdict, Verdict::Unknown);
    assert!(incomplete.counterexample.is_empty());
    let safe = report_from(
        &Answer { outcome: SatOutcome::Unsat, values: vec![] },
        false,
        &arguments,
        &vec![],
        &vec![],
    );
    assert_eq!(safe.verdict, Verdict::Safe);
    assert!(safe.counterexample.is_empty());
}

#[test]
fn value_read_from_a_model_keeps_what_was_read() {
    assert_eq!(truth_value(Some(true)), Some(ModelValue::Bool(true)));
    assert_eq!(truth_value(Some(false)), Some(ModelValue::Bool(false)));
    assert_eq!(truth_value(None), None);
    assert_eq!(number_value(Some(0)), Some(ModelValue::Int(0)));
    assert_eq!(number_value(Some(i64::MIN)), Some(ModelValue::Int(i64::MIN)));
    assert_eq!(number_value(Some(i64::MAX)), Some(ModelValue::Int(i64::MAX)));
    assert_eq!(number_value(None), None);
}

#[test]
fn variable_that_cannot_be_read_has_no_value() {
    let assertions = vec![Formula::IntEq(i("%p"), n(3)), b("%p")];
    let answer = check_sat(
        &assertions,
        &vec![
            wanted("%p", IrType::Pointer),
            wanted("%p", IrType::Other),
            wanted("%p\0", IrType::Int(1)),
            wanted("%p", IrType::Int(64)),
            wanted("%p", IrType::Int(1)),
        ],
    );
    assert_eq!(answer.outcome, SatOutcome::Sat);
    assert_eq!(
        answer.values,
        vec![None, None, None, Some(ModelValue::Int(3)), Some(ModelValue::Bool(true))]
    );
}

#[test]
fn only_the_verdict_safe_is_found_safe() {
    let report = |verdict| wombat_symx::symbolic_execution::Report {
        verdict,
        counterexample: vec![],
        warnings: vec![],
        query: vec![],
    };
    assert!(wombat_symx::symbolic_execution::found_safe(&report(Verdict::Safe)));
    assert!(!wombat_symx::symbolic_execution::found_safe(&report(Verdict::Unsafe)));
    assert!(!wombat_symx::symbolic_execution::found_safe(&report(Verdict::Unknown)));
}
