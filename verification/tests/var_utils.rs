use wombat_symx::formula::{Formula, IntExpr};
use wombat_symx::query::{Query, Warning};
use wombat_symx::utils::var_utils::{bounds_of_width, get_min_max_signed_int, get_var_name};

#[test]
fn bounds_of_each_width_are_twos_complement() {
    assert_eq!(get_min_max_signed_int("8"), Some((i8::MIN as i64, i8::MAX as i64)));
    assert_eq!(get_min_max_signed_int("16"), Some((i16::MIN as i64, i16::MAX as i64)));
    assert_eq!(get_min_max_signed_int("32"), Some((i32::MIN as i64, i32::MAX as i64)));
    assert_eq!(get_min_max_signed_int("64"), Some((i64::MIN, i64::MAX)));
    assert_eq!(get_min_max_signed_int("size"), Some((isize::MIN as i64, isize::MAX as i64)));
}

#[test]
fn bounds_are_known_for_four_widths_only() {
    assert_eq!(get_min_max_signed_int("16"), Some((-32768, 32767)));
    assert_eq!(get_min_max_signed_int("128"), None);
    assert_eq!(get_min_max_signed_int(""), None);
    assert_eq!(get_min_max_signed_int("7"), None);
    assert_eq!(get_min_max_signed_int("064"), None);
    assert_eq!(bounds_of_width(8), Some((-128, 127)));
    assert_eq!(bounds_of_width(1), None);
    assert_eq!(bounds_of_width(128), None);
}

#[test]
fn register_name_takes_the_namespace() {
    let mut solver = Query::new();
    assert_eq!(get_var_name("  %4 = add i32 %x, 1", &mut solver, ""), "%4");
    assert_eq!(get_var_name("i32 %x", &mut solver, "_%3."), "_%3.%x");
    assert_eq!(get_var_name("%x, %y", &mut solver, "n."), "n.%x");
    assert!(solver.assertions.is_empty());
    assert!(solver.constants.is_empty());
    assert!(solver.warnings.is_empty());
}

#[test]
fn literal_is_defined_once() {
    let mut solver = Query::new();
    assert_eq!(get_var_name("i32 -5", &mut solver, "ignored."), "const_-5");
    assert_eq!(get_var_name("i64 -5", &mut solver, ""), "const_-5");
    assert_eq!(get_var_name("i1 true", &mut solver, ""), "const_true");
    assert_eq!(get_var_name("i1 false", &mut solver, ""), "const_false");
    assert_eq!(
        solver.assertions,
        vec![
            Formula::IntEq(
                Box::new(IntExpr::Const("const_-5".to_string())),
                Box::new(IntExpr::Lit(-5))
            ),
            Formula::Iff(
                Box::new(Formula::Const("const_true".to_string())),
                Box::new(Formula::Lit(true))
            ),
            Formula::Iff(
                Box::new(Formula::Const("const_false".to_string())),
                Box::new(Formula::Lit(false))
            ),
        ]
    );
    assert_eq!(solver.constants, vec!["const_-5", "const_true", "const_false"]);
}

#[test]
fn literal_without_value_leaves_a_warning() {
    let mut solver = Query::new();
    assert_eq!(get_var_name("i32* null", &mut solver, ""), "const_null");
    assert_eq!(get_var_name("unreachable", &mut solver, ""), "const_");
    assert_eq!(
        get_var_name("i128 170141183460469231731687303715884105727", &mut solver, ""),
        "const_170141183460469231731687303715884105727"
    );
    assert!(solver.assertions.is_empty());
    assert_eq!(
        solver.warnings,
        vec![Warning::UnsupportedLiteral, Warning::UnsupportedLiteral, Warning::UnsupportedLiteral]
    );
}

#[test]
fn query_records_what_it_is_told() {
    let mut solver = Query::new();
    assert!(solver.assertions.is_empty() && solver.constants.is_empty());
    assert!(!solver.is_incomplete());
    assert!(!solver.is_defined("const_1"));
    solver.define("const_1", Formula::Lit(true));
    solver.add_assertion(Formula::Lit(false));
    assert!(solver.is_defined("const_1"));
    assert!(!solver.is_defined("const_"));
    assert_eq!(solver.assertions, vec![Formula::Lit(true), Formula::Lit(false)]);
    solver.warn(Warning::UnsupportedOpcode);
    solver.warn(Warning::UnsupportedType);
    assert!(solver.has_warning(Warning::UnsupportedType));
    assert!(!solver.has_warning(Warning::CyclicCfg));
    assert!(!solver.is_incomplete());
    for warning in [Warning::CyclicCfg, Warning::RecursiveCall, Warning::UnsupportedTerminator] {
        let mut other = Query::new();
        other.warn(Warning::MalformedInstruction);
        other.warn(warning);
        assert!(other.is_incomplete());
    }
}
