use wombat_symx::harness::{
    bitcode_file_name, decimal_text, make_replay_program, parameter_name, render_value,
    replace_all, strip_extension, temporary_source_name,
};
use wombat_symx::smt::ModelValue;

#[test]
fn bitcode_file_lies_beside_the_source_file() {
    assert_eq!(bitcode_file_name("tests/hello_world.rs"), "tests/hello_world.bc");
    assert_eq!(bitcode_file_name("hello"), "hello.bc");
    assert_eq!(bitcode_file_name("a.b.rs"), "a.b.bc");
    assert_eq!(bitcode_file_name(""), ".bc");
    assert_eq!(strip_extension("dir.d/file"), "dir");
    assert_eq!(strip_extension("x.rs"), "x");
    assert_eq!(strip_extension(".rs"), "");
}

#[test]
fn temporary_source_file_lies_in_the_same_directory() {
    assert_eq!(temporary_source_name("tests/abs.rs"), "tests/temp_wombat_symx_abs.rs");
    assert_eq!(temporary_source_name("abs.rs"), "temp_wombat_symx_abs.rs");
    assert_eq!(temporary_source_name("a/b/c"), "a/b/temp_wombat_symx_c");
    assert_eq!(temporary_source_name("a/"), "a/temp_wombat_symx_");
}

#[test]
fn replacement_takes_occurrences_from_the_left() {
    assert_eq!(replace_all("fn main() {} fn main2()", "fn main", "fn _main"), "fn _main() {} fn _main2()");
    assert_eq!(replace_all("aaaa", "aa", "b"), "bb");
    assert_eq!(replace_all("aaa", "aa", "b"), "ba");
    assert_eq!(replace_all("abc", "x", "y"), "abc");
    assert_eq!(replace_all("", "x", "y"), "");
    assert_eq!(replace_all("xxx", "x", ""), "");
    assert_eq!(replace_all("été", "é", "e"), "ete");
    for (s, p, w) in [("abcabc", "bc", "X"), ("aXbXc", "X", "XX"), ("banana", "ana", "o")] {
        assert_eq!(replace_all(s, p, w), s.replace(p, w));
    }
}

#[test]
fn empty_pattern_occurs_before_each_character_and_at_the_end() {
    assert_eq!(replace_all("ab", "", "-"), "-a-b-");
    assert_eq!(replace_all("", "", "x"), "x");
    assert_eq!(replace_all("abc", "", ""), "abc");
    for (s, w) in [("été", "."), ("x", "yy"), ("", "")] {
        assert_eq!(replace_all(s, "", w), s.replace("", w));
    }
}

#[test]
fn replay_program_calls_the_function_with_the_values() {
    let source = "fn abs(x: i32) -> i32 { x }\nfn main() {}";
    assert_eq!(
        make_replay_program(source, "abs", &vec!["-2147483648".to_string()]),
        "fn abs(x: i32) -> i32 { x }\nfn _main() {}\nfn main() {abs(-2147483648,);}"
    );
    assert_eq!(
        make_replay_program("fn f() {}", "f", &vec![]),
        "fn f() {}\nfn main() {f();}"
    );
    assert_eq!(
        make_replay_program("", "g", &vec!["true".to_string(), "7".to_string()]),
        "\nfn main() {g(true,7,);}"
    );
    assert_eq!(make_replay_program(source, "main", &vec!["1".to_string()]), source);
}

#[test]
fn values_are_written_as_a_program_writes_them() {
    assert_eq!(render_value(&ModelValue::Bool(true)), "true");
    assert_eq!(render_value(&ModelValue::Bool(false)), "false");
    for v in [0, 7, 10, 42, -1, -10, 1234567890, i64::MAX, i64::MIN, i64::MIN + 1] {
        assert_eq!(render_value(&ModelValue::Int(v)), v.to_string());
    }
    assert_eq!(decimal_text(0), "0");
    assert_eq!(decimal_text(u64::MAX), "18446744073709551615");
}

#[test]
fn parameter_is_named_without_namespace_and_percent() {
    assert_eq!(parameter_name("%x", 0), "x");
    assert_eq!(parameter_name("n.%x", 2), "x");
    assert_eq!(parameter_name("n.%x%y", 0), "n.xy");
    assert_eq!(parameter_name("%x", 5), "");
    assert_eq!(parameter_name("", 0), "");
}
