use wombat_symx::literal::parse_i64;
use wombat_symx::symbolic_execution::get_module_name_from_file_name;
use wombat_symx::text::{
    concat_str, contains_string, has_char, last_word_of, matches_at, push_unique, scan_back_str,
    scan_str, second_word_of, slice_to_string, str_contains, str_eq, str_starts_with, CharClass,
};

#[test]
fn module_name_is_the_file_name_without_directories_and_extension() {
    assert_eq!(get_module_name_from_file_name("tests/hello_world.bc"), "hello_world");
    assert_eq!(get_module_name_from_file_name("hello_world.bc"), "hello_world");
    assert_eq!(get_module_name_from_file_name("a/b/c.d.e"), "c.d");
    assert_eq!(get_module_name_from_file_name("plain"), "plain");
    assert_eq!(get_module_name_from_file_name("dir/plain"), "plain");
    assert_eq!(get_module_name_from_file_name(""), "");
    assert_eq!(get_module_name_from_file_name("dir/"), "");
    assert_eq!(get_module_name_from_file_name(".hidden"), "");
}

#[test]
fn dot_in_a_directory_is_no_extension() {
    assert_eq!(get_module_name_from_file_name("dir.d/file"), "file");
    assert_eq!(get_module_name_from_file_name("a.b/"), "");
}

#[test]
fn module_name_counts_characters_not_bytes() {
    assert_eq!(get_module_name_from_file_name("données/été.bc"), "été");
}

#[test]
fn scan_finds_the_first_of_a_class() {
    assert_eq!(scan_str("ab cd", CharClass::Space, 0), 2);
    assert_eq!(scan_str("ab cd", CharClass::Space, 3), 5);
    assert_eq!(scan_str("ab cd", CharClass::NonSpace, 2), 3);
    assert_eq!(scan_str("ab\tcd", CharClass::Space, 0), 2);
    assert_eq!(scan_str("a,b", CharClass::NameEnd, 0), 1);
    assert_eq!(scan_str("a\"b", CharClass::NameEnd, 0), 1);
    assert_eq!(scan_str("a b", CharClass::NameEnd, 0), 1);
    assert_eq!(scan_str("a\tb", CharClass::NameEnd, 0), 3);
    assert_eq!(scan_str("x%y%z", CharClass::Exactly('%'), 0), 1);
    assert_eq!(scan_str("x%y%z", CharClass::Exactly('%'), 2), 3);
    assert_eq!(scan_str("abc", CharClass::Exactly('%'), 0), 3);
    assert_eq!(scan_str("abc", CharClass::Exactly('a'), 7), 3);
    assert_eq!(scan_str("", CharClass::Space, 0), 0);
}

#[test]
fn scan_back_finds_the_last() {
    assert_eq!(scan_back_str("a/b/c", '/', 5), Some(3));
    assert_eq!(scan_back_str("a/b/c", '/', 3), Some(1));
    assert_eq!(scan_back_str("a/b/c", '/', 1), None);
    assert_eq!(scan_back_str("abc", '/', 3), None);
    assert_eq!(scan_back_str("", '/', 0), None);
}

#[test]
fn words_are_separated_by_blanks() {
    assert_eq!(second_word_of("i32 5"), "5");
    assert_eq!(second_word_of("  i32   -5  , align 4"), "-5");
    assert_eq!(second_word_of("i1\ttrue"), "true");
    assert_eq!(second_word_of("single"), "");
    assert_eq!(second_word_of(""), "");
    assert_eq!(second_word_of("   "), "");
    assert_eq!(last_word_of("  %5 = extractvalue { i32, i1 } %4, 1"), "1");
    assert_eq!(last_word_of("nospace"), "nospace");
    assert_eq!(last_word_of("trailing "), "");
    assert_eq!(last_word_of(""), "");
}

#[test]
fn strings_compare_and_search() {
    assert!(str_eq("abc", "abc"));
    assert!(!str_eq("abc", "abd"));
    assert!(!str_eq("abc", "ab"));
    assert!(str_eq("", ""));
    assert!(has_char("a%b", '%'));
    assert!(!has_char("ab", '%'));
    assert!(str_starts_with("llvm.sadd.with.overflow.i32", "llvm.sadd.with.overflow.i"));
    assert!(!str_starts_with("llvm", "llvm.sadd"));
    assert!(str_starts_with("anything", ""));
    assert!(str_contains("scenario::abs::h01", "scenario::abs"));
    assert!(str_contains("abc", "c"));
    assert!(str_contains("abc", "abc"));
    assert!(str_contains("abc", ""));
    assert!(str_contains("", ""));
    assert!(!str_contains("abc", "abcd"));
    assert!(!str_contains("abc", "ca"));
    assert!(matches_at("abcabc", "bc", 4));
    assert!(!matches_at("abcabc", "bc", 5));
    assert!(!matches_at("abc", "a", 9));
    assert!(matches_at("abc", "", 3));
}

#[test]
fn strings_are_sliced_and_joined() {
    assert_eq!(slice_to_string("hello", 1, 3), "el");
    assert_eq!(slice_to_string("hello", 2, 2), "");
    assert_eq!(slice_to_string("été", 1, 3), "té");
    assert_eq!(concat_str("ab", "cd"), "abcd");
    assert_eq!(concat_str("", ""), "");
}

#[test]
fn lists_of_strings_keep_first_occurrences() {
    let mut v: Vec<String> = Vec::new();
    push_unique(&mut v, "a".to_string());
    push_unique(&mut v, "b".to_string());
    push_unique(&mut v, "a".to_string());
    push_unique(&mut v, "c".to_string());
    push_unique(&mut v, "b".to_string());
    assert_eq!(v, vec!["a", "b", "c"]);
    assert!(contains_string(&v, "c"));
    assert!(!contains_string(&v, "d"));
}

#[test]
fn literals_are_signed_decimals_of_64_bits() {
    assert_eq!(parse_i64("0"), Some(0));
    assert_eq!(parse_i64("13"), Some(13));
    assert_eq!(parse_i64("-13"), Some(-13));
    assert_eq!(parse_i64("+13"), Some(13));
    assert_eq!(parse_i64("-0"), Some(0));
    assert_eq!(parse_i64("0000000000000000000000000007"), Some(7));
    assert_eq!(parse_i64("9223372036854775807"), Some(i64::MAX));
    assert_eq!(parse_i64("-9223372036854775808"), Some(i64::MIN));
    assert_eq!(parse_i64("9223372036854775808"), None);
    assert_eq!(parse_i64("-9223372036854775809"), None);
    assert_eq!(parse_i64("92233720368547758070"), None);
    assert_eq!(parse_i64("99999999999999999999999999"), None);
    assert_eq!(parse_i64(""), None);
    assert_eq!(parse_i64("-"), None);
    assert_eq!(parse_i64("+"), None);
    assert_eq!(parse_i64("12a"), None);
    assert_eq!(parse_i64("a12"), None);
    assert_eq!(parse_i64("1 2"), None);
    assert_eq!(parse_i64("--1"), None);
    assert_eq!(parse_i64("true"), None);
    assert_eq!(parse_i64("١٢"), None);
}

#[test]
fn literals_agree_with_the_standard_parser() {
    for text in ["0", "-1", "+5", "007", "9223372036854775807", "-9223372036854775808",
        "9223372036854775808", "", "-", "1e3", " 1", "1 ", "0x10"]
    {
        assert_eq!(parse_i64(text), text.parse::<i64>().ok(), "{:?}", text);
    }
}
