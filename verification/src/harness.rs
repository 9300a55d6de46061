//! What goes round a run: the names of the files beside the source file,
//! and the program that replays a counterexample.

use vstd::prelude::*;
use crate::smt::ModelValue;
use crate::symbolic_execution::stem_start;
use crate::text::{
    concat_str, matches_at, occurs_at, scan_back, scan_back_str, slice_to_string, str_eq, views,
};

verus! {

/// What every temporary source file is called before the name of its source file.
pub const TEMPORARY_PREFIX: &'static str = "temp_wombat_symx_";

/// `file_name` without its extension: what stands before its last dot, or
/// all of it where it has no dot.
pub open spec fn without_extension(file_name: Seq<char>) -> Seq<char> {
    if scan_back(file_name, '.', file_name.len() as int) >= 0 {
        file_name.subrange(0, scan_back(file_name, '.', file_name.len() as int))
    } else {
        file_name
    }
}

/// Takes the extension off `file_name`.
pub fn strip_extension(file_name: &str) -> (r: String)
    ensures
        r@ == without_extension(file_name@),
{
    let n = file_name.unicode_len();
    match scan_back_str(file_name, '.', n) {
        Some(dot) => slice_to_string(file_name, 0, dot),
        None => {
            let all = slice_to_string(file_name, 0, n);
            assert(all@ =~= file_name@);
            all
        },
    }
}

/// The name of the bitcode file that goes with the source file `file_name`.
pub fn bitcode_file_name(file_name: &str) -> (r: String)
    ensures
        r@ == without_extension(file_name@) + ".bc"@,
{
    let stem = strip_extension(file_name);
    concat_str(stem.as_str(), ".bc")
}

/// The name of the temporary source file that goes with the source file
/// `file_name`: in the same directory, with the prefix before the name.
pub fn temporary_source_name(file_name: &str) -> (r: String)
    ensures
        r@ == file_name@.subrange(0, stem_start(file_name@)) + TEMPORARY_PREFIX@
            + file_name@.subrange(stem_start(file_name@), file_name@.len() as int),
{
    let n = file_name.unicode_len();
    let start: usize = match scan_back_str(file_name, '/', n) {
        Some(i) => i + 1,
        None => 0,
    };
    let directory = slice_to_string(file_name, 0, start);
    let name = slice_to_string(file_name, start, n);
    let prefixed = concat_str(directory.as_str(), TEMPORARY_PREFIX);
    concat_str(prefixed.as_str(), name.as_str())
}

/// `s` from position `from` on, with `with` in place of each occurrence
/// of `pattern`; occurrences are taken from the left and do not overlap.
/// The empty pattern occurs before each character and at the end.
pub open spec fn replaced(s: Seq<char>, pattern: Seq<char>, with: Seq<char>, from: int) -> Seq<char>
    decreases s.len() - from,
{
    if from < 0 || from > s.len() {
        seq![]
    } else if pattern.len() == 0 {
        if from == s.len() {
            with
        } else {
            with + seq![s[from]] + replaced(s, pattern, with, from + 1)
        }
    } else if from == s.len() {
        seq![]
    } else if occurs_at(s, pattern, from) {
        with + replaced(s, pattern, with, from + pattern.len())
    } else {
        seq![s[from]] + replaced(s, pattern, with, from + 1)
    }
}

/// Puts `with` in place of each occurrence of `pattern` in `s`.
pub fn replace_all(s: &str, pattern: &str, with: &str) -> (r: String)
    ensures
        r@ == replaced(s@, pattern@, with@, 0),
{
    let n = s.unicode_len();
    let m = pattern.unicode_len();
    let mut r = String::new();
    let mut i: usize = 0;
    assert(r@ + replaced(s@, pattern@, with@, 0) =~= replaced(s@, pattern@, with@, 0));
    while i < n
        invariant
            i <= n,
            n == s@.len(),
            m == pattern@.len(),
            r@ + replaced(s@, pattern@, with@, i as int) == replaced(s@, pattern@, with@, 0),
        decreases n - i,
    {
        let ghost before = r@;
        let ghost rest = replaced(s@, pattern@, with@, i + 1);
        if m == 0 {
            r.append(with);
            r.append(s.substring_char(i, i + 1));
            assert(s@.subrange(i as int, i + 1) =~= seq![s@[i as int]]);
            assert(before + (with@ + seq![s@[i as int]] + rest) =~= (before + with@ + seq![
                s@[i as int],
            ]) + rest);
            i = i + 1;
        } else if matches_at(s, pattern, i) {
            r.append(with);
            assert(before + (with@ + replaced(s@, pattern@, with@, i + m)) =~= (before + with@)
                + replaced(s@, pattern@, with@, i + m));
            i = i + m;
        } else {
            r.append(s.substring_char(i, i + 1));
            assert(s@.subrange(i as int, i + 1) =~= seq![s@[i as int]]);
            assert(before + (seq![s@[i as int]] + rest) =~= (before + seq![s@[i as int]]) + rest);
            i = i + 1;
        }
    }
    if m == 0 {
        r.append(with);
    } else {
        assert(replaced(s@, pattern@, with@, n as int) =~= Seq::<char>::empty());
        assert(r@ + Seq::<char>::empty() =~= r@);
    }
    r
}

/// The first `k` of `arguments`, each with a comma behind it.
pub open spec fn listed(arguments: Seq<Seq<char>>, k: int) -> Seq<char>
    decreases k,
{
    if k <= 0 {
        seq![]
    } else {
        listed(arguments, k - 1) + arguments[k - 1] + ","@
    }
}

/// The program that replays a counterexample: the source, with its own
/// `main` out of the way, and a `main` that calls the function with the
/// arguments. Where the function is `main` itself, the source is the program.
pub open spec fn replay_program(
    source: Seq<char>,
    function_name: Seq<char>,
    arguments: Seq<Seq<char>>,
) -> Seq<char> {
    if function_name == "main"@ {
        source
    } else {
        replaced(source, "fn main"@, "fn _main"@, 0) + "\nfn main() {"@ + function_name + "("@
            + listed(arguments, arguments.len() as int) + ");}"@
    }
}

/// Writes the program that replays a counterexample.
pub fn make_replay_program(source: &str, function_name: &str, arguments: &Vec<String>) -> (r:
    String)
    ensures
        r@ == replay_program(source@, function_name@, views(arguments@)),
{
    if str_eq(function_name, "main") {
        let n = source.unicode_len();
        let all = slice_to_string(source, 0, n);
        assert(all@ =~= source@);
        return all;
    }
    proof {
        reveal_strlit("fn main");
    }
    let mut r = replace_all(source, "fn main", "fn _main");
    r.append("\nfn main() {");
    r.append(function_name);
    r.append("(");
    let ghost head = r@;
    let ghost all = views(arguments@);
    let mut k: usize = 0;
    assert(head + listed(all, 0) =~= head);
    while k < arguments.len()
        invariant
            k <= arguments.len(),
            all == views(arguments@),
            r@ == head + listed(all, k as int),
        decreases arguments.len() - k,
    {
        let ghost before = listed(all, k as int);
        r.append(arguments[k].as_str());
        r.append(",");
        assert(all[k as int] == arguments[k as int]@);
        assert(head + before + arguments[k as int]@ + ","@ =~= head + (before
            + arguments[k as int]@ + ","@));
        k = k + 1;
    }
    r.append(");}");
    assert(all.len() == arguments.len());
    r
}

/// The character of a digit.
pub open spec fn digit_char(d: nat) -> char {
    if d == 0 {
        '0'
    } else if d == 1 {
        '1'
    } else if d == 2 {
        '2'
    } else if d == 3 {
        '3'
    } else if d == 4 {
        '4'
    } else if d == 5 {
        '5'
    } else if d == 6 {
        '6'
    } else if d == 7 {
        '7'
    } else if d == 8 {
        '8'
    } else {
        '9'
    }
}

/// The decimal digits of `n`, without leading zeros.
pub open spec fn decimal(n: nat) -> Seq<char>
    decreases n,
{
    if n < 10 {
        seq![digit_char(n)]
    } else {
        decimal(n / 10).push(digit_char(n % 10))
    }
}

/// The decimal form of `v`, with a minus sign where `v` is negative.
pub open spec fn int_text(v: int) -> Seq<char> {
    if v < 0 {
        "-"@ + decimal((-v) as nat)
    } else {
        decimal(v as nat)
    }
}

/// The text of a value: `true` or `false`, or the decimal form of an integer.
pub open spec fn value_text(v: ModelValue) -> Seq<char> {
    match v {
        ModelValue::Bool(b) => if b {
            "true"@
        } else {
            "false"@
        },
        ModelValue::Int(i) => int_text(i as int),
    }
}

/// The text of one digit.
pub fn digit_text(d: u64) -> (r: &'static str)
    requires
        d < 10,
    ensures
        r@ == seq![digit_char(d as nat)],
{
    proof {
        reveal_strlit("0");
        reveal_strlit("1");
        reveal_strlit("2");
        reveal_strlit("3");
        reveal_strlit("4");
        reveal_strlit("5");
        reveal_strlit("6");
        reveal_strlit("7");
        reveal_strlit("8");
        reveal_strlit("9");
    }
    let r = if d == 0 {
        "0"
    } else if d == 1 {
        "1"
    } else if d == 2 {
        "2"
    } else if d == 3 {
        "3"
    } else if d == 4 {
        "4"
    } else if d == 5 {
        "5"
    } else if d == 6 {
        "6"
    } else if d == 7 {
        "7"
    } else if d == 8 {
        "8"
    } else {
        "9"
    };
    assert(r@ =~= seq![digit_char(d as nat)]);
    r
}

/// Writes `n` in decimal.
pub fn decimal_text(n: u64) -> (r: String)
    ensures
        r@ == decimal(n as nat),
    decreases n,
{
    if n < 10 {
        digit_text(n).to_owned()
    } else {
        let mut r = decimal_text(n / 10);
        r.append(digit_text(n % 10));
        r
    }
}

/// Writes a value as the source of a program writes it.
pub fn render_value(v: &ModelValue) -> (r: String)
    ensures
        r@ == value_text(*v),
{
    match v {
        ModelValue::Bool(b) => if *b {
            "true".to_owned()
        } else {
            "false".to_owned()
        },
        ModelValue::Int(i) => {
            if *i < 0 {
                let magnitude: u64 = if *i == i64::MIN {
                    0x8000_0000_0000_0000
                } else {
                    (-*i) as u64
                };
                let digits = decimal_text(magnitude);
                concat_str("-", digits.as_str())
            } else {
                decimal_text(*i as u64)
            }
        },
    }
}

/// `s` from position `from` on, without the character `c`.
pub open spec fn without_char(s: Seq<char>, c: char, from: int) -> Seq<char>
    decreases s.len() - from,
{
    if from < 0 || from >= s.len() {
        seq![]
    } else if s[from] == c {
        without_char(s, c, from + 1)
    } else {
        seq![s[from]] + without_char(s, c, from + 1)
    }
}

/// The name of a parameter as its source has it: the name of its
/// variable without the first `skip` characters, which are its namespace,
/// and without any `%`.
pub fn parameter_name(variable: &str, skip: usize) -> (r: String)
    ensures
        r@ == without_char(variable@, '%', skip as int),
{
    let n = variable.unicode_len();
    let mut r = String::new();
    if skip >= n {
        return r;
    }
    let mut i: usize = skip;
    assert(r@ + without_char(variable@, '%', skip as int) =~= without_char(
        variable@,
        '%',
        skip as int,
    ));
    while i < n
        invariant
            skip <= i <= n,
            n == variable@.len(),
            r@ + without_char(variable@, '%', i as int) == without_char(
                variable@,
                '%',
                skip as int,
            ),
        decreases n - i,
    {
        let ghost before = r@;
        if variable.get_char(i) != '%' {
            r.append(variable.substring_char(i, i + 1));
            assert(variable@.subrange(i as int, i + 1) =~= seq![variable@[i as int]]);
            assert(before + (seq![variable@[i as int]] + without_char(variable@, '%', i + 1)) =~= (
            before + seq![variable@[i as int]]) + without_char(variable@, '%', i + 1));
        }
        i = i + 1;
    }
    assert(r@ + Seq::<char>::empty() =~= r@);
    r
}

} // verus!
