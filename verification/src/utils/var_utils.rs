//! Names of SMT variables for IR values, and the bounds of signed integers.

use vstd::prelude::*;
use vstd::arithmetic::power2::{lemma2_to64, lemma2_to64_rest, pow2};
use crate::formula::{
    bool_const, equivalence, int_const, int_eq, mk_iff, mk_int_eq, named_bool, named_int, Formula,
    IntExpr, Prop,
};
use crate::literal::{parse_i64, parse_int};
use crate::query::{Query, QueryState, Warning};
use crate::text::{
    concat_str, has_char, scan, scan_str, second_word, second_word_of, slice_to_string, str_eq,
    CharClass,
};

verus! {

/// What the name of every literal constant begins with.
pub const CONST_NAMESPACE: &'static str = "const_";

/// Whether the printed form of a value names a register.
pub open spec fn is_register(text: Seq<char>) -> bool {
    text.contains('%')
}

/// The register that a printed form names: from its first `%` up to the
/// next double quote, space or comma, or to the end.
pub open spec fn register_name(text: Seq<char>) -> Seq<char> {
    let start = scan(text, CharClass::Exactly('%'), 0);
    text.subrange(start, scan(text, CharClass::NameEnd, start))
}

/// The name of the constant for the literal `word`.
pub open spec fn constant_name(word: Seq<char>) -> Seq<char> {
    CONST_NAMESPACE@ + word
}

/// The name of the SMT variable for a value printed as `text`, met in `namespace`.
pub open spec fn var_name(text: Seq<char>, namespace: Seq<char>) -> Seq<char> {
    if is_register(text) {
        namespace + register_name(text)
    } else {
        constant_name(second_word(text))
    }
}

/// The assertion that defines the constant for the literal `word`, where
/// `word` is `true`, `false` or a signed 64-bit decimal integer.
pub open spec fn literal_definition(word: Seq<char>) -> Option<Prop> {
    if word == "true"@ {
        Some(equivalence(bool_const(constant_name(word)), Formula::Lit(true)))
    } else if word == "false"@ {
        Some(equivalence(bool_const(constant_name(word)), Formula::Lit(false)))
    } else {
        match parse_int(word) {
            Some(v) => Some(int_eq(int_const(constant_name(word)), IntExpr::Lit(v))),
            None => None,
        }
    }
}

/// The query after the value printed as `text` was resolved: a register
/// changes nothing; a literal that is not yet defined gets its defining
/// assertion, or a warning where it has none.
pub open spec fn resolved(st: QueryState, text: Seq<char>) -> QueryState {
    if is_register(text) || st.constants.contains(constant_name(second_word(text))) {
        st
    } else {
        match literal_definition(second_word(text)) {
            Some(f) => st.defining(constant_name(second_word(text)), f),
            None => st.warning(Warning::UnsupportedLiteral),
        }
    }
}

/// The assertion that defines the constant called `name`, where it has one.
pub open spec fn definition_of(name: Seq<char>) -> Option<Prop> {
    if CONST_NAMESPACE@.len() <= name.len() {
        literal_definition(name.subrange(CONST_NAMESPACE@.len() as int, name.len() as int))
    } else {
        None
    }
}

/// Whether every constant that `st` counts as defined has its definition
/// among the assertions of `st`.
pub open spec fn is_consistent(st: QueryState) -> bool {
    forall|i: int|
        0 <= i < st.constants.len() ==> definition_of(#[trigger] st.constants[i]) is Some
            && st.assertions.contains(definition_of(st.constants[i])->Some_0)
}

/// The constant for a literal is defined by the definition of the literal.
pub proof fn lemma_definition_of_constant(word: Seq<char>)
    ensures
        definition_of(constant_name(word)) == literal_definition(word),
{
    let name = constant_name(word);
    assert(name.subrange(CONST_NAMESPACE@.len() as int, name.len() as int) =~= word);
}

/// Resolving a value keeps a consistent query consistent.
pub proof fn lemma_resolved_keeps_consistency(st: QueryState, text: Seq<char>)
    requires
        is_consistent(st),
    ensures
        is_consistent(resolved(st, text)),
{
    let r = resolved(st, text);
    lemma_definition_of_constant(second_word(text));
    assert forall|i: int| 0 <= i < r.constants.len() implies definition_of(
        #[trigger] r.constants[i],
    ) is Some && r.assertions.contains(definition_of(r.constants[i])->Some_0) by {
        if i < st.constants.len() {
            let d = definition_of(st.constants[i])->Some_0;
            let at = choose|at: int| 0 <= at < st.assertions.len() && st.assertions[at] == d;
            assert(r.assertions[at] == d);
        } else {
            assert(r.assertions[st.assertions.len() as int] == definition_of(
                r.constants[i],
            )->Some_0);
        }
    }
}

/// Resolving a value takes nothing away: what was asserted, defined and
/// warned of before is still there, in the same places.
pub proof fn lemma_resolved_extends(st: QueryState, text: Seq<char>)
    ensures
        resolved(st, text).extends(st),
{
}

/// Gives the name of the SMT variable for the value printed as
/// `value_text`, and makes sure that a literal has its defining assertion.
pub fn get_var_name(value_text: &str, solver: &mut Query, namespace: &str) -> (name: String)
    ensures
        name@ == var_name(value_text@, namespace@),
        final(solver)@ == resolved(old(solver)@, value_text@),
        is_consistent(old(solver)@) ==> is_consistent(final(solver)@),
{
    proof {
        if is_consistent(old(solver)@) {
            lemma_resolved_keeps_consistency(old(solver)@, value_text@);
        }
    }
    if has_char(value_text, '%') {
        let start = scan_str(value_text, CharClass::Exactly('%'), 0);
        let end = scan_str(value_text, CharClass::NameEnd, start);
        let register = slice_to_string(value_text, start, end);
        concat_str(namespace, register.as_str())
    } else {
        let word = second_word_of(value_text);
        let name = concat_str(CONST_NAMESPACE, word.as_str());
        if !solver.is_defined(name.as_str()) {
            if str_eq(word.as_str(), "true") {
                solver.define(name.as_str(), mk_iff(named_bool(name.as_str()), Formula::Lit(true)));
            } else if str_eq(word.as_str(), "false") {
                solver.define(
                    name.as_str(),
                    mk_iff(named_bool(name.as_str()), Formula::Lit(false)),
                );
            } else {
                match parse_i64(word.as_str()) {
                    Some(v) => {
                        solver.define(
                            name.as_str(),
                            mk_int_eq(named_int(name.as_str()), IntExpr::Lit(v)),
                        );
                    },
                    None => {
                        solver.warn(Warning::UnsupportedLiteral);
                    },
                }
            }
        }
        name
    }
}

/// The width in bits that the text `size` names, where it is 8, 16, 32 or 64.
pub open spec fn width_of(size: Seq<char>) -> Option<nat> {
    if size == "8"@ {
        Some(8)
    } else if size == "16"@ {
        Some(16)
    } else if size == "32"@ {
        Some(32)
    } else if size == "64"@ {
        Some(64)
    } else {
        None
    }
}

/// The least value of a two's-complement integer of `bits` bits.
pub open spec fn min_signed(bits: nat) -> int {
    -(pow2((bits - 1) as nat) as int)
}

/// The greatest value of a two's-complement integer of `bits` bits.
pub open spec fn max_signed(bits: nat) -> int {
    pow2((bits - 1) as nat) - 1
}

/// Whether `size` names a width whose bounds are known: 8, 16, 32, 64, or
/// `size` for the pointer-sized integer.
pub open spec fn has_bounds(size: Seq<char>) -> bool {
    width_of(size) is Some || size == "size"@
}

/// The bounds that go with the text `size`, as 64-bit integers.
pub open spec fn bounds_of(size: Seq<char>) -> Option<(i64, i64)> {
    match width_of(size) {
        Some(bits) => Some((min_signed(bits) as i64, max_signed(bits) as i64)),
        None => if size == "size"@ {
            Some((isize::MIN as i64, isize::MAX as i64))
        } else {
            None
        },
    }
}

/// The least and the greatest value of the signed integer type whose
/// width `size` names; none for any other text, which names a width that
/// is not supported.
pub fn get_min_max_signed_int(size: &str) -> (r: Option<(i64, i64)>)
    ensures
        r == bounds_of(size@),
        r is Some == has_bounds(size@),
        r matches Some(b) ==> match width_of(size@) {
            Some(bits) => b.0 == min_signed(bits) && b.1 == max_signed(bits),
            None => b.0 == isize::MIN && b.1 == isize::MAX,
        },
{
    proof {
        lemma2_to64();
        lemma2_to64_rest();
        reveal_strlit("8");
        reveal_strlit("16");
        reveal_strlit("32");
        reveal_strlit("64");
        reveal_strlit("size");
    }
    if str_eq(size, "8") {
        Some((-128, 127))
    } else if str_eq(size, "16") {
        Some((-32768, 32767))
    } else if str_eq(size, "32") {
        Some((-2147483648, 2147483647))
    } else if str_eq(size, "64") {
        Some((i64::MIN, i64::MAX))
    } else if str_eq(size, "size") {
        Some((isize::MIN as i64, isize::MAX as i64))
    } else {
        None
    }
}

/// The bounds of a signed integer of `width` bits, for the widths 8, 16, 32 and 64.
pub fn bounds_of_width(width: u32) -> (r: Option<(i64, i64)>)
    ensures
        r is Some == (width == 8 || width == 16 || width == 32 || width == 64),
        r matches Some(b) ==> b.0 == min_signed(width as nat) && b.1 == max_signed(width as nat),
{
    proof {
        lemma2_to64();
        lemma2_to64_rest();
    }
    if width == 8 {
        Some((-128, 127))
    } else if width == 16 {
        Some((-32768, 32767))
    } else if width == 32 {
        Some((-2147483648, 2147483647))
    } else if width == 64 {
        Some((i64::MIN, i64::MAX))
    } else {
        None
    }
}

/// The bounds of each supported width are those of the machine's signed
/// integer of that width: two's-complement bounds.
pub proof fn lemma_bounds_are_twos_complement()
    ensures
        min_signed(8) == i8::MIN && max_signed(8) == i8::MAX,
        min_signed(16) == i16::MIN && max_signed(16) == i16::MAX,
        min_signed(32) == i32::MIN && max_signed(32) == i32::MAX,
        min_signed(64) == i64::MIN && max_signed(64) == i64::MAX,
        forall|bits: nat| bits >= 1 ==> #[trigger] min_signed(bits) == -max_signed(bits) - 1,
{
    lemma2_to64();
    lemma2_to64_rest();
}

} // verus!
