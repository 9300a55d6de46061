//! Scanning and slicing of the printed forms of IR values.
//!
//! Every function here works on the characters of a string; positions are
//! character positions, never byte offsets.

use vstd::prelude::*;

verus! {

/// A class of characters that a scan stops at.
#[derive(Clone, Copy, Debug)]
pub enum CharClass {
    /// Exactly the given character.
    Exactly(char),
    /// A blank: space, tab, line feed, carriage return, vertical tab or form feed.
    Space,
    /// Anything that is not a blank.
    NonSpace,
    /// What ends a register name in printed IR: a double quote, a space or a comma.
    NameEnd,
}

/// A blank character.
pub open spec fn is_space(c: char) -> bool {
    c == ' ' || c == '\t' || c == '\n' || c == '\r' || c == '\x0b' || c == '\x0c'
}

impl CharClass {
    /// Whether `c` belongs to the class.
    pub open spec fn holds(self, c: char) -> bool {
        match self {
            CharClass::Exactly(d) => c == d,
            CharClass::Space => is_space(c),
            CharClass::NonSpace => !is_space(c),
            CharClass::NameEnd => c == '"' || c == ' ' || c == ',',
        }
    }

    /// Tests a character against the class.
    pub fn test(&self, c: char) -> (r: bool)
        ensures
            r == self.holds(c),
    {
        match self {
            CharClass::Exactly(d) => c == *d,
            CharClass::Space => c == ' ' || c == '\t' || c == '\n' || c == '\r' || c == '\x0b' || c
                == '\x0c',
            CharClass::NonSpace => !(c == ' ' || c == '\t' || c == '\n' || c == '\r' || c == '\x0b'
                || c == '\x0c'),
            CharClass::NameEnd => c == '"' || c == ' ' || c == ',',
        }
    }
}

/// The first position at or after `from` whose character is in `class`,
/// or the length of `s` where there is none.
pub open spec fn scan(s: Seq<char>, class: CharClass, from: int) -> int
    decreases s.len() - from,
{
    if from < 0 || from >= s.len() {
        s.len() as int
    } else if class.holds(s[from]) {
        from
    } else {
        scan(s, class, from + 1)
    }
}

/// The last position before `upto` that holds `c`, or -1 where there is none.
pub open spec fn scan_back(s: Seq<char>, c: char, upto: int) -> int
    decreases upto,
{
    if upto <= 0 || upto > s.len() {
        -1
    } else if s[upto - 1] == c {
        upto - 1
    } else {
        scan_back(s, c, upto - 1)
    }
}

/// `scan` stays between its starting point and the end, stops on a member of
/// the class, and passes over none.
pub proof fn lemma_scan_bounds(s: Seq<char>, class: CharClass, from: int)
    requires
        0 <= from <= s.len(),
    ensures
        from <= scan(s, class, from) <= s.len(),
        scan(s, class, from) < s.len() ==> class.holds(s[scan(s, class, from)]),
        forall|k: int| from <= k < scan(s, class, from) ==> !class.holds(#[trigger] s[k]),
    decreases s.len() - from,
{
    if from < s.len() && !class.holds(s[from]) {
        lemma_scan_bounds(s, class, from + 1);
    }
}

/// Finds the first character of `class` at or after `from`.
pub fn scan_str(s: &str, class: CharClass, from: usize) -> (at: usize)
    ensures
        at as int == scan(s@, class, from as int),
        at <= s@.len(),
        from <= s@.len() ==> from <= at,
{
    let n = s.unicode_len();
    if from >= n {
        return n;
    }
    let mut i: usize = from;
    while i < n
        invariant
            from <= i <= n,
            n == s@.len(),
            scan(s@, class, from as int) == scan(s@, class, i as int),
        decreases n - i,
    {
        let c = s.get_char(i);
        if class.test(c) {
            return i;
        }
        i = i + 1;
    }
    i
}

/// Finds the last `c` before position `upto`.
pub fn scan_back_str(s: &str, c: char, upto: usize) -> (at: Option<usize>)
    requires
        upto <= s@.len(),
    ensures
        match at {
            Some(i) => i as int == scan_back(s@, c, upto as int) && i < upto,
            None => scan_back(s@, c, upto as int) == -1,
        },
{
    let mut i: usize = upto;
    while i > 0
        invariant
            i <= upto <= s@.len(),
            scan_back(s@, c, upto as int) == scan_back(s@, c, i as int),
        decreases i,
    {
        if s.get_char(i - 1) == c {
            return Some(i - 1);
        }
        i = i - 1;
    }
    None
}

/// Whether `s` holds `c` anywhere.
pub fn has_char(s: &str, c: char) -> (r: bool)
    ensures
        r == s@.contains(c),
{
    let at = scan_str(s, CharClass::Exactly(c), 0);
    proof {
        lemma_scan_bounds(s@, CharClass::Exactly(c), 0);
        if at < s@.len() {
            assert(s@[at as int] == c);
        } else {
            assert forall|k: int| 0 <= k < s@.len() implies s@[k] != c by {
                assert(!CharClass::Exactly(c).holds(s@[k]));
            }
        }
    }
    at < s.unicode_len()
}

/// Compares two strings character by character.
pub fn str_eq(a: &str, b: &str) -> (r: bool)
    ensures
        r == (a@ == b@),
{
    let n = a.unicode_len();
    if n != b.unicode_len() {
        return false;
    }
    let mut i: usize = 0;
    while i < n
        invariant
            i <= n,
            n == a@.len(),
            n == b@.len(),
            forall|k: int| 0 <= k < i ==> a@[k] == b@[k],
        decreases n - i,
    {
        if a.get_char(i) != b.get_char(i) {
            return false;
        }
        i = i + 1;
    }
    assert(a@ =~= b@);
    true
}

/// Whether `s` begins with `prefix`.
pub open spec fn starts_with(s: Seq<char>, prefix: Seq<char>) -> bool {
    prefix.len() <= s.len() && s.subrange(0, prefix.len() as int) == prefix
}

/// Whether `pattern` occurs in `s` at position `at`.
pub open spec fn occurs_at(s: Seq<char>, pattern: Seq<char>, at: int) -> bool {
    0 <= at && at + pattern.len() <= s.len() && s.subrange(at, at + pattern.len()) == pattern
}

/// Whether `pattern` occurs somewhere in `s`.
pub open spec fn contains_str(s: Seq<char>, pattern: Seq<char>) -> bool {
    exists|at: int| occurs_at(s, pattern, at)
}

/// Tests whether `pattern` occurs in `s` at character position `at`.
pub fn matches_at(s: &str, pattern: &str, at: usize) -> (r: bool)
    ensures
        r == occurs_at(s@, pattern@, at as int),
{
    let n = s.unicode_len();
    let m = pattern.unicode_len();
    if at > n || m > n - at {
        return false;
    }
    let mut i: usize = 0;
    while i < m
        invariant
            i <= m,
            m == pattern@.len(),
            n == s@.len(),
            at + m <= n,
            forall|k: int| 0 <= k < i ==> s@[at + k] == pattern@[k],
        decreases m - i,
    {
        if s.get_char(at + i) != pattern.get_char(i) {
            assert(s@.subrange(at as int, at + m)[i as int] != pattern@[i as int]);
            return false;
        }
        i = i + 1;
    }
    assert(s@.subrange(at as int, at + m) =~= pattern@);
    true
}

/// Tests whether `s` begins with `prefix`.
pub fn str_starts_with(s: &str, prefix: &str) -> (r: bool)
    ensures
        r == starts_with(s@, prefix@),
{
    matches_at(s, prefix, 0)
}

/// Tests whether `pattern` occurs somewhere in `s`.
pub fn str_contains(s: &str, pattern: &str) -> (r: bool)
    ensures
        r == contains_str(s@, pattern@),
{
    let n = s.unicode_len();
    let m = pattern.unicode_len();
    if m > n {
        assert forall|at: int| !occurs_at(s@, pattern@, at) by {}
        return false;
    }
    let last = n - m;
    let mut at: usize = 0;
    while at < last
        invariant
            last == n - m,
            n == s@.len(),
            m == pattern@.len(),
            at <= last,
            forall|k: int| 0 <= k < at ==> !occurs_at(s@, pattern@, k),
        decreases last - at,
    {
        if matches_at(s, pattern, at) {
            return true;
        }
        at = at + 1;
    }
    if matches_at(s, pattern, last) {
        return true;
    }
    assert forall|k: int| !occurs_at(s@, pattern@, k) by {
        if 0 <= k && k + m <= n {
            assert(k <= last);
        }
    }
    false
}

/// Copies the characters of `s` from position `from` up to `to` into a new string.
pub fn slice_to_string(s: &str, from: usize, to: usize) -> (r: String)
    requires
        from <= to <= s@.len(),
    ensures
        r@ == s@.subrange(from as int, to as int),
{
    s.substring_char(from, to).to_owned()
}

/// Joins two strings.
pub fn concat_str(a: &str, b: &str) -> (r: String)
    ensures
        r@ == a@ + b@,
{
    let mut r = a.to_owned();
    r.append(b);
    r
}

/// The second blank-separated word of `s`; empty where `s` has fewer than two words.
pub open spec fn second_word(s: Seq<char>) -> Seq<char> {
    let first = scan(s, CharClass::NonSpace, 0);
    let first_end = scan(s, CharClass::Space, first);
    let second = scan(s, CharClass::NonSpace, first_end);
    let second_end = scan(s, CharClass::Space, second);
    s.subrange(second, second_end)
}

/// Extracts the second blank-separated word of `s`.
pub fn second_word_of(s: &str) -> (r: String)
    ensures
        r@ == second_word(s@),
{
    let first = scan_str(s, CharClass::NonSpace, 0);
    let first_end = scan_str(s, CharClass::Space, first);
    let second = scan_str(s, CharClass::NonSpace, first_end);
    let second_end = scan_str(s, CharClass::Space, second);
    slice_to_string(s, second, second_end)
}

/// What follows the last space of `s`; the whole of `s` where it has no space.
pub open spec fn last_word(s: Seq<char>) -> Seq<char> {
    s.subrange(scan_back(s, ' ', s.len() as int) + 1, s.len() as int)
}

/// Extracts what follows the last space of `s`.
pub fn last_word_of(s: &str) -> (r: String)
    ensures
        r@ == last_word(s@),
{
    let n = s.unicode_len();
    let start = match scan_back_str(s, ' ', n) {
        Some(i) => i + 1,
        None => 0,
    };
    slice_to_string(s, start, n)
}

/// The characters of each string of a list.
pub open spec fn views(v: Seq<String>) -> Seq<Seq<char>> {
    v.map_values(|s: String| s@)
}

/// `s` without the repetitions: of equal items the first stays.
pub open spec fn unique(s: Seq<Seq<char>>) -> Seq<Seq<char>>
    decreases s.len(),
{
    if s.len() == 0 {
        seq![]
    } else if unique(s.drop_last()).contains(s.last()) {
        unique(s.drop_last())
    } else {
        unique(s.drop_last()).push(s.last())
    }
}

/// `unique(s)` holds what `s` holds, and nothing twice.
pub proof fn lemma_unique(s: Seq<Seq<char>>)
    ensures
        unique(s).no_duplicates(),
        forall|x: Seq<char>| unique(s).contains(x) <==> s.contains(x),
    decreases s.len(),
{
    if s.len() > 0 {
        let t = s.drop_last();
        let d = unique(t);
        lemma_unique(t);
        assert forall|x: Seq<char>| unique(s).contains(x) <==> s.contains(x) by {
            if s.contains(x) {
                let i = choose|i: int| 0 <= i < s.len() && s[i] == x;
                if i < s.len() - 1 {
                    assert(t[i] == x);
                    assert(t.contains(x));
                    assert(d.contains(x));
                    if !d.contains(s.last()) {
                        let j = choose|j: int| 0 <= j < d.len() && d[j] == x;
                        assert(d.push(s.last())[j] == x);
                    }
                } else if !d.contains(s.last()) {
                    assert(d.push(s.last())[d.len() as int] == x);
                }
                assert(unique(s).contains(x));
            }
            if unique(s).contains(x) {
                let j = choose|j: int| 0 <= j < unique(s).len() && unique(s)[j] == x;
                if j < d.len() {
                    assert(d[j] == x);
                    assert(d.contains(x));
                    assert(t.contains(x));
                    let i = choose|i: int| 0 <= i < t.len() && t[i] == x;
                    assert(s[i] == x);
                } else {
                    assert(x == s.last());
                    assert(s[s.len() - 1] == x);
                }
                assert(s.contains(x));
            }
        }
    }
}

/// Whether the list `v` holds the string `name`.
pub fn contains_string(v: &Vec<String>, name: &str) -> (r: bool)
    ensures
        r == views(v@).contains(name@),
{
    let mut i: usize = 0;
    while i < v.len()
        invariant
            i <= v.len(),
            forall|k: int| 0 <= k < i ==> views(v@)[k] != name@,
        decreases v.len() - i,
    {
        if str_eq(v[i].as_str(), name) {
            assert(views(v@)[i as int] == name@);
            return true;
        }
        i = i + 1;
    }
    false
}

/// Appends `name` to `v`.
pub fn push_string(v: &mut Vec<String>, name: String)
    ensures
        views(final(v)@) == views(old(v)@).push(name@),
{
    v.push(name);
    assert(views(v@) =~= views(old(v)@).push(name@));
}

/// Appends `name` to `v` unless `v` holds it already.
pub fn push_unique(v: &mut Vec<String>, name: String)
    ensures
        views(final(v)@) == if views(old(v)@).contains(name@) {
            views(old(v)@)
        } else {
            views(old(v)@).push(name@)
        },
{
    if !contains_string(v, name.as_str()) {
        push_string(v, name);
    }
}

} // verus!
