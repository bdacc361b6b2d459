//! Small verified string utilities shared across the crate.
//!
//! All specifications are stated over `Seq<char>` views.  Executable code
//! works on `Vec<char>` copies of the input (or directly on `&str` through
//! vstd's character-level string functions) so that every function's result
//! is pinned down exactly.

use vstd::prelude::*;
use vstd::string::StrSliceExecFns;
use vstd::string::StringExecFns;

verus! {

broadcast use vstd::string::group_string_axioms;

/// Characters treated as trimmable whitespace (the ASCII whitespace set).
pub open spec fn is_blank(c: char) -> bool {
    c == ' ' || c == '\t' || c == '\r' || c == '\n' || c == '\u{b}' || c == '\u{c}'
}

/// Index of the first non-blank character at or after `i`, or `s.len()`.
pub open spec fn skip_blank_fwd(s: Seq<char>, i: int) -> int
    decreases s.len() - i when 0 <= i <= s.len()
{
    if i >= s.len() {
        s.len() as int
    } else if is_blank(s[i]) {
        skip_blank_fwd(s, i + 1)
    } else {
        i
    }
}

/// One past the last non-blank character strictly before `j`, or `0`.
pub open spec fn skip_blank_back(s: Seq<char>, j: int) -> int
    decreases j when 0 <= j <= s.len()
{
    if j <= 0 {
        0
    } else if is_blank(s[j - 1]) {
        skip_blank_back(s, j - 1)
    } else {
        j
    }
}

/// What trimming leading and trailing whitespace from `s` leaves.
pub open spec fn spec_trim(s: Seq<char>) -> Seq<char> {
    let a = skip_blank_fwd(s, 0);
    let b = skip_blank_back(s, s.len() as int);
    if a <= b {
        s.subrange(a, b)
    } else {
        Seq::empty()
    }
}

/// Index of the first occurrence of `c` at or after `i`, or `s.len()`.
pub open spec fn find_char(s: Seq<char>, c: char, i: int) -> int
    decreases s.len() - i when 0 <= i <= s.len()
{
    if i >= s.len() {
        s.len() as int
    } else if s[i] == c {
        i
    } else {
        find_char(s, c, i + 1)
    }
}

pub proof fn lemma_find_char_bounds(s: Seq<char>, c: char, i: int)
    requires
        0 <= i <= s.len(),
    ensures
        i <= find_char(s, c, i) <= s.len(),
        find_char(s, c, i) < s.len() ==> s[find_char(s, c, i)] == c,
        forall|k: int| i <= k < find_char(s, c, i) ==> s[k] != c,
    decreases s.len() - i,
{
    if i < s.len() && s[i] != c {
        lemma_find_char_bounds(s, c, i + 1);
    }
}

/// The pieces obtained by splitting `s` on `c`, starting at position `i`.
/// Splitting keeps empty pieces, as `str::split` does.
pub open spec fn split_from(s: Seq<char>, c: char, i: int) -> Seq<Seq<char>>
    decreases s.len() - i + 1 when 0 <= i <= s.len() via split_from_decreases
{
    let j = find_char(s, c, i);
    if j >= s.len() {
        seq![s.subrange(i, s.len() as int)]
    } else {
        seq![s.subrange(i, j)] + split_from(s, c, j + 1)
    }
}

#[via_fn]
proof fn split_from_decreases(s: Seq<char>, c: char, i: int) {
    lemma_find_char_bounds(s, c, i);
}

/// All pieces of `s` split on `c`; always at least one piece.
pub open spec fn spec_split(s: Seq<char>, c: char) -> Seq<Seq<char>> {
    split_from(s, c, 0)
}

/// The decimal digit characters of `n`, most significant first.
pub open spec fn spec_digits(n: nat) -> Seq<char>
    decreases n,
{
    if n < 10 {
        seq![digit_char(n)]
    } else {
        spec_digits(n / 10) + seq![digit_char(n % 10)]
    }
}

/// The character for a single decimal digit.
pub open spec fn digit_char(d: nat) -> char {
    if d == 0 { '0' }
    else if d == 1 { '1' }
    else if d == 2 { '2' }
    else if d == 3 { '3' }
    else if d == 4 { '4' }
    else if d == 5 { '5' }
    else if d == 6 { '6' }
    else if d == 7 { '7' }
    else if d == 8 { '8' }
    else { '9' }
}

/// Collects the characters of `s` into a vector.
pub fn chars_of(s: &str) -> (v: Vec<char>)
    ensures
        v@ == s@,
{
    let mut v: Vec<char> = Vec::new();
    for c in it: s.chars()
        invariant
            it.seq() == s@,
            v@ == it.seq().take(it.index() as int),
    {
        v.push(c);
    }
    proof {
        assert(v@ =~= s@);
    }
    v
}

/// Copies the character range `[from, to)` of `s` into a new string.
pub fn substr_copy(s: &str, from: usize, to: usize) -> (r: String)
    requires
        from <= to <= s@.len(),
    ensures
        r@ == s@.subrange(from as int, to as int),
{
    let sub: &str = s.substring_char(from, to);
    sub.to_owned()
}

/// Finds the first occurrence of `c` in `v` at or after `from`.
pub fn find_char_from(v: &Vec<char>, c: char, from: usize) -> (j: usize)
    requires
        from <= v@.len(),
    ensures
        j == find_char(v@, c, from as int),
        from <= j <= v@.len(),
{
    let mut i: usize = from;
    while i < v.len()
        invariant
            from <= i <= v@.len(),
            find_char(v@, c, from as int) == find_char(v@, c, i as int),
        decreases v@.len() - i,
    {
        if v[i] == c {
            return i;
        }
        i = i + 1;
    }
    i
}

/// Trims leading and trailing whitespace from `s`.
pub fn trim_str(s: &str) -> (r: String)
    ensures
        r@ == spec_trim(s@),
{
    let v = chars_of(s);
    let mut a: usize = 0;
    while a < v.len() && is_blank_char(v[a])
        invariant
            0 <= a <= v@.len(),
            skip_blank_fwd(v@, 0) == skip_blank_fwd(v@, a as int),
        decreases v@.len() - a,
    {
        a = a + 1;
    }
    let mut b: usize = v.len();
    while b > 0 && is_blank_char(v[b - 1])
        invariant
            0 <= b <= v@.len(),
            skip_blank_back(v@, v@.len() as int) == skip_blank_back(v@, b as int),
        decreases b,
    {
        b = b - 1;
    }
    assert(a == skip_blank_fwd(v@, 0));
    assert(b == skip_blank_back(v@, v@.len() as int));
    if a <= b {
        substr_copy(s, a, b)
    } else {
        let r = String::new();
        proof {
            assert(r@ =~= spec_trim(s@));
        }
        r
    }
}

/// Executable test for [`is_blank`].
pub fn is_blank_char(c: char) -> (b: bool)
    ensures
        b == is_blank(c),
{
    c == ' ' || c == '\t' || c == '\r' || c == '\n' || c == '\u{b}' || c == '\u{c}'
}

/// Splits `s` on `sep`, keeping empty pieces, as `str::split` does.
pub fn split_str(s: &str, sep: char) -> (r: Vec<String>)
    ensures
        r.deep_view() == spec_split(s@, sep),
{
    let v = chars_of(s);
    let mut r: Vec<String> = Vec::new();
    let mut i: usize = 0;
    loop
        invariant
            0 <= i <= v@.len(),
            v@ == s@,
            spec_split(s@, sep) == r.deep_view() + split_from(s@, sep, i as int),
        decreases v@.len() - i + 1,
    {
        let j = find_char_from(&v, sep, i);
        let piece = substr_copy(s, i, j);
        r.push(piece);
        if j == v.len() {
            proof {
                assert(split_from(s@, sep, i as int) =~= seq![s@.subrange(i as int, s@.len() as int)]);
                assert(r.deep_view() =~= spec_split(s@, sep));
            }
            return r;
        }
        proof {
            assert(split_from(s@, sep, i as int) =~= seq![s@.subrange(i as int, j as int)]
                + split_from(s@, sep, j + 1));
            assert(r.deep_view() + split_from(s@, sep, j + 1) =~= spec_split(s@, sep));
        }
        i = j + 1;
    }
}

/// The string for a single decimal digit.
fn digit_str(d: u32) -> (r: String)
    requires
        d < 10,
    ensures
        r@ == seq![digit_char(d as nat)],
{
    let s: &str = if d == 0 { "0" }
    else if d == 1 { "1" }
    else if d == 2 { "2" }
    else if d == 3 { "3" }
    else if d == 4 { "4" }
    else if d == 5 { "5" }
    else if d == 6 { "6" }
    else if d == 7 { "7" }
    else if d == 8 { "8" }
    else { "9" };
    proof {
        reveal_strlit("0");
        reveal_strlit("1");
        reveal_strlit("2");
        reveal_strlit("3");
        reveal_strlit("4");
        reveal_strlit("5");
        reveal_strlit("6");
        reveal_strlit("7");
        reveal_strlit("8");
        reveal_strlit("9");
        assert(s@ =~= seq![digit_char(d as nat)]);
    }
    s.to_owned()
}

/// Renders `n` in decimal.
pub fn u32_str(n: u32) -> (r: String)
    ensures
        r@ == spec_digits(n as nat),
    decreases n,
{
    if n < 10 {
        digit_str(n)
    } else {
        let high = u32_str(n / 10);
        let low = digit_str(n % 10);
        let r = high.concat(low.as_str());
        proof {
            assert(r@ =~= spec_digits(n as nat));
        }
        r
    }
}

/// Whether two strings hold the same characters.
pub fn eq_strings(a: &String, b: &String) -> (r: bool)
    ensures
        r == (a@ == b@),
{
    *a == *b
}

/// Appends `tail` to `s` in place.
pub fn push_str(s: &mut String, tail: &str)
    ensures
        final(s)@ == old(s)@ + tail@,
{
    s.append(tail);
}

} // verus!
