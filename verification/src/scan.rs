//! The marker scanner: finds annotation markers in one file's text and
//! assigns each its line number.
//!
//! A marker is an occurrence of `LINT.OnChange(` or `LINT.ThenChange(`
//! followed, on the same line, by a closing parenthesis; the text between the
//! parentheses is the marker's argument.  Markers are found in one ordered
//! left-to-right pass; after a match the scan continues past its closing
//! parenthesis, and the argument never spans a line break.

use vstd::prelude::*;
use crate::strutil::{chars_of, substr_copy};

verus! {

broadcast use vstd::string::group_string_axioms;

/// One marker occurrence: an open (`OnChange`) or close (`ThenChange`)
/// marker, the line it starts on, and its raw argument text.
pub struct Marker {
    pub open: bool,
    pub line: u32,
    pub arg: String,
}

/// The mathematical value of a [`Marker`].
pub struct MarkerV {
    pub open: bool,
    pub line: int,
    pub arg: Seq<char>,
}

impl View for Marker {
    type V = MarkerV;

    open spec fn view(&self) -> MarkerV {
        MarkerV { open: self.open, line: self.line as int, arg: self.arg@ }
    }
}

/// Number of line breaks strictly before position `pos`.
pub open spec fn newlines_before(s: Seq<char>, pos: int) -> int
    decreases pos when 0 <= pos <= s.len()
{
    if pos <= 0 {
        0
    } else {
        newlines_before(s, pos - 1) + if s[pos - 1] == '\n' {
            1int
        } else {
            0int
        }
    }
}

/// The 1-based line number of position `pos`.
pub open spec fn line_at(s: Seq<char>, pos: int) -> int {
    1 + newlines_before(s, pos)
}

pub proof fn lemma_newlines_bounds(s: Seq<char>, pos: int)
    requires
        0 <= pos <= s.len(),
    ensures
        0 <= newlines_before(s, pos) <= pos,
    decreases pos,
{
    if pos > 0 {
        lemma_newlines_bounds(s, pos - 1);
    }
}

/// Between two positions with no line break, the line number is unchanged.
pub proof fn lemma_line_unchanged(s: Seq<char>, i: int, j: int)
    requires
        0 <= i <= j <= s.len(),
        forall|k: int| i <= k < j ==> s[k] != '\n',
    ensures
        line_at(s, j) == line_at(s, i),
    decreases j - i,
{
    if j > i {
        lemma_line_unchanged(s, i, j - 1);
    }
}

/// Whether the open-marker literal `LINT.OnChange(` starts at position `i`.
pub open spec fn is_open_at(s: Seq<char>, i: int) -> bool {
    &&& 0 <= i
    &&& i + 14 <= s.len()
    &&& s[i] == 'L'
    &&& s[i + 1] == 'I'
    &&& s[i + 2] == 'N'
    &&& s[i + 3] == 'T'
    &&& s[i + 4] == '.'
    &&& s[i + 5] == 'O'
    &&& s[i + 6] == 'n'
    &&& s[i + 7] == 'C'
    &&& s[i + 8] == 'h'
    &&& s[i + 9] == 'a'
    &&& s[i + 10] == 'n'
    &&& s[i + 11] == 'g'
    &&& s[i + 12] == 'e'
    &&& s[i + 13] == '('
}

/// Whether the close-marker literal `LINT.ThenChange(` starts at position `i`.
pub open spec fn is_close_at(s: Seq<char>, i: int) -> bool {
    &&& 0 <= i
    &&& i + 16 <= s.len()
    &&& s[i] == 'L'
    &&& s[i + 1] == 'I'
    &&& s[i + 2] == 'N'
    &&& s[i + 3] == 'T'
    &&& s[i + 4] == '.'
    &&& s[i + 5] == 'T'
    &&& s[i + 6] == 'h'
    &&& s[i + 7] == 'e'
    &&& s[i + 8] == 'n'
    &&& s[i + 9] == 'C'
    &&& s[i + 10] == 'h'
    &&& s[i + 11] == 'a'
    &&& s[i + 12] == 'n'
    &&& s[i + 13] == 'g'
    &&& s[i + 14] == 'e'
    &&& s[i + 15] == '('
}

/// Position of the closing parenthesis for an argument starting at `j`:
/// the first `)` at or after `j`, provided no line break comes first.
pub open spec fn close_pos(s: Seq<char>, j: int) -> Option<int>
    decreases s.len() - j when 0 <= j <= s.len()
{
    if j >= s.len() {
        None
    } else if s[j] == ')' {
        Some(j)
    } else if s[j] == '\n' {
        None
    } else {
        close_pos(s, j + 1)
    }
}

pub proof fn lemma_close_pos_bounds(s: Seq<char>, j: int)
    requires
        0 <= j <= s.len(),
    ensures
        close_pos(s, j) matches Some(p) ==> j <= p < s.len() && s[p] == ')' && forall|k: int|
            j <= k < p ==> s[k] != ')' && s[k] != '\n',
    decreases s.len() - j,
{
    if j < s.len() && s[j] != ')' && s[j] != '\n' {
        lemma_close_pos_bounds(s, j + 1);
    }
}

/// All markers at or after position `i`, in order of occurrence.
pub open spec fn markers_from(s: Seq<char>, i: int) -> Seq<MarkerV>
    decreases s.len() - i when 0 <= i <= s.len() via markers_from_decreases
{
    if i >= s.len() {
        Seq::empty()
    } else if is_open_at(s, i) && close_pos(s, i + 14) is Some {
        let j = close_pos(s, i + 14)->0;
        seq![MarkerV { open: true, line: line_at(s, i), arg: s.subrange(i + 14, j) }]
            + markers_from(s, j + 1)
    } else if is_close_at(s, i) && close_pos(s, i + 16) is Some {
        let j = close_pos(s, i + 16)->0;
        seq![MarkerV { open: false, line: line_at(s, i), arg: s.subrange(i + 16, j) }]
            + markers_from(s, j + 1)
    } else {
        markers_from(s, i + 1)
    }
}

#[via_fn]
proof fn markers_from_decreases(s: Seq<char>, i: int) {
    if 0 <= i < s.len() {
        if is_open_at(s, i) {
            lemma_close_pos_bounds(s, i + 14);
        }
        if is_close_at(s, i) {
            lemma_close_pos_bounds(s, i + 16);
        }
    }
}

/// The markers of a whole file's text, in order of occurrence.
pub open spec fn spec_markers(s: Seq<char>) -> Seq<MarkerV> {
    markers_from(s, 0)
}

/// Whether the open-marker literal starts at `i` in `v`.
fn open_at(v: &Vec<char>, i: usize) -> (b: bool)
    requires
        i <= v@.len(),
    ensures
        b == is_open_at(v@, i as int),
{
    v.len() - i >= 14 && v[i] == 'L' && v[i + 1] == 'I' && v[i + 2] == 'N' && v[i + 3] == 'T'
        && v[i + 4] == '.' && v[i + 5] == 'O' && v[i + 6] == 'n' && v[i + 7] == 'C' && v[i + 8]
        == 'h' && v[i + 9] == 'a' && v[i + 10] == 'n' && v[i + 11] == 'g' && v[i + 12] == 'e'
        && v[i + 13] == '('
}

/// Whether the close-marker literal starts at `i` in `v`.
fn close_at(v: &Vec<char>, i: usize) -> (b: bool)
    requires
        i <= v@.len(),
    ensures
        b == is_close_at(v@, i as int),
{
    v.len() - i >= 16 && v[i] == 'L' && v[i + 1] == 'I' && v[i + 2] == 'N' && v[i + 3] == 'T'
        && v[i + 4] == '.' && v[i + 5] == 'T' && v[i + 6] == 'h' && v[i + 7] == 'e' && v[i + 8]
        == 'n' && v[i + 9] == 'C' && v[i + 10] == 'h' && v[i + 11] == 'a' && v[i + 12] == 'n'
        && v[i + 13] == 'g' && v[i + 14] == 'e' && v[i + 15] == '('
}

/// Finds the closing parenthesis for an argument starting at `j`.
#[verifier::loop_isolation(false)]
fn find_close(v: &Vec<char>, j: usize) -> (r: Option<usize>)
    requires
        j <= v@.len(),
    ensures
        match r {
            Some(p) => close_pos(v@, j as int) == Some(p as int),
            None => close_pos(v@, j as int) is None,
        },
{
    let mut k: usize = j;
    while k < v.len()
        invariant
            j <= k <= v@.len(),
            close_pos(v@, j as int) == close_pos(v@, k as int),
        decreases v@.len() - k,
    {
        if v[k] == ')' {
            return Some(k);
        }
        if v[k] == '\n' {
            return None;
        }
        k = k + 1;
    }
    None
}

/// Scans a file's text for markers, in order, with their line numbers.
#[verifier::loop_isolation(false)]
pub fn find_markers(s: &str) -> (ms: Vec<Marker>)
    requires
        s@.len() < u32::MAX,
    ensures
        ms@.map_values(|m: Marker| m@) == spec_markers(s@),
{
    let v = chars_of(s);
    let mut ms: Vec<Marker> = Vec::new();
    let mut i: usize = 0;
    let mut line: u32 = 1;
    proof {
        assert(ms@.map_values(|m: Marker| m@) =~= Seq::<MarkerV>::empty());
    }
    while i < v.len()
        invariant
            0 <= i <= v@.len(),
            line == line_at(s@, i as int),
            spec_markers(s@) == ms@.map_values(|m: Marker| m@) + markers_from(s@, i as int),
        decreases v@.len() - i,
    {
        proof {
            lemma_newlines_bounds(s@, i as int);
        }
        let is_open = open_at(&v, i);
        let is_close = if is_open {
            false
        } else {
            close_at(&v, i)
        };
        if is_open || is_close {
            let arg_start: usize = if is_open {
                i + 14
            } else {
                i + 16
            };
            match find_close(&v, arg_start) {
                Some(j) => {
                    proof {
                        lemma_close_pos_bounds(s@, arg_start as int);
                    }
                    let arg = substr_copy(s, arg_start, j);
                    let m = Marker { open: is_open, line, arg };
                    proof {
                        assert(m@ == MarkerV {
                            open: is_open,
                            line: line_at(s@, i as int),
                            arg: s@.subrange(arg_start as int, j as int),
                        });
                        assert(markers_from(s@, i as int) =~= seq![m@] + markers_from(
                            s@,
                            j + 1,
                        ));
                    }
                    ms.push(m);
                    proof {
                        assert(ms@.map_values(|m2: Marker| m2@) =~= ms@.drop_last().map_values(
                            |m2: Marker| m2@,
                        ).push(m@));
                        assert(spec_markers(s@) =~= ms@.map_values(|m2: Marker| m2@)
                            + markers_from(s@, j + 1));
                        // No line break occurs inside a marker, so the line
                        // number is unchanged past its closing parenthesis.
                        assert(forall|k: int| i <= k < j + 1 ==> s@[k] != '\n');
                        lemma_line_unchanged(s@, i as int, j + 1);
                    }
                    i = j + 1;
                },
                None => {
                    // A marker prefix with no closing parenthesis on its line
                    // is not a marker; continue at the next character.
                    if v[i] == '\n' {
                        line = line + 1;
                    }
                    i = i + 1;
                },
            }
        } else {
            if v[i] == '\n' {
                line = line + 1;
            }
            i = i + 1;
        }
    }
    proof {
        assert(markers_from(s@, i as int) =~= Seq::<MarkerV>::empty());
        assert(spec_markers(s@) =~= ms@.map_values(|m: Marker| m@));
    }
    ms
}

} // verus!
