//! Turning parsed staged-diff data into line-level hunks.
//!
//! The diff text itself comes from version control, and splitting it into
//! per-file hunk ranges and line kinds is the caller's concern; this module
//! numbers each hunk's line events (see [`Hunk::from_line_kinds`]) and
//! checks every range against the supported line width, with the whole
//! construction pinned down by [`spec_hunks_of_patches`].

use vstd::prelude::*;
use crate::errors::{Error, ErrorV};
use crate::hunk::{Hunk, HunkV, LineKind, lines_of_kinds};
use crate::strutil::{spec_split, spec_trim, split_str, trim_str};

verus! {

broadcast use vstd::string::group_string_axioms;

/// Whether one parsed hunk — old start line, new start line, new-file line
/// count, and ordered line kinds — fits the supported line range.
pub open spec fn raw_hunk_in_range(raw: (u64, u64, u64, Seq<LineKind>)) -> bool {
    &&& raw.0 <= u32::MAX
    &&& raw.1 <= u32::MAX
    &&& raw.2 <= u32::MAX
    &&& raw.3.len() <= u32::MAX
    &&& raw.1 + raw.2 >= 1
    &&& raw.1 + raw.2 - 1 <= u32::MAX
    &&& raw.1 + raw.3.len() <= u32::MAX
    &&& raw.0 + raw.3.len() <= u32::MAX
}

/// The hunk a parsed range describes: numbered line events, and the new-file
/// line span.
pub open spec fn spec_hunk_of_raw(raw: (u64, u64, u64, Seq<LineKind>)) -> HunkV {
    HunkV {
        start_line: raw.1 as int,
        end_line: raw.1 + raw.2 - 1,
        lines: lines_of_kinds(raw.3, raw.0 as int, raw.1 as int),
    }
}

/// The hunks of one parsed file, in order; the first hunk outside the
/// supported line range fails, citing the file's path.
pub open spec fn spec_hunks_of_file(
    path: Seq<char>,
    rhs: Seq<(u64, u64, u64, Seq<LineKind>)>,
) -> Result<Seq<HunkV>, ErrorV>
    decreases rhs.len(),
{
    if rhs.len() == 0 {
        Ok(Seq::empty())
    } else if !raw_hunk_in_range(rhs[0]) {
        Err(ErrorV::HunkOutOfRange { path })
    } else {
        match spec_hunks_of_file(path, rhs.drop_first()) {
            Err(e) => Err(e),
            Ok(hs) => Ok(seq![spec_hunk_of_raw(rhs[0])] + hs),
        }
    }
}

/// The per-file hunks of a whole parsed diff, in order; the first hunk
/// outside the supported line range anywhere fails.
pub open spec fn spec_hunks_of_patches(
    raw: Seq<(Seq<char>, Seq<(u64, u64, u64, Seq<LineKind>)>)>,
) -> Result<Seq<(Seq<char>, Seq<HunkV>)>, ErrorV>
    decreases raw.len(),
{
    if raw.len() == 0 {
        Ok(Seq::empty())
    } else {
        match spec_hunks_of_file(raw[0].0, raw[0].1) {
            Err(e) => Err(e),
            Ok(hs) => match spec_hunks_of_patches(raw.drop_first()) {
                Err(e) => Err(e),
                Ok(rest) => Ok(seq![(raw[0].0, hs)] + rest),
            },
        }
    }
}

/// Builds the per-file hunks that a parsed staged diff describes: for each
/// file, each hunk's line events are numbered by [`Hunk::from_line_kinds`];
/// the first hunk whose line numbers do not fit the supported range is an
/// error naming its file.
#[verifier::loop_isolation(false)]
pub fn staged_hunks_from_patches(
    patches: &Vec<(String, Vec<(u64, u64, u64, Vec<LineKind>)>)>,
) -> (r: Result<Vec<(String, Vec<Hunk>)>, Error>)
    ensures
        match r {
            Ok(v) => spec_hunks_of_patches(patches.deep_view()) == Ok::<
                Seq<(Seq<char>, Seq<HunkV>)>,
                ErrorV,
            >(v.deep_view()),
            Err(e) => spec_hunks_of_patches(patches.deep_view()) == Err::<
                Seq<(Seq<char>, Seq<HunkV>)>,
                ErrorV,
            >(e@),
        },
{
    let ghost raw = patches.deep_view();
    let mut out: Vec<(String, Vec<Hunk>)> = Vec::new();
    let mut k: usize = 0;
    proof {
        assert(raw.skip(0) =~= raw);
        assert(out.deep_view() + Seq::<(Seq<char>, Seq<HunkV>)>::empty() =~= out.deep_view());
    }
    while k < patches.len()
        invariant
            0 <= k <= patches@.len(),
            raw == patches.deep_view(),
            spec_hunks_of_patches(raw) == match spec_hunks_of_patches(raw.skip(k as int)) {
                Err(e) => Err::<Seq<(Seq<char>, Seq<HunkV>)>, ErrorV>(e),
                Ok(rest) => Ok(out.deep_view() + rest),
            },
        decreases patches@.len() - k,
    {
        proof {
            assert(raw.skip(k as int)[0] == raw[k as int]);
            assert(raw.skip(k as int).drop_first() =~= raw.skip(k + 1));
            assert(raw[k as int] == (patches@[k as int].0@, patches@[k as int].1.deep_view()));
        }
        let entry = &patches[k];
        let mut hunks: Vec<Hunk> = Vec::new();
        let mut j: usize = 0;
        let ghost rhunks = raw[k as int].1;
        let ghost fpath = raw[k as int].0;
        proof {
            assert(rhunks.skip(0) =~= rhunks);
            assert(hunks.deep_view() + Seq::<HunkV>::empty() =~= hunks.deep_view());
        }
        while j < entry.1.len()
            invariant
                0 <= j <= entry.1@.len(),
                rhunks == raw[k as int].1,
                fpath == raw[k as int].0,
                fpath == entry.0@,
                spec_hunks_of_file(fpath, rhunks) == match spec_hunks_of_file(
                    fpath,
                    rhunks.skip(j as int),
                ) {
                    Err(e) => Err::<Seq<HunkV>, ErrorV>(e),
                    Ok(hs) => Ok(hunks.deep_view() + hs),
                },
            decreases entry.1@.len() - j,
        {
            proof {
                assert(rhunks.skip(j as int)[0] == rhunks[j as int]);
                assert(rhunks.skip(j as int).drop_first() =~= rhunks.skip(j + 1));
                assert(rhunks[j as int] == (entry.1@[j as int].0, entry.1@[j as int].1, entry.1@[
                    j as int].2, entry.1@[j as int].3.deep_view()));
            }
            let rh = &entry.1[j];
            let old_start: u64 = rh.0;
            let new_start: u64 = rh.1;
            let new_count: u64 = rh.2;
            let nlines: u64 = rh.3.len() as u64;
            let limit: u64 = u32::MAX as u64;
            if !(old_start <= limit && new_start <= limit && new_count <= limit && nlines
                <= limit && new_start + new_count >= 1 && new_start + new_count - 1 <= limit
                && new_start + nlines <= limit && old_start + nlines <= limit) {
                proof {
                    assert(entry.1@[j as int].3.deep_view() =~= entry.1@[j as int].3@);
                    assert(!raw_hunk_in_range(rhunks[j as int]));
                    assert(spec_hunks_of_file(fpath, rhunks) == Err::<Seq<HunkV>, ErrorV>(
                        ErrorV::HunkOutOfRange { path: fpath },
                    ));
                }
                return Err(Error::HunkOutOfRange { path: entry.0.clone() });
            }
            let h = Hunk::from_line_kinds(
                old_start as u32,
                new_start as u32,
                new_count as u32,
                &rh.3,
            );
            let ghost hv = h@;
            let ghost hunks0 = hunks.deep_view();
            hunks.push(h);
            proof {
                assert(hunks.deep_view() =~= hunks0.push(hv));
                assert(entry.1@[j as int].3.deep_view() =~= entry.1@[j as int].3@);
                assert(hv == spec_hunk_of_raw(rhunks[j as int]));
                let rest = spec_hunks_of_file(fpath, rhunks.skip(j + 1));
                if rest is Ok {
                    assert(hunks0 + (seq![hv] + rest->Ok_0) =~= hunks.deep_view() + rest->Ok_0);
                }
            }
            j = j + 1;
        }
        proof {
            assert(rhunks.skip(entry.1@.len() as int).len() == 0);
            assert(hunks.deep_view() + Seq::<HunkV>::empty() =~= hunks.deep_view());
        }
        let ghost hdv = hunks.deep_view();
        let path = entry.0.clone();
        let ghost out0 = out.deep_view();
        out.push((path, hunks));
        proof {
            assert(out.deep_view() =~= out0.push((fpath, hdv)));
            let rest = spec_hunks_of_patches(raw.skip(k + 1));
            if rest is Ok {
                assert(out0 + (seq![(fpath, hdv)] + rest->Ok_0) =~= out.deep_view()
                    + rest->Ok_0);
            }
        }
        k = k + 1;
    }
    proof {
        assert(raw.skip(patches@.len() as int).len() == 0);
        assert(out.deep_view() + Seq::<(Seq<char>, Seq<HunkV>)>::empty() =~= out.deep_view());
    }
    Ok(out)
}

/// The nonempty trimmed lines of a line-separated file list.
pub open spec fn spec_file_list(pieces: Seq<Seq<char>>) -> Seq<Seq<char>>
    decreases pieces.len(),
{
    if pieces.len() == 0 {
        Seq::empty()
    } else {
        let t = spec_trim(pieces[0]);
        (if t.len() == 0 {
            Seq::<Seq<char>>::empty()
        } else {
            seq![t]
        }) + spec_file_list(pieces.drop_first())
    }
}

/// Splits a newline-separated list of staged file paths, trimming each line
/// and dropping empty ones.
#[verifier::loop_isolation(false)]
pub fn parse_staged_file_list(text: &str) -> (r: Vec<String>)
    ensures
        r.deep_view() == spec_file_list(spec_split(text@, '\n')),
{
    let pieces = split_str(text, '\n');
    let ghost pvs = spec_split(text@, '\n');
    let mut r: Vec<String> = Vec::new();
    let mut k: usize = 0;
    proof {
        assert(pvs.skip(0) =~= pvs);
        assert(r.deep_view() + spec_file_list(pvs) =~= spec_file_list(pvs));
    }
    while k < pieces.len()
        invariant
            0 <= k <= pieces@.len(),
            pieces.deep_view() == pvs,
            spec_file_list(pvs) == r.deep_view() + spec_file_list(pvs.skip(k as int)),
        decreases pieces@.len() - k,
    {
        proof {
            assert(pvs.skip(k as int)[0] == pvs[k as int]);
            assert(pvs.skip(k as int).drop_first() =~= pvs.skip(k + 1));
            assert(pvs[k as int] == pieces@[k as int]@);
        }
        let t = trim_str(pieces[k].as_str());
        if !t.as_str().is_empty() {
            let ghost r0 = r.deep_view();
            let ghost tv = t@;
            r.push(t);
            proof {
                assert(r.deep_view() =~= r0.push(tv));
                assert(r0 + (seq![tv] + spec_file_list(pvs.skip(k + 1))) =~= r.deep_view()
                    + spec_file_list(pvs.skip(k + 1)));
            }
        }
        k = k + 1;
    }
    proof {
        assert(spec_file_list(pvs.skip(pieces@.len() as int)) =~= Seq::<Seq<char>>::empty());
        assert(r.deep_view() + Seq::<Seq<char>>::empty() =~= r.deep_view());
    }
    r
}

} // verus!
