//! Resolution of target path references written inside close markers.
//!
//! Paths are plain strings with `/` separators, relative to the scan root.
//! Three forms of reference are supported, tried in this order:
//!
//! 1. root-relative: `//a/b.txt` resolves to `a/b.txt`;
//! 2. any other form starting with `/` is invalid;
//! 3. relative: resolved against the referencing file's directory, after
//!    stripping leading `./` components and resolving leading `../`
//!    components by walking up one directory each.
//!
//! `..` and `.` are only permitted as a prefix of a relative reference:
//! `../../x` is accepted, `../a/../c` is not.  A reference that walks above
//! the root, or whose remaining components are empty or dots, is invalid.

use vstd::prelude::*;
use crate::strutil::{chars_of, spec_split, split_str, substr_copy, push_str};

verus! {

broadcast use vstd::string::group_string_axioms;

/// Index of the last `/` strictly before `j`, or `-1` if there is none.
pub open spec fn last_slash_before(s: Seq<char>, j: int) -> int
    decreases j when 0 <= j <= s.len()
{
    if j <= 0 {
        -1
    } else if s[j - 1] == '/' {
        j - 1
    } else {
        last_slash_before(s, j - 1)
    }
}

/// The directory part of a path: everything before the last `/`, or the
/// empty path when there is no `/`.
pub open spec fn spec_dirname(s: Seq<char>) -> Seq<char> {
    let k = last_slash_before(s, s.len() as int);
    if k < 0 {
        Seq::empty()
    } else {
        s.subrange(0, k)
    }
}

/// Joining a directory and a path below it; an empty directory contributes
/// no separator.
pub open spec fn spec_join(parent: Seq<char>, rest: Seq<char>) -> Seq<char> {
    if parent.len() == 0 {
        rest
    } else {
        parent + seq!['/'] + rest
    }
}

/// A path component that names a real directory entry: nonempty and not a
/// dot form.
pub open spec fn is_clean_comp(c: Seq<char>) -> bool {
    c.len() > 0 && c != seq!['.'] && c != seq!['.', '.']
}

/// A nonempty path whose components are all clean.
pub open spec fn is_clean_path(t: Seq<char>) -> bool {
    t.len() > 0 && forall|k: int|
        0 <= k < spec_split(t, '/').len() ==> is_clean_comp(#[trigger] spec_split(t, '/')[k])
}

/// Resolution of a relative reference `t` against the directory `parent`:
/// leading `./` components are dropped, each leading `../` walks `parent` up
/// one directory (above the root is invalid), and what remains must be a
/// clean path.
pub open spec fn spec_resolve_rel(parent: Seq<char>, t: Seq<char>) -> Option<Seq<char>>
    decreases t.len(),
{
    if t.len() >= 2 && t[0] == '.' && t[1] == '/' {
        spec_resolve_rel(parent, t.skip(2))
    } else if t.len() >= 3 && t[0] == '.' && t[1] == '.' && t[2] == '/' {
        if parent.len() == 0 {
            None
        } else {
            spec_resolve_rel(spec_dirname(parent), t.skip(3))
        }
    } else if is_clean_path(t) {
        Some(spec_join(parent, t))
    } else {
        None
    }
}

/// Resolution of a target reference written in a file at path `origin`
/// (relative to the scan root) into a path relative to the scan root, or
/// `None` when the reference is malformed.
pub open spec fn spec_resolve(origin: Seq<char>, target: Seq<char>) -> Option<Seq<char>> {
    if target.len() >= 2 && target[0] == '/' && target[1] == '/' {
        let rest = target.skip(2);
        if is_clean_path(rest) {
            Some(rest)
        } else {
            None
        }
    } else if target.len() >= 1 && target[0] == '/' {
        None
    } else {
        spec_resolve_rel(spec_dirname(origin), target)
    }
}

proof fn lemma_last_slash_bounds(s: Seq<char>, j: int)
    requires
        0 <= j <= s.len(),
    ensures
        -1 <= last_slash_before(s, j) < j,
        last_slash_before(s, j) >= 0 ==> s[last_slash_before(s, j)] == '/',
        forall|k: int| last_slash_before(s, j) < k < j ==> s[k] != '/',
    decreases j,
{
    if j > 0 && s[j - 1] != '/' {
        lemma_last_slash_bounds(s, j - 1);
    }
}

/// The last-slash search only looks below `j`, so it is the same on any
/// prefix that is at least `j` long.
proof fn lemma_last_slash_prefix(s: Seq<char>, t: Seq<char>, j: int)
    requires
        0 <= j <= s.len(),
        j <= t.len(),
        forall|k: int| 0 <= k < j ==> s[k] == t[k],
    ensures
        last_slash_before(s, j) == last_slash_before(t, j),
    decreases j,
{
    if j > 0 && s[j - 1] != '/' {
        lemma_last_slash_prefix(s, t, j - 1);
    }
}

/// Finds the end of the directory part of `v[0..e]`: one past the last `/`
/// is excluded, so the result is the length of the directory prefix.
#[verifier::loop_isolation(false)]
fn dirname_end(v: &Vec<char>, e: usize) -> (r: usize)
    requires
        e <= v@.len(),
    ensures
        r <= e,
        v@.subrange(0, r as int) == spec_dirname(v@.subrange(0, e as int)),
{
    let ghost p = v@.subrange(0, e as int);
    proof {
        lemma_last_slash_prefix(p, v@, e as int);
        lemma_last_slash_bounds(v@, e as int);
    }
    let mut j: usize = e;
    while j > 0
        invariant
            0 <= j <= e,
            last_slash_before(v@, e as int) == last_slash_before(v@, j as int),
        decreases j,
    {
        if v[j - 1] == '/' {
            proof {
                assert(last_slash_before(v@, j as int) == j - 1);
                assert(v@.subrange(0, (j - 1) as int) =~= p.subrange(0, j - 1));
            }
            return j - 1;
        }
        j = j - 1;
    }
    proof {
        assert(v@.subrange(0, 0) =~= Seq::<char>::empty());
    }
    0
}

/// Whether `p` is a single clean path component.
fn is_clean_component(p: &String) -> (b: bool)
    ensures
        b == is_clean_comp(p@),
{
    let v = chars_of(p.as_str());
    if v.len() == 0 {
        false
    } else if v.len() == 1 && v[0] == '.' {
        proof {
            assert(p@ =~= seq!['.']);
        }
        false
    } else if v.len() == 2 && v[0] == '.' && v[1] == '.' {
        proof {
            assert(p@ =~= seq!['.', '.']);
        }
        false
    } else {
        proof {
            if p@ == seq!['.'] {
                assert(v@.len() == 1 && v@[0] == '.');
            }
            if p@ == seq!['.', '.'] {
                assert(v@.len() == 2 && v@[0] == '.' && v@[1] == '.');
            }
        }
        true
    }
}

/// Whether `t` is a clean path: nonempty, with no empty or dot components.
pub fn is_clean_path_exec(t: &String) -> (b: bool)
    ensures
        b == is_clean_path(t@),
{
    let v = chars_of(t.as_str());
    if v.len() == 0 {
        return false;
    }
    let comps = split_str(t.as_str(), '/');
    let mut k: usize = 0;
    while k < comps.len()
        invariant
            0 <= k <= comps@.len(),
            comps.deep_view() == spec_split(t@, '/'),
            t@.len() > 0,
            forall|j: int| 0 <= j < k ==> is_clean_comp(#[trigger] spec_split(t@, '/')[j]),
        decreases comps@.len() - k,
    {
        let c = &comps[k];
        proof {
            assert(comps.deep_view()[k as int] == comps@[k as int]@);
        }
        if !is_clean_component(c) {
            return false;
        }
        k = k + 1;
    }
    true
}

/// Resolves a target reference `target`, written in the file at `origin`,
/// into a path relative to the scan root; `None` when the reference is
/// malformed (an absolute path, a non-prefix dot component, or a walk above
/// the root).
#[verifier::loop_isolation(false)]
pub fn resolve_target_path(origin: &str, target: &str) -> (r: Option<String>)
    ensures
        r.deep_view() == spec_resolve(origin@, target@),
{
    let tv = chars_of(target);
    if tv.len() >= 2 && tv[0] == '/' && tv[1] == '/' {
        let rest = substr_copy(target, 2, tv.len());
        proof {
            assert(rest@ =~= target@.skip(2));
        }
        if is_clean_path_exec(&rest) {
            Some(rest)
        } else {
            None
        }
    } else if tv.len() >= 1 && tv[0] == '/' {
        None
    } else {
        let ov = chars_of(origin);
        let mut pe: usize = dirname_end(&ov, ov.len());
        proof {
            assert(ov@.subrange(0, ov@.len() as int) =~= origin@);
            assert(target@.skip(0) =~= target@);
        }
        let mut p: usize = 0;
        loop
            invariant
                p <= tv@.len(),
                pe <= ov@.len(),
                spec_resolve_rel(spec_dirname(origin@), target@) == spec_resolve_rel(
                    origin@.subrange(0, pe as int),
                    target@.skip(p as int),
                ),
            decreases tv@.len() - p,
        {
            let ghost trest = target@.skip(p as int);
            let remaining = tv.len() - p;
            if remaining >= 2 && tv[p] == '.' && tv[p + 1] == '/' {
                proof {
                    assert(trest.len() >= 2 && trest[0] == '.' && trest[1] == '/');
                    assert(trest.skip(2) =~= target@.skip(p + 2));
                }
                p = p + 2;
            } else if remaining >= 3 && tv[p] == '.' && tv[p + 1] == '.' && tv[p + 2] == '/' {
                proof {
                    assert(trest.len() >= 3 && trest[0] == '.' && trest[1] == '.' && trest[2]
                        == '/');
                }
                if pe == 0 {
                    return None;
                }
                proof {
                    assert(trest.skip(3) =~= target@.skip(p + 3));
                }
                let new_pe = dirname_end(&ov, pe);
                pe = new_pe;
                p = p + 3;
            } else {
                proof {
                    assert(!(trest.len() >= 2 && trest[0] == '.' && trest[1] == '/'));
                    assert(!(trest.len() >= 3 && trest[0] == '.' && trest[1] == '.' && trest[2]
                        == '/'));
                }
                let rest = substr_copy(target, p, tv.len());
                proof {
                    assert(rest@ =~= trest);
                }
                if !is_clean_path_exec(&rest) {
                    return None;
                }
                if pe == 0 {
                    return Some(rest);
                }
                let mut out = substr_copy(origin, 0, pe);
                push_str(&mut out, "/");
                push_str(&mut out, rest.as_str());
                proof {
                    reveal_strlit("/");
                    assert("/"@ =~= seq!['/']);
                    assert(out@ =~= spec_join(origin@.subrange(0, pe as int), rest@));
                }
                return Some(out);
            }
        }
    }
}

/// Joins a directory path and a path below it with a `/` separator; an
/// empty directory contributes nothing.
pub fn join_path(parent: &str, rest: &str) -> (r: String)
    ensures
        r@ == spec_join(parent@, rest@),
{
    let pv = chars_of(parent);
    if pv.len() == 0 {
        rest.to_owned()
    } else {
        let mut out = parent.to_owned();
        push_str(&mut out, "/");
        push_str(&mut out, rest);
        proof {
            reveal_strlit("/");
            assert("/"@ =~= seq!['/']);
            assert(out@ =~= spec_join(parent@, rest@));
        }
        out
    }
}

} // verus!
