//! General properties of the library, stated and proved once and for all.

use vstd::prelude::*;
use crate::errors::ErrorV;
use crate::file::{BlockV, FileV, PendingV, ThenChangeV, lookup_seen, spec_scan_blocks,
    spec_scan_file};
use crate::hunk::HunkV;
use crate::parser::{
    spec_first_named, spec_lookup_file, spec_validate, spec_violations, spec_violations_from,
    spec_violations_of_blocks, spec_violations_of_key, spec_violations_of_keys, ViolationV,
};
use crate::paths::{
    is_clean_path, spec_dirname, spec_join, spec_resolve, spec_resolve_rel,
};
use crate::strutil::{find_char, spec_split, split_from};

verus! {

/// A clean path never starts with a separator or a dot component.
proof fn lemma_clean_head(r: Seq<char>)
    requires
        is_clean_path(r),
    ensures
        r.len() >= 1,
        r[0] != '/',
        !(r.len() >= 2 && r[0] == '.' && r[1] == '/'),
        !(r.len() >= 3 && r[0] == '.' && r[1] == '.' && r[2] == '/'),
        !(r.len() == 1 && r[0] == '.'),
        !(r.len() == 2 && r[0] == '.' && r[1] == '.'),
{
    let j = find_char(r, '/', 0);
    crate::strutil::lemma_find_char_bounds(r, '/', 0);
    let first = spec_split(r, '/')[0];
    if j >= r.len() {
        assert(split_from(r, '/', 0) == seq![r.subrange(0, r.len() as int)]);
    } else {
        assert(split_from(r, '/', 0) == seq![r.subrange(0, j)] + split_from(r, '/', j + 1));
        assert((seq![r.subrange(0, j)] + split_from(r, '/', j + 1))[0] == r.subrange(0, j));
    }
    assert(first == r.subrange(0, j));
    if r[0] == '/' {
        assert(find_char(r, '/', 0) == 0);
        assert(first =~= Seq::<char>::empty());
    }
    if r.len() >= 2 && r[0] == '.' && r[1] == '/' {
        assert(find_char(r, '/', 0) == 1);
        assert(first =~= seq!['.']);
    }
    if r.len() >= 3 && r[0] == '.' && r[1] == '.' && r[2] == '/' {
        assert(find_char(r, '/', 0) == 2);
        assert(first =~= seq!['.', '.']);
    }
    if r.len() == 1 && r[0] == '.' {
        assert(find_char(r, '/', 0) == 1);
        assert(first =~= seq!['.']);
    }
    if r.len() == 2 && r[0] == '.' && r[1] == '.' {
        assert(find_char(r, '/', 0) == 2);
        assert(first =~= seq!['.', '.']);
    }
}

/// Round trip, root-relative form: a path written as a `//`-prefixed
/// reference resolves back to itself, from any referencing file.
pub proof fn theorem_roundtrip_root_relative(origin: Seq<char>, resolved: Seq<char>)
    requires
        is_clean_path(resolved),
    ensures
        spec_resolve(origin, seq!['/', '/'] + resolved) == Some(resolved),
{
    let target = seq!['/', '/'] + resolved;
    assert(target.skip(2) =~= resolved);
}

/// Round trip, bare and plain relative forms: a path written relative to the
/// referencing file's directory resolves back to that directory joined with
/// it.
pub proof fn theorem_roundtrip_relative(origin: Seq<char>, rest: Seq<char>)
    requires
        is_clean_path(rest),
    ensures
        spec_resolve(origin, rest) == Some(spec_join(spec_dirname(origin), rest)),
{
    lemma_clean_head(rest);
}

/// The `../` prefixes a reference needs to name `resolved` from `origin`:
/// `k` of them.
pub open spec fn dotdots(k: nat) -> Seq<char>
    decreases k,
{
    if k == 0 {
        Seq::empty()
    } else {
        seq!['.', '.', '/'] + dotdots((k - 1) as nat)
    }
}

/// The directory `k` levels above `d`.
pub open spec fn up_dirs(d: Seq<char>, k: nat) -> Seq<char>
    decreases k,
{
    if k == 0 {
        d
    } else {
        spec_dirname(up_dirs(d, (k - 1) as nat))
    }
}

/// Round trip, parent-relative form: a reference that walks up `k`
/// directories and then descends along a clean path resolves to exactly the
/// directory `k` levels above the referencing file's directory, joined with
/// that path — provided the walk never leaves the root.
pub proof fn theorem_roundtrip_parent_relative(origin: Seq<char>, k: nat, rest: Seq<char>)
    requires
        is_clean_path(rest),
        forall|i: nat| i < k ==> up_dirs(spec_dirname(origin), i).len() > 0,
    ensures
        spec_resolve(origin, dotdots(k) + rest) == Some(
            spec_join(up_dirs(spec_dirname(origin), k), rest),
        ),
{
    lemma_clean_head(rest);
    let target = dotdots(k) + rest;
    if k == 0 {
        assert(target =~= rest);
        assert(target.len() >= 1 && target[0] != '/');
        theorem_roundtrip_relative(origin, rest);
    } else {
        assert(target[0] == '.' && target[1] == '.' && target[2] == '/');
        assert(target.len() >= 3);
        lemma_rel_steps(spec_dirname(origin), k, rest);
    }
}

/// Walking the leading `../` components of a relative reference.
proof fn lemma_rel_steps(d: Seq<char>, k: nat, rest: Seq<char>)
    requires
        is_clean_path(rest),
        forall|i: nat| i < k ==> up_dirs(d, i).len() > 0,
    ensures
        spec_resolve_rel(d, dotdots(k) + rest) == Some(spec_join(up_dirs(d, k), rest)),
    decreases k,
{
    lemma_clean_head(rest);
    let target = dotdots(k) + rest;
    if k == 0 {
        assert(target =~= rest);
    } else {
        assert(dotdots(k) == seq!['.', '.', '/'] + dotdots((k - 1) as nat));
        assert(target.len() >= 3);
        assert(target[0] == '.' && target[1] == '.' && target[2] == '/');
        assert(target[1] != '/');
        assert(target.skip(3) =~= dotdots((k - 1) as nat) + rest);
        assert(up_dirs(d, 0) == d);
        assert(d.len() > 0);
        assert forall|i: nat| i < (k - 1) as nat implies up_dirs(spec_dirname(d), i).len()
            > 0 by {
            lemma_up_dirs_shift(d, i);
            assert(up_dirs(d, i + 1).len() > 0);
        }
        lemma_rel_steps(spec_dirname(d), (k - 1) as nat, rest);
        lemma_up_dirs_shift_all(d, k);
        assert(spec_resolve_rel(d, target) == spec_resolve_rel(
            spec_dirname(d),
            dotdots((k - 1) as nat) + rest,
        ));
        assert(spec_resolve_rel(d, target) == Some(spec_join(up_dirs(d, k), rest)));
    }
}

/// Going up `i + 1` levels is going up one, then `i` more.
proof fn lemma_up_dirs_shift(d: Seq<char>, i: nat)
    ensures
        up_dirs(d, i + 1) == up_dirs(spec_dirname(d), i),
    decreases i,
{
    if i == 0 {
        assert(up_dirs(d, 1) == spec_dirname(up_dirs(d, 0)));
        assert(up_dirs(spec_dirname(d), 0) == spec_dirname(d));
    } else {
        lemma_up_dirs_shift(d, (i - 1) as nat);
        assert(up_dirs(d, i + 1) == spec_dirname(up_dirs(d, i)));
        assert(up_dirs(d, i) == up_dirs(spec_dirname(d), (i - 1) as nat));
        assert(up_dirs(spec_dirname(d), i) == spec_dirname(
            up_dirs(spec_dirname(d), (i - 1) as nat),
        ));
    }
}

proof fn lemma_up_dirs_shift_all(d: Seq<char>, k: nat)
    requires
        k > 0,
    ensures
        up_dirs(spec_dirname(d), (k - 1) as nat) == up_dirs(d, k),
{
    lemma_up_dirs_shift(d, (k - 1) as nat);
}

/// Structural validation is a function of the scanned set alone: two runs on
/// the same unchanged file set yield identical results.
pub proof fn theorem_validation_idempotent(
    fs: Seq<FileV>,
    first: Option<ErrorV>,
    second: Option<ErrorV>,
)
    requires
        first == spec_validate(fs),
        second == spec_validate(fs),
    ensures
        first == second,
{
}

/// A looked-up target block always carries the looked-up name.
proof fn lemma_first_named_is_named(bs: Seq<BlockV>, name: Seq<char>)
    ensures
        spec_first_named(bs, name) matches Some(b) ==> b.name == Some(name),
    decreases bs.len(),
{
    if bs.len() > 0 && bs[0].name != Some(name) {
        lemma_first_named_is_named(bs.drop_first(), name);
    }
}

/// An unnamed block can never be demanded as a target: every violation that
/// cites an unmet target block cites a targetable (named) block.  An unnamed
/// block can still be the source of a violation, through its own targets.
pub proof fn theorem_violations_cite_targetable(
    root: Seq<char>,
    fs: Seq<FileV>,
    staged_files: Seq<Seq<char>>,
    staged: Seq<(Seq<char>, Seq<HunkV>)>,
    i: int,
)
    requires
        0 <= i < spec_violations(root, fs, staged_files, staged).len(),
    ensures
        spec_violations(root, fs, staged_files, staged)[i].target_block matches Some(tb)
            ==> tb.name is Some,
{
    lemma_from_targetable(root, fs, staged_files, staged, 0, i);
}

proof fn lemma_key_targetable(
    root: Seq<char>,
    fs: Seq<FileV>,
    staged_files: Seq<Seq<char>>,
    staged: Seq<(Seq<char>, Seq<HunkV>)>,
    b: BlockV,
    key: (Seq<char>, Option<Seq<char>>),
    i: int,
)
    requires
        0 <= i < spec_violations_of_key(root, fs, staged_files, staged, b, key).len(),
    ensures
        spec_violations_of_key(root, fs, staged_files, staged, b, key)[i].target_block matches
            Some(tb) ==> tb.name is Some,
{
    match key.1 {
        Some(tn) => {
            match spec_lookup_file(fs, key.0) {
                None => {},
                Some(fi) => {
                    crate::parser::lemma_lookup_file(fs, key.0);
                    lemma_first_named_is_named(fs[fi].blocks, tn);
                },
            }
        },
        None => {},
    }
}

proof fn lemma_keys_targetable(
    root: Seq<char>,
    fs: Seq<FileV>,
    staged_files: Seq<Seq<char>>,
    staged: Seq<(Seq<char>, Seq<HunkV>)>,
    b: BlockV,
    keys: Seq<(Seq<char>, Option<Seq<char>>)>,
    i: int,
)
    requires
        0 <= i < spec_violations_of_keys(root, fs, staged_files, staged, b, keys).len(),
    ensures
        spec_violations_of_keys(root, fs, staged_files, staged, b, keys)[i].target_block matches
            Some(tb) ==> tb.name is Some,
    decreases keys.len(),
{
    if keys.len() > 0 {
        let head = spec_violations_of_key(root, fs, staged_files, staged, b, keys[0]);
        if i < head.len() {
            lemma_key_targetable(root, fs, staged_files, staged, b, keys[0], i);
        } else {
            lemma_keys_targetable(
                root,
                fs,
                staged_files,
                staged,
                b,
                keys.drop_first(),
                i - head.len(),
            );
        }
    }
}

proof fn lemma_blocks_targetable(
    root: Seq<char>,
    fs: Seq<FileV>,
    staged_files: Seq<Seq<char>>,
    staged: Seq<(Seq<char>, Seq<HunkV>)>,
    bs: Seq<BlockV>,
    hunks: Seq<HunkV>,
    i: int,
)
    requires
        0 <= i < spec_violations_of_blocks(root, fs, staged_files, staged, bs, hunks).len(),
    ensures
        spec_violations_of_blocks(root, fs, staged_files, staged, bs, hunks)[i].target_block
            matches Some(tb) ==> tb.name is Some,
    decreases bs.len(),
{
    if bs.len() > 0 {
        let head: Seq<ViolationV> = if crate::file::spec_block_changed(bs[0], hunks) {
            spec_violations_of_keys(
                root,
                fs,
                staged_files,
                staged,
                bs[0],
                crate::file::spec_target_keys(bs[0]),
            )
        } else {
            Seq::empty()
        };
        if i < head.len() {
            lemma_keys_targetable(
                root,
                fs,
                staged_files,
                staged,
                bs[0],
                crate::file::spec_target_keys(bs[0]),
                i,
            );
        } else {
            lemma_blocks_targetable(
                root,
                fs,
                staged_files,
                staged,
                bs.drop_first(),
                hunks,
                i - head.len(),
            );
        }
    }
}

proof fn lemma_from_targetable(
    root: Seq<char>,
    fs: Seq<FileV>,
    staged_files: Seq<Seq<char>>,
    staged: Seq<(Seq<char>, Seq<HunkV>)>,
    k: int,
    i: int,
)
    requires
        0 <= k <= staged.len(),
        0 <= i < spec_violations_from(root, fs, staged_files, staged, k).len(),
    ensures
        spec_violations_from(root, fs, staged_files, staged, k)[i].target_block matches Some(tb)
            ==> tb.name is Some,
    decreases staged.len() - k,
{
    if k < staged.len() {
        let head: Seq<ViolationV> = match spec_lookup_file(fs, staged[k].0) {
            None => Seq::empty(),
            Some(fi) => spec_violations_of_blocks(
                root,
                fs,
                staged_files,
                staged,
                fs[fi].blocks,
                staged[k].1,
            ),
        };
        if i < head.len() {
            match spec_lookup_file(fs, staged[k].0) {
                None => {},
                Some(fi) => {
                    lemma_blocks_targetable(
                        root,
                        fs,
                        staged_files,
                        staged,
                        fs[fi].blocks,
                        staged[k].1,
                        i,
                    );
                },
            }
        } else {
            lemma_from_targetable(root, fs, staged_files, staged, k + 1, i - head.len());
        }
    }
}


/// Looking a name up after recording another: an earlier record wins, a
/// matching new record answers, anything else stays unknown.
proof fn lemma_lookup_push(s: Seq<(Seq<char>, int)>, x: (Seq<char>, int), n: Seq<char>)
    ensures
        lookup_seen(s.push(x), n) == if lookup_seen(s, n) is Some {
            lookup_seen(s, n)
        } else if x.0 == n {
            Some(x.1)
        } else {
            None
        },
    decreases s.len(),
{
    if s.len() == 0 {
        assert(s.push(x)[0] == x);
        assert(s.push(x).drop_first() =~= Seq::<(Seq<char>, int)>::empty());
        assert(lookup_seen(Seq::<(Seq<char>, int)>::empty(), n) is None);
    } else {
        assert(s.push(x)[0] == s[0]);
        assert(s.push(x).drop_first() =~= s.drop_first().push(x));
        lemma_lookup_push(s.drop_first(), x, n);
        if s[0].0 == n {
            assert(lookup_seen(s.push(x), n) == Some(s[0].1));
            assert(lookup_seen(s, n) == Some(s[0].1));
        } else {
            assert(lookup_seen(s.push(x), n) == lookup_seen(s.drop_first().push(x), n));
            assert(lookup_seen(s, n) == lookup_seen(s.drop_first(), n));
        }
    }
}

/// Whether the markers from `i` on close every open block and never close
/// more than is open, starting from `depth` open blocks.
pub open spec fn balanced_from(ms: Seq<crate::scan::MarkerV>, i: int, depth: int) -> bool
    decreases ms.len() - i when 0 <= i <= ms.len()
{
    if i >= ms.len() {
        depth == 0
    } else if ms[i].open {
        balanced_from(ms, i + 1, depth + 1)
    } else {
        depth > 0 && balanced_from(ms, i + 1, depth - 1)
    }
}

/// The number of close markers from `i` on.
pub open spec fn count_closes(ms: Seq<crate::scan::MarkerV>, i: int) -> nat
    decreases ms.len() - i when 0 <= i <= ms.len()
{
    if i >= ms.len() {
        0
    } else {
        (if ms[i].open {
            0nat
        } else {
            1nat
        }) + count_closes(ms, i + 1)
    }
}

/// The scan of a balanced, well-named marker sequence: from `i` on, the
/// markers are properly nested over the current stack, open names never
/// repeat, close arguments are blank, and marker lines strictly increase.
/// The scan then succeeds and completes one block per close marker, each
/// spanning at least one line.
proof fn lemma_balanced_scan(
    path: Seq<char>,
    ms: Seq<crate::scan::MarkerV>,
    i: int,
    stack: Seq<PendingV>,
    seen: Seq<(Seq<char>, int)>,
    blocks: Seq<BlockV>,
    ex: Seq<Seq<char>>,
)
    requires
        0 <= i <= ms.len(),
        balanced_from(ms, i, stack.len() as int),
        forall|k: int|
            i <= k < ms.len() && (#[trigger] ms[k]).open && ms[k].arg.len() > 0 ==> lookup_seen(
                seen,
                ms[k].arg,
            ) is None,
        forall|a: int, b: int|
            i <= a < b < ms.len() && (#[trigger] ms[a]).open && (#[trigger] ms[b]).open && ms[
                a].arg.len() > 0 ==> ms[a].arg != ms[b].arg,
        forall|k: int|
            i <= k < ms.len() && !(#[trigger] ms[k]).open ==> crate::strutil::spec_trim(
                ms[k].arg,
            ).len() == 0,
        forall|k: int| i <= k < ms.len() - 1 ==> (#[trigger] ms[k]).line < ms[k + 1].line,
        forall|e: int|
            0 <= e < stack.len() && i < ms.len() ==> (#[trigger] stack[e]).start_line < ms[
                i].line,
        forall|b: int|
            0 <= b < blocks.len() ==> (#[trigger] blocks[b]).start_line < blocks[b].end_line,
    ensures
        spec_scan_blocks(path, ms, i, stack, seen, blocks, ex) matches Ok(out) && out.len()
            == blocks.len() + count_closes(ms, i) && forall|b: int|
            0 <= b < out.len() ==> (#[trigger] out[b]).start_line < out[b].end_line,
    decreases ms.len() - i,
{
    if i >= ms.len() {
        assert(stack.len() == 0);
    } else {
        let m = ms[i];
        if m.open {
            let name = if m.arg.len() == 0 {
                None
            } else {
                Some(m.arg)
            };
            let seen2 = if m.arg.len() == 0 {
                seen
            } else {
                seen.push((m.arg, m.line))
            };
            let stack2 = stack.push(PendingV { name, start_line: m.line });
            assert forall|k: int|
                i + 1 <= k < ms.len() && (#[trigger] ms[k]).open && ms[k].arg.len()
                    > 0 implies lookup_seen(seen2, ms[k].arg) is None by {
                if m.arg.len() > 0 {
                    lemma_lookup_push(seen, (m.arg, m.line), ms[k].arg);
                    assert(ms[i].arg != ms[k].arg);
                }
            }
            assert forall|e: int|
                0 <= e < stack2.len() && i + 1 < ms.len() implies (#[trigger] stack2[
                e]).start_line < ms[i + 1].line by {
                if e < stack.len() {
                    assert(stack2[e] == stack[e]);
                    assert(stack[e].start_line < ms[i].line);
                    assert(ms[i].line < ms[i + 1].line);
                } else {
                    assert(stack2[e].start_line == ms[i].line);
                    assert(ms[i].line < ms[i + 1].line);
                }
            }
            lemma_balanced_scan(path, ms, i + 1, stack2, seen2, blocks, ex);
        } else {
            assert(stack.len() > 0);
            assert(crate::file::spec_build_then_change(path, m.line, m.arg, ex) == Ok::<
                ThenChangeV,
                ErrorV,
            >(ThenChangeV::NoTarget));
            let nb = BlockV {
                file: path,
                name: stack.last().name,
                start_line: stack.last().start_line,
                end_line: m.line,
                then_change: ThenChangeV::NoTarget,
            };
            assert(stack[stack.len() - 1].start_line < ms[i].line);
            let blocks2 = blocks.push(nb);
            assert forall|b: int|
                0 <= b < blocks2.len() implies (#[trigger] blocks2[b]).start_line < blocks2[
                b].end_line by {
                if b < blocks.len() {
                    assert(blocks2[b] == blocks[b]);
                }
            }
            assert forall|e: int|
                0 <= e < stack.drop_last().len() && i + 1 < ms.len() implies (
            #[trigger] stack.drop_last()[e]).start_line < ms[i + 1].line by {
                assert(stack.drop_last()[e] == stack[e]);
                assert(stack[e].start_line < ms[i].line);
                assert(ms[i].line < ms[i + 1].line);
            }
            lemma_balanced_scan(path, ms, i + 1, stack.drop_last(), seen, blocks2, ex);
        }
    }
}

/// Balanced nesting: a file whose markers form properly nested pairs on
/// strictly increasing lines, with no repeated nonempty open name and only
/// blank close arguments, always scans into exactly one block per pair, each
/// with its start line strictly before its end line — in particular, the
/// block stack is empty at the end of the file.
pub proof fn theorem_balanced_nesting(path: Seq<char>, contents: Seq<char>, ex: Seq<Seq<char>>)
    requires
        balanced_from(crate::scan::spec_markers(contents), 0, 0),
        forall|a: int, b: int|
            0 <= a < b < crate::scan::spec_markers(contents).len() && (
            #[trigger] crate::scan::spec_markers(contents)[a]).open && (
            #[trigger] crate::scan::spec_markers(contents)[b]).open && crate::scan::spec_markers(
                contents,
            )[a].arg.len() > 0 ==> crate::scan::spec_markers(contents)[a].arg
                != crate::scan::spec_markers(contents)[b].arg,
        forall|k: int|
            0 <= k < crate::scan::spec_markers(contents).len() && !(
            #[trigger] crate::scan::spec_markers(contents)[k]).open
                ==> crate::strutil::spec_trim(crate::scan::spec_markers(contents)[k].arg).len()
                == 0,
        forall|k: int|
            0 <= k < crate::scan::spec_markers(contents).len() - 1 ==> (
            #[trigger] crate::scan::spec_markers(contents)[k]).line < crate::scan::spec_markers(
                contents,
            )[k + 1].line,
    ensures
        spec_scan_file(path, contents, ex) matches Ok(out) && out.len() == count_closes(
            crate::scan::spec_markers(contents),
            0,
        ) && forall|b: int|
            0 <= b < out.len() ==> (#[trigger] out[b]).start_line < out[b].end_line,
{
    lemma_balanced_scan(
        path,
        crate::scan::spec_markers(contents),
        0,
        Seq::empty(),
        Seq::empty(),
        Seq::empty(),
        ex,
    );
}

/// The in-progress block an open marker starts.
pub open spec fn pending_of(m: crate::scan::MarkerV) -> PendingV {
    PendingV {
        name: if m.arg.len() == 0 {
            None
        } else {
            Some(m.arg)
        },
        start_line: m.line,
    }
}

/// The in-progress blocks a stack of open markers describes, innermost last.
pub open spec fn pendings_of(opens: Seq<crate::scan::MarkerV>) -> Seq<PendingV> {
    opens.map_values(|m: crate::scan::MarkerV| pending_of(m))
}

/// Whether, from marker `i` on with `depth` blocks open, no close marker
/// ever arrives with nothing open.
pub open spec fn never_underflows(ms: Seq<crate::scan::MarkerV>, i: int, depth: int) -> bool
    decreases ms.len() - i when 0 <= i <= ms.len()
{
    if i >= ms.len() {
        true
    } else if ms[i].open {
        never_underflows(ms, i + 1, depth + 1)
    } else {
        depth > 0 && never_underflows(ms, i + 1, depth - 1)
    }
}

/// The open markers still unmatched after all markers from `i` on have been
/// processed over the current stack `cur`, innermost last.
pub open spec fn final_open_stack(
    ms: Seq<crate::scan::MarkerV>,
    i: int,
    cur: Seq<crate::scan::MarkerV>,
) -> Seq<crate::scan::MarkerV>
    decreases ms.len() - i when 0 <= i <= ms.len()
{
    if i >= ms.len() {
        cur
    } else if ms[i].open {
        final_open_stack(ms, i + 1, cur.push(ms[i]))
    } else {
        final_open_stack(ms, i + 1, cur.drop_last())
    }
}

/// The scan of a marker sequence that leaves a block open: the innermost
/// unmatched open marker is reported unclosed.
proof fn lemma_unclosed_scan(
    path: Seq<char>,
    ms: Seq<crate::scan::MarkerV>,
    i: int,
    cur: Seq<crate::scan::MarkerV>,
    stack: Seq<PendingV>,
    seen: Seq<(Seq<char>, int)>,
    blocks: Seq<BlockV>,
    ex: Seq<Seq<char>>,
)
    requires
        0 <= i <= ms.len(),
        stack == pendings_of(cur),
        never_underflows(ms, i, cur.len() as int),
        final_open_stack(ms, i, cur).len() > 0,
        forall|k: int|
            i <= k < ms.len() && (#[trigger] ms[k]).open && ms[k].arg.len() > 0 ==> lookup_seen(
                seen,
                ms[k].arg,
            ) is None,
        forall|a: int, b: int|
            i <= a < b < ms.len() && (#[trigger] ms[a]).open && (#[trigger] ms[b]).open && ms[
                a].arg.len() > 0 ==> ms[a].arg != ms[b].arg,
        forall|k: int|
            i <= k < ms.len() && !(#[trigger] ms[k]).open ==> crate::strutil::spec_trim(
                ms[k].arg,
            ).len() == 0,
    ensures
        spec_scan_blocks(path, ms, i, stack, seen, blocks, ex) == Err::<Seq<BlockV>, ErrorV>(
            ErrorV::UnclosedBlock {
                file: path,
                name: pending_of(final_open_stack(ms, i, cur).last()).name,
                start_line: pending_of(final_open_stack(ms, i, cur).last()).start_line,
            },
        ),
    decreases ms.len() - i,
{
    if i >= ms.len() {
        assert(final_open_stack(ms, i, cur) == cur);
        assert(stack.len() == cur.len());
        assert(stack.last() == pending_of(cur.last()));
    } else {
        let m = ms[i];
        if m.open {
            let name = if m.arg.len() == 0 {
                None
            } else {
                Some(m.arg)
            };
            let seen2 = if m.arg.len() == 0 {
                seen
            } else {
                seen.push((m.arg, m.line))
            };
            let cur2 = cur.push(m);
            let stack2 = stack.push(PendingV { name, start_line: m.line });
            assert(stack2 =~= pendings_of(cur2));
            assert forall|k: int|
                i + 1 <= k < ms.len() && (#[trigger] ms[k]).open && ms[k].arg.len()
                    > 0 implies lookup_seen(seen2, ms[k].arg) is None by {
                if m.arg.len() > 0 {
                    lemma_lookup_push(seen, (m.arg, m.line), ms[k].arg);
                    assert(ms[i].arg != ms[k].arg);
                }
            }
            lemma_unclosed_scan(path, ms, i + 1, cur2, stack2, seen2, blocks, ex);
        } else {
            assert(cur.len() > 0);
            assert(stack.len() > 0);
            assert(crate::file::spec_build_then_change(path, m.line, m.arg, ex) == Ok::<
                ThenChangeV,
                ErrorV,
            >(ThenChangeV::NoTarget));
            let cur2 = cur.drop_last();
            assert(stack.drop_last() =~= pendings_of(cur2));
            let nb = BlockV {
                file: path,
                name: stack.last().name,
                start_line: stack.last().start_line,
                end_line: m.line,
                then_change: ThenChangeV::NoTarget,
            };
            lemma_unclosed_scan(
                path,
                ms,
                i + 1,
                cur2,
                stack.drop_last(),
                seen,
                blocks.push(nb),
                ex,
            );
        }
    }
}

/// Unclosed-block detection: a file whose markers close nothing that is not
/// open and leave at least one block open at the end of the file — whatever
/// mix of markers it holds, provided open names never repeat and the close
/// arguments are blank — always fails with an unclosed-block error naming
/// the innermost unmatched open marker's name and line.
pub proof fn theorem_unclosed_block_detected(
    path: Seq<char>,
    contents: Seq<char>,
    ex: Seq<Seq<char>>,
)
    requires
        never_underflows(crate::scan::spec_markers(contents), 0, 0),
        final_open_stack(crate::scan::spec_markers(contents), 0, Seq::empty()).len() > 0,
        forall|a: int, b: int|
            0 <= a < b < crate::scan::spec_markers(contents).len() && (
            #[trigger] crate::scan::spec_markers(contents)[a]).open && (
            #[trigger] crate::scan::spec_markers(contents)[b]).open && crate::scan::spec_markers(
                contents,
            )[a].arg.len() > 0 ==> crate::scan::spec_markers(contents)[a].arg
                != crate::scan::spec_markers(contents)[b].arg,
        forall|k: int|
            0 <= k < crate::scan::spec_markers(contents).len() && !(
            #[trigger] crate::scan::spec_markers(contents)[k]).open
                ==> crate::strutil::spec_trim(crate::scan::spec_markers(contents)[k].arg).len()
                == 0,
    ensures
        spec_scan_file(path, contents, ex) == Err::<Seq<BlockV>, ErrorV>(
            ErrorV::UnclosedBlock {
                file: path,
                name: pending_of(
                    final_open_stack(
                        crate::scan::spec_markers(contents),
                        0,
                        Seq::empty(),
                    ).last(),
                ).name,
                start_line: pending_of(
                    final_open_stack(
                        crate::scan::spec_markers(contents),
                        0,
                        Seq::empty(),
                    ).last(),
                ).start_line,
            },
        ),
{
    assert(pendings_of(Seq::<crate::scan::MarkerV>::empty()) =~= Seq::<PendingV>::empty());
    lemma_unclosed_scan(
        path,
        crate::scan::spec_markers(contents),
        0,
        Seq::empty(),
        Seq::empty(),
        Seq::empty(),
        Seq::empty(),
        ex,
    );
}

/// The scan of an open-markers-only sequence up to the first repeated name:
/// the duplicate is reported with both lines.
proof fn lemma_duplicate_scan(
    path: Seq<char>,
    ms: Seq<crate::scan::MarkerV>,
    i: int,
    i0: int,
    j0: int,
    stack: Seq<PendingV>,
    seen: Seq<(Seq<char>, int)>,
    blocks: Seq<BlockV>,
    ex: Seq<Seq<char>>,
)
    requires
        0 <= i <= j0,
        0 <= i0 < j0 < ms.len(),
        forall|k: int| 0 <= k < ms.len() ==> (#[trigger] ms[k]).open,
        ms[i0].arg.len() > 0,
        ms[i0].arg == ms[j0].arg,
        forall|a: int, b: int|
            0 <= a < b < j0 && (#[trigger] ms[a]).arg.len() > 0 ==> ms[a].arg != (
            #[trigger] ms[b]).arg,
        forall|k: int|
            i <= k < j0 && (#[trigger] ms[k]).arg.len() > 0 ==> lookup_seen(seen, ms[k].arg)
                is None,
        lookup_seen(seen, ms[j0].arg) == if i > i0 {
            Some(ms[i0].line)
        } else {
            None::<int>
        },
    ensures
        spec_scan_blocks(path, ms, i, stack, seen, blocks, ex) == Err::<Seq<BlockV>, ErrorV>(
            ErrorV::DuplicateBlockName {
                file: path,
                name: ms[j0].arg,
                first_line: ms[i0].line,
                second_line: ms[j0].line,
            },
        ),
    decreases j0 - i,
{
    let m = ms[i];
    if i == j0 {
        assert(m.arg.len() > 0);
        assert(lookup_seen(seen, m.arg) == Some(ms[i0].line));
    } else {
        assert(i < j0);
        if m.arg.len() > 0 {
            assert(lookup_seen(seen, m.arg) is None);
        }
        let name = if m.arg.len() == 0 {
            None
        } else {
            Some(m.arg)
        };
        let seen2 = if m.arg.len() == 0 {
            seen
        } else {
            seen.push((m.arg, m.line))
        };
        let stack2 = stack.push(PendingV { name, start_line: m.line });
        if m.arg.len() > 0 {
            lemma_lookup_push(seen, (m.arg, m.line), ms[j0].arg);
            if i == i0 {
                assert(lookup_seen(seen2, ms[j0].arg) == Some(ms[i0].line));
            } else if i < i0 {
                assert(ms[i].arg != ms[i0].arg);
                assert(lookup_seen(seen2, ms[j0].arg) is None);
            }
        } else {
            if i == i0 {
                assert(false);
            }
        }
        assert forall|k: int|
            i + 1 <= k < j0 && (#[trigger] ms[k]).arg.len() > 0 implies lookup_seen(
            seen2,
            ms[k].arg,
        ) is None by {
            if m.arg.len() > 0 {
                lemma_lookup_push(seen, (m.arg, m.line), ms[k].arg);
                assert(ms[i].arg != ms[k].arg);
            }
        }
        lemma_duplicate_scan(path, ms, i + 1, i0, j0, stack2, seen2, blocks, ex);
    }
}

/// Duplicate detection: in a file holding only open markers, the first
/// repetition of a nonempty block name always fails the scan, citing the
/// lines of both occurrences.
pub proof fn theorem_duplicate_detected(
    path: Seq<char>,
    contents: Seq<char>,
    ex: Seq<Seq<char>>,
    i0: int,
    j0: int,
)
    requires
        0 <= i0 < j0 < crate::scan::spec_markers(contents).len(),
        forall|k: int|
            0 <= k < crate::scan::spec_markers(contents).len() ==> (
            #[trigger] crate::scan::spec_markers(contents)[k]).open,
        crate::scan::spec_markers(contents)[i0].arg.len() > 0,
        crate::scan::spec_markers(contents)[i0].arg == crate::scan::spec_markers(contents)[
            j0].arg,
        forall|a: int, b: int|
            0 <= a < b < j0 && (#[trigger] crate::scan::spec_markers(contents)[a]).arg.len() > 0
                ==> crate::scan::spec_markers(contents)[a].arg != (
            #[trigger] crate::scan::spec_markers(contents)[b]).arg,
    ensures
        spec_scan_file(path, contents, ex) == Err::<Seq<BlockV>, ErrorV>(
            ErrorV::DuplicateBlockName {
                file: path,
                name: crate::scan::spec_markers(contents)[j0].arg,
                first_line: crate::scan::spec_markers(contents)[i0].line,
                second_line: crate::scan::spec_markers(contents)[j0].line,
            },
        ),
{
    lemma_duplicate_scan(
        path,
        crate::scan::spec_markers(contents),
        0,
        i0,
        j0,
        Seq::empty(),
        Seq::empty(),
        Seq::empty(),
        ex,
    );
}

} // verus!
