//! The block data model and the per-file scan.
//!
//! A file's text is scanned for open/close markers (see [`crate::scan`]);
//! a LIFO stack of in-progress blocks supports nesting, duplicate names are
//! rejected, and every close marker's argument is parsed into the block's
//! declared targets, with target paths resolved against the referencing
//! file's directory and checked against the set of existing files.

use vstd::prelude::*;
use crate::errors::{Error, ErrorV};
use crate::hunk::{Hunk, Line, spec_changed_by, spec_hunk_overlap, old_start_of, old_end_of,
    add_hit, remove_hit, removed_in_span};
use crate::paths::{resolve_target_path, spec_resolve};
use crate::strutil::{chars_of, find_char, find_char_from, spec_split, split_from, spec_trim,
    split_str, trim_str};

verus! {

broadcast use vstd::string::group_string_axioms;

/// A declared target: a whole file, or a named block, optionally in another
/// file (no file means the block's own file).
#[derive(Clone, Debug)]
pub enum ThenChangeTarget {
    File(String),
    Block { block: String, file: Option<String> },
}

/// The mathematical value of a [`ThenChangeTarget`].
pub enum ThenChangeTargetV {
    File(Seq<char>),
    Block { block: Seq<char>, file: Option<Seq<char>> },
}

impl View for ThenChangeTarget {
    type V = ThenChangeTargetV;

    open spec fn view(&self) -> ThenChangeTargetV {
        match self {
            ThenChangeTarget::File(p) => ThenChangeTargetV::File(p@),
            ThenChangeTarget::Block { block, file } => ThenChangeTargetV::Block {
                block: block@,
                file: file.deep_view(),
            },
        }
    }
}

impl DeepView for ThenChangeTarget {
    type V = ThenChangeTargetV;

    open spec fn deep_view(&self) -> ThenChangeTargetV {
        self@
    }
}

/// A block's declared obligation: still being parsed, explicitly none, or a
/// list of targets.
#[derive(Clone, Debug)]
pub enum ThenChange {
    Unset,
    NoTarget,
    /// One or more files and/or blocks.
    Targets(Vec<ThenChangeTarget>),
}

/// The mathematical value of a [`ThenChange`].
pub enum ThenChangeV {
    Unset,
    NoTarget,
    Targets(Seq<ThenChangeTargetV>),
}

impl View for ThenChange {
    type V = ThenChangeV;

    open spec fn view(&self) -> ThenChangeV {
        match self {
            ThenChange::Unset => ThenChangeV::Unset,
            ThenChange::NoTarget => ThenChangeV::NoTarget,
            ThenChange::Targets(ts) => ThenChangeV::Targets(ts.deep_view()),
        }
    }
}

/// A contiguous line range `[start_line, end_line]` of one file, bounded by
/// an open/close marker pair, with the block's declared targets.
#[derive(Clone, Debug)]
pub struct OnChangeBlock {
    file: String,
    // The name is None for an untargetable block.
    name: Option<String>,
    start_line: u32,
    end_line: u32,
    then_change: ThenChange,
}

/// The mathematical value of an [`OnChangeBlock`].
pub struct BlockV {
    pub file: Seq<char>,
    pub name: Option<Seq<char>>,
    pub start_line: int,
    pub end_line: int,
    pub then_change: ThenChangeV,
}

impl View for OnChangeBlock {
    type V = BlockV;

    closed spec fn view(&self) -> BlockV {
        BlockV {
            file: self.file@,
            name: self.name.deep_view(),
            start_line: self.start_line as int,
            end_line: self.end_line as int,
            then_change: self.then_change@,
        }
    }
}

impl DeepView for OnChangeBlock {
    type V = BlockV;

    open spec fn deep_view(&self) -> BlockV {
        self@
    }
}

impl ThenChangeTarget {
    /// The file this target points at, if it names one.
    pub fn file(&self) -> (r: Option<&String>)
        ensures
            r.deep_view() == match self@ {
                ThenChangeTargetV::File(p) => Some(p),
                ThenChangeTargetV::Block { file, .. } => file,
            },
    {
        match self {
            ThenChangeTarget::File(file) => Some(file),
            ThenChangeTarget::Block { file, .. } => file.as_ref(),
        }
    }

    /// The block name this target points at, if it names one.
    pub fn block(&self) -> (r: Option<&String>)
        ensures
            r.deep_view() == match self@ {
                ThenChangeTargetV::File(_) => None::<Seq<char>>,
                ThenChangeTargetV::Block { block, .. } => Some(block),
            },
    {
        match self {
            ThenChangeTarget::File(_) => None,
            ThenChangeTarget::Block { block, .. } => Some(block),
        }
    }
}

/// The name a block is displayed under: its own, or a placeholder for
/// unnamed blocks.
pub open spec fn spec_display_name(name: Option<Seq<char>>) -> Seq<char> {
    match name {
        Some(n) => n,
        None => "<unnamed>"@,
    }
}

/// The key a target resolves to: the target's file (or the owning block's
/// file when unspecified) and the target's block name, if any.
pub open spec fn spec_target_key(t: ThenChangeTargetV, own_file: Seq<char>) -> (
    Seq<char>,
    Option<Seq<char>>,
) {
    match t {
        ThenChangeTargetV::File(p) => (p, None),
        ThenChangeTargetV::Block { block, file } => (
            match file {
                Some(p) => p,
                None => own_file,
            },
            Some(block),
        ),
    }
}

/// The keys of all of a block's declared targets, in declaration order.
pub open spec fn spec_target_keys(b: BlockV) -> Seq<(Seq<char>, Option<Seq<char>>)> {
    match b.then_change {
        ThenChangeV::NoTarget => Seq::empty(),
        ThenChangeV::Unset => Seq::empty(),
        ThenChangeV::Targets(ts) => ts.map_values(|t: ThenChangeTargetV| spec_target_key(t, b.file)),
    }
}

impl OnChangeBlock {
    pub fn new(
        file: String,
        name: Option<String>,
        start_line: u32,
        end_line: u32,
        then_change: ThenChange,
    ) -> (r: Self)
        ensures
            r@ == (BlockV {
                file: file@,
                name: name.deep_view(),
                start_line: start_line as int,
                end_line: end_line as int,
                then_change: then_change@,
            }),
    {
        Self { file, name, start_line, end_line, then_change }
    }

    /// The block's name, or `<unnamed>` for an unnamed block.
    pub fn name(&self) -> (r: &str)
        ensures
            r@ == spec_display_name(self@.name),
    {
        match &self.name {
            Some(n) => n.as_str(),
            None => "<unnamed>",
        }
    }

    /// The path of the file the block lives in.
    pub fn file(&self) -> (r: &String)
        ensures
            r@ == self@.file,
    {
        &self.file
    }

    /// The block's name, if it has one.
    pub fn name_raw(&self) -> (r: Option<&String>)
        ensures
            r.deep_view() == self@.name,
    {
        self.name.as_ref()
    }

    /// Whether the block can be named as a target: exactly the named blocks.
    pub fn is_targetable(&self) -> (r: bool)
        ensures
            r == self@.name is Some,
    {
        self.name.is_some()
    }

    pub fn start_line(&self) -> (r: u32)
        ensures
            r as int == self@.start_line,
    {
        self.start_line
    }

    pub fn end_line(&self) -> (r: u32)
        ensures
            r as int == self@.end_line,
    {
        self.end_line
    }

    pub fn then_change(&self) -> (r: &ThenChange)
        ensures
            r@ == self@.then_change,
    {
        &self.then_change
    }

    /// Fast check to see if a hunk's line range overlaps with this block.
    pub fn is_hunk_overlap(&self, hunk: &Hunk) -> (r: bool)
        ensures
            r == spec_hunk_overlap(
                hunk.start_line as int,
                hunk.end_line as int,
                self@.start_line,
                self@.end_line,
            ),
    {
        // Block contains hunk.
        hunk.start_line >= self.start_line && hunk.end_line <= self.end_line
        // Hunk contains block.
        || self.start_line >= hunk.start_line && self.end_line <= hunk.end_line
        // Hunk starts before block and ends within it.
        || self.start_line >= hunk.start_line && hunk.end_line <= self.end_line
        // Hunk starts after block and ends after it.
        || hunk.start_line >= self.start_line && hunk.end_line >= self.end_line
    }

    /// Whether this block has been changed by the given hunk: a line was
    /// added inside the block, or a line was removed inside the block's
    /// old-coordinate span as recovered from the hunk's context lines.
    #[verifier::loop_isolation(false)]
    pub fn is_changed_by_hunk(&self, hunk: &Hunk) -> (r: bool)
        ensures
            r == spec_changed_by(hunk.lines@, self@.start_line, self@.end_line),
    {
        let lines = &hunk.lines;
        let mut old_start: Option<u32> = None;
        let mut old_end: Option<u32> = None;
        let mut removed: Vec<u32> = Vec::new();
        let mut i: usize = 0;
        proof {
            assert(lines@.take(0) =~= Seq::<Line>::empty());
        }
        while i < lines.len()
            invariant
                0 <= i <= lines@.len(),
                old_start == old_start_of(lines@.take(i as int), self.start_line as int),
                old_end == old_end_of(
                    lines@.take(i as int),
                    self.start_line as int,
                    self.end_line as int,
                ),
                forall|k: int|
                    0 <= k < i ==> !(#[trigger] lines@[k] matches Line::Add(l) && self.start_line
                        <= l <= self.end_line),
                forall|j: int|
                    0 <= j < removed@.len() ==> exists|k: int|
                        0 <= k < i && lines@[k] == Line::Remove(#[trigger] removed@[j]),
                forall|k: int|
                    0 <= k < i ==> (#[trigger] lines@[k] matches Line::Remove(l)
                        ==> removed@.contains(l)),
            decreases lines@.len() - i,
        {
            proof {
                assert(lines@.take(i + 1).drop_last() =~= lines@.take(i as int));
                assert(lines@.take(i + 1).last() == lines@[i as int]);
            }
            match lines[i] {
                Line::Add(l) => {
                    // A line was added inside the block.
                    if l >= self.start_line && l <= self.end_line {
                        return true;
                    }
                },
                Line::Remove(l) => {
                    // Keep track of removed lines to check against the old
                    // block lines.
                    let ghost old_removed = removed@;
                    removed.push(l);
                    proof {
                        assert(removed@.drop_last() =~= old_removed);
                        assert(removed@.last() == l);
                        assert(removed@.contains(l));
                        assert forall|x: u32| old_removed.contains(x) implies removed@.contains(
                            x,
                        ) by {
                            let jx = choose|jx: int|
                                0 <= jx < old_removed.len() && old_removed[jx] == x;
                            assert(removed@[jx] == x);
                        }
                    }
                },
                Line::Context(old, new) => {
                    // A context line coinciding with the block's start or end
                    // recovers that boundary's old-file line number.
                    if self.start_line == new {
                        old_start = Some(old);
                    } else if self.end_line == new {
                        old_end = Some(old);
                    }
                },
            }
            i = i + 1;
        }
        proof {
            assert(lines@.take(lines@.len() as int) =~= lines@);
            assert(!add_hit(lines@, self.start_line as int, self.end_line as int));
        }
        // Check each of the removed lines against the old block start and end
        // lines.  This is how a line removed inside the block is detected.
        let mut j: usize = 0;
        while j < removed.len()
            invariant
                0 <= j <= removed@.len(),
                forall|k: int|
                    0 <= k < j ==> !removed_in_span(#[trigger] removed@[k], old_start, old_end),
            decreases removed@.len() - j,
        {
            let l = removed[j];
            let hit = match (old_start, old_end) {
                (Some(a), Some(b)) => l >= a && l <= b,
                (Some(a), None) => l >= a,
                (None, Some(b)) => l <= b,
                (None, None) => false,
            };
            if hit {
                return true;
            }
            j = j + 1;
        }
        proof {
            if remove_hit(lines@, self.start_line as int, self.end_line as int) {
                let k = choose|k: int|
                    0 <= k < lines@.len() && (#[trigger] lines@[k] matches Line::Remove(l)
                        && removed_in_span(
                        l,
                        old_start_of(lines@, self.start_line as int),
                        old_end_of(lines@, self.start_line as int, self.end_line as int),
                    ));
                let l = lines@[k]->Remove_0;
                assert(removed@.contains(l));
                let jj = choose|jj: int| 0 <= jj < removed@.len() && removed@[jj] == l;
                assert(!removed_in_span(removed@[jj], old_start, old_end));
                assert(false);
            }
        }
        false
    }

    /// The keys of this block's declared targets, as pairs of a file path
    /// and an optional block name; a target with no file of its own gets
    /// this block's file.
    pub fn get_then_change_targets_as_keys(&self) -> (r: Vec<(String, Option<String>)>)
        ensures
            r.deep_view() == spec_target_keys(self@),
    {
        let mut r: Vec<(String, Option<String>)> = Vec::new();
        match &self.then_change {
            ThenChange::NoTarget => {
                proof {
                    assert(r.deep_view() =~= spec_target_keys(self@));
                }
                r
            },
            ThenChange::Unset => {
                proof {
                    assert(r.deep_view() =~= spec_target_keys(self@));
                }
                r
            },
            ThenChange::Targets(ts) => {
                let mut i: usize = 0;
                while i < ts.len()
                    invariant
                        0 <= i <= ts@.len(),
                        r.deep_view() =~= ts.deep_view().take(i as int).map_values(
                            |t: ThenChangeTargetV| spec_target_key(t, self.file@),
                        ),
                    decreases ts@.len() - i,
                {
                    let key = target_key(&ts[i], &self.file);
                    let ghost kv = key.deep_view();
                    let ghost old_r = r.deep_view();
                    r.push(key);
                    proof {
                        assert(ts@[i as int]@ == ts.deep_view()[i as int]);
                        assert(kv == spec_target_key(ts.deep_view()[i as int], self.file@));
                        assert(r.deep_view() =~= old_r.push(kv));
                        assert(r.deep_view() =~= ts.deep_view().take(i + 1).map_values(
                            |t: ThenChangeTargetV| spec_target_key(t, self.file@),
                        ));
                    }
                    i = i + 1;
                }
                proof {
                    assert(ts.deep_view().take(ts@.len() as int) =~= ts.deep_view());
                }
                r
            },
        }
    }
}

/// The key one target contributes, with `own` standing in for a missing file.
fn target_key(t: &ThenChangeTarget, own: &String) -> (r: (String, Option<String>))
    ensures
        r.deep_view() == spec_target_key(t@, own@),
{
    match t {
        ThenChangeTarget::File(p) => (p.clone(), None),
        ThenChangeTarget::Block { block, file } => {
            let f = match file {
                Some(p) => p.clone(),
                None => own.clone(),
            };
            (f, Some(block.clone()))
        },
    }
}

/// Whether `p` is among the existing paths.
pub fn path_in(existing: &Vec<String>, p: &String) -> (b: bool)
    ensures
        b == existing.deep_view().contains(p@),
{
    let mut i: usize = 0;
    while i < existing.len()
        invariant
            0 <= i <= existing@.len(),
            forall|k: int| 0 <= k < i ==> existing.deep_view()[k] != p@,
        decreases existing@.len() - i,
    {
        if existing[i] == *p {
            proof {
                assert(existing.deep_view()[i as int] == p@);
            }
            return true;
        }
        i = i + 1;
    }
    proof {
        assert(forall|k: int| 0 <= k < existing.deep_view().len() ==> existing.deep_view()[k]
            != p@);
    }
    false
}

/// Parsing of one target reference: a reference with no `:` is a whole-file
/// target; `:name` is a block in the referencing file; `file:name` is a
/// block in another file.  File parts are resolved against the referencing
/// file's directory and must name an existing file.
pub open spec fn spec_parse_single_target(
    origin: Seq<char>,
    line: int,
    t: Seq<char>,
    existing: Seq<Seq<char>>,
) -> Result<ThenChangeTargetV, ErrorV> {
    if find_char(t, ':', 0) >= t.len() {
        match spec_resolve(origin, t) {
            None => Err(ErrorV::InvalidTargetFile { file: origin, line, target: t }),
            Some(p) => if existing.contains(p) {
                Ok(ThenChangeTargetV::File(p))
            } else {
                Err(ErrorV::TargetFileDoesNotExist { file: origin, line, target: p })
            },
        }
    } else {
        let parts = spec_split(t, ':');
        let fpart = parts[0];
        let bname = parts[1];
        if fpart.len() == 0 {
            Ok(ThenChangeTargetV::Block { block: bname, file: None })
        } else {
            match spec_resolve(origin, fpart) {
                None => Err(ErrorV::InvalidTargetFile { file: origin, line, target: fpart }),
                Some(p) => if existing.contains(p) {
                    Ok(ThenChangeTargetV::Block { block: bname, file: Some(p) })
                } else {
                    Err(ErrorV::TargetFileDoesNotExist { file: origin, line, target: p })
                },
            }
        }
    }
}

/// Parsing of a list of comma-separated target references, each trimmed;
/// the first failure wins.
pub open spec fn spec_parse_targets(
    origin: Seq<char>,
    line: int,
    pieces: Seq<Seq<char>>,
    existing: Seq<Seq<char>>,
) -> Result<Seq<ThenChangeTargetV>, ErrorV>
    decreases pieces.len(),
{
    if pieces.len() == 0 {
        Ok(Seq::empty())
    } else {
        match spec_parse_single_target(origin, line, spec_trim(pieces[0]), existing) {
            Err(e) => Err(e),
            Ok(t) => match spec_parse_targets(origin, line, pieces.drop_first(), existing) {
                Err(e) => Err(e),
                Ok(ts) => Ok(seq![t] + ts),
            },
        }
    }
}

/// Parsing of a close marker's whole argument: trimmed; empty means no
/// obligation; otherwise a comma-separated list of targets.
pub open spec fn spec_build_then_change(
    origin: Seq<char>,
    line: int,
    arg: Seq<char>,
    existing: Seq<Seq<char>>,
) -> Result<ThenChangeV, ErrorV> {
    let t = spec_trim(arg);
    if t.len() == 0 {
        Ok(ThenChangeV::NoTarget)
    } else {
        match spec_parse_targets(origin, line, spec_split(t, ','), existing) {
            Err(e) => Err(e),
            Ok(ts) => Ok(ThenChangeV::Targets(ts)),
        }
    }
}

proof fn lemma_split_two_pieces(t: Seq<char>, c: char)
    requires
        0 <= find_char(t, c, 0) < t.len(),
    ensures
        spec_split(t, c).len() >= 2,
{
    crate::strutil::lemma_find_char_bounds(t, c, 0);
    let j = find_char(t, c, 0);
    assert(split_from(t, c, j + 1).len() >= 1) by {
        lemma_split_from_nonempty(t, c, j + 1);
    }
}

proof fn lemma_split_from_nonempty(t: Seq<char>, c: char, i: int)
    requires
        0 <= i <= t.len(),
    ensures
        split_from(t, c, i).len() >= 1,
{
    crate::strutil::lemma_find_char_bounds(t, c, i);
}

/// Parses one target reference written at `origin`:`line`.
fn parse_single_then_change_target(
    origin: &str,
    line: u32,
    t: &str,
    existing: &Vec<String>,
) -> (r: Result<ThenChangeTarget, Error>)
    ensures
        match r {
            Ok(tgt) => spec_parse_single_target(origin@, line as int, t@, existing.deep_view())
                == Ok::<ThenChangeTargetV, ErrorV>(tgt@),
            Err(e) => spec_parse_single_target(origin@, line as int, t@, existing.deep_view())
                == Err::<ThenChangeTargetV, ErrorV>(e@),
        },
{
    let tv = chars_of(t);
    let colon = find_char_from(&tv, ':', 0);
    if colon == tv.len() {
        match resolve_target_path(origin, t) {
            None => Err(
                Error::InvalidTargetFile { file: origin.to_owned(), line, target: t.to_owned() },
            ),
            Some(p) => {
                if path_in(existing, &p) {
                    Ok(ThenChangeTarget::File(p))
                } else {
                    Err(Error::TargetFileDoesNotExist { file: origin.to_owned(), line, target: p })
                }
            },
        }
    } else {
        let parts = split_str(t, ':');
        proof {
            lemma_split_two_pieces(t@, ':');
            assert(parts.deep_view().len() == parts@.len());
        }
        let fpart = &parts[0];
        let bname = parts[1].clone();
        proof {
            assert(parts.deep_view()[0] == fpart@);
            assert(parts.deep_view()[1] == bname@);
        }
        if fpart.as_str().is_empty() {
            Ok(ThenChangeTarget::Block { block: bname, file: None })
        } else {
            match resolve_target_path(origin, fpart.as_str()) {
                None => Err(
                    Error::InvalidTargetFile {
                        file: origin.to_owned(),
                        line,
                        target: fpart.clone(),
                    },
                ),
                Some(p) => {
                    if path_in(existing, &p) {
                        Ok(ThenChangeTarget::Block { block: bname, file: Some(p) })
                    } else {
                        Err(
                            Error::TargetFileDoesNotExist {
                                file: origin.to_owned(),
                                line,
                                target: p,
                            },
                        )
                    }
                },
            }
        }
    }
}

/// Parses a close marker's whole argument into the block's obligation.
#[verifier::loop_isolation(false)]
pub(crate) fn build_then_change(
    origin: &str,
    line: u32,
    arg: &str,
    existing: &Vec<String>,
) -> (r: Result<ThenChange, Error>)
    ensures
        match r {
            Ok(tc) => spec_build_then_change(origin@, line as int, arg@, existing.deep_view())
                == Ok::<ThenChangeV, ErrorV>(tc@),
            Err(e) => spec_build_then_change(origin@, line as int, arg@, existing.deep_view())
                == Err::<ThenChangeV, ErrorV>(e@),
        },
{
    let trimmed = trim_str(arg);
    if trimmed.as_str().is_empty() {
        return Ok(ThenChange::NoTarget);
    }
    let pieces = split_str(trimmed.as_str(), ',');
    let ghost piece_views = spec_split(spec_trim(arg@), ',');
    let mut targets: Vec<ThenChangeTarget> = Vec::new();
    let mut k: usize = 0;
    proof {
        assert(piece_views.skip(0) =~= piece_views);
        assert(targets.deep_view() + Seq::<ThenChangeTargetV>::empty() =~= targets.deep_view());
    }
    while k < pieces.len()
        invariant
            0 <= k <= pieces@.len(),
            pieces.deep_view() == piece_views,
            spec_parse_targets(origin@, line as int, piece_views, existing.deep_view())
                == match spec_parse_targets(
                origin@,
                line as int,
                piece_views.skip(k as int),
                existing.deep_view(),
            ) {
                Err(e) => Err::<Seq<ThenChangeTargetV>, ErrorV>(e),
                Ok(ts) => Ok(targets.deep_view() + ts),
            },
        decreases pieces@.len() - k,
    {
        proof {
            assert(piece_views.skip(k as int)[0] == piece_views[k as int]);
            assert(piece_views.skip(k as int).drop_first() =~= piece_views.skip(k + 1));
        }
        let piece = trim_str(pieces[k].as_str());
        match parse_single_then_change_target(origin, line, piece.as_str(), existing) {
            Err(e) => {
                return Err(e);
            },
            Ok(t) => {
                let ghost old_dv = targets.deep_view();
                let ghost tview = t@;
                targets.push(t);
                proof {
                    assert(targets.deep_view() =~= old_dv.push(tview));
                    let rest = spec_parse_targets(
                        origin@,
                        line as int,
                        piece_views.skip(k + 1),
                        existing.deep_view(),
                    );
                    if rest is Ok {
                        assert(old_dv + (seq![tview] + rest->Ok_0) =~= targets.deep_view()
                            + rest->Ok_0);
                    }
                }
            },
        }
        k = k + 1;
    }
    proof {
        assert(piece_views.skip(pieces@.len() as int).len() == 0);
        assert(targets.deep_view() + Seq::<ThenChangeTargetV>::empty() =~= targets.deep_view());
    }
    Ok(ThenChange::Targets(targets))
}


/// An in-progress block: opened, not yet closed.
struct Pending {
    name: Option<String>,
    start_line: u32,
}

/// The mathematical value of a [`Pending`] block.
pub struct PendingV {
    pub name: Option<Seq<char>>,
    pub start_line: int,
}

impl View for Pending {
    type V = PendingV;

    closed spec fn view(&self) -> PendingV {
        PendingV { name: self.name.deep_view(), start_line: self.start_line as int }
    }
}

/// The first line recorded for `name`, if any.
pub open spec fn lookup_seen(seen: Seq<(Seq<char>, int)>, name: Seq<char>) -> Option<int>
    decreases seen.len(),
{
    if seen.len() == 0 {
        None
    } else if seen[0].0 == name {
        Some(seen[0].1)
    } else {
        lookup_seen(seen.drop_first(), name)
    }
}

/// The scan of a marker sequence, from marker `i` on, with the in-progress
/// block stack, the named blocks already opened (each with its first line),
/// and the blocks completed so far.  An open marker with a repeated nonempty
/// name is a duplicate error; a close marker with an empty stack has no
/// matching open; at the end of the markers a nonempty stack means the
/// innermost block was never closed.
pub open spec fn spec_scan_blocks(
    path: Seq<char>,
    ms: Seq<crate::scan::MarkerV>,
    i: int,
    stack: Seq<PendingV>,
    seen: Seq<(Seq<char>, int)>,
    blocks: Seq<BlockV>,
    existing: Seq<Seq<char>>,
) -> Result<Seq<BlockV>, ErrorV>
    decreases ms.len() - i when 0 <= i <= ms.len()
{
    if i >= ms.len() {
        if stack.len() > 0 {
            Err(ErrorV::UnclosedBlock {
                file: path,
                name: stack.last().name,
                start_line: stack.last().start_line,
            })
        } else {
            Ok(blocks)
        }
    } else {
        let m = ms[i];
        if m.open {
            if m.arg.len() > 0 && lookup_seen(seen, m.arg) is Some {
                Err(ErrorV::DuplicateBlockName {
                    file: path,
                    name: m.arg,
                    first_line: lookup_seen(seen, m.arg)->0,
                    second_line: m.line,
                })
            } else {
                let name = if m.arg.len() == 0 {
                    None
                } else {
                    Some(m.arg)
                };
                let seen2 = if m.arg.len() == 0 {
                    seen
                } else {
                    seen.push((m.arg, m.line))
                };
                spec_scan_blocks(
                    path,
                    ms,
                    i + 1,
                    stack.push(PendingV { name, start_line: m.line }),
                    seen2,
                    blocks,
                    existing,
                )
            }
        } else {
            if stack.len() == 0 {
                Err(ErrorV::ThenChangeNoOnChange { file: path, line: m.line })
            } else {
                match spec_build_then_change(path, m.line, m.arg, existing) {
                    Err(e) => Err(e),
                    Ok(tc) => spec_scan_blocks(
                        path,
                        ms,
                        i + 1,
                        stack.drop_last(),
                        seen,
                        blocks.push(
                            BlockV {
                                file: path,
                                name: stack.last().name,
                                start_line: stack.last().start_line,
                                end_line: m.line,
                                then_change: tc,
                            },
                        ),
                        existing,
                    ),
                }
            }
        }
    }
}

/// The scan of a whole file's text into its completed blocks.
pub open spec fn spec_scan_file(
    path: Seq<char>,
    contents: Seq<char>,
    existing: Seq<Seq<char>>,
) -> Result<Seq<BlockV>, ErrorV> {
    spec_scan_blocks(
        path,
        crate::scan::spec_markers(contents),
        0,
        Seq::empty(),
        Seq::empty(),
        Seq::empty(),
        existing,
    )
}

/// The view of the recorded (name, first line) pairs.
pub open spec fn seen_views(seen: Seq<(String, u32)>) -> Seq<(Seq<char>, int)> {
    seen.map_values(|e: (String, u32)| (e.0@, e.1 as int))
}

/// Finds the first line recorded for `name`.
#[verifier::loop_isolation(false)]
fn lookup_name(seen: &Vec<(String, u32)>, name: &String) -> (r: Option<u32>)
    ensures
        match r {
            Some(l) => lookup_seen(seen_views(seen@), name@) == Some(l as int),
            None => lookup_seen(seen_views(seen@), name@) is None,
        },
{
    let ghost sv = seen_views(seen@);
    proof {
        assert(sv.skip(0) =~= sv);
    }
    let mut k: usize = 0;
    while k < seen.len()
        invariant
            0 <= k <= seen@.len(),
            lookup_seen(sv, name@) == lookup_seen(sv.skip(k as int), name@),
        decreases seen@.len() - k,
    {
        proof {
            assert(sv.skip(k as int)[0] == sv[k as int]);
            assert(sv.skip(k as int).drop_first() =~= sv.skip(k + 1));
        }
        if seen[k].0 == *name {
            return Some(seen[k].1);
        }
        k = k + 1;
    }
    proof {
        assert(sv.skip(seen@.len() as int).len() == 0);
    }
    None
}

/// Builds completed blocks from a file's marker sequence.
#[verifier::loop_isolation(false)]
fn scan_blocks(path: &String, markers: &Vec<crate::scan::Marker>, existing: &Vec<String>) -> (r:
    Result<Vec<OnChangeBlock>, Error>)
    ensures
        ({
            let sres = spec_scan_blocks(
                path@,
                markers@.map_values(|m: crate::scan::Marker| m@),
                0,
                Seq::empty(),
                Seq::empty(),
                Seq::empty(),
                existing.deep_view(),
            );
            match r {
                Ok(bs) => sres == Ok::<Seq<BlockV>, ErrorV>(bs.deep_view()),
                Err(e) => sres == Err::<Seq<BlockV>, ErrorV>(e@),
            }
        }),
{
    let ghost ms = markers@.map_values(|m: crate::scan::Marker| m@);
    let ghost goal = spec_scan_blocks(
        path@,
        ms,
        0,
        Seq::empty(),
        Seq::empty(),
        Seq::empty(),
        existing.deep_view(),
    );
    let mut stack: Vec<Pending> = Vec::new();
    let mut seen: Vec<(String, u32)> = Vec::new();
    let mut blocks: Vec<OnChangeBlock> = Vec::new();
    let mut i: usize = 0;
    proof {
        assert(stack@.map_values(|x: Pending| x@) =~= Seq::<PendingV>::empty());
        assert(seen_views(seen@) =~= Seq::<(Seq<char>, int)>::empty());
        assert(blocks.deep_view() =~= Seq::<BlockV>::empty());
    }
    while i < markers.len()
        invariant
            0 <= i <= markers@.len(),
            goal == spec_scan_blocks(
                path@,
                ms,
                i as int,
                stack@.map_values(|x: Pending| x@),
                seen_views(seen@),
                blocks.deep_view(),
                existing.deep_view(),
            ),
        decreases markers@.len() - i,
    {
        let ghost st0 = stack@.map_values(|x: Pending| x@);
        let ghost sn0 = seen_views(seen@);
        let ghost bl0 = blocks.deep_view();
        let m = &markers[i];
        proof {
            assert(ms[i as int] == markers@[i as int]@);
        }
        if m.open {
            let empty_name = m.arg.as_str().is_empty();
            if !empty_name {
                match lookup_name(&seen, &m.arg) {
                    Some(first) => {
                        let e = Error::DuplicateBlockName {
                            file: path.clone(),
                            name: m.arg.clone(),
                            first_line: first,
                            second_line: m.line,
                        };
                        proof {
                            assert(spec_scan_blocks(
                                path@,
                                ms,
                                i as int,
                                st0,
                                sn0,
                                bl0,
                                existing.deep_view(),
                            ) == Err::<Seq<BlockV>, ErrorV>(e@));
                        }
                        return Err(e);
                    },
                    None => {
                        seen.push((m.arg.clone(), m.line));
                        proof {
                            assert(seen_views(seen@) =~= sn0.push(
                                (ms[i as int].arg, ms[i as int].line),
                            ));
                        }
                    },
                }
            }
            let name = if empty_name {
                None
            } else {
                Some(m.arg.clone())
            };
            stack.push(Pending { name, start_line: m.line });
            proof {
                let pv = PendingV {
                    name: if ms[i as int].arg.len() == 0 {
                        None
                    } else {
                        Some(ms[i as int].arg)
                    },
                    start_line: ms[i as int].line,
                };
                assert(stack@.map_values(|x: Pending| x@) =~= st0.push(pv));
                assert(spec_scan_blocks(path@, ms, i as int, st0, sn0, bl0, existing.deep_view())
                    == spec_scan_blocks(
                    path@,
                    ms,
                    i + 1,
                    stack@.map_values(|x: Pending| x@),
                    seen_views(seen@),
                    bl0,
                    existing.deep_view(),
                ));
            }
        } else {
            let top = match stack.pop() {
                None => {
                    let e = Error::ThenChangeNoOnChange { file: path.clone(), line: m.line };
                    proof {
                        assert(st0.len() == 0);
                        assert(spec_scan_blocks(
                            path@,
                            ms,
                            i as int,
                            st0,
                            sn0,
                            bl0,
                            existing.deep_view(),
                        ) == Err::<Seq<BlockV>, ErrorV>(e@));
                    }
                    return Err(e);
                },
                Some(top) => top,
            };
            proof {
                assert(st0.len() == stack@.len() + 1);
                assert(st0.last() == top@);
                assert(st0.drop_last() =~= stack@.map_values(|x: Pending| x@));
            }
            match build_then_change(path.as_str(), m.line, m.arg.as_str(), existing) {
                Err(e) => {
                    proof {
                        assert(spec_scan_blocks(
                            path@,
                            ms,
                            i as int,
                            st0,
                            sn0,
                            bl0,
                            existing.deep_view(),
                        ) == Err::<Seq<BlockV>, ErrorV>(e@));
                    }
                    return Err(e);
                },
                Ok(tc) => {
                    let ghost tcv = tc@;
                    let ghost topv = top@;
                    let block = OnChangeBlock::new(
                        path.clone(),
                        top.name,
                        top.start_line,
                        m.line,
                        tc,
                    );
                    blocks.push(block);
                    proof {
                        let bv = BlockV {
                            file: path@,
                            name: topv.name,
                            start_line: topv.start_line,
                            end_line: ms[i as int].line,
                            then_change: tcv,
                        };
                        assert(blocks.deep_view() =~= bl0.push(bv));
                        assert(spec_scan_blocks(
                            path@,
                            ms,
                            i as int,
                            st0,
                            sn0,
                            bl0,
                            existing.deep_view(),
                        ) == spec_scan_blocks(
                            path@,
                            ms,
                            i + 1,
                            stack@.map_values(|x: Pending| x@),
                            sn0,
                            blocks.deep_view(),
                            existing.deep_view(),
                        ));
                    }
                },
            }
        }
        i = i + 1;
    }
    if stack.len() > 0 {
        let last = &stack[stack.len() - 1];
        proof {
            let st = stack@.map_values(|x: Pending| x@);
            assert(st.len() == stack@.len());
            assert(st.last() == stack@[stack@.len() - 1]@);
        }
        return Err(
            Error::UnclosedBlock {
                file: path.clone(),
                name: last.name.clone(),
                start_line: last.start_line,
            },
        );
    }
    proof {
        assert(stack@.map_values(|x: Pending| x@).len() == 0);
    }
    Ok(blocks)
}


impl ThenChangeTarget {
    /// A copy with the same value.
    pub fn duplicate(&self) -> (r: Self)
        ensures
            r@ == self@,
    {
        match self {
            ThenChangeTarget::File(p) => ThenChangeTarget::File(p.clone()),
            ThenChangeTarget::Block { block, file } => ThenChangeTarget::Block {
                block: block.clone(),
                file: match file {
                    Some(p) => Some(p.clone()),
                    None => None,
                },
            },
        }
    }
}

impl ThenChange {
    /// A copy with the same value.
    pub fn duplicate(&self) -> (r: Self)
        ensures
            r@ == self@,
    {
        match self {
            ThenChange::Unset => ThenChange::Unset,
            ThenChange::NoTarget => ThenChange::NoTarget,
            ThenChange::Targets(ts) => {
                let mut out: Vec<ThenChangeTarget> = Vec::new();
                let mut k: usize = 0;
                proof {
                    assert(out.deep_view() =~= ts.deep_view().take(0));
                }
                while k < ts.len()
                    invariant
                        0 <= k <= ts@.len(),
                        out.deep_view() == ts.deep_view().take(k as int),
                    decreases ts@.len() - k,
                {
                    let t = ts[k].duplicate();
                    let ghost tv = t@;
                    let ghost old_dv = out.deep_view();
                    out.push(t);
                    proof {
                        assert(ts.deep_view()[k as int] == ts@[k as int]@);
                        assert(out.deep_view() =~= old_dv.push(tv));
                        assert(out.deep_view() =~= ts.deep_view().take(k + 1));
                    }
                    k = k + 1;
                }
                proof {
                    assert(ts.deep_view().take(ts@.len() as int) =~= ts.deep_view());
                }
                ThenChange::Targets(out)
            },
        }
    }
}

impl OnChangeBlock {
    /// A copy with the same value.
    pub fn duplicate(&self) -> (r: Self)
        ensures
            r@ == self@,
    {
        OnChangeBlock {
            file: self.file.clone(),
            name: match &self.name {
                Some(n) => Some(n.clone()),
                None => None,
            },
            start_line: self.start_line,
            end_line: self.end_line,
            then_change: self.then_change.duplicate(),
        }
    }
}

/// One scanned file: its path relative to the scan root, and its completed
/// blocks in source order.
#[derive(Debug)]
pub struct File {
    pub(crate) path: String,
    pub(crate) blocks: Vec<OnChangeBlock>,
}

/// The mathematical value of a [`File`].
pub struct FileV {
    pub path: Seq<char>,
    pub blocks: Seq<BlockV>,
}

impl View for File {
    type V = FileV;

    closed spec fn view(&self) -> FileV {
        FileV { path: self.path@, blocks: self.blocks.deep_view() }
    }
}

/// Whether some hunk both coarsely overlaps the block's line range and
/// changes the block.
pub open spec fn spec_block_changed(b: BlockV, hunks: Seq<crate::hunk::HunkV>) -> bool {
    exists|k: int|
        0 <= k < hunks.len() && spec_hunk_overlap(
            (#[trigger] hunks[k]).start_line,
            hunks[k].end_line,
            b.start_line,
            b.end_line,
        ) && spec_changed_by(hunks[k].lines, b.start_line, b.end_line)
}

/// The blocks changed by some hunk, kept in order.
pub open spec fn spec_filter_changed(bs: Seq<BlockV>, hunks: Seq<crate::hunk::HunkV>) -> Seq<
    BlockV,
>
    decreases bs.len(),
{
    if bs.len() == 0 {
        Seq::empty()
    } else {
        let rest = spec_filter_changed(bs.drop_last(), hunks);
        if spec_block_changed(bs.last(), hunks) {
            rest.push(bs.last())
        } else {
            rest
        }
    }
}

/// The file a target points at, if it names one itself.
pub open spec fn target_file_of(t: ThenChangeTargetV) -> Option<Seq<char>> {
    match t {
        ThenChangeTargetV::File(p) => Some(p),
        ThenChangeTargetV::Block { file, .. } => file,
    }
}

/// Whether block `b` declares a target in file `p`.
pub open spec fn spec_block_refs(b: BlockV, p: Seq<char>) -> bool {
    b.then_change matches ThenChangeV::Targets(ts) && exists|k: int|
        0 <= k < ts.len() && target_file_of(#[trigger] ts[k]) == Some(p)
}

/// Whether some block of `bs` declares a target in file `p`.
pub open spec fn spec_blocks_ref(bs: Seq<BlockV>, p: Seq<char>) -> bool {
    exists|j: int| 0 <= j < bs.len() && spec_block_refs(#[trigger] bs[j], p)
}

proof fn lemma_push_contains(s: Seq<Seq<char>>, x: Seq<char>, p: Seq<char>)
    ensures
        s.push(x).contains(p) <==> (s.contains(p) || p == x),
{
    if s.push(x).contains(p) {
        let j = choose|j: int| 0 <= j < s.push(x).len() && s.push(x)[j] == p;
        if j < s.len() {
            assert(s[j] == p);
        }
    }
    if s.contains(p) {
        let j = choose|j: int| 0 <= j < s.len() && s[j] == p;
        assert(s.push(x)[j] == p);
    }
    if p == x {
        assert(s.push(x)[s.len() as int] == p);
    }
}

proof fn lemma_push_distinct(s: Seq<Seq<char>>, x: Seq<char>)
    requires
        s.no_duplicates(),
        !s.contains(x),
    ensures
        s.push(x).no_duplicates(),
{
    assert forall|i: int, j: int|
        0 <= i < j < s.push(x).len() implies s.push(x)[i] != s.push(x)[j] by {
        if j < s.len() {
            assert(s[i] != s[j]);
        } else {
            if s[i] == x {
                assert(s.contains(x));
            }
        }
    }
}

/// Whether some hunk of `hunks` overlaps and changes the block.
pub(crate) fn block_changed_by_any(b: &OnChangeBlock, hunks: &Vec<Hunk>) -> (r: bool)
    ensures
        r == spec_block_changed(b@, hunks.deep_view()),
{
    let mut k: usize = 0;
    while k < hunks.len()
        invariant
            0 <= k <= hunks@.len(),
            forall|j: int|
                0 <= j < k ==> !(spec_hunk_overlap(
                    (#[trigger] hunks.deep_view()[j]).start_line,
                    hunks.deep_view()[j].end_line,
                    b@.start_line,
                    b@.end_line,
                ) && spec_changed_by(hunks.deep_view()[j].lines, b@.start_line, b@.end_line)),
        decreases hunks@.len() - k,
    {
        let h = &hunks[k];
        proof {
            assert(hunks.deep_view()[k as int] == hunks@[k as int]@);
        }
        if b.is_hunk_overlap(h) && b.is_changed_by_hunk(h) {
            return true;
        }
        k = k + 1;
    }
    false
}

/// Keeps only the blocks that some hunk has changed.
#[verifier::loop_isolation(false)]
fn filter_unchanged_blocks(blocks: Vec<OnChangeBlock>, hunks: &Vec<Hunk>) -> (r: Vec<
    OnChangeBlock,
>)
    ensures
        r.deep_view() == spec_filter_changed(blocks.deep_view(), hunks.deep_view()),
{
    let mut out: Vec<OnChangeBlock> = Vec::new();
    let mut i: usize = 0;
    proof {
        assert(blocks.deep_view().take(0) =~= Seq::<BlockV>::empty());
        assert(out.deep_view() =~= Seq::<BlockV>::empty());
    }
    while i < blocks.len()
        invariant
            0 <= i <= blocks@.len(),
            out.deep_view() == spec_filter_changed(
                blocks.deep_view().take(i as int),
                hunks.deep_view(),
            ),
        decreases blocks@.len() - i,
    {
        let ghost out0 = out.deep_view();
        proof {
            assert(blocks.deep_view().take(i + 1).drop_last() =~= blocks.deep_view().take(
                i as int,
            ));
            assert(blocks.deep_view().take(i + 1).last() == blocks.deep_view()[i as int]);
            assert(blocks.deep_view()[i as int] == blocks@[i as int]@);
        }
        let b = &blocks[i];
        if block_changed_by_any(b, hunks) {
            let owned = b.duplicate();
            out.push(owned);
            proof {
                assert(out.deep_view() =~= out0.push(blocks.deep_view()[i as int]));
            }
        }
        i = i + 1;
    }
    proof {
        assert(blocks.deep_view().take(blocks@.len() as int) =~= blocks.deep_view());
    }
    out
}

/// Collects, without duplicates, the files that the blocks' targets name.
#[verifier::loop_isolation(false)]
fn collect_refs(blocks: &Vec<OnChangeBlock>) -> (r: Vec<String>)
    ensures
        r.deep_view().no_duplicates(),
        forall|p: Seq<char>|
            #![trigger r.deep_view().contains(p)]
            #![trigger spec_blocks_ref(blocks.deep_view(), p)]
            r.deep_view().contains(p) <==> spec_blocks_ref(blocks.deep_view(), p),
{
    let ghost bvs = blocks.deep_view();
    let mut r: Vec<String> = Vec::new();
    let mut i: usize = 0;
    proof {
        assert(r.deep_view() =~= Seq::<Seq<char>>::empty());
    }
    while i < blocks.len()
        invariant
            0 <= i <= blocks@.len(),
            r.deep_view().no_duplicates(),
            forall|p: Seq<char>|
                #![trigger r.deep_view().contains(p)]
                r.deep_view().contains(p) <==> spec_blocks_ref(bvs.take(i as int), p),
        decreases blocks@.len() - i,
    {
        proof {
            assert(bvs[i as int] == blocks@[i as int]@);
        }
        let b = &blocks[i];
        match b.then_change() {
            ThenChange::NoTarget => {},
            ThenChange::Unset => {},
            ThenChange::Targets(ts) => {
                let ghost tvs = bvs[i as int].then_change->Targets_0;
                proof {
                    assert(tvs == ts.deep_view());
                }
                let mut k: usize = 0;
                while k < ts.len()
                    invariant
                        0 <= k <= ts@.len(),
                        tvs == ts.deep_view(),
                        bvs[i as int].then_change == ThenChangeV::Targets(tvs),
                        r.deep_view().no_duplicates(),
                        forall|p: Seq<char>|
                            #![trigger r.deep_view().contains(p)]
                            r.deep_view().contains(p) <==> (spec_blocks_ref(bvs.take(i as int), p)
                                || exists|k2: int|
                                0 <= k2 < k && target_file_of(#[trigger] tvs[k2]) == Some(p)),
                    decreases ts@.len() - k,
                {
                    proof {
                        assert(tvs[k as int] == ts@[k as int]@);
                    }
                    let t = &ts[k];
                    match t.file() {
                        None => {},
                        Some(pf) => {
                            if !path_in(&r, pf) {
                                let ghost r0 = r.deep_view();
                                r.push(pf.clone());
                                proof {
                                    assert(r.deep_view() =~= r0.push(pf@));
                                    lemma_push_distinct(r0, pf@);
                                    assert forall|p: Seq<char>|
                                        true implies (#[trigger] r.deep_view().contains(p) <==> (
                                    spec_blocks_ref(bvs.take(i as int), p) || exists|k2: int|
                                        0 <= k2 < k + 1 && target_file_of(#[trigger] tvs[k2])
                                            == Some(p))) by {
                                        lemma_push_contains(r0, pf@, p);
                                        if p == pf@ {
                                            assert(target_file_of(tvs[k as int]) == Some(p));
                                        }
                                    }
                                }
                            } else {
                                proof {
                                    assert forall|p: Seq<char>|
                                        true implies (#[trigger] r.deep_view().contains(p) <==> (
                                    spec_blocks_ref(bvs.take(i as int), p) || exists|k2: int|
                                        0 <= k2 < k + 1 && target_file_of(#[trigger] tvs[k2])
                                            == Some(p))) by {
                                        if p == pf@ {
                                            assert(r.deep_view().contains(p));
                                            assert(target_file_of(tvs[k as int]) == Some(p));
                                        }
                                    }
                                }
                            }
                        },
                    }
                    k = k + 1;
                }
                proof {
                    assert forall|p: Seq<char>|
                        true implies (#[trigger] r.deep_view().contains(p) <==> spec_blocks_ref(
                        bvs.take(i + 1),
                        p,
                    )) by {
                        assert(bvs.take(i + 1).drop_last() =~= bvs.take(i as int));
                        assert(bvs.take(i + 1)[i as int] == bvs[i as int]);
                        if spec_blocks_ref(bvs.take(i + 1), p) {
                            let j = choose|j: int|
                                0 <= j < bvs.take(i + 1).len() && spec_block_refs(
                                    #[trigger] bvs.take(i + 1)[j],
                                    p,
                                );
                            if j < i {
                                assert(bvs.take(i as int)[j] == bvs.take(i + 1)[j]);
                                assert(spec_blocks_ref(bvs.take(i as int), p));
                            } else {
                                assert(spec_block_refs(bvs[i as int], p));
                            }
                        }
                        if r.deep_view().contains(p) {
                            if spec_blocks_ref(bvs.take(i as int), p) {
                                let j = choose|j: int|
                                    0 <= j < bvs.take(i as int).len() && spec_block_refs(
                                        #[trigger] bvs.take(i as int)[j],
                                        p,
                                    );
                                assert(bvs.take(i + 1)[j] == bvs.take(i as int)[j]);
                                assert(spec_blocks_ref(bvs.take(i + 1), p));
                            } else {
                                assert(spec_block_refs(bvs[i as int], p));
                                assert(spec_blocks_ref(bvs.take(i + 1), p));
                            }
                        }
                    }
                }
            },
        }
        i = i + 1;
    }
    proof {
        assert(bvs.take(blocks@.len() as int) =~= bvs);
    }
    r
}


impl File {
    /// The file's path relative to the scan root.
    pub fn path(&self) -> (r: &String)
        ensures
            r@ == self@.path,
    {
        &self.path
    }

    /// The file's completed blocks, in source order.
    pub fn blocks(&self) -> (r: &Vec<OnChangeBlock>)
        ensures
            r.deep_view() == self@.blocks,
    {
        &self.blocks
    }

    /// Scans one file's text into its completed blocks and the set of files
    /// its targets name.  `existing` is the set of files that exist under the
    /// scan root, used to check every resolved target path.  When `hunks` is
    /// given, only the blocks changed by some hunk are kept.
    pub fn parse(path: String, contents: &str, existing: &Vec<String>, hunks: Option<
        &Vec<Hunk>,
    >) -> (r: Result<(File, Vec<String>), Error>)
        requires
            contents@.len() < u32::MAX,
        ensures
            match r {
                Err(e) => spec_scan_file(path@, contents@, existing.deep_view())
                    == Err::<Seq<BlockV>, ErrorV>(e@),
                Ok(fr) => {
                    &&& spec_scan_file(path@, contents@, existing.deep_view()) matches Ok(bs)
                    &&& fr.0@.path == path@
                    &&& fr.0@.blocks == (match hunks {
                        None => bs,
                        Some(hs) => spec_filter_changed(bs, hs.deep_view()),
                    })
                    &&& fr.1.deep_view().no_duplicates()
                    &&& forall|p: Seq<char>|
                        #![trigger fr.1.deep_view().contains(p)]
                        #![trigger spec_blocks_ref(fr.0@.blocks, p)]
                        fr.1.deep_view().contains(p) <==> spec_blocks_ref(fr.0@.blocks, p)
                },
            },
    {
        let markers = crate::scan::find_markers(contents);
        let blocks = match scan_blocks(&path, &markers, existing) {
            Err(e) => {
                return Err(e);
            },
            Ok(blocks) => blocks,
        };
        let blocks = match hunks {
            None => blocks,
            Some(hs) => filter_unchanged_blocks(blocks, hs),
        };
        let refs = collect_refs(&blocks);
        Ok((File { path, blocks }, refs))
    }
}

} // verus!
