//! One contiguous diff region, described as line-level events.
//!
//! A hunk can be consumed two ways, and both are specified here:
//! event-driven (deriving the set of changed new-file lines from the events,
//! see [`Hunk::changed_lines`]) and window-driven (checking a block's line
//! range against the events, see the spec functions used by
//! `OnChangeBlock::is_changed_by_hunk`).

use vstd::prelude::*;

verus! {

/// One line-level event of a diff hunk.
#[derive(Clone, Copy, Debug, PartialEq, Eq, Structural)]
pub enum Line {
    /// Added line number (in the new file).
    Add(u32),
    /// Removed line number (in the old file).
    Remove(u32),
    /// Context line number (old, new).
    Context(u32, u32),
}

/// The bare kind of a diff line, before line numbers are assigned.
#[derive(Clone, Copy, Debug, PartialEq, Eq, Structural)]
pub enum LineKind {
    Add,
    Remove,
    Context,
}

impl View for LineKind {
    type V = LineKind;

    open spec fn view(&self) -> LineKind {
        *self
    }
}

impl DeepView for LineKind {
    type V = LineKind;

    open spec fn deep_view(&self) -> LineKind {
        *self
    }
}

/// One contiguous diff region.
#[derive(Clone, Debug)]
pub struct Hunk {
    /// Start line of this hunk in the new file.
    pub start_line: u32,
    /// End line of this hunk in the new file.
    pub end_line: u32,
    /// Lines that have changed in this hunk.
    pub lines: Vec<Line>,
}

/// The mathematical value of a [`Hunk`].
pub struct HunkV {
    pub start_line: int,
    pub end_line: int,
    pub lines: Seq<Line>,
}

impl View for Hunk {
    type V = HunkV;

    open spec fn view(&self) -> HunkV {
        HunkV {
            start_line: self.start_line as int,
            end_line: self.end_line as int,
            lines: self.lines@,
        }
    }
}

impl DeepView for Hunk {
    type V = HunkV;

    open spec fn deep_view(&self) -> HunkV {
        self@
    }
}

/// Numbered lines for a sequence of diff line kinds: added lines carry the
/// running new-file line, removed lines the running old-file line, context
/// lines both.
pub open spec fn lines_of_kinds(kinds: Seq<LineKind>, old_line: int, new_line: int) -> Seq<Line>
    decreases kinds.len(),
{
    if kinds.len() == 0 {
        Seq::empty()
    } else {
        match kinds[0] {
            LineKind::Add => seq![Line::Add(new_line as u32)] + lines_of_kinds(
                kinds.drop_first(),
                old_line,
                new_line + 1,
            ),
            LineKind::Remove => seq![Line::Remove(old_line as u32)] + lines_of_kinds(
                kinds.drop_first(),
                old_line + 1,
                new_line,
            ),
            LineKind::Context => seq![Line::Context(old_line as u32, new_line as u32)]
                + lines_of_kinds(kinds.drop_first(), old_line + 1, new_line + 1),
        }
    }
}

/// The absolute difference of two integers.
pub open spec fn dist(a: int, b: int) -> int {
    if a >= b {
        a - b
    } else {
        b - a
    }
}

/// The changed new-file lines derived from the events at and after `i`, given
/// the number of added and removed lines seen so far.  An added line is always
/// changed; a context line is changed exactly when its old/new line drift
/// disagrees with the add/remove drift accumulated so far.
pub open spec fn drift_changed_from(lines: Seq<Line>, i: int, added: int, removed: int) -> Seq<u32>
    decreases lines.len() - i when 0 <= i <= lines.len()
{
    if i >= lines.len() {
        Seq::empty()
    } else {
        match lines[i] {
            Line::Add(l) => seq![l] + drift_changed_from(lines, i + 1, added + 1, removed),
            Line::Remove(_) => drift_changed_from(lines, i + 1, added, removed + 1),
            Line::Context(o, n) => {
                if dist(o as int, n as int) == dist(added, removed) {
                    drift_changed_from(lines, i + 1, added, removed)
                } else {
                    seq![n] + drift_changed_from(lines, i + 1, added, removed)
                }
            },
        }
    }
}

/// The changed new-file lines of a whole event sequence.
pub open spec fn spec_changed_lines(lines: Seq<Line>) -> Seq<u32> {
    drift_changed_from(lines, 0, 0, 0)
}

/// Whether some added line falls inside `[start, end]`.
pub open spec fn add_hit(lines: Seq<Line>, start: int, end: int) -> bool {
    exists|k: int|
        0 <= k < lines.len() && (#[trigger] lines[k] matches Line::Add(l) && start <= l <= end)
}

/// The old-file line that the last context event maps to the block start.
pub open spec fn old_start_of(lines: Seq<Line>, start: int) -> Option<u32>
    decreases lines.len(),
{
    if lines.len() == 0 {
        None
    } else if lines.last() matches Line::Context(o, n) && n as int == start {
        Some(lines.last()->Context_0)
    } else {
        old_start_of(lines.drop_last(), start)
    }
}

/// The old-file line that the last context event maps to the block end; a
/// context line equal to the block start is claimed by the start instead.
pub open spec fn old_end_of(lines: Seq<Line>, start: int, end: int) -> Option<u32>
    decreases lines.len(),
{
    if lines.len() == 0 {
        None
    } else if lines.last() matches Line::Context(o, n) && n as int != start && n as int == end {
        Some(lines.last()->Context_0)
    } else {
        old_end_of(lines.drop_last(), start, end)
    }
}

/// Whether a removed old-file line `l` falls inside the old-coordinate span
/// that the recovered block boundaries describe.
pub open spec fn removed_in_span(l: u32, os: Option<u32>, oe: Option<u32>) -> bool {
    match (os, oe) {
        (Some(a), Some(b)) => a <= l && l <= b,
        (Some(a), None) => l >= a,
        (None, Some(b)) => l <= b,
        (None, None) => false,
    }
}

/// Whether some removed event falls inside the recovered old-coordinate span.
pub open spec fn remove_hit(lines: Seq<Line>, start: int, end: int) -> bool {
    exists|k: int|
        0 <= k < lines.len() && (#[trigger] lines[k] matches Line::Remove(l) && removed_in_span(
            l,
            old_start_of(lines, start),
            old_end_of(lines, start, end),
        ))
}

/// Whether the events change a block spanning new-file lines `[start, end]`:
/// either a line was added inside the block, or a line was removed inside the
/// block's old-coordinate span as recovered from context lines.
pub open spec fn spec_changed_by(lines: Seq<Line>, start: int, end: int) -> bool {
    add_hit(lines, start, end) || remove_hit(lines, start, end)
}

/// Whether a hunk's new-file line range and a block's line range coarsely
/// overlap: one contains the other, or they interleave at an edge.
pub open spec fn spec_hunk_overlap(
    hunk_start: int,
    hunk_end: int,
    block_start: int,
    block_end: int,
) -> bool {
    ||| (hunk_start >= block_start && hunk_end <= block_end)
    ||| (block_start >= hunk_start && block_end <= hunk_end)
    ||| (block_start >= hunk_start && hunk_end <= block_end)
    ||| (hunk_start >= block_start && hunk_end >= block_end)
}

impl Hunk {
    /// Assigns line numbers to a sequence of diff line kinds, producing the
    /// hunk for a region with the given old and new start lines and new-file
    /// line count.
    pub fn from_line_kinds(
        old_start: u32,
        new_start: u32,
        new_count: u32,
        kinds: &Vec<LineKind>,
    ) -> (h: Hunk)
        requires
            new_start + new_count >= 1,
            new_start + new_count - 1 <= u32::MAX,
            new_start + kinds@.len() <= u32::MAX,
            old_start + kinds@.len() <= u32::MAX,
        ensures
            h.start_line == new_start,
            h.end_line == new_start + new_count - 1,
            h.lines@ == lines_of_kinds(kinds@, old_start as int, new_start as int),
    {
        let mut lines: Vec<Line> = Vec::new();
        let mut old_line: u32 = old_start;
        let mut new_line: u32 = new_start;
        let mut i: usize = 0;
        proof {
            assert(kinds@.skip(0) =~= kinds@);
            assert(lines@ + lines_of_kinds(kinds@, old_start as int, new_start as int)
                =~= lines_of_kinds(kinds@, old_start as int, new_start as int));
        }
        while i < kinds.len()
            invariant
                0 <= i <= kinds@.len(),
                old_start <= old_line,
                new_start <= new_line,
                old_line - old_start <= i,
                new_line - new_start <= i,
                new_start + kinds@.len() <= u32::MAX,
                old_start + kinds@.len() <= u32::MAX,
                lines_of_kinds(kinds@, old_start as int, new_start as int) == lines@
                    + lines_of_kinds(kinds@.skip(i as int), old_line as int, new_line as int),
            decreases kinds@.len() - i,
        {
            proof {
                assert(kinds@.skip(i as int)[0] == kinds@[i as int]);
                assert(kinds@.skip(i as int).drop_first() =~= kinds@.skip(i as int + 1));
            }
            match kinds[i] {
                LineKind::Add => {
                    lines.push(Line::Add(new_line));
                    new_line = new_line + 1;
                },
                LineKind::Remove => {
                    lines.push(Line::Remove(old_line));
                    old_line = old_line + 1;
                },
                LineKind::Context => {
                    lines.push(Line::Context(old_line, new_line));
                    old_line = old_line + 1;
                    new_line = new_line + 1;
                },
            }
            i = i + 1;
        }
        proof {
            assert(kinds@.skip(i as int).len() == 0);
            assert(lines@ =~= lines_of_kinds(kinds@, old_start as int, new_start as int));
        }
        let end_line: u32 = if new_count == 0 {
            new_start - 1
        } else {
            new_start + (new_count - 1)
        };
        Hunk { start_line: new_start, end_line, lines }
    }

    /// Derives the changed new-file line numbers from this hunk's events by
    /// the drift rule: every added line is changed, and a context line is
    /// changed when its old/new drift disagrees with the adds and removes
    /// seen so far.
    pub fn changed_lines(&self) -> (r: Vec<u32>)
        ensures
            r@ == spec_changed_lines(self.lines@),
    {
        let mut r: Vec<u32> = Vec::new();
        let mut added: u64 = 0;
        let mut removed: u64 = 0;
        let mut i: usize = 0;
        while i < self.lines.len()
            invariant
                0 <= i <= self.lines@.len(),
                added <= i,
                removed <= i,
                spec_changed_lines(self.lines@) == r@ + drift_changed_from(
                    self.lines@,
                    i as int,
                    added as int,
                    removed as int,
                ),
            decreases self.lines@.len() - i,
        {
            match self.lines[i] {
                Line::Add(l) => {
                    r.push(l);
                    added = added + 1;
                },
                Line::Remove(_) => {
                    removed = removed + 1;
                },
                Line::Context(o, n) => {
                    let d1: u64 = if o >= n {
                        (o - n) as u64
                    } else {
                        (n - o) as u64
                    };
                    let d2: u64 = if added >= removed {
                        added - removed
                    } else {
                        removed - added
                    };
                    if d1 != d2 {
                        r.push(n);
                    }
                },
            }
            i = i + 1;
        }
        proof {
            assert(r@ =~= spec_changed_lines(self.lines@));
        }
        r
    }

    /// Whether some changed line of this hunk lies strictly inside
    /// `(start, end)`.
    pub fn is_line_changed_within(&self, start: u32, end: u32) -> (b: bool)
        ensures
            b == exists|k: int|
                0 <= k < spec_changed_lines(self.lines@).len() && start < #[trigger] spec_changed_lines(
                    self.lines@,
                )[k] < end,
    {
        let changed = self.changed_lines();
        let mut i: usize = 0;
        while i < changed.len()
            invariant
                0 <= i <= changed@.len(),
                changed@ == spec_changed_lines(self.lines@),
                forall|k: int| 0 <= k < i ==> !(start < #[trigger] changed@[k] < end),
            decreases changed@.len() - i,
        {
            let line = changed[i];
            if line > start && line < end {
                return true;
            }
            i = i + 1;
        }
        false
    }
}

} // verus!
