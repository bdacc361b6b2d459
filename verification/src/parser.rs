//! The file graph: scanning a working set of files to closure, static
//! validation that every declared target exists, lookup of blocks by file
//! and name, and the check of staged changes against the graph.
//!
//! All file contents are handed in by the caller as an in-memory store of
//! the files that exist under the scan root; [`Parser::from_files`] follows
//! target references through that store until the working set closes.

use vstd::prelude::*;
use crate::errors::{Error, ErrorV};
use crate::file::{BlockV, File, FileV, OnChangeBlock, ThenChange, ThenChangeTarget,
    ThenChangeTargetV, ThenChangeV, path_in, spec_blocks_ref, spec_scan_file};
use crate::paths::{join_path, spec_join};
use crate::strutil::eq_strings;

verus! {

broadcast use vstd::string::group_string_axioms;

/// The index of the first file with path `p`, if any.
pub open spec fn spec_lookup_file(fs: Seq<FileV>, p: Seq<char>) -> Option<int>
    decreases fs.len(),
{
    if fs.len() == 0 {
        None
    } else if fs[0].path == p {
        Some(0int)
    } else {
        match spec_lookup_file(fs.drop_first(), p) {
            None => None,
            Some(i) => Some(i + 1),
        }
    }
}

pub proof fn lemma_lookup_file(fs: Seq<FileV>, p: Seq<char>)
    ensures
        match spec_lookup_file(fs, p) {
            Some(i) => 0 <= i < fs.len() && fs[i].path == p,
            None => forall|i: int| 0 <= i < fs.len() ==> (#[trigger] fs[i]).path != p,
        },
    decreases fs.len(),
{
    if fs.len() > 0 {
        lemma_lookup_file(fs.drop_first(), p);
        assert forall|i: int| 1 <= i < fs.len() implies fs[i] == fs.drop_first()[i - 1] by {}
    }
}

/// Whether some scanned file has path `p`.
pub open spec fn spec_has_file(fs: Seq<FileV>, p: Seq<char>) -> bool {
    exists|i: int| 0 <= i < fs.len() && (#[trigger] fs[i]).path == p
}

/// Whether some scanned file at path `file` holds a targetable (named) block
/// called `name`.
pub open spec fn spec_has_block(fs: Seq<FileV>, file: Seq<char>, name: Seq<char>) -> bool {
    exists|i: int, k: int|
        0 <= i < fs.len() && 0 <= k < fs[i].blocks.len() && (#[trigger] fs[i]).path == file && (
        #[trigger] fs[i].blocks[k]).name == Some(name)
}

/// Validation of one declared target of block `b` in file `path`: a file
/// target must name a scanned file; a block target must name a targetable
/// block of its file (the block's own file when unspecified).
pub open spec fn spec_validate_target(
    fs: Seq<FileV>,
    path: Seq<char>,
    b: BlockV,
    t: ThenChangeTargetV,
) -> Option<ErrorV> {
    match t {
        ThenChangeTargetV::File(f) => {
            if spec_has_file(fs, f) {
                None
            } else {
                Some(
                    ErrorV::NonExistentFileTarget {
                        file: path,
                        name: b.name,
                        end_line: b.end_line,
                        target: f,
                    },
                )
            }
        },
        ThenChangeTargetV::Block { block, file } => {
            let f = match file {
                Some(f) => f,
                None => path,
            };
            if spec_has_block(fs, f, block) {
                None
            } else {
                Some(
                    ErrorV::NonExistentBlockTarget {
                        file: path,
                        name: b.name,
                        end_line: b.end_line,
                        target_file: f,
                        target_block: block,
                    },
                )
            }
        },
    }
}

/// The first failing target of a list, if any.
pub open spec fn spec_validate_targets(
    fs: Seq<FileV>,
    path: Seq<char>,
    b: BlockV,
    ts: Seq<ThenChangeTargetV>,
) -> Option<ErrorV>
    decreases ts.len(),
{
    if ts.len() == 0 {
        None
    } else {
        match spec_validate_target(fs, path, b, ts[0]) {
            Some(e) => Some(e),
            None => spec_validate_targets(fs, path, b, ts.drop_first()),
        }
    }
}

/// Validation of one block: no obligation passes; an unset obligation is an
/// internal fault; each declared target must exist.
pub open spec fn spec_validate_block(fs: Seq<FileV>, path: Seq<char>, b: BlockV) -> Option<
    ErrorV,
> {
    match b.then_change {
        ThenChangeV::NoTarget => None,
        ThenChangeV::Unset => Some(
            ErrorV::UnsetTarget { file: path, name: b.name, end_line: b.end_line },
        ),
        ThenChangeV::Targets(ts) => spec_validate_targets(fs, path, b, ts),
    }
}

/// The first failing block of a file, if any.
pub open spec fn spec_validate_blocks(fs: Seq<FileV>, path: Seq<char>, bs: Seq<BlockV>) -> Option<
    ErrorV,
>
    decreases bs.len(),
{
    if bs.len() == 0 {
        None
    } else {
        match spec_validate_block(fs, path, bs[0]) {
            Some(e) => Some(e),
            None => spec_validate_blocks(fs, path, bs.drop_first()),
        }
    }
}

/// The first failing file of a list, checked against the whole set `fs`.
pub open spec fn spec_validate_files(fs: Seq<FileV>, rest: Seq<FileV>) -> Option<ErrorV>
    decreases rest.len(),
{
    if rest.len() == 0 {
        None
    } else {
        match spec_validate_blocks(fs, rest[0].path, rest[0].blocks) {
            Some(e) => Some(e),
            None => spec_validate_files(fs, rest.drop_first()),
        }
    }
}

/// Static validation of the whole scanned set: the first block whose
/// declared target does not exist, if any.
pub open spec fn spec_validate(fs: Seq<FileV>) -> Option<ErrorV> {
    spec_validate_files(fs, fs)
}

/// Whether the scanned set is structurally consistent: no block target
/// dangles and every block was closed.
pub open spec fn spec_graph_valid(fs: Seq<FileV>) -> bool {
    spec_validate(fs) is None
}

/// Whether some scanned file's blocks declare a target in file `q`.
pub open spec fn spec_some_file_refs(fs: Seq<FileV>, q: Seq<char>) -> bool {
    exists|j: int| 0 <= j < fs.len() && #[trigger] spec_blocks_ref(fs[j].blocks, q)
}

/// A scanned file set that faithfully covers a store from the named seed
/// paths: paths are pairwise distinct, every file's blocks are exactly the
/// scan of its stored contents, every seed is scanned, every file named by a
/// scanned block's targets is scanned, and every scanned file is a seed or
/// named by some scanned block's targets.
pub open spec fn spec_closed_files(
    sv: Seq<(Seq<char>, Seq<char>)>,
    seeds: Seq<Seq<char>>,
    fs: Seq<FileV>,
) -> bool {
    &&& spec_paths_distinct(fs)
    &&& forall|i: int|
        0 <= i < fs.len() ==> spec_scan_of_store(sv, store_paths(sv), (#[trigger] fs[i]).path)
            == Some(Ok::<Seq<BlockV>, ErrorV>(fs[i].blocks))
    &&& forall|k: int| 0 <= k < seeds.len() ==> spec_has_file(fs, #[trigger] seeds[k])
    &&& forall|i: int, q: Seq<char>|
        0 <= i < fs.len() && #[trigger] spec_blocks_ref(fs[i].blocks, q) ==> spec_has_file(
            fs,
            q,
        )
    &&& forall|i: int|
        0 <= i < fs.len() ==> seeds.contains((#[trigger] fs[i]).path) || spec_some_file_refs(
            fs,
            fs[i].path,
        )
}

/// The views of a scanned file list.
pub open spec fn file_views(files: Seq<File>) -> Seq<FileV> {
    files.map_values(|f: File| f@)
}

/// Whether some scanned path equals `p`.
#[verifier::loop_isolation(false)]
fn has_file(files: &Vec<File>, p: &String) -> (r: bool)
    ensures
        r == spec_has_file(file_views(files@), p@),
{
    let ghost fvs = file_views(files@);
    let mut i: usize = 0;
    while i < files.len()
        invariant
            0 <= i <= files@.len(),
            forall|k: int| 0 <= k < i ==> (#[trigger] file_views(files@)[k]).path != p@,
        decreases files@.len() - i,
    {
        proof {
            assert(file_views(files@)[i as int] == files@[i as int]@);
        }
        if eq_strings(files[i].path(), p) {
            return true;
        }
        i = i + 1;
    }
    false
}

/// Finds the first scanned file with path `p`.
#[verifier::loop_isolation(false)]
fn lookup_file<'a>(files: &'a Vec<File>, p: &String) -> (r: Option<&'a File>)
    ensures
        match r {
            Some(f) => spec_lookup_file(file_views(files@), p@) matches Some(i) && f@
                == file_views(files@)[i],
            None => spec_lookup_file(file_views(files@), p@) is None,
        },
{
    let ghost fvs = file_views(files@);
    proof {
        assert(fvs.skip(0) =~= fvs);
        lemma_lookup_file(fvs, p@);
    }
    let mut i: usize = 0;
    while i < files.len()
        invariant
            0 <= i <= files@.len(),
            spec_lookup_file(fvs, p@) matches Some(j) ==> j >= i && spec_lookup_file(
                fvs.skip(i as int),
                p@,
            ) == Some(j - i),
            spec_lookup_file(fvs, p@) is None ==> spec_lookup_file(fvs.skip(i as int), p@)
                is None,
            spec_lookup_file(fvs.skip(i as int), p@) is Some ==> spec_lookup_file(fvs, p@)
                is Some,
        decreases files@.len() - i,
    {
        proof {
            assert(fvs.skip(i as int)[0] == fvs[i as int]);
            assert(fvs.skip(i as int).drop_first() =~= fvs.skip(i + 1));
            assert(fvs[i as int] == files@[i as int]@);
        }
        if eq_strings(files[i].path(), p) {
            proof {
                assert(spec_lookup_file(fvs.skip(i as int), p@) == Some(0int));
            }
            return Some(&files[i]);
        }
        proof {
            assert(fvs.skip(i as int)[0].path != p@);
            assert(spec_lookup_file(fvs.skip(i as int), p@) == (
            match spec_lookup_file(fvs.skip(i + 1), p@) {
                None => None::<int>,
                Some(x) => Some(x + 1),
            }));
        }
        i = i + 1;
    }
    proof {
        assert(fvs.skip(files@.len() as int).len() == 0);
    }
    None
}

/// Whether a targetable (named) block `name` exists in the scanned file at
/// `file`.
#[verifier::loop_isolation(false)]
fn has_block(files: &Vec<File>, file: &String, name: &String) -> (r: bool)
    ensures
        r == spec_has_block(file_views(files@), file@, name@),
{
    let ghost fvs = file_views(files@);
    let mut i: usize = 0;
    while i < files.len()
        invariant
            0 <= i <= files@.len(),
            forall|i2: int, k2: int|
                0 <= i2 < i && 0 <= k2 < fvs[i2].blocks.len() ==> !((#[trigger] fvs[i2]).path
                    == file@ && (#[trigger] fvs[i2].blocks[k2]).name == Some(name@)),
        decreases files@.len() - i,
    {
        proof {
            assert(fvs[i as int] == files@[i as int]@);
        }
        let f = &files[i];
        if eq_strings(f.path(), file) {
            let blocks = f.blocks();
            let mut k: usize = 0;
            while k < blocks.len()
                invariant
                    0 <= k <= blocks@.len(),
                    blocks.deep_view() == fvs[i as int].blocks,
                    fvs[i as int].path == file@,
                    fvs[i as int] == files@[i as int]@,
                    0 <= i < fvs.len(),
                    forall|k2: int|
                        0 <= k2 < k ==> (#[trigger] fvs[i as int].blocks[k2]).name
                            != Some(name@),
                decreases blocks@.len() - k,
            {
                proof {
                    assert(fvs[i as int].blocks[k as int] == blocks@[k as int]@);
                }
                match blocks[k].name_raw() {
                    Some(n) => {
                        if eq_strings(n, name) {
                            return true;
                        }
                    },
                    None => {},
                }
                k = k + 1;
            }
        }
        i = i + 1;
    }
    proof {
        if spec_has_block(fvs, file@, name@) {
            let (i2, k2) = choose|i2: int, k2: int|
                0 <= i2 < fvs.len() && 0 <= k2 < fvs[i2].blocks.len()
                    && (#[trigger] fvs[i2]).path == file@
                    && (#[trigger] fvs[i2].blocks[k2]).name == Some(name@);
            assert(false);
        }
    }
    false
}

/// Checks one declared target of `b` against the scanned set.
fn validate_target(
    files: &Vec<File>,
    path: &String,
    b: &OnChangeBlock,
    t: &ThenChangeTarget,
) -> (r: Option<Error>)
    ensures
        match r {
            Some(e) => spec_validate_target(file_views(files@), path@, b@, t@) == Some(e@),
            None => spec_validate_target(file_views(files@), path@, b@, t@) is None,
        },
{
    match t {
        ThenChangeTarget::File(f) => {
            if has_file(files, f) {
                None
            } else {
                Some(
                    Error::NonExistentFileTarget {
                        file: path.clone(),
                        name: match b.name_raw() {
                            Some(n) => Some(n.clone()),
                            None => None,
                        },
                        end_line: b.end_line(),
                        target: f.clone(),
                    },
                )
            }
        },
        ThenChangeTarget::Block { block, file } => {
            let f: &String = match file {
                Some(f) => f,
                None => path,
            };
            if has_block(files, f, block) {
                None
            } else {
                Some(
                    Error::NonExistentBlockTarget {
                        file: path.clone(),
                        name: match b.name_raw() {
                            Some(n) => Some(n.clone()),
                            None => None,
                        },
                        end_line: b.end_line(),
                        target_file: f.clone(),
                        target_block: block.clone(),
                    },
                )
            }
        },
    }
}

/// Checks every block of every scanned file against the whole set; the
/// first dangling target is the error.
#[verifier::loop_isolation(false)]
fn validate_files(files: &Vec<File>) -> (r: Option<Error>)
    ensures
        match r {
            Some(e) => spec_validate(file_views(files@)) == Some(e@),
            None => spec_validate(file_views(files@)) is None,
        },
{
    let ghost fvs = file_views(files@);
    proof {
        assert(fvs.skip(0) =~= fvs);
    }
    let mut i: usize = 0;
    while i < files.len()
        invariant
            0 <= i <= files@.len(),
            spec_validate(fvs) == spec_validate_files(fvs, fvs.skip(i as int)),
        decreases files@.len() - i,
    {
        proof {
            assert(fvs.skip(i as int)[0] == fvs[i as int]);
            assert(fvs.skip(i as int).drop_first() =~= fvs.skip(i + 1));
            assert(fvs[i as int] == files@[i as int]@);
        }
        let f = &files[i];
        let path = f.path();
        let blocks = f.blocks();
        let ghost bvs = fvs[i as int].blocks;
        proof {
            assert(bvs.skip(0) =~= bvs);
        }
        let mut k: usize = 0;
        while k < blocks.len()
            invariant
                0 <= k <= blocks@.len(),
                blocks.deep_view() == bvs,
                path@ == fvs[i as int].path,
                spec_validate_blocks(fvs, fvs[i as int].path, bvs) == spec_validate_blocks(
                    fvs,
                    fvs[i as int].path,
                    bvs.skip(k as int),
                ),
            decreases blocks@.len() - k,
        {
            proof {
                assert(bvs.skip(k as int)[0] == bvs[k as int]);
                assert(bvs.skip(k as int).drop_first() =~= bvs.skip(k + 1));
                assert(bvs[k as int] == blocks@[k as int]@);
            }
            let b = &blocks[k];
            match b.then_change() {
                ThenChange::NoTarget => {},
                ThenChange::Unset => {
                    let e = Error::UnsetTarget {
                        file: path.clone(),
                        name: match b.name_raw() {
                            Some(n) => Some(n.clone()),
                            None => None,
                        },
                        end_line: b.end_line(),
                    };
                    return Some(e);
                },
                ThenChange::Targets(ts) => {
                    let ghost tvs = bvs[k as int].then_change->Targets_0;
                    proof {
                        assert(tvs == ts.deep_view());
                        assert(tvs.skip(0) =~= tvs);
                    }
                    let mut m: usize = 0;
                    while m < ts.len()
                        invariant
                            0 <= m <= ts@.len(),
                            tvs == ts.deep_view(),
                            path@ == fvs[i as int].path,
                            bvs[k as int] == blocks@[k as int]@,
                            b@ == bvs[k as int],
                            0 <= (k as int) < bvs.len(),
                            bvs[k as int].then_change == ThenChangeV::Targets(tvs),
                            spec_validate_targets(fvs, fvs[i as int].path, bvs[k as int], tvs)
                                == spec_validate_targets(
                                fvs,
                                fvs[i as int].path,
                                bvs[k as int],
                                tvs.skip(m as int),
                            ),
                        decreases ts@.len() - m,
                    {
                        proof {
                            assert(tvs.skip(m as int)[0] == tvs[m as int]);
                            assert(tvs.skip(m as int).drop_first() =~= tvs.skip(m + 1));
                            assert(tvs[m as int] == ts@[m as int]@);
                        }
                        match validate_target(files, path, b, &ts[m]) {
                            Some(e) => {
                                return Some(e);
                            },
                            None => {},
                        }
                        m = m + 1;
                    }
                    proof {
                        assert(tvs.skip(ts@.len() as int).len() == 0);
                    }
                },
            }
            k = k + 1;
        }
        proof {
            assert(bvs.skip(blocks@.len() as int).len() == 0);
        }
        i = i + 1;
    }
    proof {
        assert(fvs.skip(files@.len() as int).len() == 0);
    }
    None
}


/// The contents stored for path `p`: the first matching entry.
pub open spec fn spec_store_contents(sv: Seq<(Seq<char>, Seq<char>)>, p: Seq<char>) -> Option<
    Seq<char>,
>
    decreases sv.len(),
{
    if sv.len() == 0 {
        None
    } else if sv[0].0 == p {
        Some(sv[0].1)
    } else {
        spec_store_contents(sv.drop_first(), p)
    }
}

/// The paths of a store's entries.
pub open spec fn store_paths(sv: Seq<(Seq<char>, Seq<char>)>) -> Seq<Seq<char>> {
    sv.map_values(|e: (Seq<char>, Seq<char>)| e.0)
}

/// The scan of the stored file at `p`, if the store holds one.
pub open spec fn spec_scan_of_store(
    sv: Seq<(Seq<char>, Seq<char>)>,
    ex: Seq<Seq<char>>,
    p: Seq<char>,
) -> Option<Result<Seq<BlockV>, ErrorV>> {
    match spec_store_contents(sv, p) {
        None => None,
        Some(c) => Some(spec_scan_file(p, c, ex)),
    }
}

/// Finds the first stored contents for path `p`.
#[verifier::loop_isolation(false)]
fn store_lookup<'a>(store: &'a Vec<(String, String)>, p: &String) -> (r: Option<&'a String>)
    ensures
        match r {
            Some(c) => spec_store_contents(store.deep_view(), p@) == Some(c@),
            None => spec_store_contents(store.deep_view(), p@) is None,
        },
{
    let ghost sv = store.deep_view();
    proof {
        assert(sv.skip(0) =~= sv);
    }
    let mut i: usize = 0;
    while i < store.len()
        invariant
            0 <= i <= store@.len(),
            spec_store_contents(sv, p@) == spec_store_contents(sv.skip(i as int), p@),
        decreases store@.len() - i,
    {
        proof {
            assert(sv.skip(i as int)[0] == sv[i as int]);
            assert(sv.skip(i as int).drop_first() =~= sv.skip(i + 1));
            assert(sv[i as int] == (store@[i as int].0@, store@[i as int].1@));
        }
        if eq_strings(&store[i].0, p) {
            return Some(&store[i].1);
        }
        i = i + 1;
    }
    proof {
        assert(sv.skip(store@.len() as int).len() == 0);
    }
    None
}

/// Files with pairwise distinct paths, all drawn from a pool, are no more
/// numerous than the pool.
proof fn lemma_files_len_bound(fs: Seq<FileV>, pool: Seq<Seq<char>>)
    requires
        spec_paths_distinct(fs),
        forall|i: int| 0 <= i < fs.len() ==> pool.contains((#[trigger] fs[i]).path),
    ensures
        fs.len() <= pool.len(),
    decreases fs.len(),
{
    if fs.len() > 0 {
        let p = fs.last().path;
        assert(pool.contains(p));
        let j = choose|j: int| 0 <= j < pool.len() && pool[j] == p;
        let pool2 = pool.remove(j);
        assert forall|i: int|
            0 <= i < fs.drop_last().len() implies pool2.contains(
            (#[trigger] fs.drop_last()[i]).path,
        ) by {
            assert(fs[i] == fs.drop_last()[i]);
            assert(fs[i].path != p);
            assert(pool.contains(fs[i].path));
            let k = choose|k: int| 0 <= k < pool.len() && pool[k] == fs[i].path;
            if k < j {
                assert(pool2[k] == pool[k]);
            } else {
                assert(k != j);
                assert(pool2[k - 1] == pool[k]);
            }
        }
        lemma_files_len_bound(fs.drop_last(), pool2);
    }
}

/// The total number of blocks in a scanned set.
pub open spec fn spec_total_blocks(fs: Seq<FileV>) -> nat
    decreases fs.len(),
{
    if fs.len() == 0 {
        0
    } else {
        spec_total_blocks(fs.drop_last()) + fs.last().blocks.len()
    }
}

/// Whether two scanned files ever share a path.
pub open spec fn spec_paths_distinct(fs: Seq<FileV>) -> bool {
    forall|i: int, j: int|
        0 <= i < j < fs.len() ==> (#[trigger] fs[i]).path != (#[trigger] fs[j]).path
}

/// An ordered graph of scanned files: the root path the scan ran under, the
/// files keyed by path relative to that root, and the total block count.
#[derive(Debug)]
pub struct Parser {
    /// Path to the root directory where this parser was run.
    root_path: String,
    /// Scanned files, with relative paths as the key.
    files: Vec<File>,
    /// Total number of blocks parsed.
    num_blocks: usize,
}

/// The mathematical value of a [`Parser`].
pub struct ParserV {
    pub root_path: Seq<char>,
    pub files: Seq<FileV>,
}

impl View for Parser {
    type V = ParserV;

    closed spec fn view(&self) -> ParserV {
        ParserV { root_path: self.root_path@, files: file_views(self.files@) }
    }
}

impl Parser {
    /// The block counter always holds the saturated total block count.
    #[verifier::type_invariant]
    closed spec fn inv(self) -> bool {
        if spec_total_blocks(file_views(self.files@)) <= usize::MAX {
            self.num_blocks == spec_total_blocks(file_views(self.files@))
        } else {
            self.num_blocks == usize::MAX
        }
    }
}

impl Parser {
    /// Builds a graph from the given relative paths, as well as any files
    /// their blocks' targets name, recursively.  `store` holds every file
    /// that exists under the root, keyed by relative path; only named files
    /// and the files they transitively reference are scanned.
    #[verifier::loop_isolation(false)]
    pub fn from_files(paths: Vec<String>, root_path: String, store: &Vec<(String, String)>) -> (r:
        Result<Parser, Error>)
        requires
            forall|k: int|
                0 <= k < store@.len() ==> (#[trigger] store@[k]).1@.len() < u32::MAX,
        ensures
            match r {
                Ok(p) => {
                    &&& p@.root_path == root_path@
                    &&& spec_graph_valid(p@.files)
                    &&& spec_closed_files(store.deep_view(), paths.deep_view(), p@.files)
                },
                Err(e) => {
                    ||| (exists|k: int|
                        0 <= k < paths@.len() && !store_paths(store.deep_view()).contains(
                            (#[trigger] paths@[k])@,
                        ) && e@ == (ErrorV::SeedFileDoesNotExist {
                            path: spec_join(root_path@, paths@[k]@),
                        }))
                    ||| (exists|k: int|
                        0 <= k < store@.len() && spec_scan_of_store(
                            store.deep_view(),
                            store_paths(store.deep_view()),
                            (#[trigger] store.deep_view()[k]).0,
                        ) == Some(Err::<Seq<BlockV>, ErrorV>(e@)))
                    ||| (exists|fs: Seq<FileV>|
                        #[trigger] spec_closed_files(
                            store.deep_view(),
                            paths.deep_view(),
                            fs,
                        ) && spec_validate(fs) == Some(e@))
                },
            },
    {
        let ghost sv = store.deep_view();
        // The set of files that exist under the root.
        let mut existing: Vec<String> = Vec::new();
        let mut i: usize = 0;
        proof {
            assert(existing.deep_view() =~= store_paths(sv).take(0));
        }
        while i < store.len()
            invariant
                0 <= i <= store@.len(),
                existing.deep_view() == store_paths(sv).take(i as int),
            decreases store@.len() - i,
        {
            let ghost old_ex = existing.deep_view();
            existing.push(store[i].0.clone());
            proof {
                assert(sv[i as int] == (store@[i as int].0@, store@[i as int].1@));
                assert(store_paths(sv)[i as int] == sv[i as int].0);
                assert(existing.deep_view() =~= old_ex.push(store@[i as int].0@));
                assert(existing.deep_view() =~= store_paths(sv).take(i + 1));
            }
            i = i + 1;
        }
        proof {
            assert(store_paths(sv).take(store@.len() as int) =~= store_paths(sv));
        }
        let ghost ex = existing.deep_view();

        // Every named file must exist under the root.
        let mut k: usize = 0;
        while k < paths.len()
            invariant
                0 <= k <= paths@.len(),
                ex == existing.deep_view(),
                forall|k2: int| 0 <= k2 < k ==> ex.contains((#[trigger] paths@[k2])@),
            decreases paths@.len() - k,
        {
            proof {
                assert(paths.deep_view()[k as int] == paths@[k as int]@);
            }
            if !path_in(&existing, &paths[k]) {
                return Err(
                    Error::SeedFileDoesNotExist {
                        path: join_path(root_path.as_str(), paths[k].as_str()),
                    },
                );
            }
            k = k + 1;
        }

        let ghost seeds = paths.deep_view();
        let mut pending: Vec<String> = paths;
        let mut files: Vec<File> = Vec::new();
        proof {
            assert(file_views(files@) =~= Seq::<FileV>::empty());
            assert forall|k2: int|
                0 <= k2 < seeds.len() implies ex.contains(#[trigger] seeds[k2]) by {
                assert(seeds[k2] == paths@[k2]@);
            }
            assert forall|q: Seq<char>|
                #[trigger] pending.deep_view().contains(q) implies seeds.contains(q) by {
                let j = choose|j: int|
                    0 <= j < pending.deep_view().len() && pending.deep_view()[j] == q;
                assert(seeds[j] == q);
            }
        }
        while pending.len() > 0
            invariant
                ex == existing.deep_view(),
                sv == store.deep_view(),
                spec_paths_distinct(file_views(files@)),
                forall|i2: int|
                    0 <= i2 < file_views(files@).len() ==> ex.contains(
                        (#[trigger] file_views(files@)[i2]).path,
                    ),
                forall|i2: int|
                    0 <= i2 < file_views(files@).len() ==> spec_scan_of_store(
                        sv,
                        ex,
                        (#[trigger] file_views(files@)[i2]).path,
                    ) == Some(Ok::<Seq<BlockV>, ErrorV>(file_views(files@)[i2].blocks)),
                forall|q: int|
                    0 <= q < pending@.len() ==> ex.contains((#[trigger] pending@[q])@),
                forall|k2: int|
                    0 <= k2 < seeds.len() ==> spec_has_file(file_views(files@), #[trigger] seeds[k2]) || pending.deep_view().contains(seeds[k2]),
                forall|i2: int, q: Seq<char>|
                    0 <= i2 < file_views(files@).len() && #[trigger] spec_blocks_ref(
                        file_views(files@)[i2].blocks,
                        q,
                    ) ==> spec_has_file(file_views(files@), q) || pending.deep_view().contains(
                        q,
                    ),
                forall|i2: int|
                    0 <= i2 < file_views(files@).len() ==> seeds.contains(
                        (#[trigger] file_views(files@)[i2]).path,
                    ) || spec_some_file_refs(file_views(files@), file_views(files@)[i2].path),
                forall|q: Seq<char>|
                    #[trigger] pending.deep_view().contains(q) ==> seeds.contains(q)
                        || spec_some_file_refs(file_views(files@), q),
            decreases ex.len() - file_views(files@).len(), pending@.len(),
        {
            proof {
                lemma_files_len_bound(file_views(files@), ex);
            }
            let ghost pend_entry = pending.deep_view();
            let path = match pending.pop() {
                None => {
                    // The loop condition guarantees a queued path.
                    proof {
                        assert(false);
                    }
                    break;
                },
                Some(path) => path,
            };
            let ghost pend0 = pending.deep_view();
            proof {
                assert(pend_entry =~= pend0.push(path@));
                assert forall|q: Seq<char>|
                    pend0.push(path@).contains(q) implies pend0.contains(q) || q == path@ by {
                    let j = choose|j: int|
                        0 <= j < pend0.push(path@).len() && pend0.push(path@)[j] == q;
                    if j < pend0.len() {
                        assert(pend0[j] == q);
                    }
                }
                assert(pend_entry.contains(path@)) by {
                    assert(pend_entry[pend_entry.len() - 1] == path@);
                }
                assert(ex.contains(path@));
            }
            if has_file(&files, &path) {
                proof {
                    assert forall|q: Seq<char>| pend0.contains(q) implies ex.contains(q) by {
                        let j = choose|j: int| 0 <= j < pend0.len() && pend0[j] == q;
                        assert(pending@[j]@ == q);
                    }
                    // A queued path that was already scanned drops out of the
                    // queue without loss: it is covered by the scanned set.
                    assert forall|k2: int|
                        0 <= k2 < seeds.len() implies spec_has_file(
                        file_views(files@),
                        #[trigger] seeds[k2],
                    ) || pending.deep_view().contains(seeds[k2]) by {
                        if !spec_has_file(file_views(files@), seeds[k2]) {
                            assert(pend0.push(path@).contains(seeds[k2]));
                            let j = choose|j: int|
                                0 <= j < pend0.push(path@).len() && pend0.push(path@)[j]
                                    == seeds[k2];
                            if j < pend0.len() {
                                assert(pending.deep_view()[j] == seeds[k2]);
                            } else {
                                assert(seeds[k2] == path@);
                            }
                        }
                    }
                    assert forall|i2: int, q: Seq<char>|
                        0 <= i2 < file_views(files@).len() && #[trigger] spec_blocks_ref(
                            file_views(files@)[i2].blocks,
                            q,
                        ) implies spec_has_file(file_views(files@), q) || pending.deep_view()
                        .contains(q) by {
                        if !spec_has_file(file_views(files@), q) {
                            assert(pend0.push(path@).contains(q));
                            let j = choose|j: int|
                                0 <= j < pend0.push(path@).len() && pend0.push(path@)[j] == q;
                            if j < pend0.len() {
                                assert(pending.deep_view()[j] == q);
                            } else {
                                assert(q == path@);
                            }
                        }
                    }
                    assert forall|q: Seq<char>|
                        #[trigger] pending.deep_view().contains(q) implies seeds.contains(q)
                        || spec_some_file_refs(file_views(files@), q) by {
                        let j = choose|j: int|
                            0 <= j < pending.deep_view().len() && pending.deep_view()[j] == q;
                        assert(pend_entry[j] == q);
                        assert(pend_entry.contains(q));
                    }
                }
                continue;
            }
            let contents = match store_lookup(store, &path) {
                Some(c) => c,
                None => {
                    // Every queued path exists under the root, so the store
                    // always answers.
                    proof {
                        lemma_store_paths_contents(sv, path@);
                        assert(false);
                    }
                    return Err(Error::SeedFileDoesNotExist { path: path });
                },
            };
            proof {
                lemma_store_contents_len(sv, path@);
            }
            match File::parse(path.clone(), contents.as_str(), &existing, None) {
                Err(e) => {
                    proof {
                        lemma_store_paths_contents(sv, path@);
                        let k2 = choose|k2: int| 0 <= k2 < sv.len() && sv[k2].0 == path@;
                        assert(spec_scan_of_store(sv, ex, sv[k2].0) == Some(
                            Err::<Seq<BlockV>, ErrorV>(e@),
                        ));
                    }
                    return Err(e);
                },
                Ok(fr) => {
                    let (f, refs) = fr;
                    let ghost files0 = file_views(files@);
                    let ghost fv = f@;
                    files.push(f);
                    proof {
                        assert(file_views(files@) =~= files0.push(fv));
                        lemma_push_preserves_distinct(files0, fv);
                    }
                    // Queue the files this one's targets name, unless they
                    // are already scanned or queued.
                    let mut rk: usize = 0;
                    while rk < refs.len()
                        invariant
                            0 <= rk <= refs@.len(),
                            ex == existing.deep_view(),
                            file_views(files@) == files0.push(fv),
                            forall|j: int|
                                0 <= j < refs.deep_view().len() ==> spec_blocks_ref(
                                    fv.blocks,
                                    #[trigger] refs.deep_view()[j],
                                ),
                            forall|q: int|
                                0 <= q < pending@.len() ==> ex.contains(
                                    (#[trigger] pending@[q])@,
                                ),
                            forall|j: int|
                                0 <= j < rk ==> spec_has_file(file_views(files@), #[trigger] refs
                                    .deep_view()[j]) || pending.deep_view().contains(
                                    refs.deep_view()[j],
                                ),
                            forall|q: Seq<char>|
                                #[trigger] pending.deep_view().contains(q) ==> pend0.contains(q)
                                    || spec_blocks_ref(fv.blocks, q),
                            forall|q: Seq<char>|
                                pend0.contains(q) ==> #[trigger] pending.deep_view().contains(
                                    q,
                                ),
                        decreases refs@.len() - rk,
                    {
                        proof {
                            assert(refs.deep_view()[rk as int] == refs@[rk as int]@);
                        }
                        let rp = &refs[rk];
                        if !has_file(&files, rp) && !path_in(&pending, rp) {
                            let ghost pend1 = pending.deep_view();
                            pending.push(rp.clone());
                            proof {
                                assert(pending.deep_view() =~= pend1.push(rp@));
                                assert(pending.deep_view().last() == rp@);
                                assert(pending.deep_view().contains(rp@));
                                assert forall|q: Seq<char>|
                                    #[trigger] pending.deep_view().contains(q) implies pend1
                                    .contains(q) || q == rp@ by {
                                    let j = choose|j: int|
                                        0 <= j < pending.deep_view().len() && pending.deep_view()[j] == q;
                                    if j < pend1.len() {
                                        assert(pend1[j] == q);
                                    }
                                }
                                assert forall|q: Seq<char>|
                                    pend1.contains(q) implies pending.deep_view().contains(
                                    q,
                                ) by {
                                    let j = choose|j: int|
                                        0 <= j < pend1.len() && pend1[j] == q;
                                    assert(pending.deep_view()[j] == q);
                                }
                                assert forall|q: Seq<char>|
                                    pend0.contains(q) implies pending.deep_view().contains(
                                    q,
                                ) by {
                                    assert(pend1.contains(q));
                                }
                                // The queued reference exists under the root:
                                // the scan checked every resolved target.
                                lemma_scan_refs_exist(fv.path, sv, ex, fv.blocks, rp@);
                            }
                        } else {
                            proof {
                                if spec_has_file(file_views(files@), refs.deep_view()[rk as int]) {
                                } else {
                                    assert(pending.deep_view().contains(
                                        refs.deep_view()[rk as int],
                                    ));
                                }
                            }
                        }
                        rk = rk + 1;
                    }
                    proof {
                        // Seeds stay covered: a pending seed other than
                        // `path` is still pending; `path` is now scanned.
                        assert(spec_has_file(file_views(files@), fv.path)) by {
                            assert(file_views(files@)[files0.len() as int] == fv);
                        }
                        assert forall|k2: int|
                            0 <= k2 < seeds.len() implies spec_has_file(
                            file_views(files@),
                            #[trigger] seeds[k2],
                        ) || pending.deep_view().contains(seeds[k2]) by {
                            if spec_has_file(files0, seeds[k2]) {
                                let j = choose|j: int|
                                    0 <= j < files0.len() && (#[trigger] files0[j]).path == seeds[k2];
                                assert(file_views(files@)[j] == files0[j]);
                                assert(spec_has_file(file_views(files@), seeds[k2]));
                            } else if pend0.push(path@).contains(seeds[k2]) {
                                let j = choose|j: int|
                                    0 <= j < pend0.push(path@).len() && pend0.push(path@)[j]
                                        == seeds[k2];
                                if j < pend0.len() {
                                    assert(pend0[j] == seeds[k2]);
                                    lemma_contains_monotone(pend0, pending.deep_view(), seeds[k2]);
                                } else {
                                    assert(seeds[k2] == path@);
                                    assert(path@ == fv.path);
                                }
                            }
                        }
                        // Closure stays covered for old files and the new one.
                        assert forall|i2: int, q: Seq<char>|
                            0 <= i2 < file_views(files@).len() && #[trigger] spec_blocks_ref(
                                file_views(files@)[i2].blocks,
                                q,
                            ) implies spec_has_file(file_views(files@), q) || pending.deep_view()
                            .contains(q) by {
                            if i2 < files0.len() {
                                assert(file_views(files@)[i2] == files0[i2]);
                                if spec_has_file(files0, q) {
                                    let j = choose|j: int|
                                        0 <= j < files0.len() && (#[trigger] files0[j]).path
                                            == q;
                                    assert(file_views(files@)[j] == files0[j]);
                                } else {
                                    assert(pend0.push(path@).contains(q));
                                    let j = choose|j: int|
                                        0 <= j < pend0.push(path@).len() && pend0.push(path@)[j]
                                            == q;
                                    if j < pend0.len() {
                                        assert(pend0[j] == q);
                                        lemma_contains_monotone(pend0, pending.deep_view(), q);
                                    } else {
                                        assert(q == path@);
                                        assert(path@ == fv.path);
                                        assert(spec_has_file(file_views(files@), q));
                                    }
                                }
                            } else {
                                // Every reference of the new file was
                                // returned in `refs`, and each was scanned
                                // or queued.
                                assert(file_views(files@)[i2] == fv);
                                assert(refs.deep_view().contains(q));
                                let j = choose|j: int|
                                    0 <= j < refs.deep_view().len() && refs.deep_view()[j] == q;
                            }
                        }
                        // Each scanned file stays justified: old files keep
                        // their witnesses, and the new file was queued, so it
                        // was named or referenced.
                        assert forall|i2: int|
                            0 <= i2 < file_views(files@).len() implies seeds.contains(
                            (#[trigger] file_views(files@)[i2]).path,
                        ) || spec_some_file_refs(
                            file_views(files@),
                            file_views(files@)[i2].path,
                        ) by {
                            if i2 < files0.len() {
                                assert(file_views(files@)[i2] == files0[i2]);
                                if spec_some_file_refs(files0, files0[i2].path) {
                                    let j = choose|j: int|
                                        0 <= j < files0.len() && #[trigger] spec_blocks_ref(
                                            files0[j].blocks,
                                            files0[i2].path,
                                        );
                                    assert(file_views(files@)[j] == files0[j]);
                                    assert(spec_blocks_ref(
                                        file_views(files@)[j].blocks,
                                        file_views(files@)[i2].path,
                                    ));
                                }
                            } else {
                                assert(file_views(files@)[i2] == fv);
                                assert(pend_entry.contains(path@));
                                if spec_some_file_refs(files0, path@) {
                                    let j = choose|j: int|
                                        0 <= j < files0.len() && #[trigger] spec_blocks_ref(
                                            files0[j].blocks,
                                            path@,
                                        );
                                    assert(file_views(files@)[j] == files0[j]);
                                    assert(spec_blocks_ref(
                                        file_views(files@)[j].blocks,
                                        fv.path,
                                    ));
                                }
                            }
                        }
                        assert forall|q: Seq<char>|
                            #[trigger] pending.deep_view().contains(q) implies seeds.contains(
                            q,
                        ) || spec_some_file_refs(file_views(files@), q) by {
                            if pend0.contains(q) {
                                let j = choose|j: int|
                                    0 <= j < pend0.len() && pend0[j] == q;
                                assert(pend_entry[j] == q);
                                assert(pend_entry.contains(q));
                                if spec_some_file_refs(files0, q) {
                                    let j2 = choose|j2: int|
                                        0 <= j2 < files0.len() && #[trigger] spec_blocks_ref(
                                            files0[j2].blocks,
                                            q,
                                        );
                                    assert(file_views(files@)[j2] == files0[j2]);
                                    assert(spec_blocks_ref(
                                        file_views(files@)[j2].blocks,
                                        q,
                                    ));
                                }
                            } else {
                                assert(spec_blocks_ref(fv.blocks, q));
                                assert(file_views(files@)[files0.len() as int] == fv);
                                assert(spec_blocks_ref(
                                    file_views(files@)[files0.len() as int].blocks,
                                    q,
                                ));
                            }
                        }
                        lemma_files_len_bound(file_views(files@), ex);
                    }
                },
            }
        }
        proof {
            // With nothing queued, the scanned set covers the seeds and is
            // closed under target references; it is the faithful scan of the
            // store from the named paths.
            assert(ex == store_paths(sv));
            assert(seeds == paths.deep_view());
            assert forall|k2: int|
                0 <= k2 < seeds.len() implies spec_has_file(
                file_views(files@),
                #[trigger] seeds[k2],
            ) by {
                assert(!pending.deep_view().contains(seeds[k2]));
            }
            assert forall|i2: int, q: Seq<char>|
                0 <= i2 < file_views(files@).len() && #[trigger] spec_blocks_ref(
                    file_views(files@)[i2].blocks,
                    q,
                ) implies spec_has_file(file_views(files@), q) by {
                assert(!pending.deep_view().contains(q));
            }
            assert(spec_closed_files(sv, paths.deep_view(), file_views(files@)));
        }
        // All named and referenced files are scanned; check every declared
        // target against the scanned set.
        match validate_files(&files) {
            Some(e) => {
                proof {
                    // The scanned set itself witnesses that a faithful,
                    // closed scan of the store fails validation with exactly
                    // this error.
                    assert(spec_validate(file_views(files@)) == Some(e@));
                }
                return Err(e);
            },
            None => {},
        }
        let num_blocks = count_blocks(&files);
        let p = Parser { root_path, files, num_blocks };
        Ok(p)
    }

    /// Builds a graph from every file in the store, checking all of them.
    /// The caller walks the directory tree and hands every regular file in.
    pub fn from_directory(root_path: String, store: &Vec<(String, String)>) -> (r: Result<
        Parser,
        Error,
    >)
        requires
            forall|k: int|
                0 <= k < store@.len() ==> (#[trigger] store@[k]).1@.len() < u32::MAX,
        ensures
            match r {
                Ok(p) => {
                    &&& p@.root_path == root_path@
                    &&& spec_graph_valid(p@.files)
                    &&& spec_closed_files(
                        store.deep_view(),
                        store_paths(store.deep_view()),
                        p@.files,
                    )
                },
                Err(e) => {
                    ||| (exists|k: int|
                        0 <= k < store@.len() && spec_scan_of_store(
                            store.deep_view(),
                            store_paths(store.deep_view()),
                            (#[trigger] store.deep_view()[k]).0,
                        ) == Some(Err::<Seq<BlockV>, ErrorV>(e@)))
                    ||| (exists|fs: Seq<FileV>|
                        #[trigger] spec_closed_files(
                            store.deep_view(),
                            store_paths(store.deep_view()),
                            fs,
                        ) && spec_validate(fs) == Some(e@))
                },
            },
    {
        let ghost sv = store.deep_view();
        let mut seeds: Vec<String> = Vec::new();
        let mut i: usize = 0;
        while i < store.len()
            invariant
                0 <= i <= store@.len(),
                seeds@.len() == i,
                forall|k: int| 0 <= k < i ==> (#[trigger] seeds@[k])@ == store@[k].0@,
            decreases store@.len() - i,
        {
            seeds.push(store[i].0.clone());
            i = i + 1;
        }
        proof {
            // The seed list is exactly the store's path list, so every seed
            // exists under the root.
            assert(seeds.deep_view() =~= store_paths(sv));
            assert forall|k: int|
                0 <= k < seeds@.len() implies store_paths(sv).contains(
                (#[trigger] seeds@[k])@,
            ) by {
                assert(store_paths(sv)[k] == sv[k].0);
                assert(sv[k].0 == store@[k].0@);
            }
        }
        let r = Self::from_files(seeds, root_path, store);
        proof {
            match &r {
                Ok(_) => {},
                Err(e) => {
                    // Every seed exists, so the error comes from a scan or
                    // from validation of a faithful closed scan of the store.
                    if exists|fs: Seq<FileV>|
                        #[trigger] spec_closed_files(sv, seeds.deep_view(), fs)
                            && spec_validate(fs) == Some(e@) {
                        let fsw = choose|fs: Seq<FileV>|
                            #[trigger] spec_closed_files(sv, seeds.deep_view(), fs)
                                && spec_validate(fs) == Some(e@);
                        assert(spec_closed_files(sv, store_paths(sv), fsw));
                    }
                },
            }
        }
        r
    }

    /// The blocks of the scanned file at `path`, if it was scanned.
    pub fn on_change_blocks_in_file<'a>(&'a self, path: &String) -> (r: Option<
        &'a Vec<OnChangeBlock>,
    >)
        ensures
            match r {
                Some(bs) => spec_lookup_file(self@.files, path@) matches Some(i) && bs.deep_view()
                    == self@.files[i].blocks,
                None => spec_lookup_file(self@.files, path@) is None,
            },
    {
        match lookup_file(&self.files, path) {
            Some(f) => Some(f.blocks()),
            None => None,
        }
    }

    /// The first targetable block called `block_name` in the scanned file at
    /// `path`, if both exist.
    #[verifier::loop_isolation(false)]
    pub fn get_block_in_file<'a>(&'a self, path: &String, block_name: &String) -> (r: Option<
        &'a OnChangeBlock,
    >)
        ensures
            match r {
                Some(b) => spec_get_block(self@.files, path@, block_name@) == Some(b@),
                None => spec_get_block(self@.files, path@, block_name@) is None,
            },
    {
        let f = match lookup_file(&self.files, path) {
            Some(f) => f,
            None => {
                return None;
            },
        };
        let blocks = f.blocks();
        let ghost bvs = blocks.deep_view();
        proof {
            assert(bvs.skip(0) =~= bvs);
        }
        let mut k: usize = 0;
        while k < blocks.len()
            invariant
                0 <= k <= blocks@.len(),
                bvs == blocks.deep_view(),
                spec_first_named(bvs, block_name@) == spec_first_named(
                    bvs.skip(k as int),
                    block_name@,
                ),
            decreases blocks@.len() - k,
        {
            proof {
                assert(bvs.skip(k as int)[0] == bvs[k as int]);
                assert(bvs.skip(k as int).drop_first() =~= bvs.skip(k + 1));
                assert(bvs[k as int] == blocks@[k as int]@);
            }
            let b = &blocks[k];
            match b.name_raw() {
                Some(n) => {
                    if eq_strings(n, block_name) {
                        proof {
                            assert(bvs[k as int].name == Some(block_name@));
                            assert(spec_first_named(bvs.skip(k as int), block_name@) == Some(
                                bvs[k as int],
                            ));
                            assert(b@ == bvs[k as int]);
                            assert(spec_first_named(bvs, block_name@) == spec_first_named(
                                bvs.skip(k as int),
                                block_name@,
                            ));
                            assert(spec_first_named(bvs, block_name@) == Some(b@));
                            let fi = spec_lookup_file(self@.files, path@)->0;
                            assert(f@ == self@.files[fi]);
                            assert(bvs == self@.files[fi].blocks);
                            assert(spec_get_block(self@.files, path@, block_name@) == Some(
                                b@,
                            ));
                        }
                        return Some(b);
                    }
                },
                None => {},
            }
            k = k + 1;
        }
        proof {
            assert(bvs.skip(blocks@.len() as int).len() == 0);
        }
        None
    }

    /// The paths of all scanned files, in scan order.
    pub fn paths<'a>(&'a self) -> (r: Vec<&'a String>)
        ensures
            r@.len() == self@.files.len(),
            forall|i: int| 0 <= i < r@.len() ==> (#[trigger] r@[i])@ == self@.files[i].path,
    {
        let mut r: Vec<&'a String> = Vec::new();
        let mut i: usize = 0;
        while i < self.files.len()
            invariant
                0 <= i <= self.files@.len(),
                r@.len() == i,
                forall|j: int|
                    0 <= j < i ==> (#[trigger] r@[j])@ == file_views(self.files@)[j].path,
            decreases self.files@.len() - i,
        {
            proof {
                assert(file_views(self.files@)[i as int] == self.files@[i as int]@);
            }
            r.push(self.files[i].path());
            i = i + 1;
        }
        r
    }

    /// The root path this graph was built under.
    pub fn root_path(&self) -> (r: &String)
        ensures
            r@ == self@.root_path,
    {
        &self.root_path
    }

    /// The total number of blocks parsed, saturating at the machine limit.
    pub fn num_blocks(&self) -> (r: usize)
        ensures
            if spec_total_blocks(self@.files) <= usize::MAX {
                r == spec_total_blocks(self@.files)
            } else {
                r == usize::MAX
            },
    {
        proof {
            use_type_invariant(self);
        }
        self.num_blocks
    }
}

/// The first targetable block called `name` in a block list.
pub open spec fn spec_first_named(bs: Seq<BlockV>, name: Seq<char>) -> Option<BlockV>
    decreases bs.len(),
{
    if bs.len() == 0 {
        None
    } else if bs[0].name == Some(name) {
        Some(bs[0])
    } else {
        spec_first_named(bs.drop_first(), name)
    }
}

/// The first targetable block called `name` in the file at `path`, if any.
pub open spec fn spec_get_block(fs: Seq<FileV>, path: Seq<char>, name: Seq<char>) -> Option<
    BlockV,
> {
    match spec_lookup_file(fs, path) {
        None => None,
        Some(i) => spec_first_named(fs[i].blocks, name),
    }
}

/// Paths stay pairwise distinct when a file with a fresh path is appended.
proof fn lemma_push_preserves_distinct(fs: Seq<FileV>, f: FileV)
    requires
        spec_paths_distinct(fs),
        !spec_has_file(fs, f.path),
    ensures
        spec_paths_distinct(fs.push(f)),
{
    assert forall|i: int, j: int|
        0 <= i < j < fs.push(f).len() implies (#[trigger] fs.push(f)[i]).path != (
    #[trigger] fs.push(f)[j]).path by {
        if j < fs.len() {
            assert(fs[i].path != fs[j].path);
        } else {
            assert(fs.push(f)[j] == f);
            if fs[i].path == f.path {
                assert(spec_has_file(fs, f.path));
            }
        }
    }
}

/// Membership carried from a smaller pending list to one that extends it.
proof fn lemma_contains_monotone(small: Seq<Seq<char>>, big: Seq<Seq<char>>, q: Seq<char>)
    requires
        small.contains(q),
        forall|x: Seq<char>| small.contains(x) ==> #[trigger] big.contains(x),
    ensures
        big.contains(q),
{
}

/// A store path always has contents; a path with contents is a store path.
proof fn lemma_store_paths_contents(sv: Seq<(Seq<char>, Seq<char>)>, p: Seq<char>)
    ensures
        store_paths(sv).contains(p) <==> spec_store_contents(sv, p) is Some,
    decreases sv.len(),
{
    if sv.len() > 0 {
        lemma_store_paths_contents(sv.drop_first(), p);
        assert(store_paths(sv.drop_first()) =~= store_paths(sv).drop_first());
        if sv[0].0 != p {
            if store_paths(sv).contains(p) {
                let j = choose|j: int|
                    0 <= j < store_paths(sv).len() && store_paths(sv)[j] == p;
                assert(store_paths(sv).drop_first()[j - 1] == p);
            }
            if store_paths(sv).drop_first().contains(p) {
                let j = choose|j: int|
                    0 <= j < store_paths(sv).drop_first().len() && store_paths(
                        sv,
                    ).drop_first()[j] == p;
                assert(store_paths(sv)[j + 1] == p);
            }
        } else {
            assert(store_paths(sv)[0] == p);
        }
    }
}

/// Stored contents obey the store's length bound.
proof fn lemma_store_contents_len(sv: Seq<(Seq<char>, Seq<char>)>, p: Seq<char>)
    requires
        spec_store_contents(sv, p) is Some,
    ensures
        exists|k: int|
            0 <= k < sv.len() && (#[trigger] sv[k]).0 == p && sv[k].1 == spec_store_contents(
                sv,
                p,
            )->0,
    decreases sv.len(),
{
    if sv.len() > 0 && sv[0].0 != p {
        lemma_store_contents_len(sv.drop_first(), p);
        let k = choose|k: int|
            0 <= k < sv.drop_first().len() && (#[trigger] sv.drop_first()[k]).0 == p
                && sv.drop_first()[k].1 == spec_store_contents(sv.drop_first(), p)->0;
        assert(sv[k + 1] == sv.drop_first()[k]);
    }
}

/// Every file a scanned block's targets name was verified to exist during
/// the scan, so a queued reference is an existing path.
proof fn lemma_scan_refs_exist(
    path: Seq<char>,
    sv: Seq<(Seq<char>, Seq<char>)>,
    ex: Seq<Seq<char>>,
    blocks: Seq<BlockV>,
    q: Seq<char>,
)
    requires
        spec_scan_of_store(sv, ex, path) == Some(Ok::<Seq<BlockV>, ErrorV>(blocks)),
        spec_blocks_ref(blocks, q),
    ensures
        ex.contains(q),
{
    let c = spec_store_contents(sv, path)->0;
    lemma_scan_targets_exist(path, c, ex, blocks, q);
}

/// The file-level scan only completes with targets whose files exist.
proof fn lemma_scan_targets_exist(
    path: Seq<char>,
    contents: Seq<char>,
    ex: Seq<Seq<char>>,
    blocks: Seq<BlockV>,
    q: Seq<char>,
)
    requires
        spec_scan_file(path, contents, ex) == Ok::<Seq<BlockV>, ErrorV>(blocks),
        spec_blocks_ref(blocks, q),
    ensures
        ex.contains(q),
{
    lemma_scan_blocks_targets_exist(
        path,
        crate::scan::spec_markers(contents),
        0,
        Seq::empty(),
        Seq::empty(),
        Seq::empty(),
        ex,
        q,
    );
}

/// Sums the block counts of all scanned files, saturating at the machine
/// limit.
#[verifier::loop_isolation(false)]
fn count_blocks(files: &Vec<File>) -> (r: usize)
    ensures
        if spec_total_blocks(file_views(files@)) <= usize::MAX {
            r == spec_total_blocks(file_views(files@))
        } else {
            r == usize::MAX
        },
{
    let ghost fvs = file_views(files@);
    let mut n: usize = 0;
    let mut i: usize = 0;
    proof {
        assert(fvs.take(0) =~= Seq::<FileV>::empty());
    }
    while i < files.len()
        invariant
            0 <= i <= files@.len(),
            if spec_total_blocks(fvs.take(i as int)) <= usize::MAX {
                n == spec_total_blocks(fvs.take(i as int))
            } else {
                n == usize::MAX
            },
        decreases files@.len() - i,
    {
        proof {
            assert(fvs.take(i + 1).drop_last() =~= fvs.take(i as int));
            assert(fvs.take(i + 1).last() == fvs[i as int]);
            assert(fvs[i as int] == files@[i as int]@);
        }
        let len = files[i].blocks().len();
        n = if n > usize::MAX - len {
            usize::MAX
        } else {
            n + len
        };
        i = i + 1;
    }
    proof {
        assert(fvs.take(files@.len() as int) =~= fvs);
    }
    n
}

/// A single parsed target only names a file that exists.
proof fn lemma_single_target_exists(
    origin: Seq<char>,
    line: int,
    t: Seq<char>,
    ex: Seq<Seq<char>>,
)
    ensures
        crate::file::spec_parse_single_target(origin, line, t, ex) matches Ok(tv) ==> match
            crate::file::target_file_of(tv) {
            Some(p) => ex.contains(p),
            None => true,
        },
{
}

/// Every file named by a parsed target list exists.
proof fn lemma_targets_exist(
    origin: Seq<char>,
    line: int,
    pieces: Seq<Seq<char>>,
    ex: Seq<Seq<char>>,
    q: Seq<char>,
)
    requires
        crate::file::spec_parse_targets(origin, line, pieces, ex) matches Ok(ts) && exists|k: int|
            0 <= k < ts.len() && crate::file::target_file_of(#[trigger] ts[k]) == Some(q),
    ensures
        ex.contains(q),
    decreases pieces.len(),
{
    let ts = crate::file::spec_parse_targets(origin, line, pieces, ex)->Ok_0;
    let t0 = crate::file::spec_parse_single_target(
        origin,
        line,
        crate::strutil::spec_trim(pieces[0]),
        ex,
    )->Ok_0;
    let rest = crate::file::spec_parse_targets(origin, line, pieces.drop_first(), ex)->Ok_0;
    let k = choose|k: int|
        0 <= k < ts.len() && crate::file::target_file_of(#[trigger] ts[k]) == Some(q);
    assert(ts == seq![t0] + rest);
    if k == 0 {
        assert(ts[0] == t0);
        lemma_single_target_exists(origin, line, crate::strutil::spec_trim(pieces[0]), ex);
    } else {
        assert(ts[k] == rest[k - 1]);
        assert(exists|k2: int|
            0 <= k2 < rest.len() && crate::file::target_file_of(#[trigger] rest[k2]) == Some(
                q,
            ));
        lemma_targets_exist(origin, line, pieces.drop_first(), ex, q);
    }
}

/// Every file named by a completed obligation exists.
proof fn lemma_build_exists(
    origin: Seq<char>,
    line: int,
    arg: Seq<char>,
    ex: Seq<Seq<char>>,
    q: Seq<char>,
)
    requires
        crate::file::spec_build_then_change(origin, line, arg, ex) matches Ok(tc),
    ensures
        crate::file::spec_build_then_change(origin, line, arg, ex) matches Ok(tc) ==> match tc {
            ThenChangeV::Targets(ts) => (exists|k: int|
                0 <= k < ts.len() && crate::file::target_file_of(#[trigger] ts[k]) == Some(q))
                ==> ex.contains(q),
            _ => true,
        },
{
    let t = crate::strutil::spec_trim(arg);
    if t.len() != 0 {
        let tc = crate::file::spec_build_then_change(origin, line, arg, ex)->Ok_0;
        match tc {
            ThenChangeV::Targets(ts) => {
                if exists|k: int|
                    0 <= k < ts.len() && crate::file::target_file_of(#[trigger] ts[k]) == Some(
                        q,
                    ) {
                    lemma_targets_exist(origin, line, crate::strutil::spec_split(t, ','), ex, q);
                }
            },
            _ => {},
        }
    }
}

/// A reference of a pushed block list comes from the old list or the new
/// block.
proof fn lemma_blocks_ref_push(bs: Seq<BlockV>, b: BlockV, q: Seq<char>)
    ensures
        spec_blocks_ref(bs.push(b), q) <==> spec_blocks_ref(bs, q) || crate::file::spec_block_refs(
            b,
            q,
        ),
{
    if spec_blocks_ref(bs.push(b), q) {
        let j = choose|j: int|
            0 <= j < bs.push(b).len() && crate::file::spec_block_refs(
                #[trigger] bs.push(b)[j],
                q,
            );
        if j < bs.len() {
            assert(bs[j] == bs.push(b)[j]);
        }
    }
    if spec_blocks_ref(bs, q) {
        let j = choose|j: int|
            0 <= j < bs.len() && crate::file::spec_block_refs(#[trigger] bs[j], q);
        assert(bs.push(b)[j] == bs[j]);
        assert(spec_blocks_ref(bs.push(b), q));
    }
    if crate::file::spec_block_refs(b, q) {
        assert(bs.push(b)[bs.len() as int] == b);
        assert(spec_blocks_ref(bs.push(b), q));
    }
}

/// Every target file in a block completed by the marker scan was checked
/// against the existing set.
proof fn lemma_scan_blocks_targets_exist(
    path: Seq<char>,
    ms: Seq<crate::scan::MarkerV>,
    i: int,
    stack: Seq<crate::file::PendingV>,
    seen: Seq<(Seq<char>, int)>,
    blocks: Seq<BlockV>,
    ex: Seq<Seq<char>>,
    q: Seq<char>,
)
    requires
        0 <= i <= ms.len(),
        crate::file::spec_scan_blocks(path, ms, i, stack, seen, blocks, ex) matches Ok(out)
            && spec_blocks_ref(out, q),
        !spec_blocks_ref(blocks, q),
    ensures
        ex.contains(q),
    decreases ms.len() - i,
{
    if i >= ms.len() {
        // The scan result is the accumulator, which has no such reference.
        assert(false);
    } else {
        let m = ms[i];
        if m.open {
            let name = if m.arg.len() == 0 {
                None
            } else {
                Some(m.arg)
            };
            let seen2 = if m.arg.len() == 0 {
                seen
            } else {
                seen.push((m.arg, m.line))
            };
            lemma_scan_blocks_targets_exist(
                path,
                ms,
                i + 1,
                stack.push(crate::file::PendingV { name, start_line: m.line }),
                seen2,
                blocks,
                ex,
                q,
            );
        } else {
            let tc = crate::file::spec_build_then_change(path, m.line, m.arg, ex)->Ok_0;
            let nb = BlockV {
                file: path,
                name: stack.last().name,
                start_line: stack.last().start_line,
                end_line: m.line,
                then_change: tc,
            };
            lemma_blocks_ref_push(blocks, nb, q);
            if crate::file::spec_block_refs(nb, q) {
                lemma_build_exists(path, m.line, m.arg, ex, q);
            } else {
                lemma_scan_blocks_targets_exist(
                    path,
                    ms,
                    i + 1,
                    stack.drop_last(),
                    seen,
                    blocks.push(nb),
                    ex,
                    q,
                );
            }
        }
    }
}


/// Whether the scanned file at `path` holds a changed block named `n`,
/// judged against the given hunks.
pub open spec fn spec_file_has_changed_named(
    fs: Seq<FileV>,
    path: Seq<char>,
    hunks: Seq<crate::hunk::HunkV>,
    n: Seq<char>,
) -> bool {
    match spec_lookup_file(fs, path) {
        None => false,
        Some(i) => exists|j: int|
            0 <= j < fs[i].blocks.len() && (#[trigger] fs[i].blocks[j]).name == Some(n)
                && crate::file::spec_block_changed(fs[i].blocks[j], hunks),
    }
}

/// Whether some staged file `f` holds a changed targetable block named `n`.
pub open spec fn spec_changed_targetable(
    fs: Seq<FileV>,
    staged: Seq<(Seq<char>, Seq<crate::hunk::HunkV>)>,
    f: Seq<char>,
    n: Seq<char>,
) -> bool {
    exists|k: int|
        0 <= k < staged.len() && (#[trigger] staged[k]).0 == f && spec_file_has_changed_named(
            fs,
            f,
            staged[k].1,
            n,
        )
}

/// A changed block whose declared target did not also change.
#[derive(Debug)]
pub struct OnChangeViolation {
    root_path: String,
    block: OnChangeBlock,
    target_file: String,
    target_block: Option<OnChangeBlock>,
}

/// The mathematical value of an [`OnChangeViolation`].
pub struct ViolationV {
    pub root_path: Seq<char>,
    pub block: BlockV,
    pub target_file: Seq<char>,
    pub target_block: Option<BlockV>,
}

impl View for OnChangeViolation {
    type V = ViolationV;

    closed spec fn view(&self) -> ViolationV {
        ViolationV {
            root_path: self.root_path@,
            block: self.block@,
            target_file: self.target_file@,
            target_block: match &self.target_block {
                Some(b) => Some(b@),
                None => None,
            },
        }
    }
}

impl DeepView for OnChangeViolation {
    type V = ViolationV;

    open spec fn deep_view(&self) -> ViolationV {
        self@
    }
}

impl OnChangeViolation {
    /// The root path the graph was built under.
    pub fn root_path(&self) -> (r: &String)
        ensures
            r@ == self@.root_path,
    {
        &self.root_path
    }

    /// The changed block whose declared target did not change.
    pub fn block(&self) -> (r: &OnChangeBlock)
        ensures
            r@ == self@.block,
    {
        &self.block
    }

    /// The file of the unmet target.
    pub fn target_file(&self) -> (r: &String)
        ensures
            r@ == self@.target_file,
    {
        &self.target_file
    }

    /// The unmet target block, for a block target.
    pub fn target_block(&self) -> (r: Option<&OnChangeBlock>)
        ensures
            match r {
                Some(b) => self@.target_block == Some(b@),
                None => self@.target_block is None,
            },
    {
        self.target_block.as_ref()
    }
}

/// The human-readable description of a violation: the unmet target and the
/// changed block that demanded it.
pub open spec fn spec_violation_message(v: ViolationV) -> Seq<char> {
    match v.target_block {
        Some(tb) => "block \""@ + crate::errors::spec_name_text(tb.name) + "\" at "@ + spec_join(
            v.root_path,
            v.target_file,
        ) + ":"@ + crate::strutil::spec_digits(tb.start_line as nat) + " (due to block \""@
            + crate::errors::spec_name_text(v.block.name) + "\" at "@ + spec_join(
            v.root_path,
            v.block.file,
        ) + ":"@ + crate::strutil::spec_digits(v.block.start_line as nat) + ")"@,
        None => "file \""@ + spec_join(v.root_path, v.target_file) + "\""@ + " (due to block \""@
            + crate::errors::spec_name_text(v.block.name) + "\" at "@ + spec_join(
            v.root_path,
            v.block.file,
        ) + ":"@ + crate::strutil::spec_digits(v.block.start_line as nat) + ")"@,
    }
}

impl OnChangeViolation {
    /// The human-readable description of this violation.
    pub fn to_string(&self) -> (r: String)
        ensures
            r@ == spec_violation_message(self@),
    {
        let mut out = String::new();
        match &self.target_block {
            Some(tb) => {
                crate::strutil::push_str(&mut out, "block \"");
                crate::strutil::push_str(&mut out, tb.name());
                crate::strutil::push_str(&mut out, "\" at ");
                let tf = join_path(self.root_path.as_str(), self.target_file.as_str());
                crate::strutil::push_str(&mut out, tf.as_str());
                crate::strutil::push_str(&mut out, ":");
                let l = crate::strutil::u32_str(tb.start_line());
                crate::strutil::push_str(&mut out, l.as_str());
            },
            None => {
                crate::strutil::push_str(&mut out, "file \"");
                let tf = join_path(self.root_path.as_str(), self.target_file.as_str());
                crate::strutil::push_str(&mut out, tf.as_str());
                crate::strutil::push_str(&mut out, "\"");
            },
        }
        crate::strutil::push_str(&mut out, " (due to block \"");
        crate::strutil::push_str(&mut out, self.block.name());
        crate::strutil::push_str(&mut out, "\" at ");
        let bf = join_path(self.root_path.as_str(), self.block.file().as_str());
        crate::strutil::push_str(&mut out, bf.as_str());
        crate::strutil::push_str(&mut out, ":");
        let l = crate::strutil::u32_str(self.block.start_line());
        crate::strutil::push_str(&mut out, l.as_str());
        crate::strutil::push_str(&mut out, ")");
        proof {
            assert(out@ =~= spec_violation_message(self@));
        }
        out
    }
}

/// The violation one target key of changed block `b` contributes: a block
/// target not among the changed targetable blocks, or a file target not
/// among the changed files.
pub open spec fn spec_violations_of_key(
    root: Seq<char>,
    fs: Seq<FileV>,
    staged_files: Seq<Seq<char>>,
    staged: Seq<(Seq<char>, Seq<crate::hunk::HunkV>)>,
    b: BlockV,
    key: (Seq<char>, Option<Seq<char>>),
) -> Seq<ViolationV> {
    match key.1 {
        Some(tn) => if spec_changed_targetable(fs, staged, key.0, tn) {
            Seq::empty()
        } else {
            seq![
                ViolationV {
                    root_path: root,
                    block: b,
                    target_file: key.0,
                    target_block: spec_get_block(fs, key.0, tn),
                },
            ]
        },
        None => if staged_files.contains(key.0) {
            Seq::empty()
        } else {
            seq![ViolationV { root_path: root, block: b, target_file: key.0, target_block: None }]
        },
    }
}

/// The violations of a changed block's target keys, in declaration order.
pub open spec fn spec_violations_of_keys(
    root: Seq<char>,
    fs: Seq<FileV>,
    staged_files: Seq<Seq<char>>,
    staged: Seq<(Seq<char>, Seq<crate::hunk::HunkV>)>,
    b: BlockV,
    keys: Seq<(Seq<char>, Option<Seq<char>>)>,
) -> Seq<ViolationV>
    decreases keys.len(),
{
    if keys.len() == 0 {
        Seq::empty()
    } else {
        spec_violations_of_key(root, fs, staged_files, staged, b, keys[0])
            + spec_violations_of_keys(root, fs, staged_files, staged, b, keys.drop_first())
    }
}

/// The violations of one file's blocks against one staged entry's hunks:
/// every changed block contributes the violations of its target keys.
pub open spec fn spec_violations_of_blocks(
    root: Seq<char>,
    fs: Seq<FileV>,
    staged_files: Seq<Seq<char>>,
    staged: Seq<(Seq<char>, Seq<crate::hunk::HunkV>)>,
    bs: Seq<BlockV>,
    hunks: Seq<crate::hunk::HunkV>,
) -> Seq<ViolationV>
    decreases bs.len(),
{
    if bs.len() == 0 {
        Seq::empty()
    } else {
        let head: Seq<ViolationV> = if crate::file::spec_block_changed(bs[0], hunks) {
            spec_violations_of_keys(
                root,
                fs,
                staged_files,
                staged,
                bs[0],
                crate::file::spec_target_keys(bs[0]),
            )
        } else {
            Seq::empty()
        };
        head + spec_violations_of_blocks(
            root,
            fs,
            staged_files,
            staged,
            bs.drop_first(),
            hunks,
        )
    }
}

/// The violations of the staged entries from index `k` on, in order.
pub open spec fn spec_violations_from(
    root: Seq<char>,
    fs: Seq<FileV>,
    staged_files: Seq<Seq<char>>,
    staged: Seq<(Seq<char>, Seq<crate::hunk::HunkV>)>,
    k: int,
) -> Seq<ViolationV>
    decreases staged.len() - k when 0 <= k <= staged.len()
{
    if k >= staged.len() {
        Seq::empty()
    } else {
        let head: Seq<ViolationV> = match spec_lookup_file(fs, staged[k].0) {
            None => Seq::empty(),
            Some(i) => spec_violations_of_blocks(
                root,
                fs,
                staged_files,
                staged,
                fs[i].blocks,
                staged[k].1,
            ),
        };
        head + spec_violations_from(root, fs, staged_files, staged, k + 1)
    }
}

/// The complete list of violations for a set of staged files and hunks.
pub open spec fn spec_violations(
    root: Seq<char>,
    fs: Seq<FileV>,
    staged_files: Seq<Seq<char>>,
    staged: Seq<(Seq<char>, Seq<crate::hunk::HunkV>)>,
) -> Seq<ViolationV> {
    spec_violations_from(root, fs, staged_files, staged, 0)
}

/// Whether the pair `(f, n)` is among the collected changed keys.
#[verifier::loop_isolation(false)]
fn pair_in(v: &Vec<(String, String)>, f: &String, n: &String) -> (r: bool)
    ensures
        r == v.deep_view().contains((f@, n@)),
{
    let mut i: usize = 0;
    while i < v.len()
        invariant
            0 <= i <= v@.len(),
            forall|k: int| 0 <= k < i ==> #[trigger] v.deep_view()[k] != (f@, n@),
        decreases v@.len() - i,
    {
        proof {
            assert(v.deep_view()[i as int] == (v@[i as int].0@, v@[i as int].1@));
        }
        if eq_strings(&v[i].0, f) && eq_strings(&v[i].1, n) {
            return true;
        }
        i = i + 1;
    }
    proof {
        if v.deep_view().contains((f@, n@)) {
            let k = choose|k: int| 0 <= k < v.deep_view().len() && v.deep_view()[k] == (f@, n@);
            assert(false);
        }
    }
    false
}

impl Parser {
    /// Collects the keys of every changed targetable block across the staged
    /// entries.
    #[verifier::loop_isolation(false)]
    fn changed_targetable_keys(&self, staged_hunks: &Vec<(String, Vec<crate::hunk::Hunk>)>) -> (r:
        Vec<(String, String)>)
        ensures
            forall|f: Seq<char>, n: Seq<char>|
                #![trigger r.deep_view().contains((f, n))]
                #![trigger spec_changed_targetable(self@.files, staged_hunks.deep_view(), f, n)]
                r.deep_view().contains((f, n)) <==> spec_changed_targetable(
                    self@.files,
                    staged_hunks.deep_view(),
                    f,
                    n,
                ),
    {
        let ghost fs = self@.files;
        let ghost staged = staged_hunks.deep_view();
        let mut r: Vec<(String, String)> = Vec::new();
        let mut k: usize = 0;
        proof {
            assert(r.deep_view() =~= Seq::<(Seq<char>, Seq<char>)>::empty());
        }
        while k < staged_hunks.len()
            invariant
                0 <= k <= staged_hunks@.len(),
                forall|f: Seq<char>, n: Seq<char>|
                    #![trigger r.deep_view().contains((f, n))]
                    r.deep_view().contains((f, n)) <==> exists|k2: int|
                        0 <= k2 < k && (#[trigger] staged[k2]).0 == f
                            && spec_file_has_changed_named(fs, f, staged[k2].1, n),
            decreases staged_hunks@.len() - k,
        {
            proof {
                assert(staged[k as int] == (staged_hunks@[k as int].0@, staged_hunks@[
                    k as int].1.deep_view()));
            }
            let entry = &staged_hunks[k];
            let path = &entry.0;
            let hunks = &entry.1;
            match lookup_file(&self.files, path) {
                None => {
                    proof {
                        assert forall|f: Seq<char>, n: Seq<char>|
                            true implies (#[trigger] r.deep_view().contains((f, n)) <==> exists|
                            k2: int,
                        |
                            0 <= k2 < k + 1 && (#[trigger] staged[k2]).0 == f
                                && spec_file_has_changed_named(fs, f, staged[k2].1, n)) by {
                            if r.deep_view().contains((f, n)) {
                                let k2 = choose|k2: int|
                                    0 <= k2 < k && (#[trigger] staged[k2]).0 == f
                                        && spec_file_has_changed_named(fs, f, staged[k2].1, n);
                                assert(0 <= k2 < k + 1 && staged[k2].0 == f
                                    && spec_file_has_changed_named(fs, f, staged[k2].1, n));
                            }
                            if exists|k2: int|
                                0 <= k2 < k + 1 && (#[trigger] staged[k2]).0 == f
                                    && spec_file_has_changed_named(fs, f, staged[k2].1, n) {
                                let k2 = choose|k2: int|
                                    0 <= k2 < k + 1 && (#[trigger] staged[k2]).0 == f
                                        && spec_file_has_changed_named(fs, f, staged[k2].1, n);
                                if k2 == k {
                                    assert(spec_lookup_file(fs, staged[k as int].0) is None);
                                    assert(false);
                                }
                            }
                        }
                    }
                },
                Some(file) => {
                    let blocks = file.blocks();
                    let ghost fi = spec_lookup_file(fs, staged[k as int].0)->0;
                    proof {
                        assert(file@ == fs[fi]);
                        assert(blocks.deep_view() == fs[fi].blocks);
                    }
                    let mut j: usize = 0;
                    while j < blocks.len()
                        invariant
                            0 <= j <= blocks@.len(),
                            forall|f: Seq<char>, n: Seq<char>|
                                #![trigger r.deep_view().contains((f, n))]
                                r.deep_view().contains((f, n)) <==> ((exists|k2: int|
                                    0 <= k2 < k && (#[trigger] staged[k2]).0 == f
                                        && spec_file_has_changed_named(fs, f, staged[k2].1, n))
                                    || (staged[k as int].0 == f && exists|j2: int|
                                    0 <= j2 < j && (#[trigger] fs[fi].blocks[j2]).name == Some(n)
                                        && crate::file::spec_block_changed(
                                        fs[fi].blocks[j2],
                                        staged[k as int].1,
                                    ))),
                        decreases blocks@.len() - j,
                    {
                        proof {
                            assert(fs[fi].blocks[j as int] == blocks@[j as int]@);
                        }
                        let b = &blocks[j];
                        let changed = crate::file::block_changed_by_any(b, hunks);
                        let is_named = b.is_targetable();
                        if changed && is_named {
                            let name = match b.name_raw() {
                                Some(n) => n.clone(),
                                None => {
                                    proof {
                                        assert(false);
                                    }
                                    String::new()
                                },
                            };
                            let ghost r0 = r.deep_view();
                            r.push((path.clone(), name));
                            proof {
                                assert(r.deep_view() =~= r0.push(
                                    (staged[k as int].0, fs[fi].blocks[j as int].name->0),
                                ));
                                lemma_pair_push_contains(
                                    r0,
                                    (staged[k as int].0, fs[fi].blocks[j as int].name->0),
                                );
                            }
                        }
                        j = j + 1;
                    }
                    proof {
                        assert forall|f: Seq<char>, n: Seq<char>|
                            true implies (#[trigger] r.deep_view().contains((f, n)) <==> exists|
                            k2: int,
                        |
                            0 <= k2 < k + 1 && (#[trigger] staged[k2]).0 == f
                                && spec_file_has_changed_named(fs, f, staged[k2].1, n)) by {
                            if r.deep_view().contains((f, n)) {
                                if staged[k as int].0 == f && exists|j2: int|
                                    0 <= j2 < blocks@.len() && (#[trigger] fs[fi].blocks[
                                        j2]).name == Some(n) && crate::file::spec_block_changed(
                                        fs[fi].blocks[j2],
                                        staged[k as int].1,
                                    ) {
                                    assert(spec_file_has_changed_named(
                                        fs,
                                        f,
                                        staged[k as int].1,
                                        n,
                                    ));
                                    assert(staged[k as int].0 == f
                                        && spec_file_has_changed_named(
                                        fs,
                                        f,
                                        staged[k as int].1,
                                        n,
                                    ));
                                }
                            }
                            if exists|k2: int|
                                0 <= k2 < k + 1 && (#[trigger] staged[k2]).0 == f
                                    && spec_file_has_changed_named(fs, f, staged[k2].1, n) {
                                let k2 = choose|k2: int|
                                    0 <= k2 < k + 1 && (#[trigger] staged[k2]).0 == f
                                        && spec_file_has_changed_named(fs, f, staged[k2].1, n);
                                if k2 == k {
                                    let j2 = choose|j2: int|
                                        0 <= j2 < fs[fi].blocks.len() && (#[trigger] fs[
                                            fi].blocks[j2]).name == Some(n)
                                            && crate::file::spec_block_changed(
                                            fs[fi].blocks[j2],
                                            staged[k as int].1,
                                        );
                                    assert(r.deep_view().contains((f, n)));
                                }
                            }
                        }
                    }
                },
            }
            k = k + 1;
        }
        proof {
            assert forall|f: Seq<char>, n: Seq<char>|
                true implies (#[trigger] r.deep_view().contains((f, n))
                <==> spec_changed_targetable(fs, staged, f, n)) by {}
        }
        r
    }

    /// Checks a set of staged changes against the graph: for every changed
    /// block, each declared block target must be among the changed targetable
    /// blocks, and each declared file target among the changed files; every
    /// unmet target is reported, in order, and nothing stops early.
    #[verifier::loop_isolation(false)]
    pub fn validate_git_repo(
        &self,
        staged_files: &Vec<String>,
        staged_hunks: &Vec<(String, Vec<crate::hunk::Hunk>)>,
    ) -> (r: Vec<OnChangeViolation>)
        ensures
            r.deep_view() == spec_violations(
                self@.root_path,
                self@.files,
                staged_files.deep_view(),
                staged_hunks.deep_view(),
            ),
    {
        let ghost root = self@.root_path;
        let ghost fs = self@.files;
        let ghost sfiles = staged_files.deep_view();
        let ghost staged = staged_hunks.deep_view();
        let tset = self.changed_targetable_keys(staged_hunks);
        let mut out: Vec<OnChangeViolation> = Vec::new();
        let mut k: usize = 0;
        proof {
            assert(out.deep_view() =~= Seq::<ViolationV>::empty());
        }
        while k < staged_hunks.len()
            invariant
                0 <= k <= staged_hunks@.len(),
                spec_violations(root, fs, sfiles, staged) == out.deep_view()
                    + spec_violations_from(root, fs, sfiles, staged, k as int),
            decreases staged_hunks@.len() - k,
        {
            proof {
                assert(staged[k as int] == (staged_hunks@[k as int].0@, staged_hunks@[
                    k as int].1.deep_view()));
            }
            let entry = &staged_hunks[k];
            let path = &entry.0;
            let hunks = &entry.1;
            match lookup_file(&self.files, path) {
                None => {
                    proof {
                        assert(spec_violations_from(root, fs, sfiles, staged, k as int)
                            =~= spec_violations_from(root, fs, sfiles, staged, k + 1));
                    }
                },
                Some(file) => {
                    let blocks = file.blocks();
                    let ghost fi = spec_lookup_file(fs, staged[k as int].0)->0;
                    let ghost bvs = fs[fi].blocks;
                    proof {
                        assert(file@ == fs[fi]);
                        assert(blocks.deep_view() == bvs);
                        assert(bvs.skip(0) =~= bvs);
                    }
                    let mut j: usize = 0;
                    while j < blocks.len()
                        invariant
                            0 <= j <= blocks@.len(),
                            spec_violations(root, fs, sfiles, staged) == out.deep_view()
                                + spec_violations_of_blocks(
                                root,
                                fs,
                                sfiles,
                                staged,
                                bvs.skip(j as int),
                                staged[k as int].1,
                            ) + spec_violations_from(root, fs, sfiles, staged, k + 1),
                        decreases blocks@.len() - j,
                    {
                        proof {
                            assert(bvs.skip(j as int)[0] == bvs[j as int]);
                            assert(bvs.skip(j as int).drop_first() =~= bvs.skip(j + 1));
                            assert(bvs[j as int] == blocks@[j as int]@);
                        }
                        let b = &blocks[j];
                        if crate::file::block_changed_by_any(b, hunks) {
                            let keys = b.get_then_change_targets_as_keys();
                            let ghost kvs = crate::file::spec_target_keys(bvs[j as int]);
                            proof {
                                assert(keys.deep_view() == kvs);
                                assert(kvs.skip(0) =~= kvs);
                            }
                            let mut m: usize = 0;
                            while m < keys.len()
                                invariant
                                    0 <= m <= keys@.len(),
                                    spec_violations(root, fs, sfiles, staged) == out.deep_view()
                                        + spec_violations_of_keys(
                                        root,
                                        fs,
                                        sfiles,
                                        staged,
                                        bvs[j as int],
                                        kvs.skip(m as int),
                                    ) + spec_violations_of_blocks(
                                        root,
                                        fs,
                                        sfiles,
                                        staged,
                                        bvs.skip(j + 1),
                                        staged[k as int].1,
                                    ) + spec_violations_from(root, fs, sfiles, staged, k + 1),
                                decreases keys@.len() - m,
                            {
                                proof {
                                    assert(kvs.skip(m as int)[0] == kvs[m as int]);
                                    assert(kvs.skip(m as int).drop_first() =~= kvs.skip(m + 1));
                                    assert(kvs[m as int] == (keys@[m as int].0@, match keys@[
                                        m as int].1 {
                                        Some(nm) => Some(nm@),
                                        None => None::<Seq<char>>,
                                    }));
                                }
                                let key = &keys[m];
                                let emit: Option<OnChangeViolation> = match &key.1 {
                                    Some(tn) => {
                                        if pair_in(&tset, &key.0, tn) {
                                            None
                                        } else {
                                            let tb = match self.get_block_in_file(&key.0, tn) {
                                                Some(tb) => Some(tb.duplicate()),
                                                None => None,
                                            };
                                            Some(
                                                OnChangeViolation {
                                                    root_path: self.root_path.clone(),
                                                    block: b.duplicate(),
                                                    target_file: key.0.clone(),
                                                    target_block: tb,
                                                },
                                            )
                                        }
                                    },
                                    None => {
                                        if path_in(staged_files, &key.0) {
                                            None
                                        } else {
                                            Some(
                                                OnChangeViolation {
                                                    root_path: self.root_path.clone(),
                                                    block: b.duplicate(),
                                                    target_file: key.0.clone(),
                                                    target_block: None,
                                                },
                                            )
                                        }
                                    },
                                };
                                let ghost out0 = out.deep_view();
                                match emit {
                                    Some(v) => {
                                        let ghost vv = v@;
                                        out.push(v);
                                        proof {
                                            assert(out.deep_view() =~= out0.push(vv));
                                            assert(spec_violations_of_key(
                                                root,
                                                fs,
                                                sfiles,
                                                staged,
                                                bvs[j as int],
                                                kvs[m as int],
                                            ) =~= seq![vv]);
                                            assert(out0 + (seq![vv] + (spec_violations_of_keys(
                                                root,
                                                fs,
                                                sfiles,
                                                staged,
                                                bvs[j as int],
                                                kvs.skip(m + 1),
                                            ) + spec_violations_of_blocks(
                                                root,
                                                fs,
                                                sfiles,
                                                staged,
                                                bvs.skip(j + 1),
                                                staged[k as int].1,
                                            ) + spec_violations_from(
                                                root,
                                                fs,
                                                sfiles,
                                                staged,
                                                k + 1,
                                            ))) =~= out.deep_view() + (spec_violations_of_keys(
                                                root,
                                                fs,
                                                sfiles,
                                                staged,
                                                bvs[j as int],
                                                kvs.skip(m + 1),
                                            ) + spec_violations_of_blocks(
                                                root,
                                                fs,
                                                sfiles,
                                                staged,
                                                bvs.skip(j + 1),
                                                staged[k as int].1,
                                            ) + spec_violations_from(
                                                root,
                                                fs,
                                                sfiles,
                                                staged,
                                                k + 1,
                                            )));
                                        }
                                    },
                                    None => {
                                        proof {
                                            assert(spec_violations_of_key(
                                                root,
                                                fs,
                                                sfiles,
                                                staged,
                                                bvs[j as int],
                                                kvs[m as int],
                                            ) =~= Seq::<ViolationV>::empty());
                                        }
                                    },
                                }
                                m = m + 1;
                            }
                            proof {
                                assert(kvs.skip(keys@.len() as int).len() == 0);
                                assert(spec_violations_of_keys(
                                    root,
                                    fs,
                                    sfiles,
                                    staged,
                                    bvs[j as int],
                                    kvs.skip(keys@.len() as int),
                                ) =~= Seq::<ViolationV>::empty());
                            }
                        }
                        j = j + 1;
                    }
                    proof {
                        assert(bvs.skip(blocks@.len() as int).len() == 0);
                    }
                },
            }
            k = k + 1;
        }
        proof {
            assert(spec_violations_from(root, fs, sfiles, staged, staged_hunks@.len() as int)
                =~= Seq::<ViolationV>::empty());
            assert(out.deep_view() =~= spec_violations(root, fs, sfiles, staged));
        }
        out
    }
}

/// Pushing a pair extends membership by exactly that pair.
proof fn lemma_pair_push_contains(s: Seq<(Seq<char>, Seq<char>)>, x: (Seq<char>, Seq<char>))
    ensures
        forall|y: (Seq<char>, Seq<char>)|
            #[trigger] s.push(x).contains(y) <==> (s.contains(y) || y == x),
{
    assert forall|y: (Seq<char>, Seq<char>)|
        #[trigger] s.push(x).contains(y) <==> (s.contains(y) || y == x) by {
        if s.push(x).contains(y) {
            let j = choose|j: int| 0 <= j < s.push(x).len() && s.push(x)[j] == y;
            if j < s.len() {
                assert(s[j] == y);
            }
        }
        if s.contains(y) {
            let j = choose|j: int| 0 <= j < s.len() && s[j] == y;
            assert(s.push(x)[j] == y);
        }
        if y == x {
            assert(s.push(x)[s.len() as int] == y);
        }
    }
}

} // verus!
