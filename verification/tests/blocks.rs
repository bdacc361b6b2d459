//! The per-file scan and the block data model, exercised directly.

use onchg::{File, Hunk, Line, OnChangeBlock, ThenChange, ThenChangeTarget};

fn existing(paths: &[&str]) -> Vec<String> {
    paths.iter().map(|p| (*p).to_string()).collect()
}

#[test]
fn parses_blocks_and_collects_referenced_files() {
    let contents = "LINT.OnChange(a)\nx\nLINT.ThenChange(f2.txt:b, f3.txt)\nLINT.OnChange()\nLINT.ThenChange(:a)\n";
    let ex = existing(&["f1.txt", "f2.txt", "f3.txt"]);
    let (file, refs) = File::parse("f1.txt".to_string(), contents, &ex, None).unwrap();
    assert_eq!(file.path(), "f1.txt");
    let blocks = file.blocks();
    assert_eq!(blocks.len(), 2);
    assert_eq!(blocks[0].name(), "a");
    assert_eq!(blocks[0].start_line(), 1);
    assert_eq!(blocks[0].end_line(), 3);
    assert_eq!(blocks[1].name(), "<unnamed>");
    assert!(refs.contains(&"f2.txt".to_string()));
    assert!(refs.contains(&"f3.txt".to_string()));
    assert_eq!(refs.len(), 2);
}

#[test]
fn parse_with_hunks_keeps_only_changed_blocks() {
    let contents = "LINT.OnChange(a)\nx\nLINT.ThenChange()\nLINT.OnChange(b)\ny\nLINT.ThenChange()\n";
    let ex = existing(&["f1.txt"]);
    // Only the second block is touched by the staged hunk.
    let hunks = vec![Hunk { start_line: 5, end_line: 5, lines: vec![Line::Add(5)] }];
    let (file, _refs) =
        File::parse("f1.txt".to_string(), contents, &ex, Some(&hunks)).unwrap();
    let blocks = file.blocks();
    assert_eq!(blocks.len(), 1);
    assert_eq!(blocks[0].name(), "b");
}

#[test]
fn nested_blocks_close_innermost_first() {
    let contents = "LINT.OnChange(outer)\nLINT.OnChange(inner)\nx\nLINT.ThenChange()\nLINT.ThenChange()\n";
    let ex = existing(&["f1.txt"]);
    let (file, _) = File::parse("f1.txt".to_string(), contents, &ex, None).unwrap();
    let blocks = file.blocks();
    assert_eq!(blocks.len(), 2);
    // Completed in closing order: the inner block first.
    assert_eq!(blocks[0].name(), "inner");
    assert_eq!(blocks[0].start_line(), 2);
    assert_eq!(blocks[0].end_line(), 4);
    assert_eq!(blocks[1].name(), "outer");
    assert_eq!(blocks[1].start_line(), 1);
    assert_eq!(blocks[1].end_line(), 5);
}

#[test]
fn target_accessors_and_keys() {
    let block = OnChangeBlock::new(
        "dir/f1.txt".to_string(),
        Some("a".to_string()),
        3,
        9,
        ThenChange::Targets(vec![
            ThenChangeTarget::File("dir/f2.txt".to_string()),
            ThenChangeTarget::Block { block: "b".to_string(), file: None },
            ThenChangeTarget::Block {
                block: "c".to_string(),
                file: Some("other.txt".to_string()),
            },
        ]),
    );
    assert_eq!(block.file(), "dir/f1.txt");
    assert_eq!(block.name_raw(), Some(&"a".to_string()));
    match block.then_change() {
        ThenChange::Targets(ts) => {
            assert_eq!(ts[0].file(), Some(&"dir/f2.txt".to_string()));
            assert_eq!(ts[0].block(), None);
            assert_eq!(ts[1].file(), None);
            assert_eq!(ts[1].block(), Some(&"b".to_string()));
            assert_eq!(ts[2].file(), Some(&"other.txt".to_string()));
            assert_eq!(ts[2].block(), Some(&"c".to_string()));
        }
        _ => panic!("expected targets"),
    }
    // A key takes the target's file, or the block's own file when missing.
    let keys = block.get_then_change_targets_as_keys();
    assert_eq!(
        keys,
        vec![
            ("dir/f2.txt".to_string(), None),
            ("dir/f1.txt".to_string(), Some("b".to_string())),
            ("other.txt".to_string(), Some("c".to_string())),
        ]
    );
}

#[test]
fn hunk_overlap_is_a_coarse_prefilter() {
    let block = OnChangeBlock::new(
        "f.txt".to_string(),
        Some("a".to_string()),
        5,
        10,
        ThenChange::NoTarget,
    );
    let hunk = |s: u32, e: u32| Hunk { start_line: s, end_line: e, lines: Vec::new() };
    // Hunk inside the block, block inside the hunk, and edge interleavings
    // all count as overlap; the prefilter errs on the permissive side and
    // never rejects a pair the precise check might accept.
    assert!(block.is_hunk_overlap(&hunk(6, 7)));
    assert!(block.is_hunk_overlap(&hunk(1, 20)));
    assert!(block.is_hunk_overlap(&hunk(3, 6)));
    assert!(block.is_hunk_overlap(&hunk(7, 20)));
    assert!(block.is_hunk_overlap(&hunk(1, 3)));
}

#[test]
fn trims_target_references_but_not_names() {
    let contents = "LINT.OnChange(a)\nLINT.ThenChange( f2.txt:b , :a )\n";
    let ex = existing(&["f1.txt", "f2.txt"]);
    let (file, refs) = File::parse("f1.txt".to_string(), contents, &ex, None).unwrap();
    match file.blocks()[0].then_change() {
        ThenChange::Targets(ts) => {
            assert_eq!(ts.len(), 2);
            assert_eq!(ts[0].file(), Some(&"f2.txt".to_string()));
            assert_eq!(ts[0].block(), Some(&"b".to_string()));
        }
        _ => panic!("expected targets"),
    }
    assert_eq!(refs, vec!["f2.txt".to_string()]);

    // A name keeps its surrounding spaces verbatim.
    let contents2 = "LINT.OnChange( spaced )\nLINT.ThenChange()\n";
    let (file2, _) = File::parse("f1.txt".to_string(), contents2, &ex, None).unwrap();
    assert_eq!(file2.blocks()[0].name(), " spaced ");
}

#[test]
fn marker_without_closing_parenthesis_is_not_a_marker() {
    let contents = "LINT.OnChange(a\nLINT.OnChange(b)\nLINT.ThenChange()\n";
    let ex = existing(&["f1.txt"]);
    let (file, _) = File::parse("f1.txt".to_string(), contents, &ex, None).unwrap();
    let blocks = file.blocks();
    assert_eq!(blocks.len(), 1);
    assert_eq!(blocks[0].name(), "b");
}
