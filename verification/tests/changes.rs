//! Change validation against staged files and hunks.

use onchg::{Hunk, Line, Parser};

fn store(files: &[(&str, &str)]) -> Vec<(String, String)> {
    files.iter().map(|(p, c)| (p.to_string(), c.to_string())).collect()
}

fn names(files: &[(&str, &str)]) -> Vec<String> {
    files.iter().map(|(p, _)| (*p).to_string()).collect()
}

fn add_hunk(line: u32) -> Hunk {
    Hunk { start_line: line, end_line: line, lines: vec![Line::Add(line)] }
}

const ROOT: &str = "/repo";

#[test]
fn change_inside_block_is_detected_and_outside_is_not() {
    let files = &[(
        "f1.txt",
        "one\ntwo\nthree\nfour\nLINT.OnChange(default)\nsix\nseven\neight\nnine\nLINT.ThenChange()\n",
    )];
    let p = Parser::from_files(names(files), ROOT.to_string(), &store(files)).unwrap();
    let blocks = p.on_change_blocks_in_file(&"f1.txt".to_string()).unwrap();
    assert_eq!(blocks[0].start_line(), 5);
    assert_eq!(blocks[0].end_line(), 10);
    // A hunk that adds a line at line 7 changes the block.
    assert!(blocks[0].is_changed_by_hunk(&add_hunk(7)));
    // A hunk touching only lines 1 to 3 does not.
    let early = Hunk {
        start_line: 1,
        end_line: 3,
        lines: vec![Line::Add(1), Line::Context(1, 2), Line::Context(2, 3)],
    };
    assert!(!blocks[0].is_changed_by_hunk(&early));
}

#[test]
fn one_sided_edit_in_a_cycle_is_a_violation() {
    let files = &[
        (
            "f1.txt",
            "LINT.OnChange(default)\nbody\nLINT.ThenChange(f2.txt:default)\n",
        ),
        (
            "f2.txt",
            "LINT.OnChange(default)\nLINT.ThenChange(f1.txt:default)\n",
        ),
    ];
    let p = Parser::from_files(names(files), ROOT.to_string(), &store(files)).unwrap();

    // Staging an edit inside f1's block only: exactly one violation, naming
    // f2's block as the unmet target.
    let staged_files = vec!["f1.txt".to_string()];
    let staged_hunks = vec![("f1.txt".to_string(), vec![add_hunk(2)])];
    let violations = p.validate_git_repo(&staged_files, &staged_hunks);
    assert_eq!(violations.len(), 1);
    let v = &violations[0];
    assert_eq!(v.target_file(), "f2.txt");
    assert_eq!(v.target_block().unwrap().name(), "default");
    assert_eq!(v.block().file(), "f1.txt");
    assert_eq!(
        v.to_string(),
        r#"block "default" at /repo/f2.txt:1 (due to block "default" at /repo/f1.txt:1)"#
    );

    // Staging the matching edit in f2 as well: no violations.
    let staged_files = vec!["f1.txt".to_string(), "f2.txt".to_string()];
    let staged_hunks = vec![
        ("f1.txt".to_string(), vec![add_hunk(2)]),
        ("f2.txt".to_string(), vec![add_hunk(2)]),
    ];
    let violations = p.validate_git_repo(&staged_files, &staged_hunks);
    assert_eq!(violations.len(), 0);
}

#[test]
fn exactly_one_violation_per_unmet_target() {
    let files = &[
        (
            "f1.txt",
            "LINT.OnChange(default)\nbody\nLINT.ThenChange(f2.txt:a, f3.txt:b, f4.txt:c)\n",
        ),
        ("f2.txt", "LINT.OnChange(a)\nLINT.ThenChange()\n"),
        ("f3.txt", "LINT.OnChange(b)\nLINT.ThenChange()\n"),
        ("f4.txt", "LINT.OnChange(c)\nLINT.ThenChange()\n"),
    ];
    let p = Parser::from_files(names(files), ROOT.to_string(), &store(files)).unwrap();

    // The block declares three targets; only f2's block also changed, so
    // exactly the two other targets are reported.
    let staged_files = vec!["f1.txt".to_string(), "f2.txt".to_string()];
    let staged_hunks = vec![
        ("f1.txt".to_string(), vec![add_hunk(2)]),
        ("f2.txt".to_string(), vec![add_hunk(1)]),
    ];
    let violations = p.validate_git_repo(&staged_files, &staged_hunks);
    assert_eq!(violations.len(), 2);
    assert_eq!(violations[0].target_file(), "f3.txt");
    assert_eq!(violations[1].target_file(), "f4.txt");
}

#[test]
fn unnamed_block_is_source_but_never_target() {
    let files = &[
        (
            "f1.txt",
            "LINT.OnChange()\nbody\nLINT.ThenChange(f2.txt:other)\n",
        ),
        (
            "f2.txt",
            "LINT.OnChange(other)\nLINT.ThenChange()\n",
        ),
    ];
    let p = Parser::from_files(names(files), ROOT.to_string(), &store(files)).unwrap();
    let blocks = p.on_change_blocks_in_file(&"f1.txt".to_string()).unwrap();
    assert!(!blocks[0].is_targetable());
    assert_eq!(blocks[0].name(), "<unnamed>");

    // The unnamed block registers as the source of a violation when its own
    // target did not change.
    let staged_files = vec!["f1.txt".to_string()];
    let staged_hunks = vec![("f1.txt".to_string(), vec![add_hunk(2)])];
    let violations = p.validate_git_repo(&staged_files, &staged_hunks);
    assert_eq!(violations.len(), 1);
    assert!(!violations[0].block().is_targetable());
    // Every unmet target named by a violation is a targetable block.
    assert!(violations[0].target_block().unwrap().is_targetable());
}

#[test]
fn whole_file_target_requires_the_file_to_change() {
    let files = &[
        (
            "f1.txt",
            "LINT.OnChange(this)\nbody\nLINT.ThenChange(f2.txt)\n",
        ),
        ("f2.txt", "plain\n"),
    ];
    let p = Parser::from_files(names(files), ROOT.to_string(), &store(files)).unwrap();

    // f2.txt is not staged: the file target is unmet.
    let staged_files = vec!["f1.txt".to_string()];
    let staged_hunks = vec![("f1.txt".to_string(), vec![add_hunk(2)])];
    let violations = p.validate_git_repo(&staged_files, &staged_hunks);
    assert_eq!(violations.len(), 1);
    assert!(violations[0].target_block().is_none());
    assert_eq!(
        violations[0].to_string(),
        r#"file "/repo/f2.txt" (due to block "this" at /repo/f1.txt:1)"#
    );

    // Once f2.txt is staged too, the obligation is met.
    let staged_files = vec!["f1.txt".to_string(), "f2.txt".to_string()];
    let violations = p.validate_git_repo(&staged_files, &staged_hunks);
    assert_eq!(violations.len(), 0);
}

#[test]
fn unanchored_deletions_are_conservatively_unaffected() {
    // When a hunk deletes lines without any context line coinciding with the
    // block's start or end, the old-coordinate span cannot be recovered and
    // the block is reported unaffected.
    let files = &[(
        "f1.txt",
        "LINT.OnChange(default)\nbody\nLINT.ThenChange()\n",
    )];
    let p = Parser::from_files(names(files), ROOT.to_string(), &store(files)).unwrap();
    let blocks = p.on_change_blocks_in_file(&"f1.txt".to_string()).unwrap();
    let hunk = Hunk {
        start_line: 1,
        end_line: 1,
        lines: vec![Line::Remove(2), Line::Context(4, 1)],
    };
    assert!(!blocks[0].is_changed_by_hunk(&hunk));
}

#[test]
fn unrelated_staged_files_produce_no_violations() {
    let files = &[
        (
            "f1.txt",
            "LINT.OnChange(default)\nbody\nmore\nLINT.ThenChange(f2.txt:other)\n",
        ),
        (
            "f2.txt",
            "LINT.OnChange(other)\nLINT.ThenChange()\n",
        ),
    ];
    let p = Parser::from_files(names(files), ROOT.to_string(), &store(files)).unwrap();
    // The staged hunk only touches lines after the block, seen through
    // context lines; the block is unaffected.
    let staged_files = vec!["f1.txt".to_string()];
    let staged_hunks = vec![(
        "f1.txt".to_string(),
        vec![Hunk { start_line: 5, end_line: 6, lines: vec![Line::Add(5), Line::Add(6)] }],
    )];
    let violations = p.validate_git_repo(&staged_files, &staged_hunks);
    assert_eq!(violations.len(), 0);
}

#[test]
fn deletion_between_context_anchors_changes_the_block() {
    let files = &[
        (
            "f1.txt",
            "LINT.OnChange(default)\nbody\nLINT.ThenChange(f2.txt:other)\n",
        ),
        (
            "f2.txt",
            "LINT.OnChange(other)\nLINT.ThenChange()\n",
        ),
    ];
    let p = Parser::from_files(names(files), ROOT.to_string(), &store(files)).unwrap();
    let blocks = p.on_change_blocks_in_file(&"f1.txt".to_string()).unwrap();
    // The old file had an extra line inside the block; the hunk shows both
    // markers as context and the deleted line in between.
    let hunk = Hunk {
        start_line: 1,
        end_line: 2,
        lines: vec![
            Line::Context(1, 1),
            Line::Remove(2),
            Line::Context(3, 2),
        ],
    };
    assert!(blocks[0].is_changed_by_hunk(&hunk));

    // A deletion whose anchors sit entirely before the block leaves it
    // unaffected.
    let hunk_before = Hunk {
        start_line: 1,
        end_line: 1,
        lines: vec![Line::Remove(1), Line::Context(2, 1)],
    };
    let far_files = &[(
        "g.txt",
        "a\nb\nc\nd\nLINT.OnChange(x)\ne\nLINT.ThenChange()\n",
    )];
    let p2 = Parser::from_files(names(far_files), ROOT.to_string(), &store(far_files)).unwrap();
    let far_blocks = p2.on_change_blocks_in_file(&"g.txt".to_string()).unwrap();
    assert!(!far_blocks[0].is_changed_by_hunk(&hunk_before));
}
