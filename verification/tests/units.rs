//! Unit-level behavior: path resolution, hunk numbering, the changed-line
//! derivation, hunk building from parsed diffs, and error messages.

use onchg::paths::resolve_target_path;
use onchg::{Error, Hunk, Line, LineKind, parse_staged_file_list, staged_hunks_from_patches};

#[test]
fn resolves_bare_and_relative_targets() {
    // Bare filename: same directory as the referencing file.
    assert_eq!(
        resolve_target_path("abc/abc.txt", "hello.txt"),
        Some("abc/hello.txt".to_string())
    );
    // Relative path below the referencing file's directory.
    assert_eq!(
        resolve_target_path("abc/abc.txt", "def/def.txt"),
        Some("abc/def/def.txt".to_string())
    );
    // Root-relative.
    assert_eq!(
        resolve_target_path("abc/abc.txt", "//hello.txt"),
        Some("hello.txt".to_string())
    );
    // Leading dot components are stripped.
    assert_eq!(
        resolve_target_path("abc/abc.txt", "./x.txt"),
        Some("abc/x.txt".to_string())
    );
    assert_eq!(
        resolve_target_path("abc/def/f.txt", "../../x.txt"),
        Some("x.txt".to_string())
    );
    assert_eq!(
        resolve_target_path("f1.txt", "f2.txt"),
        Some("f2.txt".to_string())
    );
}

#[test]
fn rejects_malformed_targets() {
    // Absolute paths are not supported.
    assert_eq!(resolve_target_path("abc/abc.txt", "/etc/passwd"), None);
    // Dots are only permitted as a prefix.
    assert_eq!(resolve_target_path("abc/abc.txt", "a/b/../c"), None);
    assert_eq!(resolve_target_path("abc/abc.txt", "a/./c"), None);
    // Walking above the root is invalid.
    assert_eq!(resolve_target_path("f1.txt", "../x.txt"), None);
    // Empty reference.
    assert_eq!(resolve_target_path("f1.txt", ""), None);
}

#[test]
fn numbers_diff_line_kinds() {
    let kinds = vec![LineKind::Context, LineKind::Remove, LineKind::Add, LineKind::Context];
    let h = Hunk::from_line_kinds(3, 5, 3, &kinds);
    assert_eq!(h.start_line, 5);
    assert_eq!(h.end_line, 7);
    assert_eq!(
        h.lines,
        vec![Line::Context(3, 5), Line::Remove(4), Line::Add(6), Line::Context(5, 7)]
    );
}

#[test]
fn derives_changed_lines_by_drift() {
    // An added line is always changed; a context line whose old/new drift
    // matches the adds and removes seen so far is unchanged.
    let h = Hunk {
        start_line: 5,
        end_line: 6,
        lines: vec![Line::Add(5), Line::Context(10, 11)],
    };
    assert_eq!(h.changed_lines(), vec![5]);

    // A deletion right before a context line leaves a drift mismatch, so
    // that context line counts as changed.
    let h2 = Hunk { start_line: 3, end_line: 3, lines: vec![Line::Remove(3), Line::Context(3, 3)] };
    assert_eq!(h2.changed_lines(), vec![3]);
    assert!(h2.is_line_changed_within(2, 4));
    assert!(!h2.is_line_changed_within(3, 4));
}

#[test]
fn builds_hunks_from_parsed_patches() {
    // The ranges and line kinds of one staged file, as a diff parser hands
    // them over: old start 1, new start 1, four new-file lines.
    let patches = vec![(
        "f1.txt".to_string(),
        vec![(
            1u64,
            1u64,
            4u64,
            vec![LineKind::Context, LineKind::Add, LineKind::Context, LineKind::Context],
        )],
    )];
    let hunks = staged_hunks_from_patches(&patches).unwrap();
    assert_eq!(hunks.len(), 1);
    assert_eq!(hunks[0].0, "f1.txt");
    let h = &hunks[0].1[0];
    assert_eq!(h.start_line, 1);
    assert_eq!(h.end_line, 4);
    assert_eq!(
        h.lines,
        vec![Line::Context(1, 1), Line::Add(2), Line::Context(2, 3), Line::Context(3, 4)]
    );
}

#[test]
fn rejects_out_of_range_hunks() {
    // The first hunk whose numbers do not fit the supported range fails,
    // naming the file it belongs to.
    let patches = vec![
        ("f1.txt".to_string(), vec![(1u64, 1u64, 1u64, vec![LineKind::Add])]),
        ("f2.txt".to_string(), vec![(1u64, 5_000_000_000u64, 1u64, vec![LineKind::Add])]),
    ];
    let res = staged_hunks_from_patches(&patches);
    assert!(res.is_err());
    let msg = res.unwrap_err().to_string();
    assert_eq!(msg, r#"staged hunk in "f2.txt" has line numbers out of range"#);
}

#[test]
fn splits_staged_file_lists() {
    let r = parse_staged_file_list("  a.txt  \n\nb.txt\nsub/c.txt\n");
    assert_eq!(
        r,
        vec!["a.txt".to_string(), "b.txt".to_string(), "sub/c.txt".to_string()]
    );
    assert_eq!(parse_staged_file_list(""), Vec::<String>::new());
}

#[test]
fn renders_error_messages() {
    let e = Error::UnsetTarget {
        file: "f.txt".to_string(),
        name: Some("x".to_string()),
        end_line: 105,
    };
    assert_eq!(
        e.to_string(),
        r#"block "x" in file "f.txt" has an unset OnChange target (line 105)"#
    );
    let e = Error::NonExistentFileTarget {
        file: "f.txt".to_string(),
        name: None,
        end_line: 12,
        target: "g.txt".to_string(),
    };
    assert_eq!(
        e.to_string(),
        r#"block "<unnamed>" at "f.txt:12" has non-existent ThenChange target "g.txt""#
    );
}

#[test]
fn reports_a_close_marker_with_no_open() {
    let files: Vec<(String, String)> =
        vec![("f1.txt".to_string(), "text\nLINT.ThenChange()\n".to_string())];
    let res =
        onchg::Parser::from_files(vec!["f1.txt".to_string()], "/repo".to_string(), &files);
    let err = res.unwrap_err().to_string();
    assert_eq!(err, r#"found ThenChange at "f1.txt:2" with no matching OnChange"#);
}

#[test]
fn reports_an_absolute_target_as_invalid() {
    let files: Vec<(String, String)> = vec![(
        "f1.txt".to_string(),
        "LINT.OnChange(a)\nLINT.ThenChange(/abs/path.txt)\n".to_string(),
    )];
    let res =
        onchg::Parser::from_files(vec!["f1.txt".to_string()], "/repo".to_string(), &files);
    let err = res.unwrap_err().to_string();
    assert_eq!(
        err,
        r#"ThenChange target file "/abs/path.txt" at f1.txt:2 is invalid"#
    );
}

#[test]
fn reports_a_missing_named_file() {
    let files: Vec<(String, String)> = Vec::new();
    let res =
        onchg::Parser::from_files(vec!["f9.txt".to_string()], "/repo".to_string(), &files);
    let err = res.unwrap_err().to_string();
    assert_eq!(err, r#"file with path "/repo/f9.txt" does not exist"#);
}

#[test]
fn markers_share_a_line_with_other_text() {
    // A marker pair may sit anywhere in a line; the block spans the marker
    // lines.
    let files: Vec<(String, String)> = vec![
        (
            "f1.txt".to_string(),
            "LINT.OnChange(default)\n aaa LINT.ThenChange(f2.txt:first)\n".to_string(),
        ),
        (
            "f2.txt".to_string(),
            "LINT.OnChange(first)\nLINT.ThenChange(f1.txt:default)\n".to_string(),
        ),
    ];
    let p = onchg::Parser::from_files(
        vec!["f1.txt".to_string(), "f2.txt".to_string()],
        "/repo".to_string(),
        &files,
    )
    .unwrap();
    let blocks = p.on_change_blocks_in_file(&"f1.txt".to_string()).unwrap();
    assert_eq!(blocks[0].start_line(), 1);
    assert_eq!(blocks[0].end_line(), 2);
}
