//! Graph construction and static validation, driven from in-memory files.

use onchg::Parser;

fn store(files: &[(&str, &str)]) -> Vec<(String, String)> {
    files.iter().map(|(p, c)| (p.to_string(), c.to_string())).collect()
}

fn names(files: &[(&str, &str)]) -> Vec<String> {
    files.iter().map(|(p, _)| (*p).to_string()).collect()
}

const ROOT: &str = "/repo";

#[test]
fn test_from_directory() {
    let files = &[
        (
            "f1.txt",
            "LINT.OnChange(default)\n
                 abdbbda\nadadd\n
                 LINT.ThenChange(f2.txt:other)",
        ),
        (
            "f2.txt",
            "LINT.OnChange(other)\n
                 LINT.ThenChange(f1.txt:default)",
        ),
    ];
    Parser::from_directory(ROOT.to_string(), &store(files)).unwrap();
}

#[test]
fn test_from_files() {
    let files = &[
        (
            "f1.txt",
            "LINT.OnChange()\n
                 abdbbda\n
                 adadd\n
                 LINT.ThenChange(f2.txt:other)",
        ),
        (
            "f2.txt",
            "LINT.OnChange(other)\n
                 LINT.ThenChange()",
        ),
    ];
    Parser::from_files(names(files), ROOT.to_string(), &store(files)).unwrap();
}

#[test]
fn test_from_files_file_target() {
    let files = &[
        (
            "f1.txt",
            "LINT.OnChange()\n
                 abdbbda\nadadd\n
                 LINT.ThenChange(f2.txt:other)",
        ),
        (
            "f2.txt",
            "LINT.OnChange(other)\n
                 LINT.ThenChange()",
        ),
        (
            "f3.txt",
            "LINT.OnChange(this)\n
                 LINT.ThenChange(f1.txt)",
        ),
    ];
    Parser::from_files(names(files), ROOT.to_string(), &store(files)).unwrap();
}

#[test]
fn test_from_files_file_target_parsed() {
    let files = &[
        (
            "f1.txt",
            "LINT.OnChange()\n
                 abdbbda\nadadd\n
                 LINT.ThenChange(f2.txt:other)",
        ),
        (
            "f2.txt",
            "LINT.OnChange(other)\n
                 LINT.ThenChange()",
        ),
        (
            "f3.txt",
            "LINT.OnChange(this)\n
                 LINT.ThenChange(f1.txt)",
        ),
    ];
    // Only provide f3.txt; the rest is pulled in through its targets.
    let p = Parser::from_files(vec!["f3.txt".to_string()], ROOT.to_string(), &store(files))
        .unwrap();
    assert_eq!(p.paths().len(), 3);
}

#[test]
fn test_from_files_relative_target() {
    let files = &[
        (
            "abc/f1.txt",
            "LINT.OnChange()\n
                 abdbbda\nadadd\n
                 LINT.ThenChange(../f2.txt:other)",
        ),
        (
            "f2.txt",
            "LINT.OnChange(other)\n
                 LINT.ThenChange()",
        ),
    ];
    Parser::from_files(names(files), ROOT.to_string(), &store(files)).unwrap();
}

#[test]
fn test_from_files_invalid_block_target_file_path() {
    let files = &[
        (
            "f1.txt",
            "LINT.OnChange(default)\n
                 abdbbda\nadadd\n
                 LINT.ThenChange(f3.txt:default)",
        ),
        (
            "f2.txt",
            "LINT.OnChange(default)\n
                 LINT.ThenChange(f1.txt:default)",
        ),
    ];
    let res = Parser::from_files(names(files), ROOT.to_string(), &store(files));
    assert!(res.is_err());
    let err = res.unwrap_err().to_string();
    assert_eq!(
        err,
        r#"ThenChange target file "f3.txt" at f1.txt:6 does not exist"#
    );
}

#[test]
fn test_from_files_invalid_block_target() {
    let files = &[
        (
            "f1.txt",
            "LINT.OnChange(default)\n
                 abdbbda\nadadd\n
                 LINT.ThenChange(f2.txt:invalid)",
        ),
        (
            "f2.txt",
            "LINT.OnChange(default)\n
                 LINT.ThenChange(f1.txt:default)",
        ),
    ];
    let res = Parser::from_files(names(files), ROOT.to_string(), &store(files));
    assert!(res.is_err());
    let err = res.unwrap_err().to_string();
    assert_eq!(
        err,
        r#"block "default" at "f1.txt:6" has non-existent ThenChange target "f2.txt:invalid""#,
    );
}

#[test]
fn test_from_files_duplicate_block_in_file() {
    let files = &[(
        "f1.txt",
        "LINT.OnChange(default)\n
             abdbbda\nadadd\n
             LINT.ThenChange(:other)
             LINT.OnChange(default)\n
             abdbbda\n
             LINT.ThenChange(:other)
             LINT.OnChange(other)\n
             abdbbda\nadadd\n
             LINT.ThenChange(:default)",
    )];
    let res = Parser::from_files(names(files), ROOT.to_string(), &store(files));
    assert!(res.is_err());
    let err = res.unwrap_err().to_string();
    assert_eq!(
        err,
        r#"duplicate block name "default" found on f1.txt:1 and f1.txt:7"#,
    );
}

#[test]
fn test_from_files_nested_on_change() {
    let files = &[(
        "f1.txt",
        "LINT.OnChange(default)\n
             abdbbda\nadadd\n
             LINT.OnChange(other)\n
             LINT.ThenChange(:other)\n
             LINT.ThenChange()",
    )];
    Parser::from_files(names(files), ROOT.to_string(), &store(files)).unwrap();
}

#[test]
fn test_from_files_nested_on_change_unbalanced() {
    let files = &[(
        "f1.txt",
        "LINT.OnChange(default)\n
             abdbbda\nadadd\n
             LINT.OnChange(other)\n
             LINT.ThenChange(:other)",
    )];
    let res = Parser::from_files(names(files), ROOT.to_string(), &store(files));
    assert!(res.is_err());
    let err = res.unwrap_err().to_string();
    assert!(err.contains(
        "while looking for ThenChange for block \"default\" which started on line 1"
    ));
}

#[test]
fn test_from_files_eof_in_block() {
    let files = &[("f1.txt", "LINT.OnChange(default)\nabdbbda\nadadd\n")];
    let res = Parser::from_files(names(files), ROOT.to_string(), &store(files));
    assert!(res.is_err());
    let err = res.unwrap_err().to_string();
    assert!(err.contains("reached end of file"));
}

#[test]
fn test_from_directory_with_code() {
    let f1 = "<html>\n    <body>\n        <!-- LINT.OnChange(html) -->\n        <h1>Hello</h1>\n        <!-- LINT.ThenChange(f2.cpp:cpp) -->\n        <p>abc</p>\n        <!-- LINT.OnChange(other-html) -->\n        <p>def</p>\n        <!-- LINT.ThenChange() -->\n    </body>\n</html>\n";
    let f2 = "class A {\n    A() {\n        // LINT.OnChange()\n        int a = 10;\n        // LINT.ThenChange(abc/f3.py:python)\n    }\n}\nint main() {\n    // LINT.OnChange(cpp)\n    printf(\"Hello, world!\\n);\n    // LINT.ThenChange(f1.html:html)\n}\n";
    let f3 = "class A:\n    def __init__(self):\n        # LINT.OnChange(python)\n        self.v = 10\n        # LINT.ThenChange(../f1.html)\n\nif __name__ == \"__main__\":\n    print(A())\n";
    let files = &[("f1.html", f1), ("f2.cpp", f2), ("abc/f3.py", f3)];
    Parser::from_directory(ROOT.to_string(), &store(files)).unwrap();
}

#[test]
fn from_files_scans_only_named_and_referenced_files() {
    let files = &[
        (
            "f1.txt",
            "LINT.OnChange(default)\nbody\nLINT.ThenChange(f2.txt:other)\n",
        ),
        (
            "f2.txt",
            "LINT.OnChange(other)\nLINT.ThenChange()\n",
        ),
        (
            "unrelated.txt",
            "LINT.OnChange(lonely)\nLINT.ThenChange()\n",
        ),
    ];
    let p = Parser::from_files(
        vec!["f1.txt".to_string()],
        ROOT.to_string(),
        &store(files),
    )
    .unwrap();
    let paths: Vec<&String> = p.paths();
    assert_eq!(paths.len(), 2);
    assert!(paths.iter().all(|q| q.as_str() != "unrelated.txt"));
}

#[test]
fn test_validate_empty_git_repo() {
    let files: &[(&str, &str)] = &[];
    let p = Parser::from_files(Vec::new(), ROOT.to_string(), &store(files)).unwrap();
    let violations = p.validate_git_repo(&Vec::new(), &Vec::new());
    assert_eq!(violations.len(), 0);
}

#[test]
fn validation_is_idempotent_across_runs() {
    let files = &[
        (
            "f1.txt",
            "LINT.OnChange(default)\nbody\nLINT.ThenChange(f2.txt:other)\n",
        ),
        (
            "f2.txt",
            "LINT.OnChange(other)\nLINT.ThenChange(f1.txt:default)\n",
        ),
    ];
    let p1 = Parser::from_files(names(files), ROOT.to_string(), &store(files)).unwrap();
    let p2 = Parser::from_files(names(files), ROOT.to_string(), &store(files)).unwrap();
    let paths1: Vec<String> = p1.paths().iter().map(|p| (*p).clone()).collect();
    let paths2: Vec<String> = p2.paths().iter().map(|p| (*p).clone()).collect();
    assert_eq!(paths1, paths2);
    assert_eq!(p1.num_blocks(), p2.num_blocks());
    // Re-checking the same unchanged set still accepts it and reports the
    // same (empty) violation list for the same staged state.
    let v1 = p1.validate_git_repo(&Vec::new(), &Vec::new());
    let v2 = p2.validate_git_repo(&Vec::new(), &Vec::new());
    assert_eq!(v1.len(), v2.len());
}

#[test]
fn lookups_find_blocks_and_files() {
    let files = &[
        (
            "f1.txt",
            "LINT.OnChange(default)\nbody\nLINT.ThenChange(f2.txt:other)\n",
        ),
        (
            "f2.txt",
            "LINT.OnChange(other)\nLINT.ThenChange()\n",
        ),
    ];
    let p = Parser::from_files(names(files), ROOT.to_string(), &store(files)).unwrap();
    assert_eq!(p.root_path(), ROOT);
    assert_eq!(p.num_blocks(), 2);
    let blocks = p.on_change_blocks_in_file(&"f1.txt".to_string()).unwrap();
    assert_eq!(blocks.len(), 1);
    assert_eq!(blocks[0].name(), "default");
    assert_eq!(blocks[0].start_line(), 1);
    assert_eq!(blocks[0].end_line(), 3);
    assert!(blocks[0].is_targetable());
    let b = p
        .get_block_in_file(&"f2.txt".to_string(), &"other".to_string())
        .unwrap();
    assert_eq!(b.name(), "other");
    assert!(p.get_block_in_file(&"f2.txt".to_string(), &"missing".to_string()).is_none());
    assert!(p.on_change_blocks_in_file(&"f9.txt".to_string()).is_none());
}
