use todo_track::parser::Patterns;
use todo_track::scanner::{
    keeps_entry, scan_entries, should_skip_dir, within_size_limit, ScanResult, WalkEntry,
    MAX_FILE_SIZE,
};

fn file(path: &str, content: &str) -> WalkEntry {
    WalkEntry::File {
        path: path.to_string(),
        size: Some(content.len() as u64),
        content: Some(content.to_string()),
    }
}

#[test]
fn skipped_directories() {
    for name in [
        ".git",
        ".hg",
        ".svn",
        "node_modules",
        "target",
        "vendor",
        ".todo-track",
        "__pycache__",
        ".venv",
        "venv",
        "dist",
        "build",
    ] {
        assert!(should_skip_dir(name), "{}", name);
    }
    for name in ["", "src", "git", ".gitignore", "Target", "builds", "dist ", "node_module", "."] {
        assert!(!should_skip_dir(name), "{}", name);
    }
}

#[test]
fn only_directories_are_pruned() {
    assert!(!keeps_entry(true, Some("target")));
    assert!(keeps_entry(false, Some("target")));
    assert!(keeps_entry(true, Some("src")));
    assert!(keeps_entry(true, None));
    assert!(keeps_entry(false, None));
}

#[test]
fn size_limit_is_one_mebibyte() {
    assert_eq!(MAX_FILE_SIZE, 1_048_576);
    assert!(within_size_limit(0));
    assert!(within_size_limit(1_048_576));
    assert!(!within_size_limit(1_048_577));
    assert!(!within_size_limit(u64::MAX));
}

#[test]
fn scan_of_two_files() {
    let p = Patterns::new().unwrap();
    let entries = vec![
        WalkEntry::NotAFile,
        file("a.txt", "// TODO: fix this later\n"),
        file("b.txt", "first\nsecond\n# FIXME: broken sorting see #42\n"),
    ];
    let result = scan_entries(&p, &entries);
    assert_eq!(result.todos.len(), 2);
    assert_eq!(result.files_scanned, 2);
    assert_eq!(result.files_skipped, 0);
    assert_eq!(result.todos[0].file_path, "a.txt");
    assert_eq!(result.todos[0].item.keyword, "TODO");
    assert_eq!(result.todos[0].item.line_number, 1);
    assert_eq!(result.todos[0].item.description, "fix this later");
    assert_eq!(result.todos[1].file_path, "b.txt");
    assert_eq!(result.todos[1].item.keyword, "FIXME");
    assert_eq!(result.todos[1].item.line_number, 3);
    assert_eq!(result.todos[1].item.issue_ref.as_deref(), Some("#42"));
}

#[test]
fn a_new_scan_is_empty() {
    let result = ScanResult::new();
    assert!(result.todos.is_empty());
    assert_eq!(result.files_scanned, 0);
    assert_eq!(result.files_skipped, 0);
}

#[test]
fn what_is_skipped_and_what_is_scanned() {
    let p = Patterns::new().unwrap();
    let mut result = ScanResult::new();

    result.record(&p, &WalkEntry::Failed);
    assert_eq!((result.files_scanned, result.files_skipped), (0, 1));

    result.record(&p, &WalkEntry::NotAFile);
    assert_eq!((result.files_scanned, result.files_skipped), (0, 1));

    let no_metadata =
        WalkEntry::File { path: "m".to_string(), size: None, content: Some("// TODO: x".to_string()) };
    result.record(&p, &no_metadata);
    assert_eq!((result.files_scanned, result.files_skipped), (0, 2));

    let too_large = WalkEntry::File {
        path: "l".to_string(),
        size: Some(MAX_FILE_SIZE + 1),
        content: Some("// TODO: x".to_string()),
    };
    result.record(&p, &too_large);
    assert_eq!((result.files_scanned, result.files_skipped), (0, 3));

    let no_text = WalkEntry::File { path: "b".to_string(), size: Some(10), content: None };
    result.record(&p, &no_text);
    assert_eq!((result.files_scanned, result.files_skipped), (0, 4));
    assert!(result.todos.is_empty());

    let at_limit = WalkEntry::File {
        path: "ok".to_string(),
        size: Some(MAX_FILE_SIZE),
        content: Some("// TODO: x\n// HACK: y".to_string()),
    };
    result.record(&p, &at_limit);
    assert_eq!((result.files_scanned, result.files_skipped), (1, 4));
    assert_eq!(result.todos.len(), 2);
    assert_eq!(result.todos[1].file_path, "ok");
    assert_eq!(result.todos[1].item.line_number, 2);

    result.record(&p, &file("none", "nothing here\n"));
    assert_eq!((result.files_scanned, result.files_skipped), (2, 4));
    assert_eq!(result.todos.len(), 2);
}

#[test]
fn markers_of_one_file_are_in_line_order() {
    let p = Patterns::new().unwrap();
    let content = "// TODO: a\nx\n// FIXME: b\n// XXX: c\ny\n// HACK: d\n";
    let result = scan_entries(&p, &vec![file("f", content)]);
    let numbers: Vec<usize> = result.todos.iter().map(|t| t.item.line_number).collect();
    assert_eq!(numbers, vec![1, 3, 4, 6]);
}

#[test]
fn scan_of_nothing() {
    let p = Patterns::new().unwrap();
    let result = scan_entries(&p, &Vec::new());
    assert!(result.todos.is_empty());
    assert_eq!((result.files_scanned, result.files_skipped), (0, 0));
}
