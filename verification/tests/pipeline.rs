use todo_track::commands::check::{check_limit, exit_status};
use todo_track::commands::list::{
    apply_blame, apply_oldest, group_by_file, line_numbers_of, persist_blame,
};
use todo_track::commands::require_snapshot;
use todo_track::commands::scan::summarize;
use todo_track::commands::trend::{trend, Change};
use todo_track::git::{blame_file_lines, GitRun};
use todo_track::parser::Patterns;
use todo_track::scanner::{scan_entries, WalkEntry};
use todo_track::storage::{
    can_store, get_latest_snapshot, get_latest_todo_count, get_snapshots, get_todos_for_snapshot,
    open_db, save_snapshot,
};

fn file(path: &str, content: &str) -> WalkEntry {
    WalkEntry::File {
        path: path.to_string(),
        size: Some(content.len() as u64),
        content: Some(content.to_string()),
    }
}

fn blame_output(lines: &[(usize, &str, i64)]) -> String {
    let mut out = String::new();
    for (line, author, time) in lines {
        out.push_str(&format!(
            "{:040x} {} {} 1\nauthor {}\nauthor-time {}\nsummary s\n\tcode\n",
            *line as u64 + 0xabc,
            line,
            line,
            author,
            time
        ));
    }
    out
}

#[test]
fn scan_save_list_and_check() {
    let patterns = Patterns::new().unwrap();
    let mut conn = open_db(":memory:").unwrap();

    let first = scan_entries(
        &patterns,
        &[
            file("src/b.rs", "fn b() {}\n// TODO(bob): tidy up #12\n"),
            WalkEntry::Failed,
            file("src/a.rs", "// FIXME: first\nlet x = 1; // HACK: second\n\n/* XXX third */\n"),
            file("notes.txt", "nothing of interest\n"),
        ],
    );
    let summary = summarize(&first);
    assert_eq!((summary.todo_count, summary.file_count), (4, 2));
    assert_eq!((first.files_scanned, first.files_skipped), (3, 1));
    assert!(can_store(&first.todos));
    let first_id = save_snapshot(&mut conn, &first.todos).unwrap();

    let second = scan_entries(&patterns, &[file("src/a.rs", "// FIXME: first\n")]);
    let second_id = save_snapshot(&mut conn, &second.todos).unwrap();
    assert!(second_id > first_id);

    let history = get_snapshots(&mut conn).unwrap();
    assert_eq!(
        trend(&history).unwrap(),
        vec![Change::NoHistory, Change::Changed { diff: -3, percent: Some(-75) }]
    );
    assert_eq!(exit_status(&check_limit(get_latest_todo_count(&mut conn).unwrap(), 0).unwrap()), 1);
    assert_eq!(exit_status(&check_limit(get_latest_todo_count(&mut conn).unwrap(), 1).unwrap()), 0);

    let latest = require_snapshot(get_latest_snapshot(&mut conn).unwrap()).unwrap();
    assert_eq!(latest.id, second_id);

    let mut todos = get_todos_for_snapshot(&mut conn, first_id).unwrap();
    assert_eq!(todos.len(), 4);
    assert_eq!(todos[0].file_path, "src/a.rs");
    assert_eq!(todos[3].file_path, "src/b.rs");
    assert_eq!(todos[3].author.as_deref(), Some("bob"));
    assert_eq!(todos[3].issue_ref.as_deref(), Some("#12"));

    let groups = group_by_file(&todos);
    assert_eq!(groups.len(), 2);
    let mut runs = 0;
    for group in &groups {
        let lines = line_numbers_of(&todos, group);
        let out = if group.file_path == "src/a.rs" {
            blame_output(&[(1, "Ann", 1_600_000_000), (2, "Ben", 1_500_000_000), (3, "X", 0)])
        } else {
            blame_output(&[(2, "Bob", 1_400_000_000)])
        };
        runs += 1;
        let run = GitRun::Exited { success: true, stdout: out, stderr: String::new() };
        let found = blame_file_lines(&group.file_path, &lines, &run).unwrap();
        let updates = apply_blame(&mut todos, group, &found);
        let outcomes = persist_blame(&mut conn, &updates);
        assert_eq!(outcomes.len(), updates.len());
        assert!(outcomes.iter().all(|o| o.is_ok()));
    }
    assert_eq!(runs, 2);

    let stored = get_todos_for_snapshot(&mut conn, first_id).unwrap();
    let authors: Vec<Option<&str>> = stored.iter().map(|t| t.git_author.as_deref()).collect();
    assert_eq!(authors, vec![Some("Ann"), Some("Ben"), None, Some("Bob")]);
    let in_memory: Vec<Option<&str>> = todos.iter().map(|t| t.git_date.as_deref()).collect();
    assert_eq!(in_memory, vec![Some("2020-09-13"), Some("2017-07-14"), None, Some("2014-05-13")]);

    assert!(!apply_oldest(&mut todos, Some(3), true));
    let order: Vec<(&str, i64)> = todos.iter().map(|t| (t.file_path.as_str(), t.line_number)).collect();
    assert_eq!(order, vec![("src/b.rs", 2), ("src/a.rs", 2), ("src/a.rs", 1)]);
}
