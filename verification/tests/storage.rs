use rusqlite::Connection;
use todo_track::error::{ColumnKind, DatabaseError, TodoTrackError};
use todo_track::parser::TodoItem;
use todo_track::scanner::FileTodo;
use todo_track::storage::{
    can_store, count_of, decode_snapshot, decode_todo, get_latest_snapshot, get_latest_todo_count,
    get_snapshots, get_todos_for_snapshot, header_row, latest_of, location_before_or_same,
    advance, blame_row, marker_row, next_step, open_db, save_snapshot, save_snapshot_at,
    snapshots_from_rows, start_write, statement_of, todos_from_rows, update_git_blame,
    write_result, Field,
    Snapshot, Store, StoredTodo, WriteRun, WriteStep,
};

#[test]
fn where_the_store_lies() {
    assert_eq!(todo_track::storage::store_dir(), ".todo-track");
    assert_eq!(todo_track::storage::store_file(), "db.sqlite");
    assert!(todo_track::scanner::should_skip_dir(todo_track::storage::store_dir()));
}

fn store() -> Store {
    open_db(":memory:").unwrap()
}

fn todo(path: &str, line: usize, keyword: &str, description: &str) -> FileTodo {
    FileTodo {
        file_path: path.to_string(),
        item: TodoItem {
            line_number: line,
            keyword: keyword.to_string(),
            author: None,
            issue_ref: None,
            description: description.to_string(),
        },
    }
}

fn full(path: &str, line: usize) -> FileTodo {
    FileTodo {
        file_path: path.to_string(),
        item: TodoItem {
            line_number: line,
            keyword: "FIXME".to_string(),
            author: Some("alice".to_string()),
            issue_ref: Some("#42".to_string()),
            description: "broken \u{1F680} sorting see #42".to_string(),
        },
    }
}

fn text(s: &str) -> Field {
    Field::Text(s.to_string())
}

fn is_text(f: &Field, expected: &str) -> bool {
    matches!(f, Field::Text(t) if t == expected)
}

fn is_int(f: &Field, expected: i64) -> bool {
    matches!(f, Field::Integer(n) if *n == expected)
}

#[test]
fn what_is_saved_reads_back() {
    let mut conn = store();
    let todos = vec![full("src/b.rs", 7), todo("src/a.rs", 3, "TODO", "x"), todo("src/a.rs", 1, "HACK", "")];
    let id = save_snapshot(&mut conn, &todos).unwrap();
    let stored = get_todos_for_snapshot(&mut conn, id).unwrap();
    assert_eq!(stored.len(), 3);

    assert_eq!(stored[0].file_path, "src/a.rs");
    assert_eq!(stored[0].line_number, 1);
    assert_eq!(stored[0].keyword, "HACK");
    assert_eq!(stored[0].description, "");
    assert_eq!(stored[0].author, None);
    assert_eq!(stored[0].issue_ref, None);

    assert_eq!(stored[1].file_path, "src/a.rs");
    assert_eq!(stored[1].line_number, 3);
    assert_eq!(stored[1].keyword, "TODO");
    assert_eq!(stored[1].description, "x");

    assert_eq!(stored[2].file_path, "src/b.rs");
    assert_eq!(stored[2].line_number, 7);
    assert_eq!(stored[2].keyword, "FIXME");
    assert_eq!(stored[2].author.as_deref(), Some("alice"));
    assert_eq!(stored[2].issue_ref.as_deref(), Some("#42"));
    assert_eq!(stored[2].description, "broken \u{1F680} sorting see #42");

    for t in &stored {
        assert_eq!(t.snapshot_id, id);
        assert_eq!(t.git_author, None);
        assert_eq!(t.git_date, None);
    }
}

#[test]
fn count_is_the_number_of_rows() {
    let mut conn = store();
    for n in [0usize, 1, 5, 40] {
        let todos: Vec<FileTodo> = (0..n).map(|i| todo("f.rs", i + 1, "TODO", "d")).collect();
        let id = save_snapshot(&mut conn, &todos).unwrap();
        let latest = get_latest_snapshot(&mut conn).unwrap().unwrap();
        assert_eq!(latest.id, id);
        assert_eq!(latest.todo_count, n as i64);
        assert_eq!(get_todos_for_snapshot(&mut conn, id).unwrap().len(), n);
        assert_eq!(get_latest_todo_count(&mut conn).unwrap(), Some(n as i64));
    }
}

#[test]
fn a_failed_insert_leaves_no_snapshot() {
    let mut conn = store();
    conn.conn.execute_batch(
        "CREATE TRIGGER refuse_line_three BEFORE INSERT ON todos WHEN NEW.line_number = 3
         BEGIN SELECT RAISE(ABORT, 'refused'); END;",
    )
    .unwrap();
    let todos: Vec<FileTodo> = (1..=5).map(|i| todo("f.rs", i, "TODO", "d")).collect();
    let r = save_snapshot(&mut conn, &todos);
    assert!(matches!(r, Err(TodoTrackError::Database(_))));
    assert!(get_snapshots(&mut conn).unwrap().is_empty());
    assert!(get_latest_snapshot(&mut conn).unwrap().is_none());
    let rows: i64 = conn.conn.query_row("SELECT COUNT(*) FROM todos", [], |row| row.get(0)).unwrap();
    assert_eq!(rows, 0);

    let kept = vec![todo("f.rs", 1, "TODO", "d"), todo("f.rs", 2, "TODO", "d")];
    let id = save_snapshot(&mut conn, &kept).unwrap();
    let all = get_snapshots(&mut conn).unwrap();
    assert_eq!(all.len(), 1);
    assert_eq!(all[0].id, id);
    assert_eq!(all[0].todo_count, 2);
    assert_eq!(get_todos_for_snapshot(&mut conn, id).unwrap().len(), 2);
}

#[test]
fn a_failure_on_the_first_or_last_row_leaves_nothing() {
    for refused in [1, 5] {
        let mut conn = store();
        conn.conn.execute_batch(&format!(
            "CREATE TRIGGER refuse BEFORE INSERT ON todos WHEN NEW.line_number = {}
             BEGIN SELECT RAISE(ABORT, 'refused'); END;",
            refused
        ))
        .unwrap();
        let todos: Vec<FileTodo> = (1..=5).map(|i| todo("f.rs", i, "TODO", "d")).collect();
        assert!(save_snapshot(&mut conn, &todos).is_err());
        assert!(get_snapshots(&mut conn).unwrap().is_empty());
        let rows: i64 = conn.conn.query_row("SELECT COUNT(*) FROM todos", [], |row| row.get(0)).unwrap();
        assert_eq!(rows, 0);
    }
}

#[test]
fn snapshots_come_oldest_first() {
    let mut conn = store();
    assert!(get_snapshots(&mut conn).unwrap().is_empty());
    assert!(get_latest_snapshot(&mut conn).unwrap().is_none());
    assert_eq!(get_latest_todo_count(&mut conn).unwrap(), None);

    let a = save_snapshot_at(&mut conn, "2024-01-01 10:00:00", &vec![todo("f", 1, "TODO", "a")]).unwrap();
    let b = save_snapshot_at(&mut conn, "2024-01-02 10:00:00", &Vec::new()).unwrap();
    let c = save_snapshot_at(&mut conn, "2024-01-03 10:00:00", &vec![todo("f", 1, "TODO", "a"), todo("g", 2, "XXX", "b")]).unwrap();
    assert!(a < b && b < c);

    let all = get_snapshots(&mut conn).unwrap();
    assert_eq!(all.iter().map(|s| s.id).collect::<Vec<_>>(), vec![a, b, c]);
    assert_eq!(all.iter().map(|s| s.todo_count).collect::<Vec<_>>(), vec![1, 0, 2]);
    assert_eq!(all[0].timestamp, "2024-01-01 10:00:00");
    assert_eq!(all[2].timestamp, "2024-01-03 10:00:00");

    let latest = get_latest_snapshot(&mut conn).unwrap().unwrap();
    assert_eq!(latest.id, c);
    assert_eq!(latest.todo_count, 2);
    assert_eq!(latest.timestamp, "2024-01-03 10:00:00");

    assert_eq!(get_todos_for_snapshot(&mut conn, a).unwrap().len(), 1);
    assert_eq!(get_todos_for_snapshot(&mut conn, b).unwrap().len(), 0);
    assert_eq!(get_todos_for_snapshot(&mut conn, c).unwrap().len(), 2);
    assert!(get_todos_for_snapshot(&mut conn, c + 1).unwrap().is_empty());
}

#[test]
fn the_timestamp_is_date_and_time() {
    let mut conn = store();
    save_snapshot(&mut conn, &Vec::new()).unwrap();
    let latest = get_latest_snapshot(&mut conn).unwrap().unwrap();
    let t: Vec<char> = latest.timestamp.chars().collect();
    assert_eq!(t.len(), 19);
    for (i, c) in t.iter().enumerate() {
        match i {
            4 | 7 => assert_eq!(*c, '-'),
            10 => assert_eq!(*c, ' '),
            13 | 16 => assert_eq!(*c, ':'),
            _ => assert!(c.is_ascii_digit()),
        }
    }
}

#[test]
fn markers_come_by_file_and_line() {
    let mut conn = store();
    let todos = vec![
        todo("z.rs", 1, "TODO", "1"),
        todo("a/b.rs", 20, "TODO", "2"),
        todo("a.rs", 3, "TODO", "3"),
        todo("a/b.rs", 3, "TODO", "4"),
        todo("B.rs", 9, "TODO", "5"),
        todo("a.rs", 100, "TODO", "6"),
    ];
    let id = save_snapshot(&mut conn, &todos).unwrap();
    let stored = get_todos_for_snapshot(&mut conn, id).unwrap();
    let places: Vec<(String, i64)> = stored.iter().map(|t| (t.file_path.clone(), t.line_number)).collect();
    assert_eq!(
        places,
        vec![
            ("B.rs".to_string(), 9),
            ("a.rs".to_string(), 3),
            ("a.rs".to_string(), 100),
            ("a/b.rs".to_string(), 3),
            ("a/b.rs".to_string(), 20),
            ("z.rs".to_string(), 1),
        ]
    );
}

#[test]
fn authorship_is_updated_row_by_row() {
    let mut conn = store();
    let id = save_snapshot(&mut conn, &vec![full("a.rs", 1), full("a.rs", 2)]).unwrap();
    let before = get_todos_for_snapshot(&mut conn, id).unwrap();
    update_git_blame(&mut conn, before[1].id, "Bob", "2024-02-03").unwrap();
    let after = get_todos_for_snapshot(&mut conn, id).unwrap();
    assert_eq!(after[0].git_author, None);
    assert_eq!(after[0].git_date, None);
    assert_eq!(after[1].git_author.as_deref(), Some("Bob"));
    assert_eq!(after[1].git_date.as_deref(), Some("2024-02-03"));
    assert_eq!(after[1].id, before[1].id);
    assert_eq!(after[1].description, before[1].description);
    assert_eq!(after[1].author, before[1].author);
    assert_eq!(after[1].issue_ref, before[1].issue_ref);
    assert_eq!(get_latest_snapshot(&mut conn).unwrap().unwrap().todo_count, 2);

    update_git_blame(&mut conn, 9999, "Nobody", "2024-01-01").unwrap();
    assert_eq!(get_todos_for_snapshot(&mut conn, id).unwrap().len(), 2);
}

#[test]
fn a_store_without_tables_is_a_database_error() {
    let mut conn = Store { conn: Connection::open_in_memory().unwrap() };
    assert!(matches!(get_snapshots(&mut conn), Err(TodoTrackError::Database(_))));
    assert!(matches!(get_latest_snapshot(&mut conn), Err(TodoTrackError::Database(_))));
    assert!(matches!(get_latest_todo_count(&mut conn), Err(TodoTrackError::Database(_))));
    assert!(matches!(get_todos_for_snapshot(&mut conn, 1), Err(TodoTrackError::Database(_))));
    assert!(matches!(save_snapshot(&mut conn, &Vec::new()), Err(TodoTrackError::Database(_))));
    assert!(matches!(update_git_blame(&mut conn, 1, "a", "b"), Err(TodoTrackError::Database(_))));
    assert!(get_snapshots(&mut conn).is_err());
}

#[test]
fn a_path_that_cannot_be_opened_is_a_database_error() {
    assert!(matches!(
        open_db("/nonexistent-directory-of-todo-track/deeper/db.sqlite"),
        Err(TodoTrackError::Database(_))
    ));
}

#[test]
fn opening_twice_keeps_what_is_there() {
    let mut conn = store();
    save_snapshot(&mut conn, &vec![todo("f", 1, "TODO", "a")]).unwrap();
    conn.conn.execute_batch(
        "CREATE TABLE IF NOT EXISTS snapshots (id INTEGER PRIMARY KEY, timestamp TEXT NOT NULL, todo_count INTEGER NOT NULL);",
    )
    .unwrap();
    assert_eq!(get_snapshots(&mut conn).unwrap().len(), 1);
}

#[test]
fn what_is_written_of_a_snapshot() {
    let header = header_row("2024-05-06 07:08:09", 2);
    assert_eq!(header.len(), 2);
    assert!(is_text(&header[0], "2024-05-06 07:08:09"));
    assert!(is_int(&header[1], 2));

    let row = marker_row(31, &full("a.rs", 7));
    assert_eq!(row.len(), 7);
    assert!(is_int(&row[0], 31));
    assert!(is_text(&row[1], "a.rs"));
    assert!(is_int(&row[2], 7));
    assert!(is_text(&row[3], "FIXME"));
    assert!(is_text(&row[4], "alice"));
    assert!(is_text(&row[5], "#42"));
    assert!(is_text(&row[6], "broken \u{1F680} sorting see #42"));

    let row = marker_row(1, &todo("b.rs", 1, "TODO", "x"));
    assert!(matches!(row[4], Field::Null));
    assert!(matches!(row[5], Field::Null));
}

/// The statements of a write in which the statement at each place fares as
/// `outcomes` tells.
fn simulate(markers: usize, outcomes: &[bool]) -> Vec<WriteStep> {
    let mut steps = vec![WriteStep::Begin];
    for ok in outcomes {
        match next_step(*steps.last().unwrap(), *ok, markers) {
            Some(next) => steps.push(next),
            None => break,
        }
    }
    steps
}

#[test]
fn a_write_without_failure() {
    assert_eq!(
        simulate(3, &[true; 10]),
        vec![
            WriteStep::Begin,
            WriteStep::InsertSnapshot,
            WriteStep::InsertMarker(0),
            WriteStep::InsertMarker(1),
            WriteStep::InsertMarker(2),
            WriteStep::Commit,
        ]
    );
    assert_eq!(
        simulate(0, &[true; 10]),
        vec![WriteStep::Begin, WriteStep::InsertSnapshot, WriteStep::Commit]
    );
    assert_eq!(next_step(WriteStep::Commit, true, 3), None);
    assert_eq!(next_step(WriteStep::Commit, false, 3), None);
    assert_eq!(next_step(WriteStep::Rollback, true, 3), None);
    assert_eq!(next_step(WriteStep::Rollback, false, 3), None);
}

#[test]
fn a_failure_on_any_row_ends_in_rollback() {
    for markers in 0..6usize {
        for failed in 0..markers + 3 {
            let mut outcomes = vec![true; markers + 4];
            outcomes[failed] = false;
            let steps = simulate(markers, &outcomes);
            let inserts = 1 + markers;
            if failed == 0 {
                assert_eq!(steps, vec![WriteStep::Begin]);
            } else if failed <= inserts {
                assert_eq!(steps.len(), failed + 2);
                assert_eq!(*steps.last().unwrap(), WriteStep::Rollback);
                assert!(!steps.contains(&WriteStep::Commit));
            } else {
                assert_eq!(*steps.last().unwrap(), WriteStep::Commit);
                assert!(!steps.contains(&WriteStep::Rollback));
                assert_eq!(steps.len(), markers + 3);
            }
        }
    }
}

#[test]
fn what_fits_the_store() {
    assert!(can_store(&Vec::new()));
    assert!(can_store(&vec![todo("f", 0, "TODO", "")]));
    assert!(can_store(&vec![todo("f", i64::MAX as usize, "TODO", "")]));
    if usize::BITS >= 64 {
        assert!(!can_store(&vec![todo("f", 1, "TODO", ""), todo("f", i64::MAX as usize + 1, "TODO", "")]));
        assert!(!can_store(&vec![todo("f", usize::MAX, "TODO", "")]));
    }
}

#[test]
fn rows_decode_to_snapshots() {
    let row = vec![Field::Integer(3), text("2024-01-01 00:00:00"), Field::Integer(12)];
    let s = decode_snapshot(&row).unwrap();
    assert_eq!((s.id, s.timestamp.as_str(), s.todo_count), (3, "2024-01-01 00:00:00", 12));

    assert!(matches!(decode_snapshot(&Vec::new()), Err(TodoTrackError::Database(_))));
    assert!(decode_snapshot(&vec![Field::Integer(3), text("t")]).is_err());
    assert!(decode_snapshot(&vec![text("3"), text("t"), Field::Integer(1)]).is_err());
    assert!(decode_snapshot(&vec![Field::Integer(3), Field::Null, Field::Integer(1)]).is_err());
    assert!(decode_snapshot(&vec![Field::Integer(3), text("t"), Field::Real]).is_err());
    assert!(decode_snapshot(&vec![Field::Integer(3), text("t"), Field::Blob]).is_err());
    assert!(decode_snapshot(&vec![Field::Integer(3), text("t"), Field::Integer(1), Field::Null]).is_ok());
}

fn todo_row(id: i64, snapshot: i64, path: &str, line: i64) -> Vec<Field> {
    vec![
        Field::Integer(id),
        Field::Integer(snapshot),
        text(path),
        Field::Integer(line),
        text("TODO"),
        Field::Null,
        text("#1"),
        text("d"),
        text("Ann"),
        Field::Null,
    ]
}

#[test]
fn rows_decode_to_markers() {
    let t = decode_todo(&todo_row(5, 2, "a.rs", 9)).unwrap();
    assert_eq!((t.id, t.snapshot_id, t.file_path.as_str(), t.line_number), (5, 2, "a.rs", 9));
    assert_eq!(t.keyword, "TODO");
    assert_eq!(t.author, None);
    assert_eq!(t.issue_ref.as_deref(), Some("#1"));
    assert_eq!(t.description, "d");
    assert_eq!(t.git_author.as_deref(), Some("Ann"));
    assert_eq!(t.git_date, None);

    for column in 0..10 {
        let mut row = todo_row(5, 2, "a.rs", 9);
        row[column] = Field::Blob;
        assert!(matches!(decode_todo(&row), Err(TodoTrackError::Database(_))), "column {}", column);
        let mut row = todo_row(5, 2, "a.rs", 9);
        row.truncate(column);
        assert!(decode_todo(&row).is_err(), "{} columns", column);
    }
    let mut row = todo_row(5, 2, "a.rs", 9);
    row[2] = Field::Null;
    assert!(decode_todo(&row).is_err());
    let mut row = todo_row(5, 2, "a.rs", 9);
    row[5] = Field::Integer(1);
    assert!(decode_todo(&row).is_err());
}

#[test]
fn snapshots_from_rows_sorts_by_id() {
    let rows = vec![
        vec![Field::Integer(3), text("c"), Field::Integer(30)],
        vec![Field::Integer(1), text("a"), Field::Integer(10)],
        vec![Field::Integer(2), text("b"), Field::Integer(20)],
    ];
    let all = snapshots_from_rows(&rows).unwrap();
    assert_eq!(all.iter().map(|s| s.id).collect::<Vec<_>>(), vec![1, 2, 3]);
    assert_eq!(all.iter().map(|s| s.todo_count).collect::<Vec<_>>(), vec![10, 20, 30]);
    assert!(snapshots_from_rows(&Vec::new()).unwrap().is_empty());

    let bad = vec![vec![Field::Integer(3), text("c"), Field::Integer(30)], vec![Field::Null]];
    assert!(matches!(snapshots_from_rows(&bad), Err(TodoTrackError::Database(_))));
}

#[test]
fn todos_from_rows_keeps_one_snapshot_in_order() {
    let rows = vec![
        todo_row(1, 7, "b.rs", 2),
        todo_row(2, 8, "a.rs", 1),
        todo_row(3, 7, "a.rs", 5),
        todo_row(4, 7, "a.rs", 5),
        todo_row(5, 7, "a.rs", 4),
    ];
    let kept = todos_from_rows(&rows, 7).unwrap();
    assert_eq!(kept.iter().map(|t| t.id).collect::<Vec<_>>(), vec![5, 3, 4, 1]);
    assert!(todos_from_rows(&rows, 9).unwrap().is_empty());
    let mut bad = rows;
    bad.push(vec![Field::Integer(1)]);
    assert!(todos_from_rows(&bad, 7).is_err());
}

fn snapshot(id: i64, count: i64) -> Snapshot {
    Snapshot { id, timestamp: format!("t{}", id), todo_count: count }
}

#[test]
fn the_latest_has_the_highest_id() {
    assert!(latest_of(Vec::new()).is_none());
    assert_eq!(latest_of(vec![snapshot(4, 1)]).unwrap().id, 4);
    let l = latest_of(vec![snapshot(2, 20), snapshot(9, 90), snapshot(5, 50)]).unwrap();
    assert_eq!((l.id, l.todo_count), (9, 90));
    let l = latest_of(vec![snapshot(9, 1), snapshot(9, 2)]).unwrap();
    assert_eq!(l.todo_count, 1);
    assert_eq!(count_of(&Some(snapshot(1, 6))), Some(6));
    assert_eq!(count_of(&None), None);
}

fn stored(path: &str, line: i64) -> StoredTodo {
    StoredTodo {
        id: 0,
        snapshot_id: 0,
        file_path: path.to_string(),
        line_number: line,
        keyword: "TODO".to_string(),
        author: None,
        issue_ref: None,
        description: String::new(),
        git_author: None,
        git_date: None,
    }
}

#[test]
fn order_of_a_listing() {
    assert!(location_before_or_same(&stored("a", 1), &stored("a", 1)));
    assert!(location_before_or_same(&stored("a", 1), &stored("a", 2)));
    assert!(!location_before_or_same(&stored("a", 2), &stored("a", 1)));
    assert!(location_before_or_same(&stored("a", 9), &stored("b", 1)));
    assert!(!location_before_or_same(&stored("b", 1), &stored("a", 9)));
    assert!(location_before_or_same(&stored("a", 9), &stored("ab", 1)));
    assert!(location_before_or_same(&stored("a", -5), &stored("a", 0)));
}

fn fault_of<T: std::fmt::Debug>(r: Result<T, TodoTrackError>) -> DatabaseError {
    match r {
        Err(TodoTrackError::Database(fault)) => fault,
        other => panic!("{:?}", other),
    }
}

fn is_missing(fault: &DatabaseError, at: usize) -> bool {
    matches!(fault, DatabaseError::MissingColumn { index } if *index == at)
}

fn is_wrong(fault: &DatabaseError, at: usize, called: &str, kind: ColumnKind) -> bool {
    matches!(fault, DatabaseError::WrongType { index, name, found }
        if *index == at && name == called && *found == kind)
}

#[test]
fn a_row_that_cannot_be_read_names_its_first_bad_column() {
    assert!(is_missing(&fault_of(decode_snapshot(&[])), 0));
    assert!(is_missing(&fault_of(decode_snapshot(&[Field::Integer(1)])), 1));
    assert!(is_missing(&fault_of(decode_snapshot(&[Field::Integer(1), text("t")])), 2));
    assert!(is_wrong(
        &fault_of(decode_snapshot(&[text("1"), Field::Null, Field::Real])),
        0,
        "id",
        ColumnKind::Text
    ));
    assert!(is_wrong(
        &fault_of(decode_snapshot(&[Field::Integer(1), Field::Null, Field::Real])),
        1,
        "timestamp",
        ColumnKind::Null
    ));
    assert!(is_wrong(
        &fault_of(decode_snapshot(&[Field::Integer(1), text("t"), Field::Real])),
        2,
        "todo_count",
        ColumnKind::Real
    ));

    let names = [
        "id",
        "snapshot_id",
        "file_path",
        "line_number",
        "keyword",
        "author",
        "issue_ref",
        "description",
        "git_author",
        "git_date",
    ];
    for column in 0..10 {
        let mut row = todo_row(5, 2, "a.rs", 9);
        row[column] = Field::Blob;
        if column + 1 < 10 {
            row[column + 1] = Field::Real;
        }
        assert!(
            is_wrong(&fault_of(decode_todo(&row)), column, names[column], ColumnKind::Blob),
            "column {}",
            column
        );
        let mut row = todo_row(5, 2, "a.rs", 9);
        row.truncate(column);
        assert!(is_missing(&fault_of(decode_todo(&row)), column), "{} columns", column);
    }
    let mut row = todo_row(5, 2, "a.rs", 9);
    row[3] = Field::Null;
    assert!(is_wrong(&fault_of(decode_todo(&row)), 3, "line_number", ColumnKind::Null));
    let mut row = todo_row(5, 2, "a.rs", 9);
    row[5] = Field::Integer(7);
    assert!(is_wrong(&fault_of(decode_todo(&row)), 5, "author", ColumnKind::Integer));

    let bad = vec![vec![Field::Integer(3), text("c"), Field::Integer(30)], vec![Field::Null]];
    assert!(is_wrong(&fault_of(snapshots_from_rows(&bad)), 0, "id", ColumnKind::Null));
    let bad = vec![todo_row(1, 7, "a", 1), vec![Field::Integer(1)]];
    assert!(is_missing(&fault_of(todos_from_rows(&bad, 7)), 1));
}

#[test]
fn what_the_store_refuses_is_an_error_of_sqlite() {
    let mut conn = Store { conn: Connection::open_in_memory().unwrap() };
    assert!(matches!(fault_of(get_snapshots(&mut conn)), DatabaseError::Sqlite(_)));
    assert!(matches!(fault_of(save_snapshot(&mut conn, &Vec::new())), DatabaseError::Sqlite(_)));
    assert!(matches!(fault_of(update_git_blame(&mut conn, 1, "a", "b")), DatabaseError::Sqlite(_)));
    assert!(matches!(
        fault_of(open_db("/nonexistent-directory-of-todo-track/deeper/db.sqlite")),
        DatabaseError::Sqlite(_)
    ));
}

/// The run of a write in which the statement at each place fares as
/// `outcomes` tells, with the statements that were issued.
fn run_with(markers: usize, outcomes: &[(bool, i64)]) -> (WriteRun, Vec<WriteStep>) {
    let mut run = start_write();
    let mut issued = Vec::new();
    for (ok, row_id) in outcomes {
        let Some(step) = run.next else { break };
        issued.push(step);
        run = advance(run, *ok, *row_id, markers);
    }
    (run, issued)
}

fn result_of(run: &WriteRun) -> Result<i64, TodoTrackError> {
    let first_error = if run.failed { Some(TodoTrackError::NoSnapshots) } else { None };
    write_result(run, first_error)
}

#[test]
fn a_write_starts_with_the_begin() {
    let run = start_write();
    assert_eq!(run, WriteRun { next: Some(WriteStep::Begin), snapshot_id: 0, failed: false });
}

#[test]
fn the_id_of_the_snapshot_row_is_kept_and_returned() {
    let outcomes = [(true, 0), (true, 41), (true, 7), (true, 8), (true, 9), (true, 0), (true, 5)];
    let mut run = start_write();
    let mut ids_at_marker_inserts = Vec::new();
    for (ok, row_id) in outcomes {
        let Some(step) = run.next else { break };
        if let WriteStep::InsertMarker(_) = step {
            ids_at_marker_inserts.push(run.snapshot_id);
        }
        run = advance(run, ok, row_id, 3);
    }
    assert_eq!(ids_at_marker_inserts, vec![41, 41, 41]);
    assert_eq!(run, WriteRun { next: None, snapshot_id: 41, failed: false });
    assert_eq!(result_of(&run).unwrap(), 41);
}

#[test]
fn a_failed_statement_gives_an_error_whatever_follows() {
    for markers in 0..5usize {
        for failed in 0..markers + 3 {
            let mut outcomes = vec![(true, 17); markers + 4];
            outcomes[failed] = (false, 99);
            let (run, issued) = run_with(markers, &outcomes);
            assert!(run.failed);
            assert_eq!(run.next, None);
            assert!(matches!(result_of(&run), Err(TodoTrackError::NoSnapshots)));
            assert_eq!(run.snapshot_id, if failed >= 2 { 17 } else { 0 });
            let inserts = markers + 1;
            if 1 <= failed && failed <= inserts {
                assert_eq!(issued.len(), failed + 2);
                assert_eq!(*issued.last().unwrap(), WriteStep::Rollback);
                assert!(!issued.contains(&WriteStep::Commit));
            } else {
                assert!(!issued.contains(&WriteStep::Rollback));
            }
        }
        let (run, issued) = run_with(markers, &vec![(true, 3); markers + 3]);
        assert!(!run.failed);
        assert_eq!(run.next, None);
        assert_eq!(issued.len(), markers + 3);
        assert_eq!(*issued.last().unwrap(), WriteStep::Commit);
        assert_eq!(result_of(&run).unwrap(), 3);
    }
}

#[test]
fn a_failed_snapshot_insert_does_not_take_its_row_id() {
    let run = advance(start_write(), true, 0, 2);
    assert_eq!(run.next, Some(WriteStep::InsertSnapshot));
    let run = advance(run, false, 55, 2);
    assert_eq!(run, WriteRun { next: Some(WriteStep::Rollback), snapshot_id: 0, failed: true });
    let run = advance(run, true, 0, 2);
    assert_eq!(run, WriteRun { next: None, snapshot_id: 0, failed: true });
}

#[test]
fn the_first_error_is_the_one_returned() {
    let failed = WriteRun { next: None, snapshot_id: 12, failed: true };
    let e = TodoTrackError::GitBlame { file: "f".to_string(), reason: "first".to_string() };
    match write_result(&failed, Some(e)) {
        Err(TodoTrackError::GitBlame { reason, .. }) => assert_eq!(reason, "first"),
        other => panic!("{:?}", other),
    }
    let done = WriteRun { next: None, snapshot_id: 12, failed: false };
    assert_eq!(write_result(&done, None).unwrap(), 12);
}

#[test]
fn the_id_returned_is_the_id_of_the_rows() {
    let mut conn = store();
    save_snapshot(&mut conn, &vec![todo("x", 1, "TODO", "a")]).unwrap();
    let id = save_snapshot(&mut conn, &vec![todo("f", 1, "TODO", "a"), todo("f", 2, "TODO", "b")]).unwrap();
    let snapshot_ids: Vec<i64> = {
        let mut stmt = conn.conn.prepare("SELECT snapshot_id FROM todos WHERE file_path = 'f'").unwrap();
        let rows = stmt.query_map([], |row| row.get(0)).unwrap();
        rows.map(|r| r.unwrap()).collect()
    };
    assert_eq!(snapshot_ids, vec![id, id]);
    let newest: i64 = conn.conn.query_row("SELECT MAX(id) FROM snapshots", [], |row| row.get(0)).unwrap();
    assert_eq!(newest, id);
}

#[test]
fn what_is_bound_to_an_update_of_authorship() {
    let row = blame_row(77, "Ann", "2024-01-02");
    assert_eq!(row.len(), 3);
    assert!(is_text(&row[0], "Ann"));
    assert!(is_text(&row[1], "2024-01-02"));
    assert!(is_int(&row[2], 77));
}

#[test]
fn author_and_date_land_in_their_columns() {
    let mut conn = store();
    let id = save_snapshot(&mut conn, &vec![full("a.rs", 1)]).unwrap();
    let row_id = get_todos_for_snapshot(&mut conn, id).unwrap()[0].id;
    update_git_blame(&mut conn, row_id, "the author", "the date").unwrap();
    let (author, date): (String, String) = conn
        .conn
        .query_row("SELECT git_author, git_date FROM todos WHERE id = ?1", [row_id], |row| {
            Ok((row.get(0)?, row.get(1)?))
        })
        .unwrap();
    assert_eq!(author, "the author");
    assert_eq!(date, "the date");
}

#[test]
fn the_statements_of_a_write() {
    let todos = vec![full("a.rs", 7), todo("b.rs", 1, "TODO", "x")];
    let (sql, row) = statement_of(WriteStep::Begin, "t", &todos, 5);
    assert_eq!(sql, "BEGIN");
    assert!(row.is_empty());
    let (sql, row) = statement_of(WriteStep::Commit, "t", &todos, 5);
    assert_eq!(sql, "COMMIT");
    assert!(row.is_empty());
    let (sql, row) = statement_of(WriteStep::Rollback, "t", &todos, 5);
    assert_eq!(sql, "ROLLBACK");
    assert!(row.is_empty());
    let (sql, row) = statement_of(WriteStep::InsertSnapshot, "2024-01-02 03:04:05", &todos, 5);
    assert_eq!(sql, "INSERT INTO snapshots (timestamp, todo_count) VALUES (?1, ?2)");
    assert_eq!(row.len(), 2);
    assert!(is_text(&row[0], "2024-01-02 03:04:05"));
    assert!(is_int(&row[1], 2));
    let (sql, row) = statement_of(WriteStep::InsertMarker(1), "t", &todos, 5);
    assert!(sql.starts_with("INSERT INTO todos (snapshot_id, file_path, line_number, keyword, author, issue_ref, description)"));
    assert_eq!(row.len(), 7);
    assert!(is_int(&row[0], 5));
    assert!(is_text(&row[1], "b.rs"));
    assert!(is_int(&row[2], 1));
}

#[test]
fn an_empty_snapshot_is_saved_too() {
    let mut conn = store();
    let id = save_snapshot(&mut conn, &Vec::new()).unwrap();
    let latest = get_latest_snapshot(&mut conn).unwrap().unwrap();
    assert_eq!((latest.id, latest.todo_count), (id, 0));
    assert!(get_todos_for_snapshot(&mut conn, id).unwrap().is_empty());
}
