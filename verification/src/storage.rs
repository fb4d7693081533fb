//! The snapshot store: an SQLite database with one table of snapshots and one
//! of the markers that belong to them.
//!
//! SQLite, reached through rusqlite, keeps the rows. Every statement goes to
//! it through a [`Store`], and [`sent`] names what went through a store, in
//! order, each statement with the values bound to it and the answer it got.
//! The contracts of this module say what each operation sends and what it
//! makes of the answers. That SQLite keeps what it was given, and undoes
//! what is rolled back, is its own business.

use crate::error::{is_row_error, is_sqlite_error, ColumnKind, DatabaseError, TodoTrackError};
use crate::order::{lemma_sorted_by_map, sort_by, sorted_by};
use crate::scanner::{file_todo_views, FileTodo, FileTodoView};
use crate::text::{text_before_or_same, text_le};
use rusqlite::types::{Value, ValueRef};
use rusqlite::{params_from_iter, Connection};
use vstd::prelude::*;

verus! {

#[verifier::external_type_specification]
#[verifier::external_body]
pub struct ExConnection(Connection);

/// One value of a row. The store of this library holds integers, texts and
/// nulls; `Real` and `Blob` stand for a value of another kind that a row
/// holds, and what it is is not kept.
#[derive(Debug, Clone)]
pub enum Field {
    Null,
    Integer(i64),
    Real,
    Text(String),
    Blob,
}

/// A [`Field`] as a plain value.
pub enum FieldView {
    Null,
    Integer(i64),
    Real,
    Text(Seq<char>),
    Blob,
}

impl View for Field {
    type V = FieldView;

    open spec fn view(&self) -> FieldView {
        match self {
            Field::Null => FieldView::Null,
            Field::Integer(n) => FieldView::Integer(*n),
            Field::Real => FieldView::Real,
            Field::Text(t) => FieldView::Text(t@),
            Field::Blob => FieldView::Blob,
        }
    }
}

/// The views of the fields of a row.
pub open spec fn row_view(row: Seq<Field>) -> Seq<FieldView> {
    row.map_values(|f: Field| f@)
}

/// Whether `f` can be written: it is an integer, a text or null.
pub open spec fn is_writable(f: Field) -> bool {
    f is Null || f is Integer || f is Text
}

/// The snapshot store of a project: an open SQLite database.
#[derive(Debug)]
pub struct Store {
    /// The connection to the database. What a caller sends through it
    /// directly is not part of what [`sent`] names.
    pub conn: Connection,
}

/// What the store answered to a statement.
pub enum Answer {
    /// It refused: the statement failed.
    Refused,
    /// The statement ran. The number is the id of the row that was last
    /// inserted through the store, as it stands after the statement.
    Done(i64),
    /// The rows that a query gave.
    Rows(Seq<Seq<FieldView>>),
}

/// One statement that went to the store, with the values bound to it and
/// what the store answered.
pub struct Exchange {
    pub sql: Seq<char>,
    pub params: Seq<FieldView>,
    pub answer: Answer,
}

/// Everything that this module sent to the database through `store` since
/// it was opened, in the order it was sent, each statement with its answer.
pub uninterp spec fn sent(store: Store) -> Seq<Exchange>;

/// The integers `params` as fields.
pub open spec fn integer_fields(params: Seq<i64>) -> Seq<FieldView> {
    params.map_values(|n: i64| FieldView::Integer(n))
}

/// `Connection::open`: opens the database file at `path`, or makes it.
/// Nothing was sent through a store that was just opened.
#[verifier::external_body]
fn open_connection(path: &str) -> (r: Result<Store, rusqlite::Error>)
    ensures
        r matches Ok(store) ==> sent(store) == Seq::<Exchange>::empty(),
{
    Connection::open(path).map(|conn| Store { conn })
}

/// `Statement::execute` on the statement that `Connection::prepare_cached`
/// makes of `sql`, with `params` bound in order, and then
/// `Connection::last_insert_rowid`. The statement is noted as sent, with
/// the answer that is returned.
#[verifier::external_body]
fn send(store: &mut Store, sql: &str, params: &Vec<Field>) -> (r: Result<i64, rusqlite::Error>)
    requires
        forall|i: int| 0 <= i < params@.len() ==> is_writable(#[trigger] params@[i]),
    ensures
        sent(*final(store)) == sent(*old(store)).push(
            (Exchange {
                sql: sql@,
                params: row_view(params@),
                answer: match r {
                    Ok(row_id) => Answer::Done(row_id),
                    Err(_) => Answer::Refused,
                },
            }),
        ),
{
    store.conn.prepare_cached(sql)?.execute(
        params_from_iter(
            params.iter().map(
                |f| match f {
                    Field::Integer(n) => Value::Integer(*n),
                    Field::Text(t) => Value::Text(t.clone()),
                    _ => Value::Null,
                },
            ),
        ),
    )?;
    Ok(store.conn.last_insert_rowid())
}

/// `Statement::query_map` on the statement that `Connection::prepare` makes
/// of `sql`, with the integers `params` bound in order: every row that the
/// query yields, each as the fields of its columns. The query is noted as
/// sent, with the rows that are returned.
#[verifier::external_body]
fn ask(store: &mut Store, sql: &str, params: &Vec<i64>) -> (r: Result<
    Vec<Vec<Field>>,
    rusqlite::Error,
>)
    ensures
        sent(*final(store)) == sent(*old(store)).push(
            (Exchange {
                sql: sql@,
                params: integer_fields(params@),
                answer: match r {
                    Ok(rows) => Answer::Rows(rows_view(rows@)),
                    Err(_) => Answer::Refused,
                },
            }),
        ),
{
    let mut stmt = store.conn.prepare(sql)?;
    let width = stmt.column_count();
    let rows = stmt.query_map(params_from_iter(params.iter()), |row| {
        (0..width).map(|i| match row.get_ref(i)? {
            ValueRef::Null => Ok(Field::Null),
            ValueRef::Integer(n) => Ok(Field::Integer(n)),
            ValueRef::Real(_) => Ok(Field::Real),
            ValueRef::Text(_) => row.get(i).map(Field::Text),
            ValueRef::Blob(_) => Ok(Field::Blob),
        }).collect()
    })?;
    rows.collect()
}

/// `Utc::now` of chrono, written under the strftime layout `layout` with
/// `DateTime::format` and `DelayedFormat::write_to`: the present moment, as
/// far as chrono can follow the layout.
#[verifier::external_body]
fn now_text(layout: &str) -> String {
    let mut text = String::new();
    let _ = chrono::Utc::now().format(layout).write_to(&mut text);
    text
}

/// One scan, as the store keeps it.
#[derive(Debug, Clone)]
pub struct Snapshot {
    /// Assigned by the store; later snapshots have higher ids.
    pub id: i64,
    /// When the snapshot was taken.
    pub timestamp: String,
    /// How many markers the scan found.
    pub todo_count: i64,
}

/// A [`Snapshot`] as plain values.
pub struct SnapshotView {
    pub id: i64,
    pub timestamp: Seq<char>,
    pub todo_count: i64,
}

impl View for Snapshot {
    type V = SnapshotView;

    open spec fn view(&self) -> SnapshotView {
        SnapshotView { id: self.id, timestamp: self.timestamp@, todo_count: self.todo_count }
    }
}

/// The views of `snapshots`, in order.
pub open spec fn snapshot_views(snapshots: Seq<Snapshot>) -> Seq<SnapshotView> {
    snapshots.map_values(|s: Snapshot| s@)
}

/// One marker of a snapshot, as the store keeps it.
#[derive(Debug, Clone)]
pub struct StoredTodo {
    /// Assigned by the store.
    pub id: i64,
    /// The snapshot that the marker belongs to.
    pub snapshot_id: i64,
    pub file_path: String,
    pub line_number: i64,
    pub keyword: String,
    pub author: Option<String>,
    pub issue_ref: Option<String>,
    pub description: String,
    /// Who last changed the line, once git was asked.
    pub git_author: Option<String>,
    /// When the line was last changed, as `YYYY-MM-DD`, once git was asked.
    pub git_date: Option<String>,
}

/// A [`StoredTodo`] as plain values.
pub struct StoredTodoView {
    pub id: i64,
    pub snapshot_id: i64,
    pub file_path: Seq<char>,
    pub line_number: i64,
    pub keyword: Seq<char>,
    pub author: Option<Seq<char>>,
    pub issue_ref: Option<Seq<char>>,
    pub description: Seq<char>,
    pub git_author: Option<Seq<char>>,
    pub git_date: Option<Seq<char>>,
}

impl View for StoredTodo {
    type V = StoredTodoView;

    open spec fn view(&self) -> StoredTodoView {
        StoredTodoView {
            id: self.id,
            snapshot_id: self.snapshot_id,
            file_path: self.file_path@,
            line_number: self.line_number,
            keyword: self.keyword@,
            author: self.author.deep_view(),
            issue_ref: self.issue_ref.deep_view(),
            description: self.description@,
            git_author: self.git_author.deep_view(),
            git_date: self.git_date.deep_view(),
        }
    }
}

/// The views of `todos`, in order.
pub open spec fn stored_views(todos: Seq<StoredTodo>) -> Seq<StoredTodoView> {
    todos.map_values(|t: StoredTodo| t@)
}

/// The integer in column `i` of `row`, where it holds one.
pub open spec fn integer_field(row: Seq<FieldView>, i: int) -> Option<i64> {
    if 0 <= i < row.len() {
        match row[i] {
            FieldView::Integer(n) => Some(n),
            _ => None,
        }
    } else {
        None
    }
}

/// The text in column `i` of `row`, where it holds one.
pub open spec fn text_field(row: Seq<FieldView>, i: int) -> Option<Seq<char>> {
    if 0 <= i < row.len() {
        match row[i] {
            FieldView::Text(t) => Some(t),
            _ => None,
        }
    } else {
        None
    }
}

/// The text in column `i` of `row`, or the absence that a null stands for,
/// where the column holds either.
pub open spec fn optional_text_field(row: Seq<FieldView>, i: int) -> Option<Option<Seq<char>>> {
    if 0 <= i < row.len() {
        match row[i] {
            FieldView::Text(t) => Some(Some(t)),
            FieldView::Null => Some(None),
            _ => None,
        }
    } else {
        None
    }
}

/// The kind of value that `f` is.
pub open spec fn kind_of(f: FieldView) -> ColumnKind {
    match f {
        FieldView::Null => ColumnKind::Null,
        FieldView::Integer(_) => ColumnKind::Integer,
        FieldView::Real => ColumnKind::Real,
        FieldView::Text(_) => ColumnKind::Text,
        FieldView::Blob => ColumnKind::Blob,
    }
}

/// Whether `e` is the error for column `i` of `row`, a column called
/// `name` that does not hold what is read from it: where the row has no
/// such column, that the column is missing; else that it holds a value of
/// another kind, with the kind that it holds.
pub open spec fn is_column_error(e: TodoTrackError, row: Seq<FieldView>, i: int, name: Seq<char>) -> bool {
    if 0 <= i < row.len() {
        &&& e matches TodoTrackError::Database(
            DatabaseError::WrongType { index, name: called, found },
        )
        &&& index == i
        &&& called@ == name
        &&& found == kind_of(row[i])
    } else {
        &&& e matches TodoTrackError::Database(DatabaseError::MissingColumn { index })
        &&& index == i
    }
}

/// The kind of value that `f` is.
fn field_kind(f: &Field) -> (kind: ColumnKind)
    ensures
        kind == kind_of(f@),
{
    match f {
        Field::Null => ColumnKind::Null,
        Field::Integer(_) => ColumnKind::Integer,
        Field::Real => ColumnKind::Real,
        Field::Text(_) => ColumnKind::Text,
        Field::Blob => ColumnKind::Blob,
    }
}

/// The error for column `i` of `row`, which does not hold what was asked.
fn column_error(row: &[Field], i: usize, name: &str) -> (e: TodoTrackError)
    ensures
        is_column_error(e, row_view(row@), i as int, name@),
        is_row_error(e),
{
    if i < row.len() {
        TodoTrackError::Database(
            DatabaseError::WrongType { index: i, name: name.to_owned(), found: field_kind(&row[i]) },
        )
    } else {
        TodoTrackError::Database(DatabaseError::MissingColumn { index: i })
    }
}

/// Reads the integer in column `i`.
fn read_integer(row: &[Field], i: usize, name: &str) -> (r: Result<i64, TodoTrackError>)
    ensures
        match r {
            Ok(n) => integer_field(row_view(row@), i as int) == Some(n),
            Err(e) => integer_field(row_view(row@), i as int) is None && is_column_error(
                e,
                row_view(row@),
                i as int,
                name@,
            ),
        },
{
    if i < row.len() {
        match &row[i] {
            Field::Integer(n) => {
                return Ok(*n);
            },
            _ => {},
        }
    }
    Err(column_error(row, i, name))
}

/// Reads the text in column `i`.
fn read_text(row: &[Field], i: usize, name: &str) -> (r: Result<String, TodoTrackError>)
    ensures
        match r {
            Ok(t) => text_field(row_view(row@), i as int) == Some(t@),
            Err(e) => text_field(row_view(row@), i as int) is None && is_column_error(
                e,
                row_view(row@),
                i as int,
                name@,
            ),
        },
{
    if i < row.len() {
        match &row[i] {
            Field::Text(t) => {
                return Ok(t.clone());
            },
            _ => {},
        }
    }
    Err(column_error(row, i, name))
}

/// Reads the text in column `i`, or the absence that a null stands for.
fn read_optional_text(row: &[Field], i: usize, name: &str) -> (r: Result<
    Option<String>,
    TodoTrackError,
>)
    ensures
        match r {
            Ok(t) => optional_text_field(row_view(row@), i as int) == Some(t.deep_view()),
            Err(e) => optional_text_field(row_view(row@), i as int) is None && is_column_error(
                e,
                row_view(row@),
                i as int,
                name@,
            ),
        },
{
    if i < row.len() {
        match &row[i] {
            Field::Text(t) => {
                return Ok(Some(t.clone()));
            },
            Field::Null => {
                return Ok(None);
            },
            _ => {},
        }
    }
    Err(column_error(row, i, name))
}

/// The snapshot that a row of `id, timestamp, todo_count` stands for.
pub open spec fn decoded_snapshot(row: Seq<FieldView>) -> Option<SnapshotView> {
    match (integer_field(row, 0), text_field(row, 1), integer_field(row, 2)) {
        (Some(id), Some(timestamp), Some(todo_count)) => Some(
            SnapshotView { id, timestamp, todo_count },
        ),
        _ => None,
    }
}

/// The marker that a row of the ten columns of a marker stands for.
pub open spec fn decoded_todo(row: Seq<FieldView>) -> Option<StoredTodoView> {
    match (
        integer_field(row, 0),
        integer_field(row, 1),
        text_field(row, 2),
        integer_field(row, 3),
        text_field(row, 4),
        optional_text_field(row, 5),
        optional_text_field(row, 6),
        text_field(row, 7),
        optional_text_field(row, 8),
        optional_text_field(row, 9),
    ) {
        (
            Some(id),
            Some(snapshot_id),
            Some(file_path),
            Some(line_number),
            Some(keyword),
            Some(author),
            Some(issue_ref),
            Some(description),
            Some(git_author),
            Some(git_date),
        ) => Some(
            StoredTodoView {
                id,
                snapshot_id,
                file_path,
                line_number,
                keyword,
                author,
                issue_ref,
                description,
                git_author,
                git_date,
            },
        ),
        _ => None,
    }
}

/// The column at which a row stands for no snapshot, with its name: the
/// first that does not hold what is read from it.
pub open spec fn snapshot_fault(row: Seq<FieldView>) -> (int, Seq<char>) {
    if integer_field(row, 0) is None {
        (0, "id"@)
    } else if text_field(row, 1) is None {
        (1, "timestamp"@)
    } else {
        (2, "todo_count"@)
    }
}

/// The column at which a row stands for no marker, with its name: the first
/// that does not hold what is read from it.
pub open spec fn todo_fault(row: Seq<FieldView>) -> (int, Seq<char>) {
    if integer_field(row, 0) is None {
        (0, "id"@)
    } else if integer_field(row, 1) is None {
        (1, "snapshot_id"@)
    } else if text_field(row, 2) is None {
        (2, "file_path"@)
    } else if integer_field(row, 3) is None {
        (3, "line_number"@)
    } else if text_field(row, 4) is None {
        (4, "keyword"@)
    } else if optional_text_field(row, 5) is None {
        (5, "author"@)
    } else if optional_text_field(row, 6) is None {
        (6, "issue_ref"@)
    } else if text_field(row, 7) is None {
        (7, "description"@)
    } else if optional_text_field(row, 8) is None {
        (8, "git_author"@)
    } else {
        (9, "git_date"@)
    }
}

/// Reads a snapshot out of a row of `id, timestamp, todo_count`. A column
/// that is missing, or holds a value of another kind, is an error, and the
/// error tells of the first such column.
pub fn decode_snapshot(row: &[Field]) -> (r: Result<Snapshot, TodoTrackError>)
    ensures
        match r {
            Ok(s) => decoded_snapshot(row_view(row@)) == Some(s@),
            Err(e) => decoded_snapshot(row_view(row@)) is None && is_column_error(
                e,
                row_view(row@),
                snapshot_fault(row_view(row@)).0,
                snapshot_fault(row_view(row@)).1,
            ),
        },
{
    let id = match read_integer(row, 0, "id") {
        Ok(v) => v,
        Err(e) => {
            return Err(e);
        },
    };
    let timestamp = match read_text(row, 1, "timestamp") {
        Ok(v) => v,
        Err(e) => {
            return Err(e);
        },
    };
    let todo_count = match read_integer(row, 2, "todo_count") {
        Ok(v) => v,
        Err(e) => {
            return Err(e);
        },
    };
    Ok(Snapshot { id, timestamp, todo_count })
}

/// Reads a marker out of a row of its ten columns. A column that is missing,
/// or holds a value of another kind, is an error, and the error tells of the
/// first such column.
pub fn decode_todo(row: &[Field]) -> (r: Result<StoredTodo, TodoTrackError>)
    ensures
        match r {
            Ok(t) => decoded_todo(row_view(row@)) == Some(t@),
            Err(e) => decoded_todo(row_view(row@)) is None && is_column_error(
                e,
                row_view(row@),
                todo_fault(row_view(row@)).0,
                todo_fault(row_view(row@)).1,
            ),
        },
{
    let id = match read_integer(row, 0, "id") {
        Ok(v) => v,
        Err(e) => {
            return Err(e);
        },
    };
    let snapshot_id = match read_integer(row, 1, "snapshot_id") {
        Ok(v) => v,
        Err(e) => {
            return Err(e);
        },
    };
    let file_path = match read_text(row, 2, "file_path") {
        Ok(v) => v,
        Err(e) => {
            return Err(e);
        },
    };
    let line_number = match read_integer(row, 3, "line_number") {
        Ok(v) => v,
        Err(e) => {
            return Err(e);
        },
    };
    let keyword = match read_text(row, 4, "keyword") {
        Ok(v) => v,
        Err(e) => {
            return Err(e);
        },
    };
    let author = match read_optional_text(row, 5, "author") {
        Ok(v) => v,
        Err(e) => {
            return Err(e);
        },
    };
    let issue_ref = match read_optional_text(row, 6, "issue_ref") {
        Ok(v) => v,
        Err(e) => {
            return Err(e);
        },
    };
    let description = match read_text(row, 7, "description") {
        Ok(v) => v,
        Err(e) => {
            return Err(e);
        },
    };
    let git_author = match read_optional_text(row, 8, "git_author") {
        Ok(v) => v,
        Err(e) => {
            return Err(e);
        },
    };
    let git_date = match read_optional_text(row, 9, "git_date") {
        Ok(v) => v,
        Err(e) => {
            return Err(e);
        },
    };
    Ok(
        StoredTodo {
            id,
            snapshot_id,
            file_path,
            line_number,
            keyword,
            author,
            issue_ref,
            description,
            git_author,
            git_date,
        },
    )
}

/// The views of the rows of a query.
pub open spec fn rows_view(rows: Seq<Vec<Field>>) -> Seq<Seq<FieldView>> {
    rows.map_values(|r: Vec<Field>| row_view(r@))
}

/// The snapshots that `rows` stand for, in their order: `None` where a row
/// stands for none.
pub open spec fn decoded_snapshots(rows: Seq<Seq<FieldView>>) -> Option<Seq<SnapshotView>>
    decreases rows.len(),
{
    if rows.len() == 0 {
        Some(Seq::empty())
    } else {
        match (decoded_snapshots(rows.drop_last()), decoded_snapshot(rows.last())) {
            (Some(before), Some(s)) => Some(before.push(s)),
            _ => None,
        }
    }
}

/// The markers that `rows` stand for, in their order: `None` where a row
/// stands for none.
pub open spec fn decoded_todos(rows: Seq<Seq<FieldView>>) -> Option<Seq<StoredTodoView>>
    decreases rows.len(),
{
    if rows.len() == 0 {
        Some(Seq::empty())
    } else {
        match (decoded_todos(rows.drop_last()), decoded_todo(rows.last())) {
            (Some(before), Some(t)) => Some(before.push(t)),
            _ => None,
        }
    }
}

/// Those of `todos` that belong to snapshot `id`, in their order.
pub open spec fn of_snapshot(todos: Seq<StoredTodoView>, id: i64) -> Seq<StoredTodoView>
    decreases todos.len(),
{
    if todos.len() == 0 {
        Seq::empty()
    } else if todos.last().snapshot_id == id {
        of_snapshot(todos.drop_last(), id).push(todos.last())
    } else {
        of_snapshot(todos.drop_last(), id)
    }
}

/// The order of snapshots: by id, oldest first.
pub open spec fn by_id() -> spec_fn(SnapshotView, SnapshotView) -> bool {
    |a: SnapshotView, b: SnapshotView| a.id <= b.id
}

/// Whether `a` may stand before `b` in a listing: its file comes first in
/// the order of texts, or both are in one file and its line is not the
/// later one.
pub open spec fn location_le(a: StoredTodoView, b: StoredTodoView) -> bool {
    if a.file_path == b.file_path {
        a.line_number <= b.line_number
    } else {
        text_le(a.file_path, b.file_path)
    }
}

/// The order of a listing: by file path, then by line number.
pub open spec fn by_location() -> spec_fn(StoredTodoView, StoredTodoView) -> bool {
    |a: StoredTodoView, b: StoredTodoView| location_le(a, b)
}

/// Whether `a` may stand before `b` in a listing.
pub fn location_before_or_same(a: &StoredTodo, b: &StoredTodo) -> (r: bool)
    ensures
        r == location_le(a@, b@),
{
    if a.file_path == b.file_path {
        a.line_number <= b.line_number
    } else {
        text_before_or_same(a.file_path.as_str(), b.file_path.as_str())
    }
}

/// The snapshots of the rows of a query, oldest first whatever the order of
/// the rows. A row that stands for no snapshot is an error.
pub fn snapshots_from_rows(rows: &[Vec<Field>]) -> (r: Result<Vec<Snapshot>, TodoTrackError>)
    ensures
        match r {
            Ok(v) => {
                &&& decoded_snapshots(rows_view(rows@)) matches Some(all)
                &&& snapshot_views(v@) == sorted_by(all, by_id())
            },
            Err(e) => decoded_snapshots(rows_view(rows@)) is None && is_row_error(e),
        },
{
    let mut found: Vec<Snapshot> = Vec::new();
    let mut i: usize = 0;
    proof {
        assert(snapshot_views(found@) =~= Seq::empty());
    }
    while i < rows.len()
        invariant
            i <= rows.len(),
            decoded_snapshots(rows_view(rows@).take(i as int)) == Some(snapshot_views(found@)),
        decreases rows.len() - i,
    {
        proof {
            let upto = rows_view(rows@).take(i + 1);
            assert(upto.drop_last() =~= rows_view(rows@).take(i as int));
            assert(upto.last() == row_view(rows@[i as int]@));
        }
        let ghost before = snapshot_views(found@);
        match decode_snapshot(&rows[i]) {
            Ok(s) => {
                found.push(s);
                proof {
                    assert(snapshot_views(found@) =~= before.push(s@));
                }
            },
            Err(e) => {
                proof {
                    lemma_decoded_snapshots_prefix(rows_view(rows@), i + 1);
                }
                return Err(e);
            },
        }
        i += 1;
    }
    proof {
        assert(rows_view(rows@).take(rows.len() as int) =~= rows_view(rows@));
    }
    let ghost unsorted = found@;
    let older = |a: &Snapshot, b: &Snapshot| -> (r: bool)
        ensures
            r == (a.id <= b.id),
        {
            a.id <= b.id
        };
    sort_by(&mut found, older, Ghost(|a: Snapshot, b: Snapshot| a.id <= b.id));
    proof {
        let view = |s: Snapshot| s@;
        lemma_sorted_by_map(unsorted, view, |a: Snapshot, b: Snapshot| a.id <= b.id, by_id());
        assert(unsorted.map_values(view) =~= snapshot_views(unsorted));
        assert(found@.map_values(view) =~= snapshot_views(found@));
    }
    Ok(found)
}

/// Where the rows up to `n` stand for no snapshots, all of them stand for
/// none.
proof fn lemma_decoded_snapshots_prefix(rows: Seq<Seq<FieldView>>, n: int)
    requires
        0 <= n <= rows.len(),
        decoded_snapshots(rows.take(n)) is None,
    ensures
        decoded_snapshots(rows) is None,
    decreases rows.len() - n,
{
    if n < rows.len() {
        assert(rows.take(n + 1).drop_last() =~= rows.take(n));
        lemma_decoded_snapshots_prefix(rows, n + 1);
    } else {
        assert(rows.take(n) =~= rows);
    }
}

/// Where the rows up to `n` stand for no markers, all of them stand for none.
proof fn lemma_decoded_todos_prefix(rows: Seq<Seq<FieldView>>, n: int)
    requires
        0 <= n <= rows.len(),
        decoded_todos(rows.take(n)) is None,
    ensures
        decoded_todos(rows) is None,
    decreases rows.len() - n,
{
    if n < rows.len() {
        assert(rows.take(n + 1).drop_last() =~= rows.take(n));
        lemma_decoded_todos_prefix(rows, n + 1);
    } else {
        assert(rows.take(n) =~= rows);
    }
}

/// The markers of snapshot `snapshot_id` among the rows of a query, by file
/// path and then by line number, whatever the order of the rows. A row that
/// stands for no marker is an error.
pub fn todos_from_rows(rows: &[Vec<Field>], snapshot_id: i64) -> (r: Result<
    Vec<StoredTodo>,
    TodoTrackError,
>)
    ensures
        match r {
            Ok(v) => {
                &&& decoded_todos(rows_view(rows@)) matches Some(all)
                &&& stored_views(v@) == sorted_by(of_snapshot(all, snapshot_id), by_location())
            },
            Err(e) => decoded_todos(rows_view(rows@)) is None && is_row_error(e),
        },
{
    let mut found: Vec<StoredTodo> = Vec::new();
    let ghost mut all: Seq<StoredTodoView> = Seq::empty();
    let mut i: usize = 0;
    proof {
        assert(stored_views(found@) =~= Seq::empty());
    }
    while i < rows.len()
        invariant
            i <= rows.len(),
            decoded_todos(rows_view(rows@).take(i as int)) == Some(all),
            stored_views(found@) == of_snapshot(all, snapshot_id),
        decreases rows.len() - i,
    {
        proof {
            let upto = rows_view(rows@).take(i + 1);
            assert(upto.drop_last() =~= rows_view(rows@).take(i as int));
            assert(upto.last() == row_view(rows@[i as int]@));
        }
        let ghost before = stored_views(found@);
        match decode_todo(&rows[i]) {
            Ok(t) => {
                proof {
                    assert(all.push(t@).drop_last() =~= all);
                    all = all.push(t@);
                }
                if t.snapshot_id == snapshot_id {
                    found.push(t);
                    proof {
                        assert(stored_views(found@) =~= before.push(t@));
                    }
                }
            },
            Err(e) => {
                proof {
                    lemma_decoded_todos_prefix(rows_view(rows@), i + 1);
                }
                return Err(e);
            },
        }
        i += 1;
    }
    proof {
        assert(rows_view(rows@).take(rows.len() as int) =~= rows_view(rows@));
    }
    let ghost unsorted = found@;
    let earlier = |a: &StoredTodo, b: &StoredTodo| -> (r: bool)
        ensures
            r == location_le(a@, b@),
        {
            location_before_or_same(a, b)
        };
    sort_by(&mut found, earlier, Ghost(|a: StoredTodo, b: StoredTodo| location_le(a@, b@)));
    proof {
        let view = |t: StoredTodo| t@;
        lemma_sorted_by_map(
            unsorted,
            view,
            |a: StoredTodo, b: StoredTodo| location_le(a@, b@),
            by_location(),
        );
        assert(unsorted.map_values(view) =~= stored_views(unsorted));
        assert(found@.map_values(view) =~= stored_views(found@));
    }
    Ok(found)
}

/// The snapshot with the highest id, and of those with that id the first:
/// `None` where there is no snapshot.
pub open spec fn newest(snapshots: Seq<SnapshotView>) -> Option<SnapshotView>
    decreases snapshots.len(),
{
    if snapshots.len() == 0 {
        None
    } else {
        match newest(snapshots.drop_last()) {
            Some(best) if best.id >= snapshots.last().id => Some(best),
            _ => Some(snapshots.last()),
        }
    }
}

/// The newest snapshot is one of the snapshots, and none has a higher id.
pub proof fn lemma_newest(snapshots: Seq<SnapshotView>)
    ensures
        snapshots.len() == 0 <==> newest(snapshots) is None,
        newest(snapshots) matches Some(best) ==> snapshots.contains(best) && forall|i: int|
            0 <= i < snapshots.len() ==> (#[trigger] snapshots[i]).id <= best.id,
    decreases snapshots.len(),
{
    if snapshots.len() > 0 {
        let front = snapshots.drop_last();
        lemma_newest(front);
        let best = newest(snapshots).unwrap();
        if best == snapshots.last() {
            assert(snapshots[snapshots.len() - 1] == best);
        } else {
            let k = choose|k: int| 0 <= k < front.len() && front[k] == best;
            assert(snapshots[k] == best);
        }
        assert forall|i: int| 0 <= i < snapshots.len() implies (#[trigger] snapshots[i]).id
            <= best.id by {
            if i < front.len() {
                assert(front[i] == snapshots[i]);
            }
        }
    }
}

/// The view of a snapshot that may be absent.
pub open spec fn snapshot_view(s: Option<Snapshot>) -> Option<SnapshotView> {
    match s {
        Some(snapshot) => Some(snapshot@),
        None => None,
    }
}

/// The newest of `snapshots`: the one with the highest id.
pub fn latest_of(snapshots: Vec<Snapshot>) -> (r: Option<Snapshot>)
    ensures
        snapshot_view(r) == newest(snapshot_views(snapshots@)),
{
    let mut best: Option<Snapshot> = None;
    for s in it: snapshots
        invariant
            it.seq() == snapshots@,
            snapshot_view(best) == newest(snapshot_views(snapshots@).take(it.index() as int)),
    {
        proof {
            let upto = snapshot_views(snapshots@).take(it.index() + 1);
            assert(upto.drop_last() =~= snapshot_views(snapshots@).take(it.index() as int));
            assert(upto.last() == s@);
        }
        let keep = match &best {
            Some(b) => b.id >= s.id,
            None => false,
        };
        if !keep {
            best = Some(s);
        }
    }
    proof {
        let views = snapshot_views(snapshots@);
        assert(views.take(views.len() as int) =~= views);
    }
    best
}

/// The marker count of a snapshot that may be absent.
pub fn count_of(latest: &Option<Snapshot>) -> (r: Option<i64>)
    ensures
        r == match latest {
            Some(s) => Some(s.todo_count),
            None => None,
        },
{
    match latest {
        Some(s) => Some(s.todo_count),
        None => None,
    }
}

/// The field that stands for a text that may be absent: null for absence.
pub open spec fn optional_text(t: Option<Seq<char>>) -> FieldView {
    match t {
        Some(text) => FieldView::Text(text),
        None => FieldView::Null,
    }
}

/// What is written of a snapshot: its time and the number of its markers.
pub open spec fn header_fields(timestamp: Seq<char>, count: nat) -> Seq<FieldView> {
    seq![FieldView::Text(timestamp), FieldView::Integer(count as i64)]
}

/// What is written of a marker: the snapshot it belongs to, its file, line,
/// keyword, author, issue reference and description.
pub open spec fn marker_fields(snapshot_id: i64, t: FileTodoView) -> Seq<FieldView> {
    seq![
        FieldView::Integer(snapshot_id),
        FieldView::Text(t.file_path),
        FieldView::Integer(t.item.line_number as i64),
        FieldView::Text(t.item.keyword),
        optional_text(t.item.author),
        optional_text(t.item.issue_ref),
        FieldView::Text(t.item.description),
    ]
}

/// The row that reads back for a marker written with `marker_fields`, once
/// the store gave it `id`: no authorship is known yet.
pub open spec fn stored_row(id: i64, snapshot_id: i64, t: FileTodoView) -> Seq<FieldView> {
    seq![FieldView::Integer(id)] + marker_fields(snapshot_id, t) + seq![
        FieldView::Null,
        FieldView::Null,
    ]
}

/// Whether `todos` can be written: their number and every line number fit
/// the integers of the store.
pub open spec fn fits_store(todos: Seq<FileTodo>) -> bool {
    &&& todos.len() <= i64::MAX
    &&& forall|i: int| 0 <= i < todos.len() ==> (#[trigger] todos[i]).item.line_number <= i64::MAX
}

/// Whether `todos` can be written.
pub fn can_store(todos: &[FileTodo]) -> (b: bool)
    ensures
        b == fits_store(todos@),
{
    if todos.len() as u64 > 0x7FFF_FFFF_FFFF_FFFF {
        return false;
    }
    let mut i: usize = 0;
    while i < todos.len()
        invariant
            i <= todos.len(),
            forall|k: int| 0 <= k < i ==> (#[trigger] todos@[k]).item.line_number <= i64::MAX,
        decreases todos.len() - i,
    {
        if todos[i].item.line_number as u64 > 0x7FFF_FFFF_FFFF_FFFF {
            return false;
        }
        i += 1;
    }
    true
}

/// The field for a text that may be absent.
fn optional_field(t: &Option<String>) -> (f: Field)
    ensures
        f@ == optional_text(t.deep_view()),
        is_writable(f),
{
    match t {
        Some(text) => Field::Text(text.clone()),
        None => Field::Null,
    }
}

/// What is written of a snapshot taken at `timestamp` with `count` markers.
pub fn header_row(timestamp: &str, count: usize) -> (row: Vec<Field>)
    requires
        count <= i64::MAX,
    ensures
        row_view(row@) == header_fields(timestamp@, count as nat),
        forall|i: int| 0 <= i < row@.len() ==> is_writable(#[trigger] row@[i]),
{
    let mut row: Vec<Field> = Vec::new();
    row.push(Field::Text(timestamp.to_owned()));
    row.push(Field::Integer(count as i64));
    proof {
        assert(row_view(row@) =~= header_fields(timestamp@, count as nat));
    }
    row
}

/// What is written of one marker of snapshot `snapshot_id`.
pub fn marker_row(snapshot_id: i64, t: &FileTodo) -> (row: Vec<Field>)
    requires
        t.item.line_number <= i64::MAX,
    ensures
        row_view(row@) == marker_fields(snapshot_id, t@),
        forall|i: int| 0 <= i < row@.len() ==> is_writable(#[trigger] row@[i]),
{
    let mut row: Vec<Field> = Vec::new();
    row.push(Field::Integer(snapshot_id));
    row.push(Field::Text(t.file_path.clone()));
    row.push(Field::Integer(t.item.line_number as i64));
    row.push(Field::Text(t.item.keyword.clone()));
    row.push(optional_field(&t.item.author));
    row.push(optional_field(&t.item.issue_ref));
    row.push(Field::Text(t.item.description.clone()));
    proof {
        assert(row_view(row@) =~= marker_fields(snapshot_id, t@));
    }
    row
}

/// The marker that reads back for a marker that was written, once the store
/// gave its row `id`: the same file, line, keyword, author, issue reference
/// and description, and no authorship yet.
pub open spec fn read_back(id: i64, snapshot_id: i64, t: FileTodoView) -> StoredTodoView {
    StoredTodoView {
        id,
        snapshot_id,
        file_path: t.file_path,
        line_number: t.item.line_number as i64,
        keyword: t.item.keyword,
        author: t.item.author,
        issue_ref: t.item.issue_ref,
        description: t.item.description,
        git_author: None,
        git_date: None,
    }
}

/// A marker that was written reads back as it was: the row that the store
/// keeps for it stands for a marker with the same file, line, keyword,
/// author, issue reference and description, and with no authorship yet. An
/// author or issue reference that is absent stays absent, and one that is
/// empty stays empty.
pub proof fn lemma_marker_reads_back(id: i64, snapshot_id: i64, t: FileTodoView)
    requires
        t.item.line_number <= i64::MAX,
    ensures
        decoded_todo(stored_row(id, snapshot_id, t)) == Some(read_back(id, snapshot_id, t)),
        read_back(id, snapshot_id, t).line_number == t.item.line_number,
{
    let row = stored_row(id, snapshot_id, t);
    let written = marker_fields(snapshot_id, t);
    assert(row.len() == 10);
    assert(row[1] == written[0]);
    assert(row[2] == written[1]);
    assert(row[3] == written[2]);
    assert(row[4] == written[3]);
    assert(row[5] == written[4]);
    assert(row[6] == written[5]);
    assert(row[7] == written[6]);
}

/// The rows that the store keeps for the markers `todos` of one snapshot,
/// where it gave them the ids `ids`.
pub open spec fn stored_rows(ids: Seq<i64>, snapshot_id: i64, todos: Seq<FileTodoView>) -> Seq<
    Seq<FieldView>,
> {
    Seq::new(todos.len(), |i: int| stored_row(ids[i], snapshot_id, todos[i]))
}

/// The markers that read back for the markers `todos` of one snapshot.
pub open spec fn read_markers(ids: Seq<i64>, snapshot_id: i64, todos: Seq<FileTodoView>) -> Seq<
    StoredTodoView,
> {
    Seq::new(todos.len(), |i: int| read_back(ids[i], snapshot_id, todos[i]))
}

/// The markers of a snapshot read back as they were written: where a query
/// gives the rows that were written for them, in any order of ids, the
/// listing that [`todos_from_rows`] makes of the rows holds every marker
/// once, with its six fields, and nothing else.
pub proof fn lemma_markers_read_back(ids: Seq<i64>, snapshot_id: i64, todos: Seq<FileTodoView>)
    requires
        ids.len() == todos.len(),
        forall|i: int| 0 <= i < todos.len() ==> (#[trigger] todos[i]).item.line_number <= i64::MAX,
    ensures
        decoded_todos(stored_rows(ids, snapshot_id, todos)) == Some(
            read_markers(ids, snapshot_id, todos),
        ),
        of_snapshot(read_markers(ids, snapshot_id, todos), snapshot_id) == read_markers(
            ids,
            snapshot_id,
            todos,
        ),
        sorted_by(
            of_snapshot(read_markers(ids, snapshot_id, todos), snapshot_id),
            by_location(),
        ).to_multiset() == read_markers(ids, snapshot_id, todos).to_multiset(),
        sorted_by(
            of_snapshot(read_markers(ids, snapshot_id, todos), snapshot_id),
            by_location(),
        ).len() == todos.len(),
    decreases todos.len(),
{
    let rows = stored_rows(ids, snapshot_id, todos);
    let read = read_markers(ids, snapshot_id, todos);
    if todos.len() > 0 {
        let n = todos.len() - 1;
        let fewer_ids = ids.drop_last();
        let fewer = todos.drop_last();
        assert forall|i: int| 0 <= i < fewer.len() implies (#[trigger] fewer[i]).item.line_number
            <= i64::MAX by {
            assert(fewer[i] == todos[i]);
        }
        lemma_markers_read_back(fewer_ids, snapshot_id, fewer);
        lemma_marker_reads_back(ids[n], snapshot_id, todos[n]);
        assert(rows.drop_last() =~= stored_rows(fewer_ids, snapshot_id, fewer));
        assert(read.drop_last() =~= read_markers(fewer_ids, snapshot_id, fewer));
        assert(rows.last() == stored_row(ids[n], snapshot_id, todos[n]));
        assert(read.last() == read_back(ids[n], snapshot_id, todos[n]));
        assert(read =~= read.drop_last().push(read.last()));
    } else {
        assert(read =~= Seq::<StoredTodoView>::empty());
    }
    crate::order::lemma_sorted_by(read, by_location());
}

/// One statement of the write of a snapshot.
#[derive(Debug, Clone, Copy, PartialEq, Eq)]
pub enum WriteStep {
    /// Opens the transaction.
    Begin,
    /// Inserts the row of the snapshot.
    InsertSnapshot,
    /// Inserts the row of the marker at this place.
    InsertMarker(usize),
    /// Makes the transaction last.
    Commit,
    /// Undoes the transaction.
    Rollback,
}

/// The statement that follows `step` in the write of a snapshot with
/// `markers` markers, given whether `step` succeeded: `None` where the
/// write is over.
///
/// The inserts follow one another while they succeed, and the commit
/// follows the last of them. An insert that fails is followed by the
/// rollback. Nothing follows a begin that failed, a commit or a rollback.
pub open spec fn step_after(step: WriteStep, ok: bool, markers: nat) -> Option<WriteStep> {
    match step {
        WriteStep::Begin => if ok {
            Some(WriteStep::InsertSnapshot)
        } else {
            None
        },
        WriteStep::InsertSnapshot => if !ok {
            Some(WriteStep::Rollback)
        } else if markers == 0 {
            Some(WriteStep::Commit)
        } else {
            Some(WriteStep::InsertMarker(0))
        },
        WriteStep::InsertMarker(i) => if !ok {
            Some(WriteStep::Rollback)
        } else if i + 1 < markers {
            Some(WriteStep::InsertMarker((i + 1) as usize))
        } else {
            Some(WriteStep::Commit)
        },
        WriteStep::Commit => None,
        WriteStep::Rollback => None,
    }
}

/// The statement that follows `step`, given whether `step` succeeded.
pub fn next_step(step: WriteStep, ok: bool, markers: usize) -> (next: Option<WriteStep>)
    ensures
        next == step_after(step, ok, markers as nat),
{
    match step {
        WriteStep::Begin => if ok {
            Some(WriteStep::InsertSnapshot)
        } else {
            None
        },
        WriteStep::InsertSnapshot => if !ok {
            Some(WriteStep::Rollback)
        } else if markers == 0 {
            Some(WriteStep::Commit)
        } else {
            Some(WriteStep::InsertMarker(0))
        },
        WriteStep::InsertMarker(i) => if !ok {
            Some(WriteStep::Rollback)
        } else if markers > 0 && i < markers - 1 {
            Some(WriteStep::InsertMarker(i + 1))
        } else {
            Some(WriteStep::Commit)
        },
        WriteStep::Commit => None,
        WriteStep::Rollback => None,
    }
}

/// How far the write of a snapshot has come.
#[derive(Debug, Clone, Copy, PartialEq, Eq)]
pub struct WriteRun {
    /// The statement to issue next: `None` where the write is over.
    pub next: Option<WriteStep>,
    /// The id that the store gave the snapshot, once the row of the
    /// snapshot was inserted: the id that every marker row is written with,
    /// and that the write returns. Zero before.
    pub snapshot_id: i64,
    /// Whether a statement failed.
    pub failed: bool,
}

/// The run before its first statement: the begin is next.
pub open spec fn start_run() -> WriteRun {
    WriteRun { next: Some(WriteStep::Begin), snapshot_id: 0, failed: false }
}

/// The run after the statement `run.next` was issued, given whether it
/// succeeded and, for an insert, the id that the store gave the new row.
///
/// The next statement is the one that [`step_after`] tells. The id of the
/// row of the snapshot, where its insert succeeded, becomes the id of the
/// snapshot; no other statement changes it. A statement that failed marks
/// the run as failed for good.
pub open spec fn run_after(run: WriteRun, ok: bool, row_id: i64, markers: nat) -> WriteRun {
    WriteRun {
        next: match run.next {
            Some(step) => step_after(step, ok, markers),
            None => None,
        },
        snapshot_id: if ok && run.next == Some(WriteStep::InsertSnapshot) {
            row_id
        } else {
            run.snapshot_id
        },
        failed: run.failed || !ok,
    }
}

/// The run before its first statement.
pub fn start_write() -> (run: WriteRun)
    ensures
        run == start_run(),
{
    WriteRun { next: Some(WriteStep::Begin), snapshot_id: 0, failed: false }
}

/// The run after the statement `run.next` was issued: `ok` tells whether it
/// succeeded, `row_id` the id that the store gave the row of an insert.
pub fn advance(run: WriteRun, ok: bool, row_id: i64, markers: usize) -> (next: WriteRun)
    requires
        run.next is Some,
    ensures
        next == run_after(run, ok, row_id, markers as nat),
{
    match run.next {
        Some(step) => {
            let snapshot_id = match step {
                WriteStep::InsertSnapshot => if ok {
                    row_id
                } else {
                    run.snapshot_id
                },
                _ => run.snapshot_id,
            };
            WriteRun { next: next_step(step, ok, markers), snapshot_id, failed: run.failed || !ok }
        },
        None => run,
    }
}

/// What a write returns: the id of the snapshot where no statement failed,
/// else the error of the first statement that failed.
pub fn write_result(run: &WriteRun, first_error: Option<TodoTrackError>) -> (r: Result<
    i64,
    TodoTrackError,
>)
    requires
        run.failed == (first_error is Some),
    ensures
        match r {
            Ok(id) => !run.failed && id == run.snapshot_id,
            Err(e) => first_error == Some(e),
        },
{
    match first_error {
        Some(e) => Err(e),
        None => Ok(run.snapshot_id),
    }
}

/// The run after as many statements as `outcomes` has entries, where the
/// statement at each place fared as `outcomes` says at that place: whether
/// it succeeded, and the row id that the store gave. Outcomes beyond the
/// end of the write count for nothing.
pub open spec fn run_through(markers: nat, outcomes: Seq<(bool, i64)>) -> WriteRun
    decreases outcomes.len(),
{
    if outcomes.len() == 0 {
        start_run()
    } else {
        let before = run_through(markers, outcomes.drop_last());
        if before.next is Some {
            run_after(before, outcomes.last().0, outcomes.last().1, markers)
        } else {
            before
        }
    }
}

/// The statement that is issued at place `k` of the run, after `k`
/// statements: `None` where the write is over by then.
pub open spec fn issued(markers: nat, outcomes: Seq<(bool, i64)>, k: int) -> Option<WriteStep> {
    run_through(markers, outcomes.take(k)).next
}

/// The id of the snapshot while statement `k` of the run is issued.
pub open spec fn id_at(markers: nat, outcomes: Seq<(bool, i64)>, k: int) -> i64 {
    run_through(markers, outcomes.take(k)).snapshot_id
}

/// The statement at place `j` of a write in which nothing fails: the begin,
/// the insert of the snapshot, the insert of each marker, the commit.
pub open spec fn planned_step(markers: nat, j: int) -> WriteStep {
    if j <= 0 {
        WriteStep::Begin
    } else if j == 1 {
        WriteStep::InsertSnapshot
    } else if j < markers + 2 {
        WriteStep::InsertMarker((j - 2) as usize)
    } else {
        WriteStep::Commit
    }
}

/// Whether the first `n` of `outcomes` are all successes.
pub open spec fn all_succeed(outcomes: Seq<(bool, i64)>, n: int) -> bool {
    forall|j: int| 0 <= j < n && j < outcomes.len() ==> (#[trigger] outcomes[j]).0
}

/// The row id that the second statement, the insert of the snapshot, was
/// given: zero where the run has not come that far.
pub open spec fn id_given(outcomes: Seq<(bool, i64)>) -> i64 {
    if outcomes.len() >= 2 {
        outcomes[1].1
    } else {
        0
    }
}

/// How a run goes. While nothing fails it follows the plan: begin, every
/// insert, commit, and from the insert of the snapshot on it carries the id
/// that this insert was given. The first failure decides the rest: after a
/// begin that failed nothing follows, after an insert that failed only the
/// rollback, after a commit that failed nothing.
pub proof fn lemma_run_through(markers: nat, outcomes: Seq<(bool, i64)>)
    requires
        markers <= usize::MAX,
    ensures
        ({
            let r = run_through(markers, outcomes);
            let n = outcomes.len() as int;
            let m = markers as int;
            &&& all_succeed(outcomes, n) && n <= m + 2 ==> {
                &&& r.next == Some(planned_step(markers, n))
                &&& r.snapshot_id == id_given(outcomes)
                &&& !r.failed
            }
            &&& n >= m + 3 && all_succeed(outcomes, m + 3) ==> {
                &&& r.next is None
                &&& r.snapshot_id == outcomes[1].1
                &&& !r.failed
            }
            &&& forall|f: int|
                0 <= f < n && f <= m + 2 && #[trigger] all_succeed(outcomes, f) && !outcomes[f].0
                    ==> {
                    &&& r.next == (if 1 <= f <= m + 1 && n == f + 1 {
                        Some(WriteStep::Rollback)
                    } else {
                        None
                    })
                    &&& r.snapshot_id == (if f >= 2 {
                        outcomes[1].1
                    } else {
                        0
                    })
                    &&& r.failed
                }
        }),
    decreases outcomes.len(),
{
    let r = run_through(markers, outcomes);
    let n = outcomes.len() as int;
    let m = markers as int;
    if n > 0 {
        let front = outcomes.drop_last();
        let before = run_through(markers, front);
        let last = outcomes[n - 1];
        lemma_run_through(markers, front);
        assert forall|j: int| 0 <= j < n - 1 implies front[j] == outcomes[j] by {}
        if all_succeed(outcomes, n) && n <= m + 2 {
            assert(all_succeed(front, n - 1));
            assert(last.0);
            assert(before.next == Some(planned_step(markers, n - 1)));
            assert(r == run_after(before, last.0, last.1, markers));
        }
        if n >= m + 3 && all_succeed(outcomes, m + 3) {
            if n - 1 >= m + 3 {
                assert(all_succeed(front, m + 3));
                assert(r == before);
            } else {
                assert(all_succeed(front, n - 1));
                assert(last.0);
                assert(before.next == Some(planned_step(markers, n - 1)));
                assert(r == run_after(before, last.0, last.1, markers));
            }
        }
        assert forall|f: int|
            0 <= f < n && f <= m + 2 && #[trigger] all_succeed(outcomes, f) && !outcomes[f].0 implies {
            &&& r.next == (if 1 <= f <= m + 1 && n == f + 1 {
                Some(WriteStep::Rollback)
            } else {
                None
            })
            &&& r.snapshot_id == (if f >= 2 {
                outcomes[1].1
            } else {
                0
            })
            &&& r.failed
        } by {
            if f < n - 1 {
                assert(all_succeed(front, f));
                assert(!front[f].0);
                if before.next is Some {
                    assert(before.next == Some(WriteStep::Rollback));
                    assert(r == run_after(before, last.0, last.1, markers));
                } else {
                    assert(r == before);
                }
            } else {
                assert(all_succeed(front, n - 1));
                assert(before.next == Some(planned_step(markers, f)));
                assert(r == run_after(before, last.0, last.1, markers));
            }
        }
    }
}

/// The place of the first failure among `outcomes`: their number where
/// there is none.
pub open spec fn first_failure(outcomes: Seq<(bool, i64)>) -> int
    decreases outcomes.len(),
{
    if outcomes.len() == 0 {
        0
    } else if !outcomes[0].0 {
        0
    } else {
        1 + first_failure(outcomes.drop_first())
    }
}

proof fn lemma_first_failure(outcomes: Seq<(bool, i64)>)
    ensures
        0 <= first_failure(outcomes) <= outcomes.len(),
        all_succeed(outcomes, first_failure(outcomes)),
        first_failure(outcomes) < outcomes.len() ==> !outcomes[first_failure(outcomes)].0,
    decreases outcomes.len(),
{
    if outcomes.len() > 0 && outcomes[0].0 {
        let rest = outcomes.drop_first();
        lemma_first_failure(rest);
        assert forall|j: int|
            0 <= j < first_failure(outcomes) && j < outcomes.len() implies (
        #[trigger] outcomes[j]).0 by {
            if j > 0 {
                assert(rest[j - 1] == outcomes[j]);
            }
        }
    }
}

/// How the run stands after `k` statements, in terms of all the outcomes:
/// what [`lemma_run_through`] says of the first `k` of them.
proof fn lemma_run_at(markers: nat, outcomes: Seq<(bool, i64)>, k: int)
    requires
        markers <= usize::MAX,
        0 <= k <= outcomes.len(),
    ensures
        ({
            let r = run_through(markers, outcomes.take(k));
            let m = markers as int;
            &&& all_succeed(outcomes, k) && k <= m + 2 ==> {
                &&& r.next == Some(planned_step(markers, k))
                &&& r.snapshot_id == (if k >= 2 {
                    outcomes[1].1
                } else {
                    0
                })
                &&& !r.failed
            }
            &&& k >= m + 3 && all_succeed(outcomes, m + 3) ==> {
                &&& r.next is None
                &&& r.snapshot_id == outcomes[1].1
                &&& !r.failed
            }
            &&& forall|f: int|
                0 <= f < k && f <= m + 2 && #[trigger] all_succeed(outcomes, f) && !outcomes[f].0
                    ==> {
                    &&& r.next == (if 1 <= f <= m + 1 && k == f + 1 {
                        Some(WriteStep::Rollback)
                    } else {
                        None
                    })
                    &&& r.failed
                }
        }),
{
    let part = outcomes.take(k);
    let r = run_through(markers, part);
    let m = markers as int;
    lemma_run_through(markers, part);
    assert forall|j: int| 0 <= j < k implies #[trigger] part[j] == outcomes[j] by {}
    if all_succeed(outcomes, k) && k <= m + 2 {
        assert(all_succeed(part, k)) by {
            assert forall|j: int| 0 <= j < k && j < part.len() implies (#[trigger] part[j]).0 by {
                assert(outcomes[j].0);
            }
        }
    }
    if k >= m + 3 && all_succeed(outcomes, m + 3) {
        assert(all_succeed(part, m + 3)) by {
            assert forall|j: int| 0 <= j < m + 3 && j < part.len() implies (#[trigger] part[j]).0 by {
                assert(outcomes[j].0);
            }
        }
        assert(part[1] == outcomes[1]);
    }
    assert forall|f: int|
        0 <= f < k && f <= m + 2 && #[trigger] all_succeed(outcomes, f) && !outcomes[f].0 implies {
        &&& r.next == (if 1 <= f <= m + 1 && k == f + 1 {
            Some(WriteStep::Rollback)
        } else {
            None
        })
        &&& r.failed
    } by {
        assert(all_succeed(part, f)) by {
            assert forall|j: int| 0 <= j < f && j < part.len() implies (#[trigger] part[j]).0 by {
                assert(outcomes[j].0);
            }
        }
        assert(part[f] == outcomes[f]);
    }
}

/// Where the first `b` outcomes are successes, so are the first `a` of
/// them.
proof fn lemma_fewer_succeed(outcomes: Seq<(bool, i64)>, a: int, b: int)
    requires
        a <= b,
        all_succeed(outcomes, b),
    ensures
        all_succeed(outcomes, a),
{
}

/// Where the commit is issued, it is at the place behind the last insert,
/// and everything before it went by the plan and succeeded.
proof fn lemma_commit_place(markers: nat, outcomes: Seq<(bool, i64)>, k: int)
    requires
        markers <= usize::MAX,
        0 <= k <= outcomes.len(),
        issued(markers, outcomes, k) == Some(WriteStep::Commit),
    ensures
        k == markers + 2,
        all_succeed(outcomes, k),
        forall|j: int|
            0 <= j < k ==> #[trigger] issued(markers, outcomes, j) == Some(planned_step(markers, j)),
{
    let m = markers as int;
    let n = outcomes.len() as int;
    lemma_run_at(markers, outcomes, k);
    lemma_first_failure(outcomes);
    let f = first_failure(outcomes);
    let r = run_through(markers, outcomes.take(k));
    assert(r.next == Some(WriteStep::Commit));
    if f < k {
        if f <= m + 2 {
            assert(all_succeed(outcomes, f));
            assert(r.next != Some(WriteStep::Commit));
        } else {
            lemma_fewer_succeed(outcomes, m + 3, f);
            assert(r.next is None);
        }
    } else {
        lemma_fewer_succeed(outcomes, k, f);
        if k >= m + 3 {
            lemma_fewer_succeed(outcomes, m + 3, k);
            assert(r.next is None);
        } else {
            assert(r.next == Some(planned_step(markers, k)));
        }
    }
    assert(k == m + 2);
    assert(all_succeed(outcomes, k));
    assert forall|j: int| 0 <= j < k implies #[trigger] issued(markers, outcomes, j) == Some(
        planned_step(markers, j),
    ) by {
        lemma_fewer_succeed(outcomes, j, k);
        lemma_run_at(markers, outcomes, j);
    }
}

/// A write is all or nothing. In every run, however the statements fare:
/// the commit is issued only after the begin and every insert succeeded;
/// where an insert fails, the run has failed, so that the write returns an
/// error, the rollback is the next statement and the last, and no commit is
/// issued at any place.
pub proof fn lemma_write_is_all_or_nothing(markers: nat, outcomes: Seq<(bool, i64)>)
    requires
        markers <= usize::MAX,
    ensures
        forall|k: int|
            0 <= k <= outcomes.len() && #[trigger] issued(markers, outcomes, k) == Some(
                WriteStep::Commit,
            ) ==> {
                &&& k == markers + 2
                &&& all_succeed(outcomes, k)
                &&& forall|j: int|
                    0 <= j < k ==> #[trigger] issued(markers, outcomes, j) == Some(
                        planned_step(markers, j),
                    )
            },
        forall|f: int|
            1 <= f <= markers + 1 && f < outcomes.len() && #[trigger] all_succeed(outcomes, f)
                && !outcomes[f].0 ==> {
                &&& issued(markers, outcomes, f + 1) == Some(WriteStep::Rollback)
                &&& run_through(markers, outcomes).failed
                &&& forall|k: int|
                    f + 2 <= k <= outcomes.len() ==> #[trigger] issued(markers, outcomes, k) is None
                &&& forall|k: int|
                    0 <= k <= outcomes.len() ==> #[trigger] issued(markers, outcomes, k) != Some(
                        WriteStep::Commit,
                    )
            },
{
    let n = outcomes.len() as int;
    assert forall|k: int|
        0 <= k <= outcomes.len() && #[trigger] issued(markers, outcomes, k) == Some(
            WriteStep::Commit,
        ) implies {
        &&& k == markers + 2
        &&& all_succeed(outcomes, k)
        &&& forall|j: int|
            0 <= j < k ==> #[trigger] issued(markers, outcomes, j) == Some(planned_step(markers, j))
    } by {
        lemma_commit_place(markers, outcomes, k);
    }
    assert forall|f: int|
        1 <= f <= markers + 1 && f < outcomes.len() && #[trigger] all_succeed(outcomes, f)
            && !outcomes[f].0 implies {
        &&& issued(markers, outcomes, f + 1) == Some(WriteStep::Rollback)
        &&& run_through(markers, outcomes).failed
        &&& forall|k: int|
            f + 2 <= k <= outcomes.len() ==> #[trigger] issued(markers, outcomes, k) is None
        &&& forall|k: int|
            0 <= k <= outcomes.len() ==> #[trigger] issued(markers, outcomes, k) != Some(
                WriteStep::Commit,
            )
    } by {
        lemma_run_at(markers, outcomes, f + 1);
        lemma_run_at(markers, outcomes, n);
        assert(outcomes.take(n) =~= outcomes);
        assert forall|k: int| f + 2 <= k <= outcomes.len() implies #[trigger] issued(
            markers,
            outcomes,
            k,
        ) is None by {
            lemma_run_at(markers, outcomes, k);
        }
        assert forall|k: int| 0 <= k <= outcomes.len() implies #[trigger] issued(
            markers,
            outcomes,
            k,
        ) != Some(WriteStep::Commit) by {
            if issued(markers, outcomes, k) == Some(WriteStep::Commit) {
                lemma_commit_place(markers, outcomes, k);
                if f < k {
                    assert(outcomes[f].0);
                } else {
                    assert(k == markers + 2);
                }
            }
        }
    }
}

/// A write that comes to its end without a failure has inserted the
/// snapshot and then every marker, each with the id that the store gave
/// the row of the snapshot, and has committed; that id is the one the
/// write returns, and the count written with the snapshot is the number of
/// marker rows.
pub proof fn lemma_count_is_rows_inserted(
    timestamp: Seq<char>,
    markers: nat,
    outcomes: Seq<(bool, i64)>,
)
    requires
        markers <= i64::MAX,
        markers <= usize::MAX,
        run_through(markers, outcomes).next is None,
        !run_through(markers, outcomes).failed,
    ensures
        integer_field(header_fields(timestamp, markers), 1) == Some(markers as i64),
        outcomes.len() >= markers + 3,
        all_succeed(outcomes, markers as int + 3),
        issued(markers, outcomes, 1) == Some(WriteStep::InsertSnapshot),
        forall|i: int|
            0 <= i < markers ==> #[trigger] issued(markers, outcomes, i + 2) == Some(
                WriteStep::InsertMarker(i as usize),
            ) && id_at(markers, outcomes, i + 2) == outcomes[1].1,
        issued(markers, outcomes, markers as int + 2) == Some(WriteStep::Commit),
        run_through(markers, outcomes).snapshot_id == outcomes[1].1,
{
    let n = outcomes.len() as int;
    let m = markers as int;
    let r = run_through(markers, outcomes);
    lemma_run_at(markers, outcomes, n);
    assert(outcomes.take(n) =~= outcomes);
    lemma_first_failure(outcomes);
    let f = first_failure(outcomes);
    if f < n {
        if f <= m + 2 {
            assert(r.failed);
        } else {
            lemma_fewer_succeed(outcomes, m + 3, f);
        }
    } else {
        if n <= m + 2 {
            assert(r.next is Some);
        } else {
            lemma_fewer_succeed(outcomes, m + 3, n);
        }
    }
    assert(n >= m + 3);
    assert(all_succeed(outcomes, m + 3));
    lemma_fewer_succeed(outcomes, 1, m + 3);
    lemma_run_at(markers, outcomes, 1);
    lemma_fewer_succeed(outcomes, m + 2, m + 3);
    lemma_run_at(markers, outcomes, m + 2);
    assert forall|i: int| 0 <= i < markers implies #[trigger] issued(markers, outcomes, i + 2)
        == Some(WriteStep::InsertMarker(i as usize)) && id_at(markers, outcomes, i + 2)
        == outcomes[1].1 by {
        lemma_fewer_succeed(outcomes, i + 2, m + 3);
        lemma_run_at(markers, outcomes, i + 2);
    }
}

/// The name of the directory, under the root of a project, that holds the
/// store of the project.
pub fn store_dir() -> (name: &'static str)
    ensures
        name@ == ".todo-track"@,
{
    ".todo-track"
}

/// The name of the database file in the directory of the store.
pub fn store_file() -> (name: &'static str)
    ensures
        name@ == "db.sqlite"@,
{
    "db.sqlite"
}

/// A scan never enters the directory of the store.
pub proof fn lemma_store_dir_is_skipped()
    ensures
        crate::scanner::is_skipped_dir(".todo-track"@),
{
}

/// The statement that makes the table of snapshots.
pub open spec fn create_snapshots_text() -> Seq<char> {
    "CREATE TABLE IF NOT EXISTS snapshots (id INTEGER PRIMARY KEY, timestamp TEXT NOT NULL, todo_count INTEGER NOT NULL)"@
}

/// The statement that makes the table of markers.
pub open spec fn create_todos_text() -> Seq<char> {
    "CREATE TABLE IF NOT EXISTS todos (id INTEGER PRIMARY KEY, snapshot_id INTEGER NOT NULL, file_path TEXT NOT NULL, line_number INTEGER NOT NULL, keyword TEXT NOT NULL, author TEXT, issue_ref TEXT, description TEXT NOT NULL, git_author TEXT, git_date TEXT, FOREIGN KEY (snapshot_id) REFERENCES snapshots(id))"@
}

/// The text of each statement of the write of a snapshot.
pub open spec fn statement_text(step: WriteStep) -> Seq<char> {
    match step {
        WriteStep::Begin => "BEGIN"@,
        WriteStep::InsertSnapshot => "INSERT INTO snapshots (timestamp, todo_count) VALUES (?1, ?2)"@,
        WriteStep::InsertMarker(_) => "INSERT INTO todos (snapshot_id, file_path, line_number, keyword, author, issue_ref, description) VALUES (?1, ?2, ?3, ?4, ?5, ?6, ?7)"@,
        WriteStep::Commit => "COMMIT"@,
        WriteStep::Rollback => "ROLLBACK"@,
    }
}

/// The values bound to each statement of the write of a snapshot: the
/// fields of the snapshot, those of the marker at the step's place with the
/// id of the snapshot, and none for the other statements.
pub open spec fn statement_fields(
    step: WriteStep,
    timestamp: Seq<char>,
    todos: Seq<FileTodoView>,
    snapshot_id: i64,
) -> Seq<FieldView> {
    match step {
        WriteStep::InsertSnapshot => header_fields(timestamp, todos.len()),
        WriteStep::InsertMarker(i) => if i < todos.len() {
            marker_fields(snapshot_id, todos[i as int])
        } else {
            Seq::empty()
        },
        _ => Seq::empty(),
    }
}

/// The statement that sets the authorship of a marker.
pub open spec fn blame_update_text() -> Seq<char> {
    "UPDATE todos SET git_author = ?1, git_date = ?2 WHERE id = ?3"@
}

/// The query for every snapshot, oldest first.
pub open spec fn snapshots_query_text() -> Seq<char> {
    "SELECT id, timestamp, todo_count FROM snapshots ORDER BY id ASC"@
}

/// The query for the snapshot with the highest id.
pub open spec fn latest_query_text() -> Seq<char> {
    "SELECT id, timestamp, todo_count FROM snapshots ORDER BY id DESC LIMIT 1"@
}

/// The query for the markers of one snapshot, by file and line.
pub open spec fn todos_query_text() -> Seq<char> {
    "SELECT id, snapshot_id, file_path, line_number, keyword, author, issue_ref, description, git_author, git_date FROM todos WHERE snapshot_id = ?1 ORDER BY file_path, line_number"@
}

/// The statement of a step of the write, and the values bound to it.
pub fn statement_of(step: WriteStep, timestamp: &str, todos: &[FileTodo], snapshot_id: i64) -> (s: (
    &'static str,
    Vec<Field>,
))
    requires
        fits_store(todos@),
        step matches WriteStep::InsertMarker(i) ==> i < todos@.len(),
    ensures
        s.0@ == statement_text(step),
        row_view(s.1@) == statement_fields(step, timestamp@, file_todo_views(todos@), snapshot_id),
        forall|i: int| 0 <= i < s.1@.len() ==> is_writable(#[trigger] s.1@[i]),
{
    match step {
        WriteStep::Begin => {
            let none: Vec<Field> = Vec::new();
            proof {
                assert(row_view(none@) =~= Seq::empty());
            }
            ("BEGIN", none)
        },
        WriteStep::InsertSnapshot => (
            "INSERT INTO snapshots (timestamp, todo_count) VALUES (?1, ?2)",
            header_row(timestamp, todos.len()),
        ),
        WriteStep::InsertMarker(i) => (
            "INSERT INTO todos (snapshot_id, file_path, line_number, keyword, author, issue_ref, description) VALUES (?1, ?2, ?3, ?4, ?5, ?6, ?7)",
            marker_row(snapshot_id, &todos[i]),
        ),
        WriteStep::Commit => {
            let none: Vec<Field> = Vec::new();
            proof {
                assert(row_view(none@) =~= Seq::empty());
            }
            ("COMMIT", none)
        },
        WriteStep::Rollback => {
            let none: Vec<Field> = Vec::new();
            proof {
                assert(row_view(none@) =~= Seq::empty());
            }
            ("ROLLBACK", none)
        },
    }
}

/// Whether `after` is `before` with one more statement sent: `sql`, with
/// `params` bound to it.
pub open spec fn is_one_more(
    before: Seq<Exchange>,
    after: Seq<Exchange>,
    sql: Seq<char>,
    params: Seq<FieldView>,
) -> bool {
    &&& after.len() == before.len() + 1
    &&& after.drop_last() == before
    &&& after.last().sql == sql
    &&& after.last().params == params
}

/// Whether `log` holds the two statements that make the tables, both
/// answered without failure, and nothing else.
pub open spec fn is_schema_log(log: Seq<Exchange>) -> bool {
    &&& log.len() == 2
    &&& log[0].sql == create_snapshots_text()
    &&& log[0].params == Seq::<FieldView>::empty()
    &&& log[0].answer is Done
    &&& log[1].sql == create_todos_text()
    &&& log[1].params == Seq::<FieldView>::empty()
    &&& log[1].answer is Done
}

/// Sends a statement without parameters.
fn send_plain(store: &mut Store, sql: &str) -> (r: Result<(), TodoTrackError>)
    ensures
        is_one_more(sent(*old(store)), sent(*final(store)), sql@, Seq::empty()),
        match r {
            Ok(()) => sent(*final(store)).last().answer is Done,
            Err(e) => sent(*final(store)).last().answer is Refused && is_sqlite_error(e),
        },
{
    let none: Vec<Field> = Vec::new();
    proof {
        assert(row_view(none@) =~= Seq::empty());
    }
    let r = send(store, sql, &none);
    proof {
        assert(sent(*store).drop_last() =~= sent(*old(store)));
    }
    match r {
        Ok(_) => Ok(()),
        Err(e) => Err(TodoTrackError::Database(DatabaseError::Sqlite(e))),
    }
}

/// Opens the store in the database file at `path`, making the file where
/// it does not exist, and sends the two statements that make the tables
/// where they do not exist yet. The store is handed out where both were
/// accepted.
pub fn open_db(path: &str) -> (r: Result<Store, TodoTrackError>)
    ensures
        match r {
            Ok(store) => is_schema_log(sent(store)),
            Err(e) => is_sqlite_error(e),
        },
{
    let mut store = match open_connection(path) {
        Ok(s) => s,
        Err(e) => {
            return Err(TodoTrackError::Database(DatabaseError::Sqlite(e)));
        },
    };
    match send_plain(
        &mut store,
        "CREATE TABLE IF NOT EXISTS snapshots (id INTEGER PRIMARY KEY, timestamp TEXT NOT NULL, todo_count INTEGER NOT NULL)",
    ) {
        Ok(()) => {},
        Err(e) => {
            return Err(e);
        },
    }
    match send_plain(
        &mut store,
        "CREATE TABLE IF NOT EXISTS todos (id INTEGER PRIMARY KEY, snapshot_id INTEGER NOT NULL, file_path TEXT NOT NULL, line_number INTEGER NOT NULL, keyword TEXT NOT NULL, author TEXT, issue_ref TEXT, description TEXT NOT NULL, git_author TEXT, git_date TEXT, FOREIGN KEY (snapshot_id) REFERENCES snapshots(id))",
    ) {
        Ok(()) => Ok(store),
        Err(e) => Err(e),
    }
}

/// Whether `x` is the statement of `step`, sent with the values that the
/// step binds.
pub open spec fn is_step_sent(
    x: Exchange,
    step: Option<WriteStep>,
    timestamp: Seq<char>,
    todos: Seq<FileTodoView>,
    snapshot_id: i64,
) -> bool {
    &&& step matches Some(s)
    &&& x.sql == statement_text(s)
    &&& x.params == statement_fields(s, timestamp, todos, snapshot_id)
}

/// How a statement fared, by its answer: whether it ran, and the row id
/// that came with the answer.
pub open spec fn outcome_of(answer: Answer) -> (bool, i64) {
    match answer {
        Answer::Done(row_id) => (true, row_id),
        _ => (false, 0),
    }
}

/// How the statements of `log` fared, in order.
pub open spec fn outcomes_of(log: Seq<Exchange>) -> Seq<(bool, i64)> {
    log.map_values(|x: Exchange| outcome_of(x.answer))
}

/// Whether what was sent between `before` and `after` is the write of one
/// snapshot of `todos`, taken at `timestamp`, and `result` what the write
/// gives: the id of the snapshot, or `None` for an error.
///
/// The statements are those of the run that [`run_through`] makes of their
/// answers, each with its text and its values: the begin, the insert of
/// the snapshot, the insert of every marker with the id that the insert of
/// the snapshot was answered with, and the commit; or, from the first
/// statement that failed, what [`run_after`] tells. The run is at its end.
/// The result is the id of the run where no statement failed.
pub open spec fn is_write_of(
    before: Seq<Exchange>,
    after: Seq<Exchange>,
    timestamp: Seq<char>,
    todos: Seq<FileTodoView>,
    result: Option<i64>,
) -> bool {
    let new = after.skip(before.len() as int);
    let outcomes = outcomes_of(new);
    let run = run_through(todos.len(), outcomes);
    &&& before.len() <= after.len()
    &&& after.take(before.len() as int) == before
    &&& forall|k: int|
        0 <= k < new.len() ==> is_step_sent(
            #[trigger] new[k],
            issued(todos.len(), outcomes, k),
            timestamp,
            todos,
            id_at(todos.len(), outcomes, k),
        )
    &&& run.next is None
    &&& result == (if run.failed {
        None
    } else {
        Some(run.snapshot_id)
    })
}

/// What a write that returned an id has sent: the begin, the insert of the
/// snapshot with its time and the number of the markers, the insert of
/// every marker, in their order and each with the returned id, and the
/// commit, and nothing else; every one of them was accepted, and the
/// returned id is the one that the insert of the snapshot was answered
/// with.
pub proof fn lemma_write_succeeded(
    before: Seq<Exchange>,
    after: Seq<Exchange>,
    timestamp: Seq<char>,
    todos: Seq<FileTodoView>,
    id: i64,
)
    requires
        todos.len() <= usize::MAX,
        todos.len() <= i64::MAX,
        is_write_of(before, after, timestamp, todos, Some(id)),
    ensures
        ({
            let new = after.skip(before.len() as int);
            let n = todos.len() as int;
            &&& new.len() == n + 3
            &&& forall|k: int| 0 <= k < n + 3 ==> (#[trigger] new[k]).answer is Done
            &&& new[0].sql == statement_text(WriteStep::Begin)
            &&& new[1].sql == statement_text(WriteStep::InsertSnapshot)
            &&& new[1].params == header_fields(timestamp, todos.len())
            &&& new[1].answer == Answer::Done(id)
            &&& forall|i: int|
                0 <= i < n ==> (#[trigger] new[i + 2]).sql == statement_text(
                    WriteStep::InsertMarker(i as usize),
                ) && new[i + 2].params == marker_fields(id, todos[i])
            &&& new[n + 2].sql == statement_text(WriteStep::Commit)
        }),
{
    let new = after.skip(before.len() as int);
    let n = todos.len() as int;
    let outcomes = outcomes_of(new);
    let run = run_through(todos.len(), outcomes);
    lemma_count_is_rows_inserted(timestamp, todos.len(), outcomes);
    lemma_run_at(todos.len(), outcomes, 0);
    if new.len() > n + 3 {
        lemma_run_at(todos.len(), outcomes, n + 3);
        assert(is_step_sent(
            new[n + 3],
            issued(todos.len(), outcomes, n + 3),
            timestamp,
            todos,
            id_at(todos.len(), outcomes, n + 3),
        ));
    }
    assert forall|k: int| 0 <= k < n + 3 implies (#[trigger] new[k]).answer is Done by {
        assert(outcomes[k].0);
    }
    assert(outcomes[1] == outcome_of(new[1].answer));
    assert(is_step_sent(
        new[0],
        issued(todos.len(), outcomes, 0),
        timestamp,
        todos,
        id_at(todos.len(), outcomes, 0),
    ));
    assert(is_step_sent(
        new[1],
        issued(todos.len(), outcomes, 1),
        timestamp,
        todos,
        id_at(todos.len(), outcomes, 1),
    ));
    assert(is_step_sent(
        new[n + 2],
        issued(todos.len(), outcomes, n + 2),
        timestamp,
        todos,
        id_at(todos.len(), outcomes, n + 2),
    ));
    assert forall|i: int| 0 <= i < n implies (#[trigger] new[i + 2]).sql == statement_text(
        WriteStep::InsertMarker(i as usize),
    ) && new[i + 2].params == marker_fields(id, todos[i]) by {
        assert(is_step_sent(
            new[i + 2],
            issued(todos.len(), outcomes, i + 2),
            timestamp,
            todos,
            id_at(todos.len(), outcomes, i + 2),
        ));
    }
}

/// What a write that returned an error has sent. Some statement was
/// refused, and all before it were accepted. Where the begin was refused,
/// nothing else was sent. Where an insert was refused, the rollback was
/// sent next and last, and no commit was sent at all. Else it was the
/// commit that was refused, after every insert.
pub proof fn lemma_write_failed(
    before: Seq<Exchange>,
    after: Seq<Exchange>,
    timestamp: Seq<char>,
    todos: Seq<FileTodoView>,
)
    requires
        todos.len() <= usize::MAX,
        is_write_of(before, after, timestamp, todos, None),
    ensures
        ({
            let new = after.skip(before.len() as int);
            let n = todos.len() as int;
            let f = first_failure(outcomes_of(new));
            &&& 0 <= f < new.len()
            &&& f <= n + 2
            &&& !(new[f].answer is Done)
            &&& forall|j: int| 0 <= j < f ==> (#[trigger] new[j]).answer is Done
            &&& f == 0 ==> new.len() == 1
            &&& 1 <= f <= n + 1 ==> {
                &&& new.len() == f + 2
                &&& new[f + 1].sql == statement_text(WriteStep::Rollback)
                &&& forall|k: int|
                    0 <= k < new.len() ==> #[trigger] issued(todos.len(), outcomes_of(new), k) != Some(
                        WriteStep::Commit,
                    )
            }
            &&& f == n + 2 ==> {
                &&& new.len() == n + 3
                &&& new[f].sql == statement_text(WriteStep::Commit)
            }
        }),
{
    let new = after.skip(before.len() as int);
    let n = todos.len() as int;
    let len = new.len() as int;
    let outcomes = outcomes_of(new);
    let run = run_through(todos.len(), outcomes);
    let f = first_failure(outcomes);
    lemma_first_failure(outcomes);
    lemma_run_at(todos.len(), outcomes, len);
    assert(outcomes.take(len) =~= outcomes);
    assert(run.failed);
    if f == len {
        if len <= n + 2 {
            assert(!run.failed);
        } else {
            lemma_fewer_succeed(outcomes, n + 3, len);
            assert(!run.failed);
        }
    }
    if f > n + 2 {
        lemma_fewer_succeed(outcomes, n + 3, f);
        assert(!run.failed);
    }
    assert(!outcomes[f].0);
    assert(outcomes[f] == outcome_of(new[f].answer));
    assert forall|j: int| 0 <= j < f implies (#[trigger] new[j]).answer is Done by {
        assert(outcomes[j].0);
    }
    // Nothing is sent once the run is over.
    assert forall|k: int| 0 <= k < len implies issued(todos.len(), outcomes, k) is Some by {
        assert(is_step_sent(
            new[k],
            issued(todos.len(), outcomes, k),
            timestamp,
            todos,
            id_at(todos.len(), outcomes, k),
        ));
    }
    if f == 0 {
        if len > 1 {
            lemma_run_at(todos.len(), outcomes, 1);
            assert(issued(todos.len(), outcomes, 1) is Some);
        }
    }
    if 1 <= f <= n + 1 {
        lemma_write_is_all_or_nothing(todos.len(), outcomes);
        lemma_run_at(todos.len(), outcomes, f + 1);
        if len == f + 1 {
            assert(run.next == Some(WriteStep::Rollback));
        }
        if len > f + 2 {
            assert(issued(todos.len(), outcomes, f + 2) is None);
            assert(issued(todos.len(), outcomes, f + 2) is Some);
        }
        assert(is_step_sent(
            new[f + 1],
            issued(todos.len(), outcomes, f + 1),
            timestamp,
            todos,
            id_at(todos.len(), outcomes, f + 1),
        ));
    }
    if f == n + 2 {
        lemma_run_at(todos.len(), outcomes, f);
        assert(is_step_sent(
            new[f],
            issued(todos.len(), outcomes, f),
            timestamp,
            todos,
            id_at(todos.len(), outcomes, f),
        ));
        if len > n + 3 {
            lemma_run_at(todos.len(), outcomes, n + 3);
            assert(issued(todos.len(), outcomes, n + 3) is Some);
        }
    }
}

/// The id that a write gave: `None` for an error.
pub open spec fn id_of(r: Result<i64, TodoTrackError>) -> Option<i64> {
    match r {
        Ok(id) => Some(id),
        Err(_) => None,
    }
}

/// Sends one statement of the write: the one that [`statement_of`] makes
/// of the step. It gives the row id that came with the answer.
fn perform(
    store: &mut Store,
    step: WriteStep,
    timestamp: &str,
    todos: &[FileTodo],
    snapshot_id: i64,
) -> (r: Result<i64, TodoTrackError>)
    requires
        fits_store(todos@),
        step matches WriteStep::InsertMarker(i) ==> i < todos@.len(),
    ensures
        is_one_more(
            sent(*old(store)),
            sent(*final(store)),
            statement_text(step),
            statement_fields(step, timestamp@, file_todo_views(todos@), snapshot_id),
        ),
        match r {
            Ok(row_id) => sent(*final(store)).last().answer == Answer::Done(row_id),
            Err(e) => sent(*final(store)).last().answer is Refused && is_sqlite_error(e),
        },
{
    let (sql, row) = statement_of(step, timestamp, todos, snapshot_id);
    let r = send(store, sql, &row);
    proof {
        assert(sent(*store).drop_last() =~= sent(*old(store)));
    }
    match r {
        Ok(row_id) => Ok(row_id),
        Err(e) => Err(TodoTrackError::Database(DatabaseError::Sqlite(e))),
    }
}

/// How many statements may still follow where `next` is the next one.
spec fn steps_left(next: Option<WriteStep>, markers: nat) -> nat {
    match next {
        Some(WriteStep::Begin) => markers + 4,
        Some(WriteStep::InsertSnapshot) => markers + 3,
        Some(WriteStep::InsertMarker(i)) => if i < markers {
            (markers - i + 2) as nat
        } else {
            2
        },
        Some(WriteStep::Commit) => 1,
        Some(WriteStep::Rollback) => 1,
        None => 0,
    }
}

/// Whether every statement of `log` is the one that the run issues at its
/// place, where the statements before it fared as their answers say.
pub open spec fn follows_run(
    markers: nat,
    log: Seq<Exchange>,
    timestamp: Seq<char>,
    todos: Seq<FileTodoView>,
) -> bool {
    forall|k: int|
        0 <= k < log.len() ==> is_step_sent(
            #[trigger] log[k],
            run_through(markers, outcomes_of(log.take(k))).next,
            timestamp,
            todos,
            run_through(markers, outcomes_of(log.take(k))).snapshot_id,
        )
}

/// A log that follows the run still does so with the next statement of the
/// run at its end, and the run goes on as [`run_after`] tells.
proof fn lemma_one_more_follows(
    markers: nat,
    log: Seq<Exchange>,
    x: Exchange,
    timestamp: Seq<char>,
    todos: Seq<FileTodoView>,
)
    requires
        follows_run(markers, log, timestamp, todos),
        run_through(markers, outcomes_of(log)).next is Some,
        is_step_sent(
            x,
            run_through(markers, outcomes_of(log)).next,
            timestamp,
            todos,
            run_through(markers, outcomes_of(log)).snapshot_id,
        ),
    ensures
        follows_run(markers, log.push(x), timestamp, todos),
        run_through(markers, outcomes_of(log.push(x))) == run_after(
            run_through(markers, outcomes_of(log)),
            outcome_of(x.answer).0,
            outcome_of(x.answer).1,
            markers,
        ),
{
    let more = log.push(x);
    assert(outcomes_of(more).drop_last() =~= outcomes_of(log));
    assert(outcomes_of(more).last() == outcome_of(x.answer));
    assert forall|k: int| 0 <= k < more.len() implies is_step_sent(
        #[trigger] more[k],
        run_through(markers, outcomes_of(more.take(k))).next,
        timestamp,
        todos,
        run_through(markers, outcomes_of(more.take(k))).snapshot_id,
    ) by {
        if k < log.len() {
            assert(more.take(k) =~= log.take(k));
            assert(more[k] == log[k]);
        } else {
            assert(more.take(k) =~= log);
        }
    }
}

/// A log that follows the run to its end is the write of a snapshot.
proof fn lemma_followed_run_is_write(
    before: Seq<Exchange>,
    log: Seq<Exchange>,
    timestamp: Seq<char>,
    todos: Seq<FileTodoView>,
)
    requires
        follows_run(todos.len(), log, timestamp, todos),
        run_through(todos.len(), outcomes_of(log)).next is None,
    ensures
        is_write_of(
            before,
            before + log,
            timestamp,
            todos,
            if run_through(todos.len(), outcomes_of(log)).failed {
                None
            } else {
                Some(run_through(todos.len(), outcomes_of(log)).snapshot_id)
            },
        ),
{
    let after = before + log;
    let new = after.skip(before.len() as int);
    assert(new =~= log);
    assert(after.take(before.len() as int) =~= before);
    let outcomes = outcomes_of(new);
    assert forall|k: int| 0 <= k < new.len() implies is_step_sent(
        #[trigger] new[k],
        issued(todos.len(), outcomes, k),
        timestamp,
        todos,
        id_at(todos.len(), outcomes, k),
    ) by {
        assert(outcomes.take(k) =~= outcomes_of(log.take(k)));
    }
}

/// Writes one snapshot, taken at `timestamp`, with all its markers, in a
/// single transaction, and gives the id that the store assigned to it.
///
/// What is sent is the write that [`is_write_of`] describes: the
/// transaction is committed only after every row was inserted, and rolled
/// back as soon as an insert fails, so that nothing of the snapshot stays.
/// Every marker row carries the id that the insert of the snapshot was
/// answered with, and that id is returned where no statement failed. Else
/// the error of the first statement that failed is returned; whether the
/// rollback itself succeeds changes nothing.
pub fn save_snapshot_at(store: &mut Store, timestamp: &str, todos: &[FileTodo]) -> (r: Result<
    i64,
    TodoTrackError,
>)
    requires
        fits_store(todos@),
    ensures
        is_write_of(
            sent(*old(store)),
            sent(*final(store)),
            timestamp@,
            file_todo_views(todos@),
            id_of(r),
        ),
        r matches Err(e) ==> is_sqlite_error(e),
{
    let ghost before = sent(*store);
    let ghost views = file_todo_views(todos@);
    let ghost count = todos@.len();
    let ghost mut done: Seq<Exchange> = Seq::empty();
    let mut run = start_write();
    let mut first_error: Option<TodoTrackError> = None;
    proof {
        assert(before + done =~= before);
        assert(outcomes_of(done) =~= Seq::empty());
    }
    loop
        invariant
            fits_store(todos@),
            views == file_todo_views(todos@),
            count == todos@.len(),
            views.len() == count,
            sent(*store) == before + done,
            run == run_through(count, outcomes_of(done)),
            run.next matches Some(WriteStep::InsertMarker(i)) ==> i < count,
            run.failed == (first_error is Some),
            first_error matches Some(e) ==> is_sqlite_error(e),
            follows_run(count, done, timestamp@, views),
        ensures
            run.next is None,
        decreases steps_left(run.next, count),
    {
        let step = match run.next {
            Some(step) => step,
            None => {
                break;
            },
        };
        let outcome = perform(store, step, timestamp, todos, run.snapshot_id);
        proof {
            let x = sent(*store).last();
            lemma_one_more_follows(count, done, x, timestamp@, views);
            assert(sent(*store) =~= before + done.push(x)) by {
                assert(sent(*store) =~= sent(*store).drop_last().push(x));
            }
            done = done.push(x);
        }
        match outcome {
            Ok(row_id) => {
                run = advance(run, true, row_id, todos.len());
            },
            Err(e) => {
                if first_error.is_none() {
                    first_error = Some(e);
                }
                run = advance(run, false, 0, todos.len());
            },
        }
    }
    proof {
        lemma_followed_run_is_write(before, done, timestamp@, views);
    }
    write_result(&run, first_error)
}

/// Writes one snapshot with all its markers, taken now: what is sent is
/// the write of [`save_snapshot_at`] with the present date and time of day
/// in UTC, to the second, as the timestamp.
pub fn save_snapshot(store: &mut Store, todos: &[FileTodo]) -> (r: Result<i64, TodoTrackError>)
    requires
        fits_store(todos@),
    ensures
        exists|timestamp: Seq<char>| #[trigger]
            is_write_of(
                sent(*old(store)),
                sent(*final(store)),
                timestamp,
                file_todo_views(todos@),
                id_of(r),
            ),
        r matches Err(e) ==> is_sqlite_error(e),
{
    let timestamp = now_text("%Y-%m-%d %H:%M:%S");
    let r = save_snapshot_at(store, timestamp.as_str(), todos);
    proof {
        assert(is_write_of(
            sent(*old(store)),
            sent(*store),
            timestamp@,
            file_todo_views(todos@),
            id_of(r),
        ));
    }
    r
}

/// What is bound to the statement that sets the authorship of a marker:
/// the author, the date, and the id of the marker's row, in this order.
pub open spec fn blame_fields(todo_id: i64, git_author: Seq<char>, git_date: Seq<char>) -> Seq<
    FieldView,
> {
    seq![FieldView::Text(git_author), FieldView::Text(git_date), FieldView::Integer(todo_id)]
}

/// What is bound to the statement that sets the authorship of a marker.
pub fn blame_row(todo_id: i64, git_author: &str, git_date: &str) -> (row: Vec<Field>)
    ensures
        row_view(row@) == blame_fields(todo_id, git_author@, git_date@),
        forall|i: int| 0 <= i < row@.len() ==> is_writable(#[trigger] row@[i]),
{
    let mut row: Vec<Field> = Vec::new();
    row.push(Field::Text(git_author.to_owned()));
    row.push(Field::Text(git_date.to_owned()));
    row.push(Field::Integer(todo_id));
    proof {
        assert(row_view(row@) =~= blame_fields(todo_id, git_author@, git_date@));
    }
    row
}

/// Sets the authorship of the marker with id `todo_id`: one statement is
/// sent, which sets `git_author` and `git_date` of the row with that id to
/// the values of [`blame_row`]. It succeeds where the store accepts the
/// statement.
pub fn update_git_blame(store: &mut Store, todo_id: i64, git_author: &str, git_date: &str) -> (r:
    Result<(), TodoTrackError>)
    ensures
        is_one_more(
            sent(*old(store)),
            sent(*final(store)),
            blame_update_text(),
            blame_fields(todo_id, git_author@, git_date@),
        ),
        match r {
            Ok(()) => sent(*final(store)).last().answer is Done,
            Err(e) => sent(*final(store)).last().answer is Refused && is_sqlite_error(e),
        },
{
    let row = blame_row(todo_id, git_author, git_date);
    let r = send(store, "UPDATE todos SET git_author = ?1, git_date = ?2 WHERE id = ?3", &row);
    proof {
        assert(sent(*store).drop_last() =~= sent(*old(store)));
    }
    match r {
        Ok(_) => Ok(()),
        Err(e) => Err(TodoTrackError::Database(DatabaseError::Sqlite(e))),
    }
}

/// Sends a query with the integers `params` bound to it, and gives the
/// rows of the answer.
fn ask_rows(store: &mut Store, sql: &str, params: &Vec<i64>) -> (r: Result<
    Vec<Vec<Field>>,
    TodoTrackError,
>)
    ensures
        is_one_more(sent(*old(store)), sent(*final(store)), sql@, integer_fields(params@)),
        match r {
            Ok(rows) => sent(*final(store)).last().answer == Answer::Rows(rows_view(rows@)),
            Err(e) => sent(*final(store)).last().answer is Refused && is_sqlite_error(e),
        },
{
    let r = ask(store, sql, params);
    proof {
        assert(sent(*store).drop_last() =~= sent(*old(store)));
    }
    match r {
        Ok(rows) => Ok(rows),
        Err(e) => Err(TodoTrackError::Database(DatabaseError::Sqlite(e))),
    }
}

/// Whether `r` is what is made of the answer to the query for snapshots:
/// the snapshots of the rows, oldest first; an error of SQLite where the
/// store refused; an error of the row where a row stands for no snapshot.
pub open spec fn is_snapshots_of(answer: Answer, r: Result<Vec<Snapshot>, TodoTrackError>) -> bool {
    match answer {
        Answer::Rows(rows) => match decoded_snapshots(rows) {
            Some(all) => r matches Ok(v) && snapshot_views(v@) == sorted_by(all, by_id()),
            None => r matches Err(e) && is_row_error(e),
        },
        _ => r matches Err(e) && is_sqlite_error(e),
    }
}

/// Whether `r` is what is made of the answer to the query for the latest
/// snapshot: of the snapshots of the rows the one with the highest id.
pub open spec fn is_latest_of(answer: Answer, r: Result<Option<Snapshot>, TodoTrackError>) -> bool {
    match answer {
        Answer::Rows(rows) => match decoded_snapshots(rows) {
            Some(all) => r matches Ok(latest) && snapshot_view(latest) == newest(
                sorted_by(all, by_id()),
            ),
            None => r matches Err(e) && is_row_error(e),
        },
        _ => r matches Err(e) && is_sqlite_error(e),
    }
}

/// Whether `r` is what is made of the answer to the query for the markers
/// of snapshot `snapshot_id`: the markers of the rows that belong to the
/// snapshot, by file and line.
pub open spec fn is_todos_of(
    answer: Answer,
    snapshot_id: i64,
    r: Result<Vec<StoredTodo>, TodoTrackError>,
) -> bool {
    match answer {
        Answer::Rows(rows) => match decoded_todos(rows) {
            Some(all) => r matches Ok(v) && stored_views(v@) == sorted_by(
                of_snapshot(all, snapshot_id),
                by_location(),
            ),
            None => r matches Err(e) && is_row_error(e),
        },
        _ => r matches Err(e) && is_sqlite_error(e),
    }
}

/// The count of a snapshot that may be absent.
pub open spec fn count_in(latest: Option<SnapshotView>) -> Option<i64> {
    match latest {
        Some(s) => Some(s.todo_count),
        None => None,
    }
}

/// Whether `r` is what is made of the answer to the query for the latest
/// snapshot, where only its count is asked for.
pub open spec fn is_latest_count_of(answer: Answer, r: Result<Option<i64>, TodoTrackError>) -> bool {
    match answer {
        Answer::Rows(rows) => match decoded_snapshots(rows) {
            Some(all) => r matches Ok(count) && count == count_in(newest(sorted_by(all, by_id()))),
            None => r matches Err(e) && is_row_error(e),
        },
        _ => r matches Err(e) && is_sqlite_error(e),
    }
}

/// Every snapshot of the store, oldest first: one query is sent, and the
/// result is what [`snapshots_from_rows`] makes of its answer.
pub fn get_snapshots(store: &mut Store) -> (r: Result<Vec<Snapshot>, TodoTrackError>)
    ensures
        is_one_more(sent(*old(store)), sent(*final(store)), snapshots_query_text(), Seq::empty()),
        is_snapshots_of(sent(*final(store)).last().answer, r),
        r matches Ok(v) ==> crate::order::ordered(snapshot_views(v@), by_id()),
{
    let none: Vec<i64> = Vec::new();
    proof {
        assert(integer_fields(none@) =~= Seq::empty());
    }
    let rows = match ask_rows(
        store,
        "SELECT id, timestamp, todo_count FROM snapshots ORDER BY id ASC",
        &none,
    ) {
        Ok(rows) => rows,
        Err(e) => {
            return Err(e);
        },
    };
    let r = snapshots_from_rows(&rows);
    proof {
        if r is Ok {
            let all = decoded_snapshots(rows_view(rows@)).unwrap();
            crate::order::lemma_sorted_by(all, by_id());
        }
    }
    r
}

/// The snapshot with the highest id: `None` where the store holds none.
/// One query is sent, and the result is what [`snapshots_from_rows`] and
/// [`latest_of`] make of its answer.
pub fn get_latest_snapshot(store: &mut Store) -> (r: Result<Option<Snapshot>, TodoTrackError>)
    ensures
        is_one_more(sent(*old(store)), sent(*final(store)), latest_query_text(), Seq::empty()),
        is_latest_of(sent(*final(store)).last().answer, r),
{
    let none: Vec<i64> = Vec::new();
    proof {
        assert(integer_fields(none@) =~= Seq::empty());
    }
    let rows = match ask_rows(
        store,
        "SELECT id, timestamp, todo_count FROM snapshots ORDER BY id DESC LIMIT 1",
        &none,
    ) {
        Ok(rows) => rows,
        Err(e) => {
            return Err(e);
        },
    };
    match snapshots_from_rows(&rows) {
        Ok(found) => Ok(latest_of(found)),
        Err(e) => Err(e),
    }
}

/// The markers of snapshot `snapshot_id`, by file path and then by line
/// number: one query is sent, with the id bound to it, and the result is
/// what [`todos_from_rows`] makes of its answer.
pub fn get_todos_for_snapshot(store: &mut Store, snapshot_id: i64) -> (r: Result<
    Vec<StoredTodo>,
    TodoTrackError,
>)
    ensures
        is_one_more(
            sent(*old(store)),
            sent(*final(store)),
            todos_query_text(),
            seq![FieldView::Integer(snapshot_id)],
        ),
        is_todos_of(sent(*final(store)).last().answer, snapshot_id, r),
        r matches Ok(v) ==> {
            &&& crate::order::ordered(stored_views(v@), by_location())
            &&& forall|i: int| 0 <= i < v@.len() ==> (#[trigger] v@[i]).snapshot_id == snapshot_id
        },
{
    let mut params: Vec<i64> = Vec::new();
    params.push(snapshot_id);
    proof {
        assert(integer_fields(params@) =~= seq![FieldView::Integer(snapshot_id)]);
    }
    let rows = match ask_rows(
        store,
        "SELECT id, snapshot_id, file_path, line_number, keyword, author, issue_ref, description, git_author, git_date FROM todos WHERE snapshot_id = ?1 ORDER BY file_path, line_number",
        &params,
    ) {
        Ok(rows) => rows,
        Err(e) => {
            return Err(e);
        },
    };
    let r = todos_from_rows(&rows, snapshot_id);
    proof {
        if r is Ok {
            let v = r->Ok_0;
            let all = decoded_todos(rows_view(rows@)).unwrap();
            let kept = of_snapshot(all, snapshot_id);
            lemma_by_location_is_total_preorder();
            crate::order::lemma_sorted_by(kept, by_location());
            lemma_of_snapshot(all, snapshot_id);
            assert forall|i: int| 0 <= i < v@.len() implies (#[trigger] v@[i]).snapshot_id
                == snapshot_id by {
                let sorted = sorted_by(kept, by_location());
                assert(sorted[i] == v@[i]@);
                assert(sorted.to_multiset().count(sorted[i]) > 0) by {
                    broadcast use vstd::seq_lib::group_to_multiset_ensures;
                    assert(sorted.contains(sorted[i]));
                }
                assert(kept.contains(sorted[i])) by {
                    broadcast use vstd::seq_lib::group_to_multiset_ensures;
                }
            }
        }
    }
    r
}

/// Every marker that `of_snapshot` keeps belongs to the snapshot.
pub proof fn lemma_of_snapshot(todos: Seq<StoredTodoView>, id: i64)
    ensures
        forall|t: StoredTodoView| #[trigger] of_snapshot(todos, id).contains(t) ==> t.snapshot_id == id
            && todos.contains(t),
    decreases todos.len(),
{
    if todos.len() > 0 {
        let front = todos.drop_last();
        lemma_of_snapshot(front, id);
        assert forall|t: StoredTodoView| #[trigger] of_snapshot(todos, id).contains(t) implies t.snapshot_id
            == id && todos.contains(t) by {
            let kept = of_snapshot(todos, id);
            let k = choose|k: int| 0 <= k < kept.len() && kept[k] == t;
            if todos.last().snapshot_id == id && k == kept.len() - 1 {
                assert(todos[todos.len() - 1] == t);
            } else {
                assert(of_snapshot(front, id)[k] == t);
                assert(of_snapshot(front, id).contains(t));
                let m = choose|m: int| 0 <= m < front.len() && front[m] == t;
                assert(todos[m] == t);
            }
        }
    }
}

/// The order of a listing ranks any two markers, and ranks them
/// consistently.
pub proof fn lemma_by_location_is_total_preorder()
    ensures
        crate::order::is_total_preorder(by_location()),
{
    assert forall|a: StoredTodoView, b: StoredTodoView| #[trigger]
        by_location()(a, b) || #[trigger] by_location()(b, a) by {
        crate::text::lemma_text_le_total(a.file_path, b.file_path);
    }
    assert forall|a: StoredTodoView, b: StoredTodoView, c: StoredTodoView| #[trigger]
        by_location()(a, b) && #[trigger] by_location()(b, c) implies by_location()(a, c) by {
        crate::text::lemma_text_le_total(a.file_path, b.file_path);
        crate::text::lemma_text_le_total(b.file_path, c.file_path);
        crate::text::lemma_text_le_total(a.file_path, c.file_path);
        if a.file_path != b.file_path && b.file_path != c.file_path {
            crate::text::lemma_text_le_transitive(a.file_path, b.file_path, c.file_path);
            if a.file_path == c.file_path {
                crate::text::lemma_text_le_total(b.file_path, a.file_path);
            }
        }
    }
}

/// The marker count of the snapshot with the highest id: `None` where the
/// store holds no snapshot. One query is sent, and the result is the count
/// of what [`get_latest_snapshot`] makes of its answer.
pub fn get_latest_todo_count(store: &mut Store) -> (r: Result<Option<i64>, TodoTrackError>)
    ensures
        is_one_more(sent(*old(store)), sent(*final(store)), latest_query_text(), Seq::empty()),
        is_latest_count_of(sent(*final(store)).last().answer, r),
{
    match get_latest_snapshot(store) {
        Ok(latest) => Ok(count_of(&latest)),
        Err(e) => Err(e),
    }
}

} // verus!
