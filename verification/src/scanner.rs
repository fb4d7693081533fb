//! The tree walker's decisions: which directories are pruned, which files are
//! read, and what a scan adds up to. Walking the file system is left to the
//! caller, who reports each entry it meets as a [`WalkEntry`].

use crate::parser::{item_views, parse_content, parsed_content, Patterns, TodoItem, TodoItemView};
use crate::text::{chars_of, spells_text};
use vstd::prelude::*;

verus! {

/// Largest size, in bytes, of a file that is read: 1 MiB.
pub const MAX_FILE_SIZE: u64 = 1_048_576;

/// Whether a directory of this name is never entered: version-control
/// metadata, dependencies, build output, virtual environments, caches, and
/// the directory that holds the snapshot store.
pub open spec fn is_skipped_dir(name: Seq<char>) -> bool {
    ||| name == ".git"@
    ||| name == ".hg"@
    ||| name == ".svn"@
    ||| name == "node_modules"@
    ||| name == "target"@
    ||| name == "vendor"@
    ||| name == ".todo-track"@
    ||| name == "__pycache__"@
    ||| name == ".venv"@
    ||| name == "venv"@
    ||| name == "dist"@
    ||| name == "build"@
}

/// Whether a directory named `dir_name` is pruned from the walk.
pub fn should_skip_dir(dir_name: &str) -> (b: bool)
    ensures
        b == is_skipped_dir(dir_name@),
{
    let name = chars_of(dir_name);
    spells_text(&name, ".git") || spells_text(&name, ".hg") || spells_text(&name, ".svn")
        || spells_text(&name, "node_modules") || spells_text(&name, "target") || spells_text(
        &name,
        "vendor",
    ) || spells_text(&name, ".todo-track") || spells_text(&name, "__pycache__") || spells_text(
        &name,
        ".venv",
    ) || spells_text(&name, "venv") || spells_text(&name, "dist") || spells_text(&name, "build")
}

/// Whether the walk keeps an entry: all but directories with a skipped name.
/// `name` is `None` where the name is no valid text; such an entry is kept.
pub fn keeps_entry(is_dir: bool, name: Option<&str>) -> (keep: bool)
    ensures
        keep == !(is_dir && (name matches Some(n) && is_skipped_dir(n@))),
{
    if !is_dir {
        return true;
    }
    match name {
        Some(n) => !should_skip_dir(n),
        None => true,
    }
}

/// Whether a file of `size` bytes is small enough to be read.
pub fn within_size_limit(size: u64) -> (ok: bool)
    ensures
        ok == (size <= MAX_FILE_SIZE),
{
    size <= MAX_FILE_SIZE
}

/// A marker together with the file it was found in.
#[derive(Debug, Clone)]
pub struct FileTodo {
    /// The file's path, relative to the root of the scan.
    pub file_path: String,
    pub item: TodoItem,
}

/// A [`FileTodo`] as plain values.
pub struct FileTodoView {
    pub file_path: Seq<char>,
    pub item: TodoItemView,
}

impl View for FileTodo {
    type V = FileTodoView;

    open spec fn view(&self) -> FileTodoView {
        FileTodoView { file_path: self.file_path@, item: self.item@ }
    }
}

/// The views of `todos`, in order.
pub open spec fn file_todo_views(todos: Seq<FileTodo>) -> Seq<FileTodoView> {
    todos.map_values(|t: FileTodo| t@)
}

/// What the walker met at one place of the tree.
#[derive(Debug)]
pub enum WalkEntry {
    /// An entry that the walk could not read.
    Failed,
    /// A directory, a link, or anything else that is no regular file.
    NotAFile,
    /// A regular file. `size` is `None` where its metadata could not be had;
    /// `content` is `None` where it was not read, or is no valid text.
    File { path: String, size: Option<u64>, content: Option<String> },
}

/// What a scan has found so far.
#[derive(Debug)]
pub struct ScanResult {
    /// The markers found, file by file, those of one file in line order.
    pub todos: Vec<FileTodo>,
    /// How many files were read and parsed.
    pub files_scanned: usize,
    /// How many files were left out: unreadable, too large, or no text.
    pub files_skipped: usize,
}

/// A [`ScanResult`] as plain values.
pub struct ScanResultView {
    pub todos: Seq<FileTodoView>,
    pub files_scanned: nat,
    pub files_skipped: nat,
}

impl View for ScanResult {
    type V = ScanResultView;

    open spec fn view(&self) -> ScanResultView {
        ScanResultView {
            todos: file_todo_views(self.todos@),
            files_scanned: self.files_scanned as nat,
            files_skipped: self.files_skipped as nat,
        }
    }
}

/// Whether `entry` is a file that is scanned: its size is known and within
/// the limit, and its content is text.
pub open spec fn is_scanned(entry: WalkEntry) -> bool {
    entry matches WalkEntry::File { size: Some(n), content: Some(_), .. } && n <= MAX_FILE_SIZE
}

/// Whether `entry` counts as skipped: a failed entry, or a file that is not
/// scanned.
pub open spec fn is_skipped(entry: WalkEntry) -> bool {
    entry is Failed || (entry is File && !is_scanned(entry))
}

/// The markers of a file, each with the file's path.
pub open spec fn markers_of(path: Seq<char>, content: Seq<char>) -> Seq<FileTodoView> {
    parsed_content(content).map_values(|item: TodoItemView| FileTodoView { file_path: path, item })
}

/// The markers that `entry` adds to a scan.
pub open spec fn found_in(entry: WalkEntry) -> Seq<FileTodoView> {
    match entry {
        WalkEntry::File { path, size, content: Some(text) } if is_scanned(entry) => markers_of(
            path@,
            text@,
        ),
        _ => Seq::empty(),
    }
}

/// The state of a scan after `entry`.
pub open spec fn after_entry(state: ScanResultView, entry: WalkEntry) -> ScanResultView {
    ScanResultView {
        todos: state.todos + found_in(entry),
        files_scanned: if is_scanned(entry) {
            state.files_scanned + 1
        } else {
            state.files_scanned
        },
        files_skipped: if is_skipped(entry) {
            state.files_skipped + 1
        } else {
            state.files_skipped
        },
    }
}

/// The state of a scan after all of `entries`, in order.
pub open spec fn after_entries(state: ScanResultView, entries: Seq<WalkEntry>) -> ScanResultView
    decreases entries.len(),
{
    if entries.len() == 0 {
        state
    } else {
        after_entry(after_entries(state, entries.drop_last()), entries.last())
    }
}

/// The state before the first entry.
pub open spec fn empty_scan() -> ScanResultView {
    ScanResultView { todos: Seq::empty(), files_scanned: 0, files_skipped: 0 }
}

impl ScanResult {
    /// A scan that has met nothing yet.
    pub fn new() -> (r: ScanResult)
        ensures
            r@ == empty_scan(),
    {
        let r = ScanResult { todos: Vec::new(), files_scanned: 0, files_skipped: 0 };
        proof {
            assert(r@.todos =~= Seq::empty());
        }
        r
    }

    /// Takes one entry of the walk into account. A file within the size
    /// limit whose content is text is parsed and counted as scanned; any
    /// other file, and a failed entry, is counted as skipped; what is no
    /// file changes nothing.
    pub fn record(&mut self, patterns: &Patterns, entry: &WalkEntry)
        requires
            old(self).files_scanned < usize::MAX,
            old(self).files_skipped < usize::MAX,
        ensures
            final(self)@ == after_entry(old(self)@, *entry),
    {
        match entry {
            WalkEntry::Failed => {
                self.files_skipped = self.files_skipped + 1;
                proof {
                    assert(self@.todos =~= old(self)@.todos + found_in(*entry));
                }
            },
            WalkEntry::NotAFile => {
                proof {
                    assert(self@.todos =~= old(self)@.todos + found_in(*entry));
                }
            },
            WalkEntry::File { path, size, content } => {
                let readable = match size {
                    Some(n) => within_size_limit(*n),
                    None => false,
                };
                match content {
                    Some(text) if readable => {
                        self.files_scanned = self.files_scanned + 1;
                        let items = parse_content(patterns, text.as_str());
                        add_markers(&mut self.todos, path.as_str(), items);
                    },
                    _ => {
                        self.files_skipped = self.files_skipped + 1;
                        proof {
                            assert(self@.todos =~= old(self)@.todos + found_in(*entry));
                        }
                    },
                }
            },
        }
    }
}

/// Appends `items` to `todos`, each with the path of its file.
fn add_markers(todos: &mut Vec<FileTodo>, path: &str, items: Vec<TodoItem>)
    ensures
        file_todo_views(final(todos)@) == file_todo_views(old(todos)@) + item_views(
            items@,
        ).map_values(|item: TodoItemView| FileTodoView { file_path: path@, item }),
{
    let ghost start = file_todo_views(todos@);
    let ghost tagged = item_views(items@).map_values(
        |item: TodoItemView| FileTodoView { file_path: path@, item },
    );
    for item in it: items
        invariant
            it.seq() == items@,
            tagged == item_views(items@).map_values(
                |item: TodoItemView| FileTodoView { file_path: path@, item },
            ),
            file_todo_views(todos@) == start + tagged.take(it.index() as int),
    {
        let ghost before = file_todo_views(todos@);
        let found = FileTodo { file_path: path.to_owned(), item };
        todos.push(found);
        proof {
            assert(file_todo_views(todos@) =~= before.push(found@));
            assert(found.item == items@[it.index() as int]);
            assert(it.index() < items@.len());
            assert(item_views(items@)[it.index() as int] == found.item@);
            assert(tagged[it.index() as int] == found@);
            assert(tagged.take(it.index() + 1) =~= tagged.take(it.index() as int).push(found@));
        }
    }
    proof {
        assert(tagged.take(tagged.len() as int) =~= tagged);
    }
}

/// Scans a whole walk: the result of recording every entry in order.
pub fn scan_entries(patterns: &Patterns, entries: &[WalkEntry]) -> (r: ScanResult)
    ensures
        r@ == after_entries(empty_scan(), entries@),
{
    let mut result = ScanResult::new();
    let mut i: usize = 0;
    while i < entries.len()
        invariant
            i <= entries.len(),
            result.files_scanned <= i,
            result.files_skipped <= i,
            result@ == after_entries(empty_scan(), entries@.take(i as int)),
        decreases entries.len() - i,
    {
        proof {
            assert(entries@.take(i + 1).drop_last() =~= entries@.take(i as int));
        }
        result.record(patterns, &entries[i]);
        i += 1;
    }
    proof {
        assert(entries@.take(entries.len() as int) =~= entries@);
    }
    result
}

} // verus!
