//! What a scan sums up to.

use crate::commands::list::{group_places, lemma_one_group_per_file, path_texts};
use crate::commands::trend::{level_of, CountLevel};
use crate::scanner::{file_todo_views, FileTodoView, ScanResult};
use vstd::prelude::*;

verus! {

/// The figures of a scan.
#[derive(Debug, Clone, Copy, PartialEq, Eq)]
pub struct ScanSummary {
    /// How many markers were found.
    pub todo_count: usize,
    /// In how many files they were found.
    pub file_count: usize,
    /// How the number of markers is to be looked at.
    pub level: CountLevel,
}

/// The file paths of `todos`, in order.
pub open spec fn found_paths(todos: Seq<FileTodoView>) -> Seq<Seq<char>> {
    todos.map_values(|t: FileTodoView| t.file_path)
}

/// Sums up a scan: the number of markers, and the number of different files
/// that hold one.
pub fn summarize(result: &ScanResult) -> (summary: ScanSummary)
    ensures
        summary.todo_count == result@.todos.len(),
        summary.file_count == found_paths(result@.todos).to_set().len(),
        summary.level == level_of(result@.todos.len() as int),
{
    let todos = &result.todos;
    let mut paths: Vec<&String> = Vec::new();
    let mut i: usize = 0;
    while i < todos.len()
        invariant
            i <= todos.len(),
            path_texts(paths@) == found_paths(file_todo_views(todos@)).take(i as int),
        decreases todos.len() - i,
    {
        let ghost before = path_texts(paths@);
        paths.push(&todos[i].file_path);
        proof {
            let all = found_paths(file_todo_views(todos@));
            assert(path_texts(paths@) =~= before.push(todos@[i as int].file_path@));
            assert(all.take(i + 1) =~= all.take(i as int).push(all[i as int]));
        }
        i += 1;
    }
    proof {
        let all = found_paths(file_todo_views(todos@));
        assert(all.take(todos.len() as int) =~= all);
        lemma_one_group_per_file(all);
    }
    let groups = group_places(&paths);
    let level = if todos.len() == 0 {
        CountLevel::Clean
    } else if todos.len() <= 10 {
        CountLevel::Few
    } else {
        CountLevel::Many
    };
    ScanSummary { todo_count: todos.len(), file_count: groups.len(), level }
}

} // verus!
