//! Listing the markers of the latest snapshot: grouping them by file so that
//! git is asked once for each file, taking over what git says, and picking
//! the oldest.

use crate::error::{is_sqlite_error, TodoTrackError};
use crate::git::{
    blame_file_lines, blame_views, blamed_lines, run_output, BlameInfo, BlameInfoView, GitRun,
};
use crate::order::{lemma_sorted_by_map, sort_by, sorted_by};
use crate::storage::{
    blame_fields, blame_update_text, sent, stored_views, update_git_blame, Exchange, Store,
    StoredTodo, StoredTodoView,
};
use crate::text::{text_before_or_same, text_le};
use std::collections::HashMap;
use vstd::prelude::*;

verus! {

/// The markers of one file, by their places in the listing.
#[derive(Debug)]
pub struct FileGroup {
    pub file_path: String,
    /// The places, in rising order.
    pub indices: Vec<usize>,
}

/// A [`FileGroup`] as plain values.
pub struct FileGroupView {
    pub file_path: Seq<char>,
    pub indices: Seq<usize>,
}

impl View for FileGroup {
    type V = FileGroupView;

    open spec fn view(&self) -> FileGroupView {
        FileGroupView { file_path: self.file_path@, indices: self.indices@ }
    }
}

/// The views of `groups`, in order.
pub open spec fn group_views(groups: Seq<FileGroup>) -> Seq<FileGroupView> {
    groups.map_values(|g: FileGroup| g@)
}

/// The place of the group of `path` among `groups`: `None` where no group
/// is of that file.
pub open spec fn group_of(groups: Seq<FileGroupView>, path: Seq<char>) -> Option<int>
    decreases groups.len(),
{
    if groups.len() == 0 {
        None
    } else if groups.last().file_path == path {
        Some(groups.len() - 1)
    } else {
        group_of(groups.drop_last(), path)
    }
}

/// `groups` with place `i` added to the group of `path`, which is made at the
/// end where there is none yet.
pub open spec fn with_place(groups: Seq<FileGroupView>, path: Seq<char>, i: usize) -> Seq<
    FileGroupView,
> {
    match group_of(groups, path) {
        Some(k) => groups.update(
            k,
            FileGroupView { file_path: path, indices: groups[k].indices.push(i) },
        ),
        None => groups.push(FileGroupView { file_path: path, indices: seq![i] }),
    }
}

/// The places `0..paths.len()` grouped by the path at each place. The groups
/// stand in the order in which their files first occur.
pub open spec fn grouped(paths: Seq<Seq<char>>) -> Seq<FileGroupView>
    decreases paths.len(),
{
    if paths.len() == 0 {
        Seq::empty()
    } else {
        with_place(grouped(paths.drop_last()), paths.last(), (paths.len() - 1) as usize)
    }
}

/// The file paths of `todos`, in order.
pub open spec fn paths_of(todos: Seq<StoredTodoView>) -> Seq<Seq<char>> {
    todos.map_values(|t: StoredTodoView| t.file_path)
}

/// The file paths of `groups`, in order.
pub open spec fn group_paths(groups: Seq<FileGroupView>) -> Seq<Seq<char>> {
    groups.map_values(|g: FileGroupView| g.file_path)
}

/// `group_of` finds a group of the file, and finds none only where there is
/// none.
pub proof fn lemma_group_of(groups: Seq<FileGroupView>, path: Seq<char>)
    ensures
        match group_of(groups, path) {
            Some(k) => 0 <= k < groups.len() && groups[k].file_path == path,
            None => !group_paths(groups).contains(path),
        },
    decreases groups.len(),
{
    if groups.len() > 0 && groups.last().file_path != path {
        lemma_group_of(groups.drop_last(), path);
        if group_of(groups, path) is None {
            let all = group_paths(groups);
            let front = group_paths(groups.drop_last());
            if all.contains(path) {
                let k = choose|k: int| 0 <= k < all.len() && all[k] == path;
                assert(front[k] == path);
            }
        }
    }
}

/// One group for each file: the groups are of different files, every file of
/// the listing has its group, and so there are as many groups as files.
/// Asking git once for each group asks it once for each file, however many
/// markers a file holds.
pub proof fn lemma_one_group_per_file(paths: Seq<Seq<char>>)
    ensures
        group_paths(grouped(paths)).no_duplicates(),
        group_paths(grouped(paths)).to_set() == paths.to_set(),
        grouped(paths).len() == paths.to_set().len(),
    decreases paths.len(),
{
    let groups = grouped(paths);
    let names = group_paths(groups);
    if paths.len() == 0 {
        assert(names.to_set() =~= paths.to_set());
        names.unique_seq_to_set();
    } else {
        let front = paths.drop_last();
        let before = grouped(front);
        let old_names = group_paths(before);
        let path = paths.last();
        lemma_one_group_per_file(front);
        lemma_group_of(before, path);
        assert(paths =~= front.push(path));
        assert(paths.to_set() =~= front.to_set().insert(path)) by {
            assert forall|p: Seq<char>| paths.to_set().contains(p) <==> front.to_set().insert(
                path,
            ).contains(p) by {
                if paths.contains(p) {
                    let k = choose|k: int| 0 <= k < paths.len() && paths[k] == p;
                    if k < front.len() {
                        assert(front[k] == p);
                    }
                }
                if front.contains(p) {
                    let k = choose|k: int| 0 <= k < front.len() && front[k] == p;
                    assert(paths[k] == p);
                }
                assert(paths[paths.len() - 1] == path);
            }
        }
        match group_of(before, path) {
            Some(k) => {
                assert(names =~= old_names);
                assert(old_names[k] == path);
                assert(old_names.to_set().contains(path));
                assert(front.to_set().insert(path) =~= front.to_set());
            },
            None => {
                assert(names =~= old_names.push(path));
                assert(names.no_duplicates()) by {
                    assert forall|a: int, b: int|
                        0 <= a < names.len() && 0 <= b < names.len() && a != b implies names[a]
                        != names[b] by {
                        if a < old_names.len() {
                            assert(old_names[a] == names[a]);
                            assert(old_names.contains(names[a]));
                        }
                        if b < old_names.len() {
                            assert(old_names[b] == names[b]);
                            assert(old_names.contains(names[b]));
                        }
                    }
                }
                assert(names.to_set() =~= old_names.to_set().insert(path)) by {
                    assert forall|p: Seq<char>| names.to_set().contains(p)
                        <==> old_names.to_set().insert(path).contains(p) by {
                        if names.contains(p) {
                            let k = choose|k: int| 0 <= k < names.len() && names[k] == p;
                            if k < old_names.len() {
                                assert(old_names[k] == p);
                            }
                        }
                        if old_names.contains(p) {
                            let k = choose|k: int| 0 <= k < old_names.len() && old_names[k] == p;
                            assert(names[k] == p);
                        }
                        assert(names[names.len() - 1] == path);
                    }
                }
            },
        }
        names.unique_seq_to_set();
    }
}

/// Whether place `i` stands in one of `groups`.
pub open spec fn has_place(groups: Seq<FileGroupView>, i: usize) -> bool {
    exists|k: int| 0 <= k < groups.len() && #[trigger] groups[k].indices.contains(i)
}

/// Every place of the listing stands in the group of its file, and in no
/// other; a group holds only places of its file, in rising order.
pub proof fn lemma_grouped_places(paths: Seq<Seq<char>>)
    requires
        paths.len() <= usize::MAX,
    ensures
        forall|k: int, m: int|
            0 <= k < grouped(paths).len() && 0 <= m < grouped(paths)[k].indices.len() ==> {
                let i = #[trigger] grouped(paths)[k].indices[m];
                i < paths.len() && paths[i as int] == grouped(paths)[k].file_path
            },
        forall|k: int, m: int, n: int|
            0 <= k < grouped(paths).len() && 0 <= m < n < grouped(paths)[k].indices.len()
                ==> #[trigger] grouped(paths)[k].indices[m] < #[trigger] grouped(
                paths,
            )[k].indices[n],
        forall|k: int| 0 <= k < grouped(paths).len() ==> (#[trigger] grouped(paths)[k]).indices.len() > 0,
        forall|i: usize| i < paths.len() ==> #[trigger] has_place(grouped(paths), i),
    decreases paths.len(),
{
    if paths.len() > 0 {
        let front = paths.drop_last();
        let before = grouped(front);
        let after = grouped(paths);
        let path = paths.last();
        let last = (paths.len() - 1) as usize;
        lemma_grouped_places(front);
        lemma_group_of(before, path);
        assert forall|k: int, m: int|
            0 <= k < after.len() && 0 <= m < after[k].indices.len() implies {
            let i = #[trigger] after[k].indices[m];
            i < paths.len() && paths[i as int] == after[k].file_path
        } by {
            if k < before.len() {
                assert(after[k].file_path == before[k].file_path);
                if m < before[k].indices.len() {
                    let i = before[k].indices[m];
                    assert(after[k].indices[m] == i);
                    assert(front[i as int] == paths[i as int]);
                } else {
                    assert(after[k].indices[m] == last);
                }
            } else {
                assert(after[k].indices[m] == last);
            }
        }
        assert forall|k: int, m: int, n: int|
            0 <= k < after.len() && 0 <= m < n < after[k].indices.len() implies #[trigger] after[k].indices[m]
            < #[trigger] after[k].indices[n] by {
            if k < before.len() {
                assert(after[k].indices[m] == before[k].indices[m]);
                if n < before[k].indices.len() {
                    assert(after[k].indices[n] == before[k].indices[n]);
                    assert(before[k].indices[m] < before[k].indices[n]);
                } else {
                    assert(after[k].indices[n] == last);
                    assert(before[k].indices[m] < front.len());
                }
            }
        }
        assert forall|k: int| 0 <= k < after.len() implies (#[trigger] after[k]).indices.len()
            > 0 by {
            if k < before.len() {
                assert(before[k].indices.len() > 0);
            }
        }
        assert forall|i: usize| i < paths.len() implies #[trigger] has_place(after, i) by {
            if i < front.len() {
                assert(has_place(before, i));
                let k = choose|k: int|
                    0 <= k < before.len() && #[trigger] before[k].indices.contains(i);
                let m = choose|m: int| 0 <= m < before[k].indices.len() && before[k].indices[m] == i;
                assert(after[k].indices[m] == i);
                assert(after[k].indices.contains(i));
            } else {
                match group_of(before, path) {
                    Some(k) => {
                        assert(after[k].indices[after[k].indices.len() - 1] == last);
                        assert(after[k].indices.contains(i));
                    },
                    None => {
                        let k = after.len() - 1;
                        assert(after[k].indices[0] == last);
                        assert(after[k].indices.contains(i));
                    },
                }
            }
        }
    }
}

/// The place of the group of `path` among `groups`.
fn find_group(groups: &Vec<FileGroup>, path: &String) -> (r: Option<usize>)
    ensures
        match r {
            Some(k) => group_of(group_views(groups@), path@) == Some(k as int) && k < groups.len(),
            None => group_of(group_views(groups@), path@) is None,
        },
{
    let ghost views = group_views(groups@);
    let mut k: usize = groups.len();
    proof {
        assert(views.take(k as int) =~= views);
    }
    while k > 0
        invariant
            k <= groups.len(),
            views == group_views(groups@),
            group_of(views, path@) == group_of(views.take(k as int), path@),
        decreases k,
    {
        proof {
            let part = views.take(k as int);
            assert(part.last() == groups@[k - 1]@);
            assert(part.drop_last() =~= views.take(k - 1));
        }
        if groups[k - 1].file_path == *path {
            return Some(k - 1);
        }
        k -= 1;
    }
    None
}

/// The texts of `paths`, in order.
pub open spec fn path_texts(paths: Seq<&String>) -> Seq<Seq<char>> {
    paths.map_values(|p: &String| p@)
}

/// Groups the places `0..paths.len()` by the path at each place.
pub fn group_places(paths: &Vec<&String>) -> (groups: Vec<FileGroup>)
    ensures
        group_views(groups@) == grouped(path_texts(paths@)),
{
    let mut groups: Vec<FileGroup> = Vec::new();
    let ghost texts = path_texts(paths@);
    let mut i: usize = 0;
    proof {
        assert(group_views(groups@) =~= grouped(texts.take(0)));
    }
    while i < paths.len()
        invariant
            i <= paths.len(),
            texts == path_texts(paths@),
            group_views(groups@) == grouped(texts.take(i as int)),
        decreases paths.len() - i,
    {
        let ghost before = group_views(groups@);
        proof {
            assert(texts.take(i + 1).drop_last() =~= texts.take(i as int));
            assert(texts.take(i + 1).last() == paths@[i as int]@);
        }
        match find_group(&groups, paths[i]) {
            Some(k) => {
                let mut group = groups.remove(k);
                group.indices.push(i);
                groups.insert(k, group);
                proof {
                    lemma_group_of(before, paths@[i as int]@);
                    assert(group_views(groups@)[k as int] == group@);
                    assert(group_views(groups@) =~= with_place(before, paths@[i as int]@, i));
                }
            },
            None => {
                let mut indices: Vec<usize> = Vec::new();
                indices.push(i);
                groups.push(FileGroup { file_path: paths[i].clone(), indices });
                proof {
                    assert(group_views(groups@) =~= with_place(before, paths@[i as int]@, i));
                }
            },
        }
        i += 1;
    }
    proof {
        assert(texts.take(paths.len() as int) =~= texts);
    }
    groups
}

/// Groups the places of `todos` by file, so that each file can be handled
/// once. The groups stand in the order in which their files first occur.
pub fn group_by_file(todos: &[StoredTodo]) -> (groups: Vec<FileGroup>)
    ensures
        group_views(groups@) == grouped(paths_of(stored_views(todos@))),
{
    let mut paths: Vec<&String> = Vec::new();
    let mut i: usize = 0;
    while i < todos.len()
        invariant
            i <= todos.len(),
            path_texts(paths@) == paths_of(stored_views(todos@)).take(i as int),
        decreases todos.len() - i,
    {
        let ghost before = path_texts(paths@);
        paths.push(&todos[i].file_path);
        proof {
            let all = paths_of(stored_views(todos@));
            assert(path_texts(paths@) =~= before.push(todos@[i as int].file_path@));
            assert(all.take(i + 1) =~= all.take(i as int).push(all[i as int]));
        }
        i += 1;
    }
    proof {
        let all = paths_of(stored_views(todos@));
        assert(all.take(todos.len() as int) =~= all);
    }
    group_places(&paths)
}

/// The line of a marker as a number that git can be asked for: `None`
/// where the stored number is negative or too large to be one.
pub open spec fn line_of(t: StoredTodoView) -> Option<usize> {
    if 0 <= t.line_number <= usize::MAX {
        Some(t.line_number as usize)
    } else {
        None
    }
}

/// The line of a marker as a number that git can be asked for.
fn line_number_of(t: &StoredTodo) -> (r: Option<usize>)
    ensures
        r == line_of(t@),
{
    if t.line_number >= 0 && t.line_number as u64 <= usize::MAX as u64 {
        Some(t.line_number as usize)
    } else {
        None
    }
}

/// The lines of the markers at `places`, in that order. A place outside the
/// listing, and a marker without a usable line number, adds none.
pub open spec fn lines_at(todos: Seq<StoredTodoView>, places: Seq<usize>) -> Seq<usize>
    decreases places.len(),
{
    if places.len() == 0 {
        Seq::empty()
    } else {
        let before = lines_at(todos, places.drop_last());
        let i = places.last() as int;
        if i < todos.len() && line_of(todos[i]) is Some {
            before.push(line_of(todos[i]).unwrap())
        } else {
            before
        }
    }
}

/// The line numbers to ask git for, for the markers of one group.
pub fn line_numbers_of(todos: &[StoredTodo], group: &FileGroup) -> (lines: Vec<usize>)
    ensures
        lines@ == lines_at(stored_views(todos@), group@.indices),
{
    let mut lines: Vec<usize> = Vec::new();
    let mut m: usize = 0;
    while m < group.indices.len()
        invariant
            m <= group.indices.len(),
            lines@ == lines_at(stored_views(todos@), group@.indices.take(m as int)),
        decreases group.indices.len() - m,
    {
        proof {
            assert(group@.indices.take(m + 1).drop_last() =~= group@.indices.take(m as int));
        }
        let i = group.indices[m];
        if i < todos.len() {
            match line_number_of(&todos[i]) {
                Some(n) => {
                    lines.push(n);
                },
                None => {},
            }
        }
        m += 1;
    }
    proof {
        assert(group@.indices.take(group.indices.len() as int) =~= group@.indices);
    }
    lines
}

/// What is to be saved of one marker's authorship.
#[derive(Debug)]
pub struct BlameUpdate {
    /// The id of the marker's row.
    pub todo_id: i64,
    pub author: String,
    pub date: String,
}

/// A [`BlameUpdate`] as plain values.
pub struct BlameUpdateView {
    pub todo_id: i64,
    pub author: Seq<char>,
    pub date: Seq<char>,
}

impl View for BlameUpdate {
    type V = BlameUpdateView;

    open spec fn view(&self) -> BlameUpdateView {
        BlameUpdateView { todo_id: self.todo_id, author: self.author@, date: self.date@ }
    }
}

/// The views of `updates`, in order.
pub open spec fn update_views(updates: Seq<BlameUpdate>) -> Seq<BlameUpdateView> {
    updates.map_values(|u: BlameUpdate| u@)
}

/// What git said of the marker at place `i`: `None` where the place is
/// outside the listing, or git said nothing of the marker's line.
pub open spec fn blame_for(
    todos: Seq<StoredTodoView>,
    i: usize,
    found: Map<usize, BlameInfoView>,
) -> Option<BlameInfoView> {
    if i < todos.len() {
        match line_of(todos[i as int]) {
            Some(n) if found.contains_key(n) => Some(found[n]),
            _ => None,
        }
    } else {
        None
    }
}

/// `t` with the authorship that git gave.
pub open spec fn with_blame(t: StoredTodoView, info: BlameInfoView) -> StoredTodoView {
    StoredTodoView { git_author: Some(info.author), git_date: Some(info.date), ..t }
}

/// The listing after the markers at `places` took over what git said of
/// their lines. Markers of which git said nothing stay as they are.
pub open spec fn enriched(
    todos: Seq<StoredTodoView>,
    places: Seq<usize>,
    found: Map<usize, BlameInfoView>,
) -> Seq<StoredTodoView>
    decreases places.len(),
{
    if places.len() == 0 {
        todos
    } else {
        let before = enriched(todos, places.drop_last(), found);
        match blame_for(before, places.last(), found) {
            Some(info) => before.update(
                places.last() as int,
                with_blame(before[places.last() as int], info),
            ),
            None => before,
        }
    }
}

/// What is to be saved after the markers at `places` took over what git
/// said: one update for each marker that git spoke of, in the order of the
/// places.
pub open spec fn updates_for(
    todos: Seq<StoredTodoView>,
    places: Seq<usize>,
    found: Map<usize, BlameInfoView>,
) -> Seq<BlameUpdateView>
    decreases places.len(),
{
    if places.len() == 0 {
        Seq::empty()
    } else {
        let before = updates_for(todos, places.drop_last(), found);
        match blame_for(todos, places.last(), found) {
            Some(info) => before.push(
                BlameUpdateView {
                    todo_id: todos[places.last() as int].id,
                    author: info.author,
                    date: info.date,
                },
            ),
            None => before,
        }
    }
}

/// Taking over authorship changes nothing but authorship: the listing keeps
/// its length, and every marker its id, snapshot, file, line, keyword,
/// author, issue reference and description.
pub proof fn lemma_enriched_keeps_markers(
    todos: Seq<StoredTodoView>,
    places: Seq<usize>,
    found: Map<usize, BlameInfoView>,
)
    ensures
        enriched(todos, places, found).len() == todos.len(),
        forall|i: int|
            0 <= i < todos.len() ==> {
                let t = #[trigger] enriched(todos, places, found)[i];
                t == todos[i] || exists|info: BlameInfoView| t == with_blame(todos[i], info)
            },
    decreases places.len(),
{
    if places.len() > 0 {
        let before = enriched(todos, places.drop_last(), found);
        lemma_enriched_keeps_markers(todos, places.drop_last(), found);
        let after = enriched(todos, places, found);
        assert forall|i: int| 0 <= i < todos.len() implies {
            let t = #[trigger] after[i];
            t == todos[i] || exists|info: BlameInfoView| t == with_blame(todos[i], info)
        } by {
            let t = after[i];
            if t != before[i] {
                let info = blame_for(before, places.last(), found).unwrap();
                assert(t == with_blame(before[i], info));
                assert(t == with_blame(todos[i], info));
            } else if before[i] != todos[i] {
                let info = choose|info: BlameInfoView| before[i] == with_blame(todos[i], info);
                assert(t == with_blame(todos[i], info));
            }
        }
    }
}

/// The marker that holds nothing: no text, no author, the numbers zero.
pub open spec fn blank() -> StoredTodoView {
    StoredTodoView {
        id: 0,
        snapshot_id: 0,
        file_path: Seq::empty(),
        line_number: 0,
        keyword: Seq::empty(),
        author: None,
        issue_ref: None,
        description: Seq::empty(),
        git_author: None,
        git_date: None,
    }
}

/// A marker that holds nothing.
fn blank_todo() -> (t: StoredTodo)
    ensures
        t@ == blank(),
{
    StoredTodo {
        id: 0,
        snapshot_id: 0,
        file_path: String::new(),
        line_number: 0,
        keyword: String::new(),
        author: None,
        issue_ref: None,
        description: String::new(),
        git_author: None,
        git_date: None,
    }
}

/// Lets the markers of one group take over what git said of their lines,
/// and lists what is to be saved of that.
///
/// A marker of whose line git said nothing stays as it is and gives no
/// update. So does a place outside the listing.
pub fn apply_blame(
    todos: &mut Vec<StoredTodo>,
    group: &FileGroup,
    found: &HashMap<usize, BlameInfo>,
) -> (updates: Vec<BlameUpdate>)
    ensures
        stored_views(final(todos)@) == enriched(
            stored_views(old(todos)@),
            group@.indices,
            crate::git::blame_views(found@),
        ),
        update_views(updates@) == updates_for(
            stored_views(old(todos)@),
            group@.indices,
            crate::git::blame_views(found@),
        ),
{
    broadcast use vstd::std_specs::hash::group_hash_axioms;

    let ghost given = stored_views(todos@);
    let ghost said = crate::git::blame_views(found@);
    let mut updates: Vec<BlameUpdate> = Vec::new();
    let mut m: usize = 0;
    proof {
        assert(update_views(updates@) =~= Seq::empty());
    }
    while m < group.indices.len()
        invariant
            m <= group.indices.len(),
            given == stored_views(old(todos)@),
            said == crate::git::blame_views(found@),
            stored_views(todos@) == enriched(given, group@.indices.take(m as int), said),
            update_views(updates@) == updates_for(given, group@.indices.take(m as int), said),
        decreases group.indices.len() - m,
    {
        let ghost now = stored_views(todos@);
        let ghost saved = update_views(updates@);
        let ghost places = group@.indices.take(m as int);
        proof {
            assert(group@.indices.take(m + 1).drop_last() =~= places);
            lemma_enriched_keeps_markers(given, places, said);
            lemma_enriched_keeps_line(given, places, said);
        }
        let i = group.indices[m];
        if i < todos.len() {
            match line_number_of(&todos[i]) {
                Some(n) => match found.get(&n) {
                    Some(info) => {
                        let mut t = blank_todo();
                        todos.set_and_swap(i, &mut t);
                        let update = BlameUpdate {
                            todo_id: t.id,
                            author: info.author.clone(),
                            date: info.date.clone(),
                        };
                        t.git_author = Some(info.author.clone());
                        t.git_date = Some(info.date.clone());
                        todos.set(i, t);
                        updates.push(update);
                        proof {
                            assert(said[n] == info@);
                            assert(stored_views(todos@) =~= now.update(
                                i as int,
                                with_blame(now[i as int], info@),
                            ));
                            assert(update_views(updates@) =~= saved.push(update@));
                        }
                    },
                    None => {},
                },
                None => {},
            }
        }
        m += 1;
    }
    proof {
        assert(group@.indices.take(group.indices.len() as int) =~= group@.indices);
    }
    updates
}

/// Taking over authorship leaves every marker's line and id as they were,
/// so that what git said of a marker does not depend on what other markers
/// took over before.
proof fn lemma_enriched_keeps_line(
    todos: Seq<StoredTodoView>,
    places: Seq<usize>,
    found: Map<usize, BlameInfoView>,
)
    ensures
        enriched(todos, places, found).len() == todos.len(),
        forall|i: usize| #[trigger]
            blame_for(enriched(todos, places, found), i, found) == blame_for(todos, i, found),
        forall|i: int|
            0 <= i < todos.len() ==> (#[trigger] enriched(todos, places, found)[i]).id
                == todos[i].id,
{
    lemma_enriched_keeps_markers(todos, places, found);
    let after = enriched(todos, places, found);
    assert forall|i: usize| #[trigger] blame_for(after, i, found) == blame_for(todos, i, found) by {
        if i < todos.len() {
            let t = after[i as int];
            if t != todos[i as int] {
                let info = choose|info: BlameInfoView| t == with_blame(todos[i as int], info);
            }
        }
    }
    assert forall|i: int| 0 <= i < todos.len() implies (#[trigger] after[i]).id == todos[i].id by {
        let t = after[i];
        if t != todos[i] {
            let info = choose|info: BlameInfoView| t == with_blame(todos[i], info);
        }
    }
}

/// What a run of `git blame` on the file of a group says of the group's
/// markers: `None` where the run gave nothing to read. A group without a
/// line to ask for needs no run, and nothing is said of it.
pub open spec fn group_blame(todos: Seq<StoredTodoView>, group: FileGroupView, run: GitRun) -> Option<
    Map<usize, BlameInfoView>,
> {
    let lines = lines_at(todos, group.indices);
    if lines.len() == 0 {
        Some(Map::empty())
    } else {
        match run_output(run) {
            Some(out) => Some(blamed_lines(out, lines.to_set())),
            None => None,
        }
    }
}

/// Lets the markers of one group take over what `run`, the one run of
/// `git blame` on the group's file, says of their lines, and lists what is
/// to be saved of that.
///
/// A run that did not start, or did not succeed, skips the file: its
/// markers stay as they are and nothing is to be saved. The markers of
/// other files are never touched, so that one file's failure does not keep
/// the others from their authorship.
pub fn enrich_group(todos: &mut Vec<StoredTodo>, group: &FileGroup, run: &GitRun) -> (updates: Vec<
    BlameUpdate,
>)
    ensures
        match group_blame(stored_views(old(todos)@), group@, *run) {
            Some(found) => {
                &&& stored_views(final(todos)@) == enriched(
                    stored_views(old(todos)@),
                    group@.indices,
                    found,
                )
                &&& update_views(updates@) == updates_for(
                    stored_views(old(todos)@),
                    group@.indices,
                    found,
                )
            },
            None => {
                &&& final(todos)@ == old(todos)@
                &&& updates@.len() == 0
            },
        },
{
    let lines = line_numbers_of(todos.as_slice(), group);
    match blame_file_lines(group.file_path.as_str(), lines.as_slice(), run) {
        Ok(found) => {
            proof {
                if lines@.len() == 0 {
                    assert(blame_views(found@) =~= Map::empty());
                }
            }
            apply_blame(todos, group, &found)
        },
        Err(_) => Vec::new(),
    }
}

/// Whether what was sent between `before` and `after` is one statement for
/// each of `updates`, in their order, each setting the authorship of its
/// marker to the update's author and date, and `ok` tells at each place
/// whether the store accepted the statement.
pub open spec fn is_saving_of(
    before: Seq<Exchange>,
    after: Seq<Exchange>,
    updates: Seq<BlameUpdateView>,
    ok: Seq<bool>,
) -> bool {
    &&& after.len() == before.len() + updates.len()
    &&& ok.len() == updates.len()
    &&& after.take(before.len() as int) == before
    &&& forall|k: int|
        0 <= k < updates.len() ==> {
            let x = #[trigger] after[before.len() + k];
            &&& x.sql == blame_update_text()
            &&& x.params == blame_fields(updates[k].todo_id, updates[k].author, updates[k].date)
            &&& ok[k] == (x.answer is Done)
        }
}

/// Whether each outcome is a success.
pub open spec fn successes(outcomes: Seq<Result<(), TodoTrackError>>) -> Seq<bool> {
    outcomes.map_values(|o: Result<(), TodoTrackError>| o is Ok)
}

/// Saves each update in the store, one after the other, and tells how each
/// fared: one statement is sent for each update, in their order, and there
/// is one outcome for each, at the update's place. An update that cannot be
/// saved does not stop the others; what the store refused is an error of
/// SQLite.
pub fn persist_blame(store: &mut Store, updates: &[BlameUpdate]) -> (outcomes: Vec<
    Result<(), TodoTrackError>,
>)
    ensures
        outcomes@.len() == updates@.len(),
        is_saving_of(
            sent(*old(store)),
            sent(*final(store)),
            update_views(updates@),
            successes(outcomes@),
        ),
        forall|k: int|
            0 <= k < outcomes@.len() ==> (#[trigger] outcomes@[k] matches Err(e)
                ==> is_sqlite_error(e)),
{
    let ghost before = sent(*store);
    let ghost views = update_views(updates@);
    let mut outcomes: Vec<Result<(), TodoTrackError>> = Vec::new();
    let mut i: usize = 0;
    proof {
        assert(sent(*store).take(before.len() as int) =~= before);
    }
    while i < updates.len()
        invariant
            i <= updates.len(),
            outcomes@.len() == i,
            views == update_views(updates@),
            is_saving_of(before, sent(*store), views.take(i as int), successes(outcomes@)),
            forall|k: int|
                0 <= k < outcomes@.len() ==> (#[trigger] outcomes@[k] matches Err(e)
                    ==> is_sqlite_error(e)),
        decreases updates.len() - i,
    {
        let ghost log = sent(*store);
        let ghost fared = successes(outcomes@);
        let u = &updates[i];
        let outcome = update_git_blame(store, u.todo_id, u.author.as_str(), u.date.as_str());
        proof {
            let after = sent(*store);
            let upto = views.take(i + 1);
            assert(views[i as int] == u@);
            assert(after.take(before.len() as int) =~= before) by {
                assert(after.drop_last() == log);
                assert(log.take(before.len() as int) == before);
            }
            assert forall|k: int| 0 <= k < upto.len() implies {
                let x = #[trigger] after[before.len() + k];
                &&& x.sql == blame_update_text()
                &&& x.params == blame_fields(upto[k].todo_id, upto[k].author, upto[k].date)
                &&& successes(outcomes@.push(outcome))[k] == (x.answer is Done)
            } by {
                if k < i {
                    assert(after[before.len() + k] == after.drop_last()[before.len() + k]);
                    assert(views.take(i as int)[k] == upto[k]);
                    assert(fared[k] == successes(outcomes@.push(outcome))[k]);
                } else {
                    assert(after[before.len() + k] == after.last());
                }
            }
        }
        outcomes.push(outcome);
        i += 1;
    }
    proof {
        assert(views.take(updates.len() as int) =~= views);
    }
    outcomes
}

/// The date by which a marker is ranked: the day its line was last changed,
/// and for a marker without one a date after all real ones.
pub open spec fn date_key(t: StoredTodoView) -> Seq<char> {
    match t.git_date {
        Some(date) => date,
        None => "9999-99-99"@,
    }
}

/// The order by date, oldest first. Dates are written `YYYY-MM-DD`, so that
/// they order as their texts do.
pub open spec fn by_date() -> spec_fn(StoredTodoView, StoredTodoView) -> bool {
    |a: StoredTodoView, b: StoredTodoView| text_le(date_key(a), date_key(b))
}

/// The order by date ranks any two markers, and ranks them consistently,
/// so that what is sorted by date stands in the order of the dates.
pub proof fn lemma_by_date_is_total_preorder()
    ensures
        crate::order::is_total_preorder(by_date()),
{
    assert forall|a: StoredTodoView, b: StoredTodoView| #[trigger]
        by_date()(a, b) || #[trigger] by_date()(b, a) by {
        crate::text::lemma_text_le_total(date_key(a), date_key(b));
    }
    assert forall|a: StoredTodoView, b: StoredTodoView, c: StoredTodoView| #[trigger]
        by_date()(a, b) && #[trigger] by_date()(b, c) implies by_date()(a, c) by {
        crate::text::lemma_text_le_transitive(date_key(a), date_key(b), date_key(c));
    }
}

/// With `oldest` and with authorship, the listing stands in the order of
/// the dates, and holds the first markers of all of them sorted by date.
pub proof fn lemma_listing_is_in_date_order(todos: Seq<StoredTodoView>, n: usize)
    ensures
        crate::order::ordered(listing(todos, Some(n), true), by_date()),
        listing(todos, Some(n), true).len() == (if n < todos.len() {
            n as int
        } else {
            todos.len() as int
        }),
{
    lemma_by_date_is_total_preorder();
    crate::order::lemma_sorted_by(todos, by_date());
    let ranked = sorted_by(todos, by_date());
    let listed = listing(todos, Some(n), true);
    assert forall|i: int, j: int| 0 <= i < j < listed.len() implies by_date()(
        #[trigger] listed[i],
        #[trigger] listed[j],
    ) by {
        assert(listed[i] == ranked[i]);
        assert(listed[j] == ranked[j]);
    }
}

/// Whether `a` may stand before `b` in the order by date.
fn dated_before_or_same(a: &StoredTodo, b: &StoredTodo) -> (r: bool)
    ensures
        r == text_le(date_key(a@), date_key(b@)),
{
    let x = match &a.git_date {
        Some(d) => d.as_str(),
        None => "9999-99-99",
    };
    let y = match &b.git_date {
        Some(d) => d.as_str(),
        None => "9999-99-99",
    };
    text_before_or_same(x, y)
}

/// What is listed of `todos`. Without `oldest`, all of them as they stand.
/// With `oldest` the first that many, after sorting by date where
/// authorship was asked for (`blame`), and in the order they stand in where
/// it was not. Markers of the same date, and those without one, keep their
/// order among themselves.
pub open spec fn listing(todos: Seq<StoredTodoView>, oldest: Option<usize>, blame: bool) -> Seq<
    StoredTodoView,
> {
    match oldest {
        None => todos,
        Some(n) => {
            let ranked = if blame {
                sorted_by(todos, by_date())
            } else {
                todos
            };
            if n < ranked.len() {
                ranked.take(n as int)
            } else {
                ranked
            }
        },
    }
}

/// Cuts `todos` down to what is listed, and tells whether the caller is to
/// warn that the oldest markers were asked for without their dates.
pub fn apply_oldest(todos: &mut Vec<StoredTodo>, oldest: Option<usize>, blame: bool) -> (warn:
    bool)
    ensures
        warn == (oldest is Some && !blame),
        stored_views(final(todos)@) == listing(stored_views(old(todos)@), oldest, blame),
{
    let ghost given = todos@;
    match oldest {
        None => false,
        Some(n) => {
            if blame {
                let older = |a: &StoredTodo, b: &StoredTodo| -> (r: bool)
                    ensures
                        r == text_le(date_key(a@), date_key(b@)),
                    {
                        dated_before_or_same(a, b)
                    };
                sort_by(
                    todos,
                    older,
                    Ghost(|a: StoredTodo, b: StoredTodo| text_le(date_key(a@), date_key(b@))),
                );
                proof {
                    let view = |t: StoredTodo| t@;
                    lemma_sorted_by_map(
                        given,
                        view,
                        |a: StoredTodo, b: StoredTodo| text_le(date_key(a@), date_key(b@)),
                        by_date(),
                    );
                    assert(given.map_values(view) =~= stored_views(given));
                    assert(todos@.map_values(view) =~= stored_views(todos@));
                    crate::order::lemma_sorted_by(stored_views(given), by_date());
                }
            }
            let ghost ranked = stored_views(todos@);
            todos.truncate(n);
            proof {
                if n < ranked.len() {
                    assert(stored_views(todos@) =~= ranked.take(n as int));
                } else {
                    assert(stored_views(todos@) =~= ranked);
                }
            }
            !blame
        },
    }
}

} // verus!
