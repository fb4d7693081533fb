//! Authorship from git: which command to run, and what its output says.
//!
//! Running git is left to the caller, who hands back how the run ended as a
//! [`GitRun`]. The porcelain output of `git blame` is a list of blocks. A
//! block starts with a line that opens with the 40 hexadecimal digits of a
//! commit and carries the line's number as its third field; lines that start
//! with `author ` and `author-time ` follow.

use crate::error::TodoTrackError;
use crate::text::{
    chars_of, code_point, decimal_of, field, field_range, has_prefix, lines, lines_of, matches_at,
    parse_i64, parse_usize, parsed_i64, parsed_usize, push_decimal, string_of, trim_range, trimmed,
};
use std::collections::HashMap;
use std::collections::HashSet;
use vstd::prelude::*;

verus! {

/// What chrono writes for the instant `seconds` after the Unix epoch, taken
/// in UTC, under the strftime layout `layout`: the text that formatting
/// `DateTime::from_timestamp(seconds, 0)` with `layout` gives. `None` where
/// chrono cannot represent the instant, or cannot follow the layout.
pub uninterp spec fn utc_text(seconds: i64, layout: Seq<char>) -> Option<Seq<char>>;

/// `DateTime::from_timestamp` of chrono, and `DelayedFormat::write_to` on
/// what `DateTime::format` makes of the instant and `layout`.
#[verifier::external_body]
fn format_utc(seconds: i64, layout: &str) -> (r: Option<String>)
    ensures
        r.deep_view() == utc_text(seconds, layout@),
{
    let mut text = String::new();
    let at = chrono::DateTime::from_timestamp(seconds, 0)?;
    at.format(layout).write_to(&mut text).ok().map(|_| text)
}

/// The layout of a date: year, month and day, with hyphens between them.
pub open spec fn date_layout() -> Seq<char> {
    "%Y-%m-%d"@
}

/// Who last changed a line, and on which day.
#[derive(Debug, Clone)]
pub struct BlameInfo {
    pub author: String,
    /// The day as `YYYY-MM-DD`, so that dates order as their texts do.
    pub date: String,
}

/// A [`BlameInfo`] as plain values.
pub struct BlameInfoView {
    pub author: Seq<char>,
    pub date: Seq<char>,
}

impl View for BlameInfo {
    type V = BlameInfoView;

    open spec fn view(&self) -> BlameInfoView {
        BlameInfoView { author: self.author@, date: self.date@ }
    }
}

/// How a run of git ended.
#[derive(Debug)]
pub enum GitRun {
    /// git could not be started; `reason` says why.
    NotStarted { reason: String },
    /// git ran and ended, with what it wrote.
    Exited { success: bool, stdout: String, stderr: String },
}

/// What stands for an author or a date that the output does not give.
pub open spec fn unknown() -> Seq<char> {
    "Unknown"@
}

/// Whether `c` is a hexadecimal digit.
pub open spec fn is_hex_digit(c: char) -> bool {
    ('0' <= c <= '9') || ('a' <= c <= 'f') || ('A' <= c <= 'F')
}

/// Whether `line` starts a block: it opens with 40 hexadecimal digits.
pub open spec fn starts_block(line: Seq<char>) -> bool {
    &&& line.len() >= 40
    &&& forall|i: int| 0 <= i < 40 ==> is_hex_digit(#[trigger] line[i])
}

/// The line number that a block's first line carries: its third field.
pub open spec fn block_line(line: Seq<char>) -> Option<usize> {
    match field(line, 2) {
        Some(number) => parsed_usize(number),
        None => None,
    }
}

/// The author after `line`, where it was `current` before.
pub open spec fn author_after(line: Seq<char>, current: Seq<char>) -> Seq<char> {
    if has_prefix(line, "author "@) {
        trimmed(line.skip(7))
    } else {
        current
    }
}

/// The date after `line`, where it was `current` before. A time that is no
/// number, or that chrono cannot represent, leaves the date as it was.
pub open spec fn date_after(line: Seq<char>, current: Seq<char>) -> Seq<char> {
    if has_prefix(line, "author-time "@) {
        match parsed_i64(trimmed(line.skip(12))) {
            Some(seconds) => match utc_text(seconds, date_layout()) {
                Some(date) => date,
                None => current,
            },
            None => current,
        }
    } else {
        current
    }
}

/// The author and date that the lines of one block give, starting from
/// `start`: the last of each that is given.
pub open spec fn block_info(lines: Seq<Seq<char>>, start: BlameInfoView) -> BlameInfoView
    decreases lines.len(),
{
    if lines.len() == 0 {
        start
    } else {
        let before = block_info(lines.drop_last(), start);
        BlameInfoView {
            author: author_after(lines.last(), before.author),
            date: date_after(lines.last(), before.date),
        }
    }
}

/// What a reader of blame output knows between two lines.
pub struct BlameScan {
    /// The line number of the block being read.
    pub line: Option<usize>,
    /// Author and date of the block being read, as far as given.
    pub info: BlameInfoView,
    /// What the blocks read so far say of the lines asked for.
    pub found: Map<usize, BlameInfoView>,
}

/// `found` with the block being read added, where its line was asked for.
pub open spec fn closed_block(scan: BlameScan, wanted: Set<usize>) -> Map<usize, BlameInfoView> {
    match scan.line {
        Some(n) if wanted.contains(n) => scan.found.insert(n, scan.info),
        _ => scan.found,
    }
}

/// What the reader knows before the first line.
pub open spec fn scan_start() -> BlameScan {
    BlameScan {
        line: None,
        info: BlameInfoView { author: unknown(), date: unknown() },
        found: Map::empty(),
    }
}

/// What the reader knows after `line`.
pub open spec fn scan_after(scan: BlameScan, line: Seq<char>, wanted: Set<usize>) -> BlameScan {
    if starts_block(line) {
        BlameScan {
            line: block_line(line),
            info: BlameInfoView { author: unknown(), date: unknown() },
            found: closed_block(scan, wanted),
        }
    } else {
        BlameScan {
            info: BlameInfoView {
                author: author_after(line, scan.info.author),
                date: date_after(line, scan.info.date),
            },
            ..scan
        }
    }
}

/// What the reader knows after all of `lines`.
pub open spec fn scan_of(lines: Seq<Seq<char>>, wanted: Set<usize>) -> BlameScan
    decreases lines.len(),
{
    if lines.len() == 0 {
        scan_start()
    } else {
        scan_after(scan_of(lines.drop_last(), wanted), lines.last(), wanted)
    }
}

/// What the blame output `stdout` says of the lines in `wanted`. Where two
/// blocks speak of one line, the later one counts.
pub open spec fn blamed_lines(stdout: Seq<char>, wanted: Set<usize>) -> Map<usize, BlameInfoView> {
    closed_block(scan_of(lines_of(stdout), wanted), wanted)
}

/// The views of the values of `m`.
pub open spec fn blame_views(m: Map<usize, BlameInfo>) -> Map<usize, BlameInfoView> {
    m.map_values(|b: BlameInfo| b@)
}

/// Only lines that were asked for are reported.
pub proof fn lemma_blamed_lines_were_wanted(stdout: Seq<char>, wanted: Set<usize>)
    ensures
        blamed_lines(stdout, wanted).dom().subset_of(wanted),
{
    lemma_scan_found_wanted(lines_of(stdout), wanted);
}

/// Whether `stdout` reports line `n`: one of its lines starts a block and
/// carries that number.
pub open spec fn reports_line(stdout: Seq<char>, n: usize) -> bool {
    exists|j: int|
        0 <= j < lines_of(stdout).len() && starts_block(#[trigger] lines_of(stdout)[j])
            && block_line(lines_of(stdout)[j]) == Some(n)
}

/// Every line that was asked for and that the output reports is in the
/// answer.
pub proof fn lemma_blamed_lines_hold_reported(stdout: Seq<char>, wanted: Set<usize>, n: usize)
    requires
        wanted.contains(n),
        reports_line(stdout, n),
    ensures
        blamed_lines(stdout, wanted).contains_key(n),
{
    let lines = lines_of(stdout);
    let j = choose|j: int|
        0 <= j < lines.len() && starts_block(#[trigger] lines[j]) && block_line(lines[j]) == Some(n);
    lemma_scan_holds_reported(lines, wanted, j, n);
}

proof fn lemma_scan_holds_reported(lines: Seq<Seq<char>>, wanted: Set<usize>, j: int, n: usize)
    requires
        0 <= j < lines.len(),
        starts_block(lines[j]),
        block_line(lines[j]) == Some(n),
        wanted.contains(n),
    ensures
        closed_block(scan_of(lines, wanted), wanted).contains_key(n),
    decreases lines.len(),
{
    let front = lines.drop_last();
    if j < lines.len() - 1 {
        assert(front[j] == lines[j]);
        lemma_scan_holds_reported(front, wanted, j, n);
    }
}

proof fn lemma_scan_found_wanted(lines: Seq<Seq<char>>, wanted: Set<usize>)
    ensures
        scan_of(lines, wanted).found.dom().subset_of(wanted),
        closed_block(scan_of(lines, wanted), wanted).dom().subset_of(wanted),
    decreases lines.len(),
{
    if lines.len() > 0 {
        lemma_scan_found_wanted(lines.drop_last(), wanted);
    }
}

/// Whether `chars` opens with 40 hexadecimal digits.
fn is_block_start(chars: &Vec<char>) -> (b: bool)
    ensures
        b == starts_block(chars@),
{
    if chars.len() < 40 {
        return false;
    }
    let mut i: usize = 0;
    while i < 40
        invariant
            i <= 40 <= chars.len(),
            forall|j: int| 0 <= j < i ==> is_hex_digit(#[trigger] chars@[j]),
        decreases 40 - i,
    {
        let c: u32 = code_point(chars[i]);
        let hex = (0x30 <= c && c <= 0x39) || (0x61 <= c && c <= 0x66) || (0x41 <= c && c <= 0x46);
        if !hex {
            return false;
        }
        i += 1;
    }
    true
}

/// The prefixes that the reader looks for, spread into characters once.
struct Prefixes {
    author: Vec<char>,
    time: Vec<char>,
}

impl Prefixes {
    spec fn wf(&self) -> bool {
        &&& self.author@ == "author "@
        &&& self.time@ == "author-time "@
    }

    fn new() -> (p: Prefixes)
        ensures
            p.wf(),
    {
        Prefixes { author: chars_of("author "), time: chars_of("author-time ") }
    }
}

/// Author and date after one line that starts no block.
fn read_detail(prefixes: &Prefixes, chars: &Vec<char>, info: &mut BlameInfo)
    requires
        prefixes.wf(),
    ensures
        final(info)@.author == author_after(chars@, old(info)@.author),
        final(info)@.date == date_after(chars@, old(info)@.date),
{
    proof {
        reveal_strlit("author ");
        reveal_strlit("author-time ");
    }
    if matches_at(chars, &prefixes.author, 0) {
        proof {
            assert(chars@.subrange(0, 7)[6] == ' ');
            assert(!has_prefix(chars@, "author-time "@)) by {
                if has_prefix(chars@, "author-time "@) {
                    assert(chars@.subrange(0, 12)[6] == '-');
                }
            }
            assert(chars@.skip(7) =~= chars@.subrange(7, chars.len() as int));
        }
        let (from, to) = trim_range(chars, 7, chars.len());
        info.author = string_of(chars, from, to);
    } else if matches_at(chars, &prefixes.time, 0) {
        proof {
            assert(chars@.skip(12) =~= chars@.subrange(12, chars.len() as int));
        }
        let (from, to) = trim_range(chars, 12, chars.len());
        match parse_i64(chars, from, to) {
            Some(seconds) => match format_utc(seconds, "%Y-%m-%d") {
                Some(date) => {
                    info.date = date;
                },
                None => {},
            },
            None => {},
        }
    }
}

/// The line number on the first line of a block.
fn read_block_line(chars: &Vec<char>) -> (r: Option<usize>)
    ensures
        r == block_line(chars@),
{
    proof {
        assert(chars@.subrange(0, chars.len() as int) =~= chars@);
    }
    match field_range(chars, 0, chars.len(), 2) {
        Some((from, to)) => parse_usize(chars, from, to),
        None => None,
    }
}

/// Author and date out of the porcelain output for a single line: the last
/// of each that the output gives, `Unknown` for one it does not give.
pub fn parse_porcelain_blame(stdout: &str) -> (r: Option<BlameInfo>)
    ensures
        r matches Some(info) && info@ == block_info(
            lines_of(stdout@),
            BlameInfoView { author: unknown(), date: unknown() },
        ),
{
    let prefixes = Prefixes::new();
    let all = lines(stdout);
    let mut info = BlameInfo { author: "Unknown".to_owned(), date: "Unknown".to_owned() };
    let ghost start = info@;
    let mut i: usize = 0;
    while i < all.len()
        invariant
            i <= all.len(),
            prefixes.wf(),
            start == (BlameInfoView { author: unknown(), date: unknown() }),
            info@ == block_info(all.deep_view().take(i as int), start),
        decreases all.len() - i,
    {
        let chars = chars_of(all[i].as_str());
        proof {
            let upto = all.deep_view().take(i + 1);
            assert(upto.drop_last() =~= all.deep_view().take(i as int));
            assert(upto.last() == chars@);
        }
        read_detail(&prefixes, &chars, &mut info);
        i += 1;
    }
    proof {
        assert(all.deep_view().take(all.len() as int) =~= all.deep_view());
    }
    Some(info)
}

/// The set of the numbers in `line_numbers`.
fn wanted_set(line_numbers: &[usize]) -> (wanted: HashSet<usize>)
    ensures
        wanted@ == line_numbers@.to_set(),
{
    broadcast use vstd::std_specs::hash::group_hash_axioms;

    let mut wanted: HashSet<usize> = HashSet::new();
    let mut i: usize = 0;
    while i < line_numbers.len()
        invariant
            i <= line_numbers.len(),
            wanted@ == line_numbers@.take(i as int).to_set(),
        decreases line_numbers.len() - i,
    {
        wanted.insert(line_numbers[i]);
        proof {
            let before = line_numbers@.take(i as int);
            let upto = line_numbers@.take(i + 1);
            assert(upto =~= before.push(line_numbers@[i as int]));
            assert(upto.to_set() =~= before.to_set().insert(line_numbers@[i as int])) by {
                assert forall|n: usize| upto.to_set().contains(n) <==> before.to_set().insert(
                    line_numbers@[i as int],
                ).contains(n) by {
                    if upto.contains(n) {
                        let k = choose|k: int| 0 <= k < upto.len() && upto[k] == n;
                        if k < i {
                            assert(before[k] == n);
                        }
                    }
                    if before.contains(n) {
                        let k = choose|k: int| 0 <= k < before.len() && before[k] == n;
                        assert(upto[k] == n);
                    }
                    assert(upto[i as int] == line_numbers@[i as int]);
                }
            }
        }
        i += 1;
    }
    proof {
        assert(line_numbers@.take(line_numbers.len() as int) =~= line_numbers@);
    }
    wanted
}

/// Adds the block being read to `found`, where its line was asked for.
fn close_block(
    found: &mut HashMap<usize, BlameInfo>,
    line: Option<usize>,
    info: BlameInfo,
    wanted: &HashSet<usize>,
)
    ensures
        blame_views(final(found)@) == closed_block(
            BlameScan { line, info: info@, found: blame_views(old(found)@) },
            wanted@,
        ),
{
    broadcast use vstd::std_specs::hash::group_hash_axioms;

    match line {
        Some(n) => {
            if wanted.contains(&n) {
                found.insert(n, info);
                proof {
                    assert(blame_views(found@) =~= blame_views(old(found)@).insert(n, info@));
                }
            }
        },
        None => {},
    }
}

/// What the porcelain output of a whole file says of the lines in
/// `line_numbers`.
pub fn parse_blame_output(stdout: &str, line_numbers: &[usize]) -> (found: HashMap<
    usize,
    BlameInfo,
>)
    ensures
        blame_views(found@) == blamed_lines(stdout@, line_numbers@.to_set()),
{
    let prefixes = Prefixes::new();
    let wanted = wanted_set(line_numbers);
    let all = lines(stdout);
    let mut found: HashMap<usize, BlameInfo> = HashMap::new();
    let mut line: Option<usize> = None;
    let mut info = BlameInfo { author: "Unknown".to_owned(), date: "Unknown".to_owned() };
    let mut i: usize = 0;
    proof {
        assert(blame_views(found@) =~= Map::empty());
    }
    while i < all.len()
        invariant
            i <= all.len(),
            prefixes.wf(),
            (BlameScan { line, info: info@, found: blame_views(found@) }) == scan_of(
                all.deep_view().take(i as int),
                wanted@,
            ),
        decreases all.len() - i,
    {
        let chars = chars_of(all[i].as_str());
        proof {
            let upto = all.deep_view().take(i + 1);
            assert(upto.drop_last() =~= all.deep_view().take(i as int));
            assert(upto.last() == chars@);
        }
        if is_block_start(&chars) {
            close_block(&mut found, line, info, &wanted);
            line = read_block_line(&chars);
            info = BlameInfo { author: "Unknown".to_owned(), date: "Unknown".to_owned() };
        } else {
            read_detail(&prefixes, &chars, &mut info);
        }
        i += 1;
    }
    proof {
        assert(all.deep_view().take(all.len() as int) =~= all.deep_view());
    }
    close_block(&mut found, line, info, &wanted);
    found
}

/// Whether git has to be run at all to blame these lines of a file: not
/// where no line is asked for.
pub fn needs_blame(line_numbers: &[usize]) -> (b: bool)
    ensures
        b == (line_numbers@.len() > 0),
{
    line_numbers.len() > 0
}

/// What a run of git wrote, where it started and succeeded.
pub open spec fn run_output(run: GitRun) -> Option<Seq<char>> {
    match run {
        GitRun::Exited { success: true, stdout, .. } => Some(stdout@),
        _ => None,
    }
}

/// Why a run of git gave nothing to read: that it could not be started,
/// with the reason, or what it wrote as its complaint.
pub open spec fn failure_reason(run: GitRun) -> Seq<char> {
    match run {
        GitRun::NotStarted { reason } => "failed to execute git blame: "@ + reason@,
        GitRun::Exited { stderr, .. } => stderr@,
    }
}

/// Whether `e` is the blame failure of `file` with `reason`.
pub open spec fn is_blame_failure(e: TodoTrackError, file: Seq<char>, reason: Seq<char>) -> bool {
    &&& e matches TodoTrackError::GitBlame { file: f, reason: r }
    &&& f@ == file
    &&& r@ == reason
}

/// The output of a successful run, or the error that tells why there is none.
fn blame_output<'a>(file_path: &str, run: &'a GitRun) -> (r: Result<&'a String, TodoTrackError>)
    ensures
        match r {
            Ok(out) => run_output(*run) == Some(out@),
            Err(e) => run_output(*run) is None && is_blame_failure(
                e,
                file_path@,
                failure_reason(*run),
            ),
        },
{
    match run {
        GitRun::NotStarted { reason } => {
            let mut text = "failed to execute git blame: ".to_owned();
            text.append(reason.as_str());
            Err(TodoTrackError::GitBlame { file: file_path.to_owned(), reason: text })
        },
        GitRun::Exited { success, stdout, stderr } => {
            if *success {
                Ok(stdout)
            } else {
                Err(TodoTrackError::GitBlame { file: file_path.to_owned(), reason: stderr.clone() })
            }
        },
    }
}

/// Author and date of each line of `line_numbers` in `file_path`, out of one
/// run of `git blame --porcelain` on the whole file.
///
/// With no line asked for the answer is the empty map, whatever `run` holds.
/// Else a run that did not start, or did not succeed, is a
/// [`TodoTrackError::GitBlame`] for this file; the output of a run that
/// succeeded is parsed, and lines that it does not mention are left out.
pub fn blame_file_lines(file_path: &str, line_numbers: &[usize], run: &GitRun) -> (r: Result<
    HashMap<usize, BlameInfo>,
    TodoTrackError,
>)
    ensures
        match r {
            Ok(found) => if line_numbers@.len() == 0 {
                found@ == Map::<usize, BlameInfo>::empty()
            } else {
                &&& run_output(*run) matches Some(out)
                &&& blame_views(found@) == blamed_lines(out, line_numbers@.to_set())
            },
            Err(e) => {
                &&& line_numbers@.len() > 0
                &&& run_output(*run) is None
                &&& is_blame_failure(e, file_path@, failure_reason(*run))
            },
        },
{
    if !needs_blame(line_numbers) {
        return Ok(HashMap::new());
    }
    match blame_output(file_path, run) {
        Ok(stdout) => Ok(parse_blame_output(stdout.as_str(), line_numbers)),
        Err(e) => Err(e),
    }
}

/// Author and date of one line of `file_path`, out of a run of
/// `git blame --porcelain -L n,n` on it. A run that did not start, or did
/// not succeed, is a [`TodoTrackError::GitBlame`] for this file.
pub fn blame_line(file_path: &str, run: &GitRun) -> (r: Result<BlameInfo, TodoTrackError>)
    ensures
        match r {
            Ok(info) => {
                &&& run_output(*run) matches Some(out)
                &&& info@ == block_info(
                    lines_of(out),
                    BlameInfoView { author: unknown(), date: unknown() },
                )
            },
            Err(e) => {
                &&& run_output(*run) is None
                &&& is_blame_failure(e, file_path@, failure_reason(*run))
            },
        },
{
    match blame_output(file_path, run) {
        Ok(stdout) => match parse_porcelain_blame(stdout.as_str()) {
            Some(info) => Ok(info),
            None => Err(
                TodoTrackError::GitBlame {
                    file: file_path.to_owned(),
                    reason: "failed to parse blame output".to_owned(),
                },
            ),
        },
        Err(e) => Err(e),
    }
}

/// Whether a run of `git rev-parse --is-inside-work-tree` says that the
/// directory it ran in is under version control: it started and succeeded.
pub fn is_git_repo(run: &GitRun) -> (b: bool)
    ensures
        b == (run_output(*run) is Some),
{
    match run {
        GitRun::Exited { success, .. } => *success,
        GitRun::NotStarted { .. } => false,
    }
}

/// The arguments of the git command that blames a whole file.
pub open spec fn file_blame_args(file_path: Seq<char>) -> Seq<Seq<char>> {
    seq!["blame"@, "--porcelain"@, "--"@, file_path]
}

/// The arguments of the git command that blames one line of a file.
pub open spec fn line_blame_args(file_path: Seq<char>, line_number: nat) -> Seq<Seq<char>> {
    seq![
        "blame"@,
        "--porcelain"@,
        "-L"@,
        decimal_of(line_number) + seq![','] + decimal_of(line_number),
        "--"@,
        file_path,
    ]
}

/// The arguments of the git command that tells whether a directory is
/// under version control.
pub open spec fn repo_check_args() -> Seq<Seq<char>> {
    seq!["rev-parse"@, "--is-inside-work-tree"@]
}

/// The arguments for git to blame the whole of `file_path` in porcelain
/// format: one run serves every line of the file.
pub fn blame_file_command(file_path: &str) -> (args: Vec<String>)
    ensures
        args.deep_view() == file_blame_args(file_path@),
{
    let mut args: Vec<String> = Vec::new();
    args.push("blame".to_owned());
    args.push("--porcelain".to_owned());
    args.push("--".to_owned());
    args.push(file_path.to_owned());
    proof {
        assert(args.deep_view() =~= file_blame_args(file_path@));
    }
    args
}

/// The arguments for git to blame line `line_number` of `file_path` in
/// porcelain format.
pub fn blame_line_command(file_path: &str, line_number: usize) -> (args: Vec<String>)
    ensures
        args.deep_view() == line_blame_args(file_path@, line_number as nat),
{
    let mut range = String::new();
    push_decimal(&mut range, line_number);
    range.append(",");
    push_decimal(&mut range, line_number);
    proof {
        reveal_strlit(",");
        assert(","@ =~= seq![',']);
        assert(range@ =~= decimal_of(line_number as nat) + seq![','] + decimal_of(
            line_number as nat,
        ));
    }
    let mut args: Vec<String> = Vec::new();
    args.push("blame".to_owned());
    args.push("--porcelain".to_owned());
    args.push("-L".to_owned());
    args.push(range);
    args.push("--".to_owned());
    args.push(file_path.to_owned());
    proof {
        assert(args.deep_view() =~= line_blame_args(file_path@, line_number as nat));
    }
    args
}

/// The arguments for git to tell whether the directory it runs in is under
/// version control.
pub fn repo_check_command() -> (args: Vec<String>)
    ensures
        args.deep_view() == repo_check_args(),
{
    let mut args: Vec<String> = Vec::new();
    args.push("rev-parse".to_owned());
    args.push("--is-inside-work-tree".to_owned());
    proof {
        assert(args.deep_view() =~= repo_check_args());
    }
    args
}

} // verus!
