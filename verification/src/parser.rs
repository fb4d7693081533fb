//! The comment parser: from one line of text to the marker it holds, if any.
//!
//! Which part of a line is the keyword, the author and the description is
//! decided by a regular expression, which the regex crate runs. What the
//! expression finds is named by [`regex_captures`]; everything that is made of
//! it afterwards is verified here.

use crate::error::TodoTrackError;
use crate::text::{chars_of, code_point, contains, contains_chars, lines, lines_of, trim, trimmed};
use regex::Regex;
use vstd::prelude::*;

verus! {

#[verifier::external_type_specification]
#[verifier::external_body]
pub struct ExRegex(Regex);

/// A regular expression that `Regex::new` compiled. Nothing but
/// [`compile`] makes one.
pub struct Expression {
    regex: Regex,
}

/// The pattern text that a compiled expression was built from: what
/// `Regex::as_str` returns for it.
pub uninterp spec fn regex_source(compiled: Expression) -> Seq<char>;

/// What `Regex::captures` finds when the expression compiled from `pattern`
/// searches `haystack`: `None` where nothing matches, else the text of each
/// group of the leftmost match, group 0 (the whole match) first, with `None`
/// for a group that took no part in it.
pub uninterp spec fn regex_captures(pattern: Seq<char>, haystack: Seq<char>) -> Option<
    Seq<Option<Seq<char>>>,
>;

/// Whether `Regex::new` accepts `pattern`: it is a valid expression, and not
/// too large to compile.
pub uninterp spec fn regex_compiles(pattern: Seq<char>) -> bool;

/// `Regex::new`: compiles `pattern`, where the regex crate accepts it. A
/// compiled expression remembers the text it was built from.
#[verifier::external_body]
fn compile(pattern: &str) -> (r: Result<Expression, regex::Error>)
    ensures
        (r is Ok) == regex_compiles(pattern@),
        r matches Ok(compiled) ==> regex_source(compiled) == pattern@,
{
    Regex::new(pattern).map(|regex| Expression { regex })
}

/// `Regex::captures`, with each group of the match copied out as a string.
#[verifier::external_body]
fn captures(compiled: &Expression, haystack: &str) -> (r: Option<Vec<Option<String>>>)
    ensures
        r.deep_view() == regex_captures(regex_source(*compiled), haystack@),
{
    compiled.regex.captures(haystack).map(
        |caps| caps.iter().map(|g| g.map(|m| m.as_str().to_string())).collect(),
    )
}

/// A marker found on one line of source text.
#[derive(Debug, Clone, PartialEq, Eq)]
pub struct TodoItem {
    /// The line it stands on, counted from 1.
    pub line_number: usize,
    /// One of `TODO`, `FIXME`, `HACK`, `XXX`, in upper case.
    pub keyword: String,
    /// The name in the parentheses behind the keyword, where there are any.
    pub author: Option<String>,
    /// The first `#` with digits behind it in the description.
    pub issue_ref: Option<String>,
    /// What follows the keyword, trimmed.
    pub description: String,
}

/// A [`TodoItem`] as plain values.
pub struct TodoItemView {
    pub line_number: nat,
    pub keyword: Seq<char>,
    pub author: Option<Seq<char>>,
    pub issue_ref: Option<Seq<char>>,
    pub description: Seq<char>,
}

impl View for TodoItem {
    type V = TodoItemView;

    open spec fn view(&self) -> TodoItemView {
        TodoItemView {
            line_number: self.line_number as nat,
            keyword: self.keyword@,
            author: self.author.deep_view(),
            issue_ref: self.issue_ref.deep_view(),
            description: self.description@,
        }
    }
}

/// The view of an item that may be absent.
pub open spec fn item_view(item: Option<TodoItem>) -> Option<TodoItemView> {
    match item {
        Some(i) => Some(i@),
        None => None,
    }
}

/// The views of `items`, in order.
pub open spec fn item_views(items: Seq<TodoItem>) -> Seq<TodoItemView> {
    items.map_values(|i: TodoItem| i@)
}

/// Whether `line` holds one of the comment markers `//`, `#`, `/*`, `<!--`,
/// `*`, `--`.
pub open spec fn has_comment_marker(line: Seq<char>) -> bool {
    ||| contains(line, "//"@)
    ||| contains(line, "#"@)
    ||| contains(line, "/*"@)
    ||| contains(line, "<!--"@)
    ||| contains(line, "*"@)
    ||| contains(line, "--"@)
}

/// Whether `line` holds a comment marker.
pub fn line_has_comment_marker(line: &str) -> (b: bool)
    ensures
        b == has_comment_marker(line@),
{
    let chars = chars_of(line);
    contains_chars(&chars, &chars_of("//")) || contains_chars(&chars, &chars_of("#"))
        || contains_chars(&chars, &chars_of("/*")) || contains_chars(&chars, &chars_of("<!--"))
        || contains_chars(&chars, &chars_of("*")) || contains_chars(&chars, &chars_of("--"))
}

/// Whether `c` is the upper-case letter `upper` in some case: the letter
/// itself, its lower-case form, or, for `K`, the Kelvin sign, which the
/// regex crate lets stand for `k` where case is ignored.
pub open spec fn same_letter(c: char, upper: char) -> bool {
    ||| c == upper
    ||| c as int == upper as int + 32
    ||| (upper == 'K' && c as int == 0x212A)
}

/// Whether `word` is `keyword`, written in any case.
pub open spec fn spells(word: Seq<char>, keyword: Seq<char>) -> bool {
    &&& word.len() == keyword.len()
    &&& forall|i: int| 0 <= i < word.len() ==> same_letter(#[trigger] word[i], keyword[i])
}

/// Whether `k` is one of the four keywords, in upper case.
pub open spec fn is_keyword(k: Seq<char>) -> bool {
    k == "TODO"@ || k == "FIXME"@ || k == "HACK"@ || k == "XXX"@
}

/// The keyword that `word` spells, in upper case.
pub open spec fn keyword_of(word: Seq<char>) -> Option<Seq<char>> {
    if spells(word, "TODO"@) {
        Some("TODO"@)
    } else if spells(word, "FIXME"@) {
        Some("FIXME"@)
    } else if spells(word, "HACK"@) {
        Some("HACK"@)
    } else if spells(word, "XXX"@) {
        Some("XXX"@)
    } else {
        None
    }
}

/// Whether `word` is `keyword`, written in any case.
fn spells_keyword(word: &Vec<char>, keyword: &str) -> (b: bool)
    ensures
        b == spells(word@, keyword@),
{
    let letters = chars_of(keyword);
    if word.len() != letters.len() {
        return false;
    }
    let mut i: usize = 0;
    while i < word.len()
        invariant
            i <= word.len(),
            word.len() == letters.len(),
            letters@ == keyword@,
            forall|j: int| 0 <= j < i ==> same_letter(#[trigger] word@[j], letters@[j]),
        decreases word.len() - i,
    {
        let given: char = word[i];
        let letter: char = letters[i];
        let c: u32 = code_point(given);
        let u: u32 = code_point(letter);
        let same = given == letter || (c >= 32 && c - 32 == u) || (letter == 'K' && c == 0x212A);
        if !same {
            return false;
        }
        i += 1;
    }
    true
}

/// The keyword that `word` spells, in upper case: `None` where it spells none.
pub fn normalize_keyword(word: &str) -> (r: Option<String>)
    ensures
        r.deep_view() == keyword_of(word@),
{
    let chars = chars_of(word);
    if spells_keyword(&chars, "TODO") {
        Some("TODO".to_owned())
    } else if spells_keyword(&chars, "FIXME") {
        Some("FIXME".to_owned())
    } else if spells_keyword(&chars, "HACK") {
        Some("HACK".to_owned())
    } else if spells_keyword(&chars, "XXX") {
        Some("XXX".to_owned())
    } else {
        None
    }
}

/// Group `i` of a match: `None` where the match has no such group, or the
/// group took no part in it.
pub open spec fn group(groups: Seq<Option<Seq<char>>>, i: int) -> Option<Seq<char>> {
    if 0 <= i < groups.len() {
        groups[i]
    } else {
        None
    }
}

/// The item that a match of the marker pattern stands for, before its
/// description is searched for an issue reference. Group 1 is the keyword,
/// group 2 the author, group 3 the description.
pub open spec fn marker_parts(groups: Seq<Option<Seq<char>>>, line_number: nat) -> Option<
    TodoItemView,
> {
    match (group(groups, 1), group(groups, 3)) {
        (Some(word), Some(rest)) => match keyword_of(word) {
            Some(keyword) => Some(
                TodoItemView {
                    line_number,
                    keyword,
                    author: match group(groups, 2) {
                        Some(name) => Some(trimmed(name)),
                        None => None,
                    },
                    issue_ref: None,
                    description: trimmed(rest),
                },
            ),
            None => None,
        },
        _ => None,
    }
}

/// The issue reference that a match of the issue pattern stands for: `#` and
/// the digits of group 1.
pub open spec fn issue_of(found: Option<Seq<Option<Seq<char>>>>) -> Option<Seq<char>> {
    match found {
        Some(groups) => match group(groups, 1) {
            Some(digits) => Some(seq!['#'] + digits),
            None => None,
        },
        None => None,
    }
}

/// The item on `line`, if it holds one.
pub open spec fn parsed_line(line: Seq<char>, line_number: nat) -> Option<TodoItemView> {
    if !has_comment_marker(line) {
        None
    } else {
        match regex_captures(marker_pattern(), line) {
            Some(groups) => match marker_parts(groups, line_number) {
                Some(item) => Some(
                    TodoItemView {
                        issue_ref: issue_of(regex_captures(issue_pattern(), item.description)),
                        ..item
                    },
                ),
                None => None,
            },
            None => None,
        }
    }
}

/// The item that a match of the marker pattern stands for, with no issue
/// reference yet.
pub fn item_from_groups(groups: &Vec<Option<String>>, line_number: usize) -> (r: Option<TodoItem>)
    ensures
        item_view(r) == marker_parts(groups.deep_view(), line_number as nat),
{
    if groups.len() < 4 {
        return None;
    }
    let word = match &groups[1] {
        Some(w) => w,
        None => {
            return None;
        },
    };
    let rest = match &groups[3] {
        Some(d) => d,
        None => {
            return None;
        },
    };
    let keyword = match normalize_keyword(word.as_str()) {
        Some(k) => k,
        None => {
            return None;
        },
    };
    let author = match &groups[2] {
        Some(name) => Some(trim(name.as_str())),
        None => None,
    };
    let description = trim(rest.as_str());
    Some(TodoItem { line_number, keyword, author, issue_ref: None, description })
}

/// The issue reference that a match of the issue pattern stands for.
pub fn issue_from_groups(found: &Option<Vec<Option<String>>>) -> (r: Option<String>)
    ensures
        r.deep_view() == issue_of(found.deep_view()),
{
    match found {
        Some(groups) => {
            if groups.len() < 2 {
                return None;
            }
            match &groups[1] {
                Some(digits) => {
                    let mut text = "#".to_owned();
                    text.append(digits.as_str());
                    proof {
                        reveal_strlit("#");
                        assert("#"@ =~= seq!['#']);
                    }
                    Some(text)
                },
                None => None,
            }
        },
        None => None,
    }
}

/// The pattern of a marker: a keyword as a whole word in any case, an
/// optional author in parentheses, an optional colon, and a description of
/// at least one character.
pub open spec fn marker_pattern() -> Seq<char> {
    r"(?i)\b(TODO|FIXME|HACK|XXX)\b(?:\(([^)]*)\))?:?\s*(.+)"@
}

/// The pattern of an issue reference: `#` and at least one digit.
pub open spec fn issue_pattern() -> Seq<char> {
    r"#(\d+)"@
}

/// The compiled patterns of the parser, built once and handed to every call.
pub struct Patterns {
    marker: Expression,
    issue: Expression,
}

impl Patterns {
    /// Both expressions come from the built-in patterns.
    #[verifier::type_invariant]
    closed spec fn built_in(self) -> bool {
        &&& regex_source(self.marker) == marker_pattern()
        &&& regex_source(self.issue) == issue_pattern()
    }

    /// Compiles the built-in patterns. It succeeds where the regex crate
    /// accepts both; where it does not accept one, its error is handed on.
    pub fn new() -> (r: Result<Patterns, TodoTrackError>)
        ensures
            (r is Ok) == (regex_compiles(marker_pattern()) && regex_compiles(issue_pattern())),
            r matches Err(e) ==> e is Regex,
    {
        let marker = match compile(r"(?i)\b(TODO|FIXME|HACK|XXX)\b(?:\(([^)]*)\))?:?\s*(.+)") {
            Ok(re) => re,
            Err(e) => {
                return Err(TodoTrackError::Regex(e));
            },
        };
        let issue = match compile(r"#(\d+)") {
            Ok(re) => re,
            Err(e) => {
                return Err(TodoTrackError::Regex(e));
            },
        };
        Ok(Patterns { marker, issue })
    }
}

/// Parses one line: the item it holds, or `None`. A line holds an item where
/// it has a comment marker and the marker pattern matches it.
pub fn parse_line(patterns: &Patterns, line: &str, line_number: usize) -> (r: Option<TodoItem>)
    ensures
        item_view(r) == parsed_line(line@, line_number as nat),
        r matches Some(item) ==> is_keyword(item.keyword@) && item.line_number == line_number,
        !has_comment_marker(line@) ==> r is None,
{
    proof {
        use_type_invariant(patterns);
    }
    if !line_has_comment_marker(line) {
        return None;
    }
    let groups = match captures(&patterns.marker, line) {
        Some(g) => g,
        None => {
            return None;
        },
    };
    let mut item = match item_from_groups(&groups, line_number) {
        Some(i) => i,
        None => {
            return None;
        },
    };
    let found = captures(&patterns.issue, item.description.as_str());
    item.issue_ref = issue_from_groups(&found);
    Some(item)
}

/// The items of `lines`, in line order; the first line has number 1.
pub open spec fn parsed_lines(lines: Seq<Seq<char>>) -> Seq<TodoItemView>
    decreases lines.len(),
{
    if lines.len() == 0 {
        Seq::empty()
    } else {
        let before = parsed_lines(lines.drop_last());
        match parsed_line(lines.last(), lines.len()) {
            Some(item) => before.push(item),
            None => before,
        }
    }
}

/// The items of a text of several lines.
pub open spec fn parsed_content(content: Seq<char>) -> Seq<TodoItemView> {
    parsed_lines(lines_of(content))
}

/// Parses every line of `content` and returns the items found, in line
/// order, each with the number of its line, counted from 1.
pub fn parse_content(patterns: &Patterns, content: &str) -> (items: Vec<TodoItem>)
    ensures
        item_views(items@) == parsed_content(content@),
{
    let all = lines(content);
    let mut items: Vec<TodoItem> = Vec::new();
    let mut i: usize = 0;
    while i < all.len()
        invariant
            i <= all.len(),
            item_views(items@) == parsed_lines(all.deep_view().take(i as int)),
        decreases all.len() - i,
    {
        let ghost before = item_views(items@);
        let ghost upto = all.deep_view().take(i + 1);
        proof {
            assert(upto.drop_last() =~= all.deep_view().take(i as int));
            assert(upto.last() == all[i as int]@);
        }
        match parse_line(patterns, all[i].as_str(), i + 1) {
            Some(item) => {
                items.push(item);
                proof {
                    assert(item_views(items@) =~= before.push(item@));
                }
            },
            None => {},
        }
        i += 1;
    }
    proof {
        assert(all.deep_view().take(all.len() as int) =~= all.deep_view());
    }
    items
}

/// A line in which the marker pattern finds nothing holds no item, whatever
/// comment markers it has and whatever its number. Whether the pattern
/// finds a keyword is the regex crate's to say: it asks for a whole word, so
/// that a keyword inside a longer word is not found.
pub proof fn lemma_no_match_no_item(line: Seq<char>, line_number: nat)
    requires
        regex_captures(marker_pattern(), line) is None,
    ensures
        parsed_line(line, line_number) is None,
{
}

/// Every item of `parsed_lines` carries a keyword in upper case and the
/// number of a line of the text, and the numbers rise strictly.
pub proof fn lemma_parsed_lines_ordered(lines: Seq<Seq<char>>)
    ensures
        forall|k: int|
            0 <= k < parsed_lines(lines).len() ==> {
                let item = #[trigger] parsed_lines(lines)[k];
                is_keyword(item.keyword) && 1 <= item.line_number <= lines.len()
            },
        forall|j: int, k: int|
            0 <= j < k < parsed_lines(lines).len() ==> (#[trigger] parsed_lines(lines)[j]).line_number
                < (#[trigger] parsed_lines(lines)[k]).line_number,
    decreases lines.len(),
{
    if lines.len() > 0 {
        lemma_parsed_lines_ordered(lines.drop_last());
    }
}

/// Parsing is a function of the text alone: whatever two runs of
/// [`parse_line`] return for the same line and number is the same item, and
/// whatever two runs of [`parse_content`] return for the same text are the
/// same items in the same order.
pub proof fn lemma_parsing_is_repeatable(
    line: Seq<char>,
    line_number: nat,
    first: Option<TodoItem>,
    second: Option<TodoItem>,
    content: Seq<char>,
    first_items: Seq<TodoItem>,
    second_items: Seq<TodoItem>,
)
    requires
        item_view(first) == parsed_line(line, line_number),
        item_view(second) == parsed_line(line, line_number),
        item_views(first_items) == parsed_content(content),
        item_views(second_items) == parsed_content(content),
    ensures
        item_view(first) == item_view(second),
        item_views(first_items) == item_views(second_items),
        first_items.len() == second_items.len(),
{
    assert(item_views(first_items).len() == first_items.len());
    assert(item_views(second_items).len() == second_items.len());
}

/// Whether `b` is `a`, or `a` in the other case, for the letters `a` to `z`.
pub open spec fn case_variant(a: char, b: char) -> bool {
    ||| b == a
    ||| ('a' <= a <= 'z' && b as int == a as int - 32)
    ||| ('A' <= a <= 'Z' && b as int == a as int + 32)
}

/// The keyword of an item never depends on the case the word was written
/// in: two words that differ only by case spell the same keyword.
pub proof fn lemma_keyword_ignores_case(word: Seq<char>, other: Seq<char>)
    requires
        word.len() == other.len(),
        forall|i: int|
            0 <= i < word.len() ==> case_variant(#[trigger] word[i], other[i]),
    ensures
        keyword_of(word) == keyword_of(other),
        keyword_of(word) matches Some(k) ==> is_keyword(k),
{
    reveal_strlit("TODO");
    reveal_strlit("FIXME");
    reveal_strlit("HACK");
    reveal_strlit("XXX");
    lemma_spells_ignores_case(word, other, "TODO"@);
    lemma_spells_ignores_case(word, other, "FIXME"@);
    lemma_spells_ignores_case(word, other, "HACK"@);
    lemma_spells_ignores_case(word, other, "XXX"@);
}

/// Two words that differ only by case spell the same upper-case words.
proof fn lemma_spells_ignores_case(word: Seq<char>, other: Seq<char>, keyword: Seq<char>)
    requires
        word.len() == other.len(),
        forall|i: int|
            0 <= i < word.len() ==> case_variant(#[trigger] word[i], other[i]),
        forall|i: int| 0 <= i < keyword.len() ==> 'A' <= #[trigger] keyword[i] <= 'Z',
    ensures
        spells(word, keyword) == spells(other, keyword),
{
    if word.len() == keyword.len() {
        if spells(word, keyword) {
            assert forall|i: int| 0 <= i < other.len() implies same_letter(
                #[trigger] other[i],
                keyword[i],
            ) by {
                assert(same_letter(word[i], keyword[i]));
                assert('A' <= keyword[i] <= 'Z');
            }
        }
        if spells(other, keyword) {
            assert forall|i: int| 0 <= i < word.len() implies same_letter(
                #[trigger] word[i],
                keyword[i],
            ) by {
                assert(same_letter(other[i], keyword[i]));
                assert('A' <= keyword[i] <= 'Z');
            }
        }
    }
}

} // verus!
