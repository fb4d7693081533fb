//! Text as sequences of characters: the helpers every other module builds on.
//!
//! Contracts speak of `Seq<char>`, the view of `str` and `String`. Executable
//! code first spreads a string into a `Vec<char>`, so that indexing is cheap,
//! and builds the strings it returns character by character.

use vstd::prelude::*;

verus! {

/// `String::push` of the standard library: `c` is appended to `s`.
#[verifier::external_body]
fn push_char(s: &mut String, c: char)
    ensures
        final(s)@ == old(s)@.push(c),
{
    s.push(c)
}

/// The code point of `c`.
pub fn code_point(c: char) -> (n: u32)
    ensures
        n as int == c as int,
        n <= 0x10FFFF,
{
    c as u32
}

/// The characters of `s`, in order.
pub fn chars_of(s: &str) -> (out: Vec<char>)
    ensures
        out@ == s@,
{
    let mut out: Vec<char> = Vec::new();
    for c in it: s.chars()
        invariant
            out@ == s@.take(it.index() as int),
            it.seq() == s@,
    {
        out.push(c);
    }
    out
}

/// The string made of `chars[from..to]`.
pub fn string_of(chars: &Vec<char>, from: usize, to: usize) -> (out: String)
    requires
        from <= to <= chars.len(),
    ensures
        out@ == chars@.subrange(from as int, to as int),
{
    let mut out = String::new();
    let mut i: usize = from;
    while i < to
        invariant
            from <= i <= to <= chars.len(),
            out@ == chars@.subrange(from as int, i as int),
        decreases to - i,
    {
        push_char(&mut out, chars[i]);
        i += 1;
    }
    out
}

/// Whether `c` has the Unicode property White_Space.
pub open spec fn is_space(c: char) -> bool {
    let n = c as int;
    ||| 0x09 <= n <= 0x0D
    ||| n == 0x20
    ||| n == 0x85
    ||| n == 0xA0
    ||| n == 0x1680
    ||| 0x2000 <= n <= 0x200A
    ||| n == 0x2028
    ||| n == 0x2029
    ||| n == 0x202F
    ||| n == 0x205F
    ||| n == 0x3000
}

/// Executable form of [`is_space`].
pub fn is_whitespace(c: char) -> (b: bool)
    ensures
        b == is_space(c),
{
    let n: u32 = code_point(c);
    (0x09 <= n && n <= 0x0D) || n == 0x20 || n == 0x85 || n == 0xA0 || n == 0x1680 || (0x2000 <= n
        && n <= 0x200A) || n == 0x2028 || n == 0x2029 || n == 0x202F || n == 0x205F || n == 0x3000
}

/// `s` without its leading white space.
pub open spec fn trim_start(s: Seq<char>) -> Seq<char>
    decreases s.len(),
{
    if s.len() > 0 && is_space(s[0]) {
        trim_start(s.drop_first())
    } else {
        s
    }
}

/// `s` without its trailing white space.
pub open spec fn trim_end(s: Seq<char>) -> Seq<char>
    decreases s.len(),
{
    if s.len() > 0 && is_space(s.last()) {
        trim_end(s.drop_last())
    } else {
        s
    }
}

/// `s` without leading and trailing white space.
pub open spec fn trimmed(s: Seq<char>) -> Seq<char> {
    trim_end(trim_start(s))
}

/// `trim_start` drops exactly the longest prefix of white space.
pub proof fn lemma_trim_start_is_suffix(s: Seq<char>, a: int)
    requires
        0 <= a <= s.len(),
        forall|i: int| 0 <= i < a ==> is_space(#[trigger] s[i]),
        a < s.len() ==> !is_space(s[a]),
    ensures
        trim_start(s) == s.subrange(a, s.len() as int),
    decreases a,
{
    if a == 0 {
        assert(s.subrange(0, s.len() as int) =~= s);
    } else {
        let t = s.drop_first();
        assert forall|i: int| 0 <= i < a - 1 implies is_space(#[trigger] t[i]) by {
            assert(t[i] == s[i + 1]);
        }
        lemma_trim_start_is_suffix(t, a - 1);
        assert(t.subrange(a - 1, t.len() as int) =~= s.subrange(a, s.len() as int));
    }
}

/// `trim_end` drops exactly the longest suffix of white space.
pub proof fn lemma_trim_end_is_prefix(s: Seq<char>, b: int)
    requires
        0 <= b <= s.len(),
        forall|i: int| b <= i < s.len() ==> is_space(#[trigger] s[i]),
        0 < b ==> !is_space(s[b - 1]),
    ensures
        trim_end(s) == s.subrange(0, b),
    decreases s.len() - b,
{
    if b == s.len() {
        assert(s.subrange(0, b) =~= s);
    } else {
        let t = s.drop_last();
        assert forall|i: int| b <= i < t.len() implies is_space(#[trigger] t[i]) by {
            assert(t[i] == s[i]);
        }
        lemma_trim_end_is_prefix(t, b);
        assert(t.subrange(0, b) =~= s.subrange(0, b));
    }
}

/// The bounds `(from, to)` of what `trimmed` keeps of `chars[lo..hi]`.
pub fn trim_range(chars: &Vec<char>, lo: usize, hi: usize) -> (r: (usize, usize))
    requires
        lo <= hi <= chars.len(),
    ensures
        lo <= r.0 <= r.1 <= hi,
        chars@.subrange(r.0 as int, r.1 as int) == trimmed(chars@.subrange(lo as int, hi as int)),
{
    let ghost s = chars@.subrange(lo as int, hi as int);
    let mut from: usize = lo;
    while from < hi && is_whitespace(chars[from])
        invariant
            lo <= from <= hi <= chars.len(),
            forall|i: int| lo <= i < from ==> is_space(#[trigger] chars@[i]),
        decreases hi - from,
    {
        from += 1;
    }
    let mut to: usize = hi;
    while to > from && is_whitespace(chars[to - 1])
        invariant
            from <= to <= hi <= chars.len(),
            forall|i: int| to <= i < hi ==> is_space(#[trigger] chars@[i]),
        decreases to - from,
    {
        to -= 1;
    }
    proof {
        assert forall|i: int| 0 <= i < from - lo implies is_space(#[trigger] s[i]) by {
            assert(s[i] == chars@[lo + i]);
        }
        lemma_trim_start_is_suffix(s, from - lo);
        let t = s.subrange(from - lo, s.len() as int);
        assert(t =~= chars@.subrange(from as int, hi as int));
        assert forall|i: int| to - from <= i < t.len() implies is_space(#[trigger] t[i]) by {
            assert(t[i] == chars@[from + i]);
        }
        lemma_trim_end_is_prefix(t, to - from);
        assert(t.subrange(0, to - from) =~= chars@.subrange(from as int, to as int));
    }
    (from, to)
}

/// `s` without leading and trailing white space, as `str::trim` gives it.
pub fn trim(s: &str) -> (out: String)
    ensures
        out@ == trimmed(s@),
{
    let chars = chars_of(s);
    let (from, to) = trim_range(&chars, 0, chars.len());
    proof {
        assert(chars@.subrange(0, chars.len() as int) =~= chars@);
    }
    string_of(&chars, from, to)
}

/// Whether `needle` stands in `hay` at index `i`.
pub open spec fn occurs_at(hay: Seq<char>, needle: Seq<char>, i: int) -> bool {
    &&& 0 <= i
    &&& i + needle.len() <= hay.len()
    &&& hay.subrange(i, i + needle.len()) == needle
}

/// Whether `needle` is a contiguous part of `hay`.
pub open spec fn contains(hay: Seq<char>, needle: Seq<char>) -> bool {
    exists|i: int| occurs_at(hay, needle, i)
}

/// Whether `s` begins with `prefix`.
pub open spec fn has_prefix(s: Seq<char>, prefix: Seq<char>) -> bool {
    occurs_at(s, prefix, 0)
}

/// Whether `needle` stands in `hay` at index `at`.
pub fn matches_at(hay: &Vec<char>, needle: &Vec<char>, at: usize) -> (b: bool)
    ensures
        b == occurs_at(hay@, needle@, at as int),
{
    if needle.len() > hay.len() || at > hay.len() - needle.len() {
        return false;
    }
    let mut k: usize = 0;
    while k < needle.len()
        invariant
            k <= needle.len(),
            at + needle.len() <= hay.len(),
            forall|j: int| 0 <= j < k ==> hay@[at + j] == needle@[j],
        decreases needle.len() - k,
    {
        if hay[at + k] != needle[k] {
            proof {
                let part = hay@.subrange(at as int, at + needle.len());
                assert(part[k as int] != needle@[k as int]);
            }
            return false;
        }
        k += 1;
    }
    proof {
        assert(hay@.subrange(at as int, at + needle.len()) =~= needle@);
    }
    true
}

/// Whether the two hold the same characters.
pub fn same_chars(a: &Vec<char>, b: &Vec<char>) -> (b_eq: bool)
    ensures
        b_eq == (a@ == b@),
{
    if a.len() != b.len() {
        return false;
    }
    let found = matches_at(a, b, 0);
    proof {
        assert(a@.subrange(0, a.len() as int) =~= a@);
    }
    found
}

/// Whether `chars` spells `text`.
pub fn spells_text(chars: &Vec<char>, text: &str) -> (b: bool)
    ensures
        b == (chars@ == text@),
{
    let other = chars_of(text);
    same_chars(chars, &other)
}

/// Whether `needle` is a contiguous part of `hay`, as `str::contains` tells.
pub fn contains_chars(hay: &Vec<char>, needle: &Vec<char>) -> (b: bool)
    ensures
        b == contains(hay@, needle@),
{
    if needle.len() > hay.len() {
        return false;
    }
    let last: usize = hay.len() - needle.len();
    let mut i: usize = 0;
    loop
        invariant
            i <= last,
            last == hay.len() - needle.len(),
            forall|j: int| 0 <= j < i ==> !occurs_at(hay@, needle@, j),
        decreases last - i,
    {
        if matches_at(hay, needle, i) {
            return true;
        }
        if i == last {
            return false;
        }
        i += 1;
    }
}

/// How many characters stand before the first line feed of `s`: all of them
/// where it holds none.
pub open spec fn line_len(s: Seq<char>) -> nat
    decreases s.len(),
{
    if s.len() == 0 || s[0] == '\n' {
        0
    } else {
        1 + line_len(s.drop_first())
    }
}

/// `s` without one final carriage return.
pub open spec fn without_cr(s: Seq<char>) -> Seq<char> {
    if s.len() > 0 && s.last() == '\r' {
        s.drop_last()
    } else {
        s
    }
}

/// The lines of `s`, as `str::lines` yields them. A line ends at a line feed,
/// and a carriage return just before that line feed belongs to the ending.
/// What follows the last line feed is a line if it is not empty, and keeps a
/// carriage return at its end.
pub open spec fn lines_of(s: Seq<char>) -> Seq<Seq<char>>
    decreases s.len(),
{
    if s.len() == 0 {
        Seq::empty()
    } else {
        let n = line_len(s) as int;
        if n < s.len() {
            seq![without_cr(s.take(n))] + lines_of(s.skip(n + 1))
        } else {
            seq![s]
        }
    }
}

/// `line_len` is the distance to the first line feed.
pub proof fn lemma_line_len(s: Seq<char>, n: int)
    requires
        0 <= n <= s.len(),
        forall|i: int| 0 <= i < n ==> #[trigger] s[i] != '\n',
        n < s.len() ==> s[n] == '\n',
    ensures
        line_len(s) == n,
    decreases n,
{
    if n > 0 {
        let t = s.drop_first();
        assert forall|i: int| 0 <= i < n - 1 implies #[trigger] t[i] != '\n' by {
            assert(t[i] == s[i + 1]);
        }
        lemma_line_len(t, n - 1);
    }
}

/// The lines of `content`, as `str::lines` yields them.
pub fn lines(content: &str) -> (out: Vec<String>)
    ensures
        out.deep_view() == lines_of(content@),
{
    let chars = chars_of(content);
    let mut out: Vec<String> = Vec::new();
    let ghost mut done: Seq<Seq<char>> = Seq::empty();
    let mut pos: usize = 0;
    proof {
        assert(chars@.skip(0) =~= chars@);
    }
    while pos < chars.len()
        invariant
            pos <= chars.len(),
            chars@ == content@,
            done.len() == out.len(),
            forall|k: int| 0 <= k < out.len() ==> (#[trigger] out[k])@ == done[k],
            lines_of(chars@) == done + lines_of(chars@.skip(pos as int)),
        decreases chars.len() - pos,
    {
        let mut end: usize = pos;
        while end < chars.len() && chars[end] != '\n'
            invariant
                pos <= end <= chars.len(),
                forall|i: int| pos <= i < end ==> #[trigger] chars@[i] != '\n',
            decreases chars.len() - end,
        {
            end += 1;
        }
        let ghost rest = chars@.skip(pos as int);
        proof {
            assert forall|i: int| 0 <= i < end - pos implies #[trigger] rest[i] != '\n' by {
                assert(rest[i] == chars@[pos + i]);
            }
            lemma_line_len(rest, end - pos);
            assert(rest.take(end - pos) =~= chars@.subrange(pos as int, end as int));
        }
        if end < chars.len() {
            let stop: usize = if end > pos && chars[end - 1] == '\r' {
                end - 1
            } else {
                end
            };
            let line = string_of(&chars, pos, stop);
            proof {
                let whole = chars@.subrange(pos as int, end as int);
                assert(line@ =~= without_cr(whole));
                assert(rest.skip(end - pos + 1) =~= chars@.skip(end + 1));
                assert(done + (seq![line@] + lines_of(chars@.skip(end + 1))) =~= done.push(line@)
                    + lines_of(chars@.skip(end + 1)));
                done = done.push(line@);
            }
            out.push(line);
            pos = end + 1;
        } else {
            let line = string_of(&chars, pos, end);
            proof {
                assert(rest =~= chars@.subrange(pos as int, end as int));
                assert(chars@.skip(end as int).len() == 0);
                assert(done + seq![line@] =~= done.push(line@) + lines_of(
                    chars@.skip(end as int),
                ));
                done = done.push(line@);
            }
            out.push(line);
            pos = end;
        }
    }
    proof {
        assert(chars@.skip(pos as int).len() == 0);
        assert(out.deep_view() =~= done);
        assert(done + Seq::<Seq<char>>::empty() =~= done);
    }
    out
}

/// How many characters stand before the first white space of `s`: all of
/// them where it holds none.
pub open spec fn word_len(s: Seq<char>) -> nat
    decreases s.len(),
{
    if s.len() == 0 || is_space(s[0]) {
        0
    } else {
        1 + word_len(s.drop_first())
    }
}

/// Field `k` of `s`, counted from 0, where fields are the runs of characters
/// that white space parts, as `str::split_whitespace` yields them.
pub open spec fn field(s: Seq<char>, k: nat) -> Option<Seq<char>>
    decreases k,
{
    let t = trim_start(s);
    if t.len() == 0 {
        None
    } else if k == 0 {
        Some(t.take(word_len(t) as int))
    } else {
        field(t.skip(word_len(t) as int), (k - 1) as nat)
    }
}

/// `word_len` is the distance to the first white space.
pub proof fn lemma_word_len(s: Seq<char>, n: int)
    requires
        0 <= n <= s.len(),
        forall|i: int| 0 <= i < n ==> !is_space(#[trigger] s[i]),
        n < s.len() ==> is_space(s[n]),
    ensures
        word_len(s) == n,
    decreases n,
{
    if n > 0 {
        let t = s.drop_first();
        assert forall|i: int| 0 <= i < n - 1 implies !is_space(#[trigger] t[i]) by {
            assert(t[i] == s[i + 1]);
        }
        lemma_word_len(t, n - 1);
    }
}

/// The bounds of field `k` of `chars[lo..hi]`.
pub fn field_range(chars: &Vec<char>, lo: usize, hi: usize, k: usize) -> (r: Option<
    (usize, usize),
>)
    requires
        lo <= hi <= chars.len(),
    ensures
        match r {
            Some((from, to)) => lo <= from <= to <= hi && field(
                chars@.subrange(lo as int, hi as int),
                k as nat,
            ) == Some(chars@.subrange(from as int, to as int)),
            None => field(chars@.subrange(lo as int, hi as int), k as nat) is None,
        },
{
    let mut pos: usize = lo;
    let mut left: usize = k;
    loop
        invariant
            lo <= pos <= hi <= chars.len(),
            left <= k,
            field(chars@.subrange(lo as int, hi as int), k as nat) == field(
                chars@.subrange(pos as int, hi as int),
                left as nat,
            ),
        decreases left,
    {
        let ghost s = chars@.subrange(pos as int, hi as int);
        let mut from: usize = pos;
        while from < hi && is_whitespace(chars[from])
            invariant
                pos <= from <= hi <= chars.len(),
                forall|i: int| pos <= i < from ==> is_space(#[trigger] chars@[i]),
            decreases hi - from,
        {
            from += 1;
        }
        let mut to: usize = from;
        while to < hi && !is_whitespace(chars[to])
            invariant
                from <= to <= hi <= chars.len(),
                forall|i: int| from <= i < to ==> !is_space(#[trigger] chars@[i]),
            decreases hi - to,
        {
            to += 1;
        }
        let ghost t = chars@.subrange(from as int, hi as int);
        proof {
            assert forall|i: int| 0 <= i < from - pos implies is_space(#[trigger] s[i]) by {
                assert(s[i] == chars@[pos + i]);
            }
            lemma_trim_start_is_suffix(s, from - pos);
            assert(s.subrange(from - pos, s.len() as int) =~= t);
            assert forall|i: int| 0 <= i < to - from implies !is_space(#[trigger] t[i]) by {
                assert(t[i] == chars@[from + i]);
            }
            lemma_word_len(t, to - from);
            assert(t.take(to - from) =~= chars@.subrange(from as int, to as int));
            assert(t.skip(to - from) =~= chars@.subrange(to as int, hi as int));
        }
        if from == hi {
            return None;
        }
        if left == 0 {
            return Some((from, to));
        }
        left -= 1;
        pos = to;
    }
}

/// Whether `c` is one of the digits `0` to `9`.
pub open spec fn is_digit(c: char) -> bool {
    '0' <= c <= '9'
}

/// Whether `s` is made of digits only.
pub open spec fn all_digits(s: Seq<char>) -> bool {
    forall|i: int| 0 <= i < s.len() ==> is_digit(#[trigger] s[i])
}

/// The number that the digits `s` write in base ten.
pub open spec fn digits_value(s: Seq<char>) -> nat
    decreases s.len(),
{
    if s.len() == 0 {
        0
    } else {
        (digits_value(s.drop_last()) * 10 + (s.last() as int - '0' as int)) as nat
    }
}

/// The integer that `s` writes: an optional sign and at least one digit.
pub open spec fn decimal(s: Seq<char>) -> Option<int> {
    if s.len() > 0 && (s[0] == '+' || s[0] == '-') {
        let digits = s.skip(1);
        if digits.len() > 0 && all_digits(digits) {
            Some(
                if s[0] == '-' {
                    -(digits_value(digits) as int)
                } else {
                    digits_value(digits) as int
                },
            )
        } else {
            None
        }
    } else if s.len() > 0 && all_digits(s) {
        Some(digits_value(s) as int)
    } else {
        None
    }
}

/// What `str::parse::<i64>` makes of `s`: the integer it writes, where that
/// fits.
pub open spec fn parsed_i64(s: Seq<char>) -> Option<i64> {
    match decimal(s) {
        Some(v) if i64::MIN <= v <= i64::MAX => Some(v as i64),
        _ => None,
    }
}

/// What `str::parse::<usize>` makes of `s`: the integer it writes, where it
/// has no minus sign and fits.
pub open spec fn parsed_usize(s: Seq<char>) -> Option<usize> {
    match decimal(s) {
        Some(v) if !(s.len() > 0 && s[0] == '-') && v <= usize::MAX => Some(v as usize),
        _ => None,
    }
}

/// More digits never write a smaller number.
pub proof fn lemma_digits_value_grows(s: Seq<char>, n: int)
    requires
        0 <= n <= s.len(),
        all_digits(s),
    ensures
        digits_value(s.take(n)) <= digits_value(s),
    decreases s.len() - n,
{
    if n < s.len() {
        lemma_digits_value_grows(s, n + 1);
        assert(s.take(n + 1).drop_last() =~= s.take(n));
        assert(is_digit(s[n]));
    } else {
        assert(s.take(n) =~= s);
    }
}

/// The number that the digits `chars[lo..hi]` write, where there is at least
/// one, all are digits, and the number is at most `limit`.
pub fn parse_digits(chars: &Vec<char>, lo: usize, hi: usize, limit: u64) -> (r: Option<u64>)
    requires
        lo <= hi <= chars.len(),
    ensures
        ({
            let s = chars@.subrange(lo as int, hi as int);
            r == if s.len() > 0 && all_digits(s) && digits_value(s) <= limit {
                Some(digits_value(s) as u64)
            } else {
                None
            }
        }),
{
    let ghost s = chars@.subrange(lo as int, hi as int);
    if lo == hi {
        return None;
    }
    let mut value: u64 = 0;
    let mut i: usize = lo;
    while i < hi
        invariant
            lo <= i <= hi <= chars.len(),
            s == chars@.subrange(lo as int, hi as int),
            all_digits(s.take(i - lo)),
            value == digits_value(s.take(i - lo)),
            value <= limit,
        decreases hi - i,
    {
        let c: u32 = code_point(chars[i]);
        proof {
            assert(s[i - lo] == chars@[i as int]);
            assert(s.take(i - lo + 1).drop_last() =~= s.take(i - lo));
        }
        if c < 0x30 || c > 0x39 {
            assert(!is_digit(s[i - lo]));
            return None;
        }
        let d: u64 = (c - 0x30) as u64;
        assert forall|j: int| 0 <= j < i - lo + 1 implies is_digit(
            #[trigger] s.take(i - lo + 1)[j],
        ) by {
            if j < i - lo {
                assert(s.take(i - lo)[j] == s[j]);
            }
        }
        if d > limit || value > (limit - d) / 10 {
            proof {
                let more = s.take(i - lo + 1);
                assert(digits_value(more) == value * 10 + d);
                assert(digits_value(more) > limit);
                if all_digits(s) {
                    lemma_digits_value_grows(s, i - lo + 1);
                }
            }
            return None;
        }
        value = value * 10 + d;
        i += 1;
    }
    proof {
        assert(s.take(hi - lo) =~= s);
    }
    Some(value)
}

/// The `i64` that `chars[lo..hi]` writes, as `str::parse::<i64>` reads it.
pub fn parse_i64(chars: &Vec<char>, lo: usize, hi: usize) -> (r: Option<i64>)
    requires
        lo <= hi <= chars.len(),
    ensures
        r == parsed_i64(chars@.subrange(lo as int, hi as int)),
{
    let ghost s = chars@.subrange(lo as int, hi as int);
    if lo == hi {
        return None;
    }
    let first: char = chars[lo];
    proof {
        assert(s[0] == first);
    }
    if first == '-' {
        proof {
            assert(s.skip(1) =~= chars@.subrange(lo + 1, hi as int));
        }
        match parse_digits(chars, lo + 1, hi, 0x8000_0000_0000_0000) {
            Some(v) => {
                if v == 0x8000_0000_0000_0000 {
                    Some(i64::MIN)
                } else {
                    Some(-(v as i64))
                }
            },
            None => None,
        }
    } else if first == '+' {
        proof {
            assert(s.skip(1) =~= chars@.subrange(lo + 1, hi as int));
        }
        match parse_digits(chars, lo + 1, hi, 0x7FFF_FFFF_FFFF_FFFF) {
            Some(v) => Some(v as i64),
            None => None,
        }
    } else {
        proof {
            if all_digits(s) {
                assert(is_digit(s[0]));
            }
        }
        match parse_digits(chars, lo, hi, 0x7FFF_FFFF_FFFF_FFFF) {
            Some(v) => Some(v as i64),
            None => None,
        }
    }
}

/// The `usize` that `chars[lo..hi]` writes, as `str::parse::<usize>` reads it.
pub fn parse_usize(chars: &Vec<char>, lo: usize, hi: usize) -> (r: Option<usize>)
    requires
        lo <= hi <= chars.len(),
    ensures
        r == parsed_usize(chars@.subrange(lo as int, hi as int)),
{
    let ghost s = chars@.subrange(lo as int, hi as int);
    if lo == hi {
        return None;
    }
    let first: char = chars[lo];
    proof {
        assert(s[0] == first);
    }
    if first == '-' {
        None
    } else if first == '+' {
        proof {
            assert(s.skip(1) =~= chars@.subrange(lo + 1, hi as int));
        }
        match parse_digits(chars, lo + 1, hi, usize::MAX as u64) {
            Some(v) => Some(v as usize),
            None => None,
        }
    } else {
        proof {
            if all_digits(s) {
                assert(is_digit(s[0]));
            }
        }
        match parse_digits(chars, lo, hi, usize::MAX as u64) {
            Some(v) => Some(v as usize),
            None => None,
        }
    }
}

/// The digit that writes `d`, for `d` below ten.
pub open spec fn digit_char(d: nat) -> char {
    ('0' as int + d) as char
}

/// `n` written in base ten, without sign or leading zeros.
pub open spec fn decimal_of(n: nat) -> Seq<char>
    decreases n,
{
    if n < 10 {
        seq![digit_char(n)]
    } else {
        decimal_of(n / 10).push(digit_char(n % 10))
    }
}

/// The digit that writes `d`.
fn digit(d: usize) -> (c: char)
    requires
        d < 10,
    ensures
        c == digit_char(d as nat),
{
    match d {
        0 => '0',
        1 => '1',
        2 => '2',
        3 => '3',
        4 => '4',
        5 => '5',
        6 => '6',
        7 => '7',
        8 => '8',
        _ => '9',
    }
}

/// Appends `n`, written in base ten, to `out`.
pub fn push_decimal(out: &mut String, n: usize)
    ensures
        final(out)@ == old(out)@ + decimal_of(n as nat),
    decreases n,
{
    if n >= 10 {
        push_decimal(out, n / 10);
    }
    push_char(out, digit(n % 10));
    proof {
        if n < 10 {
            assert(old(out)@.push(digit_char(n as nat)) =~= old(out)@ + decimal_of(n as nat));
        } else {
            assert((old(out)@ + decimal_of((n / 10) as nat)).push(digit_char((n % 10) as nat))
                =~= old(out)@ + decimal_of(n as nat));
        }
    }
}

/// `n` written in base ten.
pub fn decimal_text(n: usize) -> (out: String)
    ensures
        out@ == decimal_of(n as nat),
{
    let mut out = String::new();
    push_decimal(&mut out, n);
    proof {
        assert(Seq::<char>::empty() + decimal_of(n as nat) =~= decimal_of(n as nat));
    }
    out
}

/// What is written in base ten reads back as the same number.
pub proof fn lemma_decimal_reads_back(n: nat)
    ensures
        decimal_of(n).len() > 0,
        all_digits(decimal_of(n)),
        digits_value(decimal_of(n)) == n,
        decimal(decimal_of(n)) == Some(n as int),
        n <= usize::MAX ==> parsed_usize(decimal_of(n)) == Some(n as usize),
    decreases n,
{
    let text = decimal_of(n);
    if n < 10 {
        assert(text.drop_last() =~= Seq::<char>::empty());
        assert(digits_value(text.drop_last()) == 0);
    } else {
        lemma_decimal_reads_back(n / 10);
        assert(text.drop_last() =~= decimal_of(n / 10));
        assert forall|i: int| 0 <= i < text.len() implies is_digit(#[trigger] text[i]) by {
            if i < text.len() - 1 {
                assert(text[i] == decimal_of(n / 10)[i]);
            }
        }
    }
    assert(is_digit(text[0]));
}

/// Whether `a` comes before `b`, or is `b`, in the order of `str`: character
/// by character, by code point; a text comes after its proper prefixes.
pub open spec fn text_le(a: Seq<char>, b: Seq<char>) -> bool
    decreases a.len(),
{
    if a.len() == 0 {
        true
    } else if b.len() == 0 {
        false
    } else if a[0] != b[0] {
        (a[0] as int) < (b[0] as int)
    } else {
        text_le(a.drop_first(), b.drop_first())
    }
}

/// Of two texts, one comes before the other or they are the same.
pub proof fn lemma_text_le_total(a: Seq<char>, b: Seq<char>)
    ensures
        text_le(a, b) || text_le(b, a),
        text_le(a, b) && text_le(b, a) ==> a == b,
        text_le(a, a),
    decreases a.len(),
{
    if a.len() > 0 {
        lemma_text_le_total(a.drop_first(), a.drop_first());
    }
    if a.len() > 0 && b.len() > 0 && a[0] == b[0] {
        lemma_text_le_total(a.drop_first(), b.drop_first());
        if text_le(a, b) && text_le(b, a) {
            assert(a =~= seq![a[0]] + a.drop_first());
            assert(b =~= seq![b[0]] + b.drop_first());
        }
    } else if a.len() == 0 && b.len() == 0 {
        assert(a =~= b);
    }
}

/// The order of texts is transitive.
pub proof fn lemma_text_le_transitive(a: Seq<char>, b: Seq<char>, c: Seq<char>)
    requires
        text_le(a, b),
        text_le(b, c),
    ensures
        text_le(a, c),
    decreases a.len(),
{
    if a.len() > 0 && b.len() > 0 && c.len() > 0 && a[0] == b[0] && b[0] == c[0] {
        lemma_text_le_transitive(a.drop_first(), b.drop_first(), c.drop_first());
    }
}

/// Whether `a` comes before `b`, or is `b`, in the order of `str`.
pub fn text_before_or_same(a: &str, b: &str) -> (r: bool)
    ensures
        r == text_le(a@, b@),
{
    let x = chars_of(a);
    let y = chars_of(b);
    let mut i: usize = 0;
    proof {
        assert(x@.skip(0) =~= x@);
        assert(y@.skip(0) =~= y@);
    }
    while i < x.len() && i < y.len()
        invariant
            i <= x.len(),
            i <= y.len(),
            x@ == a@,
            y@ == b@,
            text_le(x@, y@) == text_le(x@.skip(i as int), y@.skip(i as int)),
        decreases x.len() - i,
    {
        let p: char = x[i];
        let q: char = y[i];
        proof {
            assert(x@.skip(i as int)[0] == p);
            assert(y@.skip(i as int)[0] == q);
            assert(x@.skip(i as int).drop_first() =~= x@.skip(i + 1));
            assert(y@.skip(i as int).drop_first() =~= y@.skip(i + 1));
        }
        if p != q {
            assert(text_le(x@.skip(i as int), y@.skip(i as int)) == ((p as int) < (q as int)));
            return code_point(p) < code_point(q);
        }
        i += 1;
    }
    i == x.len()
}

} // verus!
