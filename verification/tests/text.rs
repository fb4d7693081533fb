use todo_track::text::{
    chars_of, code_point, contains_chars, decimal_text, field_range, is_whitespace, lines,
    matches_at, parse_digits, parse_i64, parse_usize, same_chars, spells_text, string_of,
    text_before_or_same, trim, trim_range,
};

fn chars(s: &str) -> Vec<char> {
    s.chars().collect()
}

#[test]
fn chars_of_spreads_a_string() {
    assert_eq!(chars_of("a\u{e9}\u{1F680}"), vec!['a', '\u{e9}', '\u{1F680}']);
    assert!(chars_of("").is_empty());
    assert_eq!(code_point('A'), 65);
    assert_eq!(code_point('\u{10FFFF}'), 0x10FFFF);
}

#[test]
fn string_of_copies_a_range() {
    let c = chars("hello world");
    assert_eq!(string_of(&c, 0, 5), "hello");
    assert_eq!(string_of(&c, 6, 11), "world");
    assert_eq!(string_of(&c, 3, 3), "");
}

#[test]
fn whitespace_is_that_of_the_standard_library() {
    let mut code: u32 = 0;
    while code <= 0x10FFFF {
        if let Some(c) = char::from_u32(code) {
            assert_eq!(is_whitespace(c), c.is_whitespace(), "U+{:04X}", code);
        }
        code += 1;
    }
}

#[test]
fn trim_is_that_of_the_standard_library() {
    for s in [
        "",
        " ",
        "a",
        "  a  ",
        "\t a b \r\n",
        "\u{a0}x\u{3000}",
        "\u{2003}\u{2028}",
        " \u{1F680} ",
        "x  ",
        "  x",
        "a \u{85} b",
    ] {
        assert_eq!(trim(s), s.trim(), "{:?}", s);
    }
}

#[test]
fn trim_range_trims_inside_a_range() {
    let c = chars("ab  cd  ef");
    assert_eq!(trim_range(&c, 2, 8), (4, 6));
    assert_eq!(trim_range(&c, 2, 4), (4, 4));
    assert_eq!(trim_range(&c, 0, 10), (0, 10));
    assert_eq!(trim_range(&c, 5, 5), (5, 5));
}

#[test]
fn lines_are_those_of_the_standard_library() {
    for s in [
        "",
        "\n",
        "a",
        "a\n",
        "a\nb",
        "a\r\nb\r\n",
        "a\rb\n",
        "foo\nbar\n\r\nbaz\r",
        "\r",
        "\r\n",
        "\n\n\n",
        "x\n\ny",
        "one\r\r\ntwo",
        "tr\u{e9}s\nbien\n",
    ] {
        let expected: Vec<String> = s.lines().map(|l| l.to_string()).collect();
        assert_eq!(lines(s), expected, "{:?}", s);
    }
}

#[test]
fn lines_keep_a_final_carriage_return() {
    assert_eq!(lines("foo\nbar\n\r\nbaz\r"), vec!["foo", "bar", "", "baz\r"]);
}

#[test]
fn substring_search() {
    let hay = chars("a // b");
    assert!(contains_chars(&hay, &chars("//")));
    assert!(contains_chars(&hay, &chars("")));
    assert!(contains_chars(&hay, &chars("a // b")));
    assert!(contains_chars(&hay, &chars(" b")));
    assert!(!contains_chars(&hay, &chars("///")));
    assert!(!contains_chars(&hay, &chars("a // b ")));
    assert!(contains_chars(&chars(""), &chars("")));
    assert!(!contains_chars(&chars(""), &chars("x")));
    assert!(matches_at(&hay, &chars("//"), 2));
    assert!(!matches_at(&hay, &chars("//"), 1));
    assert!(!matches_at(&hay, &chars("b"), 6));
    assert!(matches_at(&hay, &chars(""), 6));
    assert!(!matches_at(&hay, &chars(""), 7));
}

#[test]
fn equality_of_texts() {
    assert!(same_chars(&chars("abc"), &chars("abc")));
    assert!(!same_chars(&chars("abc"), &chars("abd")));
    assert!(!same_chars(&chars("abc"), &chars("ab")));
    assert!(same_chars(&chars(""), &chars("")));
    assert!(spells_text(&chars(".git"), ".git"));
    assert!(!spells_text(&chars(".git"), ".gi"));
}

#[test]
fn fields_are_those_of_split_whitespace() {
    for s in [
        "",
        "   ",
        "a",
        " a b  c ",
        "0123456789abcdef0123456789abcdef01234567 12 34 1",
        "x\ty\u{a0}z",
        "one two",
    ] {
        let c = chars(s);
        let expected: Vec<&str> = s.split_whitespace().collect();
        for k in 0..5 {
            let got = field_range(&c, 0, c.len(), k).map(|(a, b)| string_of(&c, a, b));
            assert_eq!(got.as_deref(), expected.get(k).copied(), "{:?} field {}", s, k);
        }
    }
}

#[test]
fn field_range_stays_inside_its_range() {
    let c = chars("aa bb cc dd");
    assert_eq!(field_range(&c, 3, 8, 0), Some((3, 5)));
    assert_eq!(field_range(&c, 3, 8, 1), Some((6, 8)));
    assert_eq!(field_range(&c, 3, 8, 2), None);
    assert_eq!(field_range(&c, 4, 4, 0), None);
}

#[test]
fn integers_parse_as_in_the_standard_library() {
    for s in [
        "",
        "0",
        "7",
        "42",
        "+42",
        "-42",
        "-0",
        "+0",
        "+",
        "-",
        "+-1",
        "--1",
        "1 ",
        " 1",
        "1a",
        "a1",
        "007",
        "9223372036854775807",
        "9223372036854775808",
        "-9223372036854775808",
        "-9223372036854775809",
        "18446744073709551615",
        "18446744073709551616",
        "99999999999999999999999999",
        "\u{661}\u{662}",
        "1_000",
    ] {
        let c = chars(s);
        assert_eq!(parse_i64(&c, 0, c.len()), s.parse::<i64>().ok(), "i64 {:?}", s);
        assert_eq!(parse_usize(&c, 0, c.len()), s.parse::<usize>().ok(), "usize {:?}", s);
    }
}

#[test]
fn digits_with_a_limit() {
    let c = chars("x255y");
    assert_eq!(parse_digits(&c, 1, 4, 255), Some(255));
    assert_eq!(parse_digits(&c, 1, 4, 254), None);
    assert_eq!(parse_digits(&c, 1, 1, 255), None);
    assert_eq!(parse_digits(&c, 0, 4, 1000), None);
    assert_eq!(parse_digits(&c, 1, 5, 1000), None);
    assert_eq!(parse_digits(&c, 2, 4, 0), None);
    let zero = chars("000");
    assert_eq!(parse_digits(&zero, 0, 3, 0), Some(0));
}

#[test]
fn numbers_are_written_in_base_ten() {
    for n in [0usize, 1, 9, 10, 11, 99, 100, 12345, 1_000_000, usize::MAX] {
        assert_eq!(decimal_text(n), n.to_string());
        let c = chars(&decimal_text(n));
        assert_eq!(parse_usize(&c, 0, c.len()), Some(n));
    }
}

#[test]
fn texts_order_as_strings_do() {
    let samples = [
        "",
        "a",
        "b",
        "ab",
        "abc",
        "B",
        "2024-01-31",
        "2024-02-01",
        "9999-99-99",
        "Unknown",
        "\u{e9}",
        "\u{1F680}",
        "z",
        "src/a.rs",
        "src/a/b.rs",
    ];
    for a in samples {
        for b in samples {
            assert_eq!(text_before_or_same(a, b), a <= b, "{:?} {:?}", a, b);
        }
    }
}
