use modelator::order::{place_of, Place};
use modelator::text::{
    chars_of, concat2, concat3, contains_text, decimal_string, find_char_from, has_prefix,
    has_suffix, push_decimal, push_flattened, push_joined, read_number, slice_of, space,
    split_lines, split_trimmed, str_contains, string_of, strip_ends_len, strip_starts_at,
    to_ascii_lower, trim_bounds,
};

fn chars(text: &str) -> Vec<char> {
    text.chars().collect()
}

fn lines(text: &str) -> Vec<String> {
    split_lines(&chars(text))
        .iter()
        .map(|line| line.iter().collect())
        .collect()
}

#[test]
fn lines_are_split_as_the_standard_library_splits_them() {
    for text in [
        "",
        "\n",
        "a",
        "a\n",
        "a\nb",
        "a\r\nb\r\n",
        "a\rb\n",
        "a\r",
        "\r\n\r\n",
        "\n\na\n\n",
        "a\n\r",
        "one\ntwo\r\n\r\nthree\r",
    ] {
        let expected: Vec<String> = text.lines().map(|l| l.to_string()).collect();
        assert_eq!(lines(text), expected, "for {:?}", text);
    }
    assert_eq!(lines("a\r\nb\nc"), vec!["a", "b", "c"]);
}

#[test]
fn characters_and_strings() {
    assert_eq!(chars_of("añ€😀"), chars("añ€😀"));
    assert_eq!(string_of(&chars("hello"), 1, 3), "el");
    assert_eq!(string_of(&chars("hello"), 2, 2), "");
    assert_eq!(slice_of(&chars("hello"), 0, 5), chars("hello"));
    assert_eq!(find_char_from(&chars("a:b:c"), 0, ':'), 1);
    assert_eq!(find_char_from(&chars("a:b:c"), 2, ':'), 1);
    assert_eq!(find_char_from(&chars("a:b:c"), 4, ':'), 1);
    assert_eq!(find_char_from(&chars("abc"), 3, ':'), 0);
    assert_eq!(concat2("a", "b"), "ab");
    assert_eq!(concat3("a", "", "c"), "ac");
}

#[test]
fn prefixes_suffixes_and_parts() {
    assert!(has_prefix(&chars("abc"), &chars("ab")));
    assert!(has_prefix(&chars("abc"), &chars("")));
    assert!(!has_prefix(&chars("ab"), &chars("abc")));
    assert!(!has_prefix(&chars("abc"), &chars("b")));
    assert!(has_suffix(&chars("abc"), &chars("bc")));
    assert!(has_suffix(&chars("abc"), &chars("")));
    assert!(!has_suffix(&chars("bc"), &chars("abc")));
    assert!(contains_text(&chars("hello"), &chars("ll")));
    assert!(contains_text(&chars("hello"), &chars("")));
    assert!(contains_text(&chars(""), &chars("")));
    assert!(contains_text(&chars("hello"), &chars("hello")));
    assert!(!contains_text(&chars("hello"), &chars("hello!")));
    assert!(!contains_text(&chars("hello"), &chars("lo!")));
    assert!(str_contains("EXITCODE: OK", "CODE"));
    assert_eq!(strip_ends_len(&chars("a.tla.tla"), &chars(".tla")), 1);
    assert_eq!(strip_ends_len(&chars(".tla"), &chars(".tla")), 0);
    assert_eq!(strip_ends_len(&chars("a.tla"), &chars("")), 5);
    assert_eq!(strip_starts_at(&chars("ababc"), &chars("ab")), 4);
    assert_eq!(strip_starts_at(&chars("abc"), &chars("b")), 0);
    let parts: Vec<String> = split_trimmed(&chars(" a , b,,c "), ',')
        .iter()
        .map(|p| p.iter().collect())
        .collect();
    assert_eq!(parts, vec!["a", "b", "", "c"]);
    let one: Vec<String> = split_trimmed(&chars(""), ',')
        .iter()
        .map(|p| p.iter().collect())
        .collect();
    assert_eq!(one, vec![""]);
}

#[test]
fn white_space_is_that_of_unicode() {
    for code in 0..0x11_0000u32 {
        if let Some(c) = char::from_u32(code) {
            assert_eq!(space(c), c.is_whitespace(), "for {:?}", c);
        }
    }
    for text in ["", " ", " a ", "\t\na b\u{3000}\r", "a", "\u{a0}x\u{2003}"] {
        let v = chars(text);
        let (from, to) = trim_bounds(&v);
        let trimmed: String = v[from..to].iter().collect();
        assert_eq!(trimmed, text.trim());
    }
    let mut out = chars(">");
    push_flattened(&mut out, &chars("\n a\nb \n"));
    assert_eq!(out, chars(">a b"));
}

#[test]
fn numbers() {
    assert_eq!(read_number(&chars("x123y"), 1, 4, usize::MAX), Some(123));
    assert_eq!(read_number(&chars("255"), 0, 3, 255), Some(255));
    assert_eq!(read_number(&chars("256"), 0, 3, 255), None);
    assert_eq!(read_number(&chars("0256"), 0, 4, 255), None);
    assert_eq!(read_number(&chars("000"), 0, 3, 0), Some(0));
    assert_eq!(read_number(&chars("+7"), 0, 2, 9), Some(7));
    assert_eq!(read_number(&chars("+"), 0, 1, 9), None);
    assert_eq!(read_number(&chars("++7"), 0, 3, 9), None);
    assert_eq!(read_number(&chars("-7"), 0, 2, 9), None);
    assert_eq!(read_number(&chars("7 "), 0, 2, 9), None);
    assert_eq!(read_number(&chars(""), 0, 0, 9), None);
    let max = usize::MAX.to_string();
    assert_eq!(read_number(&chars(&max), 0, max.len(), usize::MAX), Some(usize::MAX));
    let more = format!("{}0", max);
    assert_eq!(read_number(&chars(&more), 0, more.len(), usize::MAX), None);
    assert_eq!(decimal_string(0), "0");
    assert_eq!(decimal_string(9), "9");
    assert_eq!(decimal_string(10), "10");
    assert_eq!(decimal_string(usize::MAX), usize::MAX.to_string());
    let mut out = chars("n=");
    push_decimal(&mut out, 1203);
    assert_eq!(out, chars("n=1203"));
}

#[test]
fn lower_case_and_joins() {
    assert_eq!(to_ascii_lower("TLC-Ñ z@[`{"), chars("tlc-Ñ z@[`{"));
    let items = vec!["a".to_string(), "b".to_string()];
    let mut out = Vec::new();
    push_joined(&mut out, &items, "<", Some("|"), ">", ", ");
    assert_eq!(out, chars("<a|a>, <b|b>"));
    let mut out = Vec::new();
    push_joined(&mut out, &items, "", None, "'", ";");
    assert_eq!(out, chars("a';b'"));
    let mut out = chars("x");
    push_joined(&mut out, &Vec::new(), "<", None, ">", ", ");
    assert_eq!(out, chars("x"));
}

#[test]
fn texts_are_in_the_order_of_strings() {
    let texts = ["", "a", "ab", "b", "B", "é", "z", "a\u{10000}", "a\u{ffff}", "aa"];
    for x in texts {
        for y in texts {
            let expected = if x < y {
                Place::Before
            } else if x == y {
                Place::Same
            } else {
                Place::Behind
            };
            assert_eq!(place_of(&chars(x), &chars(y)), expected, "{:?} {:?}", x, y);
        }
    }
}
