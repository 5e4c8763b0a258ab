//! Text functions, held against those of the standard library.

use confaudit::text;

fn chars(s: &str) -> Vec<char> {
    s.chars().collect()
}

fn strings(parts: &[&[char]]) -> Vec<String> {
    parts.iter().map(|p| p.iter().collect()).collect()
}

const SAMPLES: [&str; 12] = [
    "",
    "plain",
    "  padded\t",
    "two words",
    "a,b,,c,",
    "one\ntwo\r\n\nthree\r",
    "line\n",
    "\u{a0}wide\u{3000}space\u{2028}",
    "MiXeD \u{e9} CASE",
    "++-^list+",
    "a\u{b}b\u{c}c\u{85}d",
    "\r\n\r\n",
];

#[test]
fn white_space_is_that_of_unicode() {
    for c in '\0'..=char::MAX {
        assert_eq!(text::white_space(c), c.is_whitespace(), "{:?}", c);
    }
}

#[test]
fn trimming_agrees_with_std() {
    for s in SAMPLES {
        let t = chars(s);
        assert_eq!(text::trim(&t), chars(s.trim()).as_slice());
        assert_eq!(text::trim_start(&t), chars(s.trim_start()).as_slice());
        assert_eq!(text::trim_end(&t), chars(s.trim_end()).as_slice());
        let set = ['+', '-', '^'];
        assert_eq!(text::strip_start(&t, &set), chars(s.trim_start_matches(set)).as_slice());
        assert_eq!(text::strip_end(&t, &set), chars(s.trim_end_matches(set)).as_slice());
    }
}

#[test]
fn splitting_agrees_with_std() {
    for s in SAMPLES {
        let t = chars(s);
        assert_eq!(strings(&text::lines(&t)), s.lines().collect::<Vec<_>>());
        assert_eq!(strings(&text::split(&t, ',')), s.split(',').collect::<Vec<_>>());
        assert_eq!(strings(&text::words(&t)), s.split_whitespace().collect::<Vec<_>>());
    }
}

#[test]
fn searching_agrees_with_std() {
    for s in SAMPLES {
        let t = chars(s);
        for p in ["", "a", "two", "\r\n", "wide\u{3000}", "CASE", "longer than any sample here"] {
            assert_eq!(text::contains(&t, p), s.contains(p), "{:?} {:?}", s, p);
            assert_eq!(text::starts_with(&t, p), s.starts_with(p), "{:?} {:?}", s, p);
            assert_eq!(text::ends_with(&t, p), s.ends_with(p), "{:?} {:?}", s, p);
        }
        assert_eq!(text::has_char(&t, ','), s.contains(','));
    }
}

#[test]
fn case_agrees_with_std() {
    for s in SAMPLES {
        let t = chars(s);
        assert_eq!(text::to_lower(&t), chars(&s.to_ascii_lowercase()));
        assert_eq!(text::to_upper(&t), chars(&s.to_ascii_uppercase()));
        for o in SAMPLES {
            assert_eq!(text::eq_ignore_case(&t, o), s.eq_ignore_ascii_case(o));
            assert_eq!(text::str_eq(s, o), s == o);
            assert_eq!(text::less(s, o), s < o);
        }
    }
    assert!(text::eq_ignore_case(&chars("YeS"), "yEs"));
    assert!(!text::eq_ignore_case(&chars("\u{c9}"), "\u{e9}"));
}

#[test]
fn order_of_texts_agrees_with_std() {
    let words = ["", "a", "ab", "b", "B", "\u{e9}", "z", "\u{ffff}", "\u{10000}", "a\u{10000}"];
    for a in words {
        for b in words {
            assert_eq!(text::less(a, b), a < b, "{:?} {:?}", a, b);
        }
    }
}

#[test]
fn numbers_are_written_in_decimal() {
    for n in [0, 1, 9, 10, 99, 100, 4096, usize::MAX] {
        assert_eq!(text::decimal(n), n.to_string());
    }
}

#[test]
fn numbers_are_read_as_by_std() {
    for s in [
        "", "0", "4", "+5", "-1", "+", "007", "10", "4294967295", "4294967296", "99999999999999999999",
        " 5", "5 ", "5x", "\u{665}", "++5",
    ] {
        assert_eq!(text::parse_unsigned(&chars(s)), s.parse::<u32>().ok(), "{:?}", s);
    }
}

#[test]
fn joining_agrees_with_std() {
    let parts: Vec<String> = vec!["a".to_string(), String::new(), "b c".to_string()];
    assert_eq!(text::join(&parts, ", "), parts.join(", "));
    assert_eq!(text::join(&parts[..1], ", "), "a");
    assert_eq!(text::join(&[], ", "), "");
}

#[test]
fn strings_and_characters_convert() {
    for s in SAMPLES {
        assert_eq!(text::chars_of(s), chars(s));
        assert_eq!(text::string_of(&chars(s)), s);
    }
}
