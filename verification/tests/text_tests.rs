use rook_terminal::text::{
    chars_of, decimal_text, join_strings, right_aligned, sort_texts, split_lines, split_whitespace,
    str_is_blank, string_of,
};

fn texts(v: &Vec<Vec<char>>) -> Vec<String> {
    v.iter().map(|t| string_of(t)).collect()
}

#[test]
fn decimal_digits() {
    assert_eq!(string_of(&decimal_text(0)), "0");
    assert_eq!(string_of(&decimal_text(1234567890)), "1234567890");
    assert_eq!(string_of(&decimal_text(u64::MAX)), u64::MAX.to_string());
}

#[test]
fn alignment() {
    assert_eq!(string_of(&right_aligned(&chars_of("42"), 5)), "   42");
    assert_eq!(string_of(&right_aligned(&chars_of("123456"), 5)), "123456");
}

#[test]
fn whitespace_and_lines() {
    assert_eq!(texts(&split_whitespace(" a\tb \n c ")), vec!["a", "b", "c"]);
    assert!(split_whitespace("  ").is_empty());
    assert!(str_is_blank(" \t\n"));
    assert!(!str_is_blank(" x "));
    assert_eq!(texts(&split_lines("a\nb\r\n\nc")), vec!["a", "b", "", "c"]);
    assert_eq!(texts(&split_lines("a\n")), vec!["a"]);
    assert!(split_lines("").is_empty());
}

#[test]
fn joining_and_sorting() {
    let v = vec!["b".to_string(), "a".to_string()];
    assert_eq!(string_of(&join_strings(&v, ", ")), "b, a");
    let sorted = sort_texts(vec![chars_of("b"), chars_of("B"), chars_of("ab"), chars_of("a")]);
    assert_eq!(texts(&sorted), vec!["B", "a", "ab", "b"]);
}

#[test]
fn lines_agree_with_str_lines() {
    let samples = [
        "", "\n", "a", "a\n", "a\n\n", "a\r", "a\r\n", "\r\n", "a\r\r\n", "x\ny\r\nz", "\n\n\nq",
        "tab\tline\n  spaced  \r\nend\r",
    ];
    for s in samples {
        let expected: Vec<String> = s.lines().map(|l| l.to_string()).collect();
        assert_eq!(texts(&split_lines(s)), expected, "lines of {:?}", s);
    }
}

#[test]
fn whitespace_agrees_with_str_split_whitespace() {
    let samples = ["", " ", "a", " a b ", "a\u{3000}b", "x\u{85}y", "\t\n\x0b\x0c\r a", "no_space"];
    for s in samples {
        let expected: Vec<String> = s.split_whitespace().map(|w| w.to_string()).collect();
        assert_eq!(texts(&split_whitespace(s)), expected, "words of {:?}", s);
    }
}

#[test]
fn sorting_agrees_with_string_sort() {
    let words = ["zeta", "Alpha", "alpha", "", "a", "ab", "é", "z", "_x", "10", "9"];
    let mut expected: Vec<String> = words.iter().map(|w| w.to_string()).collect();
    expected.sort();
    let sorted = sort_texts(words.iter().map(|w| chars_of(w)).collect());
    assert_eq!(texts(&sorted), expected);
}

#[test]
fn blank_means_unicode_white_space() {
    for c in (0u32..0x3100).filter_map(char::from_u32) {
        assert_eq!(str_is_blank(&c.to_string()), c.is_whitespace(), "{:?}", c);
    }
    assert_eq!(string_of(&chars_of("añb")), "añb");
}
