use lab_checker::text::{
    chars_of, copy_range, has_prefix, parse_i32_bytes, second_word, split_lines, trimmed_equal,
    white_space,
};

fn lines_of(s: &str) -> Vec<String> {
    split_lines(s.as_bytes())
        .into_iter()
        .map(|l| String::from_utf8(l).unwrap())
        .collect()
}

#[test]
fn split_lines_matches_str_lines() {
    for s in ["a\nb\r\nc", "a\n", "", "\n\n", "a\r", "x\r\ny\r\n", "one", "\r\n"] {
        let expected: Vec<String> = s.lines().map(|l| l.to_string()).collect();
        assert_eq!(lines_of(s), expected, "input {:?}", s);
    }
}

#[test]
fn split_lines_drops_final_newline() {
    assert_eq!(lines_of("a\nb\n"), vec!["a".to_string(), "b".to_string()]);
    assert_eq!(lines_of(""), Vec::<String>::new());
    assert_eq!(lines_of("\n"), vec!["".to_string()]);
    assert_eq!(lines_of("a\r"), vec!["a\r".to_string()]);
}

#[test]
fn second_word_finds_the_number() {
    let l = b"  12a 34 x";
    assert_eq!(second_word(l), Some((6, 8)));
    assert_eq!(&l[6..8], b"34");
    assert_eq!(second_word(b"one"), None);
    assert_eq!(second_word(b"  one \t "), None);
    assert_eq!(second_word(b"a\x0cb"), Some((2, 3)));
    assert_eq!(second_word(b"a\x0bb"), None);
}

#[test]
fn parse_i32_bytes_agrees_with_str_parse() {
    for w in [
        "42", "-7", "+5", "0", "-0", "007", "-2147483648", "2147483647", "2147483648",
        "-2147483649", "", "-", "+", "1a", "99999999999", "+-1", " 1", "٣",
    ] {
        assert_eq!(parse_i32_bytes(w.as_bytes()), w.parse::<i32>().ok(), "word {:?}", w);
    }
    assert_eq!(parse_i32_bytes(b"-2147483648"), Some(i32::MIN));
    assert_eq!(parse_i32_bytes(b"2147483648"), None);
}

#[test]
fn has_prefix_checks_start() {
    assert!(has_prefix(b"Hash abc", b"Hash "));
    assert!(!has_prefix(b"Has", b"Hash "));
    assert!(!has_prefix(b"hash abc", b"Hash "));
    assert!(has_prefix(b"x", b""));
}

#[test]
fn copy_range_copies() {
    assert_eq!(copy_range(b"abcdef", 1, 4), b"bcd".to_vec());
    assert_eq!(copy_range(b"abcdef", 2, 2), Vec::<u8>::new());
}

#[test]
fn trimmed_equal_ignores_surrounding_space() {
    assert!(trimmed_equal("  hi \n", "hi"));
    assert!(trimmed_equal("\u{3000}x\u{a0}", "x"));
    assert!(!trimmed_equal("hi", "ho"));
    assert!(!trimmed_equal("h i", "hi"));
    assert!(trimmed_equal(" \t\n", ""));
    assert!(!trimmed_equal("a\u{200b}", "a"));
}

#[test]
fn trim_law_on_padded_answer() {
    let answer = "1 2 3";
    let padded = format!("\n\t {}\r\n\u{2003}", answer);
    assert!(trimmed_equal(&padded, answer));
    assert_eq!(padded.trim(), answer);
}

#[test]
fn white_space_matches_char_is_whitespace() {
    for u in 0u32..0x3100 {
        if let Some(c) = char::from_u32(u) {
            assert_eq!(white_space(c), c.is_whitespace(), "char {:x}", u);
        }
    }
}

#[test]
fn chars_of_lists_characters() {
    assert_eq!(chars_of("aé😀"), vec!['a', 'é', '😀']);
    assert_eq!(chars_of(""), Vec::<char>::new());
}
