use group_chat::text::{
    chars_of, contains_char, join_texts, same_text, sort_texts, split_once_at, split_words,
    strip_prefix, text_le_exec, trim, trim_end,
};

#[test]
fn trimming_matches_std() {
    for s in ["", "  ", " a ", "\t\nab c\r\n", "\u{3000}x\u{2028}", "x\u{85}", "\u{a0}y z\u{200b}"] {
        assert_eq!(trim(s), s.trim(), "{:?}", s);
        assert_eq!(trim_end(s), s.trim_end(), "{:?}", s);
    }
}

#[test]
fn splitting_matches_std() {
    for s in ["", "a", "a b", "  a   b  ", "x=1 y=2\tz=3", "\u{2003}w\u{2003}"] {
        let expected: Vec<String> = s.split_whitespace().map(|w| w.to_string()).collect();
        assert_eq!(split_words(s), expected, "{:?}", s);
    }
    assert_eq!(split_once_at("\\join den room", ' '), ("\\join", Some("den room")));
    assert_eq!(split_once_at("\\help", ' '), ("\\help", None));
    assert_eq!(split_once_at("a=b=c", '='), ("a", Some("b=c")));
    assert_eq!(split_once_at("", ' '), ("", None));
}

#[test]
fn ordering_matches_string_ordering() {
    let words = ["b", "a", "B", "ab", "", "é", "z", "a=K", "a!=K", "ä"];
    for x in words {
        for y in words {
            assert_eq!(text_le_exec(x, y), x <= y, "{:?} {:?}", x, y);
        }
    }
    let mut expected: Vec<String> = words.iter().map(|s| s.to_string()).collect();
    let sorted = sort_texts(expected.clone());
    expected.sort();
    assert_eq!(sorted, expected);
}

#[test]
fn small_helpers() {
    assert_eq!(chars_of("héllo"), vec!['h', 'é', 'l', 'l', 'o']);
    assert!(same_text("abc", "abc"));
    assert!(!same_text("abc", "abd"));
    assert!(contains_char("1.2.3.4:80", ':'));
    assert!(!contains_char("9000", ':'));
    assert_eq!(strip_prefix("\\room den", "\\room "), Some("den"));
    assert_eq!(strip_prefix("\\roo", "\\room "), None);
    let parts = vec!["a".to_string(), "b".to_string(), "c".to_string()];
    assert_eq!(join_texts(&parts, ", "), "a, b, c");
    assert_eq!(join_texts(&Vec::new(), ", "), "");
}
