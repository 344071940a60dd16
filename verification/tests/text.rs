use rustyring::text::{
    chars_of, contains_text, decimal_string, position_of, same_text, split_lines,
};

#[test]
fn lines_follow_std() {
    for content in [
        "",
        "a",
        "a\n",
        "a\nb",
        "a\r\nb\r\n",
        "\n\n",
        "a\r",
        "x\ry\n",
        "\r\n",
        "\r\r\n",
        "caf\u{e9}\n\u{1F980} last",
    ] {
        let expected: Vec<String> = content.lines().map(String::from).collect();
        assert_eq!(split_lines(content), expected);
    }
}

#[test]
fn lines_keep_a_bare_carriage_return_at_the_end() {
    assert_eq!(split_lines("one\r\ntwo\r"), vec!["one".to_string(), "two\r".to_string()]);
}

#[test]
fn lines_of_empty_text() {
    assert!(split_lines("").is_empty());
    assert_eq!(split_lines("\n"), vec![String::new()]);
}

#[test]
fn decimal_digits_of_numbers() {
    assert_eq!(decimal_string(0), "0");
    assert_eq!(decimal_string(7), "7");
    assert_eq!(decimal_string(10), "10");
    assert_eq!(decimal_string(4096), "4096");
    assert_eq!(decimal_string(usize::MAX), usize::MAX.to_string());
}

#[test]
fn substring_search() {
    assert!(contains_text("/p/node_modules/x.js", "node_modules"));
    assert!(contains_text("node_modules", "node_modules"));
    assert!(contains_text("/p/my_node_modules_copy/x.js", "node_modules"));
    assert!(!contains_text("/p/node_module/x.js", "node_modules"));
    assert!(!contains_text("node_module", "node_modules"));
    assert!(contains_text("abc", ""));
    assert!(contains_text("", ""));
    assert!(!contains_text("", "a"));
    assert!(contains_text("aab", "ab"));
}

#[test]
fn text_equality() {
    assert!(same_text("ts", "ts"));
    assert!(!same_text("ts", "tsx"));
    assert!(!same_text("ts", "TS"));
    assert!(same_text("", ""));
}

#[test]
fn characters_one_by_one() {
    assert_eq!(chars_of("a\u{e9}\u{1F980}"), vec!['a', '\u{e9}', '\u{1F980}']);
    assert!(chars_of("").is_empty());
}

#[test]
fn first_position_in_a_list() {
    let list = vec!["a".to_string(), "b".to_string(), "a".to_string()];
    assert_eq!(position_of(&list, "a"), Some(0));
    assert_eq!(position_of(&list, "b"), Some(1));
    assert_eq!(position_of(&list, "c"), None);
    assert_eq!(position_of(&Vec::new(), "a"), None);
}
