use wcheck::baseline::{format_entry, parse_line, Baseline, MalformedLine};
use wcheck::dictionary::{add_word_list, compare_bytes, contains_word, is_known, same_text};
use wcheck::text::split_lines;

fn dict(words: &[&str]) -> Vec<String> {
    words.iter().map(|w| w.to_string()).collect()
}

#[test]
fn baseline_parses_entries() {
    let b = Baseline::parse("src/a.rs: wrk\nsrc/b.rs: tem\n").unwrap();
    assert!(b.is_suppressed("src/a.rs", "wrk"));
    assert!(b.is_suppressed("src/b.rs", "tem"));
    assert!(!b.is_suppressed("src/b.rs", "wrk"));
    assert!(!b.is_suppressed("src/a.rs", "Wrk"));
}

#[test]
fn baseline_missing_separator_fails() {
    assert_eq!(Baseline::parse("a.rs: x\nno separator\n").err(), Some(MalformedLine { line_nr: 2 }));
    assert_eq!(Baseline::parse("a.rs:x").err(), Some(MalformedLine { line_nr: 1 }));
}

#[test]
fn baseline_empty_text_is_empty() {
    let b = Baseline::parse("").unwrap();
    assert!(!b.is_suppressed("", ""));
}

#[test]
fn baseline_line_takes_second_field() {
    assert_eq!(parse_line("a: b: c"), Some(("a".to_string(), "b".to_string())));
    assert_eq!(parse_line("a:: b"), Some(("a:".to_string(), "b".to_string())));
    assert_eq!(parse_line("a: "), Some(("a".to_string(), "".to_string())));
    assert_eq!(parse_line("a:b"), None);
}

#[test]
fn record_twice_adds_once() {
    let mut b = Baseline::new();
    assert!(b.record("a.rs".to_string(), "wrk".to_string()));
    assert!(!b.record("a.rs".to_string(), "wrk".to_string()));
    assert!(b.record("b.rs".to_string(), "wrk".to_string()));
    assert!(b.is_suppressed("a.rs", "wrk"));
    assert!(!b.is_suppressed("c.rs", "wrk"));
}

#[test]
fn entry_format() {
    assert_eq!(format_entry("src/a.rs", "wrk"), "src/a.rs: wrk");
    let line = format_entry("x.rs", "tem");
    assert_eq!(parse_line(&line), Some(("x.rs".to_string(), "tem".to_string())));
}

#[test]
fn lines_split_like_text_lines() {
    assert_eq!(split_lines("a\r\nb\n"), vec!["a", "b"]);
    assert_eq!(split_lines(""), Vec::<String>::new());
    assert_eq!(split_lines("a\n\nb"), vec!["a", "", "b"]);
    assert_eq!(split_lines("\n"), vec![""]);
    assert_eq!(split_lines("x\r"), vec!["x\r"]);
}

#[test]
fn word_list_is_lowered_and_sorted() {
    let mut d: Vec<String> = Vec::new();
    add_word_list(&mut d, "Zebra\napple\nMango\n");
    assert_eq!(d, vec!["apple", "mango", "zebra"]);
    add_word_list(&mut d, "banana\r\nÉcole\n");
    assert_eq!(d, vec!["apple", "banana", "mango", "zebra", "école"]);
}

#[test]
fn lookup_is_binary_search() {
    let d = dict(&["apple", "banana", "cherry", "date", "fig"]);
    for w in ["apple", "banana", "cherry", "date", "fig"] {
        assert!(contains_word(&d, w));
    }
    for w in ["", "app", "apples", "coconut", "zzz", "Apple"] {
        assert!(!contains_word(&d, w));
    }
    assert!(!contains_word(&Vec::new(), "apple"));
}

#[test]
fn lookup_lowers_the_word() {
    let d = dict(&["team"]);
    assert!(is_known(&d, "TEAM"));
    assert!(is_known(&d, "Team"));
    assert!(!is_known(&d, "teams"));
}

#[test]
fn byte_order() {
    assert!(compare_bytes(b"abc", b"abd") < 0);
    assert!(compare_bytes(b"abd", b"abc") > 0);
    assert!(compare_bytes(b"ab", b"abc") < 0);
    assert!(compare_bytes(b"", b"") == 0);
    assert!(compare_bytes(b"Z", b"a") < 0);
    assert!(same_text("héllo", "héllo"));
    assert!(!same_text("hello", "hellO"));
}
