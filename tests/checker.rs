use wcheck::baseline::Baseline;
use wcheck::checker::{check_spelling_for_file_contents, generate_baseline, read_words, words_in_line};
use wcheck::word::{OutsideWorkingDir, Word};

fn dict(words: &[&str]) -> Vec<String> {
    words.iter().map(|w| w.to_string()).collect()
}

fn texts(words: &[Word]) -> Vec<(String, u32)> {
    words.iter().map(|w| (w.word.clone(), w.line_nr)).collect()
}

fn word(text: &str, file: &str) -> Word {
    Word { word: text.to_string(), file: file.to_string(), line_nr: 1 }
}

#[test]
fn scenario_one_misspelled_camel_word() {
    let words = read_words("teamWork teamWorkWrkTeam", "notes.txt");
    assert_eq!(words.len(), 2);
    let report = check_spelling_for_file_contents(&dict(&["team", "work"]), &Baseline::new(), &words, "/cwd")
        .unwrap();
    assert_eq!(report.len(), 1);
    let m = &report[0];
    assert_eq!(m.word.word, "teamWorkWrkTeam");
    assert_eq!(m.word.line_nr, 1);
    assert_eq!(m.path, "notes.txt");
    assert_eq!(m.sub_words, vec!["Wrk".to_string()]);
    assert!(m.within);
}

#[test]
fn scenario_empty_file() {
    let words = read_words("", "empty.txt");
    assert!(words.is_empty());
    let report = check_spelling_for_file_contents(&dict(&["team"]), &Baseline::new(), &words, "/cwd").unwrap();
    assert_eq!(report.len(), 0);
}

#[test]
fn plain_word_is_not_within() {
    let words = read_words("tem", "a.txt");
    let report = check_spelling_for_file_contents(&dict(&["team"]), &Baseline::new(), &words, "/cwd").unwrap();
    assert_eq!(report.len(), 1);
    assert!(!report[0].within);
    assert_eq!(report[0].sub_words, vec!["tem".to_string()]);
}

#[test]
fn punctuation_is_stripped() {
    let words = read_words("(word), \"quoted\" don't 'x' a 123 foo_ it's.", "f");
    assert_eq!(
        texts(&words),
        vec![
            ("word".to_string(), 1),
            ("quoted".to_string(), 1),
            ("don't".to_string(), 1),
            ("foo".to_string(), 1),
            ("it's".to_string(), 1),
        ]
    );
}

#[test]
fn first_word_of_a_chunk_only() {
    assert_eq!(words_in_line("one,two three"), vec!["one".to_string(), "three".to_string()]);
    assert_eq!(words_in_line("a-bc"), vec!["bc".to_string()]);
}

#[test]
fn line_numbers_are_one_based() {
    let words = read_words("alpha\n\n  beta gamma\r\ndelta\n", "f");
    assert_eq!(
        texts(&words),
        vec![
            ("alpha".to_string(), 1),
            ("beta".to_string(), 3),
            ("gamma".to_string(), 3),
            ("delta".to_string(), 4),
        ]
    );
    assert!(words.iter().all(|w| w.file == "f"));
}

#[test]
fn unicode_whitespace_separates_chunks() {
    assert_eq!(words_in_line("one\u{a0}two\u{3000}three\tfour"), vec!["one", "two", "three", "four"]);
}

#[test]
fn baseline_suppresses_only_in_its_file() {
    let baseline = Baseline::parse("a.rs: wrk\n").unwrap();
    let words = vec![word("wrk", "a.rs"), word("wrk", "b.rs")];
    let report = check_spelling_for_file_contents(&dict(&["team"]), &baseline, &words, "/cwd").unwrap();
    assert_eq!(report.len(), 1);
    assert_eq!(report[0].word.file, "b.rs");
}

#[test]
fn misspelled_word_outside_working_dir_fails() {
    let words = vec![word("wrk", "/elsewhere/a.rs")];
    let r = check_spelling_for_file_contents(&dict(&["team"]), &Baseline::new(), &words, "/cwd");
    assert_eq!(r.err(), Some(OutsideWorkingDir));
    // a correct word there needs no path
    let ok = vec![word("team", "/elsewhere/a.rs")];
    assert_eq!(check_spelling_for_file_contents(&dict(&["team"]), &Baseline::new(), &ok, "/cwd").unwrap().len(), 0);
}

#[test]
fn baseline_lines_are_recorded_once() {
    let words = vec![word("wrk", "a.rs"), word("wrk", "a.rs"), word("tem", "a.rs"), word("wrk", "/cwd/b.rs")];
    let lines = generate_baseline(&words, "/cwd").unwrap();
    assert_eq!(lines, vec!["a.rs: wrk".to_string(), "a.rs: tem".to_string(), "b.rs: wrk".to_string()]);
}

#[test]
fn baseline_generation_outside_working_dir_fails() {
    let words = vec![word("wrk", "/elsewhere/a.rs")];
    assert_eq!(generate_baseline(&words, "/cwd"), Err(OutsideWorkingDir));
}
