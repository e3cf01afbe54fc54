use wcheck::word::Word;

fn dict(words: &[&str]) -> Vec<String> {
    words.iter().map(|w| w.to_string()).collect()
}

fn token(text: &str) -> Word {
    Word { word: text.to_string(), file: String::new(), line_nr: 1 }
}

fn check(words: &[&str], text: &str) -> Result<(), Vec<String>> {
    token(text).is_correct_spelling(&dict(words))
}

fn err(words: &[&str]) -> Result<(), Vec<String>> {
    Err(words.iter().map(|w| w.to_string()).collect())
}

#[test]
fn sanity() {
    assert_eq!(check(&["team"], "team"), Ok(()));
}

#[test]
fn uppercase() {
    assert_eq!(check(&["team"], "TEAM"), Ok(()));
}

#[test]
fn not_a_word() {
    assert_eq!(check(&["team"], "adsf"), err(&["adsf"]));
}

#[test]
fn camel_case() {
    assert_eq!(check(&["team", "work"], "teamWork"), Ok(()));
}

#[test]
fn camel_case_long() {
    assert_eq!(check(&["team", "work"], "teamWorkWorkTeam"), Ok(()));
}

#[test]
fn camel_case_middle_incorrect() {
    assert_eq!(check(&["team", "work"], "teamWorkWrkTeam"), err(&["Wrk"]));
}

#[test]
fn camel_case_multiple_incorrect() {
    assert_eq!(check(&["team", "work"], "teamWorkWrkTem"), err(&["Wrk", "Tem"]));
}

#[test]
fn snake_case() {
    assert_eq!(check(&["team", "work"], "team_work"), Ok(()));
}

#[test]
fn snake_case_long() {
    assert_eq!(check(&["team", "work"], "team_work_work_team"), Ok(()));
}

#[test]
fn snake_case_middle_incorrect() {
    assert_eq!(check(&["team", "work"], "team_work_wrk_team"), err(&["wrk"]));
}

#[test]
fn snake_case_multiple_incorrect() {
    assert_eq!(check(&["team", "work"], "team_work_wrk_tem"), err(&["wrk", "tem"]));
}

#[test]
fn dictionary_word_in_any_case_is_accepted() {
    for text in ["team", "Team", "TEAM", "tEAM", "TeAM"] {
        assert_eq!(check(&["team"], text), Ok(()), "{}", text);
    }
}

#[test]
fn unknown_plain_word_is_reported_whole() {
    assert_eq!(check(&["team", "work"], "Wrkteam"), err(&["Wrkteam"]));
    assert_eq!(check(&["team", "work"], "don't"), err(&["don't"]));
}

#[test]
fn camel_composition_classifies_and_splits() {
    let t = token("teamWork");
    assert!(t.is_camel_case());
    assert_eq!(check(&["team", "work"], "workTeam"), Ok(()));
    assert_eq!(check(&["team", "work"], "teamWrk"), err(&["Wrk"]));
}

#[test]
fn single_letter_prefix_is_not_camel_case() {
    // "aWork" has no lowercase letter after its first letter
    assert!(!token("aWork").is_camel_case());
    assert_eq!(check(&["a", "work"], "aWork"), err(&["aWork"]));
}

#[test]
fn snake_composition_classifies_and_splits() {
    let t = token("team_work");
    assert!(t.is_snake_case());
    assert!(!t.is_camel_case());
    assert_eq!(check(&["team", "work"], "work_team"), Ok(()));
}

#[test]
fn snake_case_keeps_empty_pieces() {
    assert_eq!(check(&["team", "work"], "team__work"), err(&[""]));
    assert_eq!(check(&["team", "work"], "team_work_"), err(&[""]));
}

#[test]
fn camel_case_is_checked_before_snake_case() {
    let t = token("teamWork_wrk");
    assert!(t.is_camel_case());
    assert!(t.is_snake_case());
    // camelCase parts: "team", "Work_wrk"
    assert_eq!(t.is_correct_spelling(&dict(&["team", "work"])), err(&["Work_wrk"]));
}

#[test]
fn camel_parts_absorb_leading_run() {
    assert_eq!(check(&["work"], "xmlHttpRequest"), err(&["xml", "Http", "Request"]));
    // an uppercase run with no lowercase letter after its first letter starts no part
    assert_eq!(check(&["request", "xml"], "xmlHTTPRequest"), Ok(()));
    assert_eq!(check(&["request"], "xmlHTTPRequest"), err(&["xml"]));
}

#[test]
fn non_ascii_word_is_lowered_for_lookup() {
    assert_eq!(check(&["école"], "ÉCOLE"), Ok(()));
}

#[test]
fn relative_file_is_kept() {
    let w = Word { word: "wrk".to_string(), file: "src/a.rs".to_string(), line_nr: 3 };
    assert_eq!(w.relative_file_path("/home/me/project"), Some("src/a.rs".to_string()));
    assert_eq!(w.generate_baseline_entry("/home/me/project"), Some("src/a.rs: wrk".to_string()));
}

#[test]
fn absolute_file_is_made_relative() {
    let w = Word { word: "wrk".to_string(), file: "/home/me/project/src/a.rs".to_string(), line_nr: 3 };
    assert_eq!(w.relative_file_path("/home/me/project"), Some("src/a.rs".to_string()));
    assert_eq!(w.generate_baseline_entry("/home/me/project"), Some("src/a.rs: wrk".to_string()));
}

#[test]
fn absolute_file_outside_working_dir_has_no_entry() {
    let w = Word { word: "wrk".to_string(), file: "/elsewhere/a.rs".to_string(), line_nr: 3 };
    assert_eq!(w.relative_file_path("/home/me/project"), None);
    assert_eq!(w.generate_baseline_entry("/home/me/project"), None);
}
