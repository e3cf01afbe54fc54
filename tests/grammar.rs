use regex::Regex;
use wcheck::checker::first_word_in;
use wcheck::word::Word;

const SAMPLES: &[&str] = &[
    "", "a", "ab", "aB", "abC", "abCd", "aBcD", "AbcDef", "ABCdef", "abcDEFghi", "a_b", "_a_b",
    "ab_", "a__", "a_", "__", "x_y_z", "teamWork", "teamWork_wrk", "don't", "it's_ok", "Word",
    "word", "WORD", "wORD", "x1Yz", "aé", "éaBc", "ab\u{e9}Cd", "a'b", "''ab''", "(word),", "1ab",
    "a1bC", "q_1", "abCDEf", "a-bCd", "__init__", "ab'Cd", "x_", "_x_", "abc_Def",
];

fn token(text: &str) -> Word {
    Word { word: text.to_string(), file: String::new(), line_nr: 1 }
}

#[test]
fn camel_case_matches_its_pattern() {
    let re = Regex::new("[a-zA-Z][a-z]+([A-Z]+[a-z]+)+").unwrap();
    for s in SAMPLES {
        assert_eq!(token(s).is_camel_case(), re.is_match(s), "{}", s);
    }
}

#[test]
fn snake_case_matches_its_pattern() {
    let re = Regex::new("[a-zA-Z]+_([a-zA-Z_])+").unwrap();
    for s in SAMPLES {
        assert_eq!(token(s).is_snake_case(), re.is_match(s), "{}", s);
    }
}

#[test]
fn first_word_matches_its_pattern() {
    let re = Regex::new("[a-zA-Z][a-zA-Z_']*[a-zA-Z]").unwrap();
    for s in SAMPLES {
        let chars: Vec<char> = s.chars().collect();
        let expected = re.find(s).map(|m| m.as_str().to_string());
        assert_eq!(first_word_in(&chars), expected, "{}", s);
    }
}
