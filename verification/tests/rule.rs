use std::collections::HashSet;

use wordles::{CharPos, Rule, RuleError, RuleSet};

#[test]
fn empty_rulesets_match_every_word() {
    assert!(RuleSet::new().matches("slate"));
    assert!(RuleSet::default().matches("slate"));
}

#[test]
fn ruleset_pushes_single_rules() {
    let mut rules = RuleSet::new();
    rules.push(Rule::Match('s', 1));
    rules.push(Rule::Contains('l', 3));
    rules.push(Rule::Absent('r'));
    rules.push(Rule::Absent('n'));
    rules.push(Rule::Once('e'));

    assert!(rules.matches("slate"));
    assert!(!rules.matches("spate"));
}

#[test]
fn builder_creates_ruleset() {
    let rules = RuleSet::builder()
        .matches(&["S1"])
        .contains(&["L3"])
        .none(&["R,N"])
        .once(&["E"])
        .build()
        .unwrap();

    assert!(rules.matches("slate"));
    assert!(!rules.matches("spate"));
}

#[test]
fn char_pos_normalizes_uppercase_letters() {
    assert_eq!(CharPos::try_from("S1"), Ok(CharPos { ch: 's', pos: 1 }));
}

#[test]
fn char_pos_rejects_positions_outside_word_bounds() {
    assert_eq!(
        CharPos::try_from("S0"),
        Err(RuleError::new("Invalid position in 'S0'"))
    );
    assert_eq!(
        CharPos::try_from("S6"),
        Err(RuleError::new("Invalid position in 'S6'"))
    );
}

#[test]
fn filter_returns_words_matching_rules() {
    let words = vec!["slate", "crate", "caper"];
    let rules = RuleSet::from_rules(vec![Rule::Match('s', 1)]);

    let found: HashSet<&str> = rules.filter(&words).into_iter().collect();
    assert_eq!(found, HashSet::from(["slate"]));
}

#[test]
fn char_pos_reports_each_kind_of_error() {
    assert_eq!(
        CharPos::try_from(""),
        Err(RuleError::new("Invalid entry ''"))
    );
    assert_eq!(
        CharPos::try_from("S"),
        Err(RuleError::new("Invalid number in 'S'"))
    );
    assert_eq!(
        CharPos::try_from("Sx"),
        Err(RuleError::new("Invalid number in 'Sx'"))
    );
    assert_eq!(
        CharPos::try_from("S256"),
        Err(RuleError::new("Invalid number in 'S256'"))
    );
    assert_eq!(
        CharPos::try_from("S-1"),
        Err(RuleError::new("Invalid number in 'S-1'"))
    );
    assert_eq!(
        CharPos::try_from("S255"),
        Err(RuleError::new("Invalid position in 'S255'"))
    );
}

#[test]
fn char_pos_reads_numbers_as_str_parse_does() {
    assert_eq!(CharPos::try_from("a+3"), Ok(CharPos { ch: 'a', pos: 3 }));
    assert_eq!(CharPos::try_from("a005"), Ok(CharPos { ch: 'a', pos: 5 }));
    assert_eq!(CharPos::try_from("É2"), Ok(CharPos { ch: 'É', pos: 2 }));
    assert_eq!(
        CharPos::try_from("a+"),
        Err(RuleError::new("Invalid number in 'a+'"))
    );
}

#[test]
fn builder_reports_the_first_bad_entry() {
    let error = RuleSet::builder()
        .matches(&["S1,X9,Y0"])
        .contains(&["Q"])
        .build()
        .err()
        .unwrap();
    assert_eq!(error.message(), "Error parsing rule: Invalid position in 'X9'");

    let error = RuleSet::builder()
        .contains(&["a2", "b"])
        .build()
        .err()
        .unwrap();
    assert_eq!(error.message(), "Error parsing rule: Invalid number in 'b'");
}

#[test]
fn builder_skips_empty_letters_and_keeps_failures() {
    let rules = RuleSet::builder().none(&["", ",X,"]).build().unwrap();
    assert!(rules.matches("abcde"));
    assert!(!rules.matches("abxde"));

    let error = RuleSet::builder()
        .matches(&[""])
        .none(&["a"])
        .build()
        .err()
        .unwrap();
    assert_eq!(error.message(), "Error parsing rule: Invalid entry ''");
}

#[test]
fn rules_follow_their_letters() {
    assert!(Rule::Match('a', 2).matches("bab"));
    assert!(!Rule::Match('a', 4).matches("bab"));
    assert!(Rule::Contains('a', 1).matches("bab"));
    assert!(!Rule::Contains('a', 2).matches("bab"));
    assert!(!Rule::Contains('z', 2).matches("bab"));
    assert!(Rule::Absent('z').matches("bab"));
    assert!(!Rule::Absent('a').matches("bab"));
    assert!(Rule::Once('a').matches("bab"));
    assert!(!Rule::Once('b').matches("bab"));
}

#[test]
fn filter_keeps_each_word_once_in_order() {
    let words = vec!["slate", "stare", "slate", "crate", "stare"];
    let rules = RuleSet::from_rules(vec![Rule::Match('s', 1)]);
    assert_eq!(rules.filter(&words), vec!["slate", "stare"]);
}

#[test]
fn extend_adds_rules_after_the_others() {
    let mut rules = RuleSet::new();
    rules.extend(vec![Rule::Match('s', 1), Rule::Once('t')]);
    assert!(rules.matches("stare"));
    assert!(!rules.matches("state"));
}
