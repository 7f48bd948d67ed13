use wordles::pattern::{CONTAINS, HIT, MISS};
use wordles::{pattern_groups, Pattern};

#[test]
fn diff_encodes_hits_and_misses() {
    assert_eq!(
        Pattern::new("abcde", "axcye"),
        Pattern::from(0b01_00_01_00_01)
    );
}

#[test]
fn diff_encodes_contained_letters() {
    assert_eq!(
        Pattern::new("abcde", "ezzzz"),
        Pattern::from(0b00_00_00_00_10)
    );
    assert_eq!(
        Pattern::new("abcde", "abcde"),
        Pattern::from(0b01_01_01_01_01)
    );
}

#[test]
fn at_returns_the_value_at_each_position() {
    let pattern = Pattern::from(0b01_00_10_01_00);

    assert_eq!(pattern.at(0), 0b01);
    assert_eq!(pattern.at(1), 0b00);
    assert_eq!(pattern.at(2), 0b10);
    assert_eq!(pattern.at(3), 0b01);
    assert_eq!(pattern.at(4), 0b00);
}

#[test]
fn at_past_the_fifth_position_is_a_miss() {
    let pattern = Pattern::from(0b11_11_11_11_11);
    assert_eq!(pattern.at(5), MISS);
    assert_eq!(pattern.at(100), MISS);
}

#[test]
fn at_reads_back_the_marks_of_new() {
    let pattern = Pattern::new("crane", "react");
    // c: contained, r: contained, a: hit, n: miss, e: contained
    assert_eq!(pattern.at(0), CONTAINS);
    assert_eq!(pattern.at(1), CONTAINS);
    assert_eq!(pattern.at(2), HIT);
    assert_eq!(pattern.at(3), MISS);
    assert_eq!(pattern.at(4), CONTAINS);
    assert_eq!(pattern.value(), 0b10_10_01_00_10);
}

#[test]
fn short_guess_leaves_the_last_positions_empty() {
    let pattern = Pattern::new("ab", "ba");
    assert_eq!(pattern.value(), 0b10_10_00_00_00);
    assert_eq!(pattern.at(2), MISS);
}

#[test]
fn empty_pattern_when_no_letter_is_shared() {
    assert!(Pattern::new("abcde", "fghij").is_empty());
    assert!(!Pattern::new("abcde", "fghia").is_empty());
}

#[test]
fn emoji_shows_five_squares() {
    let pattern = Pattern::from(0b01_10_00_01_10);
    assert_eq!(pattern.emoji(), "🟩 🟨 ⬜️ 🟩 🟨");
}

#[test]
fn highlight_colours_each_letter() {
    let pattern = Pattern::from(0b01_10_00_00_00);
    assert_eq!(
        pattern.highlight("ab"),
        "\x1b[42;30;1m a \x1b[0m\x1b[43;30;1m b \x1b[0m"
    );
    assert_eq!(
        Pattern::from(0).highlight("abcdef"),
        "\x1b[100;37;1m a \x1b[0m\x1b[100;37;1m b \x1b[0m\x1b[100;37;1m c \x1b[0m\x1b[100;37;1m d \x1b[0m\x1b[100;37;1m e \x1b[0m\x1b[100;37;1m f \x1b[0m"
    );
}

#[test]
fn pattern_groups_orders_patterns_and_keeps_guess_order() {
    let guesses = ["crest", "slate", "audio", "zzzzz", "slate"];
    let rows = pattern_groups("slate", &guesses);
    let values: Vec<u16> = rows.iter().map(|(p, _)| p.value()).collect();
    let mut sorted = values.clone();
    sorted.sort();
    assert_eq!(values, sorted);
    // "zzzzz" shares no letter with "slate": it is left out.
    assert!(rows.iter().all(|(_, g)| !g.contains(&"zzzzz")));
    let all_hits = rows
        .iter()
        .find(|(p, _)| p.value() == 0b01_01_01_01_01)
        .unwrap();
    assert_eq!(all_hits.1, vec!["slate", "slate"]);
}

#[test]
fn from_keeps_the_value() {
    assert_eq!(Pattern::from(0b10_01_00_00_01).value(), 0b10_01_00_00_01);
    let p: Pattern = 5u16.into();
    assert_eq!(p.value(), 5);
}
