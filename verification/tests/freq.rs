use wordles::CharFreq;

#[test]
fn frequencies_returns_counts_in_descending_order() {
    let words = vec!["aaaaa", "bbbba"];

    assert_eq!(
        CharFreq::frequencies(&words),
        vec![CharFreq::new('a', 6, 10), CharFreq::new('b', 4, 10),]
    );
}

#[test]
fn equally_frequent_letters_come_in_their_order() {
    let words = vec!["cabde"];
    let freqs = CharFreq::frequencies(&words);
    let letters: Vec<char> = freqs.iter().map(|f| f.ch).collect();
    assert_eq!(letters, vec!['a', 'b', 'c', 'd', 'e']);
    assert!(freqs.iter().all(|f| f.count == 1 && f.total == 5));
}

#[test]
fn no_words_no_letters() {
    let words: Vec<&str> = vec![];
    assert!(CharFreq::frequencies(&words).is_empty());
}

#[test]
fn precedes_orders_by_count_then_letter() {
    let a = CharFreq::new('a', 3, 10);
    let b = CharFreq::new('b', 3, 10);
    let c = CharFreq::new('c', 4, 10);
    assert!(c.precedes(&a));
    assert!(a.precedes(&b));
    assert!(!b.precedes(&a));
    assert!(!a.precedes(&a));
}
