use wordles::{inline_words, rank, sort_rankings_in_place, Ranking, Rankings};

fn is_sorted(rankings: &[Ranking]) -> bool {
    rankings
        .windows(2)
        .all(|pair| !pair[1].precedes(&pair[0]))
}

#[test]
fn rank_without_cache_returns_sorted_rankings() {
    let candidates = ["crate", "slate", "trace"];

    assert!(is_sorted(&rank(&candidates, None)));
}

fn sample() -> Vec<Ranking<'static>> {
    // The average is the sum over the groups: 4.0 over 3 groups is a sum of 12, and
    // 10.0 over 4 groups a sum of 40.
    vec![
        Ranking::new("max", 3, 12, 5),
        Ranking::new("average", 3, 12, 10),
        Ranking::new("groups", 4, 40, 10),
        Ranking::new("alpha", 3, 12, 10),
    ]
}

#[test]
fn ranking_order_follows_score_then_word() {
    let mut rankings = sample();

    sort_rankings_in_place(&mut rankings);

    let words: Vec<_> = rankings.iter().map(|ranking| ranking.word).collect();
    assert_eq!(words, &["groups", "max", "alpha", "average"]);
}

#[test]
fn limited_rankings_retain_the_best_scores() {
    let mut rankings = Rankings::new(Some(2));

    for ranking in sample() {
        rankings.push(ranking);
    }

    let words: Vec<_> = rankings
        .into_sorted_vec()
        .into_iter()
        .map(|ranking| ranking.word)
        .collect();
    assert_eq!(words, ["groups", "max"]);
}

#[test]
fn limit_zero_keeps_nothing_and_no_limit_keeps_all() {
    let mut none = Rankings::new(Some(0));
    let mut all = Rankings::new(None);
    for ranking in sample() {
        none.push(ranking);
        all.push(ranking);
    }
    assert!(none.into_sorted_vec().is_empty());
    let words: Vec<_> = all.into_sorted_vec().into_iter().map(|r| r.word).collect();
    assert_eq!(words, ["groups", "max", "alpha", "average"]);
}

#[test]
fn smaller_average_wins_at_equal_groups() {
    let a = Ranking::new("a", 2, 3, 2);
    let b = Ranking::new("b", 2, 4, 2);
    assert!(a.precedes(&b));
    assert!(!b.precedes(&a));
    assert!(!a.precedes(&a));
}

#[test]
fn rank_scores_each_guess() {
    let words = ["abcde", "abcdf", "xyzzy"];
    let rankings = rank(&words, None);
    // abcde against: abcde (all hits), abcdf (four hits), xyzzy (empty): 2 groups of one.
    // abcdf likewise; xyzzy against: abcde (empty), abcdf (empty), xyzzy: 1 group.
    let summary: Vec<(&str, usize, usize, usize)> = rankings
        .iter()
        .map(|r| (r.word, r.groups, r.sum, r.max))
        .collect();
    assert_eq!(
        summary,
        vec![("abcde", 2, 2, 1), ("abcdf", 2, 2, 1), ("xyzzy", 1, 1, 1)]
    );
}

#[test]
fn rank_with_limit_is_the_start_of_rank_without() {
    let words = ["crate", "slate", "trace", "react", "caret", "plumb"];
    let all = rank(&words, None);
    let best = rank(&words, Some(3));
    let all_words: Vec<_> = all.iter().map(|r| r.word).collect();
    let best_words: Vec<_> = best.iter().map(|r| r.word).collect();
    assert_eq!(best_words, all_words[..3].to_vec());
}

#[test]
fn inline_words_joins_with_spaces() {
    let rankings = sample();
    assert_eq!(inline_words(&rankings), "max average groups alpha");
    assert_eq!(inline_words(&[]), "");
}

#[test]
fn words_are_compared_letter_by_letter() {
    let a = Ranking::new("ab", 1, 1, 1);
    let b = Ranking::new("abc", 1, 1, 1);
    let c = Ranking::new("b", 1, 1, 1);
    assert!(a.precedes(&b));
    assert!(b.precedes(&c));
    assert!(a.precedes(&c));
    assert!(!c.precedes(&a));
}

#[test]
fn sorting_keeps_every_ranking() {
    let mut rankings = sample();
    rankings.push(Ranking::new("max", 3, 12, 5));
    let key = |r: &Ranking| (r.word.to_string(), r.groups, r.sum, r.max);
    let mut before: Vec<_> = rankings.iter().map(key).collect();

    sort_rankings_in_place(&mut rankings);

    let mut after: Vec<_> = rankings.iter().map(key).collect();
    before.sort();
    after.sort();
    assert_eq!(before, after);
    assert!(is_sorted(&rankings));
}
