use std::collections::HashMap;

use wordles::cache::decimal_chars;
use wordles::{
    cache_base, cached_ranking, count_members, group_keys, rank, rank_stored, CacheBase,
    CacheRanking, CandidateSet, Pattern, Ranking, WordList,
};

#[test]
fn decimal_writes_numbers_without_leading_zeros() {
    let text = |n: u16| decimal_chars(n).into_iter().collect::<String>();
    assert_eq!(text(0), "0");
    assert_eq!(text(7), "7");
    assert_eq!(text(10), "10");
    assert_eq!(text(341), "341");
    assert_eq!(text(65535), "65535");
    assert_eq!(Pattern::from(682).to_string(), "682");
}

#[test]
fn entries_list_patterns_in_order_of_first_occurrence() {
    let words = ["abcde", "abcdf", "xyzzy", "abcdg"];
    let list = WordList::new(&words);
    let entries = list.entries(0);
    // abcde against abcde: all hits (341); abcdf and abcdg: four hits (340); xyzzy: empty.
    assert_eq!(
        entries,
        vec![
            ("abcde".to_string(), "341,340".to_string()),
            ("abcde:341".to_string(), "abcde".to_string()),
            ("abcde:340".to_string(), "abcdf,abcdg".to_string()),
        ]
    );
    let entries = list.entries(2);
    assert_eq!(
        entries,
        vec![
            ("xyzzy".to_string(), "341".to_string()),
            ("xyzzy:341".to_string(), "xyzzy".to_string()),
        ]
    );
}

#[test]
fn group_keys_skip_empty_values() {
    let keys = group_keys("slate", "12,,340,");
    assert_eq!(keys, vec!["slate:12".to_string(), "slate:340".to_string()]);
    assert!(group_keys("slate", "").is_empty());
}

#[test]
fn count_members_counts_candidates_in_a_group() {
    let set = CandidateSet::new(&["slate", "crate"]);
    assert!(set.contains("slate"));
    assert!(!set.contains("trace"));
    assert_eq!(count_members("slate,trace,crate", &set), 2);
    assert_eq!(count_members("", &set), 0);
    assert_eq!(count_members("trace", &set), 0);
}

#[test]
fn cached_ranking_scores_the_groups_with_candidates() {
    let ranking = cached_ranking("slate", &[0, 3, 1, 0, 2]).unwrap();
    assert_eq!(ranking.word, "slate");
    assert_eq!((ranking.groups, ranking.sum, ranking.max), (3, 6, 3));
    assert!(cached_ranking("slate", &[0, 0]).is_none());
    assert!(cached_ranking("slate", &[]).is_none());
}

#[test]
fn cache_reads_back_what_ranking_computes() {
    let words = ["crate", "slate", "trace", "react", "caret", "plumb", "abbey"];
    let candidates = ["slate", "trace", "caret", "plumb"];

    // What the cache stores for every word.
    let list = WordList::new(&words);
    let mut store: HashMap<String, String> = HashMap::new();
    for index in 0..list.len() {
        for (key, value) in list.entries(index) {
            store.insert(key, value);
        }
    }

    // What reading the store gives for every candidate.
    let set = CandidateSet::new(&candidates);
    let mut from_cache = Vec::new();
    for &word in &candidates {
        let stored = &store[word];
        let counts: Vec<usize> = group_keys(word, stored)
            .iter()
            .map(|key| count_members(&store[key], &set))
            .collect();
        if let Some(ranking) = cached_ranking(word, &counts) {
            from_cache.push((ranking.word, ranking.groups, ranking.sum, ranking.max));
        }
    }

    let mut direct: Vec<_> = rank(&candidates, None)
        .into_iter()
        .map(|r| (r.word, r.groups, r.sum, r.max))
        .collect();
    from_cache.sort();
    direct.sort();
    assert_eq!(from_cache, direct);
}

fn scores(rankings: &[Ranking]) -> Vec<(String, usize, usize, usize)> {
    rankings
        .iter()
        .map(|r| (r.word.to_string(), r.groups, r.sum, r.max))
        .collect()
}

/// What the cache stores for every word of `words`.
fn store_of(words: &[&str]) -> HashMap<String, String> {
    let list = WordList::new(words);
    let mut store: HashMap<String, String> = HashMap::new();
    for index in 0..list.len() {
        for (key, value) in list.entries(index) {
            store.insert(key, value);
        }
    }
    store
}

/// The groups that the store gives back for each candidate.
fn read_back<'s>(store: &'s HashMap<String, String>, candidates: &[&str]) -> Vec<Vec<&'s str>> {
    candidates
        .iter()
        .map(|&word| {
            group_keys(word, &store[word])
                .iter()
                .map(|key| store[key].as_str())
                .collect()
        })
        .collect()
}

#[test]
fn ranking_from_the_cache_equals_ranking_directly() {
    let words = ["crate", "slate", "trace", "react", "caret", "plumb", "abbey"];
    let candidates = ["slate", "trace", "caret", "plumb", "abbey"];
    let store = store_of(&words);
    let stored = read_back(&store, &candidates);
    for limit in [None, Some(0), Some(2), Some(10)] {
        let from_cache = rank_stored(&candidates, &stored, limit).unwrap();
        let direct = rank(&candidates, limit);
        assert_eq!(scores(&from_cache), scores(&direct));
    }
}

#[test]
fn cache_ranking_adds_one_word_at_a_time() {
    let candidates = ["slate", "crate"];
    let mut ranking = CacheRanking::new(&candidates, Some(5));
    // Groups of slate: two candidates, one, none.
    assert!(ranking.add("slate", &["slate,crate,trace", "crate", "plumb"]));
    // No group of plumb holds a candidate: it is left out.
    assert!(ranking.add("plumb", &["plumb", "abbey,trace"]));
    assert!(ranking.add("crate", &["crate"]));
    let rankings = ranking.finish();
    assert_eq!(
        scores(&rankings),
        vec![
            ("slate".to_string(), 2, 3, 2),
            ("crate".to_string(), 1, 1, 1),
        ]
    );
}

#[test]
fn cache_ranking_of_no_candidates_is_empty() {
    let stored: Vec<Vec<&str>> = Vec::new();
    assert!(rank_stored(&[], &stored, None).unwrap().is_empty());
}

#[test]
fn cache_lies_under_xdg_cache_home_then_home() {
    assert_eq!(cache_base(true, true), Some(CacheBase::XdgCacheHome));
    assert_eq!(cache_base(true, false), Some(CacheBase::XdgCacheHome));
    assert_eq!(cache_base(false, true), Some(CacheBase::Home));
    assert_eq!(cache_base(false, false), None);
    assert_eq!(CacheBase::XdgCacheHome.subdirs(), vec!["wordles"]);
    assert_eq!(CacheBase::Home.subdirs(), vec![".cache", "wordles"]);
}
