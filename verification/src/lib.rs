use vstd::prelude::*;

pub mod cache;
pub mod consistency;
pub mod dictionary;
pub mod freq;
pub mod location;
pub mod pattern;
pub mod rank;
pub mod rule;
pub mod store;
pub mod text;

pub use cache::{
    cached_ranking, count_members, group_keys, rank_stored, CacheRanking, CandidateSet, WordList,
};
pub use dictionary::{dictionary_from_file, parse_dictionary};
pub use freq::CharFreq;
pub use location::{cache_base, CacheBase};
pub use pattern::{pattern_groups, Pattern};
pub use rank::{inline_words, rank, sort_rankings_in_place, Ranking, Rankings};
pub use rule::{CharPos, Rule, RuleError, RuleSet, RuleSetBuilder};

verus! {
}
