use vstd::prelude::*;

use crate::cache::{
    counts_overflow,
    decimal, digit_char, group_key, pattern_order, stored_group_keys, stored_rankings, word_entries,
};
use crate::consistency::{
    entry_groups, entry_keys, lemma_cache_ranks_as_rank, lemma_decimal_digits, lemma_order_facts,
    lemma_stored_keys,
};
use crate::rank::{best, guess_rankings, sort_rankings, RankingsView};

verus! {

// ----------------------------------------------------------------------------------------
// Keys of the stored entries
// ----------------------------------------------------------------------------------------

/// Different digits have different characters.
proof fn lemma_digit_char_injective(a: nat, b: nat)
    requires
        a < 10,
        b < 10,
        digit_char(a) == digit_char(b),
    ensures
        a == b,
{
    assert(digit_char(a) as u32 == a + 48);
    assert(digit_char(b) as u32 == b + 48);
}

/// A number below ten has one digit; a larger one has more.
proof fn lemma_decimal_len(n: nat)
    ensures
        n < 10 ==> decimal(n).len() == 1,
        n >= 10 ==> decimal(n).len() >= 2,
{
    if n >= 10 {
        lemma_decimal_digits(n / 10);
    }
}

/// Different numbers have different decimal texts.
pub proof fn lemma_decimal_injective(p: nat, q: nat)
    requires
        decimal(p) == decimal(q),
    ensures
        p == q,
    decreases p,
{
    lemma_decimal_len(p);
    lemma_decimal_len(q);
    if p < 10 && q < 10 {
        assert(decimal(p)[0] == digit_char(p));
        assert(decimal(q)[0] == digit_char(q));
        lemma_digit_char_injective(p, q);
    } else if p >= 10 && q >= 10 {
        assert(decimal(p).last() == digit_char(p % 10));
        assert(decimal(q).last() == digit_char(q % 10));
        lemma_digit_char_injective(p % 10, q % 10);
        assert(decimal(p).drop_last() =~= decimal(p / 10));
        assert(decimal(q).drop_last() =~= decimal(q / 10));
        lemma_decimal_injective(p / 10, q / 10);
    }
}

/// Whether `t` is empty or starts with a colon.
pub open spec fn key_tail(t: Seq<char>) -> bool {
    t.len() == 0 || t[0] == ':'
}

/// A word without colon, followed by nothing or by a colon and more, is found again from
/// the text.
proof fn lemma_key_parts(w1: Seq<char>, t1: Seq<char>, w2: Seq<char>, t2: Seq<char>)
    requires
        !w1.contains(':'),
        !w2.contains(':'),
        key_tail(t1),
        key_tail(t2),
        w1 + t1 == w2 + t2,
    ensures
        w1 == w2,
        t1 == t2,
{
    if w1.len() < w2.len() {
        let k = w1.len() as int;
        assert(w2[k] != ':') by {
            if w2[k] == ':' {
                assert(w2.contains(':'));
            }
        }
        assert((w2 + t2)[k] == w2[k]);
        if t1.len() > 0 {
            assert((w1 + t1)[k] == t1[0]);
        }
    } else if w2.len() < w1.len() {
        let k = w2.len() as int;
        assert(w1[k] != ':') by {
            if w1[k] == ':' {
                assert(w1.contains(':'));
            }
        }
        assert((w1 + t1)[k] == w1[k]);
        if t2.len() > 0 {
            assert((w2 + t2)[k] == t2[0]);
        }
    } else {
        assert(w1 =~= (w1 + t1).take(w1.len() as int));
        assert(w2 =~= (w2 + t2).take(w2.len() as int));
        assert(t1 =~= (w1 + t1).skip(w1.len() as int));
        assert(t2 =~= (w2 + t2).skip(w2.len() as int));
    }
}

/// Each key that the cache stores for `word` is `word`, followed by nothing or by a colon
/// and more.
proof fn lemma_entry_key_shape(word: Seq<char>, words: Seq<Seq<char>>)
    ensures
        forall|e: int|
            0 <= e < word_entries(word, words).len() ==> (#[trigger] word_entries(word, words)[e]).0
                == word + word_entries(word, words)[e].0.skip(word.len() as int) && key_tail(
                word_entries(word, words)[e].0.skip(word.len() as int),
            ),
{
    let es = word_entries(word, words);
    let order = pattern_order(word, words);
    lemma_stored_keys(word, words);
    assert forall|e: int| 0 <= e < es.len() implies (#[trigger] es[e]).0 == word + es[e].0.skip(
        word.len() as int,
    ) && key_tail(es[e].0.skip(word.len() as int)) by {
        if e == 0 {
            assert(es[0].0 == word);
            assert(word + word.skip(word.len() as int) =~= word);
        } else {
            let p = order[e - 1];
            assert(es[e].0 == group_key(word, p as nat));
            let t = seq![':'] + decimal(p as nat);
            assert(group_key(word, p as nat) =~= word + t);
            assert((word + t).skip(word.len() as int) =~= t);
            assert(t[0] == ':');
        }
    }
}

/// The cache stores the entries of `word` under different keys.
proof fn lemma_entry_keys_distinct(word: Seq<char>, words: Seq<Seq<char>>)
    requires
        word.len() <= 5,
    ensures
        forall|a: int, b: int|
            0 <= a < b < word_entries(word, words).len() ==> (#[trigger] word_entries(word, words)[a]).0
                != (#[trigger] word_entries(word, words)[b]).0,
{
    let es = word_entries(word, words);
    let order = pattern_order(word, words);
    lemma_stored_keys(word, words);
    lemma_order_facts(word, words);
    assert forall|a: int, b: int| 0 <= a < b < es.len() implies (#[trigger] es[a]).0 != (
    #[trigger] es[b]).0 by {
        let q = order[b - 1];
        assert(es[b].0 == group_key(word, q as nat));
        if a == 0 {
            assert(es[0].0 == word);
            assert(group_key(word, q as nat).len() > word.len());
        } else {
            let p = order[a - 1];
            assert(es[a].0 == group_key(word, p as nat));
            if es[a].0 == es[b].0 {
                let n = word.len() as int + 1;
                assert(group_key(word, p as nat).skip(n) =~= decimal(p as nat));
                assert(group_key(word, q as nat).skip(n) =~= decimal(q as nat));
                lemma_decimal_injective(p as nat, q as nat);
                assert(order[a - 1] == order[b - 1]);
            }
        }
    }
}

/// The entries of two different words, neither with a colon, have different keys.
proof fn lemma_entry_keys_apart(w1: Seq<char>, w2: Seq<char>, words: Seq<Seq<char>>)
    requires
        w1 != w2,
        !w1.contains(':'),
        !w2.contains(':'),
    ensures
        forall|a: int, b: int|
            0 <= a < word_entries(w1, words).len() && 0 <= b < word_entries(w2, words).len()
                ==> (#[trigger] word_entries(w1, words)[a]).0 != (#[trigger] word_entries(
                w2,
                words,
            )[b]).0,
{
    lemma_entry_key_shape(w1, words);
    lemma_entry_key_shape(w2, words);
    let e1 = word_entries(w1, words);
    let e2 = word_entries(w2, words);
    assert forall|a: int, b: int| 0 <= a < e1.len() && 0 <= b < e2.len() implies (
    #[trigger] e1[a]).0 != (#[trigger] e2[b]).0 by {
        if e1[a].0 == e2[b].0 {
            lemma_key_parts(
                w1,
                e1[a].0.skip(w1.len() as int),
                w2,
                e2[b].0.skip(w2.len() as int),
            );
        }
    }
}

// ----------------------------------------------------------------------------------------
// Writing entries into a store
// ----------------------------------------------------------------------------------------

/// The store after writing `entries` into `store` in order: a later entry replaces an
/// earlier one under the same key.
pub open spec fn written(
    store: Map<Seq<char>, Seq<char>>,
    entries: Seq<(Seq<char>, Seq<char>)>,
) -> Map<Seq<char>, Seq<char>>
    decreases entries.len(),
{
    if entries.len() == 0 {
        store
    } else {
        written(store, entries.drop_last()).insert(entries.last().0, entries.last().1)
    }
}

/// Writing two runs of entries is writing the first, then the second.
proof fn lemma_written_concat(
    store: Map<Seq<char>, Seq<char>>,
    a: Seq<(Seq<char>, Seq<char>)>,
    b: Seq<(Seq<char>, Seq<char>)>,
)
    ensures
        written(store, a + b) == written(written(store, a), b),
    decreases b.len(),
{
    if b.len() == 0 {
        assert(a + b =~= a);
    } else {
        assert((a + b).drop_last() =~= a + b.drop_last());
        assert((a + b).last() == b.last());
        lemma_written_concat(store, a, b.drop_last());
    }
}

/// Writing entries under other keys leaves a key as it was.
proof fn lemma_written_other(
    store: Map<Seq<char>, Seq<char>>,
    entries: Seq<(Seq<char>, Seq<char>)>,
    key: Seq<char>,
)
    requires
        forall|j: int| 0 <= j < entries.len() ==> (#[trigger] entries[j]).0 != key,
    ensures
        written(store, entries).contains_key(key) == store.contains_key(key),
        store.contains_key(key) ==> written(store, entries)[key] == store[key],
    decreases entries.len(),
{
    if entries.len() > 0 {
        assert(entries[entries.len() - 1] == entries.last());
        assert forall|j: int| 0 <= j < entries.drop_last().len() implies (
        #[trigger] entries.drop_last()[j]).0 != key by {
            assert(entries.drop_last()[j] == entries[j]);
        }
        lemma_written_other(store, entries.drop_last(), key);
    }
}

/// An entry whose key no later entry has is what the store holds under that key.
proof fn lemma_written_last(
    store: Map<Seq<char>, Seq<char>>,
    entries: Seq<(Seq<char>, Seq<char>)>,
    e: int,
)
    requires
        0 <= e < entries.len(),
        forall|j: int| e < j < entries.len() ==> (#[trigger] entries[j]).0 != entries[e].0,
    ensures
        written(store, entries).contains_key(entries[e].0),
        written(store, entries)[entries[e].0] == entries[e].1,
    decreases entries.len(),
{
    if e < entries.len() - 1 {
        assert(entries[entries.len() - 1] == entries.last());
        assert forall|j: int| e < j < entries.drop_last().len() implies (
        #[trigger] entries.drop_last()[j]).0 != entries.drop_last()[e].0 by {
            assert(entries.drop_last()[j] == entries[j]);
        }
        lemma_written_last(store, entries.drop_last(), e);
    }
}

// ----------------------------------------------------------------------------------------
// The store that the cache writes, read back
// ----------------------------------------------------------------------------------------

/// The entries that the cache stores for each of `ws` against `words`, word by word.
pub open spec fn all_entries(ws: Seq<Seq<char>>, words: Seq<Seq<char>>) -> Seq<
    (Seq<char>, Seq<char>),
>
    decreases ws.len(),
{
    if ws.len() == 0 {
        Seq::empty()
    } else {
        all_entries(ws.drop_last(), words) + word_entries(ws.last(), words)
    }
}

/// The store that writing the entries of every word of `words` into an empty store gives.
pub open spec fn cache_store(words: Seq<Seq<char>>) -> Map<Seq<char>, Seq<char>> {
    written(Map::empty(), all_entries(words, words))
}

/// The groups that reading `store` gives for `word`: those under the keys that the list
/// stored under `word` names, in order.
pub open spec fn read_groups(store: Map<Seq<char>, Seq<char>>, word: Seq<char>) -> Seq<Seq<char>> {
    stored_group_keys(word, store[word]).map_values(|k: Seq<char>| store[k])
}

/// The groups that reading `store` gives for each of `candidates`.
pub open spec fn read_all(store: Map<Seq<char>, Seq<char>>, candidates: Seq<Seq<char>>) -> Seq<
    Seq<Seq<char>>,
> {
    candidates.map_values(|c: Seq<char>| read_groups(store, c))
}

/// After the entries of the first `n` words are written, the store holds each entry of
/// word `i`, for `i` below `n`.
proof fn lemma_prefix_holds(words: Seq<Seq<char>>, i: int, n: int, e: int)
    requires
        words.no_duplicates(),
        forall|k: int|
            0 <= k < words.len() ==> (#[trigger] words[k]).len() <= 5 && !words[k].contains(':'),
        0 <= i < n <= words.len(),
        0 <= e < word_entries(words[i], words).len(),
    ensures
        written(Map::empty(), all_entries(words.take(n), words)).contains_key(
            word_entries(words[i], words)[e].0,
        ),
        written(Map::empty(), all_entries(words.take(n), words))[word_entries(
            words[i],
            words,
        )[e].0] == word_entries(words[i], words)[e].1,
    decreases n,
{
    let c = words[i];
    let es = word_entries(c, words);
    let pre = words.take(n - 1);
    let last = word_entries(words[n - 1], words);
    assert(words.take(n).drop_last() =~= pre);
    assert(words.take(n).last() == words[n - 1]);
    lemma_written_concat(Map::empty(), all_entries(pre, words), last);
    let before = written(Map::empty(), all_entries(pre, words));
    if n - 1 == i {
        lemma_entry_keys_distinct(c, words);
        lemma_written_last(before, es, e);
    } else {
        lemma_prefix_holds(words, i, n - 1, e);
        assert(words[n - 1] != c);
        assert(words[n - 1].len() <= 5 && !words[n - 1].contains(':'));
        assert(c.len() <= 5 && !c.contains(':'));
        lemma_entry_keys_apart(c, words[n - 1], words);
        assert forall|j: int| 0 <= j < last.len() implies (#[trigger] last[j]).0 != es[e].0 by {
            assert(es[e].0 != last[j].0);
        }
        lemma_written_other(before, last, es[e].0);
    }
}

/// The store that the cache writes for `words` holds each entry of word `i`.
proof fn lemma_store_holds(words: Seq<Seq<char>>, i: int)
    requires
        words.no_duplicates(),
        forall|k: int|
            0 <= k < words.len() ==> (#[trigger] words[k]).len() <= 5 && !words[k].contains(':'),
        0 <= i < words.len(),
    ensures
        forall|e: int|
            0 <= e < word_entries(words[i], words).len() ==> cache_store(words).contains_key(
                (#[trigger] word_entries(words[i], words)[e]).0,
            ) && cache_store(words)[word_entries(words[i], words)[e].0] == word_entries(
                words[i],
                words,
            )[e].1,
{
    assert(words.take(words.len() as int) =~= words);
    assert forall|e: int| 0 <= e < word_entries(words[i], words).len() implies cache_store(
        words,
    ).contains_key((#[trigger] word_entries(words[i], words)[e]).0) && cache_store(words)[word_entries(
        words[i],
        words,
    )[e].0] == word_entries(words[i], words)[e].1 by {
        lemma_prefix_holds(words, i, words.len() as int, e);
    }
}

/// Reading back what the cache wrote ranks as ranking directly does. Where the cache
/// wrote the entries of every word of `words` into an empty store, the store holds the
/// list of each candidate and each group that the list names; and ranking each candidate
/// in order by the groups read back, into a collection that keeps the best `limit`, gives
/// in ranking order what ranking the candidates against themselves gives; no word's
/// counts add up past `usize::MAX`, so ranking from the store gives a result. It holds
/// where neither list repeats a word, no word is longer than five letters or holds a comma
/// or a colon, every candidate is a word, and the candidates fit in memory.
pub proof fn lemma_store_ranks_as_rank(
    words: Seq<Seq<char>>,
    candidates: Seq<Seq<char>>,
    limit: Option<nat>,
)
    requires
        words.no_duplicates(),
        candidates.no_duplicates(),
        forall|i: int|
            0 <= i < words.len() ==> (#[trigger] words[i]).len() <= 5 && !words[i].contains(',')
                && !words[i].contains(':'),
        forall|i: int| 0 <= i < candidates.len() ==> words.contains(#[trigger] candidates[i]),
        candidates.len() <= usize::MAX,
    ensures
        forall|i: int|
            0 <= i < candidates.len() ==> cache_store(words).contains_key(#[trigger] candidates[i]),
        forall|i: int, j: int|
            0 <= i < candidates.len() && 0 <= j < stored_group_keys(
                candidates[i],
                cache_store(words)[candidates[i]],
            ).len() ==> cache_store(words).contains_key(
                #[trigger] stored_group_keys(candidates[i], cache_store(words)[candidates[i]])[j],
            ),
        RankingsView::empty(limit).pushed_all(
            stored_rankings(
                candidates,
                read_all(cache_store(words), candidates),
                candidates.to_set(),
            ),
        ).sorted_contents() == best(limit, sort_rankings(guess_rankings(candidates, candidates))),
        !counts_overflow(read_all(cache_store(words), candidates), candidates.to_set()),
{
    let store = cache_store(words);
    let stored = read_all(store, candidates);
    assert forall|k: int| 0 <= k < words.len() implies (#[trigger] words[k]).len() <= 5 && !words[k].contains(':') by {
        assert(words[k].len() <= 5 && !words[k].contains(',') && !words[k].contains(':'));
    }
    assert forall|i: int| 0 <= i < candidates.len() implies store.contains_key(
        #[trigger] candidates[i],
    ) && stored_group_keys(candidates[i], store[candidates[i]]) == entry_keys(
        word_entries(candidates[i], words),
    ) && stored[i] == entry_groups(word_entries(candidates[i], words)) by {
        let c = candidates[i];
        assert(words.contains(c));
        let k = choose|k: int| 0 <= k < words.len() && words[k] == c;
        assert(words[k].len() <= 5 && !words[k].contains(','));
        lemma_store_holds(words, k);
        let es = word_entries(c, words);
        lemma_stored_keys(c, words);
        assert(es[0].0 == c);
        assert(store[c] == es[0].1);
        let keys = stored_group_keys(c, store[c]);
        assert(keys =~= entry_keys(es)) by {
            assert forall|j: int| 0 <= j < keys.len() implies #[trigger] keys[j] == entry_keys(es)[j] by {
                assert(es[j + 1].0 == entry_keys(es)[j]);
            }
        }
        assert forall|j: int| 0 <= j < keys.len() implies store.contains_key(#[trigger] keys[j])
            && store[keys[j]] == entry_groups(es)[j] by {
            assert(keys[j] == es[j + 1].0);
            assert(store.contains_key(es[j + 1].0));
        }
        assert(stored[i] =~= entry_groups(es));
    }
    assert forall|i: int, j: int|
        0 <= i < candidates.len() && 0 <= j < stored_group_keys(
            candidates[i],
            store[candidates[i]],
        ).len() implies store.contains_key(
            #[trigger] stored_group_keys(candidates[i], store[candidates[i]])[j],
        ) by {
        let c = candidates[i];
        let es = word_entries(c, words);
        let k = choose|k: int| 0 <= k < words.len() && words[k] == c;
        lemma_store_holds(words, k);
        lemma_stored_keys(c, words);
        assert(stored_group_keys(c, store[c]) == entry_keys(es));
        assert(entry_keys(es)[j] == es[j + 1].0);
    }
    lemma_cache_ranks_as_rank(words, candidates, stored, limit);
}

} // verus!
