use vstd::prelude::*;
use vstd::hash_set::StringHashSet;
use std::collections::HashMap;

use crate::pattern::{diff_chars, encode};
use crate::rank::{
    lemma_encode_below, limit_view, pattern_values, ranking_views, Ranking, RankingView, Rankings,
    RankingsView,
};
use crate::rule::split_commas;
use crate::text::{chars_of, chars_of_all, join, push_chars, push_char, split_exec, string_from_chars, views};

verus! {

// ----------------------------------------------------------------------------------------
// Text of the stored entries
// ----------------------------------------------------------------------------------------

/// The character of the decimal digit `d`.
pub open spec fn digit_char(d: nat) -> char {
    ((d + 48) as u8) as char
}

/// `n` in decimal, without leading zeros.
pub open spec fn decimal(n: nat) -> Seq<char>
    decreases n,
{
    if n < 10 {
        seq![digit_char(n)]
    } else {
        decimal(n / 10).push(digit_char(n % 10))
    }
}

/// The key under which the cache stores the group of pattern value `p` of `word`.
pub open spec fn group_key(word: Seq<char>, p: nat) -> Seq<char> {
    word + seq![':'] + decimal(p)
}

/// The non-empty pattern values that `candidates` give `word`, each once, in the order of
/// their first occurrence.
pub open spec fn pattern_order(word: Seq<char>, candidates: Seq<Seq<char>>) -> Seq<u16>
    decreases candidates.len(),
{
    if candidates.len() == 0 {
        Seq::empty()
    } else {
        let prev = pattern_order(word, candidates.drop_last());
        let p = encode(word, candidates.last());
        if p != 0 && !prev.contains(p) {
            prev.push(p)
        } else {
            prev
        }
    }
}

/// The candidates that give `word` the pattern value `p`, in order.
pub open spec fn pattern_group(word: Seq<char>, candidates: Seq<Seq<char>>, p: u16) -> Seq<
    Seq<char>,
>
    decreases candidates.len(),
{
    if candidates.len() == 0 {
        Seq::empty()
    } else {
        let prev = pattern_group(word, candidates.drop_last(), p);
        if encode(word, candidates.last()) == p {
            prev.push(candidates.last())
        } else {
            prev
        }
    }
}

/// The entries that the cache stores for `word` against `candidates`: under `word`, its
/// pattern values joined by commas; then, for each pattern value in order, the group of
/// candidates joined by commas under the key of the value.
pub open spec fn word_entries(word: Seq<char>, candidates: Seq<Seq<char>>) -> Seq<
    (Seq<char>, Seq<char>),
> {
    let order = pattern_order(word, candidates);
    seq![(word, join(order.map_values(|p: u16| decimal(p as nat)), ','))] + order.map_values(
        |p: u16| (group_key(word, p as nat), join(pattern_group(word, candidates, p), ',')),
    )
}

/// What the key and value texts of `entries` say.
pub open spec fn entry_views(entries: Seq<(String, String)>) -> Seq<(Seq<char>, Seq<char>)> {
    entries.map_values(|e: (String, String)| (e.0@, e.1@))
}

/// The character of the decimal digit `d`.
fn digit_char_exec(d: u16) -> (c: char)
    requires
        d < 10,
    ensures
        c == digit_char(d as nat),
{
    let b: u8 = (d as u8) + 48;
    b as char
}

/// `n` in decimal.
pub fn decimal_chars(n: u16) -> (v: Vec<char>)
    ensures
        v@ == decimal(n as nat),
{
    let mut v: Vec<char> = Vec::new();
    v.push(digit_char_exec(n % 10));
    let mut m: u16 = n / 10;
    while m > 0
        invariant
            m > 0 ==> decimal(n as nat) == decimal(m as nat) + v@,
            m == 0 ==> decimal(n as nat) == v@,
        decreases m,
    {
        let ghost old_v = v@;
        v.insert(0, digit_char_exec(m % 10));
        assert(v@ =~= seq![digit_char((m % 10) as nat)] + old_v);
        let ghost old_m = m;
        m = m / 10;
        proof {
            if m > 0 {
                assert(decimal(old_m as nat) =~= decimal(m as nat).push(digit_char((old_m % 10) as nat)));
                assert(decimal(n as nat) =~= decimal(m as nat) + v@);
            } else {
                assert(decimal(n as nat) =~= v@);
            }
        }
    }
    v
}

// ----------------------------------------------------------------------------------------
// Words prepared for the cache
// ----------------------------------------------------------------------------------------

/// A list of words, each also held as its letters.
pub struct WordList<'a> {
    words: Vec<&'a str>,
    letters: Vec<Vec<char>>,
}

impl<'a> View for WordList<'a> {
    type V = Seq<Seq<char>>;

    closed spec fn view(&self) -> Seq<Seq<char>> {
        views(self.words@)
    }
}

impl<'a> WordList<'a> {
    /// The list holds the letters of each of its words.
    #[verifier::type_invariant]
    closed spec fn well_formed(self) -> bool {
        self.letters.deep_view() == views(self.words@)
    }

    /// The list of `words`, in order.
    pub fn new(words: &[&'a str]) -> (l: WordList<'a>)
        ensures
            l@ == views(words@),
    {
        let mut list: Vec<&'a str> = Vec::new();
        let mut i: usize = 0;
        while i < words.len()
            invariant
                i <= words@.len(),
                list@ == words@.take(i as int),
            decreases words@.len() - i,
        {
            list.push(words[i]);
            i += 1;
            assert(list@ =~= words@.take(i as int));
        }
        assert(words@.take(i as int) =~= words@);
        let letters = chars_of_all(&list);
        WordList { words: list, letters }
    }

    /// How many words the list holds.
    pub fn len(&self) -> (n: usize)
        ensures
            n == self@.len(),
    {
        self.words.len()
    }

    /// Word `i` of the list.
    pub fn word(&self, i: usize) -> (w: &'a str)
        requires
            i < self@.len(),
        ensures
            w@ == self@[i as int],
    {
        self.words[i]
    }

    /// The entries that the cache stores for word `i` of the list, against every word of the
    /// list.
    pub fn entries(&self, i: usize) -> (r: Vec<(String, String)>)
        requires
            i < self@.len(),
            self@[i as int].len() <= 5,
        ensures
            entry_views(r@) == word_entries(self@[i as int], self@),
    {
        broadcast use vstd::std_specs::hash::group_hash_axioms;

        proof {
            use_type_invariant(self);
        }
        let ghost word = self@[i as int];
        let ghost cands = self@;
        assert(self.letters@[i as int]@ == word);
        let w = &self.letters[i];
        // groups[p]: the candidates, by index, that give the pattern value p.
        let mut groups: HashMap<u16, Vec<usize>> = HashMap::new();
        let mut order: Vec<u16> = Vec::new();
        let mut j: usize = 0;
        while j < self.letters.len()
            invariant
                self.well_formed(),
                i < cands.len(),
                word == self@[i as int],
                w@ == word,
                word.len() <= 5,
                cands == self@,
                j <= cands.len(),
                order@ == pattern_order(word, cands.take(j as int)),
                forall|q: u16| #[trigger] groups@.contains_key(q) <==> order@.contains(q),
                forall|q: u16| #[trigger] groups@.contains_key(q) ==> q != 0,
                forall|q: u16|
                    #[trigger] groups@.contains_key(q) ==> groups@[q]@.map_values(
                        |k: usize| cands[k as int],
                    ) == pattern_group(word, cands.take(j as int), q),
                forall|q: u16|
                    q != 0 && !(#[trigger] groups@.contains_key(q)) ==> pattern_group(
                        word,
                        cands.take(j as int),
                        q,
                    ).len() == 0,
                forall|q: u16, m: int|
                    groups@.contains_key(q) && 0 <= m < groups@[q]@.len() ==> #[trigger] groups@[q]@[m]
                        < j,
            decreases cands.len() - j,
        {
            assert(self.letters@[j as int]@ == cands[j as int]);
            let p = diff_chars(w.as_slice(), self.letters[j].as_slice());
            let ghost prev = cands.take(j as int);
            assert(cands.take(j + 1).drop_last() =~= prev);
            assert(cands.take(j + 1).last() == cands[j as int]);
            assert(p == encode(word, cands[j as int]));
            if p != 0 {
                let ghost old_order = order@;
                let ghost old_groups = groups@;
                let mut g: Vec<usize> = match groups.remove(&p) {
                    Some(g) => g,
                    None => {
                        order.push(p);
                        assert(order@[order@.len() - 1] == p);
                        Vec::new()
                    },
                };
                assert(g@.map_values(|k: usize| cands[k as int]) == pattern_group(word, prev, p));
                assert(order@.contains(p));
                assert(order@ == pattern_order(word, cands.take(j + 1)));
                let ghost old_g = g@;
                g.push(j);
                groups.insert(p, g);
                assert(groups@ == old_groups.insert(p, g));
                assert forall|q: u16| #[trigger] groups@.contains_key(q) <==> order@.contains(q) by {
                    if q != p {
                        if old_order.contains(q) {
                            let r = choose|r: int| 0 <= r < old_order.len() && old_order[r] == q;
                            assert(order@[r] == q);
                        }
                        if order@.contains(q) {
                            let r = choose|r: int| 0 <= r < order@.len() && order@[r] == q;
                            if r < old_order.len() {
                                assert(old_order[r] == q);
                            }
                        }
                    }
                }
                assert forall|q: u16| #[trigger] groups@.contains_key(q) implies groups@[q]@.map_values(
                    |k: usize| cands[k as int],
                ) == pattern_group(word, cands.take(j + 1), q) by {
                    if q == p {
                        assert(groups@[q]@ == old_g.push(j));
                        assert(old_g.push(j).map_values(|k: usize| cands[k as int]) =~= old_g.map_values(
                            |k: usize| cands[k as int],
                        ).push(cands[j as int]));
                    }
                }
                assert forall|q: u16, m: int|
                    groups@.contains_key(q) && 0 <= m < groups@[q]@.len() implies #[trigger] groups@[q]@[m]
                        < j + 1 by {
                    if q == p {
                        assert(groups@[q]@ == old_g.push(j));
                        if m < old_g.len() {
                            assert(old_g[m] == groups@[q]@[m]);
                        }
                    }
                }
            } else {
                assert forall|q: u16| #[trigger] groups@.contains_key(q) implies groups@[q]@.map_values(
                    |k: usize| cands[k as int],
                ) == pattern_group(word, cands.take(j + 1), q) by {
                }
            }
            j += 1;
        }
        assert(cands.take(j as int) =~= cands);
        let mut entries: Vec<(String, String)> = Vec::new();
        let patterns = join_decimals(&order);
        entries.push((string_from_chars(w.as_slice()), patterns));
        let ghost all = word_entries(word, cands);
        assert(entry_views(entries@) =~= all.take(1));
        let mut k: usize = 0;
        while k < order.len()
            invariant
                self.well_formed(),
                word.len() <= 5,
                cands == self@,
                w@ == word,
                order@ == pattern_order(word, cands),
                all == word_entries(word, cands),
                all.len() == order@.len() + 1,
                k <= order@.len(),
                entry_views(entries@) == all.take(k + 1),
                forall|q: u16| #[trigger] groups@.contains_key(q) <==> order@.contains(q),
                forall|q: u16|
                    #[trigger] groups@.contains_key(q) ==> groups@[q]@.map_values(
                        |m: usize| cands[m as int],
                    ) == pattern_group(word, cands, q),
                forall|q: u16, m: int|
                    groups@.contains_key(q) && 0 <= m < groups@[q]@.len() ==> #[trigger] groups@[q]@[m]
                        < cands.len(),
            decreases order@.len() - k,
        {
            let p = order[k];
            proof {
                lemma_order_nonzero(word, cands, k as int);
            }
            let mut key = string_from_chars(w.as_slice());
            push_char(&mut key, ':');
            let digits = decimal_chars(p);
            push_chars(&mut key, digits.as_slice());
            assert(order@[k as int] == p);
            assert(groups@.contains_key(p));
            let value = match groups.get(&p) {
                Some(g) => self.join_words(g),
                None => String::new(),
            };
            assert(key@ =~= group_key(word, p as nat));
            assert(value@ == join(pattern_group(word, cands, p), ','));
            assert(all[k + 1] == (group_key(word, p as nat), join(pattern_group(word, cands, p), ',')));
            let ghost before = entry_views(entries@);
            entries.push((key, value));
            assert(entry_views(entries@) =~= before.push((key@, value@)));
            assert(all.take(k + 2) =~= all.take(k + 1).push(all[k + 1]));
            k += 1;
        }
        assert(all.take(k + 1) =~= all);
        entries
    }

    /// The words at the indices `idx`, joined by commas.
    fn join_words(&self, idx: &Vec<usize>) -> (s: String)
        requires
            forall|m: int| 0 <= m < idx@.len() ==> #[trigger] idx@[m] < self@.len(),
        ensures
            s@ == join(idx@.map_values(|k: usize| self@[k as int]), ','),
    {
        let ghost parts = idx@.map_values(|k: usize| self@[k as int]);
        let mut s = String::new();
        let mut m: usize = 0;
        while m < idx.len()
            invariant
                m <= idx@.len(),
                parts == idx@.map_values(|k: usize| self@[k as int]),
                forall|q: int| 0 <= q < idx@.len() ==> #[trigger] idx@[q] < self@.len(),
                s@ == join(parts.take(m as int), ','),
            decreases idx@.len() - m,
        {
            assert(parts.take(m + 1).drop_last() =~= parts.take(m as int));
            if m > 0 {
                push_char(&mut s, ',');
            }
            let word: &str = self.words[idx[m]];
            s.append(word);
            assert(parts.take(m + 1) =~= parts.take(m as int).push(self@[idx@[m as int] as int]));
            if m == 0 {
                assert(s@ =~= join(parts.take(m + 1), ','));
            }
            m += 1;
        }
        assert(parts.take(m as int) =~= parts);
        s
    }
}

/// The pattern values `order` in decimal, joined by commas.
fn join_decimals(order: &Vec<u16>) -> (s: String)
    ensures
        s@ == join(order@.map_values(|p: u16| decimal(p as nat)), ','),
{
    let ghost parts = order@.map_values(|p: u16| decimal(p as nat));
    let mut s = String::new();
    let mut m: usize = 0;
    while m < order.len()
        invariant
            m <= order@.len(),
            parts == order@.map_values(|p: u16| decimal(p as nat)),
            s@ == join(parts.take(m as int), ','),
        decreases order@.len() - m,
    {
        assert(parts.take(m + 1).drop_last() =~= parts.take(m as int));
        if m > 0 {
            push_char(&mut s, ',');
        }
        let digits = decimal_chars(order[m]);
        push_chars(&mut s, digits.as_slice());
        if m == 0 {
            assert(s@ =~= join(parts.take(m + 1), ','));
        }
        m += 1;
    }
    assert(parts.take(m as int) =~= parts);
    s
}

/// The pattern values of the order are not empty ones.
pub proof fn lemma_order_nonzero(word: Seq<char>, candidates: Seq<Seq<char>>, k: int)
    requires
        word.len() <= 5,
        0 <= k < pattern_order(word, candidates).len(),
    ensures
        pattern_order(word, candidates)[k] != 0,
        pattern_order(word, candidates)[k] < pattern_values(),
    decreases candidates.len(),
{
    let prev = pattern_order(word, candidates.drop_last());
    if k < prev.len() {
        lemma_order_nonzero(word, candidates.drop_last(), k);
    } else {
        lemma_encode_below(word, candidates.last());
    }
}

// ----------------------------------------------------------------------------------------
// Reading the stored entries
// ----------------------------------------------------------------------------------------

/// The keys `word`, a colon and the piece, for each non-empty piece of `pieces`.
pub open spec fn keys_for(word: Seq<char>, pieces: Seq<Seq<char>>) -> Seq<Seq<char>>
    decreases pieces.len(),
{
    if pieces.len() == 0 {
        Seq::empty()
    } else {
        let prev = keys_for(word, pieces.drop_last());
        if pieces.last().len() > 0 {
            prev.push(word + seq![':'] + pieces.last())
        } else {
            prev
        }
    }
}

/// The keys of the groups that the stored list of pattern values `stored` of `word` names:
/// `word`, a colon and the value, for each non-empty value between commas.
pub open spec fn stored_group_keys(word: Seq<char>, stored: Seq<char>) -> Seq<Seq<char>> {
    keys_for(word, split_commas(stored))
}

/// The texts of `strings`.
pub open spec fn string_views(strings: Seq<String>) -> Seq<Seq<char>> {
    strings.map_values(|s: String| s@)
}

/// The keys of the groups that the stored list of pattern values `stored` of `word` names.
pub fn group_keys(word: &str, stored: &str) -> (keys: Vec<String>)
    ensures
        string_views(keys@) == stored_group_keys(word@, stored@),
{
    let w = chars_of(word);
    let s = chars_of(stored);
    let pieces = split_exec(s.as_slice(), ',');
    let ghost all = pieces.deep_view();
    let mut keys: Vec<String> = Vec::new();
    let mut i: usize = 0;
    while i < pieces.len()
        invariant
            i <= pieces@.len(),
            all == pieces.deep_view(),
            all == split_commas(stored@),
            w@ == word@,
            string_views(keys@) == keys_for(word@, all.take(i as int)),
        decreases pieces@.len() - i,
    {
        assert(all.take(i + 1).drop_last() =~= all.take(i as int));
        assert(all.take(i + 1).last() == pieces@[i as int]@);
        let ghost before = string_views(keys@);
        if pieces[i].len() > 0 {
            let mut key = string_from_chars(w.as_slice());
            push_char(&mut key, ':');
            push_chars(&mut key, pieces[i].as_slice());
            assert(key@ =~= word@ + seq![':'] + all[i as int]);
            keys.push(key);
            assert(string_views(keys@) =~= before.push(key@));
        }
        i += 1;
    }
    assert(all.take(i as int) =~= all);
    keys
}

/// A set of candidate words.
pub struct CandidateSet {
    set: StringHashSet,
}

impl View for CandidateSet {
    type V = Set<Seq<char>>;

    closed spec fn view(&self) -> Set<Seq<char>> {
        self.set@
    }
}

impl CandidateSet {
    /// The set of `words`.
    pub fn new(words: &[&str]) -> (s: CandidateSet)
        ensures
            s@ == views(words@).to_set(),
    {
        let mut set = StringHashSet::new();
        let mut i: usize = 0;
        while i < words.len()
            invariant
                i <= words@.len(),
                set@ == views(words@).take(i as int).to_set(),
            decreases words@.len() - i,
        {
            let ghost before = views(words@).take(i as int);
            set.insert(words[i].to_owned());
            assert(views(words@).take(i + 1) =~= before.push(words@[i as int]@));
            assert(set@ =~= views(words@).take(i + 1).to_set()) by {
                assert forall|x: Seq<char>| set@.contains(x) <==> views(words@).take(
                    i + 1,
                ).to_set().contains(x) by {
                    let after = views(words@).take(i + 1);
                    if before.contains(x) {
                        let k = choose|k: int| 0 <= k < before.len() && before[k] == x;
                        assert(after[k] == x);
                    }
                    if after.contains(x) {
                        let k = choose|k: int| 0 <= k < after.len() && after[k] == x;
                        if k < before.len() {
                            assert(before[k] == x);
                        }
                    }
                    if x == words@[i as int]@ {
                        assert(after[i as int] == x);
                    }
                }
            }
            i += 1;
        }
        assert(views(words@).take(i as int) =~= views(words@));
        CandidateSet { set }
    }

    /// Whether `word` is in the set.
    pub fn contains(&self, word: &str) -> (b: bool)
        ensures
            b == self@.contains(word@),
    {
        self.set.contains(word)
    }
}

/// How many of `pieces` are in `set`.
pub open spec fn members(pieces: Seq<Seq<char>>, set: Set<Seq<char>>) -> nat
    decreases pieces.len(),
{
    if pieces.len() == 0 {
        0
    } else {
        members(pieces.drop_last(), set) + if set.contains(pieces.last()) {
            1nat
        } else {
            0nat
        }
    }
}

/// How many of the words that the stored group `stored` lists between commas are
/// candidates.
pub fn count_members(stored: &str, candidates: &CandidateSet) -> (n: usize)
    ensures
        n == members(split_commas(stored@), candidates@),
{
    let s = chars_of(stored);
    let pieces = split_exec(s.as_slice(), ',');
    let ghost all = pieces.deep_view();
    let mut n: usize = 0;
    let mut i: usize = 0;
    while i < pieces.len()
        invariant
            i <= pieces@.len(),
            all == pieces.deep_view(),
            all == split_commas(stored@),
            n == members(all.take(i as int), candidates@),
            n <= i,
        decreases pieces@.len() - i,
    {
        assert(all.take(i + 1).drop_last() =~= all.take(i as int));
        assert(all.take(i + 1).last() == pieces@[i as int]@);
        let piece = string_from_chars(pieces[i].as_slice());
        if candidates.contains(piece.as_str()) {
            n += 1;
        }
        i += 1;
    }
    assert(all.take(i as int) =~= all);
    n
}

/// The numbers `counts`, without bound.
pub open spec fn nats(counts: Seq<usize>) -> Seq<nat> {
    counts.map_values(|c: usize| c as nat)
}

/// How many of `counts` are above zero.
pub open spec fn positive_count(counts: Seq<nat>) -> nat
    decreases counts.len(),
{
    if counts.len() == 0 {
        0
    } else {
        positive_count(counts.drop_last()) + if counts.last() > 0 {
            1nat
        } else {
            0nat
        }
    }
}

/// The sum of `counts`.
pub open spec fn total(counts: Seq<nat>) -> nat
    decreases counts.len(),
{
    if counts.len() == 0 {
        0
    } else {
        total(counts.drop_last()) + counts.last()
    }
}

/// The largest of `counts`, or zero.
pub open spec fn largest(counts: Seq<nat>) -> nat
    decreases counts.len(),
{
    if counts.len() == 0 {
        0
    } else if counts.last() > largest(counts.drop_last()) {
        counts.last()
    } else {
        largest(counts.drop_last())
    }
}

/// The ranking of `word` from the number of candidates in each of its stored groups;
/// `None` where no group holds a candidate.
pub fn cached_ranking<'a>(word: &'a str, counts: &[usize]) -> (r: Option<Ranking<'a>>)
    requires
        total(nats(counts@)) <= usize::MAX,
    ensures
        r is None <==> positive_count(nats(counts@)) == 0,
        r matches Some(ranking) ==> ranking.word == word && ranking@ == (RankingView {
            word: word@,
            groups: positive_count(nats(counts@)) as int,
            sum: total(nats(counts@)) as int,
            max: largest(nats(counts@)) as int,
        }),
{
    let ghost all = nats(counts@);
    let mut groups: usize = 0;
    let mut sum: usize = 0;
    let mut max: usize = 0;
    let mut i: usize = 0;
    while i < counts.len()
        invariant
            i <= counts@.len(),
            all == nats(counts@),
            total(all) <= usize::MAX,
            groups == positive_count(all.take(i as int)),
            groups <= i,
            sum == total(all.take(i as int)),
            max == largest(all.take(i as int)),
        decreases counts@.len() - i,
    {
        assert(all.take(i + 1).drop_last() =~= all.take(i as int));
        assert(all.take(i + 1).last() == counts@[i as int] as nat);
        proof {
            lemma_total_prefix(all, i + 1);
        }
        let count = counts[i];
        if count > 0 {
            if count > max {
                max = count;
            }
            sum = sum + count;
            groups += 1;
        }
        i += 1;
    }
    assert(all.take(i as int) =~= all);
    if groups > 0 {
        Some(Ranking { word, groups, sum, max })
    } else {
        None
    }
}

/// The total of a prefix is at most the total.
proof fn lemma_total_prefix(counts: Seq<nat>, n: int)
    requires
        0 <= n <= counts.len(),
    ensures
        total(counts.take(n)) <= total(counts),
    decreases counts.len(),
{
    if n < counts.len() {
        assert(counts.drop_last().take(n) =~= counts.take(n));
        lemma_total_prefix(counts.drop_last(), n);
    } else {
        assert(counts.take(n) =~= counts);
    }
}

// ----------------------------------------------------------------------------------------
// Ranking from the stored groups
// ----------------------------------------------------------------------------------------

/// How many candidates of `set` each of the stored groups `groups` lists.
pub open spec fn group_sizes(groups: Seq<Seq<char>>, set: Set<Seq<char>>) -> Seq<nat> {
    groups.map_values(|g: Seq<char>| members(split_commas(g), set))
}

/// The ranking of `word` that its stored groups `groups` give against the candidates
/// `set`.
pub open spec fn stored_ranking(word: Seq<char>, groups: Seq<Seq<char>>, set: Set<Seq<char>>) -> RankingView {
    RankingView {
        word,
        groups: positive_count(group_sizes(groups, set)) as int,
        sum: total(group_sizes(groups, set)) as int,
        max: largest(group_sizes(groups, set)) as int,
    }
}

/// The rankings that the stored groups give each of `words` (`stored[i]` are the groups
/// of `words[i]`) against the candidates `set`, in order, leaving out the words whose
/// groups hold no candidate.
pub open spec fn stored_rankings(
    words: Seq<Seq<char>>,
    stored: Seq<Seq<Seq<char>>>,
    set: Set<Seq<char>>,
) -> Seq<RankingView>
    decreases words.len(),
{
    if words.len() == 0 {
        Seq::empty()
    } else {
        let prev = stored_rankings(words.drop_last(), stored, set);
        let r = stored_ranking(words.last(), stored[words.len() - 1], set);
        if r.groups > 0 {
            prev.push(r)
        } else {
            prev
        }
    }
}

/// What a ranking from the cache holds: the candidates, and the rankings collected.
pub struct CacheRankingView {
    pub candidates: Set<Seq<char>>,
    pub rankings: RankingsView,
}

/// A ranking of candidates from their stored groups, built one word at a time.
pub struct CacheRanking<'a> {
    candidates: CandidateSet,
    rankings: Rankings<'a>,
}

impl<'a> View for CacheRanking<'a> {
    type V = CacheRankingView;

    closed spec fn view(&self) -> CacheRankingView {
        CacheRankingView { candidates: self.candidates@, rankings: self.rankings@ }
    }
}

impl<'a> CacheRanking<'a> {
    /// A ranking of `candidates` that keeps the best `limit` rankings, or all of them.
    pub fn new(candidates: &[&str], limit: Option<usize>) -> (c: CacheRanking<'a>)
        requires
            views(candidates@).no_duplicates(),
        ensures
            c@ == (CacheRankingView {
                candidates: views(candidates@).to_set(),
                rankings: RankingsView::empty(limit_view(limit)),
            }),
    {
        CacheRanking { candidates: CandidateSet::new(candidates), rankings: Rankings::new(limit) }
    }

    /// Ranks `word` by its stored groups `groups`, counting the candidates in each; a word
    /// whose groups hold no candidate is left out. Returns `false`, and changes nothing,
    /// where the counts add up past `usize::MAX`.
    pub fn add(&mut self, word: &'a str, groups: &[&str]) -> (ok: bool)
        ensures
            ok == (total(group_sizes(views(groups@), old(self)@.candidates)) <= usize::MAX),
            final(self)@.candidates == old(self)@.candidates,
            final(self)@.rankings == if ok && stored_ranking(
                word@,
                views(groups@),
                old(self)@.candidates,
            ).groups > 0 {
                old(self)@.rankings.pushed(
                    stored_ranking(word@, views(groups@), old(self)@.candidates),
                )
            } else {
                old(self)@.rankings
            },
    {
        let ghost set = self.candidates@;
        let ghost all = group_sizes(views(groups@), set);
        let mut counts: Vec<usize> = Vec::new();
        let mut sum: usize = 0;
        let mut i: usize = 0;
        while i < groups.len()
            invariant
                i <= groups@.len(),
                set == self.candidates@,
                all == group_sizes(views(groups@), set),
                nats(counts@) == all.take(i as int),
                sum == total(nats(counts@)),
            decreases groups@.len() - i,
        {
            let n = count_members(groups[i], &self.candidates);
            assert(all[i as int] == n);
            assert(all.take(i + 1) =~= all.take(i as int).push(n as nat));
            assert(nats(counts@.push(n)) =~= nats(counts@).push(n as nat));
            assert(nats(counts@.push(n)).drop_last() =~= nats(counts@));
            if sum > usize::MAX - n {
                proof {
                    lemma_total_prefix(all, i + 1);
                }
                return false;
            }
            counts.push(n);
            sum = sum + n;
            i += 1;
        }
        assert(all.take(i as int) =~= all);
        match cached_ranking(word, &counts) {
            Some(ranking) => {
                self.rankings.push(ranking);
            },
            None => {},
        }
        true
    }

    /// The rankings collected, best first.
    pub fn finish(self) -> (v: Vec<Ranking<'a>>)
        ensures
            ranking_views(v@) == self@.rankings.sorted_contents(),
    {
        self.rankings.into_sorted_vec()
    }
}

/// The texts of the groups read back for each word.
pub open spec fn stored_views<'b>(stored: Seq<Vec<&'b str>>) -> Seq<Seq<Seq<char>>> {
    stored.map_values(|g: Vec<&'b str>| views(g@))
}

/// Whether the candidates that the groups of some word hold add up past `usize::MAX`.
pub open spec fn counts_overflow(stored: Seq<Seq<Seq<char>>>, set: Set<Seq<char>>) -> bool {
    exists|i: int| 0 <= i < stored.len() && total(group_sizes(#[trigger] stored[i], set)) > usize::MAX
}

/// Ranks `candidates` by their stored groups (`stored[i]` are the groups of
/// `candidates[i]`), counting the candidates in each group, and keeps the best `limit`
/// rankings, or all of them, best first. `None` where the counts of some word add up past
/// `usize::MAX`.
pub fn rank_stored<'a, 'b>(
    candidates: &[&'a str],
    stored: &[Vec<&'b str>],
    limit: Option<usize>,
) -> (r: Option<Vec<Ranking<'a>>>)
    requires
        views(candidates@).no_duplicates(),
        stored@.len() == candidates@.len(),
    ensures
        r is None <==> counts_overflow(stored_views(stored@), views(candidates@).to_set()),
        r matches Some(v) ==> ranking_views(v@) == RankingsView::empty(
            limit_view(limit),
        ).pushed_all(
            stored_rankings(views(candidates@), stored_views(stored@), views(candidates@).to_set()),
        ).sorted_contents(),
{
    let ghost ws = views(candidates@);
    let ghost gs = stored_views(stored@);
    let ghost set = ws.to_set();
    let mut ranking = CacheRanking::new(candidates, limit);
    let mut i: usize = 0;
    while i < candidates.len()
        invariant
            i <= candidates@.len(),
            stored@.len() == candidates@.len(),
            ws == views(candidates@),
            gs == stored_views(stored@),
            set == ws.to_set(),
            ranking@.candidates == set,
            ranking@.rankings == RankingsView::empty(limit_view(limit)).pushed_all(
                stored_rankings(ws.take(i as int), gs, set),
            ),
            forall|k: int| 0 <= k < i ==> total(group_sizes(#[trigger] gs[k], set)) <= usize::MAX,
        decreases candidates@.len() - i,
    {
        assert(ws.take(i + 1).drop_last() =~= ws.take(i as int));
        assert(ws.take(i + 1).last() == ws[i as int]);
        assert(gs[i as int] == views(stored@[i as int]@));
        let ghost prev = stored_rankings(ws.take(i as int), gs, set);
        let ghost r = stored_ranking(ws[i as int], gs[i as int], set);
        let ok = ranking.add(candidates[i], stored[i].as_slice());
        if !ok {
            return None;
        }
        proof {
            if r.groups > 0 {
                assert(prev.push(r).drop_last() =~= prev);
                assert(prev.push(r).last() == r);
            }
        }
        i += 1;
    }
    assert(ws.take(i as int) =~= ws);
    Some(ranking.finish())
}

} // verus!
