use vstd::prelude::*;

use crate::cache::{
    counts_overflow,
    decimal, digit_char, group_key, group_sizes, keys_for, members, pattern_group, pattern_order,
    positive_count, stored_group_keys, stored_ranking, stored_rankings, total, largest,
    word_entries,
};
use crate::pattern::encode;
use crate::rank::{
    best, groups_below, guess_ranking, guess_rankings, largest_below, lemma_encode_below,
    lemma_counted_bounded, lemma_keeps_the_best, lemma_sum_below_counts, pattern_count, pattern_values, sort_rankings, sum_below, RankingView,
    RankingsView,
};
use crate::rule::split_commas;
use crate::text::{join, split_on};

verus! {

// ----------------------------------------------------------------------------------------
// Splitting what was joined
// ----------------------------------------------------------------------------------------

/// Appending text without separator to `a` extends the last piece of `a`.
proof fn lemma_split_append(a: Seq<char>, b: Seq<char>, sep: char)
    requires
        !b.contains(sep),
    ensures
        split_on(a + b, sep) == split_on(a, sep).update(
            split_on(a, sep).len() - 1,
            split_on(a, sep).last() + b,
        ),
    decreases b.len(),
{
    crate::text::lemma_split_nonempty(a, sep);
    if b.len() == 0 {
        assert(a + b =~= a);
        assert(split_on(a, sep).last() + b =~= split_on(a, sep).last());
        assert(split_on(a, sep).update(split_on(a, sep).len() - 1, split_on(a, sep).last())
            =~= split_on(a, sep));
    } else {
        let b0 = b.drop_last();
        assert(!b0.contains(sep)) by {
            if b0.contains(sep) {
                let k = choose|k: int| 0 <= k < b0.len() && b0[k] == sep;
                assert(b[k] == sep);
            }
        }
        assert(b.last() != sep) by {
            assert(b[b.len() - 1] == b.last());
        }
        lemma_split_append(a, b0, sep);
        assert((a + b).drop_last() =~= a + b0);
        assert((a + b).last() == b.last());
        let s = split_on(a, sep);
        let s0 = split_on(a + b0, sep);
        assert(s0.last() =~= s.last() + b0);
        assert(s0.last().push(b.last()) =~= s.last() + b);
        assert(s0.update(s0.len() - 1, s0.last().push(b.last())) =~= s.update(
            s.len() - 1,
            s.last() + b,
        ));
    }
}

/// Splitting parts joined by a separator that none of them holds gives the parts back.
pub proof fn lemma_split_join(parts: Seq<Seq<char>>, sep: char)
    requires
        parts.len() >= 1,
        forall|i: int| 0 <= i < parts.len() ==> !(#[trigger] parts[i]).contains(sep),
    ensures
        split_on(join(parts, sep), sep) == parts,
    decreases parts.len(),
{
    if parts.len() == 1 {
        lemma_split_append(Seq::empty(), parts[0], sep);
        assert(Seq::<char>::empty() + parts[0] =~= parts[0]);
        assert(split_on(Seq::<char>::empty(), sep) =~= seq![Seq::<char>::empty()]);
        assert(seq![Seq::<char>::empty()].update(0, Seq::<char>::empty() + parts[0]) =~= parts);
    } else {
        let front = parts.drop_last();
        assert forall|i: int| 0 <= i < front.len() implies !(#[trigger] front[i]).contains(sep) by {
            assert(front[i] == parts[i]);
        }
        lemma_split_join(front, sep);
        let j = join(front, sep).push(sep);
        assert(j.drop_last() =~= join(front, sep));
        assert(split_on(j, sep) == front.push(Seq::empty()));
        assert(!parts[parts.len() - 1].contains(sep));
        lemma_split_append(j, parts.last(), sep);
        assert(Seq::<char>::empty() + parts.last() =~= parts.last());
        assert(front.push(Seq::empty()).update(front.len() as int, parts.last()) =~= parts);
    }
}

// ----------------------------------------------------------------------------------------
// Decimal numbers
// ----------------------------------------------------------------------------------------

/// A number in decimal is a non-empty run of digits.
pub proof fn lemma_decimal_digits(n: nat)
    ensures
        decimal(n).len() > 0,
        forall|i: int| 0 <= i < decimal(n).len() ==> '0' <= #[trigger] decimal(n)[i] <= '9',
    decreases n,
{
    if n >= 10 {
        lemma_decimal_digits(n / 10);
        assert forall|i: int| 0 <= i < decimal(n).len() implies '0' <= #[trigger] decimal(n)[i]
            <= '9' by {
            if i < decimal(n / 10).len() {
                assert(decimal(n)[i] == decimal(n / 10)[i]);
            }
        }
    }
}

proof fn lemma_decimal_no_comma(n: nat)
    ensures
        !decimal(n).contains(','),
        decimal(n).len() > 0,
{
    lemma_decimal_digits(n);
    if decimal(n).contains(',') {
        let k = choose|k: int| 0 <= k < decimal(n).len() && decimal(n)[k] == ',';
        assert('0' <= decimal(n)[k]);
    }
}

// ----------------------------------------------------------------------------------------
// Keys
// ----------------------------------------------------------------------------------------

proof fn lemma_keys_for_nonempty(word: Seq<char>, pieces: Seq<Seq<char>>)
    requires
        forall|i: int| 0 <= i < pieces.len() ==> (#[trigger] pieces[i]).len() > 0,
    ensures
        keys_for(word, pieces) == pieces.map_values(|p: Seq<char>| word + seq![':'] + p),
    decreases pieces.len(),
{
    if pieces.len() > 0 {
        let front = pieces.drop_last();
        assert forall|i: int| 0 <= i < front.len() implies (#[trigger] front[i]).len() > 0 by {
            assert(front[i] == pieces[i]);
        }
        lemma_keys_for_nonempty(word, front);
        assert(pieces.last().len() > 0) by {
            assert(pieces[pieces.len() - 1] == pieces.last());
        }
        assert(pieces.map_values(|p: Seq<char>| word + seq![':'] + p) =~= front.map_values(
            |p: Seq<char>| word + seq![':'] + p,
        ).push(word + seq![':'] + pieces.last()));
    } else {
        assert(pieces.map_values(|p: Seq<char>| word + seq![':'] + p) =~= Seq::<Seq<char>>::empty());
    }
}

/// The keys of the groups of the pattern values `order` of `word`.
pub open spec fn order_keys(word: Seq<char>, order: Seq<u16>) -> Seq<Seq<char>> {
    order.map_values(|p: u16| group_key(word, p as nat))
}

/// The keys of the entries after the first.
pub open spec fn entry_keys(entries: Seq<(Seq<char>, Seq<char>)>) -> Seq<Seq<char>> {
    entries.subrange(1, entries.len() as int).map_values(|e: (Seq<char>, Seq<char>)| e.0)
}

/// The keys of the groups that the stored list of `word` names are the keys under which
/// the groups were stored, in order.
pub proof fn lemma_stored_keys(word: Seq<char>, words: Seq<Seq<char>>)
    ensures
        word_entries(word, words).len() == pattern_order(word, words).len() + 1,
        stored_group_keys(word, word_entries(word, words)[0].1) == order_keys(
            word,
            pattern_order(word, words),
        ),
        forall|i: int|
            0 <= i < pattern_order(word, words).len() ==> #[trigger] word_entries(word, words)[i + 1]
                == (group_key(word, pattern_order(word, words)[i] as nat), join(
                pattern_group(word, words, pattern_order(word, words)[i]),
                ',',
            )),
{
    let order = pattern_order(word, words);
    let es = word_entries(word, words);
    let ps = order.map_values(|p: u16| decimal(p as nat));
    assert(es[0].1 == join(ps, ','));
    assert forall|i: int| 0 <= i < ps.len() implies !(#[trigger] ps[i]).contains(',') && ps[i].len()
        > 0 by {
        lemma_decimal_no_comma(order[i] as nat);
    }
    if ps.len() == 0 {
        assert(join(ps, ',') =~= Seq::<char>::empty());
        assert(split_on(Seq::<char>::empty(), ',') =~= seq![Seq::<char>::empty()]);
        let one = seq![Seq::<char>::empty()];
        assert(one.drop_last() =~= Seq::<Seq<char>>::empty());
        assert(keys_for(word, one.drop_last()) =~= Seq::<Seq<char>>::empty());
        assert(one.last().len() == 0);
        assert(keys_for(word, one) =~= Seq::<Seq<char>>::empty());
        assert(order_keys(word, order) =~= Seq::<Seq<char>>::empty());
    } else {
        lemma_split_join(ps, ',');
        lemma_keys_for_nonempty(word, ps);
        assert(ps.map_values(|p: Seq<char>| word + seq![':'] + p) =~= order_keys(word, order));
    }
}

// ----------------------------------------------------------------------------------------
// Counting
// ----------------------------------------------------------------------------------------

/// How many of `s` satisfy `f`.
pub open spec fn count_if(s: Seq<Seq<char>>, f: spec_fn(Seq<char>) -> bool) -> nat
    decreases s.len(),
{
    if s.len() == 0 {
        0
    } else {
        count_if(s.drop_last(), f) + if f(s.last()) {
            1nat
        } else {
            0nat
        }
    }
}

proof fn lemma_count_if_ext(s: Seq<Seq<char>>, f: spec_fn(Seq<char>) -> bool, g: spec_fn(Seq<char>) -> bool)
    requires
        forall|x: Seq<char>| #[trigger] f(x) == g(x),
    ensures
        count_if(s, f) == count_if(s, g),
    decreases s.len(),
{
    if s.len() > 0 {
        lemma_count_if_ext(s.drop_last(), f, g);
    }
}

proof fn lemma_count_if_or(s: Seq<Seq<char>>, f: spec_fn(Seq<char>) -> bool, g: spec_fn(Seq<char>) -> bool)
    requires
        forall|x: Seq<char>| !(#[trigger] f(x) && g(x)),
    ensures
        count_if(s, |x: Seq<char>| f(x) || g(x)) == count_if(s, f) + count_if(s, g),
    decreases s.len(),
{
    if s.len() > 0 {
        lemma_count_if_or(s.drop_last(), f, g);
    }
}

proof fn lemma_count_if_false(s: Seq<Seq<char>>, f: spec_fn(Seq<char>) -> bool)
    requires
        forall|x: Seq<char>| !#[trigger] f(x),
    ensures
        count_if(s, f) == 0,
    decreases s.len(),
{
    if s.len() > 0 {
        lemma_count_if_false(s.drop_last(), f);
    }
}

/// A sequence without repetition holds a text once if it holds it at all.
proof fn lemma_count_if_single(s: Seq<Seq<char>>, c: Seq<char>)
    requires
        s.no_duplicates(),
    ensures
        count_if(s, |x: Seq<char>| x == c) == if s.contains(c) {
            1nat
        } else {
            0nat
        },
    decreases s.len(),
{
    if s.len() > 0 {
        let front = s.drop_last();
        assert(front.no_duplicates()) by {
            assert forall|i: int, j: int| 0 <= i < front.len() && 0 <= j < front.len() && i != j implies front[i] != front[j] by {
                assert(front[i] == s[i] && front[j] == s[j]);
            }
        }
        lemma_count_if_single(front, c);
        if s.last() == c {
            assert(!front.contains(c)) by {
                if front.contains(c) {
                    let k = choose|k: int| 0 <= k < front.len() && front[k] == c;
                    assert(s[k] == s[s.len() - 1]);
                }
            }
            assert(s[s.len() - 1] == c);
        } else {
            if s.contains(c) {
                let k = choose|k: int| 0 <= k < s.len() && s[k] == c;
                assert(k < s.len() - 1);
                assert(front[k] == c);
            }
            if front.contains(c) {
                let k = choose|k: int| 0 <= k < front.len() && front[k] == c;
                assert(s[k] == c);
            }
        }
    }
}

/// Counting the words of `words` that satisfy `p` and are candidates counts the candidates
/// that satisfy `p`, when neither list repeats a word and every candidate is a word.
proof fn lemma_count_transfer(
    words: Seq<Seq<char>>,
    candidates: Seq<Seq<char>>,
    p: spec_fn(Seq<char>) -> bool,
)
    requires
        words.no_duplicates(),
        candidates.no_duplicates(),
        forall|i: int| 0 <= i < candidates.len() ==> words.contains(#[trigger] candidates[i]),
    ensures
        count_if(words, |w: Seq<char>| p(w) && candidates.to_set().contains(w)) == count_if(
            candidates,
            p,
        ),
    decreases candidates.len(),
{
    if candidates.len() == 0 {
        lemma_count_if_false(words, |w: Seq<char>| p(w) && candidates.to_set().contains(w));
    } else {
        let front = candidates.drop_last();
        let c = candidates.last();
        assert(front.no_duplicates()) by {
            assert forall|i: int, j: int| 0 <= i < front.len() && 0 <= j < front.len() && i != j implies front[i] != front[j] by {
                assert(front[i] == candidates[i] && front[j] == candidates[j]);
            }
        }
        assert forall|i: int| 0 <= i < front.len() implies words.contains(#[trigger] front[i]) by {
            assert(front[i] == candidates[i]);
        }
        lemma_count_transfer(words, front, p);
        assert(!front.to_set().contains(c)) by {
            if front.contains(c) {
                let k = choose|k: int| 0 <= k < front.len() && front[k] == c;
                assert(candidates[k] == candidates[candidates.len() - 1]);
            }
        }
        assert(words.contains(c)) by {
            assert(candidates[candidates.len() - 1] == c);
        }
        let f0 = |w: Seq<char>| p(w) && front.to_set().contains(w);
        let g = |w: Seq<char>| p(w) && w == c;
        assert forall|w: Seq<char>| #[trigger] candidates.to_set().contains(w) == (
        front.to_set().contains(w) || w == c) by {
            if candidates.contains(w) {
                let k = choose|k: int| 0 <= k < candidates.len() && candidates[k] == w;
                if k < front.len() {
                    assert(front[k] == w);
                }
            }
            if front.contains(w) {
                let k = choose|k: int| 0 <= k < front.len() && front[k] == w;
                assert(candidates[k] == w);
            }
            if w == c {
                assert(candidates[candidates.len() - 1] == w);
            }
        }
        lemma_count_if_ext(
            words,
            |w: Seq<char>| p(w) && candidates.to_set().contains(w),
            |w: Seq<char>| f0(w) || g(w),
        );
        lemma_count_if_or(words, f0, g);
        lemma_count_if_single(words, c);
        if p(c) {
            lemma_count_if_ext(words, g, |x: Seq<char>| x == c);
        } else {
            lemma_count_if_false(words, g);
        }
    }
}

/// The candidates that a stored group lists are the words of the group that are candidates.
proof fn lemma_group_members(
    word: Seq<char>,
    words: Seq<Seq<char>>,
    p: u16,
    set: Set<Seq<char>>,
)
    ensures
        members(pattern_group(word, words, p), set) == count_if(
            words,
            |w: Seq<char>| encode(word, w) == p && set.contains(w),
        ),
    decreases words.len(),
{
    if words.len() > 0 {
        lemma_group_members(word, words.drop_last(), p, set);
        let prev = pattern_group(word, words.drop_last(), p);
        if encode(word, words.last()) == p {
            assert(pattern_group(word, words, p).drop_last() =~= prev);
        }
    }
}

/// How many solutions give a pattern value, counted by `count_if`.
proof fn lemma_pattern_count(word: Seq<char>, candidates: Seq<Seq<char>>, p: u16)
    ensures
        pattern_count(word, candidates, p as int) == count_if(
            candidates,
            |c: Seq<char>| encode(word, c) == p,
        ),
    decreases candidates.len(),
{
    if candidates.len() > 0 {
        lemma_pattern_count(word, candidates.drop_last(), p);
    }
}

// ----------------------------------------------------------------------------------------
// Sums over the pattern values and over the stored order
// ----------------------------------------------------------------------------------------

/// The sum of `h` over the values 1 to `n - 1`.
pub open spec fn sum_range(h: spec_fn(int) -> nat, n: int) -> nat
    decreases n,
{
    if n <= 1 {
        0
    } else {
        sum_range(h, n - 1) + h(n - 1)
    }
}

/// The largest of `h` over the values 1 to `n - 1`, or zero.
pub open spec fn max_range(h: spec_fn(int) -> nat, n: int) -> nat
    decreases n,
{
    if n <= 1 {
        0
    } else if h(n - 1) > max_range(h, n - 1) {
        h(n - 1)
    } else {
        max_range(h, n - 1)
    }
}

/// The sum of `h` over the values of `order`.
pub open spec fn sum_list(order: Seq<u16>, h: spec_fn(int) -> nat) -> nat
    decreases order.len(),
{
    if order.len() == 0 {
        0
    } else {
        sum_list(order.drop_last(), h) + h(order.last() as int)
    }
}

/// The largest of `h` over the values of `order`, or zero.
pub open spec fn max_list(order: Seq<u16>, h: spec_fn(int) -> nat) -> nat
    decreases order.len(),
{
    if order.len() == 0 {
        0
    } else if h(order.last() as int) > max_list(order.drop_last(), h) {
        h(order.last() as int)
    } else {
        max_list(order.drop_last(), h)
    }
}

/// `h` with zero at `q`.
pub open spec fn without(h: spec_fn(int) -> nat, q: int) -> spec_fn(int) -> nat {
    |p: int| if p == q { 0nat } else { h(p) }
}

proof fn lemma_range_point(h: spec_fn(int) -> nat, q: int, n: int)
    requires
        1 <= q < n,
    ensures
        sum_range(h, n) == sum_range(without(h, q), n) + h(q),
        max_range(h, n) == if h(q) > max_range(without(h, q), n) {
            h(q)
        } else {
            max_range(without(h, q), n)
        },
    decreases n,
{
    if n - 1 > q {
        lemma_range_point(h, q, n - 1);
    } else {
        lemma_range_ext(h, without(h, q), n - 1);
    }
}

proof fn lemma_range_ext(h: spec_fn(int) -> nat, g: spec_fn(int) -> nat, n: int)
    requires
        forall|p: int| 1 <= p < n ==> #[trigger] h(p) == g(p),
    ensures
        sum_range(h, n) == sum_range(g, n),
        max_range(h, n) == max_range(g, n),
    decreases n,
{
    if n > 1 {
        lemma_range_ext(h, g, n - 1);
    }
}

proof fn lemma_list_ext(order: Seq<u16>, h: spec_fn(int) -> nat, g: spec_fn(int) -> nat)
    requires
        forall|i: int| 0 <= i < order.len() ==> h(#[trigger] order[i] as int) == g(order[i] as int),
    ensures
        sum_list(order, h) == sum_list(order, g),
        max_list(order, h) == max_list(order, g),
    decreases order.len(),
{
    if order.len() > 0 {
        let front = order.drop_last();
        assert forall|i: int| 0 <= i < front.len() implies h(#[trigger] front[i] as int) == g(front[i] as int) by {
            assert(front[i] == order[i]);
        }
        lemma_list_ext(front, h, g);
        assert(order[order.len() - 1] == order.last());
    }
}

/// Summing over a list of values without repetition is summing over the range, when `h`
/// is zero on every value of the range that the list leaves out.
pub proof fn lemma_list_is_range(order: Seq<u16>, h: spec_fn(int) -> nat, n: int)
    requires
        n <= 65536,
        order.no_duplicates(),
        forall|i: int| 0 <= i < order.len() ==> 1 <= #[trigger] order[i] < n,
        forall|p: int| 1 <= p < n && !order.contains(p as u16) ==> #[trigger] h(p) == 0,
    ensures
        sum_list(order, h) == sum_range(h, n),
        max_list(order, h) == max_range(h, n),
    decreases order.len(),
{
    if order.len() == 0 {
        lemma_range_ext(h, |p: int| 0nat, n);
        lemma_range_zero(n);
    } else {
        let front = order.drop_last();
        let q = order.last();
        let g = without(h, q as int);
        assert(order[order.len() - 1] == q);
        assert(front.no_duplicates()) by {
            assert forall|i: int, j: int| 0 <= i < front.len() && 0 <= j < front.len() && i != j implies front[i] != front[j] by {
                assert(front[i] == order[i] && front[j] == order[j]);
            }
        }
        assert(!front.contains(q)) by {
            if front.contains(q) {
                let k = choose|k: int| 0 <= k < front.len() && front[k] == q;
                assert(order[k] == order[order.len() - 1]);
            }
        }
        assert forall|i: int| 0 <= i < front.len() implies 1 <= #[trigger] front[i] < n by {
            assert(front[i] == order[i]);
        }
        assert forall|p: int| 1 <= p < n && !front.contains(p as u16) implies #[trigger] g(p) == 0 by {
            if p != q as int {
                if order.contains(p as u16) {
                    let k = choose|k: int| 0 <= k < order.len() && order[k] == p as u16;
                    if k < front.len() {
                        assert(front[k] == p as u16);
                    } else {
                        assert(order[k] == q);
                    }
                }
            }
        }
        lemma_list_is_range(front, g, n);
        assert forall|i: int| 0 <= i < front.len() implies h(#[trigger] front[i] as int) == g(front[i] as int) by {
            if front[i] == q {
                assert(front.contains(q));
            }
        }
        lemma_list_ext(front, h, g);
        lemma_range_point(h, q as int, n);
    }
}

proof fn lemma_range_zero(n: int)
    ensures
        sum_range(|p: int| 0nat, n) == 0,
        max_range(|p: int| 0nat, n) == 0,
    decreases n,
{
    if n > 1 {
        lemma_range_zero(n - 1);
    }
}

// ----------------------------------------------------------------------------------------
// The stored order of pattern values
// ----------------------------------------------------------------------------------------

/// The stored order repeats no value, holds only non-empty values below 1024, holds the
/// value of every word whose pattern is not empty, and each of its values has a non-empty
/// group.
pub proof fn lemma_order_facts(word: Seq<char>, words: Seq<Seq<char>>)
    requires
        word.len() <= 5,
    ensures
        pattern_order(word, words).no_duplicates(),
        forall|i: int|
            0 <= i < pattern_order(word, words).len() ==> 1 <= #[trigger] pattern_order(
                word,
                words,
            )[i] < pattern_values(),
        forall|i: int|
            0 <= i < words.len() && encode(word, #[trigger] words[i]) != 0 ==> pattern_order(
                word,
                words,
            ).contains(encode(word, words[i])),
        forall|i: int|
            0 <= i < pattern_order(word, words).len() ==> pattern_group(
                word,
                words,
                #[trigger] pattern_order(word, words)[i],
            ).len() > 0,
    decreases words.len(),
{
    let order = pattern_order(word, words);
    assert forall|i: int| 0 <= i < order.len() implies 1 <= #[trigger] order[i] < pattern_values() by {
        crate::cache::lemma_order_nonzero(word, words, i);
    }
    if words.len() > 0 {
        let front = words.drop_last();
        let prev = pattern_order(word, front);
        lemma_order_facts(word, front);
        let p = encode(word, words.last());
        assert(order.no_duplicates()) by {
            if p != 0 && !prev.contains(p) {
                assert forall|i: int, j: int| 0 <= i < order.len() && 0 <= j < order.len() && i != j implies order[i] != order[j] by {
                    if i < prev.len() && j < prev.len() {
                        assert(order[i] == prev[i] && order[j] == prev[j]);
                    } else if i < prev.len() {
                        assert(order[i] == prev[i]);
                        assert(order[j] == p);
                    } else {
                        assert(order[j] == prev[j]);
                        assert(order[i] == p);
                    }
                }
            }
        }
        assert forall|i: int| 0 <= i < words.len() && encode(word, #[trigger] words[i]) != 0 implies order.contains(encode(word, words[i])) by {
            if i < front.len() {
                assert(front[i] == words[i]);
                let k = choose|k: int| 0 <= k < prev.len() && prev[k] == encode(word, words[i]);
                assert(order[k] == prev[k]);
            } else {
                assert(words[i] == words.last());
                if !prev.contains(p) {
                    assert(order[prev.len() as int] == p);
                } else {
                    let k = choose|k: int| 0 <= k < prev.len() && prev[k] == p;
                    assert(order[k] == p);
                }
            }
        }
        assert forall|i: int| 0 <= i < order.len() implies pattern_group(word, words, #[trigger] order[i]).len() > 0 by {
            let q = order[i];
            if i < prev.len() {
                assert(prev[i] == q);
                assert(pattern_group(word, front, q).len() > 0);
            } else {
                assert(q == p);
            }
        }
    }
}

// ----------------------------------------------------------------------------------------
// Counts, groups, totals
// ----------------------------------------------------------------------------------------

/// How many candidates give `word` each pattern value.
pub open spec fn count_of(word: Seq<char>, candidates: Seq<Seq<char>>) -> spec_fn(int) -> nat {
    |p: int| pattern_count(word, candidates, p)
}

/// One where some candidate gives `word` the value, zero elsewhere.
pub open spec fn found_of(word: Seq<char>, candidates: Seq<Seq<char>>) -> spec_fn(int) -> nat {
    |p: int| if pattern_count(word, candidates, p) > 0 { 1nat } else { 0nat }
}

/// The groups, the total and the largest group below `n` are the sum of the found values,
/// the sum of the counts and the largest count over the values 1 to `n - 1`.
pub proof fn lemma_ranking_as_ranges(word: Seq<char>, candidates: Seq<Seq<char>>, n: int)
    ensures
        groups_below(word, candidates, n) == sum_range(found_of(word, candidates), n),
        sum_below(word, candidates, n) == sum_range(count_of(word, candidates), n),
        largest_below(word, candidates, n) == max_range(count_of(word, candidates), n),
    decreases n,
{
    if n > 1 {
        lemma_ranking_as_ranges(word, candidates, n - 1);
    }
}

proof fn lemma_counts_as_lists(
    counts: Seq<nat>,
    order: Seq<u16>,
    word: Seq<char>,
    candidates: Seq<Seq<char>>,
)
    requires
        counts.len() == order.len(),
        forall|i: int|
            0 <= i < counts.len() ==> #[trigger] counts[i] == pattern_count(
                word,
                candidates,
                order[i] as int,
            ),
    ensures
        positive_count(counts) == sum_list(order, found_of(word, candidates)),
        total(counts) == sum_list(order, count_of(word, candidates)),
        largest(counts) == max_list(order, count_of(word, candidates)),
    decreases counts.len(),
{
    if counts.len() > 0 {
        assert forall|i: int| 0 <= i < counts.drop_last().len() implies #[trigger] counts.drop_last()[i]
            == pattern_count(word, candidates, order.drop_last()[i] as int) by {
            assert(counts.drop_last()[i] == counts[i]);
            assert(order.drop_last()[i] == order[i]);
        }
        lemma_counts_as_lists(counts.drop_last(), order.drop_last(), word, candidates);
        assert(counts[counts.len() - 1] == counts.last());
        assert(order[order.len() - 1] == order.last());
    }
}

// ----------------------------------------------------------------------------------------
// Reading back what the cache stored
// ----------------------------------------------------------------------------------------

/// Reading back what the cache stored for `word` against `words` ranks `word` against the
/// candidates as ranking it directly does. The keys that the stored list of `word` names
/// are the keys under which its groups were stored, in order; and counting the candidates
/// in each stored group gives the groups, the total and the largest group of the
/// patterns that the candidates give `word`. It holds where neither list repeats a word,
/// every candidate is a word and no word holds a comma.
pub proof fn lemma_cache_reads_back(
    word: Seq<char>,
    words: Seq<Seq<char>>,
    candidates: Seq<Seq<char>>,
    counts: Seq<nat>,
)
    requires
        word.len() <= 5,
        words.no_duplicates(),
        candidates.no_duplicates(),
        forall|i: int| 0 <= i < candidates.len() ==> words.contains(#[trigger] candidates[i]),
        forall|i: int| 0 <= i < words.len() ==> !(#[trigger] words[i]).contains(','),
        counts.len() == pattern_order(word, words).len(),
        forall|i: int|
            0 <= i < counts.len() ==> #[trigger] counts[i] == members(
                split_commas(word_entries(word, words)[i + 1].1),
                candidates.to_set(),
            ),
    ensures
        stored_group_keys(word, word_entries(word, words)[0].1) == entry_keys(
            word_entries(word, words),
        ),
        positive_count(counts) == guess_ranking(word, candidates).groups,
        total(counts) == guess_ranking(word, candidates).sum,
        largest(counts) == guess_ranking(word, candidates).max,
{
    let order = pattern_order(word, words);
    let es = word_entries(word, words);
    lemma_stored_keys(word, words);
    lemma_order_facts(word, words);
    let lhs = entry_keys(es);
    let rhs = order_keys(word, order);
    assert(lhs =~= rhs) by {
        assert forall|i: int| 0 <= i < order.len() implies #[trigger] lhs[i] == rhs[i] by {
            assert(es[i + 1] == (group_key(word, order[i] as nat), join(pattern_group(word, words, order[i]), ',')));
        }
    }
    assert forall|i: int| 0 <= i < counts.len() implies #[trigger] counts[i] == pattern_count(
        word,
        candidates,
        order[i] as int,
    ) by {
        let p = order[i];
        let group = pattern_group(word, words, p);
        assert(es[i + 1] == (group_key(word, p as nat), join(group, ',')));
        lemma_group_words(word, words, p);
        assert(group.len() > 0);
        lemma_split_join(group, ',');
        lemma_group_members(word, words, p, candidates.to_set());
        lemma_count_transfer(words, candidates, |c: Seq<char>| encode(word, c) == p);
        lemma_count_if_ext(
            words,
            |w: Seq<char>| encode(word, w) == p && candidates.to_set().contains(w),
            |w: Seq<char>| (|c: Seq<char>| encode(word, c) == p)(w) && candidates.to_set().contains(w),
        );
        lemma_pattern_count(word, candidates, p);
    }
    lemma_counts_as_lists(counts, order, word, candidates);
    lemma_ranking_as_ranges(word, candidates, pattern_values());
    assert forall|p: int| 1 <= p < pattern_values() && !order.contains(p as u16) implies #[trigger] count_of(word, candidates)(p) == 0 by {
        lemma_count_zero(word, words, candidates, p);
    }
    assert forall|p: int| 1 <= p < pattern_values() && !order.contains(p as u16) implies #[trigger] found_of(word, candidates)(p) == 0 by {
        lemma_count_zero(word, words, candidates, p);
    }
    lemma_list_is_range(order, count_of(word, candidates), pattern_values());
    lemma_list_is_range(order, found_of(word, candidates), pattern_values());
}

/// A pattern value that no word gives `word` is given by no candidate either.
proof fn lemma_count_zero(
    word: Seq<char>,
    words: Seq<Seq<char>>,
    candidates: Seq<Seq<char>>,
    p: int,
)
    requires
        word.len() <= 5,
        1 <= p < pattern_values(),
        forall|i: int| 0 <= i < candidates.len() ==> words.contains(#[trigger] candidates[i]),
        !pattern_order(word, words).contains(p as u16),
    ensures
        pattern_count(word, candidates, p) == 0,
    decreases candidates.len(),
{
    lemma_order_facts(word, words);
    if candidates.len() > 0 {
        let front = candidates.drop_last();
        assert forall|i: int| 0 <= i < front.len() implies words.contains(#[trigger] front[i]) by {
            assert(front[i] == candidates[i]);
        }
        lemma_count_zero(word, words, front, p);
        let c = candidates.last();
        assert(words.contains(c)) by {
            assert(candidates[candidates.len() - 1] == c);
        }
        let k = choose|k: int| 0 <= k < words.len() && words[k] == c;
        if encode(word, c) == p {
            assert(encode(word, words[k]) != 0);
            assert(pattern_order(word, words).contains(encode(word, words[k])));
        }
    }
}

/// The words of a group are words, and hold no comma where no word does.
proof fn lemma_group_words(word: Seq<char>, words: Seq<Seq<char>>, p: u16)
    requires
        forall|i: int| 0 <= i < words.len() ==> !(#[trigger] words[i]).contains(','),
    ensures
        forall|i: int|
            0 <= i < pattern_group(word, words, p).len() ==> !(#[trigger] pattern_group(
                word,
                words,
                p,
            )[i]).contains(','),
    decreases words.len(),
{
    if words.len() > 0 {
        let front = words.drop_last();
        assert forall|i: int| 0 <= i < front.len() implies !(#[trigger] front[i]).contains(',') by {
            assert(front[i] == words[i]);
        }
        lemma_group_words(word, front, p);
        let g = pattern_group(word, words, p);
        let prev = pattern_group(word, front, p);
        assert forall|i: int| 0 <= i < g.len() implies !(#[trigger] g[i]).contains(',') by {
            if i < prev.len() {
                assert(g[i] == prev[i]);
            } else {
                assert(g[i] == words[words.len() - 1]);
            }
        }
    }
}

// ----------------------------------------------------------------------------------------
// Ranking every candidate from the cache
// ----------------------------------------------------------------------------------------

/// The values of the entries after the first: the stored groups of a word.
pub open spec fn entry_groups(entries: Seq<(Seq<char>, Seq<char>)>) -> Seq<Seq<char>> {
    entries.subrange(1, entries.len() as int).map_values(|e: (Seq<char>, Seq<char>)| e.1)
}

/// Ranking from the cache ranks as ranking directly does. Where the cache stored the
/// entries of every word of `words`, the stored list of each candidate names the keys of
/// its groups; and where `stored[i]` are the groups read back under those keys for
/// `candidates[i]`, ranking each candidate in order by its stored groups, into a
/// collection that keeps the best `limit`, gives in ranking order what ranking the
/// candidates against themselves gives; and no word's counts add up past `usize::MAX`.
/// It holds where neither list repeats a word, no word is longer than five letters or
/// holds a comma, every candidate is a word, and the candidates fit in memory.
pub proof fn lemma_cache_ranks_as_rank(
    words: Seq<Seq<char>>,
    candidates: Seq<Seq<char>>,
    stored: Seq<Seq<Seq<char>>>,
    limit: Option<nat>,
)
    requires
        words.no_duplicates(),
        candidates.no_duplicates(),
        forall|i: int|
            0 <= i < words.len() ==> (#[trigger] words[i]).len() <= 5 && !words[i].contains(','),
        forall|i: int| 0 <= i < candidates.len() ==> words.contains(#[trigger] candidates[i]),
        candidates.len() <= usize::MAX,
        stored.len() == candidates.len(),
        forall|i: int|
            0 <= i < candidates.len() ==> #[trigger] stored[i] == entry_groups(
                word_entries(candidates[i], words),
            ),
    ensures
        forall|i: int|
            0 <= i < candidates.len() ==> stored_group_keys(
                candidates[i],
                (#[trigger] word_entries(candidates[i], words))[0].1,
            ) == entry_keys(word_entries(candidates[i], words)),
        RankingsView::empty(limit).pushed_all(
            stored_rankings(candidates, stored, candidates.to_set()),
        ).sorted_contents() == best(limit, sort_rankings(guess_rankings(candidates, candidates))),
        !counts_overflow(stored, candidates.to_set()),
{
    assert forall|i: int| 0 <= i < candidates.len() implies stored_group_keys(
        candidates[i],
        (#[trigger] word_entries(candidates[i], words))[0].1,
    ) == entry_keys(word_entries(candidates[i], words)) && stored_ranking(
        candidates[i],
        stored[i],
        candidates.to_set(),
    ) == guess_ranking(candidates[i], candidates) by {
        lemma_stored_ranking(words, candidates, stored[i], candidates[i]);
    }
    assert forall|i: int| 0 <= i < stored.len() implies total(
        group_sizes(#[trigger] stored[i], candidates.to_set()),
    ) <= usize::MAX by {
        let c = candidates[i];
        assert(stored_ranking(c, stored[i], candidates.to_set()) == guess_ranking(c, candidates));
        lemma_sum_below_counts(c, candidates, pattern_values());
        lemma_counted_bounded(c, candidates, pattern_values());
    }
    lemma_stored_rankings(words, candidates, stored, candidates.len() as int);
    assert(candidates.take(candidates.len() as int) =~= candidates);
    lemma_keeps_the_best(limit, guess_rankings(candidates, candidates));
}

/// One candidate: its stored groups rank it as ranking it directly does.
proof fn lemma_stored_ranking(
    words: Seq<Seq<char>>,
    candidates: Seq<Seq<char>>,
    groups: Seq<Seq<char>>,
    word: Seq<char>,
)
    requires
        words.no_duplicates(),
        candidates.no_duplicates(),
        forall|i: int|
            0 <= i < words.len() ==> (#[trigger] words[i]).len() <= 5 && !words[i].contains(','),
        forall|i: int| 0 <= i < candidates.len() ==> words.contains(#[trigger] candidates[i]),
        candidates.contains(word),
        groups == entry_groups(word_entries(word, words)),
    ensures
        stored_group_keys(word, word_entries(word, words)[0].1) == entry_keys(
            word_entries(word, words),
        ),
        stored_ranking(word, groups, candidates.to_set()) == guess_ranking(word, candidates),
{
    let k = choose|k: int| 0 <= k < candidates.len() && candidates[k] == word;
    assert(words.contains(candidates[k]));
    let j = choose|j: int| 0 <= j < words.len() && words[j] == word;
    assert(word.len() <= 5) by {
        assert(words[j].len() <= 5);
    }
    assert forall|i: int| 0 <= i < words.len() implies !(#[trigger] words[i]).contains(',') by {
        assert(words[i].len() <= 5 && !words[i].contains(','));
    }
    lemma_stored_keys(word, words);
    let es = word_entries(word, words);
    let counts = group_sizes(groups, candidates.to_set());
    assert forall|i: int| 0 <= i < counts.len() implies #[trigger] counts[i] == members(
        split_commas(es[i + 1].1),
        candidates.to_set(),
    ) by {
        assert(groups[i] == es[i + 1].1);
    }
    lemma_cache_reads_back(word, words, candidates, counts);
}

/// The rankings that the stored groups give the first `n` candidates are those that
/// ranking them directly gives.
proof fn lemma_stored_rankings(
    words: Seq<Seq<char>>,
    candidates: Seq<Seq<char>>,
    stored: Seq<Seq<Seq<char>>>,
    n: int,
)
    requires
        0 <= n <= candidates.len(),
        stored.len() == candidates.len(),
        forall|i: int|
            0 <= i < candidates.len() ==> stored_ranking(
                candidates[i],
                #[trigger] stored[i],
                candidates.to_set(),
            ) == guess_ranking(candidates[i], candidates),
    ensures
        stored_rankings(candidates.take(n), stored, candidates.to_set()) == guess_rankings(
            candidates.take(n),
            candidates,
        ),
    decreases n,
{
    if n > 0 {
        lemma_stored_rankings(words, candidates, stored, n - 1);
        assert(candidates.take(n).drop_last() =~= candidates.take(n - 1));
        assert(candidates.take(n).last() == candidates[n - 1]);
        assert(stored_ranking(candidates[n - 1], stored[n - 1], candidates.to_set())
            == guess_ranking(candidates[n - 1], candidates));
    }
}

} // verus!
