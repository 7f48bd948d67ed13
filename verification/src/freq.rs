use vstd::prelude::*;

use crate::rule::count_char;
use crate::text::{chars_of, views};

verus! {

/// How many times `ch` occurs in all of `words`.
pub open spec fn occurrences(words: Seq<Seq<char>>, ch: char) -> nat
    decreases words.len(),
{
    if words.len() == 0 {
        0
    } else {
        occurrences(words.drop_last(), ch) + count_char(words.last(), ch)
    }
}

/// How many letters `words` hold in all.
pub open spec fn total_length(words: Seq<Seq<char>>) -> nat
    decreases words.len(),
{
    if words.len() == 0 {
        0
    } else {
        total_length(words.drop_last()) + words.last().len()
    }
}

/// How often a letter occurs: `count` times out of `total` letters. Its share is
/// `count / total`.
#[derive(Debug, Clone, Copy, PartialEq, Eq, Structural)]
pub struct CharFreq {
    pub ch: char,
    pub count: usize,
    pub total: usize,
}

/// Whether `a` comes before `b`: the more frequent letter first, then the smaller letter.
pub open spec fn freq_before(a: CharFreq, b: CharFreq) -> bool {
    a.count > b.count || (a.count == b.count && a.ch < b.ch)
}

/// Whether `s` is strictly in frequency order.
pub open spec fn freq_sorted(s: Seq<CharFreq>) -> bool {
    forall|i: int, j: int| 0 <= i < j < s.len() ==> freq_before(#[trigger] s[i], #[trigger] s[j])
}

/// Whether no letter occurs twice in `s`.
pub open spec fn distinct_letters(s: Seq<CharFreq>) -> bool {
    forall|a: int, b: int|
        0 <= a < s.len() && 0 <= b < s.len() && a != b ==> #[trigger] s[a].ch != #[trigger] s[b].ch
}

/// The count that `s` gives letter `d`, or zero where it does not hold `d`.
pub open spec fn letter_count(s: Seq<CharFreq>, d: char) -> nat {
    if exists|k: int| 0 <= k < s.len() && (#[trigger] s[k]).ch == d {
        s[choose|k: int| 0 <= k < s.len() && (#[trigger] s[k]).ch == d].count as nat
    } else {
        0
    }
}

proof fn lemma_letter_count_at(s: Seq<CharFreq>, k: int)
    requires
        distinct_letters(s),
        0 <= k < s.len(),
    ensures
        letter_count(s, s[k].ch) == s[k].count,
{
    let d = s[k].ch;
    let k2 = choose|k2: int| 0 <= k2 < s.len() && (#[trigger] s[k2]).ch == d;
    assert(s[k2].ch == d);
}

impl CharFreq {
    /// Letter `ch`, found `count` times out of `total` letters.
    pub fn new(ch: char, count: usize, total: usize) -> (f: CharFreq)
        ensures
            f == (CharFreq { ch, count, total }),
    {
        CharFreq { ch, count, total }
    }

    /// Whether this letter comes before `other`: it is more frequent, or as frequent and
    /// smaller.
    pub fn precedes(&self, other: &CharFreq) -> (b: bool)
        ensures
            b == freq_before(*self, *other),
    {
        self.count > other.count || (self.count == other.count && self.ch < other.ch)
    }

    /// The letters of `words`, each with how many times it occurs; every word counts for
    /// five letters in the total. The most frequent letter comes first; letters equally
    /// frequent come in their order.
    pub fn frequencies(words: &[&str]) -> (v: Vec<CharFreq>)
        requires
            words@.len() * 5 <= usize::MAX,
            total_length(views(words@)) <= usize::MAX,
        ensures
            freq_sorted(v@),
            forall|i: int|
                0 <= i < v@.len() ==> {
                    &&& (#[trigger] v@[i]).total == words@.len() * 5
                    &&& v@[i].count == occurrences(views(words@), v@[i].ch)
                    &&& v@[i].count > 0
                },
            forall|c: char|
                occurrences(views(words@), c) > 0 ==> exists|i: int|
                    0 <= i < v@.len() && (#[trigger] v@[i]).ch == c,
    {
        let total = words.len() * 5;
        let ghost ws = views(words@);
        // The letters found so far, each once, in the order they were first found.
        let mut found: Vec<CharFreq> = Vec::new();
        let mut i: usize = 0;
        while i < words.len()
            invariant
                i <= words@.len(),
                ws == views(words@),
                total == words@.len() * 5,
                total_length(ws) <= usize::MAX,
                distinct_letters(found@),
                forall|k: int|
                    0 <= k < found@.len() ==> (#[trigger] found@[k]).total == total
                        && found@[k].count > 0,
                forall|d: char| letter_count(found@, d) == occurrences(ws.take(i as int), d),
            decreases words@.len() - i,
        {
            let w = chars_of(words[i]);
            let ghost before = ws.take(i as int);
            assert(ws.take(i + 1).drop_last() =~= before);
            assert(ws.take(i + 1).last() == w@);
            proof {
                lemma_total_length_prefix(ws, i + 1);
            }
            let mut j: usize = 0;
            while j < w.len()
                invariant
                    j <= w@.len(),
                    total == words@.len() * 5,
                    total_length(before) + w@.len() <= usize::MAX,
                    distinct_letters(found@),
                    forall|k: int|
                        0 <= k < found@.len() ==> (#[trigger] found@[k]).total == total
                            && found@[k].count > 0,
                    forall|d: char|
                        letter_count(found@, d) == occurrences(before, d) + count_char(
                            w@.take(j as int),
                            d,
                        ),
                decreases w@.len() - j,
            {
                let c = w[j];
                assert(w@.take(j + 1).drop_last() =~= w@.take(j as int));
                proof {
                    lemma_occurrences_bounded(before, c);
                    lemma_count_char_bounded(w@.take(j as int), c);
                    assert forall|k: int| 0 <= k < found@.len() implies (#[trigger] found@[k]).count
                        < usize::MAX by {
                        lemma_letter_count_at(found@, k);
                        lemma_occurrences_bounded(before, found@[k].ch);
                        lemma_count_char_bounded(w@.take(j as int), found@[k].ch);
                    }
                }
                add_letter(&mut found, c, total);
                j += 1;
            }
            assert(w@.take(j as int) =~= w@);
            i += 1;
        }
        assert(ws.take(i as int) =~= ws);
        let mut v: Vec<CharFreq> = Vec::new();
        let mut m: usize = 0;
        while m < found.len()
            invariant
                m <= found@.len(),
                distinct_letters(found@),
                freq_sorted(v@),
                forall|e: CharFreq| v@.contains(e) <==> exists|r: int| 0 <= r < m && found@[r] == e,
            decreases found@.len() - m,
        {
            let x = found[m];
            assert forall|q: int| 0 <= q < v@.len() implies (#[trigger] v@[q]).ch != x.ch by {
                assert(v@.contains(v@[q]));
                let r = choose|r: int| 0 <= r < m && found@[r] == v@[q];
            }
            let ghost old_v = v@;
            insert_freq(&mut v, x);
            assert forall|e: CharFreq| v@.contains(e) <==> exists|r: int|
                0 <= r < m + 1 && found@[r] == e by {
                if e == x {
                    assert(found@[m as int] == e);
                }
                if exists|r: int| 0 <= r < m + 1 && found@[r] == e {
                    let r = choose|r: int| 0 <= r < m + 1 && found@[r] == e;
                    if r < m {
                        assert(old_v.contains(e));
                    }
                }
            }
            m += 1;
        }
        assert forall|i: int| 0 <= i < v@.len() implies {
            &&& (#[trigger] v@[i]).total == words@.len() * 5
            &&& v@[i].count == occurrences(views(words@), v@[i].ch)
            &&& v@[i].count > 0
        } by {
            assert(v@.contains(v@[i]));
            let r = choose|r: int| 0 <= r < m && found@[r] == v@[i];
            lemma_letter_count_at(found@, r);
        }
        assert forall|c: char| occurrences(views(words@), c) > 0 implies exists|i: int|
            0 <= i < v@.len() && (#[trigger] v@[i]).ch == c by {
            assert(letter_count(found@, c) == occurrences(ws, c));
            let k = choose|k: int| 0 <= k < found@.len() && (#[trigger] found@[k]).ch == c;
            assert(0 <= k < m && found@[k] == found@[k]);
            assert(exists|r: int| 0 <= r < m && found@[r] == found@[k]);
            assert(v@.contains(found@[k]));
            let q = choose|q: int| 0 <= q < v@.len() && v@[q] == found@[k];
        }
        v
    }
}

/// Counts one more `c`: adds one to its count, or adds it with count one.
fn add_letter(found: &mut Vec<CharFreq>, c: char, total: usize)
    requires
        distinct_letters(old(found)@),
        forall|k: int|
            0 <= k < old(found)@.len() ==> (#[trigger] old(found)@[k]).total == total
                && old(found)@[k].count > 0 && old(found)@[k].count < usize::MAX,
    ensures
        distinct_letters(final(found)@),
        forall|k: int|
            0 <= k < final(found)@.len() ==> (#[trigger] final(found)@[k]).total == total
                && final(found)@[k].count > 0,
        forall|d: char|
            letter_count(final(found)@, d) == letter_count(old(found)@, d) + if d == c {
                1nat
            } else {
                0nat
            },
{
    let ghost s = found@;
    let mut k: usize = 0;
    while k < found.len() && found[k].ch != c
        invariant
            found@ == s,
            k <= s.len(),
            forall|m: int| 0 <= m < k ==> (#[trigger] s[m]).ch != c,
        decreases s.len() - k,
    {
        k += 1;
    }
    if k < found.len() {
        let f = found[k];
        found.set(k, CharFreq { ch: c, count: f.count + 1, total });
        let ghost t = found@;
        assert forall|d: char| letter_count(t, d) == letter_count(s, d) + if d == c {
            1nat
        } else {
            0nat
        } by {
            if d == c {
                lemma_letter_count_at(s, k as int);
                lemma_letter_count_at(t, k as int);
            } else {
                if exists|q: int| 0 <= q < s.len() && (#[trigger] s[q]).ch == d {
                    let q = choose|q: int| 0 <= q < s.len() && (#[trigger] s[q]).ch == d;
                    lemma_letter_count_at(s, q);
                    lemma_letter_count_at(t, q);
                } else {
                    assert(!exists|q: int| 0 <= q < t.len() && (#[trigger] t[q]).ch == d) by {
                        if exists|q: int| 0 <= q < t.len() && (#[trigger] t[q]).ch == d {
                            let q = choose|q: int| 0 <= q < t.len() && (#[trigger] t[q]).ch == d;
                            assert(s[q].ch == d);
                        }
                    }
                }
            }
        }
    } else {
        found.push(CharFreq { ch: c, count: 1, total });
        let ghost t = found@;
        assert forall|d: char| letter_count(t, d) == letter_count(s, d) + if d == c {
            1nat
        } else {
            0nat
        } by {
            if d == c {
                lemma_letter_count_at(t, s.len() as int);
                assert(!exists|q: int| 0 <= q < s.len() && (#[trigger] s[q]).ch == d);
            } else {
                if exists|q: int| 0 <= q < s.len() && (#[trigger] s[q]).ch == d {
                    let q = choose|q: int| 0 <= q < s.len() && (#[trigger] s[q]).ch == d;
                    lemma_letter_count_at(s, q);
                    lemma_letter_count_at(t, q);
                } else {
                    assert(!exists|q: int| 0 <= q < t.len() && (#[trigger] t[q]).ch == d) by {
                        if exists|q: int| 0 <= q < t.len() && (#[trigger] t[q]).ch == d {
                            let q = choose|q: int| 0 <= q < t.len() && (#[trigger] t[q]).ch == d;
                            if q < s.len() {
                                assert(s[q].ch == d);
                            }
                        }
                    }
                }
            }
        }
    }
}

/// Inserts `x` into the sorted `v` at its place.
fn insert_freq(v: &mut Vec<CharFreq>, x: CharFreq)
    requires
        freq_sorted(old(v)@),
        forall|q: int| 0 <= q < old(v)@.len() ==> (#[trigger] old(v)@[q]).ch != x.ch,
    ensures
        freq_sorted(final(v)@),
        forall|e: CharFreq| final(v)@.contains(e) <==> (old(v)@.contains(e) || e == x),
{
    let ghost old_v = v@;
    let mut p: usize = 0;
    while p < v.len() && (v[p].count > x.count || (v[p].count == x.count && v[p].ch < x.ch))
        invariant
            v@ == old_v,
            p <= v@.len(),
            forall|q: int| 0 <= q < p ==> freq_before(#[trigger] v@[q], x),
        decreases v@.len() - p,
    {
        p += 1;
    }
    v.insert(p, x);
    assert(v@ == old_v.insert(p as int, x));
    assert forall|a: int, b: int| 0 <= a < b < v@.len() implies freq_before(
        #[trigger] v@[a],
        #[trigger] v@[b],
    ) by {
        if b < p {
            assert(v@[a] == old_v[a] && v@[b] == old_v[b]);
        } else if b == p {
            assert(v@[a] == old_v[a]);
        } else if a == p {
            assert(v@[b] == old_v[b - 1]);
            assert(freq_before(x, old_v[p as int]));
            if b - 1 > p {
                assert(freq_before(old_v[p as int], old_v[b - 1]));
            }
        } else if a < p {
            assert(v@[a] == old_v[a] && v@[b] == old_v[b - 1]);
        } else {
            assert(v@[a] == old_v[a - 1] && v@[b] == old_v[b - 1]);
        }
    }
    assert forall|e: CharFreq| #[trigger] v@.contains(e) <==> (old_v.contains(e) || e == x) by {
        if v@.contains(e) {
            let q = choose|q: int| 0 <= q < v@.len() && v@[q] == e;
            if q < p {
                assert(old_v[q] == e);
            } else if q > p {
                assert(old_v[q - 1] == e);
            }
        }
        if old_v.contains(e) {
            let q = choose|q: int| 0 <= q < old_v.len() && old_v[q] == e;
            if q < p {
                assert(v@[q] == e);
            } else {
                assert(v@[q + 1] == e);
            }
        }
        if e == x {
            assert(v@[p as int] == e);
        }
    }
}

proof fn lemma_total_length_prefix(ws: Seq<Seq<char>>, n: int)
    requires
        0 <= n <= ws.len(),
    ensures
        total_length(ws.take(n)) <= total_length(ws),
    decreases ws.len(),
{
    if n < ws.len() {
        assert(ws.drop_last().take(n) =~= ws.take(n));
        lemma_total_length_prefix(ws.drop_last(), n);
    } else {
        assert(ws.take(n) =~= ws);
    }
}

proof fn lemma_occurrences_bounded(ws: Seq<Seq<char>>, c: char)
    ensures
        occurrences(ws, c) <= total_length(ws),
    decreases ws.len(),
{
    if ws.len() > 0 {
        lemma_occurrences_bounded(ws.drop_last(), c);
        lemma_count_char_bounded(ws.last(), c);
    }
}

proof fn lemma_count_char_bounded(w: Seq<char>, c: char)
    ensures
        count_char(w, c) <= w.len(),
    decreases w.len(),
{
    if w.len() > 0 {
        lemma_count_char_bounded(w.drop_last(), c);
    }
}

} // verus!
