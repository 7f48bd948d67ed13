use vstd::prelude::*;
use vstd::string::StringExecFns;
use std::collections::HashMap;
use vstd::std_specs::iter::IteratorSpec;

use crate::consistency::{
    count_of, found_of, lemma_list_is_range, lemma_ranking_as_ranges, max_list, sum_list,
};
use crate::pattern::{diff_chars, encode, digit};
use crate::text::{chars_of, chars_of_all, join, push_char, views, lemma_text_lt_asymmetric, lemma_text_lt_total, lemma_text_lt_transitive, text_less, text_lt};

verus! {

// ----------------------------------------------------------------------------------------
// Rankings and their order
// ----------------------------------------------------------------------------------------

/// What a ranking says of a guess: the guess, how many groups of solutions its patterns
/// make, how many solutions those groups hold in all, and how many the largest holds.
/// The average group size is `sum / groups`.
pub struct RankingView {
    pub word: Seq<char>,
    pub groups: int,
    pub sum: int,
    pub max: int,
}

/// Whether ranking `a` is better than ranking `b`: more groups; then, at equal groups, a
/// smaller average group (a smaller sum); then a smaller largest group; then the word
/// that comes first.
pub open spec fn ranks_before(a: RankingView, b: RankingView) -> bool {
    ||| a.groups > b.groups
    ||| a.groups == b.groups && a.sum < b.sum
    ||| a.groups == b.groups && a.sum == b.sum && a.max < b.max
    ||| a.groups == b.groups && a.sum == b.sum && a.max == b.max && text_lt(a.word, b.word)
}

/// Whether `s` is in ranking order: no ranking comes before an earlier one.
pub open spec fn is_sorted(s: Seq<RankingView>) -> bool {
    forall|i: int, j: int| 0 <= i < j < s.len() ==> !ranks_before(#[trigger] s[j], #[trigger] s[i])
}

/// Where `r` goes in `s`: before the first ranking that `r` is better than.
pub open spec fn insert_pos(s: Seq<RankingView>, r: RankingView) -> int
    decreases s.len(),
{
    if s.len() == 0 {
        0
    } else if ranks_before(r, s[0]) {
        0
    } else {
        1 + insert_pos(s.drop_first(), r)
    }
}

/// `s` with `r` put before the first ranking that `r` is better than.
pub open spec fn insert_sorted(s: Seq<RankingView>, r: RankingView) -> Seq<RankingView> {
    s.take(insert_pos(s, r)) + seq![r] + s.skip(insert_pos(s, r))
}

/// The rankings `s` in ranking order; equal rankings keep their order.
pub open spec fn sort_rankings(s: Seq<RankingView>) -> Seq<RankingView>
    decreases s.len(),
{
    if s.len() == 0 {
        Seq::empty()
    } else {
        insert_sorted(sort_rankings(s.drop_last()), s.last())
    }
}

/// The first `limit` rankings of `s`, or all of `s` without limit.
pub open spec fn best(limit: Option<nat>, s: Seq<RankingView>) -> Seq<RankingView> {
    match limit {
        Some(k) => if k < s.len() {
            s.take(k as int)
        } else {
            s
        },
        None => s,
    }
}

/// The scores of a guess.
#[derive(Debug, Clone, Copy)]
pub struct Ranking<'a> {
    pub word: &'a str,
    pub groups: usize,
    pub sum: usize,
    pub max: usize,
}

impl<'a> View for Ranking<'a> {
    type V = RankingView;

    open spec fn view(&self) -> RankingView {
        RankingView {
            word: self.word@,
            groups: self.groups as int,
            sum: self.sum as int,
            max: self.max as int,
        }
    }
}

/// What the rankings `s` say.
pub open spec fn ranking_views<'a>(s: Seq<Ranking<'a>>) -> Seq<RankingView> {
    s.map_values(|r: Ranking<'a>| r@)
}

impl<'a> Ranking<'a> {
    /// The ranking of `word` with these scores.
    pub fn new(word: &'a str, groups: usize, sum: usize, max: usize) -> (r: Ranking<'a>)
        ensures
            r.word == word,
            r.groups == groups,
            r.sum == sum,
            r.max == max,
    {
        Ranking { word, groups, sum, max }
    }

    /// Whether this ranking is better than `other`.
    pub fn precedes(&self, other: &Ranking<'a>) -> (b: bool)
        ensures
            b == ranks_before(self@, other@),
    {
        if self.groups != other.groups {
            self.groups > other.groups
        } else if self.sum != other.sum {
            self.sum < other.sum
        } else if self.max != other.max {
            self.max < other.max
        } else {
            let a = chars_of(self.word);
            let b = chars_of(other.word);
            text_less(&a, &b)
        }
    }
}

// ----------------------------------------------------------------------------------------
// The order is a strict total order
// ----------------------------------------------------------------------------------------

/// No ranking is better than itself, and of two rankings at most one is better.
pub proof fn lemma_before_asymmetric(a: RankingView, b: RankingView)
    ensures
        ranks_before(a, b) ==> !ranks_before(b, a),
        !ranks_before(a, a),
{
    lemma_text_lt_asymmetric(a.word, b.word);
}

/// Being better is transitive.
pub proof fn lemma_before_transitive(a: RankingView, b: RankingView, c: RankingView)
    requires
        ranks_before(a, b),
        ranks_before(b, c),
    ensures
        ranks_before(a, c),
{
    if a.groups == b.groups && b.groups == c.groups && a.sum == b.sum && b.sum == c.sum && a.max
        == b.max && b.max == c.max {
        lemma_text_lt_transitive(a.word, b.word, c.word);
    }
}

/// The order of rankings: more groups first; at equal groups, the smaller average group
/// (the smaller sum) first, whatever the largest groups; at equal groups and averages, the
/// smaller largest group first; at equal scores, the word that comes first in text order.
pub proof fn lemma_ranking_order(a: RankingView, b: RankingView)
    ensures
        a.groups > b.groups ==> ranks_before(a, b) && !ranks_before(b, a),
        a.groups == b.groups && a.sum < b.sum ==> ranks_before(a, b) && !ranks_before(b, a),
        a.groups == b.groups && a.groups > 0 && a.sum * b.groups < b.sum * a.groups
            ==> ranks_before(a, b),
        a.groups == b.groups && a.sum == b.sum && a.max < b.max ==> ranks_before(a, b)
            && !ranks_before(b, a),
        a.groups == b.groups && a.sum == b.sum && a.max == b.max ==> (ranks_before(a, b)
            <==> text_lt(a.word, b.word)),
{
    lemma_before_asymmetric(a, b);
    if a.groups == b.groups && a.groups > 0 && a.sum * b.groups < b.sum * a.groups {
        assert(a.sum < b.sum) by (nonlinear_arith)
            requires
                a.groups == b.groups,
                a.groups > 0,
                a.sum * b.groups < b.sum * a.groups,
        ;
    }
}

/// Of two different rankings, one is better.
pub proof fn lemma_before_total(a: RankingView, b: RankingView)
    requires
        a != b,
    ensures
        ranks_before(a, b) || ranks_before(b, a),
{
    if a.groups == b.groups && a.sum == b.sum && a.max == b.max {
        lemma_text_lt_total(a.word, b.word);
    }
}

// ----------------------------------------------------------------------------------------
// Sorted insertion
// ----------------------------------------------------------------------------------------

/// `r` goes after every ranking that it is not better than, and before the first one it
/// is better than.
proof fn lemma_insert_pos(s: Seq<RankingView>, r: RankingView)
    ensures
        0 <= insert_pos(s, r) <= s.len(),
        forall|j: int| 0 <= j < insert_pos(s, r) ==> !ranks_before(r, #[trigger] s[j]),
        insert_pos(s, r) < s.len() ==> ranks_before(r, s[insert_pos(s, r)]),
    decreases s.len(),
{
    if s.len() > 0 && !ranks_before(r, s[0]) {
        lemma_insert_pos(s.drop_first(), r);
        assert forall|j: int| 0 <= j < insert_pos(s, r) implies !ranks_before(r, #[trigger] s[j]) by {
            if j > 0 {
                assert(s[j] == s.drop_first()[j - 1]);
            }
        }
    }
}

/// The place of `r` is the first place `i` such that `r` is better than none before `i`
/// and better than the ranking at `i`.
proof fn lemma_insert_pos_unique(s: Seq<RankingView>, r: RankingView, i: int)
    requires
        0 <= i <= s.len(),
        forall|j: int| 0 <= j < i ==> !ranks_before(r, #[trigger] s[j]),
        i < s.len() ==> ranks_before(r, s[i]),
    ensures
        insert_pos(s, r) == i,
{
    lemma_insert_pos(s, r);
}

/// Inserting into a sorted sequence keeps it sorted.
proof fn lemma_insert_sorted_sorted(s: Seq<RankingView>, r: RankingView)
    requires
        is_sorted(s),
    ensures
        is_sorted(insert_sorted(s, r)),
        insert_sorted(s, r).len() == s.len() + 1,
{
    lemma_insert_pos(s, r);
    let p = insert_pos(s, r);
    let t = insert_sorted(s, r);
    assert forall|i: int, j: int| 0 <= i < j < t.len() implies !ranks_before(
        #[trigger] t[j],
        #[trigger] t[i],
    ) by {
        if i < p && j < p {
            assert(t[i] == s[i] && t[j] == s[j]);
        } else if i < p && j == p {
            assert(t[i] == s[i] && t[j] == r);
        } else if i < p && j > p {
            assert(t[i] == s[i] && t[j] == s[j - 1]);
        } else if i == p {
            assert(t[i] == r && t[j] == s[j - 1]);
            // r is better than s[p], which is not worse than s[j - 1].
            if ranks_before(s[j - 1], r) {
                lemma_before_transitive(s[j - 1], r, s[p]);
                lemma_before_asymmetric(s[p], s[p]);
            }
        } else {
            assert(t[i] == s[i - 1] && t[j] == s[j - 1]);
        }
    }
}

/// Sorting gives a sorted sequence of the same length.
pub proof fn lemma_sort_sorted(s: Seq<RankingView>)
    ensures
        is_sorted(sort_rankings(s)),
        sort_rankings(s).len() == s.len(),
    decreases s.len(),
{
    if s.len() > 0 {
        lemma_sort_sorted(s.drop_last());
        lemma_insert_sorted_sorted(sort_rankings(s.drop_last()), s.last());
    }
}

/// Sorting keeps every ranking it is given, as many times as it is given, and adds none.
pub proof fn lemma_sort_keeps_rankings(s: Seq<RankingView>)
    ensures
        sort_rankings(s).to_multiset() == s.to_multiset(),
    decreases s.len(),
{
    broadcast use vstd::seq_lib::group_to_multiset_ensures;

    if s.len() > 0 {
        let front = s.drop_last();
        lemma_sort_keeps_rankings(front);
        let t = sort_rankings(front);
        lemma_insert_pos(t, s.last());
        let p = insert_pos(t, s.last());
        assert(insert_sorted(t, s.last()) =~= t.insert(p, s.last()));
        assert(front.push(s.last()) =~= s);
    }
}

/// The best `k` after inserting `r` into the best `k` of a sorted sequence are the best `k`
/// after inserting `r` into the whole sequence.
proof fn lemma_best_of_insert(s: Seq<RankingView>, r: RankingView, k: nat)
    requires
        is_sorted(s),
    ensures
        best(Some(k), insert_sorted(best(Some(k), s), r)) == best(Some(k), insert_sorted(s, r)),
{
    let t = best(Some(k), s);
    if k < s.len() {
        lemma_insert_pos(s, r);
        lemma_insert_pos(t, r);
        let p = insert_pos(s, r);
        if p < k {
            lemma_insert_pos_unique(t, r, p);
            assert(best(Some(k), insert_sorted(t, r)) =~= best(Some(k), insert_sorted(s, r)));
        } else {
            lemma_insert_pos_unique(t, r, k as int);
            assert(best(Some(k), insert_sorted(t, r)) =~= t);
            assert(best(Some(k), insert_sorted(s, r)) =~= t);
        }
    }
}

/// Keeping the best `k`: what a full set of `k` does with a new ranking.
proof fn lemma_keep_best(held: Seq<RankingView>, r: RankingView, k: nat)
    requires
        is_sorted(held),
        held.len() <= k,
    ensures
        best(Some(k), insert_sorted(held, r)) == if held.len() < k {
            insert_sorted(held, r)
        } else if k > 0 && ranks_before(r, held.last()) {
            insert_sorted(held.drop_last(), r)
        } else {
            held
        },
{
    lemma_insert_pos(held, r);
    let p = insert_pos(held, r);
    if held.len() == k {
        if k > 0 && ranks_before(r, held.last()) {
            let d = held.drop_last();
            assert(p < k);
            lemma_insert_pos_unique(d, r, p);
            assert(best(Some(k), insert_sorted(held, r)) =~= insert_sorted(d, r));
        } else {
            if p < held.len() {
                // r is better than held[p], which is not worse than the last.
                if k > 0 && p < k - 1 {
                    lemma_before_total(held[p], held.last());
                    if ranks_before(held[p], held.last()) {
                        lemma_before_transitive(r, held[p], held.last());
                    } else {
                        assert(held[p] == held.last() || ranks_before(held.last(), held[p]));
                    }
                }
            }
            assert(p == held.len());
            assert(best(Some(k), insert_sorted(held, r)) =~= held);
        }
    }
}

// ----------------------------------------------------------------------------------------
// Collections of rankings
// ----------------------------------------------------------------------------------------

/// What a collection of rankings holds: its limit and the rankings it kept.
pub struct RankingsView {
    pub limit: Option<nat>,
    pub held: Seq<RankingView>,
}

impl RankingsView {
    /// An empty collection with limit `limit`.
    pub open spec fn empty(limit: Option<nat>) -> RankingsView {
        RankingsView { limit, held: Seq::empty() }
    }

    /// A limited collection keeps at most its limit, in ranking order.
    pub open spec fn well_formed(self) -> bool {
        match self.limit {
            Some(k) => is_sorted(self.held) && self.held.len() <= k,
            None => true,
        }
    }

    /// The collection after `r` is added: without limit it keeps everything; with a
    /// limit, the best of what it kept and `r`.
    pub open spec fn pushed(self, r: RankingView) -> RankingsView {
        match self.limit {
            Some(k) => RankingsView {
                limit: self.limit,
                held: best(Some(k), insert_sorted(self.held, r)),
            },
            None => RankingsView { limit: self.limit, held: self.held.push(r) },
        }
    }

    /// The collection after each of `rs` is added, in order.
    pub open spec fn pushed_all(self, rs: Seq<RankingView>) -> RankingsView
        decreases rs.len(),
    {
        if rs.len() == 0 {
            self
        } else {
            self.pushed_all(rs.drop_last()).pushed(rs.last())
        }
    }

    /// The rankings of the collection, in ranking order.
    pub open spec fn sorted_contents(self) -> Seq<RankingView> {
        match self.limit {
            Some(_) => self.held,
            None => sort_rankings(self.held),
        }
    }
}

enum RankingStorage<'a> {
    All(Vec<Ranking<'a>>),
    TopK { rankings: Vec<Ranking<'a>>, k: usize },
}

/// A collection of rankings, either all of them or only the best few.
pub struct Rankings<'a> {
    storage: RankingStorage<'a>,
}

impl<'a> Rankings<'a> {
    /// A limited collection keeps at most its limit, in ranking order.
    #[verifier::type_invariant]
    closed spec fn well_formed(self) -> bool {
        self@.well_formed()
    }
}

impl<'a> View for Rankings<'a> {
    type V = RankingsView;

    closed spec fn view(&self) -> RankingsView {
        match self.storage {
            RankingStorage::All(v) => RankingsView { limit: None, held: ranking_views(v@) },
            RankingStorage::TopK { rankings, k } => RankingsView {
                limit: Some(k as nat),
                held: ranking_views(rankings@),
            },
        }
    }
}

/// The limit `limit` as a number without bound.
pub open spec fn limit_view(limit: Option<usize>) -> Option<nat> {
    match limit {
        Some(k) => Some(k as nat),
        None => None,
    }
}

/// Inserts `r` into the sorted `v` before the first ranking that `r` is better than.
fn insert_ranking<'a>(v: &mut Vec<Ranking<'a>>, r: Ranking<'a>)
    ensures
        ranking_views(final(v)@) == insert_sorted(ranking_views(old(v)@), r@),
{
    let ghost s = ranking_views(v@);
    let mut i: usize = 0;
    while i < v.len() && !r.precedes(&v[i])
        invariant
            i <= v@.len(),
            s == ranking_views(v@),
            forall|j: int| 0 <= j < i ==> !ranks_before(r@, #[trigger] s[j]),
        decreases v@.len() - i,
    {
        i += 1;
    }
    proof {
        lemma_insert_pos_unique(s, r@, i as int);
    }
    v.insert(i, r);
    assert(ranking_views(v@) =~= insert_sorted(s, r@));
}

impl<'a> Rankings<'a> {
    /// An empty collection that keeps the best `limit` rankings, or all of them.
    pub fn new(limit: Option<usize>) -> (r: Rankings<'a>)
        ensures
            r@ == RankingsView::empty(limit_view(limit)),
    {
        let storage = match limit {
            Some(limit) => RankingStorage::TopK { rankings: Vec::new(), k: limit },
            None => RankingStorage::All(Vec::new()),
        };
        let r = Rankings { storage };
        assert(ranking_views(Seq::<Ranking<'a>>::empty()) =~= Seq::<RankingView>::empty());
        r
    }

    /// Adds `ranking`; a limited collection keeps only the best.
    pub fn push(&mut self, ranking: Ranking<'a>)
        ensures
            final(self)@ == old(self)@.pushed(ranking@),
            final(self)@.well_formed(),
    {
        proof {
            use_type_invariant(&*self);
        }
        let mut storage = RankingStorage::All(Vec::new());
        std::mem::swap(&mut storage, &mut self.storage);
        match &mut storage {
            RankingStorage::All(rankings) => {
                let ghost before = ranking_views(rankings@);
                rankings.push(ranking);
                assert(ranking_views(rankings@) =~= before.push(ranking@));
            },
            RankingStorage::TopK { rankings, k } => {
                let ghost before = ranking_views(rankings@);
                proof {
                    lemma_keep_best(before, ranking@, *k as nat);
                    lemma_insert_sorted_sorted(before, ranking@);
                }
                if rankings.len() < *k {
                    insert_ranking(rankings, ranking);
                } else if rankings.len() > 0 && ranking.precedes(&rankings[rankings.len() - 1]) {
                    rankings.pop();
                    assert(ranking_views(rankings@) =~= before.drop_last());
                    insert_ranking(rankings, ranking);
                } else {
                }
                proof {
                    let after = best(Some(*k as nat), insert_sorted(before, ranking@));
                    assert(ranking_views(rankings@) == after);
                    if *k < insert_sorted(before, ranking@).len() {
                        assert forall|i: int, j: int| 0 <= i < j < after.len() implies !ranks_before(
                            #[trigger] after[j],
                            #[trigger] after[i],
                        ) by {
                            assert(after[i] == insert_sorted(before, ranking@)[i]);
                            assert(after[j] == insert_sorted(before, ranking@)[j]);
                        }
                    }
                }
            },
        }
        self.storage = storage;
    }

    /// The rankings of the collection, best first.
    pub fn into_sorted_vec(self) -> (v: Vec<Ranking<'a>>)
        ensures
            ranking_views(v@) == self@.sorted_contents(),
    {
        proof {
            use_type_invariant(&self);
        }
        match self.storage {
            RankingStorage::All(rankings) => sort_vec(&rankings),
            RankingStorage::TopK { rankings, .. } => rankings,
        }
    }
}

/// The rankings `v`, sorted: best first, equal rankings in their order.
pub fn sort_vec<'a>(v: &Vec<Ranking<'a>>) -> (out: Vec<Ranking<'a>>)
    ensures
        ranking_views(out@) == sort_rankings(ranking_views(v@)),
{
    let mut out: Vec<Ranking<'a>> = Vec::new();
    let mut i: usize = 0;
    while i < v.len()
        invariant
            i <= v@.len(),
            ranking_views(out@) == sort_rankings(ranking_views(v@).take(i as int)),
        decreases v@.len() - i,
    {
        assert(ranking_views(v@).take(i + 1).drop_last() =~= ranking_views(v@).take(i as int));
        insert_ranking(&mut out, v[i]);
        i += 1;
    }
    assert(ranking_views(v@).take(i as int) =~= ranking_views(v@));
    out
}

/// Sorts `v` in place: best first, equal rankings in their order.
pub fn sort_rankings_in_place<'a>(v: &mut Vec<Ranking<'a>>)
    ensures
        ranking_views(final(v)@) == sort_rankings(ranking_views(old(v)@)),
{
    let sorted = sort_vec(v);
    *v = sorted;
}

// ----------------------------------------------------------------------------------------
// Laws of collections
// ----------------------------------------------------------------------------------------

/// A collection that starts empty stays well formed whatever is added to it.
pub proof fn lemma_pushed_all_well_formed(limit: Option<nat>, rs: Seq<RankingView>)
    ensures
        RankingsView::empty(limit).pushed_all(rs).well_formed(),
        RankingsView::empty(limit).pushed_all(rs).limit == limit,
    decreases rs.len(),
{
    if rs.len() > 0 {
        lemma_pushed_all_well_formed(limit, rs.drop_last());
        let m = RankingsView::empty(limit).pushed_all(rs.drop_last());
        if let Some(k) = limit {
            lemma_insert_sorted_sorted(m.held, rs.last());
            let t = insert_sorted(m.held, rs.last());
            let after = best(Some(k), t);
            assert forall|i: int, j: int| 0 <= i < j < after.len() implies !ranks_before(
                #[trigger] after[j],
                #[trigger] after[i],
            ) by {
                assert(after[i] == t[i]);
                assert(after[j] == t[j]);
            }
        }
    }
}

/// A collection that starts empty gives back, in ranking order, the best `limit` of all
/// the rankings added to it (all of them without limit).
pub proof fn lemma_keeps_the_best(limit: Option<nat>, rs: Seq<RankingView>)
    ensures
        RankingsView::empty(limit).pushed_all(rs).sorted_contents() == best(
            limit,
            sort_rankings(rs),
        ),
    decreases rs.len(),
{
    lemma_pushed_all_well_formed(limit, rs);
    match limit {
        None => {
            lemma_all_kept(rs);
        },
        Some(k) => {
            lemma_best_kept(k, rs);
        },
    }
}

proof fn lemma_all_kept(rs: Seq<RankingView>)
    ensures
        RankingsView::empty(None).pushed_all(rs).held == rs,
    decreases rs.len(),
{
    lemma_pushed_all_well_formed(None, rs);
    if rs.len() > 0 {
        lemma_pushed_all_well_formed(None, rs.drop_last());
        lemma_all_kept(rs.drop_last());
        assert(rs.drop_last().push(rs.last()) =~= rs);
    }
}

proof fn lemma_best_kept(k: nat, rs: Seq<RankingView>)
    ensures
        RankingsView::empty(Some(k)).pushed_all(rs).held == best(Some(k), sort_rankings(rs)),
    decreases rs.len(),
{
    if rs.len() == 0 {
        assert(best(Some(k), Seq::<RankingView>::empty()) =~= Seq::<RankingView>::empty());
    } else {
        lemma_pushed_all_well_formed(Some(k), rs.drop_last());
        lemma_best_kept(k, rs.drop_last());
        lemma_sort_sorted(rs.drop_last());
        lemma_best_of_insert(sort_rankings(rs.drop_last()), rs.last(), k);
    }
}

/// The words of `rankings`, in order.
pub open spec fn ranking_words<'a>(rankings: Seq<Ranking<'a>>) -> Seq<Seq<char>> {
    rankings.map_values(|r: Ranking<'a>| r.word@)
}

/// The words of `rankings`, in order, separated by spaces.
pub fn inline_words<'a>(rankings: &[Ranking<'a>]) -> (s: String)
    ensures
        s@ == join(ranking_words(rankings@), ' '),
{
    let ghost parts = ranking_words(rankings@);
    let mut s = String::new();
    let mut m: usize = 0;
    while m < rankings.len()
        invariant
            m <= rankings@.len(),
            parts == ranking_words(rankings@),
            s@ == join(parts.take(m as int), ' '),
        decreases rankings@.len() - m,
    {
        assert(parts.take(m + 1).drop_last() =~= parts.take(m as int));
        if m > 0 {
            push_char(&mut s, ' ');
        }
        s.append(rankings[m].word);
        if m == 0 {
            assert(s@ =~= join(parts.take(m + 1), ' '));
        }
        m += 1;
    }
    assert(parts.take(m as int) =~= parts);
    s
}

/// The best rankings of a sorted sequence are sorted, and with a limit they are the start
/// of the sequence.
pub proof fn lemma_best_of_sorted(limit: Option<nat>, s: Seq<RankingView>)
    requires
        is_sorted(s),
    ensures
        is_sorted(best(limit, s)),
        best(limit, s).len() <= s.len(),
        forall|i: int| 0 <= i < best(limit, s).len() ==> #[trigger] best(limit, s)[i] == s[i],
{
    let b = best(limit, s);
    assert forall|i: int, j: int| 0 <= i < j < b.len() implies !ranks_before(
        #[trigger] b[j],
        #[trigger] b[i],
    ) by {
        assert(b[i] == s[i] && b[j] == s[j]);
    }
}

/// Ranking with a limit gives the first rankings of ranking without limit, and both are
/// in ranking order.
pub proof fn lemma_limited_rank_is_prefix(words: Seq<Seq<char>>, k: nat)
    ensures
        is_sorted(best(None, sort_rankings(guess_rankings(words, words)))),
        is_sorted(best(Some(k), sort_rankings(guess_rankings(words, words)))),
        best(Some(k), sort_rankings(guess_rankings(words, words))) == sort_rankings(
            guess_rankings(words, words),
        ).take(best(Some(k), sort_rankings(guess_rankings(words, words))).len() as int),
{
    let s = sort_rankings(guess_rankings(words, words));
    lemma_sort_sorted(guess_rankings(words, words));
    lemma_best_of_sorted(None, s);
    lemma_best_of_sorted(Some(k), s);
    assert(best(Some(k), s) =~= s.take(best(Some(k), s).len() as int));
}

// ----------------------------------------------------------------------------------------
// Ranking guesses against solutions
// ----------------------------------------------------------------------------------------

/// The number of pattern values: five marks of two bits.
pub open spec fn pattern_values() -> int {
    1024
}

/// How many of `solutions` give `guess` the pattern value `p`.
pub open spec fn pattern_count(guess: Seq<char>, solutions: Seq<Seq<char>>, p: int) -> nat
    decreases solutions.len(),
{
    if solutions.len() == 0 {
        0
    } else {
        pattern_count(guess, solutions.drop_last(), p) + if encode(guess, solutions.last()) == p {
            1nat
        } else {
            0nat
        }
    }
}

/// How many of the non-empty pattern values below `n` some solution gives `guess`.
pub open spec fn groups_below(guess: Seq<char>, solutions: Seq<Seq<char>>, n: int) -> nat
    decreases n,
{
    if n <= 1 {
        0
    } else {
        groups_below(guess, solutions, n - 1) + if pattern_count(guess, solutions, n - 1) > 0 {
            1nat
        } else {
            0nat
        }
    }
}

/// How many solutions the non-empty pattern values below `n` take in all.
pub open spec fn sum_below(guess: Seq<char>, solutions: Seq<Seq<char>>, n: int) -> nat
    decreases n,
{
    if n <= 1 {
        0
    } else {
        sum_below(guess, solutions, n - 1) + pattern_count(guess, solutions, n - 1)
    }
}

/// How many solutions the largest group of a non-empty pattern value below `n` holds.
pub open spec fn largest_below(guess: Seq<char>, solutions: Seq<Seq<char>>, n: int) -> nat
    decreases n,
{
    if n <= 1 {
        0
    } else {
        let prev = largest_below(guess, solutions, n - 1);
        let c = pattern_count(guess, solutions, n - 1);
        if c > prev {
            c
        } else {
            prev
        }
    }
}

/// The ranking of `guess`: the solutions grouped by the pattern they give it, leaving out
/// the empty pattern.
pub open spec fn guess_ranking(guess: Seq<char>, solutions: Seq<Seq<char>>) -> RankingView {
    RankingView {
        word: guess,
        groups: groups_below(guess, solutions, pattern_values()) as int,
        sum: sum_below(guess, solutions, pattern_values()) as int,
        max: largest_below(guess, solutions, pattern_values()) as int,
    }
}

/// The rankings of the guesses `guesses` that make at least one group, in order.
pub open spec fn guess_rankings(guesses: Seq<Seq<char>>, solutions: Seq<Seq<char>>) -> Seq<
    RankingView,
>
    decreases guesses.len(),
{
    if guesses.len() == 0 {
        Seq::empty()
    } else {
        let prev = guess_rankings(guesses.drop_last(), solutions);
        let r = guess_ranking(guesses.last(), solutions);
        if r.groups > 0 {
            prev.push(r)
        } else {
            prev
        }
    }
}

/// How many of `solutions` give `guess` a non-empty pattern value below `n`.
pub open spec fn counted_below(guess: Seq<char>, solutions: Seq<Seq<char>>, n: int) -> nat
    decreases solutions.len(),
{
    if solutions.len() == 0 {
        0
    } else {
        counted_below(guess, solutions.drop_last(), n) + if 1 <= encode(guess, solutions.last())
            < n {
            1nat
        } else {
            0nat
        }
    }
}

/// The value of a pattern of a guess of at most five letters is below 1024.
pub proof fn lemma_encode_below(guess: Seq<char>, candidate: Seq<char>)
    requires
        guess.len() <= 5,
    ensures
        encode(guess, candidate) < pattern_values(),
{
    assert(digit(guess, candidate, 0) <= 2);
    assert(digit(guess, candidate, 1) <= 2);
    assert(digit(guess, candidate, 2) <= 2);
    assert(digit(guess, candidate, 3) <= 2);
    assert(digit(guess, candidate, 4) <= 2);
}

/// The size of the group of pattern value `p` is the number of solutions that give
/// `guess` that value.
pub proof fn lemma_pattern_count_meaning(guess: Seq<char>, solutions: Seq<Seq<char>>, p: int)
    ensures
        pattern_count(guess, solutions, p) == solutions.filter(
            |s: Seq<char>| encode(guess, s) == p,
        ).len(),
    decreases solutions.len(),
{
    reveal(Seq::filter);
    if solutions.len() > 0 {
        lemma_pattern_count_meaning(guess, solutions.drop_last(), p);
    }
}

/// What the scores of a guess (of at most five letters) say of the solutions: their sum
/// is the number of solutions whose pattern against the guess is not empty; the largest
/// group holds at least as many as any group of a non-empty pattern, and as many as one
/// of them where it is not zero.
pub proof fn lemma_guess_ranking_meaning(guess: Seq<char>, solutions: Seq<Seq<char>>)
    requires
        guess.len() <= 5,
    ensures
        guess_ranking(guess, solutions).sum == solutions.filter(
            |s: Seq<char>| encode(guess, s) != 0,
        ).len(),
        forall|p: int|
            1 <= p < pattern_values() ==> #[trigger] pattern_count(guess, solutions, p)
                <= guess_ranking(guess, solutions).max,
        guess_ranking(guess, solutions).max > 0 ==> exists|p: int|
            1 <= p < pattern_values() && #[trigger] pattern_count(guess, solutions, p)
                == guess_ranking(guess, solutions).max,
{
    lemma_sum_below_counts(guess, solutions, pattern_values());
    lemma_counted_nonempty(guess, solutions);
    lemma_largest_below(guess, solutions, pattern_values());
}

/// The number of groups below `n` is the number of different non-empty pattern values
/// below `n` that some solution gives `guess`.
pub proof fn lemma_groups_meaning(guess: Seq<char>, solutions: Seq<Seq<char>>, n: int)
    ensures
        Set::new(|p: int| 1 <= p < n && pattern_count(guess, solutions, p) > 0).finite(),
        groups_below(guess, solutions, n) == Set::new(
            |p: int| 1 <= p < n && pattern_count(guess, solutions, p) > 0,
        ).len(),
    decreases n,
{
    let here = Set::new(|p: int| 1 <= p < n && pattern_count(guess, solutions, p) > 0);
    if n <= 1 {
        assert(here =~= Set::<int>::empty());
    } else {
        lemma_groups_meaning(guess, solutions, n - 1);
        let before = Set::new(|p: int| 1 <= p < n - 1 && pattern_count(guess, solutions, p) > 0);
        if pattern_count(guess, solutions, n - 1) > 0 {
            assert(here =~= before.insert(n - 1));
            assert(!before.contains(n - 1));
        } else {
            assert(here =~= before);
        }
    }
}

proof fn lemma_counted_nonempty(guess: Seq<char>, solutions: Seq<Seq<char>>)
    requires
        guess.len() <= 5,
    ensures
        counted_below(guess, solutions, pattern_values()) == solutions.filter(
            |s: Seq<char>| encode(guess, s) != 0,
        ).len(),
    decreases solutions.len(),
{
    reveal(Seq::filter);
    if solutions.len() > 0 {
        lemma_counted_nonempty(guess, solutions.drop_last());
        lemma_encode_below(guess, solutions.last());
    }
}

proof fn lemma_largest_below(guess: Seq<char>, solutions: Seq<Seq<char>>, n: int)
    ensures
        forall|p: int| 1 <= p < n ==> #[trigger] pattern_count(guess, solutions, p)
            <= largest_below(guess, solutions, n),
        largest_below(guess, solutions, n) > 0 ==> exists|p: int|
            1 <= p < n && #[trigger] pattern_count(guess, solutions, p) == largest_below(
                guess,
                solutions,
                n,
            ),
    decreases n,
{
    if n > 1 {
        lemma_largest_below(guess, solutions, n - 1);
    }
}

/// The sizes of the groups below `n` add up to the number of solutions they hold.
pub proof fn lemma_sum_below_counts(guess: Seq<char>, solutions: Seq<Seq<char>>, n: int)
    ensures
        sum_below(guess, solutions, n) == counted_below(guess, solutions, n),
    decreases solutions.len(),
{
    if solutions.len() > 0 {
        lemma_sum_below_counts(guess, solutions.drop_last(), n);
        lemma_sum_below_step(guess, solutions, n);
    } else {
        lemma_sum_below_none(guess, solutions, n);
    }
}

proof fn lemma_sum_below_none(guess: Seq<char>, solutions: Seq<Seq<char>>, n: int)
    requires
        solutions.len() == 0,
    ensures
        sum_below(guess, solutions, n) == 0,
    decreases n,
{
    if n > 1 {
        lemma_sum_below_none(guess, solutions, n - 1);
    }
}

proof fn lemma_sum_below_step(guess: Seq<char>, solutions: Seq<Seq<char>>, n: int)
    requires
        solutions.len() > 0,
    ensures
        sum_below(guess, solutions, n) == sum_below(guess, solutions.drop_last(), n) + if 1
            <= encode(guess, solutions.last()) < n {
            1nat
        } else {
            0nat
        },
    decreases n,
{
    if n > 1 {
        lemma_sum_below_step(guess, solutions, n - 1);
    }
}

/// No group holds more solutions than there are.
proof fn lemma_count_bounded(guess: Seq<char>, solutions: Seq<Seq<char>>, p: int)
    ensures
        pattern_count(guess, solutions, p) <= solutions.len(),
    decreases solutions.len(),
{
    if solutions.len() > 0 {
        lemma_count_bounded(guess, solutions.drop_last(), p);
    }
}

/// No more solutions are counted than there are.
pub proof fn lemma_counted_bounded(guess: Seq<char>, solutions: Seq<Seq<char>>, n: int)
    ensures
        counted_below(guess, solutions, n) <= solutions.len(),
    decreases solutions.len(),
{
    if solutions.len() > 0 {
        lemma_counted_bounded(guess, solutions.drop_last(), n);
    }
}

/// A pattern value that some solution gives `guess` is below 1024.
proof fn lemma_counted_value_below(guess: Seq<char>, solutions: Seq<Seq<char>>, p: int)
    requires
        guess.len() <= 5,
        pattern_count(guess, solutions, p) > 0,
    ensures
        p < pattern_values(),
    decreases solutions.len(),
{
    lemma_encode_below(guess, solutions.last());
    if encode(guess, solutions.last()) != p {
        lemma_counted_value_below(guess, solutions.drop_last(), p);
    }
}

/// A sum over a prefix of a list is at most the sum over the list.
proof fn lemma_sum_list_prefix(order: Seq<u16>, h: spec_fn(int) -> nat, n: int)
    requires
        0 <= n <= order.len(),
    ensures
        sum_list(order.take(n), h) <= sum_list(order, h),
    decreases order.len(),
{
    if n < order.len() {
        assert(order.drop_last().take(n) =~= order.take(n));
        lemma_sum_list_prefix(order.drop_last(), h, n);
    } else {
        assert(order.take(n) =~= order);
    }
}

/// Summing a function that is one on every value of a list counts the list.
proof fn lemma_sum_list_ones(order: Seq<u16>, h: spec_fn(int) -> nat)
    requires
        forall|i: int| 0 <= i < order.len() ==> h(#[trigger] order[i] as int) == 1,
    ensures
        sum_list(order, h) == order.len(),
    decreases order.len(),
{
    if order.len() > 0 {
        assert(order[order.len() - 1] == order.last());
        assert forall|i: int| 0 <= i < order.drop_last().len() implies h(
            #[trigger] order.drop_last()[i] as int,
        ) == 1 by {
            assert(order.drop_last()[i] == order[i]);
        }
        lemma_sum_list_ones(order.drop_last(), h);
    }
}

/// The groups, total and largest group of `guess` against `solutions`.
fn score(guess: &[char], solutions: &Vec<Vec<char>>) -> (r: (usize, usize, usize))
    requires
        guess@.len() <= 5,
    ensures
        r.0 == groups_below(guess@, solutions.deep_view(), pattern_values()),
        r.1 == sum_below(guess@, solutions.deep_view(), pattern_values()),
        r.2 == largest_below(guess@, solutions.deep_view(), pattern_values()),
{
    broadcast use vstd::std_specs::hash::group_hash_axioms;

    let ghost sols = solutions.deep_view();
    // counts[p]: how many solutions give the non-empty pattern value p.
    let mut counts: HashMap<u16, usize> = HashMap::new();
    let mut j: usize = 0;
    while j < solutions.len()
        invariant
            guess@.len() <= 5,
            sols == solutions.deep_view(),
            j <= sols.len(),
            forall|q: u16|
                #[trigger] counts@.contains_key(q) <==> (q != 0 && pattern_count(
                    guess@,
                    sols.take(j as int),
                    q as int,
                ) > 0),
            forall|q: u16|
                #[trigger] counts@.contains_key(q) ==> counts@[q] == pattern_count(
                    guess@,
                    sols.take(j as int),
                    q as int,
                ),
        decreases sols.len() - j,
    {
        let p = diff_chars(guess, solutions[j].as_slice());
        assert(sols.take(j + 1).drop_last() =~= sols.take(j as int));
        assert(sols.take(j + 1).last() == solutions@[j as int]@);
        if p != 0 {
            proof {
                lemma_count_bounded(guess@, sols.take(j as int), p as int);
            }
            let c: usize = match counts.get(&p) {
                Some(c) => *c,
                None => 0,
            };
            counts.insert(p, c + 1);
        }
        j += 1;
    }
    assert(sols.take(j as int) =~= sols);
    let groups = counts.len();
    let ghost h = count_of(guess@, sols);
    let ghost ks = vstd::std_specs::hash::spec_keys_iter(&counts).remaining().unref();
    proof {
        let refs = vstd::std_specs::hash::spec_keys_iter(&counts).remaining();
        assert(ks.to_set() == counts@.dom());
        assert(ks.no_duplicates()) by {
            assert forall|a: int, b: int| 0 <= a < ks.len() && 0 <= b < ks.len() && a != b implies ks[a]
                != ks[b] by {
                assert(refs[a] != refs[b]);
            }
        }
        assert forall|i: int| 0 <= i < ks.len() implies 1 <= #[trigger] ks[i] < pattern_values() by {
            assert(ks.to_set().contains(ks[i]));
            lemma_counted_value_below(guess@, sols, ks[i] as int);
        }
        assert forall|q: int| 1 <= q < pattern_values() && !ks.contains(q as u16) implies #[trigger] h(q) == 0 by {
            assert(!ks.to_set().contains(q as u16));
            assert(!counts@.contains_key(q as u16));
        }
        assert forall|q: int| 1 <= q < pattern_values() && !ks.contains(q as u16) implies #[trigger] found_of(guess@, sols)(q) == 0 by {
            assert(h(q) == 0);
        }
        assert forall|i: int| 0 <= i < ks.len() implies found_of(guess@, sols)(#[trigger] ks[i] as int) == 1 by {
            assert(ks.to_set().contains(ks[i]));
            assert(counts@.contains_key(ks[i]));
        }
        lemma_list_is_range(ks, h, pattern_values());
        lemma_list_is_range(ks, found_of(guess@, sols), pattern_values());
        lemma_sum_list_ones(ks, found_of(guess@, sols));
        lemma_ranking_as_ranges(guess@, sols, pattern_values());
        lemma_sum_below_counts(guess@, sols, pattern_values());
        lemma_counted_bounded(guess@, sols, pattern_values());
    }
    assert(sols.len() == solutions@.len());
    let mut sum: usize = 0;
    let mut max: usize = 0;
    for key in it: counts.keys()
        invariant
            sols.len() <= usize::MAX,
            forall|q: u16| #[trigger] counts@.contains_key(q) ==> counts@[q] == h(q as int),
            ks.to_set() == counts@.dom(),
            it.seq().unref() == ks,
            sum_list(ks, h) <= sols.len(),
            sum == sum_list(ks.take(it.index()), h),
            max == max_list(ks.take(it.index()), h),
    {
        let ghost i = it.index();
        assert(ks[i] == *key);
        assert(counts@.contains_key(*key)) by {
            assert(ks.to_set().contains(ks[i]));
        }
        let c: usize = match counts.get(key) {
            Some(c) => *c,
            None => 0,
        };
        proof {
            lemma_sum_list_prefix(ks, h, i + 1);
        }
        assert(ks.take(i + 1).drop_last() =~= ks.take(i));
        assert(ks.take(i + 1).last() == ks[i]);
        assert(c == h(ks[i] as int));
        assert(sum_list(ks.take(i + 1), h) == sum + c);
        sum = sum + c;
        if c > max {
            max = c;
        }
    }
    assert(ks.take(ks.len() as int) =~= ks);
    (groups, sum, max)
}

/// The best `limit` guesses of `words` (all that make at least one group without limit),
/// best first; each guess is ranked by the groups that the patterns it gets against every
/// word of `words` make.
pub fn rank<'a>(words: &[&'a str], limit: Option<usize>) -> (r: Vec<Ranking<'a>>)
    requires
        views(words@).no_duplicates(),
        forall|i: int| 0 <= i < words@.len() ==> (#[trigger] words@[i])@.len() <= 5,
    ensures
        ranking_views(r@) == best(
            limit_view(limit),
            sort_rankings(guess_rankings(views(words@), views(words@))),
        ),
{
    let chars = chars_of_all(words);
    let ghost ws = views(words@);
    let mut rankings = Rankings::new(limit);
    let mut i: usize = 0;
    while i < words.len()
        invariant
            i <= words@.len(),
            ws == views(words@),
            chars.deep_view() == ws,
            forall|k: int| 0 <= k < words@.len() ==> (#[trigger] words@[k])@.len() <= 5,
            rankings@ == RankingsView::empty(limit_view(limit)).pushed_all(
                guess_rankings(ws.take(i as int), ws),
            ),
        decreases words@.len() - i,
    {
        assert(ws.take(i + 1).drop_last() =~= ws.take(i as int));
        assert(ws.take(i + 1).last() == words@[i as int]@);
        assert(chars@[i as int]@ == ws[i as int]);
        let (groups, sum, max) = score(chars[i].as_slice(), &chars);
        if groups > 0 {
            let ghost before = guess_rankings(ws.take(i as int), ws);
            rankings.push(Ranking { word: words[i], groups, sum, max });
            assert(guess_rankings(ws.take(i + 1), ws).drop_last() =~= before);
        }
        i += 1;
    }
    assert(ws.take(i as int) =~= ws);
    proof {
        lemma_keeps_the_best(limit_view(limit), guess_rankings(ws, ws));
    }
    rankings.into_sorted_vec()
}

} // verus!
