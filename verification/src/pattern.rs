use vstd::prelude::*;

use crate::text::{chars_of, chars_of_all, contains_char, push_char, views};

verus! {

/// The mark of a letter that does not occur in the solution.
pub const MISS: u16 = 0b00;
/// The mark of a letter at its right place.
pub const HIT: u16 = 0b01;
/// The mark of a letter that occurs elsewhere in the solution.
pub const CONTAINS: u16 = 0b10;

/// The mark that letter `i` of `guess` gets against `candidate`.
pub open spec fn mark(guess: Seq<char>, candidate: Seq<char>, i: int) -> u16 {
    if i < candidate.len() && candidate[i] == guess[i] {
        HIT
    } else if candidate.contains(guess[i]) {
        CONTAINS
    } else {
        MISS
    }
}

/// The mark at position `i` of the five positions of a pattern; positions past
/// the end of the guess are misses.
pub open spec fn digit(guess: Seq<char>, candidate: Seq<char>, i: int) -> u16 {
    if 0 <= i < guess.len() {
        mark(guess, candidate, i)
    } else {
        MISS
    }
}

/// The value of the pattern of `guess` against `candidate`: five marks of two bits,
/// the first letter in the highest bits.
pub open spec fn encode(guess: Seq<char>, candidate: Seq<char>) -> u16 {
    (digit(guess, candidate, 0) * 256 + digit(guess, candidate, 1) * 64 + digit(guess, candidate, 2)
        * 16 + digit(guess, candidate, 3) * 4 + digit(guess, candidate, 4)) as u16
}

/// The weight of position `i` in a pattern value.
pub open spec fn weight(i: int) -> int {
    if i == 0 {
        256
    } else if i == 1 {
        64
    } else if i == 2 {
        16
    } else if i == 3 {
        4
    } else {
        1
    }
}

/// The sum of the weighted marks of the first `n` positions.
pub open spec fn encode_prefix(guess: Seq<char>, candidate: Seq<char>, n: int) -> int
    decreases n,
{
    if n <= 0 {
        0
    } else {
        encode_prefix(guess, candidate, n - 1) + digit(guess, candidate, n - 1) * weight(n - 1)
    }
}

/// The two bits of `value` at position `index` (0 to 4); a miss past the fifth position.
pub open spec fn spec_at(value: u16, index: int) -> u16 {
    if 0 <= index <= 4 {
        ((value >> ((8 - index * 2) as u16)) & 3u16) as u16
    } else {
        MISS
    }
}

/// The feedback of a guess against a solution: one mark per letter.
#[derive(Clone, Copy, Debug, PartialEq, Eq, Structural, Hash, PartialOrd, Ord)]
pub struct Pattern(u16);

impl View for Pattern {
    type V = u16;

    closed spec fn view(&self) -> u16 {
        self.0
    }
}

impl From<u16> for Pattern {
    /// The pattern whose value is `value`.
    fn from(value: u16) -> (p: Pattern) {
        Pattern(value)
    }
}

impl vstd::std_specs::convert::FromSpecImpl<u16> for Pattern {
    open spec fn obeys_from_spec() -> bool {
        true
    }

    closed spec fn from_spec(value: u16) -> Pattern {
        Pattern(value)
    }
}

/// The pattern made from `value` has the value `value`.
pub proof fn lemma_from_value(value: u16)
    ensures
        <Pattern as vstd::std_specs::convert::FromSpec<u16>>::from_spec(value)@ == value,
{
}

impl Pattern {
    /// The pattern that `guess` gets against `candidate`.
    pub fn new(guess: &str, candidate: &str) -> (p: Pattern)
        requires
            guess@.len() <= 5,
        ensures
            p@ == encode(guess@, candidate@),
    {
        Pattern(diff(guess, candidate))
    }

    /// The value of the pattern.
    pub fn value(self) -> (v: u16)
        ensures
            v == self@,
    {
        self.0
    }

    /// The value of the pattern in decimal.
    pub fn to_string(self) -> (s: String)
        ensures
            s@ == crate::cache::decimal(self@ as nat),
    {
        let digits = crate::cache::decimal_chars(self.0);
        crate::text::string_from_chars(digits.as_slice())
    }

    /// Whether every letter is a miss.
    pub fn is_empty(self) -> (b: bool)
        ensures
            b == (self@ == 0),
    {
        self.0 == 0
    }

    /// The mark at position `index`.
    pub fn at(self, index: usize) -> (m: u16)
        ensures
            m == spec_at(self@, index as int),
    {
        if index <= 4 {
            let shift: u16 = 8 - (index as u16) * 2;
            (self.0 >> shift) & 0b11
        } else {
            MISS
        }
    }
}

/// The square that shows a mark.
pub open spec fn square(value: u16) -> Seq<char> {
    if value == HIT {
        seq!['\u{1F7E9}']
    } else if value == CONTAINS {
        seq!['\u{1F7E8}']
    } else {
        seq!['\u{2B1C}', '\u{FE0F}']
    }
}

/// The squares of the five positions of `value`, separated by spaces.
pub open spec fn emoji_text(value: u16) -> Seq<char> {
    square(spec_at(value, 0)) + seq![' '] + square(spec_at(value, 1)) + seq![' '] + square(
        spec_at(value, 2),
    ) + seq![' '] + square(spec_at(value, 3)) + seq![' '] + square(spec_at(value, 4))
}

/// The terminal colour code that shows a mark.
pub open spec fn color(value: u16) -> Seq<char> {
    if value == HIT {
        seq!['\u{1b}', '[', '4', '2', ';', '3', '0', ';', '1', 'm']
    } else if value == CONTAINS {
        seq!['\u{1b}', '[', '4', '3', ';', '3', '0', ';', '1', 'm']
    } else {
        seq!['\u{1b}', '[', '1', '0', '0', ';', '3', '7', ';', '1', 'm']
    }
}

/// The terminal code that ends a colour.
pub open spec fn color_reset() -> Seq<char> {
    seq!['\u{1b}', '[', '0', 'm']
}

/// Letter `ch` at position `index`, coloured by the mark of that position.
pub open spec fn highlight_cell(value: u16, index: int, ch: char) -> Seq<char> {
    color(spec_at(value, index)) + seq![' ', ch, ' '] + color_reset()
}

/// The letters of `word`, each coloured by the mark at its position.
pub open spec fn highlight_text(value: u16, word: Seq<char>) -> Seq<char>
    decreases word.len(),
{
    if word.len() == 0 {
        Seq::empty()
    } else {
        highlight_text(value, word.drop_last()) + highlight_cell(
            value,
            word.len() - 1,
            word.last(),
        )
    }
}

/// Appends the square that shows `value`.
fn push_square(s: &mut String, value: u16)
    ensures
        final(s)@ == old(s)@ + square(value),
{
    if value == HIT {
        push_char(s, '\u{1F7E9}');
    } else if value == CONTAINS {
        push_char(s, '\u{1F7E8}');
    } else {
        push_char(s, '\u{2B1C}');
        push_char(s, '\u{FE0F}');
    }
}

/// Appends the colour code that shows `value`.
fn push_color(s: &mut String, value: u16)
    ensures
        final(s)@ == old(s)@ + color(value),
{
    let code: &[char] = if value == HIT {
        &['\u{1b}', '[', '4', '2', ';', '3', '0', ';', '1', 'm']
    } else if value == CONTAINS {
        &['\u{1b}', '[', '4', '3', ';', '3', '0', ';', '1', 'm']
    } else {
        &['\u{1b}', '[', '1', '0', '0', ';', '3', '7', ';', '1', 'm']
    };
    assert(code@ == color(value));
    crate::text::push_chars(s, code);
}

impl Pattern {
    /// The pattern as five squares separated by spaces.
    pub fn emoji(self) -> (s: String)
        ensures
            s@ == emoji_text(self@),
    {
        let mut s = String::new();
        let mut index: usize = 0;
        while index < 5
            invariant
                index <= 5,
                s@ == if index == 0 { Seq::empty() } else if index == 1 { square(spec_at(self@, 0)) }
                else if index == 2 { square(spec_at(self@, 0)) + seq![' '] + square(spec_at(self@, 1)) }
                else if index == 3 { square(spec_at(self@, 0)) + seq![' '] + square(spec_at(self@, 1)) + seq![' '] + square(spec_at(self@, 2)) }
                else if index == 4 { square(spec_at(self@, 0)) + seq![' '] + square(spec_at(self@, 1)) + seq![' '] + square(spec_at(self@, 2)) + seq![' '] + square(spec_at(self@, 3)) }
                else { emoji_text(self@) },
            decreases 5 - index,
        {
            if index > 0 {
                push_char(&mut s, ' ');
            }
            push_square(&mut s, self.at(index));
            index += 1;
        }
        s
    }

    /// The letters of `word`, each coloured by the mark at its position.
    pub fn highlight(self, word: &str) -> (s: String)
        ensures
            s@ == highlight_text(self@, word@),
    {
        let w = chars_of(word);
        let mut s = String::new();
        let mut index: usize = 0;
        while index < w.len()
            invariant
                w@ == word@,
                index <= w@.len(),
                s@ == highlight_text(self@, w@.take(index as int)),
            decreases w@.len() - index,
        {
            let ghost before = s@;
            push_color(&mut s, self.at(index));
            push_char(&mut s, ' ');
            push_char(&mut s, w[index]);
            push_char(&mut s, ' ');
            crate::text::push_chars(&mut s, &['\u{1b}', '[', '0', 'm']);
            assert(w@.take(index + 1).drop_last() =~= w@.take(index as int));
            assert(s@ =~= before + highlight_cell(self@, index as int, w@[index as int]));
            index += 1;
        }
        assert(w@.take(index as int) =~= w@);
        s
    }
}

/// The pattern value of `guess` against `candidate`.
fn diff(guess: &str, candidate: &str) -> (r: u16)
    requires
        guess@.len() <= 5,
    ensures
        r == encode(guess@, candidate@),
{
    let g = chars_of(guess);
    let c = chars_of(candidate);
    diff_chars(&g, &c)
}

/// The pattern value of the letters `guess` against the letters `candidate`.
pub(crate) fn diff_chars(g: &[char], c: &[char]) -> (r: u16)
    requires
        g@.len() <= 5,
    ensures
        r == encode(g@, c@),
        r < 1024,
{
    let mut pattern: u16 = 0;
    let mut w: u16 = 256;
    let mut i: usize = 0;
    while i < g.len()
        invariant
            g@.len() <= 5,
            i <= g@.len(),
            pattern as int == encode_prefix(g@, c@, i as int),
            w as int == weight(i as int),
            pattern <= 1023,
            i < 5 ==> pattern as int + 4 * w as int <= 1024,
        decreases g@.len() - i,
    {
        let ch = g[i];
        let value: u16 = if i < c.len() && c[i] == ch {
            HIT
        } else if contains_char(c, ch) {
            CONTAINS
        } else {
            MISS
        };
        assert(value == digit(g@, c@, i as int));
        pattern = pattern + value * w;
        i += 1;
        if w > 1 {
            w = w / 4;
        }
    }
    proof {
        lemma_encode_prefix(g@, c@);
    }
    pattern
}

/// The full prefix of the weighted marks is the pattern value.
proof fn lemma_encode_prefix(guess: Seq<char>, candidate: Seq<char>)
    requires
        guess.len() <= 5,
    ensures
        encode_prefix(guess, candidate, guess.len() as int) == encode(guess, candidate) as int,
{
    reveal_with_fuel(encode_prefix, 6);
    assert(digit(guess, candidate, 0) <= 2);
    assert(digit(guess, candidate, 1) <= 2);
    assert(digit(guess, candidate, 2) <= 2);
    assert(digit(guess, candidate, 3) <= 2);
    assert(digit(guess, candidate, 4) <= 2);
}

/// The guesses of `guesses` that get the pattern value `p` against `solution`, in order.
pub open spec fn guesses_with(solution: Seq<char>, guesses: Seq<Seq<char>>, p: u16) -> Seq<
    Seq<char>,
>
    decreases guesses.len(),
{
    if guesses.len() == 0 {
        Seq::empty()
    } else {
        let prev = guesses_with(solution, guesses.drop_last(), p);
        if encode(guesses.last(), solution) == p {
            prev.push(guesses.last())
        } else {
            prev
        }
    }
}

/// The non-empty pattern values below `n` that some guess gets against `solution`, in
/// increasing order, each with the guesses that get it.
pub open spec fn pattern_table(solution: Seq<char>, guesses: Seq<Seq<char>>, n: int) -> Seq<
    (u16, Seq<Seq<char>>),
>
    decreases n,
{
    if n <= 1 {
        Seq::empty()
    } else {
        let prev = pattern_table(solution, guesses, n - 1);
        let g = guesses_with(solution, guesses, (n - 1) as u16);
        if g.len() > 0 {
            prev.push(((n - 1) as u16, g))
        } else {
            prev
        }
    }
}

/// What the rows of a pattern table say.
pub open spec fn table_views<'a>(rows: Seq<(Pattern, Vec<&'a str>)>) -> Seq<(u16, Seq<Seq<char>>)> {
    rows.map_values(|r: (Pattern, Vec<&'a str>)| (r.0@, views(r.1@)))
}

/// The guesses of `guesses` grouped by the non-empty pattern they get against `solution`,
/// patterns in increasing order, guesses in their order.
pub fn pattern_groups<'a>(solution: &str, guesses: &[&'a str]) -> (rows: Vec<(Pattern, Vec<&'a str>)>)
    requires
        forall|i: int| 0 <= i < guesses@.len() ==> (#[trigger] guesses@[i])@.len() <= 5,
    ensures
        table_views(rows@) == pattern_table(solution@, views(guesses@), 1024),
{
    let s = chars_of(solution);
    let letters = chars_of_all(guesses);
    let ghost gs = views(guesses@);
    let mut values: Vec<u16> = Vec::new();
    let mut i: usize = 0;
    assert(letters.deep_view().len() == letters@.len());
    assert(gs.len() == guesses@.len());
    while i < guesses.len()
        invariant
            i <= guesses@.len(),
            letters@.len() == guesses@.len(),
            gs == views(guesses@),
            letters.deep_view() == gs,
            s@ == solution@,
            forall|k: int| 0 <= k < guesses@.len() ==> (#[trigger] guesses@[k])@.len() <= 5,
            values@.len() == i,
            forall|k: int| 0 <= k < i ==> #[trigger] values@[k] == encode(gs[k], solution@),
        decreases guesses@.len() - i,
    {
        assert(letters.deep_view()[i as int] == gs[i as int]);
        assert(letters@[i as int]@ =~= letters.deep_view()[i as int]);
        let v = diff_chars(letters[i].as_slice(), s.as_slice());
        values.push(v);
        i += 1;
    }
    let mut rows: Vec<(Pattern, Vec<&'a str>)> = Vec::new();
    let mut p: u16 = 1;
    while p < 1024
        invariant
            1 <= p <= 1024,
            gs == views(guesses@),
            values@.len() == guesses@.len(),
            forall|k: int| 0 <= k < guesses@.len() ==> #[trigger] values@[k] == encode(gs[k], solution@),
            table_views(rows@) == pattern_table(solution@, gs, p as int),
        decreases 1024 - p,
    {
        let mut group: Vec<&'a str> = Vec::new();
        let mut k: usize = 0;
        while k < guesses.len()
            invariant
                k <= guesses@.len(),
                gs == views(guesses@),
                values@.len() == guesses@.len(),
                forall|q: int| 0 <= q < guesses@.len() ==> #[trigger] values@[q] == encode(gs[q], solution@),
                views(group@) == guesses_with(solution@, gs.take(k as int), p),
            decreases guesses@.len() - k,
        {
            assert(gs.take(k + 1).drop_last() =~= gs.take(k as int));
            assert(gs.take(k + 1).last() == guesses@[k as int]@);
            let ghost before = views(group@);
            if values[k] == p {
                group.push(guesses[k]);
                assert(views(group@) =~= before.push(guesses@[k as int]@));
            }
            k += 1;
        }
        assert(gs.take(k as int) =~= gs);
        let ghost before = table_views(rows@);
        if group.len() > 0 {
            rows.push((Pattern(p), group));
            assert(table_views(rows@) =~= before.push((p, guesses_with(solution@, gs, p))));
        }
        p += 1;
    }
    rows
}

/// The guesses with pattern value `p` against `solution` are exactly those of `guesses`
/// that, as guesses against the solution, get the value `p`, in their order.
pub proof fn lemma_guesses_with_meaning(solution: Seq<char>, guesses: Seq<Seq<char>>, p: u16)
    ensures
        forall|k: int|
            0 <= k < guesses_with(solution, guesses, p).len() ==> guesses.contains(
                #[trigger] guesses_with(solution, guesses, p)[k],
            ) && encode(guesses_with(solution, guesses, p)[k], solution) == p,
        forall|k: int|
            0 <= k < guesses.len() && encode(#[trigger] guesses[k], solution) == p
                ==> guesses_with(solution, guesses, p).contains(guesses[k]),
        guesses_with(solution, guesses, p) == guesses.filter(
            |x: Seq<char>| encode(x, solution) == p,
        ),
    decreases guesses.len(),
{
    reveal(Seq::filter);
    if guesses.len() > 0 {
        let front = guesses.drop_last();
        lemma_guesses_with_meaning(solution, front, p);
        let g = guesses_with(solution, guesses, p);
        let prev = guesses_with(solution, front, p);
        assert forall|k: int| 0 <= k < g.len() implies guesses.contains(#[trigger] g[k]) && encode(
            g[k],
            solution,
        ) == p by {
            if k < prev.len() {
                assert(g[k] == prev[k]);
                let m = choose|m: int| 0 <= m < front.len() && front[m] == prev[k];
                assert(guesses[m] == front[m]);
            } else {
                assert(g[k] == guesses.last());
                assert(guesses[guesses.len() - 1] == guesses.last());
            }
        }
        assert forall|k: int| 0 <= k < guesses.len() && encode(#[trigger] guesses[k], solution) == p
            implies g.contains(guesses[k]) by {
            if k < front.len() {
                assert(front[k] == guesses[k]);
                let m = choose|m: int| 0 <= m < prev.len() && prev[m] == guesses[k];
                assert(g[m] == prev[m]);
            } else {
                assert(guesses[k] == guesses.last());
                assert(g[g.len() - 1] == guesses.last());
            }
        }
    }
}

/// The rows of a pattern table below `n`: each row has a non-empty pattern value below
/// `n` and a non-empty list of the guesses that get that value against the solution;
/// the values increase from row to row; and every guess whose value is non-empty and
/// below `n` is in the row of its value.
pub proof fn lemma_pattern_table_rows(solution: Seq<char>, guesses: Seq<Seq<char>>, n: int)
    requires
        n <= 1024,
    ensures
        forall|r: int|
            0 <= r < pattern_table(solution, guesses, n).len() ==> 1 <= (
            #[trigger] pattern_table(solution, guesses, n)[r]).0 < n && pattern_table(
                solution,
                guesses,
                n,
            )[r].1.len() > 0,
        forall|r: int, k: int|
            0 <= r < pattern_table(solution, guesses, n).len() && 0 <= k < pattern_table(
                solution,
                guesses,
                n,
            )[r].1.len() ==> guesses.contains(#[trigger] pattern_table(solution, guesses, n)[r].1[k])
                && encode(pattern_table(solution, guesses, n)[r].1[k], solution) == pattern_table(
                solution,
                guesses,
                n,
            )[r].0,
        forall|r1: int, r2: int|
            0 <= r1 < r2 < pattern_table(solution, guesses, n).len() ==> (
            #[trigger] pattern_table(solution, guesses, n)[r1]).0 < (
            #[trigger] pattern_table(solution, guesses, n)[r2]).0,
        forall|k: int|
            0 <= k < guesses.len() && 1 <= encode(#[trigger] guesses[k], solution) < n
                ==> exists|r: int|
                0 <= r < pattern_table(solution, guesses, n).len() && pattern_table(
                    solution,
                    guesses,
                    n,
                )[r].0 == encode(guesses[k], solution) && pattern_table(solution, guesses, n)[r].1.contains(
                    guesses[k],
                ),
    decreases n,
{
    if n > 1 {
        lemma_pattern_table_rows(solution, guesses, n - 1);
        let prev = pattern_table(solution, guesses, n - 1);
        let t = pattern_table(solution, guesses, n);
        let q = (n - 1) as u16;
        let g = guesses_with(solution, guesses, q);
        lemma_guesses_with_meaning(solution, guesses, q);
        if g.len() > 0 {
            assert(t == prev.push((q, g)));
            assert forall|r: int, k: int| 0 <= r < t.len() && 0 <= k < t[r].1.len() implies guesses.contains(
                #[trigger] t[r].1[k],
            ) && encode(t[r].1[k], solution) == t[r].0 by {
                if r < prev.len() {
                    assert(t[r] == prev[r]);
                } else {
                    assert(t[r] == (q, g));
                }
            }
            assert forall|k: int| 0 <= k < guesses.len() && 1 <= encode(#[trigger] guesses[k], solution)
                < n implies exists|r: int|
                0 <= r < t.len() && t[r].0 == encode(guesses[k], solution) && t[r].1.contains(
                    guesses[k],
                ) by {
                if encode(guesses[k], solution) < n - 1 {
                    let r = choose|r: int|
                        0 <= r < prev.len() && prev[r].0 == encode(guesses[k], solution)
                            && prev[r].1.contains(guesses[k]);
                    assert(t[r] == prev[r]);
                } else {
                    assert(t[prev.len() as int] == (q, g));
                }
            }
        } else {
            assert forall|k: int| 0 <= k < guesses.len() && 1 <= encode(#[trigger] guesses[k], solution)
                < n implies exists|r: int|
                0 <= r < t.len() && t[r].0 == encode(guesses[k], solution) && t[r].1.contains(
                    guesses[k],
                ) by {
                if encode(guesses[k], solution) == n - 1 {
                    assert(g.contains(guesses[k]));
                }
            }
        }
    }
}

/// The table of all pattern values (as `pattern_groups` gives it, for guesses of at most
/// five letters) holds every guess whose pattern against the solution is not empty, in
/// the row of that pattern, and holds in each row only guesses that get its pattern.
pub proof fn lemma_pattern_table_complete(solution: Seq<char>, guesses: Seq<Seq<char>>)
    requires
        forall|k: int| 0 <= k < guesses.len() ==> (#[trigger] guesses[k]).len() <= 5,
    ensures
        forall|k: int|
            0 <= k < guesses.len() && encode(#[trigger] guesses[k], solution) != 0 ==> exists|r: int|
                0 <= r < pattern_table(solution, guesses, 1024).len() && pattern_table(
                    solution,
                    guesses,
                    1024,
                )[r].0 == encode(guesses[k], solution) && pattern_table(
                    solution,
                    guesses,
                    1024,
                )[r].1.contains(guesses[k]),
        forall|r: int, k: int|
            0 <= r < pattern_table(solution, guesses, 1024).len() && 0 <= k < pattern_table(
                solution,
                guesses,
                1024,
            )[r].1.len() ==> encode(
                #[trigger] pattern_table(solution, guesses, 1024)[r].1[k],
                solution,
            ) == pattern_table(solution, guesses, 1024)[r].0,
{
    lemma_pattern_table_rows(solution, guesses, 1024);
    assert forall|k: int| 0 <= k < guesses.len() && encode(#[trigger] guesses[k], solution) != 0
        implies 1 <= encode(guesses[k], solution) < 1024 by {
        crate::rank::lemma_encode_below(guesses[k], solution);
    }
}

/// Two-bit fields: shifting the value of five marks back down reads each mark.
proof fn lemma_fields(d0: u16, d1: u16, d2: u16, d3: u16, d4: u16)
    by (bit_vector)
    requires
        d0 <= 3,
        d1 <= 3,
        d2 <= 3,
        d3 <= 3,
        d4 <= 3,
    ensures
        ((((d0 * 256 + d1 * 64 + d2 * 16 + d3 * 4 + d4) as u16) >> 8u16) & 3u16) == d0,
        ((((d0 * 256 + d1 * 64 + d2 * 16 + d3 * 4 + d4) as u16) >> 6u16) & 3u16) == d1,
        ((((d0 * 256 + d1 * 64 + d2 * 16 + d3 * 4 + d4) as u16) >> 4u16) & 3u16) == d2,
        ((((d0 * 256 + d1 * 64 + d2 * 16 + d3 * 4 + d4) as u16) >> 2u16) & 3u16) == d3,
        ((((d0 * 256 + d1 * 64 + d2 * 16 + d3 * 4 + d4) as u16) >> 0u16) & 3u16) == d4,
{
}

/// Reading position `index` of the pattern of `guess` against `candidate` gives the
/// mark of letter `index` of the guess, and a miss at every position past its end.
pub proof fn lemma_at_reads_marks(guess: Seq<char>, candidate: Seq<char>, index: int)
    requires
        guess.len() <= 5,
        0 <= index,
    ensures
        spec_at(encode(guess, candidate), index) == digit(guess, candidate, index),
{
    let d0 = digit(guess, candidate, 0);
    let d1 = digit(guess, candidate, 1);
    let d2 = digit(guess, candidate, 2);
    let d3 = digit(guess, candidate, 3);
    let d4 = digit(guess, candidate, 4);
    lemma_fields(d0, d1, d2, d3, d4);
}

/// What the mark of a letter of the guess says: a hit where the candidate has that letter
/// at the same place; else a contains where the candidate holds the letter anywhere; a
/// miss exactly where the candidate does not hold it at all.
pub proof fn lemma_mark_meaning(guess: Seq<char>, candidate: Seq<char>, i: int)
    requires
        0 <= i < guess.len(),
    ensures
        mark(guess, candidate, i) == HIT <==> (i < candidate.len() && candidate[i] == guess[i]),
        mark(guess, candidate, i) == CONTAINS <==> (!(i < candidate.len() && candidate[i]
            == guess[i]) && exists|j: int| 0 <= j < candidate.len() && candidate[j] == guess[i]),
        mark(guess, candidate, i) == MISS <==> forall|j: int|
            0 <= j < candidate.len() ==> candidate[j] != guess[i],
{
    if i < candidate.len() && candidate[i] == guess[i] {
        assert(candidate.contains(guess[i]));
    }
    if exists|j: int| 0 <= j < candidate.len() && candidate[j] == guess[i] {
        let j = choose|j: int| 0 <= j < candidate.len() && candidate[j] == guess[i];
        assert(candidate.contains(guess[i]));
    }
}

/// Position `i` of the pattern of `guess` against `candidate` (a guess of at most five
/// letters) is a hit where the candidate has the letter there, a miss exactly where the
/// candidate lacks the letter, and a contains otherwise; past the guess it is a miss.
pub proof fn lemma_pattern_positions(guess: Seq<char>, candidate: Seq<char>, i: int)
    requires
        guess.len() <= 5,
        0 <= i,
    ensures
        i < guess.len() ==> (spec_at(encode(guess, candidate), i) == HIT <==> (i < candidate.len()
            && candidate[i] == guess[i])),
        i < guess.len() ==> (spec_at(encode(guess, candidate), i) == MISS <==> forall|j: int|
            0 <= j < candidate.len() ==> candidate[j] != guess[i]),
        i < guess.len() ==> (spec_at(encode(guess, candidate), i) == CONTAINS <==> (!(i
            < candidate.len() && candidate[i] == guess[i]) && exists|j: int|
            0 <= j < candidate.len() && candidate[j] == guess[i])),
        i >= guess.len() ==> spec_at(encode(guess, candidate), i) == MISS,
{
    lemma_at_reads_marks(guess, candidate, i);
    if i < guess.len() {
        lemma_mark_meaning(guess, candidate, i);
    }
}

/// A pattern is empty exactly when every letter of the guess is a miss.
pub proof fn lemma_empty_iff_all_miss(guess: Seq<char>, candidate: Seq<char>)
    requires
        guess.len() <= 5,
    ensures
        (encode(guess, candidate) == 0) <==> (forall|i: int|
            0 <= i < guess.len() ==> #[trigger] mark(guess, candidate, i) == MISS),
{
    if encode(guess, candidate) == 0 {
        assert forall|i: int| 0 <= i < guess.len() implies #[trigger] mark(guess, candidate, i)
            == MISS by {
            assert(digit(guess, candidate, i) == mark(guess, candidate, i));
        }
    }
    if forall|i: int| 0 <= i < guess.len() ==> #[trigger] mark(guess, candidate, i) == MISS {
        assert(mark(guess, candidate, 0) == MISS || guess.len() <= 0);
        assert(mark(guess, candidate, 1) == MISS || guess.len() <= 1);
        assert(mark(guess, candidate, 2) == MISS || guess.len() <= 2);
        assert(mark(guess, candidate, 3) == MISS || guess.len() <= 3);
        assert(mark(guess, candidate, 4) == MISS || guess.len() <= 4);
    }
}

/// A five-letter word against itself hits at every position.
pub proof fn lemma_self_is_all_hits(word: Seq<char>)
    requires
        word.len() == 5,
    ensures
        encode(word, word) == 0b01_01_01_01_01,
{
}

} // verus!
