use vstd::prelude::*;
use vstd::hash_set::StringHashSet;
use vstd::string::StringExecFns;

use crate::text::{chars_of, push_chars, split_exec, split_on, string_from_chars, views};

verus! {

// ----------------------------------------------------------------------------------------
// Letters and words
// ----------------------------------------------------------------------------------------

/// Whether `word` holds `ch` at position `pos`, counted from one.
pub open spec fn letter_at(word: Seq<char>, pos: u8, ch: char) -> bool {
    1 <= pos && pos - 1 < word.len() && word[pos - 1] == ch
}

/// How many times `ch` occurs in `word`.
pub open spec fn count_char(word: Seq<char>, ch: char) -> nat
    decreases word.len(),
{
    if word.len() == 0 {
        0
    } else {
        count_char(word.drop_last(), ch) + if word.last() == ch {
            1nat
        } else {
            0nat
        }
    }
}

/// The ASCII lower case of `c`; any other character is kept.
pub open spec fn ascii_lower(c: char) -> char {
    if 'A' <= c <= 'Z' {
        ((c as u32) + 32) as char
    } else {
        c
    }
}

/// Whether `c` is an ASCII decimal digit.
pub open spec fn is_digit(c: char) -> bool {
    '0' <= c <= '9'
}

/// The number that the decimal digits `s` write.
pub open spec fn digits_value(s: Seq<char>) -> nat
    decreases s.len(),
{
    if s.len() == 0 {
        0
    } else {
        digits_value(s.drop_last()) * 10 + ((s.last() as u32) - ('0' as u32)) as nat
    }
}

/// The digits of an unsigned number: the text without a leading `+` sign, if it has one.
pub open spec fn unsigned_digits(s: Seq<char>) -> Seq<char> {
    if s.len() > 0 && s[0] == '+' {
        s.drop_first()
    } else {
        s
    }
}

/// The `u8` that `s` writes in decimal, with an optional leading `+`; `None` where `s` is
/// empty, holds anything but digits, or writes a number above 255.
pub open spec fn parse_u8(s: Seq<char>) -> Option<u8> {
    let digits = unsigned_digits(s);
    if digits.len() > 0 && (forall|i: int| 0 <= i < digits.len() ==> is_digit(#[trigger] digits[i]))
        && digits_value(digits) <= 255 {
        Some(digits_value(digits) as u8)
    } else {
        None
    }
}

/// The pieces of `s` between commas, in order; a text without comma is one piece.
pub open spec fn split_commas(s: Seq<char>) -> Seq<Seq<char>> {
    split_on(s, ',')
}

// ----------------------------------------------------------------------------------------
// Errors
// ----------------------------------------------------------------------------------------

/// An error in the text of a rule.
#[derive(Debug, PartialEq, Eq)]
pub struct RuleError {
    message: String,
}

impl View for RuleError {
    type V = Seq<char>;

    closed spec fn view(&self) -> Seq<char> {
        self.message@
    }
}

impl RuleError {
    /// The error with the message `message`.
    pub fn new(message: &str) -> (e: RuleError)
        ensures
            e@ == message@,
    {
        RuleError { message: String::from_str(message) }
    }

    fn from_chars(message: &[char]) -> (e: RuleError)
        ensures
            e@ == message@,
    {
        RuleError { message: string_from_chars(message) }
    }

    /// The message of the error.
    pub fn message(&self) -> (m: &str)
        ensures
            m@ == self@,
    {
        self.message.as_str()
    }
}

// ----------------------------------------------------------------------------------------
// Rules
// ----------------------------------------------------------------------------------------

/// A rule that a candidate word must follow.
#[derive(Debug, Clone, Copy, PartialEq, Eq, Structural)]
pub enum Rule {
    /// The word holds the letter, but not at the position (counted from one).
    Contains(char, u8),
    /// The word holds the letter at the position (counted from one).
    Match(char, u8),
    /// The word does not hold the letter.
    Absent(char),
    /// The word holds the letter exactly once.
    Once(char),
}

impl Rule {
    /// A rule with a position names a position from one on.
    pub open spec fn well_formed(self) -> bool {
        match self {
            Rule::Contains(_, pos) => pos >= 1,
            Rule::Match(_, pos) => pos >= 1,
            _ => true,
        }
    }

    /// Whether `word` follows the rule.
    pub open spec fn holds_for(self, word: Seq<char>) -> bool {
        match self {
            Rule::Match(ch, pos) => letter_at(word, pos, ch),
            Rule::Contains(ch, pos) => word.contains(ch) && !letter_at(word, pos, ch),
            Rule::Absent(ch) => !word.contains(ch),
            Rule::Once(ch) => count_char(word, ch) == 1,
        }
    }

    /// Whether `word` follows the rule.
    pub fn matches(&self, word: &str) -> (b: bool)
        requires
            self.well_formed(),
        ensures
            b == self.holds_for(word@),
    {
        let w = chars_of(word);
        match *self {
            Rule::Match(ch, pos) => letter_at_exec(&w, pos, ch),
            Rule::Contains(ch, pos) => crate::text::contains_char(&w, ch) && !letter_at_exec(
                &w,
                pos,
                ch,
            ),
            Rule::Absent(ch) => !crate::text::contains_char(&w, ch),
            Rule::Once(ch) => count_char_exec(&w, ch) == 1,
        }
    }
}

fn letter_at_exec(w: &Vec<char>, pos: u8, ch: char) -> (b: bool)
    requires
        pos >= 1,
    ensures
        b == letter_at(w@, pos, ch),
{
    let index = (pos - 1) as usize;
    index < w.len() && w[index] == ch
}

fn count_char_exec(w: &Vec<char>, ch: char) -> (n: usize)
    ensures
        n == count_char(w@, ch),
{
    let mut n: usize = 0;
    let mut i: usize = 0;
    while i < w.len()
        invariant
            i <= w@.len(),
            n == count_char(w@.take(i as int), ch),
            n <= i,
        decreases w@.len() - i,
    {
        assert(w@.take(i + 1).drop_last() =~= w@.take(i as int));
        if w[i] == ch {
            n += 1;
        }
        i += 1;
    }
    assert(w@.take(i as int) =~= w@);
    n
}

// ----------------------------------------------------------------------------------------
// Positions
// ----------------------------------------------------------------------------------------

/// The message for an entry `value` without letter.
pub open spec fn invalid_entry(value: Seq<char>) -> Seq<char> {
    "Invalid entry '"@ + value + "'"@
}

/// The message for an entry `value` whose number does not parse.
pub open spec fn invalid_number(value: Seq<char>) -> Seq<char> {
    "Invalid number in '"@ + value + "'"@
}

/// The message for an entry `value` whose position is outside the word.
pub open spec fn invalid_position(value: Seq<char>) -> Seq<char> {
    "Invalid position in '"@ + value + "'"@
}

/// A letter and a position from one to five, read from an entry such as `S1`: the letter
/// in lower case; or the message of what is wrong with the entry.
pub open spec fn parse_char_pos(value: Seq<char>) -> Result<(char, u8), Seq<char>> {
    if value.len() == 0 {
        Err(invalid_entry(value))
    } else {
        match parse_u8(value.drop_first()) {
            Option::None => Err(invalid_number(value)),
            Option::Some(pos) => if 1 <= pos <= 5 {
                Ok((ascii_lower(value[0]), pos))
            } else {
                Err(invalid_position(value))
            },
        }
    }
}

/// A letter and the position (one to five) where a rule puts it.
#[derive(Debug, Clone, Copy, PartialEq, Eq, Structural)]
pub struct CharPos {
    pub ch: char,
    pub pos: u8,
}

impl CharPos {
    /// Reads an entry such as `S1`: a letter, taken in lower case, then a position from one
    /// to five.
    pub fn try_from(value: &str) -> (r: Result<CharPos, RuleError>)
        ensures
            match parse_char_pos(value@) {
                Ok((ch, pos)) => r == Ok::<CharPos, RuleError>(CharPos { ch, pos }),
                Err(message) => r is Err && r->Err_0@ == message,
            },
    {
        let v = chars_of(value);
        CharPos::parse_chars(&v)
    }

    fn parse_chars(value: &[char]) -> (r: Result<CharPos, RuleError>)
        ensures
            match parse_char_pos(value@) {
                Ok((ch, pos)) => r == Ok::<CharPos, RuleError>(CharPos { ch, pos }),
                Err(message) => r is Err && r->Err_0@ == message,
            },
    {
        if value.len() == 0 {
            return Err(message_with_value("Invalid entry '", value));
        }
        let ch = lower_exec(value[0]);
        let rest = slice_from(value, 1);
        assert(rest@ == value@.drop_first());
        match parse_u8_exec(&rest) {
            Option::None => Err(message_with_value("Invalid number in '", value)),
            Option::Some(pos) => {
                if 1 <= pos && pos <= 5 {
                    Ok(CharPos { ch, pos })
                } else {
                    Err(message_with_value("Invalid position in '", value))
                }
            },
        }
    }
}

/// The error whose message is `prefix`, then `value`, then a closing quote.
fn message_with_value(prefix: &str, value: &[char]) -> (e: RuleError)
    ensures
        e@ == prefix@ + value@ + "'"@,
{
    let mut m = String::from_str(prefix);
    push_chars(&mut m, value);
    m.append("'");
    RuleError { message: m }
}

/// The elements of `v` from `start` on.
fn slice_from(v: &[char], start: usize) -> (r: Vec<char>)
    requires
        start <= v@.len(),
    ensures
        r@ == v@.subrange(start as int, v@.len() as int),
{
    let mut r: Vec<char> = Vec::new();
    let mut i = start;
    while i < v.len()
        invariant
            start <= i <= v@.len(),
            r@ == v@.subrange(start as int, i as int),
        decreases v@.len() - i,
    {
        r.push(v[i]);
        i += 1;
        assert(r@ =~= v@.subrange(start as int, i as int));
    }
    r
}

fn lower_exec(c: char) -> (r: char)
    ensures
        r == ascii_lower(c),
{
    if 'A' <= c && c <= 'Z' {
        let b: u8 = c as u8;
        (b + 32) as char
    } else {
        c
    }
}

/// The `u8` that `s` writes in decimal, as `str::parse::<u8>` reads it.
fn parse_u8_exec(s: &[char]) -> (r: Option<u8>)
    ensures
        r == parse_u8(s@),
{
    let start: usize = if s.len() > 0 && s[0] == '+' {
        1
    } else {
        0
    };
    let ghost digits = unsigned_digits(s@);
    assert(digits =~= s@.subrange(start as int, s@.len() as int));
    if start == s.len() {
        return Option::None;
    }
    // `acc` holds the value of the digits read so far, capped at 256.
    let mut acc: u32 = 0;
    let mut i = start;
    while i < s.len()
        invariant
            start <= i <= s@.len(),
            start < s@.len(),
            digits =~= s@.subrange(start as int, s@.len() as int),
            digits == unsigned_digits(s@),
            forall|j: int| start <= j < i ==> is_digit(#[trigger] s@[j]),
            acc as int == if digits_value(s@.subrange(start as int, i as int)) < 256 {
                digits_value(s@.subrange(start as int, i as int)) as int
            } else {
                256
            },
        decreases s@.len() - i,
    {
        let c = s[i];
        if !('0' <= c && c <= '9') {
            assert(digits[i - start] == c);
            assert(!is_digit(digits[i - start]));
            assert(!(forall|j: int| 0 <= j < digits.len() ==> is_digit(#[trigger] digits[j])));
            return Option::None;
        }
        let d: u32 = (c as u32) - ('0' as u32);
        let ghost prefix = s@.subrange(start as int, i as int);
        let ghost next = s@.subrange(start as int, i + 1);
        assert(next.drop_last() =~= prefix);
        assert(digits_value(next) == digits_value(prefix) * 10 + d);
        let value = acc * 10 + d;
        acc = if value < 256 {
            value
        } else {
            256
        };
        i += 1;
    }
    assert(s@.subrange(start as int, i as int) =~= digits);
    if acc <= 255 {
        Option::Some(acc as u8)
    } else {
        Option::None
    }
}

// ----------------------------------------------------------------------------------------
// Rule sets
// ----------------------------------------------------------------------------------------

/// Whether `word` follows every rule of `rules`.
pub open spec fn rules_hold(rules: Seq<Rule>, word: Seq<char>) -> bool {
    forall|i: int| 0 <= i < rules.len() ==> (#[trigger] rules[i]).holds_for(word)
}

/// Whether every rule of `rules` is well formed.
pub open spec fn rules_well_formed(rules: Seq<Rule>) -> bool {
    forall|i: int| 0 <= i < rules.len() ==> (#[trigger] rules[i]).well_formed()
}

/// The words of `words` that follow every rule of `rules`, each once, in the order of
/// their first occurrence.
pub open spec fn matching_words(rules: Seq<Rule>, words: Seq<Seq<char>>) -> Seq<Seq<char>>
    decreases words.len(),
{
    if words.len() == 0 {
        Seq::empty()
    } else {
        let prev = matching_words(rules, words.drop_last());
        let w = words.last();
        if rules_hold(rules, w) && !prev.contains(w) {
            prev.push(w)
        } else {
            prev
        }
    }
}

/// A set of rules; a word matches the set when it follows every rule of it.
pub struct RuleSet {
    rules: Vec<Rule>,
}

impl View for RuleSet {
    type V = Seq<Rule>;

    closed spec fn view(&self) -> Seq<Rule> {
        self.rules@
    }
}

impl RuleSet {
    /// The empty rule set.
    pub fn new() -> (r: RuleSet)
        ensures
            r@ == Seq::<Rule>::empty(),
    {
        RuleSet { rules: Vec::new() }
    }

    /// The rule set of `rules`, in order.
    pub fn from_rules(rules: Vec<Rule>) -> (r: RuleSet)
        ensures
            r@ == rules@,
    {
        RuleSet { rules }
    }

    /// A builder that reads rules from text, starting from the empty rule set.
    pub fn builder() -> (b: RuleSetBuilder)
        ensures
            b@ == Ok::<Seq<Rule>, Seq<char>>(Seq::empty()),
    {
        RuleSetBuilder::new()
    }

    /// Adds `rule` at the end of the set.
    pub fn push(&mut self, rule: Rule)
        ensures
            final(self)@ == old(self)@.push(rule),
    {
        self.rules.push(rule);
    }

    /// Adds `rules` at the end of the set, in order.
    pub fn extend(&mut self, rules: Vec<Rule>)
        ensures
            final(self)@ == old(self)@ + rules@,
    {
        let mut rules = rules;
        self.rules.append(&mut rules);
    }

    /// Whether `word` follows every rule of the set.
    pub fn matches(&self, word: &str) -> (b: bool)
        requires
            rules_well_formed(self@),
        ensures
            b == rules_hold(self@, word@),
    {
        let mut i: usize = 0;
        while i < self.rules.len()
            invariant
                rules_well_formed(self@),
                i <= self@.len(),
                forall|j: int| 0 <= j < i ==> (#[trigger] self@[j]).holds_for(word@),
            decreases self@.len() - i,
        {
            if !self.rules[i].matches(word) {
                assert(!self@[i as int].holds_for(word@));
                return false;
            }
            i += 1;
        }
        true
    }

    /// The words of `words` that match the set, each once, in the order of their first
    /// occurrence.
    pub fn filter<'a>(&self, words: &[&'a str]) -> (r: Vec<&'a str>)
        requires
            rules_well_formed(self@),
        ensures
            views(r@) == matching_words(self@, views(words@)),
    {
        let mut seen = StringHashSet::new();
        let mut r: Vec<&'a str> = Vec::new();
        let mut i: usize = 0;
        while i < words.len()
            invariant
                rules_well_formed(self@),
                i <= words@.len(),
                views(r@) == matching_words(self@, views(words@).take(i as int)),
                seen@ == views(r@).to_set(),
            decreases words@.len() - i,
        {
            let word: &'a str = words[i];
            let ghost prev = views(r@);
            assert(views(words@).take(i + 1).drop_last() =~= views(words@).take(i as int));
            assert(views(words@).take(i + 1).last() == word@);
            if self.matches(word) && !seen.contains(word) {
                seen.insert(word.to_owned());
                r.push(word);
                assert(views(r@) =~= prev.push(word@));
                assert(seen@ =~= views(r@).to_set()) by {
                    assert(views(r@).to_set() =~= prev.to_set().insert(word@)) by {
                        assert forall|x| views(r@).to_set().contains(x) <==> prev.to_set().insert(
                            word@,
                        ).contains(x) by {
                            if views(r@).contains(x) && x != word@ {
                                let k = choose|k: int| 0 <= k < views(r@).len() && views(r@)[k] == x;
                                assert(prev[k] == x);
                            }
                            if prev.contains(x) {
                                let k = choose|k: int| 0 <= k < prev.len() && prev[k] == x;
                                assert(views(r@)[k] == x);
                            }
                            if x == word@ {
                                assert(views(r@)[prev.len() as int] == x);
                            }
                        }
                    }
                }
            }
            i += 1;
        }
        assert(views(words@).take(i as int) =~= views(words@));
        r
    }
}

impl Default for RuleSet {
    fn default() -> (r: RuleSet)
        ensures
            r@ == Seq::<Rule>::empty(),
    {
        RuleSet::new()
    }
}

// ----------------------------------------------------------------------------------------
// Reading rules from text
// ----------------------------------------------------------------------------------------

/// The rules that take a letter and a position.
#[derive(Debug, Clone, Copy, PartialEq, Eq, Structural)]
pub enum PositionKind {
    /// The letter is in the word, elsewhere than at the position.
    Contains,
    /// The letter is at the position.
    Match,
}

/// The rules that take a letter alone.
#[derive(Debug, Clone, Copy, PartialEq, Eq, Structural)]
pub enum LetterKind {
    /// The letter is not in the word.
    Absent,
    /// The letter is in the word once.
    Once,
}

/// The rule of kind `kind` on letter `ch` at position `pos`.
pub open spec fn position_rule(kind: PositionKind, ch: char, pos: u8) -> Rule {
    match kind {
        PositionKind::Contains => Rule::Contains(ch, pos),
        PositionKind::Match => Rule::Match(ch, pos),
    }
}

/// The rule of kind `kind` on letter `ch`.
pub open spec fn letter_rule(kind: LetterKind, ch: char) -> Rule {
    match kind {
        LetterKind::Absent => Rule::Absent(ch),
        LetterKind::Once => Rule::Once(ch),
    }
}

/// The rules of kind `kind` that the entries `pieces` give, in order; or the message of
/// the first entry that does not read.
pub open spec fn parse_pieces(pieces: Seq<Seq<char>>, kind: PositionKind) -> Result<
    Seq<Rule>,
    Seq<char>,
>
    decreases pieces.len(),
{
    if pieces.len() == 0 {
        Ok(Seq::empty())
    } else {
        match parse_pieces(pieces.drop_last(), kind) {
            Err(m) => Err(m),
            Ok(rules) => match parse_char_pos(pieces.last()) {
                Err(m) => Err(m),
                Ok((ch, pos)) => Ok(rules.push(position_rule(kind, ch, pos))),
            },
        }
    }
}

/// The message of an error in a rule text whose entry says `message`.
pub open spec fn parsing_error(message: Seq<char>) -> Seq<char> {
    "Error parsing rule: "@ + message
}

/// The builder state after reading the texts `values` of rules of kind `kind`, each a
/// comma-separated list of entries such as `S1`, from the state `state`.
pub open spec fn with_position_rules(
    state: Result<Seq<Rule>, Seq<char>>,
    values: Seq<Seq<char>>,
    kind: PositionKind,
) -> Result<Seq<Rule>, Seq<char>>
    decreases values.len(),
{
    if values.len() == 0 {
        state
    } else {
        match with_position_rules(state, values.drop_last(), kind) {
            Err(m) => Err(m),
            Ok(rules) => match parse_pieces(split_commas(values.last()), kind) {
                Err(m) => Err(parsing_error(m)),
                Ok(more) => Ok(rules + more),
            },
        }
    }
}

/// The rules of kind `kind` on the first letters, in lower case, of the non-empty entries
/// of `pieces`.
pub open spec fn letter_rules(pieces: Seq<Seq<char>>, kind: LetterKind) -> Seq<Rule>
    decreases pieces.len(),
{
    if pieces.len() == 0 {
        Seq::empty()
    } else {
        let prev = letter_rules(pieces.drop_last(), kind);
        if pieces.last().len() > 0 {
            prev.push(letter_rule(kind, ascii_lower(pieces.last()[0])))
        } else {
            prev
        }
    }
}

/// The rules of kind `kind` that the comma-separated texts `values` give, in order.
pub open spec fn all_letter_rules(values: Seq<Seq<char>>, kind: LetterKind) -> Seq<Rule>
    decreases values.len(),
{
    if values.len() == 0 {
        Seq::empty()
    } else {
        all_letter_rules(values.drop_last(), kind) + letter_rules(
            split_commas(values.last()),
            kind,
        )
    }
}

/// The builder state after reading the texts `values` of rules of kind `kind`.
pub open spec fn with_letter_rules(
    state: Result<Seq<Rule>, Seq<char>>,
    values: Seq<Seq<char>>,
    kind: LetterKind,
) -> Result<Seq<Rule>, Seq<char>> {
    match state {
        Err(m) => Err(m),
        Ok(rules) => Ok(rules + all_letter_rules(values, kind)),
    }
}

/// Builds a rule set from the texts of its rules; the first text that does not read makes
/// the build fail.
pub struct RuleSetBuilder {
    result: Result<RuleSet, RuleError>,
}

impl View for RuleSetBuilder {
    type V = Result<Seq<Rule>, Seq<char>>;

    closed spec fn view(&self) -> Result<Seq<Rule>, Seq<char>> {
        match self.result {
            Ok(rules) => Ok(rules@),
            Err(e) => Err(e@),
        }
    }
}

impl RuleSetBuilder {
    /// The rules that a builder holds are well formed.
    #[verifier::type_invariant]
    spec fn holds_well_formed_rules(self) -> bool {
        match self.result {
            Ok(rules) => rules_well_formed(rules@),
            Err(_) => true,
        }
    }

    /// A builder that starts from the empty rule set.
    pub fn new() -> (b: RuleSetBuilder)
        ensures
            b@ == Ok::<Seq<Rule>, Seq<char>>(Seq::empty()),
    {
        RuleSetBuilder { result: Ok(RuleSet::new()) }
    }

    /// Adds the match rules that `values` write, such as `S1,E5`.
    pub fn matches(self, values: &[&str]) -> (b: RuleSetBuilder)
        ensures
            b@ == with_position_rules(self@, views(values@), PositionKind::Match),
    {
        self.position_rules(values, PositionKind::Match)
    }

    /// Adds the contains rules that `values` write, such as `L3`.
    pub fn contains(self, values: &[&str]) -> (b: RuleSetBuilder)
        ensures
            b@ == with_position_rules(self@, views(values@), PositionKind::Contains),
    {
        self.position_rules(values, PositionKind::Contains)
    }

    /// Adds the rules that letters do not occur, as `values` write them, such as `R,N`.
    pub fn none(self, values: &[&str]) -> (b: RuleSetBuilder)
        ensures
            b@ == with_letter_rules(self@, views(values@), LetterKind::Absent),
    {
        self.character_rules(values, LetterKind::Absent)
    }

    /// Adds the rules that letters occur once, as `values` write them, such as `E`.
    pub fn once(self, values: &[&str]) -> (b: RuleSetBuilder)
        ensures
            b@ == with_letter_rules(self@, views(values@), LetterKind::Once),
    {
        self.character_rules(values, LetterKind::Once)
    }

    /// The rule set that was built, or the first error in the texts.
    pub fn build(self) -> (r: Result<RuleSet, RuleError>)
        ensures
            match self@ {
                Ok(rules) => r is Ok && r->Ok_0@ == rules,
                Err(m) => r is Err && r->Err_0@ == m,
            },
            r matches Ok(rules) ==> rules_well_formed(rules@),
    {
        proof {
            use_type_invariant(&self);
        }
        self.result
    }

    fn position_rules(self, values: &[&str], kind: PositionKind) -> (b: RuleSetBuilder)
        ensures
            b@ == with_position_rules(self@, views(values@), kind),
    {
        proof {
            lemma_position_rules_err(self@, views(values@), kind);
            use_type_invariant(&self);
        }
        match self.result {
            Err(e) => RuleSetBuilder { result: Err(e) },
            Ok(rules) => {
                let mut rules = rules;
                let mut i: usize = 0;
                while i < values.len()
                    invariant
                        i <= values@.len(),
                        with_position_rules(self@, views(values@).take(i as int), kind) == Ok::<
                            Seq<Rule>,
                            Seq<char>,
                        >(rules@),
                        rules_well_formed(rules@),
                    decreases values@.len() - i,
                {
                    assert(views(values@).take(i + 1).drop_last() =~= views(values@).take(
                        i as int,
                    ));
                    let chars = chars_of(values[i]);
                    let pieces = split_exec(&chars, ',');
                    match parse_pieces_exec(&pieces, kind) {
                        Err(e) => {
                            let mut m = String::from_str("Error parsing rule: ");
                            m.append(e.message());
                            proof {
                                lemma_position_rules_err(
                                    Err(parsing_error(e@)),
                                    views(values@).subrange(i + 1, values@.len() as int),
                                    kind,
                                );
                                lemma_position_rules_split(
                                    self@,
                                    views(values@),
                                    (i + 1) as int,
                                    kind,
                                );
                            }
                            return RuleSetBuilder { result: Err(RuleError { message: m }) };
                        },
                        Ok(more) => {
                            let ghost before = rules@;
                            rules.extend(more);
                            assert forall|k: int| 0 <= k < rules@.len() implies (
                            #[trigger] rules@[k]).well_formed() by {
                                if k < before.len() {
                                    assert(rules@[k] == before[k]);
                                } else {
                                    assert(rules@[k] == more@[k - before.len()]);
                                }
                            }
                        },
                    }
                    i += 1;
                }
                assert(views(values@).take(i as int) =~= views(values@));
                RuleSetBuilder { result: Ok(rules) }
            },
        }
    }

    fn character_rules(self, values: &[&str], kind: LetterKind) -> (b: RuleSetBuilder)
        ensures
            b@ == with_letter_rules(self@, views(values@), kind),
    {
        proof {
            use_type_invariant(&self);
        }
        match self.result {
            Err(e) => RuleSetBuilder { result: Err(e) },
            Ok(rules) => {
                let mut rules = rules;
                let ghost start = rules@;
                let mut i: usize = 0;
                while i < values.len()
                    invariant
                        i <= values@.len(),
                        rules@ == start + all_letter_rules(views(values@).take(i as int), kind),
                        rules_well_formed(rules@),
                    decreases values@.len() - i,
                {
                    assert(views(values@).take(i + 1).drop_last() =~= views(values@).take(
                        i as int,
                    ));
                    let chars = chars_of(values[i]);
                    let pieces = split_exec(&chars, ',');
                    let more = letter_rules_exec(&pieces, kind);
                    let ghost prev = rules@;
                    rules.extend(more);
                    assert forall|k: int| 0 <= k < rules@.len() implies (
                    #[trigger] rules@[k]).well_formed() by {
                        if k < prev.len() {
                            assert(rules@[k] == prev[k]);
                        } else {
                            assert(rules@[k] == more@[k - prev.len()]);
                        }
                    }
                    assert(rules@ =~= start + all_letter_rules(
                        views(values@).take(i + 1),
                        kind,
                    ));
                    i += 1;
                }
                assert(views(values@).take(i as int) =~= views(values@));
                RuleSetBuilder { result: Ok(rules) }
            },
        }
    }
}

impl Default for RuleSetBuilder {
    fn default() -> (b: RuleSetBuilder)
        ensures
            b@ == Ok::<Seq<Rule>, Seq<char>>(Seq::empty()),
    {
        RuleSetBuilder::new()
    }
}

/// Reading more texts keeps a failed state as it is.
pub proof fn lemma_position_rules_err(
    state: Result<Seq<Rule>, Seq<char>>,
    values: Seq<Seq<char>>,
    kind: PositionKind,
)
    ensures
        state is Err ==> with_position_rules(state, values, kind) == state,
    decreases values.len(),
{
    if values.len() > 0 {
        lemma_position_rules_err(state, values.drop_last(), kind);
    }
}

/// Reading the texts `values` is reading its first `n`, then the rest.
proof fn lemma_position_rules_split(
    state: Result<Seq<Rule>, Seq<char>>,
    values: Seq<Seq<char>>,
    n: int,
    kind: PositionKind,
)
    requires
        0 <= n <= values.len(),
    ensures
        with_position_rules(state, values, kind) == with_position_rules(
            with_position_rules(state, values.take(n), kind),
            values.subrange(n, values.len() as int),
            kind,
        ),
    decreases values.len(),
{
    if values.len() == n {
        assert(values.take(n) =~= values);
        assert(values.subrange(n, values.len() as int) =~= Seq::<Seq<char>>::empty());
    } else {
        lemma_position_rules_split(state, values.drop_last(), n, kind);
        assert(values.drop_last().take(n) =~= values.take(n));
        assert(values.subrange(n, values.len() as int).drop_last() =~= values.drop_last().subrange(
            n,
            values.len() - 1,
        ));
    }
}

/// The rules that the entries `pieces` give, or the error of the first entry that does not
/// read.
fn parse_pieces_exec(pieces: &Vec<Vec<char>>, kind: PositionKind) -> (r: Result<Vec<Rule>, RuleError>)
    ensures
        match parse_pieces(pieces.deep_view(), kind) {
            Ok(rules) => r is Ok && r->Ok_0@ == rules,
            Err(m) => r is Err && r->Err_0@ == m,
        },
        r matches Ok(rules) ==> rules_well_formed(rules@),
{
    let mut rules: Vec<Rule> = Vec::new();
    let mut j: usize = 0;
    while j < pieces.len()
        invariant
            j <= pieces@.len(),
            parse_pieces(pieces.deep_view().take(j as int), kind) == Ok::<Seq<Rule>, Seq<char>>(
                rules@,
            ),
            rules_well_formed(rules@),
        decreases pieces@.len() - j,
    {
        assert(pieces.deep_view().take(j + 1).drop_last() =~= pieces.deep_view().take(j as int));
        assert(pieces.deep_view().take(j + 1).last() == pieces@[j as int]@);
        match CharPos::parse_chars(pieces[j].as_slice()) {
            Err(e) => {
                proof {
                    lemma_parse_pieces_err(pieces.deep_view(), (j + 1) as int, kind);
                }
                return Err(e);
            },
            Ok(cp) => {
                let rule = match kind {
                    PositionKind::Contains => Rule::Contains(cp.ch, cp.pos),
                    PositionKind::Match => Rule::Match(cp.ch, cp.pos),
                };
                rules.push(rule);
            },
        }
        j += 1;
    }
    assert(pieces.deep_view().take(j as int) =~= pieces.deep_view());
    Ok(rules)
}

/// Once a prefix of the entries fails, every longer prefix fails with the same message.
proof fn lemma_parse_pieces_err(pieces: Seq<Seq<char>>, n: int, kind: PositionKind)
    requires
        0 <= n <= pieces.len(),
        parse_pieces(pieces.take(n), kind) is Err,
    ensures
        parse_pieces(pieces, kind) == parse_pieces(pieces.take(n), kind),
    decreases pieces.len(),
{
    if pieces.len() == n {
        assert(pieces.take(n) =~= pieces);
    } else {
        assert(pieces.drop_last().take(n) =~= pieces.take(n));
        lemma_parse_pieces_err(pieces.drop_last(), n, kind);
    }
}

/// The letter rules of kind `kind` on the non-empty entries of `pieces`.
fn letter_rules_exec(pieces: &Vec<Vec<char>>, kind: LetterKind) -> (r: Vec<Rule>)
    ensures
        r@ == letter_rules(pieces.deep_view(), kind),
        rules_well_formed(r@),
{
    let mut rules: Vec<Rule> = Vec::new();
    let mut j: usize = 0;
    while j < pieces.len()
        invariant
            j <= pieces@.len(),
            rules@ == letter_rules(pieces.deep_view().take(j as int), kind),
            rules_well_formed(rules@),
        decreases pieces@.len() - j,
    {
        assert(pieces.deep_view().take(j + 1).drop_last() =~= pieces.deep_view().take(j as int));
        assert(pieces.deep_view().take(j + 1).last() == pieces@[j as int]@);
        if pieces[j].len() > 0 {
            let ch = lower_exec(pieces[j][0]);
            let rule = match kind {
                LetterKind::Absent => Rule::Absent(ch),
                LetterKind::Once => Rule::Once(ch),
            };
            rules.push(rule);
        }
        j += 1;
    }
    assert(pieces.deep_view().take(j as int) =~= pieces.deep_view());
    rules
}

// ----------------------------------------------------------------------------------------
// Laws of rules
// ----------------------------------------------------------------------------------------

/// Whether `ch` occurs in `word` at exactly one place.
pub open spec fn occurs_once(word: Seq<char>, ch: char) -> bool {
    exists|i: int|
        0 <= i < word.len() && word[i] == ch && forall|j: int|
            0 <= j < word.len() && #[trigger] word[j] == ch ==> j == i
}

/// `ch` occurs nowhere in `word` exactly when it is counted no times.
proof fn lemma_count_zero(word: Seq<char>, ch: char)
    ensures
        count_char(word, ch) == 0 <==> forall|j: int| 0 <= j < word.len() ==> word[j] != ch,
    decreases word.len(),
{
    if word.len() > 0 {
        let front = word.drop_last();
        lemma_count_zero(front, ch);
        assert(word[word.len() - 1] == word.last());
        if forall|j: int| 0 <= j < front.len() ==> front[j] != ch {
            if word.last() != ch {
                assert forall|j: int| 0 <= j < word.len() implies word[j] != ch by {
                    if j < front.len() {
                        assert(front[j] == word[j]);
                    }
                }
            }
        } else {
            let j = choose|j: int| 0 <= j < front.len() && front[j] == ch;
            assert(word[j] == front[j]);
        }
    }
}

/// Where `word` ends with `ch`, `ch` occurs once exactly when the rest lacks it.
proof fn lemma_once_at_end(word: Seq<char>, ch: char)
    requires
        word.len() > 0,
        word.last() == ch,
    ensures
        occurs_once(word, ch) <==> forall|j: int|
            0 <= j < word.drop_last().len() ==> word.drop_last()[j] != ch,
{
    let front = word.drop_last();
    let n = word.len() - 1;
    assert(word[n] == ch);
    if forall|j: int| 0 <= j < front.len() ==> front[j] != ch {
        assert forall|j: int| 0 <= j < word.len() && #[trigger] word[j] == ch implies j == n by {
            if j < n {
                assert(front[j] == word[j]);
            }
        }
    }
    if occurs_once(word, ch) {
        let i = choose|i: int|
            0 <= i < word.len() && word[i] == ch && forall|j: int|
                0 <= j < word.len() && #[trigger] word[j] == ch ==> j == i;
        assert(i == n);
        assert forall|j: int| 0 <= j < front.len() implies front[j] != ch by {
            assert(front[j] == word[j]);
        }
    }
}

/// Where `word` does not end with `ch`, `ch` occurs once in it exactly when it occurs once
/// in the rest.
proof fn lemma_once_not_at_end(word: Seq<char>, ch: char)
    requires
        word.len() > 0,
        word.last() != ch,
    ensures
        occurs_once(word, ch) <==> occurs_once(word.drop_last(), ch),
{
    let front = word.drop_last();
    let n = word.len() - 1;
    assert(word[n] != ch);
    if occurs_once(front, ch) {
        let i = choose|i: int|
            0 <= i < front.len() && front[i] == ch && forall|j: int|
                0 <= j < front.len() && #[trigger] front[j] == ch ==> j == i;
        assert(word[i] == front[i]);
        assert forall|j: int| 0 <= j < word.len() && #[trigger] word[j] == ch implies j == i by {
            if j < n {
                assert(front[j] == word[j]);
            }
        }
    }
    if occurs_once(word, ch) {
        let i = choose|i: int|
            0 <= i < word.len() && word[i] == ch && forall|j: int|
                0 <= j < word.len() && #[trigger] word[j] == ch ==> j == i;
        assert(front[i] == word[i]);
        assert forall|j: int| 0 <= j < front.len() && #[trigger] front[j] == ch implies j == i by {
            assert(word[j] == front[j]);
        }
    }
}

/// `ch` is counted once in `word` exactly when it occurs at exactly one place.
pub proof fn lemma_count_once(word: Seq<char>, ch: char)
    ensures
        count_char(word, ch) == 1 <==> occurs_once(word, ch),
    decreases word.len(),
{
    if word.len() > 0 {
        let front = word.drop_last();
        lemma_count_once(front, ch);
        lemma_count_zero(front, ch);
        if word.last() == ch {
            lemma_once_at_end(word, ch);
        } else {
            lemma_once_not_at_end(word, ch);
        }
    } else {
        assert(!occurs_once(word, ch));
    }
}

/// What each rule asks of a word: a match rule, the letter at its position (counted from
/// one); a contains rule, the letter somewhere but not at its position; an absent rule,
/// the letter nowhere; a once rule, the letter at exactly one place, so never a word
/// without it.
pub proof fn lemma_rule_meaning(rule: Rule, word: Seq<char>)
    requires
        rule.well_formed(),
    ensures
        rule matches Rule::Match(ch, pos) ==> (rule.holds_for(word) <==> (pos - 1 < word.len()
            && word[pos - 1] == ch)),
        rule matches Rule::Contains(ch, pos) ==> (rule.holds_for(word) <==> ((exists|j: int|
            0 <= j < word.len() && word[j] == ch) && !(pos - 1 < word.len() && word[pos - 1]
            == ch))),
        rule matches Rule::Absent(ch) ==> (rule.holds_for(word) <==> forall|j: int|
            0 <= j < word.len() ==> word[j] != ch),
        rule matches Rule::Once(ch) ==> (rule.holds_for(word) <==> occurs_once(word, ch)),
        rule matches Rule::Once(ch) ==> ((forall|j: int| 0 <= j < word.len() ==> word[j] != ch)
            ==> !rule.holds_for(word)),
{
    match rule {
        Rule::Once(ch) => {
            lemma_count_once(word, ch);
            lemma_count_zero(word, ch);
        },
        Rule::Contains(ch, pos) => {
            if exists|j: int| 0 <= j < word.len() && word[j] == ch {
                let j = choose|j: int| 0 <= j < word.len() && word[j] == ch;
                assert(word.contains(ch));
            }
        },
        Rule::Absent(ch) => {
            if word.contains(ch) {
                let j = choose|j: int| 0 <= j < word.len() && word[j] == ch;
            }
        },
        _ => {},
    }
}

/// The rules of kind `kind` that the entries `pieces` give are, in order, one for each
/// non-empty entry, on its first letter in lower case.
pub proof fn lemma_letter_rules_of_entries(pieces: Seq<Seq<char>>, kind: LetterKind)
    ensures
        letter_rules(pieces, kind) == pieces.filter(|p: Seq<char>| p.len() > 0).map_values(
            |p: Seq<char>| letter_rule(kind, ascii_lower(p[0])),
        ),
    decreases pieces.len(),
{
    reveal(Seq::filter);
    if pieces.len() > 0 {
        lemma_letter_rules_of_entries(pieces.drop_last(), kind);
        let f = |p: Seq<char>| p.len() > 0;
        let g = |p: Seq<char>| letter_rule(kind, ascii_lower(p[0]));
        let front = pieces.drop_last().filter(f);
        if pieces.last().len() > 0 {
            assert(pieces.filter(f) == front.push(pieces.last()));
            assert(front.push(pieces.last()).map_values(g) =~= front.map_values(g).push(
                g(pieces.last()),
            ));
        } else {
            assert(pieces.filter(f) == front);
        }
    }
}

/// The rules that the comma-separated texts `values` give: each non-empty entry between
/// commas of each text gives the rule of kind `kind` on its first letter in lower case,
/// and every rule given comes from such an entry.
pub proof fn lemma_all_letter_rules_of_entries(values: Seq<Seq<char>>, kind: LetterKind)
    ensures
        forall|i: int, j: int|
            0 <= i < values.len() && 0 <= j < split_commas(values[i]).len() && (
            #[trigger] split_commas(values[i])[j]).len() > 0 ==> all_letter_rules(
                values,
                kind,
            ).contains(letter_rule(kind, ascii_lower(split_commas(values[i])[j][0]))),
        forall|k: int|
            0 <= k < all_letter_rules(values, kind).len() ==> exists|i: int, j: int|
                0 <= i < values.len() && 0 <= j < split_commas(values[i]).len() && (
                #[trigger] split_commas(values[i])[j]).len() > 0 && #[trigger] all_letter_rules(
                    values,
                    kind,
                )[k] == letter_rule(kind, ascii_lower(split_commas(values[i])[j][0])),
    decreases values.len(),
{
    if values.len() > 0 {
        let front = values.drop_last();
        let n = values.len() - 1;
        lemma_all_letter_rules_of_entries(front, kind);
        let prev = all_letter_rules(front, kind);
        let pieces = split_commas(values[n]);
        assert(values.last() == values[n]);
        let lr = letter_rules(pieces, kind);
        let all = all_letter_rules(values, kind);
        assert(all == prev + lr);
        lemma_letter_rules_of_entries(pieces, kind);
        let f = |p: Seq<char>| p.len() > 0;
        let g = |p: Seq<char>| letter_rule(kind, ascii_lower(p[0]));
        let fl = pieces.filter(f);
        assert(lr == fl.map_values(g));
        assert forall|i: int, j: int|
            0 <= i < values.len() && 0 <= j < split_commas(values[i]).len() && (
            #[trigger] split_commas(values[i])[j]).len() > 0 implies all.contains(
            letter_rule(kind, ascii_lower(split_commas(values[i])[j][0])),
        ) by {
            let r = letter_rule(kind, ascii_lower(split_commas(values[i])[j][0]));
            if i < n {
                assert(front[i] == values[i]);
                assert(split_commas(front[i])[j].len() > 0);
                assert(prev.contains(r));
                let m = choose|m: int| 0 <= m < prev.len() && prev[m] == r;
                assert(all[m] == prev[m]);
            } else {
                pieces.lemma_filter_contains(f, j);
                let m = choose|m: int| 0 <= m < fl.len() && fl[m] == pieces[j];
                assert(lr[m] == g(fl[m]));
                assert(all[prev.len() + m] == lr[m]);
            }
        }
        assert forall|k: int| 0 <= k < all.len() implies exists|i: int, j: int|
            0 <= i < values.len() && 0 <= j < split_commas(values[i]).len() && (
            #[trigger] split_commas(values[i])[j]).len() > 0 && #[trigger] all[k] == letter_rule(
                kind,
                ascii_lower(split_commas(values[i])[j][0]),
            ) by {
            if k < prev.len() {
                assert(all[k] == prev[k]);
                let (i, j) = choose|i: int, j: int|
                    0 <= i < front.len() && 0 <= j < split_commas(front[i]).len() && (
                    #[trigger] split_commas(front[i])[j]).len() > 0 && prev[k] == letter_rule(
                        kind,
                        ascii_lower(split_commas(front[i])[j][0]),
                    );
                assert(front[i] == values[i]);
                assert(split_commas(values[i])[j].len() > 0);
            } else {
                let m = k - prev.len();
                assert(all[k] == lr[m]);
                assert(lr[m] == g(fl[m]));
                assert(fl.contains(fl[m]));
                pieces.lemma_filter_contains_rev(f, fl[m]);
                let j = choose|j: int| 0 <= j < pieces.len() && pieces[j] == fl[m];
                pieces.lemma_filter_pred(f, m);
                assert(split_commas(values[n])[j].len() > 0);
            }
        }
    }
}

/// The rules that the comma-separated texts `values` give are, in order of the texts and
/// of their entries, one for each non-empty entry, on its first letter in lower case.
pub proof fn lemma_all_letter_rules_in_order(values: Seq<Seq<char>>, kind: LetterKind)
    ensures
        all_letter_rules(values, kind) == values.map_values(
            |v: Seq<char>|
                split_commas(v).filter(|p: Seq<char>| p.len() > 0).map_values(
                    |p: Seq<char>| letter_rule(kind, ascii_lower(p[0])),
                ),
        ).flatten(),
    decreases values.len(),
{
    let f = |v: Seq<char>|
        split_commas(v).filter(|p: Seq<char>| p.len() > 0).map_values(
            |p: Seq<char>| letter_rule(kind, ascii_lower(p[0])),
        );
    if values.len() == 0 {
        assert(values.map_values(f) =~= Seq::<Seq<Rule>>::empty());
    } else {
        let front = values.drop_last();
        lemma_all_letter_rules_in_order(front, kind);
        lemma_letter_rules_of_entries(split_commas(values.last()), kind);
        assert(values.map_values(f) =~= front.map_values(f).push(f(values.last())));
        front.map_values(f).lemma_flatten_push(f(values.last()));
    }
}

/// The rule of kind `kind` that an entry which reads gives: on its letter at its position.
pub open spec fn entry_rule(piece: Seq<char>, kind: PositionKind) -> Rule {
    position_rule(kind, parse_char_pos(piece)->Ok_0.0, parse_char_pos(piece)->Ok_0.1)
}

/// The entries `pieces` give rules exactly when every entry reads, and then one rule for
/// each entry, in order, on its letter at its position.
pub proof fn lemma_parse_pieces_meaning(pieces: Seq<Seq<char>>, kind: PositionKind)
    ensures
        parse_pieces(pieces, kind) is Ok <==> forall|j: int|
            0 <= j < pieces.len() ==> parse_char_pos(#[trigger] pieces[j]) is Ok,
        parse_pieces(pieces, kind) matches Ok(rules) ==> rules == pieces.map_values(
            |p: Seq<char>| entry_rule(p, kind),
        ),
    decreases pieces.len(),
{
    if pieces.len() > 0 {
        let front = pieces.drop_last();
        lemma_parse_pieces_meaning(front, kind);
        let n = pieces.len() - 1;
        assert(pieces[n] == pieces.last());
        if forall|j: int| 0 <= j < pieces.len() ==> parse_char_pos(#[trigger] pieces[j]) is Ok {
            assert forall|j: int| 0 <= j < front.len() implies parse_char_pos(#[trigger] front[j]) is Ok by {
                assert(front[j] == pieces[j]);
            }
            assert(parse_char_pos(pieces[n]) is Ok);
            assert(pieces.map_values(|p: Seq<char>| entry_rule(p, kind)) =~= front.map_values(
                |p: Seq<char>| entry_rule(p, kind),
            ).push(entry_rule(pieces.last(), kind)));
        } else {
            let j = choose|j: int| 0 <= j < pieces.len() && !(parse_char_pos(#[trigger] pieces[j]) is Ok);
            if j < n {
                assert(front[j] == pieces[j]);
            }
        }
    }
}

/// Reading the texts `values` of position rules from a builder that holds `start`
/// succeeds exactly when every entry between commas of every text reads; then the
/// builder holds `start` followed by the rule of each entry, in order of the texts and of
/// the entries.
pub proof fn lemma_position_rules_of_entries(
    start: Seq<Rule>,
    values: Seq<Seq<char>>,
    kind: PositionKind,
)
    ensures
        with_position_rules(Ok(start), values, kind) is Ok <==> forall|i: int, j: int|
            0 <= i < values.len() && 0 <= j < split_commas(values[i]).len() ==> parse_char_pos(
                #[trigger] split_commas(values[i])[j],
            ) is Ok,
        with_position_rules(Ok(start), values, kind) matches Ok(rules) ==> rules == start
            + values.map_values(
            |v: Seq<char>| split_commas(v).map_values(|p: Seq<char>| entry_rule(p, kind)),
        ).flatten(),
    decreases values.len(),
{
    let f = |v: Seq<char>| split_commas(v).map_values(|p: Seq<char>| entry_rule(p, kind));
    if values.len() == 0 {
        assert(values.map_values(f) =~= Seq::<Seq<Rule>>::empty());
        assert(start + Seq::<Seq<Rule>>::empty().flatten() =~= start);
    } else {
        let front = values.drop_last();
        let n = values.len() - 1;
        lemma_position_rules_of_entries(start, front, kind);
        let last = values.last();
        assert(values[n] == last);
        lemma_parse_pieces_meaning(split_commas(last), kind);
        let all_read = forall|i: int, j: int|
            0 <= i < values.len() && 0 <= j < split_commas(values[i]).len() ==> parse_char_pos(
                #[trigger] split_commas(values[i])[j],
            ) is Ok;
        let front_read = forall|i: int, j: int|
            0 <= i < front.len() && 0 <= j < split_commas(front[i]).len() ==> parse_char_pos(
                #[trigger] split_commas(front[i])[j],
            ) is Ok;
        if all_read {
            assert(front_read) by {
                assert forall|i: int, j: int|
                    0 <= i < front.len() && 0 <= j < split_commas(front[i]).len() implies parse_char_pos(
                    #[trigger] split_commas(front[i])[j],
                ) is Ok by {
                    assert(front[i] == values[i]);
                }
            }
            assert forall|j: int| 0 <= j < split_commas(last).len() implies parse_char_pos(
                #[trigger] split_commas(last)[j],
            ) is Ok by {
                assert(parse_char_pos(split_commas(values[n])[j]) is Ok);
            }
            assert(values.map_values(f) =~= front.map_values(f).push(f(last)));
            front.map_values(f).lemma_flatten_push(f(last));
        } else {
            let (i, j) = choose|i: int, j: int|
                0 <= i < values.len() && 0 <= j < split_commas(values[i]).len() && !(parse_char_pos(
                    #[trigger] split_commas(values[i])[j],
                ) is Ok);
            if i < n {
                assert(front[i] == values[i]);
                assert(!front_read);
            } else {
                assert(!(parse_char_pos(split_commas(last)[j]) is Ok));
            }
        }
    }
}

/// The empty rule set matches every word.
pub proof fn lemma_empty_rules_match(word: Seq<char>)
    ensures
        rules_hold(Seq::empty(), word),
{
}

/// A word matches a rule set with one more rule exactly when it matches the set and
/// follows the rule.
pub proof fn lemma_push_rule(rules: Seq<Rule>, rule: Rule, word: Seq<char>)
    ensures
        rules_hold(rules.push(rule), word) == (rules_hold(rules, word) && rule.holds_for(word)),
{
    if rules_hold(rules, word) && rule.holds_for(word) {
        assert forall|i: int| 0 <= i < rules.push(rule).len() implies (#[trigger] rules.push(
            rule,
        )[i]).holds_for(word) by {
            if i < rules.len() {
                assert(rules.push(rule)[i] == rules[i]);
            }
        }
    }
    if rules_hold(rules.push(rule), word) {
        assert forall|i: int| 0 <= i < rules.len() implies (#[trigger] rules[i]).holds_for(word) by {
            assert(rules.push(rule)[i] == rules[i]);
        }
        assert(rules.push(rule)[rules.len() as int] == rule);
    }
}

/// Filtering gives each word that matches, and only those, exactly once.
pub proof fn lemma_matching_words(rules: Seq<Rule>, words: Seq<Seq<char>>)
    ensures
        forall|w: Seq<char>|
            #[trigger] matching_words(rules, words).contains(w) <==> (words.contains(w)
                && rules_hold(rules, w)),
        forall|i: int, j: int|
            0 <= i < j < matching_words(rules, words).len() ==> #[trigger] matching_words(
                rules,
                words,
            )[i] != #[trigger] matching_words(rules, words)[j],
    decreases words.len(),
{
    if words.len() > 0 {
        let prev = matching_words(rules, words.drop_last());
        lemma_matching_words(rules, words.drop_last());
        let cur = matching_words(rules, words);
        assert forall|w: Seq<char>| #[trigger] cur.contains(w) <==> (words.contains(w) && rules_hold(rules, w)) by {
            if cur.contains(w) {
                let k = choose|k: int| 0 <= k < cur.len() && cur[k] == w;
                if k < prev.len() {
                    assert(prev[k] == w);
                    assert(prev.contains(w));
                    let m = choose|m: int| 0 <= m < words.drop_last().len() && words.drop_last()[m] == w;
                    assert(words[m] == w);
                } else {
                    assert(words[words.len() - 1] == w);
                }
            }
            if words.contains(w) && rules_hold(rules, w) {
                let m = choose|m: int| 0 <= m < words.len() && words[m] == w;
                if m < words.len() - 1 {
                    assert(words.drop_last()[m] == w);
                    assert(prev.contains(w));
                    let k = choose|k: int| 0 <= k < prev.len() && prev[k] == w;
                    assert(cur[k] == w);
                } else if prev.contains(w) {
                    let k = choose|k: int| 0 <= k < prev.len() && prev[k] == w;
                    assert(cur[k] == w);
                } else {
                    assert(cur[prev.len() as int] == w);
                }
            }
        }
    }
}

/// An entry that reads gives a position from one to five and a letter that is not an
/// ASCII capital.
pub proof fn lemma_char_pos_bounds(value: Seq<char>)
    ensures
        parse_char_pos(value) matches Ok((ch, pos)) ==> 1 <= pos <= 5 && !('A' <= ch <= 'Z'),
{
}

/// Once a text of rules fails to read, the builder keeps that first failure, whatever
/// texts it reads next.
pub proof fn lemma_first_error_wins(
    state: Result<Seq<Rule>, Seq<char>>,
    positions: Seq<Seq<char>>,
    kind: PositionKind,
    letters: Seq<Seq<char>>,
    letter_kind: LetterKind,
)
    requires
        state is Err,
    ensures
        with_position_rules(state, positions, kind) == state,
        with_letter_rules(state, letters, letter_kind) == state,
{
    lemma_position_rules_err(state, positions, kind);
}

} // verus!
