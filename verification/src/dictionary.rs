use vstd::prelude::*;

use crate::text::{chars_of, split_exec, split_on, string_from_chars, push_chars};
use vstd::string::StringExecFns;

verus! {

/// `line` without a carriage return at its end.
pub open spec fn strip_cr(line: Seq<char>) -> Seq<char> {
    if line.len() > 0 && line.last() == '\r' {
        line.drop_last()
    } else {
        line
    }
}

/// The lines of `pieces`, the texts between line feeds: each line that a line feed ends
/// loses a carriage return before it.
pub open spec fn ended_lines(pieces: Seq<Seq<char>>) -> Seq<Seq<char>>
    decreases pieces.len(),
{
    if pieces.len() == 0 {
        Seq::empty()
    } else {
        ended_lines(pieces.drop_last()).push(strip_cr(pieces.last()))
    }
}

/// The lines of `text`, as `str::lines` gives them: split at line feeds, each line feed
/// with the carriage return before it, if any; a line feed at the end ends the last line.
pub open spec fn lines(text: Seq<char>) -> Seq<Seq<char>> {
    let pieces = split_on(text, '\n');
    if pieces.last().len() == 0 {
        ended_lines(pieces.drop_last())
    } else {
        ended_lines(pieces.drop_last()).push(pieces.last())
    }
}

/// The message for a dictionary line that is not a word of five letters.
pub open spec fn bad_word(line: Seq<char>) -> Seq<char> {
    "Dictionary word must have five characters: "@ + line
}

/// The words of the dictionary lines `ls`, or the message of the first line that does not
/// hold five characters.
pub open spec fn words_of_lines(ls: Seq<Seq<char>>) -> Result<Seq<Seq<char>>, Seq<char>>
    decreases ls.len(),
{
    if ls.len() == 0 {
        Ok(Seq::empty())
    } else {
        match words_of_lines(ls.drop_last()) {
            Err(m) => Err(m),
            Ok(words) => if ls.last().len() == 5 {
                Ok(words.push(ls.last()))
            } else {
                Err(bad_word(ls.last()))
            },
        }
    }
}

/// The text that `str::to_lowercase` gives for `s`.
pub uninterp spec fn lowercase_text(s: Seq<char>) -> Seq<char>;

/// `str::to_lowercase`: every letter of `s` in lower case, as Unicode defines it. The
/// contract names the result and says nothing more of it.
#[verifier::external_body]
fn to_lowercase(s: &str) -> (r: String)
    ensures
        r@ == lowercase_text(s@),
{
    s.to_lowercase()
}

/// The texts of `strings`.
pub open spec fn texts(strings: Seq<String>) -> Seq<Seq<char>> {
    strings.map_values(|s: String| s@)
}

/// The words of a dictionary, one per line; every line must hold five characters.
pub fn parse_dictionary(text: &str) -> (r: Result<Vec<String>, String>)
    ensures
        match words_of_lines(lines(text@)) {
            Ok(words) => r is Ok && texts(r->Ok_0@) == words,
            Err(m) => r is Err && r->Err_0@ == m,
        },
{
    let t = chars_of(text);
    let pieces = split_exec(t.as_slice(), '\n');
    let ghost all = pieces.deep_view();
    proof {
        crate::text::lemma_split_nonempty(text@, '\n');
    }
    let n = pieces.len();
    let last_empty = pieces[n - 1].len() == 0;
    let count = if last_empty { n - 1 } else { n };
    let ghost ls = lines(text@);
    proof {
        lemma_ended_lines_len(all.drop_last());
    }
    assert(ls.len() == count);
    let mut words: Vec<String> = Vec::new();
    let mut i: usize = 0;
    assert(ls.take(0) =~= Seq::<Seq<char>>::empty());
    assert(texts(words@) =~= Seq::<Seq<char>>::empty());
    while i < count
        invariant
            all == pieces.deep_view(),
            all == split_on(text@, '\n'),
            n == all.len(),
            n > 0,
            ls == lines(text@),
            ls.len() == count,
            count <= n,
            last_empty == (all.last().len() == 0),
            count == if last_empty { n - 1 } else { n as int },
            i <= count,
            words_of_lines(ls.take(i as int)) == Ok::<Seq<Seq<char>>, Seq<char>>(texts(words@)),
        decreases count - i,
    {
        assert(ls.take(i + 1).drop_last() =~= ls.take(i as int));
        let line = line_at(&pieces, i);
        proof {
            lemma_line_at(all, i as int);
        }
        assert(line@ == ls[i as int]);
        let m = line.len();
        if m == 5 {
            let ghost before = texts(words@);
            words.push(string_from_chars(line.as_slice()));
            assert(texts(words@) =~= before.push(line@));
        } else {
            let mut msg = String::from_str("Dictionary word must have five characters: ");
            push_chars(&mut msg, line.as_slice());
            proof {
                lemma_words_of_lines_err(ls, (i + 1) as int);
            }
            return Err(msg);
        }
        i += 1;
    }
    assert(ls.take(i as int) =~= ls);
    Ok(words)
}

/// Line `i` of the pieces between line feeds.
fn line_at(pieces: &Vec<Vec<char>>, i: usize) -> (line: Vec<char>)
    requires
        i < pieces@.len(),
    ensures
        line@ == if i + 1 < pieces@.len() {
            strip_cr(pieces@[i as int]@)
        } else {
            pieces@[i as int]@
        },
{
    let p = &pieces[i];
    let mut line: Vec<char> = Vec::new();
    let mut len = p.len();
    if i < pieces.len() - 1 && len > 0 && p[len - 1] == '\r' {
        len = len - 1;
    }
    let mut k: usize = 0;
    while k < len
        invariant
            k <= len <= p@.len(),
            line@ == p@.take(k as int),
        decreases len - k,
    {
        line.push(p[k]);
        k += 1;
        assert(line@ =~= p@.take(k as int));
    }
    assert(p@.take(len as int) =~= if i + 1 < pieces@.len() {
        strip_cr(p@)
    } else {
        p@
    });
    line
}

proof fn lemma_ended_lines_len(pieces: Seq<Seq<char>>)
    ensures
        ended_lines(pieces).len() == pieces.len(),
        forall|i: int| 0 <= i < pieces.len() ==> #[trigger] ended_lines(pieces)[i] == strip_cr(pieces[i]),
    decreases pieces.len(),
{
    if pieces.len() > 0 {
        lemma_ended_lines_len(pieces.drop_last());
    }
}

proof fn lemma_line_at(all: Seq<Seq<char>>, i: int)
    requires
        all.len() > 0,
        0 <= i < lines_len(all),
    ensures
        lines_of(all)[i] == if i + 1 < all.len() {
            strip_cr(all[i])
        } else {
            all[i]
        },
{
    lemma_ended_lines_len(all.drop_last());
}

/// The lines of the pieces `all` between line feeds.
spec fn lines_of(all: Seq<Seq<char>>) -> Seq<Seq<char>> {
    if all.last().len() == 0 {
        ended_lines(all.drop_last())
    } else {
        ended_lines(all.drop_last()).push(all.last())
    }
}

spec fn lines_len(all: Seq<Seq<char>>) -> int {
    if all.last().len() == 0 {
        all.len() - 1
    } else {
        all.len() as int
    }
}

proof fn lemma_words_of_lines_err(ls: Seq<Seq<char>>, n: int)
    requires
        0 <= n <= ls.len(),
        words_of_lines(ls.take(n)) is Err,
    ensures
        words_of_lines(ls) == words_of_lines(ls.take(n)),
    decreases ls.len(),
{
    if ls.len() == n {
        assert(ls.take(n) =~= ls);
    } else {
        assert(ls.drop_last().take(n) =~= ls.take(n));
        lemma_words_of_lines_err(ls.drop_last(), n);
    }
}

/// The words of a dictionary file: the file in lower case, one word per line; every line
/// must hold five characters.
pub fn dictionary_from_file(contents: &str) -> (r: Result<Vec<String>, String>)
    ensures
        match words_of_lines(lines(lowercase_text(contents@))) {
            Ok(words) => r is Ok && texts(r->Ok_0@) == words,
            Err(m) => r is Err && r->Err_0@ == m,
        },
{
    let lower = to_lowercase(contents);
    parse_dictionary(lower.as_str())
}

/// Every word of a dictionary that reads holds five characters, and the words are its
/// lines.
pub proof fn lemma_dictionary_words(ls: Seq<Seq<char>>)
    ensures
        words_of_lines(ls) matches Ok(words) ==> words == ls && forall|i: int|
            0 <= i < words.len() ==> (#[trigger] words[i]).len() == 5,
    decreases ls.len(),
{
    if ls.len() > 0 {
        lemma_dictionary_words(ls.drop_last());
        if words_of_lines(ls) is Ok {
            assert(ls.drop_last().push(ls.last()) =~= ls);
        }
    }
}

} // verus!
