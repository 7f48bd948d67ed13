# wordles

A Wordle solver whose logic is verified with Verus.

Given a dictionary of five-letter words and the rules learned from earlier guesses
(a letter at a position, a letter elsewhere than a position, a letter absent, a letter
exactly once), it lists the candidate words and ranks them as guesses: a guess is better
when the patterns it gets against the candidates split them into more groups, then into
smaller groups on average, then with a smaller largest group.

## Layout

- `src/` — the verified library.
  - `pattern.rs` — the pattern of a guess against a solution, its squares and colours,
    and the grouping of guesses by pattern.
  - `rule.rs` — rules, rule sets, and reading rules from text such as `S1,E5`.
  - `rank.rs` — rankings, their order, collections that keep the best ones, and the
    ranking of every guess against the candidates.
  - `freq.rs` — letter frequencies.
  - `cache.rs` — the entries that the on-disk cache stores, and ranking the candidates
    from the groups read back.
  - `consistency.rs` — proof that ranking from the stored groups ranks as ranking
    directly does, one word and every candidate.
  - `store.rs` — the store that writing the entries gives, and proof that reading it
    back ranks as ranking directly does.
  - `location.rs` — where the cache directory lies.
  - `dictionary.rs` — reading a dictionary file.
  - `text.rs` — characters, splitting, joining and ordering of texts.
- `app/` — the command line program: options, files, the LMDB cache, printing.
- `tests/` — tests of the library.

## Usage

```
wordles --dict FILE [-m S1,E5] [-c L3] [-n R,N] [-o E] [--limit NUM | --no-limit]
        [--cache DIR | --no-cache] [-v]
wordles --dict FILE --frequency
wordles --patterns
```

The program has no built-in word list: the words come from `--dict`, and `--words`
reports that the list is missing.
