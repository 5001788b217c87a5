//! Fuzzy matching of a query against a text.
//!
//! A query that stands in the text as it is, case aside, scores highest, the
//! more the earlier it stands. Otherwise the characters of the query are
//! looked for in the text one after the other, and the score rewards runs of
//! adjacent matches and matches at the start of a word.

use crate::text::{
    byte_len, chars_of, find_chars, first_occurrence, lowercase_of, occurs, occurs_at,
    prefix_byte_len_capped, to_lowercase,
};
use vstd::prelude::*;

verus! {

/// Base score of a query that stands in the text as a whole.
pub const SUBSTRING_BASE: i32 = 1000;

/// Bonus of a whole match at the very start; each byte further in costs one,
/// down to no bonus.
pub const POSITION_BONUS: i32 = 100;

/// `c` ends a word: the character after it starts the next one.
pub open spec fn is_separator(c: char) -> bool {
    c == ' ' || c == '_' || c == '-' || c == '.' || c == '/' || c == '\\'
}

/// Decides `is_separator`.
pub fn separates(c: char) -> (r: bool)
    ensures
        r == is_separator(c),
{
    c == ' ' || c == '_' || c == '-' || c == '.' || c == '/' || c == '\\'
}

/// Position `at` starts a word of `text`: it is the first position, or a
/// separator stands just before it.
pub open spec fn starts_word(text: Seq<char>, at: int) -> bool {
    at == 0 || (0 < at <= text.len() && is_separator(text[at - 1]))
}

/// How far the scan for the characters of the query has come.
pub struct Scan {
    /// Points collected.
    pub score: int,
    /// Number of characters of the query found so far.
    pub matched: int,
    /// Length of the run of adjacent matches that the last match extended.
    pub run: int,
    /// Position of the last match, `-2` before the first.
    pub last: int,
}

/// The scan before the first character of the text.
pub open spec fn scan_start() -> Scan {
    Scan { score: 0, matched: 0, run: 0, last: -2 }
}

/// The scan after looking at position `at` of the text. Where the character
/// there, in lower case, is the next one of the query, it is a match: it
/// scores one point, ten times the length of the run of adjacent matches that
/// it extends, and five more at the start of a word.
pub open spec fn scan_step(
    scan: Scan,
    query: Seq<char>,
    text: Seq<char>,
    lowered: Seq<char>,
    at: int,
) -> Scan {
    if scan.matched < query.len() && lowered[at] == query[scan.matched] {
        let run = if at == scan.last + 1 {
            scan.run + 1
        } else {
            0
        };
        let bonus: int = if starts_word(text, at) {
            5
        } else {
            0
        };
        Scan { score: scan.score + 1 + 10 * run + bonus, matched: scan.matched + 1, run, last: at }
    } else {
        scan
    }
}

/// The scan after the first `n` characters of the text.
pub open spec fn scanned(query: Seq<char>, text: Seq<char>, lowered: Seq<char>, n: nat) -> Scan
    decreases n,
{
    if n == 0 {
        scan_start()
    } else {
        scan_step(scanned(query, text, lowered, (n - 1) as nat), query, text, lowered, n - 1)
    }
}

/// The score of a query in lower case against a text and its lower-case form.
pub open spec fn match_value(query: Seq<char>, text: Seq<char>, lowered: Seq<char>) -> int {
    if occurs(lowered, query) {
        let offset = byte_len(lowered.take(first_occurrence(lowered, query)));
        if offset >= POSITION_BONUS {
            SUBSTRING_BASE as int
        } else {
            SUBSTRING_BASE + (POSITION_BONUS - offset)
        }
    } else {
        let end = scanned(query, text, lowered, lowered.len());
        if end.matched < query.len() {
            0
        } else {
            end.score
        }
    }
}

/// `value` as a score: itself where it fits, the largest score otherwise.
pub open spec fn capped(value: int) -> int {
    if value > i32::MAX {
        i32::MAX as int
    } else {
        value
    }
}

/// The score that `fuzzy_score` gives to `query` against `text`.
pub open spec fn fuzzy_value(query: Seq<char>, text: Seq<char>) -> int {
    capped(match_value(lowercase_of(query), text, lowercase_of(text)))
}

/// What holds of a scan at any point: the counters are in range.
proof fn lemma_scanned_bounds(query: Seq<char>, text: Seq<char>, lowered: Seq<char>, n: nat)
    ensures
        0 <= scanned(query, text, lowered, n).matched <= query.len(),
        scanned(query, text, lowered, n).matched <= n,
        0 <= scanned(query, text, lowered, n).run <= n,
        0 <= scanned(query, text, lowered, n).score,
        scanned(query, text, lowered, n).matched <= scanned(query, text, lowered, n).score,
        -2 <= scanned(query, text, lowered, n).last < n,
        scanned(query, text, lowered, n).last != -1,
    decreases n,
{
    if n > 0 {
        lemma_scanned_bounds(query, text, lowered, (n - 1) as nat);
    }
}

/// Scores a query against a text, both given as characters: `query` in lower
/// case, `text` as it is and `lowered` as its lower-case form. A query that
/// stands in `lowered` scores 1000 and up to 100 more, one less for each byte
/// that stands before its first occurrence. Otherwise the characters of the
/// query are matched in order, each at the first position that is left, and
/// the matches are scored; a query that is not matched to its end scores 0.
/// A score beyond the largest `i32` is given as that.
pub fn score_lowered(query: &Vec<char>, text: &Vec<char>, lowered: &Vec<char>) -> (score: i32)
    ensures
        score == capped(match_value(query@, text@, lowered@)),
        score >= 0,
{
    match find_chars(lowered, query) {
        Some(at) => {
            let offset = prefix_byte_len_capped(lowered, at, 100);
            if offset >= 100 {
                return 1000;
            } else {
                return 1000 + (100 - offset as i32);
            }
        },
        None => {},
    }
    let mut score: i32 = 0;
    let mut matched: usize = 0;
    let mut run: usize = 0;
    let mut last: Option<usize> = None;
    let mut at: usize = 0;
    while at < lowered.len()
        invariant
            at <= lowered.len(),
            score == capped(scanned(query@, text@, lowered@, at as nat).score),
            matched == scanned(query@, text@, lowered@, at as nat).matched,
            run == scanned(query@, text@, lowered@, at as nat).run,
            last is None <==> scanned(query@, text@, lowered@, at as nat).last == -2,
            last matches Some(p) ==> p == scanned(query@, text@, lowered@, at as nat).last,
        decreases lowered.len() - at,
    {
        proof {
            lemma_scanned_bounds(query@, text@, lowered@, at as nat);
        }
        if matched < query.len() && lowered[at] == query[matched] {
            let adjacent = match last {
                Some(p) => at == p + 1,
                None => false,
            };
            if adjacent {
                run = run + 1;
            } else {
                run = 0;
            }
            let at_word = at == 0 || (at <= text.len() && separates(text[at - 1]));
            let bonus: u128 = if at_word {
                5
            } else {
                0
            };
            let sum: u128 = score as u128 + 1 + 10 * (run as u128) + bonus;
            score = if sum > i32::MAX as u128 {
                i32::MAX
            } else {
                sum as i32
            };
            matched = matched + 1;
            last = Some(at);
        }
        at += 1;
    }
    proof {
        lemma_scanned_bounds(query@, text@, lowered@, at as nat);
    }
    if matched < query.len() {
        0
    } else {
        score
    }
}

/// Scores `query` against `text`, case aside: see `score_lowered`, which
/// this calls with the lower-case forms of the two.
pub fn fuzzy_score(query: &str, text: &str) -> (score: i32)
    ensures
        score == fuzzy_value(query@, text@),
        score >= 0,
{
    let query_lower = to_lowercase(query);
    let text_lower = to_lowercase(text);
    let query_chars = chars_of(query_lower.as_str());
    let text_chars = chars_of(text);
    let lowered_chars = chars_of(text_lower.as_str());
    score_lowered(&query_chars, &text_chars, &lowered_chars)
}

/// The characters of `query` can be read off `text` in order: for each
/// character of the query one of the text, the later for the later.
pub open spec fn embeds(text: Seq<char>, query: Seq<char>) -> bool
    decreases text.len(),
{
    if query.len() == 0 {
        true
    } else if text.len() == 0 {
        false
    } else if text.last() == query.last() && embeds(text.drop_last(), query.drop_last()) {
        true
    } else {
        embeds(text.drop_last(), query)
    }
}

/// What can be read off a text can be read off a longer text.
proof fn lemma_embeds_longer(text: Seq<char>, query: Seq<char>, n: int)
    requires
        0 <= n <= text.len(),
        embeds(text.take(n), query),
    ensures
        embeds(text, query),
    decreases text.len() - n,
{
    if n == text.len() {
        assert(text.take(n) == text);
    } else {
        assert(text.take(n + 1).drop_last() == text.take(n));
        lemma_embeds_longer(text, query, n + 1);
    }
}

/// Where a query can be read off a text, so can each of its beginnings.
proof fn lemma_embeds_shorter(text: Seq<char>, query: Seq<char>, k: int)
    requires
        0 <= k <= query.len(),
        embeds(text, query),
    ensures
        embeds(text, query.take(k)),
    decreases text.len(), query.len() - k,
{
    if k == query.len() {
        assert(query.take(k) == query);
    } else if k == 0 {
    } else {
        // the query is not empty, so neither is the text
        if text.last() == query.last() && embeds(text.drop_last(), query.drop_last()) {
            assert(query.drop_last().take(k) == query.take(k));
            lemma_embeds_shorter(text.drop_last(), query.drop_last(), k);
        } else {
            lemma_embeds_shorter(text.drop_last(), query, k);
        }
        assert(embeds(text.drop_last(), query.take(k)));
    }
}

/// A query that stands in a text can be read off the text up to its end.
proof fn lemma_occurrence_upto(text: Seq<char>, query: Seq<char>, at: int)
    requires
        occurs_at(text, query, at),
    ensures
        embeds(text.take(at + query.len()), query),
    decreases query.len(),
{
    let end = at + query.len();
    if query.len() > 0 {
        let head = text.take(end);
        assert(head.last() == text.subrange(at, end)[query.len() - 1]);
        assert(text.subrange(at, end - 1) =~= text.subrange(at, end).drop_last());
        lemma_occurrence_upto(text, query.drop_last(), at);
        assert(head.drop_last() == text.take(end - 1));
    }
}

/// A query that stands in a text can be read off it.
proof fn lemma_occurrence_embeds(text: Seq<char>, query: Seq<char>, at: int)
    requires
        occurs_at(text, query, at),
    ensures
        embeds(text, query),
{
    lemma_occurrence_upto(text, query, at);
    lemma_embeds_longer(text, query, at + query.len());
}

/// The scan finds as much of the query as can be read off the text: what it
/// has matched after `n` characters can be read off them, and one character
/// more of the query cannot.
proof fn lemma_scan_is_greedy(query: Seq<char>, text: Seq<char>, lowered: Seq<char>, n: nat)
    requires
        n <= lowered.len(),
    ensures
        0 <= scanned(query, text, lowered, n).matched <= query.len(),
        embeds(lowered.take(n as int), query.take(scanned(query, text, lowered, n).matched)),
        scanned(query, text, lowered, n).matched < query.len() ==> !embeds(
            lowered.take(n as int),
            query.take(scanned(query, text, lowered, n).matched + 1),
        ),
    decreases n,
{
    lemma_scanned_bounds(query, text, lowered, n);
    if n > 0 {
        lemma_scan_is_greedy(query, text, lowered, (n - 1) as nat);
        lemma_scanned_bounds(query, text, lowered, (n - 1) as nat);
        let before = scanned(query, text, lowered, (n - 1) as nat).matched;
        let after = scanned(query, text, lowered, n).matched;
        let seen = lowered.take(n as int);
        assert(seen.drop_last() == lowered.take(n - 1));
        assert(seen.last() == lowered[n - 1]);
        if before < query.len() && lowered[n - 1] == query[before] {
            assert(query.take(before + 1).drop_last() == query.take(before));
            assert(query.take(before + 1).last() == query[before]);
            if after < query.len() {
                let more = query.take(after + 1);
                assert(more.drop_last() == query.take(after));
                if embeds(seen, more) {
                    // either way one character more than before was read off
                    // the characters before this one
                    if !(seen.last() == more.last() && embeds(seen.drop_last(), more.drop_last())) {
                        lemma_embeds_shorter(seen.drop_last(), more, before + 1);
                        assert(more.take(before + 1) == query.take(before + 1));
                    }
                }
            }
        } else if before < query.len() {
            assert(query.take(before + 1).drop_last() == query.take(before));
            assert(query.take(before + 1).last() == query[before]);
        }
    }
}

/// A query scores above zero exactly when its characters can be read off the
/// text in order; a query of which a character is missing, or comes too
/// early, scores zero. Both are taken in lower case.
pub proof fn lemma_score_iff_embeds(query: Seq<char>, text: Seq<char>, lowered: Seq<char>)
    ensures
        match_value(query, text, lowered) >= 0,
        match_value(query, text, lowered) > 0 <==> embeds(lowered, query),
        capped(match_value(query, text, lowered)) > 0 <==> embeds(lowered, query),
{
    if occurs(lowered, query) {
        let at = choose|at: int| occurs_at(lowered, query, at);
        lemma_occurrence_embeds(lowered, query, at);
    } else {
        lemma_scan_is_greedy(query, text, lowered, lowered.len());
        lemma_scanned_bounds(query, text, lowered, lowered.len());
        let end = scanned(query, text, lowered, lowered.len());
        assert(lowered.take(lowered.len() as int) == lowered);
        if end.matched < query.len() {
            if embeds(lowered, query) {
                lemma_embeds_shorter(lowered, query, end.matched + 1);
            }
        } else {
            assert(query.take(query.len() as int) == query);
            // the empty query stands in every text
            if query.len() == 0 {
                assert(lowered.subrange(0, 0) =~= query);
                assert(occurs_at(lowered, query, 0));
            }
        }
    }
}

/// `fuzzy_score` is above zero exactly when the characters of the query can
/// be read off the text in order, case aside.
pub proof fn lemma_fuzzy_iff_embeds(query: Seq<char>, text: Seq<char>)
    ensures
        fuzzy_value(query, text) >= 0,
        fuzzy_value(query, text) > 0 <==> embeds(lowercase_of(text), lowercase_of(query)),
{
    lemma_score_iff_embeds(lowercase_of(query), text, lowercase_of(text));
}

} // verus!
