//! Entries of the clipboard history: what they hold, how they are shown, and
//! how they are searched.

use crate::clock::{label_at, label_of, Timestamp};
use crate::fuzzy::{fuzzy_score, fuzzy_value};
use crate::math::{eval_math, math_value};
use crate::order::{arranged, positions, sorted_order, stable_order};
use crate::text::{
    byte_len, byte_len_capped, chars_of, prefix_len_within, prefix_within,
    string_of, text_of,
};
use vstd::prelude::*;

verus! {

/// Longest text, in bytes, that a preview shows whole.
pub const PREVIEW_WHOLE: usize = 40;

/// Bytes of a longer text that a preview shows, before the dots.
pub const PREVIEW_CUT: usize = 37;

/// One text that was on the clipboard, with the number of times it was pasted
/// from the history and the label of the time it was last seen or pasted.
#[derive(Debug)]
pub struct ClipboardEntry {
    pub text: String,
    pub preview: String,
    pub count: u32,
    pub last_used: Option<String>,
}

/// What an entry holds, as mathematical values.
pub struct EntryView {
    pub text: Seq<char>,
    pub preview: Seq<char>,
    pub count: u32,
    pub last_used: Option<Seq<char>>,
}

impl View for ClipboardEntry {
    type V = EntryView;

    open spec fn view(&self) -> EntryView {
        EntryView {
            text: self.text@,
            preview: self.preview@,
            count: self.count,
            last_used: text_of(self.last_used),
        }
    }
}

impl Clone for ClipboardEntry {
    fn clone(&self) -> (copy: ClipboardEntry)
        ensures
            copy == *self,
    {
        ClipboardEntry {
            text: self.text.clone(),
            preview: self.preview.clone(),
            count: self.count,
            last_used: match &self.last_used {
                Some(s) => Some(s.clone()),
                None => None,
            },
        }
    }
}

/// The decimal digit for `d`.
pub open spec fn digit_char(d: int) -> char {
    ((d + 48) as u8) as char
}

/// `n` written in decimal.
pub open spec fn decimal(n: nat) -> Seq<char>
    decreases n,
{
    if n < 10 {
        seq![digit_char(n as int)]
    } else {
        decimal(n / 10).push(digit_char((n % 10) as int))
    }
}

/// Writes `n` in decimal.
pub fn decimal_digits(n: u32) -> (digits: Vec<char>)
    ensures
        digits@ == decimal(n as nat),
{
    let mut reversed: Vec<char> = Vec::new();
    let mut rest: u32 = n;
    while rest >= 10
        invariant
            decimal(n as nat) == decimal(rest as nat) + reversed@.reverse(),
        decreases rest,
    {
        let d: u8 = (rest % 10) as u8;
        let ghost before = reversed@;
        reversed.push((d + 48) as char);
        proof {
            assert(decimal(rest as nat) == decimal((rest / 10) as nat).push(
                digit_char((rest % 10) as int),
            ));
            assert(reversed@.reverse() =~= seq![digit_char((rest % 10) as int)]
                + before.reverse());
            assert(decimal((rest / 10) as nat).push(digit_char((rest % 10) as int))
                + before.reverse() =~= decimal((rest / 10) as nat) + reversed@.reverse());
        }
        rest = rest / 10;
    }
    let mut digits: Vec<char> = Vec::new();
    digits.push(((rest as u8) + 48) as char);
    let mut i: usize = reversed.len();
    while i > 0
        invariant
            i <= reversed.len(),
            digits@ == decimal(rest as nat) + reversed@.reverse().take(reversed.len() - i),
            rest < 10,
        decreases i,
    {
        i -= 1;
        digits.push(reversed[i]);
        proof {
            let r = reversed@.reverse();
            assert(r[reversed.len() - 1 - i] == reversed@[i as int]);
            assert(r.take(reversed.len() - i) =~= r.take(reversed.len() - i - 1).push(
                reversed@[i as int],
            ));
        }
    }
    proof {
        assert(reversed@.reverse().take(reversed.len() as int) == reversed@.reverse());
    }
    digits
}

/// `text` with each line break replaced by a blank.
pub open spec fn on_one_line(text: Seq<char>) -> Seq<char> {
    text.map_values(
        |c: char|
            if c == '\n' {
                ' '
            } else {
                c
            },
    )
}

/// The part of `text` that a preview shows: all of it up to 40 bytes; of a
/// longer text the longest run of whole characters in its first 37 bytes,
/// and three dots.
pub open spec fn shortened(text: Seq<char>) -> Seq<char> {
    if byte_len(text) > PREVIEW_WHOLE {
        text.take(prefix_within(text, PREVIEW_CUT as nat) as int) + seq!['.', '.', '.']
    } else {
        text
    }
}

/// The number of pastes as a preview shows it: nothing for an entry that was
/// never pasted, else the number in parentheses after a blank.
pub open spec fn count_note(count: u32) -> Seq<char> {
    if count > 0 {
        seq![' ', '('] + decimal(count as nat) + seq![')']
    } else {
        Seq::empty()
    }
}

/// The value of the text as a preview shows it: nothing where there is none.
pub open spec fn value_note(value: Option<Seq<char>>) -> Seq<char> {
    match value {
        Some(v) => seq![' ', '=', ' '] + v,
        None => Seq::empty(),
    }
}

/// The preview of an entry with text `text` that was pasted `count` times,
/// `value` being the value of the text as arithmetic, if it has one.
pub open spec fn preview_of(text: Seq<char>, count: u32, value: Option<Seq<char>>) -> Seq<char> {
    on_one_line(shortened(text)) + count_note(count) + value_note(value)
}

/// Appends `tail` to `out`.
fn append(out: &mut Vec<char>, tail: &Vec<char>)
    ensures
        final(out)@ == old(out)@ + tail@,
{
    let mut i: usize = 0;
    while i < tail.len()
        invariant
            i <= tail.len(),
            out@ == old(out)@ + tail@.take(i as int),
        decreases tail.len() - i,
    {
        out.push(tail[i]);
        proof {
            assert(tail@.take(i + 1) == tail@.take(i as int).push(tail@[i as int]));
            assert(old(out)@ + tail@.take(i as int).push(tail@[i as int]) =~= (old(out)@
                + tail@.take(i as int)).push(tail@[i as int]));
        }
        i += 1;
    }
    proof {
        assert(tail@.take(tail.len() as int) == tail@);
    }
}

/// Builds the preview of an entry: see `preview_of`.
pub fn render_preview(text: &str, count: u32, value: &Option<String>) -> (preview: String)
    ensures
        preview@ == preview_of(text@, count, text_of(*value)),
{
    let chars = chars_of(text);
    let long = byte_len_capped(&chars, PREVIEW_WHOLE) > PREVIEW_WHOLE;
    let shown: usize = if long {
        prefix_len_within(&chars, PREVIEW_CUT)
    } else {
        chars.len()
    };
    let mut out: Vec<char> = Vec::new();
    let mut i: usize = 0;
    while i < shown
        invariant
            i <= shown <= chars.len(),
            out@ == on_one_line(chars@.take(i as int)),
        decreases shown - i,
    {
        let c = chars[i];
        out.push(
            if c == '\n' {
                ' '
            } else {
                c
            },
        );
        proof {
            assert(on_one_line(chars@.take(i + 1)) =~= on_one_line(chars@.take(i as int)).push(
                if c == '\n' {
                    ' '
                } else {
                    c
                },
            ));
        }
        i += 1;
    }
    if long {
        out.push('.');
        out.push('.');
        out.push('.');
        proof {
            assert(out@ =~= on_one_line(chars@.take(shown as int) + seq!['.', '.', '.']));
        }
    } else {
        proof {
            assert(chars@.take(shown as int) == chars@);
        }
    }
    assert(out@ == on_one_line(shortened(text@)));
    if count > 0 {
        let digits = decimal_digits(count);
        let ghost before = out@;
        out.push(' ');
        out.push('(');
        append(&mut out, &digits);
        out.push(')');
        proof {
            assert(out@ =~= before + count_note(count));
        }
    }
    match value {
        Some(v) => {
            let v_chars = chars_of(v.as_str());
            let ghost before = out@;
            out.push(' ');
            out.push('=');
            out.push(' ');
            append(&mut out, &v_chars);
            proof {
                assert(out@ =~= before + value_note(text_of(*value)));
            }
        },
        None => {},
    }
    string_of(&out)
}

/// `c` is one of the capital letters `A` to `Z`.
pub open spec fn is_upper(c: char) -> bool {
    'A' <= c <= 'Z'
}

/// `c` is one of the small letters `a` to `z`.
pub open spec fn is_lower(c: char) -> bool {
    'a' <= c <= 'z'
}

/// `text` looks like a password: 8 to 32 bytes long, with a capital letter, a
/// small letter and a digit among its characters, and no blank.
pub open spec fn password_like(text: Seq<char>) -> bool {
    &&& 8 <= byte_len(text) <= 32
    &&& exists|i: int| 0 <= i < text.len() && is_upper(#[trigger] text[i])
    &&& exists|i: int| 0 <= i < text.len() && is_lower(#[trigger] text[i])
    &&& exists|i: int| 0 <= i < text.len() && crate::math::is_digit(#[trigger] text[i])
    &&& forall|i: int| 0 <= i < text.len() ==> #[trigger] text[i] != ' '
}

/// Decides `password_like`.
pub fn is_password_like(text: &str) -> (r: bool)
    ensures
        r == password_like(text@),
{
    let chars = chars_of(text);
    let len = byte_len_capped(&chars, 32);
    if len < 8 || len > 32 {
        return false;
    }
    let mut upper = false;
    let mut lower = false;
    let mut digit = false;
    let mut blank = false;
    let mut i: usize = 0;
    while i < chars.len()
        invariant
            i <= chars.len(),
            upper <==> exists|k: int| 0 <= k < i && is_upper(#[trigger] chars@[k]),
            lower <==> exists|k: int| 0 <= k < i && is_lower(#[trigger] chars@[k]),
            digit <==> exists|k: int| 0 <= k < i && crate::math::is_digit(#[trigger] chars@[k]),
            blank <==> exists|k: int| 0 <= k < i && #[trigger] chars@[k] == ' ',
        decreases chars.len() - i,
    {
        let c = chars[i];
        upper = upper || ('A' <= c && c <= 'Z');
        lower = lower || ('a' <= c && c <= 'z');
        digit = digit || ('0' <= c && c <= '9');
        blank = blank || c == ' ';
        i += 1;
    }
    upper && lower && digit && !blank
}

impl ClipboardEntry {
    /// The entry for a text that is seen for the first time at `now`: never
    /// pasted, last used at `now`.
    pub fn new(text: String, now: Timestamp) -> (entry: ClipboardEntry)
        ensures
            entry@ == (EntryView {
                text: text@,
                preview: preview_of(text@, 0, math_value(text@)),
                count: 0,
                last_used: label_of(now.secs),
            }),
    {
        let value = eval_math(text.as_str());
        let preview = render_preview(text.as_str(), 0, &value);
        ClipboardEntry { text, preview, count: 0, last_used: label_at(now) }
    }

    /// The entry with the given text, count and label, and the preview that
    /// belongs to them, `value` being the value of the text as arithmetic.
    pub fn with_parts(
        text: String,
        count: u32,
        last_used: Option<String>,
        value: &Option<String>,
    ) -> (entry: ClipboardEntry)
        ensures
            entry@ == (EntryView {
                text: text@,
                preview: preview_of(text@, count, text_of(*value)),
                count,
                last_used: text_of(last_used),
            }),
    {
        let preview = render_preview(text.as_str(), count, value);
        ClipboardEntry { text, preview, count, last_used }
    }

    /// Brings the preview in line with the text and the count.
    pub fn update_preview(&mut self)
        ensures
            final(self)@ == (EntryView {
                preview: preview_of(old(self)@.text, old(self)@.count, math_value(old(self)@.text)),
                ..old(self)@
            }),
    {
        let value = eval_math(self.text.as_str());
        self.preview = render_preview(self.text.as_str(), self.count, &value);
    }

    /// Whether the text looks like a password: 8 to 32 bytes long, with a
    /// capital letter, a small letter and a digit, and no blank.
    pub fn looks_like_password(&self) -> (r: bool)
        ensures
            r == password_like(self@.text),
    {
        is_password_like(self.text.as_str())
    }
}

/// What the entries of `entries` hold, in order.
pub open spec fn views(entries: Seq<ClipboardEntry>) -> Seq<EntryView> {
    entries.map_values(|e: ClipboardEntry| e@)
}

/// The score of `query` against each entry of `history`.
pub open spec fn scores_of(query: Seq<char>, history: Seq<EntryView>) -> Seq<int> {
    history.map_values(|e: EntryView| fuzzy_value(query, e.text))
}

/// The positions of `scores` that hold a score above zero, in rising order.
pub open spec fn hits(scores: Seq<int>) -> Seq<int>
    decreases scores.len(),
{
    if scores.len() == 0 {
        Seq::empty()
    } else if scores.last() > 0 {
        hits(scores.drop_last()).push(scores.len() - 1)
    } else {
        hits(scores.drop_last())
    }
}

/// The smaller of two numbers.
pub open spec fn least(a: int, b: int) -> int {
    if a <= b {
        a
    } else {
        b
    }
}

/// What a search for `query` in `history` gives, at most `limit` entries: for
/// the empty query the first entries of `history`; else the entries with a
/// score above zero, the highest score first and entries of one score in the
/// order in which they stand in `history`.
pub open spec fn search_view(query: Seq<char>, history: Seq<EntryView>, limit: nat) -> Seq<
    EntryView,
> {
    if query.len() == 0 {
        history.take(least(limit as int, history.len() as int))
    } else {
        let scores = scores_of(query, history);
        let found = hits(scores);
        let order = sorted_order::<i32>(arranged(scores, found), true);
        arranged(arranged(history, found), order).take(least(limit as int, found.len() as int))
    }
}

/// The hits are the positions with a score above zero, each once, in
/// rising order.
pub proof fn lemma_hits(scores: Seq<int>)
    ensures
        hits(scores).len() <= scores.len(),
        forall|p: int|
            0 <= p < hits(scores).len() ==> 0 <= #[trigger] hits(scores)[p] < scores.len()
                && scores[hits(scores)[p]] > 0,
        forall|p: int, q: int|
            0 <= p < q < hits(scores).len() ==> #[trigger] hits(scores)[p] < #[trigger] hits(
                scores,
            )[q],
    decreases scores.len(),
{
    if scores.len() > 0 {
        lemma_hits(scores.drop_last());
        let head = hits(scores.drop_last());
        assert forall|p: int| 0 <= p < hits(scores).len() implies 0 <= #[trigger] hits(scores)[p]
            < scores.len() && scores[hits(scores)[p]] > 0 by {
            if p < head.len() {
                assert(scores.drop_last()[head[p]] == scores[head[p]]);
            }
        }
    }
}

/// A search for a query that is not empty finds only entries against which
/// the query scores, no more than `limit`, and none before an entry of
/// higher score.
pub proof fn lemma_search_finds_matches(query: Seq<char>, history: Seq<EntryView>, limit: nat)
    requires
        query.len() > 0,
    ensures
        search_view(query, history, limit).len() <= limit,
        search_view(query, history, limit).len() <= history.len(),
        forall|p: int|
            0 <= p < search_view(query, history, limit).len() ==> fuzzy_value(
                query,
                (#[trigger] search_view(query, history, limit)[p]).text,
            ) > 0,
        forall|p: int, q: int|
            0 <= p < q < search_view(query, history, limit).len() ==> fuzzy_value(
                query,
                (#[trigger] search_view(query, history, limit)[p]).text,
            ) >= fuzzy_value(query, (#[trigger] search_view(query, history, limit)[q]).text),
{
    let scores = scores_of(query, history);
    let found = hits(scores);
    let ranks = arranged(scores, found);
    let order = sorted_order::<i32>(ranks, true);
    let all = arranged(arranged(history, found), order);
    lemma_hits(scores);
    crate::order::lemma_sorted_order::<i32>(ranks, true);
    assert forall|p: int| 0 <= p < all.len() implies fuzzy_value(query, (#[trigger] all[p]).text)
        == ranks[order[p]] && ranks[order[p]] > 0 by {
        let at = found[order[p]];
        assert(all[p] == history[at]);
        assert(ranks[order[p]] == scores[at]);
    }
    let out = search_view(query, history, limit);
    assert forall|p: int| 0 <= p < out.len() implies fuzzy_value(query, (#[trigger] out[p]).text)
        > 0 by {
        assert(out[p] == all[p]);
    }
    assert forall|p: int, q: int| 0 <= p < q < out.len() implies fuzzy_value(
        query,
        (#[trigger] out[p]).text,
    ) >= fuzzy_value(query, (#[trigger] out[q]).text) by {
        assert(out[p] == all[p]);
        assert(out[q] == all[q]);
        assert(!crate::order::precedes::<i32>(ranks[order[q]], ranks[order[p]], true));
    }
}

/// Searches the history. The empty query gives the first `limit` entries as
/// they stand. Any other query is scored against the text of every entry;
/// the entries that score above zero are returned, highest score first,
/// entries of one score in the order of the history, and no more than `limit`
/// of them.
pub fn fuzzy_search_clipboard(query: &str, history: &[ClipboardEntry], limit: usize) -> (found: Vec<
    ClipboardEntry,
>)
    ensures
        views(found@) == search_view(query@, views(history@), limit as nat),
{
    let mut found: Vec<ClipboardEntry> = Vec::new();
    if query.is_empty() {
        let n = if limit < history.len() {
            limit
        } else {
            history.len()
        };
        let mut i: usize = 0;
        while i < n
            invariant
                i <= n <= history.len(),
                views(found@) == views(history@).take(i as int),
            decreases n - i,
        {
            found.push(history[i].clone());
            proof {
                assert(views(found@) =~= views(history@).take(i as int).push(history@[i as int]@));
                assert(views(history@).take(i + 1) =~= views(history@).take(i as int).push(
                    history@[i as int]@,
                ));
            }
            i += 1;
        }
        return found;
    }
    let ghost all = scores_of(query@, views(history@));
    let mut at: Vec<usize> = Vec::new();
    let mut scores: Vec<i32> = Vec::new();
    let mut i: usize = 0;
    while i < history.len()
        invariant
            i <= history.len(),
            all == scores_of(query@, views(history@)),
            positions(at@) == hits(all.take(i as int)),
            at@.len() == scores@.len(),
            forall|p: int| 0 <= p < at@.len() ==> #[trigger] at@[p] < i,
            forall|p: int| 0 <= p < at@.len() ==> #[trigger] scores@[p] == all[at@[p] as int],
        decreases history.len() - i,
    {
        let score = fuzzy_score(query, history[i].text.as_str());
        proof {
            assert(all.take(i + 1).drop_last() == all.take(i as int));
            assert(all.take(i + 1).last() == all[i as int]);
            assert(all[i as int] == fuzzy_value(query@, history@[i as int]@.text));
        }
        if score > 0 {
            at.push(i);
            scores.push(score);
            proof {
                assert(positions(at@) =~= hits(all.take(i as int)).push(i as int));
            }
        }
        i += 1;
    }
    proof {
        assert(all.take(history.len() as int) == all);
        assert(crate::order::ranks_of(scores@) =~= arranged(all, positions(at@)));
    }
    let order = stable_order(&scores, true);
    let n = if limit < order.len() {
        limit
    } else {
        order.len()
    };
    let ghost chosen = arranged(arranged(views(history@), positions(at@)), positions(order@));
    let mut k: usize = 0;
    while k < n
        invariant
            k <= n <= order.len(),
            order@.len() == at@.len(),
            forall|p: int| 0 <= p < order@.len() ==> #[trigger] order@[p] < at@.len(),
            forall|p: int| 0 <= p < at@.len() ==> #[trigger] at@[p] < history.len(),
            chosen == arranged(arranged(views(history@), positions(at@)), positions(order@)),
            views(found@) == chosen.take(k as int),
        decreases n - k,
    {
        let entry = history[at[order[k]]].clone();
        found.push(entry);
        proof {
            assert(chosen[k as int] == history@[at@[order@[k as int] as int] as int]@);
            assert(views(found@) =~= chosen.take(k as int).push(chosen[k as int]));
            assert(chosen.take(k + 1) =~= chosen.take(k as int).push(chosen[k as int]));
        }
        k += 1;
    }
    found
}

} // verus!
