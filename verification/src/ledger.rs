//! The clipboard history: a bounded list of entries without repeats, kept in
//! the order in which it is shown, most pasted and most recent first.

use crate::clipboard::{
    password_like, is_password_like, preview_of, views, ClipboardEntry, EntryView,
};
use crate::clock::{label_at, label_of, Timestamp};
use crate::math::{eval_math, math_value};
use crate::order::{
    arranged, lemma_sorted_order, permutes, positions, ranks_of, sorted_order, stable_order,
    SortKey,
};
use crate::text::{chars_of, is_text_below, lemma_text_order, text_below, text_of};
use vstd::prelude::*;

verus! {

/// What entries are ordered by: the number of pastes, then the label of the
/// last use.
pub struct UseRank {
    pub count: int,
    pub last_used: Option<Seq<char>>,
}

/// Label `a` stands before label `b`: no label before any label, and labels
/// in the order of strings.
pub open spec fn label_below(a: Option<Seq<char>>, b: Option<Seq<char>>) -> bool {
    match (a, b) {
        (None, Some(_)) => true,
        (Some(x), Some(y)) => text_below(x, y),
        _ => false,
    }
}

/// The key of an entry, as the sort reads it.
pub struct UseKey {
    pub count: u32,
    pub last_used: Option<Vec<char>>,
}

impl SortKey for UseKey {
    type Rank = UseRank;

    open spec fn rank(&self) -> UseRank {
        UseRank {
            count: self.count as int,
            last_used: match self.last_used {
                Some(v) => Some(v@),
                None => None,
            },
        }
    }

    open spec fn rank_below(a: UseRank, b: UseRank) -> bool {
        a.count < b.count || (a.count == b.count && label_below(a.last_used, b.last_used))
    }

    fn is_below(&self, other: &Self) -> (b: bool) {
        if self.count != other.count {
            self.count < other.count
        } else {
            match (&self.last_used, &other.last_used) {
                (None, Some(_)) => true,
                (Some(x), Some(y)) => is_text_below(x, y),
                _ => false,
            }
        }
    }

    proof fn lemma_strict_weak(a: UseRank, b: UseRank, c: UseRank) {
        match (a.last_used, b.last_used, c.last_used) {
            (Some(x), Some(y), Some(z)) => {
                lemma_text_order(x, y, z);
            },
            (Some(x), _, _) => {
                lemma_text_order(x, x, x);
            },
            _ => {},
        }
    }
}

/// The rank of an entry.
pub open spec fn rank_of(entry: EntryView) -> UseRank {
    UseRank { count: entry.count as int, last_used: entry.last_used }
}

/// The ranks of `entries`, in order.
pub open spec fn use_ranks(entries: Seq<EntryView>) -> Seq<UseRank> {
    entries.map_values(|e: EntryView| rank_of(e))
}

/// The entries that stay when `entries` is cut down to `max`: those that come
/// last when the entries are sorted by rising rank, ties in the order in
/// which they stand. All stay when there are no more than `max`.
pub open spec fn kept(entries: Seq<EntryView>, max: nat) -> Seq<EntryView> {
    if entries.len() > max {
        arranged(
            entries,
            sorted_order::<UseKey>(use_ranks(entries), false).skip(entries.len() - max),
        )
    } else {
        entries
    }
}

/// The entries that leave when `entries` is cut down to `max`.
pub open spec fn dropped(entries: Seq<EntryView>, max: nat) -> Seq<EntryView> {
    if entries.len() > max {
        arranged(
            entries,
            sorted_order::<UseKey>(use_ranks(entries), false).take(entries.len() - max),
        )
    } else {
        Seq::empty()
    }
}

/// `entries` in the order in which they are shown: the highest rank first,
/// ties in the order in which they stand.
pub open spec fn shown(entries: Seq<EntryView>) -> Seq<EntryView> {
    arranged(entries, sorted_order::<UseKey>(use_ranks(entries), true))
}

/// `entries` cut down to `max` and put in the order in which they are shown.
pub open spec fn settled(entries: Seq<EntryView>, max: nat) -> Seq<EntryView> {
    shown(kept(entries, max))
}

/// The first position of `entries` that holds `text`, and the length of
/// `entries` when none does.
pub open spec fn position_of(entries: Seq<EntryView>, text: Seq<char>) -> int
    decreases entries.len(),
{
    if entries.len() == 0 {
        0
    } else {
        let before = position_of(entries.drop_last(), text);
        if before < entries.len() - 1 {
            before
        } else if entries.last().text == text {
            entries.len() - 1
        } else {
            entries.len() as int
        }
    }
}

/// `entries` holds `text`.
pub open spec fn holds(entries: Seq<EntryView>, text: Seq<char>) -> bool {
    exists|i: int| 0 <= i < entries.len() && (#[trigger] entries[i]).text == text
}

/// No text stands in `entries` twice.
pub open spec fn distinct_texts(entries: Seq<EntryView>) -> bool {
    forall|i: int, j: int|
        0 <= i < j < entries.len() ==> (#[trigger] entries[i]).text != (#[trigger] entries[j]).text
}

/// The entry for a text seen for the first time.
pub open spec fn fresh(
    text: Seq<char>,
    label: Option<Seq<char>>,
    value: Option<Seq<char>>,
) -> EntryView {
    EntryView { text, preview: preview_of(text, 0, value), count: 0, last_used: label }
}

/// The entry after its text was seen again.
pub open spec fn seen_again(
    entry: EntryView,
    label: Option<Seq<char>>,
    value: Option<Seq<char>>,
) -> EntryView {
    EntryView { preview: preview_of(entry.text, entry.count, value), last_used: label, ..entry }
}

/// The number of pastes after one more; it stays at the largest number that
/// an entry can hold.
pub open spec fn one_more(count: u32) -> u32 {
    if count < u32::MAX {
        (count + 1) as u32
    } else {
        count
    }
}

/// The entry after it was pasted.
pub open spec fn pasted_once(
    entry: EntryView,
    label: Option<Seq<char>>,
    value: Option<Seq<char>>,
) -> EntryView {
    EntryView {
        preview: preview_of(entry.text, one_more(entry.count), value),
        count: one_more(entry.count),
        last_used: label,
        ..entry
    }
}

/// The entries after `text` was taken in: the entry that holds it refreshed,
/// or a fresh entry put in front; then cut down to `max` and put in order.
pub open spec fn with_observed(
    entries: Seq<EntryView>,
    text: Seq<char>,
    label: Option<Seq<char>>,
    value: Option<Seq<char>>,
    max: nat,
) -> Seq<EntryView> {
    let at = position_of(entries, text);
    if at < entries.len() {
        settled(entries.update(at, seen_again(entries[at], label, value)), max)
    } else {
        settled(seq![fresh(text, label, value)] + entries, max)
    }
}

/// The entries after `text` was pasted: the entry that holds it counted up
/// and refreshed, if there is one; then cut down to `max` and put in order.
pub open spec fn with_pasted(
    entries: Seq<EntryView>,
    text: Seq<char>,
    label: Option<Seq<char>>,
    value: Option<Seq<char>>,
    max: nat,
) -> Seq<EntryView> {
    let at = position_of(entries, text);
    if at < entries.len() {
        settled(entries.update(at, pasted_once(entries[at], label, value)), max)
    } else {
        settled(entries, max)
    }
}

/// `entries` without those whose text an earlier entry holds.
pub open spec fn first_of_each(entries: Seq<EntryView>) -> Seq<EntryView>
    decreases entries.len(),
{
    if entries.len() == 0 {
        Seq::empty()
    } else if holds(entries.drop_last(), entries.last().text) {
        first_of_each(entries.drop_last())
    } else {
        first_of_each(entries.drop_last()).push(entries.last())
    }
}

/// Keeping the first entry of each text leaves the texts that were there,
/// each once.
pub proof fn lemma_first_of_each(entries: Seq<EntryView>)
    ensures
        distinct_texts(first_of_each(entries)),
        first_of_each(entries).len() <= entries.len(),
        forall|t: Seq<char>| #[trigger] holds(first_of_each(entries), t) <==> holds(entries, t),
    decreases entries.len(),
{
    if entries.len() > 0 {
        let head = entries.drop_last();
        let last = entries.last();
        lemma_first_of_each(head);
        let out = first_of_each(entries);
        let kept = first_of_each(head);
        assert forall|t: Seq<char>| #[trigger] holds(out, t) <==> holds(entries, t) by {
            if holds(out, t) {
                let p = choose|p: int| 0 <= p < out.len() && (#[trigger] out[p]).text == t;
                if p < kept.len() {
                    assert(kept[p].text == t);
                    assert(holds(kept, t));
                    let i = choose|i: int| 0 <= i < head.len() && (#[trigger] head[i]).text == t;
                    assert(entries[i].text == t);
                } else {
                    assert(entries[entries.len() - 1].text == t);
                }
            }
            if holds(entries, t) {
                let i = choose|i: int| 0 <= i < entries.len() && (#[trigger] entries[i]).text == t;
                if i < head.len() {
                    assert(head[i].text == t);
                    assert(holds(head, t));
                    assert(holds(kept, t));
                    let p = choose|p: int| 0 <= p < kept.len() && (#[trigger] kept[p]).text == t;
                    assert(out[p].text == t);
                } else if holds(head, last.text) {
                    assert(t == last.text);
                    assert(holds(kept, t));
                    let p = choose|p: int| 0 <= p < kept.len() && (#[trigger] kept[p]).text == t;
                    assert(out[p].text == t);
                } else {
                    assert(out[kept.len() as int].text == t);
                }
            }
        }
        if !holds(head, last.text) {
            assert forall|i: int, j: int| 0 <= i < j < out.len() implies (#[trigger] out[i]).text != (
            #[trigger] out[j]).text by {
                if j == kept.len() {
                    assert(kept[i].text == out[i].text);
                    if out[i].text == last.text {
                        assert(holds(kept, last.text));
                    }
                } else {
                    assert(kept[i].text != kept[j].text);
                }
            }
        }
    }
}

/// `entries`, each with the preview that belongs to its text and count.
pub open spec fn refreshed(entries: Seq<EntryView>) -> Seq<EntryView> {
    entries.map_values(
        |e: EntryView| EntryView { preview: preview_of(e.text, e.count, math_value(e.text)), ..e },
    )
}

/// The clipboard history.
pub struct ClipboardLedger {
    /// The entries, in the order in which they are shown.
    pub entries: Vec<ClipboardEntry>,
    /// The text that was last seen on the clipboard.
    pub last_observed: String,
    /// The largest number of entries that the history keeps.
    pub max_history: usize,
}

/// What a history holds, as mathematical values.
pub struct LedgerView {
    pub entries: Seq<EntryView>,
    pub last_observed: Seq<char>,
    pub max_history: nat,
}

impl View for ClipboardLedger {
    type V = LedgerView;

    open spec fn view(&self) -> LedgerView {
        LedgerView {
            entries: views(self.entries@),
            last_observed: self.last_observed@,
            max_history: self.max_history as nat,
        }
    }
}

impl LedgerView {
    /// The history is as it should be: no text stands in it twice, and it
    /// holds no more entries than its largest number.
    pub open spec fn wf(self) -> bool {
        distinct_texts(self.entries) && self.entries.len() <= self.max_history
    }

    /// `text` on the clipboard is news: it is not empty and not what was seen
    /// last.
    pub open spec fn is_news(self, text: Seq<char>) -> bool {
        text.len() > 0 && text != self.last_observed
    }

    /// Seeing `text` on the clipboard changes the entries: it is news and
    /// does not look like a password.
    pub open spec fn takes_in(self, text: Seq<char>) -> bool {
        self.is_news(text) && !password_like(text)
    }

    /// The history after `text` was seen on the clipboard, `label` being the
    /// label of the time and `value` the value of `text` as arithmetic.
    pub open spec fn observed(
        self,
        text: Seq<char>,
        label: Option<Seq<char>>,
        value: Option<Seq<char>>,
    ) -> LedgerView {
        if !self.is_news(text) {
            self
        } else if password_like(text) {
            LedgerView { last_observed: text, ..self }
        } else {
            LedgerView {
                entries: with_observed(self.entries, text, label, value, self.max_history),
                last_observed: text,
                ..self
            }
        }
    }

    /// The history after `text` was pasted from it.
    pub open spec fn pasted(
        self,
        text: Seq<char>,
        label: Option<Seq<char>>,
        value: Option<Seq<char>>,
    ) -> LedgerView {
        LedgerView {
            entries: with_pasted(self.entries, text, label, value, self.max_history),
            ..self
        }
    }
}

/// The key of `entry`.
fn key_of(entry: &ClipboardEntry) -> (key: UseKey)
    ensures
        key.rank() == rank_of(entry@),
{
    UseKey {
        count: entry.count,
        last_used: match &entry.last_used {
            Some(s) => Some(chars_of(s.as_str())),
            None => None,
        },
    }
}

/// The keys of `entries`, in order.
fn keys_of(entries: &Vec<ClipboardEntry>) -> (keys: Vec<UseKey>)
    ensures
        ranks_of(keys@) == use_ranks(views(entries@)),
{
    let mut keys: Vec<UseKey> = Vec::new();
    let mut i: usize = 0;
    while i < entries.len()
        invariant
            i <= entries.len(),
            ranks_of(keys@) == use_ranks(views(entries@)).take(i as int),
        decreases entries.len() - i,
    {
        let key = key_of(&entries[i]);
        keys.push(key);
        proof {
            assert(ranks_of(keys@) =~= use_ranks(views(entries@)).take(i as int).push(
                rank_of(entries@[i as int]@),
            ));
            assert(use_ranks(views(entries@)).take(i + 1) =~= use_ranks(views(entries@)).take(
                i as int,
            ).push(rank_of(entries@[i as int]@)));
        }
        i += 1;
    }
    proof {
        assert(use_ranks(views(entries@)).take(entries.len() as int) == use_ranks(
            views(entries@),
        ));
    }
    keys
}

/// Copies of the entries at the positions that `order` gives from `from` on.
fn arrange(entries: &Vec<ClipboardEntry>, order: &Vec<usize>, from: usize) -> (out: Vec<
    ClipboardEntry,
>)
    requires
        from <= order@.len(),
        forall|p: int| 0 <= p < order@.len() ==> #[trigger] order@[p] < entries@.len(),
    ensures
        views(out@) == arranged(views(entries@), positions(order@).skip(from as int)),
{
    let mut out: Vec<ClipboardEntry> = Vec::new();
    let mut p: usize = from;
    let ghost target = arranged(views(entries@), positions(order@).skip(from as int));
    while p < order.len()
        invariant
            from <= p <= order@.len(),
            forall|q: int| 0 <= q < order@.len() ==> #[trigger] order@[q] < entries@.len(),
            target == arranged(views(entries@), positions(order@).skip(from as int)),
            views(out@) == target.take(p - from),
        decreases order.len() - p,
    {
        out.push(entries[order[p]].clone());
        proof {
            assert(target[p - from] == entries@[order@[p as int] as int]@);
            assert(views(out@) =~= target.take(p - from).push(target[p - from]));
            assert(target.take(p - from + 1) =~= target.take(p - from).push(target[p - from]));
        }
        p += 1;
    }
    proof {
        assert(target.take(order.len() - from) == target);
    }
    out
}

/// Cuts `entries` down to `max` and puts them in the order in which they are
/// shown. The entries of lowest rank leave first, of those that tie the ones
/// that stand first.
pub fn settle(entries: &Vec<ClipboardEntry>, max: usize) -> (out: Vec<ClipboardEntry>)
    ensures
        views(out@) == settled(views(entries@), max as nat),
{
    if entries.len() > max {
        let keys = keys_of(entries);
        let rising = stable_order(&keys, false);
        let rest = arrange(entries, &rising, entries.len() - max);
        let rest_keys = keys_of(&rest);
        let falling = stable_order(&rest_keys, true);
        proof {
            assert(positions(falling@).skip(0) == positions(falling@));
        }
        arrange(&rest, &falling, 0)
    } else {
        let keys = keys_of(entries);
        let falling = stable_order(&keys, true);
        proof {
            assert(positions(falling@).skip(0) == positions(falling@));
        }
        arrange(entries, &falling, 0)
    }
}

/// The first position of `entries` that holds `text`.
fn find_text(entries: &Vec<ClipboardEntry>, text: &String) -> (at: usize)
    ensures
        at == position_of(views(entries@), text@),
        at <= entries@.len(),
        at < entries@.len() ==> entries@[at as int]@.text == text@,
{
    let mut i: usize = 0;
    while i < entries.len()
        invariant
            i <= entries.len(),
            position_of(views(entries@).take(i as int), text@) == i,
        decreases entries.len() - i,
    {
        proof {
            assert(views(entries@).take(i + 1).drop_last() == views(entries@).take(i as int));
            assert(views(entries@).take(i + 1).last() == entries@[i as int]@);
        }
        if entries[i].text == *text {
            proof {
                lemma_position_stays(views(entries@), text@, i + 1);
            }
            return i;
        }
        i += 1;
    }
    proof {
        assert(views(entries@).take(entries.len() as int) == views(entries@));
    }
    i
}

/// Once a prefix of `entries` holds `text`, the first position that holds it
/// is the same in all of `entries`.
proof fn lemma_position_stays(entries: Seq<EntryView>, text: Seq<char>, n: int)
    requires
        0 <= n <= entries.len(),
        position_of(entries.take(n), text) < n,
    ensures
        position_of(entries, text) == position_of(entries.take(n), text),
    decreases entries.len() - n,
{
    if n == entries.len() {
        assert(entries.take(n) == entries);
    } else {
        assert(entries.take(n + 1).drop_last() == entries.take(n));
        lemma_position_stays(entries, text, n + 1);
    }
}

impl ClipboardLedger {
    /// An empty history that keeps at most `max_history` entries.
    pub fn new(max_history: usize) -> (ledger: ClipboardLedger)
        ensures
            ledger@ == (LedgerView {
                entries: Seq::empty(),
                last_observed: Seq::empty(),
                max_history: max_history as nat,
            }),
            ledger@.wf(),
    {
        let ledger = ClipboardLedger {
            entries: Vec::new(),
            last_observed: String::new(),
            max_history,
        };
        proof {
            assert(views(ledger.entries@) =~= Seq::empty());
        }
        ledger
    }

    /// The history that holds `entries`, as they come from a file: each
    /// with the preview that belongs to its text and count, the first entry of
    /// each text, cut down to `max_history` and in the order in which they
    /// are shown.
    pub fn from_entries(
        entries: Vec<ClipboardEntry>,
        max_history: usize,
    ) -> (ledger: ClipboardLedger)
        ensures
            ledger@ == (LedgerView {
                entries: settled(first_of_each(refreshed(views(entries@))), max_history as nat),
                last_observed: Seq::empty(),
                max_history: max_history as nat,
            }),
            ledger@.wf(),
    {
        let mut fresh: Vec<ClipboardEntry> = Vec::new();
        let mut i: usize = 0;
        while i < entries.len()
            invariant
                i <= entries.len(),
                views(fresh@) == refreshed(views(entries@)).take(i as int),
            decreases entries.len() - i,
        {
            let mut entry = entries[i].clone();
            entry.update_preview();
            fresh.push(entry);
            proof {
                let target = refreshed(views(entries@));
                assert(views(fresh@) =~= target.take(i as int).push(target[i as int]));
                assert(target.take(i + 1) =~= target.take(i as int).push(target[i as int]));
            }
            i += 1;
        }
        proof {
            assert(refreshed(views(entries@)).take(entries.len() as int) == refreshed(
                views(entries@),
            ));
        }
        let ghost all = views(fresh@);
        let mut firsts: Vec<ClipboardEntry> = Vec::new();
        let mut k: usize = 0;
        while k < fresh.len()
            invariant
                k <= fresh.len(),
                all == views(fresh@),
                views(firsts@) == first_of_each(all.take(k as int)),
            decreases fresh.len() - k,
        {
            proof {
                assert(all.take(k + 1).drop_last() == all.take(k as int));
                assert(all.take(k + 1).last() == fresh@[k as int]@);
                lemma_first_of_each(all.take(k as int));
                lemma_position_of(views(firsts@), fresh@[k as int]@.text);
                lemma_position_of(all.take(k as int), fresh@[k as int]@.text);
            }
            if find_text(&firsts, &fresh[k].text) >= firsts.len() {
                firsts.push(fresh[k].clone());
                proof {
                    assert(views(firsts@) =~= first_of_each(all.take(k as int)).push(
                        fresh@[k as int]@,
                    ));
                }
            }
            k += 1;
        }
        proof {
            assert(all.take(fresh.len() as int) == all);
            lemma_first_of_each(all);
            lemma_settled_distinct(first_of_each(all), max_history as nat);
            lemma_settled_len(first_of_each(all), max_history as nat);
        }
        let settled = settle(&firsts, max_history);
        ClipboardLedger { entries: settled, last_observed: String::new(), max_history }
    }

    /// The number of entries.
    pub fn len(&self) -> (n: usize)
        ensures
            n == self@.entries.len(),
    {
        self.entries.len()
    }

    /// Changes the largest number of entries that the history keeps, and
    /// cuts the entries down to it.
    pub fn set_max_history(&mut self, max_history: usize)
        ensures
            final(self)@ == (LedgerView {
                entries: settled(old(self)@.entries, max_history as nat),
                max_history: max_history as nat,
                ..old(self)@
            }),
            final(self)@.entries.len() <= max_history,
            distinct_texts(old(self)@.entries) ==> distinct_texts(final(self)@.entries),
            old(self)@.wf() ==> final(self)@.wf(),
    {
        proof {
            lemma_settled_len(old(self)@.entries, max_history as nat);
            if distinct_texts(old(self)@.entries) {
                lemma_settled_distinct(old(self)@.entries, max_history as nat);
            }
        }
        let settled = settle(&self.entries, max_history);
        self.entries = settled;
        self.max_history = max_history;
    }

    /// Takes a look at the clipboard, on which `text` stands, with the label
    /// of the time and the value of `text` as arithmetic at hand. An empty
    /// text and the text seen last change nothing. Any other text is
    /// remembered as the text seen last; one that looks like a password
    /// leaves the entries as they are. Else the entry that holds the text gets
    /// the label, or a fresh entry is put in front; the entries are cut down
    /// to the largest number and put in order. Returns whether the entries
    /// were changed.
    pub fn observe_with(
        &mut self,
        text: &str,
        label: Option<String>,
        value: &Option<String>,
    ) -> (changed: bool)
        ensures
            final(self)@ == old(self)@.observed(text@, text_of(label), text_of(*value)),
            changed == old(self)@.takes_in(text@),
            changed ==> final(self)@.entries.len() <= old(self)@.max_history,
            password_like(text@) ==> final(self)@.entries == old(self)@.entries,
            distinct_texts(old(self)@.entries) ==> distinct_texts(final(self)@.entries),
            old(self)@.wf() ==> final(self)@.wf(),
    {
        proof {
            lemma_observed(old(self)@, text@, text_of(label), text_of(*value));
        }
        let owned: String = text.to_owned();
        if text.is_empty() || owned == self.last_observed {
            return false;
        }
        if is_password_like(text) {
            self.last_observed = owned;
            return false;
        }
        let at = find_text(&self.entries, &owned);
        if at < self.entries.len() {
            let count = self.entries[at].count;
            let entry = ClipboardEntry::with_parts(owned.clone(), count, label, value);
            self.entries.set(at, entry);
            proof {
                assert(views(self.entries@) =~= old(self)@.entries.update(
                    at as int,
                    seen_again(old(self)@.entries[at as int], text_of(label), text_of(*value)),
                ));
            }
        } else {
            let entry = ClipboardEntry::with_parts(owned.clone(), 0, label, value);
            self.entries.insert(0, entry);
            proof {
                assert(views(self.entries@) =~= seq![
                    fresh(text@, text_of(label), text_of(*value)),
                ] + old(self)@.entries);
            }
        }
        let settled = settle(&self.entries, self.max_history);
        self.entries = settled;
        self.last_observed = owned;
        true
    }

    /// Takes a look at the clipboard at `now`: `observe_with`, the label
    /// being that of `now` and the value that of `text`.
    pub fn observe(&mut self, text: &str, now: Timestamp) -> (changed: bool)
        ensures
            final(self)@ == old(self)@.observed(text@, label_of(now.secs), math_value(text@)),
            changed == old(self)@.takes_in(text@),
            changed ==> final(self)@.entries.len() <= old(self)@.max_history,
            password_like(text@) ==> final(self)@.entries == old(self)@.entries,
            distinct_texts(old(self)@.entries) ==> distinct_texts(final(self)@.entries),
            old(self)@.wf() ==> final(self)@.wf(),
    {
        let label = label_at(now);
        let value = eval_math(text);
        self.observe_with(text, label, &value)
    }

    /// Records that `text` was pasted from the history, with the label of the
    /// time and the value of `text` as arithmetic at hand: the entry that
    /// holds `text`, if there is one, is counted up and gets the label. The
    /// entries are cut down to the largest number and put in order.
    pub fn record_paste_with(&mut self, text: &str, label: Option<String>, value: &Option<String>)
        ensures
            final(self)@ == old(self)@.pasted(text@, text_of(label), text_of(*value)),
            final(self)@.entries.len() <= old(self)@.max_history,
            distinct_texts(old(self)@.entries) ==> distinct_texts(final(self)@.entries),
            old(self)@.wf() ==> final(self)@.wf(),
    {
        proof {
            lemma_pasted(old(self)@, text@, text_of(label), text_of(*value));
        }
        let owned: String = text.to_owned();
        let at = find_text(&self.entries, &owned);
        if at < self.entries.len() {
            let count = self.entries[at].count;
            let more = if count < u32::MAX {
                count + 1
            } else {
                count
            };
            let entry = ClipboardEntry::with_parts(owned, more, label, value);
            self.entries.set(at, entry);
            proof {
                assert(views(self.entries@) =~= old(self)@.entries.update(
                    at as int,
                    pasted_once(old(self)@.entries[at as int], text_of(label), text_of(*value)),
                ));
            }
        }
        let settled = settle(&self.entries, self.max_history);
        self.entries = settled;
    }

    /// Records at `now` that `text` was pasted from the history:
    /// `record_paste_with`, the label being that of `now` and the value that
    /// of `text`.
    pub fn record_paste(&mut self, text: &str, now: Timestamp)
        ensures
            final(self)@ == old(self)@.pasted(text@, label_of(now.secs), math_value(text@)),
            final(self)@.entries.len() <= old(self)@.max_history,
            distinct_texts(old(self)@.entries) ==> distinct_texts(final(self)@.entries),
            old(self)@.wf() ==> final(self)@.wf(),
    {
        let label = label_at(now);
        let value = eval_math(text);
        self.record_paste_with(text, label, &value)
    }
}

/// Cutting down leaves `max` entries, or all where there are fewer; what is
/// dropped and what is kept together are as many as there were.
pub proof fn lemma_settled_len(entries: Seq<EntryView>, max: nat)
    ensures
        settled(entries, max).len() == kept(entries, max).len(),
        kept(entries, max).len() == if entries.len() > max {
            max
        } else {
            entries.len()
        },
        kept(entries, max).len() + dropped(entries, max).len() == entries.len(),
{
    lemma_sorted_order::<UseKey>(use_ranks(entries), false);
    lemma_sorted_order::<UseKey>(use_ranks(kept(entries, max)), true);
}

/// The entries in the order in which they are shown are the same entries:
/// each position of `entries` is shown once. No entry is shown before one of
/// higher rank, and entries of one rank are shown in the order in which they
/// stand.
pub proof fn lemma_shown(entries: Seq<EntryView>)
    ensures
        shown(entries).len() == entries.len(),
        permutes(sorted_order::<UseKey>(use_ranks(entries), true), entries.len()),
        forall|p: int, q: int|
            0 <= p < q < entries.len() ==> !UseKey::rank_below(
                rank_of(#[trigger] shown(entries)[p]),
                rank_of(#[trigger] shown(entries)[q]),
            ),
{
    let order = sorted_order::<UseKey>(use_ranks(entries), true);
    lemma_sorted_order::<UseKey>(use_ranks(entries), true);
    assert forall|p: int, q: int| 0 <= p < q < entries.len() implies !UseKey::rank_below(
        rank_of(#[trigger] shown(entries)[p]),
        rank_of(#[trigger] shown(entries)[q]),
    ) by {
        assert(use_ranks(entries)[order[p]] == rank_of(entries[order[p]]));
        assert(use_ranks(entries)[order[q]] == rank_of(entries[order[q]]));
    }
}

/// Eviction removes the lowest first: no entry that is kept ranks below an
/// entry that is dropped.
pub proof fn lemma_dropped_lowest(entries: Seq<EntryView>, max: nat, d: int, k: int)
    requires
        0 <= d < dropped(entries, max).len(),
        0 <= k < kept(entries, max).len(),
    ensures
        !UseKey::rank_below(rank_of(kept(entries, max)[k]), rank_of(dropped(entries, max)[d])),
{
    let rising = sorted_order::<UseKey>(use_ranks(entries), false);
    lemma_sorted_order::<UseKey>(use_ranks(entries), false);
    let cut = entries.len() - max;
    assert(rising.skip(cut)[k] == rising[cut + k]);
    assert(rising.take(cut)[d] == rising[d]);
    assert(use_ranks(entries)[rising[d]] == rank_of(entries[rising[d]]));
    assert(use_ranks(entries)[rising[cut + k]] == rank_of(entries[rising[cut + k]]));
}

/// Each entry of `entries` is either kept or dropped.
pub proof fn lemma_kept_or_dropped(entries: Seq<EntryView>, max: nat, i: int)
    requires
        0 <= i < entries.len(),
    ensures
        (exists|k: int| 0 <= k < kept(entries, max).len() && kept(entries, max)[k] == entries[i])
            || (exists|d: int|
            0 <= d < dropped(entries, max).len() && dropped(entries, max)[d] == entries[i]),
{
    if entries.len() > max {
        let rising = sorted_order::<UseKey>(use_ranks(entries), false);
        lemma_sorted_order::<UseKey>(use_ranks(entries), false);
        let p = crate::order::lemma_sorted_prefix_onto::<UseKey>(
            use_ranks(entries),
            entries.len(),
            false,
            i,
        );
        let cut = entries.len() - max;
        if p < cut {
            assert(dropped(entries, max)[p] == entries[rising.take(cut)[p]]);
        } else {
            assert(kept(entries, max)[p - cut] == entries[rising.skip(cut)[p - cut]]);
        }
    } else {
        assert(kept(entries, max)[i] == entries[i]);
    }
}

/// What is shown after cutting down was among the entries before, and was
/// kept.
pub proof fn lemma_settled_from(entries: Seq<EntryView>, max: nat, p: int) -> (at: (int, int))
    requires
        0 <= p < settled(entries, max).len(),
    ensures
        0 <= at.0 < kept(entries, max).len(),
        settled(entries, max)[p] == kept(entries, max)[at.0],
        0 <= at.1 < entries.len(),
        settled(entries, max)[p] == entries[at.1],
{
    let rest = kept(entries, max);
    lemma_sorted_order::<UseKey>(use_ranks(rest), true);
    let falling = sorted_order::<UseKey>(use_ranks(rest), true);
    let k = falling[p];
    if entries.len() > max {
        let rising = sorted_order::<UseKey>(use_ranks(entries), false);
        lemma_sorted_order::<UseKey>(use_ranks(entries), false);
        let cut = entries.len() - max;
        assert(rising.skip(cut)[k] == rising[cut + k]);
        (k, rising[cut + k])
    } else {
        (k, k)
    }
}

/// Cutting down and ordering never makes a text stand twice.
pub proof fn lemma_settled_distinct(entries: Seq<EntryView>, max: nat)
    requires
        distinct_texts(entries),
    ensures
        distinct_texts(settled(entries, max)),
{
    let rest = kept(entries, max);
    assert(distinct_texts(rest)) by {
        if entries.len() > max {
            let rising = sorted_order::<UseKey>(use_ranks(entries), false);
            lemma_sorted_order::<UseKey>(use_ranks(entries), false);
            let cut = entries.len() - max;
            assert forall|i: int, j: int| 0 <= i < j < rest.len() implies (#[trigger] rest[i]).text
                != (#[trigger] rest[j]).text by {
                assert(rising.skip(cut)[i] == rising[cut + i]);
                assert(rising.skip(cut)[j] == rising[cut + j]);
                let a = rising[cut + i];
                let b = rising[cut + j];
                assert(a != b);
                if a < b {
                    assert(entries[a].text != entries[b].text);
                } else {
                    assert(entries[b].text != entries[a].text);
                }
            }
        }
    }
    let falling = sorted_order::<UseKey>(use_ranks(rest), true);
    lemma_sorted_order::<UseKey>(use_ranks(rest), true);
    let out = settled(entries, max);
    assert forall|i: int, j: int| 0 <= i < j < out.len() implies (#[trigger] out[i]).text != (
    #[trigger] out[j]).text by {
        let a = falling[i];
        let b = falling[j];
        assert(a != b);
        if a < b {
            assert(rest[a].text != rest[b].text);
        } else {
            assert(rest[b].text != rest[a].text);
        }
    }
}

/// `position_of` finds a text exactly when the entries hold it, and what it
/// finds holds the text.
pub proof fn lemma_position_of(entries: Seq<EntryView>, text: Seq<char>)
    ensures
        0 <= position_of(entries, text) <= entries.len(),
        position_of(entries, text) < entries.len() <==> holds(entries, text),
        position_of(entries, text) < entries.len() ==> entries[position_of(entries, text)].text
            == text,
        forall|i: int| 0 <= i < position_of(entries, text) ==> (#[trigger] entries[i]).text != text,
    decreases entries.len(),
{
    if entries.len() > 0 {
        let head = entries.drop_last();
        lemma_position_of(head, text);
        let at = position_of(entries, text);
        assert forall|i: int| 0 <= i < at implies (#[trigger] entries[i]).text != text by {
            if i < head.len() {
                assert(head[i] == entries[i]);
            }
        }
        if position_of(head, text) < head.len() {
            assert(head[position_of(head, text)] == entries[position_of(head, text)]);
        }
        if at == entries.len() && holds(entries, text) {
            let i = choose|i: int| 0 <= i < entries.len() && (#[trigger] entries[i]).text == text;
            assert(false);
        }
    }
}

/// After a look at the clipboard the history holds no more than its largest
/// number of entries, provided that the entries were changed; no text stands
/// in it twice if none did before; and it holds no text that it did not hold
/// before, but for the text that was seen and taken in.
pub proof fn lemma_observed(
    ledger: LedgerView,
    text: Seq<char>,
    label: Option<Seq<char>>,
    value: Option<Seq<char>>,
)
    ensures
        ledger.takes_in(text) ==> ledger.observed(text, label, value).entries.len()
            <= ledger.max_history,
        ledger.entries.len() <= ledger.max_history ==> ledger.observed(
            text,
            label,
            value,
        ).entries.len() <= ledger.max_history,
        distinct_texts(ledger.entries) ==> distinct_texts(
            ledger.observed(text, label, value).entries,
        ),
        forall|t: Seq<char>| #[trigger]
            holds(ledger.observed(text, label, value).entries, t) ==> holds(ledger.entries, t) || (t
                == text && ledger.takes_in(text)),
{
    let after = ledger.observed(text, label, value).entries;
    if ledger.takes_in(text) {
        let at = position_of(ledger.entries, text);
        lemma_position_of(ledger.entries, text);
        let mid = if at < ledger.entries.len() {
            ledger.entries.update(at, seen_again(ledger.entries[at], label, value))
        } else {
            seq![fresh(text, label, value)] + ledger.entries
        };
        assert(after == settled(mid, ledger.max_history));
        lemma_settled_len(mid, ledger.max_history);
        if distinct_texts(ledger.entries) {
            assert(distinct_texts(mid)) by {
                assert forall|i: int, j: int| 0 <= i < j < mid.len() implies (#[trigger] mid[i]).text
                    != (#[trigger] mid[j]).text by {
                    if at < ledger.entries.len() {
                        assert(mid[i].text == ledger.entries[i].text);
                        assert(mid[j].text == ledger.entries[j].text);
                    } else {
                        assert(mid[j] == ledger.entries[j - 1]);
                        if i > 0 {
                            assert(mid[i] == ledger.entries[i - 1]);
                        }
                    }
                }
            }
            lemma_settled_distinct(mid, ledger.max_history);
        }
        assert forall|t: Seq<char>| #[trigger] holds(after, t) implies holds(ledger.entries, t) || (t
            == text && ledger.takes_in(text)) by {
            let p = choose|p: int| 0 <= p < after.len() && (#[trigger] after[p]).text == t;
            let from = lemma_settled_from(mid, ledger.max_history, p);
            let i = from.1;
            if at < ledger.entries.len() {
                assert(mid[i].text == ledger.entries[i].text);
            } else if i > 0 {
                assert(mid[i] == ledger.entries[i - 1]);
            }
        }
    }
}

/// A text that looks like a password never enters the history: whatever is
/// seen on the clipboard, a history that does not hold the text does not hold
/// it afterwards.
pub proof fn lemma_password_never_enters(
    ledger: LedgerView,
    seen: Seq<char>,
    label: Option<Seq<char>>,
    value: Option<Seq<char>>,
    secret: Seq<char>,
)
    requires
        password_like(secret),
        !holds(ledger.entries, secret),
    ensures
        !holds(ledger.observed(seen, label, value).entries, secret),
        password_like(seen) ==> ledger.observed(seen, label, value).entries == ledger.entries,
{
    lemma_observed(ledger, seen, label, value);
}

/// After a paste the history holds no more than its largest number of
/// entries; no text stands in it twice if none did before; and it holds no
/// text that it did not hold before.
pub proof fn lemma_pasted(
    ledger: LedgerView,
    text: Seq<char>,
    label: Option<Seq<char>>,
    value: Option<Seq<char>>,
)
    ensures
        ledger.pasted(text, label, value).entries.len() <= ledger.max_history,
        distinct_texts(ledger.entries) ==> distinct_texts(ledger.pasted(text, label, value).entries),
        forall|t: Seq<char>| #[trigger]
            holds(ledger.pasted(text, label, value).entries, t) ==> holds(ledger.entries, t),
{
    let after = ledger.pasted(text, label, value).entries;
    let at = position_of(ledger.entries, text);
    lemma_position_of(ledger.entries, text);
    let mid = if at < ledger.entries.len() {
        ledger.entries.update(at, pasted_once(ledger.entries[at], label, value))
    } else {
        ledger.entries
    };
    assert(after == settled(mid, ledger.max_history));
    lemma_settled_len(mid, ledger.max_history);
    if distinct_texts(ledger.entries) {
        assert(distinct_texts(mid)) by {
            assert forall|i: int, j: int| 0 <= i < j < mid.len() implies (#[trigger] mid[i]).text != (
            #[trigger] mid[j]).text by {
                assert(mid[i].text == ledger.entries[i].text);
                assert(mid[j].text == ledger.entries[j].text);
            }
        }
        lemma_settled_distinct(mid, ledger.max_history);
    }
    assert forall|t: Seq<char>| #[trigger] holds(after, t) implies holds(ledger.entries, t) by {
        let p = choose|p: int| 0 <= p < after.len() && (#[trigger] after[p]).text == t;
        let from = lemma_settled_from(mid, ledger.max_history, p);
        assert(mid[from.1].text == ledger.entries[from.1].text);
    }
}

/// A text that is seen twice in a row is taken in once: the second look
/// changes nothing.
pub proof fn lemma_repeat_is_ignored(
    ledger: LedgerView,
    text: Seq<char>,
    label: Option<Seq<char>>,
    value: Option<Seq<char>>,
    again: Option<Seq<char>>,
)
    ensures
        ledger.observed(text, label, value).observed(text, again, value) == ledger.observed(
            text,
            label,
            value,
        ),
{
}

/// Every entry is shown: what stands in `entries` stands in `shown(entries)`.
pub proof fn lemma_shown_holds_all(entries: Seq<EntryView>, i: int) -> (p: int)
    requires
        0 <= i < entries.len(),
    ensures
        0 <= p < shown(entries).len(),
        shown(entries)[p] == entries[i],
{
    lemma_sorted_order::<UseKey>(use_ranks(entries), true);
    crate::order::lemma_sorted_prefix_onto::<UseKey>(use_ranks(entries), entries.len(), true, i)
}

/// A paste is counted: in a history within its bound, after a paste of a
/// text that it holds, the entry of the text has been pasted once more and
/// carries the new label.
pub proof fn lemma_paste_counts_up(
    ledger: LedgerView,
    text: Seq<char>,
    label: Option<Seq<char>>,
    value: Option<Seq<char>>,
) -> (p: int)
    requires
        ledger.entries.len() <= ledger.max_history,
        holds(ledger.entries, text),
    ensures
        0 <= p < ledger.pasted(text, label, value).entries.len(),
        ledger.pasted(text, label, value).entries[p] == pasted_once(
            ledger.entries[position_of(ledger.entries, text)],
            label,
            value,
        ),
        ledger.pasted(text, label, value).entries.len() == ledger.entries.len(),
{
    lemma_position_of(ledger.entries, text);
    let at = position_of(ledger.entries, text);
    let mid = ledger.entries.update(at, pasted_once(ledger.entries[at], label, value));
    lemma_settled_len(mid, ledger.max_history);
    assert(kept(mid, ledger.max_history) == mid);
    lemma_shown_holds_all(mid, at)
}

} // verus!
