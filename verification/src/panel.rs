//! What the popup offers: which items and clipboard entries it lists, under
//! which number an item is reached, and when it closes.

use crate::clipboard::{views, ClipboardEntry, EntryView};
use crate::config::{
    has_path, holds_path, holds_text, item_views, texts, Config, ConfigView, ItemView, LaunchItem,
};
use crate::clock::Timestamp;
use crate::fuzzy::{fuzzy_score, fuzzy_value};
use crate::platform::{PlatformDataSource, SourceError};
use crate::text::{
    byte_len, byte_len_capped, chars_of, prefix_len_within, prefix_within, string_of,
};
use crate::usage::UsageTracker;
use vstd::prelude::*;

verus! {

/// The number of clipboard entries that the popup lists.
pub const CLIPBOARD_DISPLAY_LIMIT: usize = 10;

/// The number of clipboard entries that a search looks at before the pinned
/// ones are taken out.
pub const CLIPBOARD_SEARCH_LIMIT: usize = 50;

/// Longest pinned clipboard text, in bytes, that is shown whole.
pub const PINNED_PREVIEW_BYTES: usize = 47;

/// The frames after which a popup that has lost the focus closes.
pub const FOCUS_GRACE_FRAMES: u32 = 10;

/// The first `limit` of `items`, or all where there are fewer.
pub open spec fn first_of_them<T>(items: Seq<T>, limit: nat) -> Seq<T> {
    items.take(if limit < items.len() {
        limit as int
    } else {
        items.len() as int
    })
}

/// The items of `candidates` that the popup lists beside the pinned ones:
/// those whose path is not pinned, at most `limit`.
pub open spec fn listed(
    candidates: Seq<ItemView>,
    pinned: Seq<ItemView>,
    limit: nat,
) -> Seq<ItemView> {
    first_of_them(candidates.filter(|c: ItemView| !has_path(pinned, c.path)), limit)
}

/// The items that the popup lists beside the pinned ones: see `listed`.
pub fn visible_items(
    candidates: &Vec<LaunchItem>,
    pinned: &Vec<LaunchItem>,
    limit: usize,
) -> (out: Vec<LaunchItem>)
    ensures
        item_views(out@) == listed(item_views(candidates@), item_views(pinned@), limit as nat),
        out@.len() <= limit,
{
    let ghost all = item_views(candidates@);
    let ghost free = |c: ItemView| !has_path(item_views(pinned@), c.path);
    let mut out: Vec<LaunchItem> = Vec::new();
    let mut i: usize = 0;
    while i < candidates.len()
        invariant
            i <= candidates.len(),
            all == item_views(candidates@),
            free == |c: ItemView| !has_path(item_views(pinned@), c.path),
            out@.len() <= limit,
            item_views(out@) == first_of_them(all.take(i as int).filter(free), limit as nat),
        decreases candidates.len() - i,
    {
        proof {
            assert(all.take(i + 1).drop_last() == all.take(i as int));
            assert(all.take(i + 1).last() == candidates@[i as int]@);
            reveal(Seq::filter);
            assert(item_views(out@).len() == out@.len());
        }
        let ghost head = all.take(i as int).filter(free);
        if !holds_path(pinned, &candidates[i].path) {
            if out.len() < limit {
                proof {
                    assert(head.take(head.len() as int) == head);
                }
                out.push(candidates[i].clone());
                proof {
                    assert(item_views(out@) =~= head.push(candidates@[i as int]@));
                }
            } else {
                proof {
                    assert(head.push(candidates@[i as int]@).take(limit as int) =~= head.take(
                        limit as int,
                    ));
                }
            }
        }
        i += 1;
    }
    proof {
        assert(all.take(candidates.len() as int) == all);
    }
    out
}

/// The items that the number keys reach, in order: the pinned programs, the
/// frequent programs, the pinned documents, the recent documents and the
/// shortcuts.
pub open spec fn numbered(
    config: ConfigView,
    frequent: Seq<ItemView>,
    recent: Seq<ItemView>,
) -> Seq<ItemView> {
    config.pinned_programs + frequent + config.pinned_documents + recent + config.shortcuts
}

/// The item that the key with the number `number` launches: the key `1`
/// the first of `numbered`, and so on; a key without an item launches
/// nothing.
pub fn numbered_item(
    config: &Config,
    frequent: &Vec<LaunchItem>,
    recent: &Vec<LaunchItem>,
    number: usize,
) -> (item: Option<LaunchItem>)
    ensures
        item is Some <==> 1 <= number <= numbered(
            config@,
            item_views(frequent@),
            item_views(recent@),
        ).len(),
        item matches Some(i) ==> i@ == numbered(config@, item_views(frequent@), item_views(recent@))[
            number - 1],
{
    if number == 0 {
        return None;
    }
    let mut index: usize = number - 1;
    if index < config.pinned_programs.len() {
        return Some(config.pinned_programs[index].clone());
    }
    index = index - config.pinned_programs.len();
    if index < frequent.len() {
        return Some(frequent[index].clone());
    }
    index = index - frequent.len();
    if index < config.pinned_documents.len() {
        return Some(config.pinned_documents[index].clone());
    }
    index = index - config.pinned_documents.len();
    if index < recent.len() {
        return Some(recent[index].clone());
    }
    index = index - recent.len();
    if index < config.shortcuts.len() {
        return Some(config.shortcuts[index].clone());
    }
    None
}

/// A pinned clipboard text as the popup shows it: whole up to 47 bytes; of a
/// longer text the longest run of whole characters in its first 47 bytes,
/// and three dots.
pub open spec fn pinned_preview_of(text: Seq<char>) -> Seq<char> {
    if byte_len(text) > PINNED_PREVIEW_BYTES {
        text.take(prefix_within(text, PINNED_PREVIEW_BYTES as nat) as int) + seq!['.', '.', '.']
    } else {
        text
    }
}

/// Builds what the popup shows of a pinned clipboard text: see
/// `pinned_preview_of`.
pub fn pinned_preview(text: &str) -> (preview: String)
    ensures
        preview@ == pinned_preview_of(text@),
{
    let chars = chars_of(text);
    if byte_len_capped(&chars, PINNED_PREVIEW_BYTES) > PINNED_PREVIEW_BYTES {
        let n = prefix_len_within(&chars, PINNED_PREVIEW_BYTES);
        let mut out = crate::text::slice_chars(&chars, 0, n);
        out.push('.');
        out.push('.');
        out.push('.');
        proof {
            assert(out@ =~= text@.take(n as int) + seq!['.', '.', '.']);
        }
        string_of(&out)
    } else {
        string_of(&chars)
    }
}

/// Whether the popup shows the pinned clipboard text `text` while `query`
/// stands in the search box: always while the box is empty, else when the
/// query scores against the text.
pub fn shows_pinned(query: &str, text: &str) -> (shown: bool)
    ensures
        shown == (query@.len() == 0 || fuzzy_value(query@, text@) != 0),
{
    query.is_empty() || fuzzy_score(query, text) != 0
}

/// The entries of `results` that the popup lists: those whose text is not
/// pinned, at most `limit`.
pub open spec fn listed_entries(results: Seq<EntryView>, pinned: Seq<Seq<char>>, limit: nat) -> Seq<
    EntryView,
> {
    first_of_them(results.filter(|e: EntryView| !pinned.contains(e.text)), limit)
}

/// The clipboard entries that the popup lists: see `listed_entries`.
pub fn visible_entries(
    results: &Vec<ClipboardEntry>,
    pinned: &Vec<String>,
    limit: usize,
) -> (out: Vec<ClipboardEntry>)
    ensures
        views(out@) == listed_entries(views(results@), texts(pinned@), limit as nat),
        out@.len() <= limit,
{
    let ghost all = views(results@);
    let ghost free = |e: EntryView| !texts(pinned@).contains(e.text);
    let mut out: Vec<ClipboardEntry> = Vec::new();
    let mut i: usize = 0;
    while i < results.len()
        invariant
            i <= results.len(),
            all == views(results@),
            free == |e: EntryView| !texts(pinned@).contains(e.text),
            out@.len() <= limit,
            views(out@) == first_of_them(all.take(i as int).filter(free), limit as nat),
        decreases results.len() - i,
    {
        proof {
            assert(all.take(i + 1).drop_last() == all.take(i as int));
            assert(all.take(i + 1).last() == results@[i as int]@);
            reveal(Seq::filter);
            assert(views(out@).len() == out@.len());
        }
        let ghost head = all.take(i as int).filter(free);
        if !holds_text(pinned, &results[i].text) {
            if out.len() < limit {
                proof {
                    assert(head.take(head.len() as int) == head);
                }
                out.push(results[i].clone());
                proof {
                    assert(views(out@) =~= head.push(results@[i as int]@));
                }
            } else {
                proof {
                    assert(head.push(results@[i as int]@).take(limit as int) =~= head.take(
                        limit as int,
                    ));
                }
            }
        }
        i += 1;
    }
    proof {
        assert(all.take(results.len() as int) == all);
    }
    out
}

/// Starts `item` through `source` and, when that worked, records the
/// launch at `now`. Returns whether the item was started: then the popup
/// closes. An item that could not be started leaves the usage as it was.
pub fn launch_item<P: PlatformDataSource>(
    source: &P,
    tracker: &mut UsageTracker,
    item: &LaunchItem,
    now: Timestamp,
) -> (started: bool)
    ensures
        launch_answer(source, item, started),
        !started ==> *final(tracker) == *old(tracker),
        started ==> final(tracker).dirty && final(tracker).data@ == old(tracker).data@.with_item(
            item@,
            now,
        ),
        old(tracker).data@.wf() ==> final(tracker).data@.wf(),
{
    let outcome = source.launch(item);
    proof {
        assert(call_ensures(P::launch, (source, item), outcome));
    }
    record_outcome(tracker, item, now, &outcome)
}

/// Takes note of how the start of `item` at `now` went: an item that was
/// started is recorded as launched, one that was not leaves the usage as it
/// was. Returns whether the item was started.
pub fn record_outcome(
    tracker: &mut UsageTracker,
    item: &LaunchItem,
    now: Timestamp,
    outcome: &Result<(), SourceError>,
) -> (started: bool)
    ensures
        started == (*outcome is Ok),
        !started ==> *final(tracker) == *old(tracker),
        started ==> final(tracker).dirty && final(tracker).data@ == old(tracker).data@.with_item(
            item@,
            now,
        ),
        old(tracker).data@.wf() ==> final(tracker).data@.wf(),
{
    match outcome {
        Ok(()) => {
            tracker.record_item(item, now);
            true
        },
        Err(_) => false,
    }
}

/// `started` tells how a start of `item` through `source` may have gone.
pub open spec fn launch_answer<P: PlatformDataSource>(
    source: &P,
    item: &LaunchItem,
    started: bool,
) -> bool {
    exists|outcome: Result<(), SourceError>|
        #[trigger] call_ensures(P::launch, (source, item), outcome) && started == (outcome is Ok)
}

/// The shortcut that the dialog adds for a name and a path: none for an empty
/// name.
pub fn new_shortcut(name: &str, path: &str) -> (item: Option<LaunchItem>)
    ensures
        item is Some <==> name@.len() > 0,
        item matches Some(i) ==> i@ == (ItemView {
            name: name@,
            path: path@,
            icon: None,
            args: Seq::empty(),
            item_type: crate::config::ItemType::Shortcut,
        }),
{
    if name.is_empty() {
        None
    } else {
        let item = LaunchItem {
            name: name.to_owned(),
            path: path.to_owned(),
            icon: None,
            args: Vec::new(),
            item_type: crate::config::ItemType::Shortcut,
        };
        proof {
            assert(texts(item.args@) =~= Seq::empty());
        }
        Some(item)
    }
}

/// Whether a popup that is drawn for the `frames`-th time closes because it
/// does not have the focus: only after the first ten frames, which a window
/// may need to get it.
pub fn closes_without_focus(frames: u32, focused: bool) -> (closes: bool)
    ensures
        closes == (frames > FOCUS_GRACE_FRAMES && !focused),
{
    frames > FOCUS_GRACE_FRAMES && !focused
}

} // verus!
