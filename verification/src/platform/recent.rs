//! The list of recently used files that a Linux desktop keeps: an XML file
//! with one `bookmark` element for each file.

use crate::config::{item_views, ItemView, LaunchItem};
use crate::order::{arranged, positions, ranks_of, sorted_order, stable_order};
use crate::platform::document_item;
use crate::platform::linux::{decode, url_decoded};
use crate::platform::paths::{base_name, file_name};
use crate::text::{chars_of, has_prefix, slice_chars, starts_with, string_of};
use vstd::prelude::*;

verus! {

/// The reader of `quick_xml`, which hands out the parts of an XML text one
/// after the other.
#[verifier::external_type_specification]
#[verifier::external_body]
#[verifier::reject_recursive_types(R)]
pub struct ExReader<R>(quick_xml::Reader<R>);

/// An attribute of an element.
#[derive(Debug)]
pub struct Attribute {
    pub key: String,
    pub value: String,
}

/// A part of an XML text, as far as the list of recent files is concerned.
#[derive(Debug)]
pub enum MarkupEvent {
    /// The start of an element, with its name and attributes.
    Start(String, Vec<Attribute>),
    /// The end of an element, with its name.
    End(String),
    /// The end of the text.
    Eof,
    /// The text is no XML from here on.
    Failed,
    /// Anything else: text, comments, empty elements.
    Other,
}

/// One file of the list of recent files.
#[derive(Debug)]
pub struct RecentItem {
    /// The address of the file.
    pub href: String,
    /// The time at which the file was last changed, as the list writes it.
    pub modified: String,
    /// The kind of the file.
    pub mime_type: String,
}

/// What an entry of the list holds, as mathematical values.
pub struct RecentView {
    pub href: Seq<char>,
    pub modified: Seq<char>,
    pub mime_type: Seq<char>,
}

impl View for RecentItem {
    type V = RecentView;

    open spec fn view(&self) -> RecentView {
        RecentView { href: self.href@, modified: self.modified@, mime_type: self.mime_type@ }
    }
}

impl Clone for RecentItem {
    fn clone(&self) -> (copy: RecentItem)
        ensures
            copy@ == self@,
    {
        RecentItem {
            href: self.href.clone(),
            modified: self.modified.clone(),
            mime_type: self.mime_type.clone(),
        }
    }
}

/// What the entries of `items` hold, in order.
pub open spec fn recent_views(items: Seq<RecentItem>) -> Seq<RecentView> {
    items.map_values(|i: RecentItem| i@)
}

/// The value of the last of `attributes` with the key `key`, and `default`
/// where none has it.
pub open spec fn attribute_value(
    attributes: Seq<Attribute>,
    key: Seq<char>,
    default: Seq<char>,
) -> Seq<char>
    decreases attributes.len(),
{
    if attributes.len() == 0 {
        default
    } else if attributes.last().key@ == key {
        attributes.last().value@
    } else {
        attribute_value(attributes.drop_last(), key, default)
    }
}

/// How far the reading of the list has come: the entries that are complete,
/// the entry that is open, and whether the reading has ended.
pub struct Collecting {
    pub items: Seq<RecentView>,
    pub open: Option<RecentView>,
    pub ended: bool,
}

/// The reading before the first part.
pub open spec fn collecting_start() -> Collecting {
    Collecting { items: Seq::empty(), open: None, ended: false }
}

/// The reading after one more part. The start of a `bookmark` opens an entry
/// with its address and the time of its last change; the start of a
/// `mime:mime-type` gives the open entry its kind; the end of a `bookmark`
/// completes the open entry. The end of the text and a failure end the
/// reading.
pub open spec fn collect(state: Collecting, event: MarkupEvent) -> Collecting {
    if state.ended {
        state
    } else {
        match event {
            MarkupEvent::Start(name, attributes) => {
                if name@ == "bookmark"@ {
                    Collecting {
                        open: Some(
                            RecentView {
                                href: attribute_value(attributes@, "href"@, Seq::empty()),
                                modified: attribute_value(attributes@, "modified"@, Seq::empty()),
                                mime_type: Seq::empty(),
                            },
                        ),
                        ..state
                    }
                } else if name@ == "mime:mime-type"@ {
                    match state.open {
                        Some(item) => Collecting {
                            open: Some(
                                RecentView {
                                    mime_type: attribute_value(attributes@, "type"@, item.mime_type),
                                    ..item
                                },
                            ),
                            ..state
                        },
                        None => state,
                    }
                } else {
                    state
                }
            },
            MarkupEvent::End(name) => {
                if name@ == "bookmark"@ {
                    match state.open {
                        Some(item) => Collecting {
                            items: state.items.push(item),
                            open: None,
                            ..state
                        },
                        None => state,
                    }
                } else {
                    state
                }
            },
            MarkupEvent::Eof => Collecting { ended: true, ..state },
            MarkupEvent::Failed => Collecting { ended: true, ..state },
            MarkupEvent::Other => state,
        }
    }
}

/// The reading after the first `n` of `events`.
pub open spec fn collected_upto(events: Seq<MarkupEvent>, n: nat) -> Collecting
    decreases n,
{
    if n == 0 {
        collecting_start()
    } else {
        collect(collected_upto(events, (n - 1) as nat), events[n - 1])
    }
}

/// The entries that `events` describe, in the order of the text.
pub open spec fn collected(events: Seq<MarkupEvent>) -> Seq<RecentView> {
    collected_upto(events, events.len()).items
}

/// The times of the last change of `items`, in order.
pub open spec fn changes_of(items: Seq<RecentView>) -> Seq<Seq<char>> {
    items.map_values(|i: RecentView| i.modified)
}

/// `items` with the one that was changed last first; entries of one time
/// stay in their order.
pub open spec fn newest_first(items: Seq<RecentView>) -> Seq<RecentView> {
    arranged(items, sorted_order::<Vec<char>>(changes_of(items), true))
}

/// Computes `attribute_value`.
fn value_of_attribute(attributes: &Vec<Attribute>, key: &str, default: String) -> (value: String)
    ensures
        value@ == attribute_value(attributes@, key@, default@),
{
    let wanted: String = key.to_owned();
    let mut i: usize = attributes.len();
    proof {
        assert(attributes@.take(attributes.len() as int) == attributes@);
    }
    while i > 0
        invariant
            i <= attributes.len(),
            wanted@ == key@,
            attribute_value(attributes@, key@, default@) == attribute_value(
                attributes@.take(i as int),
                key@,
                default@,
            ),
        decreases i,
    {
        proof {
            assert(attributes@.take(i as int).drop_last() == attributes@.take(i - 1));
            assert(attributes@.take(i as int).last() == attributes@[i - 1]);
        }
        if attributes[i - 1].key == wanted {
            return attributes[i - 1].value.clone();
        }
        i -= 1;
    }
    default
}

/// Whether `s` is the text `literal`.
fn is_named(s: &String, literal: &str) -> (r: bool)
    ensures
        r == (s@ == literal@),
{
    let other: String = literal.to_owned();
    *s == other
}

/// Collects the entries that `events` describe: see `collect`.
pub fn recent_items_from(events: &Vec<MarkupEvent>) -> (items: Vec<RecentItem>)
    ensures
        recent_views(items@) == collected(events@),
{
    let mut items: Vec<RecentItem> = Vec::new();
    let mut open: Option<RecentItem> = None;
    let mut ended = false;
    let mut i: usize = 0;
    while i < events.len()
        invariant
            i <= events.len(),
            recent_views(items@) == collected_upto(events@, i as nat).items,
            ended == collected_upto(events@, i as nat).ended,
            open is Some <==> collected_upto(events@, i as nat).open is Some,
            open matches Some(item) ==> collected_upto(events@, i as nat).open == Some(item@),
        decreases events.len() - i,
    {
        if !ended {
            match &events[i] {
                MarkupEvent::Start(name, attributes) => {
                    if is_named(name, "bookmark") {
                        open = Some(
                            RecentItem {
                                href: value_of_attribute(attributes, "href", String::new()),
                                modified: value_of_attribute(attributes, "modified", String::new()),
                                mime_type: String::new(),
                            },
                        );
                    } else if is_named(name, "mime:mime-type") {
                        match open {
                            Some(item) => {
                                let kind = value_of_attribute(
                                    attributes,
                                    "type",
                                    item.mime_type.clone(),
                                );
                                open = Some(
                                    RecentItem {
                                        href: item.href,
                                        modified: item.modified,
                                        mime_type: kind,
                                    },
                                );
                            },
                            None => {
                                open = None;
                            },
                        }
                    }
                },
                MarkupEvent::End(name) => {
                    if is_named(name, "bookmark") {
                        match open {
                            Some(item) => {
                                let ghost before = recent_views(items@);
                                items.push(item);
                                proof {
                                    assert(recent_views(items@) =~= before.push(item@));
                                }
                                open = None;
                            },
                            None => {
                                open = None;
                            },
                        }
                    }
                },
                MarkupEvent::Eof => {
                    ended = true;
                },
                MarkupEvent::Failed => {
                    ended = true;
                },
                MarkupEvent::Other => {},
            }
        }
        i += 1;
    }
    items
}

/// Puts `items` in order, the one that was changed last first: see
/// `newest_first`.
pub fn sort_newest_first(items: &Vec<RecentItem>) -> (out: Vec<RecentItem>)
    ensures
        recent_views(out@) == newest_first(recent_views(items@)),
{
    let mut keys: Vec<Vec<char>> = Vec::new();
    let mut i: usize = 0;
    while i < items.len()
        invariant
            i <= items.len(),
            ranks_of(keys@) == changes_of(recent_views(items@)).take(i as int),
        decreases items.len() - i,
    {
        keys.push(chars_of(items[i].modified.as_str()));
        proof {
            let t = changes_of(recent_views(items@));
            assert(ranks_of(keys@) =~= t.take(i as int).push(t[i as int]));
            assert(t.take(i + 1) =~= t.take(i as int).push(t[i as int]));
        }
        i += 1;
    }
    proof {
        let t = changes_of(recent_views(items@));
        assert(t.take(items.len() as int) == t);
    }
    let order = stable_order(&keys, true);
    let ghost target = arranged(recent_views(items@), positions(order@));
    let mut out: Vec<RecentItem> = Vec::new();
    let mut k: usize = 0;
    while k < order.len()
        invariant
            k <= order.len(),
            order@.len() == items@.len(),
            forall|p: int| 0 <= p < order@.len() ==> #[trigger] order@[p] < items@.len(),
            target == arranged(recent_views(items@), positions(order@)),
            recent_views(out@) == target.take(k as int),
        decreases order.len() - k,
    {
        out.push(items[order[k]].clone());
        proof {
            assert(target[k as int] == items@[order@[k as int] as int]@);
            assert(recent_views(out@) =~= target.take(k as int).push(target[k as int]));
            assert(target.take(k + 1) =~= target.take(k as int).push(target[k as int]));
        }
        k += 1;
    }
    proof {
        assert(target.take(order.len() as int) == target);
    }
    out
}

/// `Reader::from_str` of `quick_xml`, with `Config::trim_text` switched on:
/// a reader at the start of `content`.
#[verifier::external_body]
fn open_reader<'a>(content: &'a str) -> quick_xml::Reader<&'a [u8]> {
    let mut reader = quick_xml::Reader::from_str(content);
    reader.config_mut().trim_text(true);
    reader
}

/// `Reader::read_event` of `quick_xml`: the next part of the text, of which
/// the names and attributes of elements are kept. Attributes that the
/// reader cannot make out are left out. What comes depends on how far the
/// reader has read: nothing is promised of it.
#[verifier::external_body]
fn next_event(reader: &mut quick_xml::Reader<&[u8]>) -> MarkupEvent {
    match reader.read_event() {
        Ok(quick_xml::events::Event::Start(e)) => MarkupEvent::Start(
            e.name().as_ref().to_string(),
            e.attributes().flatten().map(|a| Attribute {
                key: a.key.as_ref().to_string(),
                value: a.value.to_string(),
            }).collect(),
        ),
        Ok(quick_xml::events::Event::End(e)) => MarkupEvent::End(e.name().as_ref().to_string()),
        Ok(quick_xml::events::Event::Eof) => MarkupEvent::Eof,
        Ok(_) => MarkupEvent::Other,
        Err(_) => MarkupEvent::Failed,
    }
}

/// Reads the list of recent files from the text of its file: the entries
/// that the parts of the text describe, the one that was changed last first.
/// The parts are read until the text ends or fails, and no more of them
/// than the text has bytes, and one.
pub fn parse_recently_used(content: &str) -> (items: Vec<RecentItem>)
    ensures
        exists|events: Seq<MarkupEvent>|
            events.len() <= content@.len() * 4 + 1 && recent_views(items@) == newest_first(
                collected(events),
            ),
{
    let mut reader = open_reader(content);
    let mut events: Vec<MarkupEvent> = Vec::new();
    let bytes = content.len();
    proof {
        vstd::utf8::encode_utf8_valid_utf8(content@);
        lemma_encoded_len(content@);
    }
    let mut left: usize = bytes;
    let mut first = true;
    while first || left > 0
        invariant
            events@.len() + left <= bytes + (if first { 0int } else { 1int }),
            bytes <= content@.len() * 4,
        decreases left + (if first { 1int } else { 0int }),
    {
        if first {
            first = false;
        } else {
            left -= 1;
        }
        let event = next_event(&mut reader);
        let stop = match &event {
            MarkupEvent::Eof => true,
            MarkupEvent::Failed => true,
            _ => false,
        };
        events.push(event);
        if stop {
            break ;
        }
    }
    let found = recent_items_from(&events);
    let sorted = sort_newest_first(&found);
    proof {
        assert(events@.len() <= content@.len() * 4 + 1 && recent_views(sorted@) == newest_first(
            collected(events@),
        ));
    }
    sorted
}

/// A text takes at most four bytes for each of its characters.
proof fn lemma_encoded_len(chars: Seq<char>)
    ensures
        vstd::utf8::encode_utf8(chars).len() <= chars.len() * 4,
    decreases chars.len(),
{
    reveal_with_fuel(vstd::utf8::encode_utf8, 2);
    if chars.len() > 0 {
        lemma_encoded_len(chars.drop_first());
    }
}

/// The address with which the path of a local file starts.
pub open spec fn file_scheme() -> Seq<char> {
    "file://"@
}

/// The document that the address `href` stands for: the address of a local
/// file, with a path that can be decoded and that names a file.
pub open spec fn candidate_of(href: Seq<char>) -> Option<ItemView> {
    if starts_with(href, file_scheme()) {
        match url_decoded(href.skip(7)) {
            Ok(path) => match base_name(path) {
                Some(name) => Some(
                    ItemView {
                        name,
                        path,
                        icon: None,
                        args: Seq::empty(),
                        item_type: crate::config::ItemType::Document,
                    },
                ),
                None => None,
            },
            Err(_) => None,
        }
    } else {
        None
    }
}

/// The document that an address stands for: see `candidate_of`.
pub fn recent_candidate(href: &str) -> (item: Option<LaunchItem>)
    ensures
        item is Some <==> candidate_of(href@) is Some,
        item matches Some(i) ==> candidate_of(href@) == Some(i@),
{
    let chars = chars_of(href);
    let scheme = chars_of("file://");
    proof {
        reveal_strlit("file://");
    }
    if !has_prefix(&chars, &scheme) {
        return None;
    }
    let rest = slice_chars(&chars, 7, chars.len());
    proof {
        assert(chars@.subrange(7, chars@.len() as int) =~= href@.skip(7));
    }
    let rest = string_of(&rest);
    match decode(rest.as_str()) {
        Ok(path) => match file_name(path.as_str()) {
            Some(name) => Some(document_item(name, path)),
            None => None,
        },
        Err(_) => None,
    }
}

/// The documents that the entries of `items` stand for, in order, without
/// the entries that stand for none.
pub open spec fn candidates_upto(items: Seq<RecentView>, n: nat) -> Seq<ItemView>
    decreases n,
{
    if n == 0 {
        Seq::empty()
    } else {
        match candidate_of(items[n - 1].href) {
            Some(item) => candidates_upto(items, (n - 1) as nat).push(item),
            None => candidates_upto(items, (n - 1) as nat),
        }
    }
}

/// The documents of the list of recent files: see `candidates_upto`. Which
/// of them still exist is for the caller to find out.
pub fn recent_candidates(items: &Vec<RecentItem>) -> (out: Vec<LaunchItem>)
    ensures
        item_views(out@) == candidates_upto(recent_views(items@), items@.len()),
{
    let mut out: Vec<LaunchItem> = Vec::new();
    let mut i: usize = 0;
    while i < items.len()
        invariant
            i <= items.len(),
            item_views(out@) == candidates_upto(recent_views(items@), i as nat),
        decreases items.len() - i,
    {
        match recent_candidate(items[i].href.as_str()) {
            Some(item) => {
                let ghost before = item_views(out@);
                proof {
                    assert(recent_views(items@)[i as int] == items@[i as int]@);
                }
                out.push(item);
                proof {
                    assert(item_views(out@) =~= before.push(item@));
                }
            },
            None => {
                proof {
                    assert(recent_views(items@)[i as int] == items@[i as int]@);
                }
            },
        }
        i += 1;
    }
    out
}

} // verus!
