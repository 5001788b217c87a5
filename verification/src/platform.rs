//! What the launcher knows of the desktop it runs on: where the desktop
//! keeps its lists of recent files and installed programs, how those lists
//! are read, and how an item is started. Files are read and programs are
//! started by the program around this crate.

pub mod desktop;
pub mod history;
pub mod linux;
pub mod macos;
pub mod paths;
pub mod recent;
pub mod windows;

use crate::config::{item_views, ItemType, ItemView, LaunchItem, Platform};
use crate::order::{arranged, positions, ranks_of, sorted_order, stable_order};
use crate::text::{chars_of, same_chars};
use crate::platform::linux::LinuxDataSource;
use crate::platform::macos::MacOSDataSource;
use crate::platform::windows::WindowsDataSource;
use vstd::prelude::*;

verus! {

/// Why a data source could not answer.
#[derive(Debug)]
pub enum SourceError {
    /// A file or a directory could not be read.
    Unreadable(String),
    /// An item could not be started.
    LaunchFailed(String),
    /// An item holds no command to start.
    EmptyCommand,
}

/// The lists that a desktop offers, and the starting of an item. The answers
/// come from files and processes: nothing is promised of them.
pub trait PlatformDataSource {
    /// The files that were used last, the most recent first, at most `limit`.
    fn recent_files(&self, limit: usize) -> Result<Vec<LaunchItem>, SourceError>;

    /// The programs that are installed.
    fn installed_apps(&self) -> Result<Vec<LaunchItem>, SourceError>;

    /// The programs that are used most, at most `limit`.
    fn frequent_programs(&self, limit: usize) -> Result<Vec<LaunchItem>, SourceError>;

    /// Starts an item.
    fn launch(&self, item: &LaunchItem) -> Result<(), SourceError>;
}

/// A command to run: the program and its arguments.
#[derive(Debug)]
pub struct LaunchPlan {
    pub program: String,
    pub args: Vec<String>,
}

/// What a command holds, as mathematical values.
pub struct PlanView {
    pub program: Seq<char>,
    pub args: Seq<Seq<char>>,
}

impl View for LaunchPlan {
    type V = PlanView;

    open spec fn view(&self) -> PlanView {
        PlanView { program: self.program@, args: crate::config::texts(self.args@) }
    }
}

/// The knowledge of one of the three desktops.
#[derive(Debug)]
pub enum DataSource {
    Linux(LinuxDataSource),
    MacOs(MacOSDataSource),
    Windows(WindowsDataSource),
}

/// The data source of `platform`, for a user whose home directory is `home`.
pub fn get_data_source(platform: Platform, home: Option<String>) -> (source: DataSource)
    ensures
        match platform {
            Platform::Linux => source matches DataSource::Linux(s) && s.home_dir@
                == crate::platform::linux::home_or_default(crate::text::text_of(home)),
            Platform::MacOs => source matches DataSource::MacOs(s) && s.home_dir@
                == crate::platform::macos::home_or_default(crate::text::text_of(home)),
            Platform::Windows => source is Windows,
        },
{
    match platform {
        Platform::Linux => DataSource::Linux(LinuxDataSource::new(home)),
        Platform::MacOs => DataSource::MacOs(MacOSDataSource::new(home)),
        Platform::Windows => DataSource::Windows(WindowsDataSource::new()),
    }
}

/// The items that are taken from an answer: those it holds, and none where
/// the source failed.
pub open spec fn answered(answer: Result<Vec<LaunchItem>, SourceError>) -> Seq<ItemView> {
    match answer {
        Ok(found) => item_views(found@),
        Err(_) => Seq::empty(),
    }
}

/// The lists of frequent programs and recent documents that the popup starts
/// with. `source` is asked for at most `max_frequent_programs` frequent
/// programs and for at most `max_frequent_documents` recent files, once each;
/// each answer is taken as `items_or_none` takes it: the items that it holds,
/// and none where the source failed. The first list is the one of the
/// programs, the second the one of the documents. What the source answers is
/// for the source to say: see `frequent_answer` and `recent_answer`.
pub fn refresh_lists<P: PlatformDataSource>(
    source: &P,
    max_frequent_programs: usize,
    max_frequent_documents: usize,
) -> (lists: (Vec<LaunchItem>, Vec<LaunchItem>))
    ensures
        frequent_answer(source, max_frequent_programs, item_views(lists.0@)),
        recent_answer(source, max_frequent_documents, item_views(lists.1@)),
{
    let frequent = source.frequent_programs(max_frequent_programs);
    let recent = source.recent_files(max_frequent_documents);
    proof {
        assert(call_ensures(P::frequent_programs, (source, max_frequent_programs), frequent));
        assert(call_ensures(P::recent_files, (source, max_frequent_documents), recent));
    }
    let programs = items_or_none(frequent);
    let documents = items_or_none(recent);
    (programs, documents)
}

/// `items` is what is taken from an answer that `source` may give when it is
/// asked for at most `limit` frequent programs.
pub open spec fn frequent_answer<P: PlatformDataSource>(
    source: &P,
    limit: usize,
    items: Seq<ItemView>,
) -> bool {
    exists|answer: Result<Vec<LaunchItem>, SourceError>|
        #[trigger] call_ensures(P::frequent_programs, (source, limit), answer) && items
            == answered(answer)
}

/// `items` is what is taken from an answer that `source` may give when it is
/// asked for at most `limit` recent files.
pub open spec fn recent_answer<P: PlatformDataSource>(
    source: &P,
    limit: usize,
    items: Seq<ItemView>,
) -> bool {
    exists|answer: Result<Vec<LaunchItem>, SourceError>|
        #[trigger] call_ensures(P::recent_files, (source, limit), answer) && items == answered(
            answer,
        )
}

/// The items of an answer, and none where the source failed.
pub fn items_or_none(answer: Result<Vec<LaunchItem>, SourceError>) -> (items: Vec<LaunchItem>)
    ensures
        answer matches Ok(found) ==> items == found,
        answer is Err ==> items@.len() == 0,
        item_views(items@) == answered(answer),
{
    match answer {
        Ok(found) => found,
        Err(_) => {
            let none: Vec<LaunchItem> = Vec::new();
            proof {
                assert(item_views(none@) =~= Seq::empty());
            }
            none
        },
    }
}

/// The item of a document at `path`, shown under `name`.
pub fn document_item(name: String, path: String) -> (item: LaunchItem)
    ensures
        item@ == (crate::config::ItemView {
            name: name@,
            path: path@,
            icon: None,
            args: Seq::empty(),
            item_type: ItemType::Document,
        }),
{
    let item = LaunchItem { name, path, icon: None, args: Vec::new(), item_type: ItemType::Document };
    proof {
        assert(crate::config::texts(item.args@) =~= Seq::empty());
    }
    item
}

/// The item of a program started by `path`, shown under `name`.
pub fn program_item(name: String, path: String, icon: Option<String>) -> (item: LaunchItem)
    ensures
        item@ == (crate::config::ItemView {
            name: name@,
            path: path@,
            icon: crate::text::text_of(icon),
            args: Seq::empty(),
            item_type: ItemType::Program,
        }),
{
    let item = LaunchItem { name, path, icon, args: Vec::new(), item_type: ItemType::Program };
    proof {
        assert(crate::config::texts(item.args@) =~= Seq::empty());
    }
    item
}

/// The names of `items`, in order.
pub open spec fn names_of(items: Seq<ItemView>) -> Seq<Seq<char>> {
    items.map_values(|i: ItemView| i.name)
}

/// `items` without those that have the name of the item just before them.
pub open spec fn without_repeats(items: Seq<ItemView>) -> Seq<ItemView>
    decreases items.len(),
{
    if items.len() == 0 {
        Seq::empty()
    } else if items.len() >= 2 && items[items.len() - 2].name == items.last().name {
        without_repeats(items.drop_last())
    } else {
        without_repeats(items.drop_last()).push(items.last())
    }
}

/// `items` in the order of their names, one for each name: of items with one
/// name the one that stands first.
pub open spec fn one_per_name(items: Seq<ItemView>) -> Seq<ItemView> {
    without_repeats(arranged(items, sorted_order::<Vec<char>>(names_of(items), false)))
}

/// Puts `items` in the order of their names and keeps one for each name, the
/// one that stands first in `items`.
pub fn unique_by_name(items: &Vec<LaunchItem>) -> (out: Vec<LaunchItem>)
    ensures
        item_views(out@) == one_per_name(item_views(items@)),
{
    let mut names: Vec<Vec<char>> = Vec::new();
    let mut i: usize = 0;
    while i < items.len()
        invariant
            i <= items.len(),
            ranks_of(names@) == names_of(item_views(items@)).take(i as int),
        decreases items.len() - i,
    {
        names.push(chars_of(items[i].name.as_str()));
        proof {
            let t = names_of(item_views(items@));
            assert(ranks_of(names@) =~= t.take(i as int).push(t[i as int]));
            assert(t.take(i + 1) =~= t.take(i as int).push(t[i as int]));
        }
        i += 1;
    }
    proof {
        let t = names_of(item_views(items@));
        assert(t.take(items.len() as int) == t);
        assert(names@.len() == ranks_of(names@).len());
        assert forall|p: int| 0 <= p < names@.len() implies (#[trigger] names@[p])@
            == items@[p]@.name by {
            assert(ranks_of(names@)[p] == names@[p]@);
            assert(t[p] == items@[p]@.name);
        }
    }
    let order = stable_order(&names, false);
    let ghost sorted = arranged(item_views(items@), positions(order@));
    let mut out: Vec<LaunchItem> = Vec::new();
    let mut k: usize = 0;
    while k < order.len()
        invariant
            k <= order.len(),
            order@.len() == items@.len(),
            names@.len() == items@.len(),
            forall|p: int| 0 <= p < order@.len() ==> #[trigger] order@[p] < items@.len(),
            forall|p: int| 0 <= p < names@.len() ==> (#[trigger] names@[p])@ == items@[p]@.name,
            sorted == arranged(item_views(items@), positions(order@)),
            item_views(out@) == without_repeats(sorted.take(k as int)),
        decreases order.len() - k,
    {
        proof {
            assert(sorted.take(k + 1).drop_last() == sorted.take(k as int));
            assert(sorted.take(k + 1).last() == items@[order@[k as int] as int]@);
            if k > 0 {
                assert(sorted.take(k + 1)[k - 1] == items@[order@[k - 1] as int]@);
            }
        }
        let repeat = k > 0 && same_chars(&names[order[k]], &names[order[k - 1]]);
        if !repeat {
            out.push(items[order[k]].clone());
            proof {
                assert(item_views(out@) =~= without_repeats(sorted.take(k as int)).push(
                    items@[order@[k as int] as int]@,
                ));
            }
        }
        k += 1;
    }
    proof {
        assert(sorted.take(order.len() as int) == sorted);
    }
    out
}

} // verus!
