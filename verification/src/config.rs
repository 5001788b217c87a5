//! The launcher's settings: what is pinned, the shortcuts, and the limits
//! and thresholds that the other parts read.

use vstd::prelude::*;

verus! {

/// What kind of thing a launch item is.
#[derive(Clone, Copy, Debug, PartialEq, Eq, Structural)]
pub enum ItemType {
    Program,
    Document,
    Shortcut,
}

impl Default for ItemType {
    fn default() -> (kind: ItemType)
        ensures
            kind == ItemType::Program,
    {
        ItemType::Program
    }
}

/// The desktop that the launcher runs on.
#[derive(Clone, Copy, Debug, PartialEq, Eq, Structural)]
pub enum Platform {
    Linux,
    MacOs,
    Windows,
}

/// Something that can be launched: a program, a document or a shortcut.
#[derive(Debug)]
pub struct LaunchItem {
    /// The name under which it is shown.
    pub name: String,
    /// The path of the executable or the document.
    pub path: String,
    /// The path of an icon.
    pub icon: Option<String>,
    /// The arguments that a program is started with.
    pub args: Vec<String>,
    /// The kind of the item.
    pub item_type: ItemType,
}

/// The texts of `strings`, in order.
pub open spec fn texts(strings: Seq<String>) -> Seq<Seq<char>> {
    strings.map_values(|s: String| s@)
}

/// What a launch item holds, as mathematical values.
pub struct ItemView {
    pub name: Seq<char>,
    pub path: Seq<char>,
    pub icon: Option<Seq<char>>,
    pub args: Seq<Seq<char>>,
    pub item_type: ItemType,
}

impl View for LaunchItem {
    type V = ItemView;

    open spec fn view(&self) -> ItemView {
        ItemView {
            name: self.name@,
            path: self.path@,
            icon: crate::text::text_of(self.icon),
            args: texts(self.args@),
            item_type: self.item_type,
        }
    }
}

/// A copy of `strings`.
pub fn clone_strings(strings: &Vec<String>) -> (copy: Vec<String>)
    ensures
        texts(copy@) == texts(strings@),
        copy@.len() == strings@.len(),
{
    let mut copy: Vec<String> = Vec::new();
    let mut i: usize = 0;
    while i < strings.len()
        invariant
            i <= strings.len(),
            copy@.len() == i,
            texts(copy@) == texts(strings@).take(i as int),
        decreases strings.len() - i,
    {
        copy.push(strings[i].clone());
        proof {
            let t = texts(strings@);
            assert(texts(copy@) =~= t.take(i as int).push(t[i as int]));
            assert(t.take(i + 1) =~= t.take(i as int).push(t[i as int]));
        }
        i += 1;
    }
    proof {
        assert(texts(strings@).take(strings.len() as int) == texts(strings@));
    }
    copy
}

impl Clone for LaunchItem {
    fn clone(&self) -> (copy: LaunchItem)
        ensures
            copy@ == self@,
    {
        LaunchItem {
            name: self.name.clone(),
            path: self.path.clone(),
            icon: match &self.icon {
                Some(s) => Some(s.clone()),
                None => None,
            },
            args: clone_strings(&self.args),
            item_type: self.item_type,
        }
    }
}

/// What the items of `items` hold, in order.
pub open spec fn item_views(items: Seq<LaunchItem>) -> Seq<ItemView> {
    items.map_values(|i: LaunchItem| i@)
}

/// One of `items` has the path `path`.
pub open spec fn has_path(items: Seq<ItemView>, path: Seq<char>) -> bool {
    exists|i: int| 0 <= i < items.len() && (#[trigger] items[i]).path == path
}

/// `items` with `item` pinned: added at the end, unless an item with its path
/// is pinned already.
pub open spec fn pinned(items: Seq<ItemView>, item: ItemView) -> Seq<ItemView> {
    if has_path(items, item.path) {
        items
    } else {
        items.push(item)
    }
}

/// `items` without those that have the path `path`.
pub open spec fn unpinned(items: Seq<ItemView>, path: Seq<char>) -> Seq<ItemView> {
    items.filter(|i: ItemView| i.path != path)
}

/// `list` with `text` pinned: added at the end, unless it is pinned already.
pub open spec fn pinned_text(list: Seq<Seq<char>>, text: Seq<char>) -> Seq<Seq<char>> {
    if list.contains(text) {
        list
    } else {
        list.push(text)
    }
}

/// `list` without `text`.
pub open spec fn unpinned_text(list: Seq<Seq<char>>, text: Seq<char>) -> Seq<Seq<char>> {
    list.filter(|t: Seq<char>| t != text)
}

/// Whether one of `items` has the path `path`.
pub fn holds_path(items: &Vec<LaunchItem>, path: &String) -> (found: bool)
    ensures
        found == has_path(item_views(items@), path@),
{
    let mut i: usize = 0;
    while i < items.len()
        invariant
            i <= items.len(),
            forall|k: int| 0 <= k < i ==> (#[trigger] item_views(items@)[k]).path != path@,
        decreases items.len() - i,
    {
        if items[i].path == *path {
            proof {
                assert(item_views(items@)[i as int].path == path@);
            }
            return true;
        }
        i += 1;
    }
    false
}

/// Whether `list` holds `text`.
pub fn holds_text(list: &Vec<String>, text: &String) -> (found: bool)
    ensures
        found == texts(list@).contains(text@),
{
    let mut i: usize = 0;
    while i < list.len()
        invariant
            i <= list.len(),
            forall|k: int| 0 <= k < i ==> #[trigger] texts(list@)[k] != text@,
        decreases list.len() - i,
    {
        if list[i] == *text {
            proof {
                assert(texts(list@)[i as int] == text@);
            }
            return true;
        }
        i += 1;
    }
    false
}

/// Pins `item` in `items`, unless an item with its path is pinned already.
fn pin_in(items: &mut Vec<LaunchItem>, item: LaunchItem)
    ensures
        item_views(final(items)@) == pinned(item_views(old(items)@), item@),
{
    if !holds_path(items, &item.path) {
        items.push(item);
        proof {
            assert(item_views(items@) =~= item_views(old(items)@).push(item@));
        }
    }
}

/// Takes the items with the path `path` out of `items`.
fn unpin_in(items: &mut Vec<LaunchItem>, path: &str)
    ensures
        item_views(final(items)@) == unpinned(item_views(old(items)@), path@),
{
    let owned: String = path.to_owned();
    let mut rest: Vec<LaunchItem> = Vec::new();
    let ghost all = item_views(items@);
    let ghost keep = |i: ItemView| i.path != path@;
    let mut i: usize = 0;
    while i < items.len()
        invariant
            i <= items.len(),
            *items == *old(items),
            all == item_views(items@),
            owned@ == path@,
            keep == |i: ItemView| i.path != path@,
            item_views(rest@) == all.take(i as int).filter(keep),
        decreases items.len() - i,
    {
        proof {
            assert(all.take(i + 1).drop_last() == all.take(i as int));
            assert(all.take(i + 1).last() == items@[i as int]@);
            reveal(Seq::filter);
        }
        if items[i].path != owned {
            rest.push(items[i].clone());
            proof {
                assert(item_views(rest@) =~= all.take(i as int).filter(keep).push(
                    items@[i as int]@,
                ));
            }
        }
        i += 1;
    }
    proof {
        assert(all.take(items.len() as int) == all);
    }
    *items = rest;
}

/// The thresholds of the chord detection.
#[derive(Clone, Copy, Debug)]
pub struct TriggerConfig {
    /// Largest time between the two presses of a chord, in milliseconds.
    pub simultaneous_threshold_ms: u64,
    /// Smallest time between two triggers, in milliseconds.
    pub debounce_ms: u64,
}

/// The number of frequent programs, and of recent documents, shown unless
/// the settings say otherwise.
pub fn default_max_frequent() -> (n: usize)
    ensures
        n == 5,
{
    5
}

/// The number of clipboard entries kept unless the settings say otherwise.
pub fn default_max_clipboard() -> (n: usize)
    ensures
        n == 10000,
{
    10000
}

/// The threshold of a chord unless the settings say otherwise, in
/// milliseconds.
pub fn default_simultaneous_threshold() -> (ms: u64)
    ensures
        ms == 200,
{
    200
}

/// The debounce time unless the settings say otherwise, in milliseconds.
pub fn default_debounce() -> (ms: u64)
    ensures
        ms == 500,
{
    500
}

/// Whether the popup is dark unless the settings say otherwise.
pub fn default_dark_mode() -> (dark: bool)
    ensures
        dark,
{
    true
}

impl Default for TriggerConfig {
    fn default() -> (config: TriggerConfig)
        ensures
            config.simultaneous_threshold_ms == 200,
            config.debounce_ms == 500,
    {
        TriggerConfig {
            simultaneous_threshold_ms: default_simultaneous_threshold(),
            debounce_ms: default_debounce(),
        }
    }
}

/// The settings of the popup that the decisions of this crate read. Its
/// measures are kept by the program that draws it.
#[derive(Clone, Copy, Debug)]
pub struct UiConfig {
    pub dark_mode: bool,
}

impl Default for UiConfig {
    fn default() -> (config: UiConfig)
        ensures
            config.dark_mode,
    {
        UiConfig { dark_mode: default_dark_mode() }
    }
}

/// The settings of the launcher.
#[derive(Debug)]
pub struct Config {
    /// The programs that the user pinned, one for each path.
    pub pinned_programs: Vec<LaunchItem>,
    /// The documents that the user pinned, one for each path.
    pub pinned_documents: Vec<LaunchItem>,
    /// Shortcuts such as locking the screen.
    pub shortcuts: Vec<LaunchItem>,
    /// The clipboard texts that the user pinned, each once.
    pub pinned_clipboard: Vec<String>,
    /// The largest number of frequent programs shown.
    pub max_frequent_programs: usize,
    /// The largest number of recent documents shown.
    pub max_frequent_documents: usize,
    /// The largest number of entries of the clipboard history.
    pub max_clipboard_history: usize,
    /// The thresholds of the chord detection.
    pub trigger: TriggerConfig,
    /// The settings of the popup.
    pub ui: UiConfig,
}

/// What the settings hold, as mathematical values.
pub struct ConfigView {
    pub pinned_programs: Seq<ItemView>,
    pub pinned_documents: Seq<ItemView>,
    pub shortcuts: Seq<ItemView>,
    pub pinned_clipboard: Seq<Seq<char>>,
    pub max_frequent_programs: usize,
    pub max_frequent_documents: usize,
    pub max_clipboard_history: usize,
    pub trigger: TriggerConfig,
    pub ui: UiConfig,
}

impl View for Config {
    type V = ConfigView;

    open spec fn view(&self) -> ConfigView {
        ConfigView {
            pinned_programs: item_views(self.pinned_programs@),
            pinned_documents: item_views(self.pinned_documents@),
            shortcuts: item_views(self.shortcuts@),
            pinned_clipboard: texts(self.pinned_clipboard@),
            max_frequent_programs: self.max_frequent_programs,
            max_frequent_documents: self.max_frequent_documents,
            max_clipboard_history: self.max_clipboard_history,
            trigger: self.trigger,
            ui: self.ui,
        }
    }
}

/// The command that locks the screen on `platform`.
pub open spec fn lock_command(platform: Platform) -> Seq<char> {
    match platform {
        Platform::Linux => "loginctl"@,
        Platform::MacOs => "pmset"@,
        Platform::Windows => "rundll32.exe"@,
    }
}

/// The argument with which `lock_command` locks the screen.
pub open spec fn lock_argument(platform: Platform) -> Seq<char> {
    match platform {
        Platform::Linux => "lock-session"@,
        Platform::MacOs => "displaysleepnow"@,
        Platform::Windows => "user32.dll,LockWorkStation"@,
    }
}

/// The shortcut that locks the screen on `platform`.
pub open spec fn lock_screen(platform: Platform) -> ItemView {
    ItemView {
        name: "Lock Screen"@,
        path: lock_command(platform),
        icon: None,
        args: seq![lock_argument(platform)],
        item_type: ItemType::Shortcut,
    }
}

/// The settings of a launcher that was never configured, on `platform`.
pub open spec fn default_view(platform: Platform) -> ConfigView {
    ConfigView {
        pinned_programs: Seq::empty(),
        pinned_documents: Seq::empty(),
        shortcuts: seq![lock_screen(platform)],
        pinned_clipboard: Seq::empty(),
        max_frequent_programs: 5,
        max_frequent_documents: 5,
        max_clipboard_history: 10000,
        trigger: TriggerConfig { simultaneous_threshold_ms: 200, debounce_ms: 500 },
        ui: UiConfig { dark_mode: true },
    }
}

impl Default for Config {
    /// The settings of a launcher that was never configured, on Linux.
    fn default() -> (config: Config)
        ensures
            config@ == default_view(Platform::Linux),
    {
        Config::for_platform(Platform::Linux)
    }
}

impl Config {
    /// The settings of a launcher that was never configured, on `platform`:
    /// nothing pinned, one shortcut that locks the screen, and the default
    /// limits and thresholds.
    pub fn for_platform(platform: Platform) -> (config: Config)
        ensures
            config@ == default_view(platform),
    {
        let (command, argument) = match platform {
            Platform::Linux => ("loginctl", "lock-session"),
            Platform::MacOs => ("pmset", "displaysleepnow"),
            Platform::Windows => ("rundll32.exe", "user32.dll,LockWorkStation"),
        };
        let mut args: Vec<String> = Vec::new();
        args.push(argument.to_owned());
        let mut shortcuts: Vec<LaunchItem> = Vec::new();
        shortcuts.push(
            LaunchItem {
                name: "Lock Screen".to_owned(),
                path: command.to_owned(),
                icon: None,
                args,
                item_type: ItemType::Shortcut,
            },
        );
        let config = Config {
            pinned_programs: Vec::new(),
            pinned_documents: Vec::new(),
            shortcuts,
            pinned_clipboard: Vec::new(),
            max_frequent_programs: default_max_frequent(),
            max_frequent_documents: default_max_frequent(),
            max_clipboard_history: default_max_clipboard(),
            trigger: TriggerConfig::default(),
            ui: UiConfig::default(),
        };
        proof {
            assert(texts(config.shortcuts@[0].args@) =~= seq![lock_argument(platform)]);
            assert(config@.shortcuts =~= seq![lock_screen(platform)]);
            assert(config@.pinned_programs =~= Seq::empty());
            assert(config@.pinned_documents =~= Seq::empty());
            assert(config@.pinned_clipboard =~= Seq::empty());
        }
        config
    }

    /// Pins a program, unless a program with its path is pinned already.
    pub fn pin_program(&mut self, item: LaunchItem)
        ensures
            final(self)@ == (ConfigView {
                pinned_programs: pinned(old(self)@.pinned_programs, item@),
                ..old(self)@
            }),
    {
        pin_in(&mut self.pinned_programs, item);
    }

    /// Pins a document, unless a document with its path is pinned already.
    pub fn pin_document(&mut self, item: LaunchItem)
        ensures
            final(self)@ == (ConfigView {
                pinned_documents: pinned(old(self)@.pinned_documents, item@),
                ..old(self)@
            }),
    {
        pin_in(&mut self.pinned_documents, item);
    }

    /// Pins an item where it belongs: a document among the documents, a
    /// program or a shortcut among the programs.
    pub fn pin_item(&mut self, item: LaunchItem)
        ensures
            item.item_type == ItemType::Document ==> final(self)@ == (ConfigView {
                pinned_documents: pinned(old(self)@.pinned_documents, item@),
                ..old(self)@
            }),
            item.item_type != ItemType::Document ==> final(self)@ == (ConfigView {
                pinned_programs: pinned(old(self)@.pinned_programs, item@),
                ..old(self)@
            }),
    {
        match item.item_type {
            ItemType::Program | ItemType::Shortcut => self.pin_program(item),
            ItemType::Document => self.pin_document(item),
        }
    }

    /// Takes the program with the path `path` from the pinned programs.
    pub fn unpin_program(&mut self, path: &str)
        ensures
            final(self)@ == (ConfigView {
                pinned_programs: unpinned(old(self)@.pinned_programs, path@),
                ..old(self)@
            }),
    {
        unpin_in(&mut self.pinned_programs, path);
    }

    /// Takes the document with the path `path` from the pinned documents.
    pub fn unpin_document(&mut self, path: &str)
        ensures
            final(self)@ == (ConfigView {
                pinned_documents: unpinned(old(self)@.pinned_documents, path@),
                ..old(self)@
            }),
    {
        unpin_in(&mut self.pinned_documents, path);
    }

    /// Adds a shortcut at the end of the shortcuts.
    pub fn add_shortcut(&mut self, item: LaunchItem)
        ensures
            final(self)@ == (ConfigView {
                shortcuts: old(self)@.shortcuts.push(item@),
                ..old(self)@
            }),
    {
        self.shortcuts.push(item);
        proof {
            assert(item_views(self.shortcuts@) =~= old(self)@.shortcuts.push(item@));
        }
    }

    /// Pins a clipboard text, unless it is pinned already.
    pub fn pin_clipboard(&mut self, text: String)
        ensures
            final(self)@ == (ConfigView {
                pinned_clipboard: pinned_text(old(self)@.pinned_clipboard, text@),
                ..old(self)@
            }),
    {
        if !holds_text(&self.pinned_clipboard, &text) {
            self.pinned_clipboard.push(text);
            proof {
                assert(texts(self.pinned_clipboard@) =~= old(self)@.pinned_clipboard.push(text@));
            }
        }
    }

    /// Takes a text from the pinned clipboard texts.
    pub fn unpin_clipboard(&mut self, text: &str)
        ensures
            final(self)@ == (ConfigView {
                pinned_clipboard: unpinned_text(old(self)@.pinned_clipboard, text@),
                ..old(self)@
            }),
    {
        let owned: String = text.to_owned();
        let mut rest: Vec<String> = Vec::new();
        let ghost all = texts(self.pinned_clipboard@);
        let ghost keep = |t: Seq<char>| t != text@;
        let mut i: usize = 0;
        while i < self.pinned_clipboard.len()
            invariant
                i <= self.pinned_clipboard.len(),
                *self == *old(self),
                all == texts(self.pinned_clipboard@),
                owned@ == text@,
                keep == |t: Seq<char>| t != text@,
                texts(rest@) == all.take(i as int).filter(keep),
            decreases self.pinned_clipboard.len() - i,
        {
            proof {
                assert(all.take(i + 1).drop_last() == all.take(i as int));
                assert(all.take(i + 1).last() == self.pinned_clipboard@[i as int]@);
                reveal(Seq::filter);
            }
            if self.pinned_clipboard[i] != owned {
                rest.push(self.pinned_clipboard[i].clone());
                proof {
                    assert(texts(rest@) =~= all.take(i as int).filter(keep).push(
                        self.pinned_clipboard@[i as int]@,
                    ));
                }
            }
            i += 1;
        }
        proof {
            assert(all.take(self.pinned_clipboard.len() as int) == all);
        }
        self.pinned_clipboard = rest;
    }
}

/// Two pins of one path leave one pinned item, and a pin followed by an
/// unpin of its path leaves no item with that path.
pub proof fn lemma_pin_once(items: Seq<ItemView>, item: ItemView)
    ensures
        pinned(pinned(items, item), item) == pinned(items, item),
        has_path(pinned(items, item), item.path),
{
    let once = pinned(items, item);
    if !has_path(items, item.path) {
        assert(once[items.len() as int].path == item.path);
    }
}

} // verus!
