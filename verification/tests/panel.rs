use launcher_core::clipboard::ClipboardEntry;
use launcher_core::clock::Timestamp;
use launcher_core::config::{Config, ItemType, LaunchItem};
use launcher_core::panel::{
    closes_without_focus, launch_item, new_shortcut, numbered_item, pinned_preview,
    record_outcome, shows_pinned, visible_entries, visible_items,
};
use launcher_core::platform::{PlatformDataSource, SourceError};
use launcher_core::usage::{UsageData, UsageTracker};

fn item(name: &str, path: &str, kind: ItemType) -> LaunchItem {
    LaunchItem { name: name.to_string(), path: path.to_string(), icon: None, args: vec![], item_type: kind }
}

fn names(items: &[LaunchItem]) -> Vec<String> {
    items.iter().map(|i| i.name.clone()).collect()
}

#[test]
fn pinned_items_are_not_listed_twice() {
    let pinned = vec![item("Firefox", "/usr/bin/firefox", ItemType::Program)];
    let frequent = vec![
        item("Code", "code", ItemType::Program),
        item("Firefox too", "/usr/bin/firefox", ItemType::Program),
        item("Vim", "vim", ItemType::Program),
        item("Zed", "zed", ItemType::Program),
    ];
    assert_eq!(names(&visible_items(&frequent, &pinned, 5)), vec!["Code", "Vim", "Zed"]);
    assert_eq!(names(&visible_items(&frequent, &pinned, 2)), vec!["Code", "Vim"]);
    assert!(visible_items(&frequent, &pinned, 0).is_empty());
    assert_eq!(visible_items(&frequent, &vec![], 10).len(), 4);
}

#[test]
fn number_keys_reach_the_items_in_order() {
    let mut config = Config::default();
    config.pin_program(item("Pinned", "/pinned", ItemType::Program));
    config.pin_document(item("Paper", "/paper", ItemType::Document));
    let frequent = vec![item("Often", "/often", ItemType::Program), item("Also", "/also", ItemType::Program)];
    let recent = vec![item("Recent", "/recent", ItemType::Document)];
    let reach = |n| numbered_item(&config, &frequent, &recent, n).map(|i| i.name);
    assert_eq!(reach(0), None);
    assert_eq!(reach(1), Some("Pinned".to_string()));
    assert_eq!(reach(2), Some("Often".to_string()));
    assert_eq!(reach(3), Some("Also".to_string()));
    assert_eq!(reach(4), Some("Paper".to_string()));
    assert_eq!(reach(5), Some("Recent".to_string()));
    assert_eq!(reach(6), Some("Lock Screen".to_string()));
    assert_eq!(reach(7), None);
    assert_eq!(reach(usize::MAX), None);
}

#[test]
fn pinned_clipboard_text_is_cut_at_47_bytes() {
    assert_eq!(pinned_preview("short"), "short");
    let exact = "a".repeat(47);
    assert_eq!(pinned_preview(&exact), exact);
    let longer = "a".repeat(48);
    assert_eq!(pinned_preview(&longer), format!("{}...", exact));
    let wide = format!("{}\u{20ac}tail", "a".repeat(46));
    assert_eq!(pinned_preview(&wide), format!("{}...", "a".repeat(46)));
}

#[test]
fn pinned_clipboard_text_follows_the_search() {
    assert!(shows_pinned("", "anything"));
    assert!(shows_pinned("any", "anything"));
    assert!(shows_pinned("atg", "anything"));
    assert!(!shows_pinned("xyz", "anything"));
}

#[test]
fn pinned_entries_are_left_out_of_the_history() {
    let entry = |t: &str| ClipboardEntry::with_parts(t.to_string(), 0, None, &None);
    let results = vec![entry("a"), entry("b"), entry("c"), entry("d")];
    let pinned = vec!["b".to_string()];
    let shown: Vec<_> = visible_entries(&results, &pinned, 2).iter().map(|e| e.text.clone()).collect();
    assert_eq!(shown, vec!["a", "c"]);
    assert_eq!(visible_entries(&results, &pinned, 10).len(), 3);
    assert_eq!(visible_entries(&results, &vec![], 10).len(), 4);
}

struct Launcher {
    works: bool,
}

impl PlatformDataSource for Launcher {
    fn recent_files(&self, _limit: usize) -> Result<Vec<LaunchItem>, SourceError> {
        Ok(vec![])
    }

    fn installed_apps(&self) -> Result<Vec<LaunchItem>, SourceError> {
        Ok(vec![])
    }

    fn frequent_programs(&self, _limit: usize) -> Result<Vec<LaunchItem>, SourceError> {
        Ok(vec![])
    }

    fn launch(&self, _item: &LaunchItem) -> Result<(), SourceError> {
        if self.works {
            Ok(())
        } else {
            Err(SourceError::LaunchFailed("missing".to_string()))
        }
    }
}

#[test]
fn only_a_launch_that_worked_is_recorded() {
    let now = Timestamp { secs: 100, nanos: 0 };
    let mut tracker = UsageTracker { data: UsageData::default(), dirty: false };
    let doc = item("Notes", "/notes", ItemType::Document);
    assert!(!launch_item(&Launcher { works: false }, &mut tracker, &doc, now));
    assert!(!tracker.dirty);
    assert!(tracker.data.documents.is_empty());
    assert!(launch_item(&Launcher { works: true }, &mut tracker, &doc, now));
    assert!(tracker.dirty);
    assert_eq!(tracker.data.documents.len(), 1);
    assert_eq!(tracker.data.documents[0].launches, vec![now]);
}

#[test]
fn popup_closes_without_focus_after_ten_frames() {
    assert!(!closes_without_focus(1, false));
    assert!(!closes_without_focus(10, false));
    assert!(closes_without_focus(11, false));
    assert!(!closes_without_focus(11, true));
    assert!(!closes_without_focus(u32::MAX, true));
}

#[test]
fn shortcut_needs_a_name() {
    assert!(new_shortcut("", "/bin/true").is_none());
    let item = new_shortcut("Lock", "loginctl lock-session").unwrap();
    assert_eq!(item.name, "Lock");
    assert_eq!(item.path, "loginctl lock-session");
    assert_eq!(item.item_type, ItemType::Shortcut);
    assert!(item.args.is_empty());
    assert!(new_shortcut("Name only", "").is_some());
}

#[test]
fn outcome_of_a_start_decides_what_is_recorded() {
    let now = Timestamp { secs: 7, nanos: 0 };
    let mut tracker = UsageTracker { data: UsageData::default(), dirty: false };
    let program = item("Code", "code", ItemType::Program);
    let failed = Err(SourceError::LaunchFailed("missing".to_string()));
    assert!(!record_outcome(&mut tracker, &program, now, &failed));
    assert!(!tracker.dirty);
    assert!(tracker.data.programs.is_empty());
    assert!(record_outcome(&mut tracker, &program, now, &Ok(())));
    assert!(tracker.dirty);
    assert_eq!(tracker.data.programs.len(), 1);
    assert_eq!(tracker.data.programs[0].path, "code");
    assert_eq!(tracker.data.programs[0].launches, vec![now]);
    assert!(tracker.data.documents.is_empty());
}
