use launcher_core::config::{
    default_dark_mode, default_debounce, default_max_clipboard, default_max_frequent,
    default_simultaneous_threshold, Config, ItemType, LaunchItem, Platform, TriggerConfig,
};
use launcher_core::theme::{rgb, ThemeColors};

fn item(name: &str, path: &str) -> LaunchItem {
    LaunchItem {
        name: name.to_string(),
        path: path.to_string(),
        icon: None,
        args: vec![],
        item_type: ItemType::Program,
    }
}

#[test]
fn test_default_config() {
    let config = Config::default();
    assert_eq!(config.max_frequent_programs, 5);
    assert_eq!(config.max_clipboard_history, 10000);
    assert!(config.ui.dark_mode);
}

#[test]
fn test_config_serialization() {
    let config = Config::default();
    let mut trigger = serde_json::Map::new();
    trigger.insert(
        "simultaneous_threshold_ms".to_string(),
        serde_json::Value::from(config.trigger.simultaneous_threshold_ms),
    );
    trigger.insert("debounce_ms".to_string(), serde_json::Value::from(config.trigger.debounce_ms));
    let mut object = serde_json::Map::new();
    object.insert(
        "max_frequent_programs".to_string(),
        serde_json::Value::from(config.max_frequent_programs),
    );
    object.insert(
        "pinned_clipboard".to_string(),
        serde_json::Value::from(config.pinned_clipboard.clone()),
    );
    object.insert("trigger".to_string(), serde_json::Value::Object(trigger));
    let json = serde_json::to_string_pretty(&serde_json::Value::Object(object)).unwrap();
    let parsed: serde_json::Value = serde_json::from_str(&json).unwrap();
    assert_eq!(
        parsed["max_frequent_programs"].as_u64(),
        Some(config.max_frequent_programs as u64)
    );
    assert_eq!(parsed["trigger"]["debounce_ms"].as_u64(), Some(500));
}

#[test]
fn defaults_have_their_documented_values() {
    assert_eq!(default_max_frequent(), 5);
    assert_eq!(default_max_clipboard(), 10000);
    assert_eq!(default_simultaneous_threshold(), 200);
    assert_eq!(default_debounce(), 500);
    assert!(default_dark_mode());
    let trigger = TriggerConfig::default();
    assert_eq!(trigger.simultaneous_threshold_ms, 200);
    assert_eq!(trigger.debounce_ms, 500);
    assert_eq!(ItemType::default(), ItemType::Program);
    let config = Config::default();
    assert_eq!(config.max_frequent_documents, 5);
    assert!(config.pinned_programs.is_empty());
    assert!(config.pinned_documents.is_empty());
    assert!(config.pinned_clipboard.is_empty());
}

#[test]
fn default_shortcut_locks_the_screen() {
    let linux = Config::for_platform(Platform::Linux);
    assert_eq!(linux.shortcuts.len(), 1);
    assert_eq!(linux.shortcuts[0].name, "Lock Screen");
    assert_eq!(linux.shortcuts[0].path, "loginctl");
    assert_eq!(linux.shortcuts[0].args, vec!["lock-session"]);
    assert_eq!(linux.shortcuts[0].item_type, ItemType::Shortcut);
    let mac = Config::for_platform(Platform::MacOs);
    assert_eq!(mac.shortcuts[0].path, "pmset");
    assert_eq!(mac.shortcuts[0].args, vec!["displaysleepnow"]);
    let windows = Config::for_platform(Platform::Windows);
    assert_eq!(windows.shortcuts[0].path, "rundll32.exe");
    assert_eq!(windows.shortcuts[0].args, vec!["user32.dll,LockWorkStation"]);
    assert_eq!(Config::default().shortcuts[0].path, "loginctl");
}

#[test]
fn pin_keeps_one_item_for_each_path() {
    let mut config = Config::default();
    config.pin_program(item("Firefox", "/usr/bin/firefox"));
    config.pin_program(item("Firefox again", "/usr/bin/firefox"));
    config.pin_program(item("Code", "/usr/bin/code"));
    assert_eq!(config.pinned_programs.len(), 2);
    assert_eq!(config.pinned_programs[0].name, "Firefox");
    config.pin_document(item("Notes", "/home/me/notes.txt"));
    config.pin_document(item("Notes", "/home/me/notes.txt"));
    assert_eq!(config.pinned_documents.len(), 1);
    config.unpin_program("/usr/bin/firefox");
    assert_eq!(config.pinned_programs.len(), 1);
    assert_eq!(config.pinned_programs[0].name, "Code");
    config.unpin_program("/not/pinned");
    assert_eq!(config.pinned_programs.len(), 1);
    config.unpin_document("/home/me/notes.txt");
    assert!(config.pinned_documents.is_empty());
}

#[test]
fn unpin_removes_every_item_with_the_path() {
    let mut config = Config::default();
    config.pinned_programs = vec![item("A", "/a"), item("B", "/b"), item("A2", "/a"), item("C", "/c")];
    config.unpin_program("/a");
    let names: Vec<_> = config.pinned_programs.iter().map(|i| i.name.clone()).collect();
    assert_eq!(names, vec!["B", "C"]);
}

#[test]
fn shortcuts_and_clipboard_pins() {
    let mut config = Config::default();
    config.add_shortcut(item("Shutdown", "poweroff"));
    config.add_shortcut(item("Shutdown", "poweroff"));
    assert_eq!(config.shortcuts.len(), 3);
    config.pin_clipboard("hello".to_string());
    config.pin_clipboard("hello".to_string());
    config.pin_clipboard("world".to_string());
    assert_eq!(config.pinned_clipboard, vec!["hello", "world"]);
    config.unpin_clipboard("hello");
    assert_eq!(config.pinned_clipboard, vec!["world"]);
    config.unpin_clipboard("missing");
    assert_eq!(config.pinned_clipboard, vec!["world"]);
}

#[test]
fn launch_item_clone_keeps_all_fields() {
    let first = LaunchItem {
        name: "N".to_string(),
        path: "/p".to_string(),
        icon: Some("icon".to_string()),
        args: vec!["-a".to_string(), "-b".to_string()],
        item_type: ItemType::Document,
    };
    let copy = first.clone();
    assert_eq!(copy.name, "N");
    assert_eq!(copy.path, "/p");
    assert_eq!(copy.icon.as_deref(), Some("icon"));
    assert_eq!(copy.args, vec!["-a", "-b"]);
    assert_eq!(copy.item_type, ItemType::Document);
}

#[test]
fn theme_colours_split_into_parts() {
    assert_eq!(rgb(ThemeColors::BACKGROUND), (30, 30, 35));
    assert_eq!(rgb(ThemeColors::PANEL), (40, 40, 48));
    assert_eq!(rgb(ThemeColors::ACCENT), (100, 149, 237));
    assert_eq!(rgb(ThemeColors::TEXT), (230, 230, 230));
    assert_eq!(rgb(ThemeColors::DIM_TEXT), (150, 150, 160));
    assert_eq!(rgb(ThemeColors::SEPARATOR), (60, 60, 70));
    assert_eq!(rgb(ThemeColors::HOVER), (60, 60, 75));
    assert_eq!(rgb(ThemeColors::PIN_ICON), (255, 200, 50));
    assert_eq!(rgb(ThemeColors::SHORTCUT_ICON), (255, 150, 50));
    assert_eq!(rgb(ThemeColors::CLIPBOARD_ICON), (100, 200, 150));
    assert_eq!(rgb(ThemeColors::SECTION_HEADER), (120, 120, 140));
    assert_eq!(rgb(0xff00_0001), (0, 0, 1));
}

#[test]
fn items_are_pinned_by_kind() {
    let mut config = Config::default();
    let mut doc = item("Notes", "/notes");
    doc.item_type = ItemType::Document;
    let mut shortcut = item("Lock", "lock");
    shortcut.item_type = ItemType::Shortcut;
    config.pin_item(doc);
    config.pin_item(shortcut);
    config.pin_item(item("Code", "code"));
    assert_eq!(config.pinned_documents.len(), 1);
    assert_eq!(config.pinned_documents[0].name, "Notes");
    assert_eq!(config.pinned_programs.len(), 2);
    assert_eq!(config.pinned_programs[0].name, "Lock");
}
