use launcher_core::config::{ItemType, LaunchItem, Platform};
use launcher_core::platform::desktop::{exec_command, parse_desktop_file, DesktopEntry};
use launcher_core::platform::history::{
    command_of_line, count_command, count_history, CommandCount, Shell,
};
use launcher_core::platform::linux::{
    decode, decode_bytes, frequent_programs_from, hex_to_u8, installed_apps_from, DecodeError,
    LinuxDataSource,
};
use launcher_core::platform::macos::MacOSDataSource;
use launcher_core::platform::paths::{
    file_extension, file_name, file_stem, has_extension, join_path,
};
use launcher_core::platform::recent::{
    parse_recently_used, recent_candidate, recent_candidates, recent_items_from,
    sort_newest_first, Attribute, MarkupEvent, RecentItem,
};
use launcher_core::platform::windows::WindowsDataSource;
use launcher_core::platform::{
    get_data_source, items_or_none, refresh_lists, unique_by_name, DataSource,
    PlatformDataSource, SourceError,
};

fn chars(s: &str) -> Vec<char> {
    s.chars().collect()
}

fn item(kind: ItemType, name: &str, path: &str, args: &[&str]) -> LaunchItem {
    LaunchItem {
        name: name.to_string(),
        path: path.to_string(),
        icon: None,
        args: args.iter().map(|a| a.to_string()).collect(),
        item_type: kind,
    }
}

fn names(items: &[LaunchItem]) -> Vec<String> {
    items.iter().map(|i| i.name.clone()).collect()
}

#[test]
fn decode_replaces_escapes() {
    assert_eq!(decode("/home/me/My%20File.txt"), Ok("/home/me/My File.txt".to_string()));
    assert_eq!(decode("plain"), Ok("plain".to_string()));
    assert_eq!(decode(""), Ok(String::new()));
    assert_eq!(decode("%41%62%7a%7A"), Ok("Abzz".to_string()));
    assert_eq!(decode("caf%C3%A9"), Ok("caf\u{e9}".to_string()));
    assert_eq!(decode("%e2%82%ac"), Ok("\u{20ac}".to_string()));
}

#[test]
fn decode_keeps_a_stray_percent_sign_and_drops_what_follows() {
    assert_eq!(decode("100%zzdone"), Ok("100%done".to_string()));
    assert_eq!(decode("100%"), Ok("100%".to_string()));
    assert_eq!(decode("100%4"), Ok("100%".to_string()));
    assert_eq!(decode("a%4gb"), Ok("a%b".to_string()));
    assert_eq!(decode_bytes(b"%%41"), vec![b'%', b'1']);
}

#[test]
fn decode_rejects_bytes_that_are_no_utf8() {
    assert_eq!(decode("%ff"), Err(DecodeError::InvalidUtf8));
    assert_eq!(decode("a%C3"), Err(DecodeError::InvalidUtf8));
}

#[test]
fn hex_digits() {
    assert_eq!(hex_to_u8(b'0'), Some(0));
    assert_eq!(hex_to_u8(b'9'), Some(9));
    assert_eq!(hex_to_u8(b'a'), Some(10));
    assert_eq!(hex_to_u8(b'f'), Some(15));
    assert_eq!(hex_to_u8(b'A'), Some(10));
    assert_eq!(hex_to_u8(b'F'), Some(15));
    assert_eq!(hex_to_u8(b'g'), None);
    assert_eq!(hex_to_u8(b'G'), None);
    assert_eq!(hex_to_u8(b'/'), None);
    assert_eq!(hex_to_u8(b':'), None);
}

#[test]
fn data_source_for_each_platform() {
    match get_data_source(Platform::Linux, Some("/home/me".to_string())) {
        DataSource::Linux(s) => assert_eq!(s.home_dir, "/home/me"),
        _ => panic!("not the Linux source"),
    }
    match get_data_source(Platform::Linux, None) {
        DataSource::Linux(s) => assert_eq!(s.home_dir, "/home"),
        _ => panic!("not the Linux source"),
    }
    match get_data_source(Platform::MacOs, None) {
        DataSource::MacOs(s) => assert_eq!(s.home_dir, "/Users"),
        _ => panic!("not the macOS source"),
    }
    assert!(matches!(get_data_source(Platform::Windows, None), DataSource::Windows(_)));
    assert_eq!(LinuxDataSource::new(Some("/root".to_string())).home_dir, "/root");
    assert_eq!(MacOSDataSource::new(Some("/Users/me".to_string())).home_dir, "/Users/me");
    let _ = WindowsDataSource::new();
}

#[test]
fn linux_paths() {
    let source = LinuxDataSource::new(Some("/home/me".to_string()));
    assert_eq!(source.recently_used_path(), "/home/me/.local/share/recently-used.xbel");
    assert_eq!(source.bash_history_path(), "/home/me/.bash_history");
    assert_eq!(source.zsh_history_path(), "/home/me/.zsh_history");
    assert_eq!(
        source.desktop_dirs(),
        vec![
            "/usr/share/applications",
            "/usr/local/share/applications",
            "/home/me/.local/share/applications",
            "/var/lib/flatpak/exports/share/applications",
            "/home/me/.local/share/flatpak/exports/share/applications",
        ]
    );
    assert_eq!(join_path("/home/me/", "x"), "/home/me/x");
    assert_eq!(join_path("", "x"), "x");
    assert_eq!(join_path("/", ".zsh_history"), "/.zsh_history");
}

#[test]
fn file_names_and_stems() {
    assert_eq!(file_name("/usr/bin/firefox"), Some("firefox".to_string()));
    assert_eq!(file_name("firefox"), Some("firefox".to_string()));
    assert_eq!(file_name("/usr/bin/"), Some("bin".to_string()));
    assert_eq!(file_name("/usr//bin"), Some("bin".to_string()));
    assert_eq!(file_name("/usr/bin/."), Some("bin".to_string()));
    assert_eq!(file_name("/"), None);
    assert_eq!(file_name(""), None);
    assert_eq!(file_name("."), None);
    assert_eq!(file_name("/usr/.."), None);
    assert_eq!(file_name("..."), Some("...".to_string()));
    assert_eq!(file_stem("/Applications/Safari.app"), Some("Safari".to_string()));
    assert_eq!(file_stem("archive.tar.gz"), Some("archive.tar".to_string()));
    assert_eq!(file_stem(".bashrc"), Some(".bashrc".to_string()));
    assert_eq!(file_stem("noext"), Some("noext".to_string()));
    assert_eq!(file_stem("dot."), Some("dot".to_string()));
    assert_eq!(file_stem("/"), None);
    for path in ["/usr/bin/firefox", "/usr/bin/", "a/b/./", "/", "", ".", "..", "a/..", "x.y.z", ".h", "//a//"] {
        let std_name = std::path::Path::new(path).file_name().map(|n| n.to_string_lossy().to_string());
        let std_stem = std::path::Path::new(path).file_stem().map(|n| n.to_string_lossy().to_string());
        assert_eq!(file_name(path), std_name, "name of {:?}", path);
        assert_eq!(file_stem(path), std_stem, "stem of {:?}", path);
        let std_extension =
            std::path::Path::new(path).extension().map(|n| n.to_string_lossy().to_string());
        assert_eq!(file_extension(path), std_extension, "extension of {:?}", path);
    }
    assert!(has_extension("/usr/share/applications/firefox.desktop", "desktop"));
    assert!(!has_extension("/usr/share/applications/firefox.desktop.bak", "desktop"));
    assert!(!has_extension("/usr/share/applications/desktop", "desktop"));
    assert!(!has_extension(".desktop", "desktop"));
    assert!(has_extension("/Applications/Safari.app/", "app"));
    assert_eq!(file_extension("dot."), Some(String::new()));
}

#[test]
fn linux_launch_plans() {
    let source = LinuxDataSource::new(None);
    let doc = source.launch_plan(&item(ItemType::Document, "Notes", "/home/me/my notes.txt", &[])).unwrap();
    assert_eq!(doc.program, "xdg-open");
    assert_eq!(doc.args, vec!["/home/me/my notes.txt"]);
    let program = source.launch_plan(&item(ItemType::Program, "Code", "code --new-window  .", &[])).unwrap();
    assert_eq!(program.program, "code");
    assert_eq!(program.args, vec!["--new-window", "."]);
    let with_args = source.launch_plan(&item(ItemType::Shortcut, "Lock", "loginctl ignored", &["lock-session"])).unwrap();
    assert_eq!(with_args.program, "loginctl");
    assert_eq!(with_args.args, vec!["lock-session"]);
    let empty = source.launch_plan(&item(ItemType::Program, "Nothing", "  \t ", &[]));
    assert!(matches!(empty, Err(SourceError::EmptyCommand)));
}

#[test]
fn mac_and_windows_launch_plans() {
    let mac = MacOSDataSource::new(None);
    let doc = mac.launch_plan(&item(ItemType::Document, "Notes", "/Users/me/notes.txt", &["x"]));
    assert_eq!(doc.program, "open");
    assert_eq!(doc.args, vec!["/Users/me/notes.txt"]);
    let app = mac.launch_plan(&item(ItemType::Program, "Safari", "/Applications/Safari.app", &["--x"]));
    assert_eq!(app.program, "open");
    assert_eq!(app.args, vec!["-a", "/Applications/Safari.app", "--x"]);
    let tool = mac.launch_plan(&item(ItemType::Program, "ls", "/bin/ls", &["-l"]));
    assert_eq!(tool.program, "/bin/ls");
    assert_eq!(tool.args, vec!["-l"]);
    let shortcut = mac.launch_plan(&item(ItemType::Shortcut, "Sleep", "pmset.app", &["displaysleepnow"]));
    assert_eq!(shortcut.program, "pmset.app");
    assert_eq!(shortcut.args, vec!["displaysleepnow"]);
    let windows = WindowsDataSource::new().launch_plan(&item(ItemType::Program, "Calc", "calc.exe", &["/x"]));
    assert_eq!(windows.program, "cmd");
    assert_eq!(windows.args, vec!["/C", "start", "", "calc.exe", "/x"]);
}

#[test]
fn desktop_file_is_read_from_its_section() {
    let content = "# comment\n[Other]\nName=Wrong\n\n[Desktop Entry]\r\n  Name=Firefox  \nName=Second\nExec=firefox %u --private %F\nIcon=firefox\nTerminal=true\nNoDisplay=false\nCategories=Network;WebBrowser;\nComment=a=b\n[Desktop Action new]\nName=New Window\nExec=firefox --new-window\n";
    let entry = parse_desktop_file(content);
    assert_eq!(entry.name, "Firefox");
    assert_eq!(entry.command, "firefox --private");
    assert_eq!(entry.icon.as_deref(), Some("firefox"));
    assert!(entry.terminal);
    assert!(!entry.no_display);
    assert!(!entry.hidden);
    assert_eq!(entry.categories, vec!["Network", "WebBrowser", ""]);
    assert!(entry.is_visible());
    let item = entry.to_item();
    assert_eq!(item.name, "Firefox");
    assert_eq!(item.path, "firefox --private");
    assert_eq!(item.icon.as_deref(), Some("firefox"));
    assert_eq!(item.item_type, ItemType::Program);
}

#[test]
fn desktop_file_flags_and_blank_file() {
    let hidden = parse_desktop_file("[Desktop Entry]\nName=X\nHidden=true\nNoDisplay=True\nExec=  \n");
    assert!(hidden.hidden);
    assert!(!hidden.no_display);
    assert!(!hidden.is_visible());
    assert_eq!(hidden.command, "");
    let blank = parse_desktop_file("");
    assert_eq!(blank.name, "");
    assert_eq!(blank.icon, None);
    assert!(blank.categories.is_empty());
    let outside = parse_desktop_file("Name=Outside\n");
    assert_eq!(outside.name, "");
    assert_eq!(exec_command(&chars("env  A=1 app %U file")), chars("env A=1 app file"));
    assert_eq!(exec_command(&chars("%f")), chars(""));
}

fn desktop(name: &str, command: &str, no_display: bool, hidden: bool) -> DesktopEntry {
    DesktopEntry {
        name: name.to_string(),
        command: command.to_string(),
        icon: None,
        no_display,
        hidden,
        terminal: false,
        categories: vec![],
    }
}

#[test]
fn installed_apps_are_sorted_and_unique_by_name() {
    let entries = vec![
        desktop("Zed", "zed", false, false),
        desktop("Firefox", "/usr/bin/firefox", false, false),
        desktop("Hidden", "hidden", false, true),
        desktop("Firefox", "/opt/firefox/firefox", false, false),
        desktop("Settings", "settings", true, false),
        desktop("Code", "code --wait", false, false),
    ];
    let apps = installed_apps_from(&entries);
    assert_eq!(names(&apps), vec!["Code", "Firefox", "Zed"]);
    assert_eq!(apps[1].path, "/usr/bin/firefox");
    let items = vec![
        item(ItemType::Program, "b", "1", &[]),
        item(ItemType::Program, "a", "2", &[]),
        item(ItemType::Program, "b", "3", &[]),
        item(ItemType::Program, "B", "4", &[]),
    ];
    let unique = unique_by_name(&items);
    assert_eq!(names(&unique), vec!["B", "a", "b"]);
    assert_eq!(unique[2].path, "1");
    assert!(unique_by_name(&Vec::new()).is_empty());
}

#[test]
fn history_counts_first_words() {
    let mut counts: Vec<CommandCount> = Vec::new();
    count_history(&mut counts, "ls -la\ngit status\n\n  ls\ngit commit -m x\r\nls", Shell::Bash);
    let got: Vec<(String, usize)> = counts.iter().map(|c| (c.command.clone(), c.count)).collect();
    assert_eq!(got, vec![("ls".to_string(), 3), ("git".to_string(), 2)]);
    count_history(&mut counts, ": 1700000000:0;git push\n: 1700000001:0;vim a;b\nplain line\n: 17:0;\n", Shell::Zsh);
    let got: Vec<(String, usize)> = counts.iter().map(|c| (c.command.clone(), c.count)).collect();
    assert_eq!(
        got,
        vec![
            ("ls".to_string(), 3),
            ("git".to_string(), 3),
            ("vim".to_string(), 1),
            ("plain".to_string(), 1),
        ]
    );
    assert_eq!(command_of_line(&chars("a;b c"), Shell::Bash), Some(chars("a;b")));
    assert_eq!(command_of_line(&chars("a;b c"), Shell::Zsh), Some(chars("b")));
    assert_eq!(command_of_line(&chars("   "), Shell::Zsh), None);
    let mut full = vec![CommandCount { command: "x".to_string(), count: usize::MAX }];
    count_command(&mut full, &chars("x"));
    assert_eq!(full[0].count, usize::MAX);
}

#[test]
fn frequent_programs_follow_the_history() {
    let apps = vec![
        item(ItemType::Program, "Firefox", "/usr/bin/firefox %u", &[]),
        item(ItemType::Program, "Code", "code", &[]),
        item(ItemType::Program, "Vim", "/usr/bin/vim", &[]),
        item(ItemType::Program, "GVim", "env/vim -g", &[]),
        item(ItemType::Program, "Nothing", "", &[]),
    ];
    let counts = vec![
        CommandCount { command: "ls".to_string(), count: 50 },
        CommandCount { command: "code".to_string(), count: 7 },
        CommandCount { command: "vim".to_string(), count: 9 },
        CommandCount { command: "firefox".to_string(), count: 7 },
    ];
    let top = frequent_programs_from(&counts, &apps, 5);
    assert_eq!(names(&top), vec!["GVim", "Code", "Firefox"]);
    assert_eq!(names(&frequent_programs_from(&counts, &apps, 2)), vec!["GVim", "Code"]);
    assert!(frequent_programs_from(&counts, &apps, 0).is_empty());
    assert!(frequent_programs_from(&Vec::new(), &apps, 5).is_empty());
}

#[test]
fn mac_frequent_programs_match_bundle_names_case_aside() {
    let mac = MacOSDataSource::new(Some("/Users/me".to_string()));
    let apps = vec![
        item(ItemType::Program, "Safari", "/Applications/Safari.app", &[]),
        item(ItemType::Program, "Visual Studio Code", "/Applications/Code.app", &[]),
    ];
    let counts = vec![
        CommandCount { command: "CODE".to_string(), count: 2 },
        CommandCount { command: "safari".to_string(), count: 5 },
        CommandCount { command: "ls".to_string(), count: 9 },
    ];
    assert_eq!(names(&mac.frequent_programs_from(&counts, &apps, 5)), vec!["Safari", "Visual Studio Code"]);
    assert_eq!(mac.application_dirs(), vec!["/Applications", "/System/Applications", "/Users/me/Applications"]);
    assert_eq!(mac.zsh_history_path(), "/Users/me/.zsh_history");
    assert_eq!(mac.bash_history_path(), "/Users/me/.bash_history");
    assert!(mac.offers_path("/Users/me/doc.txt"));
    assert!(!mac.offers_path("/Users/me/Library/Caches/x"));
    assert!(!mac.offers_path(""));
    let app = mac.parse_app_bundle("/Applications/Safari.app", None, None).unwrap();
    assert_eq!(app.name, "Safari");
    assert_eq!(app.path, "/Applications/Safari.app");
    let shown = mac.parse_app_bundle("/Applications/Code.app", Some("VS Code".to_string()), Some("Code".to_string())).unwrap();
    assert_eq!(shown.name, "VS Code");
    let bundle = mac.parse_app_bundle("/Applications/Code.app", None, Some("Code - OSS".to_string())).unwrap();
    assert_eq!(bundle.name, "Code - OSS");
    assert!(mac.parse_app_bundle("/", None, None).is_none());
}

const XBEL: &str = r#"<?xml version="1.0" encoding="UTF-8"?>
<xbel version="1.0" xmlns:bookmark="http://www.freedesktop.org/standards/desktop-bookmarks" xmlns:mime="http://www.freedesktop.org/standards/shared-mime-info">
  <bookmark href="file:///home/me/My%20Notes.txt" added="2024-01-01T10:00:00Z" modified="2024-01-02T10:00:00Z" visited="2024-01-02T10:00:00Z">
    <info>
      <metadata owner="http://freedesktop.org">
        <mime:mime-type type="text/plain"/>
        <bookmark:applications>
          <bookmark:application name="gedit" exec="&apos;gedit %u&apos;" modified="2024-01-02T10:00:00Z" count="1"/>
        </bookmark:applications>
      </metadata>
    </info>
  </bookmark>
  <bookmark href="file:///home/me/picture.png" modified="2024-03-05T08:30:00Z">
    <info><metadata><mime:mime-type type="image/png"></mime:mime-type></metadata></info>
  </bookmark>
  <bookmark href="https://example.org/remote" modified="2024-02-01T00:00:00Z"></bookmark>
  <bookmark href="file:///never/closed" modified="2025-01-01T00:00:00Z">
</xbel>
"#;

#[test]
fn recent_list_is_read_newest_first() {
    let items = parse_recently_used(XBEL);
    let hrefs: Vec<_> = items.iter().map(|i| i.href.clone()).collect();
    assert_eq!(
        hrefs,
        vec!["file:///home/me/picture.png", "https://example.org/remote", "file:///home/me/My%20Notes.txt"]
    );
    assert_eq!(items[0].modified, "2024-03-05T08:30:00Z");
    assert_eq!(items[0].mime_type, "image/png");
    assert_eq!(items[2].mime_type, "");
    assert!(parse_recently_used("").is_empty());
    assert!(parse_recently_used("no markup at all").is_empty());
    let candidates = recent_candidates(&items);
    assert_eq!(names(&candidates), vec!["picture.png", "My Notes.txt"]);
    assert_eq!(candidates[1].path, "/home/me/My Notes.txt");
    assert_eq!(candidates[1].item_type, ItemType::Document);
}

#[test]
fn recent_entries_from_given_events() {
    let attr = |k: &str, v: &str| Attribute { key: k.to_string(), value: v.to_string() };
    let events = vec![
        MarkupEvent::Start("xbel".to_string(), vec![]),
        MarkupEvent::Start("mime:mime-type".to_string(), vec![attr("type", "lost")]),
        MarkupEvent::Start("bookmark".to_string(), vec![attr("href", "a"), attr("modified", "1"), attr("href", "b")]),
        MarkupEvent::Other,
        MarkupEvent::Start("mime:mime-type".to_string(), vec![attr("type", "text/plain")]),
        MarkupEvent::Start("mime:mime-type".to_string(), vec![attr("other", "x")]),
        MarkupEvent::End("info".to_string()),
        MarkupEvent::End("bookmark".to_string()),
        MarkupEvent::End("bookmark".to_string()),
        MarkupEvent::Start("bookmark".to_string(), vec![]),
        MarkupEvent::Start("bookmark".to_string(), vec![attr("modified", "2")]),
        MarkupEvent::End("bookmark".to_string()),
        MarkupEvent::Failed,
        MarkupEvent::Start("bookmark".to_string(), vec![attr("href", "late")]),
        MarkupEvent::End("bookmark".to_string()),
        MarkupEvent::Eof,
    ];
    let items = recent_items_from(&events);
    assert_eq!(items.len(), 2);
    assert_eq!(items[0].href, "b");
    assert_eq!(items[0].modified, "1");
    assert_eq!(items[0].mime_type, "text/plain");
    assert_eq!(items[1].href, "");
    assert_eq!(items[1].modified, "2");
    let sorted = sort_newest_first(&items);
    assert_eq!(sorted[0].modified, "2");
    let ties = vec![
        RecentItem { href: "x".to_string(), modified: "5".to_string(), mime_type: String::new() },
        RecentItem { href: "y".to_string(), modified: "5".to_string(), mime_type: String::new() },
        RecentItem { href: "z".to_string(), modified: "50".to_string(), mime_type: String::new() },
    ];
    let sorted: Vec<_> = sort_newest_first(&ties).iter().map(|i| i.href.clone()).collect();
    assert_eq!(sorted, vec!["z", "x", "y"]);
}

#[test]
fn recent_candidate_needs_a_local_file_with_a_name() {
    assert_eq!(recent_candidate("file:///tmp/a%20b").map(|i| (i.name, i.path)), Some(("a b".to_string(), "/tmp/a b".to_string())));
    assert!(recent_candidate("http://host/file").is_none());
    assert!(recent_candidate("file:/").is_none());
    assert!(recent_candidate("file:///").is_none());
    assert!(recent_candidate("file:///tmp/%ff").is_none());
    assert!(recent_candidate("file://").is_none());
    assert_eq!(recent_candidate("file://relative").map(|i| i.name), Some("relative".to_string()));
}

struct Fixed {
    fails: bool,
}

impl PlatformDataSource for Fixed {
    fn recent_files(&self, limit: usize) -> Result<Vec<LaunchItem>, SourceError> {
        if self.fails {
            Err(SourceError::Unreadable("recent".to_string()))
        } else {
            Ok((0..limit).map(|i| item(ItemType::Document, &format!("doc {}", i), "/d", &[])).collect())
        }
    }

    fn installed_apps(&self) -> Result<Vec<LaunchItem>, SourceError> {
        Ok(vec![])
    }

    fn frequent_programs(&self, limit: usize) -> Result<Vec<LaunchItem>, SourceError> {
        Ok((0..limit).map(|i| item(ItemType::Program, &format!("prog {}", i), "/p", &[])).collect())
    }

    fn launch(&self, _item: &LaunchItem) -> Result<(), SourceError> {
        if self.fails {
            Err(SourceError::LaunchFailed("no".to_string()))
        } else {
            Ok(())
        }
    }
}

#[test]
fn lists_are_empty_where_the_source_fails() {
    let (programs, documents) = refresh_lists(&Fixed { fails: false }, 2, 3);
    assert_eq!(names(&programs), vec!["prog 0", "prog 1"]);
    assert_eq!(documents.len(), 3);
    let (programs, documents) = refresh_lists(&Fixed { fails: true }, 2, 3);
    assert_eq!(programs.len(), 2);
    assert!(documents.is_empty());
    // each list is asked for with its own limit
    let (programs, documents) = refresh_lists(&Fixed { fails: false }, 0, 1);
    assert!(programs.is_empty());
    assert_eq!(names(&documents), vec!["doc 0"]);
    assert_eq!(names(&items_or_none(Ok(vec![item(ItemType::Program, "A", "a", &[])]))), vec!["A"]);
    assert!(items_or_none(Err(SourceError::EmptyCommand)).is_empty());
}
