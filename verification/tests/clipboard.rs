use launcher_core::clipboard::{
    decimal_digits, fuzzy_search_clipboard, is_password_like, render_preview, ClipboardEntry,
};
use launcher_core::clock::{label_at, Timestamp};
use launcher_core::fuzzy::{fuzzy_score, score_lowered};
use launcher_core::ledger::{settle, ClipboardLedger};
use launcher_core::math::{arithmetic_in, eval_math};

fn at(secs: i64) -> Timestamp {
    Timestamp { secs, nanos: 0 }
}

fn entry(text: &str, count: u32, last_used: Option<&str>) -> ClipboardEntry {
    ClipboardEntry::with_parts(text.to_string(), count, last_used.map(|s| s.to_string()), &None)
}

fn texts(entries: &[ClipboardEntry]) -> Vec<String> {
    entries.iter().map(|e| e.text.clone()).collect()
}

fn chars(s: &str) -> Vec<char> {
    s.chars().collect()
}

#[test]
fn fuzzy_subsequence_scores_and_miss_scores_zero() {
    assert!(fuzzy_score("ff", "Firefox") > 0);
    assert_eq!(fuzzy_score("zx", "Firefox"), 0);
    assert_eq!(fuzzy_score("xz", "Firefox"), 0);
}

#[test]
fn fuzzy_substring_scores_by_position() {
    assert_eq!(fuzzy_score("fire", "Firefox"), 1100);
    assert_eq!(fuzzy_score("FOX", "firefox"), 1096);
    assert_eq!(fuzzy_score("", "anything"), 1100);
    assert_eq!(fuzzy_score("", ""), 1100);
    let long = format!("{}needle", "x".repeat(150));
    assert_eq!(fuzzy_score("needle", &long), 1000);
    let far = format!("{}needle", "x".repeat(99));
    assert_eq!(fuzzy_score("needle", &far), 1001);
    // the position counts bytes: two characters of two bytes each stand before
    assert_eq!(fuzzy_score("b", "\u{e9}\u{e9}b"), 1096);
}

#[test]
fn fuzzy_scan_rewards_runs_and_word_starts() {
    // f at 0: 1 + 5; f at 4: 1; x at 6: 1
    assert_eq!(fuzzy_score("ffx", "Firefox"), 8);
    // f at 0: 6; i at 1: 1 + 10; o at 5: 1; x at 6: 1 + 10
    assert_eq!(fuzzy_score("fiox", "Firefox"), 29);
    // m at 0: 6; f at 3, behind the underscore: 1 + 5
    assert_eq!(fuzzy_score("mf", "my_file"), 12);
    // a run of three adjacent matches grows: 6, then 1+10, then 1+20; then z: 1
    assert_eq!(fuzzy_score("abcz", "abc-z"), 6 + 11 + 21 + 6);
    assert_eq!(fuzzy_score("abcd", "abc"), 0);
    assert_eq!(score_lowered(&chars("ffx"), &chars("Firefox"), &chars("firefox")), 8);
    // the word start is looked up in the text as it was given
    assert_eq!(score_lowered(&chars("bd"), &chars("-xb"), &chars("abcd")), 6 + 1);
}

#[test]
fn fuzzy_score_changes_with_case_only_through_lowering() {
    assert_eq!(fuzzy_score("FFX", "FIREFOX"), fuzzy_score("ffx", "firefox"));
    assert_eq!(fuzzy_score("\u{c4}", "\u{e4}"), 1100);
}

#[test]
fn password_heuristic() {
    assert!(is_password_like("Passw0rd1"));
    assert!(!is_password_like("password1"));
    assert!(!is_password_like("PASSWORD1"));
    assert!(!is_password_like("Password"));
    assert!(!is_password_like("Pass w0rd1"));
    assert!(!is_password_like("Pw0rd12"));
    assert!(is_password_like("Pw0rd123"));
    assert!(is_password_like(&format!("Aa1{}", "x".repeat(29))));
    assert!(!is_password_like(&format!("Aa1{}", "x".repeat(30))));
    // length counts bytes
    assert!(is_password_like("Aa1\u{e9}\u{e9}\u{e9}"));
    assert!(!is_password_like("Aa1\u{e9}\u{e9}"));
    let e = entry("Passw0rd1", 0, None);
    assert!(e.looks_like_password());
    assert!(!entry("hello world", 0, None).looks_like_password());
}

#[test]
fn preview_shortens_counts_and_evaluates() {
    assert_eq!(render_preview("hello", 0, &None), "hello");
    assert_eq!(render_preview("a\nb", 0, &None), "a b");
    assert_eq!(render_preview("hello", 3, &None), "hello (3)");
    assert_eq!(render_preview("hello", 4_000_000_000, &None), "hello (4000000000)");
    assert_eq!(render_preview("2+2", 1, &Some("4".to_string())), "2+2 (1) = 4");
    let forty = "0123456789".repeat(4);
    assert_eq!(render_preview(&forty, 0, &None), forty);
    let forty_one = format!("{}x", forty);
    assert_eq!(render_preview(&forty_one, 0, &None), format!("{}...", &forty[..37]));
    // a character that straddles the cut is left out whole
    let wide = format!("{}\u{e9}{}", "a".repeat(36), "b".repeat(10));
    assert_eq!(render_preview(&wide, 0, &None), format!("{}...", "a".repeat(36)));
    assert_eq!(decimal_digits(0), vec!['0']);
    assert_eq!(decimal_digits(907), vec!['9', '0', '7']);
    assert_eq!(decimal_digits(u32::MAX).iter().collect::<String>(), "4294967295");
}

#[test]
fn arithmetic_is_recognised_and_evaluated() {
    assert_eq!(eval_math("2+2"), Some("4".to_string()));
    assert_eq!(eval_math("  2 x 3 \n"), Some("6".to_string()));
    assert_eq!(eval_math("3 \u{d7} 4"), Some("12".to_string()));
    assert_eq!(eval_math("9 \u{f7} 2"), Some("4.5".to_string()));
    assert_eq!(eval_math("1,5+1"), Some("2.5".to_string()));
    assert_eq!(eval_math("(1+2)*3"), Some("9".to_string()));
    assert_eq!(eval_math("42"), None);
    assert_eq!(eval_math("+"), None);
    assert_eq!(eval_math("2+a"), None);
    assert_eq!(eval_math("2+"), None);
    assert_eq!(eval_math("1\t+1"), None);
    assert_eq!(eval_math(""), None);
    assert_eq!(arithmetic_in(&chars("2 x 3")), Some(chars("2*3")));
    assert_eq!(arithmetic_in(&chars("1,5-1")), Some(chars("1.5-1")));
    assert_eq!(arithmetic_in(&chars("2 y 3")), None);
    assert_eq!(arithmetic_in(&chars("23")), None);
}

#[test]
fn new_entry_has_label_and_preview() {
    let e = ClipboardEntry::new("2+2".to_string(), at(1_700_000_000));
    assert_eq!(e.text, "2+2");
    assert_eq!(e.count, 0);
    assert_eq!(e.last_used.as_deref(), Some("2023-11-14 22:13:20"));
    assert_eq!(e.preview, "2+2 = 4");
    let mut f = entry("hello", 2, None);
    f.preview = String::new();
    f.update_preview();
    assert_eq!(f.preview, "hello (2)");
}

#[test]
fn label_is_date_and_time_in_utc() {
    assert_eq!(label_at(at(0)), Some("1970-01-01 00:00:00".to_string()));
    assert_eq!(label_at(Timestamp { secs: 86_399, nanos: 999_999_999 }), Some("1970-01-01 23:59:59".to_string()));
    assert_eq!(label_at(at(-1)), Some("1969-12-31 23:59:59".to_string()));
    assert_eq!(label_at(at(i64::MAX)), None);
}

#[test]
fn search_with_empty_query_lists_the_first_entries() {
    let history = vec![entry("one", 0, None), entry("two", 0, None), entry("three", 0, None)];
    assert_eq!(texts(&fuzzy_search_clipboard("", &history, 2)), vec!["one", "two"]);
    assert_eq!(texts(&fuzzy_search_clipboard("", &history, 9)), vec!["one", "two", "three"]);
    assert!(fuzzy_search_clipboard("", &history, 0).is_empty());
}

#[test]
fn search_ranks_by_score_and_keeps_ties_in_order() {
    let history = vec![
        entry("zzz", 0, None),
        entry("my firefox", 0, None),
        entry("Firefox", 0, None),
        entry("f-i-r-e", 0, None),
        entry("firefox again", 0, None),
    ];
    let found = fuzzy_search_clipboard("fire", &history, 10);
    assert_eq!(texts(&found), vec!["Firefox", "firefox again", "my firefox", "f-i-r-e"]);
    assert_eq!(texts(&fuzzy_search_clipboard("fire", &history, 2)), vec!["Firefox", "firefox again"]);
    assert!(fuzzy_search_clipboard("qqq", &history, 10).is_empty());
}

#[test]
fn observe_takes_in_new_text_and_refreshes_known_text() {
    let mut ledger = ClipboardLedger::new(10);
    assert!(ledger.observe("first", at(1_700_000_000)));
    assert!(ledger.observe("second", at(1_700_000_001)));
    assert_eq!(texts(&ledger.entries), vec!["second", "first"]);
    assert_eq!(ledger.entries[0].count, 0);
    assert_eq!(ledger.entries[0].last_used.as_deref(), Some("2023-11-14 22:13:21"));
    // a known text gets the new label and moves up
    assert!(ledger.observe("first", at(1_700_000_005)));
    assert_eq!(texts(&ledger.entries), vec!["first", "second"]);
    assert_eq!(ledger.entries[0].last_used.as_deref(), Some("2023-11-14 22:13:25"));
    assert_eq!(ledger.len(), 2);
}

#[test]
fn observe_ignores_empty_and_repeated_text() {
    let mut ledger = ClipboardLedger::new(10);
    assert!(!ledger.observe("", at(1)));
    assert!(ledger.observe("same", at(2)));
    assert!(!ledger.observe("same", at(3)));
    assert_eq!(ledger.entries.len(), 1);
    assert_eq!(ledger.entries[0].last_used.as_deref(), Some("1970-01-01 00:00:02"));
    assert!(ledger.observe("other", at(4)));
    assert!(ledger.observe("same", at(5)));
    assert_eq!(ledger.entries.len(), 2);
}

#[test]
fn password_is_observed_but_never_kept() {
    let mut ledger = ClipboardLedger::new(10);
    ledger.observe("plain text", at(1));
    assert!(!ledger.observe("Passw0rd1", at(2)));
    assert_eq!(texts(&ledger.entries), vec!["plain text"]);
    assert_eq!(ledger.last_observed, "Passw0rd1");
    // seen again right away: still nothing
    assert!(!ledger.observe("Passw0rd1", at(3)));
    assert!(ledger.observe("plain text", at(4)));
    assert!(!ledger.observe("Passw0rd1", at(5)));
    assert_eq!(texts(&ledger.entries), vec!["plain text"]);
}

#[test]
fn ledger_never_grows_beyond_its_maximum() {
    let mut ledger = ClipboardLedger::new(3);
    for i in 0..10 {
        ledger.observe(&format!("text {}", i), at(1_000 + i));
        assert!(ledger.len() <= 3);
    }
    assert_eq!(texts(&ledger.entries), vec!["text 9", "text 8", "text 7"]);
    ledger.record_paste("text 7", at(2_000));
    ledger.observe("newcomer", at(2_001));
    assert_eq!(texts(&ledger.entries), vec!["text 7", "newcomer", "text 9"]);
    let mut none = ClipboardLedger::new(0);
    assert!(none.observe("anything", at(1)));
    assert!(none.entries.is_empty());
}

#[test]
fn eviction_drops_lowest_count_then_oldest() {
    let entries = vec![
        entry("often old", 5, Some("2020-01-01 00:00:00")),
        entry("never new", 0, Some("2024-01-01 00:00:00")),
        entry("never old", 0, Some("2021-01-01 00:00:00")),
        entry("once", 1, None),
        entry("never unlabelled", 0, None),
    ];
    assert_eq!(texts(&settle(&entries, 5)), vec!["often old", "once", "never new", "never old", "never unlabelled"]);
    assert_eq!(texts(&settle(&entries, 4)), vec!["often old", "once", "never new", "never old"]);
    assert_eq!(texts(&settle(&entries, 3)), vec!["often old", "once", "never new"]);
    assert_eq!(texts(&settle(&entries, 1)), vec!["often old"]);
    assert!(settle(&entries, 0).is_empty());
    // of entries that tie, the one that stands first leaves first
    let ties = vec![entry("a", 0, None), entry("b", 0, None), entry("c", 0, None)];
    assert_eq!(texts(&settle(&ties, 2)), vec!["b", "c"]);
    assert_eq!(texts(&settle(&ties, 3)), vec!["a", "b", "c"]);
}

#[test]
fn paste_counts_up_and_reorders() {
    let mut ledger = ClipboardLedger::new(10);
    ledger.observe("a", at(1));
    ledger.observe("b", at(2));
    ledger.observe("c", at(3));
    assert_eq!(texts(&ledger.entries), vec!["c", "b", "a"]);
    ledger.record_paste("a", at(4));
    assert_eq!(texts(&ledger.entries), vec!["a", "c", "b"]);
    assert_eq!(ledger.entries[0].count, 1);
    assert_eq!(ledger.entries[0].preview, "a (1)");
    assert_eq!(ledger.entries[0].last_used.as_deref(), Some("1970-01-01 00:00:04"));
    ledger.record_paste("unknown", at(5));
    assert_eq!(texts(&ledger.entries), vec!["a", "c", "b"]);
    ledger.record_paste("b", at(6));
    ledger.record_paste("b", at(7));
    assert_eq!(texts(&ledger.entries), vec!["b", "a", "c"]);
    assert_eq!(ledger.entries[0].count, 2);
    let mut full = ClipboardLedger::from_entries(vec![entry("x", u32::MAX, None)], 10);
    full.record_paste("x", at(8));
    assert_eq!(full.entries[0].count, u32::MAX);
}

#[test]
fn observe_with_given_label_and_value() {
    let mut ledger = ClipboardLedger::new(10);
    assert!(ledger.observe_with("1+1", Some("stamp".to_string()), &Some("2".to_string())));
    assert_eq!(ledger.entries[0].preview, "1+1 = 2");
    assert_eq!(ledger.entries[0].last_used.as_deref(), Some("stamp"));
    ledger.record_paste_with("1+1", None, &None);
    assert_eq!(ledger.entries[0].preview, "1+1 (1)");
    assert_eq!(ledger.entries[0].last_used, None);
}

#[test]
fn loaded_entries_are_shown_in_order_with_previews() {
    let raw = vec![
        ClipboardEntry { text: "b".to_string(), preview: String::new(), count: 1, last_used: Some("2024-01-01 00:00:00".to_string()) },
        ClipboardEntry { text: "2*4".to_string(), preview: "stale".to_string(), count: 3, last_used: None },
        ClipboardEntry { text: "c".to_string(), preview: String::new(), count: 1, last_used: Some("2024-06-01 00:00:00".to_string()) },
    ];
    let mut ledger = ClipboardLedger::from_entries(raw.clone(), 5);
    assert_eq!(texts(&ledger.entries), vec!["2*4", "c", "b"]);
    assert_eq!(ledger.entries[0].preview, "2*4 (3) = 8");
    assert_eq!(ledger.entries[1].preview, "c (1)");
    assert_eq!(ledger.max_history, 5);
    ledger.set_max_history(1);
    assert_eq!(ledger.max_history, 1);
    assert_eq!(texts(&ledger.entries), vec!["2*4"]);
    let cut = ClipboardLedger::from_entries(raw.clone(), 2);
    assert_eq!(texts(&cut.entries), vec!["2*4", "c"]);
    let mut twice = raw;
    twice.push(ClipboardEntry { text: "b".to_string(), preview: String::new(), count: 9, last_used: None });
    let once = ClipboardLedger::from_entries(twice, 5);
    assert_eq!(texts(&once.entries), vec!["2*4", "c", "b"]);
    assert_eq!(once.entries[2].count, 1);
}

#[test]
fn every_short_expression_is_answered() {
    let alphabet: Vec<char> = "0123456789.+-*/()".chars().collect();
    let mut answered = 0;
    for a in &alphabet {
        for b in &alphabet {
            for c in &alphabet {
                let text: String = [*a, *b, *c].iter().collect();
                if eval_math(&text).is_some() {
                    answered += 1;
                }
            }
        }
    }
    // digit operator digit, in all forms that make a number
    assert!(answered >= 10 * 4 * 10);
    assert_eq!(eval_math("1/0"), Some("inf".to_string()));
    assert_eq!(eval_math("(1)"), None);
    assert_eq!(eval_math("-1"), Some("-1".to_string()));
    assert_eq!(eval_math("1.+.5"), None);
}
