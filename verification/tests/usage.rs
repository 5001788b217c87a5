use launcher_core::clock::{age_in_seconds, is_more_than_seconds, Timestamp};
use launcher_core::config::{ItemType, LaunchItem};
use launcher_core::usage::{
    record_in, retain_ranked, top_ranked, Rated, UsageData, UsageRecord, UsageTracker,
};

fn at(secs: i64) -> Timestamp {
    Timestamp { secs, nanos: 0 }
}

const NOW: i64 = 1_700_000_000;
const WEEK: i64 = 604_800;

fn score_of_ages(ages: &[u64]) -> f64 {
    ages.iter().map(|a| (-(*a as f64) / 604_800.0).exp2()).sum()
}

fn score(record: &UsageRecord, now: Timestamp) -> f64 {
    score_of_ages(&record.ages(now))
}

fn rank(record: &UsageRecord, now: Timestamp) -> u64 {
    score(record, now).to_bits()
}

fn floor() -> u64 {
    0.01f64.to_bits()
}

#[test]
fn test_usage_record_score() {
    let now = at(NOW);
    let mut record = UsageRecord::new("/usr/bin/firefox".to_string(), "Firefox".to_string(), now);
    let fresh = score(&record, now);
    assert!(fresh > 0.9 && fresh <= 1.0, "Fresh score: {}", fresh);
    record.record_launch(now);
    record.record_launch(now);
    let new_score = score(&record, now);
    assert!(new_score > fresh, "Score should increase with more launches");
}

#[test]
fn test_top_programs() {
    let now = at(NOW);
    let mut data = UsageData::default();
    data.record_program_launch("/usr/bin/firefox", "Firefox", now);
    data.record_program_launch("/usr/bin/firefox", "Firefox", now);
    data.record_program_launch("/usr/bin/code", "VS Code", now);
    let top = data.top_programs(2, now, &rank);
    assert_eq!(top.len(), 2);
    assert_eq!(top[0].name, "Firefox");
}

#[test]
fn score_halves_in_seven_days() {
    let record = UsageRecord::new("p".to_string(), "P".to_string(), at(NOW));
    assert_eq!(record.ages(at(NOW + WEEK)), vec![604_800]);
    assert_eq!(score(&record, at(NOW + WEEK)), 0.5);
    assert_eq!(score(&record, at(NOW + 2 * WEEK)), 0.25);
    assert_eq!(score(&record, at(NOW)), 1.0);
}

#[test]
fn launch_in_the_future_counts_in_full() {
    let record = UsageRecord::new("p".to_string(), "P".to_string(), at(NOW + 500));
    assert_eq!(record.ages(at(NOW)), vec![0]);
    assert_eq!(score(&record, at(NOW)), 1.0);
}

#[test]
fn ages_are_whole_seconds_rounded_down() {
    let then = Timestamp { secs: 100, nanos: 900_000_000 };
    assert_eq!(age_in_seconds(Timestamp { secs: 102, nanos: 899_999_999 }, then), 1);
    assert_eq!(age_in_seconds(Timestamp { secs: 102, nanos: 900_000_000 }, then), 2);
    assert_eq!(age_in_seconds(Timestamp { secs: 99, nanos: 0 }, then), 0);
    assert_eq!(age_in_seconds(Timestamp { secs: i64::MAX, nanos: 0 }, Timestamp { secs: i64::MIN, nanos: 0 }), u64::MAX);
    assert_eq!(age_in_seconds(Timestamp { secs: -5, nanos: 0 }, Timestamp { secs: -8, nanos: 1 }), 2);
}

#[test]
fn ages_grow_with_time() {
    let mut record = UsageRecord::new("p".to_string(), "P".to_string(), at(NOW));
    record.record_launch(at(NOW + 10));
    let early = record.ages(at(NOW + 20));
    let late = record.ages(at(NOW + 50));
    assert_eq!(early, vec![20, 10]);
    assert_eq!(late, vec![50, 40]);
    assert!(score(&record, at(NOW + 50)) < score(&record, at(NOW + 20)));
}

#[test]
fn record_keeps_the_last_hundred_launches() {
    let mut record = UsageRecord::new("p".to_string(), "P".to_string(), at(0));
    for i in 1..150 {
        record.record_launch(at(i));
    }
    assert_eq!(record.launches.len(), 100);
    assert_eq!(record.launches[0], at(50));
    assert_eq!(record.launches[99], at(149));
    let mut long = UsageRecord {
        path: "q".to_string(),
        name: "Q".to_string(),
        launches: (0..250).map(at).collect(),
    };
    long.record_launch(at(999));
    assert_eq!(long.launches.len(), 100);
    assert_eq!(long.launches[0], at(151));
    assert_eq!(long.launches[99], at(999));
}

#[test]
fn one_record_for_each_path() {
    let mut data = UsageData::default();
    data.record_program_launch("/a", "A", at(1));
    data.record_program_launch("/b", "B", at(2));
    data.record_program_launch("/a", "A again", at(3));
    data.record_document_open("/a", "Doc", at(4));
    assert_eq!(data.programs.len(), 2);
    assert_eq!(data.programs[0].path, "/a");
    assert_eq!(data.programs[0].name, "A");
    assert_eq!(data.programs[0].launches, vec![at(1), at(3)]);
    assert_eq!(data.programs[1].launches, vec![at(2)]);
    assert_eq!(data.documents.len(), 1);
    assert_eq!(data.documents[0].name, "Doc");
    let mut records = Vec::new();
    record_in(&mut records, "/x", "X", at(9));
    record_in(&mut records, "/x", "X", at(10));
    assert_eq!(records.len(), 1);
    assert_eq!(records[0].launches, vec![at(9), at(10)]);
}

#[test]
fn top_is_stable_and_bounded() {
    let a = UsageRecord::new("/a".to_string(), "A".to_string(), at(1));
    let b = UsageRecord::new("/b".to_string(), "B".to_string(), at(1));
    let c = UsageRecord::new("/c".to_string(), "C".to_string(), at(1));
    let d = UsageRecord::new("/d".to_string(), "D".to_string(), at(1));
    let rated = vec![
        Rated { record: &a, rank: 5 },
        Rated { record: &b, rank: 9 },
        Rated { record: &c, rank: 5 },
        Rated { record: &d, rank: 7 },
    ];
    let names = |top: Vec<&UsageRecord>| top.iter().map(|r| r.name.clone()).collect::<Vec<_>>();
    assert_eq!(names(top_ranked(&rated, 10)), vec!["B", "D", "A", "C"]);
    assert_eq!(names(top_ranked(&rated, 3)), vec!["B", "D", "A"]);
    assert_eq!(names(top_ranked(&rated, 0)), Vec::<String>::new());
}

#[test]
fn top_documents_ranks_by_recency() {
    let mut data = UsageData::default();
    data.record_document_open("/old", "Old", at(NOW - 30 * 86_400));
    data.record_document_open("/new", "New", at(NOW - 60));
    data.record_document_open("/mid", "Mid", at(NOW - 86_400));
    let top = data.top_documents(2, at(NOW), &rank);
    assert_eq!(top.len(), 2);
    assert_eq!(top[0].name, "New");
    assert_eq!(top[1].name, "Mid");
}

#[test]
fn cleanup_removes_what_decayed() {
    let mut data = UsageData::default();
    // 0.01 is reached after log2(100) half-lives, about 46.5 days
    data.record_program_launch("/stale", "Stale", at(NOW - 47 * 86_400));
    data.record_program_launch("/kept", "Kept", at(NOW - 46 * 86_400));
    data.record_document_open("/gone", "Gone", at(NOW - 400 * 86_400));
    data.cleanup(at(NOW), &rank, floor());
    assert_eq!(data.programs.len(), 1);
    assert_eq!(data.programs[0].name, "Kept");
    assert!(data.documents.is_empty());
    assert_eq!(data.last_cleanup, Some(at(NOW)));
}

#[test]
fn cleanup_with_given_ranks() {
    let mut data = UsageData::default();
    data.record_program_launch("/a", "A", at(1));
    data.record_program_launch("/b", "B", at(1));
    data.record_program_launch("/c", "C", at(1));
    data.record_document_open("/d", "D", at(1));
    data.cleanup_ranked(&vec![3, 10, 9], &vec![], 10, at(50));
    assert_eq!(data.programs.len(), 1);
    assert_eq!(data.programs[0].name, "B");
    // a record without a rank stays
    assert_eq!(data.documents.len(), 1);
    assert_eq!(data.last_cleanup, Some(at(50)));
    let kept = retain_ranked(data.programs.clone(), &vec![10], 10);
    assert_eq!(kept.len(), 1);
    let none = retain_ranked(data.programs.clone(), &vec![9], 10);
    assert!(none.is_empty());
}

#[test]
fn cleanup_is_due_after_more_than_a_day() {
    let mut data = UsageData::default();
    data.record_program_launch("/stale", "Stale", at(NOW - 400 * 86_400));
    assert!(data.maybe_cleanup(at(NOW), &rank, floor()));
    assert_eq!(data.last_cleanup, Some(at(NOW)));
    assert!(data.programs.is_empty());
    data.record_program_launch("/stale", "Stale", at(NOW - 400 * 86_400));
    assert!(!data.maybe_cleanup(at(NOW + 3_600), &rank, floor()));
    assert!(!data.maybe_cleanup(at(NOW + 86_400), &rank, floor()));
    assert_eq!(data.programs.len(), 1);
    assert_eq!(data.last_cleanup, Some(at(NOW)));
    assert!(data.maybe_cleanup(Timestamp { secs: NOW + 86_400, nanos: 1 }, &rank, floor()));
    assert!(data.programs.is_empty());
    assert!(is_more_than_seconds(at(10), at(0), 9));
    assert!(!is_more_than_seconds(at(10), at(0), 10));
}

#[test]
fn tracker_saves_only_what_changed() {
    let mut data = UsageData::default();
    data.record_program_launch("/stale", "Stale", at(NOW - 400 * 86_400));
    let mut tracker = UsageTracker::new(data, at(NOW), &rank, floor());
    assert!(!tracker.dirty);
    assert!(tracker.data.programs.is_empty());
    let mut writes = 0;
    let done: Result<(), String> = tracker.save_if_dirty(|_| {
        writes += 1;
        Ok(())
    });
    assert_eq!(done, Ok(()));
    assert_eq!(writes, 0);
    tracker.record_program("/usr/bin/firefox", "Firefox", at(NOW));
    assert!(tracker.dirty);
    let failed: Result<(), String> = tracker.save_if_dirty(|_| Err("disk full".to_string()));
    assert_eq!(failed, Err("disk full".to_string()));
    assert!(tracker.dirty);
    let mut seen = 0;
    let done: Result<(), String> = tracker.save_if_dirty(|d| {
        seen = d.programs.len();
        Ok(())
    });
    assert_eq!(done, Ok(()));
    assert_eq!(seen, 1);
    assert!(!tracker.dirty);
    let done: Result<(), String> = tracker.save_if_dirty(|_| Err("not called".to_string()));
    assert_eq!(done, Ok(()));
    let forced: Result<(), String> = tracker.save(|_| Err("disk full".to_string()));
    assert!(forced.is_err());
    assert!(!tracker.dirty);
    tracker.record_document("/doc", "Doc", at(NOW));
    let forced: Result<(), String> = tracker.save(|_| Ok(()));
    assert!(forced.is_ok());
    assert!(!tracker.dirty);
}

#[test]
fn tracker_files_launches_by_kind() {
    let item = |kind, path: &str| LaunchItem {
        name: path.to_uppercase(),
        path: path.to_string(),
        icon: None,
        args: vec![],
        item_type: kind,
    };
    let mut tracker = UsageTracker { data: UsageData::default(), dirty: false };
    tracker.record_item(&item(ItemType::Program, "prog"), at(1));
    tracker.record_item(&item(ItemType::Shortcut, "short"), at(2));
    tracker.record_item(&item(ItemType::Document, "doc"), at(3));
    assert_eq!(tracker.data.programs.len(), 2);
    assert_eq!(tracker.data.documents.len(), 1);
    assert_eq!(tracker.data.documents[0].name, "DOC");
    assert!(tracker.dirty);
    let top = tracker.top_programs(1, at(10), &rank);
    assert_eq!(top[0].name, "SHORT");
    let docs = tracker.top_documents(5, at(10), &rank);
    assert_eq!(docs.len(), 1);
}

fn record_to_json(record: &UsageRecord) -> serde_json::Value {
    let mut object = serde_json::Map::new();
    object.insert("path".to_string(), serde_json::Value::from(record.path.clone()));
    object.insert("name".to_string(), serde_json::Value::from(record.name.clone()));
    let launches: Vec<serde_json::Value> = record
        .launches
        .iter()
        .map(|t| {
            let time = chrono::DateTime::from_timestamp(t.secs, t.nanos).unwrap();
            serde_json::Value::from(time.to_rfc3339_opts(chrono::SecondsFormat::AutoSi, true))
        })
        .collect();
    object.insert("launches".to_string(), serde_json::Value::Array(launches));
    serde_json::Value::Object(object)
}

fn records_to_json(records: &[UsageRecord]) -> serde_json::Value {
    let mut object = serde_json::Map::new();
    for record in records {
        object.insert(record.path.clone(), record_to_json(record));
    }
    serde_json::Value::Object(object)
}

fn ledger_to_json(data: &UsageData) -> String {
    let mut object = serde_json::Map::new();
    object.insert("programs".to_string(), records_to_json(&data.programs));
    object.insert("documents".to_string(), records_to_json(&data.documents));
    let last = match data.last_cleanup {
        Some(t) => serde_json::Value::from(
            chrono::DateTime::from_timestamp(t.secs, t.nanos)
                .unwrap()
                .to_rfc3339_opts(chrono::SecondsFormat::AutoSi, true),
        ),
        None => serde_json::Value::Null,
    };
    object.insert("last_cleanup".to_string(), last);
    serde_json::to_string_pretty(&serde_json::Value::Object(object)).unwrap()
}

fn time_from_json(value: &serde_json::Value) -> Timestamp {
    let time = chrono::DateTime::parse_from_rfc3339(value.as_str().unwrap()).unwrap();
    Timestamp { secs: time.timestamp(), nanos: time.timestamp_subsec_nanos() }
}

fn records_from_json(value: &serde_json::Value) -> Vec<UsageRecord> {
    value
        .as_object()
        .unwrap()
        .values()
        .map(|record| UsageRecord {
            path: record["path"].as_str().unwrap().to_string(),
            name: record["name"].as_str().unwrap().to_string(),
            launches: record["launches"].as_array().unwrap().iter().map(time_from_json).collect(),
        })
        .collect()
}

fn ledger_from_json(json: &str) -> UsageData {
    let value: serde_json::Value = serde_json::from_str(json).unwrap();
    UsageData {
        programs: records_from_json(&value["programs"]),
        documents: records_from_json(&value["documents"]),
        last_cleanup: if value["last_cleanup"].is_null() {
            None
        } else {
            Some(time_from_json(&value["last_cleanup"]))
        },
    }
}

#[test]
fn ledger_survives_its_file_format() {
    let mut data = UsageData::default();
    data.record_program_launch("/usr/bin/code", "VS Code", Timestamp { secs: NOW, nanos: 123_456_789 });
    data.record_program_launch("/usr/bin/firefox", "Firefox", at(NOW - 5));
    data.record_program_launch("/usr/bin/firefox", "Firefox", Timestamp { secs: NOW, nanos: 1_000 });
    data.record_document_open("/home/me/notes \"draft\".txt", "notes", at(-86_400));
    data.cleanup_ranked(&vec![], &vec![], 0, at(NOW + 1));
    let saved = ledger_to_json(&data);
    let loaded = ledger_from_json(&saved);
    assert_eq!(loaded.programs.len(), 2);
    for (a, b) in loaded.programs.iter().zip(data.programs.iter()) {
        assert_eq!(a.path, b.path);
        assert_eq!(a.name, b.name);
        assert_eq!(a.launches, b.launches);
    }
    assert_eq!(loaded.documents[0].path, data.documents[0].path);
    assert_eq!(loaded.documents[0].launches, data.documents[0].launches);
    assert_eq!(loaded.last_cleanup, data.last_cleanup);
    assert_eq!(ledger_to_json(&loaded), saved);
    let empty = UsageData::default();
    assert_eq!(ledger_to_json(&ledger_from_json(&ledger_to_json(&empty))), ledger_to_json(&empty));
}

#[test]
fn loaded_ledger_has_one_record_for_each_path() {
    let record = |path: &str, name: &str| UsageRecord::new(path.to_string(), name.to_string(), at(1));
    let data = UsageData::from_parts(
        vec![record("/a", "first"), record("/b", "B"), record("/a", "second")],
        vec![record("/a", "doc"), record("/a", "doc again")],
        Some(at(7)),
    );
    assert_eq!(data.programs.len(), 2);
    assert_eq!(data.programs[0].name, "first");
    assert_eq!(data.programs[1].name, "B");
    assert_eq!(data.documents.len(), 1);
    assert_eq!(data.documents[0].name, "doc");
    assert_eq!(data.last_cleanup, Some(at(7)));
}
