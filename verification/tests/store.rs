use log_analyzer::analyzer::LogAnalyzer;
use log_analyzer::entry::LogEntry;

fn store_of(rows: &[(&str, &str, &str)]) -> LogAnalyzer {
    let mut store = LogAnalyzer::new();
    for (timestamp, level, message) in rows {
        store.add_entry_with_timestamp(
            timestamp.to_string(),
            level.to_string(),
            message.to_string(),
        );
    }
    store
}

fn messages(entries: &[LogEntry]) -> Vec<&str> {
    entries.iter().map(|e| e.message.as_str()).collect()
}

fn sample() -> LogAnalyzer {
    store_of(&[
        ("2024-01-01 10:00:00", "INFO", "started"),
        ("2024-01-01 10:00:01", "ERROR", "failed to connect"),
        ("2024-01-01 10:00:02", "INFO", "retrying"),
        ("2024-01-01 10:00:03", "warning", "Disk FULL soon"),
        ("2024-01-01 10:00:04", "Error", "Failed again"),
    ])
}

#[test]
fn new_store_is_empty() {
    let store = LogAnalyzer::new();
    assert_eq!(store.count_total(), 0);
    assert!(store.entries.is_empty());
    assert!(store.get_statistics().is_empty());
    assert!(store.get_recent(5).is_empty());
    assert!(store.search("").is_empty());
    assert!(store.filter_by_level("INFO").is_empty());
}

#[test]
fn add_entry_with_timestamp_appends_at_the_end() {
    let mut store = sample();
    store.add_entry_with_timestamp("t".to_string(), "DEBUG".to_string(), "last".to_string());
    assert_eq!(store.count_total(), 6);
    let last = &store.entries[5];
    assert_eq!(last.timestamp, "t");
    assert_eq!(last.level, "DEBUG");
    assert_eq!(last.message, "last");
    assert_eq!(store.entries[0].message, "started");
}

#[test]
fn add_entry_accepts_empty_fields_and_duplicates() {
    let mut store = LogAnalyzer::new();
    store.add_entry(String::new(), String::new());
    store.add_entry(String::new(), String::new());
    assert_eq!(store.count_total(), 2);
    assert_eq!(store.entries[0].level, "");
    assert_eq!(store.entries[1].message, "");
}

#[test]
fn add_entry_stamps_the_local_time() {
    let before = chrono::Local::now().naive_local();
    let mut store = LogAnalyzer::new();
    store.add_entry("INFO".to_string(), "stamped".to_string());
    let after = chrono::Local::now().naive_local();
    let entry = &store.entries[0];
    assert_eq!(entry.level, "INFO");
    assert_eq!(entry.message, "stamped");
    let stamp = entry.timestamp.as_str();
    assert_eq!(stamp.len(), 19);
    let bytes = stamp.as_bytes();
    for (i, b) in bytes.iter().enumerate() {
        match i {
            4 | 7 => assert_eq!(*b, b'-'),
            10 => assert_eq!(*b, b' '),
            13 | 16 => assert_eq!(*b, b':'),
            _ => assert!(b.is_ascii_digit()),
        }
    }
    let shown = chrono::NaiveDateTime::parse_from_str(stamp, "%Y-%m-%d %H:%M:%S").unwrap();
    assert!(shown >= before - chrono::TimeDelta::seconds(1));
    assert!(shown <= after);
}

#[test]
fn filter_by_level_ignores_ascii_case() {
    let store = sample();
    let lower = store.filter_by_level("error");
    let upper = store.filter_by_level("ERROR");
    let mixed = store.filter_by_level("eRRoR");
    assert_eq!(messages(&lower), vec!["failed to connect", "Failed again"]);
    assert_eq!(messages(&upper), messages(&lower));
    assert_eq!(messages(&mixed), messages(&lower));
    assert_eq!(lower[0].timestamp, "2024-01-01 10:00:01");
    assert_eq!(lower[0].level, "ERROR");
    assert_eq!(lower[1].level, "Error");
}

#[test]
fn filter_by_level_keeps_order_and_store() {
    let store = sample();
    let found = store.filter_by_level("info");
    assert_eq!(messages(&found), vec!["started", "retrying"]);
    assert_eq!(store.count_total(), 5);
    assert!(store.filter_by_level("INF").is_empty());
    assert!(store.filter_by_level("").is_empty());
}

#[test]
fn search_with_empty_query_returns_everything() {
    let store = sample();
    let found = store.search("");
    assert_eq!(
        messages(&found),
        vec!["started", "failed to connect", "retrying", "Disk FULL soon", "Failed again"]
    );
    assert_eq!(found[3].level, "warning");
    assert_eq!(found[3].timestamp, "2024-01-01 10:00:03");
}

#[test]
fn search_without_match_returns_nothing() {
    let store = sample();
    assert!(store.search("timeout").is_empty());
    assert!(store.search("startedd").is_empty());
    assert!(store.search("INFO").is_empty());
}

#[test]
fn search_lowers_the_query() {
    let store = sample();
    assert_eq!(messages(&store.search("FAIL")), vec!["failed to connect", "Failed again"]);
    assert_eq!(messages(&store.search("Retry")), vec!["retrying"]);
}

#[test]
fn search_lowers_the_messages() {
    let store = sample();
    assert_eq!(messages(&store.search("full")), vec!["Disk FULL soon"]);
    assert_eq!(messages(&store.search("failed")), vec!["failed to connect", "Failed again"]);
}

#[test]
fn search_lowers_beyond_ascii() {
    let store = store_of(&[("t", "INFO", "ÉCHEC de l'opération"), ("t", "INFO", "succès")]);
    assert_eq!(messages(&store.search("échec")), vec!["ÉCHEC de l'opération"]);
    assert_eq!(messages(&store.search("SUCCÈS")), vec!["succès"]);
}

#[test]
fn search_reads_messages_only() {
    let store = sample();
    assert!(store.search("2024").is_empty());
    assert!(store.search("warning").is_empty());
}

#[test]
fn statistics_count_each_level_as_written() {
    let store = sample();
    let rows = store.get_statistics();
    assert_eq!(
        rows,
        vec![
            ("INFO".to_string(), 2),
            ("ERROR".to_string(), 1),
            ("warning".to_string(), 1),
            ("Error".to_string(), 1),
        ]
    );
}

#[test]
fn statistics_sum_to_the_total() {
    let mut store = sample();
    store.add_entry_with_timestamp("t".to_string(), "INFO".to_string(), "again".to_string());
    store.add_entry_with_timestamp("t".to_string(), "".to_string(), "no level".to_string());
    let rows = store.get_statistics();
    let sum: usize = rows.iter().map(|row| row.1).sum();
    assert_eq!(sum, store.count_total());
    assert_eq!(sum, 7);
    assert_eq!(rows[0], ("INFO".to_string(), 3));
    assert_eq!(rows[4], ("".to_string(), 1));
}

#[test]
fn count_total_follows_the_store() {
    let mut store = LogAnalyzer::new();
    assert_eq!(store.count_total(), 0);
    store.add_entry_with_timestamp("t".to_string(), "A".to_string(), "m".to_string());
    assert_eq!(store.count_total(), 1);
    store.add_entry_with_timestamp("t".to_string(), "A".to_string(), "m".to_string());
    assert_eq!(store.count_total(), 2);
}

#[test]
fn recent_of_zero_is_empty() {
    assert!(sample().get_recent(0).is_empty());
}

#[test]
fn recent_returns_the_last_entries_in_order() {
    let store = sample();
    assert_eq!(messages(&store.get_recent(1)), vec!["Failed again"]);
    assert_eq!(messages(&store.get_recent(2)), vec!["Disk FULL soon", "Failed again"]);
    assert_eq!(store.get_recent(2)[0].timestamp, "2024-01-01 10:00:03");
}

#[test]
fn recent_of_more_than_the_store_holds_is_everything() {
    let store = sample();
    let all = vec!["started", "failed to connect", "retrying", "Disk FULL soon", "Failed again"];
    assert_eq!(messages(&store.get_recent(5)), all);
    assert_eq!(messages(&store.get_recent(6)), all);
    assert_eq!(messages(&store.get_recent(usize::MAX)), all);
}

#[test]
fn clear_empties_the_store() {
    let mut store = sample();
    store.clear();
    assert_eq!(store.count_total(), 0);
    assert!(store.search("").is_empty());
    store.add_entry_with_timestamp("t".to_string(), "A".to_string(), "m".to_string());
    assert_eq!(store.count_total(), 1);
}

#[test]
fn added_entries_are_counted_filtered_searched_and_tallied() {
    let mut store = LogAnalyzer::new();
    store.add_entry("INFO".to_string(), "started".to_string());
    store.add_entry("ERROR".to_string(), "failed to connect".to_string());
    store.add_entry("INFO".to_string(), "retrying".to_string());
    assert_eq!(store.count_total(), 3);
    assert_eq!(messages(&store.filter_by_level("INFO")), vec!["started", "retrying"]);
    assert_eq!(messages(&store.search("fail")), vec!["failed to connect"]);
    let mut rows = store.get_statistics();
    rows.sort();
    assert_eq!(rows, vec![("ERROR".to_string(), 1), ("INFO".to_string(), 2)]);
    assert_eq!(messages(&store.get_recent(2)), vec!["failed to connect", "retrying"]);
}
