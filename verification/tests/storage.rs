use log_analyzer::analyzer::LogAnalyzer;
use log_analyzer::storage::read_record;

fn store_of(rows: &[(&str, &str, &str)]) -> LogAnalyzer {
    let mut store = LogAnalyzer::new();
    for (timestamp, level, message) in rows {
        store.add_entry_with_timestamp(
            timestamp.to_string(),
            level.to_string(),
            message.to_string(),
        );
    }
    store
}

fn fields(store: &LogAnalyzer) -> Vec<(&str, &str, &str)> {
    store
        .entries
        .iter()
        .map(|e| (e.timestamp.as_str(), e.level.as_str(), e.message.as_str()))
        .collect()
}

#[test]
fn save_writes_one_line_for_each_entry() {
    let store = store_of(&[("t1", "INFO", "started"), ("t2", "ERROR", "failed | badly")]);
    assert_eq!(store.save_to_string(), "t1|INFO|started\nt2|ERROR|failed | badly\n");
}

#[test]
fn save_of_empty_store_is_empty() {
    assert_eq!(LogAnalyzer::new().save_to_string(), "");
}

#[test]
fn load_reads_lines_in_file_order() {
    let mut store = LogAnalyzer::new();
    store.load_from_bytes(b"t1|INFO|started\nt2|ERROR|failed\nt3|INFO|done\n");
    assert_eq!(
        fields(&store),
        vec![("t1", "INFO", "started"), ("t2", "ERROR", "failed"), ("t3", "INFO", "done")]
    );
}

#[test]
fn load_reads_a_last_line_without_line_feed() {
    let mut store = LogAnalyzer::new();
    store.load_from_bytes(b"t1|INFO|started\nt2|ERROR|failed");
    assert_eq!(fields(&store), vec![("t1", "INFO", "started"), ("t2", "ERROR", "failed")]);
}

#[test]
fn load_drops_carriage_returns() {
    let mut store = LogAnalyzer::new();
    store.load_from_bytes(b"t1|INFO|started\r\nt2|ERROR|failed\r\n");
    assert_eq!(fields(&store), vec![("t1", "INFO", "started"), ("t2", "ERROR", "failed")]);
}

#[test]
fn load_skips_lines_with_fewer_than_two_separators() {
    let mut store = LogAnalyzer::new();
    store.load_from_bytes(b"t1|INFO|started\n2024-01-01 INFO\nt2|ERROR\n\n   \nt3|INFO|done\n");
    assert_eq!(fields(&store), vec![("t1", "INFO", "started"), ("t3", "INFO", "done")]);
}

#[test]
fn load_of_only_malformed_lines_adds_nothing() {
    let mut store = store_of(&[("t", "L", "m")]);
    store.load_from_bytes(b"2024-01-01 INFO\nno separators here\n");
    assert_eq!(fields(&store), vec![("t", "L", "m")]);
}

#[test]
fn load_skips_lines_that_are_not_utf8() {
    let mut store = LogAnalyzer::new();
    store.load_from_bytes(b"t1|INFO|ok\nt2|INFO|bad \xFF byte\nt3|INFO|\xC3\xA9t\xC3\xA9\n\xC3|a|b\n");
    assert_eq!(fields(&store), vec![("t1", "INFO", "ok"), ("t3", "INFO", "été")]);
}

#[test]
fn load_of_empty_content_adds_nothing() {
    let mut store = store_of(&[("t", "L", "m")]);
    store.load_from_bytes(b"");
    assert_eq!(store.count_total(), 1);
    store.load_from_bytes(b"\n\n\n");
    assert_eq!(store.count_total(), 1);
}

#[test]
fn load_appends_to_what_the_store_holds() {
    let mut store = store_of(&[("t0", "DEBUG", "kept")]);
    store.load_from_bytes(b"t1|INFO|started\n");
    assert_eq!(fields(&store), vec![("t0", "DEBUG", "kept"), ("t1", "INFO", "started")]);
}

#[test]
fn load_twice_doubles_the_count() {
    let data = b"t1|INFO|started\nbroken line\nt2|ERROR|failed\n";
    let mut store = LogAnalyzer::new();
    store.load_from_bytes(data);
    assert_eq!(store.count_total(), 2);
    store.load_from_bytes(data);
    assert_eq!(store.count_total(), 4);
    assert_eq!(
        fields(&store),
        vec![
            ("t1", "INFO", "started"),
            ("t2", "ERROR", "failed"),
            ("t1", "INFO", "started"),
            ("t2", "ERROR", "failed"),
        ]
    );
}

#[test]
fn save_then_load_gives_the_store_back() {
    let store = store_of(&[
        ("2024-01-01 10:00:00", "INFO", "started"),
        ("2024-01-01 10:00:01", "ERROR", "failed | twice | over"),
        ("", "", ""),
        ("2024-01-01 10:00:02", "INFO", "añadido ✓"),
    ]);
    let text = store.save_to_string();
    let mut back = LogAnalyzer::new();
    back.load_from_bytes(text.as_bytes());
    assert_eq!(fields(&back), fields(&store));
}

#[test]
fn save_then_load_of_empty_store_is_empty() {
    let store = LogAnalyzer::new();
    let text = store.save_to_string();
    let mut back = LogAnalyzer::new();
    back.load_from_bytes(text.as_bytes());
    assert_eq!(back.count_total(), 0);
}

#[test]
fn save_then_load_breaks_a_message_at_a_line_feed() {
    let store = store_of(&[("t", "INFO", "first\nsecond")]);
    let mut back = LogAnalyzer::new();
    back.load_from_bytes(store.save_to_string().as_bytes());
    assert_eq!(fields(&back), vec![("t", "INFO", "first")]);
}

#[test]
fn save_then_load_of_added_entries() {
    let mut store = LogAnalyzer::new();
    store.add_entry("INFO".to_string(), "started".to_string());
    store.add_entry("ERROR".to_string(), "failed to connect".to_string());
    let mut back = LogAnalyzer::new();
    back.load_from_bytes(store.save_to_string().as_bytes());
    assert_eq!(fields(&back), fields(&store));
}

#[test]
fn read_record_reads_one_line() {
    let e = read_record(b" t | L | m ").unwrap();
    assert_eq!(e.timestamp, "t");
    assert_eq!(e.level, "L");
    assert_eq!(e.message, "m");
}

#[test]
fn read_record_decodes_utf8() {
    let e = read_record("día|NIVEL|añadido".as_bytes()).unwrap();
    assert_eq!(e.timestamp, "día");
    assert_eq!(e.message, "añadido");
}

#[test]
fn read_record_rejects_invalid_utf8_and_short_lines() {
    assert!(read_record(b"t|L|\xFF").is_none());
    assert!(read_record(b"\xE2\x82|L|m").is_none());
    assert!(read_record(b"t|L").is_none());
    assert!(read_record(b"").is_none());
}
