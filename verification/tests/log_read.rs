use log_view::log_read::LogState;

fn record_line(message: &str) -> String {
    format!(
        "{{\"level\":\"INFO\",\"target\":\"x\",\"message\":\"{}\",\"data\":{{}}}}",
        message
    )
}

#[test]
fn unset_path_yields_no_data() {
    let mut cache = LogState::default();
    assert!(!cache.needs_read());
    cache.compute(None);
    assert!(cache.data().is_none());
}

#[test]
fn data_memoized_without_reread() {
    let mut cache = LogState::default();
    cache.set_file("a.log".to_string());
    let content = record_line("hi").into_bytes();
    let mut reads = 0;
    for _ in 0..3 {
        let handed = if cache.needs_read() {
            reads += 1;
            Some(content.clone())
        } else {
            None
        };
        cache.compute(handed);
    }
    assert_eq!(reads, 1);
    let first: Vec<String> = cache
        .data()
        .unwrap()
        .iter()
        .map(|r| r.message.clone())
        .collect();
    let second: Vec<String> = cache
        .data()
        .unwrap()
        .iter()
        .map(|r| r.message.clone())
        .collect();
    assert_eq!(first, second);
    assert_eq!(first, vec!["hi".to_string()]);
}

#[test]
fn set_file_invalidates_cache() {
    let mut cache = LogState::default();
    cache.set_file("a.log".to_string());
    cache.compute(Some(record_line("hi").into_bytes()));
    assert_eq!(cache.data().unwrap().len(), 1);
    cache.set_file("b.log".to_string());
    assert!(cache.needs_read());
    cache.compute(None);
    assert!(cache.data().is_none());
}

#[test]
fn invalid_lines_are_skipped_in_order() {
    let mut cache = LogState::default();
    cache.set_file("a.log".to_string());
    let content = format!(
        "{}\nnot json\n{}\n{{\"level\":\"INFO\"}}\n{}\n",
        record_line("one"),
        record_line("two"),
        record_line("three")
    );
    cache.compute(Some(content.into_bytes()));
    let messages: Vec<String> = cache
        .data()
        .unwrap()
        .iter()
        .map(|r| r.message.clone())
        .collect();
    assert_eq!(
        messages,
        vec!["one".to_string(), "two".to_string(), "three".to_string()]
    );
}

#[test]
fn one_valid_one_invalid_line() {
    let mut cache = LogState::default();
    cache.set_file("a.log".to_string());
    let content = b"{\"level\":\"INFO\",\"target\":\"x\",\"message\":\"hi\",\"data\":{}}\nnot json".to_vec();
    cache.compute(Some(content));
    let records = cache.data().unwrap();
    assert_eq!(records.len(), 1);
    assert_eq!(records[0].message, "hi");
    assert_eq!(records[0].level, "INFO");
    assert_eq!(records[0].target, "x");
}

#[test]
fn crlf_lines_and_optional_fields() {
    let mut cache = LogState::default();
    cache.set_file("a.log".to_string());
    let content = "{\"level\":\"WARN\",\"target\":\"t\",\"message\":\"m\",\"line\":42,\"file\":\"f.rs\",\"data\":{\"k\":1},\"extra\":{\"task_id\":\"7\"}}\r\n".to_string();
    cache.compute(Some(content.into_bytes()));
    let records = cache.data().unwrap();
    assert_eq!(records.len(), 1);
    assert_eq!(records[0].line, Some(42));
    assert_eq!(records[0].file.as_deref(), Some("f.rs"));
    assert_eq!(records[0].extra.task_id.as_deref(), Some("7"));
    assert_eq!(records[0].extra.process_id, None);
    assert_eq!(records[0].data.len(), 1);
    assert_eq!(records[0].data[0].0, "k");
}

#[test]
fn bad_field_shapes_drop_the_line() {
    let mut cache = LogState::default();
    cache.set_file("a.log".to_string());
    let lines = [
        "{\"level\":\"INFO\",\"target\":\"x\",\"message\":\"ok\",\"data\":{}}",
        "{\"level\":\"INFO\",\"target\":\"x\",\"message\":\"no data member\"}",
        "{\"level\":\"INFO\",\"target\":\"x\",\"message\":\"huge\",\"line\":99999999999,\"data\":{}}",
        "{\"level\":\"INFO\",\"target\":\"x\",\"message\":\"null extra\",\"extra\":null,\"data\":{}}",
        "{\"level\":5,\"target\":\"x\",\"message\":\"bad level\",\"data\":{}}",
        "{\"level\":\"INFO\",\"target\":\"x\",\"message\":\"data not object\",\"data\":[]}",
    ];
    let content = lines.join("\n").into_bytes();
    cache.compute(Some(content));
    let records = cache.data().unwrap();
    assert_eq!(records.len(), 1);
    assert_eq!(records[0].message, "ok");
}

#[test]
fn unknown_members_are_ignored() {
    let mut cache = LogState::default();
    cache.set_file("a.log".to_string());
    let content =
        b"{\"level\":\"INFO\",\"target\":\"x\",\"message\":\"hi\",\"data\":{},\"other\":[1,2]}"
            .to_vec();
    cache.compute(Some(content));
    assert_eq!(cache.data().unwrap().len(), 1);
}

#[test]
fn empty_file_yields_empty_records() {
    let mut cache = LogState::default();
    cache.set_file("a.log".to_string());
    cache.compute(Some(Vec::new()));
    let records = cache.data().unwrap();
    assert!(records.is_empty());
}
