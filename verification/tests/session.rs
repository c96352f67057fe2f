use log_view::session::AppState;
use log_view::settings::Settings;

fn fresh() -> AppState {
    AppState::from_settings(Settings {
        open_paths: Vec::new(),
        recent_paths: Vec::new(),
    })
}

fn line(message: &str) -> String {
    format!(
        "{{\"level\":\"INFO\",\"target\":\"x\",\"message\":\"{}\",\"data\":{{}}}}",
        message
    )
}

#[test]
fn open_reports_new_then_known() {
    let mut app = fresh();
    assert!(app.open("p.log".to_string()));
    assert!(!app.open("p.log".to_string()));
    assert_eq!(app.get_recent_files(), vec!["p.log".to_string()]);
    assert_eq!(app.get_open_files(), vec!["p.log".to_string()]);
}

#[test]
fn recent_list_orders_most_recent_first() {
    let mut app = fresh();
    app.open("a.log".to_string());
    app.open("b.log".to_string());
    app.open("a.log".to_string());
    assert_eq!(
        app.get_recent_files(),
        vec!["a.log".to_string(), "b.log".to_string()]
    );
}

#[test]
fn remove_recent_forgets_everywhere() {
    let mut app = fresh();
    app.open("a.log".to_string());
    app.remove_recent(&"a.log".to_string());
    assert!(app.get_open_files().is_empty());
    assert!(app.get_recent_files().is_empty());
    assert!(app
        .get(&"a.log".to_string(), Some(line("hi").into_bytes()))
        .is_none());
}

#[test]
fn get_returns_records_of_open_file_and_caches_them() {
    let mut app = fresh();
    app.open("a.log".to_string());
    assert!(app.needs_read(&"a.log".to_string()));
    let first = app
        .get(&"a.log".to_string(), Some(line("hi").into_bytes()))
        .unwrap();
    assert_eq!(first.len(), 1);
    assert_eq!(first[0].message, "hi");
    assert!(!app.needs_read(&"a.log".to_string()));
    let second = app.get(&"a.log".to_string(), None).unwrap();
    assert_eq!(second.len(), 1);
    assert_eq!(second[0].message, "hi");
}

#[test]
fn get_does_not_open_files() {
    let mut app = fresh();
    assert!(app
        .get(&"a.log".to_string(), Some(line("hi").into_bytes()))
        .is_none());
    assert!(app.get_open_files().is_empty());
    assert!(app.get_recent_files().is_empty());
}

#[test]
fn get_bumps_recency() {
    let mut app = fresh();
    app.open("a.log".to_string());
    app.open("b.log".to_string());
    let _ = app.get(&"a.log".to_string(), None);
    assert_eq!(
        app.get_recent_files(),
        vec!["a.log".to_string(), "b.log".to_string()]
    );
}

#[test]
fn close_keeps_history_and_reports_state() {
    let mut app = fresh();
    app.open("a.log".to_string());
    assert!(app.close(&"a.log".to_string()));
    assert!(!app.close(&"a.log".to_string()));
    assert!(app.get_open_files().is_empty());
    assert_eq!(app.get_recent_files(), vec!["a.log".to_string()]);
    assert!(app.get(&"a.log".to_string(), None).is_none());
}

#[test]
fn unreadable_open_file_yields_no_data() {
    let mut app = fresh();
    app.open("a.log".to_string());
    assert!(app.get(&"a.log".to_string(), None).is_none());
}

#[test]
fn session_restores_from_saved_settings() {
    let mut app = fresh();
    app.open("a.log".to_string());
    app.open("b.log".to_string());
    let bytes = app.settings().save();
    let mut restored = AppState::from_settings(Settings::load(Some(bytes)));
    assert_eq!(
        restored.get_open_files(),
        vec!["a.log".to_string(), "b.log".to_string()]
    );
    assert_eq!(
        restored.get_recent_files(),
        vec!["b.log".to_string(), "a.log".to_string()]
    );
    let records = restored
        .get(&"a.log".to_string(), Some(line("restored").into_bytes()))
        .unwrap();
    assert_eq!(records[0].message, "restored");
}
