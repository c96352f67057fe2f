use log_view::settings::Dirs;
use log_view::settings::Settings;
use log_view::settings::default_local_path;

fn empty() -> Settings {
    Settings {
        open_paths: Vec::new(),
        recent_paths: Vec::new(),
    }
}

#[test]
fn open_twice_reports_new_then_known() {
    let mut s = empty();
    assert!(s.open("p.log".to_string()));
    assert!(!s.open("p.log".to_string()));
    assert_eq!(s.recent_paths, vec!["p.log".to_string()]);
    assert_eq!(s.open_paths, vec!["p.log".to_string()]);
}

#[test]
fn reopening_moves_to_front_without_duplicates() {
    let mut s = empty();
    s.open("a.log".to_string());
    s.open("b.log".to_string());
    s.open("a.log".to_string());
    assert_eq!(
        s.recent_paths,
        vec!["a.log".to_string(), "b.log".to_string()]
    );
}

#[test]
fn close_of_unopened_path_is_a_no_op() {
    let mut s = empty();
    s.open("a.log".to_string());
    let before_open = s.open_paths.clone();
    let before_recent = s.recent_paths.clone();
    assert!(!s.close(&"b.log".to_string()));
    assert_eq!(s.open_paths, before_open);
    assert_eq!(s.recent_paths, before_recent);
}

#[test]
fn close_keeps_recent_history() {
    let mut s = empty();
    s.open("a.log".to_string());
    assert!(s.close(&"a.log".to_string()));
    assert!(s.open_paths.is_empty());
    assert_eq!(s.recent_paths, vec!["a.log".to_string()]);
}

#[test]
fn remove_recent_strips_history() {
    let mut s = empty();
    s.open("a.log".to_string());
    s.open("b.log".to_string());
    s.remove_recent(&"a.log".to_string());
    assert_eq!(s.recent_paths, vec!["b.log".to_string()]);
}

#[test]
fn save_load_round_trip() {
    let mut s = empty();
    s.open("a.log".to_string());
    s.open("b.log".to_string());
    s.close(&"a.log".to_string());
    let bytes = s.save();
    let loaded = Settings::load(Some(bytes));
    assert_eq!(loaded.open_paths, s.open_paths);
    assert_eq!(loaded.recent_paths, s.recent_paths);
}

#[test]
fn load_of_nothing_is_empty() {
    let loaded = Settings::load(None);
    assert!(loaded.open_paths.is_empty());
    assert!(loaded.recent_paths.is_empty());
}

#[test]
fn load_of_garbage_is_empty() {
    let loaded = Settings::load(Some(b"not json at all".to_vec()));
    assert!(loaded.open_paths.is_empty());
    assert!(loaded.recent_paths.is_empty());
}

#[test]
fn load_of_old_schema_keeps_recent() {
    let loaded = Settings::load(Some(b"{\"recent\":[\"x.log\",\"y.log\"]}".to_vec()));
    assert_eq!(
        loaded.recent_paths,
        vec!["x.log".to_string(), "y.log".to_string()]
    );
    assert!(loaded.open_paths.is_empty());
}

#[test]
fn load_dedups_repeated_paths() {
    let loaded = Settings::load(Some(
        b"{\"open\":[\"a\",\"a\"],\"recent\":[\"b\",\"c\",\"b\"]}".to_vec(),
    ));
    assert_eq!(loaded.open_paths, vec!["a".to_string()]);
    assert_eq!(loaded.recent_paths, vec!["b".to_string(), "c".to_string()]);
}

#[test]
fn saved_document_shape() {
    let mut s = empty();
    s.open("a.log".to_string());
    let text = String::from_utf8(s.save()).unwrap();
    assert_eq!(text, "{\"open\":[\"a.log\"],\"recent\":[\"a.log\"]}");
}

#[test]
fn fallback_directories() {
    assert_eq!(default_local_path(), ".log-view-settings/");
    let d = Dirs::FromBase;
    assert_eq!(d.config_dir(), ".log-view-settings/config");
    assert_eq!(d.settings_file(), ".log-view-settings/config/settings.json");
    let p = Dirs::Proj("/home/someone/.config/log-view".to_string());
    assert_eq!(
        p.settings_file(),
        "/home/someone/.config/log-view/settings.json"
    );
}
