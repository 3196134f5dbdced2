//! Settings and the store around them.

use mdm::config::{path, set_autostart, temp_path, Config, HostConc, Store, MAX_CONNECTIONS_CAP, SAVE_DEBOUNCE};

#[test]
fn defaults_are_sane() {
    let c = Config::default();
    assert_eq!(c.max_connections, 8);
    assert_eq!(c.speed_limit_kbps, 0); // no limit
    assert!(c.download_dir.is_empty()); // the system's folder
    assert_eq!(c.max_concurrent_downloads, 3);
    assert_eq!(c.size_threshold_mb, 10);
    assert_eq!(c.auto_retry, 3);
    assert!(c.notify_on_complete);
    assert!(!c.clipboard_watch);
    assert!(!c.autostart);
    assert_eq!(c.host_conc.len(), 0);
}

#[test]
fn clamp_tames_hand_edited_files() {
    let mut c = Config { max_connections: 999, max_concurrent_downloads: 0, ..Config::default() };
    c.clamp();
    assert_eq!(c.max_connections, MAX_CONNECTIONS_CAP);
    assert_eq!(c.max_concurrent_downloads, 1);
}

#[test]
fn clamping_twice_is_clamping_once() {
    let mut c = Config {
        max_connections: 0,
        max_concurrent_downloads: 21,
        size_threshold_mb: 100_001,
        auto_retry: 11,
        speed_limit_kbps: u64::MAX,
        ..Config::default()
    };
    c.clamp();
    let once = c.clone();
    c.clamp();
    assert_eq!((c.max_connections, c.max_concurrent_downloads), (1, 20));
    assert_eq!((c.size_threshold_mb, c.auto_retry), (100_000, 10));
    assert_eq!(c.speed_limit_kbps, u64::MAX);
    assert_eq!(once.max_connections, c.max_connections);
    assert_eq!(once.max_concurrent_downloads, c.max_concurrent_downloads);
    assert_eq!(once.size_threshold_mb, c.size_threshold_mb);
    assert_eq!(once.auto_retry, c.auto_retry);
}

#[test]
fn edit_then_flush_roundtrips() {
    let mut s = Store::default();
    s.edit(|c| c.speed_limit_kbps = 1234, 0);
    assert_eq!(s.get().speed_limit_kbps, 1234);
    // nothing is written yet: the edit is too recent
    assert!(s.is_dirty());
    assert!(s.flush_due(SAVE_DEBOUNCE - 1).is_none());
    assert!(s.is_dirty());
    // a second later it is
    let saved = s.flush_due(SAVE_DEBOUNCE).expect("the edit is due");
    assert_eq!(saved.speed_limit_kbps, 1234);
    assert!(!s.is_dirty());
    assert!(s.flush_due(10 * SAVE_DEBOUNCE).is_none());
}

#[test]
fn only_one_save_is_under_way() {
    let mut s = Store::default();
    assert!(s.save_now().is_some());
    assert!(s.save_now().is_none());
    s.saved();
    assert!(s.save_now().is_some());
}

#[test]
fn edits_are_clamped() {
    let mut s = Store::default();
    s.edit(|c| c.max_connections = 400, 0);
    assert_eq!(s.get().max_connections, 16);
    s.edit(|c| c.max_connections = 0, 0);
    assert_eq!(s.get().max_connections, 1);
}

#[test]
fn a_missing_file_is_written_at_once() {
    let (s, missing) = Store::load(None);
    assert!(missing);
    assert_eq!(s.get().max_connections, 8);
    let (s, missing) = Store::load(Some(Config { auto_retry: 99, ..Config::default() }));
    assert!(!missing);
    assert_eq!(s.get().auto_retry, 10);
}

#[test]
fn hosts_come_and_go() {
    let mut h = HostConc::new();
    h.insert("a.b".to_string(), 4);
    h.insert("c.d".to_string(), 2);
    h.insert("a.b".to_string(), 3);
    assert_eq!(h.len(), 2);
    assert_eq!(h.get("a.b"), Some(3));
    assert_eq!(h.get("c.d"), Some(2));
    assert_eq!(h.get("e.f"), None);
    let copy = h.clone();
    h.remove("a.b");
    h.remove("nobody");
    assert_eq!(h.get("a.b"), None);
    assert_eq!(h.len(), 1);
    assert_eq!(copy.get("a.b"), Some(3));
    assert_eq!(copy.entries().len(), 2);
    h.clear();
    assert_eq!(h.len(), 0);
}

#[test]
fn settings_have_their_place() {
    let p = path("/data");
    assert_eq!((p.dir.as_str(), p.name.as_str()), ("/data", "config.json"));
    assert_eq!(temp_path("/data").name, "config.json.tmp");
}

#[test]
fn autostart_quotes_the_program() {
    assert_eq!(set_autostart(true, r"C:\Program Files\mdm.exe"), Some(r#""C:\Program Files\mdm.exe""#.to_string()));
    assert_eq!(set_autostart(false, "x"), None);
}
