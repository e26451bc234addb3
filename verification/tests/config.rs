use slimsync::config::config_path;
use slimsync::config::load;
use slimsync::config::pattern_excludes;
use slimsync::config::read_settings;
use slimsync::config::resolve;
use slimsync::config::ConfigError;
use slimsync::config::RawConfig;
use slimsync::config::WatchConfig;

fn watch(patterns: &[&str]) -> WatchConfig {
    WatchConfig {
        dirs: Vec::new(),
        debounce_ms: 200,
        exclude_patterns: patterns.iter().map(|p| p.to_string()).collect(),
    }
}

#[test]
fn an_empty_file_gives_the_defaults() {
    let cfg = load("").unwrap();
    assert_eq!(cfg.log_level, "info");
    assert_eq!(cfg.dev_id, 1);
    assert!(cfg.watch.dirs.is_empty());
    assert_eq!(cfg.watch.debounce_ms, 200);
    assert!(cfg.watch.exclude_patterns.is_empty());
    assert_eq!(cfg.crypto.key_file, "/etc/slimsync/key.age");
    assert_eq!(cfg.crypto.salt_file, "/etc/slimsync/salt.bin");
    assert_eq!(cfg.storage.db_path, "/var/lib/slimsync/slimsync.db");
    assert_eq!(cfg.zenoh.mode, "client");
    assert!(cfg.zenoh.connect.is_empty());
    assert_eq!(cfg.zenoh.timeout_ms, 5000);
}

#[test]
fn a_full_file_is_read() {
    let text = "[general]\nlog_level = \"debug\"\ndev_id = 42\n\
        [watch]\ndirs = [\"/a\", 3, \"/b\"]\ndebounce_ms = 50\nexclude = [\"*.tmp\", \"*.swp\"]\n\
        [crypto]\nkey_file = \"/k\"\nsalt_file = \"/s\"\n\
        [storage]\ndb_path = \"/db\"\n\
        [zenoh]\nmode = \"peer\"\nconnect = [\"tcp/h:1\"]\ntimeout_ms = 7\n";
    let cfg = load(text).unwrap();
    assert_eq!(cfg.log_level, "debug");
    assert_eq!(cfg.dev_id, 42);
    assert_eq!(cfg.watch.dirs, vec!["/a", "/b"]);
    assert_eq!(cfg.watch.debounce_ms, 50);
    assert_eq!(cfg.watch.exclude_patterns, vec!["*.tmp", "*.swp"]);
    assert_eq!(cfg.crypto.key_file, "/k");
    assert_eq!(cfg.crypto.salt_file, "/s");
    assert_eq!(cfg.storage.db_path, "/db");
    assert_eq!(cfg.zenoh.mode, "peer");
    assert_eq!(cfg.zenoh.connect, vec!["tcp/h:1"]);
    assert_eq!(cfg.zenoh.timeout_ms, 7);
}

#[test]
fn values_of_another_kind_are_ignored() {
    let cfg = load("general = 5\n[watch]\ndirs = \"/a\"\ndebounce_ms = \"9\"\n[zenoh]\nmode = 1.5\n").unwrap();
    assert_eq!(cfg.log_level, "info");
    assert!(cfg.watch.dirs.is_empty());
    assert_eq!(cfg.watch.debounce_ms, 200);
    assert_eq!(cfg.zenoh.mode, "client");
}

#[test]
fn numbers_are_taken_by_their_bits() {
    let cfg = load("[general]\ndev_id = -1\n[watch]\ndebounce_ms = -1\n[zenoh]\ntimeout_ms = -2\n").unwrap();
    assert_eq!(cfg.dev_id, 4294967295);
    assert_eq!(cfg.watch.debounce_ms, 18446744073709551615);
    assert_eq!(cfg.zenoh.timeout_ms, 18446744073709551614);
    let cfg = load("[general]\ndev_id = 4294967298\n").unwrap();
    assert_eq!(cfg.dev_id, 2);
}

#[test]
fn no_toml_is_an_error() {
    for text in ["[general\n", "a = "] {
        let reason = toml::from_str::<toml::Value>(text).err().unwrap().to_string();
        assert!(reason.contains("line 1"));
        assert_eq!(load(text).err(), Some(ConfigError::Syntax(reason)));
    }
}

#[test]
fn settings_of_a_value() {
    let mut general = toml::map::Map::new();
    general.insert("dev_id".to_string(), toml::Value::Integer(8));
    let mut root = toml::map::Map::new();
    root.insert("general".to_string(), toml::Value::Table(general));
    let raw = read_settings(&toml::Value::Table(root));
    assert_eq!(raw.dev_id, Some(8));
    assert_eq!(raw.log_level, None);
    assert_eq!(raw.dirs, None);
    assert!(read_settings(&toml::Value::Boolean(true)).dev_id.is_none());
}

#[test]
fn settings_override_defaults_one_by_one() {
    let cfg = resolve(RawConfig {
        log_level: None,
        dev_id: Some(3),
        dirs: Some(vec!["/x".to_string()]),
        debounce_ms: None,
        exclude: None,
        key_file: None,
        salt_file: Some("s".to_string()),
        db_path: None,
        mode: None,
        connect: None,
        timeout_ms: Some(1),
    });
    assert_eq!(cfg.dev_id, 3);
    assert_eq!(cfg.watch.dirs, vec!["/x"]);
    assert_eq!(cfg.crypto.salt_file, "s");
    assert_eq!(cfg.crypto.key_file, "/etc/slimsync/key.age");
    assert_eq!(cfg.zenoh.timeout_ms, 1);
}

#[test]
fn the_argument_names_the_file_first() {
    let s = |t: &str| Some(t.to_string());
    assert_eq!(config_path(s("a"), s("e")), "a");
    assert_eq!(config_path(None, s("e")), "e");
    assert_eq!(config_path(None, None), "slimsync.toml");
}

#[test]
fn globs_exclude_paths() {
    let w = watch(&["*.tmp", "/x/**/cache", "?.log"]);
    assert!(w.is_excluded("/a/b.tmp"));
    assert!(w.is_excluded("/x/y/z/cache"));
    assert!(w.is_excluded("1.log"));
    assert!(!w.is_excluded("12.log"));
    assert!(!w.is_excluded("/a/b.tmpx"));
    assert!(!watch(&[]).is_excluded("/a"));
}

#[test]
fn what_is_no_glob_excludes_by_substring() {
    let w = watch(&["a**b", "***"]);
    assert!(w.is_excluded("/x/a**b/y"));
    assert!(w.is_excluded("q***q"));
    assert!(!w.is_excluded("/x/aab/y"));
}

#[test]
fn exclusion_by_outcome() {
    assert!(pattern_excludes(Some(true), "x", "y"));
    assert!(!pattern_excludes(Some(false), "x", "xx"));
    assert!(pattern_excludes(None, "bc", "abcd"));
    assert!(pattern_excludes(None, "", "abcd"));
    assert!(!pattern_excludes(None, "bd", "abcd"));
}
