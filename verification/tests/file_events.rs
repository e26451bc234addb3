use slimsync::config::WatchConfig;
use slimsync::file_events::delay_ns;
use slimsync::file_events::handle_file_event;
use slimsync::file_events::take_file_event;
use slimsync::file_events::FileAction;
use slimsync::file_events::FileReply;
use slimsync::file_events::FileRun;
use slimsync::ledger::DirtyFile;
use slimsync::ledger::FileStat;
use slimsync::ledger::LedgerChange;
use slimsync::ledger::LocalLedger;
use slimsync::platform::tracker::FileChangeEvent;
use slimsync::platform::tracker::FileChangeKind;
use slimsync::tracker::FileTracker;
use slimsync::tracker::WatchRun;

const MS: u64 = 1_000_000;

fn ledger() -> LocalLedger {
    LocalLedger::open(Vec::new(), Vec::new(), Vec::new(), Vec::new())
}

fn watch(ledger: &LocalLedger) -> WatchRun {
    let cfg = WatchConfig {
        dirs: vec!["/w".to_string()],
        debounce_ms: 200,
        exclude_patterns: vec!["*.tmp".to_string()],
    };
    FileTracker::new(cfg, 200).run(ledger)
}

fn event(path: &str, kind: FileChangeKind) -> FileChangeEvent {
    FileChangeEvent { file_path: path.to_string(), event_kind: kind }
}

fn stat(size: u64) -> Option<FileStat> {
    Some(FileStat { dev: 1, ino: 2, size, mtime_ns: 3 })
}

fn show(a: &FileAction<String>) -> String {
    match a {
        FileAction::Wait { for_ns } => format!("wait {}", for_ns / MS),
        FileAction::Stat { file_path } => format!("stat {}", file_path),
        FileAction::Send { file_path, start_offset } => format!("send {} {}", file_path, start_offset),
        FileAction::Segment { file_path, seq, created } => format!("segment {} {} {}", file_path, seq, created),
        FileAction::Done => "done".to_string(),
    }
}

fn to_sending(l: &mut LocalLedger, w: &mut WatchRun, e: &FileChangeEvent, size: u64) -> (FileRun, String) {
    let (mut run, first) = handle_file_event(l, e, 200, 50);
    assert_eq!(show(&first), "wait 200");
    let second = run.step(w, l, FileReply::Waited, 500 * MS);
    assert_eq!(show(&second), format!("stat {}", e.file_path));
    let third = run.step(w, l, FileReply::Stat(stat(size)), 500 * MS);
    (run, show(&third))
}

#[test]
fn a_file_is_dirty_until_it_was_sent() {
    let dirty = DirtyFile { file_path: "/w/f".to_string(), first_dirty_at: 7, last_dirty_at: 8 };
    let mut l = LocalLedger::open(Vec::new(), Vec::new(), vec![dirty], Vec::new());
    l.take_changes();
    let mut w = watch(&l);
    let (mut run, send) = to_sending(&mut l, &mut w, &event("/w/f", FileChangeKind::Modified), 100);
    assert_eq!(send, "send /w/f 0");
    let before = l.take_changes();
    assert_eq!(before.len(), 1);
    assert!(matches!(&before[0], LedgerChange::PutDirty(d)
        if d.file_path == "/w/f" && d.first_dirty_at == 7 && d.last_dirty_at == 50));
    let last = run.step(&mut w, &mut l, FileReply::Sent(Some(100)), 600 * MS);
    assert_eq!(show(&last), "done");
    let after = l.take_changes();
    assert!(matches!(&after[0], LedgerChange::PutCheckpoint(c)
        if c.last_verified_offset == 100 && c.status == "IN_SYNC" && c.st_dev == 1 && c.st_ino == 2));
    assert!(matches!(&after[1], LedgerChange::DropDirty(p) if p == "/w/f"));
    assert_eq!(after.len(), 2);
}

#[test]
fn a_failed_sending_changes_nothing() {
    let mut l = ledger();
    let mut w = watch(&l);
    let (mut run, _) = to_sending(&mut l, &mut w, &event("/w/f", FileChangeKind::Created), 100);
    l.take_changes();
    assert_eq!(show(&run.step(&mut w, &mut l, FileReply::Sent(None), 600 * MS)), "done");
    assert!(l.take_changes().is_empty());
    assert_eq!(l.dirty_paths(), vec!["/w/f"]);
}

#[test]
fn an_appended_file_is_continued() {
    let mut l = ledger();
    let mut w = watch(&l);
    l.commit_checkpoint("/w/f", 60, stat(60));
    let (mut run, send) = to_sending(&mut l, &mut w, &event("/w/f", FileChangeKind::Modified), 100);
    assert_eq!(send, "send /w/f 60");
    run.step(&mut w, &mut l, FileReply::Sent(Some(100)), 600 * MS);
    assert_eq!(l.checkpoint_position("/w/f"), (100, 1, 2));
    assert!(l.dirty_paths().is_empty());
}

#[test]
fn events_that_count_begin() {
    let mut l = ledger();
    let mut w = watch(&l);
    let modified = event("/w/f", FileChangeKind::Modified);
    assert!(take_file_event(&mut w, &mut l, &event("/w/x.tmp", FileChangeKind::Created), 1, 1).is_none());
    assert!(l.dirty_paths().is_empty());
    let (mut run, _) = take_file_event(&mut w, &mut l, &modified, 1000 * MS, 1).unwrap();
    assert_eq!(l.dirty_paths(), vec!["/w/f"]);
    assert!(take_file_event(&mut w, &mut l, &modified, 1100 * MS, 2).is_none());
    run.step(&mut w, &mut l, FileReply::Waited, 1200 * MS);
    assert!(take_file_event(&mut w, &mut l, &modified, 1399 * MS, 2).is_none());
    assert!(take_file_event(&mut w, &mut l, &modified, 1400 * MS, 2).is_some());
}

#[test]
fn removals_and_segments() {
    let mut l = ledger();
    let mut w = watch(&l);
    l.commit_checkpoint("/w/f", 60, stat(60));
    l.upsert_segment(4, "/w/segment_0004.wal", "UNFINISHED", 1, 1);
    let mut after_wait = |path: &str, kind| {
        let (mut run, _) = handle_file_event(&mut l, &event(path, kind), 200, 1);
        show(&run.step(&mut w, &mut l, FileReply::Waited, 1))
    };
    assert_eq!(after_wait("/w/f", FileChangeKind::Removed), "done");
    assert_eq!(after_wait("/w/segment_0004.wal", FileChangeKind::Created), "segment /w/segment_0004.wal 4 true");
    assert_eq!(after_wait("/w/segment_0004.wal", FileChangeKind::Modified), "segment /w/segment_0004.wal 4 false");
    assert_eq!(after_wait("/w/segment_0004.wal", FileChangeKind::Removed), "done");
    assert_eq!(l.checkpoint_position("/w/f"), (0, 0, 0));
    assert!(l.get_segment(4).is_none());
    assert!(l.dirty_paths().is_empty());
}

#[test]
fn the_delay_has_a_limit() {
    let ms = 1_000_000i64;
    assert_eq!(delay_ns(200, 0, 0), 200 * MS);
    assert_eq!(delay_ns(200, 0, 400 * ms), 100 * MS);
    assert_eq!(delay_ns(200, 0, 500 * ms), 0);
    assert_eq!(delay_ns(200, 0, i64::MAX), 0);
    assert_eq!(delay_ns(u64::MAX, i64::MIN, i64::MIN), 500 * MS);
    assert_eq!(delay_ns(900, 5 * ms, 0), 500 * MS);
    assert_eq!(delay_ns(0, 0, 0), 0);
    let mut l = ledger();
    let e = event("/w/f", FileChangeKind::Modified);
    assert_eq!(show(&handle_file_event(&mut l, &e, 200, 10 * ms).1), "wait 200");
    assert_eq!(show(&handle_file_event(&mut l, &e, 200, 410 * ms).1), "wait 100");
    assert_eq!(show(&handle_file_event(&mut l, &e, 200, 2000 * ms).1), "wait 0");
}
