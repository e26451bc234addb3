use slimsync::config::WatchConfig;
use slimsync::ledger::FileStat;
use slimsync::ledger::LocalLedger;
use slimsync::platform::tracker::FileChangeEvent;
use slimsync::platform::tracker::FileChangeKind;
use slimsync::platform::tracker::WatchOp;
use slimsync::tracker::file_start;
use slimsync::tracker::route_event;
use slimsync::tracker::CommandResult;
use slimsync::tracker::FileTracker;
use slimsync::tracker::RotationAuditor;
use slimsync::tracker::RotationSignal;
use slimsync::tracker::TrackAction;
use slimsync::tracker::WatchCommand;
use slimsync::tracker::WatchRun;

fn ledger() -> LocalLedger {
    LocalLedger::open(Vec::new(), Vec::new(), Vec::new(), Vec::new())
}

fn run(dirs: &[&str], exclude: &[&str], ledger: &LocalLedger) -> WatchRun {
    let cfg = WatchConfig {
        dirs: dirs.iter().map(|d| d.to_string()).collect(),
        debounce_ms: 200,
        exclude_patterns: exclude.iter().map(|d| d.to_string()).collect(),
    };
    FileTracker::new(cfg, 200).run(ledger)
}

fn event(path: &str, kind: FileChangeKind) -> FileChangeEvent {
    FileChangeEvent { file_path: path.to_string(), event_kind: kind }
}

const MS: u64 = 1_000_000;

#[test]
fn audits_of_changed_files() {
    let stat = |dev, ino, size| Some(FileStat { dev, ino, size, mtime_ns: 0 });
    let audit = RotationAuditor::audit_file_change;
    assert_eq!(audit(stat(1, 2, 100), 60, 1, 2), RotationSignal::Append(60));
    assert_eq!(audit(stat(1, 2, 61), 60, 1, 2), RotationSignal::Append(60));
    assert_eq!(audit(stat(1, 2, 60), 60, 1, 2), RotationSignal::ResetAndRechunk);
    assert_eq!(audit(stat(1, 2, 59), 60, 1, 2), RotationSignal::ResetAndRechunk);
    assert_eq!(audit(stat(1, 3, 100), 60, 1, 2), RotationSignal::ResetAndRechunk);
    assert_eq!(audit(stat(9, 2, 100), 60, 1, 2), RotationSignal::ResetAndRechunk);
    assert_eq!(audit(stat(1, 2, 100), -1, 1, 2), RotationSignal::ResetAndRechunk);
    assert_eq!(audit(None, 60, 1, 2), RotationSignal::ResetAndRechunk);
}

#[test]
fn files_start_by_their_checkpoint() {
    let mut l = ledger();
    let stat = |dev, ino, size| Some(FileStat { dev, ino, size, mtime_ns: 0 });
    assert_eq!(file_start(&l, "/f", stat(1, 2, 10)), 0);
    l.commit_checkpoint("/f", 4, stat(1, 2, 4));
    assert_eq!(file_start(&l, "/f", stat(1, 2, 10)), 4);
    assert_eq!(file_start(&l, "/f", stat(1, 2, 4)), 0);
    assert_eq!(file_start(&l, "/f", stat(1, 2, 3)), 0);
    assert_eq!(file_start(&l, "/f", stat(7, 2, 10)), 0);
    assert_eq!(file_start(&l, "/f", None), 0);
}

#[test]
fn modifications_are_debounced() {
    let l = ledger();
    let mut r = run(&["/w"], &[], &l);
    let m = event("/w/a", FileChangeKind::Modified);
    assert!(r.take_event(&m, 1000 * MS));
    assert!(!r.take_event(&m, 1000 * MS));
    assert!(!r.take_event(&m, 1199 * MS));
    assert!(r.take_event(&m, 1200 * MS));
    assert!(r.take_event(&event("/w/b", FileChangeKind::Removed), 1201 * MS));
    assert!(!r.take_event(&event("/w/b", FileChangeKind::Modified), 1202 * MS));
}

#[test]
fn creations_always_count() {
    let l = ledger();
    let mut r = run(&["/w"], &[], &l);
    let c = event("/w/a", FileChangeKind::Created);
    assert!(r.take_event(&c, 10));
    assert!(r.take_event(&c, 11));
    assert!(r.take_event(&event("/w/a", FileChangeKind::Modified), 12));
    assert!(r.take_event(&c, 13));
}

#[test]
fn settling_restarts_the_window() {
    let l = ledger();
    let mut r = run(&["/w"], &[], &l);
    let m = event("/w/a", FileChangeKind::Modified);
    assert!(r.take_event(&m, 0));
    r.settle("/w/a", 200 * MS);
    assert!(!r.take_event(&m, 399 * MS));
    assert!(r.take_event(&m, 400 * MS));
}

#[test]
fn some_events_never_count() {
    let l = ledger();
    let mut r = run(&["/w"], &["*.tmp"], &l);
    assert!(!r.take_event(&event("", FileChangeKind::Created), 0));
    assert!(!r.take_event(&event("/w/a.tmp", FileChangeKind::Created), 0));
    assert!(r.take_event(&event("/w/a.txt", FileChangeKind::Created), 0));
    assert!(!r.take_event_if(&event("/w/a.txt", FileChangeKind::Created), true, 0));
    assert!(r.take_event_if(&event("/w/a.tmp", FileChangeKind::Created), false, 0));
}

#[test]
fn only_watched_paths_are_active() {
    let mut l = ledger();
    l.watch_dir("/extra", 1);
    let r = run(&["/w"], &[], &l);
    assert!(r.is_active("/w/a"));
    assert!(r.is_active("/w"));
    assert!(r.is_active("/wide"));
    assert!(r.is_active("/extra/x"));
    assert!(!r.is_active("/other"));
    assert!(!r.is_active(""));
}

#[test]
fn commands_change_the_watch() {
    let mut l = ledger();
    let mut r = run(&["/w"], &[], &l);
    assert!(matches!(
        r.command(&mut l, WatchCommand::AddDir("/n".to_string()), 50),
        CommandResult::Forward(WatchOp::Add(p)) if p == "/n"
    ));
    assert!(r.is_active("/n/x"));
    assert_eq!(l.watched_dirs(), vec!["/n"]);
    r.command(&mut l, WatchCommand::AddDir("/w/".to_string()), 51);
    assert!(matches!(
        r.command(&mut l, WatchCommand::ListDirs, 52),
        CommandResult::Dirs(d) if d == vec!["/w", "/n"]
    ));
    assert!(matches!(
        r.command(&mut l, WatchCommand::RemoveDir("/w/.".to_string()), 53),
        CommandResult::Forward(WatchOp::Remove(p)) if p == "/w/."
    ));
    assert!(!r.is_active("/w/a"));
    assert!(r.is_active("/n/x"));
    r.command(&mut l, WatchCommand::RemoveDir("/n".to_string()), 54);
    assert_eq!(l.watched_dirs(), vec!["/w/"]);
}

#[test]
fn events_are_routed() {
    assert_eq!(
        route_event(&event("/w/segment_0003.wal", FileChangeKind::Removed)),
        TrackAction::ForgetSegment(3)
    );
    assert_eq!(
        route_event(&event("/w/segment_0003.wal", FileChangeKind::Created)),
        TrackAction::SyncSegment { seq: 3, created: true }
    );
    assert_eq!(
        route_event(&event("/w/segment_0003.wal", FileChangeKind::Modified)),
        TrackAction::SyncSegment { seq: 3, created: false }
    );
    assert_eq!(route_event(&event("/w/a", FileChangeKind::Removed)), TrackAction::ForgetFile);
    assert_eq!(route_event(&event("/w/a", FileChangeKind::Modified)), TrackAction::SyncFile);
}

#[test]
fn paths_are_debounced_on_their_own() {
    let l = ledger();
    let mut r = run(&["/w"], &[], &l);
    assert!(r.take_event(&event("/w/a", FileChangeKind::Modified), 5));
    assert!(r.take_event(&event("/w/b", FileChangeKind::Modified), 6));
    assert!(!r.take_event(&event("/w/a", FileChangeKind::Modified), 7));
}
