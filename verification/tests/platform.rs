use slimsync::platform::linux::LinuxScanner;
use slimsync::platform::linux_tracker::LinuxTracker;
use slimsync::platform::macos::MacosScanner;
use slimsync::platform::notify_tracker::HostOs;
use slimsync::platform::notify_tracker::NotifyTracker;
use slimsync::platform::tracker::apply_op;
use slimsync::platform::tracker::change_events;
use slimsync::platform::tracker::mount_event;
use slimsync::platform::tracker::Backend;
use slimsync::platform::tracker::FileChangeKind;
use slimsync::platform::tracker::PlatformTracker;
use slimsync::platform::tracker::SystemEventKind;
use slimsync::platform::tracker::WatchHandle;
use slimsync::platform::tracker::WatchOp;
use slimsync::platform::windows::WindowsScanner;
use slimsync::platform::DirEntry;
use slimsync::platform::FileMeta;
use slimsync::platform::PlatformScanner;
use slimsync::platform::ScanStep;

fn entry(is_file: bool, meta: Option<FileMeta>) -> DirEntry {
    DirEntry { path: "/w/a".to_string(), is_file, meta }
}

fn meta(modified_ns: Option<u128>) -> FileMeta {
    FileMeta { modified_ns, len: 10, dev: 3, ino: 4 }
}

#[test]
fn names_of_scanners_and_trackers() {
    assert_eq!(LinuxScanner.name(), "linux-jwalk");
    assert_eq!(MacosScanner.name(), "macos-jwalk");
    assert_eq!(WindowsScanner.name(), "windows-jwalk");
    assert_eq!(LinuxTracker::new(true).name(), "linux-fanotify");
    assert_eq!(LinuxTracker::new(false).name(), "linux-inotify");
    assert_eq!(NotifyTracker::new(HostOs::Macos).name(), "macos-fsevents");
    assert_eq!(NotifyTracker::new(HostOs::Windows).name(), "windows-readdirchanges");
    assert_eq!(NotifyTracker::new(HostOs::Other).name(), "notify-generic");
}

#[test]
fn fanotify_falls_back_to_notifications() {
    assert_eq!(LinuxTracker::new(true).start_watching(), vec![Backend::Fanotify, Backend::Notify]);
    assert_eq!(LinuxTracker::new(false).start_watching(), vec![Backend::Notify]);
    assert_eq!(NotifyTracker::new(HostOs::Macos).start_watching(), vec![Backend::Notify]);
}

#[test]
fn scans_of_entries() {
    assert!(matches!(MacosScanner.fast_scan(&entry(false, None)), ScanStep::Skip));
    assert!(matches!(MacosScanner.fast_scan(&entry(true, None)), ScanStep::Fail));
    assert!(matches!(
        MacosScanner.fast_scan(&entry(true, Some(meta(Some(77))))),
        ScanStep::Report(i) if i.file_path == "/w/a" && i.mtime_ns == 77 && i.file_size == 10 && i.st_dev == 3 && i.st_ino == 4
    ));
    assert!(matches!(
        MacosScanner.fast_scan(&entry(true, Some(meta(None)))),
        ScanStep::Report(i) if i.mtime_ns == 0
    ));
    assert!(matches!(
        MacosScanner.fast_scan(&entry(true, Some(meta(Some(18446744073709551615))))),
        ScanStep::Report(i) if i.mtime_ns == -1
    ));
    assert!(matches!(WindowsScanner.fast_scan(&entry(false, Some(meta(None)))), ScanStep::Skip));
    assert!(matches!(WindowsScanner.fast_scan(&entry(true, None)), ScanStep::Skip));
    assert!(matches!(
        WindowsScanner.fast_scan(&entry(true, Some(meta(Some(77))))),
        ScanStep::Report(i) if i.mtime_ns == 77 && i.st_dev == 0 && i.st_ino == 0
    ));
}

#[test]
fn system_events_become_changes() {
    let paths = || vec!["/a".to_string(), "/b".to_string()];
    let events = change_events(SystemEventKind::Create, paths());
    assert_eq!(events.len(), 2);
    assert_eq!(events[0].file_path, "/a");
    assert_eq!(events[1].file_path, "/b");
    assert_eq!(events[1].event_kind, FileChangeKind::Created);
    assert_eq!(change_events(SystemEventKind::Modify, paths())[0].event_kind, FileChangeKind::Modified);
    assert_eq!(change_events(SystemEventKind::Remove, paths())[0].event_kind, FileChangeKind::Removed);
    assert!(change_events(SystemEventKind::Other, paths()).is_empty());
    assert_eq!(mount_event().file_path, "");
    assert_eq!(mount_event().event_kind, FileChangeKind::Modified);
}

#[test]
fn only_existing_directories_are_added() {
    assert!(apply_op(WatchOp::Add("/a".to_string()), false).is_none());
    assert!(matches!(apply_op(WatchOp::Add("/a".to_string()), true), Some(WatchOp::Add(p)) if p == "/a"));
    assert!(matches!(apply_op(WatchOp::Remove("/a".to_string()), false), Some(WatchOp::Remove(p)) if p == "/a"));
}

#[test]
fn handles_carry_their_channel() {
    assert!(WatchHandle::empty().control_tx.is_none());
    let (tx, rx) = std::sync::mpsc::channel();
    let handle = WatchHandle::new(tx);
    handle.control_tx.unwrap().send(WatchOp::Remove("/x".to_string())).unwrap();
    assert!(matches!(rx.recv().unwrap(), WatchOp::Remove(p) if p == "/x"));
}
