use slimsync::cold_start::changed_files;
use slimsync::cold_start::forget_deleted;
use slimsync::cold_start::forget_missing;
use slimsync::cold_start::greatest_segment;
use slimsync::cold_start::restart_files;
use slimsync::cold_start::ColdRun;
use slimsync::ledger::FileStat;
use slimsync::ledger::LocalLedger;
use slimsync::scanner::ScanItem;
use slimsync::segment::SegmentPlan;
use slimsync::segment_events::SegmentAction;
use slimsync::segment_events::SegmentReply;

fn ledger() -> LocalLedger {
    LocalLedger::open(Vec::new(), Vec::new(), Vec::new(), Vec::new())
}

fn stat(size: u64) -> Option<FileStat> {
    Some(FileStat { dev: 1, ino: 2, size, mtime_ns: 3 })
}

fn item(path: &str) -> ScanItem {
    ScanItem { file_path: path.to_string(), mtime_ns: 0, file_size: 0, st_dev: 0, st_ino: 0 }
}

fn strings(list: &[&str]) -> Vec<String> {
    list.iter().map(|s| s.to_string()).collect()
}

fn show(a: &SegmentAction<String>) -> String {
    match a {
        SegmentAction::Stat { file_path } => format!("stat {}", file_path),
        SegmentAction::Send { file_path, start_offset } => format!("send {} {}", file_path, start_offset),
        SegmentAction::Digest { file_path } => format!("digest {}", file_path),
        SegmentAction::SignalSeal { segment_seq, sealed_size } => format!("seal {} {}", segment_seq, sealed_size),
        SegmentAction::Done => "done".to_string(),
    }
}

#[test]
fn segments_are_left_to_the_plan() {
    let files = changed_files(
        &strings(&["/a", "/segment_0001.wal", "/b"]),
        &strings(&["/segment_x.wal", "/segment_2.wal", "/c"]),
    );
    assert_eq!(files, vec!["/a", "/b", "/segment_x.wal", "/c"]);
}

#[test]
fn segments_without_files_are_forgotten() {
    let mut l = ledger();
    for seq in [0u32, 3, 4, 9] {
        l.upsert_segment(seq, "/p", "UNFINISHED", 1, 1);
    }
    let scan = vec![item("/w/segment_0003.wal"), item("/w/x"), item("/w/segment_0009.wal"), item("/w/segment_0010.wal")];
    assert_eq!(greatest_segment(&scan), Some(10));
    assert_eq!(greatest_segment(&vec![item("/w/x")]), None);
    forget_missing(&mut l, &scan);
    let mut left = l.segment_seqs();
    left.sort();
    assert_eq!(left, vec![3, 9]);
}

#[test]
fn deleted_files_are_forgotten() {
    let mut l = ledger();
    l.commit_checkpoint("/a", 1, stat(1));
    l.commit_checkpoint("/b", 2, stat(2));
    forget_deleted(&mut l, &strings(&["/a", "/zzz"]));
    assert_eq!(l.checkpoint_position("/a").0, 0);
    assert_eq!(l.checkpoint_position("/b").0, 2);
}

#[test]
fn a_restart_sends_segments_then_files() {
    let mut l = ledger();
    let plans = vec![
        SegmentPlan::FullSync { file_path: "/w/segment_0001.wal".to_string() },
        SegmentPlan::Skip,
        SegmentPlan::FullSync { file_path: "/w/segment_0003.wal".to_string() },
        SegmentPlan::TailSync { file_path: "/w/segment_0004.wal".to_string(), start_offset: 40 },
    ];
    let files = strings(&["/w/a", "/w/b", "/w/c"]);
    let (mut run, a) = ColdRun::run_cold_start(&plans, &files, Some(4));
    assert_eq!(show(&a), "stat /w/segment_0001.wal");
    let a = run.step(&mut l, SegmentReply::Stat(stat(1)), 5);
    assert_eq!(show(&a), "send /w/segment_0001.wal 0");
    let a = run.step(&mut l, SegmentReply::Sent(Some(100)), 5);
    assert_eq!(show(&a), "stat /w/segment_0001.wal");
    let a = run.step(&mut l, SegmentReply::Stat(stat(100)), 5);
    assert_eq!(show(&a), "digest /w/segment_0001.wal");
    let a = run.step(&mut l, SegmentReply::Digest(Some([3u8; 32])), 5);
    assert_eq!(show(&a), "seal 1 100");
    let s = l.get_segment(1).unwrap();
    assert_eq!((s.state.as_str(), s.sealed_size, s.synced_offset), ("SEALED", 100, 100));
    let a = run.step(&mut l, SegmentReply::Signalled, 5);
    assert_eq!(show(&a), "stat /w/segment_0003.wal");
    let a = run.step(&mut l, SegmentReply::Stat(None), 5);
    assert_eq!(show(&a), "stat /w/segment_0004.wal");
    run.step(&mut l, SegmentReply::Stat(stat(60)), 5);
    let a = run.step(&mut l, SegmentReply::Sent(Some(60)), 5);
    assert_eq!(show(&a), "stat /w/segment_0004.wal");
    let a = run.step(&mut l, SegmentReply::Stat(stat(60)), 5);
    let s = l.get_segment(4).unwrap();
    assert_eq!((s.state.as_str(), s.synced_offset, s.sealed_hash), ("UNFINISHED", 60, None));
    assert_eq!(show(&a), "stat /w/a");
    let a = run.step(&mut l, SegmentReply::Stat(stat(7)), 5);
    assert_eq!(show(&a), "send /w/a 0");
    let a = run.step(&mut l, SegmentReply::Sent(Some(7)), 5);
    assert_eq!(l.checkpoint_position("/w/a"), (7, 1, 2));
    assert_eq!(show(&a), "stat /w/b");
    run.step(&mut l, SegmentReply::Stat(stat(7)), 5);
    let a = run.step(&mut l, SegmentReply::Sent(None), 5);
    assert_eq!(l.checkpoint_position("/w/b"), (0, 0, 0));
    assert_eq!(show(&a), "stat /w/c");
    let a = run.step(&mut l, SegmentReply::Stat(None), 5);
    assert_eq!(show(&a), "done");
}

#[test]
fn a_segment_that_vanished_is_not_recorded() {
    let mut l = ledger();
    let plans = vec![SegmentPlan::FullSync { file_path: "/w/segment_0001.wal".to_string() }];
    let (mut run, _) = ColdRun::run_cold_start(&plans, &Vec::new(), Some(2));
    run.step(&mut l, SegmentReply::Stat(stat(1)), 5);
    run.step(&mut l, SegmentReply::Sent(Some(100)), 5);
    let a = run.step(&mut l, SegmentReply::Stat(None), 5);
    assert_eq!(show(&a), "done");
    assert!(l.get_segment(1).is_none());
}

#[test]
fn an_empty_restart_is_done_at_once() {
    let (_, a) = ColdRun::run_cold_start(&Vec::new(), &Vec::new(), None);
    assert_eq!(show(&a), "done");
}

#[test]
fn the_greatest_segment_needs_no_digest() {
    let scan = vec![item("/w/segment_0009.wal"), item("/w/segment_0003.wal"), item("/w/y")];
    assert_eq!(greatest_segment(&scan), Some(9));
    assert_eq!(slimsync::segment::needs_digest(&scan), vec![false, true, false]);
}

#[test]
fn a_restart_continues_files_by_their_checkpoints() {
    let mut l = ledger();
    l.commit_checkpoint("/w/grown", 4, stat(4));
    l.commit_checkpoint("/w/same", 9, stat(9));
    let (mut run, _) = ColdRun::run_cold_start(&Vec::new(), &strings(&["/w/grown", "/w/same"]), None);
    let a = run.step(&mut l, SegmentReply::Stat(stat(9)), 5);
    assert_eq!(show(&a), "send /w/grown 4");
    let a = run.step(&mut l, SegmentReply::Sent(Some(9)), 5);
    assert_eq!(show(&a), "stat /w/same");
    assert_eq!(l.checkpoint_position("/w/grown"), (9, 1, 2));
    let a = run.step(&mut l, SegmentReply::Stat(stat(9)), 5);
    assert_eq!(show(&a), "send /w/same 0");
}

#[test]
fn dirty_files_are_taken_up_first() {
    let plans = vec![
        SegmentPlan::Skip,
        SegmentPlan::FullSync { file_path: "/segment_0001.wal".to_string() },
    ];
    let files = restart_files(
        &plans,
        &strings(&["/d", "/segment_0001.wal", "/segment_0002.wal", "/a"]),
        &strings(&["/a", "/b", "/c"]),
    );
    assert_eq!(files, vec!["/d", "/segment_0002.wal", "/a", "/b", "/c"]);
}

#[test]
fn a_restart_leaves_no_file_dirty() {
    let mut l = ledger();
    l.commit_checkpoint("/late", 5, stat(5));
    l.seal_segment(2, "/segment_0002.wal", 9, &[1u8; 32], 9, 1);
    l.seal_segment(3, "/segment_0003.wal", 4, &[1u8; 32], 4, 1);
    l.upsert_segment(4, "/segment_0004.wal", "UNFINISHED", 6, 1);
    l.mark_dirty("/late", 30);
    l.mark_dirty("/early", 10);
    l.mark_dirty("/late", 40);
    l.mark_dirty("/gone", 20);
    l.mark_dirty("/tie", 10);
    for seq in 1..5 {
        l.mark_dirty(&format!("/segment_000{}.wal", seq), 50 + seq);
    }
    let dirty = l.dirty_paths();
    assert_eq!(dirty[0..4], ["/early", "/tie", "/gone", "/late"]);
    let plans = vec![SegmentPlan::FullSync { file_path: "/segment_0001.wal".to_string() }];
    let files = restart_files(&plans, &dirty, &strings(&[]));
    let (mut run, mut action) = ColdRun::run_cold_start(&plans, &files, Some(4));
    let mut seen = Vec::new();
    loop {
        seen.push(show(&action));
        let reply = match &action {
            SegmentAction::Stat { file_path } if file_path == "/gone" => SegmentReply::Stat(None),
            SegmentAction::Stat { .. } => SegmentReply::Stat(stat(9)),
            SegmentAction::Send { .. } => SegmentReply::Sent(Some(9)),
            SegmentAction::Digest { .. } => SegmentReply::Digest(None),
            SegmentAction::SignalSeal { .. } => SegmentReply::Signalled,
            SegmentAction::Done => break,
        };
        action = run.step(&mut l, reply, 1);
    }
    assert_eq!(
        seen,
        vec![
            "stat /segment_0001.wal", "send /segment_0001.wal 0", "stat /segment_0001.wal",
            "digest /segment_0001.wal", "seal 1 9", "stat /early", "send /early 0", "stat /tie",
            "send /tie 0", "stat /gone", "stat /late", "send /late 5", "stat /segment_0002.wal",
            "stat /segment_0003.wal", "send /segment_0003.wal 4", "stat /segment_0003.wal",
            "digest /segment_0003.wal", "seal 3 9", "stat /segment_0004.wal",
            "send /segment_0004.wal 6", "stat /segment_0004.wal", "done"
        ]
    );
    assert!(l.dirty_paths().is_empty());
    assert_eq!(l.checkpoint_position("/late").0, 9);
    assert_eq!(l.get_segment(4).unwrap().state, "UNFINISHED");
    assert_eq!(l.get_segment(4).unwrap().synced_offset, 9);
}

#[test]
fn a_file_that_was_not_sent_stays_dirty() {
    let mut l = ledger();
    l.mark_dirty("/f", 1);
    let (mut run, _) = ColdRun::run_cold_start(&Vec::new(), &strings(&["/f"]), None);
    run.step(&mut l, SegmentReply::Stat(stat(9)), 1);
    run.step(&mut l, SegmentReply::Sent(None), 1);
    assert_eq!(l.dirty_paths(), vec!["/f"]);
}
