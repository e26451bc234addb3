use slimsync::ledger::FileStat;
use slimsync::ledger::LocalLedger;
use slimsync::segment_events::SegmentAction;
use slimsync::segment_events::SegmentReply;
use slimsync::segment_events::SegmentRun;

fn ledger() -> LocalLedger {
    LocalLedger::open(Vec::new(), Vec::new(), Vec::new(), Vec::new())
}

fn stat(size: u64) -> Option<FileStat> {
    Some(FileStat { dev: 1, ino: 2, size, mtime_ns: 3 })
}

fn is_stat(a: &SegmentAction<String>, path: &str) -> bool {
    matches!(a, SegmentAction::Stat { file_path } if file_path == path)
}

fn is_send(a: &SegmentAction<String>, path: &str, start: u64) -> bool {
    matches!(a, SegmentAction::Send { file_path, start_offset } if file_path == path && *start_offset == start)
}

fn is_digest(a: &SegmentAction<String>, path: &str) -> bool {
    matches!(a, SegmentAction::Digest { file_path } if file_path == path)
}

fn is_signal(a: &SegmentAction<String>, seq: u32, size: u64) -> bool {
    matches!(a, SegmentAction::SignalSeal { segment_seq, sealed_size } if *segment_seq == seq && *sealed_size == size)
}

fn is_done(a: &SegmentAction<String>) -> bool {
    matches!(a, SegmentAction::Done)
}

#[test]
fn a_new_segment_seals_the_earlier_ones_first() {
    let mut l = ledger();
    l.upsert_segment(0, "/w/0", "UNFINISHED", 10, 1);
    l.upsert_segment(1, "/w/1", "UNFINISHED", 30, 1);
    l.upsert_segment(2, "/w/2", "UNFINISHED", 5, 1);
    l.seal_segment(3, "/w/3", 9, &[1u8; 32], 9, 1);
    l.upsert_segment(4, "/w/4", "UNFINISHED", 5, 1);
    let (mut run, a) = SegmentRun::handle_segment_event(&l, "/w/5", 5, true);
    assert!(is_stat(&a, "/w/0"));
    let a = run.step(&mut l, SegmentReply::Stat(stat(25)), 2);
    assert!(is_send(&a, "/w/0", 10));
    let a = run.step(&mut l, SegmentReply::Sent(Some(25)), 2);
    assert!(is_digest(&a, "/w/0"));
    let a = run.step(&mut l, SegmentReply::Digest(Some([7u8; 32])), 2);
    assert!(is_signal(&a, 0, 25));
    let s = l.get_segment(0).unwrap();
    assert_eq!((s.state.as_str(), s.sealed_size, s.synced_offset), ("SEALED", 25, 25));
    assert_eq!(s.sealed_hash, Some(vec![7u8; 32]));

    let a = run.step(&mut l, SegmentReply::Signalled, 2);
    assert!(is_stat(&a, "/w/1"));
    let a = run.step(&mut l, SegmentReply::Stat(stat(30)), 2);
    assert!(is_digest(&a, "/w/1"));
    let a = run.step(&mut l, SegmentReply::Digest(None), 2);
    assert!(is_signal(&a, 1, 30));
    assert_eq!(l.get_segment(1).unwrap().sealed_hash, Some(vec![0u8; 32]));

    let a = run.step(&mut l, SegmentReply::Signalled, 2);
    assert!(is_stat(&a, "/w/2"));
    let a = run.step(&mut l, SegmentReply::Stat(None), 2);
    assert!(l.get_segment(2).is_none());
    assert!(is_stat(&a, "/w/4"));
    let a = run.step(&mut l, SegmentReply::Stat(stat(8)), 2);
    assert!(is_send(&a, "/w/4", 5));
    let a = run.step(&mut l, SegmentReply::Sent(None), 2);
    assert_eq!(l.get_segment(4).unwrap().state, "UNFINISHED");

    assert!(is_stat(&a, "/w/5"));
    let a = run.step(&mut l, SegmentReply::Stat(stat(3)), 2);
    assert!(is_send(&a, "/w/5", 0));
    let a = run.step(&mut l, SegmentReply::Sent(Some(3)), 2);
    assert!(is_done(&a));
    let s = l.get_segment(5).unwrap();
    assert_eq!((s.state.as_str(), s.synced_offset), ("UNFINISHED", 3));
}

#[test]
fn a_modified_segment_is_continued() {
    let mut l = ledger();
    l.upsert_segment(1, "/w/1", "UNFINISHED", 30, 1);
    l.upsert_segment(2, "/w/2", "UNFINISHED", 4, 1);
    let (mut run, a) = SegmentRun::handle_segment_event(&l, "/w/2", 2, false);
    assert!(is_stat(&a, "/w/2"));
    let a = run.step(&mut l, SegmentReply::Stat(stat(9)), 2);
    assert!(is_send(&a, "/w/2", 4));
    let a = run.step(&mut l, SegmentReply::Sent(Some(9)), 2);
    assert!(is_done(&a));
    assert_eq!(l.get_segment(2).unwrap().synced_offset, 9);
    assert_eq!(l.get_segment(1).unwrap().state, "UNFINISHED");
}

#[test]
fn nothing_new_is_nothing_to_do() {
    let mut l = ledger();
    l.upsert_segment(2, "/w/2", "UNFINISHED", 9, 1);
    for found in [stat(9), stat(8), None] {
        let (mut run, _) = SegmentRun::handle_segment_event(&l, "/w/2", 2, false);
        let a = run.step(&mut l, SegmentReply::Stat(found), 2);
        assert!(is_done(&a));
    }
    let (mut run, _) = SegmentRun::handle_segment_event(&l, "/w/3", 3, false);
    assert!(is_done(&run.step(&mut l, SegmentReply::Stat(stat(0)), 2)));
    assert!(l.get_segment(3).is_none());
}

#[test]
fn an_appended_sealed_segment_stays_sealed() {
    let mut l = ledger();
    l.seal_segment(2, "/w/2", 9, &[1u8; 32], 9, 1);
    let (mut run, _) = SegmentRun::handle_segment_event(&l, "/w/2", 2, false);
    let a = run.step(&mut l, SegmentReply::Stat(stat(12)), 2);
    assert!(is_send(&a, "/w/2", 9));
    let a = run.step(&mut l, SegmentReply::Sent(Some(12)), 2);
    assert!(is_digest(&a, "/w/2"));
    let a = run.step(&mut l, SegmentReply::Digest(Some([5u8; 32])), 2);
    assert!(is_signal(&a, 2, 12));
    let a = run.step(&mut l, SegmentReply::Signalled, 2);
    assert!(is_done(&a));
    let s = l.get_segment(2).unwrap();
    assert_eq!((s.state.as_str(), s.sealed_size), ("SEALED", 12));
    assert_eq!(s.sealed_hash, Some(vec![5u8; 32]));
}

#[test]
fn a_created_segment_that_is_not_the_newest_seals_nothing() {
    let mut l = ledger();
    l.upsert_segment(1, "/w/1", "UNFINISHED", 0, 1);
    l.upsert_segment(5, "/w/5", "UNFINISHED", 0, 1);
    let (_, a) = SegmentRun::handle_segment_event(&l, "/w/3", 3, true);
    assert!(is_stat(&a, "/w/3"));
    let (_, a) = SegmentRun::handle_segment_event(&l, "/w/5", 5, true);
    assert!(is_stat(&a, "/w/5"));
    let (_, a) = SegmentRun::handle_segment_event(&ledger(), "/w/0", 0, true);
    assert!(is_stat(&a, "/w/0"));
}

#[test]
fn a_failed_send_leaves_the_ledger() {
    let mut l = ledger();
    l.upsert_segment(2, "/w/2", "UNFINISHED", 4, 1);
    let (mut run, _) = SegmentRun::handle_segment_event(&l, "/w/2", 2, false);
    run.step(&mut l, SegmentReply::Stat(stat(9)), 2);
    assert!(is_done(&run.step(&mut l, SegmentReply::Sent(None), 2)));
    assert_eq!(l.get_segment(2).unwrap().synced_offset, 4);
}

#[test]
fn segments_are_dirty_until_sent() {
    let mut l = ledger();
    l.upsert_segment(0, "/w/0", "UNFINISHED", 1, 1);
    l.upsert_segment(1, "/w/1", "UNFINISHED", 10, 1);
    for path in ["/w/0", "/w/1", "/w/2", "/w/x"] {
        l.mark_dirty(path, 1);
    }
    let (mut run, _) = SegmentRun::handle_segment_event(&l, "/w/2", 2, true);
    run.step(&mut l, SegmentReply::Stat(None), 2);
    assert_eq!(l.dirty_paths(), vec!["/w/1", "/w/2", "/w/x"]);
    run.step(&mut l, SegmentReply::Stat(stat(10)), 2);
    run.step(&mut l, SegmentReply::Digest(None), 2);
    assert_eq!(l.dirty_paths(), vec!["/w/2", "/w/x"]);
    run.step(&mut l, SegmentReply::Signalled, 2);
    run.step(&mut l, SegmentReply::Stat(stat(7)), 2);
    assert_eq!(l.dirty_paths(), vec!["/w/2", "/w/x"]);
    run.step(&mut l, SegmentReply::Sent(Some(7)), 2);
    assert_eq!(l.dirty_paths(), vec!["/w/x"]);
}

#[test]
fn a_segment_that_was_sent_before_is_clean() {
    let mut l = ledger();
    l.upsert_segment(2, "/w/2", "UNFINISHED", 9, 1);
    l.mark_dirty("/w/2", 1);
    let (mut run, _) = SegmentRun::handle_segment_event(&l, "/w/2", 2, false);
    run.step(&mut l, SegmentReply::Stat(None), 2);
    assert_eq!(l.dirty_paths(), vec!["/w/2"]);
    let (mut run, _) = SegmentRun::handle_segment_event(&l, "/w/2", 2, false);
    run.step(&mut l, SegmentReply::Stat(stat(9)), 2);
    assert!(l.dirty_paths().is_empty());
}
