use slimsync::ledger::LocalLedger;
use slimsync::scanner::ScanItem;
use slimsync::segment::is_segment_file;
use slimsync::segment::needs_digest;
use slimsync::segment::parse_segment_seq;
use slimsync::segment::plan_segments;
use slimsync::segment::sha256_file;
use slimsync::segment::PlanError;
use slimsync::segment::SegmentPlan;

fn empty_ledger() -> LocalLedger {
    LocalLedger::open(Vec::new(), Vec::new(), Vec::new(), Vec::new())
}

fn digest(data: &[u8]) -> [u8; 32] {
    sha256_file(Some(&data.to_vec())).unwrap()
}

fn rescan(dir: &str, files: &[Vec<u8>]) -> Vec<ScanItem> {
    let mut scan = Vec::new();
    for (i, data) in files.iter().enumerate() {
        scan.push(ScanItem {
            file_path: format!("{}/segment_{:04}.wal", dir, i),
            mtime_ns: 0,
            file_size: data.len() as i64,
            st_dev: 1,
            st_ino: i as u64,
        });
    }
    scan
}

fn plan(scan: &Vec<ScanItem>, files: &[Vec<u8>], ledger: &LocalLedger) -> Vec<SegmentPlan> {
    let wanted = needs_digest(scan);
    let mut digests = Vec::new();
    for (i, data) in files.iter().enumerate() {
        digests.push(if wanted[i] { Some(digest(data)) } else { None });
    }
    plan_segments(scan, ledger, &digests).unwrap()
}

#[test]
fn parse_seq() {
    assert_eq!(parse_segment_seq("/dev/shm/sov-probe/segment_0000.wal"), Some(0));
    assert_eq!(parse_segment_seq("segment_0011.wal"), Some(11));
    assert_eq!(parse_segment_seq("segment_0000.txt"), None);
    assert_eq!(parse_segment_seq("/x/ledger"), None);
    assert_eq!(parse_segment_seq("/x/segment_abc.wal"), None);
}

#[test]
fn parse_seq_edges() {
    assert_eq!(parse_segment_seq("segment_.wal"), None);
    assert_eq!(parse_segment_seq("segment_4294967295.wal"), Some(4294967295));
    assert_eq!(parse_segment_seq("segment_4294967296.wal"), None);
    assert_eq!(parse_segment_seq("segment_00000000000000000000000000000000012.wal"), Some(12));
    assert_eq!(parse_segment_seq("segment_99999999999999999999999999.wal"), None);
    assert_eq!(parse_segment_seq("/d/segment_0007.wal/"), Some(7));
    assert_eq!(parse_segment_seq("/d/segment_0007.wal/."), Some(7));
    assert_eq!(parse_segment_seq("/d/segment_0007.wal/.."), None);
    assert_eq!(parse_segment_seq("xsegment_0007.wal"), None);
    assert_eq!(parse_segment_seq("segment_+7.wal"), None);
    assert_eq!(parse_segment_seq(""), None);
    assert!(is_segment_file("/a/segment_1.wal"));
    assert!(!is_segment_file("/a/segment_1.log"));
}

#[test]
fn sha256_deterministic() {
    let data = b"hello world".to_vec();
    let h1 = sha256_file(Some(&data)).unwrap();
    let h2 = sha256_file(Some(&data)).unwrap();
    assert_eq!(h1, h2);
}

#[test]
fn sha256_known_value() {
    let h = digest(b"hello world");
    assert_eq!(h[0], 0xb9);
    assert_eq!(h[1], 0x4d);
    assert_eq!(h[2], 0x27);
    assert_eq!(h[31], 0xe9);
    assert!(sha256_file(None).is_none());
}

#[test]
fn plan_segments_cold_start_no_skip() {
    let dir = "/tmp/slimsync_seg_test_plan";
    let mut files: Vec<Vec<u8>> = Vec::new();
    for i in 0..3u32 {
        let mut data = Vec::new();
        for n in 0..50u32 {
            data.extend_from_slice(format!("rec-{}-{}\n", i, n).as_bytes());
        }
        files.push(data);
    }

    let mut ledger = empty_ledger();
    let scan = rescan(dir, &files);
    let plans = plan(&scan, &files, &ledger);
    assert_eq!(plans.len(), 3);
    assert!(matches!(&plans[0], SegmentPlan::FullSync { .. }), "{:?}", plans[0]);
    assert!(matches!(&plans[1], SegmentPlan::FullSync { .. }), "{:?}", plans[1]);
    assert!(matches!(&plans[2], SegmentPlan::TailSync { start_offset: 0, .. }), "{:?}", plans[2]);

    for i in 0..2u32 {
        let p = format!("{}/segment_{:04}.wal", dir, i);
        let size = files[i as usize].len() as u64;
        let hash = digest(&files[i as usize]);
        ledger.seal_segment(i, &p, size, &hash, size, 1);
    }
    let p2 = format!("{}/segment_0002.wal", dir);
    let size2 = files[2].len() as u64;
    ledger.upsert_segment(2, &p2, "UNFINISHED", size2, 1);

    let plans = plan(&scan, &files, &ledger);
    assert!(plans.iter().all(|p| *p == SegmentPlan::Skip), "{:?}", plans);

    files[1] = b"totally-different-content".to_vec();
    let plans = plan(&rescan(dir, &files), &files, &ledger);
    assert!(matches!(&plans[1], SegmentPlan::FullSync { .. }), "{:?}", plans);

    files[2].extend_from_slice(b"tail-data");
    let plans = plan(&rescan(dir, &files), &files, &ledger);
    assert!(
        matches!(&plans[2], SegmentPlan::TailSync { start_offset, .. } if *start_offset == size2),
        "{:?}",
        plans
    );

    let p2_size = files[2].len() as u64;
    let h2 = digest(&files[2]);
    ledger.seal_segment(2, &p2, p2_size, &h2, p2_size, 2);
    files.push(b"brand-new-segment-3".to_vec());
    let plans = plan(&rescan(dir, &files), &files, &ledger);
    assert!(matches!(&plans[2], SegmentPlan::Skip), "{:?}", plans[2]);
    assert!(matches!(&plans[3], SegmentPlan::TailSync { start_offset: 0, .. }), "{:?}", plans[3]);
}

#[test]
fn plan_is_in_order_of_segment_numbers() {
    let files = vec![b"a".to_vec(), b"bb".to_vec(), b"ccc".to_vec()];
    let mut scan = rescan("/d", &files);
    scan.reverse();
    scan.insert(
        1,
        ScanItem { file_path: "/d/other.txt".to_string(), mtime_ns: 0, file_size: 9, st_dev: 0, st_ino: 0 },
    );
    assert_eq!(needs_digest(&scan), vec![false, false, true, true]);
    let digests = vec![None, None, Some(digest(b"bb")), Some(digest(b"a"))];
    let plans = plan_segments(&scan, &empty_ledger(), &digests).unwrap();
    assert_eq!(
        plans,
        vec![
            SegmentPlan::FullSync { file_path: "/d/segment_0000.wal".to_string() },
            SegmentPlan::FullSync { file_path: "/d/segment_0001.wal".to_string() },
            SegmentPlan::TailSync { file_path: "/d/segment_0002.wal".to_string(), start_offset: 0 },
        ]
    );
}

#[test]
fn plan_sends_the_tail_of_a_half_sent_sealed_segment() {
    let files = vec![b"0123456789".to_vec(), b"x".to_vec()];
    let mut ledger = empty_ledger();
    ledger.seal_segment(0, "/d/segment_0000.wal", 10, &digest(&files[0]), 4, 1);
    let plans = plan(&rescan("/d", &files), &files, &ledger);
    assert_eq!(
        plans[0],
        SegmentPlan::TailSync { file_path: "/d/segment_0000.wal".to_string(), start_offset: 4 }
    );
}

#[test]
fn plan_fails_on_an_unreadable_sealed_segment() {
    let files = vec![b"a".to_vec(), b"b".to_vec(), b"c".to_vec()];
    let scan = rescan("/d", &files);
    let digests = vec![Some(digest(b"a")), None, None];
    let err = plan_segments(&scan, &empty_ledger(), &digests).unwrap_err();
    assert_eq!(err, PlanError::DigestFailed { file_path: "/d/segment_0001.wal".to_string() });
    assert_eq!(err.message(), "sha256 failed: /d/segment_0001.wal");
}

#[test]
fn plan_of_no_segments_is_empty() {
    let plans = plan_segments(&Vec::new(), &empty_ledger(), &Vec::new()).unwrap();
    assert!(plans.is_empty());
}

#[test]
fn empty_active_segment_is_skipped() {
    let files = vec![Vec::new()];
    let plans = plan(&rescan("/d", &files), &files, &empty_ledger());
    assert_eq!(plans, vec![SegmentPlan::Skip]);
}

#[test]
fn plans_do_not_depend_on_times_or_inodes() {
    let files = vec![b"a".to_vec(), b"b".to_vec()];
    let ledger = empty_ledger();
    let scan = rescan("/d", &files);
    let mut later = rescan("/d", &files);
    for item in later.iter_mut() {
        item.mtime_ns = 99;
        item.st_dev = 5;
        item.st_ino = 77;
    }
    assert_eq!(plan(&scan, &files, &ledger), plan(&later, &files, &ledger));
}
