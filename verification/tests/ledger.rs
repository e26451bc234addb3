use slimsync::ledger::Checkpoint;
use slimsync::ledger::DirtyFile;
use slimsync::ledger::FileStat;
use slimsync::ledger::LedgerChange;
use slimsync::ledger::LedgerError;
use slimsync::ledger::LocalLedger;
use slimsync::ledger::SegmentRecord;
use slimsync::ledger::SegmentState;
use slimsync::ledger::WatchedDir;
use slimsync::scanner::batch_scan;
use slimsync::scanner::ScanBatcher;
use slimsync::scanner::ScanItem;

fn empty() -> LocalLedger {
    LocalLedger::open(Vec::new(), Vec::new(), Vec::new(), Vec::new())
}

fn item(path: &str, mtime: i64, size: i64, dev: u64, ino: u64) -> ScanItem {
    ScanItem { file_path: path.to_string(), mtime_ns: mtime, file_size: size, st_dev: dev, st_ino: ino }
}

fn stat(mtime_ns: i64, size: u64, dev: u64, ino: u64) -> Option<FileStat> {
    Some(FileStat { dev, ino, size, mtime_ns })
}

fn checkpoint(path: &str, mtime: i64, offset: i64, dev: i64, ino: i64) -> Checkpoint {
    Checkpoint {
        file_path: path.to_string(),
        last_mtime_ns: mtime,
        last_verified_offset: offset,
        st_dev: dev,
        st_ino: ino,
        status: "IN_SYNC".to_string(),
    }
}

#[test]
fn segments_read_back() {
    let mut l = empty();
    assert!(l.get_segment(1).is_none());
    assert_eq!(l.max_segment_seq(), None);
    l.upsert_segment(1, "/p1", "UNFINISHED", 100, 5);
    l.upsert_segment(7, "/p7", "UNFINISHED", 7, 5);
    let s = l.get_segment(1).unwrap();
    assert_eq!(s.segment_seq, 1);
    assert_eq!(s.file_path, "/p1");
    assert_eq!(s.state, "UNFINISHED");
    assert_eq!(s.sealed_size, 0);
    assert_eq!(s.sealed_hash, None);
    assert_eq!(s.synced_offset, 100);
    assert_eq!(l.max_segment_seq(), Some(7));
    l.delete_segment(7);
    assert_eq!(l.max_segment_seq(), Some(1));
    l.delete_segment(7);
    assert_eq!(l.segment_seqs(), vec![1]);
}

#[test]
fn a_sealed_hash_survives_an_update() {
    let mut l = empty();
    l.seal_segment(2, "/p", 50, &[9u8; 32], 50, 1);
    l.upsert_segment(2, "/q", "UNFINISHED", 60, 2);
    let s = l.get_segment(2).unwrap();
    assert_eq!(s.sealed_size, 50);
    assert_eq!(s.sealed_hash, Some(vec![9u8; 32]));
    assert_eq!(s.synced_offset, 60);
    assert_eq!(s.file_path, "/q");
    l.seal_segment(2, "/q", 61, &[1u8; 32], 61, 3);
    let s = l.get_segment(2).unwrap();
    assert_eq!(s.state, "SEALED");
    assert_eq!(s.sealed_hash, Some(vec![1u8; 32]));
}

#[test]
fn unsealed_segments_are_found_in_order() {
    let mut l = empty();
    l.upsert_segment(9, "/9", "UNFINISHED", 0, 1);
    l.upsert_segment(3, "/3", "UNFINISHED", 0, 1);
    l.seal_segment(1, "/1", 1, &[0u8; 32], 1, 1);
    assert_eq!(l.next_unsealed(0, 10), Some(3));
    assert_eq!(l.next_unsealed(4, 10), Some(9));
    assert_eq!(l.next_unsealed(4, 9), None);
    assert_eq!(l.next_unsealed(0, 3), None);
}

#[test]
fn stored_rows_are_loaded() {
    let l = LocalLedger::open(
        vec![SegmentRecord {
            state: SegmentState {
                segment_seq: 4,
                file_path: "/4".to_string(),
                state: "SEALED".to_string(),
                sealed_size: 1,
                sealed_hash: Some(vec![2u8; 32]),
                synced_offset: 1,
            },
            updated_at: 8,
        }],
        vec![checkpoint("/c", 1, 2, 3, 4)],
        vec![DirtyFile { file_path: "/d".to_string(), first_dirty_at: 1, last_dirty_at: 2 }],
        vec![WatchedDir { path: "/w".to_string(), added_at: 9 }],
    );
    assert_eq!(l.get_segment(4).unwrap().sealed_hash, Some(vec![2u8; 32]));
    assert_eq!(l.checkpoint_position("/c"), (2, 3, 4));
    assert_eq!(l.watched_dirs(), vec!["/w"]);
    assert_eq!(l.load_temp_scan().err(), Some(LedgerError::NoScanTable));
}

#[test]
fn scan_table_takes_batches_whole() {
    let mut l = empty();
    let batch = vec![item("/a", 1, 1, 0, 0), item("/b", 1, 1, 0, 0)];
    assert_eq!(l.batch_insert_temp_scan(&batch), Err(LedgerError::NoScanTable));
    l.init_temp_scan();
    assert_eq!(l.batch_insert_temp_scan(&batch), Ok(()));
    let again = vec![item("/c", 1, 1, 0, 0), item("/a", 2, 2, 0, 0)];
    assert_eq!(l.batch_insert_temp_scan(&again), Err(LedgerError::DuplicatePath));
    assert_eq!(l.load_temp_scan().unwrap().len(), 2);
    let wide = vec![item("/d", 1, 1, 9223372036854775808, 0)];
    assert_eq!(l.batch_insert_temp_scan(&wide), Err(LedgerError::OutOfRange));
    let wide = vec![item("/d", 1, 1, 0, u64::MAX)];
    assert_eq!(l.batch_insert_temp_scan(&wide), Err(LedgerError::OutOfRange));
    let twice = vec![item("/e", 1, 1, 0, 0), item("/e", 1, 1, 0, 0)];
    assert_eq!(l.batch_insert_temp_scan(&twice), Err(LedgerError::DuplicatePath));
    l.init_temp_scan();
    assert!(l.load_temp_scan().unwrap().is_empty());
}

#[test]
fn deltas_between_scan_and_checkpoints() {
    let mut l = LocalLedger::open(
        Vec::new(),
        vec![
            checkpoint("/same", 10, 5, 1, 2),
            checkpoint("/grown", 10, 5, 1, 2),
            checkpoint("/newer", 10, 5, 1, 2),
            checkpoint("/moved", 10, 5, 1, 2),
            checkpoint("/dev", 10, 5, 1, 2),
            checkpoint("/gone", 10, 5, 1, 2),
        ],
        Vec::new(),
        Vec::new(),
    );
    assert_eq!(l.compute_delta_manifests().err(), Some(LedgerError::NoScanTable));
    l.init_temp_scan();
    l.batch_insert_temp_scan(&vec![
        item("/new", 1, 1, 1, 1),
        item("/same", 10, 5, 1, 2),
        item("/grown", 10, 6, 1, 2),
        item("/newer", 11, 5, 1, 2),
        item("/moved", 10, 5, 1, 3),
        item("/dev", 10, 5, 2, 2),
    ])
    .unwrap();
    let (created, modified, deleted) = l.compute_delta_manifests().unwrap();
    assert_eq!(created, vec!["/new"]);
    assert_eq!(modified, vec!["/grown", "/newer", "/moved", "/dev"]);
    assert_eq!(deleted, vec!["/gone"]);
}

#[test]
fn commits_and_dirty_marks() {
    let mut l = empty();
    l.take_changes();
    l.mark_dirty("/f", 100);
    l.mark_dirty("/f", 200);
    assert_eq!(l.checkpoint_position("/f"), (0, 0, 0));
    l.commit_checkpoint("/f", 77, stat(300, 77, 8, 9));
    assert_eq!(l.checkpoint_position("/f"), (77, 8, 9));
    l.delete_checkpoint("/f");
    assert_eq!(l.checkpoint_position("/f"), (0, 0, 0));
    let changes = l.take_changes();
    assert!(matches!(&changes[0], LedgerChange::PutDirty(d) if d.first_dirty_at == 100 && d.last_dirty_at == 100));
    assert!(matches!(&changes[1], LedgerChange::PutDirty(d) if d.first_dirty_at == 100 && d.last_dirty_at == 200));
    assert!(matches!(&changes[2], LedgerChange::PutCheckpoint(c)
        if c.file_path == "/f" && c.last_verified_offset == 77 && c.last_mtime_ns == 300 && c.status == "IN_SYNC"));
    assert!(matches!(&changes[3], LedgerChange::DropDirty(p) if p == "/f"));
    assert!(matches!(&changes[4], LedgerChange::DropCheckpoint(p) if p == "/f"));
    assert_eq!(changes.len(), 5);
    assert!(l.take_changes().is_empty());
}

#[test]
fn a_commit_replaces_the_checkpoint() {
    let mut l =
        LocalLedger::open(Vec::new(), vec![checkpoint("/f", 1, 5, 11, 22)], Vec::new(), Vec::new());
    l.commit_checkpoint("/f", 9, stat(2, 9, 33, 44));
    assert_eq!(l.checkpoint_position("/f"), (9, 33, 44));
    l.commit_checkpoint("/f", 10, None);
    assert_eq!(l.checkpoint_position("/f"), (10, 0, 0));
    l.commit_checkpoint("/f", 11, stat(2, 9, u64::MAX, 44));
    assert_eq!(l.checkpoint_position("/f"), (0, 0, 0));
    let l2 =
        LocalLedger::open(Vec::new(), vec![checkpoint("/n", 1, 5, -1, 22)], Vec::new(), Vec::new());
    assert_eq!(l2.checkpoint_position("/n"), (0, 0, 0));
}

#[test]
fn changes_of_segments_and_directories() {
    let mut l = empty();
    l.take_changes();
    l.seal_segment(2, "/p", 50, &[9u8; 32], 49, 1);
    l.delete_segment(2);
    l.watch_dir("/w", 6);
    l.watch_dir("/w", 7);
    l.unwatch_dir("/v");
    assert_eq!(l.watched_dirs(), vec!["/w"]);
    let changes = l.take_changes();
    assert!(matches!(&changes[0], LedgerChange::PutSegment(r)
        if r.state.segment_seq == 2 && r.state.sealed_size == 50 && r.state.synced_offset == 49 && r.updated_at == 1));
    assert!(matches!(&changes[1], LedgerChange::DropSegment(2)));
    assert!(matches!(&changes[2], LedgerChange::PutWatched(w) if w.added_at == 6));
    assert!(matches!(&changes[3], LedgerChange::PutWatched(w) if w.path == "/w" && w.added_at == 7));
    assert!(matches!(&changes[4], LedgerChange::DropWatched(p) if p == "/v"));
}

#[test]
fn scans_are_stored_in_batches_of_5000() {
    let mut l = empty();
    l.init_temp_scan();
    let mut b = ScanBatcher::new();
    for i in 0..4999 {
        b.push(item(&format!("/{}", i), 0, 0, 0, 0), &mut l).unwrap();
    }
    assert!(l.load_temp_scan().unwrap().is_empty());
    b.push(item("/4999", 0, 0, 0, 0), &mut l).unwrap();
    assert_eq!(l.load_temp_scan().unwrap().len(), 5000);
    b.push(item("/5000", 0, 0, 0, 0), &mut l).unwrap();
    assert_eq!(l.load_temp_scan().unwrap().len(), 5000);
    b.finish(&mut l).unwrap();
    let all = l.load_temp_scan().unwrap();
    assert_eq!(all.len(), 5001);
    assert_eq!(all[5000].file_path, "/5000");
}

#[test]
fn whole_scans() {
    let mut l = empty();
    assert_eq!(batch_scan(Vec::new(), &mut l), Ok(()));
    assert_eq!(batch_scan(vec![item("/a", 0, 0, 0, 0)], &mut l), Err(LedgerError::NoScanTable));
    l.init_temp_scan();
    let items = vec![item("/a", 0, 0, 0, 0), item("/b", 0, 0, 0, 0)];
    assert_eq!(batch_scan(items, &mut l), Ok(()));
    assert_eq!(l.load_temp_scan().unwrap().len(), 2);
    assert_eq!(batch_scan(vec![item("/b", 0, 0, 0, 0)], &mut l), Err(LedgerError::DuplicatePath));
}

#[test]
fn a_file_committed_in_full_is_unchanged() {
    let mut l = empty();
    l.commit_checkpoint("/f", 12, stat(100, 12, 3, 4));
    l.init_temp_scan();
    l.batch_insert_temp_scan(&vec![item("/f", 100, 12, 3, 4)]).unwrap();
    let (created, modified, deleted) = l.compute_delta_manifests().unwrap();
    assert!(created.is_empty() && modified.is_empty() && deleted.is_empty());
    for changed in [item("/f", 101, 12, 3, 4), item("/f", 100, 13, 3, 4), item("/f", 100, 12, 3, 5)] {
        l.init_temp_scan();
        l.batch_insert_temp_scan(&vec![changed]).unwrap();
        assert_eq!(l.compute_delta_manifests().unwrap().1, vec!["/f"]);
    }
}

#[test]
fn segments_do_not_touch_each_other() {
    let mut l = empty();
    l.seal_segment(1, "/1", 10, &[1u8; 32], 10, 1);
    l.upsert_segment(2, "/2", "UNFINISHED", 5, 1);
    l.seal_segment(2, "/2", 9, &[2u8; 32], 9, 2);
    l.delete_segment(2);
    let s = l.get_segment(1).unwrap();
    assert_eq!((s.state.as_str(), s.sealed_size, s.synced_offset), ("SEALED", 10, 10));
    assert_eq!(s.sealed_hash, Some(vec![1u8; 32]));
}

#[test]
fn a_refused_scan_keeps_its_full_batches() {
    let mut l = empty();
    l.upsert_segment(0, "/p", "UNFINISHED", 1, 1);
    l.init_temp_scan();
    let mut items: Vec<ScanItem> = (0..7000).map(|i| item(&format!("/{}", i), 0, 0, 0, 0)).collect();
    items.push(item("/3", 0, 0, 0, 0));
    assert_eq!(batch_scan(items, &mut l), Err(LedgerError::DuplicatePath));
    assert_eq!(l.load_temp_scan().unwrap().len(), 5000);
    assert!(l.get_segment(0).is_some());
}

#[test]
fn opening_removes_the_sent_hashes_alone() {
    let mut l =
        LocalLedger::open(Vec::new(), vec![checkpoint("/f", 1, 5, 11, 22)], Vec::new(), Vec::new());
    let changes = l.take_changes();
    assert_eq!(changes.len(), 1);
    assert!(matches!(&changes[0], LedgerChange::ClearSentHashes));
    assert!(l.take_changes().is_empty());
    assert_eq!(l.checkpoint_position("/f"), (5, 11, 22));
}

#[test]
fn dirty_files_in_the_order_of_their_marks() {
    let mut l = empty();
    assert!(l.dirty_paths().is_empty());
    l.mark_dirty("/c", 3);
    l.mark_dirty("/a", -1);
    l.mark_dirty("/b", 2);
    l.mark_dirty("/a", 9);
    assert_eq!(l.dirty_paths(), vec!["/a", "/b", "/c"]);
    l.commit_checkpoint("/b", 1, None);
    assert_eq!(l.dirty_paths(), vec!["/a", "/c"]);
}
