//! The local ledger: what was sent of each file and segment, what is dirty, what is watched.

use vstd::hash_map::StringHashMap;
use vstd::hash_set::StringHashSet;
use vstd::prelude::*;

use crate::numbers::to_signed64;
use crate::scanner::ScanItem;
use crate::slicer::copy_range;
use crate::table::erase;
use crate::table::find;
use crate::table::load;
use crate::table::put;
use crate::table::Record;
use crate::text::same_text;

verus! {

use crate::numbers::signed64;
use crate::table::distinct;
use crate::table::has;
use crate::table::lemma_table_keys;
use crate::table::lemma_table_row;
use crate::table::table;
use crate::text::texts;

/// What is known of a segment.
pub struct SegmentState {
    pub segment_seq: u32,
    pub file_path: String,
    pub state: String,
    pub sealed_size: i64,
    pub sealed_hash: Option<Vec<u8>>,
    pub synced_offset: i64,
}

/// A stored segment row: the state and when it was written.
pub struct SegmentRecord {
    pub state: SegmentState,
    pub updated_at: i64,
}

/// The contents of a segment row.
pub struct SegmentRow {
    pub file_path: Seq<char>,
    pub state: Seq<char>,
    pub sealed_size: i64,
    pub sealed_hash: Option<Seq<u8>>,
    pub synced_offset: i64,
    pub updated_at: i64,
}

/// The bytes of an optional hash.
pub open spec fn hash_bytes(hash: Option<Vec<u8>>) -> Option<Seq<u8>> {
    match hash {
        Some(bytes) => Some(bytes@),
        None => None,
    }
}

impl SegmentState {
    /// The row that the state and a time of writing make.
    pub open spec fn row_at(&self, updated_at: i64) -> SegmentRow {
        SegmentRow {
            file_path: self.file_path@,
            state: self.state@,
            sealed_size: self.sealed_size,
            sealed_hash: hash_bytes(self.sealed_hash),
            synced_offset: self.synced_offset,
            updated_at,
        }
    }
}

impl Record for SegmentRecord {
    type Key = u32;

    type Row = SegmentRow;

    type Probe = u32;

    open spec fn key(&self) -> u32 {
        self.state.segment_seq
    }

    open spec fn row(&self) -> SegmentRow {
        self.state.row_at(self.updated_at)
    }

    open spec fn probe_key(probe: u32) -> u32 {
        probe
    }

    fn has_key(&self, probe: &u32) -> (r: bool) {
        self.state.segment_seq == *probe
    }

    fn probe(&self) -> (r: u32) {
        self.state.segment_seq
    }
}

/// How far a file was sent.
pub struct Checkpoint {
    pub file_path: String,
    pub last_mtime_ns: i64,
    pub last_verified_offset: i64,
    pub st_dev: i64,
    pub st_ino: i64,
    pub status: String,
}

/// The contents of a checkpoint row.
pub struct CheckpointRow {
    pub last_mtime_ns: i64,
    pub last_verified_offset: i64,
    pub st_dev: i64,
    pub st_ino: i64,
    pub status: Seq<char>,
}

impl Record for Checkpoint {
    type Key = Seq<char>;

    type Row = CheckpointRow;

    type Probe = String;

    open spec fn key(&self) -> Seq<char> {
        self.file_path@
    }

    open spec fn row(&self) -> CheckpointRow {
        CheckpointRow {
            last_mtime_ns: self.last_mtime_ns,
            last_verified_offset: self.last_verified_offset,
            st_dev: self.st_dev,
            st_ino: self.st_ino,
            status: self.status@,
        }
    }

    open spec fn probe_key(probe: String) -> Seq<char> {
        probe@
    }

    fn has_key(&self, probe: &String) -> (r: bool) {
        self.file_path == *probe
    }

    fn probe(&self) -> (r: String) {
        self.file_path.clone()
    }
}

/// A file with changes that are not yet sent.
pub struct DirtyFile {
    pub file_path: String,
    pub first_dirty_at: i64,
    pub last_dirty_at: i64,
}

impl Record for DirtyFile {
    type Key = Seq<char>;

    type Row = (i64, i64);

    type Probe = String;

    open spec fn key(&self) -> Seq<char> {
        self.file_path@
    }

    open spec fn row(&self) -> (i64, i64) {
        (self.first_dirty_at, self.last_dirty_at)
    }

    open spec fn probe_key(probe: String) -> Seq<char> {
        probe@
    }

    fn has_key(&self, probe: &String) -> (r: bool) {
        self.file_path == *probe
    }

    fn probe(&self) -> (r: String) {
        self.file_path.clone()
    }
}

/// A directory that was added to the watch at run time.
pub struct WatchedDir {
    pub path: String,
    pub added_at: i64,
}

impl Record for WatchedDir {
    type Key = Seq<char>;

    type Row = i64;

    type Probe = String;

    open spec fn key(&self) -> Seq<char> {
        self.path@
    }

    open spec fn row(&self) -> i64 {
        self.added_at
    }

    open spec fn probe_key(probe: String) -> Seq<char> {
        probe@
    }

    fn has_key(&self, probe: &String) -> (r: bool) {
        self.path == *probe
    }

    fn probe(&self) -> (r: String) {
        self.path.clone()
    }
}

/// What the system says of a file.
#[derive(Clone, Copy, Debug, PartialEq, Eq, Structural)]
pub struct FileStat {
    pub dev: u64,
    pub ino: u64,
    pub size: u64,
    pub mtime_ns: i64,
}

/// Why the scan table refuses.
#[derive(Clone, Copy, Debug, PartialEq, Eq, Structural)]
pub enum LedgerError {
    /// The scan table was never set up.
    NoScanTable,
    /// A device or inode number is beyond 63 bits.
    OutOfRange,
    /// A path is in the scan table already.
    DuplicatePath,
}

/// The contents of the ledger.
pub struct LedgerView {
    pub segments: Map<u32, SegmentRow>,
    pub checkpoints: Map<Seq<char>, CheckpointRow>,
    pub dirty: Map<Seq<char>, (i64, i64)>,
    pub watched: Map<Seq<char>, i64>,
    pub scan: Option<Seq<ScanItem>>,
}

/// What of the ledger outlives the process.
pub struct StoredView {
    pub segments: Map<u32, SegmentRow>,
    pub checkpoints: Map<Seq<char>, CheckpointRow>,
    pub dirty: Map<Seq<char>, (i64, i64)>,
    pub watched: Map<Seq<char>, i64>,
}

impl LedgerView {
    /// What of the ledger outlives the process: all but the scan table.
    pub open spec fn stored(self) -> StoredView {
        StoredView {
            segments: self.segments,
            checkpoints: self.checkpoints,
            dirty: self.dirty,
            watched: self.watched,
        }
    }
}

/// A change of a stored row.
pub enum LedgerChange {
    PutSegment(SegmentRecord),
    DropSegment(u32),
    PutCheckpoint(Checkpoint),
    DropCheckpoint(String),
    PutDirty(DirtyFile),
    DropDirty(String),
    PutWatched(WatchedDir),
    DropWatched(String),
    /// The hashes of what was sent are all removed.
    ClearSentHashes,
}

/// The stored rows after a change.
pub open spec fn changed(s: StoredView, change: LedgerChange) -> StoredView {
    match change {
        LedgerChange::PutSegment(r) => StoredView {
            segments: s.segments.insert(r.key(), r.row()),
            ..s
        },
        LedgerChange::DropSegment(seq) => StoredView { segments: s.segments.remove(seq), ..s },
        LedgerChange::PutCheckpoint(r) => StoredView {
            checkpoints: s.checkpoints.insert(r.key(), r.row()),
            ..s
        },
        LedgerChange::DropCheckpoint(path) => StoredView {
            checkpoints: s.checkpoints.remove(path@),
            ..s
        },
        LedgerChange::PutDirty(r) => StoredView { dirty: s.dirty.insert(r.key(), r.row()), ..s },
        LedgerChange::DropDirty(path) => StoredView { dirty: s.dirty.remove(path@), ..s },
        LedgerChange::PutWatched(r) => StoredView { watched: s.watched.insert(r.key(), r.row()), ..s },
        LedgerChange::DropWatched(path) => StoredView { watched: s.watched.remove(path@), ..s },
        LedgerChange::ClearSentHashes => s,
    }
}

/// The stored rows after a list of changes, one after the other.
pub open spec fn replayed(s: StoredView, changes: Seq<LedgerChange>) -> StoredView
    decreases changes.len(),
{
    if changes.len() == 0 {
        s
    } else {
        changed(replayed(s, changes.drop_last()), changes.last())
    }
}

/// The contents of a row of the chunk hashes, a table of the database that the ledger leaves alone.
pub struct ChunkHashRow {
    pub blind_id: Seq<u8>,
    pub chunk_offset: i64,
    pub chunk_length: i64,
}

/// The contents of a row of the sent hashes, a table of the database that is no longer used.
pub struct SentHashRow {
    pub file_path: Seq<char>,
    pub sent_at: i64,
    pub confirmed: i64,
}

/// The database: the rows that the ledger holds, the chunk hashes by file and version, and the sent
/// hashes.
pub struct DatabaseView {
    pub stored: StoredView,
    pub chunk_hashes: Map<(Seq<char>, i64), ChunkHashRow>,
    pub sent_hashes: Map<Seq<u8>, SentHashRow>,
}

/// The database after a change: with a checkpoint go the chunk hashes of its file.
pub open spec fn applied(db: DatabaseView, change: LedgerChange) -> DatabaseView {
    DatabaseView {
        stored: changed(db.stored, change),
        chunk_hashes: match change {
            LedgerChange::DropCheckpoint(path) => db.chunk_hashes.restrict(
                Set::new(|k: (Seq<char>, i64)| k.0 != path@),
            ),
            _ => db.chunk_hashes,
        },
        sent_hashes: match change {
            LedgerChange::ClearSentHashes => Map::empty(),
            _ => db.sent_hashes,
        },
    }
}

/// The database after a list of changes, one after the other.
pub open spec fn applied_all(db: DatabaseView, changes: Seq<LedgerChange>) -> DatabaseView
    decreases changes.len(),
{
    if changes.len() == 0 {
        db
    } else {
        applied(applied_all(db, changes.drop_last()), changes.last())
    }
}

/// The tables that outlive the process, and their changes since they were last stored.
struct Tables {
    segments: Vec<SegmentRecord>,
    checkpoints: Vec<Checkpoint>,
    dirty: Vec<DirtyFile>,
    watched: Vec<WatchedDir>,
    log: Vec<LedgerChange>,
    base: Ghost<StoredView>,
}

impl Tables {
    closed spec fn stored(&self) -> StoredView {
        StoredView {
            segments: table(self.segments@),
            checkpoints: table(self.checkpoints@),
            dirty: table(self.dirty@),
            watched: table(self.watched@),
        }
    }

    /// Every table has at most one row for a key, and the changes since the tables were last stored
    /// lead to what they are.
    closed spec fn ok(&self) -> bool {
        &&& distinct(self.segments@)
        &&& distinct(self.checkpoints@)
        &&& distinct(self.dirty@)
        &&& distinct(self.watched@)
        &&& replayed(self.base@, self.log@) == self.stored()
    }

    fn new(
        segments: Vec<SegmentRecord>,
        checkpoints: Vec<Checkpoint>,
        dirty: Vec<DirtyFile>,
        watched: Vec<WatchedDir>,
    ) -> (r: Self)
        requires
            distinct(segments@),
            distinct(checkpoints@),
            distinct(dirty@),
            distinct(watched@),
        ensures
            r.ok(),
            r.segments@ == segments@,
            r.checkpoints@ == checkpoints@,
            r.dirty@ == dirty@,
            r.watched@ == watched@,
            r.base@ == r.stored(),
            r.log@ == Seq::<LedgerChange>::empty(),
    {
        let ghost base = StoredView {
            segments: table(segments@),
            checkpoints: table(checkpoints@),
            dirty: table(dirty@),
            watched: table(watched@),
        };
        Tables { segments, checkpoints, dirty, watched, log: Vec::new(), base: Ghost(base) }
    }

    fn empty() -> (r: Self)
        ensures
            r.ok(),
    {
        Tables::new(Vec::new(), Vec::new(), Vec::new(), Vec::new())
    }

    /// Notes a change that was made.
    fn note(&mut self, change: LedgerChange)
        requires
            distinct(old(self).segments@),
            distinct(old(self).checkpoints@),
            distinct(old(self).dirty@),
            distinct(old(self).watched@),
            old(self).stored() == changed(
                replayed(old(self).base@, old(self).log@),
                change,
            ),
        ensures
            final(self).ok(),
            final(self).stored() == old(self).stored(),
            final(self).base@ == old(self).base@,
            final(self).log@ == old(self).log@.push(change),
    {
        let ghost before = self.log@;
        self.log.push(change);
        assert(self.log@.drop_last() =~= before);
    }

    fn put_segment(&mut self, record: SegmentRecord)
        requires
            old(self).ok(),
        ensures
            final(self).ok(),
            final(self).stored() == changed(old(self).stored(), LedgerChange::PutSegment(record)),
            final(self).base@ == old(self).base@,
    {
        let copy = SegmentRecord {
            state: copy_state(&record.state),
            updated_at: record.updated_at,
        };
        put(&mut self.segments, record);
        self.note(LedgerChange::PutSegment(copy));
    }

    fn drop_segment(&mut self, seq: u32)
        requires
            old(self).ok(),
        ensures
            final(self).ok(),
            final(self).stored() == changed(old(self).stored(), LedgerChange::DropSegment(seq)),
            final(self).base@ == old(self).base@,
    {
        erase(&mut self.segments, &seq);
        self.note(LedgerChange::DropSegment(seq));
    }

    fn put_checkpoint(&mut self, record: Checkpoint)
        requires
            old(self).ok(),
        ensures
            final(self).ok(),
            final(self).stored() == changed(old(self).stored(), LedgerChange::PutCheckpoint(record)),
            final(self).base@ == old(self).base@,
    {
        let copy = Checkpoint {
            file_path: record.file_path.clone(),
            status: record.status.clone(),
            last_mtime_ns: record.last_mtime_ns,
            last_verified_offset: record.last_verified_offset,
            st_dev: record.st_dev,
            st_ino: record.st_ino,
        };
        put(&mut self.checkpoints, record);
        self.note(LedgerChange::PutCheckpoint(copy));
    }

    fn drop_checkpoint(&mut self, path: &str)
        requires
            old(self).ok(),
        ensures
            final(self).ok(),
            final(self).stored() == (StoredView {
                checkpoints: old(self).stored().checkpoints.remove(path@),
                ..old(self).stored()
            }),
            final(self).base@ == old(self).base@,
    {
        let key: String = path.to_string();
        erase(&mut self.checkpoints, &key);
        self.note(LedgerChange::DropCheckpoint(key));
    }

    fn put_dirty(&mut self, record: DirtyFile)
        requires
            old(self).ok(),
        ensures
            final(self).ok(),
            final(self).stored() == changed(old(self).stored(), LedgerChange::PutDirty(record)),
            final(self).base@ == old(self).base@,
    {
        let copy = DirtyFile {
            file_path: record.file_path.clone(),
            first_dirty_at: record.first_dirty_at,
            last_dirty_at: record.last_dirty_at,
        };
        put(&mut self.dirty, record);
        self.note(LedgerChange::PutDirty(copy));
    }

    fn drop_dirty(&mut self, path: &str)
        requires
            old(self).ok(),
        ensures
            final(self).ok(),
            final(self).stored() == (StoredView {
                dirty: old(self).stored().dirty.remove(path@),
                ..old(self).stored()
            }),
            final(self).base@ == old(self).base@,
    {
        let key: String = path.to_string();
        erase(&mut self.dirty, &key);
        self.note(LedgerChange::DropDirty(key));
    }

    fn put_watched(&mut self, record: WatchedDir)
        requires
            old(self).ok(),
        ensures
            final(self).ok(),
            final(self).stored() == changed(old(self).stored(), LedgerChange::PutWatched(record)),
            final(self).base@ == old(self).base@,
    {
        let copy = WatchedDir { path: record.path.clone(), added_at: record.added_at };
        put(&mut self.watched, record);
        self.note(LedgerChange::PutWatched(copy));
    }

    fn drop_watched(&mut self, path: &str)
        requires
            old(self).ok(),
        ensures
            final(self).ok(),
            final(self).stored() == (StoredView {
                watched: old(self).stored().watched.remove(path@),
                ..old(self).stored()
            }),
            final(self).base@ == old(self).base@,
    {
        let key: String = path.to_string();
        erase(&mut self.watched, &key);
        self.note(LedgerChange::DropWatched(key));
    }

    /// Hands out the changes since the tables were last stored.
    fn take_log(&mut self) -> (r: Vec<LedgerChange>)
        requires
            old(self).ok(),
        ensures
            final(self).ok(),
            final(self).stored() == old(self).stored(),
            final(self).base@ == old(self).stored(),
            final(self).log@ == Seq::<LedgerChange>::empty(),
            r@ == old(self).log@,
            replayed(old(self).base@, r@) == old(self).stored(),
    {
        let mut log: Vec<LedgerChange> = Vec::new();
        std::mem::swap(&mut log, &mut self.log);
        self.base = Ghost(self.stored());
        log
    }
}

/// The ledger. Every table has at most one row for a key.
pub struct LocalLedger {
    tables: Tables,
    scan: Option<Vec<ScanItem>>,
}

impl View for LocalLedger {
    type V = LedgerView;

    closed spec fn view(&self) -> LedgerView {
        LedgerView {
            segments: self.tables.stored().segments,
            checkpoints: self.tables.stored().checkpoints,
            dirty: self.tables.stored().dirty,
            watched: self.tables.stored().watched,
            scan: match self.scan {
                Some(items) => Some(items@),
                None => None,
            },
        }
    }
}

/// The path is among the scanned files.
pub open spec fn scanned(scan: Seq<ScanItem>, path: Seq<char>) -> bool {
    exists|i: int| 0 <= i < scan.len() && (#[trigger] scan[i]).file_path@ == path
}

/// No path was scanned twice.
pub open spec fn distinct_paths(scan: Seq<ScanItem>) -> bool {
    forall|i: int, j: int|
        0 <= i < j < scan.len() ==> (#[trigger] scan[i]).file_path@ != (
        #[trigger] scan[j]).file_path@
}

/// The scan table after the first `n` items of a batch went in, or the first refusal.
pub open spec fn insert_items(scan: Seq<ScanItem>, batch: Seq<ScanItem>, n: int) -> Result<
    Seq<ScanItem>,
    LedgerError,
>
    decreases n,
{
    if n <= 0 {
        Ok(scan)
    } else {
        match insert_items(scan, batch, n - 1) {
            Err(e) => Err(e),
            Ok(items) => {
                let item = batch[n - 1];
                if item.st_dev > i64::MAX || item.st_ino > i64::MAX {
                    Err(LedgerError::OutOfRange)
                } else if scanned(items, item.file_path@) {
                    Err(LedgerError::DuplicatePath)
                } else {
                    Ok(items.push(item))
                }
            },
        }
    }
}

/// A scanned file differs from its checkpoint.
pub open spec fn differs(item: ScanItem, row: CheckpointRow) -> bool {
    ||| item.mtime_ns > row.last_mtime_ns
    ||| item.file_size != row.last_verified_offset
    ||| item.st_dev != row.st_dev
    ||| item.st_ino != row.st_ino
}

/// The scanned paths without a checkpoint, in scan order.
pub open spec fn new_paths(
    scan: Seq<ScanItem>,
    checkpoints: Map<Seq<char>, CheckpointRow>,
) -> Seq<Seq<char>>
    decreases scan.len(),
{
    if scan.len() == 0 {
        Seq::empty()
    } else {
        let before = new_paths(scan.drop_last(), checkpoints);
        if checkpoints.contains_key(scan.last().file_path@) {
            before
        } else {
            before.push(scan.last().file_path@)
        }
    }
}

/// The scanned paths that differ from their checkpoint, in scan order.
pub open spec fn modified_paths(
    scan: Seq<ScanItem>,
    checkpoints: Map<Seq<char>, CheckpointRow>,
) -> Seq<Seq<char>>
    decreases scan.len(),
{
    if scan.len() == 0 {
        Seq::empty()
    } else {
        let before = modified_paths(scan.drop_last(), checkpoints);
        let path = scan.last().file_path@;
        if checkpoints.contains_key(path) && differs(scan.last(), checkpoints[path]) {
            before.push(path)
        } else {
            before
        }
    }
}

/// `list` names each checkpoint whose file was not scanned, once.
pub open spec fn lists_deleted(
    list: Seq<Seq<char>>,
    scan: Seq<ScanItem>,
    checkpoints: Map<Seq<char>, CheckpointRow>,
) -> bool {
    &&& list.no_duplicates()
    &&& forall|path: Seq<char>| #[trigger]
        list.contains(path) == (checkpoints.contains_key(path) && !scanned(scan, path))
}

/// `list` names each dirty file once, those first that became dirty first.
pub open spec fn lists_dirty(list: Seq<Seq<char>>, dirty: Map<Seq<char>, (i64, i64)>) -> bool {
    &&& list.no_duplicates()
    &&& forall|path: Seq<char>| #[trigger] list.contains(path) == dirty.contains_key(path)
    &&& forall|i: int, j: int|
        0 <= i < j < list.len() ==> dirty[#[trigger] list[i]].0 <= dirty[#[trigger] list[j]].0
}

impl LocalLedger {
    /// The rows that are stored, before the changes that were not yet handed out.
    pub closed spec fn base(&self) -> StoredView {
        self.tables.base@
    }

    /// The changes that were not yet handed out.
    pub closed spec fn unsaved(&self) -> Seq<LedgerChange> {
        self.tables.log@
    }

    /// Every table has at most one row for a key, and no path was scanned twice.
    #[verifier::type_invariant]
    closed spec fn unique(self) -> bool {
        &&& self.tables.ok()
        &&& self.scan matches Some(items) ==> distinct_paths(items@)
    }

    /// The ledger with the stored rows, and without a scan table. Of the other tables of the database
    /// the sent hashes are to be removed, and the chunk hashes stay as they are.
    pub fn open(
        segments: Vec<SegmentRecord>,
        checkpoints: Vec<Checkpoint>,
        dirty: Vec<DirtyFile>,
        watched: Vec<WatchedDir>,
    ) -> (r: Self)
        ensures
            r@.segments == table(segments@),
            r@.checkpoints == table(checkpoints@),
            r@.dirty == table(dirty@),
            r@.watched == table(watched@),
            r@.scan is None,
            r.base() == r@.stored(),
            r.unsaved() == seq![LedgerChange::ClearSentHashes],
    {
        let mut tables = Tables::new(load(segments), load(checkpoints), load(dirty), load(watched));
        tables.note(LedgerChange::ClearSentHashes);
        assert(tables.log@ =~= seq![LedgerChange::ClearSentHashes]);
        LocalLedger { tables, scan: None }
    }

    /// Hands out what changed since the rows were last stored. Made to the stored rows one after the
    /// other, the changes turn them into what the ledger holds.
    pub fn take_changes(&mut self) -> (r: Vec<LedgerChange>)
        ensures
            r@ == old(self).unsaved(),
            replayed(old(self).base(), r@) == old(self)@.stored(),
            final(self)@ == old(self)@,
            final(self).base() == final(self)@.stored(),
            final(self).unsaved() == Seq::<LedgerChange>::empty(),
    {
        proof {
            use_type_invariant(&*self);
        }
        let mut tables = Tables::empty();
        std::mem::swap(&mut tables, &mut self.tables);
        let r = tables.take_log();
        self.tables = tables;
        r
    }

    /// The state of a segment.
    pub fn get_segment(&self, segment_seq: u32) -> (r: Option<SegmentState>)
        ensures
            r is Some == self@.segments.contains_key(segment_seq),
            r matches Some(s) ==> s.segment_seq == segment_seq && s.row_at(
                self@.segments[segment_seq].updated_at,
            ) == self@.segments[segment_seq],
    {
        proof {
            use_type_invariant(self);
        }
        match find(&self.tables.segments, &segment_seq) {
            None => None,
            Some(i) => Some(copy_state(&self.tables.segments[i].state)),
        }
    }

    /// The greatest known segment number.
    pub fn max_segment_seq(&self) -> (r: Option<u32>)
        ensures
            r is None ==> forall|k: u32| !#[trigger] self@.segments.contains_key(k),
            r matches Some(m) ==> self@.segments.contains_key(m) && forall|k: u32| #[trigger]
                self@.segments.contains_key(k) ==> k <= m,
    {
        proof {
            use_type_invariant(self);
        }
        let n: usize = self.tables.segments.len();
        let ghost records = self.tables.segments@;
        let mut max: Option<u32> = None;
        let mut i: usize = 0;
        while i < n
            invariant
                i <= n,
                n == self.tables.segments@.len(),
                records == self.tables.segments@,
                distinct(records),
                max is None ==> i == 0,
                max matches Some(m) ==> has(records, m) && forall|j: int|
                    0 <= j < i ==> (#[trigger] records[j]).key() <= m,
            decreases n - i,
        {
            let seq: u32 = self.tables.segments[i].state.segment_seq;
            assert(records[i as int].key() == seq);
            match max {
                None => {
                    max = Some(seq);
                },
                Some(m) => {
                    if seq > m {
                        max = Some(seq);
                    }
                },
            }
            i = i + 1;
        }
        proof {
            assert forall|k: u32| #[trigger] self@.segments.contains_key(k) implies has(
                records,
                k,
            ) by {
                lemma_table_keys(records, k);
            }
            if let Some(m) = max {
                lemma_table_keys(records, m);
            }
        }
        max
    }

    /// The known segment numbers, each once.
    pub fn segment_seqs(&self) -> (r: Vec<u32>)
        ensures
            r@.no_duplicates(),
            forall|k: u32| #[trigger] r@.contains(k) == self@.segments.contains_key(k),
    {
        proof {
            use_type_invariant(self);
        }
        let ghost records = self.tables.segments@;
        let n: usize = self.tables.segments.len();
        let mut r: Vec<u32> = Vec::new();
        let mut i: usize = 0;
        while i < n
            invariant
                i <= n,
                n == records.len(),
                records == self.tables.segments@,
                r@.len() == i,
                forall|j: int| 0 <= j < i ==> #[trigger] r@[j] == records[j].key(),
            decreases n - i,
        {
            r.push(self.tables.segments[i].state.segment_seq);
            i = i + 1;
        }
        proof {
            assert forall|a: int, b: int| 0 <= a < r@.len() && 0 <= b < r@.len() && a
                != b implies r@[a] != r@[b] by {
                if a < b {
                    assert(records[a].key() != records[b].key());
                } else {
                    assert(records[b].key() != records[a].key());
                }
            }
            assert forall|k: u32| #[trigger] r@.contains(k) == self@.segments.contains_key(k) by {
                lemma_table_keys(records, k);
                if r@.contains(k) {
                    let j = choose|j: int| 0 <= j < r@.len() && r@[j] == k;
                    assert(records[j].key() == k);
                }
                if has(records, k) {
                    let j = choose|j: int|
                        0 <= j < records.len() && (#[trigger] records[j]).key() == k;
                    assert(r@[j] == k);
                }
            }
        }
        r
    }

    /// The least known segment from `from` up to below `upto` that is not sealed.
    pub fn next_unsealed(&self, from: u32, upto: u32) -> (r: Option<u32>)
        ensures
            r == least_unsealed(self@.segments, from as int, upto as int),
    {
        proof {
            use_type_invariant(self);
        }
        let ghost records = self.tables.segments@;
        let n: usize = self.tables.segments.len();
        let mut least: Option<u32> = None;
        let mut i: usize = 0;
        while i < n
            invariant
                i <= n,
                n == records.len(),
                records == self.tables.segments@,
                distinct(records),
                least matches Some(m) ==> from <= m < upto && unsealed(table(records), m),
                forall|j: int|
                    0 <= j < i && from <= (#[trigger] records[j]).key() < upto
                        && records[j].state.state@ != "SEALED"@ ==> (least matches Some(m) && m
                        <= records[j].key()),
            decreases n - i,
        {
            let state = &self.tables.segments[i].state;
            let seq: u32 = state.segment_seq;
            proof {
                lemma_table_row(records, i as int);
            }
            if from <= seq && seq < upto && !same_text(&state.state, "SEALED") {
                match least {
                    None => {
                        least = Some(seq);
                    },
                    Some(m) => {
                        if seq < m {
                            least = Some(seq);
                        }
                    },
                }
            }
            i = i + 1;
        }
        proof {
            assert forall|k: u32| from <= k < upto && #[trigger] unsealed(
                table(records),
                k,
            ) implies (least matches Some(m) && m <= k) by {
                lemma_table_keys(records, k);
                let j = choose|j: int| 0 <= j < records.len() && (#[trigger] records[j]).key() == k;
                lemma_table_row(records, j);
            }
            lemma_least_unsealed(table(records), from as int, upto as int);
        }
        least
    }

    /// Records how far a segment was sent; the sealed size and hash of a known one stay.
    pub fn upsert_segment(
        &mut self,
        segment_seq: u32,
        file_path: &str,
        state: &str,
        synced_offset: u64,
        now: i64,
    )
        ensures
            final(self).base() == old(self).base(),
            final(self)@ == advanced(
                old(self)@,
                segment_seq,
                file_path@,
                state@,
                synced_offset,
                now,
            ),
    {
        proof {
            use_type_invariant(&*self);
        }
        let (sealed_size, sealed_hash): (i64, Option<Vec<u8>>) = match find(
            &self.tables.segments,
            &segment_seq,
        ) {
            None => (0, None),
            Some(i) => {
                let known = &self.tables.segments[i].state;
                (known.sealed_size, copy_hash(&known.sealed_hash))
            },
        };
        let record = SegmentRecord {
            state: SegmentState {
                segment_seq,
                file_path: file_path.to_string(),
                state: state.to_string(),
                sealed_size,
                sealed_hash,
                synced_offset: to_signed64(synced_offset),
            },
            updated_at: now,
        };
        let mut tables = Tables::empty();
        std::mem::swap(&mut tables, &mut self.tables);
        tables.put_segment(record);
        self.tables = tables;
    }

    /// Records that a segment is complete.
    pub fn seal_segment(
        &mut self,
        segment_seq: u32,
        file_path: &str,
        sealed_size: u64,
        sealed_hash: &[u8],
        synced_offset: u64,
        now: i64,
    )
        ensures
            final(self).base() == old(self).base(),
            final(self)@ == sealed(
                old(self)@,
                segment_seq,
                file_path@,
                sealed_size,
                sealed_hash@,
                synced_offset,
                now,
            ),
    {
        proof {
            use_type_invariant(&*self);
        }
        let mut hash: Vec<u8> = Vec::new();
        hash.extend_from_slice(sealed_hash);
        assert(hash@ =~= sealed_hash@);
        let record = SegmentRecord {
            state: SegmentState {
                segment_seq,
                file_path: file_path.to_string(),
                state: "SEALED".to_string(),
                sealed_size: to_signed64(sealed_size),
                sealed_hash: Some(hash),
                synced_offset: to_signed64(synced_offset),
            },
            updated_at: now,
        };
        let mut tables = Tables::empty();
        std::mem::swap(&mut tables, &mut self.tables);
        tables.put_segment(record);
        self.tables = tables;
    }

    /// Forgets a segment.
    pub fn delete_segment(&mut self, segment_seq: u32)
        ensures
            final(self).base() == old(self).base(),
            final(self)@ == forgotten(old(self)@, segment_seq),
    {
        proof {
            use_type_invariant(&*self);
        }
        let mut tables = Tables::empty();
        std::mem::swap(&mut tables, &mut self.tables);
        tables.drop_segment(segment_seq);
        self.tables = tables;
    }

    /// Sets the scan table up, empty.
    pub fn init_temp_scan(&mut self)
        ensures
            final(self).base() == old(self).base(),
            final(self)@ == (LedgerView { scan: Some(Seq::empty()), ..old(self)@ }),
    {
        proof {
            use_type_invariant(&*self);
        }
        let items: Vec<ScanItem> = Vec::new();
        assert(items@ =~= Seq::<ScanItem>::empty());
        self.scan = Some(items);
    }

    /// Adds a batch to the scan table, all of it or nothing.
    pub fn batch_insert_temp_scan(&mut self, batch: &Vec<ScanItem>) -> (r: Result<(), LedgerError>)
        ensures
            old(self)@.scan is None ==> r == Err::<(), LedgerError>(LedgerError::NoScanTable),
            old(self)@.scan matches Some(scan) ==> match insert_items(
                scan,
                batch@,
                batch@.len() as int,
            ) {
                Ok(items) => r is Ok && final(self)@ == (LedgerView {
                    scan: Some(items),
                    ..old(self)@
                }),
                Err(e) => r == Err::<(), LedgerError>(e),
            },
            r is Err ==> final(self)@ == old(self)@,
            final(self).base() == old(self).base(),
    {
        proof {
            use_type_invariant(&*self);
        }
        let mut items: Vec<ScanItem> = match &self.scan {
            None => {
                return Err(LedgerError::NoScanTable);
            },
            Some(known) => copy_items(known),
        };
        let ghost scan = items@;
        let mut paths = scanned_paths(&items);
        let n: usize = batch.len();
        let mut i: usize = 0;
        while i < n
            invariant
                i <= n,
                n == batch@.len(),
                insert_items(scan, batch@, i as int) == Ok::<Seq<ScanItem>, LedgerError>(items@),
                forall|path: Seq<char>| #[trigger] paths@.contains(path) == scanned(items@, path),
                self@.scan == Some(scan),
                distinct_paths(scan),
                self@ == old(self)@,
            decreases n - i,
        {
            let item = &batch[i];
            if item.st_dev > i64::MAX as u64 || item.st_ino > i64::MAX as u64 {
                proof {
                    lemma_insert_stops(scan, batch@, i + 1, n as int);
                }
                return Err(LedgerError::OutOfRange);
            }
            if paths.contains(&item.file_path) {
                proof {
                    lemma_insert_stops(scan, batch@, i + 1, n as int);
                }
                return Err(LedgerError::DuplicatePath);
            }
            proof {
                assert forall|path: Seq<char>| #[trigger] scanned(items@.push(*item), path) == (
                scanned(items@, path) || item.file_path@ == path) by {
                    lemma_scanned_push(items@, *item, path);
                }
            }
            paths.insert(item.file_path.clone());
            items.push(item.clone());
            i = i + 1;
        }
        proof {
            law_scan_batches_append(scan, batch@, n as int);
        }
        self.scan = Some(items);
        Ok(())
    }

    /// The scan table.
    pub fn load_temp_scan(&self) -> (r: Result<Vec<ScanItem>, LedgerError>)
        ensures
            self@.scan is None ==> r is Err && r->Err_0 == LedgerError::NoScanTable,
            self@.scan matches Some(scan) ==> r is Ok && r->Ok_0@ == scan && distinct_paths(scan),
    {
        proof {
            use_type_invariant(self);
        }
        match &self.scan {
            None => Err(LedgerError::NoScanTable),
            Some(items) => Ok(copy_items(items)),
        }
    }

    /// What changed since the checkpoints: the new, the modified and the deleted files.
    pub fn compute_delta_manifests(&self) -> (r: Result<
        (Vec<String>, Vec<String>, Vec<String>),
        LedgerError,
    >)
        ensures
            self@.scan is None ==> r is Err && r->Err_0 == LedgerError::NoScanTable,
            self@.scan matches Some(scan) ==> {
                &&& r is Ok
                &&& texts(r->Ok_0.0@) == new_paths(scan, self@.checkpoints)
                &&& texts(r->Ok_0.1@) == modified_paths(scan, self@.checkpoints)
                &&& lists_deleted(texts(r->Ok_0.2@), scan, self@.checkpoints)
            },
    {
        proof {
            use_type_invariant(self);
        }
        let items = match &self.scan {
            None => {
                return Err(LedgerError::NoScanTable);
            },
            Some(items) => items,
        };
        let (created, modified) = self.changed_paths(items);
        let deleted = self.missing_paths(items);
        Ok((created, modified, deleted))
    }

    /// The paths of the scanned files that are new, and of those that differ.
    fn changed_paths(&self, items: &Vec<ScanItem>) -> (r: (Vec<String>, Vec<String>))
        ensures
            texts(r.0@) == new_paths(items@, self@.checkpoints),
            texts(r.1@) == modified_paths(items@, self@.checkpoints),
    {
        proof {
            use_type_invariant(self);
        }
        let ghost map = self@.checkpoints;
        let positions = checkpoint_positions(&self.tables.checkpoints);
        let n: usize = items.len();
        let mut created: Vec<String> = Vec::new();
        let mut modified: Vec<String> = Vec::new();
        let mut i: usize = 0;
        assert(texts(created@) =~= Seq::<Seq<char>>::empty());
        assert(texts(modified@) =~= Seq::<Seq<char>>::empty());
        while i < n
            invariant
                i <= n,
                n == items@.len(),
                map == table(self.tables.checkpoints@),
                forall|path: Seq<char>| #[trigger]
                    positions@.contains_key(path) == map.contains_key(path),
                forall|path: Seq<char>| #[trigger]
                    positions@.contains_key(path) ==> positions@[path]
                        < self.tables.checkpoints@.len()
                        && self.tables.checkpoints@[positions@[path] as int].row() == map[path],
                texts(created@) == new_paths(items@.take(i as int), map),
                texts(modified@) == modified_paths(items@.take(i as int), map),
            decreases n - i,
        {
            let item = &items[i];
            let ghost a = created@;
            let ghost b = modified@;
            assert(items@.take(i + 1).drop_last() =~= items@.take(i as int));
            assert(items@.take(i + 1).last() == *item);
            match positions.get(&item.file_path) {
                None => {
                    assert(!positions@.contains_key(item.file_path@));
                    created.push(item.file_path.clone());
                    assert(texts(created@) =~= texts(a).push(item.file_path@));
                },
                Some(k) => {
                    assert(positions@.contains_key(item.file_path@));
                    let c = &self.tables.checkpoints[*k];
                    if item.mtime_ns > c.last_mtime_ns || item.file_size != c.last_verified_offset
                        || item.st_dev as i128 != c.st_dev as i128 || item.st_ino as i128
                        != c.st_ino as i128 {
                        modified.push(item.file_path.clone());
                        assert(texts(modified@) =~= texts(b).push(item.file_path@));
                    }
                },
            }
            i = i + 1;
        }
        assert(items@.take(n as int) =~= items@);
        (created, modified)
    }

    /// The paths of the checkpoints whose files were not scanned.
    fn missing_paths(&self, items: &Vec<ScanItem>) -> (r: Vec<String>)
        ensures
            lists_deleted(texts(r@), items@, self@.checkpoints),
    {
        proof {
            use_type_invariant(self);
        }
        let ghost records = self.tables.checkpoints@;
        let paths = scanned_paths(items);
        let n: usize = self.tables.checkpoints.len();
        let mut missing: Vec<String> = Vec::new();
        let mut i: usize = 0;
        while i < n
            invariant
                i <= n,
                n == records.len(),
                records == self.tables.checkpoints@,
                distinct(records),
                texts(missing@).no_duplicates(),
                forall|path: Seq<char>| #[trigger] paths@.contains(path) == scanned(items@, path),
                forall|path: Seq<char>| #[trigger]
                    texts(missing@).contains(path) == (has(records.take(i as int), path)
                        && !scanned(items@, path)),
            decreases n - i,
        {
            let ghost before = texts(missing@);
            let ghost path = records[i as int].file_path@;
            proof {
                lemma_has_take(records, i as int);
            }
            if !paths.contains(&self.tables.checkpoints[i].file_path) {
                missing.push(self.tables.checkpoints[i].file_path.clone());
                proof {
                    let after = texts(missing@);
                    assert(after =~= before.push(path));
                    assert(!before.contains(path));
                    assert forall|p: Seq<char>| #[trigger] after.contains(p) == (before.contains(p)
                        || p == path) by {
                        if before.contains(p) {
                            let j = choose|j: int| 0 <= j < before.len() && before[j] == p;
                            assert(after[j] == p);
                        }
                        if p == path {
                            assert(after[before.len() as int] == p);
                        }
                    }
                }
            }
            i = i + 1;
        }
        proof {
            assert(records.take(n as int) =~= records);
            assert forall|path: Seq<char>| #[trigger] texts(missing@).contains(path) == (
            self@.checkpoints.contains_key(path) && !scanned(items@, path)) by {
                lemma_table_keys(records, path);
            }
        }
        missing
    }

    /// How far a file was sent, and the device and inode it had then; zeros where nothing usable is
    /// known.
    pub fn checkpoint_position(&self, file_path: &str) -> (r: (i64, u64, u64))
        ensures
            r == position_of(self@.checkpoints, file_path@),
    {
        proof {
            use_type_invariant(self);
        }
        match find(&self.tables.checkpoints, &file_path.to_string()) {
            None => (0, 0, 0),
            Some(i) => {
                let c = &self.tables.checkpoints[i];
                if c.st_dev < 0 || c.st_ino < 0 {
                    (0, 0, 0)
                } else {
                    (c.last_verified_offset, c.st_dev as u64, c.st_ino as u64)
                }
            },
        }
    }

    /// Records that a file was sent up to an offset, what the system said of it then, and that it is
    /// no longer dirty.
    pub fn commit_checkpoint(&mut self, file_path: &str, offset: u64, stat: Option<FileStat>)
        ensures
            final(self).base() == old(self).base(),
            final(self)@ == committed(old(self)@, file_path@, offset, stat),
    {
        proof {
            use_type_invariant(&*self);
        }
        let (mtime_ns, st_dev, st_ino): (i64, i64, i64) = match stat {
            None => (0, 0, 0),
            Some(s) => (s.mtime_ns, to_signed64(s.dev), to_signed64(s.ino)),
        };
        let record = Checkpoint {
            file_path: file_path.to_string(),
            last_mtime_ns: mtime_ns,
            last_verified_offset: to_signed64(offset),
            st_dev,
            st_ino,
            status: "IN_SYNC".to_string(),
        };
        let mut tables = Tables::empty();
        std::mem::swap(&mut tables, &mut self.tables);
        tables.put_checkpoint(record);
        tables.drop_dirty(file_path);
        self.tables = tables;
    }

    /// Forgets the checkpoint of a file.
    pub fn delete_checkpoint(&mut self, file_path: &str)
        ensures
            final(self).base() == old(self).base(),
            final(self)@ == dropped(old(self)@, file_path@),
    {
        proof {
            use_type_invariant(&*self);
        }
        let mut tables = Tables::empty();
        std::mem::swap(&mut tables, &mut self.tables);
        tables.drop_checkpoint(file_path);
        self.tables = tables;
    }

    /// Marks a file dirty; the time it first became so stays.
    pub fn mark_dirty(&mut self, file_path: &str, now: i64)
        ensures
            final(self).base() == old(self).base(),
            final(self)@ == dirtied(old(self)@, file_path@, now),
    {
        proof {
            use_type_invariant(&*self);
        }
        let first: i64 = match find(&self.tables.dirty, &file_path.to_string()) {
            None => now,
            Some(i) => self.tables.dirty[i].first_dirty_at,
        };
        let record = DirtyFile {
            file_path: file_path.to_string(),
            first_dirty_at: first,
            last_dirty_at: now,
        };
        let mut tables = Tables::empty();
        std::mem::swap(&mut tables, &mut self.tables);
        tables.put_dirty(record);
        self.tables = tables;
    }

    /// Takes the dirty mark from a file.
    pub fn clear_dirty(&mut self, file_path: &str)
        ensures
            final(self).base() == old(self).base(),
            final(self)@ == cleaned(old(self)@, file_path@),
    {
        proof {
            use_type_invariant(&*self);
        }
        let mut tables = Tables::empty();
        std::mem::swap(&mut tables, &mut self.tables);
        tables.drop_dirty(file_path);
        self.tables = tables;
    }

    /// Since when a file is dirty, if it is.
    pub fn dirty_since(&self, file_path: &str) -> (r: Option<i64>)
        ensures
            r is Some == self@.dirty.contains_key(file_path@),
            r matches Some(at) ==> at == self@.dirty[file_path@].0,
    {
        proof {
            use_type_invariant(self);
        }
        match find(&self.tables.dirty, &file_path.to_string()) {
            None => None,
            Some(i) => Some(self.tables.dirty[i].first_dirty_at),
        }
    }

    /// The dirty files, each once, those first that became dirty first.
    pub fn dirty_paths(&self) -> (r: Vec<String>)
        ensures
            lists_dirty(texts(r@), self@.dirty),
    {
        proof {
            use_type_invariant(self);
        }
        let ghost records = self.tables.dirty@;
        let ghost map = self@.dirty;
        let n: usize = self.tables.dirty.len();
        let mut r: Vec<String> = Vec::new();
        let mut firsts: Vec<i64> = Vec::new();
        let mut i: usize = 0;
        while i < n
            invariant
                i <= n,
                n == records.len(),
                records == self.tables.dirty@,
                map == table(records),
                distinct(records),
                r@.len() == firsts@.len(),
                forall|j: int|
                    0 <= j < firsts@.len() ==> #[trigger] firsts@[j] == map[texts(r@)[j]].0,
                forall|a: int, b: int|
                    0 <= a < b < firsts@.len() ==> #[trigger] firsts@[a] <= #[trigger] firsts@[b],
                texts(r@).no_duplicates(),
                forall|path: Seq<char>| #[trigger]
                    texts(r@).contains(path) == has(records.take(i as int), path),
            decreases n - i,
        {
            let first: i64 = self.tables.dirty[i].first_dirty_at;
            let mut k: usize = 0;
            while k < firsts.len() && firsts[k] <= first
                invariant
                    k <= firsts@.len(),
                    forall|j: int| 0 <= j < k ==> #[trigger] firsts@[j] <= first,
                decreases firsts@.len() - k,
            {
                k = k + 1;
            }
            let ghost before = texts(r@);
            let ghost times = firsts@;
            let ghost path = records[i as int].file_path@;
            r.insert(k, self.tables.dirty[i].file_path.clone());
            firsts.insert(k, first);
            proof {
                lemma_table_row(records, i as int);
                lemma_has_take(records, i as int);
                lemma_insert_path(before, k as int, path);
                let after = texts(r@);
                assert(after =~= before.insert(k as int, path));
                assert forall|j: int| 0 <= j < firsts@.len() implies #[trigger] firsts@[j]
                    == map[after[j]].0 by {
                    if j < k {
                        assert(firsts@[j] == times[j]);
                    } else if j > k {
                        assert(firsts@[j] == times[j - 1]);
                    }
                }
                assert forall|a: int, b: int| 0 <= a < b < firsts@.len() implies #[trigger] firsts@[a]
                    <= #[trigger] firsts@[b] by {
                    let x = if a < k {
                        a
                    } else {
                        a - 1
                    };
                    let y = if b < k {
                        b
                    } else {
                        b - 1
                    };
                    if a == k {
                        assert(times[k as int] <= times[y]);
                    } else if b == k {
                        assert(times[x] <= first);
                    } else {
                        assert(times[x] <= times[y]);
                    }
                }
            }
            i = i + 1;
        }
        proof {
            let names = texts(r@);
            assert(records.take(n as int) =~= records);
            assert forall|path: Seq<char>| #[trigger] names.contains(path) == map.contains_key(
                path,
            ) by {
                lemma_table_keys(records, path);
            }
            assert forall|a: int, b: int| 0 <= a < b < names.len() implies map[#[trigger] names[a]].0
                <= map[#[trigger] names[b]].0 by {
                assert(firsts@[a] <= firsts@[b]);
            }
        }
        r
    }

    /// Records a directory as watched.
    pub fn watch_dir(&mut self, path: &str, now: i64)
        ensures
            final(self).base() == old(self).base(),
            final(self)@ == watching(old(self)@, path@, now),
    {
        proof {
            use_type_invariant(&*self);
        }
        let mut tables = Tables::empty();
        std::mem::swap(&mut tables, &mut self.tables);
        tables.put_watched(WatchedDir { path: path.to_string(), added_at: now });
        self.tables = tables;
    }

    /// Records a directory as no longer watched.
    pub fn unwatch_dir(&mut self, path: &str)
        ensures
            final(self).base() == old(self).base(),
            final(self)@ == unwatching(old(self)@, path@),
    {
        proof {
            use_type_invariant(&*self);
        }
        let mut tables = Tables::empty();
        std::mem::swap(&mut tables, &mut self.tables);
        tables.drop_watched(path);
        self.tables = tables;
    }

    /// The watched directories, each once.
    pub fn watched_dirs(&self) -> (r: Vec<String>)
        ensures
            texts(r@).no_duplicates(),
            texts(r@).to_set() == self@.watched.dom(),
            r@.len() == self@.watched.len(),
    {
        proof {
            use_type_invariant(self);
        }
        let ghost records = self.tables.watched@;
        let n: usize = self.tables.watched.len();
        let mut r: Vec<String> = Vec::new();
        let mut i: usize = 0;
        while i < n
            invariant
                i <= n,
                n == records.len(),
                records == self.tables.watched@,
                r@.len() == i,
                forall|j: int| 0 <= j < i ==> (#[trigger] r@[j])@ == records[j].path@,
            decreases n - i,
        {
            r.push(self.tables.watched[i].path.clone());
            i = i + 1;
        }
        proof {
            let names = texts(r@);
            assert forall|a: int, b: int| 0 <= a < b < names.len() implies names[a] != names[b] by {
                assert(r@[a]@ == records[a].path@);
                assert(r@[b]@ == records[b].path@);
                assert(records[a].key() != records[b].key());
            }
            assert(names.no_duplicates());
            assert forall|p: Seq<char>| #[trigger] names.to_set().contains(p)
                == self@.watched.dom().contains(p) by {
                lemma_table_keys(records, p);
                if names.contains(p) {
                    let j = choose|j: int| 0 <= j < names.len() && names[j] == p;
                    assert(r@[j]@ == records[j].path@);
                    assert(records[j].key() == p);
                }
                if has(records, p) {
                    let j = choose|j: int|
                        0 <= j < records.len() && (#[trigger] records[j]).key() == p;
                    assert(r@[j]@ == records[j].path@);
                    assert(names[j] == p);
                }
            }
            assert(names.to_set() =~= self@.watched.dom());
            names.unique_seq_to_set();
        }
        r
    }
}

/// A segment is known and not sealed.
pub open spec fn unsealed(segments: Map<u32, SegmentRow>, seq: u32) -> bool {
    segments.contains_key(seq) && segments[seq].state != "SEALED"@
}

/// The least known segment from `from` up to below `upto` that is not sealed.
pub open spec fn least_unsealed(segments: Map<u32, SegmentRow>, from: int, upto: int) -> Option<u32>
    decreases upto - from,
{
    if from >= upto {
        None
    } else if unsealed(segments, from as u32) {
        Some(from as u32)
    } else {
        least_unsealed(segments, from + 1, upto)
    }
}

/// It lies in the range, and none before it does.
pub proof fn lemma_least_unsealed(segments: Map<u32, SegmentRow>, from: int, upto: int)
    requires
        0 <= from,
        upto <= u32::MAX,
    ensures
        least_unsealed(segments, from, upto) matches Some(m) ==> from <= m < upto && unsealed(
            segments,
            m,
        ) && forall|k: u32| from <= k < m ==> !#[trigger] unsealed(segments, k),
        least_unsealed(segments, from, upto) is None ==> forall|k: u32|
            from <= k < upto ==> !#[trigger] unsealed(segments, k),
    decreases upto - from,
{
    if from < upto && !unsealed(segments, from as u32) {
        lemma_least_unsealed(segments, from + 1, upto);
    }
}

/// The row of a segment of which more was sent.
pub open spec fn advanced_row(
    segments: Map<u32, SegmentRow>,
    seq: u32,
    file_path: Seq<char>,
    state: Seq<char>,
    synced_offset: u64,
    now: i64,
) -> SegmentRow {
    SegmentRow {
        file_path,
        state,
        sealed_size: if segments.contains_key(seq) {
            segments[seq].sealed_size
        } else {
            0
        },
        sealed_hash: if segments.contains_key(seq) {
            segments[seq].sealed_hash
        } else {
            None
        },
        synced_offset: signed64(synced_offset),
        updated_at: now,
    }
}

/// The row of a sealed segment.
pub open spec fn sealed_row(
    file_path: Seq<char>,
    sealed_size: u64,
    sealed_hash: Seq<u8>,
    synced_offset: u64,
    now: i64,
) -> SegmentRow {
    SegmentRow {
        file_path,
        state: "SEALED"@,
        sealed_size: signed64(sealed_size),
        sealed_hash: Some(sealed_hash),
        synced_offset: signed64(synced_offset),
        updated_at: now,
    }
}

/// The row of a file that was sent up to an offset: when it was last changed and which device and
/// inode it had, or zeros where the system did not say.
pub open spec fn committed_row(offset: u64, stat: Option<FileStat>) -> CheckpointRow {
    CheckpointRow {
        last_mtime_ns: match stat {
            Some(s) => s.mtime_ns,
            None => 0,
        },
        last_verified_offset: signed64(offset),
        st_dev: match stat {
            Some(s) => signed64(s.dev),
            None => 0,
        },
        st_ino: match stat {
            Some(s) => signed64(s.ino),
            None => 0,
        },
        status: "IN_SYNC"@,
    }
}

/// Offset, device and inode of a checkpoint, or zeros where there is none or a number is negative.
pub open spec fn position_of(checkpoints: Map<Seq<char>, CheckpointRow>, file_path: Seq<char>) -> (
    i64,
    u64,
    u64,
) {
    if !checkpoints.contains_key(file_path) || checkpoints[file_path].st_dev < 0
        || checkpoints[file_path].st_ino < 0 {
        (0, 0, 0)
    } else {
        (
            checkpoints[file_path].last_verified_offset,
            checkpoints[file_path].st_dev as u64,
            checkpoints[file_path].st_ino as u64,
        )
    }
}

/// The ledger after more of a segment was sent.
pub open spec fn advanced(
    v: LedgerView,
    seq: u32,
    file_path: Seq<char>,
    state: Seq<char>,
    synced_offset: u64,
    now: i64,
) -> LedgerView {
    LedgerView {
        segments: v.segments.insert(
            seq,
            advanced_row(v.segments, seq, file_path, state, synced_offset, now),
        ),
        ..v
    }
}

/// The ledger after a segment was sealed.
pub open spec fn sealed(
    v: LedgerView,
    seq: u32,
    file_path: Seq<char>,
    sealed_size: u64,
    sealed_hash: Seq<u8>,
    synced_offset: u64,
    now: i64,
) -> LedgerView {
    LedgerView {
        segments: v.segments.insert(
            seq,
            sealed_row(file_path, sealed_size, sealed_hash, synced_offset, now),
        ),
        ..v
    }
}

/// The ledger without a segment.
pub open spec fn forgotten(v: LedgerView, seq: u32) -> LedgerView {
    LedgerView { segments: v.segments.remove(seq), ..v }
}

/// The ledger after a file was sent up to an offset.
pub open spec fn committed(
    v: LedgerView,
    file_path: Seq<char>,
    offset: u64,
    stat: Option<FileStat>,
) -> LedgerView {
    LedgerView {
        checkpoints: v.checkpoints.insert(file_path, committed_row(offset, stat)),
        dirty: v.dirty.remove(file_path),
        ..v
    }
}

/// The ledger without the checkpoint of a file.
pub open spec fn dropped(v: LedgerView, file_path: Seq<char>) -> LedgerView {
    LedgerView { checkpoints: v.checkpoints.remove(file_path), ..v }
}

/// The ledger with a file marked dirty.
pub open spec fn dirtied(v: LedgerView, file_path: Seq<char>, now: i64) -> LedgerView {
    LedgerView {
        dirty: v.dirty.insert(
            file_path,
            (
                if v.dirty.contains_key(file_path) {
                    v.dirty[file_path].0
                } else {
                    now
                },
                now,
            ),
        ),
        ..v
    }
}

/// The ledger with a file no longer dirty.
pub open spec fn cleaned(v: LedgerView, file_path: Seq<char>) -> LedgerView {
    LedgerView { dirty: v.dirty.remove(file_path), ..v }
}

/// The ledger with a directory watched.
pub open spec fn watching(v: LedgerView, path: Seq<char>, now: i64) -> LedgerView {
    LedgerView { watched: v.watched.insert(path, now), ..v }
}

/// The ledger with a directory no longer watched.
pub open spec fn unwatching(v: LedgerView, path: Seq<char>) -> LedgerView {
    LedgerView { watched: v.watched.remove(path), ..v }
}

/// A refusal within a batch is the refusal of the batch.
pub proof fn lemma_insert_stops(scan: Seq<ScanItem>, batch: Seq<ScanItem>, k: int, n: int)
    requires
        k <= n,
        insert_items(scan, batch, k) is Err,
    ensures
        insert_items(scan, batch, n) == insert_items(scan, batch, k),
    decreases n - k,
{
    if k < n {
        lemma_insert_stops(scan, batch, k, n - 1);
    }
}

/// A batch in two parts is the batch.
pub proof fn lemma_insert_parts(scan: Seq<ScanItem>, batch: Seq<ScanItem>, a: int, b: int, k: int)
    requires
        0 <= a <= b <= batch.len(),
        0 <= k <= b - a,
        insert_items(scan, batch, a) is Ok,
    ensures
        insert_items(insert_items(scan, batch, a)->Ok_0, batch.subrange(a, b), k) == insert_items(
            scan,
            batch,
            a + k,
        ),
    decreases k,
{
    if k > 0 {
        lemma_insert_parts(scan, batch, a, b, k - 1);
    }
}

/// The first records of a list, with one more: a new key of a list of distinct keys.
proof fn lemma_has_take<R: Record>(records: Seq<R>, i: int)
    requires
        distinct(records),
        0 <= i < records.len(),
    ensures
        !(has(records.take(i), records[i].key())),
        forall|key: R::Key| #[trigger]
            has(records.take(i + 1), key) == (has(records.take(i), key) || key
                == records[i].key()),
{
    let seen = records.take(i);
    let more = records.take(i + 1);
    assert forall|key: R::Key| #[trigger] has(more, key) == (has(seen, key) || key
        == records[i].key()) by {
        if has(seen, key) {
            let j = choose|j: int| 0 <= j < seen.len() && (#[trigger] seen[j]).key() == key;
            assert(more[j].key() == key);
        }
        if key == records[i].key() {
            assert(more[i].key() == key);
        }
        if has(more, key) && key != records[i].key() {
            let j = choose|j: int| 0 <= j < more.len() && (#[trigger] more[j]).key() == key;
            assert(seen[j].key() == key);
        }
    }
    if has(seen, records[i].key()) {
        let j = choose|j: int| 0 <= j < seen.len() && (#[trigger] seen[j]).key() == records[i].key();
        assert(records[j].key() != records[i].key());
    }
}

/// A new path in a list without repetitions.
proof fn lemma_insert_path(list: Seq<Seq<char>>, k: int, path: Seq<char>)
    requires
        0 <= k <= list.len(),
        list.no_duplicates(),
        !list.contains(path),
    ensures
        list.insert(k, path).no_duplicates(),
        forall|p: Seq<char>| #[trigger]
            list.insert(k, path).contains(p) == (list.contains(p) || p == path),
{
    let more = list.insert(k, path);
    assert forall|p: Seq<char>| #[trigger] more.contains(p) == (list.contains(p) || p == path) by {
        if list.contains(p) {
            let j = choose|j: int| 0 <= j < list.len() && list[j] == p;
            assert(more[if j < k {
                j
            } else {
                j + 1
            }] == p);
        }
        if p == path {
            assert(more[k] == p);
        }
        if more.contains(p) && p != path {
            let j = choose|j: int| 0 <= j < more.len() && more[j] == p;
            assert(list[if j < k {
                j
            } else {
                j - 1
            }] == p);
        }
    }
}

/// One more scanned file is one more scanned path.
proof fn lemma_scanned_push(scan: Seq<ScanItem>, item: ScanItem, path: Seq<char>)
    ensures
        scanned(scan.push(item), path) == (scanned(scan, path) || item.file_path@ == path),
{
    let all = scan.push(item);
    if scanned(scan, path) {
        let i = choose|i: int| 0 <= i < scan.len() && (#[trigger] scan[i]).file_path@ == path;
        assert(all[i].file_path@ == path);
    }
    if item.file_path@ == path {
        assert(all[scan.len() as int].file_path@ == path);
    }
    if scanned(all, path) && item.file_path@ != path {
        let i = choose|i: int| 0 <= i < all.len() && (#[trigger] all[i]).file_path@ == path;
        assert(scan[i].file_path@ == path);
    }
}

/// The paths of the scanned files.
fn scanned_paths(items: &Vec<ScanItem>) -> (r: StringHashSet)
    ensures
        forall|path: Seq<char>| #[trigger] r@.contains(path) == scanned(items@, path),
{
    let n: usize = items.len();
    let mut paths = StringHashSet::new();
    let mut i: usize = 0;
    while i < n
        invariant
            i <= n,
            n == items@.len(),
            forall|path: Seq<char>| #[trigger]
                paths@.contains(path) == scanned(items@.take(i as int), path),
        decreases n - i,
    {
        proof {
            assert(items@.take(i + 1) =~= items@.take(i as int).push(items@[i as int]));
            assert forall|path: Seq<char>| #[trigger] scanned(items@.take(i + 1), path) == (scanned(
                items@.take(i as int),
                path,
            ) || items@[i as int].file_path@ == path) by {
                lemma_scanned_push(items@.take(i as int), items@[i as int], path);
            }
        }
        paths.insert(items[i].file_path.clone());
        i = i + 1;
    }
    assert(items@.take(n as int) =~= items@);
    paths
}

/// The positions of checkpoints by their paths.
fn checkpoint_positions(records: &Vec<Checkpoint>) -> (r: StringHashMap<usize>)
    requires
        distinct(records@),
    ensures
        forall|path: Seq<char>| #[trigger]
            r@.contains_key(path) == table(records@).contains_key(path),
        forall|path: Seq<char>| #[trigger]
            r@.contains_key(path) ==> r@[path] < records@.len() && records@[r@[path] as int].key()
                == path && records@[r@[path] as int].row() == table(records@)[path],
{
    let n: usize = records.len();
    let mut positions: StringHashMap<usize> = StringHashMap::new();
    let mut i: usize = 0;
    while i < n
        invariant
            i <= n,
            n == records@.len(),
            forall|path: Seq<char>| #[trigger]
                positions@.contains_key(path) ==> {
                    &&& positions@[path] < i
                    &&& records@[positions@[path] as int].key() == path
                },
            forall|j: int|
                0 <= j < i ==> positions@.contains_key((#[trigger] records@[j]).key()),
        decreases n - i,
    {
        positions.insert(records[i].file_path.clone(), i);
        i = i + 1;
    }
    proof {
        assert forall|path: Seq<char>| #[trigger] positions@.contains_key(path) == table(
            records@,
        ).contains_key(path) by {
            lemma_table_keys(records@, path);
            if positions@.contains_key(path) {
                assert(records@[positions@[path] as int].key() == path);
            }
            if has(records@, path) {
                let j = choose|j: int|
                    0 <= j < records@.len() && (#[trigger] records@[j]).key() == path;
                assert(positions@.contains_key(records@[j].key()));
            }
        }
        assert forall|path: Seq<char>| #[trigger] positions@.contains_key(path) implies positions@[path]
            < records@.len() && records@[positions@[path] as int].key() == path
            && records@[positions@[path] as int].row() == table(records@)[path] by {
            lemma_table_row(records@, positions@[path] as int);
        }
    }
    positions
}

/// A copy of a list of scanned files.
fn copy_items(items: &Vec<ScanItem>) -> (r: Vec<ScanItem>)
    ensures
        r@ == items@,
{
    let n: usize = items.len();
    let mut r: Vec<ScanItem> = Vec::new();
    let mut i: usize = 0;
    while i < n
        invariant
            i <= n,
            n == items@.len(),
            r@ == items@.take(i as int),
        decreases n - i,
    {
        r.push(items[i].clone());
        i = i + 1;
        assert(items@.take(i as int) =~= items@.take(i - 1).push(items@[i - 1]));
    }
    assert(items@.take(n as int) =~= items@);
    r
}

/// A copy of an optional hash.
fn copy_hash(hash: &Option<Vec<u8>>) -> (r: Option<Vec<u8>>)
    ensures
        hash_bytes(r) == hash_bytes(*hash),
{
    match hash {
        None => None,
        Some(bytes) => {
            let n: usize = bytes.len();
            let copy = copy_range(bytes, 0, n);
            assert(copy@ =~= bytes@);
            Some(copy)
        },
    }
}

/// A copy of a segment state.
fn copy_state(s: &SegmentState) -> (r: SegmentState)
    ensures
        r.segment_seq == s.segment_seq,
        forall|t: i64| r.row_at(t) == s.row_at(t),
{
    SegmentState {
        segment_seq: s.segment_seq,
        file_path: s.file_path.clone(),
        state: s.state.clone(),
        sealed_size: s.sealed_size,
        sealed_hash: copy_hash(&s.sealed_hash),
        synced_offset: s.synced_offset,
    }
}

/// Opening the ledger, once its changes are made to the database, removes the sent hashes and
/// leaves every row of every other table as it was.
pub proof fn law_opening_keeps_the_database(db: DatabaseView)
    ensures
        applied_all(db, seq![LedgerChange::ClearSentHashes]) == (DatabaseView {
            sent_hashes: Map::empty(),
            ..db
        }),
{
    let changes = seq![LedgerChange::ClearSentHashes];
    assert(changes.drop_last() =~= Seq::<LedgerChange>::empty());
    assert(applied_all(db, changes.drop_last()) == db);
}

/// A database that has the rows that the changes are counted from has the rows of the ledger once
/// the changes are made to it. The chunk hashes of a file stay, unless its checkpoint is dropped,
/// and the sent hashes stay removed.
pub proof fn law_database_follows_ledger(
    db: DatabaseView,
    changes: Seq<LedgerChange>,
    key: (Seq<char>, i64),
)
    ensures
        ({
            let after = applied_all(db, changes);
            &&& after.stored == replayed(db.stored, changes)
            &&& (forall|i: int|
                0 <= i < changes.len() ==> (#[trigger] changes[i] matches
                    LedgerChange::DropCheckpoint(path) ==> path@ != key.0)) ==> {
                &&& after.chunk_hashes.contains_key(key) == db.chunk_hashes.contains_key(key)
                &&& db.chunk_hashes.contains_key(key) ==> after.chunk_hashes[key]
                    == db.chunk_hashes[key]
            }
            &&& db.sent_hashes == Map::<Seq<u8>, SentHashRow>::empty() ==> after.sent_hashes
                == db.sent_hashes
        }),
    decreases changes.len(),
{
    if changes.len() > 0 {
        let front = changes.drop_last();
        law_database_follows_ledger(db, front, key);
        if forall|i: int|
            0 <= i < changes.len() ==> (#[trigger] changes[i] matches LedgerChange::DropCheckpoint(
                path,
            ) ==> path@ != key.0) {
            assert forall|i: int| 0 <= i < front.len() implies (#[trigger] front[i] matches
                LedgerChange::DropCheckpoint(path) ==> path@ != key.0) by {
                assert(changes[i] == front[i]);
            }
            assert(changes[changes.len() - 1] == changes.last());
        }
    }
}

/// A sealed segment reads back as it was sealed, and stays so, but for its offset, state and path,
/// while more of it is recorded.
pub proof fn law_seal_reads_back(
    v: LedgerView,
    seq: u32,
    path: Seq<char>,
    size: u64,
    hash: Seq<u8>,
    offset: u64,
    now: i64,
    later_path: Seq<char>,
    later_state: Seq<char>,
    later_offset: u64,
    later: i64,
)
    ensures
        ({
            let after = sealed(v, seq, path, size, hash, offset, now);
            let row = after.segments[seq];
            let last = advanced(
                after,
                seq,
                later_path,
                later_state,
                later_offset,
                later,
            ).segments[seq];
            &&& after.segments.contains_key(seq)
            &&& row == sealed_row(path, size, hash, offset, now)
            &&& last.sealed_hash == Some(hash)
            &&& last.sealed_size == row.sealed_size
            &&& last.synced_offset == signed64(later_offset)
            &&& last.state == later_state
            &&& last.file_path == later_path
        }),
{
}

/// Writing or forgetting one segment leaves every other segment and every other table alone.
pub proof fn law_segments_are_separate(
    v: LedgerView,
    seq: u32,
    other: u32,
    path: Seq<char>,
    state: Seq<char>,
    size: u64,
    hash: Seq<u8>,
    offset: u64,
    now: i64,
)
    requires
        other != seq,
    ensures
        forall|after: LedgerView|
            (after == advanced(v, seq, path, state, offset, now) || after == sealed(
                v,
                seq,
                path,
                size,
                hash,
                offset,
                now,
            ) || after == forgotten(v, seq)) ==> {
                &&& #[trigger] after.segments.contains_key(other) == v.segments.contains_key(other)
                &&& v.segments.contains_key(other) ==> after.segments[other] == v.segments[other]
                &&& after.checkpoints == v.checkpoints
                &&& after.dirty == v.dirty
                &&& after.watched == v.watched
                &&& after.scan == v.scan
            },
        !forgotten(v, seq).segments.contains_key(seq),
{
}

/// A file is dirty from its first mark until it is committed; marks in between change only the
/// latest time.
pub proof fn law_dirty_until_committed(
    v: LedgerView,
    path: Seq<char>,
    first: i64,
    second: i64,
    offset: u64,
    stat: Option<FileStat>,
)
    requires
        !v.dirty.contains_key(path),
    ensures
        dirtied(v, path, first).dirty[path] == (first, first),
        dirtied(dirtied(v, path, first), path, second).dirty[path] == (first, second),
        !committed(dirtied(v, path, first), path, offset, stat).dirty.contains_key(path),
        committed(dirtied(v, path, first), path, offset, stat).dirty == v.dirty,
{
    assert(committed(dirtied(v, path, first), path, offset, stat).dirty =~= v.dirty);
}

/// The next read of a committed file gives its offset, device and inode; of one whose checkpoint
/// was forgotten it gives zeros.
pub proof fn law_commit_reads_back(v: LedgerView, path: Seq<char>, offset: u64, stat: FileStat)
    requires
        stat.dev <= i64::MAX,
        stat.ino <= i64::MAX,
    ensures
        position_of(committed(v, path, offset, Some(stat)).checkpoints, path) == (
            signed64(offset),
            stat.dev,
            stat.ino,
        ),
        position_of(dropped(v, path).checkpoints, path) == (0i64, 0u64, 0u64),
{
}

/// A file that was committed in full and has not been touched since is not listed as modified; one
/// that grew, was changed later or was replaced is.
pub proof fn law_committed_is_unchanged(
    v: LedgerView,
    path: Seq<char>,
    stat: FileStat,
    item: ScanItem,
)
    requires
        stat.dev <= i64::MAX,
        stat.ino <= i64::MAX,
        stat.size <= i64::MAX,
    ensures
        differs(item, committed(v, path, stat.size, Some(stat)).checkpoints[path]) == !(
        item.file_size == stat.size && item.mtime_ns <= stat.mtime_ns && item.st_dev == stat.dev
            && item.st_ino == stat.ino),
{
}

/// A batch goes in whole: the scan table then holds all of it behind what it held, and every path
/// once.
pub proof fn law_scan_batches_append(scan: Seq<ScanItem>, batch: Seq<ScanItem>, n: int)
    requires
        0 <= n <= batch.len(),
        distinct_paths(scan),
        insert_items(scan, batch, n) is Ok,
    ensures
        insert_items(scan, batch, n)->Ok_0 == scan + batch.take(n),
        distinct_paths(scan + batch.take(n)),
    decreases n,
{
    if n == 0 {
        assert(scan + batch.take(0) =~= scan);
    } else {
        law_scan_batches_append(scan, batch, n - 1);
        let before = scan + batch.take(n - 1);
        let item = batch[n - 1];
        assert(scan + batch.take(n) =~= before.push(item));
        assert forall|i: int, j: int| 0 <= i < j < before.len() + 1 implies (#[trigger] before.push(
            item,
        )[i]).file_path@ != (#[trigger] before.push(item)[j]).file_path@ by {
            if j < before.len() {
                assert(before[i].file_path@ != before[j].file_path@);
            } else {
                assert(before[i].file_path@ != item.file_path@);
            }
        }
    }
}

/// Every scanned file is new, modified or unchanged, and only one of these: it is listed as new if
/// it has no checkpoint, as modified if it has one and differs.
pub proof fn law_delta_partition(
    scan: Seq<ScanItem>,
    checkpoints: Map<Seq<char>, CheckpointRow>,
    path: Seq<char>,
)
    requires
        distinct_paths(scan),
    ensures
        new_paths(scan, checkpoints).contains(path) == (scanned(scan, path)
            && !checkpoints.contains_key(path)),
        modified_paths(scan, checkpoints).contains(path) == (checkpoints.contains_key(path)
            && exists|i: int|
            0 <= i < scan.len() && (#[trigger] scan[i]).file_path@ == path && differs(
                scan[i],
                checkpoints[path],
            )),
    decreases scan.len(),
{
    if scan.len() > 0 {
        let front = scan.drop_last();
        let item = scan.last();
        assert(distinct_paths(front)) by {
            assert forall|i: int, j: int| 0 <= i < j < front.len() implies (
            #[trigger] front[i]).file_path@ != (#[trigger] front[j]).file_path@ by {
                assert(scan[i].file_path@ != scan[j].file_path@);
            }
        }
        law_delta_partition(front, checkpoints, path);
        lemma_contains_push(new_paths(front, checkpoints), item.file_path@, path);
        lemma_contains_push(modified_paths(front, checkpoints), item.file_path@, path);
        assert(scanned(scan, path) == (scanned(front, path) || item.file_path@ == path)) by {
            if scanned(front, path) {
                let i = choose|i: int|
                    0 <= i < front.len() && (#[trigger] front[i]).file_path@ == path;
                assert(scan[i].file_path@ == path);
            }
            if item.file_path@ == path {
                assert(scan[scan.len() - 1].file_path@ == path);
            }
            if scanned(scan, path) && item.file_path@ != path {
                let i = choose|i: int| 0 <= i < scan.len() && (#[trigger] scan[i]).file_path@ == path;
                assert(front[i].file_path@ == path);
            }
        }
        let now = exists|i: int|
            0 <= i < scan.len() && (#[trigger] scan[i]).file_path@ == path && differs(
                scan[i],
                checkpoints[path],
            );
        let earlier = exists|i: int|
            0 <= i < front.len() && (#[trigger] front[i]).file_path@ == path && differs(
                front[i],
                checkpoints[path],
            );
        assert(now == (earlier || (item.file_path@ == path && differs(item, checkpoints[path])))) by {
            if earlier {
                let i = choose|i: int|
                    0 <= i < front.len() && (#[trigger] front[i]).file_path@ == path && differs(
                        front[i],
                        checkpoints[path],
                    );
                assert(scan[i].file_path@ == path);
            }
            if item.file_path@ == path && differs(item, checkpoints[path]) {
                assert(scan[scan.len() - 1].file_path@ == path);
            }
            if now && !(item.file_path@ == path && differs(item, checkpoints[path])) {
                let i = choose|i: int|
                    0 <= i < scan.len() && (#[trigger] scan[i]).file_path@ == path && differs(
                        scan[i],
                        checkpoints[path],
                    );
                assert(i < front.len());
                assert(front[i].file_path@ == path);
            }
        }
    }
}

/// What a list with one more path holds.
pub proof fn lemma_contains_push(list: Seq<Seq<char>>, last: Seq<char>, path: Seq<char>)
    ensures
        list.push(last).contains(path) == (list.contains(path) || last == path),
{
    let all = list.push(last);
    if list.contains(path) {
        let i = choose|i: int| 0 <= i < list.len() && list[i] == path;
        assert(all[i] == path);
    }
    if last == path {
        assert(all[list.len() as int] == path);
    }
    if all.contains(path) && last != path {
        let i = choose|i: int| 0 <= i < all.len() && all[i] == path;
        assert(list[i] == path);
    }
}

/// A segment of which more was sent has the path, state, offset and time that were given; what it
/// was sealed with stays, and is nothing for one that was not known.
pub proof fn law_advance_is_recorded(
    v: LedgerView,
    seq: u32,
    path: Seq<char>,
    state: Seq<char>,
    offset: u64,
    now: i64,
)
    requires
        offset <= i64::MAX,
    ensures
        ({
            let after = advanced(v, seq, path, state, offset, now);
            let row = after.segments[seq];
            &&& after.segments.contains_key(seq)
            &&& row.file_path == path
            &&& row.state == state
            &&& row.synced_offset == offset
            &&& row.updated_at == now
            &&& v.segments.contains_key(seq) ==> row.sealed_size == v.segments[seq].sealed_size
                && row.sealed_hash == v.segments[seq].sealed_hash
            &&& !v.segments.contains_key(seq) ==> row.sealed_size == 0 && row.sealed_hash is None
        }),
{
}

/// A sealed segment has the path, size, digest, offset and time that were given, and is sealed.
pub proof fn law_seal_is_recorded(
    v: LedgerView,
    seq: u32,
    path: Seq<char>,
    size: u64,
    hash: Seq<u8>,
    offset: u64,
    now: i64,
)
    requires
        offset <= i64::MAX,
        size <= i64::MAX,
    ensures
        ({
            let after = sealed(v, seq, path, size, hash, offset, now);
            let row = after.segments[seq];
            &&& after.segments.contains_key(seq)
            &&& row.file_path == path
            &&& row.state == "SEALED"@
            &&& row.sealed_size == size
            &&& row.sealed_hash == Some(hash)
            &&& row.synced_offset == offset
            &&& row.updated_at == now
        }),
{
}

/// A checkpoint has the offset, and the times and numbers that the system gave of the file, or
/// zeros. Every other checkpoint, mark and table stays.
pub proof fn law_commit_is_recorded(
    v: LedgerView,
    path: Seq<char>,
    offset: u64,
    stat: Option<FileStat>,
    other: Seq<char>,
)
    requires
        offset <= i64::MAX,
        stat matches Some(s) ==> s.dev <= i64::MAX && s.ino <= i64::MAX,
        other != path,
    ensures
        ({
            let after = committed(v, path, offset, stat);
            let row = after.checkpoints[path];
            &&& after.checkpoints.contains_key(path)
            &&& row.last_verified_offset == offset
            &&& row.status == "IN_SYNC"@
            &&& stat matches Some(s) ==> row.last_mtime_ns == s.mtime_ns && row.st_dev == s.dev
                && row.st_ino == s.ino
            &&& stat is None ==> row.last_mtime_ns == 0 && row.st_dev == 0 && row.st_ino == 0
            &&& !after.dirty.contains_key(path)
            &&& after.checkpoints.contains_key(other) == v.checkpoints.contains_key(other)
            &&& after.checkpoints[other] == v.checkpoints[other]
            &&& after.dirty.contains_key(other) == v.dirty.contains_key(other)
            &&& after.dirty[other] == v.dirty[other]
            &&& after.segments == v.segments
            &&& after.watched == v.watched
            &&& after.scan == v.scan
        }),
{
}

/// A mark keeps the time of the first one and takes that of the last, and is taken away whole; a
/// watched directory has the time that was given until it is taken away; a dropped checkpoint is
/// gone. Nothing of another path, and no other table, changes.
pub proof fn law_marks_and_directories(
    v: LedgerView,
    path: Seq<char>,
    now: i64,
    other: Seq<char>,
)
    requires
        other != path,
    ensures
        ({
            let marked = dirtied(v, path, now);
            let clean = cleaned(v, path);
            let watched = watching(v, path, now);
            let unwatched = unwatching(v, path);
            let gone = dropped(v, path);
            &&& marked.dirty.contains_key(path) && marked.dirty[path].1 == now
            &&& v.dirty.contains_key(path) ==> marked.dirty[path].0 == v.dirty[path].0
            &&& !v.dirty.contains_key(path) ==> marked.dirty[path].0 == now
            &&& marked.dirty.contains_key(other) == v.dirty.contains_key(other)
            &&& marked.dirty[other] == v.dirty[other]
            &&& !clean.dirty.contains_key(path)
            &&& clean.dirty.contains_key(other) == v.dirty.contains_key(other)
            &&& clean.dirty[other] == v.dirty[other]
            &&& watched.watched.contains_key(path) && watched.watched[path] == now
            &&& watched.watched.contains_key(other) == v.watched.contains_key(other)
            &&& watched.watched[other] == v.watched[other]
            &&& !unwatched.watched.contains_key(path)
            &&& unwatched.watched.contains_key(other) == v.watched.contains_key(other)
            &&& unwatched.watched[other] == v.watched[other]
            &&& !gone.checkpoints.contains_key(path)
            &&& gone.checkpoints.contains_key(other) == v.checkpoints.contains_key(other)
            &&& gone.checkpoints[other] == v.checkpoints[other]
            &&& marked == (LedgerView { dirty: marked.dirty, ..v })
            &&& clean == (LedgerView { dirty: clean.dirty, ..v })
            &&& watched == (LedgerView { watched: watched.watched, ..v })
            &&& unwatched == (LedgerView { watched: unwatched.watched, ..v })
            &&& gone == (LedgerView { checkpoints: gone.checkpoints, ..v })
        }),
{
}

/// What a checkpoint says of a file is read as it stands; where there is none, or a number of it is
/// negative, zeros are read.
pub proof fn law_position_is_read(
    checkpoints: Map<Seq<char>, CheckpointRow>,
    path: Seq<char>,
)
    ensures
        ({
            let (offset, dev, ino) = position_of(checkpoints, path);
            let row = checkpoints[path];
            if checkpoints.contains_key(path) && row.st_dev >= 0 && row.st_ino >= 0 {
                offset == row.last_verified_offset && dev == row.st_dev && ino == row.st_ino
            } else {
                offset == 0 && dev == 0 && ino == 0
            }
        }),
{
}

/// A scanned file is unchanged exactly if it was not changed later, has the size that was sent, and
/// is the same file by device and inode.
pub proof fn law_unchanged_files(item: ScanItem, row: CheckpointRow)
    ensures
        !differs(item, row) <==> item.mtime_ns <= row.last_mtime_ns && item.file_size
            == row.last_verified_offset && item.st_dev == row.st_dev && item.st_ino == row.st_ino,
{
}

/// The new files are the scanned ones without a checkpoint, the modified ones those whose checkpoint
/// says something else, both in the order of the scan.
pub proof fn law_deltas_are_filtered(
    scan: Seq<ScanItem>,
    checkpoints: Map<Seq<char>, CheckpointRow>,
)
    ensures
        new_paths(scan, checkpoints) == scan.filter(
            |i: ScanItem| !checkpoints.contains_key(i.file_path@),
        ).map_values(|i: ScanItem| i.file_path@),
        modified_paths(scan, checkpoints) == scan.filter(
            |i: ScanItem|
                checkpoints.contains_key(i.file_path@) && !(i.mtime_ns
                    <= checkpoints[i.file_path@].last_mtime_ns && i.file_size
                    == checkpoints[i.file_path@].last_verified_offset && i.st_dev
                    == checkpoints[i.file_path@].st_dev && i.st_ino
                    == checkpoints[i.file_path@].st_ino),
        ).map_values(|i: ScanItem| i.file_path@),
    decreases scan.len(),
{
    reveal(Seq::filter);
    let a = |i: ScanItem| !checkpoints.contains_key(i.file_path@);
    let b = |i: ScanItem|
        checkpoints.contains_key(i.file_path@) && !(i.mtime_ns
            <= checkpoints[i.file_path@].last_mtime_ns && i.file_size
            == checkpoints[i.file_path@].last_verified_offset && i.st_dev
            == checkpoints[i.file_path@].st_dev && i.st_ino == checkpoints[i.file_path@].st_ino);
    let p = |i: ScanItem| i.file_path@;
    if scan.len() > 0 {
        let front = scan.drop_last();
        let item = scan.last();
        law_deltas_are_filtered(front, checkpoints);
        assert(front.filter(a).push(item).map_values(p) =~= front.filter(a).map_values(p).push(
            item.file_path@,
        ));
        assert(front.filter(b).push(item).map_values(p) =~= front.filter(b).map_values(p).push(
            item.file_path@,
        ));
    } else {
        assert(scan.filter(a).map_values(p) =~= new_paths(scan, checkpoints));
        assert(scan.filter(b).map_values(p) =~= modified_paths(scan, checkpoints));
    }
}

/// A batch goes in exactly if the numbers of all its items fit and no path is there twice, be it in
/// the batch or in the table.
pub proof fn law_batch_is_taken_if_it_fits(scan: Seq<ScanItem>, batch: Seq<ScanItem>, n: int)
    requires
        0 <= n <= batch.len(),
        distinct_paths(scan),
    ensures
        insert_items(scan, batch, n) is Ok <==> distinct_paths(scan + batch.take(n)) && forall|
            i: int,
        |
            0 <= i < n ==> (#[trigger] batch[i]).st_dev <= i64::MAX && batch[i].st_ino <= i64::MAX,
    decreases n,
{
    if n == 0 {
        assert(scan + batch.take(0) =~= scan);
    } else {
        law_batch_is_taken_if_it_fits(scan, batch, n - 1);
        let before = scan + batch.take(n - 1);
        let all = scan + batch.take(n);
        let item = batch[n - 1];
        assert(all =~= before.push(item));
        if insert_items(scan, batch, n - 1) is Ok {
            law_scan_batches_append(scan, batch, n - 1);
            if scanned(before, item.file_path@) {
                let i = choose|i: int|
                    0 <= i < before.len() && (#[trigger] before[i]).file_path@ == item.file_path@;
                assert(all[i].file_path@ == all[before.len() as int].file_path@);
            } else {
                assert forall|i: int, j: int| 0 <= i < j < all.len() implies (
                #[trigger] all[i]).file_path@ != (#[trigger] all[j]).file_path@ by {
                    if j < before.len() {
                        assert(before[i].file_path@ != before[j].file_path@);
                    } else {
                        assert(before[i].file_path@ != item.file_path@);
                    }
                }
            }
        } else if distinct_paths(all) {
            assert forall|i: int, j: int| 0 <= i < j < before.len() implies (
            #[trigger] before[i]).file_path@ != (#[trigger] before[j]).file_path@ by {
                assert(all[i].file_path@ != all[j].file_path@);
            }
        }
    }
}

/// A batch is refused for its first item that does not fit: because of its numbers, or else because
/// its path is there already.
pub proof fn law_refusal_names_the_first_misfit(scan: Seq<ScanItem>, batch: Seq<ScanItem>, n: int, k: int)
    requires
        0 <= k < n <= batch.len(),
        insert_items(scan, batch, k) is Ok,
    ensures
        batch[k].st_dev > i64::MAX || batch[k].st_ino > i64::MAX ==> insert_items(scan, batch, n)
            == Err::<Seq<ScanItem>, LedgerError>(LedgerError::OutOfRange),
        batch[k].st_dev <= i64::MAX && batch[k].st_ino <= i64::MAX && scanned(
            insert_items(scan, batch, k)->Ok_0,
            batch[k].file_path@,
        ) ==> insert_items(scan, batch, n) == Err::<Seq<ScanItem>, LedgerError>(
            LedgerError::DuplicatePath,
        ),
{
    if insert_items(scan, batch, k + 1) is Err {
        lemma_insert_stops(scan, batch, k + 1, n);
    }
}

/// What is known of a segment says the same as its row.
pub proof fn law_state_says_what_the_row_says(state: SegmentState, at: i64)
    ensures
        state.row_at(at).file_path == state.file_path@,
        state.row_at(at).state == state.state@,
        state.row_at(at).sealed_size == state.sealed_size,
        state.row_at(at).synced_offset == state.synced_offset,
        state.row_at(at).updated_at == at,
        state.sealed_hash is None ==> state.row_at(at).sealed_hash is None,
        state.sealed_hash matches Some(hash) ==> state.row_at(at).sealed_hash == Some(hash@),
{
}

/// A change of a stored row is read back from the stored rows, and a dropped row is gone; each leaves
/// every row of another key alone.
pub proof fn law_changes_are_stored(
    s: StoredView,
    record: DirtyFile,
    dir: WatchedDir,
    cp: Checkpoint,
    seg: SegmentRecord,
    path: Seq<char>,
    seq: u32,
)
    ensures
        ({
            let after = changed(s, LedgerChange::PutDirty(record));
            &&& after.dirty.contains_key(record.file_path@)
            &&& after.dirty[record.file_path@] == (record.first_dirty_at, record.last_dirty_at)
            &&& path != record.file_path@ ==> after.dirty.contains_key(path)
                == s.dirty.contains_key(path) && after.dirty[path] == s.dirty[path]
        }),
        ({
            let after = changed(s, LedgerChange::PutWatched(dir));
            &&& after.watched.contains_key(dir.path@)
            &&& after.watched[dir.path@] == dir.added_at
            &&& path != dir.path@ ==> after.watched.contains_key(path) == s.watched.contains_key(
                path,
            ) && after.watched[path] == s.watched[path]
        }),
        ({
            let after = changed(s, LedgerChange::PutCheckpoint(cp));
            let row = after.checkpoints[cp.file_path@];
            &&& after.checkpoints.contains_key(cp.file_path@)
            &&& row.last_mtime_ns == cp.last_mtime_ns && row.last_verified_offset
                == cp.last_verified_offset
            &&& row.st_dev == cp.st_dev && row.st_ino == cp.st_ino && row.status == cp.status@
            &&& path != cp.file_path@ ==> after.checkpoints.contains_key(path)
                == s.checkpoints.contains_key(path) && after.checkpoints[path]
                == s.checkpoints[path]
        }),
        ({
            let after = changed(s, LedgerChange::PutSegment(seg));
            &&& after.segments.contains_key(seg.state.segment_seq)
            &&& after.segments[seg.state.segment_seq] == seg.state.row_at(seg.updated_at)
            &&& seq != seg.state.segment_seq ==> after.segments.contains_key(seq)
                == s.segments.contains_key(seq) && after.segments[seq] == s.segments[seq]
        }),
        ({
            let after = changed(s, LedgerChange::DropSegment(seq));
            &&& !after.segments.contains_key(seq)
            &&& after.checkpoints == s.checkpoints && after.dirty == s.dirty && after.watched
                == s.watched
        }),
{
}

/// The deleted files are those with a checkpoint that no scanned file has the path of; the dirty
/// ones come in the order in which they became dirty.
pub proof fn law_lists_name_what_they_should(
    deleted: Seq<Seq<char>>,
    scan: Seq<ScanItem>,
    checkpoints: Map<Seq<char>, CheckpointRow>,
    listed: Seq<Seq<char>>,
    dirty: Map<Seq<char>, (i64, i64)>,
    path: Seq<char>,
    i: int,
    j: int,
)
    requires
        lists_deleted(deleted, scan, checkpoints),
        lists_dirty(listed, dirty),
    ensures
        deleted.contains(path) <==> checkpoints.contains_key(path) && forall|k: int|
            0 <= k < scan.len() ==> (#[trigger] scan[k]).file_path@ != path,
        listed.contains(path) <==> dirty.contains_key(path),
        0 <= i < j < listed.len() ==> listed[i] != listed[j] && dirty[listed[i]].0
            <= dirty[listed[j]].0,
        0 <= i < j < deleted.len() ==> deleted[i] != deleted[j],
{
}

/// A change of the database touches the rows that the ledger holds as it says; only a dropped
/// checkpoint takes chunk hashes along, those of its file, and only clearing takes sent hashes.
pub proof fn law_other_tables_stay(
    db: DatabaseView,
    change: LedgerChange,
    key: (Seq<char>, i64),
    id: Seq<u8>,
)
    ensures
        ({
            let after = applied(db, change);
            &&& after.stored == changed(db.stored, change)
            &&& !(change is ClearSentHashes) ==> after.sent_hashes == db.sent_hashes
            &&& change is ClearSentHashes ==> !after.sent_hashes.contains_key(id)
                && after.stored == db.stored && after.chunk_hashes == db.chunk_hashes
            &&& !(change is DropCheckpoint) ==> after.chunk_hashes == db.chunk_hashes
            &&& change matches LedgerChange::DropCheckpoint(path) ==> (
            after.chunk_hashes.contains_key(key) <==> db.chunk_hashes.contains_key(key) && key.0
                != path@)
        }),
{
}

/// A row that is dropped is no longer there, and every other row stays as it was.
pub proof fn law_drops_are_stored(s: StoredView, dropped: String, path: Seq<char>)
    ensures
        ({
            let after = changed(s, LedgerChange::DropCheckpoint(dropped));
            &&& after.checkpoints.contains_key(path) <==> s.checkpoints.contains_key(path) && path
                != dropped@
            &&& path != dropped@ ==> after.checkpoints[path] == s.checkpoints[path]
            &&& after.segments == s.segments && after.dirty == s.dirty && after.watched == s.watched
        }),
        ({
            let after = changed(s, LedgerChange::DropDirty(dropped));
            &&& after.dirty.contains_key(path) <==> s.dirty.contains_key(path) && path != dropped@
            &&& path != dropped@ ==> after.dirty[path] == s.dirty[path]
            &&& after.segments == s.segments && after.checkpoints == s.checkpoints && after.watched
                == s.watched
        }),
        ({
            let after = changed(s, LedgerChange::DropWatched(dropped));
            &&& after.watched.contains_key(path) <==> s.watched.contains_key(path) && path
                != dropped@
            &&& path != dropped@ ==> after.watched[path] == s.watched[path]
            &&& after.segments == s.segments && after.checkpoints == s.checkpoints && after.dirty
                == s.dirty
        }),
        changed(s, LedgerChange::ClearSentHashes) == s,
{
}

/// The next segment that is to be sealed is the one with the least number in the range that is known
/// and in another state than `SEALED`; there is none only if the range has no such segment.
pub proof fn law_next_unsealed_is_least(
    segments: Map<u32, SegmentRow>,
    from: int,
    upto: int,
    k: u32,
)
    requires
        0 <= from <= k < upto <= u32::MAX,
        segments.contains_key(k),
        segments[k].state != "SEALED"@,
    ensures
        least_unsealed(segments, from, upto) matches Some(m) && from <= m <= k
            && segments.contains_key(m) && segments[m].state != "SEALED"@,
{
    lemma_least_unsealed(segments, from, upto);
    assert(unsealed(segments, k));
}

} // verus!
