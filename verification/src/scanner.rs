//! What a scan of the watched directories finds, and how it is stored in batches.

use vstd::prelude::*;

use crate::ledger::LedgerError;
use crate::ledger::LocalLedger;

verus! {

use crate::ledger::distinct_paths;
use crate::ledger::insert_items;
use crate::ledger::law_batch_is_taken_if_it_fits;
use crate::ledger::law_scan_batches_append;
use crate::ledger::lemma_insert_parts;
use crate::ledger::lemma_insert_stops;
use crate::ledger::LedgerView;

/// A batch is stored when it has this many items.
pub const BATCH_SIZE: usize = 5000;

/// A file that a scan found.
#[derive(Debug)]
pub struct ScanItem {
    pub file_path: String,
    pub mtime_ns: i64,
    pub file_size: i64,
    pub st_dev: u64,
    pub st_ino: u64,
}

impl Clone for ScanItem {
    fn clone(&self) -> (r: Self)
        ensures
            r == *self,
    {
        ScanItem {
            file_path: self.file_path.clone(),
            mtime_ns: self.mtime_ns,
            file_size: self.file_size,
            st_dev: self.st_dev,
            st_ino: self.st_ino,
        }
    }
}

/// The scan table of a ledger after a batch, or why it is refused.
pub open spec fn stored(v: LedgerView, batch: Seq<ScanItem>) -> Result<LedgerView, LedgerError> {
    match v.scan {
        None => Err(LedgerError::NoScanTable),
        Some(scan) => match insert_items(scan, batch, batch.len() as int) {
            Ok(items) => Ok(LedgerView { scan: Some(items), ..v }),
            Err(e) => Err(e),
        },
    }
}

/// Gathers the items of a scan and stores them in the ledger batch by batch.
pub struct ScanBatcher {
    batch: Vec<ScanItem>,
}

impl ScanBatcher {
    /// The items that wait to be stored.
    pub closed spec fn pending(&self) -> Seq<ScanItem> {
        self.batch@
    }

    /// Less than a batch waits.
    pub open spec fn wf(&self) -> bool {
        self.pending().len() < BATCH_SIZE
    }

    /// Starts with nothing gathered.
    pub fn new() -> (r: Self)
        ensures
            r.wf(),
            r.pending() == Seq::<ScanItem>::empty(),
    {
        ScanBatcher { batch: Vec::new() }
    }

    /// Takes an item, and stores the batch if that fills it. A refused batch ends the scan.
    pub fn push(&mut self, item: ScanItem, ledger: &mut LocalLedger) -> (r: Result<(), LedgerError>)
        requires
            old(self).wf(),
        ensures
            old(self).pending().len() + 1 < BATCH_SIZE ==> {
                &&& r is Ok
                &&& final(self).pending() == old(self).pending().push(item)
                &&& final(ledger)@ == old(ledger)@
            },
            old(self).pending().len() + 1 >= BATCH_SIZE ==> match stored(
                old(ledger)@,
                old(self).pending().push(item),
            ) {
                Ok(after) => r is Ok && final(ledger)@ == after && final(self).pending()
                    == Seq::<ScanItem>::empty(),
                Err(e) => r == Err::<(), LedgerError>(e) && final(ledger)@ == old(ledger)@,
            },
            r is Ok ==> final(self).wf(),
            final(ledger).base() == old(ledger).base(),
    {
        self.batch.push(item);
        if self.batch.len() >= BATCH_SIZE {
            match ledger.batch_insert_temp_scan(&self.batch) {
                Err(e) => {
                    return Err(e);
                },
                Ok(()) => {},
            }
            self.batch = Vec::new();
            assert(self.batch@ =~= Seq::<ScanItem>::empty());
        }
        Ok(())
    }

    /// Stores what is left at the end of a scan.
    pub fn finish(self, ledger: &mut LocalLedger) -> (r: Result<(), LedgerError>)
        requires
            self.wf(),
        ensures
            self.pending().len() == 0 ==> r is Ok && final(ledger)@ == old(ledger)@,
            self.pending().len() > 0 ==> match stored(old(ledger)@, self.pending()) {
                Ok(after) => r is Ok && final(ledger)@ == after,
                Err(e) => r == Err::<(), LedgerError>(e) && final(ledger)@ == old(ledger)@,
            },
            final(ledger).base() == old(ledger).base(),
    {
        if self.batch.len() == 0 {
            return Ok(());
        }
        ledger.batch_insert_temp_scan(&self.batch)
    }
}

/// Of the first `i` items of a scan all but the pending ones are stored.
spec fn progressed(
    v: LedgerView,
    now: LedgerView,
    pending: Seq<ScanItem>,
    items: Seq<ScanItem>,
    i: int,
) -> bool {
    let m = i - pending.len();
    &&& 0 <= m <= i <= items.len()
    &&& m % (BATCH_SIZE as int) == 0
    &&& pending == items.subrange(m, i)
    &&& insert_items(v.scan->0, items, m) is Ok
    &&& now == (LedgerView { scan: Some(insert_items(v.scan->0, items, m)->Ok_0), ..v })
}

/// The batch from item `m` on is the one that is refused: those before it went in.
pub open spec fn refused_from(scan: Seq<ScanItem>, items: Seq<ScanItem>, m: int) -> bool {
    &&& 0 <= m < items.len()
    &&& m % (BATCH_SIZE as int) == 0
    &&& insert_items(scan, items, m) is Ok
    &&& insert_items(
        scan,
        items,
        if m + BATCH_SIZE < items.len() {
            m + BATCH_SIZE
        } else {
            items.len() as int
        },
    ) is Err
}

/// Stores all items of a scan, and says why a batch was refused.
pub fn batch_scan(items: Vec<ScanItem>, ledger: &mut LocalLedger) -> (r: Result<(), LedgerError>)
    ensures
        items@.len() == 0 ==> r is Ok && final(ledger)@ == old(ledger)@,
        old(ledger)@.scan is None ==> final(ledger)@ == old(ledger)@,
        old(ledger)@.scan is None && items@.len() > 0 ==> r == Err::<(), LedgerError>(
            LedgerError::NoScanTable,
        ),
        old(ledger)@.scan matches Some(scan) ==> match insert_items(
            scan,
            items@,
            items@.len() as int,
        ) {
            Ok(all) => r is Ok && final(ledger)@ == (LedgerView {
                scan: Some(all),
                ..old(ledger)@
            }),
            Err(e) => r == Err::<(), LedgerError>(e) && exists|m: int|
                {
                    &&& #[trigger] refused_from(scan, items@, m)
                    &&& final(ledger)@ == (LedgerView {
                        scan: Some(insert_items(scan, items@, m)->Ok_0),
                        ..old(ledger)@
                    })
                },
        },
        final(ledger).base() == old(ledger).base(),
{
    let ghost v = old(ledger)@;
    let mut batcher = ScanBatcher::new();
    assert(items@.subrange(0, 0) =~= Seq::<ScanItem>::empty());
    for item in it: items
        invariant
            it.seq() == items@,
            batcher.wf(),
            v == old(ledger)@,
            ledger.base() == old(ledger).base(),
            0 <= it.index() <= items@.len(),
            v.scan is None ==> ledger@ == v && batcher.pending() == items@.take(it.index()),
            v.scan matches Some(scan) ==> progressed(
                v,
                ledger@,
                batcher.pending(),
                items@,
                it.index(),
            ),
    {
        let ghost i = it.index();
        let ghost m = i - batcher.pending().len();
        proof {
            assert(items@.take(i).push(item) =~= items@.take(i + 1));
            if v.scan is Some {
                assert(items@.subrange(m, i).push(item) =~= items@.subrange(m, i + 1));
                lemma_insert_parts(v.scan->0, items@, m, i + 1, i + 1 - m);
            }
        }
        match batcher.push(item, ledger) {
            Err(e) => {
                proof {
                    if v.scan is Some {
                        lemma_insert_stops(v.scan->0, items@, i + 1, items@.len() as int);
                        assert(m + BATCH_SIZE == i + 1);
                        assert(refused_from(v.scan->0, items@, m));
                    }
                }
                return Err(e);
            },
            Ok(()) => {},
        }
        proof {
            if v.scan is Some && batcher.pending().len() == 0 {
                assert(items@.subrange(i + 1, i + 1) =~= Seq::<ScanItem>::empty());
            }
        }
    }
    proof {
        let n = items@.len() as int;
        assert(items@.take(n) =~= items@);
        if v.scan is Some {
            let m = n - batcher.pending().len();
            lemma_insert_parts(v.scan->0, items@, m, n, n - m);
            if insert_items(v.scan->0, items@, n) is Err {
                assert(refused_from(v.scan->0, items@, m));
            }
        }
    }
    batcher.finish(ledger)
}

/// A batch that is stored stands behind what the scan table held, and nothing else of the ledger
/// changes; without a scan table it is refused.
pub proof fn law_batch_is_appended(v: LedgerView, batch: Seq<ScanItem>)
    requires
        v.scan matches Some(scan) ==> distinct_paths(scan),
    ensures
        v.scan is None ==> stored(v, batch) == Err::<LedgerView, LedgerError>(
            LedgerError::NoScanTable,
        ),
        v.scan matches Some(scan) ==> (stored(v, batch) matches Ok(after) ==> after == (LedgerView {
            scan: Some(scan + batch),
            ..v
        })),
        v.scan matches Some(scan) ==> (stored(v, batch) is Ok <==> distinct_paths(scan + batch)
            && forall|i: int|
            0 <= i < batch.len() ==> (#[trigger] batch[i]).st_dev <= i64::MAX && batch[i].st_ino
                <= i64::MAX),
{
    if let Some(scan) = v.scan {
        let n = batch.len() as int;
        assert(batch.take(n) =~= batch);
        law_batch_is_taken_if_it_fits(scan, batch, n);
        if insert_items(scan, batch, n) is Ok {
            law_scan_batches_append(scan, batch, n);
        }
    }
}

/// The batch that is refused begins at a multiple of five thousand items, and what is stored are
/// the items before it.
pub proof fn law_refused_batch(scan: Seq<ScanItem>, items: Seq<ScanItem>, m: int)
    requires
        distinct_paths(scan),
        refused_from(scan, items, m),
    ensures
        m % 5000 == 0,
        0 <= m < items.len(),
        insert_items(scan, items, m)->Ok_0 == scan + items.take(m),
        insert_items(scan, items, items.len() as int) is Err,
{
    law_scan_batches_append(scan, items, m);
    let end = if m + BATCH_SIZE < items.len() {
        m + BATCH_SIZE
    } else {
        items.len() as int
    };
    lemma_insert_stops(scan, items, end, items.len() as int);
}

} // verus!
