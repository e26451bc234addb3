//! The restart: what was missed while the client was down is sent, segments first.

use vstd::hash_set::StringHashSet;
use vstd::prelude::*;

use crate::ledger::FileStat;
use crate::ledger::LocalLedger;
use crate::scanner::ScanItem;
use crate::segment::is_segment_file;
use crate::segment::parse_segment_seq;
use crate::segment::SegmentPlan;
use crate::segment_events::or_zeros;
use crate::segment_events::segment_position;
use crate::segment_events::SegmentAction;
use crate::segment_events::SegmentReply;
use crate::tracker::file_start;

verus! {

use crate::ledger::advanced;
use crate::ledger::cleaned;
use crate::ledger::committed;
use crate::ledger::committed_row;
use crate::ledger::dropped;
use crate::ledger::lemma_contains_push;
use crate::ledger::lists_dirty;
use crate::ledger::position_of;
use crate::ledger::sealed;
use crate::ledger::LedgerView;
use crate::ledger::SegmentRow;
use crate::segment::is_active;
use crate::segment::item_seq;
use crate::segment::law_every_segment_planned;
use crate::segment::plan_at;
use crate::segment::segment_order;
use crate::segment::segment_seq;
use crate::segment_events::digest_or_zeros;
use crate::segment_events::is_sealed;
use crate::segment_events::records_sealed;
use crate::segment_events::sent_of;
use crate::segment_events::signals;
use crate::text::texts;
use crate::tracker::audited;
use crate::tracker::start_of;

/// The paths of a list that name no segments.
pub open spec fn no_segments(list: Seq<Seq<char>>) -> Seq<Seq<char>>
    decreases list.len(),
{
    if list.len() == 0 {
        Seq::empty()
    } else {
        let front = no_segments(list.drop_last());
        if segment_seq(list.last()) is Some {
            front
        } else {
            front.push(list.last())
        }
    }
}

/// The changed files that are no segments: first the new ones, then the modified ones.
pub fn changed_files(created: &Vec<String>, modified: &Vec<String>) -> (r: Vec<String>)
    ensures
        texts(r@) == no_segments(texts(created@)) + no_segments(texts(modified@)),
{
    let mut files = without_segments(created);
    let mut more = without_segments(modified);
    let ghost a = files@;
    let ghost b = more@;
    files.append(&mut more);
    assert(texts(files@) =~= texts(a) + texts(b));
    files
}

/// The paths of a list that name no segments.
fn without_segments(list: &Vec<String>) -> (r: Vec<String>)
    ensures
        texts(r@) == no_segments(texts(list@)),
{
    let n: usize = list.len();
    let ghost all = texts(list@);
    let mut r: Vec<String> = Vec::new();
    let mut i: usize = 0;
    assert(texts(r@) =~= Seq::<Seq<char>>::empty());
    while i < n
        invariant
            i <= n,
            n == list@.len(),
            all == texts(list@),
            texts(r@) == no_segments(all.take(i as int)),
        decreases n - i,
    {
        let ghost before = texts(r@);
        assert(all.take(i + 1).drop_last() =~= all.take(i as int));
        assert(all.take(i + 1).last() == list@[i as int]@);
        if !is_segment_file(&list[i]) {
            r.push(list[i].clone());
            assert(texts(r@) =~= before.push(list@[i as int]@));
        }
        i = i + 1;
    }
    assert(all.take(n as int) =~= all);
    r
}

/// The paths of a list that are not among others.
pub open spec fn not_among(list: Seq<Seq<char>>, others: Seq<Seq<char>>) -> Seq<Seq<char>>
    decreases list.len(),
{
    if list.len() == 0 {
        Seq::empty()
    } else {
        let front = not_among(list.drop_last(), others);
        if others.contains(list.last()) {
            front
        } else {
            front.push(list.last())
        }
    }
}

/// The files that a restart takes up besides the planned segments: first those that were left dirty,
/// then the other changed ones.
pub open spec fn files_to_send(
    planned: Seq<Seq<char>>,
    dirty: Seq<Seq<char>>,
    changed: Seq<Seq<char>>,
) -> Seq<Seq<char>> {
    not_among(dirty, planned) + not_among(changed, dirty)
}

/// The files that a restart takes up besides the planned segments, given the dirty and the changed
/// ones.
pub fn restart_files(
    plans: &Vec<SegmentPlan>,
    dirty: &Vec<String>,
    changed: &Vec<String>,
) -> (r: Vec<String>)
    ensures
        texts(r@) == files_to_send(planned_paths(plans@), texts(dirty@), texts(changed@)),
{
    let planned = list_planned(plans);
    let mut files = without(dirty, &planned);
    let mut more = without(changed, dirty);
    let ghost a = files@;
    let ghost b = more@;
    files.append(&mut more);
    assert(texts(files@) =~= texts(a) + texts(b));
    files
}

/// The paths of a list that are not among others.
fn without(list: &Vec<String>, others: &Vec<String>) -> (r: Vec<String>)
    ensures
        texts(r@) == not_among(texts(list@), texts(others@)),
{
    let known = path_set(others);
    let mut kept: Vec<String> = Vec::new();
    let ghost all = texts(list@);
    let n: usize = list.len();
    let mut i: usize = 0;
    assert(texts(kept@) =~= Seq::<Seq<char>>::empty());
    while i < n
        invariant
            i <= n,
            n == list@.len(),
            all == texts(list@),
            forall|path: Seq<char>| #[trigger]
                known@.contains(path) == texts(others@).contains(path),
            texts(kept@) == not_among(all.take(i as int), texts(others@)),
        decreases n - i,
    {
        let ghost before = texts(kept@);
        assert(all.take(i + 1).drop_last() =~= all.take(i as int));
        assert(all.take(i + 1).last() == list@[i as int]@);
        if !known.contains(&list[i]) {
            kept.push(list[i].clone());
            assert(texts(kept@) =~= before.push(list@[i as int]@));
        }
        i = i + 1;
    }
    assert(all.take(n as int) =~= all);
    kept
}

/// The set of the paths of a list.
fn path_set(list: &Vec<String>) -> (r: StringHashSet)
    ensures
        forall|path: Seq<char>| #[trigger] r@.contains(path) == texts(list@).contains(path),
{
    let ghost all = texts(list@);
    let n: usize = list.len();
    let mut r = StringHashSet::new();
    let mut i: usize = 0;
    while i < n
        invariant
            i <= n,
            n == list@.len(),
            all == texts(list@),
            forall|path: Seq<char>| #[trigger]
                r@.contains(path) == all.take(i as int).contains(path),
        decreases n - i,
    {
        proof {
            let done = all.take(i as int);
            assert(all.take(i + 1) =~= done.push(all[i as int]));
            assert forall|path: Seq<char>| #[trigger] all.take(i + 1).contains(path) == (
            done.contains(path) || path == all[i as int]) by {
                lemma_contains_push(done, all[i as int], path);
            }
        }
        r.insert(list[i].clone());
        i = i + 1;
    }
    assert(all.take(n as int) =~= all);
    r
}

proof fn lemma_not_among(list: Seq<Seq<char>>, others: Seq<Seq<char>>, path: Seq<char>)
    ensures
        not_among(list, others).contains(path) == (list.contains(path) && !others.contains(path)),
    decreases list.len(),
{
    if list.len() > 0 {
        let front = list.drop_last();
        lemma_not_among(front, others, path);
        lemma_contains_push(front, list.last(), path);
        lemma_contains_push(not_among(front, others), list.last(), path);
        assert(front.push(list.last()) =~= list);
    }
}

/// A restart takes up every file that was left dirty and every changed one, be it as planned.
pub proof fn law_dirty_and_changed_are_sent(
    planned: Seq<Seq<char>>,
    dirty: Seq<Seq<char>>,
    changed: Seq<Seq<char>>,
    path: Seq<char>,
)
    ensures
        planned.contains(path) || files_to_send(planned, dirty, changed).contains(path) <==> (
        planned.contains(path) || dirty.contains(path) || changed.contains(path)),
{
    let a = not_among(dirty, planned);
    let b = not_among(changed, dirty);
    let all = files_to_send(planned, dirty, changed);
    lemma_not_among(dirty, planned, path);
    lemma_not_among(changed, dirty, path);
    if a.contains(path) {
        let i = choose|i: int| 0 <= i < a.len() && a[i] == path;
        assert(all[i] == path);
    }
    if b.contains(path) {
        let i = choose|i: int| 0 <= i < b.len() && b[i] == path;
        assert(all[a.len() + i] == path);
    }
    if all.contains(path) {
        let i = choose|i: int| 0 <= i < all.len() && all[i] == path;
        if i < a.len() {
            assert(a[i] == path);
        } else {
            assert(b[i - a.len()] == path);
        }
    }
}

/// A segment is among the scanned files.
pub open spec fn is_present(scan: Seq<ScanItem>, seq: u32) -> bool {
    exists|i: int| 0 <= i < scan.len() && #[trigger] item_seq(scan, i) == Some(seq)
}

/// Whether a segment is among the scanned files.
fn find_present(scan: &Vec<ScanItem>, seq: u32) -> (r: bool)
    ensures
        r == is_present(scan@, seq),
{
    let n: usize = scan.len();
    let mut i: usize = 0;
    while i < n
        invariant
            i <= n,
            n == scan@.len(),
            forall|j: int| 0 <= j < i ==> #[trigger] item_seq(scan@, j) != Some(seq),
        decreases n - i,
    {
        if let Some(s) = parse_segment_seq(&scan[i].file_path) {
            if s == seq {
                assert(item_seq(scan@, i as int) == Some(seq));
                return true;
            }
        }
        i = i + 1;
    }
    false
}

/// The segments that are present.
pub open spec fn only_present(segments: Map<u32, SegmentRow>, scan: Seq<ScanItem>) -> Map<
    u32,
    SegmentRow,
> {
    segments.restrict(Set::new(|k: u32| is_present(scan, k)))
}

/// Forgets the segments whose files are gone.
pub fn forget_missing(ledger: &mut LocalLedger, scan: &Vec<ScanItem>)
    ensures
        final(ledger).base() == old(ledger).base(),
        final(ledger)@ == (LedgerView {
            segments: only_present(old(ledger)@.segments, scan@),
            ..old(ledger)@
        }),
{
    let seqs = ledger.segment_seqs();
    let ghost v = ledger@;
    let n: usize = seqs.len();
    let mut i: usize = 0;
    while i < n
        invariant
            i <= n,
            n == seqs@.len(),
            seqs@.no_duplicates(),
            v == old(ledger)@,
            ledger.base() == old(ledger).base(),
            ledger@.checkpoints == v.checkpoints,
            ledger@.dirty == v.dirty,
            ledger@.watched == v.watched,
            ledger@.scan == v.scan,
            forall|k: u32| #[trigger] seqs@.contains(k) == v.segments.contains_key(k),
            forall|k: u32| #[trigger]
                ledger@.segments.contains_key(k) == (v.segments.contains_key(k) && (is_present(
                    scan@,
                    k,
                ) || !seqs@.take(i as int).contains(k))),
            forall|k: u32| #[trigger]
                ledger@.segments.contains_key(k) ==> ledger@.segments[k] == v.segments[k],
        decreases n - i,
    {
        let seq: u32 = seqs[i];
        let ghost before = ledger@;
        if !find_present(scan, seq) {
            ledger.delete_segment(seq);
        }
        proof {
            let done = seqs@.take(i as int);
            let more = seqs@.take(i + 1);
            assert forall|k: u32| #[trigger] more.contains(k) == (done.contains(k) || k == seq) by {
                if done.contains(k) {
                    let j = choose|j: int| 0 <= j < done.len() && done[j] == k;
                    assert(more[j] == k);
                }
                if k == seq {
                    assert(more[i as int] == k);
                }
                if more.contains(k) && k != seq {
                    let j = choose|j: int| 0 <= j < more.len() && more[j] == k;
                    assert(done[j] == k);
                }
            }
            assert forall|k: u32| #[trigger] ledger@.segments.contains_key(k) == (
            v.segments.contains_key(k) && (is_present(scan@, k) || !more.contains(k))) by {
                assert(before.segments.contains_key(k) == (v.segments.contains_key(k) && (
                is_present(scan@, k) || !done.contains(k))));
            }
        }
        i = i + 1;
    }
    proof {
        assert(seqs@.take(n as int) =~= seqs@);
        assert(ledger@.segments =~= only_present(v.segments, scan@));
    }
}

/// The greatest segment number of a scan, if it has segments.
pub open spec fn is_greatest(scan: Seq<ScanItem>, max: Option<u32>) -> bool {
    match max {
        None => forall|i: int| 0 <= i < scan.len() ==> #[trigger] item_seq(scan, i) is None,
        Some(m) => is_present(scan, m) && forall|k: u32| #[trigger] is_present(scan, k) ==> k <= m,
    }
}

/// The greatest segment number of a scan, if it has segments.
pub fn greatest_segment(scan: &Vec<ScanItem>) -> (r: Option<u32>)
    ensures
        is_greatest(scan@, r),
{
    let n: usize = scan.len();
    let mut max: Option<u32> = None;
    let mut i: usize = 0;
    while i < n
        invariant
            i <= n,
            n == scan@.len(),
            max is None ==> forall|j: int| 0 <= j < i ==> #[trigger] item_seq(scan@, j) is None,
            max matches Some(m) ==> is_present(scan@, m) && forall|j: int|
                0 <= j < i ==> (#[trigger] item_seq(scan@, j) matches Some(s) ==> s <= m),
        decreases n - i,
    {
        if let Some(seq) = parse_segment_seq(&scan[i].file_path) {
            assert(item_seq(scan@, i as int) == Some(seq));
            match max {
                None => {
                    max = Some(seq);
                },
                Some(m) => {
                    if seq > m {
                        max = Some(seq);
                    }
                },
            }
        }
        i = i + 1;
    }
    max
}

/// The segment that a plan takes for the active one is the greatest of the scan.
pub proof fn law_greatest_is_active(scan: Seq<ScanItem>, max: Option<u32>, seq: u32)
    requires
        is_greatest(scan, max),
    ensures
        is_active(scan, seq) == (max == Some(seq)),
{
    let n = scan.len() as int;
    let order = segment_order(scan, n);
    law_every_segment_planned(scan, n);
    if order.len() > 0 {
        let last = order.last();
        assert(order.contains(last));
        let top = item_seq(scan, last)->0;
        assert(is_present(scan, top));
        let m = max->0;
        let i = choose|i: int| 0 <= i < scan.len() && #[trigger] item_seq(scan, i) == Some(m);
        assert(order.contains(i));
        let k = choose|k: int| 0 <= k < order.len() && order[k] == i;
        if k < order.len() - 1 {
            assert(item_seq(scan, order[k])->0 <= item_seq(scan, order[order.len() - 1])->0);
        }
    } else if let Some(m) = max {
        let i = choose|i: int| 0 <= i < scan.len() && #[trigger] item_seq(scan, i) == Some(m);
        assert(order.contains(i));
    }
}

/// From where a file is sent.
#[derive(Clone, Copy, Debug, PartialEq, Eq, Structural)]
pub enum JobStart {
    /// From an offset, as planned.
    At(u64),
    /// From where the ledger says that it was sent to.
    Recorded,
}

/// A file to send: from where, and as which segment, if it is one.
pub struct ColdJob<P> {
    pub file_path: P,
    pub start: JobStart,
    pub segment: Option<u32>,
}

impl View for ColdJob<String> {
    type V = ColdJob<Seq<char>>;

    open spec fn view(&self) -> ColdJob<Seq<char>> {
        ColdJob {
            file_path: self.file_path@,
            start: self.start,
            segment: self.segment,
        }
    }
}

/// The segment number of a planned file, or zero.
pub open spec fn seq_or_zero(path: Seq<char>) -> u32 {
    match segment_seq(path) {
        Some(seq) => seq,
        None => 0,
    }
}

/// The file that a plan sends, if it sends one.
pub open spec fn plan_job(plan: SegmentPlan) -> Option<ColdJob<Seq<char>>> {
    match plan {
        SegmentPlan::FullSync { file_path } => Some(
            ColdJob {
                file_path: file_path@,
                start: JobStart::At(0),
                segment: Some(seq_or_zero(file_path@)),
            },
        ),
        SegmentPlan::TailSync { file_path, start_offset } => Some(
            ColdJob {
                file_path: file_path@,
                start: JobStart::At(start_offset),
                segment: Some(seq_or_zero(file_path@)),
            },
        ),
        SegmentPlan::Skip => None,
    }
}

/// The files that plans send, in order.
pub open spec fn plan_jobs(plans: Seq<SegmentPlan>) -> Seq<ColdJob<Seq<char>>>
    decreases plans.len(),
{
    if plans.len() == 0 {
        Seq::empty()
    } else {
        let front = plan_jobs(plans.drop_last());
        match plan_job(plans.last()) {
            Some(job) => front.push(job),
            None => front,
        }
    }
}

proof fn lemma_plan_jobs_order(
    scan: Seq<ScanItem>,
    segments: Map<u32, SegmentRow>,
    digests: Seq<Option<[u8; 32]>>,
    plans: Seq<SegmentPlan>,
    n: int,
)
    requires
        0 <= n <= plans.len(),
        plans.len() == segment_order(scan, scan.len() as int).len(),
        forall|k: int|
            0 <= k < plans.len() ==> plan_at(
                scan,
                segments,
                digests,
                segment_order(scan, scan.len() as int)[k],
            ) == Some(#[trigger] plans[k]),
    ensures
        ({
            let jobs = plan_jobs(plans.take(n));
            let order = segment_order(scan, scan.len() as int);
            &&& forall|j: int|
                0 <= j < jobs.len() ==> (#[trigger] jobs[j]).segment is Some && n > 0
                    && jobs[j].segment->0 <= item_seq(scan, order[n - 1])->0
            &&& forall|j: int, k: int|
                0 <= j < k < jobs.len() ==> (#[trigger] jobs[j]).segment->0 <= (
                #[trigger] jobs[k]).segment->0
        }),
    decreases n,
{
    let order = segment_order(scan, scan.len() as int);
    law_every_segment_planned(scan, scan.len() as int);
    if n > 0 {
        lemma_plan_jobs_order(scan, segments, digests, plans, n - 1);
        let part = plans.take(n);
        assert(part.drop_last() =~= plans.take(n - 1));
        assert(part.last() == plans[n - 1]);
        let before = plan_jobs(plans.take(n - 1));
        let jobs = plan_jobs(part);
        let i = order[n - 1];
        assert(order.contains(i));
        assert(plan_at(scan, segments, digests, order[n - 1]) == Some(plans[n - 1]));
        if n > 1 {
            assert(item_seq(scan, order[n - 2])->0 <= item_seq(scan, order[n - 1])->0);
        }
        if let Some(job) = plan_job(plans[n - 1]) {
            assert(job.segment == item_seq(scan, i));
            assert(jobs =~= before.push(job));
            assert forall|j: int| 0 <= j < jobs.len() implies (#[trigger] jobs[j]).segment is Some
                && jobs[j].segment->0 <= item_seq(scan, order[n - 1])->0 by {
                if j < before.len() {
                    assert(jobs[j] == before[j]);
                }
            }
            assert forall|j: int, k: int| 0 <= j < k < jobs.len() implies (
            #[trigger] jobs[j]).segment->0 <= (#[trigger] jobs[k]).segment->0 by {
                assert(jobs[j] == before[j]);
                if k < before.len() {
                    assert(jobs[k] == before[k]);
                }
            }
        }
    }
}

/// A restart sends the planned segments, and so signals them, in ascending order of their numbers.
pub proof fn law_restart_in_order(
    scan: Seq<ScanItem>,
    segments: Map<u32, SegmentRow>,
    digests: Seq<Option<[u8; 32]>>,
    plans: Seq<SegmentPlan>,
    j: int,
    k: int,
)
    requires
        plans.len() == segment_order(scan, scan.len() as int).len(),
        forall|i: int|
            0 <= i < plans.len() ==> plan_at(
                scan,
                segments,
                digests,
                segment_order(scan, scan.len() as int)[i],
            ) == Some(#[trigger] plans[i]),
        0 <= j < k < plan_jobs(plans).len(),
    ensures
        plan_jobs(plans)[j].segment is Some,
        plan_jobs(plans)[k].segment is Some,
        plan_jobs(plans)[j].segment->0 <= plan_jobs(plans)[k].segment->0,
{
    lemma_plan_jobs_order(scan, segments, digests, plans, plans.len() as int);
    assert(plans.take(plans.len() as int) =~= plans);
}

/// The paths that plans send, in order.
pub open spec fn planned_paths(plans: Seq<SegmentPlan>) -> Seq<Seq<char>> {
    plan_jobs(plans).map_values(|j: ColdJob<Seq<char>>| j.file_path)
}

/// Files to send from where the ledger says.
pub open spec fn file_jobs(files: Seq<Seq<char>>) -> Seq<ColdJob<Seq<char>>> {
    files.map_values(
        |p: Seq<char>|
            ColdJob { file_path: p, start: JobStart::Recorded, segment: segment_seq(p) },
    )
}

/// What each job of a list says.
pub open spec fn job_views(jobs: Seq<ColdJob<String>>) -> Seq<ColdJob<Seq<char>>> {
    jobs.map_values(|j: ColdJob<String>| j@)
}

/// What is waited for.
pub enum ColdPhase {
    /// Whether the file is there.
    Check,
    /// The file to be sent.
    Sending { stat: FileStat },
    /// The size of the segment that was sent.
    Measure { last_offset: u64 },
    /// The digest of the segment that was sent.
    Sealing { size: u64, last_offset: u64 },
    /// The signal for the segment.
    Signalling,
    /// Nothing.
    Finished,
}

/// A restart: the files to send, the one in work, and what is waited for.
pub struct ColdView {
    pub jobs: Seq<ColdJob<Seq<char>>>,
    pub active: Option<u32>,
    pub at: nat,
    pub phase: ColdPhase,
}

impl ColdView {
    /// There is a file in work, unless all is done.
    pub open spec fn wf(self) -> bool {
        match self.phase {
            ColdPhase::Finished => true,
            ColdPhase::Check => self.at < self.jobs.len(),
            ColdPhase::Sending { .. } => self.at < self.jobs.len(),
            _ => self.at < self.jobs.len() && self.jobs[self.at as int].segment is Some,
        }
    }

    /// The reply is of the kind that is waited for.
    pub open spec fn expects(self, reply: SegmentReply) -> bool {
        match self.phase {
            ColdPhase::Check => reply is Stat,
            ColdPhase::Sending { .. } => reply is Sent,
            ColdPhase::Measure { .. } => reply is Stat,
            ColdPhase::Sealing { .. } => reply is Digest,
            ColdPhase::Signalling => reply is Signalled,
            ColdPhase::Finished => false,
        }
    }

    /// The restart with another file in work.
    pub open spec fn at_job(self, at: nat) -> ColdView {
        ColdView {
            at,
            phase: if at < self.jobs.len() {
                ColdPhase::Check
            } else {
                ColdPhase::Finished
            },
            ..self
        }
    }

    /// The restart that waits for something else.
    pub open spec fn waiting(self, phase: ColdPhase) -> ColdView {
        ColdView { phase, ..self }
    }

    /// What is asked for of the file in work when its turn comes.
    pub open spec fn opening(self) -> SegmentAction<Seq<char>> {
        if self.at < self.jobs.len() {
            SegmentAction::Stat { file_path: self.jobs[self.at as int].file_path }
        } else {
            SegmentAction::Done
        }
    }
}

/// The offset from which a file is sent: as planned, or by its record, which is a checkpoint unless
/// the file is a segment.
pub open spec fn job_start(v: LedgerView, job: ColdJob<Seq<char>>, stat: FileStat) -> u64 {
    match (job.start, job.segment) {
        (JobStart::At(offset), _) => offset,
        (JobStart::Recorded, Some(seq)) => sent_of(v.segments, seq),
        (JobStart::Recorded, None) => {
            let (offset, dev, ino) = position_of(v.checkpoints, job.file_path);
            start_of(audited(Some(stat), offset, dev, ino))
        },
    }
}

/// All of a segment that goes by its record was sent already.
pub open spec fn is_sent(v: LedgerView, job: ColdJob<Seq<char>>, stat: FileStat) -> bool {
    job.start is Recorded && job.segment is Some && job_start(v, job, stat) >= stat.size
}

/// A segment stays open after it was sent: a planned one if it is the active one, another if it was
/// not sealed.
pub open spec fn stays_open(run: ColdView, v: LedgerView, job: ColdJob<Seq<char>>) -> bool {
    match job.start {
        JobStart::At(_) => job.segment == run.active,
        JobStart::Recorded => !is_sealed(v.segments, job.segment->0),
    }
}

/// What follows a reply: the restart, the ledger, and what is asked for. A file that could not be
/// sent is passed over. A segment is recorded as unfinished if it stays open, else it is sealed and
/// signalled; of another file the checkpoint is recorded. A file that was recorded, that was sent
/// already or that is gone is no longer dirty.
pub open spec fn cold_reaction(run: ColdView, v: LedgerView, reply: SegmentReply, now: i64) -> (
    ColdView,
    LedgerView,
    SegmentAction<Seq<char>>,
) {
    let job = run.jobs[run.at as int];
    let path = job.file_path;
    let next = run.at_job(run.at + 1);
    match (run.phase, reply) {
        (ColdPhase::Check, SegmentReply::Stat(Some(stat))) => if is_sent(v, job, stat) {
            (next, cleaned(v, path), next.opening())
        } else {
            (
                run.waiting(ColdPhase::Sending { stat }),
                v,
                SegmentAction::Send { file_path: path, start_offset: job_start(v, job, stat) },
            )
        },
        (ColdPhase::Check, SegmentReply::Stat(None)) => (next, cleaned(v, path), next.opening()),
        (ColdPhase::Sending { stat }, SegmentReply::Sent(Some(last_offset))) => match job.segment {
            None => (next, committed(v, path, last_offset, Some(stat)), next.opening()),
            Some(_) => (
                run.waiting(ColdPhase::Measure { last_offset }),
                v,
                SegmentAction::Stat { file_path: path },
            ),
        },
        (ColdPhase::Measure { last_offset }, SegmentReply::Stat(Some(stat))) => {
            let size = stat.size;
            if stays_open(run, v, job) {
                (
                    next,
                    cleaned(
                        advanced(v, job.segment->0, path, "UNFINISHED"@, last_offset, now),
                        path,
                    ),
                    next.opening(),
                )
            } else {
                (
                    run.waiting(ColdPhase::Sealing { size, last_offset }),
                    v,
                    SegmentAction::Digest { file_path: path },
                )
            }
        },
        (ColdPhase::Measure { .. }, SegmentReply::Stat(None)) => (
            next,
            cleaned(v, path),
            next.opening(),
        ),
        (ColdPhase::Sealing { size, last_offset }, SegmentReply::Digest(digest)) => (
            run.waiting(ColdPhase::Signalling),
            cleaned(
                sealed(v, job.segment->0, path, size, digest_or_zeros(digest), last_offset, now),
                path,
            ),
            SegmentAction::SignalSeal { segment_seq: job.segment->0, sealed_size: size },
        ),
        _ => (next, v, next.opening()),
    }
}

/// Carries out a restart.
pub struct ColdRun {
    jobs: Vec<ColdJob<String>>,
    active: Option<u32>,
    at: usize,
    phase: ColdPhase,
}

impl View for ColdRun {
    type V = ColdView;

    closed spec fn view(&self) -> ColdView {
        ColdView {
            jobs: job_views(self.jobs@),
            active: self.active,
            at: self.at as nat,
            phase: self.phase,
        }
    }
}

impl ColdRun {
    /// Begins a restart: the planned segments are sent in order, then the other files.
    pub fn run_cold_start(plans: &Vec<SegmentPlan>, files: &Vec<String>, active: Option<u32>) -> (r: (
        Self,
        SegmentAction<String>,
    ))
        ensures
            r.0@.jobs == plan_jobs(plans@) + file_jobs(texts(files@)),
            r.0@.active == active,
            r.0@ == r.0@.at_job(0),
            r.0@.wf(),
            r.1@ == r.0@.opening(),
    {
        let mut jobs = planned_jobs(plans);
        let ghost first = job_views(jobs@);
        let n: usize = files.len();
        let mut i: usize = 0;
        assert(file_jobs(texts(files@)).take(0) =~= Seq::<ColdJob<Seq<char>>>::empty());
        assert(first + Seq::<ColdJob<Seq<char>>>::empty() =~= first);
        while i < n
            invariant
                i <= n,
                n == files@.len(),
                job_views(jobs@) == first + file_jobs(texts(files@)).take(i as int),
            decreases n - i,
        {
            let ghost before = job_views(jobs@);
            let job = ColdJob {
                file_path: files[i].clone(),
                start: JobStart::Recorded,
                segment: parse_segment_seq(&files[i]),
            };
            let ghost view = job@;
            jobs.push(job);
            proof {
                assert(job_views(jobs@) =~= before.push(view));
                assert(file_jobs(texts(files@))[i as int] == view);
                assert(file_jobs(texts(files@)).take(i + 1) =~= file_jobs(texts(files@)).take(
                    i as int,
                ).push(view));
                assert(first + file_jobs(texts(files@)).take(i + 1) =~= before.push(view));
            }
            i = i + 1;
        }
        assert(file_jobs(texts(files@)).take(n as int) =~= file_jobs(texts(files@)));
        let mut run = ColdRun { jobs, active, at: 0, phase: ColdPhase::Finished };
        let action = run.turn_to(0);
        (run, action)
    }

    /// Turns to a file.
    fn turn_to(&mut self, at: usize) -> (r: SegmentAction<String>)
        ensures
            final(self)@ == old(self)@.at_job(at as nat),
            final(self)@.wf(),
            r@ == final(self)@.opening(),
    {
        self.at = at;
        if at < self.jobs.len() {
            self.phase = ColdPhase::Check;
            let path: String = self.jobs[at].file_path.clone();
            assert(self@.jobs[at as int].file_path == path@);
            SegmentAction::Stat { file_path: path }
        } else {
            self.phase = ColdPhase::Finished;
            SegmentAction::Done
        }
    }

    /// Goes on after a reply.
    pub fn step(&mut self, ledger: &mut LocalLedger, reply: SegmentReply, now: i64) -> (r:
        SegmentAction<String>)
        requires
            old(self)@.wf(),
            old(self)@.expects(reply),
        ensures
            final(self)@.wf(),
            final(ledger).base() == old(ledger).base(),
            (final(self)@, final(ledger)@, r@) == cold_reaction(
                old(self)@,
                old(ledger)@,
                reply,
                now,
            ),
    {
        let at: usize = self.at;
        let count: usize = self.jobs.len();
        assert(self@.jobs.len() == count);
        assert(self@.jobs[at as int] == self.jobs@[at as int]@);
        let path: String = self.jobs[at].file_path.clone();
        let segment: Option<u32> = self.jobs[at].segment;
        match (&self.phase, reply) {
            (ColdPhase::Check, SegmentReply::Stat(Some(stat))) => {
                let start_offset: u64 = match (self.jobs[at].start, segment) {
                    (JobStart::At(offset), _) => offset,
                    (JobStart::Recorded, Some(seq)) => {
                        let (sent, _) = segment_position(ledger, seq);
                        if sent >= stat.size {
                            ledger.clear_dirty(&path);
                            return self.turn_to(at + 1);
                        }
                        sent
                    },
                    (JobStart::Recorded, None) => file_start(ledger, &path, Some(stat)),
                };
                self.phase = ColdPhase::Sending { stat };
                SegmentAction::Send { file_path: path, start_offset }
            },
            (ColdPhase::Check, SegmentReply::Stat(None)) => {
                ledger.clear_dirty(&path);
                self.turn_to(at + 1)
            },
            (ColdPhase::Sending { stat }, SegmentReply::Sent(Some(last_offset))) => match segment {
                None => {
                    let stat: FileStat = *stat;
                    ledger.commit_checkpoint(&path, last_offset, Some(stat));
                    self.turn_to(at + 1)
                },
                Some(_) => {
                    self.phase = ColdPhase::Measure { last_offset };
                    SegmentAction::Stat { file_path: path }
                },
            },
            (ColdPhase::Measure { last_offset }, SegmentReply::Stat(Some(stat))) => {
                let size: u64 = stat.size;
                let last_offset: u64 = *last_offset;
                let seq: u32 = match segment {
                    Some(s) => s,
                    None => {
                        assert(false);
                        0
                    },
                };
                let stays_open: bool = match self.jobs[at].start {
                    JobStart::At(_) => match self.active {
                        Some(a) => a == seq,
                        None => false,
                    },
                    JobStart::Recorded => !segment_position(ledger, seq).1,
                };
                if stays_open {
                    ledger.upsert_segment(seq, &path, "UNFINISHED", last_offset, now);
                    ledger.clear_dirty(&path);
                    self.turn_to(at + 1)
                } else {
                    self.phase = ColdPhase::Sealing { size, last_offset };
                    SegmentAction::Digest { file_path: path }
                }
            },
            (ColdPhase::Measure { .. }, SegmentReply::Stat(None)) => {
                ledger.clear_dirty(&path);
                self.turn_to(at + 1)
            },
            (ColdPhase::Sealing { size, last_offset }, SegmentReply::Digest(digest)) => {
                let size: u64 = *size;
                let last_offset: u64 = *last_offset;
                let seq: u32 = match segment {
                    Some(s) => s,
                    None => {
                        assert(false);
                        0
                    },
                };
                let hash: [u8; 32] = or_zeros(digest);
                ledger.seal_segment(seq, &path, size, &hash, last_offset, now);
                ledger.clear_dirty(&path);
                self.phase = ColdPhase::Signalling;
                SegmentAction::SignalSeal { segment_seq: seq, sealed_size: size }
            },
            _ => self.turn_to(at + 1),
        }
    }
}

/// The files that plans send, in order.
fn planned_jobs(plans: &Vec<SegmentPlan>) -> (r: Vec<ColdJob<String>>)
    ensures
        job_views(r@) == plan_jobs(plans@),
{
    let n: usize = plans.len();
    let mut jobs: Vec<ColdJob<String>> = Vec::new();
    let mut i: usize = 0;
    assert(job_views(jobs@) =~= Seq::<ColdJob<Seq<char>>>::empty());
    while i < n
        invariant
            i <= n,
            n == plans@.len(),
            job_views(jobs@) == plan_jobs(plans@.take(i as int)),
        decreases n - i,
    {
        let ghost before = job_views(jobs@);
        assert(plans@.take(i + 1).drop_last() =~= plans@.take(i as int));
        assert(plans@.take(i + 1).last() == plans@[i as int]);
        let (path, start_offset): (Option<&String>, u64) = match &plans[i] {
            SegmentPlan::FullSync { file_path } => (Some(file_path), 0),
            SegmentPlan::TailSync { file_path, start_offset } => (Some(file_path), *start_offset),
            SegmentPlan::Skip => (None, 0),
        };
        if let Some(path) = path {
            let seq: u32 = match parse_segment_seq(path) {
                Some(seq) => seq,
                None => 0,
            };
            let job = ColdJob {
                file_path: path.clone(),
                start: JobStart::At(start_offset),
                segment: Some(seq),
            };
            let ghost view = job@;
            jobs.push(job);
            assert(job_views(jobs@) =~= before.push(view));
        }
        i = i + 1;
    }
    assert(plans@.take(n as int) =~= plans@);
    jobs
}

/// The paths that plans send, in order.
fn list_planned(plans: &Vec<SegmentPlan>) -> (r: Vec<String>)
    ensures
        texts(r@) == planned_paths(plans@),
{
    let jobs = planned_jobs(plans);
    let ghost all = planned_paths(plans@);
    let n: usize = jobs.len();
    let mut r: Vec<String> = Vec::new();
    let mut i: usize = 0;
    assert(texts(r@) =~= all.take(0));
    while i < n
        invariant
            i <= n,
            n == jobs@.len(),
            job_views(jobs@) == plan_jobs(plans@),
            all == planned_paths(plans@),
            texts(r@) == all.take(i as int),
        decreases n - i,
    {
        let ghost before = texts(r@);
        r.push(jobs[i].file_path.clone());
        proof {
            assert(job_views(jobs@)[i as int] == jobs@[i as int]@);
            assert(all[i as int] == jobs@[i as int].file_path@);
            assert(texts(r@) =~= before.push(all[i as int]));
            assert(all.take(i + 1) =~= before.push(all[i as int]));
        }
        i = i + 1;
    }
    assert(job_views(jobs@).len() == n);
    assert(all.take(n as int) =~= all);
    r
}

/// The ledger without the checkpoints of a list of files.
pub open spec fn without_files(v: LedgerView, files: Seq<Seq<char>>) -> LedgerView
    decreases files.len(),
{
    if files.len() == 0 {
        v
    } else {
        dropped(without_files(v, files.drop_last()), files.last())
    }
}

/// Forgets the checkpoints of files that are gone.
pub fn forget_deleted(ledger: &mut LocalLedger, deleted: &Vec<String>)
    ensures
        final(ledger).base() == old(ledger).base(),
        final(ledger)@ == without_files(old(ledger)@, texts(deleted@)),
{
    let ghost all = texts(deleted@);
    let n: usize = deleted.len();
    let mut i: usize = 0;
    while i < n
        invariant
            i <= n,
            n == deleted@.len(),
            all == texts(deleted@),
            ledger.base() == old(ledger).base(),
            ledger@ == without_files(old(ledger)@, all.take(i as int)),
        decreases n - i,
    {
        assert(all.take(i + 1).drop_last() =~= all.take(i as int));
        assert(all.take(i + 1).last() == deleted@[i as int]@);
        ledger.delete_checkpoint(&deleted[i]);
        i = i + 1;
    }
    assert(all.take(n as int) =~= all);
}

/// A file of which the checkpoint was forgotten has none, and every other checkpoint stays.
pub proof fn law_deleted_are_forgotten(v: LedgerView, files: Seq<Seq<char>>, path: Seq<char>)
    ensures
        ({
            let after = without_files(v, files);
            &&& after.checkpoints.contains_key(path) == (v.checkpoints.contains_key(path)
                && !files.contains(path))
            &&& after.checkpoints.contains_key(path) ==> after.checkpoints[path]
                == v.checkpoints[path]
            &&& after.segments == v.segments
        }),
    decreases files.len(),
{
    if files.len() > 0 {
        let front = files.drop_last();
        law_deleted_are_forgotten(v, front, path);
        if front.contains(path) {
            let i = choose|i: int| 0 <= i < front.len() && front[i] == path;
            assert(files[i] == path);
        }
        if files.contains(path) && files.last() != path {
            let i = choose|i: int| 0 <= i < files.len() && files[i] == path;
            assert(front[i] == path);
        }
        if files.last() == path {
            assert(files[files.len() - 1] == path);
        }
    }
}

/// Every step of a restart is a step forward: the file in work is followed by the next one, or more
/// is asked for of it, at most five times.
pub proof fn law_restart_ends(run: ColdView, v: LedgerView, reply: SegmentReply, now: i64)
    requires
        run.wf(),
        run.expects(reply),
    ensures
        ({
            let after = cold_reaction(run, v, reply, now).0;
            steps_left(after) < steps_left(run)
        }),
        run.phase is Finished <==> steps_left(run) == 0,
{
}

/// A bound on the number of replies that a restart still waits for.
pub open spec fn steps_left(run: ColdView) -> int {
    let whole = 5 * (run.jobs.len() - run.at);
    match run.phase {
        ColdPhase::Check => whole,
        ColdPhase::Sending { .. } => whole - 1,
        ColdPhase::Measure { .. } => whole - 2,
        ColdPhase::Sealing { .. } => whole - 3,
        ColdPhase::Signalling => whole - 4,
        ColdPhase::Finished => 0,
    }
}

/// A restart seals every segment that it sends but those that stay open, of the planned ones the
/// active one, and signals what it seals.
pub proof fn law_restart_seals(run: ColdView, v: LedgerView, reply: SegmentReply, now: i64)
    requires
        run.wf(),
        run.expects(reply),
    ensures
        ({
            let (after, ledger, action) = cold_reaction(run, v, reply, now);
            &&& action matches SegmentAction::SignalSeal { segment_seq, .. } ==> is_sealed(
                ledger.segments,
                segment_seq,
            ) && run.jobs[run.at as int].segment == Some(segment_seq)
            &&& run.phase is Measure && reply->Stat_0 is Some ==> (action is Digest
                == !stays_open(run, v, run.jobs[run.at as int]))
            &&& run.jobs[run.at as int].start is At ==> (stays_open(
                run,
                v,
                run.jobs[run.at as int],
            ) == (run.jobs[run.at as int].segment == run.active))
        }),
{
}

/// A restart after a list of replies, each with the time at which it came.
pub open spec fn restarted(run: ColdView, v: LedgerView, replies: Seq<(SegmentReply, i64)>) -> (
    ColdView,
    LedgerView,
)
    decreases replies.len(),
{
    if replies.len() == 0 {
        (run, v)
    } else {
        let (now, held) = restarted(run, v, replies.drop_last());
        let (after, ledger, action) = cold_reaction(now, held, replies.last().0, replies.last().1);
        (after, ledger)
    }
}

/// Each reply is of the kind that is waited for when it comes.
pub open spec fn are_expected(
    run: ColdView,
    v: LedgerView,
    replies: Seq<(SegmentReply, i64)>,
) -> bool {
    forall|i: int|
        0 <= i < replies.len() ==> restarted(run, v, replies.take(i)).0.expects(
            (#[trigger] replies[i]).0,
        )
}

/// No sending failed.
pub open spec fn all_sent(replies: Seq<(SegmentReply, i64)>) -> bool {
    forall|i: int|
        0 <= i < replies.len() ==> ((#[trigger] replies[i]).0 matches SegmentReply::Sent(sent)
            ==> sent is Some)
}

/// A file that is still dirty still has its turn, or has it to come.
pub open spec fn has_turn(run: ColdView, v: LedgerView, path: Seq<char>, k: int) -> bool {
    v.dirty.contains_key(path) ==> run.at <= k && !(run.phase is Finished)
}

/// A step without a failed sending passes no dirty file over.
proof fn lemma_step_cleans(
    run: ColdView,
    v: LedgerView,
    reply: SegmentReply,
    now: i64,
    path: Seq<char>,
    k: int,
)
    requires
        run.wf(),
        run.expects(reply),
        reply matches SegmentReply::Sent(sent) ==> sent is Some,
        0 <= k < run.jobs.len(),
        run.jobs[k].file_path == path,
        has_turn(run, v, path, k),
        run.phase is Signalling ==> !v.dirty.contains_key(run.jobs[run.at as int].file_path),
    ensures
        ({
            let (after, ledger, action) = cold_reaction(run, v, reply, now);
            &&& after.wf()
            &&& after.jobs == run.jobs
            &&& has_turn(after, ledger, path, k)
            &&& after.phase is Signalling ==> !ledger.dirty.contains_key(
                after.jobs[after.at as int].file_path,
            )
        }),
{
}

/// A file of the list is dealt with when its turn was there.
proof fn lemma_restart_cleans(
    run: ColdView,
    v: LedgerView,
    replies: Seq<(SegmentReply, i64)>,
    path: Seq<char>,
    k: int,
)
    requires
        run == run.at_job(0),
        0 <= k < run.jobs.len(),
        run.jobs[k].file_path == path,
        are_expected(run, v, replies),
        all_sent(replies),
    ensures
        ({
            let (after, ledger) = restarted(run, v, replies);
            &&& after.wf()
            &&& after.jobs == run.jobs
            &&& has_turn(after, ledger, path, k)
            &&& after.phase is Signalling ==> !ledger.dirty.contains_key(
                after.jobs[after.at as int].file_path,
            )
        }),
    decreases replies.len(),
{
    if replies.len() > 0 {
        let front = replies.drop_last();
        let n = replies.len() - 1;
        lemma_front(run, v, replies);
        lemma_restart_cleans(run, v, front, path, k);
        let (now, held) = restarted(run, v, front);
        assert(replies[n].0 matches SegmentReply::Sent(sent) ==> sent is Some);
        lemma_step_cleans(now, held, replies[n].0, replies[n].1, path, k);
    }
}

/// What holds of all replies holds of all but the last.
proof fn lemma_front(run: ColdView, v: LedgerView, replies: Seq<(SegmentReply, i64)>)
    requires
        replies.len() > 0,
        are_expected(run, v, replies),
        all_sent(replies),
    ensures
        are_expected(run, v, replies.drop_last()),
        all_sent(replies.drop_last()),
        restarted(run, v, replies.drop_last()).0.expects(replies.last().0),
{
    let front = replies.drop_last();
    let n = replies.len() - 1;
    assert(replies.take(n) =~= front);
    assert(restarted(run, v, replies.take(n)).0.expects(replies[n].0));
    assert forall|i: int| 0 <= i < front.len() implies restarted(run, v, front.take(i)).0.expects(
        (#[trigger] front[i]).0,
    ) by {
        assert(replies.take(i) =~= front.take(i));
        assert(restarted(run, v, replies.take(i)).0.expects(replies[i].0));
    }
    assert forall|i: int| 0 <= i < front.len() implies ((#[trigger] front[i]).0 matches
        SegmentReply::Sent(sent) ==> sent is Some) by {
        assert(replies[i].0 matches SegmentReply::Sent(sent) ==> sent is Some);
    }
}

/// After a restart in which no sending failed, no file is dirty.
pub proof fn law_restart_leaves_nothing_dirty(
    plans: Seq<SegmentPlan>,
    dirty: Seq<Seq<char>>,
    changed: Seq<Seq<char>>,
    run: ColdView,
    v: LedgerView,
    replies: Seq<(SegmentReply, i64)>,
    path: Seq<char>,
)
    requires
        lists_dirty(dirty, v.dirty),
        run.jobs == plan_jobs(plans) + file_jobs(
            files_to_send(planned_paths(plans), dirty, changed),
        ),
        run == run.at_job(0),
        are_expected(run, v, replies),
        restarted(run, v, replies).0.phase is Finished,
        all_sent(replies),
    ensures
        !restarted(run, v, replies).1.dirty.contains_key(path),
{
    let first = plan_jobs(plans);
    let planned = planned_paths(plans);
    let files = files_to_send(planned, dirty, changed);
    if v.dirty.contains_key(path) {
        assert(dirty.contains(path));
        law_dirty_and_changed_are_sent(planned, dirty, changed, path);
        if planned.contains(path) {
            let k = choose|k: int| 0 <= k < planned.len() && planned[k] == path;
            assert(run.jobs[k] == first[k]);
            lemma_restart_cleans(run, v, replies, path, k);
        } else {
            let i = choose|i: int| 0 <= i < files.len() && files[i] == path;
            let k = first.len() + i;
            assert(run.jobs[k] == file_jobs(files)[i]);
            lemma_restart_cleans(run, v, replies, path, k);
        }
    } else {
        lemma_restart_marks_nothing(run, v, replies, path);
    }
}

/// A restart marks no file dirty.
proof fn lemma_restart_marks_nothing(
    run: ColdView,
    v: LedgerView,
    replies: Seq<(SegmentReply, i64)>,
    path: Seq<char>,
)
    ensures
        restarted(run, v, replies).1.dirty.contains_key(path) ==> v.dirty.contains_key(path),
    decreases replies.len(),
{
    if replies.len() > 0 {
        lemma_restart_marks_nothing(run, v, replies.drop_last(), path);
    }
}

/// A file that was sent up to an offset and grew in place before the restart is sent from that
/// offset on.
pub proof fn law_restart_continues_files(
    run: ColdView,
    v: LedgerView,
    before: FileStat,
    offset: u64,
    after: FileStat,
    now: i64,
)
    requires
        run.wf(),
        run.phase is Check,
        run.jobs[run.at as int].segment is None,
        run.jobs[run.at as int].start is Recorded,
        ({
            let path = run.jobs[run.at as int].file_path;
            &&& v.checkpoints.contains_key(path)
            &&& v.checkpoints[path] == committed_row(offset, Some(before))
        }),
        before.dev <= i64::MAX,
        before.ino <= i64::MAX,
        offset <= i64::MAX,
        after.dev == before.dev,
        after.ino == before.ino,
        after.size > offset,
    ensures
        cold_reaction(run, v, SegmentReply::Stat(Some(after)), now).2 == (SegmentAction::Send {
            file_path: run.jobs[run.at as int].file_path,
            start_offset: offset,
        }),
{
}

/// A file stays dirty in a restart as long as something of it is to be sent or recorded, and if it
/// could not be sent; no step touches the mark of another file. The mark of a file that is no
/// segment goes with the recording of its checkpoint.
pub proof fn law_restart_keeps_marks(
    run: ColdView,
    v: LedgerView,
    reply: SegmentReply,
    now: i64,
    path: Seq<char>,
)
    requires
        run.wf(),
        run.expects(reply),
        v.dirty.contains_key(path),
    ensures
        ({
            let job = run.jobs[run.at as int];
            let (next, after, action) = cold_reaction(run, v, reply, now);
            &&& path != job.file_path ==> after.dirty.contains_key(path) && after.dirty[path]
                == v.dirty[path]
            &&& reply is Sent && reply->Sent_0 is None ==> after == v
            &&& action is Send || action is Digest ==> after == v
            &&& run.phase is Sending && job.segment is None && reply->Sent_0 is Some ==> {
                &&& !after.dirty.contains_key(job.file_path)
                &&& after.checkpoints.contains_key(job.file_path)
                &&& after.checkpoints[job.file_path] == committed_row(
                    reply->Sent_0->0,
                    Some(run.phase->stat),
                )
            }
        }),
{
}

/// A file with a planned start is sent from exactly there, whatever its size is and whatever the
/// ledger says.
pub proof fn law_planned_start_is_kept(
    run: ColdView,
    v: LedgerView,
    stat: FileStat,
    now: i64,
    offset: u64,
)
    requires
        run.wf(),
        run.phase is Check,
        run.jobs[run.at as int].start == JobStart::At(offset),
    ensures
        ({
            let (after, ledger, action) = cold_reaction(
                run,
                v,
                SegmentReply::Stat(Some(stat)),
                now,
            );
            &&& action == (SegmentAction::Send {
                file_path: run.jobs[run.at as int].file_path,
                start_offset: offset,
            })
            &&& ledger == v
        }),
{
}

/// Every plan that sends something has its place among the files to send, with its path and its
/// start: the offset of a tail, the first byte of a whole segment.
pub proof fn law_plans_become_jobs(plans: Seq<SegmentPlan>, i: int) -> (j: int)
    requires
        0 <= i < plans.len(),
        !(plans[i] is Skip),
    ensures
        0 <= j < plan_jobs(plans).len(),
        plans[i] matches SegmentPlan::TailSync { file_path, start_offset } ==> plan_jobs(
            plans,
        )[j].file_path == file_path@ && plan_jobs(plans)[j].start == JobStart::At(start_offset) && (
        segment_seq(file_path@) is Some ==> plan_jobs(plans)[j].segment == segment_seq(file_path@)),
        plans[i] matches SegmentPlan::FullSync { file_path } ==> plan_jobs(plans)[j].file_path
            == file_path@ && plan_jobs(plans)[j].start == JobStart::At(0) && (segment_seq(
            file_path@,
        ) is Some ==> plan_jobs(plans)[j].segment == segment_seq(file_path@)),
    decreases plans.len(),
{
    let front = plans.drop_last();
    if i == plans.len() - 1 {
        plan_jobs(plans).len() - 1
    } else {
        assert(front[i] == plans[i]);
        let j = law_plans_become_jobs(front, i);
        assert(plan_jobs(plans)[j] == plan_jobs(front)[j]);
        j
    }
}

/// Nothing is sent as planned that no plan asks for: each such file comes from a plan, and there are
/// as many as there are plans that are not skipped.
pub proof fn law_jobs_come_from_plans(plans: Seq<SegmentPlan>, j: int) -> (i: int)
    requires
        0 <= j < plan_jobs(plans).len(),
    ensures
        0 <= i < plans.len(),
        match plans[i] {
            SegmentPlan::FullSync { file_path } => plan_jobs(plans)[j].file_path == file_path@
                && plan_jobs(plans)[j].start == JobStart::At(0),
            SegmentPlan::TailSync { file_path, start_offset } => plan_jobs(plans)[j].file_path
                == file_path@ && plan_jobs(plans)[j].start == JobStart::At(start_offset),
            SegmentPlan::Skip => false,
        },
        plan_jobs(plans).len() == plans.filter(|p: SegmentPlan| !(p is Skip)).len(),
    decreases plans.len(),
{
    let front = plans.drop_last();
    lemma_count_jobs(plans);
    if plan_job(plans.last()) is Some && j == plan_jobs(plans).len() - 1 {
        plans.len() - 1
    } else {
        let i = law_jobs_come_from_plans(front, j);
        assert(plan_jobs(plans)[j] == plan_jobs(front)[j]);
        assert(front[i] == plans[i]);
        i
    }
}

proof fn lemma_count_jobs(plans: Seq<SegmentPlan>)
    ensures
        plan_jobs(plans).len() == plans.filter(|p: SegmentPlan| !(p is Skip)).len(),
    decreases plans.len(),
{
    reveal(Seq::filter);
    if plans.len() > 0 {
        lemma_count_jobs(plans.drop_last());
    }
}

/// The files besides the planned segments go by what is recorded of them, each as the segment that
/// its path names, in the order of their list.
pub proof fn law_other_files_become_jobs(files: Seq<Seq<char>>, i: int)
    requires
        0 <= i < files.len(),
    ensures
        file_jobs(files).len() == files.len(),
        file_jobs(files)[i].file_path == files[i],
        file_jobs(files)[i].start is Recorded,
        file_jobs(files)[i].segment == segment_seq(files[i]),
{
}

/// When the work on a file is done the next one has its turn: the system is asked for it, or, behind
/// the last one, nothing is left.
pub open spec fn moves_on(
    run: ColdView,
    after: ColdView,
    action: SegmentAction<Seq<char>>,
) -> bool {
    &&& after.jobs == run.jobs
    &&& after.active == run.active
    &&& after.at == run.at + 1
    &&& run.at + 1 < run.jobs.len() ==> after.phase is Check && action == (SegmentAction::Stat {
        file_path: run.jobs[(run.at + 1) as int].file_path,
    })
    &&& run.at + 1 >= run.jobs.len() ==> after.phase is Finished && action is Done
}

/// A planned segment that is there is sent, then measured. If it is the active one it is recorded
/// as unfinished and sent up to where the sending ended; else it is sealed with the size measured,
/// the digest and where the sending ended, and signalled with that size. Then the next file has its
/// turn.
pub proof fn law_planned_segment_is_recorded(
    run: ColdView,
    v: LedgerView,
    seq: u32,
    offset: u64,
    before: FileStat,
    sent: u64,
    stat: FileStat,
    digest: [u8; 32],
    t1: i64,
    t2: i64,
)
    requires
        run.wf(),
        run.phase is Check,
        run.jobs[run.at as int].start == JobStart::At(offset),
        run.jobs[run.at as int].segment == Some(seq),
        sent <= i64::MAX,
        stat.size <= i64::MAX,
    ensures
        ({
            let path = run.jobs[run.at as int].file_path;
            let first = cold_reaction(run, v, SegmentReply::Stat(Some(before)), t1);
            let second = cold_reaction(first.0, first.1, SegmentReply::Sent(Some(sent)), t1);
            let third = cold_reaction(second.0, second.1, SegmentReply::Stat(Some(stat)), t1);
            let fourth = cold_reaction(third.0, third.1, SegmentReply::Digest(Some(digest)), t2);
            let fifth = cold_reaction(fourth.0, fourth.1, SegmentReply::Signalled, t2);
            &&& first.1 == v
            &&& second.1 == v && second.2 == (SegmentAction::Stat { file_path: path })
            &&& run.active == Some(seq) ==> {
                &&& third.1.segments.contains_key(seq)
                &&& third.1.segments[seq].state == "UNFINISHED"@
                &&& third.1.segments[seq].file_path == path
                &&& third.1.segments[seq].synced_offset == sent
                &&& third.1.segments[seq].updated_at == t1
                &&& moves_on(run, third.0, third.2)
            }
            &&& run.active != Some(seq) ==> {
                &&& third.1 == v && third.2 == (SegmentAction::Digest { file_path: path })
                &&& fourth.1.segments.contains_key(seq)
                &&& records_sealed(
                    fourth.1.segments[seq],
                    path,
                    stat.size as int,
                    digest@,
                    sent as int,
                    t2,
                )
                &&& signals(fourth.2, seq, stat.size)
                &&& fifth.1 == fourth.1
                &&& moves_on(run, fifth.0, fifth.2)
            }
        }),
{
}

/// A segment that was left dirty and is not planned is continued where its row says, from the start
/// if there is none. If all of it was sent, the next file has its turn at once. Else it is sent, and
/// recorded as sent up to where the sending ended: as unfinished, or, if it was sealed, as sealed
/// anew.
pub proof fn law_dirty_segment_is_continued(
    run: ColdView,
    v: LedgerView,
    seq: u32,
    before: FileStat,
    sent: u64,
    stat: FileStat,
    digest: [u8; 32],
    t1: i64,
    t2: i64,
)
    requires
        run.wf(),
        run.phase is Check,
        run.jobs[run.at as int].start is Recorded,
        run.jobs[run.at as int].segment == Some(seq),
        sent <= i64::MAX,
        stat.size <= i64::MAX,
    ensures
        ({
            let path = run.jobs[run.at as int].file_path;
            let start = if v.segments.contains_key(seq) && v.segments[seq].synced_offset > 0 {
                v.segments[seq].synced_offset as int
            } else {
                0
            };
            let was_sealed = v.segments.contains_key(seq) && v.segments[seq].state == "SEALED"@;
            let first = cold_reaction(run, v, SegmentReply::Stat(Some(before)), t1);
            let second = cold_reaction(first.0, first.1, SegmentReply::Sent(Some(sent)), t1);
            let third = cold_reaction(second.0, second.1, SegmentReply::Stat(Some(stat)), t1);
            let fourth = cold_reaction(third.0, third.1, SegmentReply::Digest(Some(digest)), t2);
            &&& before.size <= start ==> first.1.segments == v.segments && moves_on(
                run,
                first.0,
                first.2,
            )
            &&& before.size > start ==> first.1 == v && second.1 == v && first.2 == (
            SegmentAction::Send { file_path: path, start_offset: start as u64 })
            &&& before.size > start && !was_sealed ==> {
                &&& third.1.segments.contains_key(seq)
                &&& third.1.segments[seq].state == "UNFINISHED"@
                &&& third.1.segments[seq].file_path == path
                &&& third.1.segments[seq].synced_offset == sent
                &&& moves_on(run, third.0, third.2)
            }
            &&& before.size > start && was_sealed ==> {
                &&& third.1 == v && third.2 == (SegmentAction::Digest { file_path: path })
                &&& fourth.1.segments.contains_key(seq)
                &&& records_sealed(
                    fourth.1.segments[seq],
                    path,
                    stat.size as int,
                    digest@,
                    sent as int,
                    t2,
                )
                &&& signals(fourth.2, seq, stat.size)
            }
        }),
{
}

/// A file that is no segment is sent from where it was left if it is still the file of its
/// checkpoint and has grown, else from the start; once it was sent its checkpoint says how far, and
/// which file it was then. Then the next file has its turn.
pub proof fn law_file_is_recorded(
    run: ColdView,
    v: LedgerView,
    stat: FileStat,
    sent: u64,
    now: i64,
)
    requires
        run.wf(),
        run.phase is Check,
        run.jobs[run.at as int].start is Recorded,
        run.jobs[run.at as int].segment is None,
        stat.dev <= i64::MAX,
        stat.ino <= i64::MAX,
        sent <= i64::MAX,
    ensures
        ({
            let path = run.jobs[run.at as int].file_path;
            let first = cold_reaction(run, v, SegmentReply::Stat(Some(stat)), now);
            let second = cold_reaction(first.0, first.1, SegmentReply::Sent(Some(sent)), now);
            let row = v.checkpoints[path];
            let grown = v.checkpoints.contains_key(path) && row.st_dev == stat.dev && row.st_ino
                == stat.ino && row.last_verified_offset < stat.size;
            &&& first.1 == v
            &&& v.checkpoints.contains_key(path) ==> row.last_verified_offset >= 0 ==> first.2 == (
            SegmentAction::Send {
                file_path: path,
                start_offset: if grown {
                    row.last_verified_offset as u64
                } else {
                    0
                },
            })
            &&& !v.checkpoints.contains_key(path) ==> first.2 == (SegmentAction::Send {
                file_path: path,
                start_offset: 0,
            })
            &&& second.1.checkpoints.contains_key(path)
            &&& second.1.checkpoints[path].last_verified_offset == sent
            &&& second.1.checkpoints[path].last_mtime_ns == stat.mtime_ns
            &&& second.1.checkpoints[path].st_dev == stat.dev
            &&& second.1.checkpoints[path].st_ino == stat.ino
            &&& second.1.checkpoints[path].status == "IN_SYNC"@
            &&& moves_on(run, second.0, second.2)
        }),
{
}

/// A file that is gone, or that could not be sent, is passed over, and nothing is recorded of it; no
/// step touches the record of another file or segment, the watched directories or the scan.
pub proof fn law_passed_over_files_are_not_recorded(
    run: ColdView,
    v: LedgerView,
    reply: SegmentReply,
    now: i64,
    path: Seq<char>,
    seq: u32,
)
    requires
        run.wf(),
        run.expects(reply),
    ensures
        ({
            let job = run.jobs[run.at as int];
            let (after, ledger, action) = cold_reaction(run, v, reply, now);
            let missed = match reply {
                SegmentReply::Stat(found) => found is None,
                SegmentReply::Sent(sent) => sent is None,
                _ => false,
            };
            &&& missed ==> ledger.segments == v.segments && ledger.checkpoints == v.checkpoints
                && moves_on(run, after, action)
            &&& path != job.file_path ==> {
                &&& ledger.checkpoints.contains_key(path) == v.checkpoints.contains_key(path)
                &&& ledger.checkpoints[path] == v.checkpoints[path]
            }
            &&& job.segment != Some(seq) ==> {
                &&& ledger.segments.contains_key(seq) == v.segments.contains_key(seq)
                &&& ledger.segments[seq] == v.segments[seq]
            }
            &&& ledger.watched == v.watched
            &&& ledger.scan == v.scan
        }),
{
}

/// The restart begins with its first file, if it has one.
pub proof fn law_restart_begins(run: ColdView)
    requires
        run == run.at_job(0),
    ensures
        run.at == 0,
        run.jobs.len() > 0 ==> run.phase is Check && run.opening() == (SegmentAction::Stat {
            file_path: run.jobs[0].file_path,
        }),
        run.jobs.len() == 0 ==> run.phase is Finished && run.opening() is Done,
{
}

/// The changed files of a restart are those of both lists that name no segment, in their order; the
/// files that it takes up are the dirty ones that are not planned and the changed ones that are not
/// dirty, in their order.
pub proof fn law_lists_are_filtered(
    list: Seq<Seq<char>>,
    others: Seq<Seq<char>>,
)
    ensures
        no_segments(list) == list.filter(|p: Seq<char>| segment_seq(p) is None),
        not_among(list, others) == list.filter(|p: Seq<char>| !others.contains(p)),
    decreases list.len(),
{
    reveal(Seq::filter);
    if list.len() > 0 {
        law_lists_are_filtered(list.drop_last(), others);
    } else {
        assert(no_segments(list) =~= list.filter(|p: Seq<char>| segment_seq(p) is None));
        assert(not_among(list, others) =~= list.filter(|p: Seq<char>| !others.contains(p)));
    }
}

/// A segment keeps its row exactly if a scanned file bears its number.
pub proof fn law_missing_segments_are_forgotten(
    segments: Map<u32, SegmentRow>,
    scan: Seq<ScanItem>,
    seq: u32,
)
    ensures
        only_present(segments, scan).contains_key(seq) <==> segments.contains_key(seq) && exists|
            i: int,
        |
            0 <= i < scan.len() && segment_seq((#[trigger] scan[i]).file_path@) == Some(seq),
        only_present(segments, scan).contains_key(seq) ==> only_present(segments, scan)[seq]
            == segments[seq],
{
    if is_present(scan, seq) {
        let i = choose|i: int| 0 <= i < scan.len() && #[trigger] item_seq(scan, i) == Some(seq);
        assert(segment_seq(scan[i].file_path@) == Some(seq));
    }
    if exists|i: int|
        0 <= i < scan.len() && segment_seq((#[trigger] scan[i]).file_path@) == Some(seq) {
        let i = choose|i: int|
            0 <= i < scan.len() && segment_seq((#[trigger] scan[i]).file_path@) == Some(seq);
        assert(item_seq(scan, i) == Some(seq));
    }
}

/// Forgetting deleted files touches nothing but checkpoints.
pub proof fn law_deleting_touches_checkpoints_alone(v: LedgerView, files: Seq<Seq<char>>)
    ensures
        without_files(v, files).segments == v.segments,
        without_files(v, files).dirty == v.dirty,
        without_files(v, files).watched == v.watched,
        without_files(v, files).scan == v.scan,
    decreases files.len(),
{
    if files.len() > 0 {
        law_deleting_touches_checkpoints_alone(v, files.drop_last());
    }
}

/// A file that is gone is no longer dirty, whether it was gone from the start or went while it was
/// sent; one that could not be sent stays as dirty as it was, and so does every other file.
pub proof fn law_marks_of_a_restart(
    run: ColdView,
    v: LedgerView,
    reply: SegmentReply,
    now: i64,
    other: Seq<char>,
)
    requires
        run.wf(),
        run.expects(reply),
    ensures
        ({
            let path = run.jobs[run.at as int].file_path;
            let ledger = cold_reaction(run, v, reply, now).1;
            &&& reply == SegmentReply::Stat(None) ==> !ledger.dirty.contains_key(path)
            &&& reply == SegmentReply::Sent(None) || reply is Signalled ==> ledger.dirty == v.dirty
            &&& other != path ==> {
                &&& ledger.dirty.contains_key(other) == v.dirty.contains_key(other)
                &&& ledger.dirty[other] == v.dirty[other]
            }
            &&& ledger.dirty.contains_key(path) ==> v.dirty.contains_key(path)
                && ledger.dirty[path] == v.dirty[path]
        }),
{
}

} // verus!
