//! What an event that counts sets off: its file is marked dirty, then, after a wait, it is looked
//! at, sent from where its checkpoint says, and recorded. The work outside is asked for step by
//! step.

use vstd::prelude::*;

use crate::ledger::FileStat;
use crate::ledger::LocalLedger;
use crate::platform::tracker::FileChangeEvent;
use crate::tracker::file_start;
use crate::tracker::route_event;
use crate::tracker::TrackAction;
use crate::tracker::WatchRun;

verus! {

use crate::bus::law_file_is_sent_whole;
use crate::bus::FileJob;
use crate::config::excluded;
use crate::ledger::cleaned;
use crate::ledger::committed;
use crate::ledger::committed_row;
use crate::ledger::dirtied;
use crate::ledger::dropped;
use crate::ledger::forgotten;
use crate::ledger::position_of;
use crate::ledger::LedgerView;
use crate::numbers::signed64;
use crate::platform::tracker::FileChangeKind;
use crate::segment::segment_seq;
use crate::slicer::sliced;
use crate::slicer::Piece;
use crate::tracker::action_of;
use crate::tracker::after_event;
use crate::tracker::audited;
use crate::tracker::counts;
use crate::tracker::is_recent;
use crate::tracker::start_of;
use crate::tracker::WatchView;

/// A file is taken up at the latest this long after it became dirty, in nanoseconds.
pub const HARD_DELAY_NS: i64 = 500_000_000;

/// What is asked for next.
pub enum FileAction<P> {
    /// Let this time go by, in nanoseconds.
    Wait { for_ns: u64 },
    /// What the system says of a file.
    Stat { file_path: P },
    /// Send a file from an offset on.
    Send { file_path: P, start_offset: u64 },
    /// Handle the change of a segment.
    Segment { file_path: P, seq: u32, created: bool },
    /// Nothing is left to do.
    Done,
}

/// What came of what was asked for.
#[derive(Clone, Copy, Debug)]
pub enum FileReply {
    /// The time went by.
    Waited,
    /// What the system says of the file; none where it is gone or unreadable.
    Stat(Option<FileStat>),
    /// How far the file was sent; none if sending failed.
    Sent(Option<u64>),
}

/// What is waited for.
#[derive(Clone, Copy, Debug)]
pub enum FilePhase {
    /// The end of the delay.
    Waiting,
    /// What the system says of the file.
    Looking,
    /// The file to be sent.
    Sending { stat: Option<FileStat> },
    /// Nothing.
    Finished,
}

impl View for FileAction<String> {
    type V = FileAction<Seq<char>>;

    open spec fn view(&self) -> FileAction<Seq<char>> {
        match *self {
            FileAction::Wait { for_ns } => FileAction::Wait { for_ns },
            FileAction::Stat { file_path } => FileAction::Stat { file_path: file_path@ },
            FileAction::Send { file_path, start_offset } => FileAction::Send {
                file_path: file_path@,
                start_offset,
            },
            FileAction::Segment { file_path, seq, created } => FileAction::Segment {
                file_path: file_path@,
                seq,
                created,
            },
            FileAction::Done => FileAction::Done,
        }
    }
}

/// A changed file, what its change asks for, and what is waited for.
pub struct FileRunView {
    pub file_path: Seq<char>,
    pub target: TrackAction,
    pub phase: FilePhase,
}

impl FileRunView {
    /// The reply is of the kind that is waited for.
    pub open spec fn expects(self, reply: FileReply) -> bool {
        match self.phase {
            FilePhase::Waiting => reply is Waited,
            FilePhase::Looking => reply is Stat,
            FilePhase::Sending { .. } => reply is Sent,
            FilePhase::Finished => false,
        }
    }
}

/// What is left of the longest delay of a file that became dirty at some time.
pub open spec fn delay_left(first_dirty_at: i64, now: i64) -> int {
    let left = first_dirty_at + HARD_DELAY_NS - now;
    if left < 0 {
        0
    } else if left > HARD_DELAY_NS {
        HARD_DELAY_NS as int
    } else {
        left
    }
}

/// How long a changed file is left alone: for the debounce time, but not beyond the longest delay
/// after it became dirty.
pub open spec fn delay_of(debounce_ms: u64, first_dirty_at: i64, now: i64) -> int {
    let debounce = debounce_ms * 1_000_000;
    if debounce < delay_left(first_dirty_at, now) {
        debounce
    } else {
        delay_left(first_dirty_at, now)
    }
}

/// How long a changed file is left alone, in nanoseconds.
pub fn delay_ns(debounce_ms: u64, first_dirty_at: i64, now: i64) -> (r: u64)
    ensures
        r == delay_of(debounce_ms, first_dirty_at, now),
{
    let debounce: i128 = debounce_ms as i128 * 1_000_000i128;
    let left: i128 = first_dirty_at as i128 + HARD_DELAY_NS as i128 - now as i128;
    let most: i128 = if left < 0 {
        0
    } else if left > HARD_DELAY_NS as i128 {
        HARD_DELAY_NS as i128
    } else {
        left
    };
    if debounce < most {
        debounce as u64
    } else {
        most as u64
    }
}

/// A file is never left alone beyond the longest delay after it became dirty, however often it
/// changes and however long the debounce time is. Within that it is left alone for the debounce
/// time.
pub proof fn law_hard_delay(debounce_ms: u64, first_dirty_at: i64, now: i64)
    requires
        first_dirty_at <= now,
    ensures
        now >= first_dirty_at + HARD_DELAY_NS ==> delay_of(debounce_ms, first_dirty_at, now) == 0,
        now < first_dirty_at + HARD_DELAY_NS ==> now + delay_of(debounce_ms, first_dirty_at, now)
            <= first_dirty_at + HARD_DELAY_NS,
        now + debounce_ms * 1_000_000 <= first_dirty_at + HARD_DELAY_NS ==> delay_of(
            debounce_ms,
            first_dirty_at,
            now,
        ) == debounce_ms * 1_000_000,
{
}

/// The first thing that an event asks for, given the ledger in which its file is dirty.
pub open spec fn first_wait(
    marked: LedgerView,
    path: Seq<char>,
    debounce_ms: u64,
    now: i64,
) -> FileAction<Seq<char>> {
    FileAction::Wait { for_ns: delay_of(debounce_ms, marked.dirty[path].0, now) as u64 }
}

/// The handling of an event at its beginning: the delay has to go by.
pub open spec fn began(event: FileChangeEvent) -> FileRunView {
    FileRunView {
        file_path: event.file_path@,
        target: action_of(event),
        phase: FilePhase::Waiting,
    }
}

/// What follows a reply: the handling, the watch, the ledger, and what is asked for.
pub open spec fn file_reaction(
    run: FileRunView,
    w: WatchView,
    v: LedgerView,
    reply: FileReply,
    now_ns: u64,
) -> (FileRunView, WatchView, LedgerView, FileAction<Seq<char>>) {
    let path = run.file_path;
    let finished = FileRunView { phase: FilePhase::Finished, ..run };
    match (run.phase, reply) {
        (FilePhase::Waiting, FileReply::Waited) => {
            let settled = WatchView { seen: w.seen.insert(path, now_ns), ..w };
            match run.target {
                TrackAction::ForgetSegment(seq) => (
                    finished,
                    settled,
                    cleaned(forgotten(v, seq), path),
                    FileAction::Done,
                ),
                TrackAction::SyncSegment { seq, created } => (
                    finished,
                    settled,
                    v,
                    FileAction::Segment { file_path: path, seq, created },
                ),
                TrackAction::ForgetFile => (
                    finished,
                    settled,
                    cleaned(dropped(v, path), path),
                    FileAction::Done,
                ),
                TrackAction::SyncFile => (
                    FileRunView { phase: FilePhase::Looking, ..run },
                    settled,
                    v,
                    FileAction::Stat { file_path: path },
                ),
            }
        },
        (FilePhase::Looking, FileReply::Stat(stat)) => {
            let (offset, dev, ino) = position_of(v.checkpoints, path);
            (
                FileRunView { phase: FilePhase::Sending { stat }, ..run },
                w,
                v,
                FileAction::Send {
                    file_path: path,
                    start_offset: start_of(audited(stat, offset, dev, ino)),
                },
            )
        },
        (FilePhase::Sending { stat }, FileReply::Sent(Some(last_offset))) => (
            finished,
            w,
            committed(v, path, last_offset, stat),
            FileAction::Done,
        ),
        _ => (finished, w, v, FileAction::Done),
    }
}

/// Handles a changed file.
pub struct FileRun {
    file_path: String,
    target: TrackAction,
    phase: FilePhase,
}

impl View for FileRun {
    type V = FileRunView;

    closed spec fn view(&self) -> FileRunView {
        FileRunView { file_path: self.file_path@, target: self.target, phase: self.phase }
    }
}

/// Begins to handle an event that counts: its file is dirty from now on.
pub fn handle_file_event(
    ledger: &mut LocalLedger,
    event: &FileChangeEvent,
    debounce_ms: u64,
    now: i64,
) -> (r: (FileRun, FileAction<String>))
    ensures
        r.0@ == began(*event),
        r.1@ == first_wait(
            dirtied(old(ledger)@, event.file_path@, now),
            event.file_path@,
            debounce_ms,
            now,
        ),
        final(ledger)@ == dirtied(old(ledger)@, event.file_path@, now),
        final(ledger).base() == old(ledger).base(),
{
    ledger.mark_dirty(&event.file_path, now);
    let first_dirty_at: i64 = match ledger.dirty_since(&event.file_path) {
        Some(at) => at,
        None => {
            assert(false);
            now
        },
    };
    let run = FileRun {
        file_path: event.file_path.clone(),
        target: route_event(event),
        phase: FilePhase::Waiting,
    };
    (run, FileAction::Wait { for_ns: delay_ns(debounce_ms, first_dirty_at, now) })
}

/// Takes in an event: if it counts, its handling begins, else nothing happens.
pub fn take_file_event(
    watch: &mut WatchRun,
    ledger: &mut LocalLedger,
    event: &FileChangeEvent,
    now_ns: u64,
    now: i64,
) -> (r: Option<(FileRun, FileAction<String>)>)
    requires
        old(watch).wf(),
    ensures
        final(watch).wf(),
        final(watch).config() == old(watch).config(),
        final(watch).debounce() == old(watch).debounce(),
        final(ledger).base() == old(ledger).base(),
        ({
            let is_excluded = excluded(old(watch).config().exclude_patterns@, event.file_path@);
            let debounce = old(watch).debounce();
            &&& final(watch)@ == after_event(old(watch)@, *event, is_excluded, now_ns, debounce)
            &&& r is Some == counts(old(watch)@, *event, is_excluded, now_ns, debounce)
        }),
        r is None ==> final(ledger)@ == old(ledger)@,
        r matches Some((run, action)) ==> {
            &&& run@ == began(*event)
            &&& final(ledger)@ == dirtied(old(ledger)@, event.file_path@, now)
            &&& action@ == first_wait(
                final(ledger)@,
                event.file_path@,
                old(watch).debounce(),
                now,
            )
        },
{
    if watch.take_event(event, now_ns) {
        Some(handle_file_event(ledger, event, watch.debounce_ms(), now))
    } else {
        None
    }
}

impl FileRun {
    /// Goes on after a reply.
    pub fn step(
        &mut self,
        watch: &mut WatchRun,
        ledger: &mut LocalLedger,
        reply: FileReply,
        now_ns: u64,
    ) -> (r: FileAction<String>)
        requires
            old(watch).wf(),
            old(self)@.expects(reply),
        ensures
            final(watch).wf(),
            final(watch).config() == old(watch).config(),
            final(watch).debounce() == old(watch).debounce(),
            final(ledger).base() == old(ledger).base(),
            (final(self)@, final(watch)@, final(ledger)@, r@) == file_reaction(
                old(self)@,
                old(watch)@,
                old(ledger)@,
                reply,
                now_ns,
            ),
    {
        let phase: FilePhase = self.phase;
        self.phase = FilePhase::Finished;
        match (phase, reply) {
            (FilePhase::Waiting, FileReply::Waited) => {
                watch.settle(&self.file_path, now_ns);
                match self.target {
                    TrackAction::ForgetSegment(seq) => {
                        ledger.delete_segment(seq);
                        ledger.clear_dirty(&self.file_path);
                        FileAction::Done
                    },
                    TrackAction::SyncSegment { seq, created } => FileAction::Segment {
                        file_path: self.file_path.clone(),
                        seq,
                        created,
                    },
                    TrackAction::ForgetFile => {
                        ledger.delete_checkpoint(&self.file_path);
                        ledger.clear_dirty(&self.file_path);
                        FileAction::Done
                    },
                    TrackAction::SyncFile => {
                        self.phase = FilePhase::Looking;
                        FileAction::Stat { file_path: self.file_path.clone() }
                    },
                }
            },
            (FilePhase::Looking, FileReply::Stat(stat)) => {
                let start_offset: u64 = file_start(ledger, &self.file_path, stat);
                self.phase = FilePhase::Sending { stat };
                FileAction::Send { file_path: self.file_path.clone(), start_offset }
            },
            (FilePhase::Sending { stat }, FileReply::Sent(Some(last_offset))) => {
                ledger.commit_checkpoint(&self.file_path, last_offset, stat);
                FileAction::Done
            },
            _ => FileAction::Done,
        }
    }
}

/// What an event that counts and asks for a file to be sent comes to: the ledger when the file is
/// sent, the action that sends it, and the ledger in the end.
pub open spec fn whole_file_run(
    w: WatchView,
    v: LedgerView,
    event: FileChangeEvent,
    now: i64,
    settled_ns: u64,
    stat: Option<FileStat>,
    sent: Option<u64>,
    sent_ns: u64,
) -> (LedgerView, FileAction<Seq<char>>, LedgerView) {
    let marked = dirtied(v, event.file_path@, now);
    let first = file_reaction(began(event), w, marked, FileReply::Waited, settled_ns);
    let second = file_reaction(first.0, first.1, first.2, FileReply::Stat(stat), settled_ns);
    let third = file_reaction(second.0, second.1, second.2, FileReply::Sent(sent), sent_ns);
    (second.2, second.3, third.2)
}

/// A changed file is dirty before it is sent and while it is, since it first became so; once it was
/// sent, and not before, it is no longer dirty, and its checkpoint says how far it was sent.
pub proof fn law_dirty_until_sent(
    w: WatchView,
    v: LedgerView,
    event: FileChangeEvent,
    now: i64,
    settled_ns: u64,
    stat: Option<FileStat>,
    sent: Option<u64>,
    sent_ns: u64,
)
    requires
        segment_seq(event.file_path@) is None,
        event.event_kind != FileChangeKind::Removed,
    ensures
        ({
            let path = event.file_path@;
            let (before, action, after) = whole_file_run(
                w,
                v,
                event,
                now,
                settled_ns,
                stat,
                sent,
                sent_ns,
            );
            let first_dirty_at = if v.dirty.contains_key(path) {
                v.dirty[path].0
            } else {
                now
            };
            &&& before == dirtied(v, path, now)
            &&& before.dirty.contains_key(path) && before.dirty[path] == (first_dirty_at, now)
            &&& action matches FileAction::Send { file_path, .. } && file_path == path
            &&& sent is None ==> after == before
            &&& sent matches Some(n) ==> {
                &&& after == committed(before, path, n, stat)
                &&& !after.dirty.contains_key(path)
                &&& after.checkpoints.contains_key(path)
                &&& after.checkpoints[path].last_verified_offset == signed64(n)
                &&& after.checkpoints[path].status == "IN_SYNC"@
            }
        }),
{
}

/// Only a sending that succeeded, or that the file was removed, takes the dirty mark from the file,
/// and no step touches the mark of another file.
pub proof fn law_only_sending_cleans(
    run: FileRunView,
    w: WatchView,
    v: LedgerView,
    reply: FileReply,
    now_ns: u64,
    path: Seq<char>,
)
    requires
        run.expects(reply),
    ensures
        ({
            let after = file_reaction(run, w, v, reply, now_ns).2;
            let sent = run.phase is Sending && reply->Sent_0 is Some;
            let removed = run.phase is Waiting && (run.target is ForgetSegment || run.target
                == TrackAction::ForgetFile);
            if path == run.file_path && (sent || removed) {
                !after.dirty.contains_key(path)
            } else {
                &&& after.dirty.contains_key(path) == v.dirty.contains_key(path)
                &&& after.dirty[path] == v.dirty[path]
            }
        }),
{
}

/// A file that was sent up to an offset and then grew in place is sent, on an event outside the
/// debounce time, from that offset on and no other; when the job that sends its new bytes has
/// finished, its checkpoint is at its new size.
pub proof fn law_appended_file_is_continued(
    w: WatchView,
    v: LedgerView,
    event: FileChangeEvent,
    event_ns: u64,
    debounce_ms: u64,
    now: i64,
    settled_ns: u64,
    before: FileStat,
    offset: u64,
    after: FileStat,
    job: FileJob,
    data: Seq<u8>,
    sent_ns: u64,
)
    requires
        segment_seq(event.file_path@) is None,
        event.event_kind == FileChangeKind::Modified,
        event.file_path@.len() > 0,
        !is_recent(w.seen, event.file_path@, event_ns, debounce_ms),
        v.checkpoints.contains_key(event.file_path@),
        v.checkpoints[event.file_path@] == committed_row(offset, Some(before)),
        before.dev <= i64::MAX,
        before.ino <= i64::MAX,
        offset <= i64::MAX,
        after.dev == before.dev,
        after.ino == before.ino,
        after.size > offset,
        after.size <= i64::MAX,
        data.len() == after.size - offset,
        job.position() == offset,
        job.pending() == Seq::<Piece>::empty(),
        job.rest(Seq::empty()) == sliced(event.file_path@, data, offset as nat),
    ensures
        counts(w, event, false, event_ns, debounce_ms),
        job.final_offset(Seq::empty()) == after.size,
        ({
            let path = event.file_path@;
            let (marked, action, done) = whole_file_run(
                after_event(w, event, false, event_ns, debounce_ms),
                v,
                event,
                now,
                settled_ns,
                Some(after),
                Some(job.final_offset(Seq::empty()) as u64),
                sent_ns,
            );
            &&& action == FileAction::Send { file_path: path, start_offset: offset }
            &&& done.checkpoints[path].last_verified_offset == after.size
            &&& !done.dirty.contains_key(path)
        }),
{
    law_file_is_sent_whole(job, event.file_path@, data, offset as nat);
}

/// A changed file is looked at when the delay is over, sent from where it was left if it is still
/// the file of its checkpoint and has grown, else from the start, and then recorded: how far it was
/// sent, when it was changed last and which file it was.
pub proof fn law_changed_file_is_recorded(
    w: WatchView,
    v: LedgerView,
    event: FileChangeEvent,
    now: i64,
    settled_ns: u64,
    stat: FileStat,
    sent: u64,
    sent_ns: u64,
)
    requires
        segment_seq(event.file_path@) is None,
        event.event_kind != FileChangeKind::Removed,
        stat.dev <= i64::MAX,
        stat.ino <= i64::MAX,
        sent <= i64::MAX,
    ensures
        ({
            let path = event.file_path@;
            let first = file_reaction(began(event), w, v, FileReply::Waited, settled_ns);
            let (before, action, after) = whole_file_run(
                w,
                v,
                event,
                now,
                settled_ns,
                Some(stat),
                Some(sent),
                sent_ns,
            );
            let row = v.checkpoints[path];
            let known = v.checkpoints.contains_key(path);
            let grown = known && row.st_dev == stat.dev && row.st_ino == stat.ino
                && row.last_verified_offset < stat.size;
            &&& first.3 == (FileAction::Stat { file_path: path })
            &&& before.checkpoints == v.checkpoints && before.segments == v.segments
            &&& !known ==> action == (FileAction::Send { file_path: path, start_offset: 0 })
            &&& known && row.last_verified_offset >= 0 ==> action == (FileAction::Send {
                file_path: path,
                start_offset: if grown {
                    row.last_verified_offset as u64
                } else {
                    0
                },
            })
            &&& after.checkpoints.contains_key(path)
            &&& after.checkpoints[path].last_verified_offset == sent
            &&& after.checkpoints[path].last_mtime_ns == stat.mtime_ns
            &&& after.checkpoints[path].st_dev == stat.dev
            &&& after.checkpoints[path].st_ino == stat.ino
            &&& after.checkpoints[path].status == "IN_SYNC"@
        }),
{
}

/// A file that the system says nothing of is sent from the start.
pub proof fn law_unseen_file_is_sent_from_the_start(
    run: FileRunView,
    w: WatchView,
    v: LedgerView,
    now_ns: u64,
)
    requires
        run.phase is Looking,
    ensures
        file_reaction(run, w, v, FileReply::Stat(None), now_ns).3 == (FileAction::Send {
            file_path: run.file_path,
            start_offset: 0,
        }),
{
}

/// What is removed is neither looked at nor sent: the checkpoint of a file, the row of a segment is
/// dropped, and nothing is left to do. A change of a segment is handed on as it is. In each case the
/// path has now been seen, and no other.
pub proof fn law_delay_is_followed(
    w: WatchView,
    v: LedgerView,
    event: FileChangeEvent,
    now_ns: u64,
)
    ensures
        ({
            let path = event.file_path@;
            let removed = event.event_kind == FileChangeKind::Removed;
            let created = event.event_kind == FileChangeKind::Created;
            let (run, watch, after, action) = file_reaction(
                began(event),
                w,
                v,
                FileReply::Waited,
                now_ns,
            );
            &&& watch.seen == w.seen.insert(path, now_ns) && watch.dirs == w.dirs
            &&& after.watched == v.watched && after.scan == v.scan
            &&& segment_seq(path) is None && removed ==> {
                &&& action is Done
                &&& after.checkpoints == v.checkpoints.remove(path)
                &&& after.segments == v.segments
            }
            &&& segment_seq(path) is None && !removed ==> after == v && action == (
            FileAction::Stat { file_path: path })
            &&& segment_seq(path) matches Some(seq) ==> after.checkpoints == v.checkpoints
            &&& segment_seq(path) matches Some(seq) ==> removed ==> action is Done
                && after.segments == v.segments.remove(seq)
            &&& segment_seq(path) matches Some(seq) ==> !removed ==> after == v && action == (
            FileAction::Segment { file_path: path, seq, created })
        }),
{
}

/// A sending that ended, well or not, leaves every other checkpoint, the segments, the watched
/// directories and the watch alone; a failed one leaves everything alone.
pub proof fn law_sending_touches_one_file(
    run: FileRunView,
    w: WatchView,
    v: LedgerView,
    sent: Option<u64>,
    now_ns: u64,
    other: Seq<char>,
)
    requires
        run.phase is Sending,
        other != run.file_path,
    ensures
        ({
            let (next, watch, after, action) = file_reaction(
                run,
                w,
                v,
                FileReply::Sent(sent),
                now_ns,
            );
            &&& action is Done && watch == w
            &&& sent is None ==> after == v
            &&& after.checkpoints.contains_key(other) == v.checkpoints.contains_key(other)
            &&& after.checkpoints[other] == v.checkpoints[other]
            &&& after.segments == v.segments
            &&& after.watched == v.watched
            &&& after.scan == v.scan
        }),
{
}

/// A file is left alone for the debounce time, and never longer than half a second after it became
/// dirty.
pub proof fn law_delay_in_numbers(debounce_ms: u64, first_dirty_at: i64, now: i64)
    requires
        first_dirty_at <= now,
    ensures
        ({
            let delay = delay_of(debounce_ms, first_dirty_at, now);
            &&& 0 <= delay <= 500_000_000
            &&& delay <= debounce_ms * 1_000_000
            &&& delay == debounce_ms * 1_000_000 || now + delay == first_dirty_at + 500_000_000
                || (delay == 0 && now >= first_dirty_at + 500_000_000)
            &&& now < first_dirty_at + 500_000_000 ==> now + delay <= first_dirty_at + 500_000_000
            &&& now >= first_dirty_at + 500_000_000 ==> delay == 0
        }),
{
}

/// A file that was clean is left alone from its event on; one that was dirty before counts from its
/// first mark.
pub proof fn law_delay_counts_from_the_first_mark(
    v: LedgerView,
    path: Seq<char>,
    debounce_ms: u64,
    now: i64,
)
    ensures
        ({
            let first = if v.dirty.contains_key(path) {
                v.dirty[path].0
            } else {
                now
            };
            first_wait(dirtied(v, path, now), path, debounce_ms, now) == (FileAction::<
                Seq<char>,
            >::Wait { for_ns: delay_of(debounce_ms, first, now) as u64 })
        }),
{
}

/// A file whose first mark lies ahead, because the clock was set back, is left alone for the debounce
/// time, and for half a second at most.
pub proof fn law_delay_after_the_clock_was_set_back(
    debounce_ms: u64,
    first_dirty_at: i64,
    now: i64,
)
    requires
        first_dirty_at > now,
    ensures
        debounce_ms <= 500 ==> delay_of(debounce_ms, first_dirty_at, now) == debounce_ms * 1_000_000,
        debounce_ms > 500 ==> delay_of(debounce_ms, first_dirty_at, now) == 500_000_000,
{
}

} // verus!
