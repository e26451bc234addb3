//! What a change of a segment sets off: earlier segments are completed and sealed, then the segment
//! itself is continued. The work outside, looking at files, sending and signalling, is asked for
//! step by step.

use vstd::prelude::*;

use crate::ledger::FileStat;
use crate::ledger::LocalLedger;
use crate::segment::clamp_nonneg;
use crate::text::same_text;

verus! {

use crate::crypto::zero_key;
use crate::ledger::advanced;
use crate::ledger::cleaned;
use crate::ledger::forgotten;
use crate::ledger::least_unsealed;
use crate::ledger::lemma_least_unsealed;
use crate::ledger::sealed;
use crate::ledger::unsealed;
use crate::ledger::LedgerView;
use crate::ledger::SegmentRow;
use crate::numbers::signed64;
use crate::scanner::ScanItem;
use crate::segment::nonneg;
use crate::segment::plan_for;
use crate::segment::SegmentPlan;

/// What is asked for next.
pub enum SegmentAction<P> {
    /// What the system says of a file, or that it does not exist.
    Stat { file_path: P },
    /// Send a file from an offset on.
    Send { file_path: P, start_offset: u64 },
    /// The digest of a file's content.
    Digest { file_path: P },
    /// Signal that a segment is complete.
    SignalSeal { segment_seq: u32, sealed_size: u64 },
    /// Nothing is left to do.
    Done,
}

/// What came of what was asked for.
#[derive(Clone, Copy, Debug)]
pub enum SegmentReply {
    /// What the system says of the file; none if it does not exist.
    Stat(Option<FileStat>),
    /// How far the file was sent; none if sending failed.
    Sent(Option<u64>),
    /// The digest; none if the file could not be read.
    Digest(Option<[u8; 32]>),
    /// The signal was given.
    Signalled,
}

/// What is waited for.
pub enum SegmentPhase<P> {
    /// The size of an earlier segment.
    SealStat { seq: u32, file_path: P, synced: u64 },
    /// The rest of an earlier segment to be sent.
    SealSend { seq: u32, file_path: P, size: u64 },
    /// The digest of an earlier segment.
    SealDigest { seq: u32, file_path: P, size: u64, last_offset: u64 },
    /// The signal for an earlier segment.
    SealSignal { seq: u32 },
    /// The size of the segment itself.
    OwnStat,
    /// The rest of the segment itself to be sent.
    OwnSend { size: u64, was_sealed: bool },
    /// The digest of the segment itself.
    OwnDigest { size: u64, last_offset: u64 },
    /// The signal for the segment itself.
    OwnSignal,
    /// Nothing.
    Finished,
}

impl View for SegmentAction<String> {
    type V = SegmentAction<Seq<char>>;

    open spec fn view(&self) -> SegmentAction<Seq<char>> {
        match *self {
            SegmentAction::Stat { file_path } => SegmentAction::Stat { file_path: file_path@ },
            SegmentAction::Send { file_path, start_offset } => SegmentAction::Send {
                file_path: file_path@,
                start_offset,
            },
            SegmentAction::Digest { file_path } => SegmentAction::Digest { file_path: file_path@ },
            SegmentAction::SignalSeal { segment_seq, sealed_size } => SegmentAction::SignalSeal {
                segment_seq,
                sealed_size,
            },
            SegmentAction::Done => SegmentAction::Done,
        }
    }
}

impl View for SegmentPhase<String> {
    type V = SegmentPhase<Seq<char>>;

    open spec fn view(&self) -> SegmentPhase<Seq<char>> {
        match *self {
            SegmentPhase::SealStat { seq, file_path, synced } => SegmentPhase::SealStat {
                seq,
                file_path: file_path@,
                synced,
            },
            SegmentPhase::SealSend { seq, file_path, size } => SegmentPhase::SealSend {
                seq,
                file_path: file_path@,
                size,
            },
            SegmentPhase::SealDigest { seq, file_path, size, last_offset } => {
                SegmentPhase::SealDigest { seq, file_path: file_path@, size, last_offset }
            },
            SegmentPhase::SealSignal { seq } => SegmentPhase::SealSignal { seq },
            SegmentPhase::OwnStat => SegmentPhase::OwnStat,
            SegmentPhase::OwnSend { size, was_sealed } => SegmentPhase::OwnSend { size, was_sealed },
            SegmentPhase::OwnDigest { size, last_offset } => SegmentPhase::OwnDigest {
                size,
                last_offset,
            },
            SegmentPhase::OwnSignal => SegmentPhase::OwnSignal,
            SegmentPhase::Finished => SegmentPhase::Finished,
        }
    }
}

/// A changed segment, and what is waited for.
pub struct RunView {
    pub file_path: Seq<char>,
    pub seq: u32,
    pub phase: SegmentPhase<Seq<char>>,
}

impl RunView {
    /// The earlier segment that is being sealed has a smaller number.
    pub open spec fn wf(self) -> bool {
        match self.phase {
            SegmentPhase::SealStat { seq, .. } => seq < self.seq,
            SegmentPhase::SealSend { seq, .. } => seq < self.seq,
            SegmentPhase::SealDigest { seq, .. } => seq < self.seq,
            SegmentPhase::SealSignal { seq } => seq < self.seq,
            _ => true,
        }
    }

    /// The reply is of the kind that is waited for.
    pub open spec fn expects(self, reply: SegmentReply) -> bool {
        match self.phase {
            SegmentPhase::SealStat { .. } => reply is Stat,
            SegmentPhase::SealSend { .. } => reply is Sent,
            SegmentPhase::SealDigest { .. } => reply is Digest,
            SegmentPhase::SealSignal { .. } => reply is Signalled,
            SegmentPhase::OwnStat => reply is Stat,
            SegmentPhase::OwnSend { .. } => reply is Sent,
            SegmentPhase::OwnDigest { .. } => reply is Digest,
            SegmentPhase::OwnSignal => reply is Signalled,
            SegmentPhase::Finished => false,
        }
    }
}

/// A new segment with the greatest number shows that the earlier ones are complete.
pub open spec fn completes_earlier(v: LedgerView, seq: u32, created: bool) -> bool {
    created && forall|k: u32| #[trigger] v.segments.contains_key(k) ==> k < seq
}

/// The next earlier segment from `from` on that is to be sealed, or the segment itself.
pub open spec fn turn_to(v: LedgerView, file_path: Seq<char>, seq: u32, from: int) -> (
    SegmentPhase<Seq<char>>,
    SegmentAction<Seq<char>>,
) {
    match least_unsealed(v.segments, from, seq as int) {
        Some(k) => (
            SegmentPhase::SealStat {
                seq: k,
                file_path: v.segments[k].file_path,
                synced: nonneg(v.segments[k].synced_offset),
            },
            SegmentAction::Stat { file_path: v.segments[k].file_path },
        ),
        None => (SegmentPhase::OwnStat, SegmentAction::Stat { file_path }),
    }
}

/// The first thing that a change of a segment asks for.
pub open spec fn first_turn(v: LedgerView, file_path: Seq<char>, seq: u32, created: bool) -> (
    SegmentPhase<Seq<char>>,
    SegmentAction<Seq<char>>,
) {
    if completes_earlier(v, seq, created) {
        turn_to(v, file_path, seq, 0)
    } else {
        (SegmentPhase::OwnStat, SegmentAction::Stat { file_path })
    }
}

/// A digest, or zeros in its place.
pub open spec fn digest_or_zeros(digest: Option<[u8; 32]>) -> Seq<u8> {
    match digest {
        Some(d) => d@,
        None => zero_key(),
    }
}

/// How far a segment was sent.
pub open spec fn sent_of(segments: Map<u32, SegmentRow>, seq: u32) -> u64 {
    if segments.contains_key(seq) {
        nonneg(segments[seq].synced_offset)
    } else {
        0
    }
}

/// A segment is sealed.
pub open spec fn is_sealed(segments: Map<u32, SegmentRow>, seq: u32) -> bool {
    segments.contains_key(seq) && segments[seq].state == "SEALED"@
}

/// What follows a reply: what is waited for then, the ledger, and what is asked for. A segment that
/// is gone, that was sent and recorded, or of which all was sent already, is no longer dirty.
pub open spec fn reaction(run: RunView, v: LedgerView, reply: SegmentReply, now: i64) -> (
    SegmentPhase<Seq<char>>,
    LedgerView,
    SegmentAction<Seq<char>>,
) {
    match (run.phase, reply) {
        (SegmentPhase::SealStat { seq, file_path, synced }, SegmentReply::Stat(None)) => {
            let after = cleaned(forgotten(v, seq), file_path);
            let (phase, action) = turn_to(after, run.file_path, run.seq, seq + 1);
            (phase, after, action)
        },
        (SegmentPhase::SealStat { seq, file_path, synced }, SegmentReply::Stat(Some(stat))) => {
            let size = stat.size;
            if synced < size {
                (
                    SegmentPhase::SealSend { seq, file_path, size },
                    v,
                    SegmentAction::Send { file_path, start_offset: synced },
                )
            } else {
                (
                    SegmentPhase::SealDigest { seq, file_path, size, last_offset: synced },
                    v,
                    SegmentAction::Digest { file_path },
                )
            }
        },
        (SegmentPhase::SealSend { seq, file_path, size }, SegmentReply::Sent(Some(last_offset))) => (
            SegmentPhase::SealDigest { seq, file_path, size, last_offset },
            v,
            SegmentAction::Digest { file_path },
        ),
        (SegmentPhase::SealSend { seq, file_path, size }, SegmentReply::Sent(None)) => {
            let (phase, action) = turn_to(v, run.file_path, run.seq, seq + 1);
            (phase, v, action)
        },
        (
            SegmentPhase::SealDigest { seq, file_path, size, last_offset },
            SegmentReply::Digest(digest),
        ) => (
            SegmentPhase::SealSignal { seq },
            cleaned(
                sealed(v, seq, file_path, size, digest_or_zeros(digest), last_offset, now),
                file_path,
            ),
            SegmentAction::SignalSeal { segment_seq: seq, sealed_size: size },
        ),
        (SegmentPhase::SealSignal { seq }, _) => {
            let (phase, action) = turn_to(v, run.file_path, run.seq, seq + 1);
            (phase, v, action)
        },
        (SegmentPhase::OwnStat, SegmentReply::Stat(found)) => {
            let size = match found {
                Some(s) => s.size,
                None => 0,
            };
            let start = sent_of(v.segments, run.seq);
            if start >= size {
                (
                    SegmentPhase::Finished,
                    if found is Some {
                        cleaned(v, run.file_path)
                    } else {
                        v
                    },
                    SegmentAction::Done,
                )
            } else {
                (
                    SegmentPhase::OwnSend { size, was_sealed: is_sealed(v.segments, run.seq) },
                    v,
                    SegmentAction::Send { file_path: run.file_path, start_offset: start },
                )
            }
        },
        (SegmentPhase::OwnSend { size, was_sealed }, SegmentReply::Sent(Some(last_offset))) => {
            if was_sealed {
                (
                    SegmentPhase::OwnDigest { size, last_offset },
                    v,
                    SegmentAction::Digest { file_path: run.file_path },
                )
            } else {
                (
                    SegmentPhase::Finished,
                    cleaned(
                        advanced(v, run.seq, run.file_path, "UNFINISHED"@, last_offset, now),
                        run.file_path,
                    ),
                    SegmentAction::Done,
                )
            }
        },
        (SegmentPhase::OwnDigest { size, last_offset }, SegmentReply::Digest(digest)) => (
            SegmentPhase::OwnSignal,
            cleaned(
                sealed(v, run.seq, run.file_path, size, digest_or_zeros(digest), last_offset, now),
                run.file_path,
            ),
            SegmentAction::SignalSeal { segment_seq: run.seq, sealed_size: size },
        ),
        _ => (SegmentPhase::Finished, v, SegmentAction::Done),
    }
}

/// Handles a change of a segment.
pub struct SegmentRun {
    file_path: String,
    seq: u32,
    phase: SegmentPhase<String>,
}

impl View for SegmentRun {
    type V = RunView;

    closed spec fn view(&self) -> RunView {
        RunView { file_path: self.file_path@, seq: self.seq, phase: self.phase@ }
    }
}

impl SegmentRun {
    /// Begins with a change of a segment.
    pub fn handle_segment_event(
        ledger: &LocalLedger,
        file_path: &str,
        seq: u32,
        created: bool,
    ) -> (r: (Self, SegmentAction<String>))
        ensures
            r.0@.file_path == file_path@,
            r.0@.seq == seq,
            r.0@.wf(),
            (r.0@.phase, r.1@) == first_turn(ledger@, file_path@, seq, created),
    {
        let is_new_higher: bool = created && match ledger.max_segment_seq() {
            None => true,
            Some(m) => seq > m,
        };
        proof {
            lemma_least_unsealed(ledger@.segments, 0, seq as int);
        }
        let path: String = file_path.to_string();
        let (phase, action) = if is_new_higher {
            seal_lower_segments(ledger, &path, seq, 0)
        } else {
            (SegmentPhase::OwnStat, SegmentAction::Stat { file_path: path.clone() })
        };
        (SegmentRun { file_path: path, seq, phase }, action)
    }

    /// Goes on after a reply.
    pub fn step(&mut self, ledger: &mut LocalLedger, reply: SegmentReply, now: i64) -> (r:
        SegmentAction<String>)
        requires
            old(self)@.wf(),
            old(self)@.expects(reply),
        ensures
            final(self)@.wf(),
            final(self)@.file_path == old(self)@.file_path,
            final(self)@.seq == old(self)@.seq,
            final(ledger).base() == old(ledger).base(),
            (final(self)@.phase, final(ledger)@, r@) == reaction(
                old(self)@,
                old(ledger)@,
                reply,
                now,
            ),
    {
        let mut phase: SegmentPhase<String> = SegmentPhase::Finished;
        std::mem::swap(&mut phase, &mut self.phase);
        match (phase, reply) {
            (SegmentPhase::SealStat { seq, file_path, synced: _ }, SegmentReply::Stat(None)) => {
                ledger.delete_segment(seq);
                ledger.clear_dirty(&file_path);
                self.turn(ledger, seq + 1)
            },
            (SegmentPhase::SealStat { seq, file_path, synced }, SegmentReply::Stat(Some(stat))) => {
                let size: u64 = stat.size;
                let path: String = file_path.clone();
                if synced < size {
                    self.phase = SegmentPhase::SealSend { seq, file_path, size };
                    SegmentAction::Send { file_path: path, start_offset: synced }
                } else {
                    self.phase = SegmentPhase::SealDigest {
                        seq,
                        file_path,
                        size,
                        last_offset: synced,
                    };
                    SegmentAction::Digest { file_path: path }
                }
            },
            (SegmentPhase::SealSend { seq, file_path, size }, SegmentReply::Sent(Some(last_offset))) => {
                let path: String = file_path.clone();
                self.phase = SegmentPhase::SealDigest { seq, file_path, size, last_offset };
                SegmentAction::Digest { file_path: path }
            },
            (SegmentPhase::SealSend { seq, file_path: _, size: _ }, SegmentReply::Sent(None)) => {
                self.turn(ledger, seq + 1)
            },
            (
                SegmentPhase::SealDigest { seq, file_path, size, last_offset },
                SegmentReply::Digest(digest),
            ) => {
                let hash: [u8; 32] = or_zeros(digest);
                ledger.seal_segment(seq, &file_path, size, &hash, last_offset, now);
                ledger.clear_dirty(&file_path);
                self.phase = SegmentPhase::SealSignal { seq };
                SegmentAction::SignalSeal { segment_seq: seq, sealed_size: size }
            },
            (SegmentPhase::SealSignal { seq }, _) => self.turn(ledger, seq + 1),
            (SegmentPhase::OwnStat, SegmentReply::Stat(found)) => {
                let size: u64 = match found {
                    Some(s) => s.size,
                    None => 0,
                };
                let (start, was_sealed) = segment_position(ledger, self.seq);
                if start >= size {
                    if found.is_some() {
                        ledger.clear_dirty(&self.file_path);
                    }
                    return SegmentAction::Done;
                }
                self.phase = SegmentPhase::OwnSend { size, was_sealed };
                SegmentAction::Send { file_path: self.file_path.clone(), start_offset: start }
            },
            (SegmentPhase::OwnSend { size, was_sealed }, SegmentReply::Sent(Some(last_offset))) => {
                if was_sealed {
                    self.phase = SegmentPhase::OwnDigest { size, last_offset };
                    SegmentAction::Digest { file_path: self.file_path.clone() }
                } else {
                    ledger.upsert_segment(self.seq, &self.file_path, "UNFINISHED", last_offset, now);
                    ledger.clear_dirty(&self.file_path);
                    SegmentAction::Done
                }
            },
            (SegmentPhase::OwnDigest { size, last_offset }, SegmentReply::Digest(digest)) => {
                let hash: [u8; 32] = or_zeros(digest);
                ledger.seal_segment(self.seq, &self.file_path, size, &hash, last_offset, now);
                ledger.clear_dirty(&self.file_path);
                self.phase = SegmentPhase::OwnSignal;
                SegmentAction::SignalSeal { segment_seq: self.seq, sealed_size: size }
            },
            _ => SegmentAction::Done,
        }
    }

    /// Turns to the next earlier segment, or to the segment itself.
    fn turn(&mut self, ledger: &LocalLedger, from: u32) -> (r: SegmentAction<String>)
        requires
            from <= old(self)@.seq,
        ensures
            final(self)@.wf(),
            final(self)@.file_path == old(self)@.file_path,
            final(self)@.seq == old(self)@.seq,
            (final(self)@.phase, r@) == turn_to(
                ledger@,
                old(self)@.file_path,
                old(self)@.seq,
                from as int,
            ),
    {
        proof {
            lemma_least_unsealed(ledger@.segments, from as int, self.seq as int);
        }
        let (phase, action) = seal_lower_segments(ledger, &self.file_path, self.seq, from);
        self.phase = phase;
        action
    }
}

/// Finds the next earlier segment from `from` on that is to be sealed; if there is none, it is the
/// turn of the segment itself.
fn seal_lower_segments(ledger: &LocalLedger, file_path: &String, seq: u32, from: u32) -> (r: (
    SegmentPhase<String>,
    SegmentAction<String>,
))
    requires
        from <= seq,
    ensures
        (r.0@, r.1@) == turn_to(ledger@, file_path@, seq, from as int),
{
    proof {
        lemma_least_unsealed(ledger@.segments, from as int, seq as int);
    }
    match ledger.next_unsealed(from, seq) {
        None => (SegmentPhase::OwnStat, SegmentAction::Stat { file_path: file_path.clone() }),
        Some(k) => match ledger.get_segment(k) {
            None => {
                assert(false);
                (SegmentPhase::OwnStat, SegmentAction::Stat { file_path: file_path.clone() })
            },
            Some(s) => {
                let path: String = s.file_path.clone();
                let synced: u64 = clamp_nonneg(s.synced_offset);
                (
                    SegmentPhase::SealStat { seq: k, file_path: s.file_path, synced },
                    SegmentAction::Stat { file_path: path },
                )
            },
        },
    }
}

/// How far a segment was sent, and whether it is sealed.
pub fn segment_position(ledger: &LocalLedger, seq: u32) -> (r: (u64, bool))
    ensures
        r.0 == sent_of(ledger@.segments, seq),
        r.1 == is_sealed(ledger@.segments, seq),
{
    match ledger.get_segment(seq) {
        None => (0, false),
        Some(s) => (clamp_nonneg(s.synced_offset), same_text(&s.state, "SEALED")),
    }
}

/// A digest, or zeros in its place.
pub fn or_zeros(digest: Option<[u8; 32]>) -> (r: [u8; 32])
    ensures
        r@ == digest_or_zeros(digest),
{
    match digest {
        Some(d) => d,
        None => {
            let zeros: [u8; 32] = [0u8;32];
            assert(zeros@ =~= zero_key());
            zeros
        },
    }
}

/// What is waited for fits the ledger: the earlier segment in work is not yet sealed, and a changed
/// segment was found sealed or not as it is.
pub open spec fn in_step(run: RunView, v: LedgerView) -> bool {
    match run.phase {
        SegmentPhase::SealStat { seq, .. } => unsealed(v.segments, seq),
        SegmentPhase::SealSend { seq, .. } => unsealed(v.segments, seq),
        SegmentPhase::SealDigest { seq, .. } => unsealed(v.segments, seq),
        SegmentPhase::OwnSend { was_sealed, .. } => was_sealed == is_sealed(v.segments, run.seq),
        SegmentPhase::OwnDigest { .. } => is_sealed(v.segments, run.seq),
        _ => true,
    }
}

/// The handling of a change begins and stays in step with the ledger, as long as nothing else
/// writes to it.
pub proof fn law_stays_in_step(
    run: RunView,
    v: LedgerView,
    reply: SegmentReply,
    now: i64,
    created: bool,
)
    requires
        run.wf(),
    ensures
        ({
            let first = first_turn(v, run.file_path, run.seq, created).0;
            in_step(RunView { phase: first, ..run }, v)
        }),
        in_step(run, v) && run.expects(reply) ==> ({
            let (phase, after, action) = reaction(run, v, reply, now);
            in_step(RunView { phase, ..run }, after)
        }),
{
    lemma_least_unsealed(v.segments, 0, run.seq as int);
    let (phase, after, action) = reaction(run, v, reply, now);
    match run.phase {
        SegmentPhase::SealStat { seq, .. } => {
            lemma_least_unsealed(after.segments, seq + 1, run.seq as int);
        },
        SegmentPhase::SealSend { seq, .. } => {
            lemma_least_unsealed(v.segments, seq + 1, run.seq as int);
        },
        SegmentPhase::SealSignal { seq } => {
            lemma_least_unsealed(v.segments, seq + 1, run.seq as int);
        },
        _ => {},
    }
}

/// A sealed segment stays sealed, whatever happens to segments.
pub proof fn law_sealed_stays_sealed(
    run: RunView,
    v: LedgerView,
    reply: SegmentReply,
    now: i64,
    other: u32,
)
    requires
        run.wf(),
        run.expects(reply),
        in_step(run, v),
        is_sealed(v.segments, other),
    ensures
        is_sealed(reaction(run, v, reply, now).1.segments, other),
{
}

/// A new segment is sent only after every earlier one was dealt with: when its turn comes, no
/// segment behind the last one dealt with is left that could be sealed.
pub proof fn law_earlier_segments_first(
    run: RunView,
    v: LedgerView,
    reply: SegmentReply,
    now: i64,
    created: bool,
    k: u32,
)
    requires
        run.wf(),
        k < run.seq,
    ensures
        completes_earlier(v, run.seq, created) && first_turn(
            v,
            run.file_path,
            run.seq,
            created,
        ).0 is OwnStat ==> !unsealed(v.segments, k),
        run.expects(reply) && reaction(run, v, reply, now).0 is OwnStat ==> (match run.phase {
            SegmentPhase::SealStat { seq, .. } => k > seq ==> !unsealed(
                reaction(run, v, reply, now).1.segments,
                k,
            ),
            SegmentPhase::SealSend { seq, .. } => k > seq ==> !unsealed(v.segments, k),
            SegmentPhase::SealSignal { seq } => k > seq ==> !unsealed(v.segments, k),
            _ => false,
        }),
{
    lemma_least_unsealed(v.segments, 0, run.seq as int);
    let after = reaction(run, v, reply, now).1;
    match run.phase {
        SegmentPhase::SealStat { seq, .. } => {
            lemma_least_unsealed(after.segments, seq + 1, run.seq as int);
        },
        SegmentPhase::SealSend { seq, .. } => {
            lemma_least_unsealed(v.segments, seq + 1, run.seq as int);
        },
        SegmentPhase::SealSignal { seq } => {
            lemma_least_unsealed(v.segments, seq + 1, run.seq as int);
        },
        _ => {},
    }
}

/// A segment that is sealed is signalled in the same step, with the size that it was sealed with,
/// and only sealed segments are signalled.
pub proof fn law_sealed_is_signalled(run: RunView, v: LedgerView, reply: SegmentReply, now: i64)
    requires
        run.wf(),
        run.expects(reply),
    ensures
        ({
            let (phase, after, action) = reaction(run, v, reply, now);
            &&& action matches SegmentAction::SignalSeal { segment_seq, sealed_size } ==> {
                &&& is_sealed(after.segments, segment_seq)
                &&& after.segments[segment_seq].sealed_size == signed64(sealed_size)
            }
            &&& forall|k: u32|
                #![trigger after.segments[k]]
                is_sealed(after.segments, k) && !is_sealed(v.segments, k) ==> (action matches
                    SegmentAction::SignalSeal { segment_seq, .. } && segment_seq == k)
        }),
{
    reveal_strlit("SEALED");
    reveal_strlit("UNFINISHED");
    assert("SEALED"@ != "UNFINISHED"@) by {
        assert("SEALED"@.len() != "UNFINISHED"@.len());
    }
}

/// A changed segment stays dirty as long as something of it is to be sent or recorded. When its
/// handling is at its end, it is no longer dirty, unless it could not be sent or is gone: then the
/// ledger stays as it was.
pub proof fn law_segment_dirty_until_sent(
    run: RunView,
    v: LedgerView,
    reply: SegmentReply,
    now: i64,
)
    requires
        run.wf(),
        run.expects(reply),
        run.phase is OwnStat || run.phase is OwnSend || run.phase is OwnDigest,
    ensures
        ({
            let (phase, after, action) = reaction(run, v, reply, now);
            let failed = match reply {
                SegmentReply::Stat(found) => found is None,
                SegmentReply::Sent(sent) => sent is None,
                _ => false,
            };
            if (phase is Finished || phase is OwnSignal) && !failed {
                !after.dirty.contains_key(run.file_path)
            } else {
                after == v
            }
        }),
{
}

/// An earlier segment that is sealed, or forgotten because it is gone, is no longer dirty, and no
/// step touches the mark of a file that is not in work.
pub proof fn law_segment_marks(
    run: RunView,
    v: LedgerView,
    reply: SegmentReply,
    now: i64,
    path: Seq<char>,
)
    requires
        run.wf(),
        run.expects(reply),
    ensures
        ({
            let (phase, after, action) = reaction(run, v, reply, now);
            let in_work = match run.phase {
                SegmentPhase::SealStat { file_path, .. } => file_path,
                SegmentPhase::SealSend { file_path, .. } => file_path,
                SegmentPhase::SealDigest { file_path, .. } => file_path,
                _ => run.file_path,
            };
            &&& path != in_work ==> {
                &&& after.dirty.contains_key(path) == v.dirty.contains_key(path)
                &&& after.dirty[path] == v.dirty[path]
            }
            &&& run.phase is SealDigest || (run.phase is SealStat && reply->Stat_0 is None)
                ==> !after.dirty.contains_key(in_work)
            &&& reply is Sent && reply->Sent_0 is None ==> after == v
        }),
{
}

/// A row of a segment that is sealed: which file it is, how many bytes it has, what their digest is,
/// and how many of them were sent.
pub open spec fn records_sealed(
    row: SegmentRow,
    path: Seq<char>,
    size: int,
    digest: Seq<u8>,
    sent: int,
    now: i64,
) -> bool {
    &&& row.state == "SEALED"@
    &&& row.file_path == path
    &&& row.sealed_size == size
    &&& row.sealed_hash == Some(digest)
    &&& row.synced_offset == sent
    &&& row.updated_at == now
}

/// The signal for a complete segment is asked for, with its number and its size.
pub open spec fn signals(action: SegmentAction<Seq<char>>, seq: u32, size: u64) -> bool {
    action matches SegmentAction::SignalSeal { segment_seq, sealed_size } && segment_seq == seq
        && sealed_size == size
}

/// An earlier segment is sealed with the size that it has, the digest of its content and how far it
/// was really sent: where it was left if that is its end, else where the sending of its rest ended.
/// The rest is sent from where it was left, and the segment is signalled with its size.
pub proof fn law_earlier_segment_is_sealed_as_sent(
    run: RunView,
    v: LedgerView,
    seq: u32,
    path: Seq<char>,
    synced: u64,
    stat: FileStat,
    sent: u64,
    digest: [u8; 32],
    t1: i64,
    t2: i64,
    t3: i64,
)
    requires
        run.phase == (SegmentPhase::SealStat { seq, file_path: path, synced }),
        run.wf(),
        stat.size <= i64::MAX,
        synced <= i64::MAX,
        sent <= i64::MAX,
    ensures
        ({
            let first = reaction(run, v, SegmentReply::Stat(Some(stat)), t1);
            let run1 = RunView { phase: first.0, ..run };
            &&& first.1 == v
            &&& synced >= stat.size ==> {
                let second = reaction(run1, v, SegmentReply::Digest(Some(digest)), t2);
                &&& first.2 == (SegmentAction::Digest { file_path: path })
                &&& second.1.segments.contains_key(seq)
                &&& records_sealed(
                    second.1.segments[seq],
                    path,
                    stat.size as int,
                    digest@,
                    synced as int,
                    t2,
                )
                &&& signals(second.2, seq, stat.size)
            }
            &&& synced < stat.size ==> {
                let second = reaction(run1, v, SegmentReply::Sent(Some(sent)), t2);
                let run2 = RunView { phase: second.0, ..run };
                let third = reaction(run2, v, SegmentReply::Digest(Some(digest)), t3);
                &&& first.2 == (SegmentAction::Send { file_path: path, start_offset: synced })
                &&& second.1 == v
                &&& second.2 == (SegmentAction::Digest { file_path: path })
                &&& third.1.segments.contains_key(seq)
                &&& records_sealed(
                    third.1.segments[seq],
                    path,
                    stat.size as int,
                    digest@,
                    sent as int,
                    t3,
                )
                &&& signals(third.2, seq, stat.size)
            }
        }),
{
}

/// An earlier segment that was sealed with all of its bytes sent, and is not changed, is not sent
/// again by the next restart.
pub proof fn law_sealed_segment_is_not_resent(
    run: RunView,
    v: LedgerView,
    seq: u32,
    path: Seq<char>,
    synced: u64,
    stat: FileStat,
    digest: [u8; 32],
    t1: i64,
    t2: i64,
    item: ScanItem,
)
    requires
        run.phase == (SegmentPhase::SealStat { seq, file_path: path, synced }),
        run.wf(),
        synced == stat.size,
        stat.size <= i64::MAX,
        item.file_size == stat.size,
    ensures
        ({
            let first = reaction(run, v, SegmentReply::Stat(Some(stat)), t1);
            let run1 = RunView { phase: first.0, ..run };
            let second = reaction(run1, v, SegmentReply::Digest(Some(digest)), t2);
            plan_for(item, false, Some(second.1.segments[seq]), Some(digest@)) == Some(
                SegmentPlan::Skip,
            )
        }),
{
}

/// Each step of the work on one segment leaves the rows of all others, the checkpoints, the watched
/// directories and the scan alone; an earlier segment that is gone loses its row.
pub proof fn law_other_rows_stay(
    run: RunView,
    v: LedgerView,
    reply: SegmentReply,
    now: i64,
    other: u32,
)
    requires
        run.wf(),
        run.expects(reply),
    ensures
        ({
            let after = reaction(run, v, reply, now).1;
            let own = match run.phase {
                SegmentPhase::SealStat { seq, .. } => seq,
                SegmentPhase::SealSend { seq, .. } => seq,
                SegmentPhase::SealDigest { seq, .. } => seq,
                SegmentPhase::SealSignal { seq } => seq,
                _ => run.seq,
            };
            &&& other != own ==> {
                &&& after.segments.contains_key(other) == v.segments.contains_key(other)
                &&& v.segments.contains_key(other) ==> after.segments[other] == v.segments[other]
            }
            &&& after.checkpoints == v.checkpoints
            &&& after.watched == v.watched
            &&& after.scan == v.scan
            &&& run.phase is SealStat && reply->Stat_0 is None ==> !after.segments.contains_key(own)
        }),
{
}

/// What comes next is the first segment from `from` up to below the changed one that is known and
/// not sealed, from where the ledger says that it was sent to; if there is none, the changed one.
pub open spec fn takes_next(
    v: LedgerView,
    path: Seq<char>,
    seq: u32,
    from: int,
    phase: SegmentPhase<Seq<char>>,
    action: SegmentAction<Seq<char>>,
) -> bool {
    match phase {
        SegmentPhase::SealStat { seq: k, file_path, synced } => {
            &&& from <= k < seq
            &&& v.segments.contains_key(k) && v.segments[k].state != "SEALED"@
            &&& forall|j: u32|
                from <= j < k && #[trigger] v.segments.contains_key(j) ==> v.segments[j].state
                    == "SEALED"@
            &&& file_path == v.segments[k].file_path
            &&& v.segments[k].synced_offset >= 0 ==> synced == v.segments[k].synced_offset
            &&& v.segments[k].synced_offset < 0 ==> synced == 0
            &&& action == (SegmentAction::Stat { file_path: v.segments[k].file_path })
        },
        SegmentPhase::OwnStat => {
            &&& forall|j: u32|
                from <= j < seq && #[trigger] v.segments.contains_key(j) ==> v.segments[j].state
                    == "SEALED"@
            &&& action == (SegmentAction::Stat { file_path: path })
        },
        _ => false,
    }
}

/// Segments are taken in ascending order, none is passed over: a new segment with the greatest
/// number begins with the first earlier one that is not sealed, any other change with the segment
/// itself; after an earlier one was sealed and signalled, could not be sent or was gone, the next
/// one is taken.
pub proof fn law_segments_are_taken_in_order(
    run: RunView,
    v: LedgerView,
    reply: SegmentReply,
    now: i64,
    created: bool,
)
    requires
        run.wf(),
        run.expects(reply),
    ensures
        ({
            let (phase, action) = first_turn(v, run.file_path, run.seq, created);
            let newest = forall|k: u32| #[trigger] v.segments.contains_key(k) ==> k < run.seq;
            if created && newest {
                takes_next(v, run.file_path, run.seq, 0, phase, action)
            } else {
                phase is OwnStat && action == (SegmentAction::Stat { file_path: run.file_path })
            }
        }),
        ({
            let (phase, after, action) = reaction(run, v, reply, now);
            match run.phase {
                SegmentPhase::SealSignal { seq } => after == v && takes_next(
                    v,
                    run.file_path,
                    run.seq,
                    seq + 1,
                    phase,
                    action,
                ),
                SegmentPhase::SealSend { seq, .. } => reply->Sent_0 is None ==> after == v
                    && takes_next(v, run.file_path, run.seq, seq + 1, phase, action),
                SegmentPhase::SealStat { seq, .. } => reply->Stat_0 is None ==> takes_next(
                    after,
                    run.file_path,
                    run.seq,
                    seq + 1,
                    phase,
                    action,
                ),
                _ => true,
            }
        }),
{
    lemma_turn_takes_next(v, run.file_path, run.seq, 0);
    let after = reaction(run, v, reply, now).1;
    match run.phase {
        SegmentPhase::SealSignal { seq } => {
            lemma_turn_takes_next(v, run.file_path, run.seq, seq + 1);
        },
        SegmentPhase::SealSend { seq, .. } => {
            lemma_turn_takes_next(v, run.file_path, run.seq, seq + 1);
        },
        SegmentPhase::SealStat { seq, .. } => {
            lemma_turn_takes_next(after, run.file_path, run.seq, seq + 1);
        },
        _ => {},
    }
}

proof fn lemma_turn_takes_next(v: LedgerView, path: Seq<char>, seq: u32, from: int)
    requires
        0 <= from,
    ensures
        takes_next(v, path, seq, from, turn_to(v, path, seq, from).0, turn_to(v, path, seq, from).1),
{
    lemma_least_unsealed(v.segments, from, seq as int);
    assert forall|j: u32| #[trigger] v.segments.contains_key(j) implies (v.segments[j].state
        == "SEALED"@) == !unsealed(v.segments, j) by {}
}

/// A changed segment is continued where it was left, from the start if nothing was sent of it. If it
/// has grown beyond that it is sent from there, and recorded as sent up to where the sending ended:
/// as unfinished, or, if it was sealed before, as sealed anew with its size and digest, which is
/// signalled. If it has not grown or is gone, its row stays.
pub proof fn law_changed_segment_is_continued(
    run: RunView,
    v: LedgerView,
    stat: FileStat,
    sent: u64,
    digest: [u8; 32],
    t1: i64,
    t2: i64,
    t3: i64,
)
    requires
        run.phase is OwnStat,
        stat.size <= i64::MAX,
        sent <= i64::MAX,
    ensures
        ({
            let seq = run.seq;
            let path = run.file_path;
            let start = if v.segments.contains_key(seq) && v.segments[seq].synced_offset > 0 {
                v.segments[seq].synced_offset as int
            } else {
                0
            };
            let was_sealed = v.segments.contains_key(seq) && v.segments[seq].state == "SEALED"@;
            let first = reaction(run, v, SegmentReply::Stat(Some(stat)), t1);
            let run1 = RunView { phase: first.0, ..run };
            let second = reaction(run1, v, SegmentReply::Sent(Some(sent)), t2);
            let run2 = RunView { phase: second.0, ..run };
            let third = reaction(run2, v, SegmentReply::Digest(Some(digest)), t3);
            let gone = reaction(run, v, SegmentReply::Stat(None), t1);
            let failed = reaction(run1, v, SegmentReply::Sent(None), t2);
            &&& gone.1 == v && gone.2 is Done
            &&& stat.size <= start ==> first.2 is Done && first.1.segments == v.segments
            &&& stat.size > start ==> {
                &&& first.1 == v
                &&& first.2 == (SegmentAction::Send { file_path: path, start_offset: start as u64 })
                &&& failed.1 == v && failed.2 is Done
            }
            &&& stat.size > start && !was_sealed ==> {
                &&& second.2 is Done
                &&& second.1.segments.contains_key(seq)
                &&& second.1.segments[seq].state == "UNFINISHED"@
                &&& second.1.segments[seq].file_path == path
                &&& second.1.segments[seq].synced_offset == sent
                &&& second.1.segments[seq].updated_at == t2
            }
            &&& stat.size > start && was_sealed ==> {
                &&& second.1 == v
                &&& second.2 == (SegmentAction::Digest { file_path: path })
                &&& third.1.segments.contains_key(seq)
                &&& records_sealed(
                    third.1.segments[seq],
                    path,
                    stat.size as int,
                    digest@,
                    sent as int,
                    t3,
                )
                &&& signals(third.2, seq, stat.size)
            }
        }),
{
}

/// Where no digest could be taken 32 zero bytes stand for it; one that was taken is kept as it is.
pub proof fn law_missing_digest_is_zeros(digest: Option<[u8; 32]>, i: int)
    requires
        0 <= i < 32,
    ensures
        digest_or_zeros(digest).len() == 32,
        digest is None ==> digest_or_zeros(digest)[i] == 0,
        digest matches Some(d) ==> digest_or_zeros(digest)[i] == d@[i],
{
}

} // verus!
