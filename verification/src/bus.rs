//! What is put on the bus: chunks in encrypted batches, seal signals, answers to gap queries.

use vstd::prelude::*;

use crate::crypto::encrypt_chunk;
use crate::crypto::MAX_PLAINTEXT;
use crate::ledger::LocalLedger;
use crate::segment::parse_segment_seq;
use crate::slicer::slice_file_iter;
use crate::slicer::ChunkIter;
use crate::slicer::FileTail;
use crate::text::decimal_text;

verus! {

use crate::crypto::opened;
use crate::segment::segment_seq;
use crate::slicer::cdc::MAX_CHUNK;
use crate::slicer::chunk_limit;
use crate::slicer::is_structured;
use crate::slicer::joined;
use crate::slicer::law_sliced_tiles;
use crate::slicer::lemma_within_more;
use crate::slicer::sliced;
use crate::slicer::tiles;
use crate::slicer::Piece;
use crate::text::decimal;
use crate::text::texts;

/// A batch is sent when it has this many entries.
pub const BATCH_MAX_ENTRIES: usize = 256;

/// A batch is sent when its entries have this many bytes.
pub const BATCH_MAX_BYTES: u64 = 1048576;

/// The bytes that encryption adds to a chunk.
pub const ENTRY_OVERHEAD: u64 = 28;

/// What an entry of a batch, offset, length and payload, says to whoever has the key.
pub open spec fn entry_piece(key: Seq<u8>, entry: (u64, u32, Vec<u8>)) -> Piece {
    Piece { offset: entry.0 as nat, data: opened(key, entry.2@)->0 }
}

/// The payload of an entry opens under the key to as many bytes as the entry states.
pub open spec fn entry_opens(key: Seq<u8>, entry: (u64, u32, Vec<u8>)) -> bool {
    &&& opened(key, entry.2@) is Some
    &&& entry.1 == opened(key, entry.2@)->0.len() % 0x1_0000_0000
    &&& entry.2@.len() == opened(key, entry.2@)->0.len() + ENTRY_OVERHEAD
}

/// What a batch says to whoever has the key.
pub open spec fn batch_pieces(key: Seq<u8>, batch: Seq<(u64, u32, Vec<u8>)>) -> Seq<Piece> {
    batch.map_values(|e: (u64, u32, Vec<u8>)| entry_piece(key, e))
}

/// Every entry of a batch opens.
pub open spec fn batch_opens(key: Seq<u8>, batch: Seq<(u64, u32, Vec<u8>)>) -> bool {
    forall|i: int| 0 <= i < batch.len() ==> entry_opens(key, #[trigger] batch[i])
}

/// The bytes that chunks take in a batch.
pub open spec fn batch_cost(list: Seq<Piece>) -> nat
    decreases list.len(),
{
    if list.len() == 0 {
        0
    } else {
        batch_cost(list.drop_last()) + list.last().data.len() + ENTRY_OVERHEAD as nat
    }
}

/// A batch has to be sent before more goes in.
pub open spec fn batch_full(list: Seq<Piece>) -> bool {
    list.len() >= BATCH_MAX_ENTRIES || batch_cost(list) >= BATCH_MAX_BYTES
}

/// The batches that go out when `pending` waits and `list` is to come: each as soon as it is full,
/// the last one when nothing is left.
pub open spec fn batches(pending: Seq<Piece>, list: Seq<Piece>) -> Seq<Seq<Piece>>
    decreases list.len(),
{
    if list.len() == 0 {
        if pending.len() == 0 {
            Seq::empty()
        } else {
            seq![pending]
        }
    } else {
        let more = pending.push(list[0]);
        if batch_full(more) {
            seq![more] + batches(Seq::empty(), list.skip(1))
        } else {
            batches(more, list.skip(1))
        }
    }
}

/// The chunks of a list of batches, one after the other.
pub open spec fn unbatched(list: Seq<Seq<Piece>>) -> Seq<Piece>
    decreases list.len(),
{
    if list.len() == 0 {
        Seq::empty()
    } else {
        list[0] + unbatched(list.skip(1))
    }
}

/// Batching loses no chunk, adds none and keeps their order.
pub proof fn law_batches_keep_chunks(pending: Seq<Piece>, list: Seq<Piece>)
    ensures
        unbatched(batches(pending, list)) == pending + list,
    decreases list.len(),
{
    let all = batches(pending, list);
    if list.len() == 0 {
        if pending.len() == 0 {
            assert(unbatched(all) =~= pending + list);
        } else {
            assert(all.skip(1) =~= Seq::<Seq<Piece>>::empty());
            assert(unbatched(all.skip(1)) =~= Seq::<Piece>::empty());
            assert(unbatched(all) =~= pending + list);
        }
    } else {
        let more = pending.push(list[0]);
        assert(more + list.skip(1) =~= pending + list);
        if batch_full(more) {
            law_batches_keep_chunks(Seq::empty(), list.skip(1));
            assert(all.skip(1) =~= batches(Seq::empty(), list.skip(1)));
            assert(Seq::<Piece>::empty() + list.skip(1) =~= list.skip(1));
        } else {
            law_batches_keep_chunks(more, list.skip(1));
        }
    }
}

/// No batch is empty, none has more entries than the limit, and none was full before its last
/// chunk: without that chunk each stays below both limits.
pub proof fn law_batches_within_limits(pending: Seq<Piece>, list: Seq<Piece>, k: int)
    requires
        !batch_full(pending),
        0 <= k < batches(pending, list).len(),
    ensures
        0 < batches(pending, list)[k].len() <= BATCH_MAX_ENTRIES,
        k < batches(pending, list).len() - 1 ==> batch_full(batches(pending, list)[k]),
        list.len() > 0 ==> !batch_full(batches(pending, list)[k].drop_last()),
    decreases list.len(),
{
    let all = batches(pending, list);
    if list.len() > 0 {
        let more = pending.push(list[0]);
        assert(more.drop_last() =~= pending);
        if batch_full(more) {
            let later = batches(Seq::empty(), list.skip(1));
            if k > 0 {
                assert(all[k] == later[k - 1]);
                assert(!batch_full(Seq::<Piece>::empty()));
                law_batches_within_limits(Seq::empty(), list.skip(1), k - 1);
                if list.skip(1).len() == 0 {
                    assert(later.len() == 0);
                }
            }
        } else {
            law_batches_within_limits(more, list.skip(1), k);
            if list.skip(1).len() == 0 {
                assert(all =~= seq![more]);
            }
        }
    }
}

/// Encrypts a chunk: its length and its payload.
pub fn encrypt_one(key: &[u8; 32], data: &[u8]) -> (r: (u32, Vec<u8>))
    requires
        data@.len() <= MAX_PLAINTEXT,
    ensures
        r.0 == data@.len() % 0x1_0000_0000,
        opened(key@, r.1@) == Some(data@),
        r.1@.len() == data@.len() + ENTRY_OVERHEAD,
{
    let n: u64 = data.len() as u64;
    assert(n as u32 == n % 0x1_0000_0000) by (bit_vector);
    (n as u32, encrypt_chunk(key, data))
}

/// What a file job asks for next.
pub enum JobStep {
    /// Feed the next bytes of the file, or say that it has ended.
    NeedBytes,
    /// Put this batch on the bus.
    Publish(Vec<(u64, u32, Vec<u8>)>),
    /// Everything was handed out: how far the file was sent, and in how many chunks.
    Finished { last_offset: u64, chunks: u64 },
}

/// Sends a file: slices it, encrypts the chunks and hands them out in batches. At no time does it
/// hold more than one window of a streamed file and one batch.
pub struct FileJob {
    iter: ChunkIter,
    key: [u8; 32],
    segment_seq: u32,
    batch: Vec<(u64, u32, Vec<u8>)>,
    batch_bytes: u64,
    last_offset: u64,
    chunk_count: u64,
}

impl FileJob {
    /// The key that the batches are encrypted with.
    pub closed spec fn key(&self) -> Seq<u8> {
        self.key@
    }

    /// The segment that the file is, or zero.
    pub closed spec fn segment(&self) -> u32 {
        self.segment_seq
    }

    /// The chunks that wait to be sent.
    pub closed spec fn pending(&self) -> Seq<Piece> {
        batch_pieces(self.key@, self.batch@)
    }

    /// The chunks that are still to be cut, when `future` is what will still be fed.
    pub closed spec fn rest(&self, future: Seq<u8>) -> Seq<Piece> {
        self.iter.rest(future)
    }

    /// No more bytes will be fed.
    pub closed spec fn at_end(&self) -> bool {
        self.iter.at_end()
    }

    /// The end of the last chunk that was cut.
    pub closed spec fn position(&self) -> nat {
        self.last_offset as nat
    }

    /// The number of bytes that were fed and not yet cut.
    pub closed spec fn held(&self) -> nat {
        self.iter.held()
    }

    /// The number of chunks that were cut.
    pub closed spec fn count(&self) -> nat {
        self.chunk_count as nat
    }

    pub closed spec fn wf(&self) -> bool {
        &&& self.iter.wf()
        &&& self.iter.starts_at(self.last_offset as nat)
        &&& self.iter.within(MAX_PLAINTEXT as int)
        &&& batch_opens(self.key@, self.batch@)
        &&& !batch_full(self.pending())
        &&& self.batch_bytes == batch_cost(self.pending())
        &&& self.chunk_count <= self.last_offset
    }

    /// The batches still to be handed out, when `future` is what will still be fed.
    pub open spec fn output(&self, future: Seq<u8>) -> Seq<Seq<Piece>> {
        batches(self.pending(), self.rest(future))
    }

    /// Where the file ends, when `future` is what will still be fed.
    pub open spec fn final_offset(&self, future: Seq<u8>) -> nat {
        self.position() + joined(self.rest(future)).len()
    }

    /// In how many chunks the file goes out, when `future` is what will still be fed.
    pub open spec fn final_count(&self, future: Seq<u8>) -> nat {
        self.count() + self.rest(future).len()
    }

    /// Whatever is still to be fed, another state of the job hands out the same and ends the same.
    pub open spec fn comes_to_same(&self, other: FileJob) -> bool {
        forall|future: Seq<u8>|
            (self.at_end() ==> future.len() == 0) ==> {
                &&& #[trigger] self.output(future) == other.output(future)
                &&& other.final_offset(future) == self.final_offset(future)
                &&& other.final_count(future) == self.final_count(future)
            }
    }

    /// Sets up a file for sending from an offset on.
    pub fn new(file_path: &str, start_offset: u64, tail: FileTail, key: [u8; 32]) -> (r: Self)
        requires
            tail matches FileTail::Whole(bytes) ==> start_offset + bytes@.len() <= u64::MAX
                && bytes@.len() <= MAX_PLAINTEXT,
            tail is Streamed ==> !is_structured(file_path@),
        ensures
            r.wf(),
            r.key() == key@,
            r.segment() == (match segment_seq(file_path@) {
                Some(seq) => seq,
                None => 0,
            }),
            r.pending() == Seq::<Piece>::empty(),
            r.position() == start_offset,
            r.count() == 0,
            r.at_end() == !(tail is Streamed),
            tail is Streamed ==> r.held() == 0,
            tail is Unreadable ==> r.rest(Seq::empty()) == Seq::<Piece>::empty(),
            tail matches FileTail::Whole(bytes) ==> r.rest(Seq::empty()) == sliced(
                file_path@,
                bytes@,
                start_offset as nat,
            ),
            tail is Streamed ==> forall|future: Seq<u8>| #[trigger]
                r.rest(future) == sliced(file_path@, future, start_offset as nat),
    {
        let segment_seq: u32 = match parse_segment_seq(file_path) {
            Some(seq) => seq,
            None => 0,
        };
        let ghost given = tail;
        let iter = slice_file_iter(file_path, start_offset, tail);
        let batch: Vec<(u64, u32, Vec<u8>)> = Vec::new();
        assert(batch_pieces(key@, batch@) =~= Seq::<Piece>::empty());
        let r = FileJob {
            iter,
            key,
            segment_seq,
            batch,
            batch_bytes: 0,
            last_offset: start_offset,
            chunk_count: 0,
        };
        proof {
            lemma_within_more(r.iter, chunk_limit(given), MAX_PLAINTEXT as int);
            assert forall|future: Seq<u8>| given is Streamed implies #[trigger] r.rest(future)
                == sliced(file_path@, future, start_offset as nat) by {
                assert(r.iter.rest(future) == sliced(file_path@, future, start_offset as nat));
            }
        }
        r
    }

    /// The segment that the file is, or zero.
    pub fn segment_seq(&self) -> (r: u32)
        ensures
            r == self.segment(),
    {
        self.segment_seq
    }

    /// Whether `more` bytes can be fed.
    pub fn accepts(&self, more: usize) -> (r: bool)
        ensures
            r == (!self.at_end() && self.position() + self.held() + more <= u64::MAX && self.held()
                + more <= usize::MAX),
    {
        let held: usize = self.iter.held_len();
        let ended: bool = match &self.iter {
            ChunkIter::Ast(_) => true,
            ChunkIter::Cdc(it) => it.ended(),
        };
        !ended && (self.last_offset as u128) + (held as u128) + (more as u128) <= u64::MAX as u128
            && (held as u128) + (more as u128) <= usize::MAX as u128
    }

    /// Adds the next bytes of the file.
    pub fn feed(&mut self, bytes: Vec<u8>)
        requires
            old(self).wf(),
            !old(self).at_end(),
            old(self).position() + old(self).held() + bytes@.len() <= u64::MAX,
            old(self).held() + bytes@.len() <= usize::MAX,
        ensures
            final(self).wf(),
            !final(self).at_end(),
            final(self).key() == old(self).key(),
            final(self).segment() == old(self).segment(),
            final(self).pending() == old(self).pending(),
            final(self).position() == old(self).position(),
            final(self).count() == old(self).count(),
            final(self).held() == old(self).held() + bytes@.len(),
            forall|future: Seq<u8>| #[trigger]
                final(self).rest(future) == old(self).rest(bytes@ + future),
    {
        proof {
            assert forall|o: nat| #[trigger] self.iter.starts_at(o) implies o + self.iter.held()
                + bytes@.len() <= u64::MAX by {}
        }
        let ghost more = bytes@;
        self.iter.feed(bytes);
        proof {
            assert forall|future: Seq<u8>| #[trigger] self.rest(future) == old(self).rest(
                more + future,
            ) by {
                assert(self.iter.rest(future) == old(self).iter.rest(more + future));
            }
        }
    }

    /// Notes that the file has no more bytes.
    pub fn finish(&mut self)
        requires
            old(self).wf(),
        ensures
            final(self).wf(),
            final(self).at_end(),
            final(self).key() == old(self).key(),
            final(self).segment() == old(self).segment(),
            final(self).pending() == old(self).pending(),
            final(self).position() == old(self).position(),
            final(self).count() == old(self).count(),
            final(self).held() == old(self).held(),
            forall|future: Seq<u8>| #[trigger] final(self).rest(future) == old(self).rest(future),
    {
        self.iter.finish();
        proof {
            assert forall|future: Seq<u8>| #[trigger] self.rest(future) == old(self).rest(
                future,
            ) by {
                assert(self.iter.rest(future) == old(self).iter.rest(future));
            }
        }
    }

    /// Goes on until bytes are needed, a batch is to be sent, or nothing is left. Whatever is still
    /// to be fed, what is handed out and what remains is what there was.
    pub fn step(&mut self) -> (r: JobStep)
        requires
            old(self).wf(),
        ensures
            final(self).wf(),
            final(self).key() == old(self).key(),
            final(self).segment() == old(self).segment(),
            final(self).at_end() == old(self).at_end(),
            forall|future: Seq<u8>|
                (old(self).at_end() ==> future.len() == 0) ==> {
                    &&& #[trigger] old(self).output(future) == match r {
                        JobStep::Publish(batch) => seq![batch_pieces(old(self).key(), batch@)]
                            + final(self).output(future),
                        _ => final(self).output(future),
                    }
                    &&& final(self).final_offset(future) == old(self).final_offset(future)
                    &&& final(self).final_count(future) == old(self).final_count(future)
                },
            r is NeedBytes ==> !old(self).at_end() && final(self).held() < MAX_CHUNK,
            r matches JobStep::Publish(batch) ==> {
                &&& 0 < batch@.len() <= BATCH_MAX_ENTRIES
                &&& batch_opens(old(self).key(), batch@)
            },
            r matches JobStep::Finished { last_offset, chunks } ==> {
                &&& old(self).at_end()
                &&& old(self).output(Seq::empty()) == Seq::<Seq<Piece>>::empty()
                &&& last_offset == old(self).final_offset(Seq::empty())
                &&& chunks == old(self).final_count(Seq::empty())
            },
    {
        loop
            invariant
                self.wf(),
                self.key() == old(self).key(),
                self.segment() == old(self).segment(),
                self.at_end() == old(self).at_end(),
                old(self).comes_to_same(*self),
            decreases self.rest(Seq::empty()).len(),
        {
            let ghost before = *self;
            match self.iter.next() {
                None => {
                    assert(*self == before);
                    if self.iter.wants_input() {
                        return JobStep::NeedBytes;
                    }
                    assert(self.rest(Seq::empty()).len() == 0);
                    if self.batch.len() == 0 {
                        proof {
                            assert(self.pending().len() == 0);
                            assert(old(self).output(Seq::empty()) == self.output(Seq::empty()));
                            assert(joined(self.rest(Seq::empty())).len() == 0);
                        }
                        return JobStep::Finished {
                            last_offset: self.last_offset,
                            chunks: self.chunk_count,
                        };
                    }
                    let ghost waiting = self.pending();
                    let mut out: Vec<(u64, u32, Vec<u8>)> = Vec::new();
                    std::mem::swap(&mut out, &mut self.batch);
                    self.batch_bytes = 0;
                    proof {
                        assert(self.pending() =~= Seq::<Piece>::empty());
                        assert(waiting.len() == out@.len());
                        assert forall|future: Seq<u8>|
                            (old(self).at_end() ==> future.len() == 0) implies {
                            &&& #[trigger] old(self).output(future) == seq![
                                batch_pieces(old(self).key(), out@),
                            ] + self.output(future)
                            &&& self.final_offset(future) == old(self).final_offset(future)
                            &&& self.final_count(future) == old(self).final_count(future)
                        } by {
                            assert(future =~= Seq::<u8>::empty());
                            assert(old(self).output(future) == before.output(future));
                            assert(before.output(future) =~= seq![waiting]);
                            assert(seq![waiting] + self.output(future) =~= seq![waiting]);
                        }
                    }
                    return JobStep::Publish(out);
                },
                Some(chunk) => {
                    let (length, payload) = encrypt_one(&self.key, &chunk.data);
                    let entry = (chunk.offset, length, payload);
                    self.batch_bytes = self.batch_bytes + chunk.data.len() as u64 + ENTRY_OVERHEAD;
                    self.batch.push(entry);
                    self.last_offset = chunk.offset + chunk.length;
                    self.chunk_count = self.chunk_count + 1;
                    let ghost waiting = self.pending();
                    let ghost pushed = *self;
                    proof {
                        assert(entry_piece(self.key@, entry) == chunk@);
                        assert(waiting =~= before.pending().push(chunk@));
                        assert(waiting.drop_last() =~= before.pending());
                        assert forall|future: Seq<u8>|
                            (old(self).at_end() ==> future.len() == 0) implies {
                            &&& #[trigger] old(self).output(future) == if batch_full(waiting) {
                                seq![waiting] + batches(Seq::empty(), self.rest(future))
                            } else {
                                batches(waiting, self.rest(future))
                            }
                            &&& self.final_offset(future) == old(self).final_offset(future)
                            &&& self.final_count(future) == old(self).final_count(future)
                        } by {
                            let list = before.rest(future);
                            assert(old(self).output(future) == before.output(future));
                            assert(before.iter.rest(future) == seq![chunk@] + self.iter.rest(future));
                            assert(list[0] == chunk@);
                            assert(list.skip(1) =~= self.rest(future));
                            assert(joined(list) == chunk@.data + joined(self.rest(future)));
                        }
                        assert(before.iter.rest(Seq::empty()) == seq![chunk@] + self.iter.rest(
                            Seq::empty(),
                        ));
                    }
                    if self.batch.len() >= BATCH_MAX_ENTRIES || self.batch_bytes >= BATCH_MAX_BYTES {
                        let mut out: Vec<(u64, u32, Vec<u8>)> = Vec::new();
                        std::mem::swap(&mut out, &mut self.batch);
                        self.batch_bytes = 0;
                        proof {
                            assert(self.pending() =~= Seq::<Piece>::empty());
                            assert(waiting == batch_pieces(old(self).key(), out@));
                            assert(waiting.len() == out@.len());
                            assert(batch_full(waiting));
                            assert forall|future: Seq<u8>|
                                (old(self).at_end() ==> future.len() == 0) implies {
                                &&& #[trigger] old(self).output(future) == seq![
                                    batch_pieces(old(self).key(), out@),
                                ] + self.output(future)
                                &&& self.final_offset(future) == old(self).final_offset(future)
                                &&& self.final_count(future) == old(self).final_count(future)
                            } by {
                                assert(self.rest(future) == pushed.rest(future));
                                assert(old(self).output(future) == seq![waiting] + batches(
                                    Seq::empty(),
                                    pushed.rest(future),
                                ));
                            }
                        }
                        return JobStep::Publish(out);
                    }
                    proof {
                        assert(!batch_full(waiting));
                        assert(old(self).comes_to_same(*self));
                    }
                },
            }
        }
    }
}

/// A file that is sent from an offset on is sent up to its end, and its chunks, opened in the order
/// in which they go out, are its bytes.
pub proof fn law_file_is_sent_whole(job: FileJob, path: Seq<char>, data: Seq<u8>, start: nat)
    requires
        job.position() == start,
        job.pending() == Seq::<Piece>::empty(),
        job.rest(Seq::empty()) == sliced(path, data, start),
    ensures
        job.final_offset(Seq::empty()) == start + data.len(),
        tiles(unbatched(job.output(Seq::empty())), data, start),
{
    law_sliced_tiles(path, data, start);
    law_batches_keep_chunks(job.pending(), job.rest(Seq::empty()));
    assert(job.pending() + sliced(path, data, start) =~= sliced(path, data, start));
}

/// What `serde_json::to_string` gives for a list of texts.
pub uninterp spec fn json_strings(list: Seq<Seq<char>>) -> Seq<char>;

/// `serde_json::to_string` on a list of strings. It gives a JSON text, which depends on the strings
/// alone: only what is no string, and no list of such, can fail.
#[verifier::external_body]
fn strings_to_json(list: &Vec<String>) -> (r: Option<String>)
    ensures
        r is Some,
        r matches Some(s) ==> s@ == json_strings(texts(list@)),
{
    serde_json::to_string(list).ok()
}

/// The connection setting for a list of endpoints, given the JSON text of the list: none where the
/// default discovery is to be used, and an empty text where the list has no JSON text.
pub fn endpoints_setting(any: bool, json: Option<String>) -> (r: Option<String>)
    ensures
        r is Some == any,
        r matches Some(s) ==> s@ == (match json {
            Some(text) => text@,
            None => Seq::empty(),
        }),
{
    if !any {
        None
    } else {
        match json {
            Some(text) => Some(text),
            None => Some(String::new()),
        }
    }
}

/// The value of the setting `connect/endpoints`, or none where nothing is to be set.
pub fn connect_setting(connect: &Vec<String>) -> (r: Option<String>)
    ensures
        r is Some == (connect@.len() > 0),
        r matches Some(s) ==> s@ == json_strings(texts(connect@)),
{
    endpoints_setting(connect.len() > 0, strings_to_json(connect))
}

/// The signal that a segment is complete.
pub struct SealSignal {
    pub topic: String,
    pub dev_id: u32,
    pub segment_seq: u32,
    pub sealed_size: u64,
}

/// The answer to a query for missing chunks.
pub enum GapAnswer {
    /// Nothing can be sent; this is the reply.
    Reply(String),
    /// The file is sent again from the offset on, as chunks of the segment.
    Resend { file_path: String, segment_seq: u32, start_offset: u64 },
}

/// The bus as far as the client decides: whether there is a session, and what goes into a frame.
pub struct Bus {
    online: bool,
    key: [u8; 32],
    dev_id: u32,
}

impl Bus {
    /// There is a session.
    pub closed spec fn has_session(&self) -> bool {
        self.online
    }

    /// The key that chunks are encrypted with.
    pub closed spec fn key(&self) -> Seq<u8> {
        self.key@
    }

    /// The device that frames name as their origin.
    pub closed spec fn device(&self) -> u32 {
        self.dev_id
    }

    /// A bus after the attempt to open a session. Without a session the client goes on alone.
    pub fn connect(online: bool, key: [u8; 32], dev_id: u32) -> (r: Self)
        ensures
            r.has_session() == online,
            r.key() == key@,
            r.device() == dev_id,
    {
        Bus { online, key, dev_id }
    }

    /// Whether there is a session.
    pub fn is_online(&self) -> (r: bool)
        ensures
            r == self.has_session(),
    {
        self.online
    }

    /// The device that frames name as their origin.
    pub fn dev_id(&self) -> (r: u32)
        ensures
            r == self.device(),
    {
        self.dev_id
    }

    /// The signal for a complete segment, if there is a session to put it on. Its topic is the
    /// prefix, a slash and the segment number.
    pub fn send_seal(&self, prefix: &str, segment_seq: u32, sealed_size: u64) -> (r: Option<
        SealSignal,
    >)
        ensures
            r is Some == self.has_session(),
            r matches Some(s) ==> {
                &&& s.topic@ == prefix@ + "/"@ + decimal(segment_seq as nat)
                &&& s.dev_id == self.device()
                &&& s.segment_seq == segment_seq
                &&& s.sealed_size == sealed_size
            },
    {
        if !self.online {
            return None;
        }
        let mut topic: String = prefix.to_string();
        topic.append("/");
        topic.append(&decimal_text(segment_seq as u64));
        Some(SealSignal { topic, dev_id: self.dev_id, segment_seq, sealed_size })
    }

    /// Sets up a file for sending from an offset on.
    pub fn process_file(&self, file_path: &str, start_offset: u64, tail: FileTail) -> (r: FileJob)
        requires
            tail matches FileTail::Whole(bytes) ==> start_offset + bytes@.len() <= u64::MAX
                && bytes@.len() <= MAX_PLAINTEXT,
            tail is Streamed ==> !is_structured(file_path@),
        ensures
            r.wf(),
            r.key() == self.key(),
            r.segment() == (match segment_seq(file_path@) {
                Some(seq) => seq,
                None => 0,
            }),
            r.pending() == Seq::<Piece>::empty(),
            r.position() == start_offset,
            r.count() == 0,
            r.at_end() == !(tail is Streamed),
            tail is Streamed ==> r.held() == 0,
            tail is Unreadable ==> r.rest(Seq::empty()) == Seq::<Piece>::empty(),
            tail matches FileTail::Whole(bytes) ==> r.rest(Seq::empty()) == sliced(
                file_path@,
                bytes@,
                start_offset as nat,
            ),
            tail is Streamed ==> forall|future: Seq<u8>| #[trigger]
                r.rest(future) == sliced(file_path@, future, start_offset as nat),
    {
        FileJob::new(file_path, start_offset, tail, self.key)
    }
}

/// The file of a segment that a gap query asks for, if the ledger knows the segment.
pub fn gap_file(ledger: &LocalLedger, segment_seq: u32) -> (r: Option<String>)
    ensures
        r is Some == ledger@.segments.contains_key(segment_seq),
        r matches Some(path) ==> path@ == ledger@.segments[segment_seq].file_path,
{
    match ledger.get_segment(segment_seq) {
        None => None,
        Some(state) => Some(state.file_path),
    }
}

/// The answer to a gap query: `unknown` for a segment that is not in the ledger, `gone` for one
/// whose file no longer exists, else the file is sent again.
pub fn answer_gap(
    file_path: Option<String>,
    exists_on_disk: bool,
    segment_seq: u32,
    start_offset: u64,
) -> (r: GapAnswer)
    ensures
        file_path is None ==> (r matches GapAnswer::Reply(s) && s@ == "unknown"@),
        file_path is Some && !exists_on_disk ==> (r matches GapAnswer::Reply(s) && s@ == "gone"@),
        file_path is Some && exists_on_disk ==> r == (GapAnswer::Resend {
            file_path: file_path->0,
            segment_seq,
            start_offset,
        }),
{
    match file_path {
        None => GapAnswer::Reply("unknown".to_string()),
        Some(file_path) => {
            if exists_on_disk {
                GapAnswer::Resend { file_path, segment_seq, start_offset }
            } else {
                GapAnswer::Reply("gone".to_string())
            }
        },
    }
}

/// The reply after chunks were sent again: `resent=` and their number.
pub fn resent_reply(resent: u64) -> (r: String)
    ensures
        r@ == "resent="@ + decimal(resent as nat),
{
    let mut r: String = "resent=".to_string();
    r.append(&decimal_text(resent));
    r
}

/// Chunks take their bytes in a batch and 28 more for each.
pub proof fn law_batch_bytes(list: Seq<Piece>)
    ensures
        batch_cost(list) == joined(list).len() + 28 * list.len(),
    decreases list.len(),
{
    if list.len() > 0 {
        let front = list.drop_last();
        law_batch_bytes(front);
        lemma_joined_last(list);
    }
}

proof fn lemma_joined_last(list: Seq<Piece>)
    requires
        list.len() > 0,
    ensures
        joined(list).len() == joined(list.drop_last()).len() + list.last().data.len(),
    decreases list.len(),
{
    let front = list.drop_last();
    if list.len() == 1 {
        assert(joined(list.skip(1)).len() == 0);
        assert(joined(front).len() == 0);
    } else {
        lemma_joined_last(list.skip(1));
        assert(list.skip(1).drop_last() =~= front.skip(1));
    }
}

/// The chunks of a file go out in batches that are as great as they may be and no greater: each but
/// the last has 256 chunks or takes a mebibyte, and without its last chunk each has fewer chunks and
/// takes less.
pub proof fn law_batches_in_numbers(list: Seq<Piece>, k: int)
    requires
        0 <= k < batches(Seq::empty(), list).len(),
    ensures
        ({
            let batch = batches(Seq::empty(), list)[k];
            &&& 0 < batch.len() <= 256
            &&& joined(batch.drop_last()).len() + 28 * (batch.len() - 1) < 1048576
            &&& k < batches(Seq::empty(), list).len() - 1 ==> batch.len() == 256 || joined(
                batch,
            ).len() + 28 * batch.len() >= 1048576
        }),
{
    let batch = batches(Seq::empty(), list)[k];
    assert(!batch_full(Seq::<Piece>::empty()));
    law_batches_within_limits(Seq::empty(), list, k);
    law_batch_bytes(batch);
    law_batch_bytes(batch.drop_last());
}

/// A batch says chunk by chunk where the chunk stands in the file and what its bytes are: those that
/// the payload opens to, which is 28 bytes longer, and whose number the entry states.
pub proof fn law_entries_say_their_chunks(
    key: Seq<u8>,
    batch: Seq<(u64, u32, Vec<u8>)>,
    i: int,
)
    requires
        batch_opens(key, batch),
        0 <= i < batch.len(),
    ensures
        ({
            let said = batch_pieces(key, batch);
            &&& said.len() == batch.len()
            &&& said[i].offset == batch[i].0
            &&& opened(key, batch[i].2@) == Some(said[i].data)
            &&& batch[i].2@.len() == said[i].data.len() + 28
            &&& said[i].data.len() <= u32::MAX ==> batch[i].1 == said[i].data.len()
        }),
{
    assert(entry_opens(key, batch[i]));
}

/// A job that was set up and has cut nothing counts in the end the chunks of its file.
pub proof fn law_chunks_are_counted(job: FileJob, path: Seq<char>, data: Seq<u8>, start: nat)
    requires
        job.count() == 0,
        job.pending() == Seq::<Piece>::empty(),
        job.rest(Seq::empty()) == sliced(path, data, start),
    ensures
        job.final_count(Seq::empty()) == sliced(path, data, start).len(),
        job.final_count(Seq::empty()) == unbatched(job.output(Seq::empty())).len(),
{
    law_batches_keep_chunks(job.pending(), job.rest(Seq::empty()));
    assert(job.pending() + sliced(path, data, start) =~= sliced(path, data, start));
}

} // verus!
