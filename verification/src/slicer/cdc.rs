//! Content-defined chunking with a rolling gear hash.

use vstd::prelude::*;

use crate::slicer::copy_range;
use crate::slicer::Chunk;

verus! {

use crate::slicer::all_wf;
use crate::slicer::pieces;
use crate::slicer::tiles;
use crate::slicer::Piece;
use vstd::arithmetic::div_mod::lemma_add_mod_noop_right;

/// No chunk but the last has fewer bytes.
pub const MIN_CHUNK: u64 = 2048;

/// From this length on a cut needs more zero bits.
pub const AVG_CHUNK: u64 = 8192;

/// No chunk has more bytes.
pub const MAX_CHUNK: u64 = 65536;

/// The golden-ratio multiplier that spreads one byte over 64 bits.
pub const GEAR_FACTOR: u64 = 0x9e3779b97f4a7c15;

/// The gear value of a byte.
pub open spec fn gear(b: u8) -> nat {
    (b as nat * GEAR_FACTOR as nat) % 0x1_0000_0000_0000_0000
}

/// The rolling hash of the bytes of a chunk: each byte doubles it and adds its gear value, modulo
/// two to the 64.
pub open spec fn rolling(data: Seq<u8>) -> nat
    decreases data.len(),
{
    if data.len() == 0 {
        0
    } else {
        (2 * rolling(data.drop_last()) + gear(data.last())) % 0x1_0000_0000_0000_0000
    }
}

/// A chunk that starts with `data` may end with byte `i`: it is past the minimum and the hash ends
/// in three zero bits (five from the average on), or no more bytes are let in.
pub open spec fn is_cut(data: Seq<u8>, i: int) -> bool {
    let h = rolling(data.take(i + 1));
    i >= MIN_CHUNK && ((if i < AVG_CHUNK {
        h % 8 == 0
    } else {
        h % 32 == 0
    }) || i >= MAX_CHUNK - MIN_CHUNK)
}

/// The length of the first chunk of `data`, given that no byte before `i` ends it.
pub open spec fn cut_from(data: Seq<u8>, i: int) -> int
    decreases data.len() - i,
{
    if i >= data.len() {
        data.len() as int
    } else if is_cut(data, i) {
        i + 1
    } else {
        cut_from(data, i + 1)
    }
}

/// The length of the first chunk of `data`: up to and with the first byte that may end it, or all.
pub open spec fn first_len(data: Seq<u8>) -> int {
    cut_from(data, 0)
}

/// The chunks of `data`, which stands at `start`.
pub open spec fn cdc_pieces(data: Seq<u8>, start: nat) -> Seq<Piece>
    decreases data.len(),
{
    if data.len() == 0 {
        Seq::empty()
    } else {
        proof {
            lemma_cut_from(data, 0);
        }
        let n = first_len(data);
        seq![Piece { offset: start, data: data.take(n) }] + cdc_pieces(
            data.skip(n),
            (start + n) as nat,
        )
    }
}

/// Where the first chunk ends: nothing before may end it, and it has at most 63489 bytes.
pub proof fn lemma_cut_from(data: Seq<u8>, i: int)
    requires
        0 <= i <= data.len(),
        i <= MAX_CHUNK - MIN_CHUNK,
    ensures
        i <= cut_from(data, i) <= data.len(),
        i < data.len() ==> i < cut_from(data, i),
        cut_from(data, i) <= MAX_CHUNK - MIN_CHUNK + 1,
        cut_from(data, i) < data.len() ==> is_cut(data, cut_from(data, i) - 1),
        forall|j: int| i <= j < cut_from(data, i) - 1 ==> !#[trigger] is_cut(data, j),
    decreases data.len() - i,
{
    if i < data.len() && !is_cut(data, i) {
        lemma_cut_from(data, i + 1);
    }
}

/// Whether a byte may end the first chunk depends on the bytes up to it alone.
proof fn lemma_is_cut_extend(data: Seq<u8>, more: Seq<u8>, i: int)
    requires
        0 <= i < data.len(),
    ensures
        is_cut(data + more, i) == is_cut(data, i),
{
    assert((data + more).take(i + 1) =~= data.take(i + 1));
}

proof fn lemma_cut_from_extend(data: Seq<u8>, more: Seq<u8>, i: int)
    requires
        0 <= i < data.len(),
        i <= MAX_CHUNK - MIN_CHUNK,
        is_cut(data, cut_from(data, i) - 1),
    ensures
        cut_from(data + more, i) == cut_from(data, i),
    decreases data.len() - i,
{
    lemma_is_cut_extend(data, more, i);
    lemma_cut_from(data, i);
    if !is_cut(data, i) {
        if i + 1 < data.len() {
            lemma_cut_from_extend(data, more, i + 1);
        } else {
            assert(cut_from(data, i + 1) == data.len());
        }
    }
}

/// A first chunk that ends in a cut is the first chunk of every continuation too.
pub proof fn lemma_first_len_extend(data: Seq<u8>, more: Seq<u8>)
    requires
        data.len() > 0,
        is_cut(data, first_len(data) - 1),
    ensures
        first_len(data + more) == first_len(data),
{
    lemma_cut_from_extend(data, more, 0);
}

/// The gear value of a byte, computed in 64 bits.
pub fn gear_hash(b: u8) -> (r: u64)
    ensures
        r as nat == gear(b),
{
    (b as u64).wrapping_mul(GEAR_FACTOR)
}

/// The rolling hash after one more byte.
fn roll(hash: u64, b: u8) -> (r: u64)
    ensures
        r as nat == (2 * hash as nat + gear(b)) % 0x1_0000_0000_0000_0000,
{
    let doubled: u64 = hash.wrapping_shl(1);
    assert(hash << 1u32 == (2 * hash) % 0x1_0000_0000_0000_0000) by (bit_vector);
    doubled.wrapping_add(gear_hash(b))
}

/// Where the chunk that starts at `from` ends.
fn chunk_end(data: &Vec<u8>, from: usize) -> (r: usize)
    requires
        from < data@.len(),
    ensures
        from < r <= data@.len(),
        r - from == first_len(data@.skip(from as int)),
{
    let ghost rest = data@.skip(from as int);
    let total: usize = data.len();
    let mut hash: u64 = 0;
    let mut i: usize = from;
    while i < total
        invariant
            from <= i <= total,
            total == data@.len(),
            rest == data@.skip(from as int),
            hash as nat == rolling(rest.take(i - from)),
            cut_from(rest, i - from) == first_len(rest),
        decreases total - i,
    {
        hash = roll(hash, data[i]);
        assert(rest.take(i + 1 - from).drop_last() =~= rest.take(i - from));
        assert(rest.take(i + 1 - from).last() == data@[i as int]);
        let ghost at = i - from;
        let chunk_len: u64 = (i - from) as u64;
        if chunk_len >= MIN_CHUNK {
            let mask: u64 = if chunk_len < AVG_CHUNK {
                7
            } else {
                31
            };
            assert(hash & 7 == hash % 8) by (bit_vector);
            assert(hash & 31 == hash % 32) by (bit_vector);
            if hash & mask == 0 || chunk_len >= MAX_CHUNK - MIN_CHUNK {
                assert(is_cut(rest, at));
                return i + 1;
            }
        }
        assert(!is_cut(rest, at));
        i = i + 1;
    }
    total
}

/// Cuts `tail`, the bytes of a file from `start_offset` on, into chunks.
pub fn fastcdc_chunk(tail: &Vec<u8>, start_offset: u64) -> (r: Vec<Chunk>)
    requires
        start_offset + tail@.len() <= u64::MAX,
    ensures
        pieces(r@) == cdc_pieces(tail@, start_offset as nat),
        all_wf(r@),
{
    let total: usize = tail.len();
    let mut chunks: Vec<Chunk> = Vec::new();
    let mut pos: usize = 0;
    assert(tail@.skip(0) =~= tail@);
    assert(pieces(chunks@) =~= Seq::<Piece>::empty());
    assert(Seq::<Piece>::empty() + cdc_pieces(tail@, start_offset as nat) =~= cdc_pieces(
        tail@,
        start_offset as nat,
    ));
    while pos < total
        invariant
            pos <= total,
            total == tail@.len(),
            start_offset + total <= u64::MAX,
            all_wf(chunks@),
            pieces(chunks@) + cdc_pieces(tail@.skip(pos as int), (start_offset + pos) as nat)
                == cdc_pieces(tail@, start_offset as nat),
        decreases total - pos,
    {
        let end: usize = chunk_end(tail, pos);
        let ghost rest = tail@.skip(pos as int);
        let ghost before = pieces(chunks@);
        let data = copy_range(tail, pos, end);
        let chunk = Chunk { offset: start_offset + pos as u64, length: data.len() as u64, data };
        assert(chunk@.data =~= rest.take(end - pos));
        assert(tail@.skip(end as int) =~= rest.skip(end - pos));
        chunks.push(chunk);
        assert(pieces(chunks@) =~= before.push(chunk@));
        assert(pieces(chunks@) + cdc_pieces(tail@.skip(end as int), (start_offset + end) as nat)
            =~= before + cdc_pieces(rest, (start_offset + pos) as nat));
        pos = end;
    }
    assert(pieces(chunks@) + cdc_pieces(tail@.skip(pos as int), (start_offset + pos) as nat)
        =~= pieces(chunks@));
    chunks
}

/// The chunks of a file lie end to end and together are its bytes.
pub proof fn law_cdc_tiles(data: Seq<u8>, start: nat)
    ensures
        tiles(cdc_pieces(data, start), data, start),
    decreases data.len(),
{
    if data.len() > 0 {
        lemma_cut_from(data, 0);
        let n = first_len(data);
        let all = cdc_pieces(data, start);
        law_cdc_tiles(data.skip(n), (start + n) as nat);
        assert(all.skip(1) =~= cdc_pieces(data.skip(n), (start + n) as nat));
        assert(data.take(n) + data.skip(n) =~= data);
    } else {
        assert(data =~= Seq::empty());
    }
}

/// No chunk is empty or longer than the maximum, and only the last may be shorter than the
/// minimum.
pub proof fn law_cdc_sizes(data: Seq<u8>, start: nat, k: int)
    requires
        0 <= k < cdc_pieces(data, start).len(),
    ensures
        0 < cdc_pieces(data, start)[k].data.len() <= MAX_CHUNK,
        k < cdc_pieces(data, start).len() - 1 ==> cdc_pieces(data, start)[k].data.len()
            >= MIN_CHUNK,
    decreases data.len(),
{
    lemma_cut_from(data, 0);
    let n = first_len(data);
    let later = cdc_pieces(data.skip(n), (start + n) as nat);
    if k > 0 {
        law_cdc_sizes(data.skip(n), (start + n) as nat, k - 1);
        assert(cdc_pieces(data, start)[k] == later[k - 1]);
    } else if n == data.len() {
        assert(later.len() == 0);
    }
}

/// Slicing again from the start of any chunk gives that chunk and all later ones again.
pub proof fn law_cdc_resume(data: Seq<u8>, start: nat, k: int)
    requires
        0 <= k < cdc_pieces(data, start).len(),
    ensures
        start <= cdc_pieces(data, start)[k].offset < start + data.len(),
        cdc_pieces(
            data.skip(cdc_pieces(data, start)[k].offset - start),
            cdc_pieces(data, start)[k].offset,
        ) == cdc_pieces(data, start).skip(k),
    decreases data.len(),
{
    lemma_cut_from(data, 0);
    let n = first_len(data);
    let all = cdc_pieces(data, start);
    let later = cdc_pieces(data.skip(n), (start + n) as nat);
    if k == 0 {
        assert(data.skip(0) =~= data);
        assert(all.skip(0) =~= all);
    } else {
        law_cdc_resume(data.skip(n), (start + n) as nat, k - 1);
        assert(all[k] == later[k - 1]);
        assert(all.skip(k) =~= later.skip(k - 1));
        assert(data.skip(n).skip(all[k].offset - start - n) =~= data.skip(all[k].offset - start));
    }
}

/// Appending to a file leaves every chunk but its last one as it was.
pub proof fn law_cdc_append(data: Seq<u8>, more: Seq<u8>, start: nat, k: int)
    requires
        0 <= k < cdc_pieces(data, start).len() - 1,
    ensures
        k < cdc_pieces(data + more, start).len(),
        cdc_pieces(data + more, start)[k] == cdc_pieces(data, start)[k],
    decreases data.len(),
{
    lemma_cut_from(data, 0);
    let n = first_len(data);
    let later = cdc_pieces(data.skip(n), (start + n) as nat);
    if n == data.len() {
        assert(later.len() == 0);
    }
    lemma_first_len_extend(data, more);
    assert((data + more).take(n) =~= data.take(n));
    assert((data + more).skip(n) =~= data.skip(n) + more);
    let later_more = cdc_pieces(data.skip(n) + more, (start + n) as nat);
    if k > 0 {
        law_cdc_append(data.skip(n), more, (start + n) as nat, k - 1);
        assert(cdc_pieces(data, start)[k] == later[k - 1]);
        assert(cdc_pieces(data + more, start)[k] == later_more[k - 1]);
    }
}

/// The first chunk of a window that is full, or that no byte follows, is the first chunk of the
/// whole, and the rest of the whole is cut from there.
pub proof fn law_cdc_window(window: Seq<u8>, future: Seq<u8>, start: nat)
    requires
        window.len() >= MAX_CHUNK || (window.len() > 0 && future.len() == 0),
    ensures
        0 < first_len(window) <= window.len(),
        cdc_pieces(window + future, start) == seq![
            Piece { offset: start, data: window.take(first_len(window)) },
        ] + cdc_pieces(
            window.skip(first_len(window)) + future,
            (start + first_len(window)) as nat,
        ),
{
    lemma_cut_from(window, 0);
    let n = first_len(window);
    if future.len() == 0 {
        assert(window + future =~= window);
        assert(window.skip(n) + future =~= window.skip(n));
    } else {
        lemma_first_len_extend(window, future);
        assert((window + future).take(n) =~= window.take(n));
        assert((window + future).skip(n) =~= window.skip(n) + future);
    }
}

/// Slices a file that is read piece by piece, with one maximal chunk of it in memory at a time.
pub struct FastCdcIter {
    offset: u64,
    window: Vec<u8>,
    taken: usize,
    ended: bool,
}

impl FastCdcIter {
    /// No more was handed out of the window than is in it.
    #[verifier::type_invariant]
    closed spec fn in_window(self) -> bool {
        self.taken <= self.window@.len()
    }

    /// Where in the file the next chunk starts: all before it has been handed out.
    pub closed spec fn at(&self) -> nat {
        self.offset as nat
    }

    /// The bytes that were read and not yet handed out.
    pub closed spec fn held(&self) -> Seq<u8> {
        self.window@.skip(self.taken as int)
    }

    /// The end of the file was reached.
    pub closed spec fn at_end(&self) -> bool {
        self.ended
    }

    /// The bytes lie within 64-bit offsets.
    pub open spec fn wf(&self) -> bool {
        self.at() + self.held().len() <= u64::MAX
    }

    /// A chunk can be cut: the window is full, or holds all that is left.
    pub open spec fn ready(&self) -> bool {
        self.held().len() >= MAX_CHUNK || (self.at_end() && self.held().len() > 0)
    }

    /// The chunks still to come, when `future` is what will still be read.
    pub open spec fn rest(&self, future: Seq<u8>) -> Seq<Piece> {
        cdc_pieces(self.held() + future, self.at())
    }

    /// Starts at an offset, with nothing read.
    pub fn new(start_offset: u64) -> (r: Self)
        ensures
            r.at() == start_offset,
            r.held() == Seq::<u8>::empty(),
            !r.at_end(),
            r.wf(),
    {
        let r = FastCdcIter { offset: start_offset, window: Vec::new(), taken: 0, ended: false };
        assert(r.held() =~= Seq::<u8>::empty());
        r
    }

    /// Whether the next chunk can only be cut after more input.
    pub fn wants_input(&self) -> (r: bool)
        ensures
            r == (!self.at_end() && !self.ready()),
    {
        proof {
            use_type_invariant(self);
        }
        !self.ended && ((self.window.len() - self.taken) as u64) < MAX_CHUNK
    }

    /// Whether the end of the file was reached.
    pub fn ended(&self) -> (r: bool)
        ensures
            r == self.at_end(),
    {
        self.ended
    }

    /// The number of bytes that were read and not yet handed out.
    pub fn held_len(&self) -> (r: usize)
        ensures
            r == self.held().len(),
    {
        proof {
            use_type_invariant(self);
        }
        self.window.len() - self.taken
    }

    /// Adds the next bytes of the file.
    pub fn feed(&mut self, bytes: Vec<u8>)
        requires
            old(self).at() + old(self).held().len() + bytes@.len() <= u64::MAX,
            old(self).held().len() + bytes@.len() <= usize::MAX,
        ensures
            final(self).at() == old(self).at(),
            final(self).held() == old(self).held() + bytes@,
            final(self).at_end() == old(self).at_end(),
            final(self).wf(),
    {
        proof {
            use_type_invariant(&*self);
        }
        let mut more = bytes;
        let taken: usize = self.taken;
        let mut window: Vec<u8> = Vec::new();
        self.taken = 0;
        std::mem::swap(&mut window, &mut self.window);
        let mut left = window.split_off(taken);
        left.append(&mut more);
        self.window = left;
        assert(self.held() =~= old(self).held() + bytes@);
    }

    /// Notes that the file has no more bytes.
    pub fn finish(&mut self)
        ensures
            final(self).at() == old(self).at(),
            final(self).held() == old(self).held(),
            final(self).at_end(),
    {
        proof {
            use_type_invariant(&*self);
        }
        self.ended = true;
    }

    /// Cuts the next chunk off the window, if one can be cut.
    pub fn next(&mut self) -> (r: Option<Chunk>)
        requires
            old(self).wf(),
        ensures
            final(self).wf(),
            final(self).at_end() == old(self).at_end(),
            r is Some == old(self).ready(),
            r is None ==> *final(self) == *old(self),
            r matches Some(c) ==> {
                &&& c.wf()
                &&& 0 < c@.data.len() <= MAX_CHUNK
                &&& c@ == (Piece {
                    offset: old(self).at(),
                    data: old(self).held().take(first_len(old(self).held())),
                })
                &&& final(self).at() == old(self).at() + c@.data.len()
                &&& final(self).held() == old(self).held().skip(first_len(old(self).held()))
                &&& forall|future: Seq<u8>|
                    (old(self).at_end() ==> future.len() == 0) ==> #[trigger] old(self).rest(future)
                        == seq![c@] + final(self).rest(future)
            },
    {
        proof {
            use_type_invariant(&*self);
        }
        let total: usize = self.window.len();
        let from: usize = self.taken;
        if ((total - from) as u64) < MAX_CHUNK && !(self.ended && from < total) {
            return None;
        }
        let end: usize = chunk_end(&self.window, from);
        let ghost whole = self.held();
        proof {
            lemma_cut_from(whole, 0);
        }
        let data = copy_range(&self.window, from, end);
        let length: u64 = data.len() as u64;
        let chunk = Chunk { offset: self.offset, length, data };
        self.offset = self.offset + length;
        self.taken = end;
        assert(chunk@.data =~= whole.take(end - from));
        assert(self.held() =~= whole.skip(end - from));
        proof {
            assert forall|future: Seq<u8>|
                (old(self).at_end() ==> future.len() == 0) implies #[trigger] old(self).rest(future)
                == seq![chunk@] + self.rest(future) by {
                law_cdc_window(whole, future, old(self).at());
            }
        }
        Some(chunk)
    }
}

/// Each byte doubles the hash and adds the byte times the golden-ratio multiplier, in 64 bits; the
/// hash of nothing is zero.
pub proof fn law_hash_of_one_more_byte(data: Seq<u8>, b: u8)
    ensures
        rolling(Seq::empty()) == 0,
        rolling(data.push(b)) == (2 * rolling(data) + b * 0x9e3779b97f4a7c15)
            % 0x1_0000_0000_0000_0000,
        gear(b) == (b * 0x9e3779b97f4a7c15) % 0x1_0000_0000_0000_0000,
        gear(b) < 0x1_0000_0000_0000_0000,
{
    assert(data.push(b).drop_last() =~= data);
    lemma_add_mod_noop_right(
        2 * rolling(data) as int,
        b * 0x9e3779b97f4a7c15,
        0x1_0000_0000_0000_0000,
    );
}

/// A chunk ends behind the first byte, the first 2048 aside, after which the hash of the chunk ends
/// in three zero bits, in five from the 8193rd byte on, or at the latest behind the 63489th byte.
pub proof fn law_where_chunks_end(data: Seq<u8>, start: nat, k: int, n: int)
    requires
        0 <= k < cdc_pieces(data, start).len(),
    ensures
        ({
            let chunk = cdc_pieces(data, start)[k].data;
            let size = chunk.len();
            &&& k < cdc_pieces(data, start).len() - 1 ==> {
                &&& 2048 < size <= 63489
                &&& size <= 8192 ==> rolling(chunk) % 8 == 0
                &&& 8192 < size < 63489 ==> rolling(chunk) % 32 == 0
            }
            &&& 2048 < n < size ==> {
                &&& n < 63489
                &&& n <= 8192 ==> rolling(chunk.take(n)) % 8 != 0
                &&& n > 8192 ==> rolling(chunk.take(n)) % 32 != 0
            }
            &&& 0 < size <= 63489
        }),
    decreases data.len(),
{
    lemma_cut_from(data, 0);
    let m = first_len(data);
    let later = cdc_pieces(data.skip(m), (start + m) as nat);
    if k > 0 {
        law_where_chunks_end(data.skip(m), (start + m) as nat, k - 1, n);
        assert(cdc_pieces(data, start)[k] == later[k - 1]);
    } else {
        let chunk = data.take(m);
        assert(cdc_pieces(data, start)[0].data == chunk);
        if later.len() > 0 {
            assert(m < data.len()) by {
                if m == data.len() {
                    assert(later.len() == 0);
                }
            }
            assert(is_cut(data, m - 1));
        }
        if 2048 < n < m {
            assert(!is_cut(data, n - 1));
            assert(chunk.take(n) =~= data.take(n));
        }
    }
}

} // verus!
