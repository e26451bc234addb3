//! Slicing files into chunks, by structure where a file has one and by content elsewhere.

pub mod ast;
pub mod cdc;

use std::collections::VecDeque;

use vstd::prelude::*;

use crate::paths::extension;
use crate::slicer::ast::extract_ast_boundaries;
use crate::slicer::cdc::FastCdcIter;
use crate::text::same_text;

verus! {

use crate::paths::extension_of_name;
use crate::paths::extension_spec;
use crate::paths::file_name_spec;
use crate::paths::is_plain;
use crate::paths::law_extension;
use crate::paths::law_file_name;
use crate::segment::segment_seq;
use crate::slicer::ast::ast_pieces;
use crate::slicer::ast::law_ast_of_nothing;
use crate::slicer::ast::law_ast_tiles;
use crate::slicer::cdc::cdc_pieces;
use crate::slicer::cdc::law_cdc_resume;
use crate::slicer::cdc::law_cdc_tiles;
use crate::slicer::cdc::MAX_CHUNK;
use crate::text::lemma_split_first;
use crate::text::lemma_split_tail;
use vstd::utf8::valid_utf8;

/// A slice of a file: where it starts, how many bytes it has, and the bytes.
pub struct Chunk {
    pub offset: u64,
    pub length: u64,
    pub data: Vec<u8>,
}

/// What a chunk says: its position in the file and its bytes.
pub struct Piece {
    pub offset: nat,
    pub data: Seq<u8>,
}

impl View for Chunk {
    type V = Piece;

    open spec fn view(&self) -> Piece {
        Piece { offset: self.offset as nat, data: self.data@ }
    }
}

impl Chunk {
    /// The length field counts the bytes, of which there are some, and the chunk ends within 64
    /// bits.
    pub open spec fn wf(&self) -> bool {
        &&& self.length == self.data@.len()
        &&& self.length > 0
        &&& self.offset + self.length <= u64::MAX
    }
}

/// The chunks of a list, each as what it says.
pub open spec fn pieces(chunks: Seq<Chunk>) -> Seq<Piece> {
    chunks.map_values(|c: Chunk| c@)
}

/// Every chunk of a list has the length it states.
pub open spec fn all_wf(chunks: Seq<Chunk>) -> bool {
    forall|i: int| 0 <= i < chunks.len() ==> (#[trigger] chunks[i]).wf()
}

/// No chunk of a list has more than `limit` bytes.
pub open spec fn all_within(chunks: Seq<Chunk>, limit: int) -> bool {
    forall|i: int| 0 <= i < chunks.len() ==> (#[trigger] chunks[i]).data@.len() <= limit
}

/// The bytes of a list of pieces, one after the other.
pub open spec fn joined(list: Seq<Piece>) -> Seq<u8>
    decreases list.len(),
{
    if list.len() == 0 {
        Seq::empty()
    } else {
        list[0].data + joined(list.skip(1))
    }
}

/// The pieces stand end to end: the first at `start`, each next one where the last ended.
pub open spec fn contiguous(list: Seq<Piece>, start: nat) -> bool
    decreases list.len(),
{
    list.len() == 0 || (list[0].offset == start && contiguous(
        list.skip(1),
        start + list[0].data.len(),
    ))
}

/// The pieces cut `data`, which stands at `start`, without gap, overlap or change.
pub open spec fn tiles(list: Seq<Piece>, data: Seq<u8>, start: nat) -> bool {
    contiguous(list, start) && joined(list) == data
}

/// The bytes from `from` up to `to`.
pub fn copy_range(data: &Vec<u8>, from: usize, to: usize) -> (r: Vec<u8>)
    requires
        from <= to <= data@.len(),
    ensures
        r@ == data@.subrange(from as int, to as int),
{
    let mut r: Vec<u8> = Vec::with_capacity(to - from);
    let mut i: usize = from;
    while i < to
        invariant
            from <= i <= to <= data@.len(),
            r@ == data@.subrange(from as int, i as int),
        decreases to - i,
    {
        r.push(data[i]);
        i = i + 1;
        assert(data@.subrange(from as int, i as int) =~= data@.subrange(
            from as int,
            i - 1,
        ).push(data@[i - 1]));
    }
    r
}

/// One more piece where the others end keeps a list contiguous and adds its bytes.
pub proof fn lemma_push_piece(list: Seq<Piece>, start: nat, last: Piece)
    requires
        contiguous(list, start),
        last.offset == start + joined(list).len(),
    ensures
        contiguous(list.push(last), start),
        joined(list.push(last)) == joined(list) + last.data,
    decreases list.len(),
{
    let all = list.push(last);
    if list.len() == 0 {
        assert(all.skip(1) =~= Seq::<Piece>::empty());
        assert(joined(all.skip(1)) =~= Seq::<u8>::empty());
        assert(contiguous(all.skip(1), start + last.data.len()));
        assert(joined(all) =~= joined(list) + last.data);
    } else {
        lemma_push_piece(list.skip(1), start + list[0].data.len(), last);
        assert(all.skip(1) =~= list.skip(1).push(last));
        assert(joined(all) =~= joined(list) + last.data);
    }
}

/// The file extensions whose files are sliced by structure.
pub open spec fn is_structured_extension(ext: Seq<char>) -> bool {
    ||| ext == "rs"@
    ||| ext == "go"@
    ||| ext == "py"@
    ||| ext == "c"@
    ||| ext == "h"@
    ||| ext == "java"@
    ||| ext == "ts"@
    ||| ext == "js"@
    ||| ext == "yaml"@
    ||| ext == "json"@
    ||| ext == "toml"@
    ||| ext == "md"@
    ||| ext == "brd"@
    ||| ext == "sch"@
    ||| ext == "dxf"@
}

/// A file is sliced by structure if its extension says so.
pub open spec fn is_structured(path: Seq<char>) -> bool {
    match extension_spec(path) {
        Some(ext) => is_structured_extension(ext),
        None => false,
    }
}

/// Whether a file is sliced by structure.
pub fn uses_structure(file_path: &str) -> (r: bool)
    ensures
        r == is_structured(file_path@),
{
    match extension(file_path) {
        None => false,
        Some(ext) => same_text(ext, "rs") || same_text(ext, "go") || same_text(ext, "py")
            || same_text(ext, "c") || same_text(ext, "h") || same_text(ext, "java") || same_text(
            ext,
            "ts",
        ) || same_text(ext, "js") || same_text(ext, "yaml") || same_text(ext, "json") || same_text(
            ext,
            "toml",
        ) || same_text(ext, "md") || same_text(ext, "brd") || same_text(ext, "sch") || same_text(
            ext,
            "dxf",
        ),
    }
}

/// The chunks of a file whose bytes from `start` on are `data`: by structure where the file is of
/// such a kind and that gives any, else by content.
pub open spec fn sliced(path: Seq<char>, data: Seq<u8>, start: nat) -> Seq<Piece> {
    if is_structured(path) && ast_pieces(data, start).len() > 0 {
        ast_pieces(data, start)
    } else {
        cdc_pieces(data, start)
    }
}

/// Where the bytes of a file come from.
pub enum FileTail {
    /// The file cannot be opened.
    Unreadable,
    /// All bytes from the start offset on.
    Whole(Vec<u8>),
    /// The bytes are read piece by piece and fed to the iterator.
    Streamed,
}

/// A bound on the length of the chunks of a file.
pub open spec fn chunk_limit(tail: FileTail) -> int {
    match tail {
        FileTail::Whole(bytes) => if bytes@.len() > MAX_CHUNK {
            bytes@.len() as int
        } else {
            MAX_CHUNK as int
        },
        _ => MAX_CHUNK as int,
    }
}

/// The chunks of a file, one at a time.
pub enum ChunkIter {
    Ast(VecDeque<Chunk>),
    Cdc(FastCdcIter),
}

impl ChunkIter {
    pub open spec fn wf(&self) -> bool {
        match *self {
            ChunkIter::Ast(list) => all_wf(list@),
            ChunkIter::Cdc(it) => it.wf(),
        }
    }

    /// No more bytes will be fed.
    pub open spec fn at_end(&self) -> bool {
        match *self {
            ChunkIter::Ast(_) => true,
            ChunkIter::Cdc(it) => it.at_end(),
        }
    }

    /// The next chunk is at hand.
    pub open spec fn ready(&self) -> bool {
        match *self {
            ChunkIter::Ast(list) => list@.len() > 0,
            ChunkIter::Cdc(it) => it.ready(),
        }
    }

    /// The chunks still to come, when `future` is what will still be fed.
    pub open spec fn rest(&self, future: Seq<u8>) -> Seq<Piece> {
        match *self {
            ChunkIter::Ast(list) => pieces(list@),
            ChunkIter::Cdc(it) => it.rest(future),
        }
    }

    /// The chunks still to come lie end to end from `offset` on.
    pub open spec fn starts_at(&self, offset: nat) -> bool {
        match *self {
            ChunkIter::Ast(list) => contiguous(pieces(list@), offset),
            ChunkIter::Cdc(it) => it.at() == offset,
        }
    }

    /// No chunk still to come has more than `limit` bytes.
    pub open spec fn within(&self, limit: int) -> bool {
        match *self {
            ChunkIter::Ast(list) => all_within(list@, limit),
            ChunkIter::Cdc(_) => MAX_CHUNK <= limit,
        }
    }

    /// The bytes from the next chunk to the end of what was fed.
    pub open spec fn held(&self) -> nat {
        match *self {
            ChunkIter::Ast(_) => 0,
            ChunkIter::Cdc(it) => it.held().len(),
        }
    }

    /// The number of bytes from the next chunk to the end of what was fed.
    pub fn held_len(&self) -> (r: usize)
        ensures
            r == self.held(),
    {
        match self {
            ChunkIter::Ast(_) => 0,
            ChunkIter::Cdc(it) => it.held_len(),
        }
    }

    /// Adds the next bytes of the file.
    pub fn feed(&mut self, bytes: Vec<u8>)
        requires
            old(self).wf(),
            !old(self).at_end(),
            forall|o: nat| #[trigger]
                old(self).starts_at(o) ==> o + old(self).held() + bytes@.len() <= u64::MAX,
            old(self).held() + bytes@.len() <= usize::MAX,
        ensures
            final(self).wf(),
            !final(self).at_end(),
            final(self).held() == old(self).held() + bytes@.len(),
            forall|o: nat| old(self).starts_at(o) == #[trigger] final(self).starts_at(o),
            forall|limit: int| old(self).within(limit) == #[trigger] final(self).within(limit),
            forall|future: Seq<u8>| #[trigger]
                final(self).rest(future) == old(self).rest(bytes@ + future),
    {
        match self {
            ChunkIter::Ast(_) => {},
            ChunkIter::Cdc(it) => {
                let ghost before = *it;
                let ghost more = bytes@;
                assert(old(self).starts_at(before.at()));
                it.feed(bytes);
                proof {
                    assert forall|future: Seq<u8>| #[trigger] it.rest(future) == before.rest(
                        more + future,
                    ) by {
                        assert(before.held() + more + future =~= before.held() + (more + future));
                    }
                }
            },
        }
    }

    /// Notes that the file has no more bytes.
    pub fn finish(&mut self)
        requires
            old(self).wf(),
        ensures
            final(self).wf(),
            final(self).at_end(),
            final(self).held() == old(self).held(),
            forall|o: nat| old(self).starts_at(o) == #[trigger] final(self).starts_at(o),
            forall|limit: int| old(self).within(limit) == #[trigger] final(self).within(limit),
            forall|future: Seq<u8>| #[trigger] final(self).rest(future) == old(self).rest(future),
    {
        match self {
            ChunkIter::Ast(_) => {},
            ChunkIter::Cdc(it) => {
                it.finish();
            },
        }
    }

    /// Whether more bytes have to be fed before the next chunk.
    pub fn wants_input(&self) -> (r: bool)
        ensures
            r == (!self.at_end() && !self.ready()),
            r ==> self.held() < MAX_CHUNK,
    {
        match self {
            ChunkIter::Ast(_) => false,
            ChunkIter::Cdc(it) => it.wants_input(),
        }
    }

    /// The next chunk, if it is at hand.
    pub fn next(&mut self) -> (r: Option<Chunk>)
        requires
            old(self).wf(),
        ensures
            final(self).wf(),
            final(self).at_end() == old(self).at_end(),
            r is Some == old(self).ready(),
            r is None ==> *final(self) == *old(self),
            r is None && old(self).at_end() ==> old(self).rest(Seq::empty()).len() == 0,
            r matches Some(c) ==> {
                &&& c.wf()
                &&& forall|o: nat| #[trigger]
                    old(self).starts_at(o) ==> c.offset == o && final(self).starts_at(
                        o + c@.data.len(),
                    )
                &&& forall|limit: int| #[trigger]
                    old(self).within(limit) ==> c@.data.len() <= limit && final(self).within(limit)
                &&& forall|future: Seq<u8>|
                    (old(self).at_end() ==> future.len() == 0) ==> #[trigger] old(self).rest(future)
                        == seq![c@] + final(self).rest(future)
            },
    {
        match self {
            ChunkIter::Ast(list) => {
                if list.len() == 0 {
                    return None;
                }
                let ghost before = list@;
                let r = list.pop_front();
                assert(all_wf(list@));
                assert(pieces(before) =~= seq![before[0]@] + pieces(list@));
                assert(pieces(before).skip(1) =~= pieces(list@));
                assert(before[0].wf());
                proof {
                    assert forall|limit: int| #[trigger] old(self).within(limit) implies before[0]
                        .data@.len() <= limit && all_within(list@, limit) by {
                        assert(all_within(before, limit));
                        assert forall|i: int| 0 <= i < list@.len() implies (
                        #[trigger] list@[i]).data@.len() <= limit by {
                            assert(list@[i] == before[i + 1]);
                        }
                    }
                }
                r
            },
            ChunkIter::Cdc(it) => {
                let ghost before = *it;
                let r = it.next();
                proof {
                    if !before.ready() && before.at_end() {
                        assert(before.held() + Seq::<u8>::empty() =~= Seq::<u8>::empty());
                    }
                    if before.ready() {
                        assert forall|future: Seq<u8>|
                            (before.at_end() ==> future.len() == 0) implies #[trigger] old(
                            self,
                        ).rest(future) == seq![r->0@] + it.rest(future) by {
                            assert(old(self).rest(future) == before.rest(future));
                        }
                    }
                }
                r
            },
        }
    }
}

/// Chunks within a limit are within a greater one.
pub proof fn lemma_within_more(iter: ChunkIter, limit: int, greater: int)
    requires
        iter.within(limit),
        limit <= greater,
    ensures
        iter.within(greater),
{
}

/// Sets a file up for slicing from `start_offset` on.
pub fn slice_file_iter(file_path: &str, start_offset: u64, tail: FileTail) -> (r: ChunkIter)
    requires
        tail matches FileTail::Whole(bytes) ==> start_offset + bytes@.len() <= u64::MAX,
        tail is Streamed ==> !is_structured(file_path@),
    ensures
        r.wf(),
        r.starts_at(start_offset as nat),
        tail is Streamed ==> r.held() == 0,
        r.within(chunk_limit(tail)),
        tail is Unreadable ==> r is Ast && r.at_end() && r.rest(Seq::empty()) == Seq::<
            Piece,
        >::empty(),
        tail matches FileTail::Whole(bytes) ==> (r is Ast) == (is_structured(file_path@)
            && ast_pieces(bytes@, start_offset as nat).len() > 0),
        tail is Streamed ==> r is Cdc,
        tail matches FileTail::Whole(bytes) ==> r.at_end() && r.rest(Seq::empty()) == sliced(
            file_path@,
            bytes@,
            start_offset as nat,
        ),
        tail is Streamed ==> !r.at_end() && forall|future: Seq<u8>| #[trigger]
            r.rest(future) == sliced(file_path@, future, start_offset as nat),
{
    match tail {
        FileTail::Unreadable => {
            let none: VecDeque<Chunk> = VecDeque::new();
            assert(pieces(none@) =~= Seq::<Piece>::empty());
            ChunkIter::Ast(none)
        },
        FileTail::Whole(bytes) => {
            if uses_structure(file_path) {
                let chunks = extract_ast_boundaries(&bytes, start_offset);
                if chunks.len() > 0 {
                    let ghost all = chunks@;
                    let list = queue_of(chunks);
                    assert(pieces(all).len() == all.len());
                    proof {
                        law_ast_tiles(bytes@, start_offset as nat);
                    }
                    return ChunkIter::Ast(list);
                }
                assert(pieces(chunks@).len() == 0);
            }
            let ghost whole = bytes@;
            let size: usize = bytes.len();
            assert(whole.len() == size);
            let mut it = FastCdcIter::new(start_offset);
            it.feed(bytes);
            it.finish();
            assert(Seq::<u8>::empty() + whole + Seq::<u8>::empty() =~= whole);
            ChunkIter::Cdc(it)
        },
        FileTail::Streamed => {
            let it = FastCdcIter::new(start_offset);
            proof {
                assert forall|future: Seq<u8>| #[trigger] it.rest(future) == sliced(
                    file_path@,
                    future,
                    start_offset as nat,
                ) by {
                    assert(Seq::<u8>::empty() + future =~= future);
                }
            }
            ChunkIter::Cdc(it)
        },
    }
}

/// The chunks of a list as a queue.
fn queue_of(chunks: Vec<Chunk>) -> (r: VecDeque<Chunk>)
    ensures
        r@ == chunks@,
{
    let ghost all = chunks@;
    let mut left = chunks;
    let mut queue: VecDeque<Chunk> = VecDeque::new();
    while left.len() > 0
        invariant
            left@ + queue@ == all,
        decreases left@.len(),
    {
        let ghost before = left@;
        let ghost queued = queue@;
        match left.pop() {
            None => {},
            Some(c) => {
                queue.push_front(c);
                assert(left@ + queue@ =~= before + queued);
            },
        }
    }
    assert(left@ + queue@ =~= queue@);
    queue
}

/// The chunks of a file lie end to end from the start offset on and together are its bytes,
/// whichever way it is sliced.
pub proof fn law_sliced_tiles(path: Seq<char>, data: Seq<u8>, start: nat)
    ensures
        tiles(sliced(path, data, start), data, start),
{
    law_cdc_tiles(data, start);
    law_ast_tiles(data, start);
}

/// A segment is never sliced by structure.
pub proof fn law_segment_is_sliced_by_content(path: Seq<char>, data: Seq<u8>, start: nat)
    requires
        segment_seq(path) is Some,
    ensures
        !is_structured(path),
        sliced(path, data, start) == cdc_pieces(data, start),
{
    reveal_strlit("segment_");
    reveal_strlit(".wal");
    reveal_strlit("rs");
    reveal_strlit("go");
    reveal_strlit("py");
    reveal_strlit("c");
    reveal_strlit("h");
    reveal_strlit("java");
    reveal_strlit("ts");
    reveal_strlit("js");
    reveal_strlit("yaml");
    reveal_strlit("json");
    reveal_strlit("toml");
    reveal_strlit("md");
    reveal_strlit("brd");
    reveal_strlit("sch");
    reveal_strlit("dxf");
    assert("brd"@[0] == 'b' && "sch"@[0] == 's' && "dxf"@[0] == 'd');
    let name = file_name_spec(path)->0;
    let n = name.len() as int;
    let head = name.take(n - 3);
    let tail = name.skip(n - 3);
    let suffix = name.subrange(n - 4, n);
    assert(suffix == ".wal"@);
    assert(suffix[0] == '.' && suffix[1] == 'w' && suffix[2] == 'a' && suffix[3] == 'l');
    assert(head.last() == '.');
    assert(name[0] == 's') by {
        assert(name.subrange(0, 8) == "segment_"@);
        assert(name.subrange(0, 8)[0] == 's');
    }
    assert(tail[0] == 'w' && tail[1] == 'a' && tail[2] == 'l');
    assert(!tail.contains('.'));
    lemma_split_tail(head, tail, '.');
    lemma_split_first(name, '.');
    assert(head + tail =~= name);
    assert(extension_of_name(name) == Some(tail));
}

/// Slicing a segment again from the start of any of its chunks gives that chunk and all later ones
/// again, so that a gap can be filled with exactly the chunks that were lost.
pub proof fn law_segment_resume(path: Seq<char>, data: Seq<u8>, start: nat, k: int)
    requires
        segment_seq(path) is Some,
        0 <= k < sliced(path, data, start).len(),
    ensures
        start <= sliced(path, data, start)[k].offset < start + data.len(),
        sliced(
            path,
            data.skip(sliced(path, data, start)[k].offset - start),
            sliced(path, data, start)[k].offset,
        ) == sliced(path, data, start).skip(k),
{
    law_segment_is_sliced_by_content(path, data, start);
    law_cdc_resume(data, start, k);
    let offset = cdc_pieces(data, start)[k].offset;
    law_segment_is_sliced_by_content(path, data.skip(offset - start), offset);
}

/// A file is sliced by structure exactly if what follows the last dot of its name is one of the
/// extensions of source, configuration, text, board, schematic and drawing files, wherever the file
/// lies and whatever its name is otherwise.
pub proof fn law_structured_files(dir: Seq<char>, stem: Seq<char>, ext: Seq<char>)
    requires
        is_plain(stem),
        is_plain(ext),
        stem.len() > 0,
        !ext.contains('.'),
        stem.push('.') + ext != seq!['.', '.'],
    ensures
        is_structured(dir.push('/') + (stem.push('.') + ext)) <==> {
            ||| ext == "rs"@
            ||| ext == "go"@
            ||| ext == "py"@
            ||| ext == "c"@
            ||| ext == "h"@
            ||| ext == "java"@
            ||| ext == "ts"@
            ||| ext == "js"@
            ||| ext == "yaml"@
            ||| ext == "json"@
            ||| ext == "toml"@
            ||| ext == "md"@
            ||| ext == "brd"@
            ||| ext == "sch"@
            ||| ext == "dxf"@
        },
        is_structured(stem.push('.') + ext) == is_structured(
            dir.push('/') + (stem.push('.') + ext),
        ),
        ext.len() > 0 ==> !is_structured(dir.push('/') + ext) && !is_structured(
            dir.push('/') + (seq!['.'] + ext),
        ),
{
    let name = stem.push('.') + ext;
    let hidden = seq!['.'] + ext;
    lemma_plain_name(stem, ext);
    lemma_plain_name(Seq::empty(), ext);
    assert(Seq::<char>::empty().push('.') + ext =~= hidden);
    law_file_name(dir, name);
    law_extension(stem, ext);
    if ext.len() > 0 {
        assert(ext.contains(ext[0]));
        assert(hidden[1] == ext[0]);
        assert(seq!['.'][0] == '.' && seq!['.', '.'][0] == '.' && seq!['.', '.'][1] == '.');
        assert(hidden.len() > 1 && seq!['.'].len() == 1);
        law_file_name(dir, ext);
        law_file_name(dir, hidden);
    }
}

/// A name of two plain ones with a dot between is plain.
proof fn lemma_plain_name(stem: Seq<char>, ext: Seq<char>)
    requires
        is_plain(stem),
        is_plain(ext),
    ensures
        is_plain(stem.push('.') + ext),
        stem.len() > 0 ==> stem.push('.') + ext != seq!['.'],
{
    let name = stem.push('.') + ext;
    assert forall|i: int| 0 <= i < name.len() implies name[i] != '/' && name[i] != '\\' by {
        if i < stem.len() {
            assert(stem.contains(stem[i]));
        } else if i > stem.len() {
            assert(ext.contains(ext[i - stem.len() - 1]));
        }
    }
    assert(seq!['.'].len() == 1);
}

/// A file is cut into paragraphs exactly if it is of a structured kind and its bytes are a text that
/// is not empty; all other bytes are cut by content.
pub proof fn law_way_of_slicing(path: Seq<char>, data: Seq<u8>, start: nat)
    ensures
        is_structured(path) && valid_utf8(data) && data.len() > 0 ==> sliced(path, data, start)
            == ast_pieces(data, start),
        !is_structured(path) || !valid_utf8(data) || data.len() == 0 ==> sliced(path, data, start)
            == cdc_pieces(data, start),
{
    law_ast_tiles(data, start);
    law_cdc_tiles(data, start);
    if data.len() == 0 && ast_pieces(data, start).len() > 0 {
        law_ast_of_nothing(data, start);
    }
}

/// Pieces that lie end to end stand in the whole where they say: each has the bytes of the whole from
/// its offset on, the first starts at the start, and the last ends at the end.
pub proof fn law_pieces_stand_where_they_say(
    list: Seq<Piece>,
    data: Seq<u8>,
    start: nat,
    k: int,
)
    requires
        tiles(list, data, start),
        0 <= k < list.len(),
    ensures
        start <= list[k].offset,
        list[k].offset + list[k].data.len() <= start + data.len(),
        data.subrange(
            list[k].offset - start,
            list[k].offset - start + list[k].data.len(),
        ) == list[k].data,
        k == 0 ==> list[k].offset == start,
        k < list.len() - 1 ==> list[k + 1].offset == list[k].offset + list[k].data.len(),
        k == list.len() - 1 ==> list[k].offset + list[k].data.len() == start + data.len(),
    decreases list.len(),
{
    let rest = list.skip(1);
    let first = list[0].data;
    let left = joined(rest);
    if k == 0 {
        assert(data.subrange(0, first.len() as int) =~= first);
        if list.len() > 1 {
            assert(contiguous(rest, start + first.len()));
            assert(rest[0] == list[1]);
        }
    } else {
        law_pieces_stand_where_they_say(rest, left, start + first.len(), k - 1);
        assert(rest[k - 1] == list[k]);
        if k < list.len() - 1 {
            assert(rest[k] == list[k + 1]);
        }
        let from = list[k].offset - start;
        let size = list[k].data.len();
        assert(data.subrange(from, from + size) =~= left.subrange(
            from - first.len(),
            from - first.len() + size,
        ));
    }
}

} // verus!
