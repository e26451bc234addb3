//! Slicing text files at paragraph boundaries.

use vstd::prelude::*;

use crate::slicer::copy_range;
use crate::slicer::Chunk;
use crate::text::chars_of;
use crate::text::line_infos;

verus! {

use crate::slicer::all_wf;
use crate::slicer::all_within;
use crate::slicer::joined;
use crate::slicer::lemma_push_piece;
use crate::slicer::pieces;
use crate::slicer::tiles;
use crate::slicer::Piece;
use crate::text::byte_len;
use crate::text::is_blank;
use crate::text::law_lines_are_counted;
use crate::text::lemma_byte_len_push;
use crate::text::lemma_byte_len_take;
use crate::text::lemma_line_start_grows;
use crate::text::lemma_line_within;
use crate::text::lemma_split_nonempty;
use crate::text::line;
use crate::text::line_count;
use crate::text::line_start;
use vstd::utf8::decode_utf8;
use vstd::utf8::decode_utf8_encode_utf8;
use vstd::utf8::valid_utf8;

/// The last of a list of marks, or the start of the text.
pub open spec fn last_mark(marks: Seq<nat>) -> nat {
    if marks.len() == 0 {
        0
    } else {
        marks.last()
    }
}

/// The byte positions at which the first `n` lines of a text cut it: before each blank line that
/// ends a paragraph, that is, that follows a line which is not blank.
pub open spec fn marks(text: Seq<char>, n: int) -> Seq<nat>
    decreases n,
{
    if n <= 0 {
        Seq::empty()
    } else {
        let before = marks(text, n - 1);
        let k = n - 1;
        if k > 0 && is_blank(line(text, k)) && !is_blank(line(text, k - 1)) {
            before.push(line_start(text, k))
        } else {
            before
        }
    }
}

/// The pieces of `data`, which stands at `start`, up to each of the marks.
pub open spec fn marked_pieces(data: Seq<u8>, cuts: Seq<nat>, start: nat) -> Seq<Piece>
    decreases cuts.len(),
{
    if cuts.len() == 0 {
        Seq::empty()
    } else {
        let before = cuts.drop_last();
        marked_pieces(data, before, start).push(
            Piece {
                offset: start + last_mark(before),
                data: data.subrange(last_mark(before) as int, cuts.last() as int),
            },
        )
    }
}

/// The paragraphs of `data`, which stands at `start`: what lies between the marks of its text, and
/// what follows the last mark. Bytes that are no UTF-8 have none.
pub open spec fn ast_pieces(data: Seq<u8>, start: nat) -> Seq<Piece> {
    if !valid_utf8(data) {
        Seq::empty()
    } else {
        let text = decode_utf8(data);
        let cuts = marks(text, line_count(text));
        let parts = marked_pieces(data, cuts, start);
        if last_mark(cuts) < data.len() {
            parts.push(
                Piece {
                    offset: start + last_mark(cuts),
                    data: data.subrange(last_mark(cuts) as int, data.len() as int),
                },
            )
        } else {
            parts
        }
    }
}

/// Bytes as text, through `std::str::from_utf8`: it succeeds on valid UTF-8 and on nothing else,
/// and gives the characters that the bytes encode.
#[verifier::external_body]
fn utf8_text(bytes: &Vec<u8>) -> (r: Option<&str>)
    ensures
        r is Some == valid_utf8(bytes@),
        r matches Some(t) ==> t@ == decode_utf8(bytes@),
{
    std::str::from_utf8(bytes).ok()
}

/// The cuts stand in order within the text.
proof fn lemma_marks(text: Seq<char>, n: int)
    requires
        0 <= n <= line_count(text),
    ensures
        last_mark(marks(text, n)) <= byte_len(text),
        n > 0 ==> last_mark(marks(text, n)) <= line_start(text, n - 1),
    decreases n,
{
    if n > 0 {
        lemma_marks(text, n - 1);
        lemma_line_within(text, n - 1);
        if n > 1 {
            lemma_line_start_grows(text, n - 2, n - 1);
        }
    }
}

/// Cuts `tail`, the bytes of a text file from `start_offset` on, into paragraphs.
pub fn extract_ast_boundaries(tail: &Vec<u8>, start_offset: u64) -> (r: Vec<Chunk>)
    requires
        start_offset + tail@.len() <= u64::MAX,
    ensures
        pieces(r@) == ast_pieces(tail@, start_offset as nat),
        all_wf(r@),
        all_within(r@, tail@.len() as int),
{
    let text = match utf8_text(tail) {
        None => {
            let none: Vec<Chunk> = Vec::new();
            assert(pieces(none@) =~= Seq::<Piece>::empty());
            return none;
        },
        Some(t) => t,
    };
    let ghost s = decode_utf8(tail@);
    proof {
        decode_utf8_encode_utf8(tail@);
    }
    let total: usize = tail.len();
    let chars = chars_of(text);
    let lines = line_infos(&chars, total);
    let n: usize = lines.len();
    let mut chunks: Vec<Chunk> = Vec::new();
    let mut current: usize = 0;
    let mut end: usize = 0;
    let mut i: usize = 0;
    assert(pieces(chunks@) =~= Seq::<Piece>::empty());
    while i < n
        invariant
            i <= n,
            n == lines@.len(),
            n == line_count(s),
            total == tail@.len(),
            total == byte_len(s),
            start_offset + total <= u64::MAX,
            forall|k: int|
                0 <= k < n ==> {
                    &&& (#[trigger] lines@[k]).bytes == byte_len(line(s, k))
                    &&& lines@[k].blank == is_blank(line(s, k))
                },
            i < n ==> end == line_start(s, i as int),
            current == last_mark(marks(s, i as int)),
            current <= total,
            all_wf(chunks@),
            all_within(chunks@, total as int),
            pieces(chunks@) == marked_pieces(tail@, marks(s, i as int), start_offset as nat),
        decreases n - i,
    {
        proof {
            lemma_line_within(s, i as int);
            lemma_marks(s, i as int);
            if i > 0 {
                lemma_line_start_grows(s, i - 1, i as int);
            }
        }
        if i > 0 && lines[i].blank && !lines[i - 1].blank {
            let ghost before = marks(s, i as int);
            let ghost done = pieces(chunks@);
            let data = copy_range(tail, current, end);
            let chunk = Chunk {
                offset: start_offset + current as u64,
                length: data.len() as u64,
                data,
            };
            chunks.push(chunk);
            current = end;
            proof {
                let after = marks(s, i + 1);
                assert(after == before.push(line_start(s, i as int)));
                assert(after.drop_last() =~= before);
                assert(pieces(chunks@) =~= done.push(chunk@));
            }
        }
        if i + 1 < n {
            proof {
                lemma_line_within(s, i + 1);
            }
            end = end + lines[i].bytes + 1;
        }
        i = i + 1;
    }
    if current < total {
        let ghost done = pieces(chunks@);
        let data = copy_range(tail, current, total);
        let chunk = Chunk {
            offset: start_offset + current as u64,
            length: data.len() as u64,
            data,
        };
        chunks.push(chunk);
        assert(pieces(chunks@) =~= done.push(chunk@));
    }
    chunks
}

proof fn lemma_marked_tiles(data: Seq<u8>, text: Seq<char>, n: int, start: nat)
    requires
        0 <= n <= line_count(text),
        byte_len(text) == data.len(),
    ensures
        tiles(
            marked_pieces(data, marks(text, n), start),
            data.take(last_mark(marks(text, n)) as int),
            start,
        ),
    decreases n,
{
    let cuts = marks(text, n);
    lemma_marks(text, n);
    if n == 0 {
        assert(data.take(0) =~= Seq::<u8>::empty());
    } else {
        let before = marks(text, n - 1);
        lemma_marked_tiles(data, text, n - 1, start);
        lemma_marks(text, n - 1);
        lemma_line_within(text, n - 1);
        if cuts != before {
            assert(cuts.drop_last() =~= before);
            let parts = marked_pieces(data, before, start);
            let last = Piece {
                offset: start + last_mark(before),
                data: data.subrange(last_mark(before) as int, cuts.last() as int),
            };
            lemma_push_piece(parts, start, last);
            assert(data.take(last_mark(before) as int) + last.data =~= data.take(
                last_mark(cuts) as int,
            ));
        }
    }
}

/// The paragraphs of a text lie end to end and together are its bytes, unless there are none.
pub proof fn law_ast_tiles(data: Seq<u8>, start: nat)
    ensures
        ast_pieces(data, start).len() > 0 ==> tiles(ast_pieces(data, start), data, start),
        ast_pieces(data, start).len() == 0 <==> !valid_utf8(data) || data.len() == 0,
{
    if valid_utf8(data) {
        decode_utf8_encode_utf8(data);
        let text = decode_utf8(data);
        let n = line_count(text);
        let cuts = marks(text, n);
        lemma_split_nonempty(text, '\n');
        lemma_marked_tiles(data, text, n, start);
        lemma_marks(text, n);
        let parts = marked_pieces(data, cuts, start);
        if last_mark(cuts) < data.len() {
            let last = Piece {
                offset: start + last_mark(cuts),
                data: data.subrange(last_mark(cuts) as int, data.len() as int),
            };
            lemma_push_piece(parts, start, last);
            assert(data.take(last_mark(cuts) as int) + last.data =~= data);
        } else {
            assert(data.take(last_mark(cuts) as int) =~= data);
            if parts.len() == 0 {
                assert(joined(parts) =~= Seq::<u8>::empty());
            }
            if data.len() == 0 {
                lemma_no_marks(text, n);
            }
        }
    }
}

/// A text without bytes has no lines and so no cuts.
proof fn lemma_no_marks(text: Seq<char>, n: int)
    requires
        n == line_count(text),
        byte_len(text) == 0,
    ensures
        marks(text, n).len() == 0,
{
    if n > 0 {
        lemma_line_within(text, n - 1);
        assert(n == 1);
        assert(marks(text, 0).len() == 0);
    }
}

/// A text is cut exactly before its blank lines that follow a line which is not blank.
pub proof fn law_cuts_end_paragraphs(text: Seq<char>, n: int, at: nat)
    requires
        0 <= n,
    ensures
        marks(text, n).contains(at) == exists|k: int|
            0 < k < n && is_blank(#[trigger] line(text, k)) && !is_blank(line(text, k - 1))
                && line_start(text, k) == at,
    decreases n,
{
    if n > 0 {
        let before = marks(text, n - 1);
        let all = marks(text, n);
        law_cuts_end_paragraphs(text, n - 1, at);
        if before.contains(at) {
            let i = choose|i: int| 0 <= i < before.len() && before[i] == at;
            assert(all[i] == at);
            let k = choose|k: int|
                0 < k < n - 1 && is_blank(#[trigger] line(text, k)) && !is_blank(line(text, k - 1))
                    && line_start(text, k) == at;
            assert(is_blank(line(text, k)));
        }
        if all.contains(at) && !before.contains(at) {
            let i = choose|i: int| 0 <= i < all.len() && all[i] == at;
            if i < before.len() {
                assert(before[i] == at);
            }
            assert(is_blank(line(text, n - 1)));
        }
        if exists|k: int|
            0 < k < n && is_blank(#[trigger] line(text, k)) && !is_blank(line(text, k - 1))
                && line_start(text, k) == at {
            let k = choose|k: int|
                0 < k < n && is_blank(#[trigger] line(text, k)) && !is_blank(line(text, k - 1))
                    && line_start(text, k) == at;
            if k == n - 1 {
                assert(all[before.len() as int] == at);
            } else {
                assert(before.contains(at));
            }
        }
    }
}

/// Two paragraphs with a blank line between them are never in one chunk: there is a cut behind the
/// start of every line of the first, and not behind that of the blank line.
pub proof fn law_paragraphs_are_parted(text: Seq<char>, n: int, j: int, b: int) -> (at: nat)
    requires
        0 <= j < b < n,
        !is_blank(line(text, j)),
        is_blank(line(text, b)),
    ensures
        marks(text, n).contains(at),
        line_start(text, j) < at <= line_start(text, b),
    decreases b - j,
{
    if is_blank(line(text, j + 1)) {
        let at = line_start(text, j + 1);
        law_cuts_end_paragraphs(text, n, at);
        lemma_line_start_grows(text, j, j + 1);
        if j + 1 < b {
            lemma_line_start_grows(text, j + 1, b);
        }
        at
    } else {
        lemma_line_start_grows(text, j, j + 1);
        law_paragraphs_are_parted(text, n, j + 1, b)
    }
}

/// A paragraph is never cut: there is no cut behind the start of its first line up to the start of
/// its last one.
pub proof fn law_paragraphs_stay_whole(text: Seq<char>, n: int, j: int, k: int, at: nat)
    requires
        0 <= j <= k < n,
        forall|i: int| j <= i <= k ==> !is_blank(#[trigger] line(text, i)),
        line_start(text, j) < at <= line_start(text, k),
    ensures
        !marks(text, n).contains(at),
{
    law_cuts_end_paragraphs(text, n, at);
    if marks(text, n).contains(at) {
        let i = choose|i: int|
            0 < i < n && is_blank(#[trigger] line(text, i)) && !is_blank(line(text, i - 1))
                && line_start(text, i) == at;
        if i < j {
            lemma_line_start_grows(text, i, j);
        }
        if k < i {
            lemma_line_start_grows(text, k, i);
        }
    }
}

/// Where the pieces up to each mark start.
proof fn lemma_marked_offsets(data: Seq<u8>, text: Seq<char>, n: int, start: nat, at: nat)
    requires
        0 <= n <= line_count(text),
        byte_len(text) == data.len(),
    ensures
        ({
            let cuts = marks(text, n);
            let parts = marked_pieces(data, cuts, start);
            (exists|k: int| 0 <= k < parts.len() && (#[trigger] parts[k]).offset == start + at)
                || last_mark(cuts) == at <==> at == 0 || cuts.contains(at)
        }),
    decreases n,
{
    let cuts = marks(text, n);
    let parts = marked_pieces(data, cuts, start);
    if n > 0 {
        let before = marks(text, n - 1);
        let front = marked_pieces(data, before, start);
        lemma_marked_offsets(data, text, n - 1, start, at);
        if cuts != before {
            assert(cuts.drop_last() =~= before);
            assert(parts =~= front.push(parts.last()));
            if exists|k: int| 0 <= k < front.len() && (#[trigger] front[k]).offset == start + at {
                let k = choose|k: int|
                    0 <= k < front.len() && (#[trigger] front[k]).offset == start + at;
                assert(parts[k].offset == start + at);
            }
            if last_mark(before) == at {
                assert(parts[front.len() as int].offset == start + at);
            }
            if exists|k: int| 0 <= k < parts.len() && (#[trigger] parts[k]).offset == start + at {
                let k = choose|k: int|
                    0 <= k < parts.len() && (#[trigger] parts[k]).offset == start + at;
                if k < front.len() {
                    assert(front[k].offset == start + at);
                }
            }
            if before.contains(at) {
                let i = choose|i: int| 0 <= i < before.len() && before[i] == at;
                assert(cuts[i] == at);
            }
            if cuts.contains(at) && at != cuts.last() {
                let i = choose|i: int| 0 <= i < cuts.len() && cuts[i] == at;
                assert(before[i] == at);
            }
            assert(cuts.contains(cuts.last())) by {
                assert(cuts[cuts.len() - 1] == cuts.last());
            }
        }
    } else {
        assert(cuts.len() == 0);
    }
}

/// The chunks of a text are cut at its paragraphs: a chunk other than the first starts exactly where
/// a blank line starts that follows a line which is not blank. The first chunk starts with the text.
pub proof fn law_chunks_start_at_paragraph_ends(data: Seq<u8>, start: nat, at: nat)
    requires
        valid_utf8(data),
        0 < at < data.len(),
    ensures
        (exists|i: int|
            0 <= i < ast_pieces(data, start).len() && (#[trigger] ast_pieces(
                data,
                start,
            )[i]).offset == start + at) <==> exists|k: int|
            {
                &&& 0 < k < line_count(decode_utf8(data))
                &&& is_blank(#[trigger] line(decode_utf8(data), k))
                &&& !is_blank(line(decode_utf8(data), k - 1))
                &&& line_start(decode_utf8(data), k) == at
            },
        ast_pieces(data, start)[0].offset == start,
{
    decode_utf8_encode_utf8(data);
    let text = decode_utf8(data);
    let n = line_count(text);
    let cuts = marks(text, n);
    let parts = marked_pieces(data, cuts, start);
    let all = ast_pieces(data, start);
    lemma_split_nonempty(text, '\n');
    lemma_marks(text, n);
    lemma_marked_offsets(data, text, n, start, at);
    law_cuts_end_paragraphs(text, n, at);
    law_ast_tiles(data, start);
    if exists|k: int| 0 <= k < parts.len() && (#[trigger] parts[k]).offset == start + at {
        let k = choose|k: int| 0 <= k < parts.len() && (#[trigger] parts[k]).offset == start + at;
        assert(all[k].offset == start + at);
    }
    if last_mark(cuts) == at {
        assert(all[parts.len() as int].offset == start + at);
    }
    if exists|i: int| 0 <= i < all.len() && (#[trigger] all[i]).offset == start + at {
        let i = choose|i: int| 0 <= i < all.len() && (#[trigger] all[i]).offset == start + at;
        if i < parts.len() {
            assert(parts[i].offset == start + at);
        }
    }
}

/// Bytes that are no text have no paragraphs, and neither has an empty text.
pub proof fn law_ast_of_nothing(data: Seq<u8>, start: nat)
    ensures
        ast_pieces(data, start).len() == 0 <==> data.len() == 0 || !valid_utf8(data),
{
    law_ast_tiles(data, start);
    if valid_utf8(data) {
        decode_utf8_encode_utf8(data);
        let text = decode_utf8(data);
        let n = line_count(text);
        lemma_split_nonempty(text, '\n');
        if data.len() == 0 {
            if text.len() > 0 {
                lemma_byte_len_take(text, 1);
                lemma_byte_len_push(Seq::empty(), text[0]);
                assert(Seq::<char>::empty().push(text[0]) =~= text.take(1));
            }
            law_lines_are_counted(text);
            reveal(Seq::filter);
            assert(n == 0);
        } else if ast_pieces(data, start).len() == 0 {
            assert(joined(ast_pieces(data, start)).len() == 0);
        }
    }
}

} // verus!
