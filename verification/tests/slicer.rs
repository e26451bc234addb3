use slimsync::slicer::ast::extract_ast_boundaries;
use slimsync::slicer::cdc::fastcdc_chunk;
use slimsync::slicer::cdc::gear_hash;
use slimsync::slicer::cdc::FastCdcIter;
use slimsync::slicer::slice_file_iter;
use slimsync::slicer::uses_structure;
use slimsync::slicer::Chunk;
use slimsync::slicer::ChunkIter;
use slimsync::slicer::FileTail;

fn noise(n: usize) -> Vec<u8> {
    let mut x: u64 = 12345;
    let mut out = Vec::new();
    for _ in 0..n {
        x = (x * 1103515245 + 12345) & 0x7fffffff;
        out.push(((x >> 16) & 255) as u8);
    }
    out
}

fn spans(chunks: &[Chunk]) -> Vec<(u64, u64)> {
    chunks.iter().map(|c| (c.offset, c.length)).collect()
}

fn check_tiles(chunks: &[Chunk], data: &[u8], start: u64) {
    let mut at = start;
    let mut all = Vec::new();
    for c in chunks {
        assert_eq!(c.offset, at);
        assert_eq!(c.length as usize, c.data.len());
        at += c.length;
        all.extend_from_slice(&c.data);
    }
    assert_eq!(all, data);
}

fn drain(mut it: ChunkIter) -> Vec<Chunk> {
    let mut out = Vec::new();
    while let Some(c) = it.next() {
        out.push(c);
    }
    out
}

#[test]
fn gear_of_a_byte() {
    assert_eq!(gear_hash(0), 0);
    assert_eq!(gear_hash(1), 0x9e3779b97f4a7c15);
    assert_eq!(gear_hash(2), 0x3c6ef372fe94f82a);
}

#[test]
fn cdc_known_cuts() {
    let data = noise(20000);
    let chunks = fastcdc_chunk(&data, 0);
    assert_eq!(
        spans(&chunks),
        vec![
            (0, 2055),
            (2055, 2057),
            (4112, 2065),
            (6177, 2055),
            (8232, 2051),
            (10283, 2061),
            (12344, 2050),
            (14394, 2069),
            (16463, 2050),
            (18513, 1487)
        ]
    );
    check_tiles(&chunks, &data, 0);
}

#[test]
fn cdc_without_a_hash_cut_stops_at_the_limit() {
    let data = vec![1u8; 200000];
    let chunks = fastcdc_chunk(&data, 0);
    assert_eq!(
        spans(&chunks),
        vec![(0, 63489), (63489, 63489), (126978, 63489), (190467, 9533)]
    );
}

#[test]
fn cdc_of_zeros_and_of_little() {
    assert_eq!(spans(&fastcdc_chunk(&vec![0u8; 5000], 0)), vec![(0, 2049), (2049, 2049), (4098, 902)]);
    assert_eq!(spans(&fastcdc_chunk(&b"hello".to_vec(), 7)), vec![(7, 5)]);
    assert!(fastcdc_chunk(&Vec::new(), 3).is_empty());
}

#[test]
fn cdc_resumes_at_every_boundary() {
    let data = noise(20000);
    let all = fastcdc_chunk(&data, 100);
    for k in 0..all.len() {
        let from = (all[k].offset - 100) as usize;
        let again = fastcdc_chunk(&data[from..].to_vec(), all[k].offset);
        assert_eq!(spans(&again), spans(&all[k..]));
    }
}

#[test]
fn cdc_append_keeps_the_chunks_before_the_last() {
    let data = noise(20000);
    let part = fastcdc_chunk(&data[..12000].to_vec(), 0);
    let all = fastcdc_chunk(&data, 0);
    let kept = part.len() - 1;
    assert_eq!(spans(&part[..kept]), spans(&all[..kept]));
}

#[test]
fn streamed_chunks_are_the_same() {
    let data = noise(150000);
    let whole = fastcdc_chunk(&data, 5);
    let mut it = FastCdcIter::new(5);
    let mut out = Vec::new();
    let mut at = 0;
    loop {
        while it.wants_input() {
            if at == data.len() {
                it.finish();
            } else {
                let end = std::cmp::min(at + 7777, data.len());
                it.feed(data[at..end].to_vec());
                at = end;
            }
        }
        match it.next() {
            Some(c) => out.push(c),
            None => break,
        }
    }
    assert_eq!(spans(&out), spans(&whole));
    check_tiles(&out, &data, 5);
    assert!(it.next().is_none());
}

#[test]
fn paragraphs_end_before_blank_lines() {
    let data = b"a\nb\n\nccc\n\nd\n".to_vec();
    let chunks = extract_ast_boundaries(&data, 10);
    assert_eq!(spans(&chunks), vec![(10, 4), (14, 5), (19, 3)]);
    check_tiles(&chunks, &data, 10);
}

#[test]
fn each_paragraph_has_a_chunk() {
    let data = b"a\nb\n\nc\nd\n\ne\n".to_vec();
    let chunks = extract_ast_boundaries(&data, 0);
    assert_eq!(chunks.len(), 3);
    assert_eq!(chunks[0].data, b"a\nb\n".to_vec());
    assert_eq!(chunks[1].data, b"\nc\nd\n".to_vec());
    assert_eq!(chunks[2].data, b"\ne\n".to_vec());
    check_tiles(&chunks, &data, 0);
}

#[test]
fn several_blank_lines_part_once() {
    let data = b"\n\na\n\n \n\nb\nc\n".to_vec();
    let chunks = extract_ast_boundaries(&data, 0);
    assert_eq!(chunks.len(), 2);
    assert_eq!(chunks[0].data, b"\n\na\n".to_vec());
    assert_eq!(chunks[1].data, b"\n \n\nb\nc\n".to_vec());
    check_tiles(&chunks, &data, 0);
}

#[test]
fn carriage_returns_belong_to_their_lines() {
    let data = b"a\r\nb\r\n\r\nc".to_vec();
    let chunks = extract_ast_boundaries(&data, 0);
    assert_eq!(spans(&chunks), vec![(0, 6), (6, 3)]);
    check_tiles(&chunks, &data, 0);
}

#[test]
fn blank_lines_hold_any_white_space() {
    let data = "x\ny\n\u{3000}\u{2003} \t\nz\n".as_bytes().to_vec();
    let chunks = extract_ast_boundaries(&data, 0);
    assert_eq!(chunks.len(), 2);
    assert_eq!(chunks[0].data, b"x\ny\n".to_vec());
    let solid = "x\ny\n\u{200b}\nz\n".as_bytes().to_vec();
    assert_eq!(extract_ast_boundaries(&solid, 0).len(), 1);
}

#[test]
fn no_text_has_no_paragraphs() {
    assert!(extract_ast_boundaries(&vec![0xff, 0xfe, b'a'], 0).is_empty());
    assert!(extract_ast_boundaries(&Vec::new(), 0).is_empty());
}

#[test]
fn structure_goes_by_extension() {
    for p in ["a.rs", "/x/a.go", "a.py", "a.c", "a.h", "a.java", "a.ts", "a.js", "a.yaml", "a.json", "a.toml", "a.md", "a.brd", "a.sch", "/x/a.dxf"] {
        assert!(uses_structure(p), "{}", p);
    }
    for p in ["a", ".rs", "a.RS", "a.wal", "a.rs/..", "a.rs.bak", "segment_0001.wal", ""] {
        assert!(!uses_structure(p), "{}", p);
    }
}

#[test]
fn structured_files_fall_back_to_content() {
    let mut data = noise(5000);
    data[0] = 0xff;
    let by_content = spans(&fastcdc_chunk(&data, 0));
    let sliced = drain(slice_file_iter("a.rs", 0, FileTail::Whole(data.clone())));
    assert_eq!(spans(&sliced), by_content);

    let text = b"a\nb\n\nccc\n\nd\n".to_vec();
    let sliced = drain(slice_file_iter("a.rs", 0, FileTail::Whole(text.clone())));
    assert_eq!(spans(&sliced), vec![(0, 4), (4, 5), (9, 3)]);
    let sliced = drain(slice_file_iter("a.txt", 0, FileTail::Whole(text.clone())));
    assert_eq!(spans(&sliced), vec![(0, 12)]);
    check_tiles(&sliced, &text, 0);
}

#[test]
fn unreadable_files_have_no_chunks() {
    assert!(drain(slice_file_iter("a.wal", 0, FileTail::Unreadable)).is_empty());
}

#[test]
fn streamed_file_iterator() {
    let data = noise(100000);
    let mut it = slice_file_iter("segment_0001.wal", 0, FileTail::Streamed);
    assert!(it.wants_input());
    it.feed(data.clone());
    it.finish();
    assert_eq!(it.held_len(), 100000);
    assert_eq!(spans(&drain(it)), spans(&fastcdc_chunk(&data, 0)));
}

#[test]
fn the_track_of_a_file() {
    let text = || FileTail::Whole(b"a\n\nb\n".to_vec());
    assert!(matches!(slice_file_iter("a.md", 0, text()), ChunkIter::Ast(_)));
    for p in ["a.brd", "a.sch", "a.dxf"] {
        assert!(matches!(slice_file_iter(p, 0, text()), ChunkIter::Ast(_)));
    }
    assert!(matches!(slice_file_iter("a.MD", 0, text()), ChunkIter::Cdc(_)));
    assert!(matches!(slice_file_iter("segment_0001.wal", 0, text()), ChunkIter::Cdc(_)));
    assert!(matches!(slice_file_iter("a.md", 0, FileTail::Whole(vec![0xff])), ChunkIter::Cdc(_)));
    assert!(matches!(slice_file_iter("a.md", 0, FileTail::Whole(Vec::new())), ChunkIter::Cdc(_)));
    assert!(matches!(slice_file_iter("a.wal", 0, FileTail::Streamed), ChunkIter::Cdc(_)));
}
