use rust_compare::comparator::{chunk_size_for, compare_bytes, compare_chunked, Comparison, MIN_CHUNK_SIZE};
use rust_compare::model::DiffRecord;
use rust_compare::scanner::scan_chunk;

fn all_records(c: &Comparison) -> Vec<DiffRecord> {
    let mut out: Vec<DiffRecord> = Vec::new();
    for chunk in &c.chunks {
        for r in chunk {
            out.push(*r);
        }
    }
    out
}

#[test]
fn identical_files_yield_zero() {
    let cases: Vec<&[u8]> = vec![b"", b"a", b"hello world", b"line one\nline two\n", b"\n\n\n"];
    for data in cases {
        for chunk_size in [1usize, 2, 3, 1024] {
            let c = compare_chunked(data, data, chunk_size);
            assert_eq!(c.total, 0);
            assert!(all_records(&c).is_empty());
        }
        let c = compare_bytes(data, data);
        assert_eq!(c.total, 0);
        assert!(all_records(&c).is_empty());
    }
}

#[test]
fn single_byte_mismatch_reports_line_and_offset() {
    let d1: &[u8] = b"abc";
    let d2: &[u8] = b"abd";
    for chunk_size in 1usize..=4 {
        let c = compare_chunked(d1, d2, chunk_size);
        assert_eq!(c.total, 1);
        let recs = all_records(&c);
        assert_eq!(recs.len(), 1);
        assert_eq!(recs[0].line, 1);
        assert_eq!(recs[0].offset, 2);
    }
}

#[test]
fn single_mismatch_on_later_line() {
    let d1: &[u8] = b"abc\ndef";
    let d2: &[u8] = b"abc\ndXf";
    for chunk_size in 1usize..=8 {
        let c = compare_chunked(d1, d2, chunk_size);
        assert_eq!(c.total, 1);
        let recs = all_records(&c);
        assert_eq!(recs.len(), 1);
        assert_eq!(recs[0].line, 2);
        assert_eq!(recs[0].offset, 5);
    }
}

#[test]
fn length_mismatch_counts_tail_without_records() {
    let d1: &[u8] = b"abc";
    let d2: &[u8] = b"abcde";
    for chunk_size in 1usize..=6 {
        let c = compare_chunked(d1, d2, chunk_size);
        assert_eq!(c.total, 2);
        assert!(all_records(&c).is_empty());
    }
    let c = compare_chunked(d2, d1, 2);
    assert_eq!(c.total, 2);
    assert!(all_records(&c).is_empty());
}

#[test]
fn empty_against_hello() {
    let d1: &[u8] = b"";
    let d2: &[u8] = b"hello";
    let c = compare_chunked(d1, d2, 4);
    assert_eq!(c.total, 5);
    assert!(all_records(&c).is_empty());
    let c = compare_bytes(d1, d2);
    assert_eq!(c.total, 5);
    assert!(all_records(&c).is_empty());
}

#[test]
fn offsets_ascending_in_chunk_order() {
    let d1: &[u8] = b"one\ntwo\nthree\nfour\nfive\n";
    let d2: &[u8] = b"oXe\ntwo\nthrXe\nfour\nfXve\n";
    for chunk_size in 1usize..=25 {
        let c = compare_chunked(d1, d2, chunk_size);
        let recs = all_records(&c);
        assert!(!recs.is_empty());
        for pair in recs.windows(2) {
            assert!(pair[0].offset < pair[1].offset);
        }
        for r in &recs {
            assert!(r.line >= 1);
            assert!(r.offset < d1.len().min(d2.len()));
        }
    }
}

#[test]
fn chunk_size_immaterial_for_newline_adjacent_mismatches() {
    // Every differing offset holds a newline in the first region, so the
    // skip after each mismatch is empty and no differing run can straddle a
    // chunk boundary: each chunk size must give the same total.
    let d1: &[u8] = b"a\nc\ne";
    let d2: &[u8] = b"a_c_e";
    let mut totals: Vec<usize> = Vec::new();
    for chunk_size in 1usize..=8 {
        totals.push(compare_chunked(d1, d2, chunk_size).total);
    }
    for t in &totals {
        assert_eq!(*t, 2);
    }
}

#[test]
fn chunk_boundary_splits_differing_run() {
    // A differing run with no newline is one record when scanned in one
    // chunk, and one record per chunk when a boundary cuts it.
    let d1: &[u8] = b"aaaa";
    let d2: &[u8] = b"bbbb";
    let whole = compare_chunked(d1, d2, 4);
    assert_eq!(whole.total, 1);
    let recs = all_records(&whole);
    assert_eq!(recs.len(), 1);
    assert_eq!(recs[0].offset, 0);

    let halves = compare_chunked(d1, d2, 2);
    assert_eq!(halves.total, 2);
    let recs = all_records(&halves);
    assert_eq!(recs.len(), 2);
    assert_eq!(recs[0].offset, 0);
    assert_eq!(recs[1].offset, 2);
}

#[test]
fn diff_skip_collapses_run_until_newline() {
    let d1: &[u8] = b"ab\ncd";
    let d2: &[u8] = b"xy\ncd";
    let c = compare_chunked(d1, d2, 16);
    assert_eq!(c.total, 1);
    let recs = all_records(&c);
    assert_eq!(recs.len(), 1);
    assert_eq!(recs[0].line, 1);
    assert_eq!(recs[0].offset, 0);
}

#[test]
fn newline_ending_a_skip_is_not_counted() {
    // The newline that stops a skip is passed over without bumping the line
    // counter, so a later mismatch reports one line fewer than its visual
    // line. The seeded recount of a fresh chunk does count it.
    let d1: &[u8] = b"a\nb\nx";
    let d2: &[u8] = b"x\nb\ny";
    let c = compare_chunked(d1, d2, 16);
    assert_eq!(c.total, 2);
    let recs = all_records(&c);
    assert_eq!(recs.len(), 2);
    assert_eq!((recs[0].line, recs[0].offset), (1, 0));
    assert_eq!((recs[1].line, recs[1].offset), (2, 4));

    let fresh = compare_chunked(d1, d2, 1);
    let recs = all_records(&fresh);
    assert_eq!((recs[0].line, recs[0].offset), (1, 0));
    assert_eq!((recs[1].line, recs[1].offset), (3, 4));
}

#[test]
fn scan_chunk_reseeds_line_from_chunk_start() {
    let d1: &[u8] = b"a\nbc";
    let d2: &[u8] = b"a\nbx";
    let recs = scan_chunk(d1, d2, 2, 4);
    assert_eq!(recs.len(), 1);
    assert_eq!(recs[0].line, 2);
    assert_eq!(recs[0].offset, 3);
}

#[test]
fn scan_chunk_clips_to_shorter_region() {
    let d1: &[u8] = b"abc";
    let d2: &[u8] = b"ab";
    let recs = scan_chunk(d1, d2, 0, 3);
    assert!(recs.is_empty());
}

#[test]
fn chunk_size_from_workers_and_length() {
    assert_eq!(chunk_size_for(100, 4), MIN_CHUNK_SIZE);
    assert_eq!(chunk_size_for(0, 1), MIN_CHUNK_SIZE);
    assert_eq!(chunk_size_for(10 * MIN_CHUNK_SIZE, 2), 5 * MIN_CHUNK_SIZE);
    assert_eq!(chunk_size_for(3 * MIN_CHUNK_SIZE + 1, 3), MIN_CHUNK_SIZE);
}

#[test]
fn compare_bytes_reports_chunk_size_used() {
    let d1: &[u8] = b"abc\ndef\n";
    let d2: &[u8] = b"abc\nxef\n";
    let c = compare_bytes(d1, d2);
    assert!(c.chunk_size >= 1);
    assert_eq!(c.total, 1);
}
