use rust_compare::comparator::compare_chunked;
use rust_compare::context::{diff_context, line_bounds};

fn all_offsets(c: &rust_compare::comparator::Comparison) -> Vec<usize> {
    let mut out: Vec<usize> = Vec::new();
    for chunk in &c.chunks {
        for r in chunk {
            out.push(r.offset);
        }
    }
    out
}

#[test]
fn one_changed_line_with_context() {
    let d1: &[u8] = b"abc\ndef\n";
    let d2: &[u8] = b"abc\nxef\n";
    let c = compare_chunked(d1, d2, 1 << 20);
    assert_eq!(c.total, 1);
    let mut recs = Vec::new();
    for chunk in &c.chunks {
        for r in chunk {
            recs.push(*r);
        }
    }
    assert_eq!(recs.len(), 1);
    assert_eq!(recs[0].line, 2);
    assert_eq!(recs[0].offset, 4);
    let (line1, line2) = diff_context(d1, d2, recs[0].offset);
    assert_eq!(line1, b"def".to_vec());
    assert_eq!(line2, b"xef".to_vec());
}

#[test]
fn line_bounds_enclose_offset() {
    let data: &[u8] = b"abc\ndef\n";
    assert_eq!(line_bounds(data, 0), (0, 3));
    assert_eq!(line_bounds(data, 2), (0, 3));
    assert_eq!(line_bounds(data, 3), (0, 3));
    assert_eq!(line_bounds(data, 4), (4, 7));
    assert_eq!(line_bounds(data, 5), (4, 7));
    assert_eq!(line_bounds(data, 7), (4, 7));
    assert_eq!(line_bounds(data, 8), (8, 8));
}

#[test]
fn line_bounds_without_newlines() {
    let data: &[u8] = b"abc";
    assert_eq!(line_bounds(data, 0), (0, 3));
    assert_eq!(line_bounds(data, 1), (0, 3));
    assert_eq!(line_bounds(data, 3), (0, 3));
    let empty: &[u8] = b"";
    assert_eq!(line_bounds(empty, 0), (0, 0));
}

#[test]
fn context_is_local_to_each_region() {
    // Each region's line is bounded by its own newlines around the same
    // absolute offset, so diverged layouts give each side its own slice.
    let d1: &[u8] = b"ab\ncdef";
    let d2: &[u8] = b"abcd\nef";
    let (line1, line2) = diff_context(d1, d2, 3);
    assert_eq!(line1, b"cdef".to_vec());
    assert_eq!(line2, b"abcd".to_vec());
}

#[test]
fn context_on_multiline_mismatch_run() {
    let d1: &[u8] = b"one\ntwo\nthree";
    let d2: &[u8] = b"one\ntwX\nthree";
    let c = compare_chunked(d1, d2, 1 << 20);
    let offsets = all_offsets(&c);
    assert_eq!(offsets, vec![6]);
    let (line1, line2) = diff_context(d1, d2, 6);
    assert_eq!(line1, b"two".to_vec());
    assert_eq!(line2, b"twX".to_vec());
}
