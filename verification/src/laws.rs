//! Properties of the comparison as a whole: what identical inputs, a single
//! mismatch, or a pure length mismatch produce, how record offsets are
//! ordered, and when the chunk size cannot change the total.

use vstd::prelude::*;
use crate::model::{
    NEWLINE, count_newlines, seed_line, clip_end, skip_end, spec_scan, spec_chunk,
    spec_ranges, ranges_records, spec_records, spec_total, mismatch_count,
    min_len, max_len, length_gap, int_min, int_max,
    lemma_skip_end_range, lemma_count_newlines_bounds,
};

verus! {

/// A scan of a range where the two regions agree everywhere emits nothing.
pub proof fn lemma_scan_equal(d1: Seq<u8>, d2: Seq<u8>, pos: int, end: int, line: int)
    requires
        forall|i: int| pos <= i < end ==> d1[i] == d2[i],
    ensures
        spec_scan(d1, d2, pos, end, line) == Seq::<(int, int)>::empty(),
    decreases end - pos,
{
    if pos < end {
        assert(d1[pos] == d2[pos]);
        if d1[pos] == NEWLINE {
            lemma_scan_equal(d1, d2, pos + 1, end, line + 1);
        } else {
            lemma_scan_equal(d1, d2, pos + 1, end, line);
        }
    }
}

/// Scanning past a prefix on which the regions agree only moves the
/// position and advances the line number by the newlines of that prefix.
pub proof fn lemma_scan_equal_prefix(d1: Seq<u8>, d2: Seq<u8>, pos: int, q: int, end: int, line: int)
    requires
        0 <= pos <= q <= end,
        forall|i: int| pos <= i < q ==> d1[i] == d2[i],
    ensures
        spec_scan(d1, d2, pos, end, line)
            == spec_scan(d1, d2, q, end, line + count_newlines(d1, q) - count_newlines(d1, pos)),
    decreases q - pos,
{
    if pos < q {
        assert(d1[pos] == d2[pos]);
        assert(count_newlines(d1, pos + 1)
            == count_newlines(d1, pos) + (if d1[pos] == NEWLINE { 1int } else { 0int }));
        if d1[pos] == NEWLINE {
            lemma_scan_equal_prefix(d1, d2, pos + 1, q, end, line + 1);
        } else {
            lemma_scan_equal_prefix(d1, d2, pos + 1, q, end, line);
        }
    }
}

/// On regions where every differing offset holds a newline in one of them,
/// the scan emits exactly one record per differing offset of its range.
pub proof fn lemma_scan_counts_mismatches(d1: Seq<u8>, d2: Seq<u8>, pos: int, end: int, line: int)
    requires
        forall|i: int| pos <= i < end && d1[i] != d2[i] ==> d1[i] == NEWLINE || d2[i] == NEWLINE,
    ensures
        spec_scan(d1, d2, pos, end, line).len() == mismatch_count(d1, d2, pos, end),
    decreases end - pos,
{
    if pos < end {
        if d1[pos] != d2[pos] {
            assert(d1[pos] == NEWLINE || d2[pos] == NEWLINE);
            assert(skip_end(d1, d2, pos, end) == pos);
            lemma_scan_counts_mismatches(d1, d2, pos + 1, end, line);
        } else if d1[pos] == NEWLINE {
            lemma_scan_counts_mismatches(d1, d2, pos + 1, end, line + 1);
        } else {
            lemma_scan_counts_mismatches(d1, d2, pos + 1, end, line);
        }
    }
}

/// A range on which the regions agree holds no mismatch.
pub proof fn lemma_mismatch_zero(d1: Seq<u8>, d2: Seq<u8>, pos: int, end: int)
    requires
        forall|i: int| pos <= i < end ==> d1[i] == d2[i],
    ensures
        mismatch_count(d1, d2, pos, end) == 0,
    decreases end - pos,
{
    if pos < end {
        assert(d1[pos] == d2[pos]);
        lemma_mismatch_zero(d1, d2, pos + 1, end);
    }
}

/// Mismatch counts add up over adjacent ranges.
pub proof fn lemma_mismatch_split(d1: Seq<u8>, d2: Seq<u8>, a: int, b: int, c: int)
    requires
        a <= b <= c,
    ensures
        mismatch_count(d1, d2, a, c) == mismatch_count(d1, d2, a, b) + mismatch_count(d1, d2, b, c),
    decreases b - a,
{
    if a < b {
        lemma_mismatch_split(d1, d2, a + 1, b, c);
    }
}

/// Every record of a scan lies inside the scanned range, its line number is
/// at least the seeded one, and offsets are strictly ascending.
pub proof fn lemma_scan_offsets(d1: Seq<u8>, d2: Seq<u8>, pos: int, end: int, line: int)
    ensures
        forall|k: int| 0 <= k < spec_scan(d1, d2, pos, end, line).len()
            ==> pos <= (#[trigger] spec_scan(d1, d2, pos, end, line)[k]).1 < end
                && line <= spec_scan(d1, d2, pos, end, line)[k].0,
        forall|k1: int, k2: int|
            0 <= k1 < k2 < spec_scan(d1, d2, pos, end, line).len()
                ==> (#[trigger] spec_scan(d1, d2, pos, end, line)[k1]).1
                    < (#[trigger] spec_scan(d1, d2, pos, end, line)[k2]).1,
    decreases int_max(end - pos, 0),
{
    if pos < end {
        let s = spec_scan(d1, d2, pos, end, line);
        if d1[pos] != d2[pos] {
            lemma_skip_end_range(d1, d2, pos, end);
            let sk = skip_end(d1, d2, pos, end);
            let next = if sk < end { sk + 1 } else { end };
            lemma_scan_offsets(d1, d2, next, end, line);
            let t = spec_scan(d1, d2, next, end, line);
            assert(s == seq![(line, pos)] + t);
            assert(s[0] == (line, pos));
            assert forall|k: int| 1 <= k < s.len() implies s[k] == t[k - 1] by {
                assert((seq![(line, pos)] + t)[k] == t[k - 1]);
            }
        } else if d1[pos] == NEWLINE {
            lemma_scan_offsets(d1, d2, pos + 1, end, line + 1);
            assert(s == spec_scan(d1, d2, pos + 1, end, line + 1));
        } else {
            lemma_scan_offsets(d1, d2, pos + 1, end, line);
            assert(s == spec_scan(d1, d2, pos + 1, end, line));
        }
    }
}

/// Chunks that start where the regions no longer differ contribute nothing.
pub proof fn lemma_ranges_empty_tail(d1: Seq<u8>, d2: Seq<u8>, start: int, max: int, chunk_size: int)
    requires
        0 <= start,
        forall|i: int| start <= i < min_len(d1, d2) ==> d1[i] == d2[i],
    ensures
        ranges_records(d1, d2, spec_ranges(start, max, chunk_size)) == Seq::<(int, int)>::empty(),
    decreases max - start,
{
    if start < max && chunk_size >= 1 {
        let e = int_min(start + chunk_size, max);
        let rs = spec_ranges(start, max, chunk_size);
        assert(rs == seq![(start, e)] + spec_ranges(e, max, chunk_size));
        assert(rs[0] == (start, e));
        assert(rs.drop_first() =~= spec_ranges(e, max, chunk_size));
        lemma_scan_equal(d1, d2, start, clip_end(d1, d2, e), seed_line(d1, start));
        lemma_ranges_empty_tail(d1, d2, e, max, chunk_size);
        assert(ranges_records(d1, d2, rs) =~= Seq::<(int, int)>::empty());
    }
}

/// On regions where every differing offset holds a newline in one of them,
/// the chunked records from `start` on count exactly the differing offsets
/// of the comparable prefix from `start` on, whatever the chunk size.
pub proof fn lemma_ranges_count(d1: Seq<u8>, d2: Seq<u8>, start: int, max: int, chunk_size: int)
    requires
        0 <= start,
        chunk_size >= 1,
        max == max_len(d1, d2),
        forall|i: int|
            0 <= i < min_len(d1, d2) && d1[i] != d2[i] ==> d1[i] == NEWLINE || d2[i] == NEWLINE,
    ensures
        ranges_records(d1, d2, spec_ranges(start, max, chunk_size)).len()
            == mismatch_count(d1, d2, int_min(start, min_len(d1, d2)), min_len(d1, d2)),
    decreases max - start,
{
    let minl = min_len(d1, d2);
    if start >= max {
        assert(spec_ranges(start, max, chunk_size) == Seq::<(int, int)>::empty());
        assert(int_min(start, minl) == minl);
    } else {
        let e = int_min(start + chunk_size, max);
        let rs = spec_ranges(start, max, chunk_size);
        assert(rs == seq![(start, e)] + spec_ranges(e, max, chunk_size));
        assert(rs[0] == (start, e));
        assert(rs.drop_first() =~= spec_ranges(e, max, chunk_size));
        let clip = clip_end(d1, d2, e);
        lemma_ranges_count(d1, d2, e, max, chunk_size);
        if start < minl {
            lemma_scan_counts_mismatches(d1, d2, start, clip, seed_line(d1, start));
            lemma_mismatch_split(d1, d2, start, clip, minl);
            if e > minl {
                lemma_mismatch_zero(d1, d2, minl, minl);
            }
        } else {
            assert(spec_scan(d1, d2, start, clip, seed_line(d1, start))
                == Seq::<(int, int)>::empty());
            assert(int_min(start, minl) == minl);
            assert(int_min(e, minl) == minl);
        }
    }
}

/// Every record of the chunked comparison from `start` on lies in the
/// comparable prefix at or past `start`, carries a line number of at least
/// one, and offsets are strictly ascending across the whole sequence.
pub proof fn lemma_records_window(d1: Seq<u8>, d2: Seq<u8>, start: int, max: int, chunk_size: int)
    requires
        0 <= start,
        chunk_size >= 1,
    ensures
        forall|k: int|
            0 <= k < ranges_records(d1, d2, spec_ranges(start, max, chunk_size)).len()
                ==> start <= (#[trigger] ranges_records(d1, d2, spec_ranges(start, max, chunk_size))[k]).1
                        < min_len(d1, d2)
                    && 1 <= ranges_records(d1, d2, spec_ranges(start, max, chunk_size))[k].0,
        forall|k1: int, k2: int|
            0 <= k1 < k2 < ranges_records(d1, d2, spec_ranges(start, max, chunk_size)).len()
                ==> (#[trigger] ranges_records(d1, d2, spec_ranges(start, max, chunk_size))[k1]).1
                    < (#[trigger] ranges_records(d1, d2, spec_ranges(start, max, chunk_size))[k2]).1,
    decreases max - start,
{
    if start < max {
        let e = int_min(start + chunk_size, max);
        let rs = spec_ranges(start, max, chunk_size);
        assert(rs == seq![(start, e)] + spec_ranges(e, max, chunk_size));
        assert(rs[0] == (start, e));
        assert(rs.drop_first() =~= spec_ranges(e, max, chunk_size));
        let clip = clip_end(d1, d2, e);
        let seed = seed_line(d1, start);
        lemma_count_newlines_bounds(d1, int_min(start, d1.len() as int));
        lemma_scan_offsets(d1, d2, start, clip, seed);
        lemma_records_window(d1, d2, e, max, chunk_size);
        let c = spec_chunk(d1, d2, start, e);
        let t = ranges_records(d1, d2, spec_ranges(e, max, chunk_size));
        let r = ranges_records(d1, d2, rs);
        assert(r == c + t);
        assert forall|k: int| 0 <= k < r.len() implies
            start <= (#[trigger] r[k]).1 < min_len(d1, d2) && 1 <= r[k].0 by {
            if k < c.len() {
                assert(r[k] == c[k]);
            } else {
                assert(r[k] == t[k - c.len()]);
            }
        }
        assert forall|k1: int, k2: int| 0 <= k1 < k2 < r.len() implies
            (#[trigger] r[k1]).1 < (#[trigger] r[k2]).1 by {
            if k2 < c.len() {
                assert(r[k1] == c[k1]);
                assert(r[k2] == c[k2]);
            } else if k1 >= c.len() {
                assert(r[k1] == t[k1 - c.len()]);
                assert(r[k2] == t[k2 - c.len()]);
            } else {
                assert(r[k1] == c[k1]);
                assert(r[k2] == t[k2 - c.len()]);
                assert(c[k1].1 < clip);
                assert(t[k2 - c.len()].1 >= e);
            }
        }
    }
}

/// Comparing a region to itself yields no records and a total of zero,
/// whatever the content, the length and the chunk size.
pub proof fn lemma_identical_input(d: Seq<u8>, chunk_size: int)
    requires
        chunk_size >= 1,
    ensures
        spec_records(d, d, chunk_size) == Seq::<(int, int)>::empty(),
        spec_total(d, d, chunk_size) == 0,
{
    lemma_length_gap_only(d, d, chunk_size);
}

/// Regions that agree on the whole comparable prefix yield no records, and
/// the total is exactly the length gap.
pub proof fn lemma_length_gap_only(d1: Seq<u8>, d2: Seq<u8>, chunk_size: int)
    requires
        chunk_size >= 1,
        forall|i: int| 0 <= i < min_len(d1, d2) ==> d1[i] == d2[i],
    ensures
        spec_records(d1, d2, chunk_size) == Seq::<(int, int)>::empty(),
        spec_total(d1, d2, chunk_size) == length_gap(d1, d2),
{
    lemma_ranges_empty_tail(d1, d2, 0, max_len(d1, d2), chunk_size);
}

/// For regions of equal length that differ at exactly one offset `p`, the
/// whole comparison yields exactly one record: its offset is `p` and its
/// line number is the count of the first region's newlines before `p` plus
/// one — whatever the chunk size.
pub proof fn lemma_single_mismatch(d1: Seq<u8>, d2: Seq<u8>, p: int, chunk_size: int)
    requires
        chunk_size >= 1,
        d1.len() == d2.len(),
        0 <= p < d1.len(),
        d1[p] != d2[p],
        forall|i: int| 0 <= i < d1.len() && i != p ==> d1[i] == d2[i],
    ensures
        spec_records(d1, d2, chunk_size) == seq![(count_newlines(d1, p) + 1, p)],
        spec_total(d1, d2, chunk_size) == 1,
{
    lemma_single_mismatch_from(d1, d2, p, 0, max_len(d1, d2), chunk_size);
}

proof fn lemma_single_mismatch_from(d1: Seq<u8>, d2: Seq<u8>, p: int, start: int, max: int, chunk_size: int)
    requires
        chunk_size >= 1,
        d1.len() == d2.len(),
        max == d1.len(),
        0 <= start <= p < max,
        d1[p] != d2[p],
        forall|i: int| 0 <= i < d1.len() && i != p ==> d1[i] == d2[i],
    ensures
        ranges_records(d1, d2, spec_ranges(start, max, chunk_size))
            == seq![(count_newlines(d1, p) + 1, p)],
    decreases max - start,
{
    let e = int_min(start + chunk_size, max);
    let rs = spec_ranges(start, max, chunk_size);
    assert(rs == seq![(start, e)] + spec_ranges(e, max, chunk_size));
    assert(rs[0] == (start, e));
    assert(rs.drop_first() =~= spec_ranges(e, max, chunk_size));
    let clip = clip_end(d1, d2, e);
    assert(clip == e);
    let seed = seed_line(d1, start);
    assert(seed == count_newlines(d1, start) + 1);
    if p < e {
        lemma_scan_equal_prefix(d1, d2, start, p, e, seed);
        let line_at_p = count_newlines(d1, p) + 1;
        assert(spec_scan(d1, d2, start, e, seed) == spec_scan(d1, d2, p, e, line_at_p));
        lemma_skip_end_range(d1, d2, p, e);
        let sk = skip_end(d1, d2, p, e);
        let next = if sk < e { sk + 1 } else { e };
        lemma_scan_equal(d1, d2, next, e, line_at_p);
        assert(spec_scan(d1, d2, p, e, line_at_p)
            =~= seq![(line_at_p, p)] + Seq::<(int, int)>::empty());
        lemma_ranges_empty_tail(d1, d2, e, max, chunk_size);
        assert(ranges_records(d1, d2, rs) =~= seq![(count_newlines(d1, p) + 1, p)]);
    } else {
        lemma_scan_equal(d1, d2, start, e, seed);
        lemma_single_mismatch_from(d1, d2, p, e, max, chunk_size);
        assert(ranges_records(d1, d2, rs) =~= seq![(count_newlines(d1, p) + 1, p)]);
    }
}

/// Every record of the whole comparison lies in the comparable prefix with
/// a line number of at least one, and the record offsets are strictly
/// ascending — in particular monotonically non-decreasing — when the result
/// is read in chunk order.
pub proof fn lemma_offsets_ascending(d1: Seq<u8>, d2: Seq<u8>, chunk_size: int)
    requires
        chunk_size >= 1,
    ensures
        forall|k: int|
            0 <= k < spec_records(d1, d2, chunk_size).len()
                ==> 0 <= (#[trigger] spec_records(d1, d2, chunk_size)[k]).1 < min_len(d1, d2)
                    && 1 <= spec_records(d1, d2, chunk_size)[k].0,
        forall|k1: int, k2: int|
            0 <= k1 < k2 < spec_records(d1, d2, chunk_size).len()
                ==> (#[trigger] spec_records(d1, d2, chunk_size)[k1]).1
                    < (#[trigger] spec_records(d1, d2, chunk_size)[k2]).1,
{
    lemma_records_window(d1, d2, 0, max_len(d1, d2), chunk_size);
}

/// The first offset at which the two regions differ, or `end` if they
/// agree on the whole range.
pub open spec fn first_diff(d1: Seq<u8>, d2: Seq<u8>, pos: int, end: int) -> int
    decreases end - pos,
{
    if pos >= end {
        end
    } else if d1[pos] != d2[pos] {
        pos
    } else {
        first_diff(d1, d2, pos + 1, end)
    }
}

pub proof fn lemma_first_diff(d1: Seq<u8>, d2: Seq<u8>, pos: int, end: int)
    requires
        pos <= end,
    ensures
        pos <= first_diff(d1, d2, pos, end) <= end,
        forall|i: int| pos <= i < first_diff(d1, d2, pos, end) ==> d1[i] == d2[i],
        first_diff(d1, d2, pos, end) < end
            ==> d1[first_diff(d1, d2, pos, end)] != d2[first_diff(d1, d2, pos, end)],
    decreases end - pos,
{
    if pos < end && d1[pos] == d2[pos] {
        lemma_first_diff(d1, d2, pos + 1, end);
    }
}

/// A mismatch in the comparable prefix at or past `start`, with agreement
/// before it, always surfaces as at least one record.
proof fn lemma_records_nonempty_from(d1: Seq<u8>, d2: Seq<u8>, p: int, start: int, max: int, chunk_size: int)
    requires
        chunk_size >= 1,
        max == max_len(d1, d2),
        0 <= start <= p < min_len(d1, d2),
        d1[p] != d2[p],
        forall|i: int| start <= i < p ==> d1[i] == d2[i],
    ensures
        ranges_records(d1, d2, spec_ranges(start, max, chunk_size)).len() >= 1,
    decreases max - start,
{
    let e = int_min(start + chunk_size, max);
    let rs = spec_ranges(start, max, chunk_size);
    assert(rs == seq![(start, e)] + spec_ranges(e, max, chunk_size));
    assert(rs[0] == (start, e));
    assert(rs.drop_first() =~= spec_ranges(e, max, chunk_size));
    let clip = clip_end(d1, d2, e);
    let seed = seed_line(d1, start);
    if p < clip {
        lemma_scan_equal_prefix(d1, d2, start, p, clip, seed);
        assert(spec_scan(d1, d2, p, clip, seed + count_newlines(d1, p) - count_newlines(d1, start)).len() >= 1);
    } else {
        assert(clip == e);
        lemma_records_nonempty_from(d1, d2, p, e, max, chunk_size);
    }
}

/// A total of zero means the regions are identical: equal lengths, and
/// equal bytes at every offset.
pub proof fn lemma_zero_total_identical(d1: Seq<u8>, d2: Seq<u8>, chunk_size: int)
    requires
        chunk_size >= 1,
        spec_total(d1, d2, chunk_size) == 0,
    ensures
        d1 == d2,
{
    assert(d1.len() == d2.len());
    if forall|i: int| 0 <= i < d1.len() ==> d1[i] == d2[i] {
        assert(d1 =~= d2);
    } else {
        let len = d1.len() as int;
        lemma_first_diff(d1, d2, 0, len);
        let p0 = first_diff(d1, d2, 0, len);
        assert(p0 < len) by {
            let p = choose|i: int| 0 <= i < len && d1[i] != d2[i];
            assert(0 <= p < len && d1[p] != d2[p]);
        }
        lemma_records_nonempty_from(d1, d2, p0, 0, max_len(d1, d2), chunk_size);
    }
}

/// On regions where every differing offset holds a newline in one of them,
/// the chunk size is a pure performance knob: any two chunk sizes give the
/// same total difference count.
pub proof fn lemma_chunk_size_immaterial(d1: Seq<u8>, d2: Seq<u8>, c1: int, c2: int)
    requires
        c1 >= 1,
        c2 >= 1,
        forall|i: int|
            0 <= i < min_len(d1, d2) && d1[i] != d2[i] ==> d1[i] == NEWLINE || d2[i] == NEWLINE,
    ensures
        spec_total(d1, d2, c1) == spec_total(d1, d2, c2),
{
    lemma_ranges_count(d1, d2, 0, max_len(d1, d2), c1);
    lemma_ranges_count(d1, d2, 0, max_len(d1, d2), c2);
}

} // verus!
