//! Mathematical model of the comparison: what one chunk scan produces, how
//! the full offset space is partitioned into chunks, and what the final
//! record sequence and total difference count are.

use vstd::prelude::*;

verus! {

/// The byte that ends a line.
pub const NEWLINE: u8 = 10;

/// One reported point of divergence between the two regions.
#[derive(Clone, Copy, PartialEq, Eq, Structural, Debug)]
pub struct DiffRecord {
    /// 1-based line number in the first region where the mismatch begins.
    pub line: usize,
    /// 0-based byte offset, relative to the whole region, where the mismatch begins.
    pub offset: usize,
}

/// A diff record sequence as a sequence of mathematical (line, offset) pairs.
pub open spec fn records_view(s: Seq<DiffRecord>) -> Seq<(int, int)> {
    s.map_values(|r: DiffRecord| (r.line as int, r.offset as int))
}

pub open spec fn int_min(a: int, b: int) -> int {
    if a <= b { a } else { b }
}

pub open spec fn int_max(a: int, b: int) -> int {
    if a >= b { a } else { b }
}

/// Length of the shorter region: the part that is compared byte by byte.
pub open spec fn min_len(d1: Seq<u8>, d2: Seq<u8>) -> int {
    int_min(d1.len() as int, d2.len() as int)
}

/// Length of the longer region: the full offset space that is partitioned.
pub open spec fn max_len(d1: Seq<u8>, d2: Seq<u8>) -> int {
    int_max(d1.len() as int, d2.len() as int)
}

/// The absolute difference of the two lengths, charged once to the total.
pub open spec fn length_gap(d1: Seq<u8>, d2: Seq<u8>) -> int {
    max_len(d1, d2) - min_len(d1, d2)
}

/// How many newline bytes occur in `d` strictly before offset `end`.
pub open spec fn count_newlines(d: Seq<u8>, end: int) -> int
    decreases end,
{
    if end <= 0 {
        0
    } else {
        count_newlines(d, end - 1) + (if d[end - 1] == NEWLINE { 1int } else { 0int })
    }
}

/// The 1-based line number a chunk starting at `start` is seeded with:
/// newlines of the first region strictly before `start`, plus one.
pub open spec fn seed_line(d1: Seq<u8>, start: int) -> int {
    count_newlines(d1, int_min(start, d1.len() as int)) + 1
}

/// A chunk's end clipped to the comparable prefix of the two regions.
pub open spec fn clip_end(d1: Seq<u8>, d2: Seq<u8>, end: int) -> int {
    int_min(end, min_len(d1, d2))
}

/// Where the skip after a mismatch at `pos` stops: the first offset in
/// `[pos, end)` holding a newline in either region, or `end` if none does.
pub open spec fn skip_end(d1: Seq<u8>, d2: Seq<u8>, pos: int, end: int) -> int
    decreases end - pos,
{
    if pos >= end {
        end
    } else if d1[pos] == NEWLINE || d2[pos] == NEWLINE {
        pos
    } else {
        skip_end(d1, d2, pos + 1, end)
    }
}

pub proof fn lemma_skip_end_range(d1: Seq<u8>, d2: Seq<u8>, pos: int, end: int)
    requires
        pos <= end,
    ensures
        pos <= skip_end(d1, d2, pos, end) <= end,
    decreases end - pos,
{
    if pos < end && d1[pos] != NEWLINE && d2[pos] != NEWLINE {
        lemma_skip_end_range(d1, d2, pos + 1, end);
    }
}

/// The (line, offset) pairs a single scan of `[pos, end)` emits, given the
/// current 1-based line number. On a mismatch the scan records one pair and
/// resumes one past the skip; on a matching newline the line number grows.
pub open spec fn spec_scan(d1: Seq<u8>, d2: Seq<u8>, pos: int, end: int, line: int) -> Seq<(int, int)>
    decreases end - pos,
    via spec_scan_decreases
{
    if pos >= end {
        Seq::empty()
    } else if d1[pos] != d2[pos] {
        let sk = skip_end(d1, d2, pos, end);
        let next = if sk < end { sk + 1 } else { end };
        seq![(line, pos)] + spec_scan(d1, d2, next, end, line)
    } else if d1[pos] == NEWLINE {
        spec_scan(d1, d2, pos + 1, end, line + 1)
    } else {
        spec_scan(d1, d2, pos + 1, end, line)
    }
}

#[via_fn]
proof fn spec_scan_decreases(d1: Seq<u8>, d2: Seq<u8>, pos: int, end: int, line: int) {
    if pos < end {
        lemma_skip_end_range(d1, d2, pos, end);
    }
}

/// Everything one chunk `[start, end)` contributes: its end is clipped to
/// the comparable prefix and its line number is reseeded from `start`.
pub open spec fn spec_chunk(d1: Seq<u8>, d2: Seq<u8>, start: int, end: int) -> Seq<(int, int)> {
    spec_scan(d1, d2, start, clip_end(d1, d2, end), seed_line(d1, start))
}

/// The consecutive chunk ranges covering `[start, max)` in steps of
/// `chunk_size`, the last range truncated to `max`.
pub open spec fn spec_ranges(start: int, max: int, chunk_size: int) -> Seq<(int, int)>
    decreases max - start,
{
    if start >= max || chunk_size < 1 {
        Seq::empty()
    } else {
        let e = int_min(start + chunk_size, max);
        seq![(start, e)] + spec_ranges(e, max, chunk_size)
    }
}

/// The concatenation, in range order, of what each chunk contributes.
pub open spec fn ranges_records(d1: Seq<u8>, d2: Seq<u8>, ranges: Seq<(int, int)>) -> Seq<(int, int)>
    decreases ranges.len(),
{
    if ranges.len() == 0 {
        Seq::empty()
    } else {
        spec_chunk(d1, d2, ranges[0].0, ranges[0].1) + ranges_records(d1, d2, ranges.drop_first())
    }
}

/// The full ordered record sequence of one comparison at a given chunk size.
pub open spec fn spec_records(d1: Seq<u8>, d2: Seq<u8>, chunk_size: int) -> Seq<(int, int)> {
    ranges_records(d1, d2, spec_ranges(0, max_len(d1, d2), chunk_size))
}

/// The total difference count: one per record, plus the length gap once.
pub open spec fn spec_total(d1: Seq<u8>, d2: Seq<u8>, chunk_size: int) -> int {
    spec_records(d1, d2, chunk_size).len() + length_gap(d1, d2)
}

/// How many offsets in `[pos, end)` hold different bytes in the two regions.
pub open spec fn mismatch_count(d1: Seq<u8>, d2: Seq<u8>, pos: int, end: int) -> int
    decreases end - pos,
{
    if pos >= end {
        0
    } else {
        (if d1[pos] != d2[pos] { 1int } else { 0int }) + mismatch_count(d1, d2, pos + 1, end)
    }
}

/// A chunk-range sequence as a sequence of mathematical (start, end) pairs.
pub open spec fn ranges_view(s: Seq<(usize, usize)>) -> Seq<(int, int)> {
    s.map_values(|rg: (usize, usize)| (rg.0 as int, rg.1 as int))
}

/// A scan emits at most one record per offset of its range.
pub proof fn lemma_scan_len_bound(d1: Seq<u8>, d2: Seq<u8>, pos: int, end: int, line: int)
    ensures
        spec_scan(d1, d2, pos, end, line).len() <= int_max(end - pos, 0),
    decreases int_max(end - pos, 0),
{
    if pos < end {
        if d1[pos] != d2[pos] {
            lemma_skip_end_range(d1, d2, pos, end);
            let sk = skip_end(d1, d2, pos, end);
            let next = if sk < end { sk + 1 } else { end };
            lemma_scan_len_bound(d1, d2, next, end, line);
        } else if d1[pos] == NEWLINE {
            lemma_scan_len_bound(d1, d2, pos + 1, end, line + 1);
        } else {
            lemma_scan_len_bound(d1, d2, pos + 1, end, line);
        }
    }
}

/// Appending one range appends that range's records.
pub proof fn lemma_ranges_records_push(d1: Seq<u8>, d2: Seq<u8>, rs: Seq<(int, int)>, rg: (int, int))
    ensures
        ranges_records(d1, d2, rs.push(rg))
            == ranges_records(d1, d2, rs) + spec_chunk(d1, d2, rg.0, rg.1),
    decreases rs.len(),
{
    if rs.len() == 0 {
        assert(rs.push(rg)[0] == rg);
        assert(rs.push(rg).drop_first() =~= Seq::<(int, int)>::empty());
        assert(ranges_records(d1, d2, rs.push(rg))
            == spec_chunk(d1, d2, rg.0, rg.1) + ranges_records(d1, d2, Seq::<(int, int)>::empty()));
        assert(ranges_records(d1, d2, rs.push(rg))
            =~= ranges_records(d1, d2, rs) + spec_chunk(d1, d2, rg.0, rg.1));
    } else {
        assert(rs.push(rg)[0] == rs[0]);
        assert(rs.push(rg).drop_first() =~= rs.drop_first().push(rg));
        lemma_ranges_records_push(d1, d2, rs.drop_first(), rg);
        assert(ranges_records(d1, d2, rs.push(rg))
            == spec_chunk(d1, d2, rs[0].0, rs[0].1)
                + (ranges_records(d1, d2, rs.drop_first()) + spec_chunk(d1, d2, rg.0, rg.1)));
        assert(ranges_records(d1, d2, rs)
            == spec_chunk(d1, d2, rs[0].0, rs[0].1) + ranges_records(d1, d2, rs.drop_first()));
        assert(ranges_records(d1, d2, rs.push(rg))
            =~= ranges_records(d1, d2, rs) + spec_chunk(d1, d2, rg.0, rg.1));
    }
}

/// The records of a range sequence split at any point into the records of
/// the prefix followed by the records of the suffix.
pub proof fn lemma_ranges_records_split(d1: Seq<u8>, d2: Seq<u8>, rs: Seq<(int, int)>, j: int)
    requires
        0 <= j <= rs.len(),
    ensures
        ranges_records(d1, d2, rs)
            == ranges_records(d1, d2, rs.take(j)) + ranges_records(d1, d2, rs.skip(j)),
    decreases j,
{
    if j == 0 {
        assert(rs.take(0) =~= Seq::<(int, int)>::empty());
        assert(rs.skip(0) =~= rs);
        assert(ranges_records(d1, d2, rs)
            =~= ranges_records(d1, d2, rs.take(0)) + ranges_records(d1, d2, rs.skip(0)));
    } else {
        lemma_ranges_records_split(d1, d2, rs.drop_first(), j - 1);
        assert(rs.take(j).drop_first() =~= rs.drop_first().take(j - 1));
        assert(rs.skip(j) =~= rs.drop_first().skip(j - 1));
        assert(rs.take(j).len() == j);
        assert(rs.take(j)[0] == rs[0]);
        assert(ranges_records(d1, d2, rs)
            =~= ranges_records(d1, d2, rs.take(j)) + ranges_records(d1, d2, rs.skip(j)));
    }
}

/// Over the chunk ranges covering `[start, max)`, at most one record arises
/// per offset of the comparable prefix at or past `start`.
pub proof fn lemma_ranges_len_bound(d1: Seq<u8>, d2: Seq<u8>, start: int, max: int, chunk_size: int)
    requires
        0 <= start,
    ensures
        ranges_records(d1, d2, spec_ranges(start, max, chunk_size)).len()
            <= int_max(min_len(d1, d2) - start, 0),
    decreases max - start,
{
    if start < max && chunk_size >= 1 {
        let e = int_min(start + chunk_size, max);
        let rs = spec_ranges(start, max, chunk_size);
        assert(rs == seq![(start, e)] + spec_ranges(e, max, chunk_size));
        assert(rs[0] == (start, e));
        assert(rs.drop_first() =~= spec_ranges(e, max, chunk_size));
        lemma_scan_len_bound(d1, d2, start, clip_end(d1, d2, e), seed_line(d1, start));
        lemma_ranges_len_bound(d1, d2, e, max, chunk_size);
        assert(ranges_records(d1, d2, rs)
            == spec_chunk(d1, d2, start, e) + ranges_records(d1, d2, spec_ranges(e, max, chunk_size)));
    }
}

/// The flattened view of per-chunk record vectors, in chunk order.
pub open spec fn chunks_view(chunks: Seq<Vec<DiffRecord>>) -> Seq<(int, int)>
    decreases chunks.len(),
{
    if chunks.len() == 0 {
        Seq::empty()
    } else {
        records_view(chunks[0]@) + chunks_view(chunks.drop_first())
    }
}

/// Chunk vectors that agree, range by range, with the ranges' scans flatten
/// to exactly the record sequence of those ranges.
pub proof fn lemma_chunks_view_matches(
    d1: Seq<u8>,
    d2: Seq<u8>,
    chunks: Seq<Vec<DiffRecord>>,
    rs: Seq<(int, int)>,
)
    requires
        chunks.len() == rs.len(),
        forall|i: int|
            0 <= i < rs.len() ==> records_view(#[trigger] chunks[i]@)
                == spec_chunk(d1, d2, rs[i].0, rs[i].1),
    ensures
        chunks_view(chunks) == ranges_records(d1, d2, rs),
    decreases rs.len(),
{
    if rs.len() > 0 {
        assert forall|i: int| 0 <= i < rs.drop_first().len() implies records_view(
            #[trigger] chunks.drop_first()[i]@,
        ) == spec_chunk(d1, d2, rs.drop_first()[i].0, rs.drop_first()[i].1) by {
            assert(chunks.drop_first()[i] == chunks[i + 1]);
            assert(rs.drop_first()[i] == rs[i + 1]);
        }
        lemma_chunks_view_matches(d1, d2, chunks.drop_first(), rs.drop_first());
        assert(records_view(chunks[0]@) == spec_chunk(d1, d2, rs[0].0, rs[0].1));
    }
}

pub proof fn lemma_count_newlines_bounds(d: Seq<u8>, end: int)
    ensures
        0 <= count_newlines(d, end) <= int_max(end, 0),
    decreases end,
{
    if end > 0 {
        lemma_count_newlines_bounds(d, end - 1);
    }
}

pub proof fn lemma_count_newlines_monotone(d: Seq<u8>, m: int, n: int)
    requires
        m <= n,
    ensures
        count_newlines(d, m) <= count_newlines(d, n),
    decreases n - m,
{
    if m < n {
        lemma_count_newlines_monotone(d, m, n - 1);
    }
}

} // verus!
