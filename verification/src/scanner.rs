//! The chunk scanner: one single pass over a half-open byte range of the two
//! regions, emitting a diff record per differing run.

use vstd::prelude::*;
use crate::model::{
    DiffRecord, NEWLINE, records_view, count_newlines, seed_line, clip_end, skip_end,
    spec_scan, spec_chunk, int_min, lemma_count_newlines_bounds, lemma_count_newlines_monotone,
};

verus! {

/// Count the newline bytes of `data` strictly before offset `upto`.
fn count_newlines_upto(data: &[u8], upto: usize) -> (n: usize)
    requires
        upto <= data@.len(),
    ensures
        n as int == count_newlines(data@, upto as int),
        n <= upto,
{
    let mut n: usize = 0;
    let mut i: usize = 0;
    while i < upto
        invariant
            i <= upto,
            upto <= data@.len(),
            n as int == count_newlines(data@, i as int),
            n <= i,
        decreases upto - i,
    {
        if data[i] == NEWLINE {
            n = n + 1;
        }
        i = i + 1;
    }
    n
}

/// Scan the byte range `[start, end)`, clipped to the comparable prefix of
/// the two regions, and return the diff records it contains. The scan seeds
/// its 1-based line number by counting the first region's newlines strictly
/// before `start`, so chunks can be scanned independently and in any order.
pub fn scan_chunk(data1: &[u8], data2: &[u8], start: usize, end: usize) -> (r: Vec<DiffRecord>)
    requires
        data1@.len() < usize::MAX,
    ensures
        records_view(r@) == spec_chunk(data1@, data2@, start as int, end as int),
{
    let len1 = data1.len();
    let len2 = data2.len();
    let shorter = if len1 <= len2 { len1 } else { len2 };
    let clip = if end <= shorter { end } else { shorter };
    let seed_upto = if start <= len1 { start } else { len1 };
    let newlines_before = count_newlines_upto(data1, seed_upto);
    let mut line: usize = newlines_before + 1;
    let mut pos: usize = start;
    let mut r: Vec<DiffRecord> = Vec::new();
    let ghost d1 = data1@;
    let ghost d2 = data2@;
    let ghost seed0 = seed_line(d1, start as int);

    assert(clip as int == clip_end(d1, d2, end as int));
    assert(line as int == seed0);

    while pos < clip
        invariant
            data1@ == d1,
            data2@ == d2,
            clip as int == clip_end(d1, d2, end as int),
            clip <= d1.len(),
            clip <= d2.len(),
            d1.len() < usize::MAX,
            start <= pos,
            pos == start || pos <= clip + 1,
            seed0 == seed_line(d1, start as int),
            line as int <= seed0 + count_newlines(d1, int_min(pos as int, clip as int))
                - count_newlines(d1, int_min(start as int, clip as int)),
            records_view(r@) + spec_scan(d1, d2, pos as int, clip as int, line as int)
                == spec_scan(d1, d2, start as int, clip as int, seed0),
        decreases clip + 1 - pos,
    {
        let ghost line0 = line as int;
        let ghost pos0 = pos as int;
        if data1[pos] != data2[pos] {
            let ghost r0 = r@;
            r.push(DiffRecord { line, offset: pos });
            proof {
                assert(records_view(r@) =~= records_view(r0).push((line0, pos0)));
            }
            while pos < clip && data1[pos] != NEWLINE && data2[pos] != NEWLINE
                invariant
                    data1@ == d1,
                    data2@ == d2,
                    pos0 <= pos,
                    pos <= clip,
                    clip <= d1.len(),
                    clip <= d2.len(),
                    skip_end(d1, d2, pos0, clip as int) == skip_end(d1, d2, pos as int, clip as int),
                decreases clip - pos,
            {
                pos = pos + 1;
            }
            proof {
                assert(pos as int == skip_end(d1, d2, pos0, clip as int));
                let sk = skip_end(d1, d2, pos0, clip as int);
                let next = if sk < clip as int { sk + 1 } else { clip as int };
                assert(spec_scan(d1, d2, pos0, clip as int, line0)
                    == seq![(line0, pos0)] + spec_scan(d1, d2, next, clip as int, line0));
                if sk == clip as int {
                    assert(spec_scan(d1, d2, sk + 1, clip as int, line0)
                        == spec_scan(d1, d2, next, clip as int, line0));
                }
                lemma_count_newlines_monotone(d1, int_min(pos0, clip as int),
                    int_min(sk + 1, clip as int));
            }
            pos = pos + 1;
        } else if data1[pos] == NEWLINE {
            proof {
                lemma_count_newlines_bounds(d1, pos0 + 1);
                assert(count_newlines(d1, pos0 + 1) == count_newlines(d1, pos0) + 1);
            }
            line = line + 1;
            pos = pos + 1;
        } else {
            proof {
                assert(count_newlines(d1, pos0 + 1) == count_newlines(d1, pos0));
            }
            pos = pos + 1;
        }
    }
    r
}

} // verus!
