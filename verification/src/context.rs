//! Locating the line that encloses a byte offset, so a diff record can be
//! reported together with the enclosing line text of each region. Each
//! region is searched around the same absolute offset, each in its own
//! bytes, so the bounds never leave the region they index.

use vstd::prelude::*;
use vstd::slice::{slice_subrange, slice_to_vec};
use crate::model::NEWLINE;

verus! {

/// Offset where the line containing `pos` begins: one past the last
/// newline strictly before `pos`, or 0 when there is none.
pub open spec fn line_start(d: Seq<u8>, pos: int) -> int
    decreases pos,
{
    if pos <= 0 {
        0
    } else if d[pos - 1] == NEWLINE {
        pos
    } else {
        line_start(d, pos - 1)
    }
}

/// Offset where the line containing `pos` ends: the first newline at or
/// after `pos`, or the region's length when there is none.
pub open spec fn line_end(d: Seq<u8>, pos: int) -> int
    decreases d.len() - pos,
{
    if pos >= d.len() {
        d.len() as int
    } else if d[pos] == NEWLINE {
        pos
    } else {
        line_end(d, pos + 1)
    }
}

/// The bounds of the line of `data` that contains offset `pos`.
pub fn line_bounds(data: &[u8], pos: usize) -> (r: (usize, usize))
    requires
        pos <= data@.len(),
    ensures
        r.0 as int == line_start(data@, pos as int),
        r.1 as int == line_end(data@, pos as int),
        r.0 <= pos <= r.1 <= data@.len(),
{
    let mut s: usize = pos;
    while s > 0 && data[s - 1] != NEWLINE
        invariant
            s <= pos,
            pos <= data@.len(),
            line_start(data@, pos as int) == line_start(data@, s as int),
        decreases s,
    {
        s = s - 1;
    }
    let mut e: usize = pos;
    while e < data.len() && data[e] != NEWLINE
        invariant
            pos <= e,
            e <= data@.len(),
            line_end(data@, pos as int) == line_end(data@, e as int),
        decreases data@.len() - e,
    {
        e = e + 1;
    }
    (s, e)
}

/// The text of the line enclosing offset `pos` in each region: the slice of
/// the first region between its own line bounds, and likewise for the
/// second region at the same absolute offset.
pub fn diff_context(data1: &[u8], data2: &[u8], pos: usize) -> (r: (Vec<u8>, Vec<u8>))
    requires
        pos <= data1@.len(),
        pos <= data2@.len(),
    ensures
        r.0@ == data1@.subrange(line_start(data1@, pos as int), line_end(data1@, pos as int)),
        r.1@ == data2@.subrange(line_start(data2@, pos as int), line_end(data2@, pos as int)),
{
    let (s1, e1) = line_bounds(data1, pos);
    let (s2, e2) = line_bounds(data2, pos);
    let part1 = slice_to_vec(slice_subrange(data1, s1, e1));
    let part2 = slice_to_vec(slice_subrange(data2, s2, e2));
    (part1, part2)
}

} // verus!
