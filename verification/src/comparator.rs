//! The parallel comparator: partition the shared offset space into
//! consecutive chunks, scan them over a worker pool, and aggregate the
//! ordered per-chunk results and the total difference count.

use vstd::prelude::*;
use rayon::iter::{IntoParallelRefIterator, ParallelIterator};
use crate::model::{
    DiffRecord, records_view, ranges_view, spec_chunk, spec_ranges, ranges_records,
    spec_records, spec_total, min_len, max_len, int_min, int_max, chunks_view,
    lemma_ranges_records_push, lemma_ranges_records_split, lemma_ranges_len_bound,
    lemma_chunks_view_matches,
};
use crate::scanner::scan_chunk;

verus! {

/// The smallest chunk size the comparator ever uses, so small inputs are not
/// over-partitioned.
pub const MIN_CHUNK_SIZE: usize = 1048576;

/// The outcome of one full comparison: the per-chunk diff records in chunk
/// order, the total difference count, and the chunk size that was used.
pub struct Comparison {
    pub chunks: Vec<Vec<DiffRecord>>,
    pub total: usize,
    pub chunk_size: usize,
}

/// What a correct comparison at a given chunk size looks like: one record
/// vector per chunk range, each exactly the scan of its range, and a total
/// of one per record plus the length gap charged once.
pub open spec fn comparison_matches(c: Comparison, d1: Seq<u8>, d2: Seq<u8>, chunk_size: int) -> bool {
    let rs = spec_ranges(0, max_len(d1, d2), chunk_size);
    &&& c.chunk_size as int == chunk_size
    &&& c.chunks@.len() == rs.len()
    &&& forall|i: int|
        0 <= i < rs.len() ==> records_view(#[trigger] c.chunks@[i]@) == spec_chunk(d1, d2, rs[i].0, rs[i].1)
    &&& c.total as int == spec_total(d1, d2, chunk_size)
}

/// The flattened chunk-order view of a matching comparison is exactly the
/// model's record sequence, so every fact about `spec_records` — which
/// records arise, and in what order — carries over to the returned chunks.
pub proof fn lemma_comparison_records(c: Comparison, d1: Seq<u8>, d2: Seq<u8>, chunk_size: int)
    requires
        comparison_matches(c, d1, d2, chunk_size),
    ensures
        chunks_view(c.chunks@) == spec_records(d1, d2, chunk_size),
{
    lemma_chunks_view_matches(d1, d2, c.chunks@, spec_ranges(0, max_len(d1, d2), chunk_size));
}

/// Relies on rayon's `par_iter().map(..).collect()`: the collected vector
/// holds one element per input, in input order, each the closure's value on
/// that input. The closure only reads the range's fields and calls the
/// verified `scan_chunk`, whose contract gives each element's value.
#[verifier::external_body]
fn scan_chunks_parallel(data1: &[u8], data2: &[u8], ranges: &Vec<(usize, usize)>) -> (r: Vec<
    Vec<DiffRecord>,
>)
    requires
        data1@.len() < usize::MAX,
    ensures
        r@.len() == ranges@.len(),
        forall|i: int|
            0 <= i < ranges@.len() ==> records_view(#[trigger] r@[i]@)
                == spec_chunk(data1@, data2@, ranges@[i].0 as int, ranges@[i].1 as int),
{
    ranges.par_iter().map(|rg| scan_chunk(data1, data2, rg.0, rg.1)).collect()
}

/// Relies on rayon::current_num_threads: the size of the current worker
/// pool. Nothing is assumed of the value; callers guard against zero.
#[verifier::external_body]
fn worker_count() -> (n: usize) {
    rayon::current_num_threads()
}

/// The chunk size for a first region of length `len1` split over `workers`
/// workers, never below the fixed minimum.
pub fn chunk_size_for(len1: usize, workers: usize) -> (c: usize)
    requires
        workers >= 1,
    ensures
        c as int == int_max(MIN_CHUNK_SIZE as int, len1 as int / workers as int),
        c >= 1,
{
    let per_worker = len1 / workers;
    if per_worker < MIN_CHUNK_SIZE {
        MIN_CHUNK_SIZE
    } else {
        per_worker
    }
}

/// Run one full comparison at the given chunk size: partition
/// `[0, max_len)` into consecutive chunks, scan each over the worker pool,
/// and aggregate the results in chunk order. The total counts one per
/// record plus the length gap, charged exactly once.
pub fn compare_chunked(data1: &[u8], data2: &[u8], chunk_size: usize) -> (r: Comparison)
    requires
        chunk_size >= 1,
        data1@.len() < usize::MAX,
    ensures
        comparison_matches(r, data1@, data2@, chunk_size as int),
{
    let ghost d1 = data1@;
    let ghost d2 = data2@;
    let len1 = data1.len();
    let len2 = data2.len();
    let maxl = if len1 >= len2 { len1 } else { len2 };
    let minl = if len1 <= len2 { len1 } else { len2 };
    let gap = maxl - minl;
    let ghost full = spec_ranges(0, maxl as int, chunk_size as int);

    let mut ranges: Vec<(usize, usize)> = Vec::new();
    let mut start: usize = 0;
    while start < maxl
        invariant
            chunk_size >= 1,
            maxl as int == max_len(d1, d2),
            start <= maxl,
            full == spec_ranges(0, maxl as int, chunk_size as int),
            ranges_view(ranges@) + spec_ranges(start as int, maxl as int, chunk_size as int)
                == full,
        decreases maxl - start,
    {
        let end = if maxl - start > chunk_size {
            start + chunk_size
        } else {
            maxl
        };
        let ghost ranges0 = ranges@;
        ranges.push((start, end));
        proof {
            assert(end as int == int_min(start as int + chunk_size as int, maxl as int));
            assert(spec_ranges(start as int, maxl as int, chunk_size as int)
                == seq![(start as int, end as int)]
                    + spec_ranges(end as int, maxl as int, chunk_size as int));
            assert(ranges_view(ranges@) =~= ranges_view(ranges0).push((start as int, end as int)));
            assert(ranges_view(ranges@)
                + spec_ranges(end as int, maxl as int, chunk_size as int) =~= full);
        }
        start = end;
    }
    proof {
        assert(spec_ranges(start as int, maxl as int, chunk_size as int)
            =~= Seq::<(int, int)>::empty());
        assert(ranges_view(ranges@) =~= full);
    }

    let results = scan_chunks_parallel(data1, data2, &ranges);

    let mut count: usize = 0;
    let mut i: usize = 0;
    proof {
        lemma_ranges_len_bound(d1, d2, 0, maxl as int, chunk_size as int);
        assert(full.take(0) =~= Seq::<(int, int)>::empty());
    }
    while i < results.len()
        invariant
            d1.len() < usize::MAX,
            maxl as int == max_len(d1, d2),
            minl as int == min_len(d1, d2),
            full == spec_ranges(0, maxl as int, chunk_size as int),
            ranges_view(ranges@) == full,
            results@.len() == ranges@.len(),
            forall|j: int|
                0 <= j < ranges@.len() ==> records_view(#[trigger] results@[j]@)
                    == spec_chunk(d1, d2, ranges@[j].0 as int, ranges@[j].1 as int),
            i <= results@.len(),
            count as int == ranges_records(d1, d2, full.take(i as int)).len(),
            ranges_records(d1, d2, full).len() <= minl as int,
        decreases results@.len() - i,
    {
        proof {
            assert(full[i as int] == (ranges@[i as int].0 as int, ranges@[i as int].1 as int));
            assert(full.take(i + 1) =~= full.take(i as int).push(full[i as int]));
            lemma_ranges_records_push(d1, d2, full.take(i as int), full[i as int]);
            lemma_ranges_records_split(d1, d2, full, i + 1);
            assert(full.take(i + 1).len() == i + 1);
            assert(ranges_records(d1, d2, full.take(i + 1)).len()
                <= ranges_records(d1, d2, full).len());
        }
        count = count + results[i].len();
        i = i + 1;
    }
    proof {
        assert(full.take(results@.len() as int) =~= full);
        assert(count as int == spec_records(d1, d2, chunk_size as int).len());
    }
    let total = count + gap;
    Comparison { chunks: results, total, chunk_size }
}

/// Run one full comparison, picking the chunk size from the worker pool as
/// the comparator always does: the first region's length split over the
/// pool, never below the fixed minimum. The chunk size used is reported in
/// the result, and the result is exactly the chunked comparison at it.
pub fn compare_bytes(data1: &[u8], data2: &[u8]) -> (r: Comparison)
    requires
        data1@.len() < usize::MAX,
    ensures
        r.chunk_size >= 1,
        exists|workers: int|
            1 <= workers && r.chunk_size as int == int_max(
                MIN_CHUNK_SIZE as int,
                #[trigger] (data1@.len() as int / workers),
            ),
        comparison_matches(r, data1@, data2@, r.chunk_size as int),
{
    let reported = worker_count();
    let workers = if reported == 0 {
        1
    } else {
        reported
    };
    let chunk_size = chunk_size_for(data1.len(), workers);
    let r = compare_chunked(data1, data2, chunk_size);
    proof {
        assert(1 <= workers as int && r.chunk_size as int == int_max(
            MIN_CHUNK_SIZE as int,
            data1@.len() as int / workers as int,
        ));
    }
    r
}

} // verus!
