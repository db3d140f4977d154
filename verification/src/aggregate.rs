//! The aggregation engine: turn a sequence of read lengths into a
//! histogram, either in one sequential pass or split across parallel
//! workers whose partial histograms are merged at the join point.

use vstd::prelude::*;
use crate::histogram::{occurrences, Histogram, lemma_total_is_record_count};
use crate::record::{lengths_of, spec_lengths, SeqRecord};
use rayon::iter::{IntoParallelRefIterator, ParallelIterator};

verus! {

/// Extending a prefix of the lengths by one adds one occurrence of it.
pub proof fn lemma_occurrences_take_step(s: Seq<usize>, i: int, v: usize)
    requires
        0 <= i < s.len(),
    ensures
        occurrences(s.subrange(0, i + 1), v) == occurrences(s.subrange(0, i), v) + (if s[i] == v {
            1nat
        } else {
            0nat
        }),
{
    assert(s.subrange(0, i + 1).drop_last() =~= s.subrange(0, i));
    assert(s.subrange(0, i + 1).last() == s[i]);
}

/// A length cannot occur more often than there are records.
pub proof fn lemma_occurrences_le_len(s: Seq<usize>, v: usize)
    ensures
        occurrences(s, v) <= s.len(),
    decreases s.len(),
{
    if s.len() > 0 {
        lemma_occurrences_le_len(s.drop_last(), v);
    }
}

/// Occurrence counting distributes over concatenation: counting is a
/// commutative, associative reduction, so partition boundaries do not
/// matter.
pub proof fn lemma_occurrences_concat(s1: Seq<usize>, s2: Seq<usize>, v: usize)
    ensures
        occurrences(s1 + s2, v) == occurrences(s1, v) + occurrences(s2, v),
    decreases s2.len(),
{
    if s2.len() == 0 {
        assert(s1 + s2 =~= s1);
    } else {
        assert((s1 + s2).drop_last() =~= s1 + s2.drop_last());
        assert((s1 + s2).last() == s2.last());
        lemma_occurrences_concat(s1, s2.drop_last(), v);
    }
}

/// Where worker `w`'s contiguous chunk of `n` records begins when the work
/// is split across `workers` workers: the first `n % workers` workers get
/// one record more than the rest.
pub open spec fn chunk_start(n: int, workers: int, w: int) -> int {
    w * (n / workers) + (if w <= n % workers {
        w
    } else {
        n % workers
    })
}

/// The chunk boundaries begin at 0, end at `n`, stay within `[0, n]`, and
/// each worker's chunk holds `n / workers` records, plus one for the first
/// `n % workers` workers.
pub proof fn lemma_chunk_start_facts(n: int, workers: int, w: int)
    requires
        n >= 0,
        workers >= 1,
        0 <= w <= workers,
    ensures
        n / workers >= 0,
        0 <= n % workers < workers,
        chunk_start(n, workers, 0) == 0,
        chunk_start(n, workers, workers) == n,
        0 <= chunk_start(n, workers, w) <= n,
        w < workers ==> chunk_start(n, workers, w + 1) == chunk_start(n, workers, w) + n / workers
            + (if w < n % workers {
            1int
        } else {
            0int
        }),
{
    let q = n / workers;
    let r = n % workers;
    vstd::arithmetic::div_mod::lemma_fundamental_div_mod(n, workers);
    vstd::arithmetic::div_mod::lemma_div_pos_is_pos(n, workers);
    vstd::arithmetic::div_mod::lemma_mod_pos_bound(n, workers);
    assert(0 <= w * q <= workers * q) by (nonlinear_arith)
        requires
            q >= 0,
            0 <= w <= workers,
    ;
    if w < workers {
        assert((w + 1) * q == w * q + q) by (nonlinear_arith);
    }
}

/// Count the given read lengths in a single sequential pass.
pub fn aggregate(lengths: &Vec<usize>) -> (h: Histogram)
    ensures
        h.models(lengths@),
        h.total() == lengths@.len(),
{
    let mut h = Histogram::new();
    let mut i: usize = 0;
    while i < lengths.len()
        invariant
            h.wf(),
            i <= lengths@.len(),
            forall|v: usize| #[trigger] h.count(v) == occurrences(lengths@.subrange(0, i as int), v),
            h.total() == i as nat,
        decreases lengths@.len() - i,
    {
        let v = lengths[i];
        proof {
            lemma_occurrences_le_len(lengths@.subrange(0, i as int), v);
        }
        h.record(v);
        proof {
            assert forall|u: usize|
                #[trigger] h.count(u) == occurrences(lengths@.subrange(0, i as int + 1), u) by {
                lemma_occurrences_take_step(lengths@, i as int, u);
            }
        }
        i = i + 1;
    }
    proof {
        assert(lengths@.subrange(0, lengths@.len() as int) =~= lengths@);
    }
    h
}

/// Split the lengths into one contiguous chunk per worker, as evenly as
/// possible: every chunk holds `n / workers` lengths, and the first
/// `n % workers` chunks hold one more.  Workers beyond the record count
/// receive an empty chunk.
pub fn partition(lengths: &Vec<usize>, workers: usize) -> (chunks: Vec<Vec<usize>>)
    requires
        workers >= 1,
    ensures
        chunks@.len() == workers,
        forall|w: int|
            0 <= w < workers ==> (#[trigger] chunks@[w])@ == lengths@.subrange(
                chunk_start(lengths@.len() as int, workers as int, w),
                chunk_start(lengths@.len() as int, workers as int, w + 1),
            ),
{
    let n = lengths.len();
    let base = n / workers;
    let rem = n % workers;
    let mut chunks: Vec<Vec<usize>> = Vec::new();
    let mut pos: usize = 0;
    let mut w: usize = 0;
    while w < workers
        invariant
            workers >= 1,
            n == lengths@.len(),
            base as int == n as int / workers as int,
            rem as int == n as int % workers as int,
            w <= workers,
            chunks@.len() == w,
            pos as int == chunk_start(n as int, workers as int, w as int),
            forall|k: int|
                0 <= k < w ==> (#[trigger] chunks@[k])@ == lengths@.subrange(
                    chunk_start(n as int, workers as int, k),
                    chunk_start(n as int, workers as int, k + 1),
                ),
        decreases workers - w,
    {
        proof {
            lemma_chunk_start_facts(n as int, workers as int, w as int);
            lemma_chunk_start_facts(n as int, workers as int, w as int + 1);
        }
        let size = if w < rem {
            base + 1
        } else {
            base
        };
        let mut chunk: Vec<usize> = Vec::new();
        let mut j: usize = 0;
        while j < size
            invariant
                j <= size,
                lengths@.len() <= usize::MAX,
                pos + size <= lengths@.len(),
                chunk@ == lengths@.subrange(pos as int, pos as int + j as int),
            decreases size - j,
        {
            chunk.push(lengths[pos + j]);
            proof {
                assert(lengths@.subrange(pos as int, pos as int + j as int + 1) =~= lengths@
                    .subrange(pos as int, pos as int + j as int).push(
                    lengths@[pos as int + j as int],
                ));
            }
            j = j + 1;
        }
        chunks.push(chunk);
        pos = pos + size;
        w = w + 1;
    }
    chunks
}

/// Relies on rayon's `ParallelIterator::map` and `collect` for `Vec`: the
/// parallel map applies the given function to each chunk independently and
/// collects the results in chunk order, as the sequential map would.
#[verifier::external_body]
fn count_chunks_parallel(chunks: &Vec<Vec<usize>>) -> (hs: Vec<Histogram>)
    ensures
        hs@.len() == chunks@.len(),
        forall|i: int| 0 <= i < chunks@.len() ==> (#[trigger] hs@[i]).models(chunks@[i]@),
{
    chunks.par_iter().map(|chunk| aggregate(chunk)).collect()
}

/// Count the read lengths using up to `workers` workers running in
/// parallel: partition into per-worker chunks, count each chunk
/// independently, and merge the partial histograms at the join point.
/// The merged result is exactly what the sequential pass produces.
pub fn aggregate_parallel(lengths: &Vec<usize>, workers: usize) -> (h: Histogram)
    requires
        workers >= 1,
    ensures
        h.models(lengths@),
        h.total() == lengths@.len(),
{
    let n = lengths.len();
    let ghost ni = n as int;
    let chunks = partition(lengths, workers);
    let parts = count_chunks_parallel(&chunks);
    let mut h = Histogram::new();
    proof {
        lemma_chunk_start_facts(ni, workers as int, 0);
        assert(lengths@.subrange(0, 0) =~= Seq::<usize>::empty());
    }
    let mut i: usize = 0;
    while i < parts.len()
        invariant
            workers >= 1,
            ni == lengths@.len(),
            ni <= usize::MAX,
            parts@.len() == workers,
            i <= workers,
            forall|k: int|
                0 <= k < workers ==> (#[trigger] parts@[k]).models(
                    lengths@.subrange(
                        chunk_start(ni, workers as int, k),
                        chunk_start(ni, workers as int, k + 1),
                    ),
                ),
            h.wf(),
            forall|v: usize|
                #[trigger] h.count(v) == occurrences(
                    lengths@.subrange(0, chunk_start(ni, workers as int, i as int)),
                    v,
                ),
            h.total() == chunk_start(ni, workers as int, i as int),
        decreases parts@.len() - i,
    {
        let ghost s_lo = chunk_start(ni, workers as int, i as int);
        let ghost s_hi = chunk_start(ni, workers as int, i as int + 1);
        proof {
            lemma_chunk_start_facts(ni, workers as int, i as int);
            lemma_chunk_start_facts(ni, workers as int, i as int + 1);
            assert(parts@[i as int].models(lengths@.subrange(s_lo, s_hi)));
            assert forall|v: usize| h.count(v) + parts@[i as int].count(v) <= usize::MAX by {
                lemma_occurrences_le_len(lengths@.subrange(0, s_lo), v);
                lemma_occurrences_le_len(lengths@.subrange(s_lo, s_hi), v);
            }
            lemma_total_is_record_count(parts@[i as int], lengths@.subrange(s_lo, s_hi));
        }
        h.merge(&parts[i]);
        proof {
            assert(lengths@.subrange(0, s_hi) =~= lengths@.subrange(0, s_lo) + lengths@.subrange(
                s_lo,
                s_hi,
            ));
            assert forall|v: usize|
                #[trigger] h.count(v) == occurrences(lengths@.subrange(0, s_hi), v) by {
                lemma_occurrences_concat(
                    lengths@.subrange(0, s_lo),
                    lengths@.subrange(s_lo, s_hi),
                    v,
                );
            }
        }
        i = i + 1;
    }
    proof {
        lemma_chunk_start_facts(ni, workers as int, workers as int);
        assert(lengths@.subrange(0, ni) =~= lengths@);
    }
    h
}

/// The whole aggregation phase: extract every record's length, then count
/// the lengths with up to `workers` parallel workers.
pub fn aggregate_records(records: &Vec<SeqRecord>, workers: usize) -> (h: Histogram)
    requires
        workers >= 1,
    ensures
        h.models(spec_lengths(records@)),
        h.total() == records@.len(),
{
    let lengths = lengths_of(records);
    let h = aggregate_parallel(&lengths, workers);
    proof {
        assert(lengths@ =~= spec_lengths(records@));
    }
    h
}

} // verus!
