//! The data series behind the histogram chart: one point per length from
//! 0 up to the largest recorded length, with its count (0 where a length
//! was never seen).  Rendering the series is left to the caller.

use vstd::prelude::*;
use crate::histogram::Histogram;

verus! {

/// The dense, ascending (length, count) series over `0 ..= max_len`.
pub fn series_points(h: &Histogram) -> (r: Vec<(usize, usize)>)
    requires
        h.wf(),
    ensures
        r@.len() >= 1,
        forall|i: int|
            0 <= i < r@.len() ==> (#[trigger] r@[i]).0 == i && r@[i].1 as nat == h.count(
                i as usize,
            ),
        forall|v: usize| #[trigger] h.contains_len(v) ==> v < r@.len(),
        r@.len() == 1 || h.contains_len((r@.len() - 1) as usize),
{
    let m = h.max_len();
    let mut r: Vec<(usize, usize)> = Vec::new();
    let mut i: usize = 0;
    while i < m
        invariant
            h.wf(),
            i <= m,
            r@.len() == i,
            forall|k: int|
                0 <= k < i ==> (#[trigger] r@[k]).0 == k && r@[k].1 as nat == h.count(k as usize),
        decreases m - i,
    {
        let c = h.count_of(i);
        r.push((i, c));
        i = i + 1;
    }
    let c = h.count_of(m);
    r.push((m, c));
    r
}

} // verus!
