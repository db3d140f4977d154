//! The histogram: a mapping from read length to occurrence count.

use vstd::prelude::*;
use vstd::pervasive::VecAdditionalExecFns;

verus! {

/// Number of times the length `v` occurs in the sequence of lengths `s`.
pub open spec fn occurrences(s: Seq<usize>, v: usize) -> nat
    decreases s.len(),
{
    if s.len() == 0 {
        0
    } else {
        occurrences(s.drop_last(), v) + (if s.last() == v {
            1nat
        } else {
            0nat
        })
    }
}

/// Count stored for the length `v` by a list of (length, count) entries.
pub open spec fn entries_count(es: Seq<(usize, usize)>, v: usize) -> nat
    decreases es.len(),
{
    if es.len() == 0 {
        0
    } else {
        entries_count(es.drop_last(), v) + (if es.last().0 == v {
            es.last().1 as nat
        } else {
            0nat
        })
    }
}

/// Sum of all counts stored by a list of (length, count) entries.
pub open spec fn entries_total(es: Seq<(usize, usize)>) -> nat
    decreases es.len(),
{
    if es.len() == 0 {
        0
    } else {
        entries_total(es.drop_last()) + es.last().1 as nat
    }
}

/// Appending an entry adds its count (if its length matches) and nothing else.
pub proof fn lemma_entries_count_push(es: Seq<(usize, usize)>, e: (usize, usize), v: usize)
    ensures
        entries_count(es.push(e), v) == entries_count(es, v) + (if e.0 == v {
            e.1 as nat
        } else {
            0nat
        }),
{
    assert(es.push(e).drop_last() =~= es);
}

/// Appending an entry adds its count to the stored total.
pub proof fn lemma_entries_total_push(es: Seq<(usize, usize)>, e: (usize, usize))
    ensures
        entries_total(es.push(e)) == entries_total(es) + e.1 as nat,
{
    assert(es.push(e).drop_last() =~= es);
}

/// Replacing the entry at `i` exchanges its contribution to the count for `v`.
pub proof fn lemma_entries_count_update(es: Seq<(usize, usize)>, i: int, e: (usize, usize), v: usize)
    requires
        0 <= i < es.len(),
    ensures
        entries_count(es.update(i, e), v) + (if es[i].0 == v {
            es[i].1 as nat
        } else {
            0nat
        }) == entries_count(es, v) + (if e.0 == v {
            e.1 as nat
        } else {
            0nat
        }),
    decreases es.len(),
{
    if i == es.len() - 1 {
        assert(es.update(i, e).drop_last() =~= es.drop_last());
        assert(es.update(i, e).last() == e);
    } else {
        assert(es.update(i, e).drop_last() =~= es.drop_last().update(i, e));
        assert(es.update(i, e).last() == es.last());
        lemma_entries_count_update(es.drop_last(), i, e, v);
    }
}

/// Replacing the entry at `i` exchanges its contribution to the total.
pub proof fn lemma_entries_total_update(es: Seq<(usize, usize)>, i: int, e: (usize, usize))
    requires
        0 <= i < es.len(),
    ensures
        entries_total(es.update(i, e)) + es[i].1 as nat == entries_total(es) + e.1 as nat,
    decreases es.len(),
{
    if i == es.len() - 1 {
        assert(es.update(i, e).drop_last() =~= es.drop_last());
        assert(es.update(i, e).last() == e);
    } else {
        assert(es.update(i, e).drop_last() =~= es.drop_last().update(i, e));
        assert(es.update(i, e).last() == es.last());
        lemma_entries_total_update(es.drop_last(), i, e);
    }
}

/// A list of entries without the length `v` stores count 0 for it.
pub proof fn lemma_entries_count_absent(es: Seq<(usize, usize)>, v: usize)
    requires
        forall|j: int| 0 <= j < es.len() ==> (#[trigger] es[j]).0 != v,
    ensures
        entries_count(es, v) == 0,
    decreases es.len(),
{
    if es.len() > 0 {
        lemma_entries_count_absent(es.drop_last(), v);
    }
}

/// With distinct lengths, the stored count for `v` is exactly the count of
/// the one entry that carries `v`.
pub proof fn lemma_entries_count_found(es: Seq<(usize, usize)>, i: int, v: usize)
    requires
        forall|a: int, b: int| 0 <= a < b < es.len() ==> (#[trigger] es[a]).0 != (
        #[trigger] es[b]).0,
        0 <= i < es.len(),
        es[i].0 == v,
    ensures
        entries_count(es, v) == es[i].1 as nat,
    decreases es.len(),
{
    if i == es.len() - 1 {
        assert forall|j: int| 0 <= j < es.drop_last().len() implies (
        #[trigger] es.drop_last()[j]).0 != v by {
            assert(es[j].0 != es[i].0);
        }
        lemma_entries_count_absent(es.drop_last(), v);
    } else {
        assert forall|a: int, b: int|
            0 <= a < b < es.drop_last().len() implies (#[trigger] es.drop_last()[a]).0 != (
        #[trigger] es.drop_last()[b]).0 by {
            assert(es[a].0 != es[b].0);
        }
        assert(es.drop_last()[i] == es[i]);
        lemma_entries_count_found(es.drop_last(), i, v);
        assert(es.last().0 != v) by {
            assert(es[i].0 != es[es.len() - 1].0);
        }
    }
}

/// Extending a prefix of the entries by one adds that entry's contribution.
pub proof fn lemma_entries_count_take_step(es: Seq<(usize, usize)>, i: int, v: usize)
    requires
        0 <= i < es.len(),
    ensures
        entries_count(es.subrange(0, i + 1), v) == entries_count(es.subrange(0, i), v) + (if es[i].0
            == v {
            es[i].1 as nat
        } else {
            0nat
        }),
{
    assert(es.subrange(0, i + 1).drop_last() =~= es.subrange(0, i));
    assert(es.subrange(0, i + 1).last() == es[i]);
}

/// A prefix of the entries stores at most the full count.
pub proof fn lemma_entries_count_prefix_le(es: Seq<(usize, usize)>, i: int, v: usize)
    requires
        0 <= i <= es.len(),
    ensures
        entries_count(es.subrange(0, i), v) <= entries_count(es, v),
    decreases es.len() - i,
{
    if i == es.len() {
        assert(es.subrange(0, i) =~= es);
    } else {
        lemma_entries_count_take_step(es, i, v);
        lemma_entries_count_prefix_le(es, i + 1, v);
    }
}

/// Extending a prefix of the entries by one adds that entry's count to the total.
pub proof fn lemma_entries_total_take_step(es: Seq<(usize, usize)>, i: int)
    requires
        0 <= i < es.len(),
    ensures
        entries_total(es.subrange(0, i + 1)) == entries_total(es.subrange(0, i)) + es[i].1 as nat,
{
    assert(es.subrange(0, i + 1).drop_last() =~= es.subrange(0, i));
    assert(es.subrange(0, i + 1).last() == es[i]);
}

/// A prefix of the entries stores at most the full total.
pub proof fn lemma_entries_total_prefix_le(es: Seq<(usize, usize)>, i: int)
    requires
        0 <= i <= es.len(),
    ensures
        entries_total(es.subrange(0, i)) <= entries_total(es),
    decreases es.len() - i,
{
    if i == es.len() {
        assert(es.subrange(0, i) =~= es);
    } else {
        lemma_entries_total_take_step(es, i);
        lemma_entries_total_prefix_le(es, i + 1);
    }
}

/// The lengths of `s` with every occurrence of `k` removed.
spec fn remove_all(s: Seq<usize>, k: usize) -> Seq<usize>
    decreases s.len(),
{
    if s.len() == 0 {
        s
    } else if s.last() == k {
        remove_all(s.drop_last(), k)
    } else {
        remove_all(s.drop_last(), k).push(s.last())
    }
}

/// Removing every `k` leaves the occurrence counts of other lengths alone.
proof fn lemma_remove_all_occurrences(s: Seq<usize>, k: usize, v: usize)
    ensures
        occurrences(remove_all(s, k), v) == (if v == k {
            0nat
        } else {
            occurrences(s, v)
        }),
    decreases s.len(),
{
    if s.len() > 0 {
        lemma_remove_all_occurrences(s.drop_last(), k, v);
        if s.last() != k {
            assert(remove_all(s.drop_last(), k).push(s.last()).drop_last() =~= remove_all(
                s.drop_last(),
                k,
            ));
        }
    }
}

/// Removing every `k` shortens `s` by exactly the occurrences of `k`.
proof fn lemma_remove_all_len(s: Seq<usize>, k: usize)
    ensures
        remove_all(s, k).len() + occurrences(s, k) == s.len(),
    decreases s.len(),
{
    if s.len() > 0 {
        lemma_remove_all_len(s.drop_last(), k);
        if s.last() != k {
            assert(remove_all(s.drop_last(), k).push(s.last()).drop_last() =~= remove_all(
                s.drop_last(),
                k,
            ));
        }
    }
}

/// Entries with distinct lengths whose counts are the occurrence counts of
/// `s` sum to exactly the length of `s`.
proof fn lemma_entries_total_occurrences(es: Seq<(usize, usize)>, s: Seq<usize>)
    requires
        forall|a: int, b: int| 0 <= a < b < es.len() ==> (#[trigger] es[a]).0 != (
        #[trigger] es[b]).0,
        forall|v: usize| #[trigger] entries_count(es, v) == occurrences(s, v),
    ensures
        entries_total(es) == s.len(),
    decreases es.len(),
{
    if es.len() == 0 {
        if s.len() > 0 {
            assert(occurrences(s, s.last()) >= 1);
            assert(entries_count(es, s.last()) == 0);
        }
    } else {
        let e = es.last();
        let k = e.0;
        let es1 = es.drop_last();
        let s1 = remove_all(s, k);
        assert forall|j: int| 0 <= j < es1.len() implies (#[trigger] es1[j]).0 != k by {
            assert(es[j].0 != es[es.len() - 1].0);
        }
        lemma_entries_count_absent(es1, k);
        assert forall|a: int, b: int|
            0 <= a < b < es1.len() implies (#[trigger] es1[a]).0 != (#[trigger] es1[b]).0 by {
            assert(es[a].0 != es[b].0);
        }
        assert forall|v: usize| #[trigger] entries_count(es1, v) == occurrences(s1, v) by {
            lemma_remove_all_occurrences(s, k, v);
            assert(entries_count(es, v) == occurrences(s, v));
        }
        lemma_entries_total_occurrences(es1, s1);
        lemma_remove_all_len(s, k);
        assert(entries_count(es, k) == occurrences(s, k));
    }
}

/// A frequency histogram: for each observed read length, how many records
/// had exactly that length.  Lengths that were never observed have count 0
/// and are not stored.
pub struct Histogram {
    entries: Vec<(usize, usize)>,
}

impl Histogram {
    /// Internal invariant: stored lengths are distinct and every stored
    /// count is at least 1.
    pub closed spec fn wf(self) -> bool {
        &&& forall|i: int, j: int|
            0 <= i < j < self.entries@.len() ==> (#[trigger] self.entries@[i]).0 != (
            #[trigger] self.entries@[j]).0
        &&& forall|i: int| 0 <= i < self.entries@.len() ==> (#[trigger] self.entries@[i]).1 >= 1
    }

    /// The count recorded for the length `v` (0 if `v` was never recorded).
    pub closed spec fn count(self, v: usize) -> nat {
        entries_count(self.entries@, v)
    }

    /// The sum of all recorded counts.
    pub closed spec fn total(self) -> nat {
        entries_total(self.entries@)
    }

    /// Whether the length `v` has a stored entry.
    pub closed spec fn contains_len(self, v: usize) -> bool {
        exists|i: int| 0 <= i < self.entries@.len() && (#[trigger] self.entries@[i]).0 == v
    }

    /// The histogram describes the sequence of lengths `s`: for every
    /// length, the recorded count is the number of occurrences in `s`.
    pub open spec fn models(self, s: Seq<usize>) -> bool {
        &&& self.wf()
        &&& forall|v: usize| #[trigger] self.count(v) == occurrences(s, v)
    }

    /// An empty histogram: every count is 0.
    pub fn new() -> (h: Histogram)
        ensures
            h.wf(),
            forall|v: usize| #[trigger] h.count(v) == 0,
            h.total() == 0,
    {
        Histogram { entries: Vec::new() }
    }

    /// Position of the entry for `v`, if one is stored.
    fn find_index(&self, v: usize) -> (r: Option<usize>)
        ensures
            match r {
                Some(i) => i < self.entries@.len() && self.entries@[i as int].0 == v,
                None => forall|j: int|
                    0 <= j < self.entries@.len() ==> (#[trigger] self.entries@[j]).0 != v,
            },
    {
        let mut i: usize = 0;
        while i < self.entries.len()
            invariant
                i <= self.entries@.len(),
                forall|j: int| 0 <= j < i ==> (#[trigger] self.entries@[j]).0 != v,
            decreases self.entries@.len() - i,
        {
            if self.entries[i].0 == v {
                return Some(i);
            }
            i = i + 1;
        }
        None
    }

    /// How many records of length `v` have been recorded.
    pub fn count_of(&self, v: usize) -> (c: usize)
        requires
            self.wf(),
        ensures
            c as nat == self.count(v),
    {
        match self.find_index(v) {
            Some(i) => {
                proof {
                    lemma_entries_count_found(self.entries@, i as int, v);
                }
                self.entries[i].1
            },
            None => {
                proof {
                    lemma_entries_count_absent(self.entries@, v);
                }
                0
            },
        }
    }

    /// Record `extra` more records of length `v` (one record when `extra == 1`).
    pub fn add_count(&mut self, v: usize, extra: usize)
        requires
            old(self).wf(),
            extra >= 1,
            old(self).count(v) + extra <= usize::MAX,
        ensures
            final(self).wf(),
            final(self).count(v) == old(self).count(v) + extra,
            forall|u: usize| u != v ==> #[trigger] final(self).count(u) == old(self).count(u),
            final(self).total() == old(self).total() + extra,
    {
        let ghost es0 = self.entries@;
        match self.find_index(v) {
            Some(i) => {
                proof {
                    lemma_entries_count_found(es0, i as int, v);
                }
                let c = self.entries[i].1;
                self.entries.set(i, (v, c + extra));
                proof {
                    assert forall|u: usize| #[trigger] self.count(u) + (if es0[i as int].0 == u {
                        es0[i as int].1 as nat
                    } else {
                        0nat
                    }) == entries_count(es0, u) + (if v == u {
                        (c + extra) as nat
                    } else {
                        0nat
                    }) by {
                        lemma_entries_count_update(es0, i as int, (v, (c + extra) as usize), u);
                    }
                    lemma_entries_total_update(es0, i as int, (v, (c + extra) as usize));
                    assert forall|a: int, b: int|
                        0 <= a < b < self.entries@.len() implies (#[trigger] self.entries@[a]).0
                        != (#[trigger] self.entries@[b]).0 by {
                        assert(es0[a].0 != es0[b].0);
                    }
                }
            },
            None => {
                proof {
                    lemma_entries_count_absent(es0, v);
                }
                self.entries.push((v, extra));
                proof {
                    assert forall|u: usize| #[trigger] self.count(u) == entries_count(es0, u) + (
                    if v == u {
                        extra as nat
                    } else {
                        0nat
                    }) by {
                        lemma_entries_count_push(es0, (v, extra), u);
                    }
                    lemma_entries_total_push(es0, (v, extra));
                    assert forall|a: int, b: int|
                        0 <= a < b < self.entries@.len() implies (#[trigger] self.entries@[a]).0
                        != (#[trigger] self.entries@[b]).0 by {
                        if b < es0.len() {
                            assert(es0[a].0 != es0[b].0);
                        } else {
                            assert(es0[a].0 != v);
                        }
                    }
                }
            },
        }
    }

    /// Fold the counts of `other` into this histogram, length by length.
    pub fn merge(&mut self, other: &Histogram)
        requires
            old(self).wf(),
            other.wf(),
            forall|v: usize| old(self).count(v) + other.count(v) <= usize::MAX,
        ensures
            final(self).wf(),
            forall|v: usize|
                #[trigger] final(self).count(v) == old(self).count(v) + other.count(v),
            final(self).total() == old(self).total() + other.total(),
    {
        let ghost h0 = *self;
        let ghost oes = other.entries@;
        let mut i: usize = 0;
        while i < other.entries.len()
            invariant
                self.wf(),
                other.wf(),
                i <= oes.len(),
                oes == other.entries@,
                forall|v: usize|
                    #[trigger] self.count(v) == h0.count(v) + entries_count(
                        oes.subrange(0, i as int),
                        v,
                    ),
                self.total() == h0.total() + entries_total(oes.subrange(0, i as int)),
                forall|v: usize| h0.count(v) + other.count(v) <= usize::MAX,
            decreases oes.len() - i,
        {
            let k = other.entries[i].0;
            let c = other.entries[i].1;
            proof {
                lemma_entries_count_take_step(oes, i as int, k);
                lemma_entries_count_prefix_le(oes, i as int + 1, k);
            }
            self.add_count(k, c);
            proof {
                assert forall|v: usize|
                    #[trigger] self.count(v) == h0.count(v) + entries_count(
                        oes.subrange(0, i as int + 1),
                        v,
                    ) by {
                    lemma_entries_count_take_step(oes, i as int, v);
                }
                lemma_entries_total_take_step(oes, i as int);
            }
            i = i + 1;
        }
        proof {
            assert(oes.subrange(0, oes.len() as int) =~= oes);
        }
    }

    /// The number of records counted so far, as a machine integer.
    pub fn total_count(&self) -> (t: usize)
        requires
            self.wf(),
            self.total() <= usize::MAX,
        ensures
            t as nat == self.total(),
    {
        let mut t: usize = 0;
        let mut i: usize = 0;
        while i < self.entries.len()
            invariant
                self.wf(),
                i <= self.entries@.len(),
                t as nat == entries_total(self.entries@.subrange(0, i as int)),
                self.total() <= usize::MAX,
            decreases self.entries@.len() - i,
        {
            proof {
                lemma_entries_total_take_step(self.entries@, i as int);
                lemma_entries_total_prefix_le(self.entries@, i as int + 1);
            }
            t = t + self.entries[i].1;
            i = i + 1;
        }
        proof {
            assert(self.entries@.subrange(0, self.entries@.len() as int) =~= self.entries@);
        }
        t
    }

    /// Whether `other` records exactly the same count for every length.
    /// Two histograms that agree on every count also store the same lengths.
    pub fn same_counts(&self, other: &Histogram) -> (r: bool)
        requires
            self.wf(),
            other.wf(),
        ensures
            r <==> (forall|v: usize| #[trigger] self.count(v) == other.count(v)),
    {
        let mut i: usize = 0;
        while i < self.entries.len()
            invariant
                self.wf(),
                other.wf(),
                i <= self.entries@.len(),
                forall|j: int|
                    0 <= j < i ==> other.count((#[trigger] self.entries@[j]).0)
                        == self.entries@[j].1 as nat,
            decreases self.entries@.len() - i,
        {
            let k = self.entries[i].0;
            let c = self.entries[i].1;
            proof {
                lemma_entries_count_found(self.entries@, i as int, k);
            }
            if other.count_of(k) != c {
                proof {
                    assert(self.count(k) != other.count(k));
                }
                return false;
            }
            i = i + 1;
        }
        let mut j: usize = 0;
        while j < other.entries.len()
            invariant
                self.wf(),
                other.wf(),
                j <= other.entries@.len(),
                forall|a: int|
                    0 <= a < self.entries@.len() ==> other.count(
                        (#[trigger] self.entries@[a]).0,
                    ) == self.entries@[a].1 as nat,
                forall|b: int|
                    0 <= b < j ==> self.count((#[trigger] other.entries@[b]).0)
                        == other.entries@[b].1 as nat,
            decreases other.entries@.len() - j,
        {
            let k = other.entries[j].0;
            let c = other.entries[j].1;
            proof {
                lemma_entries_count_found(other.entries@, j as int, k);
            }
            if self.count_of(k) != c {
                proof {
                    assert(self.count(k) != other.count(k));
                }
                return false;
            }
            j = j + 1;
        }
        proof {
            assert forall|v: usize| #[trigger] self.count(v) == other.count(v) by {
                if exists|a: int|
                    0 <= a < self.entries@.len() && (#[trigger] self.entries@[a]).0 == v {
                    let a = choose|a: int|
                        0 <= a < self.entries@.len() && (#[trigger] self.entries@[a]).0 == v;
                    lemma_entries_count_found(self.entries@, a, v);
                } else if exists|b: int|
                    0 <= b < other.entries@.len() && (#[trigger] other.entries@[b]).0 == v {
                    let b = choose|b: int|
                        0 <= b < other.entries@.len() && (#[trigger] other.entries@[b]).0 == v;
                    lemma_entries_count_found(other.entries@, b, v);
                    lemma_entries_count_absent(self.entries@, v);
                } else {
                    lemma_entries_count_absent(self.entries@, v);
                    lemma_entries_count_absent(other.entries@, v);
                }
            }
        }
        true
    }

    /// The largest recorded length, or 0 if the histogram is empty.
    pub fn max_len(&self) -> (m: usize)
        requires
            self.wf(),
        ensures
            forall|v: usize| #[trigger] self.contains_len(v) ==> v <= m,
            m == 0 || self.contains_len(m),
    {
        let mut m: usize = 0;
        let mut i: usize = 0;
        while i < self.entries.len()
            invariant
                i <= self.entries@.len(),
                forall|j: int| 0 <= j < i ==> (#[trigger] self.entries@[j]).0 <= m,
                m == 0 || exists|j: int| 0 <= j < i && (#[trigger] self.entries@[j]).0 == m,
            decreases self.entries@.len() - i,
        {
            if self.entries[i].0 > m {
                m = self.entries[i].0;
            }
            i = i + 1;
        }
        proof {
            if m != 0 {
                let j = choose|j: int|
                    0 <= j < self.entries@.len() && (#[trigger] self.entries@[j]).0 == m;
                assert(self.contains_len(m));
            }
        }
        m
    }

    /// The stored (length, count) pairs: distinct lengths, counts at least
    /// 1, describing exactly the same mapping as the histogram, in no
    /// promised order.
    pub fn pairs(&self) -> (r: Vec<(usize, usize)>)
        requires
            self.wf(),
        ensures
            forall|v: usize| #[trigger] entries_count(r@, v) == self.count(v),
            entries_total(r@) == self.total(),
            forall|i: int|
                0 <= i < r@.len() ==> (#[trigger] r@[i]).1 as nat == self.count(r@[i].0)
                    && self.contains_len(r@[i].0),
            forall|i: int, j: int|
                0 <= i < j < r@.len() ==> (#[trigger] r@[i]).0 != (#[trigger] r@[j]).0,
    {
        let mut r: Vec<(usize, usize)> = Vec::new();
        let mut i: usize = 0;
        while i < self.entries.len()
            invariant
                i <= self.entries@.len(),
                r@ == self.entries@.subrange(0, i as int),
            decreases self.entries@.len() - i,
        {
            r.push(self.entries[i]);
            proof {
                assert(self.entries@.subrange(0, i as int + 1) =~= self.entries@.subrange(
                    0,
                    i as int,
                ).push(self.entries@[i as int]));
            }
            i = i + 1;
        }
        proof {
            assert(r@ =~= self.entries@);
            assert forall|i: int|
                0 <= i < r@.len() implies (#[trigger] r@[i]).1 as nat == self.count(r@[i].0)
                && self.contains_len(r@[i].0) by {
                lemma_entries_count_found(self.entries@, i, self.entries@[i].0);
            }
        }
        r
    }

    /// Record one more occurrence of the length `v`.
    pub fn record(&mut self, v: usize)
        requires
            old(self).wf(),
            old(self).count(v) < usize::MAX,
        ensures
            final(self).wf(),
            final(self).count(v) == old(self).count(v) + 1,
            forall|u: usize| u != v ==> #[trigger] final(self).count(u) == old(self).count(u),
            final(self).total() == old(self).total() + 1,
    {
        self.add_count(v, 1);
    }
}

/// A length is stored if and only if it was counted at least once.
pub proof fn lemma_contains_iff_counted(h: Histogram, v: usize)
    requires
        h.wf(),
    ensures
        h.contains_len(v) <==> h.count(v) >= 1,
{
    if h.contains_len(v) {
        let i = choose|i: int| 0 <= i < h.entries@.len() && (#[trigger] h.entries@[i]).0 == v;
        lemma_entries_count_found(h.entries@, i, v);
    } else {
        lemma_entries_count_absent(h.entries@, v);
    }
}

/// The sum of all counts of a histogram of `s` is the number of records in
/// `s` — however many workers produced it.
pub proof fn lemma_total_is_record_count(h: Histogram, s: Seq<usize>)
    requires
        h.models(s),
    ensures
        h.total() == s.len(),
{
    assert forall|v: usize| #[trigger] entries_count(h.entries@, v) == occurrences(s, v) by {
        assert(h.count(v) == occurrences(s, v));
    }
    lemma_entries_total_occurrences(h.entries@, s);
}

/// Any two histograms of the same length sequence agree on every count and
/// store the same set of lengths: the result of aggregation is determined
/// by the input alone, not by the worker count or by re-running it.
pub proof fn lemma_models_agree(h1: Histogram, h2: Histogram, s: Seq<usize>)
    requires
        h1.models(s),
        h2.models(s),
    ensures
        forall|v: usize| #[trigger] h1.count(v) == h2.count(v),
        forall|v: usize| #[trigger] h1.contains_len(v) <==> h2.contains_len(v),
{
    assert forall|v: usize| #[trigger] h1.count(v) == h2.count(v) by {
        assert(h1.count(v) == occurrences(s, v));
        assert(h2.count(v) == occurrences(s, v));
    }
    assert forall|v: usize| #[trigger] h1.contains_len(v) <==> h2.contains_len(v) by {
        lemma_contains_iff_counted(h1, v);
        lemma_contains_iff_counted(h2, v);
        assert(h1.count(v) == h2.count(v));
    }
}

} // verus!
