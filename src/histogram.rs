//! The 256 by 256 co-occurrence grid of byte pairs.
//!
//! The grid is stored flat: the pair `(first, second)` lands in cell
//! `first + 256 * second`.

use vstd::prelude::*;
use vstd::arithmetic::div_mod::{lemma_fundamental_div_mod, lemma_fundamental_div_mod_converse};
use crate::pairs::{pairs_of, pair_total};

verus! {

/// Number of rows, and of columns, of the grid: one per byte value.
pub const SIDE: usize = 256;

/// Number of cells of the grid.
pub const CELLS: usize = 65536;

/// The flat position of the cell for the pair `(first, second)`.
pub open spec fn cell_index(first: u8, second: u8) -> int {
    first as int + 256 * second as int
}

/// The pair whose cell sits at flat position `i`.
pub open spec fn cell_pair(i: int) -> (u8, u8) {
    ((i % 256) as u8, (i / 256) as u8)
}

/// How many times `p` occurs in `pairs`.
pub open spec fn occurrences(pairs: Seq<(u8, u8)>, p: (u8, u8)) -> nat
    decreases pairs.len(),
{
    if pairs.len() == 0 {
        0
    } else {
        occurrences(pairs.drop_last(), p) + (if pairs.last() == p { 1nat } else { 0nat })
    }
}

/// The flat grid of counts for a sequence of pairs.
pub open spec fn histogram_of(pairs: Seq<(u8, u8)>) -> Seq<int> {
    Seq::new(CELLS as nat, |i: int| occurrences(pairs, cell_pair(i)) as int)
}

/// The sum of a sequence of integers.
pub open spec fn sum_of(s: Seq<int>) -> int
    decreases s.len(),
{
    if s.len() == 0 {
        0
    } else {
        sum_of(s.drop_last()) + s.last()
    }
}

/// Each pair has one cell, inside the grid, and that cell maps back to it.
pub proof fn lemma_cell_index(first: u8, second: u8)
    ensures
        0 <= cell_index(first, second) < CELLS,
        cell_pair(cell_index(first, second)) == (first, second),
{
    let i = cell_index(first, second);
    lemma_fundamental_div_mod_converse(i, 256, second as int, first as int);
}

/// Each cell of the grid belongs to exactly the pair that `cell_pair` gives.
pub proof fn lemma_cell_pair(i: int)
    requires
        0 <= i < CELLS,
    ensures
        cell_index(cell_pair(i).0, cell_pair(i).1) == i,
{
    lemma_fundamental_div_mod(i, 256);
    assert(0 <= i / 256 < 256) by {
        lemma_fundamental_div_mod_converse(i, 256, i / 256, i % 256);
    }
}

/// A pair never occurs more often than the sequence is long.
pub proof fn lemma_occurrences_bound(pairs: Seq<(u8, u8)>, p: (u8, u8))
    ensures
        occurrences(pairs, p) <= pairs.len(),
    decreases pairs.len(),
{
    if pairs.len() > 0 {
        lemma_occurrences_bound(pairs.drop_last(), p);
    }
}

/// Observing one more pair adds one to its own cell and leaves the others.
pub proof fn lemma_histogram_push(pairs: Seq<(u8, u8)>, p: (u8, u8))
    ensures
        histogram_of(pairs.push(p)) == histogram_of(pairs).update(
            cell_index(p.0, p.1),
            histogram_of(pairs)[cell_index(p.0, p.1)] + 1,
        ),
{
    let k = cell_index(p.0, p.1);
    lemma_cell_index(p.0, p.1);
    assert(pairs.push(p).drop_last() =~= pairs);
    assert forall|i: int| 0 <= i < CELLS implies #[trigger] cell_pair(i) == p <==> i == k by {
        lemma_cell_pair(i);
    }
    assert(histogram_of(pairs.push(p)) =~= histogram_of(pairs).update(k, histogram_of(pairs)[k] + 1));
}

/// Changing one element changes the sum by the difference.
pub proof fn lemma_sum_update(s: Seq<int>, i: int, v: int)
    requires
        0 <= i < s.len(),
    ensures
        sum_of(s.update(i, v)) == sum_of(s) - s[i] + v,
    decreases s.len(),
{
    let t = s.update(i, v);
    if i == s.len() - 1 {
        assert(t.drop_last() =~= s.drop_last());
    } else {
        lemma_sum_update(s.drop_last(), i, v);
        assert(t.drop_last() =~= s.drop_last().update(i, v));
    }
}

/// A sequence of zeros sums to zero.
pub proof fn lemma_sum_zeros(s: Seq<int>)
    requires
        forall|i: int| 0 <= i < s.len() ==> s[i] == 0,
    ensures
        sum_of(s) == 0,
    decreases s.len(),
{
    if s.len() > 0 {
        lemma_sum_zeros(s.drop_last());
    }
}

/// The counts of the grid add up to the number of pairs observed.
pub proof fn lemma_histogram_sum(pairs: Seq<(u8, u8)>)
    ensures
        sum_of(histogram_of(pairs)) == pairs.len(),
    decreases pairs.len(),
{
    if pairs.len() == 0 {
        lemma_sum_zeros(histogram_of(pairs));
    } else {
        let rest = pairs.drop_last();
        let p = pairs.last();
        lemma_histogram_sum(rest);
        lemma_histogram_push(rest, p);
        lemma_cell_index(p.0, p.1);
        assert(rest.push(p) =~= pairs);
        lemma_sum_update(histogram_of(rest), cell_index(p.0, p.1), histogram_of(rest)[cell_index(p.0, p.1)] + 1);
    }
}

/// The largest element of a sequence, or 0 for an empty one.
pub open spec fn max_of(s: Seq<int>) -> int
    decreases s.len(),
{
    if s.len() == 0 {
        0
    } else if s.len() == 1 {
        s[0]
    } else if max_of(s.drop_last()) >= s.last() {
        max_of(s.drop_last())
    } else {
        s.last()
    }
}

/// The largest element bounds every element, and is one of them when the
/// sequence is not empty.
pub proof fn lemma_max_of(s: Seq<int>)
    ensures
        forall|i: int| 0 <= i < s.len() ==> s[i] <= max_of(s),
        s.len() > 0 ==> exists|i: int| 0 <= i < s.len() && s[i] == max_of(s),
        s.len() == 0 ==> max_of(s) == 0,
    decreases s.len(),
{
    if s.len() > 0 {
        let t = s.drop_last();
        lemma_max_of(t);
        assert forall|i: int| 0 <= i < s.len() implies s[i] <= max_of(s) by {
            if i < t.len() {
                assert(t[i] == s[i]);
            }
        }
        if t.len() == 0 {
            assert(s[0] == max_of(s));
        } else if max_of(t) >= s.last() {
            let j = choose|j: int| 0 <= j < t.len() && t[j] == max_of(t);
            assert(s[j] == max_of(s));
        } else {
            assert(s[s.len() - 1] == max_of(s));
        }
    }
}

/// Counts of adjacent byte pairs, one cell per ordered pair.
pub struct Histogram {
    counts: Vec<u64>,
    total: u64,
    observed: Ghost<Seq<(u8, u8)>>,
}

impl Histogram {
    /// The pairs counted so far, in the order they came.
    pub closed spec fn pairs(&self) -> Seq<(u8, u8)> {
        self.observed@
    }

    /// The flat grid of counts.
    pub open spec fn view(&self) -> Seq<int> {
        histogram_of(self.pairs())
    }

    /// The stored counts match the pairs counted so far.
    pub closed spec fn wf(&self) -> bool {
        &&& self.counts@.len() == CELLS
        &&& self.total == self.observed@.len()
        &&& forall|i: int| 0 <= i < CELLS ==> #[trigger] self.counts@[i] == histogram_of(self.observed@)[i]
    }

    /// An all-zero grid.
    pub fn new() -> (r: Histogram)
        ensures
            r.wf(),
            r.pairs() == Seq::<(u8, u8)>::empty(),
    {
        let mut counts: Vec<u64> = Vec::new();
        while counts.len() < CELLS
            invariant
                counts@.len() <= CELLS,
                forall|i: int| 0 <= i < counts@.len() ==> #[trigger] counts@[i] == 0,
            decreases CELLS - counts@.len(),
        {
            counts.push(0);
        }
        Histogram { counts, total: 0, observed: Ghost(Seq::empty()) }
    }

    /// Counts one more occurrence of the pair `(first, second)`.
    pub fn add(&mut self, first: u8, second: u8)
        requires
            old(self).wf(),
            old(self).pairs().len() < u64::MAX,
        ensures
            final(self).wf(),
            final(self).pairs() == old(self).pairs().push((first, second)),
            final(self)@ == old(self)@.update(cell_index(first, second), old(self)@[cell_index(first, second)] + 1),
    {
        let ghost before = self.observed@;
        proof {
            lemma_cell_index(first, second);
            lemma_histogram_push(before, (first, second));
            lemma_occurrences_bound(before, (first, second));
        }
        let k: usize = first as usize + SIDE * second as usize;
        let c = self.counts[k];
        self.counts.set(k, c + 1);
        self.total = self.total + 1;
        self.observed = Ghost(before.push((first, second)));
    }

    /// How often the pair `(first, second)` was counted.
    pub fn count(&self, first: u8, second: u8) -> (r: u64)
        requires
            self.wf(),
        ensures
            r == occurrences(self.pairs(), (first, second)),
            r == self@[cell_index(first, second)],
    {
        proof {
            lemma_cell_index(first, second);
        }
        self.counts[first as usize + SIDE * second as usize]
    }

    /// How many pairs were counted.
    pub fn total(&self) -> (r: u64)
        requires
            self.wf(),
        ensures
            r == self.pairs().len(),
            r == sum_of(self@),
    {
        proof {
            lemma_histogram_sum(self.pairs());
        }
        self.total
    }

    /// The count stored in flat cell `i`.
    pub fn cell(&self, i: usize) -> (r: u64)
        requires
            self.wf(),
            i < CELLS,
        ensures
            r == self@[i as int],
    {
        self.counts[i]
    }

    /// The largest count of the grid.
    pub fn max_count(&self) -> (r: u64)
        requires
            self.wf(),
        ensures
            r == max_of(self@),
    {
        let mut m: u64 = self.counts[0];
        let mut i: usize = 1;
        assert(self@.take(1)[0] == self@[0]);
        while i < CELLS
            invariant
                1 <= i <= CELLS,
                self.wf(),
                m == max_of(self@.take(i as int)),
            decreases CELLS - i,
        {
            assert(self@.take(i + 1).drop_last() =~= self@.take(i as int));
            let c = self.counts[i];
            if c > m {
                m = c;
            }
            i = i + 1;
        }
        assert(self@.take(CELLS as int) =~= self@);
        m
    }

    /// The histogram of all overlapping pairs of `bytes`.
    pub fn from_bytes(bytes: &[u8]) -> (r: Histogram)
        ensures
            r.wf(),
            r.pairs() == pairs_of(bytes@),
            r.pairs().len() == pair_total(bytes@.len() as int),
            sum_of(r@) == pair_total(bytes@.len() as int),
    {
        let mut h = Histogram::new();
        if bytes.len() < 2 {
            proof {
                assert(pairs_of(bytes@) =~= Seq::<(u8, u8)>::empty());
                lemma_histogram_sum(h.pairs());
            }
            return h;
        }
        let mut i: usize = 1;
        while i < bytes.len()
            invariant
                1 <= i <= bytes@.len(),
                h.wf(),
                h.pairs() =~= pairs_of(bytes@.take(i as int)),
            decreases bytes@.len() - i,
        {
            proof {
                crate::pairs::lemma_pairs_of_push(bytes@.take(i as int), bytes@[i as int]);
                assert(bytes@.take(i as int).push(bytes@[i as int]) =~= bytes@.take(i + 1));
            }
            h.add(bytes[i - 1], bytes[i]);
            i = i + 1;
        }
        proof {
            assert(bytes@.take(i as int) =~= bytes@);
            lemma_histogram_sum(h.pairs());
        }
        h
    }
}

} // verus!
