//! From counts to display intensities.
//!
//! A cell with count `c` in a grid whose largest count is `m` has intensity
//! `log2(c) / log2(m)`. The rule is kept exact here, over integers: a cell is
//! either `Zero` (black), `Full` (white), or `Scaled`, which names the ratio
//! of logarithms that a renderer evaluates.
//!
//! Degenerate cells are settled as follows, so that every intensity lies in
//! the unit interval and none is undefined:
//! - a count of zero is `Zero` (no pair observed, also when no pair at all was);
//! - a count equal to the largest count is `Full`, also when that count is 1
//!   and the ratio would read `0 / 0`;
//! - any other count of 1 is `Zero`, since `log2(1) = 0`.

use vstd::prelude::*;
use crate::histogram::{Histogram, histogram_of, cell_pair, lemma_occurrences_bound, max_of, lemma_max_of, CELLS};
use crate::pairs::pairs_of;

verus! {

/// The intensity of one cell of the grid.
#[derive(Clone, Copy, Debug, PartialEq, Eq, Structural)]
pub enum Intensity {
    /// Intensity 0.
    Zero,
    /// Intensity 1.
    Full,
    /// Intensity `log2(count) / log2(max)`.
    Scaled { count: u64, max: u64 },
}

impl Intensity {
    /// A scaled intensity has `2 <= count < max`, so its ratio of logarithms
    /// is defined and lies strictly between 0 and 1.
    pub open spec fn in_unit_range(self) -> bool {
        match self {
            Intensity::Scaled { count, max } => 2 <= count < max,
            _ => true,
        }
    }
}

/// The intensity of a cell with `count` in a grid whose largest count is `max`.
pub open spec fn intensity_of(count: int, max: int) -> Intensity {
    if count == 0 {
        Intensity::Zero
    } else if count == max {
        Intensity::Full
    } else if count == 1 {
        Intensity::Zero
    } else {
        Intensity::Scaled { count: count as u64, max: max as u64 }
    }
}

/// The intensities of a whole grid of counts, scaled by its largest count.
pub open spec fn normalized_of(h: Seq<int>) -> Seq<Intensity> {
    Seq::new(h.len(), |i: int| intensity_of(h[i], max_of(h)))
}

/// The intensity grid of a byte sequence: pairs, then counts, then scaling.
pub open spec fn digram_matrix(s: Seq<u8>) -> Seq<Intensity> {
    normalized_of(histogram_of(pairs_of(s)))
}

/// Every count from zero up to the largest one gets an intensity in the
/// unit interval.
pub proof fn lemma_intensity_in_range(count: int, max: int)
    requires
        0 <= count <= max <= u64::MAX,
    ensures
        intensity_of(count, max).in_unit_range(),
{
}

/// Every cell of the intensity grid of any byte sequence lies in the unit
/// interval, and a cell is `Full` exactly when it holds the largest count
/// and that count is not zero.
pub proof fn lemma_matrix_in_range(s: Seq<u8>)
    requires
        s.len() <= u64::MAX,
    ensures
        digram_matrix(s).len() == CELLS,
        forall|i: int| 0 <= i < CELLS ==> (#[trigger] digram_matrix(s)[i]).in_unit_range(),
        forall|i: int| 0 <= i < CELLS ==> (digram_matrix(s)[i] == Intensity::Full <==>
            histogram_of(pairs_of(s))[i] == max_of(histogram_of(pairs_of(s))) && histogram_of(pairs_of(s))[i] > 0),
{
    let h = histogram_of(pairs_of(s));
    lemma_max_of(h);
    assert forall|i: int| 0 <= i < CELLS implies 0 <= #[trigger] h[i] <= max_of(h) <= u64::MAX by {
        if h.len() > 0 {
            let j = choose|j: int| 0 <= j < h.len() && h[j] == max_of(h);
            lemma_occurrences_bound(pairs_of(s), cell_pair(j));
        }
    }
}

/// Two runs on the same bytes give the same intensity grid.
pub proof fn lemma_matrix_deterministic(a: Seq<u8>, b: Seq<u8>)
    requires
        a == b,
    ensures
        digram_matrix(a) == digram_matrix(b),
{
}

/// With fewer than two bytes there is no pair, and every cell is `Zero`.
pub proof fn lemma_degenerate_input(s: Seq<u8>)
    requires
        s.len() <= 1,
    ensures
        forall|i: int| 0 <= i < CELLS ==> #[trigger] digram_matrix(s)[i] == Intensity::Zero,
{
    assert(pairs_of(s) =~= Seq::<(u8, u8)>::empty());
}

/// The intensity of a cell with `count` under the largest count `max`.
pub fn intensity(count: u64, max: u64) -> (r: Intensity)
    requires
        count <= max,
    ensures
        r == intensity_of(count as int, max as int),
        r.in_unit_range(),
{
    if count == 0 {
        Intensity::Zero
    } else if count == max {
        Intensity::Full
    } else if count == 1 {
        Intensity::Zero
    } else {
        Intensity::Scaled { count, max }
    }
}

/// The intensity grid of a histogram: every cell scaled by the largest count.
pub fn normalize(h: &Histogram) -> (r: Vec<Intensity>)
    requires
        h.wf(),
    ensures
        r@ == normalized_of(h@),
        r@.len() == CELLS,
        forall|i: int| 0 <= i < CELLS ==> (#[trigger] r@[i]).in_unit_range(),
{
    let m = h.max_count();
    proof {
        lemma_max_of(h@);
    }
    let mut r: Vec<Intensity> = Vec::new();
    let mut i: usize = 0;
    while i < CELLS
        invariant
            i <= CELLS,
            h.wf(),
            m == max_of(h@),
            forall|j: int| 0 <= j < CELLS ==> h@[j] <= max_of(h@),
            r@.len() == i,
            forall|j: int| 0 <= j < i ==> #[trigger] r@[j] == intensity_of(h@[j], max_of(h@)),
        decreases CELLS - i,
    {
        let c = h.cell(i);
        r.push(intensity(c, m));
        i = i + 1;
    }
    assert(r@ =~= normalized_of(h@));
    r
}

/// The intensity grid of the overlapping byte pairs of `bytes`.
pub fn digram_intensities(bytes: &[u8]) -> (r: Vec<Intensity>)
    ensures
        r@ == digram_matrix(bytes@),
        r@.len() == CELLS,
        forall|i: int| 0 <= i < CELLS ==> (#[trigger] r@[i]).in_unit_range(),
{
    let h = Histogram::from_bytes(bytes);
    normalize(&h)
}

} // verus!
