//! Adjacent byte pairs of a byte sequence.

use vstd::prelude::*;

verus! {

/// The overlapping pairs of a byte sequence: `(s[i], s[i + 1])` for each `i`
/// that has a successor. A sequence of zero or one byte has no pair.
pub open spec fn pairs_of(s: Seq<u8>) -> Seq<(u8, u8)> {
    Seq::new(pair_total(s.len() as int), |i: int| (s[i], s[i + 1]))
}

/// How many pairs a sequence of `n` bytes has: `max(n - 1, 0)`.
pub open spec fn pair_total(n: int) -> nat {
    if n <= 1 { 0 } else { (n - 1) as nat }
}

/// Appending a byte adds exactly one pair, formed with the previous last
/// byte, unless the sequence was empty.
pub proof fn lemma_pairs_of_push(s: Seq<u8>, b: u8)
    ensures
        pairs_of(s.push(b)) == (if s.len() == 0 {
            pairs_of(s)
        } else {
            pairs_of(s).push((s.last(), b))
        }),
{
    let t = s.push(b);
    if s.len() == 0 {
        assert(pairs_of(t) =~= pairs_of(s));
    } else {
        assert(pairs_of(t) =~= pairs_of(s).push((s.last(), b)));
    }
}

/// A source of `n` bytes yields `max(n - 1, 0)` pairs.
pub proof fn lemma_pair_count(s: Seq<u8>)
    ensures
        pairs_of(s).len() == (if s.len() == 0 { 0 } else { s.len() - 1 }),
{
}

/// Four bytes give three overlapping pairs, not two disjoint ones.
pub proof fn lemma_pairs_overlap(a: u8, b: u8, c: u8, d: u8)
    ensures
        pairs_of(seq![a, b, c, d]) == seq![(a, b), (b, c), (c, d)],
{
    assert(pairs_of(seq![a, b, c, d]) =~= seq![(a, b), (b, c), (c, d)]);
}

/// All the overlapping pairs of `bytes`, in source order.
pub fn byte_pairs(bytes: &[u8]) -> (r: Vec<(u8, u8)>)
    ensures
        r@ == pairs_of(bytes@),
        r@.len() == pair_total(bytes@.len() as int),
        forall|i: int| 0 <= i < r@.len() ==> #[trigger] r@[i] == (bytes@[i], bytes@[i + 1]),
{
    let mut r: Vec<(u8, u8)> = Vec::new();
    if bytes.len() < 2 {
        assert(r@ =~= pairs_of(bytes@));
        return r;
    }
    let mut i: usize = 1;
    while i < bytes.len()
        invariant
            1 <= i <= bytes@.len(),
            r@ =~= pairs_of(bytes@.take(i as int)),
        decreases bytes@.len() - i,
    {
        proof {
            lemma_pairs_of_push(bytes@.take(i as int), bytes@[i as int]);
            assert(bytes@.take(i as int).push(bytes@[i as int]) =~= bytes@.take(i + 1));
        }
        r.push((bytes[i - 1], bytes[i]));
        i = i + 1;
    }
    assert(bytes@.take(i as int) =~= bytes@);
    r
}

/// A sliding window of two bytes over a stream: each byte pushed after the
/// first completes one pair with the byte before it.
pub struct PairExtractor {
    last: Option<u8>,
    seen: Ghost<Seq<u8>>,
}

impl PairExtractor {
    /// The bytes pushed so far.
    pub closed spec fn view(&self) -> Seq<u8> {
        self.seen@
    }

    /// The window holds the last byte pushed, if any.
    pub closed spec fn wf(&self) -> bool {
        self.last == (if self.seen@.len() == 0 {
            None::<u8>
        } else {
            Some(self.seen@.last())
        })
    }

    /// An extractor that has seen no byte.
    pub fn new() -> (r: PairExtractor)
        ensures
            r.wf(),
            r@ == Seq::<u8>::empty(),
    {
        PairExtractor { last: None, seen: Ghost(Seq::empty()) }
    }

    /// Feeds the next byte of the stream. Returns the pair it completes:
    /// `None` for the first byte, else `(previous, b)`.
    pub fn push(&mut self, b: u8) -> (r: Option<(u8, u8)>)
        requires
            old(self).wf(),
        ensures
            final(self).wf(),
            final(self)@ == old(self)@.push(b),
            r == (if old(self)@.len() == 0 {
                None::<(u8, u8)>
            } else {
                Some((old(self)@.last(), b))
            }),
            pairs_of(final(self)@) == (match r {
                Some(p) => pairs_of(old(self)@).push(p),
                None => pairs_of(old(self)@),
            }),
    {
        proof {
            lemma_pairs_of_push(self.seen@, b);
        }
        let r = match self.last {
            Some(a) => Some((a, b)),
            None => None,
        };
        self.last = Some(b);
        self.seen = Ghost(self.seen@.push(b));
        r
    }
}

} // verus!
