//! Streaming majority bundling: a per-bit counter array that tallies vectors
//! one at a time, so an unbounded stream can be bundled in space proportional
//! to the width alone.

use crate::hdv::bitarray2hdv;
use crate::hdv::Hdv;
use crate::ops::bit_views;
use crate::ops::count_set_at;
use crate::ops::lemma_count_set_at_take_snoc;
use crate::ops::majority_bits;
use crate::HdcError;
use vstd::prelude::*;

verus! {

broadcast use crate::bits::lemma_bits_of_len;

/// A streaming majority tally: one counter per bit position, plus how many
/// vectors have been accumulated. Thresholding the counters reproduces the
/// batch majority vote without storing the vectors.
pub struct BitAccumulator {
    counts: Vec<usize>,
    total: usize,
}

impl BitAccumulator {
    /// The per-position counters.
    pub closed spec fn spec_counts(&self) -> Seq<usize> {
        self.counts@
    }

    /// How many vectors have been accumulated.
    pub closed spec fn spec_total(&self) -> nat {
        self.total as nat
    }

    /// The width is a whole number of words and no counter exceeds the number
    /// of vectors accumulated.
    pub open spec fn wf(&self) -> bool {
        self.spec_counts().len() % 64 == 0 && forall|p: int|
            0 <= p < self.spec_counts().len() ==> self.spec_counts()[p] <= self.spec_total()
    }

    /// How many vectors have been accumulated.
    pub fn total(&self) -> (t: usize)
        ensures
            t == self.spec_total(),
    {
        self.total
    }

    /// How many counters the tally holds: the width in bits.
    pub fn len(&self) -> (l: usize)
        ensures
            l == self.spec_counts().len(),
    {
        self.counts.len()
    }

    /// An empty tally for vectors of `words` words.
    pub fn new(words: usize) -> (r: BitAccumulator)
        requires
            64 * words <= usize::MAX,
        ensures
            r.wf(),
            r.spec_counts().len() == 64 * words,
            r.spec_total() == 0,
            forall|p: int| 0 <= p < 64 * words ==> r.spec_counts()[p] == 0,
    {
        let d = words * 64;
        let mut counts: Vec<usize> = Vec::new();
        while counts.len() < d
            invariant
                d == 64 * words,
                counts@.len() <= d,
                forall|p: int| 0 <= p < counts@.len() ==> counts@[p] == 0,
            decreases d - counts.len(),
        {
            counts.push(0);
        }
        BitAccumulator { counts, total: 0 }
    }

    /// Adds one vector to the tally: counter `p` grows by one exactly where
    /// bit `p` of `v` is set.
    pub fn accumulate(&mut self, v: &Hdv)
        requires
            old(self).wf(),
            v.wf(),
            v@.len() == old(self).spec_counts().len(),
            old(self).spec_total() < usize::MAX,
        ensures
            final(self).wf(),
            final(self).spec_total() == old(self).spec_total() + 1,
            final(self).spec_counts().len() == old(self).spec_counts().len(),
            forall|p: int|
                0 <= p < final(self).spec_counts().len() ==> final(self).spec_counts()[p] == old(
                    self,
                ).spec_counts()[p] + (if v@[p] {
                    1int
                } else {
                    0int
                }),
    {
        crate::hdv::accumulate(v, &mut self.counts);
        self.total = self.total + 1;
    }

    /// The vector whose bit `p` is set iff counter `p` exceeds `thr`.
    pub fn finalize_with(&self, thr: usize) -> (r: Hdv)
        requires
            self.wf(),
        ensures
            r.wf(),
            r@.len() == self.spec_counts().len(),
            forall|p: int|
                0 <= p < self.spec_counts().len() ==> r@[p] == (self.spec_counts()[p] > thr),
    {
        bitarray2hdv(self.counts.as_slice(), thr)
    }

    /// The majority vector of everything tallied: bit `p` is set iff counter
    /// `p` exceeds half the number of accumulated vectors. An empty tally
    /// yields the all-zero vector.
    pub fn finalize(&self) -> (r: Hdv)
        requires
            self.wf(),
        ensures
            r.wf(),
            r@.len() == self.spec_counts().len(),
            forall|p: int|
                0 <= p < self.spec_counts().len() ==> r@[p] == (self.spec_counts()[p]
                    > self.spec_total() / 2),
    {
        self.finalize_with(self.total / 2)
    }
}

/// Bundles a family by streaming it through a fresh tally. The result is
/// pinned to the same majority vote as batch `bundle`: streaming and batch
/// bundling agree on every input, ties falling to zero in both.
pub fn bundle_streaming(arrays: &[Hdv]) -> (r: Result<Hdv, HdcError>)
    requires
        forall|k: int| 0 <= k < arrays@.len() ==> (#[trigger] arrays@[k]).wf(),
    ensures
        match r {
            Ok(v) => arrays@.len() > 0 && (forall|k: int|
                0 <= k < arrays@.len() ==> (#[trigger] arrays@[k]).spec_words().len()
                    == arrays@[0].spec_words().len()) && v.wf() && v.spec_words().len()
                == arrays@[0].spec_words().len() && v@ == majority_bits(
                bit_views(arrays@),
                arrays@[0]@.len(),
            ),
            Err(e) => if arrays@.len() == 0 {
                e == HdcError::EmptyInput
            } else {
                e == HdcError::DimensionMismatch && exists|k: int|
                    0 <= k < arrays@.len() && (#[trigger] arrays@[k]).spec_words().len()
                        != arrays@[0].spec_words().len()
            },
        },
{
    let m = arrays.len();
    if m == 0 {
        return Err(HdcError::EmptyInput);
    }
    let n = arrays[0].word_len();
    let ghost views = bit_views(arrays@);
    let mut acc = BitAccumulator::new(n);
    let mut k: usize = 0;
    while k < m
        invariant
            k <= m,
            m == arrays@.len(),
            n == arrays@[0].spec_words().len(),
            64 * n <= usize::MAX,
            views == bit_views(arrays@),
            forall|t: int| 0 <= t < k ==> (#[trigger] arrays@[t]).spec_words().len() == n,
            forall|t: int| 0 <= t < arrays@.len() ==> (#[trigger] arrays@[t]).wf(),
            acc.wf(),
            acc.spec_counts().len() == 64 * n,
            acc.spec_total() == k,
            forall|p: int|
                0 <= p < 64 * n ==> acc.spec_counts()[p] == count_set_at(
                    views.take(k as int),
                    p,
                ),
        decreases m - k,
    {
        if arrays[k].word_len() != n {
            return Err(HdcError::DimensionMismatch);
        }
        let ghost counts0 = acc.spec_counts();
        acc.accumulate(&arrays[k]);
        proof {
            assert forall|p: int| 0 <= p < 64 * n implies acc.spec_counts()[p] == count_set_at(
                views.take(k + 1),
                p,
            ) by {
                lemma_count_set_at_take_snoc(views, k as int, p);
            }
        }
        k = k + 1;
    }
    let r = acc.finalize();
    proof {
        assert(views.take(m as int) =~= views);
        assert(r@ =~= majority_bits(views, arrays@[0]@.len()));
    }
    Ok(r)
}

} // verus!
