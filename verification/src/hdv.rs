//! The hypervector type: a fixed-width, immutable binary vector packed into
//! 64-bit words, with its constructors and the counter-array conversions used
//! by streaming bundling.

use crate::bits::bits_of;
use crate::bits::count_true;
use crate::bits::get_word_bit;
use crate::bits::lemma_bits_of_index;
use crate::bits::lemma_bits_of_push;
use crate::bits::lemma_bits_of_word_index;
use crate::bits::lemma_count_true_complement;
use crate::bits::lemma_count_true_concat;
use crate::bits::lemma_word_bit_not;
use crate::bits::lemma_word_bit_zero;
use crate::bits::set_word_bit;
use crate::bits::word_bit;
use crate::bits::word_bits;
use crate::bits::zero_bits;
use crate::rng::RandSource;
use vstd::prelude::*;

verus! {

broadcast use crate::bits::lemma_bits_of_len;

/// A fixed-width binary hypervector backed by 64-bit words.
///
/// The view is the sequence of its `64 * W` bits, least significant bit of
/// the first word first. Values are immutable: every operator returns a new
/// vector.
#[derive(Debug, PartialEq, Eq)]
pub struct Hdv {
    v: Vec<u64>,
}

impl View for Hdv {
    type V = Seq<bool>;

    open spec fn view(&self) -> Seq<bool> {
        bits_of(self.spec_words())
    }
}

impl Hdv {
    /// The packed words of the vector.
    pub closed spec fn spec_words(&self) -> Seq<u64> {
        self.v@
    }

    /// The width is small enough that every bit position fits a `usize`.
    pub open spec fn wf(&self) -> bool {
        64 * self.spec_words().len() <= usize::MAX
    }

    /// How many words the vector holds.
    pub fn word_len(&self) -> (n: usize)
        ensures
            n == self.spec_words().len(),
    {
        self.v.len()
    }

    /// The dimensionality: how many bits the vector holds.
    pub fn dim(&self) -> (d: usize)
        requires
            self.wf(),
        ensures
            d == self@.len(),
    {
        self.v.len() * 64
    }

    /// Word `i` of the vector.
    pub fn word_at(&self, i: usize) -> (w: u64)
        requires
            i < self.spec_words().len(),
        ensures
            w == self.spec_words()[i as int],
    {
        self.v[i]
    }

    /// A vector owning exactly the given words.
    pub fn from_words(v: Vec<u64>) -> (r: Hdv)
        requires
            64 * v@.len() <= usize::MAX,
        ensures
            r.spec_words() == v@,
            r.wf(),
    {
        Hdv { v }
    }

    /// An identical copy of the vector.
    pub fn duplicate(&self) -> (r: Hdv)
        ensures
            r.spec_words() == self.spec_words(),
            r@ == self@,
    {
        let n = self.v.len();
        let mut v2: Vec<u64> = Vec::new();
        let mut i: usize = 0;
        while i < n
            invariant
                i <= n,
                n == self.v@.len(),
                v2@ == self.v@.take(i as int),
            decreases n - i,
        {
            v2.push(self.v[i]);
            proof {
                assert(v2@ =~= self.v@.take(i + 1));
            }
            i = i + 1;
        }
        proof {
            assert(v2@ =~= self.v@);
        }
        Hdv { v: v2 }
    }

    /// The all-zero vector of the given word count.
    pub fn zeros(words: usize) -> (r: Hdv)
        requires
            64 * words <= usize::MAX,
        ensures
            r.wf(),
            r.spec_words().len() == words,
            r@ == zero_bits((64 * words) as nat),
    {
        let mut v: Vec<u64> = Vec::new();
        while v.len() < words
            invariant
                v@.len() <= words,
                forall|i: int| 0 <= i < v@.len() ==> v@[i] == 0u64,
            decreases words - v.len(),
        {
            v.push(0u64);
        }
        proof {
            lemma_word_bit_zero();
            assert forall|p: int| 0 <= p < bits_of(v@).len() implies !bits_of(v@)[p] by {
                lemma_bits_of_index(v@, p);
            }
            assert(bits_of(v@) =~= zero_bits((64 * words) as nat));
        }
        Hdv { v }
    }

    /// A fresh vector of independently uniform random bits.
    ///
    /// Two such vectors of the same width disagree on about half their
    /// positions: the quasi-orthogonality the whole algebra rests on.
    pub fn new(rng: &mut RandSource, words: usize) -> (r: Hdv)
        requires
            64 * words <= usize::MAX,
        ensures
            r.wf(),
            r.spec_words().len() == words,
    {
        let mut v: Vec<u64> = Vec::new();
        while v.len() < words
            invariant
                v@.len() <= words,
            decreases words - v.len(),
        {
            let w = rng.next_word();
            v.push(w);
        }
        Hdv { v }
    }

    /// A fresh random vector with exactly half its bits set: words are drawn
    /// in complementary pairs, so the weight is `D / 2` by construction.
    pub fn new_balanced(rng: &mut RandSource, words: usize) -> (r: Hdv)
        requires
            words % 2 == 0,
            64 * words <= usize::MAX,
        ensures
            r.wf(),
            r.spec_words().len() == words,
            2 * count_true(r@) == r@.len(),
    {
        let mut v: Vec<u64> = Vec::new();
        while v.len() < words
            invariant
                words % 2 == 0,
                v@.len() <= words,
                v@.len() % 2 == 0,
                2 * count_true(bits_of(v@)) == 64 * v@.len(),
            decreases words - v.len(),
        {
            let ghost vs0 = v@;
            let w = rng.next_word();
            v.push(w);
            v.push(!w);
            proof {
                lemma_bits_of_push(vs0, w);
                lemma_bits_of_push(vs0.push(w), !w);
                lemma_count_true_concat(bits_of(vs0), word_bits(w));
                lemma_count_true_concat(bits_of(vs0.push(w)), word_bits(!w));
                lemma_word_bit_not(w);
                assert forall|j: int| 0 <= j < 64 implies word_bits(!w)[j] == !word_bits(w)[j] by {
                    assert(word_bit(!w, j as u64) == !word_bit(w, j as u64));
                }
                lemma_count_true_complement(word_bits(w), word_bits(!w));
            }
        }
        Hdv { v }
    }
}

/// The word count used for a requested number of bits: enough whole words to
/// hold them, rounded up to an even count.
pub fn vec_size(n_bits: usize) -> (r: usize)
    ensures
        r == (if (n_bits + 63) / 64 % 2 == 0 {
            (n_bits + 63) / 64
        } else {
            (n_bits + 63) / 64 + 1
        }),
        r % 2 == 0,
        64 * r >= n_bits,
        64 * r <= n_bits + 128,
{
    let w = if n_bits % 64 == 0 {
        n_bits / 64
    } else {
        n_bits / 64 + 1
    };
    proof {
        vstd::arithmetic::div_mod::lemma_fundamental_div_mod(n_bits as int, 64);
        vstd::arithmetic::div_mod::lemma_fundamental_div_mod_converse(
            n_bits + 63,
            64,
            w as int,
            n_bits + 63 - 64 * w,
        );
    }
    if w % 2 == 0 {
        w
    } else {
        w + 1
    }
}

/// One array entry per bit of the vector: 1 where the bit is set, else 0.
pub fn hdv2bitarray(hdv: &Hdv) -> (r: Vec<usize>)
    requires
        hdv.wf(),
    ensures
        r@.len() == hdv@.len(),
        forall|p: int|
            0 <= p < r@.len() ==> r@[p] == (if hdv@[p] {
                1int
            } else {
                0int
            }),
{
    let n = hdv.word_len();
    let mut r: Vec<usize> = Vec::new();
    let mut i: usize = 0;
    while i < n
        invariant
            i <= n,
            n == hdv.spec_words().len(),
            hdv.wf(),
            r@.len() == 64 * i,
            forall|p: int|
                0 <= p < r@.len() ==> r@[p] == (if hdv@[p] {
                    1int
                } else {
                    0int
                }),
        decreases n - i,
    {
        let w = hdv.word_at(i);
        let mut j: usize = 0;
        while j < 64
            invariant
                j <= 64,
                i < n,
                n == hdv.spec_words().len(),
                hdv.wf(),
                w == hdv.spec_words()[i as int],
                r@.len() == 64 * i + j,
                forall|p: int|
                    0 <= p < r@.len() ==> r@[p] == (if hdv@[p] {
                        1int
                    } else {
                        0int
                    }),
            decreases 64 - j,
        {
            let b = get_word_bit(w, j);
            proof {
                lemma_bits_of_word_index(hdv.spec_words(), i as int, j as int);
            }
            r.push(if b { 1 } else { 0 });
            j = j + 1;
        }
        i = i + 1;
    }
    r
}

/// Thresholds a counter array back into a hypervector: bit `p` of the result
/// is set iff `a[p] > thr`. The array length must be a whole number of words.
pub fn bitarray2hdv(a: &[usize], thr: usize) -> (r: Hdv)
    requires
        a@.len() % 64 == 0,
    ensures
        r.wf(),
        r@.len() == a@.len(),
        forall|p: int| 0 <= p < a@.len() ==> r@[p] == (a@[p] > thr),
{
    let alen = a.len();
    let n_words = alen / 64;
    proof {
        vstd::arithmetic::div_mod::lemma_fundamental_div_mod(a@.len() as int, 64);
    }
    let mut v: Vec<u64> = Vec::new();
    let mut i: usize = 0;
    while i < n_words
        invariant
            i <= n_words,
            64 * n_words == a@.len(),
            a@.len() <= usize::MAX,
            v@.len() == i,
            forall|p: int| 0 <= p < 64 * i ==> bits_of(v@)[p] == (a@[p] > thr),
        decreases n_words - i,
    {
        let ghost vs0 = v@;
        let mut cur: u64 = 0;
        proof {
            lemma_word_bit_zero();
        }
        let mut j: usize = 0;
        while j < 64
            invariant
                j <= 64,
                i < n_words,
                64 * n_words == a@.len(),
                a@.len() <= usize::MAX,
                forall|j2: u64| j2 < j ==> #[trigger] word_bit(cur, j2) == (a@[64 * i + j2] > thr),
                forall|j2: u64| j <= j2 < 64 ==> !(#[trigger] word_bit(cur, j2)),
            decreases 64 - j,
        {
            if a[64 * i + j] > thr {
                cur = set_word_bit(cur, j);
            }
            j = j + 1;
        }
        v.push(cur);
        proof {
            lemma_bits_of_push(vs0, cur);
            assert forall|p: int| 0 <= p < 64 * (i + 1) implies bits_of(v@)[p] == (a@[p] > thr) by {
                crate::bits::lemma_bits_of_push_index(vs0, cur, p);
            }
        }
        i = i + 1;
    }
    Hdv { v }
}

/// Adds each bit of `hdv` to the matching counter of `a`: counter `p` grows
/// by one exactly where bit `p` is set.
pub fn accumulate(hdv: &Hdv, a: &mut Vec<usize>)
    requires
        hdv.wf(),
        old(a)@.len() == hdv@.len(),
        forall|p: int| 0 <= p < old(a)@.len() ==> old(a)@[p] < usize::MAX,
    ensures
        final(a)@.len() == old(a)@.len(),
        forall|p: int|
            0 <= p < final(a)@.len() ==> final(a)@[p] == old(a)@[p] + (if hdv@[p] {
                1int
            } else {
                0int
            }),
{
    let n = hdv.word_len();
    let mut i: usize = 0;
    while i < n
        invariant
            i <= n,
            n == hdv.spec_words().len(),
            hdv.wf(),
            a@.len() == old(a)@.len(),
            old(a)@.len() == hdv@.len(),
            forall|p: int| 0 <= p < old(a)@.len() ==> old(a)@[p] < usize::MAX,
            forall|p: int|
                0 <= p < 64 * i ==> a@[p] == old(a)@[p] + (if hdv@[p] {
                    1int
                } else {
                    0int
                }),
            forall|p: int| 64 * i <= p < a@.len() ==> a@[p] == old(a)@[p],
        decreases n - i,
    {
        let w = hdv.word_at(i);
        let mut j: usize = 0;
        while j < 64
            invariant
                j <= 64,
                i < n,
                n == hdv.spec_words().len(),
                hdv.wf(),
                w == hdv.spec_words()[i as int],
                a@.len() == old(a)@.len(),
                old(a)@.len() == hdv@.len(),
                forall|p: int| 0 <= p < old(a)@.len() ==> old(a)@[p] < usize::MAX,
                forall|p: int|
                    0 <= p < 64 * i + j ==> a@[p] == old(a)@[p] + (if hdv@[p] {
                        1int
                    } else {
                        0int
                    }),
                forall|p: int| 64 * i + j <= p < a@.len() ==> a@[p] == old(a)@[p],
            decreases 64 - j,
        {
            proof {
                lemma_bits_of_word_index(hdv.spec_words(), i as int, j as int);
            }
            if get_word_bit(w, j) {
                let idx = 64 * i + j;
                let cur = a[idx];
                a.set(idx, cur + 1);
            }
            j = j + 1;
        }
        i = i + 1;
    }
}

} // verus!
