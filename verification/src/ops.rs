//! The hypervector algebra: binding (exclusive or), cyclic permutation,
//! Hamming distance and majority-vote bundling.

use crate::bits::bits_of;
use crate::bits::count_true;
use crate::bits::get_word_bit;
use crate::bits::hamming;
use crate::bits::lemma_bits_of_index;
use crate::bits::lemma_bits_of_push_index;
use crate::bits::lemma_bits_of_word_index;
use crate::bits::lemma_count_true_concat;
use crate::bits::lemma_mod_add_cancel;
use crate::bits::lemma_word_bit_xor;
use crate::bits::lemma_word_bit_zero;
use crate::bits::rotl_bits;
use crate::bits::set_word_bit;
use crate::bits::word_bit;
use crate::bits::word_bits;
use crate::bits::word_ones;
use crate::bits::xor_bits;
use crate::hdv::Hdv;
use crate::HdcError;
use vstd::arithmetic::div_mod::lemma_fundamental_div_mod;
use vstd::arithmetic::div_mod::lemma_fundamental_div_mod_converse;
use vstd::arithmetic::div_mod::lemma_small_mod;
use vstd::prelude::*;

verus! {

broadcast use crate::bits::lemma_bits_of_len;

/// The bit sequences of a family of vectors.
pub open spec fn bit_views(vs: Seq<Hdv>) -> Seq<Seq<bool>> {
    vs.map_values(|h: Hdv| h@)
}

/// The bit sequences of a family of borrowed vectors.
pub open spec fn ref_bit_views(vs: Seq<&Hdv>) -> Seq<Seq<bool>> {
    vs.map_values(|h: &Hdv| h@)
}

/// How many of the vectors have bit `p` set.
pub open spec fn count_set_at(vs: Seq<Seq<bool>>, p: int) -> nat
    decreases vs.len(),
{
    if vs.len() == 0 {
        0
    } else {
        count_set_at(vs.drop_last(), p) + if vs.last()[p] {
            1nat
        } else {
            0nat
        }
    }
}

/// Majority vote over a family of vectors: bit `p` of the result is set iff
/// more than half of the vectors set bit `p`; an exact tie yields 0.
pub open spec fn majority_bits(vs: Seq<Seq<bool>>, d: nat) -> Seq<bool> {
    Seq::new(d, |p: int| count_set_at(vs, p) > vs.len() / 2)
}

/// One more vector adds one to the count at `p` exactly when it sets bit `p`.
pub proof fn lemma_count_set_at_take_snoc(vs: Seq<Seq<bool>>, k: int, p: int)
    requires
        0 <= k < vs.len(),
    ensures
        count_set_at(vs.take(k + 1), p) == count_set_at(vs.take(k), p) + if vs[k][p] {
            1int
        } else {
            0int
        },
{
    assert(vs.take(k + 1).drop_last() =~= vs.take(k));
}

/// Appending a vector adds one to the count at `p` exactly when it sets `p`.
pub proof fn lemma_count_set_at_push(vs: Seq<Seq<bool>>, v: Seq<bool>, p: int)
    ensures
        count_set_at(vs.push(v), p) == count_set_at(vs, p) + if v[p] {
            1int
        } else {
            0int
        },
{
    assert(vs.push(v).drop_last() =~= vs);
}

/// Over identical vectors the count at `p` is all or nothing.
proof fn lemma_count_set_at_const(vs: Seq<Seq<bool>>, v: Seq<bool>, p: int)
    requires
        forall|k: int| 0 <= k < vs.len() ==> vs[k] == v,
    ensures
        count_set_at(vs, p) == if v[p] {
            vs.len()
        } else {
            0nat
        },
    decreases vs.len(),
{
    if vs.len() > 0 {
        lemma_count_set_at_const(vs.drop_last(), v, p);
    }
}

/// Bundling any positive number of copies of one vector returns that vector.
pub proof fn lemma_bundle_of_copies(vs: Seq<Seq<bool>>, v: Seq<bool>)
    requires
        vs.len() > 0,
        forall|k: int| 0 <= k < vs.len() ==> vs[k] == v,
    ensures
        majority_bits(vs, v.len()) == v,
{
    assert forall|p: int| 0 <= p < v.len() implies majority_bits(vs, v.len())[p] == v[p] by {
        lemma_count_set_at_const(vs, v, p);
    }
    assert(majority_bits(vs, v.len()) =~= v);
}

/// Binds two equal-width vectors: bitwise exclusive or, word by word. The
/// result is dissimilar to both inputs yet reversible: binding with `b`
/// again restores `a` (`lemma_xor_involution`).
pub fn multiply(a: &Hdv, b: &Hdv) -> (r: Hdv)
    requires
        a.wf(),
        a.spec_words().len() == b.spec_words().len(),
    ensures
        r.wf(),
        r.spec_words().len() == a.spec_words().len(),
        r@ == xor_bits(a@, b@),
{
    let n = a.word_len();
    let mut v: Vec<u64> = Vec::new();
    let mut i: usize = 0;
    while i < n
        invariant
            i <= n,
            n == a.spec_words().len(),
            b.spec_words().len() == n,
            a.wf(),
            v@.len() == i,
            forall|p: int| 0 <= p < 64 * i ==> bits_of(v@)[p] == (a@[p] != b@[p]),
        decreases n - i,
    {
        let ghost vs0 = v@;
        let x = a.word_at(i);
        let y = b.word_at(i);
        v.push(x ^ y);
        proof {
            lemma_word_bit_xor(x, y);
            assert forall|p: int| 0 <= p < 64 * (i + 1) implies bits_of(v@)[p] == (a@[p] != b@[p]) by {
                lemma_bits_of_push_index(vs0, x ^ y, p);
                if p >= 64 * i {
                    lemma_bits_of_word_index(a.spec_words(), i as int, p - 64 * i);
                    lemma_bits_of_word_index(b.spec_words(), i as int, p - 64 * i);
                }
            }
        }
        i = i + 1;
    }
    proof {
        assert(bits_of(v@) =~= xor_bits(a@, b@));
    }
    Hdv::from_words(v)
}

/// Cyclic rotation by `k` bit positions: position `p` of the result holds
/// bit `(p + k) mod D` of `a`. Rotating by the complement to `D` undoes it
/// (`lemma_rotl_inverse`).
pub fn permute(a: &Hdv, k: usize) -> (r: Hdv)
    requires
        a.wf(),
    ensures
        r.wf(),
        r.spec_words().len() == a.spec_words().len(),
        r@ == rotl_bits(a@, k as int),
{
    let n = a.word_len();
    if n == 0 {
        let v: Vec<u64> = Vec::new();
        return Hdv::from_words(v);
    }
    let d = n * 64;
    let kk = k % d;
    let ghost di = d as int;
    let mut v: Vec<u64> = Vec::new();
    let mut i: usize = 0;
    while i < n
        invariant
            i <= n,
            n == a.spec_words().len(),
            a.wf(),
            d == 64 * n,
            kk < d,
            kk == (k as int) % di,
            di == d,
            v@.len() == i,
            forall|p: int| 0 <= p < 64 * i ==> bits_of(v@)[p] == a@[(p + kk) % di],
        decreases n - i,
    {
        let ghost vs0 = v@;
        let mut cur: u64 = 0;
        proof {
            lemma_word_bit_zero();
        }
        let mut j: usize = 0;
        while j < 64
            invariant
                j <= 64,
                i < n,
                n == a.spec_words().len(),
                a.wf(),
                d == 64 * n,
                kk < d,
                di == d,
                forall|j2: u64|
                    j2 < j ==> #[trigger] word_bit(cur, j2) == a@[(64 * i + j2 + kk) % di],
                forall|j2: u64| j <= j2 < 64 ==> !(#[trigger] word_bit(cur, j2)),
            decreases 64 - j,
        {
            let t = 64 * i + j;
            let src = if t >= d - kk {
                t - (d - kk)
            } else {
                t + kk
            };
            proof {
                if t + kk < d {
                    lemma_small_mod((t + kk) as nat, d as nat);
                } else {
                    lemma_fundamental_div_mod_converse(t + kk, di, 1, t + kk - di);
                }
                lemma_fundamental_div_mod(src as int, 64);
                lemma_bits_of_index(a.spec_words(), src as int);
            }
            let b = get_word_bit(a.word_at(src / 64), src % 64);
            if b {
                cur = set_word_bit(cur, j);
            }
            j = j + 1;
        }
        v.push(cur);
        proof {
            assert forall|p: int| 0 <= p < 64 * (i + 1) implies bits_of(v@)[p] == a@[(p + kk)
                % di] by {
                lemma_bits_of_push_index(vs0, cur, p);
            }
        }
        i = i + 1;
    }
    proof {
        assert forall|p: int| 0 <= p < bits_of(v@).len() implies bits_of(v@)[p] == rotl_bits(
            a@,
            k as int,
        )[p] by {
            lemma_mod_add_cancel(k as int, p, di);
        }
        assert(bits_of(v@) =~= rotl_bits(a@, k as int));
    }
    Hdv::from_words(v)
}

/// Hamming distance between two equal-width vectors: how many bit positions
/// differ, counted word by word on the exclusive or.
pub fn hamming_distance(a: &Hdv, b: &Hdv) -> (d: usize)
    requires
        a.wf(),
        a.spec_words().len() == b.spec_words().len(),
    ensures
        d == hamming(a@, b@),
{
    let n = a.word_len();
    let ghost x = xor_bits(a@, b@);
    let mut d: usize = 0;
    let mut i: usize = 0;
    while i < n
        invariant
            i <= n,
            n == a.spec_words().len(),
            b.spec_words().len() == n,
            a.wf(),
            x == xor_bits(a@, b@),
            d <= 64 * i,
            d == count_true(x.take(64 * i)),
        decreases n - i,
    {
        let w = a.word_at(i) ^ b.word_at(i);
        let c = word_ones(w);
        proof {
            let ii = i as int;
            lemma_word_bit_xor(a.spec_words()[ii], b.spec_words()[ii]);
            assert forall|j: int| 0 <= j < 64 implies x.subrange(64 * ii, 64 * ii + 64)[j]
                == word_bits(w)[j] by {
                lemma_bits_of_word_index(a.spec_words(), ii, j);
                lemma_bits_of_word_index(b.spec_words(), ii, j);
            }
            assert(x.subrange(64 * ii, 64 * ii + 64) =~= word_bits(w));
            assert(x.take(64 * ii + 64) =~= x.take(64 * ii) + x.subrange(64 * ii, 64 * ii + 64));
            lemma_count_true_concat(x.take(64 * ii), x.subrange(64 * ii, 64 * ii + 64));
        }
        d = d + c;
        i = i + 1;
    }
    proof {
        assert(x.take(64 * (n as int)) =~= x);
    }
    d
}

/// Hamming distance with width checking: exactly the mismatched widths are
/// rejected.
pub fn distance(a: &Hdv, b: &Hdv) -> (r: Result<usize, HdcError>)
    requires
        a.wf(),
    ensures
        match r {
            Ok(d) => a.spec_words().len() == b.spec_words().len() && d == hamming(a@, b@),
            Err(e) => e == HdcError::DimensionMismatch && a.spec_words().len()
                != b.spec_words().len(),
        },
{
    if a.word_len() == b.word_len() {
        Ok(hamming_distance(a, b))
    } else {
        Err(HdcError::DimensionMismatch)
    }
}

/// Word-granularity rotate-and-bind: result word `i` is
/// `a.word[(i + pa) mod W] ^ b.word[(i + pb) mod W]`. This legacy coarse
/// permutation rotates whole words; `permute` is the canonical
/// bit-granularity position encoding.
pub fn pmultiply(a: &Hdv, pa: usize, b: &Hdv, pb: usize) -> (r: Hdv)
    requires
        a.wf(),
        a.spec_words().len() == b.spec_words().len(),
        a.spec_words().len() > 0,
    ensures
        r.wf(),
        r.spec_words().len() == a.spec_words().len(),
        forall|i: int|
            0 <= i < r.spec_words().len() ==> r.spec_words()[i] == (a.spec_words()[(i + pa) % (
            a.spec_words().len() as int)] ^ b.spec_words()[(i + pb) % (
            a.spec_words().len() as int)]),
{
    let n = a.word_len();
    let ghost ni = n as int;
    let pa2 = pa % n;
    let pb2 = pb % n;
    let mut v: Vec<u64> = Vec::new();
    let mut i: usize = 0;
    while i < n
        invariant
            i <= n,
            n == a.spec_words().len(),
            b.spec_words().len() == n,
            a.wf(),
            n > 0,
            ni == n,
            pa2 == (pa as int) % ni,
            pb2 == (pb as int) % ni,
            pa2 < n,
            pb2 < n,
            v@.len() == i,
            forall|t: int|
                0 <= t < i ==> v@[t] == (a.spec_words()[(t + pa) % ni] ^ b.spec_words()[(t + pb)
                    % ni]),
        decreases n - i,
    {
        let ia = if i >= n - pa2 {
            i - (n - pa2)
        } else {
            i + pa2
        };
        let ib = if i >= n - pb2 {
            i - (n - pb2)
        } else {
            i + pb2
        };
        proof {
            if i + pa2 < n {
                lemma_small_mod((i + pa2) as nat, n as nat);
            } else {
                lemma_fundamental_div_mod_converse(i + pa2, ni, 1, i + pa2 - ni);
            }
            if i + pb2 < n {
                lemma_small_mod((i + pb2) as nat, n as nat);
            } else {
                lemma_fundamental_div_mod_converse(i + pb2, ni, 1, i + pb2 - ni);
            }
            lemma_mod_add_cancel(pa as int, i as int, ni);
            lemma_mod_add_cancel(pb as int, i as int, ni);
        }
        v.push(a.word_at(ia) ^ b.word_at(ib));
        i = i + 1;
    }
    Hdv::from_words(v)
}

/// Majority vote over a non-empty family of equal-width vectors: bit `p` of
/// the result is set iff more than half of the inputs set bit `p`. An exact
/// tie (possible only for an even count) yields 0, deterministically.
pub fn add(arrays: &[&Hdv]) -> (r: Hdv)
    requires
        arrays@.len() > 0,
        forall|k: int|
            0 <= k < arrays@.len() ==> (#[trigger] arrays@[k]).wf() && arrays@[k].spec_words().len()
                == arrays@[0].spec_words().len(),
    ensures
        r.wf(),
        r.spec_words().len() == arrays@[0].spec_words().len(),
        r@ == majority_bits(ref_bit_views(arrays@), arrays@[0]@.len()),
{
    let m = arrays.len();
    let half = m / 2;
    let n = arrays[0].word_len();
    let ghost views = ref_bit_views(arrays@);
    let mut v: Vec<u64> = Vec::new();
    let mut i: usize = 0;
    while i < n
        invariant
            i <= n,
            m == arrays@.len(),
            m > 0,
            half == m / 2,
            n == arrays@[0].spec_words().len(),
            forall|k: int|
                0 <= k < arrays@.len() ==> (#[trigger] arrays@[k]).wf()
                    && arrays@[k].spec_words().len() == n,
            views == ref_bit_views(arrays@),
            v@.len() == i,
            forall|p: int|
                0 <= p < 64 * i ==> bits_of(v@)[p] == (count_set_at(views, p) > m / 2),
        decreases n - i,
    {
        let ghost vs0 = v@;
        let mut cur: u64 = 0;
        proof {
            lemma_word_bit_zero();
        }
        let mut j: usize = 0;
        while j < 64
            invariant
                j <= 64,
                i < n,
                m == arrays@.len(),
                m > 0,
                half == m / 2,
                n == arrays@[0].spec_words().len(),
                forall|k: int|
                    0 <= k < arrays@.len() ==> (#[trigger] arrays@[k]).wf()
                        && arrays@[k].spec_words().len() == n,
                views == ref_bit_views(arrays@),
                forall|j2: u64|
                    j2 < j ==> #[trigger] word_bit(cur, j2) == (count_set_at(views, 64 * i + j2)
                        > m / 2),
                forall|j2: u64| j <= j2 < 64 ==> !(#[trigger] word_bit(cur, j2)),
            decreases 64 - j,
        {
            let ghost p0 = 64 * (i as int) + j;
            let mut c: usize = 0;
            let mut k: usize = 0;
            while k < m
                invariant
                    k <= m,
                    c <= k,
                    i < n,
                    j < 64,
                    m == arrays@.len(),
                    p0 == 64 * (i as int) + j,
                    forall|t: int|
                        0 <= t < arrays@.len() ==> (#[trigger] arrays@[t]).wf()
                            && arrays@[t].spec_words().len() == n,
                    views == ref_bit_views(arrays@),
                    c == count_set_at(views.take(k as int), p0),
                decreases m - k,
            {
                let w = arrays[k].word_at(i);
                proof {
                    lemma_count_set_at_take_snoc(views, k as int, p0);
                    lemma_bits_of_word_index(arrays@[k as int].spec_words(), i as int, j as int);
                }
                if get_word_bit(w, j) {
                    c = c + 1;
                }
                k = k + 1;
            }
            proof {
                assert(views.take(m as int) =~= views);
            }
            if c > half {
                cur = set_word_bit(cur, j);
            }
            j = j + 1;
        }
        v.push(cur);
        proof {
            assert forall|p: int| 0 <= p < 64 * (i + 1) implies bits_of(v@)[p] == (count_set_at(
                views,
                p,
            ) > m / 2) by {
                lemma_bits_of_push_index(vs0, cur, p);
            }
        }
        i = i + 1;
    }
    proof {
        assert(bits_of(v@) =~= majority_bits(views, arrays@[0]@.len()));
    }
    Hdv::from_words(v)
}

/// Majority vote over owned vectors; the same vote as `add`.
pub fn add2(arrays: &[Hdv]) -> (r: Hdv)
    requires
        arrays@.len() > 0,
        forall|k: int|
            0 <= k < arrays@.len() ==> (#[trigger] arrays@[k]).wf() && arrays@[k].spec_words().len()
                == arrays@[0].spec_words().len(),
    ensures
        r.wf(),
        r.spec_words().len() == arrays@[0].spec_words().len(),
        r@ == majority_bits(bit_views(arrays@), arrays@[0]@.len()),
{
    let m = arrays.len();
    let mut refs: Vec<&Hdv> = Vec::new();
    let mut k: usize = 0;
    while k < m
        invariant
            k <= m,
            m == arrays@.len(),
            refs@.len() == k,
            forall|t: int| 0 <= t < k ==> *(#[trigger] refs@[t]) == arrays@[t],
        decreases m - k,
    {
        refs.push(&arrays[k]);
        k = k + 1;
    }
    let r = crate::ops::add(refs.as_slice());
    proof {
        assert forall|t: int| 0 <= t < m implies ref_bit_views(refs@)[t] == bit_views(arrays@)[t] by {
            assert(*refs@[t] == arrays@[t]);
        }
        assert(ref_bit_views(refs@) =~= bit_views(arrays@));
    }
    r
}

/// Batch majority bundling with input checking: zero vectors are refused as
/// `EmptyInput`, differing widths as `DimensionMismatch`; everything else
/// bundles.
pub fn bundle(arrays: &[Hdv]) -> (r: Result<Hdv, HdcError>)
    requires
        forall|k: int| 0 <= k < arrays@.len() ==> (#[trigger] arrays@[k]).wf(),
    ensures
        match r {
            Ok(v) => arrays@.len() > 0 && (forall|k: int|
                0 <= k < arrays@.len() ==> (#[trigger] arrays@[k]).spec_words().len()
                    == arrays@[0].spec_words().len()) && v.wf() && v.spec_words().len()
                == arrays@[0].spec_words().len() && v@ == majority_bits(
                bit_views(arrays@),
                arrays@[0]@.len(),
            ),
            Err(e) => if arrays@.len() == 0 {
                e == HdcError::EmptyInput
            } else {
                e == HdcError::DimensionMismatch && exists|k: int|
                    0 <= k < arrays@.len() && (#[trigger] arrays@[k]).spec_words().len()
                        != arrays@[0].spec_words().len()
            },
        },
{
    let m = arrays.len();
    if m == 0 {
        return Err(HdcError::EmptyInput);
    }
    let n = arrays[0].word_len();
    let mut k: usize = 1;
    while k < m
        invariant
            1 <= k <= m,
            m == arrays@.len(),
            n == arrays@[0].spec_words().len(),
            forall|t: int| 0 <= t < k ==> (#[trigger] arrays@[t]).spec_words().len() == n,
        decreases m - k,
    {
        if arrays[k].word_len() != n {
            return Err(HdcError::DimensionMismatch);
        }
        k = k + 1;
    }
    Ok(add2(arrays))
}

} // verus!
