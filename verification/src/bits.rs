//! The mathematical model of a hypervector: a sequence of bits, together with
//! the word-level facts that connect the model to the packed representation,
//! and the algebraic laws of binding, rotation and Hamming distance.

use vstd::arithmetic::div_mod::lemma_add_mod_noop;
use vstd::arithmetic::div_mod::lemma_fundamental_div_mod_converse;
use vstd::arithmetic::div_mod::lemma_mod_twice;
use vstd::arithmetic::div_mod::lemma_small_mod;
use vstd::prelude::*;

verus! {

/// True iff bit `j` of the word `w` is set; meaningful for `j < 64`.
pub open spec fn word_bit(w: u64, j: u64) -> bool {
    (w >> j) & 1u64 == 1u64
}

/// The 64 bits of a word, least significant first.
pub open spec fn word_bits(w: u64) -> Seq<bool> {
    Seq::new(64, |j: int| word_bit(w, j as u64))
}

/// The bits of a sequence of words, word by word, least significant bit first.
pub open spec fn bits_of(ws: Seq<u64>) -> Seq<bool>
    decreases ws.len(),
{
    if ws.len() == 0 {
        Seq::empty()
    } else {
        bits_of(ws.drop_last()) + word_bits(ws.last())
    }
}

/// Pointwise exclusive or of two equal-length bit sequences.
pub open spec fn xor_bits(a: Seq<bool>, b: Seq<bool>) -> Seq<bool> {
    Seq::new(a.len(), |p: int| a[p] != b[p])
}

/// Cyclic rotation: position `p` of the result holds bit `(p + k) mod len`.
pub open spec fn rotl_bits(s: Seq<bool>, k: int) -> Seq<bool> {
    if s.len() == 0 {
        s
    } else {
        Seq::new(s.len(), |p: int| s[(p + k) % (s.len() as int)])
    }
}

/// How many bits of `s` are set.
pub open spec fn count_true(s: Seq<bool>) -> nat
    decreases s.len(),
{
    if s.len() == 0 {
        0
    } else {
        count_true(s.drop_last()) + if s.last() {
            1nat
        } else {
            0nat
        }
    }
}

/// Hamming distance: how many positions of two equal-length sequences differ.
pub open spec fn hamming(a: Seq<bool>, b: Seq<bool>) -> nat {
    count_true(xor_bits(a, b))
}

/// The all-zero bit sequence of length `d`.
pub open spec fn zero_bits(d: nat) -> Seq<bool> {
    Seq::new(d, |p: int| false)
}

/// Bit `j2` of `w | (1 << j)`: bit `j` becomes set, every other bit keeps its value.
pub proof fn lemma_word_bit_set(w: u64, j: u64)
    by (bit_vector)
    requires
        j < 64,
    ensures
        forall|j2: u64|
            j2 < 64 ==> #[trigger] word_bit(w | (1u64 << j), j2) == (j2 == j || word_bit(w, j2)),
{
}

/// Exclusive or acts bitwise on words.
pub proof fn lemma_word_bit_xor(x: u64, y: u64)
    by (bit_vector)
    ensures
        forall|j: u64| j < 64 ==> #[trigger] word_bit(x ^ y, j) == (word_bit(x, j) != word_bit(
            y,
            j,
        )),
{
}

/// Complement acts bitwise on words.
pub proof fn lemma_word_bit_not(x: u64)
    by (bit_vector)
    ensures
        forall|j: u64| j < 64 ==> #[trigger] word_bit(!x, j) == !word_bit(x, j),
{
}

/// The zero word has no set bit.
pub proof fn lemma_word_bit_zero()
    by (bit_vector)
    ensures
        forall|j: u64| j < 64 ==> !#[trigger] word_bit(0u64, j),
{
}

/// `bits_of` yields 64 bits per word.
pub broadcast proof fn lemma_bits_of_len(ws: Seq<u64>)
    ensures
        (#[trigger] bits_of(ws)).len() == 64 * ws.len(),
    decreases ws.len(),
{
    if ws.len() > 0 {
        lemma_bits_of_len(ws.drop_last());
    }
}

/// Position `p` of `bits_of(ws)` is bit `p mod 64` of word `p div 64`.
pub proof fn lemma_bits_of_index(ws: Seq<u64>, p: int)
    requires
        0 <= p < 64 * ws.len(),
    ensures
        0 <= p / 64 < ws.len(),
        0 <= p % 64 < 64,
        bits_of(ws)[p] == word_bit(ws[p / 64], (p % 64) as u64),
    decreases ws.len(),
{
    lemma_bits_of_len(ws);
    lemma_bits_of_len(ws.drop_last());
    let m = ws.len() - 1;
    if p < 64 * m {
        lemma_bits_of_index(ws.drop_last(), p);
    } else {
        lemma_fundamental_div_mod_converse(p, 64, m as int, p - 64 * m);
    }
}

/// Bit `j` of word `i` sits at position `64 * i + j` of `bits_of(ws)`.
pub proof fn lemma_bits_of_word_index(ws: Seq<u64>, i: int, j: int)
    requires
        0 <= i < ws.len(),
        0 <= j < 64,
    ensures
        0 <= 64 * i + j < 64 * ws.len(),
        bits_of(ws)[64 * i + j] == word_bit(ws[i], j as u64),
{
    lemma_fundamental_div_mod_converse(64 * i + j, 64, i, j);
    lemma_bits_of_index(ws, 64 * i + j);
}

/// Appending a word appends that word's bits.
pub proof fn lemma_bits_of_push(ws: Seq<u64>, w: u64)
    ensures
        bits_of(ws.push(w)) == bits_of(ws) + word_bits(w),
{
    assert(ws.push(w).drop_last() =~= ws);
}

/// How each position of `bits_of(ws.push(w))` relates to the old bits and `w`.
pub proof fn lemma_bits_of_push_index(ws: Seq<u64>, w: u64, p: int)
    requires
        0 <= p < 64 * ws.len() + 64,
    ensures
        bits_of(ws.push(w)).len() == 64 * ws.len() + 64,
        p < 64 * ws.len() ==> bits_of(ws.push(w))[p] == bits_of(ws)[p],
        p >= 64 * ws.len() ==> bits_of(ws.push(w))[p] == word_bit(w, (p - 64 * ws.len()) as u64),
{
    lemma_bits_of_len(ws.push(w));
    lemma_bits_of_len(ws);
    lemma_bits_of_index(ws.push(w), p);
    if p < 64 * ws.len() {
        lemma_bits_of_index(ws, p);
    } else {
        lemma_fundamental_div_mod_converse(p, 64, ws.len() as int, p - 64 * ws.len());
    }
}

/// Counting set bits distributes over concatenation.
pub proof fn lemma_count_true_concat(a: Seq<bool>, b: Seq<bool>)
    ensures
        count_true(a + b) == count_true(a) + count_true(b),
    decreases b.len(),
{
    if b.len() == 0 {
        assert(a + b =~= a);
    } else {
        lemma_count_true_concat(a, b.drop_last());
        assert((a + b).drop_last() =~= a + b.drop_last());
    }
}

/// One more position adds one set bit exactly when that position is set.
pub proof fn lemma_count_true_take_snoc(s: Seq<bool>, k: int)
    requires
        0 <= k < s.len(),
    ensures
        count_true(s.take(k + 1)) == count_true(s.take(k)) + if s[k] {
            1int
        } else {
            0int
        },
{
    assert(s.take(k + 1).drop_last() =~= s.take(k));
}

/// A sequence with no set position has count zero.
pub proof fn lemma_count_true_all_false(s: Seq<bool>)
    requires
        forall|p: int| 0 <= p < s.len() ==> !s[p],
    ensures
        count_true(s) == 0,
    decreases s.len(),
{
    if s.len() > 0 {
        lemma_count_true_all_false(s.drop_last());
    }
}

/// A sequence with count zero has no set position.
pub proof fn lemma_count_true_zero_all_false(s: Seq<bool>)
    requires
        count_true(s) == 0,
    ensures
        forall|p: int| 0 <= p < s.len() ==> !s[p],
    decreases s.len(),
{
    if s.len() > 0 {
        lemma_count_true_zero_all_false(s.drop_last());
        assert(forall|p: int| 0 <= p < s.len() - 1 ==> s[p] == s.drop_last()[p]);
    }
}

/// Complementary sequences together have exactly one set bit per position.
pub proof fn lemma_count_true_complement(a: Seq<bool>, b: Seq<bool>)
    requires
        a.len() == b.len(),
        forall|p: int| 0 <= p < a.len() ==> b[p] == !a[p],
    ensures
        count_true(a) + count_true(b) == a.len(),
    decreases a.len(),
{
    if a.len() > 0 {
        lemma_count_true_complement(a.drop_last(), b.drop_last());
    }
}

/// Reducing one summand before adding does not change the remainder.
pub proof fn lemma_mod_add_cancel(a: int, k: int, d: int)
    requires
        d > 0,
    ensures
        ((a % d) + k) % d == (a + k) % d,
{
    lemma_add_mod_noop(a, k, d);
    lemma_add_mod_noop(a % d, k, d);
    lemma_mod_twice(a, d);
}

/// Binding is self-inverse: binding with `b` twice restores `a`.
pub proof fn lemma_xor_involution(a: Seq<bool>, b: Seq<bool>)
    requires
        a.len() == b.len(),
    ensures
        xor_bits(xor_bits(a, b), b) == a,
{
    assert(xor_bits(xor_bits(a, b), b) =~= a);
}

/// Hamming distance is symmetric.
pub proof fn lemma_hamming_symmetric(a: Seq<bool>, b: Seq<bool>)
    requires
        a.len() == b.len(),
    ensures
        hamming(a, b) == hamming(b, a),
{
    assert(xor_bits(a, b) =~= xor_bits(b, a));
}

/// A vector lies at distance zero from itself.
pub proof fn lemma_hamming_self_zero(a: Seq<bool>)
    ensures
        hamming(a, a) == 0,
{
    lemma_count_true_all_false(xor_bits(a, a));
}

/// Two vectors at distance zero are equal.
pub proof fn lemma_hamming_zero_equal(a: Seq<bool>, b: Seq<bool>)
    requires
        a.len() == b.len(),
        hamming(a, b) == 0,
    ensures
        a == b,
{
    lemma_count_true_zero_all_false(xor_bits(a, b));
    assert forall|p: int| 0 <= p < a.len() implies a[p] == b[p] by {
        assert(!xor_bits(a, b)[p]);
    }
    assert(a =~= b);
}

/// Binding both arguments with a common vector preserves their distance.
pub proof fn lemma_bind_preserves_distance(a: Seq<bool>, b: Seq<bool>, c: Seq<bool>)
    requires
        a.len() == c.len(),
        b.len() == c.len(),
    ensures
        hamming(xor_bits(a, c), xor_bits(b, c)) == hamming(a, b),
{
    assert(xor_bits(xor_bits(a, c), xor_bits(b, c)) =~= xor_bits(a, b));
}

/// A position set in `x` is set in `y` or in `z`: then `x` has no more set
/// bits than `y` and `z` together.
proof fn lemma_count_true_subadditive(x: Seq<bool>, y: Seq<bool>, z: Seq<bool>)
    requires
        x.len() == y.len(),
        y.len() == z.len(),
        forall|p: int| 0 <= p < x.len() ==> (x[p] ==> y[p] || z[p]),
    ensures
        count_true(x) <= count_true(y) + count_true(z),
    decreases x.len(),
{
    if x.len() > 0 {
        assert(forall|p: int|
            0 <= p < x.len() - 1 ==> x.drop_last()[p] == x[p] && y.drop_last()[p] == y[p]
                && z.drop_last()[p] == z[p]);
        lemma_count_true_subadditive(x.drop_last(), y.drop_last(), z.drop_last());
        assert(x.last() == x[x.len() - 1]);
    }
}

/// Hamming distance satisfies the triangle inequality.
pub proof fn lemma_hamming_triangle(a: Seq<bool>, b: Seq<bool>, c: Seq<bool>)
    requires
        a.len() == b.len(),
        b.len() == c.len(),
    ensures
        hamming(a, c) <= hamming(a, b) + hamming(b, c),
{
    lemma_count_true_subadditive(xor_bits(a, c), xor_bits(a, b), xor_bits(b, c));
}

/// Rotating by zero changes nothing.
pub proof fn lemma_rotl_zero(s: Seq<bool>)
    ensures
        rotl_bits(s, 0) == s,
{
    if s.len() > 0 {
        let d = s.len() as int;
        assert forall|p: int| 0 <= p < d implies rotl_bits(s, 0)[p] == s[p] by {
            lemma_small_mod(p as nat, d as nat);
        }
        assert(rotl_bits(s, 0) =~= s);
    }
}

/// Two rotations compose into the rotation by the sum.
pub proof fn lemma_rotl_rotl(s: Seq<bool>, j: int, k: int)
    ensures
        rotl_bits(rotl_bits(s, j), k) == rotl_bits(s, j + k),
{
    if s.len() > 0 {
        let d = s.len() as int;
        assert forall|p: int| 0 <= p < d implies rotl_bits(rotl_bits(s, j), k)[p] == rotl_bits(
            s,
            j + k,
        )[p] by {
            lemma_mod_add_cancel(p + k, j, d);
        }
        assert(rotl_bits(rotl_bits(s, j), k) =~= rotl_bits(s, j + k));
    }
}

/// Rotating by `k` and then by `-k` restores the sequence.
pub proof fn lemma_rotl_inverse(s: Seq<bool>, k: int)
    ensures
        rotl_bits(rotl_bits(s, k), -k) == s,
{
    lemma_rotl_rotl(s, k, -k);
    lemma_rotl_zero(s);
}

/// Rotation distributes over binding.
pub proof fn lemma_rotl_xor(a: Seq<bool>, b: Seq<bool>, k: int)
    requires
        a.len() == b.len(),
    ensures
        rotl_bits(xor_bits(a, b), k) == xor_bits(rotl_bits(a, k), rotl_bits(b, k)),
{
    if a.len() > 0 {
        let d = a.len() as int;
        assert forall|p: int| 0 <= p < d implies rotl_bits(xor_bits(a, b), k)[p] == xor_bits(
            rotl_bits(a, k),
            rotl_bits(b, k),
        )[p] by {
            assert(0 <= (p + k) % d < d);
        }
        assert(rotl_bits(xor_bits(a, b), k) =~= xor_bits(rotl_bits(a, k), rotl_bits(b, k)));
    }
}

/// Rotation preserves the all-zero sequence.
pub proof fn lemma_rotl_zero_bits(d: nat, k: int)
    ensures
        rotl_bits(zero_bits(d), k) == zero_bits(d),
{
    if d > 0 {
        assert forall|p: int| 0 <= p < d implies rotl_bits(zero_bits(d), k)[p] == zero_bits(d)[p] by {
            assert(0 <= (p + k) % (d as int) < d);
        }
        assert(rotl_bits(zero_bits(d), k) =~= zero_bits(d));
    }
}

/// Binding with the all-zero vector changes nothing.
pub proof fn lemma_xor_zero(a: Seq<bool>)
    ensures
        xor_bits(zero_bits(a.len()), a) == a,
        xor_bits(a, zero_bits(a.len())) == a,
{
    assert(xor_bits(zero_bits(a.len()), a) =~= a);
    assert(xor_bits(a, zero_bits(a.len())) =~= a);
}

/// Reads bit `j` of `w`.
pub fn get_word_bit(w: u64, j: usize) -> (b: bool)
    requires
        j < 64,
    ensures
        b == word_bit(w, j as u64),
{
    (w >> (j as u64)) & 1u64 == 1u64
}

/// Returns `w` with bit `j` set and every other bit unchanged.
pub fn set_word_bit(w: u64, j: usize) -> (r: u64)
    requires
        j < 64,
    ensures
        forall|j2: u64|
            j2 < 64 ==> #[trigger] word_bit(r, j2) == (j2 == j as u64 || word_bit(w, j2)),
{
    proof {
        lemma_word_bit_set(w, j as u64);
    }
    w | (1u64 << (j as u64))
}

/// Counts the set bits of one word.
pub fn word_ones(w: u64) -> (c: usize)
    ensures
        c == count_true(word_bits(w)),
        c <= 64,
{
    let mut c: usize = 0;
    let mut j: usize = 0;
    while j < 64
        invariant
            j <= 64,
            c <= j,
            c == count_true(word_bits(w).take(j as int)),
        decreases 64 - j,
    {
        proof {
            lemma_count_true_take_snoc(word_bits(w), j as int);
        }
        if get_word_bit(w, j) {
            c = c + 1;
        }
        j = j + 1;
    }
    proof {
        assert(word_bits(w).take(64) =~= word_bits(w));
    }
    c
}

} // verus!
