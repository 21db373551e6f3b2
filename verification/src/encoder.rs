//! The rolling n-gram encoder: a sliding window over the last `n` symbols,
//! combined into one hypervector by rank-rotated binding and updated
//! incrementally — the aged-out symbol is explicitly unbound, so the update
//! is provably identical to recombining the window from scratch.

use crate::accumulator::BitAccumulator;
use crate::bits::lemma_rotl_rotl;
use crate::bits::lemma_rotl_xor;
use crate::bits::lemma_rotl_zero;
use crate::bits::lemma_rotl_zero_bits;
use crate::bits::lemma_xor_involution;
use crate::bits::lemma_xor_zero;
use crate::bits::rotl_bits;
use crate::bits::xor_bits;
use crate::bits::zero_bits;
use crate::hdv::Hdv;
use crate::ops::count_set_at;
use crate::ops::lemma_count_set_at_push;
use crate::ops::multiply;
use crate::ops::permute;
use crate::symbols::SymbolTable;
use vstd::math::min;
use vstd::prelude::*;

verus! {

broadcast use crate::bits::lemma_bits_of_len;

/// The n-gram vector of a window of symbols (most recent first): the binding
/// of each symbol's vector rotated by its rank in the window.
pub open spec fn ngram_bits(win: Seq<char>, tv: Map<u32, Seq<bool>>, d: nat) -> Seq<bool>
    decreases win.len(),
{
    if win.len() == 0 {
        zero_bits(d)
    } else {
        xor_bits(
            ngram_bits(win.drop_last(), tv, d),
            rotl_bits(tv[win.last() as u32], win.len() - 1),
        )
    }
}

/// An n-gram vector has the nominal width whatever the window holds.
pub proof fn lemma_ngram_bits_len(win: Seq<char>, tv: Map<u32, Seq<bool>>, d: nat)
    ensures
        ngram_bits(win, tv, d).len() == d,
    decreases win.len(),
{
    if win.len() > 0 {
        lemma_ngram_bits_len(win.drop_last(), tv, d);
    }
}

/// Growing the table does not change the n-gram of an already-assigned window.
pub proof fn lemma_ngram_bits_extend(
    win: Seq<char>,
    tv1: Map<u32, Seq<bool>>,
    tv2: Map<u32, Seq<bool>>,
    d: nat,
)
    requires
        forall|j: int| 0 <= j < win.len() ==> tv1.contains_key(#[trigger] win[j] as u32),
        forall|c: u32|
            #[trigger] tv1.contains_key(c) ==> tv2.contains_key(c) && tv2[c] == tv1[c],
    ensures
        ngram_bits(win, tv2, d) == ngram_bits(win, tv1, d),
    decreases win.len(),
{
    if win.len() > 0 {
        let u = win.drop_last();
        assert forall|j: int| 0 <= j < u.len() implies tv1.contains_key(#[trigger] u[j] as u32) by {
            assert(u[j] == win[j]);
            assert(tv1.contains_key(win[j] as u32));
        }
        lemma_ngram_bits_extend(u, tv1, tv2, d);
        assert(win[win.len() - 1] == win.last());
        assert(tv1.contains_key(win.last() as u32));
        assert(tv2[win.last() as u32] == tv1[win.last() as u32]);
    }
}

/// Prepending a symbol to a window shifts every rank up by one and binds the
/// new symbol's vector at rank zero.
pub proof fn lemma_ngram_bits_cons(win: Seq<char>, c: char, tv: Map<u32, Seq<bool>>, d: nat)
    requires
        tv.contains_key(c as u32),
        tv[c as u32].len() == d,
        forall|j: int|
            0 <= j < win.len() ==> tv.contains_key(#[trigger] win[j] as u32) && tv[win[j] as u32].len()
                == d,
    ensures
        ngram_bits(seq![c] + win, tv, d) == xor_bits(
            rotl_bits(ngram_bits(win, tv, d), 1),
            tv[c as u32],
        ),
    decreases win.len(),
{
    let cw = seq![c] + win;
    lemma_ngram_bits_len(win, tv, d);
    if win.len() == 0 {
        assert(cw.drop_last() =~= Seq::<char>::empty());
        assert(cw.last() == c);
        assert(ngram_bits(Seq::<char>::empty(), tv, d) == zero_bits(d));
        assert(ngram_bits(cw, tv, d) == xor_bits(zero_bits(d), rotl_bits(tv[c as u32], 0)));
        lemma_rotl_zero(tv[c as u32]);
        lemma_xor_zero(tv[c as u32]);
        assert(ngram_bits(cw, tv, d) == tv[c as u32]);
        lemma_rotl_zero_bits(d, 1);
        assert(rotl_bits(ngram_bits(win, tv, d), 1) == zero_bits(d));
        assert(xor_bits(rotl_bits(ngram_bits(win, tv, d), 1), tv[c as u32]) == tv[c as u32]);
    } else {
        let u = win.drop_last();
        let b = win.last();
        let m = win.len() as int;
        assert(cw.drop_last() =~= seq![c] + u);
        assert(cw.last() == b);
        assert(forall|j: int| 0 <= j < u.len() ==> u[j] == win[j]);
        assert(win[win.len() - 1] == b);
        lemma_ngram_bits_cons(u, c, tv, d);
        lemma_ngram_bits_len(u, tv, d);
        lemma_rotl_xor(ngram_bits(u, tv, d), rotl_bits(tv[b as u32], m - 1), 1);
        lemma_rotl_rotl(tv[b as u32], m - 1, 1);
        assert(ngram_bits(cw, tv, d) =~= xor_bits(
            rotl_bits(ngram_bits(win, tv, d), 1),
            tv[c as u32],
        ));
    }
}

/// How many symbols the window holds after position `i` of a stream: the
/// stream prefix length, capped at `n`.
pub open spec fn window_len(n: nat, i: int) -> nat {
    if i + 1 <= 0 {
        0nat
    } else if i + 1 <= n {
        (i + 1) as nat
    } else {
        n
    }
}

/// The window of the last up-to-`n` symbols ending at position `i` of the
/// stream, most recent first.
pub open spec fn window_at(s: Seq<char>, n: nat, i: int) -> Seq<char> {
    Seq::new(window_len(n, i), |j: int| s[i - j])
}

/// How many n-grams a stream of `s_len` symbols emits: one per position from
/// `n - 1` on.
pub open spec fn emitted_count(s_len: nat, n: nat) -> nat {
    if s_len + 1 > n {
        (s_len + 1 - n) as nat
    } else {
        0
    }
}

/// Every n-gram a stream emits, in order: the from-scratch combination of the
/// full window ending at each position from `n - 1` on.
pub open spec fn ngrams_of(s: Seq<char>, n: nat, tv: Map<u32, Seq<bool>>, d: nat) -> Seq<
    Seq<bool>,
> {
    Seq::new(emitted_count(s.len(), n), |t: int| ngram_bits(window_at(s, n, t + n - 1), tv, d))
}

/// Growing the table does not change the n-grams of an already-assigned
/// stream.
pub proof fn lemma_ngrams_of_extend(
    s: Seq<char>,
    n: nat,
    tv1: Map<u32, Seq<bool>>,
    tv2: Map<u32, Seq<bool>>,
    d: nat,
)
    requires
        1 <= n,
        forall|j: int| 0 <= j < s.len() ==> tv1.contains_key(#[trigger] s[j] as u32),
        forall|c: u32|
            #[trigger] tv1.contains_key(c) ==> tv2.contains_key(c) && tv2[c] == tv1[c],
    ensures
        ngrams_of(s, n, tv2, d) == ngrams_of(s, n, tv1, d),
{
    assert forall|t: int| 0 <= t < emitted_count(s.len(), n) implies ngrams_of(s, n, tv2, d)[t]
        == ngrams_of(s, n, tv1, d)[t] by {
        let w = window_at(s, n, t + n - 1);
        assert forall|j: int| 0 <= j < w.len() implies tv1.contains_key(#[trigger] w[j] as u32) by {
            assert(w[j] == s[t + n - 1 - j]);
            assert(tv1.contains_key(s[t + n - 1 - j] as u32));
        }
        lemma_ngram_bits_extend(w, tv1, tv2, d);
    }
    assert(ngrams_of(s, n, tv2, d) =~= ngrams_of(s, n, tv1, d));
}

/// The window sliding one symbol forward is the window ending one position
/// later.
pub proof fn lemma_window_at_cons(s: Seq<char>, n: nat, i: int)
    requires
        1 <= n,
        0 <= i < s.len(),
    ensures
        (seq![s[i]] + window_at(s, n, i - 1)).take(
            min(n as int, window_at(s, n, i - 1).len() as int + 1),
        ) == window_at(s, n, i),
{
    let w = window_at(s, n, i - 1);
    let m = min(n as int, w.len() as int + 1);
    let cons = seq![s[i]] + w;
    assert forall|j: int| 0 <= j < m implies cons.take(m)[j] == window_at(s, n, i)[j] by {
        if j == 0 {
            assert(cons[0] == s[i]);
        } else {
            assert(cons[j] == w[j - 1]);
            assert(w[j - 1] == s[i - j]);
        }
    }
    assert(cons.take(m) =~= window_at(s, n, i));
}

/// One more position past the warm-up appends the n-gram of the window
/// ending there.
pub proof fn lemma_ngrams_of_snoc(s: Seq<char>, n: nat, tv: Map<u32, Seq<bool>>, d: nat, i: int)
    requires
        1 <= n,
        0 <= i < s.len(),
        i + 1 >= n,
    ensures
        ngrams_of(s.take(i + 1), n, tv, d) == ngrams_of(s.take(i), n, tv, d).push(
            ngram_bits(window_at(s, n, i), tv, d),
        ),
{
    let a = ngrams_of(s.take(i + 1), n, tv, d);
    let b = ngrams_of(s.take(i), n, tv, d).push(ngram_bits(window_at(s, n, i), tv, d));
    assert(a.len() == b.len());
    assert forall|t: int| 0 <= t < a.len() implies a[t] == b[t] by {
        let e = t + n - 1;
        if t < a.len() - 1 {
            assert(window_at(s.take(i + 1), n, e) =~= window_at(s.take(i), n, e));
        } else {
            assert(e == i);
            assert(window_at(s.take(i + 1), n, e) =~= window_at(s, n, i));
        }
    }
    assert(a =~= b);
}

/// Incremental encoder state: the last up-to-`n` symbols, most recent first,
/// and their combined n-gram vector.
pub struct RollingNGramEncoder {
    n: usize,
    window: Vec<char>,
    ngram: Hdv,
}

impl RollingNGramEncoder {
    /// The window size.
    pub closed spec fn spec_n(&self) -> nat {
        self.n as nat
    }

    /// The symbols of the window, most recent first.
    pub closed spec fn spec_window(&self) -> Seq<char> {
        self.window@
    }

    /// The bits of the current combined n-gram.
    pub closed spec fn spec_ngram(&self) -> Seq<bool> {
        self.ngram@
    }

    /// The width in bits.
    pub open spec fn spec_d(&self) -> nat {
        self.spec_ngram().len()
    }

    /// The encoder is consistent with the table: the window fits, all its
    /// symbols are assigned vectors of the right width, and the held n-gram
    /// equals the from-scratch combination of the window.
    pub closed spec fn wf(&self, tv: Map<u32, Seq<bool>>) -> bool {
        &&& 1 <= self.n
        &&& self.window@.len() <= self.n
        &&& self.ngram.wf()
        &&& forall|j: int|
            0 <= j < self.window@.len() ==> tv.contains_key(#[trigger] self.window@[j] as u32)
                && tv[self.window@[j] as u32].len() == self.ngram@.len()
        &&& self.ngram@ == ngram_bits(self.window@, tv, self.ngram@.len())
    }

    /// A fresh encoder for `n`-grams over vectors of `words` words. It is
    /// consistent with every table, having seen nothing yet.
    pub fn new(n: usize, words: usize) -> (r: RollingNGramEncoder)
        requires
            1 <= n,
            64 * words <= usize::MAX,
        ensures
            r.spec_n() == n,
            r.spec_window().len() == 0,
            r.spec_d() == 64 * words,
            forall|tv: Map<u32, Seq<bool>>| r.wf(tv),
    {
        let ngram = Hdv::zeros(words);
        let r = RollingNGramEncoder { n, window: Vec::new(), ngram };
        proof {
            assert forall|tv: Map<u32, Seq<bool>>| r.wf(tv) by {
                assert(r.ngram@ == ngram_bits(r.window@, tv, r.ngram@.len()));
            }
        }
        r
    }

    /// Feeds one symbol: the window slides forward and the n-gram is updated
    /// incrementally — once the window is full, the oldest symbol's rotated
    /// vector is bound in again, which cancels it, before the shift and the
    /// new binding. Emits the n-gram of the last `n` symbols once the window
    /// is full; the emitted vector provably equals the from-scratch
    /// combination of that window.
    pub fn feed(&mut self, c: char, table: &mut SymbolTable) -> (emitted: Option<Hdv>)
        requires
            old(self).wf(old(table)@),
            old(table).wf(),
            old(self).spec_d() == 64 * old(table).spec_word_len(),
        ensures
            final(table).wf(),
            final(table).spec_word_len() == old(table).spec_word_len(),
            forall|k: u32|
                #[trigger] old(table)@.dom().contains(k) ==> final(table)@.contains_key(k)
                    && final(table)@[k] == old(table)@[k],
            final(table)@ == old(table)@.insert(c as u32, final(table)@[c as u32]),
            final(self).wf(final(table)@),
            final(self).spec_n() == old(self).spec_n(),
            final(self).spec_d() == old(self).spec_d(),
            final(self).spec_window() == (seq![c] + old(self).spec_window()).take(
                min(old(self).spec_n() as int, old(self).spec_window().len() as int + 1),
            ),
            match emitted {
                Some(v) => {
                    &&& final(self).spec_window().len() == final(self).spec_n()
                    &&& v.wf()
                    &&& v@.len() == final(self).spec_d()
                    &&& v@ == ngram_bits(
                        final(self).spec_window(),
                        final(table)@,
                        final(self).spec_d(),
                    )
                },
                None => old(self).spec_window().len() + 1 < old(self).spec_n(),
            },
    {
        let ghost tv0 = old(table)@;
        let ghost w0 = self.window@;
        let ghost d = self.ngram@.len();
        let v_new = table.get_or_assign(c);
        let ghost tv1 = table@;
        proof {
            // the held n-gram is unchanged by the table growing
            lemma_ngram_bits_extend(w0, tv0, tv1, d);
        }
        if self.window.len() == self.n {
            // full window: unbind the oldest symbol, shift ranks, bind anew
            let oldest = match self.window.pop() {
                Some(x) => x,
                None => c,
            };
            let ov = match table.get(oldest) {
                Ok(v) => v,
                Err(_) => {
                    proof {
                        assert(tv1.contains_key(w0[w0.len() - 1] as u32));
                        assert(false);
                    }
                    Hdv::zeros(0)
                },
            };
            proof {
                assert(w0[w0.len() - 1] == w0.last());
            }
            let p1 = permute(&ov, self.n - 1);
            let t1 = multiply(&self.ngram, &p1);
            proof {
                // binding the oldest rotated vector back in cancels it
                lemma_ngram_bits_len(w0.drop_last(), tv1, d);
                lemma_xor_involution(
                    ngram_bits(w0.drop_last(), tv1, d),
                    rotl_bits(tv1[w0.last() as u32], w0.len() - 1),
                );
            }
            let t2 = permute(&t1, 1);
            let bound = multiply(&t2, &v_new);
            self.ngram = bound;
            self.window.insert(0, c);
            proof {
                assert(self.window@ =~= seq![c] + w0.drop_last());
                assert(forall|j: int| 0 <= j < w0.len() - 1 ==> w0.drop_last()[j] == w0[j]);
                lemma_ngram_bits_cons(w0.drop_last(), c, tv1, d);
                assert(self.window@ =~= (seq![c] + w0).take(min(self.n as int, w0.len() as int + 1)));
            }
            Some(self.ngram.duplicate())
        } else {
            let t2 = permute(&self.ngram, 1);
            let bound = multiply(&t2, &v_new);
            self.ngram = bound;
            self.window.insert(0, c);
            proof {
                assert(self.window@ =~= seq![c] + w0);
                lemma_ngram_bits_cons(w0, c, tv1, d);
                assert(self.window@ =~= (seq![c] + w0).take(min(self.n as int, w0.len() as int + 1)));
            }
            if self.window.len() == self.n {
                Some(self.ngram.duplicate())
            } else {
                None
            }
        }
    }
}

/// Encodes one symbol stream: every symbol is fed to a fresh rolling encoder
/// and each full-window n-gram is tallied into `acc`. The counters grow by
/// exactly the per-position counts of the from-scratch n-grams of the whole
/// stream, read against the table as it stands after the call: the
/// incremental sliding-window update and recomputing every window agree.
pub fn encode_stream(
    chars: &Vec<char>,
    n: usize,
    table: &mut SymbolTable,
    acc: &mut BitAccumulator,
)
    requires
        1 <= n,
        old(table).wf(),
        old(acc).wf(),
        old(acc).spec_counts().len() == 64 * old(table).spec_word_len(),
        old(acc).spec_total() + chars@.len() <= usize::MAX,
    ensures
        final(table).wf(),
        final(table).spec_word_len() == old(table).spec_word_len(),
        forall|k: u32|
            #[trigger] old(table)@.dom().contains(k) ==> final(table)@.contains_key(k)
                && final(table)@[k] == old(table)@[k],
        final(acc).wf(),
        final(acc).spec_counts().len() == old(acc).spec_counts().len(),
        final(acc).spec_total() == old(acc).spec_total() + emitted_count(chars@.len(), n as nat),
        forall|p: int|
            0 <= p < final(acc).spec_counts().len() ==> final(acc).spec_counts()[p] == old(
                acc,
            ).spec_counts()[p] + count_set_at(
                ngrams_of(
                    chars@,
                    n as nat,
                    final(table)@,
                    (64 * old(table).spec_word_len()) as nat,
                ),
                p,
            ),
{
    let ghost d = (64 * old(table).spec_word_len()) as nat;
    let ghost tv0 = old(table)@;
    let ghost wl0 = old(table).spec_word_len();
    let ghost counts0 = old(acc).spec_counts();
    let ghost total0 = old(acc).spec_total();
    proof {
        table.lemma_wf_width();
    }
    let mut enc = RollingNGramEncoder::new(n, table.word_len());
    proof {
        assert(window_at(chars@, n as nat, -1) =~= Seq::<char>::empty());
    }
    let len = chars.len();
    let mut i: usize = 0;
    while i < len
        invariant
            i <= len,
            len == chars@.len(),
            1 <= n,
            table.wf(),
            table.spec_word_len() == wl0,
            d == 64 * wl0,
            forall|k: u32|
                #[trigger] tv0.dom().contains(k) ==> table@.contains_key(k) && table@[k]
                    == tv0[k],
            forall|j: int| 0 <= j < i ==> table@.contains_key(#[trigger] chars@[j] as u32),
            enc.wf(table@),
            enc.spec_n() == n,
            enc.spec_d() == d,
            enc.spec_window() == window_at(chars@, n as nat, i as int - 1),
            acc.wf(),
            acc.spec_counts().len() == d,
            counts0.len() == d,
            acc.spec_total() == total0 + emitted_count(i as nat, n as nat),
            total0 + chars@.len() <= usize::MAX,
            forall|p: int|
                0 <= p < d ==> acc.spec_counts()[p] == counts0[p] + count_set_at(
                    ngrams_of(chars@.take(i as int), n as nat, table@, d),
                    p,
                ),
        decreases len - i,
    {
        let ghost tv_pre = table@;
        let c = chars[i];
        let em = enc.feed(c, table);
        let ghost tv_post = table@;
        proof {
            assert(chars@[i as int] == c);
            assert forall|j: int| 0 <= j < i implies tv_pre.contains_key(
                #[trigger] chars@.take(i as int)[j] as u32,
            ) by {
                assert(chars@.take(i as int)[j] == chars@[j]);
            }
            lemma_ngrams_of_extend(chars@.take(i as int), n as nat, tv_pre, tv_post, d);
            lemma_window_at_cons(chars@, n as nat, i as int);
            assert forall|k: u32| #[trigger] tv0.dom().contains(k) implies table@.contains_key(k)
                && table@[k] == tv0[k] by {
                assert(tv0.contains_key(k));
                assert(tv_pre.contains_key(k) && tv_pre[k] == tv0[k]);
                assert(tv_post.contains_key(k) && tv_post[k] == tv_pre[k]);
            }
        }
        match em {
            Some(v) => {
                proof {
                    lemma_ngrams_of_snoc(chars@, n as nat, tv_post, d, i as int);
                }
                acc.accumulate(&v);
                proof {
                    assert forall|p: int| 0 <= p < d implies acc.spec_counts()[p] == counts0[p]
                        + count_set_at(
                        ngrams_of(chars@.take(i as int + 1), n as nat, tv_post, d),
                        p,
                    ) by {
                        lemma_count_set_at_push(
                            ngrams_of(chars@.take(i as int), n as nat, tv_post, d),
                            v@,
                            p,
                        );
                    }
                }
            },
            None => {
                proof {
                    assert(ngrams_of(chars@.take(i as int + 1), n as nat, tv_post, d) =~= ngrams_of(
                        chars@.take(i as int),
                        n as nat,
                        tv_post,
                        d,
                    ));
                }
            },
        }
        i = i + 1;
    }
    proof {
        assert(chars@.take(len as int) =~= chars@);
    }
}

} // verus!
