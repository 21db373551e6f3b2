//! Nearest-prototype classification: a query vector is compared against every
//! class prototype by Hamming distance and the closest wins, earlier classes
//! breaking ties.

use crate::accumulator::BitAccumulator;
use crate::bits::hamming;
use crate::encoder::emitted_count;
use crate::encoder::encode_stream;
use crate::encoder::ngrams_of;
use crate::hdv::Hdv;
use crate::ops::count_set_at;
use crate::ops::hamming_distance;
use crate::ops::multiply;
use crate::rng::RandSource;
use crate::symbols::SymbolTable;
use crate::HdcError;
use vstd::prelude::*;

verus! {

broadcast use crate::bits::lemma_bits_of_len;

/// The query vector a symbol stream encodes to: the majority vote, bit by
/// bit, over every n-gram the stream emits.
pub open spec fn query_bits(s: Seq<char>, n: nat, tv: Map<u32, Seq<bool>>, d: nat) -> Seq<bool> {
    Seq::new(
        d,
        |p: int| count_set_at(ngrams_of(s, n, tv, d), p) > emitted_count(s.len(), n) / 2,
    )
}

/// The index of the prototype closest to `query` in Hamming distance; among
/// equally close prototypes the first wins. Zero prototypes are refused as
/// `EmptyInput`, a prototype of another width as `DimensionMismatch`.
pub fn classify(query: &Hdv, prototypes: &[Hdv]) -> (r: Result<usize, HdcError>)
    requires
        query.wf(),
    ensures
        match r {
            Ok(i) => {
                &&& prototypes@.len() > 0
                &&& forall|j: int|
                    0 <= j < prototypes@.len() ==> (#[trigger] prototypes@[j]).spec_words().len()
                        == query.spec_words().len()
                &&& 0 <= i < prototypes@.len()
                &&& forall|j: int|
                    0 <= j < prototypes@.len() ==> hamming(query@, prototypes@[i as int]@)
                        <= hamming(query@, (#[trigger] prototypes@[j])@)
                &&& forall|j: int|
                    0 <= j < i ==> hamming(query@, (#[trigger] prototypes@[j])@) > hamming(
                        query@,
                        prototypes@[i as int]@,
                    )
            },
            Err(e) => if prototypes@.len() == 0 {
                e == HdcError::EmptyInput
            } else {
                e == HdcError::DimensionMismatch && exists|j: int|
                    0 <= j < prototypes@.len() && (#[trigger] prototypes@[j]).spec_words().len()
                        != query.spec_words().len()
            },
        },
{
    let m = prototypes.len();
    if m == 0 {
        return Err(HdcError::EmptyInput);
    }
    let qw = query.word_len();
    let mut k: usize = 0;
    while k < m
        invariant
            k <= m,
            m == prototypes@.len(),
            qw == query.spec_words().len(),
            forall|t: int| 0 <= t < k ==> (#[trigger] prototypes@[t]).spec_words().len() == qw,
        decreases m - k,
    {
        if prototypes[k].word_len() != qw {
            return Err(HdcError::DimensionMismatch);
        }
        k = k + 1;
    }
    let mut best: usize = 0;
    let mut best_d = hamming_distance(query, &prototypes[0]);
    let mut j: usize = 1;
    while j < m
        invariant
            1 <= j <= m,
            m == prototypes@.len(),
            query.wf(),
            qw == query.spec_words().len(),
            forall|t: int| 0 <= t < m ==> (#[trigger] prototypes@[t]).spec_words().len() == qw,
            best < j,
            best_d == hamming(query@, prototypes@[best as int]@),
            forall|t: int|
                0 <= t < j ==> best_d <= hamming(query@, (#[trigger] prototypes@[t])@),
            forall|t: int| 0 <= t < best ==> hamming(query@, (#[trigger] prototypes@[t])@) > best_d,
        decreases m - j,
    {
        let d = hamming_distance(query, &prototypes[j]);
        if d < best_d {
            best = j;
            best_d = d;
        }
        j = j + 1;
    }
    Ok(best)
}

/// Classifies a symbol stream: the stream is encoded through the rolling
/// n-gram encoder, its n-grams are bundled into one query vector, and the
/// nearest prototype wins. The query compared against is exactly the
/// majority vote over the from-scratch n-grams of the stream, read against
/// the table as it stands after the call.
pub fn classify_stream(
    chars: &Vec<char>,
    n: usize,
    table: &mut SymbolTable,
    prototypes: &[Hdv],
) -> (r: Result<usize, HdcError>)
    requires
        1 <= n,
        old(table).wf(),
        chars@.len() <= usize::MAX,
    ensures
        final(table).wf(),
        final(table).spec_word_len() == old(table).spec_word_len(),
        forall|k: u32|
            #[trigger] old(table)@.dom().contains(k) ==> final(table)@.contains_key(k)
                && final(table)@[k] == old(table)@[k],
        ({
            let q = query_bits(
                chars@,
                n as nat,
                final(table)@,
                (64 * old(table).spec_word_len()) as nat,
            );
            match r {
                Ok(i) => {
                    &&& prototypes@.len() > 0
                    &&& 0 <= i < prototypes@.len()
                    &&& forall|j: int|
                        0 <= j < prototypes@.len() ==> (
                        #[trigger] prototypes@[j]).spec_words().len() == old(
                            table,
                        ).spec_word_len()
                    &&& forall|j: int|
                        0 <= j < prototypes@.len() ==> hamming(q, prototypes@[i as int]@)
                            <= hamming(q, (#[trigger] prototypes@[j])@)
                    &&& forall|j: int|
                        0 <= j < i ==> hamming(q, (#[trigger] prototypes@[j])@) > hamming(
                            q,
                            prototypes@[i as int]@,
                        )
                },
                Err(e) => if prototypes@.len() == 0 {
                    e == HdcError::EmptyInput
                } else {
                    e == HdcError::DimensionMismatch && exists|j: int|
                        0 <= j < prototypes@.len() && (
                        #[trigger] prototypes@[j]).spec_words().len() != old(
                            table,
                        ).spec_word_len()
                },
            }
        }),
{
    let ghost d = (64 * old(table).spec_word_len()) as nat;
    proof {
        table.lemma_wf_width();
    }
    let mut acc = BitAccumulator::new(table.word_len());
    encode_stream(chars, n, table, &mut acc);
    let q = acc.finalize();
    proof {
        assert(q@ =~= query_bits(chars@, n as nat, table@, d));
    }
    classify(&q, prototypes)
}

/// The dollar-of-Mexico analogy. Three role vectors (name, capital, currency)
/// and nine fillers are drawn at random; two country records are bundled from
/// their role-filler bindings; binding the two records and probing with one
/// country's currency should land nearest the other country's currency.
/// Returns the index of the closest of the nine fillers, in the order
/// Sweden, United States, Mexico, Stockholm, Washington, Mexico City,
/// US dollar, Mexican peso, Swedish krona: index 7 is the expected answer at
/// widths of ten thousand bits and beyond.
pub fn example_mexican_dollar(rng: &mut RandSource, words: usize) -> (r: usize)
    requires
        64 * words <= usize::MAX,
    ensures
        r < 9,
{
    let name = Hdv::new(rng, words);
    let capital = Hdv::new(rng, words);
    let currency = Hdv::new(rng, words);

    let swe = Hdv::new(rng, words);
    let usa = Hdv::new(rng, words);
    let mex = Hdv::new(rng, words);

    let stockholm = Hdv::new(rng, words);
    let wdc = Hdv::new(rng, words);
    let cdmx = Hdv::new(rng, words);

    let usd = Hdv::new(rng, words);
    let mpe = Hdv::new(rng, words);
    let skr = Hdv::new(rng, words);

    let mut a = BitAccumulator::new(words);
    a.accumulate(&multiply(&name, &usa));
    a.accumulate(&multiply(&capital, &wdc));
    a.accumulate(&multiply(&currency, &usd));
    let ustates = a.finalize();

    let mut b = BitAccumulator::new(words);
    b.accumulate(&multiply(&name, &mex));
    b.accumulate(&multiply(&capital, &cdmx));
    b.accumulate(&multiply(&currency, &mpe));
    let mexico = b.finalize();

    let fmu = multiply(&mexico, &ustates);
    let x = multiply(&fmu, &usd);

    let mut vocab: Vec<Hdv> = Vec::new();
    vocab.push(swe);
    vocab.push(usa);
    vocab.push(mex);
    vocab.push(stockholm);
    vocab.push(wdc);
    vocab.push(cdmx);
    vocab.push(usd);
    vocab.push(mpe);
    vocab.push(skr);
    match classify(&x, vocab.as_slice()) {
        Ok(i) => i,
        Err(_) => 0,
    }
}

} // verus!
