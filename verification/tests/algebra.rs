use hdc::add;
use hdc::add2;
use hdc::bitarray2hdv;
use hdc::bundle;
use hdc::bundle_streaming;
use hdc::distance;
use hdc::example_mexican_dollar;
use hdc::hamming_distance;
use hdc::hdv2bitarray;
use hdc::multiply;
use hdc::permute;
use hdc::pmultiply;
use hdc::vec_size;
use hdc::BitAccumulator;
use hdc::HdcError;
use hdc::Hdv;
use hdc::RandSource;

const WORDS: usize = 8;

fn fresh(seed: u64) -> (RandSource, Hdv, Hdv, Hdv) {
    let mut rng = RandSource::from_seed(seed);
    let a = Hdv::new(&mut rng, WORDS);
    let b = Hdv::new(&mut rng, WORDS);
    let c = Hdv::new(&mut rng, WORDS);
    (rng, a, b, c)
}

#[test]
fn mexican_dollar() {
    let mut rng = RandSource::from_seed(2024);
    let idx = example_mexican_dollar(&mut rng, 160);
    let labels = ["swe", "usa", "mex", "stockholm", "wdc", "cdmx", "usd", "mpe", "skr"];
    assert_eq!(labels[idx], "mpe", "Expected mpe");
}

#[test]
fn bind_is_involutive() {
    let (_, a, b, _) = fresh(1);
    let bound = multiply(&a, &b);
    assert_ne!(bound, a);
    assert_eq!(multiply(&bound, &b), a);
}

#[test]
fn distance_is_symmetric_and_zero_on_self() {
    let (_, a, b, _) = fresh(2);
    assert_eq!(hamming_distance(&a, &b), hamming_distance(&b, &a));
    assert_eq!(hamming_distance(&a, &a), 0);
    assert_eq!(distance(&a, &b).unwrap(), hamming_distance(&a, &b));
}

#[test]
fn binding_preserves_distance() {
    let (_, a, b, c) = fresh(3);
    let d0 = hamming_distance(&a, &b);
    assert_eq!(hamming_distance(&multiply(&a, &c), &multiply(&b, &c)), d0);
}

#[test]
fn distance_satisfies_triangle_inequality() {
    let (_, a, b, c) = fresh(20);
    assert!(hamming_distance(&a, &c) <= hamming_distance(&a, &b) + hamming_distance(&b, &c));
}

#[test]
fn permute_roundtrip() {
    let (_, a, _, _) = fresh(4);
    let d = 64 * WORDS;
    for k in [1usize, 7, 63, 64, 100, d - 1] {
        let rotated = permute(&a, k);
        assert_ne!(rotated, a);
        assert_eq!(permute(&rotated, d - (k % d)), a);
    }
    assert_eq!(permute(&a, 0), a);
    assert_eq!(permute(&a, d), a);
}

#[test]
fn bundle_of_identical_copies_is_identity() {
    let mut rng = RandSource::from_seed(5);
    let v = Hdv::new(&mut rng, WORDS);
    for k in [1usize, 2, 3, 5, 8] {
        let mut copies: Vec<Hdv> = Vec::new();
        for _ in 0..k {
            copies.push(v.duplicate());
        }
        assert_eq!(bundle(&copies).unwrap(), v);
    }
}

#[test]
fn bundle_matches_hand_majority() {
    let v1: u64 = 0b1100110011001100;
    let v2: u64 = 0b1010101010101010;
    let v3: u64 = 0b1111000011110000;
    let expected = (v1 & v2) | (v1 & v3) | (v2 & v3);
    let h1 = Hdv::from_words(vec![v1]);
    let h2 = Hdv::from_words(vec![v2]);
    let h3 = Hdv::from_words(vec![v3]);
    let inputs = vec![h1, h2, h3];
    let bundled = bundle(&inputs).unwrap();
    assert_eq!(bundled, Hdv::from_words(vec![expected]));
    assert_eq!(add2(&inputs), Hdv::from_words(vec![expected]));
    let refs: Vec<&Hdv> = inputs.iter().collect();
    assert_eq!(add(&refs), Hdv::from_words(vec![expected]));
}

#[test]
fn bundle_tie_falls_to_zero() {
    let ones = Hdv::from_words(vec![u64::MAX]);
    let zeros = Hdv::from_words(vec![0]);
    let inputs = vec![ones, zeros];
    assert_eq!(bundle(&inputs).unwrap(), Hdv::from_words(vec![0]));
}

#[test]
fn streaming_bundling_matches_batch() {
    let mut rng = RandSource::from_seed(6);
    let mut inputs: Vec<Hdv> = Vec::new();
    for _ in 0..5 {
        inputs.push(Hdv::new(&mut rng, WORDS));
    }
    assert_eq!(bundle_streaming(&inputs).unwrap(), bundle(&inputs).unwrap());

    let mut acc = BitAccumulator::new(WORDS);
    for v in &inputs {
        acc.accumulate(v);
    }
    assert_eq!(acc.total(), 5);
    assert_eq!(acc.finalize(), bundle(&inputs).unwrap());
}

#[test]
fn empty_bundle_is_refused() {
    let inputs: Vec<Hdv> = Vec::new();
    assert_eq!(bundle(&inputs).unwrap_err(), HdcError::EmptyInput);
    assert_eq!(bundle_streaming(&inputs).unwrap_err(), HdcError::EmptyInput);
}

#[test]
fn width_mismatch_is_refused() {
    let mut rng = RandSource::from_seed(7);
    let a = Hdv::new(&mut rng, WORDS);
    let b = Hdv::new(&mut rng, WORDS + 2);
    assert_eq!(distance(&a, &b).unwrap_err(), HdcError::DimensionMismatch);
    let inputs = vec![a, b];
    assert_eq!(bundle(&inputs).unwrap_err(), HdcError::DimensionMismatch);
    assert_eq!(bundle_streaming(&inputs).unwrap_err(), HdcError::DimensionMismatch);
}

#[test]
fn bitarray_roundtrip() {
    let mut words = vec![0u64; WORDS];
    words[0] = 1;
    words[1] = 2;
    words[2] = 255;
    let hdv = Hdv::from_words(words);
    let a = hdv2bitarray(&hdv);
    assert_eq!(a.len(), 64 * WORDS);
    assert_eq!(&a[0..4], &[1, 0, 0, 0]);
    assert_eq!(&a[64..68], &[0, 1, 0, 0]);
    assert_eq!(bitarray2hdv(&a, 0), hdv);
}

#[test]
fn accumulate_counts_bits() {
    let mut words = vec![0u64; WORDS];
    words[0] = 0b101;
    let hdv = Hdv::from_words(words);
    let mut a = hdv2bitarray(&hdv);
    hdc::accumulate(&hdv, &mut a);
    assert_eq!(&a[0..4], &[2, 0, 2, 0]);
    let doubled = bitarray2hdv(&a, 1);
    assert_eq!(doubled, hdv);
}

#[test]
fn pmultiply_rotates_words() {
    let h1 = Hdv::from_words(vec![1, 2, 3, 4]);
    let h2 = Hdv::from_words(vec![0, 0, 0, 0]);
    // word i of the result is h1.word[(i + 1) mod 4] ^ h2.word[i]
    assert_eq!(pmultiply(&h1, 1, &h2, 0), Hdv::from_words(vec![2, 3, 4, 1]));
    assert_eq!(pmultiply(&h1, 0, &h1, 0), Hdv::from_words(vec![0, 0, 0, 0]));
}

#[test]
fn vec_size_is_even_and_sufficient() {
    assert_eq!(vec_size(0), 0);
    assert_eq!(vec_size(1), 2);
    assert_eq!(vec_size(64), 2);
    assert_eq!(vec_size(128), 2);
    assert_eq!(vec_size(129), 4);
    assert_eq!(vec_size(1_000_000), 15626);
}

#[test]
fn balanced_vectors_have_exact_half_weight() {
    let mut rng = RandSource::from_seed(8);
    for _ in 0..5 {
        let v = Hdv::new_balanced(&mut rng, WORDS);
        let weight: usize = hdv2bitarray(&v).iter().sum();
        assert_eq!(weight, 64 * WORDS / 2);
    }
}

#[test]
fn seeded_sources_are_reproducible() {
    let mut r1 = RandSource::from_seed(99);
    let mut r2 = RandSource::from_seed(99);
    assert_eq!(Hdv::new(&mut r1, WORDS), Hdv::new(&mut r2, WORDS));
    assert_eq!(Hdv::new(&mut r1, WORDS), Hdv::new(&mut r2, WORDS));
    let mut r3 = RandSource::from_seed(100);
    assert_ne!(Hdv::new(&mut r1, WORDS), Hdv::new(&mut r3, WORDS));
}

#[test]
fn zero_total_finalizes_to_zero_vector() {
    let acc = BitAccumulator::new(WORDS);
    assert_eq!(acc.total(), 0);
    assert_eq!(acc.finalize(), Hdv::zeros(WORDS));
}
