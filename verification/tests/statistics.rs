use hdc::hamming_distance;
use hdc::Hdv;
use hdc::RandSource;

#[test]
fn random_vectors_are_quasi_orthogonal() {
    // width 10048: the mean distance over 1000 independent pairs must sit
    // close to half the width
    let words = 157;
    let d = 64 * words;
    let pairs = 1000;
    let mut rng = RandSource::from_seed(42);
    let mut sum: u64 = 0;
    for _ in 0..pairs {
        let a = Hdv::new(&mut rng, words);
        let b = Hdv::new(&mut rng, words);
        sum += hamming_distance(&a, &b) as u64;
    }
    let mean = sum as f64 / pairs as f64;
    let half = d as f64 / 2.0;
    // per-pair deviation is about sqrt(d)/2 = 50 bits; the mean of 1000 pairs
    // stays within 50 bits of d/2 with overwhelming margin
    assert!((mean - half).abs() < 50.0, "mean {mean} too far from {half}");
}

#[test]
fn balanced_vectors_are_quasi_orthogonal_too() {
    let words = 158;
    let d = 64 * words;
    let pairs = 200;
    let mut rng = RandSource::from_seed(43);
    let mut sum: u64 = 0;
    for _ in 0..pairs {
        let a = Hdv::new_balanced(&mut rng, words);
        let b = Hdv::new_balanced(&mut rng, words);
        sum += hamming_distance(&a, &b) as u64;
    }
    let mean = sum as f64 / pairs as f64;
    let half = d as f64 / 2.0;
    assert!((mean - half).abs() < 120.0, "mean {mean} too far from {half}");
}
