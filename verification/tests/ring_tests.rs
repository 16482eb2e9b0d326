use homomorphicencryption::error::EngineError;
use homomorphicencryption::poly::Polynomial;
use homomorphicencryption::random::RandomSource;
use homomorphicencryption::sampling::{sample_noise, sample_ternary, sample_uniform};

fn poly(c: &[u64], q: u64) -> Polynomial {
    Polynomial::from_coefficients(c.to_vec(), q)
}

#[test]
fn from_coefficients_reduces() {
    let p = poly(&[17, 18, 35, 0], 17);
    assert_eq!(p.coefficients(), vec![0, 1, 1, 0]);
    assert_eq!(p.len(), 4);
    assert_eq!(p.modulus(), 17);
    assert_eq!(p.coeff(2), 1);
}

#[test]
fn constant_and_zero() {
    assert_eq!(Polynomial::zero(3, 7).coefficients(), vec![0, 0, 0]);
    assert_eq!(Polynomial::constant(3, 9, 7).coefficients(), vec![2, 0, 0]);
    assert_eq!(Polynomial::constant(0, 9, 7).coefficients(), Vec::<u64>::new());
}

#[test]
fn add_sub_neg_are_coefficientwise() {
    let p = poly(&[1, 16, 5, 0], 17);
    let q = poly(&[16, 16, 3, 4], 17);
    assert_eq!(p.add(&q).unwrap().coefficients(), vec![0, 15, 8, 4]);
    assert_eq!(p.sub(&q).unwrap().coefficients(), vec![2, 0, 2, 13]);
    assert_eq!(p.neg().coefficients(), vec![16, 1, 12, 0]);
    assert_eq!(p.scale(3).coefficients(), vec![3, 14, 15, 0]);
}

#[test]
fn mul_wraps_with_a_sign() {
    // (1 + x) * x^3 = x^3 + x^4 = x^3 - 1 modulo x^4 + 1.
    let p = poly(&[1, 1, 0, 0], 17);
    let q = poly(&[0, 0, 0, 1], 17);
    assert_eq!(p.mul(&q).unwrap().coefficients(), vec![16, 0, 0, 1]);
    // (1 + 2x + 3x^2 + 4x^3)^2 modulo x^4 + 1 and 17.
    let r = poly(&[1, 2, 3, 4], 17);
    assert_eq!(r.mul(&r).unwrap().coefficients(), vec![(1 + 17 * 2 - 25) % 17, (4 + 17 * 2 - 24) % 17, (10 + 17 - 16) % 17, 20 % 17]);
}

#[test]
fn mul_distributes_over_add() {
    let q: u64 = 65537;
    let mut rng = RandomSource::from_seed(77, 3 * 16 * 20);
    for _ in 0..20 {
        let p = sample_uniform(&mut rng, 8, q).unwrap();
        let s = sample_uniform(&mut rng, 8, q).unwrap();
        let r = sample_uniform(&mut rng, 8, q).unwrap();
        let left = p.add(&s).unwrap().mul(&r).unwrap();
        let right = p.mul(&r).unwrap().add(&s.mul(&r).unwrap()).unwrap();
        assert_eq!(left, right);
    }
}

#[test]
fn mul_is_associative_and_commutative_on_samples() {
    let q: u64 = 1_000_000_007;
    let mut rng = RandomSource::from_seed(78, 3 * 16 * 20);
    for _ in 0..20 {
        let p = sample_uniform(&mut rng, 8, q).unwrap();
        let s = sample_uniform(&mut rng, 8, q).unwrap();
        let r = sample_uniform(&mut rng, 8, q).unwrap();
        assert_eq!(p.mul(&s).unwrap(), s.mul(&p).unwrap());
        assert_eq!(p.mul(&s).unwrap().mul(&r).unwrap(), p.mul(&s.mul(&r).unwrap()).unwrap());
    }
}

#[test]
fn ring_operations_refuse_mismatched_operands() {
    let p = poly(&[1, 2, 3, 4], 17);
    let short = poly(&[1, 2], 17);
    let other = poly(&[1, 2, 3, 4], 19);
    let both = poly(&[1, 2], 19);
    assert_eq!(p.add(&short).unwrap_err(), EngineError::DimensionMismatch);
    assert_eq!(p.sub(&short).unwrap_err(), EngineError::DimensionMismatch);
    assert_eq!(p.mul(&short).unwrap_err(), EngineError::DimensionMismatch);
    assert_eq!(p.add(&other).unwrap_err(), EngineError::LevelMismatch);
    assert_eq!(p.sub(&other).unwrap_err(), EngineError::LevelMismatch);
    assert_eq!(p.mul(&other).unwrap_err(), EngineError::LevelMismatch);
    assert_eq!(p.mul(&both).unwrap_err(), EngineError::DimensionMismatch);
}

#[test]
fn scale_round_rounds_to_nearest_with_ties_up() {
    let p = poly(&[0, 1, 2, 3, 4, 5, 6, 100], 1000);
    // times 1/4: 0, 0.25, 0.5, 0.75, 1, 1.25, 1.5, 25
    assert_eq!(p.scale_round(1, 4).coefficients(), vec![0, 0, 1, 1, 1, 1, 2, 25]);
    // times 17/1000, as in a switch from modulus 1000 to modulus 17
    assert_eq!(p.scale_round(17, 1000).coefficients(), vec![0, 0, 0, 0, 0, 0, 0, 2]);
    // the result is reduced again
    assert_eq!(poly(&[6], 7).scale_round(3, 1).coefficients(), vec![4]);
}

#[test]
fn clone_is_equal() {
    let p = poly(&[1, 2, 3, 4], 17);
    assert_eq!(p.clone(), p);
}

#[test]
fn ternary_samples_are_zero_one_or_minus_one() {
    let q: u64 = 65537;
    let mut rng = RandomSource::from_words(vec![0, 1, 2, 3, 4, 5, u64::MAX]);
    let p = sample_ternary(&mut rng, 7, q).unwrap();
    // u64::MAX = 3 * 6148914691236517205, so it stands for 0.
    assert_eq!(p.coefficients(), vec![0, 1, q - 1, 0, 1, q - 1, 0]);
    assert_eq!(rng.remaining(), 0);
}

#[test]
fn uniform_samples_are_pairs_of_words_reduced() {
    // 2^64 = 1 modulo 17, so the pair (high, low) stands for high + low.
    let mut rng = RandomSource::from_words(vec![0, 5, 1, 16, 3, 100, u64::MAX, u64::MAX, 9]);
    let p = sample_uniform(&mut rng, 4, 17).unwrap();
    assert_eq!(p.coefficients(), vec![5, 0, 103 % 17, 0]);
    assert_eq!(rng.remaining(), 1);
    // modulo 2^62 only the low word counts
    let mut low = RandomSource::from_words(vec![7, (1 << 62) + 3, 1, u64::MAX]);
    let p = sample_uniform(&mut low, 2, 1 << 62).unwrap();
    assert_eq!(p.coefficients(), vec![3, (1 << 62) - 1]);
}

#[test]
fn uniform_samples_use_the_high_word() {
    let q: u64 = (1 << 62) - 57;
    let expect = |high: u64, low: u64| (((high as u128) << 64 | low as u128) % q as u128) as u64;
    let mut rng = RandomSource::from_words(vec![1, 0, 12345, 67890, u64::MAX, 1]);
    let p = sample_uniform(&mut rng, 3, q).unwrap();
    assert_eq!(p.coefficients(), vec![expect(1, 0), expect(12345, 67890), expect(u64::MAX, 1)]);
    assert_ne!(p.coeff(0), 0);
}

#[test]
fn noise_samples_count_bits() {
    let q: u64 = 65537;
    let words = vec![
        0,
        0b1011,
        0b1011 << 32,
        (0b111 << 32) | 0b1,
        u64::MAX,
        1 << 5,
    ];
    let mut rng = RandomSource::from_words(words);
    let p = sample_noise(&mut rng, 6, 4, q).unwrap();
    assert_eq!(p.coefficients(), vec![0, 3, q - 3, q - 2, 0, 0]);
}

#[test]
fn samplers_draw_all_or_nothing() {
    let mut rng = RandomSource::from_words(vec![1, 2, 3]);
    assert_eq!(sample_ternary(&mut rng, 4, 17).unwrap_err(), EngineError::InsufficientEntropy);
    assert_eq!(sample_uniform(&mut rng, 2, 17).unwrap_err(), EngineError::InsufficientEntropy);
    assert_eq!(sample_uniform(&mut rng, usize::MAX, 17).unwrap_err(), EngineError::InsufficientEntropy);
    assert_eq!(sample_noise(&mut rng, 4, 20, 17).unwrap_err(), EngineError::InsufficientEntropy);
    assert_eq!(rng.remaining(), 3);
    assert_eq!(rng.take(2).unwrap(), vec![1, 2]);
    assert_eq!(rng.take(2).unwrap_err(), EngineError::InsufficientEntropy);
    assert_eq!(rng.take(1).unwrap(), vec![3]);
}

#[test]
fn seeded_stream_is_repeatable() {
    let mut a = RandomSource::from_seed(1234567, 5);
    let mut b = RandomSource::from_seed(1234567, 5);
    let first = a.take(5).unwrap();
    assert_eq!(first, b.take(5).unwrap());
    // the first outputs of this generator for the seed 1234567
    assert_eq!(first[0], 6457827717110365317);
    assert_eq!(first[1], 3203168211198807973);
    let mut c = RandomSource::from_seed(1234568, 5);
    assert_ne!(first, c.take(5).unwrap());
}
