use homomorphicencryption::cipher::{decrypt, encrypt, Ciphertext, Stage};
use homomorphicencryption::encoder::{decode, decode_vector, encode, encode_vector, Plaintext};
use homomorphicencryption::error::EngineError;
use homomorphicencryption::evaluator;
use homomorphicencryption::keys::{generate, EvaluationKey, PublicKey, SecretKey};
use homomorphicencryption::params::ParameterSet;
use homomorphicencryption::random::RandomSource;

fn small_params() -> ParameterSet {
    ParameterSet::new(4, 65537, 17, 3200).unwrap()
}

fn product_params() -> ParameterSet {
    ParameterSet::new(4, 1_000_000_007, 17, 3200).unwrap()
}

fn keys_for(params: &ParameterSet, seed: u64) -> (SecretKey, PublicKey, EvaluationKey) {
    let mut rng = RandomSource::from_seed(seed, 4096);
    generate(params, &mut rng).unwrap()
}

fn encrypt_value(params: &ParameterSet, pk: &PublicKey, v: u64, rng: &mut RandomSource) -> Ciphertext {
    encrypt(pk, &encode(params, v), rng).unwrap()
}

#[test]
fn five_plus_nine_is_fourteen_under_encryption() {
    let params = small_params();
    let (sk, pk, _ek) = keys_for(&params, 1);
    let mut rng = RandomSource::from_seed(2, 64);
    let a = encrypt_value(&params, &pk, 5, &mut rng);
    let b = encrypt_value(&params, &pk, 9, &mut rng);
    let sum = evaluator::add(&a, &b).unwrap();
    let pt = decrypt(&sk, &sum).unwrap();
    assert_eq!(decode(&pt), 14);
    assert_eq!(pt, encode(&params, 14));
    assert_eq!(sum.stage(), Stage::Added);
}

#[test]
fn three_times_four_is_twelve_under_encryption() {
    let params = product_params();
    assert!(params.supports_multiplication());
    let (sk, pk, ek) = keys_for(&params, 3);
    let mut rng = RandomSource::from_seed(4, 64);
    let a = encrypt_value(&params, &pk, 3, &mut rng);
    let b = encrypt_value(&params, &pk, 4, &mut rng);
    let product = evaluator::mul(&a, &b, &ek).unwrap();
    let pt = decrypt(&sk, &product).unwrap();
    assert_eq!(decode(&pt), 12);
    assert_eq!(pt, encode(&params, 12));
    assert_eq!(product.stage(), Stage::Rescaled);
}

#[test]
fn encryption_round_trips_every_plaintext() {
    let params = small_params();
    let (sk, pk, _ek) = keys_for(&params, 5);
    let mut rng = RandomSource::from_seed(6, 4096);
    for v in 0..17u64 {
        let ct = encrypt_value(&params, &pk, v, &mut rng);
        assert_eq!(ct.stage(), Stage::Fresh);
        assert_eq!(ct.noise_bound(), 20 * 9);
        assert_eq!(decrypt(&sk, &ct).unwrap(), encode(&params, v));
    }
}

#[test]
fn addition_is_homomorphic_for_all_pairs() {
    let params = small_params();
    let (sk, pk, _ek) = keys_for(&params, 7);
    let mut rng = RandomSource::from_seed(8, 1 << 14);
    for a in 0..17u64 {
        for b in 0..17u64 {
            let x = encrypt_value(&params, &pk, a, &mut rng);
            let y = encrypt_value(&params, &pk, b, &mut rng);
            let sum = evaluator::add(&x, &y).unwrap();
            assert_eq!(decrypt(&sk, &sum).unwrap(), encode(&params, (a + b) % 17));
        }
    }
}

#[test]
fn multiplication_is_homomorphic_for_all_pairs() {
    let params = product_params();
    let (sk, pk, ek) = keys_for(&params, 9);
    let mut rng = RandomSource::from_seed(10, 1 << 14);
    for a in 0..17u64 {
        for b in 0..17u64 {
            let x = encrypt_value(&params, &pk, a, &mut rng);
            let y = encrypt_value(&params, &pk, b, &mut rng);
            let product = evaluator::mul(&x, &y, &ek).unwrap();
            assert_eq!(decrypt(&sk, &product).unwrap(), encode(&params, (a * b) % 17));
        }
    }
}

#[test]
fn sums_can_be_multiplied() {
    let params = product_params();
    let (sk, pk, ek) = keys_for(&params, 11);
    let mut rng = RandomSource::from_seed(12, 256);
    let a = encrypt_value(&params, &pk, 2, &mut rng);
    let b = encrypt_value(&params, &pk, 3, &mut rng);
    let c = encrypt_value(&params, &pk, 4, &mut rng);
    let d = encrypt_value(&params, &pk, 6, &mut rng);
    let left = evaluator::add(&a, &b).unwrap();
    let right = evaluator::add(&c, &d).unwrap();
    let product = evaluator::mul(&left, &right, &ek).unwrap();
    assert_eq!(decode(&decrypt(&sk, &product).unwrap()), (5 * 10) % 17);
}

#[test]
fn key_generation_is_repeatable_for_a_seed() {
    let params = small_params();
    let first = keys_for(&params, 99);
    let second = keys_for(&params, 99);
    assert_eq!(first, second);
    let other = keys_for(&params, 100);
    assert_ne!(first.0, other.0);
}

#[test]
fn key_generation_needs_enough_words() {
    let params = small_params();
    // 65536 has three digits in base 256: 4 * (4 + 3 * 3) words.
    let mut short = RandomSource::from_seed(1, 51);
    assert_eq!(generate(&params, &mut short).unwrap_err(), EngineError::InsufficientEntropy);
    assert_eq!(short.remaining(), 51);
    let mut exact = RandomSource::from_seed(1, 52);
    assert!(generate(&params, &mut exact).is_ok());
    assert_eq!(exact.remaining(), 0);
}

#[test]
fn encryption_needs_enough_words() {
    let params = small_params();
    let (_sk, pk, _ek) = keys_for(&params, 1);
    let mut short = RandomSource::from_seed(1, 11);
    assert_eq!(
        encrypt(&pk, &encode(&params, 1), &mut short).unwrap_err(),
        EngineError::InsufficientEntropy
    );
    assert_eq!(short.remaining(), 11);
    let mut exact = RandomSource::from_seed(1, 12);
    assert!(encrypt(&pk, &encode(&params, 1), &mut exact).is_ok());
    assert_eq!(exact.remaining(), 0);
}

#[test]
fn encryption_refuses_a_foreign_plaintext() {
    let params = small_params();
    let (_sk, pk, _ek) = keys_for(&params, 1);
    let mut rng = RandomSource::from_seed(1, 64);
    let wide = Plaintext::from_coefficients(vec![1, 0, 0, 0, 0, 0, 0, 0], 17);
    assert_eq!(encrypt(&pk, &wide, &mut rng).unwrap_err(), EngineError::DimensionMismatch);
    let other = Plaintext::from_coefficients(vec![1, 0, 0, 0], 19);
    assert_eq!(encrypt(&pk, &other, &mut rng).unwrap_err(), EngineError::LevelMismatch);
    assert_eq!(rng.remaining(), 64);
}

#[test]
fn evaluator_refuses_mismatched_operands() {
    let small = small_params();
    let big = product_params();
    let wide = ParameterSet::new(8, 65537, 17, 3200).unwrap();
    let (_s1, pk_small, _e1) = keys_for(&small, 1);
    let (_s2, pk_big, ek_big) = keys_for(&big, 2);
    let (_s3, pk_wide, _e3) = keys_for(&wide, 3);
    let mut rng = RandomSource::from_seed(4, 256);
    let a = encrypt_value(&small, &pk_small, 1, &mut rng);
    let b = encrypt_value(&big, &pk_big, 1, &mut rng);
    let c = encrypt_value(&wide, &pk_wide, 1, &mut rng);
    assert_eq!(evaluator::add(&a, &b).unwrap_err(), EngineError::LevelMismatch);
    assert_eq!(evaluator::add(&a, &c).unwrap_err(), EngineError::DimensionMismatch);
    assert_eq!(evaluator::mul(&a, &a, &ek_big).unwrap_err(), EngineError::LevelMismatch);
    assert_eq!(evaluator::mul(&c, &c, &ek_big).unwrap_err(), EngineError::DimensionMismatch);
}

#[test]
fn a_product_takes_no_second_multiplication() {
    let params = product_params();
    let (sk, pk, ek) = keys_for(&params, 13);
    let mut rng = RandomSource::from_seed(14, 256);
    let a = encrypt_value(&params, &pk, 2, &mut rng);
    let b = encrypt_value(&params, &pk, 3, &mut rng);
    let c = encrypt_value(&params, &pk, 5, &mut rng);
    let d = encrypt_value(&params, &pk, 7, &mut rng);
    let ab = evaluator::mul(&a, &b, &ek).unwrap();
    let cd = evaluator::mul(&c, &d, &ek).unwrap();
    assert_eq!(evaluator::mul(&ab, &cd, &ek).unwrap_err(), EngineError::NoiseOverflow);
    assert_eq!(evaluator::add(&ab, &c).unwrap_err(), EngineError::LevelMismatch);
    assert_eq!(evaluator::mul(&ab, &c, &ek).unwrap_err(), EngineError::LevelMismatch);
    let sum = evaluator::add(&ab, &cd).unwrap();
    assert_eq!(sum.stage(), Stage::Rescaled);
    assert_eq!(decode(&decrypt(&sk, &sum).unwrap()), (6 + 35) % 17);
}

#[test]
fn small_modulus_cannot_multiply() {
    let params = small_params();
    assert!(!params.supports_multiplication());
    let (_sk, pk, ek) = keys_for(&params, 15);
    let mut rng = RandomSource::from_seed(16, 64);
    let a = encrypt_value(&params, &pk, 3, &mut rng);
    let b = encrypt_value(&params, &pk, 4, &mut rng);
    assert_eq!(evaluator::mul(&a, &b, &ek).unwrap_err(), EngineError::NoiseOverflow);
}

#[test]
fn too_many_additions_overflow_the_noise_bound() {
    let params = small_params();
    let (sk, pk, _ek) = keys_for(&params, 17);
    let mut rng = RandomSource::from_seed(18, 4096);
    // delta = 3855, residue = 2: a bound v is fine while 2 * (v + 2) < 3855.
    let mut acc = encrypt_value(&params, &pk, 1, &mut rng);
    let mut count: u64 = 1;
    loop {
        let next = encrypt_value(&params, &pk, 1, &mut rng);
        match evaluator::add(&acc, &next) {
            Ok(sum) => {
                acc = sum;
                count += 1;
                assert_eq!(acc.noise_bound(), 180 * count + 2 * (count - 1));
            }
            Err(e) => {
                assert_eq!(e, EngineError::NoiseOverflow);
                break;
            }
        }
    }
    assert_eq!(count, 10);
    assert_eq!(decode(&decrypt(&sk, &acc).unwrap()), 10);
}

#[test]
fn decryption_refuses_a_foreign_key() {
    let small = small_params();
    let big = product_params();
    let wide = ParameterSet::new(8, 65537, 17, 3200).unwrap();
    let (_s1, pk_small, _e1) = keys_for(&small, 1);
    let (sk_big, _p2, _e2) = keys_for(&big, 2);
    let (sk_wide, _p3, _e3) = keys_for(&wide, 3);
    let mut rng = RandomSource::from_seed(4, 64);
    let ct = encrypt_value(&small, &pk_small, 1, &mut rng);
    assert_eq!(decrypt(&sk_big, &ct).unwrap_err(), EngineError::LevelMismatch);
    assert_eq!(decrypt(&sk_wide, &ct).unwrap_err(), EngineError::DimensionMismatch);
}

#[test]
fn decryption_with_the_wrong_key_shows_the_noise() {
    let params = product_params();
    let (_sk, pk, _ek) = keys_for(&params, 21);
    let (other, _pk, _ek2) = keys_for(&params, 22);
    let mut rng = RandomSource::from_seed(23, 64);
    let ct = encrypt_value(&params, &pk, 5, &mut rng);
    assert_eq!(decrypt(&other, &ct).unwrap_err(), EngineError::NoiseOverflow);
}

#[test]
fn vectors_add_entry_by_entry() {
    let params = small_params();
    let (sk, pk, _ek) = keys_for(&params, 31);
    let mut rng = RandomSource::from_seed(32, 64);
    let x = encrypt(&pk, &encode_vector(&params, &vec![1, 2, 3, 16]).unwrap(), &mut rng).unwrap();
    let y = encrypt(&pk, &encode_vector(&params, &vec![5, 16, 0, 16]).unwrap(), &mut rng).unwrap();
    let sum = evaluator::add(&x, &y).unwrap();
    assert_eq!(decode_vector(&decrypt(&sk, &sum).unwrap()), vec![6, 1, 3, 15]);
}

#[test]
fn vectors_multiply_as_polynomials() {
    let params = product_params();
    let (sk, pk, ek) = keys_for(&params, 33);
    let mut rng = RandomSource::from_seed(34, 64);
    // (1 + 2x) * (3 + x^3) = 3 + 6x + x^3 + 2x^4 = 1 + 6x + x^3 modulo x^4 + 1
    let x = encrypt(&pk, &encode_vector(&params, &vec![1, 2, 0, 0]).unwrap(), &mut rng).unwrap();
    let y = encrypt(&pk, &encode_vector(&params, &vec![3, 0, 0, 1]).unwrap(), &mut rng).unwrap();
    let product = evaluator::mul(&x, &y, &ek).unwrap();
    assert_eq!(decode_vector(&decrypt(&sk, &product).unwrap()), vec![1, 6, 0, 1]);
}

#[test]
fn a_tight_modulus_leaves_no_room_for_a_sum() {
    // delta = 365 and fresh noise 180: one ciphertext decrypts, a sum would
    // carry a bound of 360, and 2 * 360 is not below 365.
    let params = ParameterSet::new(4, 6205, 17, 3200).unwrap();
    let (sk, pk, _ek) = keys_for(&params, 41);
    let mut rng = RandomSource::from_seed(42, 64);
    let x = encrypt_value(&params, &pk, 5, &mut rng);
    let y = encrypt_value(&params, &pk, 9, &mut rng);
    assert_eq!(decode(&decrypt(&sk, &x).unwrap()), 5);
    assert_eq!(evaluator::add(&x, &y).unwrap_err(), EngineError::NoiseOverflow);
}
