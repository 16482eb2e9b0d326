use homomorphicencryption::cipher::{decrypt, encrypt, Ciphertext, Stage};
use homomorphicencryption::encoder::{decode, encode};
use homomorphicencryption::error::EngineError;
use homomorphicencryption::evaluator;
use homomorphicencryption::keys::{generate, EvaluationKey, PublicKey, RelinPart, SecretKey};
use homomorphicencryption::params::ParameterSet;
use homomorphicencryption::poly::Polynomial;
use homomorphicencryption::random::RandomSource;

fn product_parameters() -> ParameterSet {
    ParameterSet::new(4, 1_000_000_007, 17, 3200).unwrap()
}

fn fresh_keys(params: &ParameterSet) -> (SecretKey, PublicKey, EvaluationKey) {
    let mut rng = RandomSource::from_seed(2024, 4096);
    generate(params, &mut rng).unwrap()
}

fn saved(p: &Polynomial) -> Polynomial {
    // what a store would hold: the modulus and the coefficients
    Polynomial::from_coefficients(p.coefficients(), p.modulus())
}

#[test]
fn secret_key_is_rebuilt_from_its_parts() {
    let params = product_parameters();
    let (sk, _pk, _ek) = fresh_keys(&params);
    let again = SecretKey::from_parts(sk.params(), saved(sk.polynomial())).unwrap();
    assert_eq!(again, sk);
    for c in sk.polynomial().coefficients() {
        assert!(c == 0 || c == 1 || c == params.modulus() - 1);
    }
}

#[test]
fn secret_key_must_be_ternary_and_of_the_ring() {
    let params = product_parameters();
    let q = params.modulus();
    assert!(SecretKey::from_parts(params, Polynomial::from_coefficients(vec![0, 1, q - 1, 1], q)).is_some());
    assert!(SecretKey::from_parts(params, Polynomial::from_coefficients(vec![0, 1, 2, 1], q)).is_none());
    assert!(SecretKey::from_parts(params, Polynomial::from_coefficients(vec![0, 1, q - 2, 1], q)).is_none());
    assert!(SecretKey::from_parts(params, Polynomial::from_coefficients(vec![0, 1], q)).is_none());
    assert!(SecretKey::from_parts(params, Polynomial::from_coefficients(vec![0, 1, 1, 1], 17)).is_none());
}

#[test]
fn public_key_is_rebuilt_from_its_parts() {
    let params = product_parameters();
    let (_sk, pk, _ek) = fresh_keys(&params);
    let (a, b) = pk.polynomials();
    let again = PublicKey::from_parts(pk.params(), saved(a), saved(b)).unwrap();
    assert_eq!(again, pk);
}

#[test]
fn public_key_must_be_of_the_ring() {
    let params = product_parameters();
    let q = params.modulus();
    let good = || Polynomial::from_coefficients(vec![1, 2, 3, 4], q);
    assert!(PublicKey::from_parts(params, good(), good()).is_some());
    assert!(PublicKey::from_parts(params, Polynomial::zero(8, q), good()).is_none());
    assert!(PublicKey::from_parts(params, good(), Polynomial::zero(2, q)).is_none());
    assert!(PublicKey::from_parts(params, Polynomial::zero(4, q - 1), good()).is_none());
    assert!(PublicKey::from_parts(params, good(), Polynomial::zero(4, 17)).is_none());
}

#[test]
fn evaluation_key_is_rebuilt_from_its_parts() {
    let params = product_parameters();
    let (_sk, _pk, ek) = fresh_keys(&params);
    assert_eq!(ek.len(), 4);
    let mut parts: Vec<RelinPart> = Vec::new();
    for j in 0..ek.len() {
        let (k0, k1) = ek.part(j).polynomials();
        parts.push(RelinPart::new(saved(k0), saved(k1)));
    }
    let again = EvaluationKey::from_parts(ek.params(), parts).unwrap();
    assert_eq!(again, ek);
}

#[test]
fn evaluation_key_must_have_one_part_for_each_digit() {
    let params = product_parameters();
    let q = params.modulus();
    let part = |n: usize, m: u64| RelinPart::new(Polynomial::zero(n, m), Polynomial::zero(n, m));
    assert!(EvaluationKey::from_parts(params, vec![part(4, q), part(4, q), part(4, q), part(4, q)]).is_some());
    assert!(EvaluationKey::from_parts(params, vec![part(4, q), part(4, q), part(4, q)]).is_none());
    assert!(EvaluationKey::from_parts(params, vec![]).is_none());
    assert!(EvaluationKey::from_parts(params, vec![part(4, q), part(4, q), part(8, q), part(4, q)]).is_none());
    assert!(EvaluationKey::from_parts(params, vec![part(4, q), part(4, q), part(4, q), part(4, 17)]).is_none());
}

#[test]
fn ciphertext_is_rebuilt_from_its_parts() {
    let params = product_parameters();
    let (sk, pk, ek) = fresh_keys(&params);
    let mut rng = RandomSource::from_seed(7, 64);
    let x = encrypt(&pk, &encode(&params, 3), &mut rng).unwrap();
    let y = encrypt(&pk, &encode(&params, 4), &mut rng).unwrap();
    let (c0, c1) = x.components();
    let again = Ciphertext::from_parts(x.params(), saved(c0), saved(c1), x.noise_bound(), x.stage())
        .unwrap();
    assert_eq!(again, x);
    // the rebuilt ciphertext works as the first did
    let product = evaluator::mul(&again, &y, &ek).unwrap();
    assert_eq!(decode(&decrypt(&sk, &product).unwrap()), 12);
    let (p0, p1) = product.components();
    let kept = Ciphertext::from_parts(product.params(), saved(p0), saved(p1), product.noise_bound(), product.stage())
        .unwrap();
    assert_eq!(kept, product);
    assert_eq!(kept.stage(), Stage::Rescaled);
}

#[test]
fn ciphertext_must_be_of_the_ring_and_decryptable() {
    let params = ParameterSet::new(4, 65537, 17, 3200).unwrap();
    let q = params.modulus();
    let good = || Polynomial::from_coefficients(vec![1, 2, 3, 4], q);
    assert!(Ciphertext::from_parts(params, good(), good(), 180, Stage::Fresh).is_some());
    // delta = 3855, residue 2: a bound is fine while 2 * (v + 2) < 3855
    assert!(Ciphertext::from_parts(params, good(), good(), 1925, Stage::Added).is_some());
    assert!(Ciphertext::from_parts(params, good(), good(), 1926, Stage::Added).is_none());
    assert!(Ciphertext::from_parts(params, good(), good(), u64::MAX, Stage::Added).is_none());
    assert!(Ciphertext::from_parts(params, Polynomial::zero(8, q), good(), 180, Stage::Fresh).is_none());
    assert!(Ciphertext::from_parts(params, good(), Polynomial::zero(4, 17), 180, Stage::Fresh).is_none());
}

#[test]
fn a_wrong_bound_is_found_at_decryption() {
    let params = ParameterSet::new(4, 65537, 17, 3200).unwrap();
    let (sk, pk, _ek) = fresh_keys(&params);
    let mut rng = RandomSource::from_seed(9, 4096);
    // add ciphertexts up to a noise that a bound of 0 cannot cover
    let mut sum = encrypt(&pk, &encode(&params, 1), &mut rng).unwrap();
    for _ in 0..8 {
        let next = encrypt(&pk, &encode(&params, 1), &mut rng).unwrap();
        sum = evaluator::add(&sum, &next).unwrap();
    }
    let (c0, c1) = sum.components();
    let honest = Ciphertext::from_parts(sum.params(), saved(c0), saved(c1), sum.noise_bound(), sum.stage()).unwrap();
    assert_eq!(decode(&decrypt(&sk, &honest).unwrap()), 9);
    let lying = Ciphertext::from_parts(sum.params(), saved(c0), saved(c1), 0, sum.stage()).unwrap();
    // with no room claimed, any noise beyond the residue is an excess
    assert_eq!(decrypt(&sk, &lying).unwrap_err(), EngineError::NoiseOverflow);
}
