use homomorphicencryption::encoder::{decode, decode_vector, encode, encode_vector, Plaintext};
use homomorphicencryption::error::EngineError;
use homomorphicencryption::params::{check_power_of_two, count_digits, ParameterSet};

#[test]
fn small_parameters_are_valid() {
    let p = ParameterSet::new(4, 65537, 17, 3200).unwrap();
    assert_eq!(p.dimension(), 4);
    assert_eq!(p.modulus(), 65537);
    assert_eq!(p.plain_modulus(), 17);
    assert_eq!(p.sigma_milli(), 3200);
    assert_eq!(p.delta(), 3855);
    // twice the variance: 2 * 3.2^2 = 20.48
    assert_eq!(p.noise_width(), 20);
}

#[test]
fn dimension_must_be_a_power_of_two() {
    for n in [1usize, 2, 4, 8, 1024, 65536] {
        assert!(ParameterSet::new(n, 1 << 40, 17, 3200).is_some(), "n = {}", n);
    }
    for n in [0usize, 3, 5, 6, 12, 1000, 65535, 131072] {
        assert!(ParameterSet::new(n, 1 << 40, 17, 3200).is_none(), "n = {}", n);
    }
}

#[test]
fn plaintext_modulus_must_be_below_the_modulus() {
    assert!(ParameterSet::new(4, 65537, 0, 3200).is_none());
    assert!(ParameterSet::new(4, 17, 17, 3200).is_none());
    assert!(ParameterSet::new(4, 17, 65537, 3200).is_none());
    assert!(ParameterSet::new(4, (1 << 62) + 1, 17, 3200).is_none());
    assert!(ParameterSet::new(4, 1 << 62, 17, 3200).is_some());
}

#[test]
fn noise_width_must_fit_one_word() {
    // 2 * sigma^2 rounds to 0 below sigma = 0.5 and to 33 from sigma = 4.031.
    assert!(ParameterSet::new(4, 1 << 40, 17, 499).is_none());
    assert_eq!(ParameterSet::new(4, 1 << 40, 17, 500).unwrap().noise_width(), 1);
    assert_eq!(ParameterSet::new(4, 1 << 40, 17, 4031).unwrap().noise_width(), 32);
    assert!(ParameterSet::new(4, 1 << 40, 17, 4032).is_none());
    assert!(ParameterSet::new(4, 1 << 40, 17, u32::MAX).is_none());
}

#[test]
fn fresh_noise_must_leave_room_to_decrypt() {
    // n = 4, width 20: fresh noise 180; t = 17.
    // q = 6205 = 17 * 365: delta 365, residue 0, 2 * 180 < 365.
    assert!(ParameterSet::new(4, 6205, 17, 3200).is_some());
    // q = 6120 = 17 * 360: delta 360, 2 * 180 = 360 is not below it.
    assert!(ParameterSet::new(4, 6120, 17, 3200).is_none());
    let p = ParameterSet::new(4, 65537, 17, 3200).unwrap();
    assert!(p.is_decryptable(1925));
    assert!(!p.is_decryptable(1926));
}

#[test]
fn multiplication_needs_a_larger_modulus() {
    assert!(!ParameterSet::new(4, 65537, 17, 3200).unwrap().supports_multiplication());
    assert!(ParameterSet::new(4, 1_000_000_007, 17, 3200).unwrap().supports_multiplication());
    // the tensor product must fit 126 bits: n * q^2 <= 2^126
    assert!(ParameterSet::new(4, 1 << 62, 17, 3200).unwrap().supports_multiplication());
    assert!(!ParameterSet::new(8, 1 << 62, 17, 3200).unwrap().supports_multiplication());
    assert!(ParameterSet::new(8, 1 << 61, 17, 3200).unwrap().supports_multiplication());
}

#[test]
fn power_of_two_check() {
    assert!(check_power_of_two(1));
    assert!(check_power_of_two(64));
    assert!(!check_power_of_two(0));
    assert!(!check_power_of_two(48));
}

#[test]
fn digits_in_base_256() {
    assert_eq!(count_digits(0), 1);
    assert_eq!(count_digits(255), 1);
    assert_eq!(count_digits(256), 2);
    assert_eq!(count_digits(65535), 2);
    assert_eq!(count_digits(65536), 3);
    assert_eq!(count_digits(u64::MAX), 8);
}

#[test]
fn decode_inverts_encode() {
    for t in [1u64, 2, 17, 65536] {
        let p = ParameterSet::new(4, 1 << 40, t, 3200).unwrap();
        for v in 0..t.min(300) {
            assert_eq!(decode(&encode(&p, v)), v);
        }
    }
}

#[test]
fn encode_reduces_and_pads() {
    let p = ParameterSet::new(4, 65537, 17, 3200).unwrap();
    let pt = encode(&p, 40);
    assert_eq!(pt.polynomial().coefficients(), vec![6, 0, 0, 0]);
    assert_eq!(pt.polynomial().modulus(), 17);
    assert_eq!(pt, Plaintext::from_coefficients(vec![6, 0, 0, 0], 17));
    assert_eq!(decode(&pt), 6);
}

#[test]
fn decode_vector_inverts_encode_vector() {
    let p = ParameterSet::new(4, 65537, 17, 3200).unwrap();
    for v in [vec![0u64, 0, 0, 0], vec![1, 2, 3, 4], vec![16, 16, 16, 16], vec![5, 0, 9, 0]] {
        assert_eq!(decode_vector(&encode_vector(&p, &v).unwrap()), v);
    }
    // entries are reduced modulo t
    assert_eq!(decode_vector(&encode_vector(&p, &vec![17, 18, 40, 0]).unwrap()), vec![0, 1, 6, 0]);
    // one integer is the vector that holds it in front
    assert_eq!(encode_vector(&p, &vec![5, 0, 0, 0]).unwrap(), encode(&p, 5));
}

#[test]
fn encode_vector_wants_one_entry_for_each_coefficient() {
    let p = ParameterSet::new(4, 65537, 17, 3200).unwrap();
    assert_eq!(encode_vector(&p, &vec![1, 2, 3]).unwrap_err(), EngineError::DimensionMismatch);
    assert_eq!(encode_vector(&p, &vec![1, 2, 3, 4, 5]).unwrap_err(), EngineError::DimensionMismatch);
    assert_eq!(encode_vector(&p, &vec![]).unwrap_err(), EngineError::DimensionMismatch);
}

#[test]
fn standard_deviation_is_given_in_thousandths() {
    let sigma: f64 = 3.2;
    let p = ParameterSet::new(4, 65537, 17, (sigma * 1000.0).round() as u32).unwrap();
    assert_eq!(p.sigma_milli(), 3200);
    // the centred binomial distribution of width w has variance w / 2
    let variance = p.noise_width() as f64 / 2.0;
    assert!((variance.sqrt() - sigma).abs() < 0.05);
}
