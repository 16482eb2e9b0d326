use homomorphicencryption::error::EngineError;
use homomorphicencryption::modular;

#[test]
fn add_wraps_at_the_modulus() {
    assert_eq!(modular::add(5, 9, 17), 14);
    assert_eq!(modular::add(16, 16, 17), 15);
    assert_eq!(modular::add(u64::MAX, u64::MAX, u64::MAX), 0);
}

#[test]
fn sub_stays_non_negative() {
    assert_eq!(modular::sub(3, 5, 17), 15);
    assert_eq!(modular::sub(5, 3, 17), 2);
    assert_eq!(modular::sub(0, u64::MAX, 1 << 62), 1);
}

#[test]
fn mul_uses_wide_products() {
    assert_eq!(modular::mul(3, 4, 17), 12);
    let q: u64 = (1 << 62) - 57;
    assert_eq!(modular::mul(q - 1, q - 1, q), 1);
}

#[test]
fn inverse_of_coprime_value_multiplies_to_one() {
    let q: u64 = 65537;
    for a in 1..200u64 {
        let x = modular::inverse(a, q).unwrap();
        assert!(x < q);
        assert_eq!(modular::mul(a, x, q), 1);
    }
    assert_eq!(modular::inverse(3, 17), Ok(6));
}

#[test]
fn inverse_fails_for_shared_divisor() {
    assert_eq!(modular::inverse(6, 15), Err(EngineError::NotInvertible));
    assert_eq!(modular::inverse(0, 17), Err(EngineError::NotInvertible));
    assert_eq!(modular::inverse(0, 1), Ok(0));
}

#[test]
fn inverse_is_the_only_one() {
    let q: u64 = 91;
    for a in 0..q {
        let found: Vec<u64> = (0..q).filter(|x| modular::mul(a, *x, q) == 1).collect();
        match modular::inverse(a, q) {
            Ok(x) => assert_eq!(found, vec![x]),
            Err(e) => {
                assert_eq!(e, EngineError::NotInvertible);
                assert!(found.is_empty());
            }
        }
    }
}
