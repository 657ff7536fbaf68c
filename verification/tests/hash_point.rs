use pqcrypto_sign_falcon::common::Polynomial;
use pqcrypto_sign_falcon::Q;

#[test]
fn hash_to_point_is_deterministic() {
    let salt = [0u8; 40];
    let a = Polynomial::hash_to_point(b"a message", &salt, 64).unwrap();
    let b = Polynomial::hash_to_point(b"a message", &salt, 64).unwrap();
    assert_eq!(a.coefficients, b.coefficients);
}

#[test]
fn hash_to_point_depends_on_the_salt() {
    let msg = b"a message";
    let a = Polynomial::hash_to_point(msg, &[0u8; 40], 64).unwrap();
    let b = Polynomial::hash_to_point(msg, &[1u8; 40], 64).unwrap();
    assert_ne!(a.coefficients, b.coefficients);
}

#[test]
fn hash_to_point_depends_on_the_message() {
    let salt = [7u8; 40];
    let a = Polynomial::hash_to_point(b"first", &salt, 64).unwrap();
    let b = Polynomial::hash_to_point(b"second", &salt, 64).unwrap();
    assert_ne!(a.coefficients, b.coefficients);
}

#[test]
fn degree_512_scenario_reproducible_in_range() {
    let params = pqcrypto_sign_falcon::falcon::falcon_512();
    let salt = [0u8; 40];
    let first = Polynomial::hash_to_point(b"test", &salt, params.n).unwrap();
    let second = Polynomial::hash_to_point(b"test", &salt, params.n).unwrap();
    assert_eq!(first.coefficients.len(), 512);
    assert!(first.coefficients.iter().all(|&c| c < Q));
    assert_eq!(first.coefficients, second.coefficients);
}
