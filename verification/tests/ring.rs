use pqcrypto_sign_falcon::common::Polynomial;

#[test]
fn split_deinterleaves_by_parity() {
    let p = Polynomial::new(vec![1u32, 2, 3, 4, 5, 6]);
    let (even, odd) = p.split();
    assert_eq!(even.coefficients, vec![1, 3, 5]);
    assert_eq!(odd.coefficients, vec![2, 4, 6]);
}

#[test]
fn merge_interleaves_equal_halves() {
    let a = Polynomial::new(vec![1u32, 3]);
    let b = Polynomial::new(vec![2u32, 4]);
    let m = a.merge(b);
    assert_eq!(m.coefficients, vec![1, 2, 3, 4]);
}

#[test]
fn merge_appends_remainder_of_longer_operand() {
    let a = Polynomial::new(vec![1u32, 3, 9, 10]);
    let b = Polynomial::new(vec![2u32]);
    let m = a.merge(b);
    assert_eq!(m.coefficients, vec![1, 2, 3, 9, 10]);

    let a = Polynomial::new(vec![1u32]);
    let b = Polynomial::new(vec![2u32, 7, 8]);
    let m = a.merge(b);
    assert_eq!(m.coefficients, vec![1, 2, 7, 8]);
}

#[test]
fn merge_undoes_split() {
    let original = vec![11u32, 5, 0, 12288, 7, 9, 1, 2];
    let p = Polynomial::new(original.clone());
    let (even, odd) = p.split();
    let back = even.merge(odd);
    assert_eq!(back.coefficients, original);
}

#[test]
fn len_reports_coefficient_count() {
    let p = Polynomial::new(vec![0i16; 512]);
    assert_eq!(p.len(), 512);
}
