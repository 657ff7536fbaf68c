use pqcrypto_sign_falcon::common::Polynomial;
use pqcrypto_sign_falcon::ntt::{build_tables, NttTables, NTT};
use pqcrypto_sign_falcon::Q;

fn tables() -> NttTables {
    build_tables(10).expect("the tables exist for every size up to 1024")
}

fn poly(values: &[u32]) -> Polynomial<u32> {
    Polynomial::new(values.to_vec())
}

/// Schoolbook negacyclic convolution mod (x^n + 1), mod q.
fn naive_mul(a: &[u32], b: &[u32]) -> Vec<u32> {
    let n = a.len();
    let q = Q as u64;
    let mut acc = vec![0u64; n];
    for i in 0..n {
        for j in 0..n {
            let prod = (a[i] as u64) * (b[j] as u64) % q;
            if i + j < n {
                acc[i + j] = (acc[i + j] + prod) % q;
            } else {
                acc[i + j - n] = (acc[i + j - n] + q - prod) % q;
            }
        }
    }
    acc.into_iter().map(|x| x as u32).collect()
}

#[test]
fn intt_undoes_ntt_small() {
    let t = tables();
    let original = vec![1u32, 12288, 7, 0, 5000, 1234, 9999, 3];
    let p = poly(&original);
    let back = p.ntt(&t).intt(&t);
    assert_eq!(back.coefficients, original);
}

#[test]
fn intt_undoes_ntt_degree_512() {
    let t = tables();
    let original: Vec<u32> = (0..512u32).map(|i| (i * 31 + 7) % Q).collect();
    let p = poly(&original);
    let back = p.ntt(&t).intt(&t);
    assert_eq!(back.coefficients, original);
}

#[test]
fn ntt_undoes_intt() {
    let t = tables();
    let original = vec![42u32, 0, 12288, 17];
    let p = poly(&original);
    let back = p.intt(&t).ntt(&t);
    assert_eq!(back.coefficients, original);
}

#[test]
fn mul_matches_direct_convolution() {
    let t = tables();
    let a = vec![1u32, 2, 3, 4];
    let b = vec![5u32, 6, 7, 8];
    let expected = naive_mul(&a, &b);
    let got = poly(&a).mul(poly(&b), &t);
    assert_eq!(got.coefficients, expected);

    let a: Vec<u32> = (0..16u32).map(|i| (i * 997 + 11) % Q).collect();
    let b: Vec<u32> = (0..16u32).map(|i| (i * 5003 + 1) % Q).collect();
    let expected = naive_mul(&a, &b);
    let got = poly(&a).mul(poly(&b), &t);
    assert_eq!(got.coefficients, expected);
}

#[test]
fn mul_by_one_is_identity() {
    let t = tables();
    let a = vec![7u32, 11, 0, 12288, 3, 1, 2, 4];
    let mut one = vec![0u32; 8];
    one[0] = 1;
    let got = poly(&a).mul(poly(&one), &t);
    assert_eq!(got.coefficients, a);
}

#[test]
fn div_then_mul_restores_dividend() {
    let t = tables();
    let a = vec![3u32, 1, 4, 1, 5, 9, 2, 6];
    let b = vec![2u32, 7, 1, 8, 2, 8, 1, 8];
    let quot = poly(&a).div(poly(&b), &t).expect("divisor is invertible");
    let back = quot.mul(poly(&b), &t);
    assert_eq!(back.coefficients, a);
}

#[test]
fn div_by_zero_polynomial_fails() {
    let t = tables();
    let a = vec![3u32, 1, 4, 1];
    let zero = vec![0u32; 4];
    assert!(poly(&a).div(poly(&zero), &t).is_none());
}

#[test]
fn div_fails_exactly_on_zero_transform_coefficient() {
    let t = tables();
    // Craft a divisor whose transform has a zero: transform some b,
    // zero one coefficient, and transform back.
    let b = vec![2u32, 7, 1, 8];
    let mut fb = poly(&b).ntt(&t);
    fb.coefficients[2] = 0;
    let bad = fb.intt(&t);
    let a = vec![3u32, 1, 4, 1];
    assert!(poly(&a).div(bad, &t).is_none());
}

#[test]
fn pointwise_ring_operations() {
    let a = vec![5u32, 0, 12288, 7];
    let b = vec![3u32, 12288, 2, 7];
    let sum = poly(&a).add(poly(&b));
    assert_eq!(sum.coefficients, vec![8, 12288, 12290 % Q, 14]);
    let diff = poly(&a).sub(poly(&b));
    assert_eq!(diff.coefficients, vec![2, 1, 12286, 0]);
    let negated = poly(&b).neg();
    assert_eq!(negated.coefficients, vec![Q - 3, 1, Q - 2, Q - 7]);
}

#[test]
fn table_builder_depth_limit() {
    // q - 1 = 2^12 · 3, so square-root chains exist for eleven levels
    // (ring sizes up to 2048) and no further.
    assert!(build_tables(11).is_some());
    assert!(build_tables(12).is_none());
}

#[test]
fn table_builder_inverse_entries() {
    let t = tables();
    assert_eq!(t.inv.len(), Q as usize);
    assert_eq!(t.inv[1], 1);
    for b in [2u32, 3, 6145, 12288] {
        let j = t.inv[b as usize];
        assert_eq!((b as u64 * j as u64) % (Q as u64), 1);
    }
    // The size-2 root squares to -1 mod q.
    let s = t.roots[0][0] as u64;
    assert_eq!((s * s) % (Q as u64), (Q - 1) as u64);
}
