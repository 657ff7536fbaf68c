use pqcrypto_sign_falcon::samplerz::{approx_exp_core, base_sampler, ber_exp_core, candidate_z, mul_shift};

use rand::rngs::StdRng;
use rand::{Rng, SeedableRng};

#[test]
fn base_sampler_extremes() {
    // A zero draw sits below every table entry.
    assert_eq!(base_sampler([0u8; 9]), 18);
    // The largest 72-bit draw exceeds every table entry.
    assert_eq!(base_sampler([0xFF; 9]), 0);
}

#[test]
fn base_sampler_reads_big_endian() {
    // The value one (last byte least significant) sits below all
    // entries except the final 1.
    let mut bytes = [0u8; 9];
    bytes[8] = 1;
    assert_eq!(base_sampler(bytes), 17);
    // The same byte at the front makes 2^64 instead, which only the
    // five largest table entries exceed.
    let mut bytes = [0u8; 9];
    bytes[0] = 1;
    assert_eq!(base_sampler(bytes), 5);
}

#[test]
fn mul_shift_rescales_products() {
    assert_eq!(mul_shift(1u64 << 63, 3), 3);
    assert_eq!(mul_shift(1u64 << 62, 6), 3);
    assert_eq!(mul_shift(5, 7), 0);
}

#[test]
fn approx_exp_of_zero_scales_the_factor() {
    // exp(0) = 1, so the result is exactly twice the fixed-point factor.
    assert_eq!(approx_exp_core(0, 1u64 << 62), 1u64 << 63);
    assert_eq!(approx_exp_core(0, 3u64 << 60), 3u64 << 61);
}

#[test]
fn ber_exp_extreme_bytes() {
    // All-zero random bytes fall below a near-one probability: accept.
    assert!(ber_exp_core(0, 1u64 << 62, 0, [0u8; 7]));
    // All-ones random bytes exceed it: reject.
    assert!(!ber_exp_core(0, 1u64 << 62, 0, [0xFF; 7]));
}

#[test]
fn candidate_covers_both_signs() {
    assert_eq!(candidate_z(5, true), 6);
    assert_eq!(candidate_z(5, false), -5);
    assert_eq!(candidate_z(0, true), 1);
    assert_eq!(candidate_z(0, false), 0);
}

const LN_2: f64 = core::f64::consts::LN_2;

fn compute_z(x: f64) -> u64 {
    f64::floor(x * (1u64 << 63) as f64) as u64
}

/// The sampler loop around the verified integer core, with the
/// floating-point argument preparation done here as a caller would.
fn sampler_z(mu: f64, sigma: f64, sigmin: f64, rng: &mut StdRng) -> i64 {
    const SIGMAX: f64 = 1.8205;
    let inv_2sigmax2 = 1f64 / (2f64 * SIGMAX * SIGMAX);
    let s = f64::floor(mu);
    let r = mu - s;
    let dss = 1f64 / (2f64 * sigma * sigma);
    let ccs = sigmin / sigma;
    loop {
        let mut b9 = [0u8; 9];
        rng.fill_bytes(&mut b9);
        let z0 = base_sampler(b9);
        let mut b1 = [0u8; 1];
        rng.fill_bytes(&mut b1);
        let z = candidate_z(z0, b1[0] & 1 == 1);
        let zr = z as f64 - r;
        let x = zr * zr * dss - (z0 as f64) * (z0 as f64) * inv_2sigmax2;
        let whole = f64::floor(x / LN_2);
        let frac = x - whole * LN_2;
        let mut b7 = [0u8; 7];
        rng.fill_bytes(&mut b7);
        if ber_exp_core(compute_z(frac), compute_z(ccs), whole as u64, b7) {
            return z as i64 + s as i64;
        }
    }
}

#[test]
fn sampler_statistics_match_the_target_gaussian() {
    let mut rng = StdRng::seed_from_u64(20251011);
    let draws = 100_000usize;
    let (sigma, sigmin) = (1.5f64, 1.2f64);
    let mut sum = 0f64;
    let mut sum_sq = 0f64;
    for _ in 0..draws {
        let z = sampler_z(0.0, sigma, sigmin, &mut rng) as f64;
        sum += z;
        sum_sq += z * z;
    }
    let mean = sum / draws as f64;
    let var = sum_sq / draws as f64 - mean * mean;
    assert!(mean.abs() < 0.05, "empirical mean {mean} too far from 0");
    assert!((var - sigma * sigma).abs() < 0.15, "empirical variance {var} too far from {}", sigma * sigma);
}

#[test]
fn sampler_follows_a_negative_mean() {
    let mut rng = StdRng::seed_from_u64(42);
    let draws = 20_000usize;
    let mu = -10.5f64;
    let mut sum = 0f64;
    for _ in 0..draws {
        sum += sampler_z(mu, 1.5, 1.2, &mut rng) as f64;
    }
    let mean = sum / draws as f64;
    assert!((mean - mu).abs() < 0.1, "empirical mean {mean} too far from {mu}");
}
