//! Integer core of the discrete Gaussian sampler: the cumulative-table
//! half-Gaussian base draw, the fixed-point exponential (64-bit, scale
//! 2^63), and the bytewise Bernoulli acceptance test. The floating-point
//! glue that derives the fixed-point arguments lives with the caller.

use vstd::prelude::*;
use vstd::arithmetic::power2::{pow2, lemma_pow2_unfold, lemma_pow2_strictly_increases, lemma2_to64, lemma2_to64_rest};
use vstd::arithmetic::div_mod::{lemma_div_is_ordered, lemma_small_mod};

use crate::ntt::pow2i;

verus! {

/// `pow2i` agrees with the standard power-of-two function.
pub proof fn lemma_pow2i_is_pow2(k: int)
    requires
        k >= 0,
    ensures
        pow2i(k) == pow2(k as nat),
    decreases k,
{
    if k == 0 {
        assert(pow2(0) == 1) by {
            lemma2_to64();
        }
    } else {
        lemma_pow2i_is_pow2(k - 1);
        lemma_pow2_unfold(k as nat);
    }
}

/// 2^k as a machine word, for shifts written as divisions.
fn pow2_u64(k: u64) -> (r: u64)
    requires
        k <= 63,
    ensures
        r as int == pow2i(k as int),
        r >= 1,
{
    proof {
        lemma2_to64();
        lemma2_to64_rest();
        lemma_pow2i_is_pow2(k as int);
        if k < 63 {
            lemma_pow2_strictly_increases(k as nat, 63);
        }
        assert(pow2(63) == 0x8000000000000000);
    }
    let mut p: u64 = 1;
    let mut i: u64 = 0;
    while i < k
        invariant
            i <= k <= 63,
            p as int == pow2i(i as int),
        decreases k - i,
    {
        proof {
            lemma_pow2i_is_pow2(i as int);
            lemma_pow2i_is_pow2(i as int + 1);
            lemma_pow2_strictly_increases(i as nat + 1, 64);
            lemma2_to64_rest();
            assert(pow2(64) == 0x10000000000000000);
        }
        p = p * 2;
        i = i + 1;
    }
    p
}

// ---------------------------------------------------------------------
// Base sampler.
// ---------------------------------------------------------------------

/// The value of a byte string read most significant byte first.
pub open spec fn bytes_val(b: Seq<u8>) -> int
    decreases b.len(),
{
    if b.len() == 0 {
        0
    } else {
        256 * bytes_val(b.drop_last()) + b.last() as int
    }
}

/// The cumulative half-Gaussian table (scale 2^72, width 1.8205).
pub open spec fn rcdt_at(k: int) -> int {
    if k == 0 {
        3024686241123004913666
    } else if k == 1 {
        1564742784480091954050
    } else if k == 2 {
        636254429462080897535
    } else if k == 3 {
        199560484645026482916
    } else if k == 4 {
        47667343854657281903
    } else if k == 5 {
        8595902006365044063
    } else if k == 6 {
        1163297957344668388
    } else if k == 7 {
        117656387352093658
    } else if k == 8 {
        8867391802663976
    } else if k == 9 {
        496969357462633
    } else if k == 10 {
        20680885154299
    } else if k == 11 {
        638331848991
    } else if k == 12 {
        14602316184
    } else if k == 13 {
        247426747
    } else if k == 14 {
        3104126
    } else if k == 15 {
        28824
    } else if k == 16 {
        198
    } else {
        1
    }
}

/// One table entry, executable.
fn rcdt_val(k: usize) -> (r: u128)
    requires
        k < 18,
    ensures
        r as int == rcdt_at(k as int),
{
    match k {
        0 => 3024686241123004913666,
        1 => 1564742784480091954050,
        2 => 636254429462080897535,
        3 => 199560484645026482916,
        4 => 47667343854657281903,
        5 => 8595902006365044063,
        6 => 1163297957344668388,
        7 => 117656387352093658,
        8 => 8867391802663976,
        9 => 496969357462633,
        10 => 20680885154299,
        11 => 638331848991,
        12 => 14602316184,
        13 => 247426747,
        14 => 3104126,
        15 => 28824,
        16 => 198,
        _ => 1,
    }
}

/// How many of the first `k` table entries strictly exceed `u`.
pub open spec fn count_exceeding(u: int, k: int) -> int
    decreases k,
{
    if k <= 0 {
        0
    } else {
        count_exceeding(u, k - 1) + if u < rcdt_at(k - 1) {
            1int
        } else {
            0int
        }
    }
}

/// Doubling eight times multiplies by 256.
proof fn lemma_pow2i_add8(k: int)
    requires
        k >= 0,
    ensures
        pow2i(k + 8) == 256 * pow2i(k),
{
    assert(pow2i(k + 8) == 2 * pow2i(k + 7));
    assert(pow2i(k + 7) == 2 * pow2i(k + 6));
    assert(pow2i(k + 6) == 2 * pow2i(k + 5));
    assert(pow2i(k + 5) == 2 * pow2i(k + 4));
    assert(pow2i(k + 4) == 2 * pow2i(k + 3));
    assert(pow2i(k + 3) == 2 * pow2i(k + 2));
    assert(pow2i(k + 2) == 2 * pow2i(k + 1));
    assert(pow2i(k + 1) == 2 * pow2i(k));
}

/// A big-endian byte string of length L reads below 2^(8L).
proof fn lemma_bytes_val_bound(b: Seq<u8>)
    ensures
        0 <= bytes_val(b) < pow2i(8 * b.len() as int),
    decreases b.len(),
{
    if b.len() == 0 {
    } else {
        lemma_bytes_val_bound(b.drop_last());
        lemma_pow2i_add8(8 * b.len() as int - 8);
    }
}

proof fn lemma_count_exceeding_bound(u: int, k: int)
    requires
        k >= 0,
    ensures
        0 <= count_exceeding(u, k) <= k,
    decreases k,
{
    if k > 0 {
        lemma_count_exceeding_bound(u, k - 1);
    }
}

/// Draw from the half-Gaussian: read the nine random bytes as a 72-bit
/// big-endian uniform value and count the cumulative-table entries that
/// strictly exceed it.
pub fn base_sampler(random_bytes: [u8; 9]) -> (r: u16)
    ensures
        r as int == count_exceeding(bytes_val(random_bytes@), 18),
        r <= 18,
{
    let mut u: u128 = 0;
    let mut i: usize = 0;
    while i < 9
        invariant
            i <= 9,
            u as int == bytes_val(random_bytes@.take(i as int)),
            (u as int) < pow2i(8 * i as int),
        decreases 9 - i,
    {
        proof {
            assert(random_bytes@.take(i as int + 1).drop_last() =~= random_bytes@.take(i as int));
            assert(random_bytes@.take(i as int + 1).last() == random_bytes@[i as int]);
            lemma_pow2i_add8(8 * i as int);
            lemma_pow2i_is_pow2(8 * i as int + 8);
            lemma_pow2_strictly_increases(8 * i as nat + 8, 128);
            vstd::arithmetic::power2::lemma_pow2_pos(128);
            lemma2_to64_rest();
            assert(pow2(128) == 0x100000000000000000000000000000000) by {
                vstd::arithmetic::power2::lemma_pow2_adds(64, 64);
                lemma2_to64_rest();
                assert(pow2(64) * pow2(64) == 0x10000000000000000 * 0x10000000000000000)
                    by (nonlinear_arith)
                    requires
                        pow2(64) == 0x10000000000000000,
                ;
            }
        }
        u = u * 256 + (random_bytes[i] as u128);
        i = i + 1;
    }
    proof {
        assert(random_bytes@.take(9) =~= random_bytes@);
    }
    let mut count: u16 = 0;
    let mut k: usize = 0;
    while k < 18
        invariant
            k <= 18,
            u as int == bytes_val(random_bytes@),
            count as int == count_exceeding(u as int, k as int),
            count <= k,
        decreases 18 - k,
    {
        proof {
            lemma_count_exceeding_bound(u as int, k as int);
        }
        if u < rcdt_val(k) {
            count = count + 1;
        }
        k = k + 1;
    }
    count
}

// ---------------------------------------------------------------------
// Fixed-point exponential.
// ---------------------------------------------------------------------

/// A 64x64 to 128-bit multiply followed by an arithmetic shift of 63,
/// truncated to 64 bits.
pub open spec fn mul_shift_spec(a: int, b: int) -> int {
    ((a * b) / 0x8000_0000_0000_0000) % 0x1_0000_0000_0000_0000
}

/// Fixed-point multiply-and-rescale at scale 2^63.
pub fn mul_shift(a: u64, b: u64) -> (r: u64)
    ensures
        r as int == mul_shift_spec(a as int, b as int),
{
    proof {
        assert((a as int) * (b as int) < 0x100000000000000000000000000000000) by (nonlinear_arith)
            requires
                (a as int) < 0x10000000000000000,
                (b as int) < 0x10000000000000000,
        ;
    }
    let p = (a as u128) * (b as u128);
    let shifted = p / 0x8000_0000_0000_0000;
    proof {
        assert(shifted as int == (a as int * b as int) / 0x8000_0000_0000_0000);
    }
    (shifted % 0x1_0000_0000_0000_0000) as u64
}

/// The polynomial coefficient table of the exponential approximation
/// (scale 2^63), from the constant down to the leading term.
pub open spec fn c_at(k: int) -> int {
    if k == 0 {
        0x00000004741183A3
    } else if k == 1 {
        0x00000036548CFC06
    } else if k == 2 {
        0x0000024FDCBF140A
    } else if k == 3 {
        0x0000171D939DE045
    } else if k == 4 {
        0x0000D00CF58F6F84
    } else if k == 5 {
        0x000680681CF796E3
    } else if k == 6 {
        0x002D82D8305B0FEA
    } else if k == 7 {
        0x011111110E066FD0
    } else if k == 8 {
        0x0555555555070F00
    } else if k == 9 {
        0x155555555581FF00
    } else if k == 10 {
        0x400000000002B400
    } else if k == 11 {
        0x7FFFFFFFFFFF4800
    } else {
        0x8000000000000000
    }
}

fn c_val(k: usize) -> (r: u64)
    requires
        k < 13,
    ensures
        r as int == c_at(k as int),
{
    match k {
        0 => 0x00000004741183A3,
        1 => 0x00000036548CFC06,
        2 => 0x0000024FDCBF140A,
        3 => 0x0000171D939DE045,
        4 => 0x0000D00CF58F6F84,
        5 => 0x000680681CF796E3,
        6 => 0x002D82D8305B0FEA,
        7 => 0x011111110E066FD0,
        8 => 0x0555555555070F00,
        9 => 0x155555555581FF00,
        10 => 0x400000000002B400,
        11 => 0x7FFFFFFFFFFF4800,
        _ => 0x8000000000000000,
    }
}

/// The Horner accumulator after folding the terms up to index `k`.
pub open spec fn horner(z: int, k: int) -> int
    decreases k,
{
    if k <= 0 {
        c_at(0)
    } else {
        c_at(k) - (z * horner(z, k - 1)) / 0x8000_0000_0000_0000
    }
}

/// 2^63 times ccs·exp(-x), for z and ccs given in fixed point: the full
/// Horner fold scaled by twice the fixed-point acceptance factor.
pub open spec fn approx_exp_spec(z: int, zccs: int) -> int {
    (2 * zccs * horner(z, 12)) / 0x8000_0000_0000_0000
}

/// The accumulator stays between the gap to the previous coefficient
/// and the current coefficient.
proof fn lemma_horner_bounds(z: int, k: int)
    requires
        0 <= z <= 0x8000_0000_0000_0000,
        0 <= k < 13,
    ensures
        0 <= horner(z, k) <= c_at(k),
        k >= 1 ==> c_at(k) - c_at(k - 1) <= horner(z, k),
    decreases k,
{
    if k >= 1 {
        lemma_horner_bounds(z, k - 1);
        let y = horner(z, k - 1);
        let m = (z * y) / 0x8000_0000_0000_0000;
        assert(z * y <= 0x8000_0000_0000_0000 * y) by (nonlinear_arith)
            requires
                0 <= z <= 0x8000_0000_0000_0000,
                0 <= y,
        ;
        assert(z * y >= 0) by (nonlinear_arith)
            requires
                0 <= z,
                0 <= y,
        ;
        lemma_div_is_ordered(z * y, 0x8000_0000_0000_0000 * y, 0x8000_0000_0000_0000);
        assert((0x8000_0000_0000_0000 * y) / 0x8000_0000_0000_0000 == y) by (nonlinear_arith)
            requires
                0 <= y,
        ;
        assert(0 <= m <= y);
    }
}

/// Fixed-point ccs·exp(-x) at scale 2^63 (as `approx_exp_spec`); the
/// argument bounds keep every subtraction of the fold above zero.
pub fn approx_exp_core(z: u64, zccs: u64) -> (r: u64)
    requires
        z <= 0x8000_0000_0000_0000,
        zccs < 0x8000_0000_0000_0000,
    ensures
        r as int == approx_exp_spec(z as int, zccs as int),
{
    let mut y: u64 = c_val(0);
    let mut k: usize = 1;
    while k < 13
        invariant
            1 <= k <= 13,
            z <= 0x8000_0000_0000_0000,
            y as int == horner(z as int, k as int - 1),
            y as int <= c_at(k as int - 1),
        decreases 13 - k,
    {
        proof {
            lemma_horner_bounds(z as int, k as int - 1);
            lemma_horner_bounds(z as int, k as int);
            let m = (z as int * y as int) / 0x8000_0000_0000_0000;
            assert(z as int * y as int <= 0x8000_0000_0000_0000 * y as int) by (nonlinear_arith)
                requires
                    0 <= z as int <= 0x8000_0000_0000_0000,
                    0 <= y as int,
            ;
            assert(z as int * y as int >= 0) by (nonlinear_arith)
                requires
                    0 <= z as int,
                    0 <= y as int,
            ;
            lemma_div_is_ordered(
                z as int * y as int,
                0x8000_0000_0000_0000 * y as int,
                0x8000_0000_0000_0000,
            );
            assert((0x8000_0000_0000_0000 * y as int) / 0x8000_0000_0000_0000 == y as int)
                by (nonlinear_arith)
                requires
                    0 <= y as int,
            ;
            assert(0 <= m <= y as int);
            lemma_small_mod(m as nat, 0x1_0000_0000_0000_0000);
            assert(c_at(k as int - 1) <= c_at(k as int));
        }
        let m = mul_shift(z, y);
        y = c_val(k) - m;
        k = k + 1;
    }
    proof {
        let zc: int = 2 * (zccs as int);
        let yi: int = y as int;
        assert(zc * yi >= 0) by (nonlinear_arith)
            requires
                zc >= 0,
                yi >= 0,
        ;
        assert(zc * yi <= zc * 0x8000_0000_0000_0000) by (nonlinear_arith)
            requires
                zc >= 0,
                yi <= 0x8000_0000_0000_0000,
        ;
        lemma_div_is_ordered(zc * yi, zc * 0x8000_0000_0000_0000, 0x8000_0000_0000_0000);
        assert((zc * 0x8000_0000_0000_0000) / 0x8000_0000_0000_0000 == zc) by (nonlinear_arith)
            requires
                zc >= 0,
        ;
        assert(zc < 0x1_0000_0000_0000_0000);
        lemma_small_mod(((zc * yi) / 0x8000_0000_0000_0000) as nat, 0x1_0000_0000_0000_0000);
        assert(y as int <= c_at(12));
    }
    mul_shift(2 * zccs, y)
}

// ---------------------------------------------------------------------
// Bernoulli acceptance test.
// ---------------------------------------------------------------------

/// Scan the probability word against the random bytes from the most
/// significant position down; the first differing byte decides, equality
/// throughout rejects. The word is read from bit 63 in steps of eight,
/// so its top byte is one bit wide.
pub open spec fn ber_cmp(w: int, bytes: Seq<u8>, j: int) -> bool
    decreases 7 - j,
{
    if j >= 7 {
        false
    } else if bytes[j] as int == (w / pow2i(63 - 8 * j)) % 256 {
        ber_cmp(w, bytes, j + 1)
    } else {
        (bytes[j] as int) < (w / pow2i(63 - 8 * j)) % 256
    }
}

/// The Bernoulli decision: accept with probability
/// 2^(-s)·ccs·exp(-r), all in fixed point.
pub open spec fn ber_exp_spec(zr: int, zccs: int, s: int, bytes: Seq<u8>) -> bool {
    let sc = if s < 63 {
        s
    } else {
        63
    };
    let w = (approx_exp_spec(zr, zccs) - 1) / pow2i(sc);
    ber_cmp(w, bytes, 0)
}

/// The scaled exponential stays at least one for any acceptance factor
/// of at least 2^47, so the decrement below cannot underflow.
proof fn lemma_approx_exp_pos(z: int, zccs: int)
    requires
        0 <= z <= 0x8000_0000_0000_0000,
        0x8000_0000_0000 <= zccs,
    ensures
        approx_exp_spec(z, zccs) >= 1,
{
    lemma_horner_bounds(z, 12);
    let y = horner(z, 12);
    assert(c_at(12) - c_at(11) == 0xB800);
    assert(y >= 0xB800);
    let zc: int = 2 * zccs;
    assert(zc * y >= 0x1_0000_0000_0000 * 0xB800) by (nonlinear_arith)
        requires
            zc >= 0x1_0000_0000_0000,
            y >= 0xB800,
    ;
    let lo: int = 0x1_0000_0000_0000int * 0xB800;
    lemma_div_is_ordered(lo, zc * y, 0x8000_0000_0000_0000);
    assert(lo / 0x8000_0000_0000_0000 == 1);
}

/// The acceptance test on fixed-point arguments: `zr` and `zccs` carry
/// the fractional exponent and the acceptance factor at scale 2^63, `s`
/// the whole binary exponent (capped at 63), and the seven random bytes
/// decide against the probability word bytewise from the top.
pub fn ber_exp_core(zr: u64, zccs: u64, s: u64, random_bytes: [u8; 7]) -> (r: bool)
    requires
        zr <= 0x8000_0000_0000_0000,
        0x8000_0000_0000 <= zccs < 0x8000_0000_0000_0000,
    ensures
        r == ber_exp_spec(zr as int, zccs as int, s as int, random_bytes@),
{
    let v = approx_exp_core(zr, zccs);
    proof {
        lemma_approx_exp_pos(zr as int, zccs as int);
    }
    let sc: u64 = if s < 63 {
        s
    } else {
        63
    };
    let p = pow2_u64(sc);
    let w = (v - 1) / p;
    let ghost wi = (approx_exp_spec(zr as int, zccs as int) - 1) / pow2i(sc as int);
    proof {
        assert(w as int == wi);
    }
    let mut j: usize = 0;
    while j < 7
        invariant
            j <= 7,
            w as int == wi,
            wi == (approx_exp_spec(zr as int, zccs as int) - 1) / pow2i(
                if (s as int) < 63 {
                    s as int
                } else {
                    63
                },
            ),
            ber_cmp(wi, random_bytes@, 0) == ber_cmp(wi, random_bytes@, j as int),
        decreases 7 - j,
    {
        let shift: u64 = 63 - 8 * (j as u64);
        let pj = pow2_u64(shift);
        let wb = (w / pj) % 256;
        proof {
            assert(wb as int == (wi / pow2i(63 - 8 * j as int)) % 256);
        }
        let bj = random_bytes[j];
        proof {
            assert(random_bytes@[j as int] == bj);
            if bj as int == (wi / pow2i(63 - 8 * j as int)) % 256 {
                assert(ber_cmp(wi, random_bytes@, j as int) == ber_cmp(
                    wi,
                    random_bytes@,
                    j as int + 1,
                ));
            } else {
                assert(ber_cmp(wi, random_bytes@, j as int) == ((bj as int) < (wi / pow2i(
                    63 - 8 * j as int,
                )) % 256));
            }
        }
        if (bj as u64) != wb {
            return (bj as u64) < wb;
        }
        j = j + 1;
    }
    false
}

// ---------------------------------------------------------------------
// Candidate construction.
// ---------------------------------------------------------------------

/// Turn a half-Gaussian draw and a sign bit into a signed candidate:
/// the bit selects between z0 + 1 and -z0, covering all integers.
pub fn candidate_z(z0: u16, bit: bool) -> (z: i32)
    ensures
        z as int == if bit {
            z0 as int + 1
        } else {
            -(z0 as int)
        },
{
    if bit {
        z0 as i32 + 1
    } else {
        -(z0 as i32)
    }
}

} // verus!
