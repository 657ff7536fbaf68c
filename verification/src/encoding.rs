//! Sign-magnitude bit codec for signature payloads: each signed
//! coefficient becomes a sign bit, its seven low magnitude bits, one
//! continuation bit per further multiple of 128, and a zero terminator;
//! the stream is padded with zero bits to an exact byte budget.

use vstd::prelude::*;
use vstd::arithmetic::div_mod::{
    lemma_div_denominator, lemma_fundamental_div_mod, lemma_fundamental_div_mod_converse_mod,
    lemma_small_mod,
};

use crate::ntt::{pow2i, lemma_pow2i_pos};

verus! {

/// The coefficients of `s` as unbounded integers.
pub open spec fn i16val(s: Seq<i16>) -> Seq<int> {
    Seq::new(s.len(), |i: int| s[i] as int)
}

/// The low `w` bits of `s`, most significant first.
pub open spec fn lowbits(s: int, w: int) -> Seq<bool> {
    Seq::new(w as nat, |i: int| (s / pow2i(w - 1 - i)) % 2 == 1)
}

/// The value of a bit string read most significant bit first.
pub open spec fn bits_val(b: Seq<bool>) -> int
    decreases b.len(),
{
    if b.len() == 0 {
        0
    } else {
        2 * bits_val(b.drop_last()) + if b.last() {
            1int
        } else {
            0int
        }
    }
}

/// The bit encoding of one signed coefficient.
pub open spec fn coef_bits(c: int) -> Seq<bool> {
    let s = if c < 0 {
        -c
    } else {
        c
    };
    seq![c < 0] + lowbits(s, 7) + Seq::new((s / 128) as nat, |i: int| true) + seq![false]
}

/// The concatenated bit encoding of a coefficient sequence.
pub open spec fn bits_of(v: Seq<int>) -> Seq<bool>
    decreases v.len(),
{
    if v.len() == 0 {
        Seq::empty()
    } else {
        coef_bits(v[0]) + bits_of(v.drop_first())
    }
}

/// Bits packed into bytes, eight per byte, most significant first.
pub open spec fn bytes_of_bits(b: Seq<bool>) -> Seq<u8> {
    Seq::new(b.len() / 8, |i: int| bits_val(b.subrange(8 * i, 8 * i + 8)) as u8)
}

/// The bit stream a byte string carries.
pub open spec fn bits_of_bytes(x: Seq<u8>) -> Seq<bool> {
    Seq::new(8 * x.len(), |i: int| (x[i / 8] as int / pow2i(7 - (i % 8))) % 2 == 1)
}

/// The padded, byte-packed encoding, defined when the bits fit the
/// budget of `slen` bytes.
pub open spec fn spec_compress(v: Seq<int>, slen: int) -> Option<Seq<u8>> {
    if bits_of(v).len() > 8 * slen {
        None
    } else {
        Some(bytes_of_bits(bits_of(v) + Seq::new((8 * slen - bits_of(v).len()) as nat, |i: int| false)))
    }
}

/// The first position at or after `pos` holding a zero bit, or -1.
pub open spec fn find_term(b: Seq<bool>, pos: int) -> int
    decreases b.len() - pos,
{
    if pos < 0 || pos >= b.len() {
        -1
    } else if !b[pos] {
        pos
    } else {
        find_term(b, pos + 1)
    }
}

/// Parse `n` coefficients from the bit stream starting at `pos`:
/// nothing on truncation, a too-long unary run, or a value outside the
/// signed 16-bit range.
pub open spec fn parse_rec(b: Seq<bool>, pos: int, n: nat) -> Option<Seq<int>>
    decreases n,
{
    if n == 0 {
        Some(Seq::empty())
    } else if pos < 0 || pos + 8 > b.len() {
        None
    } else {
        let sign = b[pos];
        let low = bits_val(b.subrange(pos + 1, pos + 8));
        let t = find_term(b, pos + 8);
        if t < 0 {
            None
        } else {
            let mag = (t - (pos + 8)) * 128 + low;
            let v = if sign {
                -mag
            } else {
                mag
            };
            if v < -32768 || v > 32767 {
                None
            } else {
                match parse_rec(b, t + 1, (n - 1) as nat) {
                    None => None,
                    Some(rest) => Some(seq![v] + rest),
                }
            }
        }
    }
}

/// Decompression of a byte string against a budget: refused over
/// budget, else parsed bitwise.
pub open spec fn spec_decompress(x: Seq<u8>, slen: int, n: nat) -> Option<Seq<int>> {
    if x.len() > slen {
        None
    } else {
        parse_rec(bits_of_bytes(x), 0, n)
    }
}

// ---------------------------------------------------------------------
// Bit-value arithmetic.
// ---------------------------------------------------------------------

pub proof fn lemma_bits_val_bound(b: Seq<bool>)
    ensures
        0 <= bits_val(b) < pow2i(b.len() as int),
    decreases b.len(),
{
    if b.len() == 0 {
    } else {
        lemma_bits_val_bound(b.drop_last());
    }
}

/// Reading back the low `w` bits of `s` gives `s` mod 2^w.
pub proof fn lemma_bits_val_lowbits(s: int, w: int)
    requires
        s >= 0,
        w >= 0,
    ensures
        bits_val(lowbits(s, w)) == s % pow2i(w),
    decreases w,
{
    if w == 0 {
        assert(lowbits(s, 0).len() == 0);
        assert(s % 1 == 0);
    } else {
        lemma_bits_val_lowbits(s / 2, w - 1);
        let ll = lowbits(s, w);
        assert(ll.drop_last() =~= lowbits(s / 2, w - 1)) by {
            assert forall|i: int| 0 <= i < w - 1 implies ll.drop_last()[i] == lowbits(
                s / 2,
                w - 1,
            )[i] by {
                lemma_pow2i_pos(w - 2 - i);
                lemma_div_denominator(s, 2, pow2i(w - 2 - i));
                assert(2 * pow2i(w - 2 - i) == pow2i(w - 1 - i));
            }
        }
        assert(ll.last() == (s % 2 == 1)) by {
            assert(ll.last() == ll[w - 1]);
            assert(ll[w - 1] == ((s / pow2i(w - 1 - (w - 1))) % 2 == 1));
            assert(pow2i(0) == 1);
            assert(s / 1 == s);
        }
        let h = s / 2;
        let r = s % 2;
        assert(r == 0 || r == 1);
        lemma_pow2i_pos(w - 1);
        lemma_fundamental_div_mod(s, 2);
        lemma_fundamental_div_mod(h, pow2i(w - 1));
        let k = h / pow2i(w - 1);
        let hr = h % pow2i(w - 1);
        assert(s == 2 * (pow2i(w - 1) * k + hr) + r);
        assert(s == k * pow2i(w) + (2 * hr + r)) by (nonlinear_arith)
            requires
                s == 2 * (pow2i(w - 1) * k + hr) + r,
                pow2i(w) == 2 * pow2i(w - 1),
        ;
        assert(0 <= 2 * hr + r < pow2i(w));
        lemma_fundamental_div_mod_converse_mod(s, pow2i(w), k, 2 * hr + r);
    }
}

/// Each bit of a packed value can be read back by division: bit `j`
/// (most significant first) of `bits_val(b)` is `b[j]`.
pub proof fn lemma_bits_val_extract(b: Seq<bool>, j: int)
    requires
        0 <= j < b.len(),
    ensures
        (bits_val(b) / pow2i(b.len() as int - 1 - j)) % 2 == 1 <==> b[j],
    decreases b.len(),
{
    let w = b.len() as int;
    lemma_bits_val_bound(b.drop_last());
    let a = bits_val(b.drop_last());
    let c: int = if b.last() {
        1
    } else {
        0
    };
    if j == w - 1 {
        assert(pow2i(0) == 1);
        assert(bits_val(b) == 2 * a + c);
        assert((2 * a + c) % 2 == c) by {
            lemma_fundamental_div_mod_converse_mod(2 * a + c, 2, a, c);
        }
    } else {
        lemma_bits_val_extract(b.drop_last(), j);
        lemma_pow2i_pos(w - 2 - j);
        assert(bits_val(b) == 2 * a + c);
        assert((2 * a + c) / 2 == a) by {
            lemma_fundamental_div_mod_converse_mod(2 * a + c, 2, a, c);
            assert(2 * a + c == a * 2 + c);
            vstd::arithmetic::div_mod::lemma_fundamental_div_mod_converse_div(2 * a + c, 2, a, c);
        }
        lemma_div_denominator(2 * a + c, 2, pow2i(w - 2 - j));
        assert(2 * pow2i(w - 2 - j) == pow2i(w - 1 - j));
    }
}

/// Packing bits into bytes and reading them back is the identity on
/// byte-aligned bit strings.
pub proof fn lemma_bits_bytes_roundtrip(b: Seq<bool>)
    requires
        b.len() % 8 == 0,
    ensures
        bits_of_bytes(bytes_of_bits(b)) == b,
{
    let x = bytes_of_bits(b);
    assert(x.len() == b.len() / 8);
    assert forall|i: int| 0 <= i < b.len() implies bits_of_bytes(x)[i] == b[i] by {
        let chunk = b.subrange(8 * (i / 8), 8 * (i / 8) + 8);
        lemma_bits_val_bound(chunk);
        assert(pow2i(8) == 256) by {
            assert(pow2i(0) == 1);
            assert(pow2i(1) == 2);
            assert(pow2i(2) == 4);
            assert(pow2i(3) == 8);
            assert(pow2i(4) == 16);
            assert(pow2i(5) == 32);
            assert(pow2i(6) == 64);
            assert(pow2i(7) == 128);
        }
        assert(x[i / 8] as int == bits_val(chunk));
        lemma_bits_val_extract(chunk, i % 8);
        assert(chunk[i % 8] == b[i]);
    }
    assert(bits_of_bytes(x) =~= b);
}

/// Appending one coefficient appends its bits.
pub proof fn lemma_bits_of_snoc(v: Seq<int>, c: int)
    ensures
        bits_of(v.push(c)) == bits_of(v) + coef_bits(c),
    decreases v.len(),
{
    if v.len() == 0 {
        assert(v.push(c).drop_first() =~= Seq::<int>::empty());
        assert(bits_of(Seq::<int>::empty()) == Seq::<bool>::empty());
        assert(v.push(c)[0] == c);
        assert(bits_of(v.push(c)) == coef_bits(c) + Seq::<bool>::empty());
        assert(coef_bits(c) + Seq::<bool>::empty() =~= coef_bits(c));
        assert(bits_of(v) + coef_bits(c) =~= coef_bits(c));
    } else {
        lemma_bits_of_snoc(v.drop_first(), c);
        assert(v.push(c).drop_first() =~= v.drop_first().push(c));
        assert(bits_of(v.push(c)) == coef_bits(v[0]) + bits_of(v.drop_first().push(c)));
        assert(coef_bits(v[0]) + (bits_of(v.drop_first()) + coef_bits(c)) =~= (coef_bits(v[0])
            + bits_of(v.drop_first())) + coef_bits(c));
    }
}

/// A scan that sees only one bits from `p` up to (but not including) `e`
/// and a zero bit at `e` stops at `e`.
proof fn lemma_find_term_at(b: Seq<bool>, p: int, e: int)
    requires
        0 <= p <= e < b.len(),
        forall|m: int| p <= m < e ==> b[m],
        !b[e],
    ensures
        find_term(b, p) == e,
    decreases e - p,
{
    if p < e {
        lemma_find_term_at(b, p + 1, e);
    }
}

/// A scan that sees only one bits to the end finds no terminator.
proof fn lemma_find_term_none(b: Seq<bool>, p: int)
    requires
        0 <= p,
        forall|m: int| p <= m < b.len() ==> b[m],
    ensures
        find_term(b, p) == -1,
    decreases b.len() - p,
{
    if p < b.len() {
        lemma_find_term_none(b, p + 1);
    }
}

/// pow2i at the byte-level widths, unfolded.
proof fn lemma_pow2i_small()
    ensures
        pow2i(0) == 1,
        pow2i(1) == 2,
        pow2i(2) == 4,
        pow2i(3) == 8,
        pow2i(4) == 16,
        pow2i(5) == 32,
        pow2i(6) == 64,
        pow2i(7) == 128,
        pow2i(8) == 256,
{
}

/// Parsing bits that carry the encoding of `v` yields `v` back,
/// whatever follows the encoding in the stream.
pub proof fn lemma_parse_bits(v: Seq<int>, b: Seq<bool>, pos: int)
    requires
        0 <= pos,
        pos + bits_of(v).len() <= b.len(),
        b.subrange(pos, pos + bits_of(v).len() as int) == bits_of(v),
        forall|i: int| 0 <= i < v.len() ==> -32768 <= #[trigger] v[i] <= 32767,
    ensures
        parse_rec(b, pos, v.len()) == Some(v),
    decreases v.len(),
{
    lemma_pow2i_small();
    if v.len() == 0 {
        assert(v =~= Seq::<int>::empty());
    } else {
        let c = v[0];
        let s = if c < 0 {
            -c
        } else {
            c
        };
        let cb = coef_bits(c);
        let cnt = s / 128;
        assert(cnt >= 0);
        let clen = cb.len() as int;
        assert(clen == 9 + cnt);
        let vb = bits_of(v);
        let rest_bits = bits_of(v.drop_first());
        assert(vb == cb + rest_bits);
        assert(forall|k: int| 0 <= k < vb.len() ==> b[pos + k] == #[trigger] vb[k]) by {
            assert(forall|k: int|
                0 <= k < vb.len() ==> b.subrange(pos, pos + vb.len() as int)[k] == #[trigger] vb[k]);
        }
        assert(b.subrange(pos, pos + vb.len() as int)[0] == b[pos]);
        assert(b[pos] == vb[0]);
        assert(vb[0] == cb[0]);
        assert(cb[0] == (c < 0));
        assert(b.subrange(pos + 1, pos + 8) =~= lowbits(s, 7)) by {
            assert forall|i: int| 0 <= i < 7 implies b.subrange(pos + 1, pos + 8)[i] == lowbits(
                s,
                7,
            )[i] by {
                assert(b[pos + 1 + i] == vb[1 + i]);
                assert(vb[1 + i] == cb[1 + i]);
                assert(cb[1 + i] == lowbits(s, 7)[i]);
            }
        }
        lemma_bits_val_lowbits(s, 7);
        assert(bits_val(b.subrange(pos + 1, pos + 8)) == s % 128);
        assert(forall|m: int| pos + 8 <= m < pos + 8 + cnt ==> b[m]) by {
            assert forall|m: int| pos + 8 <= m < pos + 8 + cnt implies b[m] by {
                assert(b[m] == vb[m - pos]);
                assert(vb[m - pos] == cb[m - pos]);
                assert(cb[m - pos] == Seq::new(cnt as nat, |i: int| true)[m - pos - 8]);
            }
        }
        assert(!b[pos + 8 + cnt]) by {
            assert(b[pos + 8 + cnt] == vb[8 + cnt]);
            assert(vb[8 + cnt] == cb[8 + cnt]);
        }
        lemma_find_term_at(b, pos + 8, pos + 8 + cnt);
        lemma_fundamental_div_mod(s, 128);
        assert(cnt * 128 + s % 128 == s);
        let parsed_v = if c < 0 {
            -s
        } else {
            s
        };
        assert(parsed_v == c);
        assert(-32768 <= c <= 32767);
        assert(b.subrange(pos + clen, pos + clen + rest_bits.len() as int) =~= rest_bits) by {
            assert forall|k: int|
                0 <= k < rest_bits.len() implies b.subrange(
                pos + clen,
                pos + clen + rest_bits.len() as int,
            )[k] == rest_bits[k] by {
                assert(b[pos + clen + k] == vb[clen + k]);
                assert(vb[clen + k] == rest_bits[k]);
            }
        }
        assert(forall|i: int|
            0 <= i < v.drop_first().len() ==> -32768 <= #[trigger] v.drop_first()[i] <= 32767) by {
            assert(forall|i: int|
                0 <= i < v.drop_first().len() ==> v.drop_first()[i] == #[trigger] v[i + 1]);
        }
        lemma_parse_bits(v.drop_first(), b, pos + clen);
        assert(parse_rec(b, pos + clen, v.drop_first().len()) == Some(v.drop_first()));
        assert(seq![c] + v.drop_first() =~= v);
    }
}

/// Compression within budget succeeds, and decompressing its output
/// with the same budget and count restores the coefficients exactly.
pub proof fn lemma_compress_decompress(v: Seq<int>, slen: int)
    requires
        0 <= slen,
        forall|i: int| 0 <= i < v.len() ==> -32768 <= #[trigger] v[i] <= 32767,
        bits_of(v).len() <= 8 * slen,
    ensures
        spec_compress(v, slen) is Some,
        spec_decompress(spec_compress(v, slen).unwrap(), slen, v.len()) == Some(v),
{
    let padded = bits_of(v) + Seq::new((8 * slen - bits_of(v).len()) as nat, |i: int| false);
    assert(padded.len() == 8 * slen);
    let x = bytes_of_bits(padded);
    assert(x.len() == slen);
    lemma_bits_bytes_roundtrip(padded);
    assert(padded.subrange(0, bits_of(v).len() as int) =~= bits_of(v));
    lemma_parse_bits(v, padded, 0);
}

// ---------------------------------------------------------------------
// Executable codec.
// ---------------------------------------------------------------------

/// 2^k for the byte-level widths.
fn pow2_small(k: usize) -> (r: u32)
    requires
        k <= 7,
    ensures
        r as int == pow2i(k as int),
        1 <= r <= 128,
{
    proof {
        lemma_pow2i_small();
    }
    match k {
        0 => 1,
        1 => 2,
        2 => 4,
        3 => 8,
        4 => 16,
        5 => 32,
        6 => 64,
        _ => 128,
    }
}

/// Bit `i` of the byte string, most significant bit of each byte first.
fn get_bit(x: &[u8], i: usize) -> (r: bool)
    requires
        x@.len() <= usize::MAX / 8,
        i < 8 * x@.len(),
    ensures
        r == bits_of_bytes(x@)[i as int],
{
    let byte = x[i / 8];
    let p = pow2_small(7 - (i % 8));
    ((byte as u32) / p) % 2 == 1
}

/// The first position at or after `start` holding a zero bit; the
/// total bit length when every remaining bit is one.
fn scan_term(x: &[u8], start: usize) -> (t: usize)
    requires
        x@.len() <= usize::MAX / 8,
        start <= 8 * x@.len(),
    ensures
        start <= t <= 8 * x@.len(),
        forall|m: int| start <= m < t ==> bits_of_bytes(x@)[m],
        t < 8 * x@.len() ==> !bits_of_bytes(x@)[t as int],
{
    let total = 8 * x.len();
    let mut t: usize = start;
    while t < total
        invariant
            x@.len() <= usize::MAX / 8,
            total == 8 * x@.len(),
            start <= t <= total,
            forall|m: int| start <= m < t ==> bits_of_bytes(x@)[m],
        decreases total - t,
    {
        if !get_bit(x, t) {
            return t;
        }
        t = t + 1;
    }
    t
}

/// Compression of signed coefficient arrays into a fixed byte budget.
pub trait Compression {
    /// Encode the coefficients and pad to exactly `slen` bytes; nothing
    /// when the encoding alone overruns the budget.
    fn compress(v: &[i16], slen: usize) -> (r: Option<Vec<u8>>)
        requires
            slen <= usize::MAX / 8,
        ensures
            match r {
                Some(bytes) => bits_of(i16val(v@)).len() <= 8 * slen && Some(bytes@)
                    == spec_compress(i16val(v@), slen as int) && bytes@.len() == slen,
                None => bits_of(i16val(v@)).len() > 8 * slen,
            },
    ;
}

/// Decompression of byte buffers back into signed coefficient arrays.
pub trait Decompression {
    /// Decode `n` coefficients; nothing past the budget, on truncation,
    /// or on a structurally malformed stream.
    fn decompress(x: &[u8], slen: usize, n: usize) -> (r: Option<Vec<i16>>)
        requires
            slen <= usize::MAX / 8,
        ensures
            match r {
                Some(vals) => vals@.len() == n && spec_decompress(x@, slen as int, n as nat)
                    == Some(i16val(vals@)),
                None => spec_decompress(x@, slen as int, n as nat) is None,
            },
    ;
}

/// The straightforward bit-at-a-time encoder.
pub struct NaiveCompression;

/// The straightforward bit-at-a-time decoder.
pub struct NaiveDecompression;

impl Compression for NaiveCompression {
    fn compress(v: &[i16], slen: usize) -> (r: Option<Vec<u8>>) {
        let ghost vals = i16val(v@);
        let n = v.len();
        let mut bits: Vec<bool> = Vec::new();
        let mut k: usize = 0;
        while k < n
            invariant
                n == v@.len(),
                k <= n,
                vals == i16val(v@),
                bits@ == bits_of(vals.take(k as int)),
            decreases n - k,
        {
            let c = v[k];
            proof {
                assert(vals[k as int] == c as int);
            }
            let neg = c < 0;
            let s: u32 = if c >= 0 {
                c as u32
            } else {
                (-(c as i32)) as u32
            };
            let ghost ci = c as int;
            let ghost si: int = if ci < 0 {
                -ci
            } else {
                ci
            };
            proof {
                assert(s as int == si);
                lemma_pow2i_small();
            }
            let ghost base = bits@;
            bits.push(neg);
            let mut j: usize = 0;
            while j < 7
                invariant
                    j <= 7,
                    s as int == si,
                    neg == (ci < 0),
                    bits@ == base + seq![neg] + lowbits(si, 7).take(j as int),
                decreases 7 - j,
            {
                let p = pow2_small(6 - j);
                let bit = (s / p) % 2 == 1;
                bits.push(bit);
                j = j + 1;
                proof {
                    assert(lowbits(si, 7)[j as int - 1] == ((si / pow2i(6 - (j as int - 1))) % 2
                        == 1));
                    assert(bits@ =~= base + seq![neg] + lowbits(si, 7).take(j as int));
                }
            }
            proof {
                assert(lowbits(si, 7).take(7) =~= lowbits(si, 7));
            }
            let cnt = s / 128;
            let mut m: u32 = 0;
            while m < cnt
                invariant
                    m <= cnt,
                    cnt == s / 128,
                    s as int == si,
                    neg == (ci < 0),
                    bits@ == base + seq![neg] + lowbits(si, 7) + Seq::new(
                        (si / 128) as nat,
                        |i: int| true,
                    ).take(m as int),
                decreases cnt - m,
            {
                bits.push(true);
                m = m + 1;
                proof {
                    assert(bits@ =~= base + seq![neg] + lowbits(si, 7) + Seq::new(
                        (si / 128) as nat,
                        |i: int| true,
                    ).take(m as int));
                }
            }
            bits.push(false);
            k = k + 1;
            proof {
                let ones = Seq::new((si / 128) as nat, |i: int| true);
                assert(ones.take(cnt as int) =~= ones);
                assert(bits@ =~= base + (seq![neg] + lowbits(si, 7) + ones + seq![false]));
                assert(coef_bits(ci) == seq![ci < 0] + lowbits(si, 7) + ones + seq![false]);
                assert(seq![neg] =~= seq![ci < 0]);
                lemma_bits_of_snoc(vals.take(k as int - 1), vals[k as int - 1]);
                assert(vals.take(k as int) =~= vals.take(k as int - 1).push(vals[k as int - 1]));
                assert(bits@ =~= bits_of(vals.take(k as int)));
            }
        }
        proof {
            assert(vals.take(n as int) =~= vals);
        }
        if bits.len() > 8 * slen {
            return None;
        }
        let total = 8 * slen;
        let ghost padded = bits_of(vals) + Seq::new(
            (8 * slen - bits_of(vals).len()) as nat,
            |i: int| false,
        );
        proof {
            assert(bits@ =~= padded.take(bits@.len() as int));
        }
        while bits.len() < total
            invariant
                total == 8 * slen,
                bits_of(vals).len() <= bits@.len() <= total,
                padded.len() == total,
                padded == bits_of(vals) + Seq::new(
                    (8 * slen - bits_of(vals).len()) as nat,
                    |i: int| false,
                ),
                bits@ == padded.take(bits@.len() as int),
            decreases total - bits@.len(),
        {
            bits.push(false);
            proof {
                assert(padded[bits@.len() as int - 1] == false);
                assert(bits@ =~= padded.take(bits@.len() as int));
            }
        }
        proof {
            assert(bits@ =~= padded);
        }
        let mut out: Vec<u8> = Vec::new();
        let mut i: usize = 0;
        while i < slen
            invariant
                total == 8 * slen,
                slen <= usize::MAX / 8,
                bits@ == padded,
                padded.len() == total,
                out@.len() == i,
                i <= slen,
                out@ == bytes_of_bits(padded).take(i as int),
            decreases slen - i,
        {
            let mut byte: u32 = 0;
            let mut j: usize = 0;
            while j < 8
                invariant
                    j <= 8,
                    i < slen,
                    total == 8 * slen,
                    bits@ == padded,
                    padded.len() == total,
                    byte as int == bits_val(padded.subrange(8 * i as int, 8 * i as int + j as int)),
                    0 <= byte < 256,
                decreases 8 - j,
            {
                proof {
                    let ch = padded.subrange(8 * i as int, 8 * i as int + j as int);
                    lemma_bits_val_bound(ch);
                    lemma_pow2i_small();
                    if j < 7 {
                        crate::ntt::lemma_pow2i_increases(j as int, 7);
                    }
                }
                let bval: u32 = if bits[8 * i + j] {
                    1
                } else {
                    0
                };
                byte = byte * 2 + bval;
                j = j + 1;
                proof {
                    let ch = padded.subrange(8 * i as int, 8 * i as int + j as int);
                    assert(ch.drop_last() =~= padded.subrange(
                        8 * i as int,
                        8 * i as int + j as int - 1,
                    ));
                    assert(ch.last() == padded[8 * i as int + j as int - 1]);
                    lemma_bits_val_bound(ch);
                    lemma_pow2i_small();
                    if j < 8 {
                        crate::ntt::lemma_pow2i_increases(j as int, 8);
                    }
                }
            }
            out.push(byte as u8);
            i = i + 1;
            proof {
                assert(bytes_of_bits(padded)[i as int - 1] == bits_val(
                    padded.subrange(8 * (i as int - 1), 8 * (i as int - 1) + 8),
                ) as u8);
                assert(out@ =~= bytes_of_bits(padded).take(i as int));
            }
        }
        proof {
            assert(out@ =~= bytes_of_bits(padded));
        }
        Some(out)
    }
}

impl Decompression for NaiveDecompression {
    fn decompress(x: &[u8], slen: usize, n: usize) -> (r: Option<Vec<i16>>) {
        if x.len() > slen {
            return None;
        }
        let ghost bits = bits_of_bytes(x@);
        let total = 8 * x.len();
        let mut out: Vec<i16> = Vec::new();
        let mut pos: usize = 0;
        let mut k: usize = 0;
        while k < n
            invariant
                x@.len() <= slen,
                slen <= usize::MAX / 8,
                bits == bits_of_bytes(x@),
                total == 8 * x@.len(),
                out@.len() == k,
                k <= n,
                pos <= total,
                spec_decompress(x@, slen as int, n as nat) == (match parse_rec(
                    bits,
                    pos as int,
                    (n - k) as nat,
                ) {
                    None => None::<Seq<int>>,
                    Some(rest) => Some(i16val(out@) + rest),
                }),
            decreases n - k,
        {
            if total < 8 || pos > total - 8 {
                proof {
                    assert(pos as int + 8 > bits.len());
                }
                return None;
            }
            let sign = get_bit(x, pos);
            let mut low: u32 = 0;
            let mut j: usize = 1;
            while j < 8
                invariant
                    x@.len() <= usize::MAX / 8,
                    bits == bits_of_bytes(x@),
                    total == 8 * x@.len(),
                    pos + 8 <= total,
                    1 <= j <= 8,
                    low as int == bits_val(bits.subrange(pos as int + 1, pos as int + j as int)),
                    0 <= low < 128,
                decreases 8 - j,
            {
                proof {
                    let ch = bits.subrange(pos as int + 1, pos as int + j as int);
                    lemma_bits_val_bound(ch);
                    lemma_pow2i_small();
                    if j < 7 {
                        crate::ntt::lemma_pow2i_increases(j as int - 1, 6);
                    }
                }
                let bit = get_bit(x, pos + j);
                low = low * 2 + if bit {
                    1
                } else {
                    0
                };
                j = j + 1;
                proof {
                    let ch = bits.subrange(pos as int + 1, pos as int + j as int);
                    assert(ch.drop_last() =~= bits.subrange(pos as int + 1, pos as int + j as int
                        - 1));
                    assert(ch.last() == bits[pos as int + j as int - 1]);
                    lemma_bits_val_bound(ch);
                    lemma_pow2i_small();
                    if j < 8 {
                        crate::ntt::lemma_pow2i_increases(j as int - 1, 7);
                    }
                }
            }
            let t = scan_term(x, pos + 8);
            if t == total {
                proof {
                    lemma_find_term_none(bits, pos as int + 8);
                }
                return None;
            }
            proof {
                lemma_find_term_at(bits, pos as int + 8, t as int);
            }
            let cnt = t - (pos + 8);
            let mag: u128 = (cnt as u128) * 128 + (low as u128);
            proof {
                assert(mag as int == (t as int - (pos as int + 8)) * 128 + low as int);
            }
            if sign && mag > 32768 {
                return None;
            }
            if !sign && mag > 32767 {
                return None;
            }
            let vi: i32 = if sign {
                -(mag as i32)
            } else {
                mag as i32
            };
            let val: i16 = vi as i16;
            let ghost spec_v: int = if sign {
                -((cnt as int) * 128 + low as int)
            } else {
                (cnt as int) * 128 + low as int
            };
            proof {
                assert(val as int == spec_v);
            }
            out.push(val);
            pos = t + 1;
            k = k + 1;
            proof {
                let prev_out = out@.drop_last();
                assert(i16val(out@) =~= i16val(prev_out).push(spec_v));
                assert(i16val(out@) =~= i16val(prev_out) + seq![spec_v]);
                match parse_rec(bits, pos as int, (n - k) as nat) {
                    None => {},
                    Some(rest) => {
                        assert(i16val(prev_out) + (seq![spec_v] + rest) =~= i16val(out@) + rest);
                    },
                }
            }
        }
        proof {
            assert(parse_rec(bits, pos as int, 0) == Some(Seq::<int>::empty()));
            assert(i16val(out@) + Seq::<int>::empty() =~= i16val(out@));
        }
        Some(out)
    }
}

} // verus!
