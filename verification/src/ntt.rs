//! Number-theoretic transform over Z_q[x]/(x^n + 1), q = 12289: an exact
//! modular analogue of the Fourier transform, giving fast multiplication
//! and division in the integer quotient ring.
//!
//! The recursion is table-driven: a table of modular square-root chains
//! (one list of roots per ring size) and a table of multiplicative
//! inverses mod q, built once and shared read-only afterwards.

use vstd::prelude::*;
use vstd::arithmetic::div_mod::{
    lemma_add_mod_noop, lemma_sub_mod_noop, lemma_mul_mod_noop_left, lemma_mul_mod_noop_right,
    lemma_small_mod, lemma_mod_multiples_vanish,
};

use crate::common::{
    Polynomial, evens, odds, interleave, lemma_interleave_evens_odds, lemma_evens_odds_interleave,
};
use crate::Q;

verus! {

/// The multiplicative inverse of 2 mod q.
pub const I2: u32 = 6145;

/// Coefficients of `s` as unbounded integers.
pub open spec fn ival(s: Seq<u32>) -> Seq<int> {
    Seq::new(s.len(), |i: int| s[i] as int)
}

/// Every coefficient is a residue: in [0, q).
pub open spec fn coeffs_ok(f: Seq<int>) -> bool {
    forall|i: int| 0 <= i < f.len() ==> 0 <= #[trigger] f[i] < Q
}

/// Addition mod q.
pub open spec fn mq_add(a: int, b: int) -> int {
    (a + b) % (Q as int)
}

/// Subtraction mod q.
pub open spec fn mq_sub(a: int, b: int) -> int {
    (a - b) % (Q as int)
}

/// Multiplication mod q.
pub open spec fn mq_mul(a: int, b: int) -> int {
    (a * b) % (Q as int)
}

/// 2^k for k >= 0 (and 1 for k < 0).
pub open spec fn pow2i(k: int) -> int
    decreases k,
{
    if k <= 0 {
        1
    } else {
        2 * pow2i(k - 1)
    }
}

/// The precomputed tables the transform is driven by: `roots[k]` lists
/// the 2^(k+1) modular roots used at ring size 2^(k+1) (a square-root
/// chain over the size-2 roots of -1), and `inv[b]` is the
/// multiplicative inverse of b mod q (with `inv[0] == 0`).
pub struct NttTables {
    pub roots: Vec<Vec<u32>>,
    pub inv: Vec<u32>,
}

impl NttTables {
    /// Well-formedness: the inverse table is a true inverse table, every
    /// root is a nonzero residue, each level holds exactly its size's
    /// roots, and the levels form a square-root chain over sqrt(-1).
    pub open spec fn wf(&self) -> bool {
        &&& self.inv@.len() == Q
        &&& self.inv@[0] == 0
        &&& forall|b: int|
            1 <= b < Q ==> 0 < #[trigger] self.inv@[b] < Q && (b * self.inv@[b]) % (Q as int)
                == 1
        &&& self.roots@.len() >= 1
        &&& forall|k: int|
            0 <= k < self.roots@.len() ==> (#[trigger] self.roots@[k])@.len() == pow2i(k + 1)
        &&& forall|k: int, j: int|
            0 <= k < self.roots@.len() && 0 <= j < self.roots@[k]@.len() ==> 0
                < #[trigger] self.roots@[k]@[j] < Q
        &&& (self.roots@[0]@[0] * self.roots@[0]@[0]) % (Q as int) == Q - 1
        &&& forall|k: int, j: int|
            1 <= k < self.roots@.len() && 0 <= j < pow2i(k) ==> (#[trigger] self.roots@[k]@[2 * j]
                * self.roots@[k]@[2 * j]) % (Q as int) == self.roots@[k - 1]@[j]
        &&& forall|k: int, j: int|
            0 <= k < self.roots@.len() && 0 <= j < pow2i(k) ==> #[trigger] self.roots@[k]@[2 * j
                + 1] == Q - self.roots@[k]@[2 * j]
    }

    /// The tables cover ring size `n`.
    pub open spec fn has_size(&self, n: int) -> bool {
        exists|k: int| 0 <= k < self.roots@.len() && #[trigger] pow2i(k + 1) == n
    }

    /// The level index whose roots serve ring size `n`.
    pub open spec fn level_of(&self, n: int) -> int {
        choose|k: int| 0 <= k < self.roots@.len() && #[trigger] pow2i(k + 1) == n
    }

    /// The roots used at ring size `n`.
    pub open spec fn roots_of(&self, n: int) -> Seq<u32> {
        self.roots@[self.level_of(n)]@
    }

    /// One root at ring size `n`, as an integer.
    pub open spec fn root_of(&self, n: int, j: int) -> int {
        self.roots_of(n)[j] as int
    }

    /// The size-2 root: a square root of -1 mod q.
    pub open spec fn sq1(&self) -> int {
        self.roots@[0]@[0] as int
    }

    /// The inverse of `b` mod q, read from the table.
    pub open spec fn inv_of(&self, b: int) -> int {
        self.inv@[b] as int
    }
}

pub proof fn lemma_pow2i_pos(k: int)
    ensures
        pow2i(k) >= 1,
    decreases k,
{
    if k > 0 {
        lemma_pow2i_pos(k - 1);
    }
}

pub proof fn lemma_pow2i_increases(k1: int, k2: int)
    requires
        k1 < k2,
        0 <= k1,
    ensures
        pow2i(k1) < pow2i(k2),
    decreases k2,
{
    lemma_pow2i_pos(k1);
    if k2 - 1 > k1 {
        lemma_pow2i_increases(k1, k2 - 1);
    }
}

pub proof fn lemma_pow2i_injective(k1: int, k2: int)
    requires
        0 <= k1,
        0 <= k2,
        pow2i(k1) == pow2i(k2),
    ensures
        k1 == k2,
{
    if k1 < k2 {
        lemma_pow2i_increases(k1, k2);
    }
    if k2 < k1 {
        lemma_pow2i_increases(k2, k1);
    }
}

/// A covered size is even and at least 2, and its level is unique.
pub proof fn lemma_size_level(t: &NttTables, n: int)
    requires
        t.wf(),
        t.has_size(n),
    ensures
        n >= 2,
        n % 2 == 0,
        0 <= t.level_of(n) < t.roots@.len(),
        pow2i(t.level_of(n) + 1) == n,
        t.roots_of(n).len() == n,
{
    let k = choose|k: int| 0 <= k < t.roots@.len() && #[trigger] pow2i(k + 1) == n;
    assert(pow2i(k + 1) == n);
    assert(n == 2 * pow2i(k));
    lemma_pow2i_pos(k);
}

/// Half of a covered size above 2 is covered, one level down.
pub proof fn lemma_half_size(t: &NttTables, n: int)
    requires
        t.wf(),
        t.has_size(n),
        n > 2,
    ensures
        t.has_size(n / 2),
        t.level_of(n / 2) == t.level_of(n) - 1,
{
    lemma_size_level(t, n);
    let k = t.level_of(n);
    assert(n == 2 * pow2i(k));
    if k == 0 {
        assert(n == 2);
    }
    assert(pow2i((k - 1) + 1) == n / 2);
    assert(0 <= k - 1 < t.roots@.len());
    assert(t.has_size(n / 2));
    lemma_size_level(t, n / 2);
    lemma_pow2i_injective(t.level_of(n / 2) + 1, k - 1 + 1);
}

// ---------------------------------------------------------------------
// Executable modular arithmetic.
// ---------------------------------------------------------------------

fn mq_add_e(a: u32, b: u32) -> (r: u32)
    requires
        a < Q,
        b < Q,
    ensures
        r == mq_add(a as int, b as int),
        r < Q,
{
    (a + b) % Q
}

fn mq_sub_e(a: u32, b: u32) -> (r: u32)
    requires
        a < Q,
        b < Q,
    ensures
        r == mq_sub(a as int, b as int),
        r < Q,
{
    proof {
        lemma_mod_multiples_vanish(1, a - b, Q as int);
    }
    (a + (Q - b)) % Q
}

fn mq_mul_e(a: u32, b: u32) -> (r: u32)
    requires
        a < Q,
        b < Q,
    ensures
        r == mq_mul(a as int, b as int),
        r < Q,
{
    proof {
        assert(a * b < 0x1_0000_0000_0000_0000) by (nonlinear_arith)
            requires
                a < 12289,
                b < 12289,
        ;
    }
    ((a as u64 * b as u64) % (Q as u64)) as u32
}

// ---------------------------------------------------------------------
// Building the tables.
// ---------------------------------------------------------------------

/// b^e mod q by square and multiply; only the range is promised, the
/// caller checks the arithmetic meaning at run time.
fn mod_pow(b: u32, e: u32) -> (r: u32)
    requires
        b < Q,
    ensures
        r < Q,
{
    let mut base: u64 = b as u64;
    let mut exp: u32 = e;
    let mut acc: u64 = 1;
    while exp > 0
        invariant
            base < Q,
            acc < Q,
        decreases exp,
    {
        proof {
            assert(acc * base < 0x1_0000_0000_0000_0000) by (nonlinear_arith)
                requires
                    acc < 12289,
                    base < 12289,
            ;
            assert(base * base < 0x1_0000_0000_0000_0000) by (nonlinear_arith)
                requires
                    base < 12289,
            ;
        }
        if exp % 2 == 1 {
            acc = (acc * base) % (Q as u64);
        }
        base = (base * base) % (Q as u64);
        exp = exp / 2;
    }
    acc as u32
}

/// The least square root of `target` mod q, if one exists.
fn find_sqrt(target: u32) -> (r: Option<u32>)
    requires
        target < Q,
    ensures
        match r {
            Some(j) => 0 < j < Q && (j * j) % (Q as int) == target,
            None => forall|m: int| 0 < m < Q ==> (#[trigger] (m * m) % (Q as int)) != target,
        },
{
    let mut j: u32 = 1;
    while j < Q
        invariant
            1 <= j <= Q,
            forall|m: int| 0 < m < j ==> (#[trigger] (m * m) % (Q as int)) != target,
        decreases Q - j,
    {
        proof {
            assert(j * j < 0x1_0000_0000_0000_0000) by (nonlinear_arith)
                requires
                    j < 12289,
            ;
        }
        if ((j as u64 * j as u64) % (Q as u64)) as u32 == target {
            return Some(j);
        }
        j = j + 1;
    }
    None
}

/// Build the root and inverse tables covering ring sizes 2 to
/// 2^levels. Returns nothing if q admits no deep enough square-root
/// chain (it does for every size the reference parameter sets use).
pub fn build_tables(levels: usize) -> (r: Option<NttTables>)
    requires
        1 <= levels <= 24,
    ensures
        match r {
            Some(t) => t.wf() && t.roots@.len() == levels,
            None => true,
        },
{
    // Inverse table by Fermat exponentiation, checked entry by entry.
    let mut inv: Vec<u32> = Vec::new();
    inv.push(0);
    let mut b: u32 = 1;
    while b < Q
        invariant
            1 <= b <= Q,
            inv@.len() == b,
            inv@[0] == 0,
            forall|x: int|
                1 <= x < b ==> 0 < #[trigger] inv@[x] < Q && (x * inv@[x]) % (Q as int) == 1,
        decreases Q - b,
    {
        let j = mod_pow(b, Q - 2);
        proof {
            assert(b * j < 0x1_0000_0000_0000_0000) by (nonlinear_arith)
                requires
                    b < 12289,
                    j < 12289,
            ;
        }
        if j == 0 || (b as u64 * j as u64) % (Q as u64) != 1 {
            return None;
        }
        assert((b * j) % (Q as int) == 1);
        inv.push(j);
        b = b + 1;
    }

    // Square root of -1: the first level of the chain.
    let s = match find_sqrt(Q - 1) {
        Some(s) => s,
        None => {
            return None;
        },
    };
    let mut level: Vec<u32> = Vec::new();
    level.push(s);
    level.push(Q - s);
    let mut roots: Vec<Vec<u32>> = Vec::new();
    roots.push(level);
    proof {
        assert(pow2i(0) == 1);
        assert(pow2i(1) == 2);
    }

    let mut k: usize = 1;
    while k < levels
        invariant
            1 <= k <= levels,
            levels <= 24,
            roots@.len() == k,
            forall|m: int| 0 <= m < k ==> (#[trigger] roots@[m])@.len() == pow2i(m + 1),
            forall|m: int, j: int|
                0 <= m < k && 0 <= j < roots@[m]@.len() ==> 0 < #[trigger] roots@[m]@[j] < Q,
            (roots@[0]@[0] * roots@[0]@[0]) % (Q as int) == Q - 1,
            forall|m: int, j: int|
                1 <= m < k && 0 <= j < pow2i(m) ==> (#[trigger] roots@[m]@[2 * j] * roots@[m]@[2
                    * j]) % (Q as int) == roots@[m - 1]@[j],
            forall|m: int, j: int|
                0 <= m < k && 0 <= j < pow2i(m) ==> #[trigger] roots@[m]@[2 * j + 1] == Q
                    - roots@[m]@[2 * j],
        decreases levels - k,
    {
        proof {
            assert(roots@[k - 1]@.len() == pow2i(k as int));
        }
        let prev_len = roots[k - 1].len();
        let mut cur: Vec<u32> = Vec::new();
        let mut j: usize = 0;
        while j < prev_len
            invariant
                roots@.len() == k,
                1 <= k < levels,
                levels <= 24,
                prev_len == roots@[k - 1 as int]@.len(),
                prev_len == pow2i(k as int),
                forall|m: int| 0 <= m < k ==> (#[trigger] roots@[m])@.len() == pow2i(m + 1),
                forall|m: int, jj: int|
                    0 <= m < k && 0 <= jj < roots@[m]@.len() ==> 0 < #[trigger] roots@[m]@[jj] < Q,
                (roots@[0]@[0] * roots@[0]@[0]) % (Q as int) == Q - 1,
                forall|m: int, jj: int|
                    1 <= m < k && 0 <= jj < pow2i(m) ==> (#[trigger] roots@[m]@[2 * jj]
                        * roots@[m]@[2 * jj]) % (Q as int) == roots@[m - 1]@[jj],
                forall|m: int, jj: int|
                    0 <= m < k && 0 <= jj < pow2i(m) ==> #[trigger] roots@[m]@[2 * jj + 1] == Q
                        - roots@[m]@[2 * jj],
                j <= prev_len,
                cur@.len() == 2 * j,
                forall|m: int| 0 <= m < j ==> 0 < #[trigger] cur@[2 * m] < Q,
                forall|m: int| 0 <= m < j ==> 0 < #[trigger] cur@[2 * m + 1] < Q,
                forall|m: int|
                    0 <= m < j ==> (#[trigger] cur@[2 * m] * cur@[2 * m]) % (Q as int) == roots@[k
                        - 1 as int]@[m],
                forall|m: int| 0 <= m < j ==> #[trigger] cur@[2 * m + 1] == Q - cur@[2 * m],
            decreases prev_len - j,
        {
            let target = roots[k - 1][j];
            let sq = match find_sqrt(target) {
                Some(v) => v,
                None => {
                    return None;
                },
            };
            let ghost cur0 = cur@;
            cur.push(sq);
            cur.push(Q - sq);
            proof {
                assert(cur@ == cur0.push(sq).push((Q - sq) as u32));
                assert(cur@[2 * j as int] == sq);
                assert(cur@[2 * j as int + 1] == Q - sq);
                assert(forall|m: int| 0 <= m < 2 * j ==> cur@[m] == cur0[m]);
            }
            j = j + 1;
        }
        let ghost roots0 = roots@;
        roots.push(cur);
        k = k + 1;
        proof {
            assert(pow2i(k as int) == 2 * pow2i(k as int - 1));
            assert(roots@[k - 1]@ == cur@);
            assert(forall|m: int| 0 <= m < k - 1 ==> roots@[m] == roots0[m]);
            assert forall|m: int, jj: int|
                0 <= m < k && 0 <= jj < roots@[m]@.len() implies 0 < #[trigger] roots@[m]@[jj]
                < Q by {
                if m == k - 1 {
                    if jj % 2 == 0 {
                        assert(0 < cur@[2 * (jj / 2)] < Q);
                    } else {
                        assert(0 < cur@[2 * (jj / 2) + 1] < Q);
                    }
                }
            }
            assert forall|m: int, jj: int|
                1 <= m < k && 0 <= jj < pow2i(m) implies (#[trigger] roots@[m]@[2 * jj]
                * roots@[m]@[2 * jj]) % (Q as int) == roots@[m - 1]@[jj] by {
                if m == k - 1 {
                    assert((cur@[2 * jj] * cur@[2 * jj]) % (Q as int) == roots0[m - 1]@[jj]);
                }
            }
            assert forall|m: int, jj: int|
                0 <= m < k && 0 <= jj < pow2i(m) implies #[trigger] roots@[m]@[2 * jj + 1] == Q
                - roots@[m]@[2 * jj] by {
                if m == k - 1 {
                    assert(cur@[2 * jj + 1] == Q - cur@[2 * jj]);
                }
            }
        }
    }

    let t = NttTables { roots, inv };
    proof {
        assert(t.wf());
    }
    Some(t)
}

// ---------------------------------------------------------------------
// The transform, at the specification level.
// ---------------------------------------------------------------------

/// The Cooley-Tukey merge step at ring size 2·len(a): position 2i takes
/// a[i] + w·b[i] and position 2i+1 takes a[i] - w·b[i], with w the root
/// at index 2i of the full size.
pub open spec fn smerge_ntt(t: &NttTables, a: Seq<int>, b: Seq<int>) -> Seq<int> {
    Seq::new(
        2 * a.len(),
        |i: int|
            {
                let w = t.root_of(2 * a.len() as int, 2 * (i / 2));
                if i % 2 == 0 {
                    mq_add(a[i / 2], mq_mul(w, b[i / 2]))
                } else {
                    mq_sub(a[i / 2], mq_mul(w, b[i / 2]))
                }
            },
    )
}

/// First half of the inverse split step: i2·(f[2i] + f[2i+1]).
pub open spec fn ssplit_ntt0(t: &NttTables, f: Seq<int>) -> Seq<int> {
    Seq::new(f.len() / 2, |i: int| mq_mul(I2 as int, mq_add(f[2 * i], f[2 * i + 1])))
}

/// Second half of the inverse split step:
/// i2·(f[2i] - f[2i+1])·w^(-1), with w the root at index 2i.
pub open spec fn ssplit_ntt1(t: &NttTables, f: Seq<int>) -> Seq<int> {
    Seq::new(
        f.len() / 2,
        |i: int|
            mq_mul(
                mq_mul(I2 as int, mq_sub(f[2 * i], f[2 * i + 1])),
                t.inv_of(t.root_of(f.len() as int, 2 * i)),
            ),
    )
}

/// The forward transform: the closed 2-point form at the base, and
/// recursive split-transform-merge above it.
pub open spec fn sntt(t: &NttTables, f: Seq<int>) -> Seq<int>
    decreases f.len(),
{
    if f.len() <= 2 {
        seq![
            mq_add(f[0], mq_mul(t.sq1(), f[1])),
            mq_sub(f[0], mq_mul(t.sq1(), f[1])),
        ]
    } else {
        smerge_ntt(t, sntt(t, evens(f)), sntt(t, odds(f)))
    }
}

/// The inverse transform, mirroring `sntt`.
pub open spec fn sintt(t: &NttTables, g: Seq<int>) -> Seq<int>
    decreases g.len(),
{
    if g.len() <= 2 {
        seq![
            mq_mul(I2 as int, mq_add(g[0], g[1])),
            mq_mul(mq_mul(I2 as int, mq_sub(g[0], g[1])), t.inv_of(t.sq1())),
        ]
    } else {
        interleave(sintt(t, ssplit_ntt0(t, g)), sintt(t, ssplit_ntt1(t, g)))
    }
}

/// Pointwise sums, differences, negations, products and quotients.
pub open spec fn spoint_add(a: Seq<int>, b: Seq<int>) -> Seq<int> {
    Seq::new(a.len(), |i: int| mq_add(a[i], b[i]))
}

pub open spec fn spoint_sub(a: Seq<int>, b: Seq<int>) -> Seq<int> {
    Seq::new(a.len(), |i: int| mq_sub(a[i], b[i]))
}

pub open spec fn sneg(a: Seq<int>) -> Seq<int> {
    Seq::new(a.len(), |i: int| mq_sub(0, a[i]))
}

pub open spec fn spoint_mul(a: Seq<int>, b: Seq<int>) -> Seq<int> {
    Seq::new(a.len(), |i: int| mq_mul(a[i], b[i]))
}

pub open spec fn spoint_div(t: &NttTables, a: Seq<int>, b: Seq<int>) -> Seq<int> {
    Seq::new(a.len(), |i: int| mq_mul(a[i], t.inv_of(b[i])))
}

/// Multiplication in the coefficient domain: transform in, pointwise
/// multiply, transform out. Exact negacyclic convolution mod x^n + 1.
pub open spec fn smul(t: &NttTables, a: Seq<int>, b: Seq<int>) -> Seq<int> {
    sintt(t, spoint_mul(sntt(t, a), sntt(t, b)))
}

/// Division in the coefficient domain (total form; the executable
/// division refuses a divisor with a zero transform coefficient).
pub open spec fn sdiv(t: &NttTables, a: Seq<int>, b: Seq<int>) -> Seq<int> {
    sintt(t, spoint_div(t, sntt(t, a), sntt(t, b)))
}

// ---------------------------------------------------------------------
// Butterfly identities: one merge-then-split (or split-then-merge)
// round trip, seen at a single coefficient pair.
// ---------------------------------------------------------------------

/// i2 undoes a doubling mod q.
proof fn lemma_i2_double(x: int)
    requires
        0 <= x < Q,
    ensures
        mq_mul(I2 as int, (2 * x) % (Q as int)) == x,
{
    let q = Q as int;
    assert(q == 12289);
    assert(I2 == 6145);
    lemma_mul_mod_noop_right(I2 as int, 2 * x, q);
    assert((I2 as int) * (2 * x) == (2 * (I2 as int)) * x) by (nonlinear_arith);
    lemma_mul_mod_noop_left(2 * (I2 as int), x, q);
    assert((2 * (I2 as int)) % q == 1);
    lemma_small_mod(x as nat, q as nat);
}

/// Cancelling a known multiplicative inverse pair.
proof fn lemma_mul_cancel_mod(x: int, u: int, v: int)
    requires
        0 <= x < Q,
        (u * v) % (Q as int) == 1,
    ensures
        mq_mul(mq_mul(x, u), v) == x,
{
    let q = Q as int;
    lemma_mul_mod_noop_left(x * u, v, q);
    assert((x * u) * v == x * (u * v)) by (nonlinear_arith);
    lemma_mul_mod_noop_right(x, u * v, q);
    assert((x * 1) % q == x % q);
    lemma_small_mod(x as nat, q as nat);
}

/// The first inverse-split output of a merged pair is the left operand:
/// i2·((a + c) + (a - c)) == a mod q.
proof fn lemma_butterfly_inv_first(a: int, c: int)
    requires
        0 <= a < Q,
    ensures
        mq_mul(I2 as int, mq_add(mq_add(a, c), mq_sub(a, c))) == a,
{
    let q = Q as int;
    lemma_add_mod_noop(a + c, a - c, q);
    assert((a + c) + (a - c) == 2 * a);
    lemma_i2_double(a);
}

/// The second inverse-split output of a merged pair is the right
/// operand: i2·((a + wb) - (a - wb))·w^(-1) == b mod q.
proof fn lemma_butterfly_inv_second(a: int, b: int, w: int, iw: int)
    requires
        0 <= b < Q,
        0 <= w,
        (w * iw) % (Q as int) == 1,
    ensures
        mq_mul(
            mq_mul(I2 as int, mq_sub(mq_add(a, mq_mul(w, b)), mq_sub(a, mq_mul(w, b)))),
            iw,
        ) == b,
{
    let q = Q as int;
    let c = mq_mul(w, b);
    lemma_sub_mod_noop(a + c, a - c, q);
    assert((a + c) - (a - c) == 2 * c);
    lemma_i2_double(c);
    assert(mq_mul(I2 as int, mq_sub(mq_add(a, c), mq_sub(a, c))) == c);
    assert(c == mq_mul(b, w)) by {
        assert(w * b == b * w) by (nonlinear_arith);
    }
    lemma_mul_cancel_mod(b, w, iw);
}

/// Merging the two inverse-split outputs restores the pair:
/// with d0 = i2·(e + o) and d1 = i2·(e - o)·w^(-1),
/// d0 + w·d1 == e and d0 - w·d1 == o, all mod q.
proof fn lemma_butterfly_fwd(e: int, o: int, w: int, iw: int)
    requires
        0 <= e < Q,
        0 <= o < Q,
        0 <= w,
        0 <= iw,
        (w * iw) % (Q as int) == 1,
    ensures
        mq_add(mq_mul(I2 as int, mq_add(e, o)), mq_mul(w, mq_mul(mq_mul(I2 as int, mq_sub(e, o)), iw)))
            == e,
        mq_sub(mq_mul(I2 as int, mq_add(e, o)), mq_mul(w, mq_mul(mq_mul(I2 as int, mq_sub(e, o)), iw)))
            == o,
{
    let q = Q as int;
    assert(q == 12289);
    assert(I2 == 6145);
    let u = mq_mul(I2 as int, mq_sub(e, o));
    // w·(u·iw) == u mod q, since w·iw == 1 mod q.
    assert(mq_mul(w, mq_mul(u, iw)) == u) by {
        lemma_mul_mod_noop_right(w, u * iw, q);
        assert(w * (u * iw) == u * (w * iw)) by (nonlinear_arith);
        lemma_mul_mod_noop_right(u, w * iw, q);
        assert((u * 1) % q == u % q);
        lemma_small_mod(u as nat, q as nat);
    }
    // u itself is i2·(e - o) mod q.
    assert(u == ((I2 as int) * (e - o)) % q) by {
        lemma_mul_mod_noop_right(I2 as int, e - o, q);
    }
    let d0 = mq_mul(I2 as int, mq_add(e, o));
    assert(d0 == ((I2 as int) * (e + o)) % q) by {
        lemma_mul_mod_noop_right(I2 as int, e + o, q);
    }
    assert(mq_add(d0, u) == e) by {
        lemma_add_mod_noop((I2 as int) * (e + o), (I2 as int) * (e - o), q);
        assert((I2 as int) * (e + o) + (I2 as int) * (e - o) == (2 * (I2 as int)) * e)
            by (nonlinear_arith);
        lemma_mul_mod_noop_left(2 * (I2 as int), e, q);
        assert((2 * (I2 as int)) % q == 1);
        lemma_small_mod(e as nat, q as nat);
    }
    assert(mq_sub(d0, u) == o) by {
        lemma_sub_mod_noop((I2 as int) * (e + o), (I2 as int) * (e - o), q);
        assert((I2 as int) * (e + o) - (I2 as int) * (e - o) == (2 * (I2 as int)) * o)
            by (nonlinear_arith);
        lemma_mul_mod_noop_left(2 * (I2 as int), o, q);
        assert((2 * (I2 as int)) % q == 1);
        lemma_small_mod(o as nat, q as nat);
    }
}

// ---------------------------------------------------------------------
// Round-trip laws of the transform.
// ---------------------------------------------------------------------

/// The forward transform preserves length and keeps every coefficient a
/// residue.
pub proof fn lemma_sntt_wf(t: &NttTables, f: Seq<int>)
    requires
        t.wf(),
        t.has_size(f.len() as int),
    ensures
        sntt(t, f).len() == f.len(),
        coeffs_ok(sntt(t, f)),
    decreases f.len(),
{
    lemma_size_level(t, f.len() as int);
    if f.len() <= 2 {
        assert(coeffs_ok(sntt(t, f))) by {
            assert(sntt(t, f).len() == 2);
            assert(0 <= sntt(t, f)[0] < Q);
            assert(0 <= sntt(t, f)[1] < Q);
        }
    } else {
        lemma_half_size(t, f.len() as int);
        lemma_sntt_wf(t, evens(f));
        lemma_sntt_wf(t, odds(f));
        let a = sntt(t, evens(f));
        let b = sntt(t, odds(f));
        assert(sntt(t, f) == smerge_ntt(t, a, b));
        assert(coeffs_ok(sntt(t, f))) by {
            assert(forall|i: int|
                0 <= i < smerge_ntt(t, a, b).len() ==> 0 <= #[trigger] smerge_ntt(t, a, b)[i]
                    < Q);
        }
    }
}

/// The inverse transform preserves length and keeps every coefficient a
/// residue.
pub proof fn lemma_sintt_wf(t: &NttTables, g: Seq<int>)
    requires
        t.wf(),
        t.has_size(g.len() as int),
    ensures
        sintt(t, g).len() == g.len(),
        coeffs_ok(sintt(t, g)),
    decreases g.len(),
{
    lemma_size_level(t, g.len() as int);
    if g.len() <= 2 {
        assert(coeffs_ok(sintt(t, g))) by {
            assert(sintt(t, g).len() == 2);
            assert(0 <= sintt(t, g)[0] < Q);
            assert(0 <= sintt(t, g)[1] < Q);
        }
    } else {
        lemma_half_size(t, g.len() as int);
        let s0 = ssplit_ntt0(t, g);
        let s1 = ssplit_ntt1(t, g);
        lemma_sintt_wf(t, s0);
        lemma_sintt_wf(t, s1);
        assert(sintt(t, g) == interleave(sintt(t, s0), sintt(t, s1)));
        assert(coeffs_ok(sintt(t, g))) by {
            assert forall|i: int| 0 <= i < sintt(t, g).len() implies 0 <= #[trigger] sintt(
                t,
                g,
            )[i] < Q by {
                assert(sintt(t, g)[i] == interleave(sintt(t, s0), sintt(t, s1))[i]);
            }
        }
    }
}

/// The inverse split undoes the merge step: at every index the two
/// butterfly identities apply coefficientwise.
pub proof fn lemma_split_merge(t: &NttTables, a: Seq<int>, b: Seq<int>)
    requires
        t.wf(),
        a.len() == b.len(),
        a.len() >= 1,
        coeffs_ok(a),
        coeffs_ok(b),
        t.has_size(2 * a.len() as int),
    ensures
        ssplit_ntt0(t, smerge_ntt(t, a, b)) == a,
        ssplit_ntt1(t, smerge_ntt(t, a, b)) == b,
{
    let n = 2 * a.len() as int;
    lemma_size_level(t, n);
    let g = smerge_ntt(t, a, b);
    assert(g.len() == n);
    let lv = t.level_of(n);
    assert forall|i: int|
        0 <= i < a.len() implies ssplit_ntt0(t, g)[i] == a[i] && ssplit_ntt1(t, g)[i]
        == b[i] by {
        let w = t.root_of(n, 2 * i);
        assert((2 * i) / 2 == i && (2 * i) % 2 == 0);
        assert((2 * i + 1) / 2 == i && (2 * i + 1) % 2 == 1);
        assert(g[2 * i] == mq_add(a[i], mq_mul(w, b[i])));
        assert(g[2 * i + 1] == mq_sub(a[i], mq_mul(w, b[i])));
        assert(0 < t.roots@[lv]@[2 * i] < Q);
        let iw = t.inv_of(w);
        assert((w * iw) % (Q as int) == 1);
        lemma_butterfly_inv_first(a[i], mq_mul(w, b[i]));
        lemma_butterfly_inv_second(a[i], b[i], w, iw);
    }
    assert(ssplit_ntt0(t, g) =~= a);
    assert(ssplit_ntt1(t, g) =~= b);
}

/// The merge step undoes the inverse split: the forward butterfly
/// identity applies coefficientwise.
pub proof fn lemma_merge_split(t: &NttTables, g: Seq<int>)
    requires
        t.wf(),
        coeffs_ok(g),
        t.has_size(g.len() as int),
    ensures
        smerge_ntt(t, ssplit_ntt0(t, g), ssplit_ntt1(t, g)) == g,
{
    let n = g.len() as int;
    lemma_size_level(t, n);
    let s0 = ssplit_ntt0(t, g);
    let s1 = ssplit_ntt1(t, g);
    assert(s0.len() == n / 2);
    assert(2 * s0.len() as int == n);
    let m = smerge_ntt(t, s0, s1);
    let lv = t.level_of(n);
    assert forall|i: int| 0 <= i < n implies m[i] == g[i] by {
        let j = i / 2;
        let w = t.root_of(n, 2 * j);
        assert(0 < t.roots@[lv]@[2 * j] < Q);
        let iw = t.inv_of(w);
        assert((w * iw) % (Q as int) == 1);
        lemma_butterfly_fwd(g[2 * j], g[2 * j + 1], w, iw);
        assert(s0[j] == mq_mul(I2 as int, mq_add(g[2 * j], g[2 * j + 1])));
        assert(s1[j] == mq_mul(mq_mul(I2 as int, mq_sub(g[2 * j], g[2 * j + 1])), iw));
        if i % 2 == 0 {
            assert(i == 2 * j);
            assert(m[i] == mq_add(s0[j], mq_mul(w, s1[j])));
        } else {
            assert(i == 2 * j + 1);
            assert(m[i] == mq_sub(s0[j], mq_mul(w, s1[j])));
        }
    }
    assert(m =~= g);
}

/// The inverse transform undoes the forward transform exactly.
pub proof fn lemma_sintt_sntt(t: &NttTables, f: Seq<int>)
    requires
        t.wf(),
        coeffs_ok(f),
        t.has_size(f.len() as int),
    ensures
        sintt(t, sntt(t, f)) == f,
    decreases f.len(),
{
    lemma_size_level(t, f.len() as int);
    lemma_sntt_wf(t, f);
    let g = sntt(t, f);
    if f.len() <= 2 {
        let s = t.sq1();
        assert(pow2i(1) == 2) by {
            assert(pow2i(0) == 1);
        }
        assert(t.roots@[0]@.len() == 2);
        assert(0 < t.roots@[0]@[0] < Q);
        let is = t.inv_of(s);
        assert((s * is) % (Q as int) == 1);
        lemma_butterfly_inv_first(f[0], mq_mul(s, f[1]));
        lemma_butterfly_inv_second(f[0], f[1], s, is);
        assert(sintt(t, g) =~= f);
    } else {
        lemma_half_size(t, f.len() as int);
        let fe = evens(f);
        let fo = odds(f);
        assert(fe.len() == f.len() / 2);
        assert(fo.len() == f.len() / 2);
        assert(coeffs_ok(fe)) by {
            assert(forall|i: int| 0 <= i < fe.len() ==> #[trigger] fe[i] == f[2 * i]);
        }
        assert(coeffs_ok(fo)) by {
            assert(forall|i: int| 0 <= i < fo.len() ==> #[trigger] fo[i] == f[2 * i + 1]);
        }
        lemma_sntt_wf(t, fe);
        lemma_sntt_wf(t, fo);
        let a = sntt(t, fe);
        let b = sntt(t, fo);
        lemma_split_merge(t, a, b);
        assert(g == smerge_ntt(t, a, b));
        assert(g.len() == f.len());
        assert(sintt(t, g) == interleave(sintt(t, ssplit_ntt0(t, g)), sintt(t, ssplit_ntt1(t, g))));
        lemma_sintt_sntt(t, fe);
        lemma_sintt_sntt(t, fo);
        lemma_interleave_evens_odds(f);
    }
}

// ---------------------------------------------------------------------
// Executable transform.
// ---------------------------------------------------------------------

/// Table lookup of a multiplicative inverse mod q.
fn inv_e(t: &NttTables, b: u32) -> (r: u32)
    requires
        t.wf(),
        0 < b < Q,
    ensures
        r as int == t.inv_of(b as int),
        0 < r < Q,
        (b * r) % (Q as int) == 1,
{
    t.inv[b as usize]
}

/// The root list serving ring size `n`.
fn roots_for<'a>(t: &'a NttTables, n: usize) -> (r: &'a Vec<u32>)
    requires
        t.wf(),
        t.has_size(n as int),
    ensures
        r@ == t.roots_of(n as int),
        r@.len() == n,
{
    proof {
        lemma_size_level(t, n as int);
    }
    let mut k: usize = 0;
    while k < t.roots.len()
        invariant
            t.wf(),
            t.has_size(n as int),
            k <= t.roots@.len(),
            forall|m: int| 0 <= m < k ==> (#[trigger] t.roots@[m])@.len() != n,
        decreases t.roots@.len() - k,
    {
        if t.roots[k].len() == n {
            proof {
                assert(pow2i(k as int + 1) == n);
                lemma_size_level(t, n as int);
                lemma_pow2i_injective(k as int + 1, t.level_of(n as int) + 1);
            }
            return &t.roots[k];
        }
        k = k + 1;
    }
    proof {
        let k0 = t.level_of(n as int);
        lemma_size_level(t, n as int);
        assert(t.roots@[k0]@.len() == n);
        assert(false);
    }
    &t.roots[0]
}

/// The root list whose size is twice `half`; avoids computing `2*half`
/// in machine arithmetic.
fn roots_for_double<'a>(t: &'a NttTables, half: usize) -> (r: &'a Vec<u32>)
    requires
        t.wf(),
        t.has_size(2 * half as int),
    ensures
        r@ == t.roots_of(2 * half as int),
        r@.len() == 2 * half,
{
    proof {
        lemma_size_level(t, 2 * half as int);
    }
    let mut k: usize = 0;
    while k < t.roots.len()
        invariant
            t.wf(),
            t.has_size(2 * half as int),
            k <= t.roots@.len(),
            forall|m: int| 0 <= m < k ==> (#[trigger] t.roots@[m])@.len() != 2 * half,
        decreases t.roots@.len() - k,
    {
        if t.roots[k].len() % 2 == 0 && t.roots[k].len() / 2 == half {
            proof {
                assert(t.roots@[k as int]@.len() == 2 * half);
                assert(pow2i(k as int + 1) == 2 * half);
                lemma_size_level(t, 2 * half as int);
                lemma_pow2i_injective(k as int + 1, t.level_of(2 * half as int) + 1);
            }
            return &t.roots[k];
        }
        proof {
            if t.roots@[k as int]@.len() == 2 * half {
                assert(false);
            }
        }
        k = k + 1;
    }
    proof {
        let k0 = t.level_of(2 * half as int);
        lemma_size_level(t, 2 * half as int);
        assert(t.roots@[k0]@.len() == 2 * half);
        assert(false);
    }
    &t.roots[0]
}

/// The number-theoretic transform and the ring operations it carries:
/// all arithmetic is mod q, division fails exactly on divisors with a
/// zero transform-domain coefficient.
pub trait NTT: Sized {
    /// The coefficient sequence, as unbounded integers.
    spec fn model(&self) -> Seq<int>;

    /// One inverse Cooley-Tukey step in the transform domain.
    fn split_ntt(self, t: &NttTables) -> (r: (Self, Self))
        requires
            t.wf(),
            t.has_size(self.model().len() as int),
            coeffs_ok(self.model()),
        ensures
            r.0.model() == ssplit_ntt0(t, self.model()),
            r.1.model() == ssplit_ntt1(t, self.model()),
    ;

    /// One forward Cooley-Tukey step in the transform domain.
    fn merge_ntt(self, other: Self, t: &NttTables) -> (r: Self)
        requires
            t.wf(),
            self.model().len() == other.model().len(),
            self.model().len() >= 1,
            t.has_size(2 * self.model().len() as int),
            coeffs_ok(self.model()),
            coeffs_ok(other.model()),
        ensures
            r.model() == smerge_ntt(t, self.model(), other.model()),
    ;

    /// The forward transform.
    fn ntt(self, t: &NttTables) -> (r: Self)
        requires
            t.wf(),
            t.has_size(self.model().len() as int),
            coeffs_ok(self.model()),
        ensures
            r.model() == sntt(t, self.model()),
    ;

    /// The inverse transform.
    fn intt(self, t: &NttTables) -> (r: Self)
        requires
            t.wf(),
            t.has_size(self.model().len() as int),
            coeffs_ok(self.model()),
        ensures
            r.model() == sintt(t, self.model()),
    ;

    /// Coefficientwise sum mod q (the same in either domain).
    fn add(self, other: Self) -> (r: Self)
        requires
            self.model().len() == other.model().len(),
            coeffs_ok(self.model()),
            coeffs_ok(other.model()),
        ensures
            r.model() == spoint_add(self.model(), other.model()),
    ;

    /// Coefficientwise negation mod q.
    fn neg(self) -> (r: Self)
        requires
            coeffs_ok(self.model()),
        ensures
            r.model() == sneg(self.model()),
    ;

    /// Coefficientwise difference mod q (the same in either domain).
    fn sub(self, other: Self) -> (r: Self)
        requires
            self.model().len() == other.model().len(),
            coeffs_ok(self.model()),
            coeffs_ok(other.model()),
        ensures
            r.model() == spoint_sub(self.model(), other.model()),
    ;

    /// Ring multiplication: exact negacyclic convolution mod x^n + 1,
    /// computed by transforming in, multiplying pointwise, and
    /// transforming out.
    fn mul(self, other: Self, t: &NttTables) -> (r: Self)
        requires
            t.wf(),
            self.model().len() == other.model().len(),
            t.has_size(self.model().len() as int),
            coeffs_ok(self.model()),
            coeffs_ok(other.model()),
        ensures
            r.model() == smul(t, self.model(), other.model()),
    ;

    /// Ring division; fails exactly when some transform-domain
    /// coefficient of the divisor is zero, which has no inverse.
    fn div(self, other: Self, t: &NttTables) -> (r: Option<Self>)
        requires
            t.wf(),
            self.model().len() == other.model().len(),
            t.has_size(self.model().len() as int),
            coeffs_ok(self.model()),
            coeffs_ok(other.model()),
        ensures
            match r {
                Some(p) => p.model() == sdiv(t, self.model(), other.model()) && (forall|j: int|
                    0 <= j < other.model().len() ==> #[trigger] sntt(t, other.model())[j] != 0),
                None => exists|j: int|
                    0 <= j < other.model().len() && #[trigger] sntt(t, other.model())[j] == 0,
            },
    ;

    /// Sum in the transform domain (pointwise, so identical to `add`).
    fn add_ntt(self, other: Self) -> (r: Self)
        requires
            self.model().len() == other.model().len(),
            coeffs_ok(self.model()),
            coeffs_ok(other.model()),
        ensures
            r.model() == spoint_add(self.model(), other.model()),
    ;

    /// Difference in the transform domain.
    fn sub_ntt(self, other: Self) -> (r: Self)
        requires
            self.model().len() == other.model().len(),
            coeffs_ok(self.model()),
            coeffs_ok(other.model()),
        ensures
            r.model() == spoint_sub(self.model(), other.model()),
    ;

    /// Product in the transform domain: coefficientwise mod q.
    fn mul_ntt(self, other: Self) -> (r: Self)
        requires
            self.model().len() == other.model().len(),
            coeffs_ok(self.model()),
            coeffs_ok(other.model()),
        ensures
            r.model() == spoint_mul(self.model(), other.model()),
    ;

    /// Quotient in the transform domain; fails exactly when the divisor
    /// has a zero coefficient.
    fn div_ntt(self, other: Self, t: &NttTables) -> (r: Option<Self>)
        requires
            t.wf(),
            self.model().len() == other.model().len(),
            coeffs_ok(self.model()),
            coeffs_ok(other.model()),
        ensures
            match r {
                Some(p) => p.model() == spoint_div(t, self.model(), other.model()) && (forall|
                    j: int,
                |
                    0 <= j < other.model().len() ==> #[trigger] other.model()[j] != 0),
                None => exists|j: int|
                    0 <= j < other.model().len() && #[trigger] other.model()[j] == 0,
            },
    ;
}

impl NTT for Polynomial<u32> {
    open spec fn model(&self) -> Seq<int> {
        ival(self@)
    }

    fn split_ntt(self, t: &NttTables) -> (r: (Self, Self)) {
        proof {
            lemma_size_level(t, self@.len() as int);
        }
        let n = self.coefficients.len();
        let w = roots_for(t, n);
        let ghost f = ival(self@);
        let ghost lv = t.level_of(n as int);
        let mut f0: Vec<u32> = Vec::new();
        let mut f1: Vec<u32> = Vec::new();
        let mut i: usize = 0;
        while i < n / 2
            invariant
                t.wf(),
                n == self@.len(),
                n % 2 == 0,
                2 <= n,
                t.has_size(n as int),
                lv == t.level_of(n as int),
                coeffs_ok(f),
                f == ival(self@),
                w@ == t.roots_of(n as int),
                w@.len() == n,
                i <= n / 2,
                f0@.len() == i,
                f1@.len() == i,
                ival(f0@) == ssplit_ntt0(t, f).take(i as int),
                ival(f1@) == ssplit_ntt1(t, f).take(i as int),
            decreases n / 2 - i,
        {
            let e = self.coefficients[2 * i];
            let o = self.coefficients[2 * i + 1];
            proof {
                assert(f[2 * i as int] == e as int);
                assert(f[2 * i as int + 1] == o as int);
                assert(0 < t.roots@[lv]@[2 * i as int] < Q);
            }
            let wi = w[2 * i];
            let iw = inv_e(t, wi);
            let v0 = mq_mul_e(I2, mq_add_e(e, o));
            let v1 = mq_mul_e(mq_mul_e(I2, mq_sub_e(e, o)), iw);
            f0.push(v0);
            f1.push(v1);
            i = i + 1;
            proof {
                assert(ssplit_ntt0(t, f)[i as int - 1] == mq_mul(
                    I2 as int,
                    mq_add(e as int, o as int),
                ));
                assert(ssplit_ntt1(t, f)[i as int - 1] == mq_mul(
                    mq_mul(I2 as int, mq_sub(e as int, o as int)),
                    t.inv_of(t.root_of(n as int, 2 * (i as int - 1))),
                ));
                assert(ival(f0@) =~= ssplit_ntt0(t, f).take(i as int));
                assert(ival(f1@) =~= ssplit_ntt1(t, f).take(i as int));
            }
        }
        proof {
            assert(ival(f0@) =~= ssplit_ntt0(t, f));
            assert(ival(f1@) =~= ssplit_ntt1(t, f));
        }
        (Polynomial { coefficients: f0 }, Polynomial { coefficients: f1 })
    }

    fn merge_ntt(self, other: Self, t: &NttTables) -> (r: Self) {
        let n = self.coefficients.len();
        let w = roots_for_double(t, n);
        let ghost a = ival(self@);
        let ghost b = ival(other@);
        let ghost lv = t.level_of(2 * n as int);
        proof {
            lemma_size_level(t, 2 * n as int);
        }
        let wlen = w.len();
        let mut out: Vec<u32> = Vec::new();
        let mut i: usize = 0;
        while i < n
            invariant
                t.wf(),
                n == self@.len(),
                n == other@.len(),
                t.has_size(2 * n as int),
                lv == t.level_of(2 * n as int),
                coeffs_ok(a),
                coeffs_ok(b),
                a == ival(self@),
                b == ival(other@),
                w@ == t.roots_of(2 * n as int),
                w@.len() == 2 * n,
                wlen == 2 * n,
                i <= n,
                out@.len() == 2 * i,
                ival(out@) == smerge_ntt(t, a, b).take(2 * i as int),
            decreases n - i,
        {
            let ai = self.coefficients[i];
            let bi = other.coefficients[i];
            proof {
                assert(a[i as int] == ai as int);
                assert(b[i as int] == bi as int);
                assert(0 < t.roots@[lv]@[2 * i as int] < Q);
                assert(smerge_ntt(t, a, b).len() == 2 * a.len());
            }
            let wi = w[2 * i];
            let m = mq_mul_e(wi, bi);
            out.push(mq_add_e(ai, m));
            out.push(mq_sub_e(ai, m));
            i = i + 1;
            proof {
                assert((2 * (i as int - 1)) / 2 == i as int - 1);
                assert((2 * (i as int - 1) + 1) / 2 == i as int - 1);
                assert(smerge_ntt(t, a, b)[2 * (i as int - 1)] == mq_add(
                    a[i as int - 1],
                    mq_mul(t.root_of(2 * n as int, 2 * (i as int - 1)), b[i as int - 1]),
                ));
                assert(smerge_ntt(t, a, b)[2 * (i as int - 1) + 1] == mq_sub(
                    a[i as int - 1],
                    mq_mul(t.root_of(2 * n as int, 2 * (i as int - 1)), b[i as int - 1]),
                ));
                assert(ival(out@) =~= smerge_ntt(t, a, b).take(2 * i as int));
            }
        }
        proof {
            assert(ival(out@) =~= smerge_ntt(t, a, b));
        }
        Polynomial { coefficients: out }
    }

    fn ntt(self, t: &NttTables) -> (r: Self)
        decreases self@.len(),
    {
        proof {
            lemma_size_level(t, self@.len() as int);
        }
        let n = self.coefficients.len();
        if n == 2 {
            proof {
                assert(pow2i(1) == 2) by {
                    assert(pow2i(0) == 1);
                }
                assert(t.roots@[0]@.len() == 2);
                assert(0 < t.roots@[0]@[0] < Q);
                assert(ival(self@)[0] == self@[0] as int);
                assert(ival(self@)[1] == self@[1] as int);
            }
            let s = t.roots[0][0];
            let f0 = self.coefficients[0];
            let f1 = self.coefficients[1];
            let m = mq_mul_e(s, f1);
            let mut c: Vec<u32> = Vec::new();
            c.push(mq_add_e(f0, m));
            c.push(mq_sub_e(f0, m));
            let r = Polynomial { coefficients: c };
            proof {
                assert(ival(r@) =~= sntt(t, ival(self@)));
            }
            r
        } else {
            let ghost f = ival(self@);
            proof {
                lemma_half_size(t, n as int);
                assert(ival(evens(self@)) =~= evens(f));
                assert(ival(odds(self@)) =~= odds(f));
                assert(coeffs_ok(evens(f))) by {
                    assert(forall|i: int|
                        0 <= i < evens(f).len() ==> #[trigger] evens(f)[i] == f[2 * i]);
                }
                assert(coeffs_ok(odds(f))) by {
                    assert(forall|i: int|
                        0 <= i < odds(f).len() ==> #[trigger] odds(f)[i] == f[2 * i + 1]);
                }
            }
            let (e, o) = self.split();
            let fe = e.ntt(t);
            let fo = o.ntt(t);
            proof {
                lemma_sntt_wf(t, evens(f));
                lemma_sntt_wf(t, odds(f));
                assert(2 * (n as int / 2) == n);
            }
            let r = fe.merge_ntt(fo, t);
            proof {
                assert(r.model() == sntt(t, f));
            }
            r
        }
    }

    fn intt(self, t: &NttTables) -> (r: Self)
        decreases self@.len(),
    {
        proof {
            lemma_size_level(t, self@.len() as int);
        }
        let n = self.coefficients.len();
        if n == 2 {
            proof {
                assert(pow2i(1) == 2) by {
                    assert(pow2i(0) == 1);
                }
                assert(t.roots@[0]@.len() == 2);
                assert(0 < t.roots@[0]@[0] < Q);
                assert(ival(self@)[0] == self@[0] as int);
                assert(ival(self@)[1] == self@[1] as int);
            }
            let s = t.roots[0][0];
            let is = inv_e(t, s);
            let g0 = self.coefficients[0];
            let g1 = self.coefficients[1];
            let mut c: Vec<u32> = Vec::new();
            c.push(mq_mul_e(I2, mq_add_e(g0, g1)));
            c.push(mq_mul_e(mq_mul_e(I2, mq_sub_e(g0, g1)), is));
            let r = Polynomial { coefficients: c };
            proof {
                assert(ival(r@) =~= sintt(t, ival(self@)));
            }
            r
        } else {
            let ghost g = ival(self@);
            let (s0, s1) = self.split_ntt(t);
            proof {
                lemma_half_size(t, n as int);
                assert(coeffs_ok(ssplit_ntt0(t, g)));
                assert(coeffs_ok(ssplit_ntt1(t, g)));
                assert(ssplit_ntt0(t, g).len() == n as int / 2);
            }
            proof {
                assert(s0.model().len() == n as int / 2);
                assert(s1.model().len() == n as int / 2);
                assert(n as int / 2 < n as int);
            }
            let i0 = s0.intt(t);
            let i1 = s1.intt(t);
            proof {
                lemma_sintt_wf(t, ssplit_ntt0(t, g));
                lemma_sintt_wf(t, ssplit_ntt1(t, g));
            }
            let r = i0.merge(i1);
            proof {
                assert(ival(r@) =~= interleave(ival(i0@), ival(i1@)));
                assert(ival(r@) == sintt(t, g));
            }
            r
        }
    }

    fn add(self, other: Self) -> (r: Self) {
        let n = self.coefficients.len();
        let ghost a = ival(self@);
        let ghost b = ival(other@);
        let mut out: Vec<u32> = Vec::new();
        let mut i: usize = 0;
        while i < n
            invariant
                n == self@.len(),
                n == other@.len(),
                coeffs_ok(a),
                coeffs_ok(b),
                a == ival(self@),
                b == ival(other@),
                i <= n,
                out@.len() == i,
                ival(out@) == spoint_add(a, b).take(i as int),
            decreases n - i,
        {
            proof {
                assert(a[i as int] == self@[i as int] as int);
                assert(b[i as int] == other@[i as int] as int);
            }
            out.push(mq_add_e(self.coefficients[i], other.coefficients[i]));
            i = i + 1;
            proof {
                assert(ival(out@) =~= spoint_add(a, b).take(i as int));
            }
        }
        proof {
            assert(ival(out@) =~= spoint_add(a, b));
        }
        Polynomial { coefficients: out }
    }

    fn neg(self) -> (r: Self) {
        let n = self.coefficients.len();
        let ghost a = ival(self@);
        let mut out: Vec<u32> = Vec::new();
        let mut i: usize = 0;
        while i < n
            invariant
                n == self@.len(),
                coeffs_ok(a),
                a == ival(self@),
                i <= n,
                out@.len() == i,
                ival(out@) == sneg(a).take(i as int),
            decreases n - i,
        {
            proof {
                assert(a[i as int] == self@[i as int] as int);
            }
            out.push(mq_sub_e(0, self.coefficients[i]));
            i = i + 1;
            proof {
                assert(ival(out@) =~= sneg(a).take(i as int));
            }
        }
        proof {
            assert(ival(out@) =~= sneg(a));
        }
        Polynomial { coefficients: out }
    }

    fn sub(self, other: Self) -> (r: Self) {
        let n = self.coefficients.len();
        let ghost a = ival(self@);
        let ghost b = ival(other@);
        let mut out: Vec<u32> = Vec::new();
        let mut i: usize = 0;
        while i < n
            invariant
                n == self@.len(),
                n == other@.len(),
                coeffs_ok(a),
                coeffs_ok(b),
                a == ival(self@),
                b == ival(other@),
                i <= n,
                out@.len() == i,
                ival(out@) == spoint_sub(a, b).take(i as int),
            decreases n - i,
        {
            proof {
                assert(a[i as int] == self@[i as int] as int);
                assert(b[i as int] == other@[i as int] as int);
            }
            out.push(mq_sub_e(self.coefficients[i], other.coefficients[i]));
            i = i + 1;
            proof {
                assert(ival(out@) =~= spoint_sub(a, b).take(i as int));
            }
        }
        proof {
            assert(ival(out@) =~= spoint_sub(a, b));
        }
        Polynomial { coefficients: out }
    }

    fn mul(self, other: Self, t: &NttTables) -> (r: Self) {
        let ghost a = ival(self@);
        let ghost b = ival(other@);
        let fa = self.ntt(t);
        let fb = other.ntt(t);
        proof {
            lemma_sntt_wf(t, a);
            lemma_sntt_wf(t, b);
        }
        let p = fa.mul_ntt(fb);
        proof {
            assert(coeffs_ok(spoint_mul(sntt(t, a), sntt(t, b))));
            assert(spoint_mul(sntt(t, a), sntt(t, b)).len() == a.len());
        }
        let r = p.intt(t);
        proof {
            assert(r.model() == smul(t, a, b));
        }
        r
    }

    fn div(self, other: Self, t: &NttTables) -> (r: Option<Self>) {
        let ghost a = ival(self@);
        let ghost b = ival(other@);
        let fa = self.ntt(t);
        let fb = other.ntt(t);
        proof {
            lemma_sntt_wf(t, a);
            lemma_sntt_wf(t, b);
        }
        match fa.div_ntt(fb, t) {
            None => None,
            Some(p) => {
                proof {
                    assert(coeffs_ok(spoint_div(t, sntt(t, a), sntt(t, b))));
                    assert(spoint_div(t, sntt(t, a), sntt(t, b)).len() == a.len());
                }
                let r = p.intt(t);
                proof {
                    assert(r.model() == sdiv(t, a, b));
                }
                Some(r)
            },
        }
    }

    fn add_ntt(self, other: Self) -> (r: Self) {
        self.add(other)
    }

    fn sub_ntt(self, other: Self) -> (r: Self) {
        self.sub(other)
    }

    fn mul_ntt(self, other: Self) -> (r: Self) {
        let n = self.coefficients.len();
        let ghost a = ival(self@);
        let ghost b = ival(other@);
        let mut out: Vec<u32> = Vec::new();
        let mut i: usize = 0;
        while i < n
            invariant
                n == self@.len(),
                n == other@.len(),
                coeffs_ok(a),
                coeffs_ok(b),
                a == ival(self@),
                b == ival(other@),
                i <= n,
                out@.len() == i,
                ival(out@) == spoint_mul(a, b).take(i as int),
            decreases n - i,
        {
            proof {
                assert(a[i as int] == self@[i as int] as int);
                assert(b[i as int] == other@[i as int] as int);
            }
            out.push(mq_mul_e(self.coefficients[i], other.coefficients[i]));
            i = i + 1;
            proof {
                assert(ival(out@) =~= spoint_mul(a, b).take(i as int));
            }
        }
        proof {
            assert(ival(out@) =~= spoint_mul(a, b));
        }
        Polynomial { coefficients: out }
    }

    fn div_ntt(self, other: Self, t: &NttTables) -> (r: Option<Self>) {
        let n = self.coefficients.len();
        let ghost a = ival(self@);
        let ghost b = ival(other@);
        let mut i: usize = 0;
        while i < n
            invariant
                n == self@.len(),
                n == other@.len(),
                coeffs_ok(a),
                coeffs_ok(b),
                a == ival(self@),
                b == ival(other@),
                i <= n,
                forall|m: int| 0 <= m < i ==> #[trigger] b[m] != 0,
            decreases n - i,
        {
            proof {
                assert(b[i as int] == other@[i as int] as int);
            }
            if other.coefficients[i] == 0 {
                proof {
                    assert(other.model()[i as int] == 0);
                    assert(exists|j: int|
                        0 <= j < other.model().len() && #[trigger] other.model()[j] == 0);
                }
                return None;
            }
            i = i + 1;
        }
        let mut out: Vec<u32> = Vec::new();
        let mut j: usize = 0;
        while j < n
            invariant
                t.wf(),
                n == self@.len(),
                n == other@.len(),
                coeffs_ok(a),
                coeffs_ok(b),
                a == ival(self@),
                b == ival(other@),
                forall|m: int| 0 <= m < n ==> #[trigger] b[m] != 0,
                j <= n,
                out@.len() == j,
                ival(out@) == spoint_div(t, a, b).take(j as int),
            decreases n - j,
        {
            proof {
                assert(a[j as int] == self@[j as int] as int);
                assert(b[j as int] == other@[j as int] as int);
                assert(b[j as int] != 0);
            }
            let bi = other.coefficients[j];
            let iv = inv_e(t, bi);
            out.push(mq_mul_e(self.coefficients[j], iv));
            j = j + 1;
            proof {
                assert(ival(out@) =~= spoint_div(t, a, b).take(j as int));
            }
        }
        proof {
            assert(ival(out@) =~= spoint_div(t, a, b));
        }
        Some(Polynomial { coefficients: out })
    }
}

/// The forward transform undoes the inverse transform exactly.
pub proof fn lemma_sntt_sintt(t: &NttTables, g: Seq<int>)
    requires
        t.wf(),
        coeffs_ok(g),
        t.has_size(g.len() as int),
    ensures
        sntt(t, sintt(t, g)) == g,
    decreases g.len(),
{
    lemma_size_level(t, g.len() as int);
    if g.len() <= 2 {
        let s = t.sq1();
        assert(pow2i(1) == 2) by {
            assert(pow2i(0) == 1);
        }
        assert(t.roots@[0]@.len() == 2);
        assert(0 < t.roots@[0]@[0] < Q);
        let is = t.inv_of(s);
        assert((s * is) % (Q as int) == 1);
        lemma_butterfly_fwd(g[0], g[1], s, is);
        assert(sntt(t, sintt(t, g)) =~= g);
    } else {
        lemma_half_size(t, g.len() as int);
        let s0 = ssplit_ntt0(t, g);
        let s1 = ssplit_ntt1(t, g);
        assert(s0.len() == g.len() / 2);
        assert(s1.len() == g.len() / 2);
        assert(coeffs_ok(s0));
        assert(coeffs_ok(s1));
        lemma_sintt_wf(t, s0);
        lemma_sintt_wf(t, s1);
        let i0 = sintt(t, s0);
        let i1 = sintt(t, s1);
        assert(sintt(t, g) == interleave(i0, i1));
        assert(interleave(i0, i1).len() == g.len());
        lemma_evens_odds_interleave(i0, i1);
        lemma_sntt_sintt(t, s0);
        lemma_sntt_sintt(t, s1);
        assert(sntt(t, sintt(t, g)) == smerge_ntt(t, sntt(t, i0), sntt(t, i1)));
        lemma_merge_split(t, g);
    }
}

// ---------------------------------------------------------------------
// The transform as evaluation, and the convolution law.
// ---------------------------------------------------------------------

/// Evaluation of a coefficient sequence at `x`, mod q.
pub open spec fn eval_mod(f: Seq<int>, x: int) -> int
    decreases f.len(),
{
    if f.len() == 0 {
        0
    } else {
        mq_add(f[0], mq_mul(x, eval_mod(f.drop_first(), x)))
    }
}

/// x^e mod q.
pub open spec fn pow_mod(x: int, e: int) -> int
    decreases e,
{
    if e <= 0 {
        1
    } else {
        mq_mul(x, pow_mod(x, e - 1))
    }
}

/// The all-zero sequence of length n.
pub open spec fn zero_seq(n: int) -> Seq<int> {
    Seq::new(n as nat, |i: int| 0)
}

/// Every coefficient scaled by c, mod q.
pub open spec fn scale_seq(c: int, v: Seq<int>) -> Seq<int> {
    Seq::new(v.len(), |i: int| mq_mul(c, v[i]))
}

/// Multiplication by x in the ring mod x^n + 1: rotate one step and
/// negate the coefficient that wraps around.
pub open spec fn xshift(v: Seq<int>) -> Seq<int> {
    Seq::new(
        v.len(),
        |i: int|
            if i == 0 {
                mq_sub(0, v[v.len() - 1])
            } else {
                v[i - 1]
            },
    )
}

/// The direct negacyclic convolution of a and b mod (x^n + 1): the sum
/// of one x-shifted copy of b per coefficient of a, each scaled by it.
pub open spec fn conv(a: Seq<int>, b: Seq<int>) -> Seq<int>
    decreases a.len(),
{
    if a.len() == 0 {
        zero_seq(b.len() as int)
    } else {
        spoint_add(scale_seq(a[0], b), xshift(conv(a.drop_first(), b)))
    }
}

proof fn lemma_conv_wf(a: Seq<int>, b: Seq<int>)
    ensures
        conv(a, b).len() == b.len(),
        coeffs_ok(conv(a, b)),
    decreases a.len(),
{
    if a.len() > 0 {
        lemma_conv_wf(a.drop_first(), b);
    } else {
        assert forall|i: int| 0 <= i < b.len() implies 0 <= #[trigger] zero_seq(b.len() as int)[i]
            < Q by {}
    }
}

/// Congruent summands give congruent sums mod q.
proof fn lemma_cong_add(p1: int, r1: int, p2: int, r2: int)
    requires
        p1 % (Q as int) == p2 % (Q as int),
        r1 % (Q as int) == r2 % (Q as int),
    ensures
        (p1 + r1) % (Q as int) == (p2 + r2) % (Q as int),
{
    lemma_add_mod_noop(p1, r1, Q as int);
    lemma_add_mod_noop(p2, r2, Q as int);
}

/// Congruent factors give congruent products mod q.
proof fn lemma_cong_mul(p1: int, r1: int, p2: int, r2: int)
    requires
        p1 % (Q as int) == p2 % (Q as int),
        r1 % (Q as int) == r2 % (Q as int),
    ensures
        (p1 * r1) % (Q as int) == (p2 * r2) % (Q as int),
{
    vstd::arithmetic::div_mod::lemma_mul_mod_noop_general(p1, r1, Q as int);
    vstd::arithmetic::div_mod::lemma_mul_mod_noop_general(p2, r2, Q as int);
}

/// Reducing twice is reducing once.
proof fn lemma_mqm(a: int)
    ensures
        (a % (Q as int)) % (Q as int) == a % (Q as int),
{
    vstd::arithmetic::div_mod::lemma_mod_twice(a, Q as int);
}

/// Evaluation distributes over the pointwise sum.
proof fn lemma_eval_add(u: Seq<int>, v: Seq<int>, x: int)
    requires
        u.len() == v.len(),
    ensures
        eval_mod(spoint_add(u, v), x) == mq_add(eval_mod(u, x), eval_mod(v, x)),
    decreases u.len(),
{
    let q = Q as int;
    if u.len() == 0 {
    } else {
        lemma_eval_add(u.drop_first(), v.drop_first(), x);
        assert(spoint_add(u, v).drop_first() =~= spoint_add(u.drop_first(), v.drop_first()));
        let eu = eval_mod(u.drop_first(), x);
        let ev = eval_mod(v.drop_first(), x);
        assert(eval_mod(spoint_add(u, v), x) == ((u[0] + v[0]) % q + (x * ((eu + ev) % q)) % q)
            % q);
        lemma_mqm(u[0] + v[0]);
        lemma_mqm(x * ((eu + ev) % q));
        lemma_mul_mod_noop_right(x, eu + ev, q);
        lemma_cong_add(
            (u[0] + v[0]) % q,
            (x * ((eu + ev) % q)) % q,
            u[0] + v[0],
            x * (eu + ev),
        );
        assert(eval_mod(spoint_add(u, v), x) == ((u[0] + v[0]) + x * (eu + ev)) % q);
        assert(mq_add(eval_mod(u, x), eval_mod(v, x)) == ((u[0] + (x * eu) % q) % q + (v[0] + (x
            * ev) % q) % q) % q);
        lemma_mqm(x * eu);
        lemma_cong_add(u[0], (x * eu) % q, u[0], x * eu);
        lemma_mqm(x * ev);
        lemma_cong_add(v[0], (x * ev) % q, v[0], x * ev);
        lemma_mqm(u[0] + x * eu);
        lemma_mqm(v[0] + x * ev);
        lemma_cong_add(
            (u[0] + (x * eu) % q) % q,
            (v[0] + (x * ev) % q) % q,
            u[0] + x * eu,
            v[0] + x * ev,
        );
        assert(mq_add(eval_mod(u, x), eval_mod(v, x)) == ((u[0] + x * eu) + (v[0] + x * ev)) % q);
        assert((u[0] + v[0]) + x * (eu + ev) == (u[0] + x * eu) + (v[0] + x * ev))
            by (nonlinear_arith);
    }
}

/// Evaluation commutes with scaling.
proof fn lemma_eval_scale(c: int, v: Seq<int>, x: int)
    ensures
        eval_mod(scale_seq(c, v), x) == mq_mul(c, eval_mod(v, x)),
    decreases v.len(),
{
    let q = Q as int;
    if v.len() == 0 {
        assert(c * 0 == 0) by (nonlinear_arith);
    } else {
        lemma_eval_scale(c, v.drop_first(), x);
        assert(scale_seq(c, v).drop_first() =~= scale_seq(c, v.drop_first()));
        let ev = eval_mod(v.drop_first(), x);
        assert(eval_mod(scale_seq(c, v), x) == ((c * v[0]) % q + (x * ((c * ev) % q)) % q) % q);
        lemma_mqm(c * v[0]);
        lemma_mqm(x * ((c * ev) % q));
        lemma_mul_mod_noop_right(x, c * ev, q);
        lemma_cong_add((c * v[0]) % q, (x * ((c * ev) % q)) % q, c * v[0], x * (c * ev));
        assert(eval_mod(scale_seq(c, v), x) == (c * v[0] + x * (c * ev)) % q);
        assert(mq_mul(c, eval_mod(v, x)) == (c * ((v[0] + (x * ev) % q) % q)) % q);
        lemma_mqm(x * ev);
        lemma_cong_add(v[0], (x * ev) % q, v[0], x * ev);
        lemma_mqm(v[0] + (x * ev) % q);
        lemma_mqm(c);
        lemma_cong_mul(c, (v[0] + (x * ev) % q) % q, c, v[0] + x * ev);
        assert(mq_mul(c, eval_mod(v, x)) == (c * (v[0] + x * ev)) % q);
        assert(c * (v[0] + x * ev) == c * v[0] + x * (c * ev)) by (nonlinear_arith);
    }
}

/// Splitting off the last coefficient: the value is the prefix's value
/// plus the last coefficient times x to the last index.
proof fn lemma_eval_drop_last(v: Seq<int>, x: int)
    requires
        v.len() >= 1,
    ensures
        eval_mod(v, x) == mq_add(
            eval_mod(v.drop_last(), x),
            mq_mul(v.last(), pow_mod(x, v.len() as int - 1)),
        ),
    decreases v.len(),
{
    let q = Q as int;
    if v.len() == 1 {
        assert(v.drop_last() =~= Seq::<int>::empty());
        assert(v.drop_first() =~= Seq::<int>::empty());
        assert(eval_mod(Seq::<int>::empty(), x) == 0);
        assert(eval_mod(v, x) == (v[0] + (x * 0) % q) % q);
        assert(x * 0 == 0) by (nonlinear_arith);
        assert(v.last() * 1 == v.last()) by (nonlinear_arith);
        assert(mq_add(eval_mod(v.drop_last(), x), mq_mul(v.last(), pow_mod(x, 0))) == (0 + (
        v.last() * 1) % q) % q);
        lemma_mqm(v[0] * 1);
        lemma_cong_add(0int, (v[0] * 1) % q, 0int, v[0]);
        assert(0int % q == 0);
    } else {
        lemma_eval_drop_last(v.drop_first(), x);
        assert(v.drop_first().drop_last() =~= v.drop_last().drop_first());
        assert(v.drop_first().last() == v.last());
        let dl = v.drop_last();
        let edl = eval_mod(dl.drop_first(), x);
        let p = pow_mod(x, v.len() as int - 2);
        let c = v.last();
        assert(pow_mod(x, v.len() as int - 1) == (x * p) % q);
        // The left side, flattened to one reduction.
        assert(eval_mod(v, x) == (v[0] + (x * ((edl + (c * p) % q) % q)) % q) % q);
        lemma_mqm(c * p);
        lemma_cong_add(edl, (c * p) % q, edl, c * p);
        lemma_mqm(edl + c * p);
        lemma_mul_mod_noop_right(x, edl + c * p, q);
        lemma_mqm(x * ((edl + (c * p) % q) % q));
        lemma_mul_mod_noop_right(x, (edl + (c * p) % q) % q, q);
        lemma_cong_add(
            v[0],
            (x * ((edl + (c * p) % q) % q)) % q,
            v[0],
            x * (edl + c * p),
        );
        assert(eval_mod(v, x) == (v[0] + x * (edl + c * p)) % q);
        // The right side, flattened to one reduction.
        assert(mq_add(eval_mod(dl, x), mq_mul(c, pow_mod(x, v.len() as int - 1))) == ((v[0] + (x
            * edl) % q) % q + (c * ((x * p) % q)) % q) % q);
        lemma_mqm(x * edl);
        lemma_cong_add(v[0], (x * edl) % q, v[0], x * edl);
        lemma_mqm(v[0] + x * edl);
        lemma_mqm(c);
        lemma_mul_mod_noop_right(c, x * p, q);
        lemma_mqm(c * ((x * p) % q));
        lemma_cong_add(
            (v[0] + (x * edl) % q) % q,
            (c * ((x * p) % q)) % q,
            v[0] + x * edl,
            c * (x * p),
        );
        assert(mq_add(eval_mod(dl, x), mq_mul(c, pow_mod(x, v.len() as int - 1))) == ((v[0] + x
            * edl) + c * (x * p)) % q);
        assert(v[0] + x * (edl + c * p) == (v[0] + x * edl) + c * (x * p)) by (nonlinear_arith);
    }
}

/// Evaluating the x-shifted sequence multiplies the value by x, at any
/// point x with x^n = -1 mod q.
proof fn lemma_eval_xshift(v: Seq<int>, x: int)
    requires
        v.len() >= 1,
        pow_mod(x, v.len() as int) == Q - 1,
    ensures
        eval_mod(xshift(v), x) == mq_mul(x, eval_mod(v, x)),
{
    let q = Q as int;
    let n = v.len() as int;
    let w = xshift(v);
    let dl = v.drop_last();
    assert(w.drop_first() =~= dl);
    assert(w[0] == mq_sub(0, v[n - 1]));
    assert(v.last() == v[n - 1]);
    let c = v[n - 1];
    let edl = eval_mod(dl, x);
    let p = pow_mod(x, n - 1);
    lemma_eval_drop_last(v, x);
    assert(pow_mod(x, n) == (x * p) % q);
    assert(eval_mod(v, x) == (edl + (c * p) % q) % q);
    // x·eval(v), flattened to one reduction: (x·edl + c·(x·p)) mod q.
    assert(mq_mul(x, eval_mod(v, x)) == (x * ((edl + (c * p) % q) % q)) % q);
    lemma_mqm(c * p);
    lemma_cong_add(edl, (c * p) % q, edl, c * p);
    lemma_mqm(edl + (c * p) % q);
    lemma_mqm(edl + c * p);
    lemma_mqm(x);
    lemma_cong_mul(x, (edl + (c * p) % q) % q, x, edl + c * p);
    assert(mq_mul(x, eval_mod(v, x)) == (x * (edl + c * p)) % q);
    assert(x * (edl + c * p) == x * edl + c * (x * p)) by (nonlinear_arith);
    // Replace x·p by q-1 under the reduction.
    lemma_mqm(x * p);
    assert((x * p) % q == (q - 1) % q) by {
        lemma_small_mod((q - 1) as nat, q as nat);
    }
    lemma_mqm(c);
    lemma_cong_mul(c, (x * p) % q, c, q - 1);
    lemma_mqm(x * edl);
    lemma_mul_mod_noop_right(c, x * p, q);
    lemma_cong_add(x * edl, c * (x * p), x * edl, c * (q - 1));
    assert((x * edl + c * (x * p)) % q == (x * edl + c * (q - 1)) % q);
    assert((x * edl + c * (q - 1)) % q == (x * edl - c) % q) by {
        assert(x * edl + c * (q - 1) == q * c + (x * edl - c)) by (nonlinear_arith);
        lemma_mod_multiples_vanish(c, x * edl - c, q);
    }
    // The shifted side reduces to the same expression.
    assert(eval_mod(w, x) == ((0 - c) % q + (x * edl) % q) % q);
    lemma_mqm(0 - c);
    lemma_cong_add((0 - c) % q, (x * edl) % q, 0 - c, x * edl);
    assert(eval_mod(w, x) == (x * edl - c) % q);
}

proof fn lemma_eval_zero(n: int, x: int)
    requires
        n >= 0,
    ensures
        eval_mod(zero_seq(n), x) == 0,
    decreases n,
{
    let q = Q as int;
    if n > 0 {
        lemma_eval_zero(n - 1, x);
        assert(zero_seq(n).drop_first() =~= zero_seq(n - 1));
        assert(x * 0 == 0) by (nonlinear_arith);
        assert(eval_mod(zero_seq(n), x) == (0 + 0int % q) % q);
    }
}

/// Evaluation turns the convolution into the product of the values, at
/// any point x with x^n = -1 mod q.
proof fn lemma_eval_conv(a: Seq<int>, b: Seq<int>, x: int)
    requires
        b.len() >= 1,
        pow_mod(x, b.len() as int) == Q - 1,
    ensures
        eval_mod(conv(a, b), x) == mq_mul(eval_mod(a, x), eval_mod(b, x)),
    decreases a.len(),
{
    let q = Q as int;
    let eb = eval_mod(b, x);
    if a.len() == 0 {
        lemma_eval_zero(b.len() as int, x);
        assert(0int * eb == 0) by (nonlinear_arith);
        assert(mq_mul(0, eb) == 0int % q);
    } else {
        lemma_eval_conv(a.drop_first(), b, x);
        lemma_conv_wf(a.drop_first(), b);
        let rest = conv(a.drop_first(), b);
        let ea = eval_mod(a.drop_first(), x);
        assert(scale_seq(a[0], b).len() == xshift(rest).len());
        lemma_eval_add(scale_seq(a[0], b), xshift(rest), x);
        lemma_eval_scale(a[0], b, x);
        lemma_eval_xshift(rest, x);
        // Left side: (a0·eb + x·(ea·eb)) mod q, flattened.
        assert(eval_mod(conv(a, b), x) == ((a[0] * eb) % q + (x * ((ea * eb) % q)) % q) % q);
        lemma_mqm(a[0] * eb);
        lemma_mqm(x * ((ea * eb) % q));
        lemma_mul_mod_noop_right(x, ea * eb, q);
        lemma_cong_add(
            (a[0] * eb) % q,
            (x * ((ea * eb) % q)) % q,
            a[0] * eb,
            x * (ea * eb),
        );
        assert(eval_mod(conv(a, b), x) == (a[0] * eb + x * (ea * eb)) % q);
        // Right side: ((a0 + x·ea)·eb) mod q, flattened.
        assert(mq_mul(eval_mod(a, x), eb) == (((a[0] + (x * ea) % q) % q) * eb) % q);
        lemma_mqm(x * ea);
        lemma_cong_add(a[0], (x * ea) % q, a[0], x * ea);
        lemma_mqm(a[0] + (x * ea) % q);
        lemma_mqm(eb);
        lemma_cong_mul((a[0] + (x * ea) % q) % q, eb, a[0] + x * ea, eb);
        assert(mq_mul(eval_mod(a, x), eb) == ((a[0] + x * ea) * eb) % q);
        assert((a[0] + x * ea) * eb == a[0] * eb + x * (ea * eb)) by (nonlinear_arith);
    }
}

/// Squaring the base halves the exponent.
proof fn lemma_pow_halving(w: int, m: int)
    requires
        m >= 0,
    ensures
        pow_mod(w, 2 * m) == pow_mod(mq_mul(w, w), m),
    decreases m,
{
    let q = Q as int;
    if m > 0 {
        lemma_pow_halving(w, m - 1);
        let inner = pow_mod(w, 2 * m - 2);
        // pow(w, 2m) = (w·((w·inner) mod q)) mod q = ((w·w)·inner) mod q
        assert(pow_mod(w, 2 * m) == mq_mul(w, pow_mod(w, 2 * m - 1)));
        assert(pow_mod(w, 2 * m - 1) == mq_mul(w, pow_mod(w, 2 * m - 2)));
        assert(pow_mod(w, 2 * m) == (w * ((w * inner) % q)) % q);
        lemma_mqm(w);
        lemma_mqm(w * inner);
        lemma_cong_mul(w, (w * inner) % q, w, w * inner);
        assert(pow_mod(w, 2 * m) == (w * (w * inner)) % q);
        // pow((w·w) mod q, m) = (((w·w) mod q)·inner) mod q = ((w·w)·inner) mod q
        assert(pow_mod(mq_mul(w, w), m) == (((w * w) % q) * pow_mod(mq_mul(w, w), m - 1)) % q);
        lemma_mqm(w * w);
        lemma_mqm(inner);
        lemma_cong_mul((w * w) % q, inner, w * w, inner);
        assert(w * (w * inner) == (w * w) * inner) by (nonlinear_arith);
    }
}

/// Every root at ring size n is a primitive 2n-th root: its n-th power
/// is -1 mod q.
proof fn lemma_root_pow(t: &NttTables, n: int, j: int)
    requires
        t.wf(),
        t.has_size(n),
        0 <= j < n,
    ensures
        pow_mod(t.root_of(n, j), n) == Q - 1,
    decreases n,
{
    let q = Q as int;
    lemma_size_level(t, n);
    let lv = t.level_of(n);
    let i = j / 2;
    let we = t.root_of(n, 2 * i);
    let w = t.root_of(n, j);
    assert(0 < t.roots@[lv]@[2 * i] < Q);
    assert(0 < t.roots@[lv]@[j] < Q);
    assert(t.roots@[lv]@[2 * i + 1] == Q - t.roots@[lv]@[2 * i]);
    // The square of the root at index j is the square of the even root
    // of its pair: for the odd index, (q - w)^2 = w^2 mod q.
    assert(mq_mul(w, w) == (we * we) % q) by {
        if j % 2 == 1 {
            assert(w == q - we);
            assert((q - we) * (q - we) == q * (q - 2 * we) + we * we) by (nonlinear_arith);
            lemma_mod_multiples_vanish(q - 2 * we, we * we, q);
        }
    }
    lemma_pow_halving(w, n / 2);
    assert(2 * (n / 2) == n);
    if n == 2 {
        assert(i == 0);
        assert(pow2i(1) == 2) by {
            assert(pow2i(0) == 1);
        }
        assert(lv == 0) by {
            lemma_pow2i_injective(lv + 1, 1);
        }
        assert(we == t.sq1());
        assert((we * we) % q == q - 1);
        // pow(w^2 mod q, 1) = ((w^2 mod q)·1) mod q = w^2 mod q
        assert(pow_mod(mq_mul(w, w), 0) == 1);
        assert(pow_mod(mq_mul(w, w), 1) == mq_mul(mq_mul(w, w), pow_mod(mq_mul(w, w), 0)));
        assert(pow_mod(mq_mul(w, w), 1) == (mq_mul(w, w) * 1) % q);
        assert(mq_mul(w, w) * 1 == mq_mul(w, w)) by (nonlinear_arith);
        lemma_mqm(w * w);
    } else {
        lemma_half_size(t, n);
        assert(lv >= 1) by {
            if lv == 0 {
                assert(pow2i(1) == 2) by {
                    assert(pow2i(0) == 1);
                }
            }
        }
        assert((we * we) % q == t.roots@[lv - 1]@[i]) by {
            assert(0 <= i < pow2i(lv));
        }
        assert(t.root_of(n / 2, i) == t.roots@[lv - 1]@[i]);
        lemma_root_pow(t, n / 2, i);
        assert(pow_mod(mq_mul(w, w), n / 2) == pow_mod(t.root_of(n / 2, i), n / 2));
    }
}

/// Decimating the argument: the value of f at x is the value of its
/// even half at x^2 plus x times the value of its odd half at x^2.
proof fn lemma_eval_split(f: Seq<int>, x: int)
    requires
        f.len() % 2 == 0,
    ensures
        eval_mod(f, x) == mq_add(
            eval_mod(evens(f), mq_mul(x, x)),
            mq_mul(x, eval_mod(odds(f), mq_mul(x, x))),
        ),
    decreases f.len(),
{
    let q = Q as int;
    let x2 = mq_mul(x, x);
    if f.len() == 0 {
        assert(evens(f) =~= Seq::<int>::empty());
        assert(odds(f) =~= Seq::<int>::empty());
        assert(x * 0 == 0) by (nonlinear_arith);
        assert(mq_add(0, mq_mul(x, 0)) == (0 + 0int % q) % q);
    } else {
        let f2 = f.drop_first().drop_first();
        lemma_eval_split(f2, x);
        assert(evens(f).drop_first() =~= evens(f2));
        assert(odds(f).drop_first() =~= odds(f2));
        assert(evens(f)[0] == f[0]);
        assert(odds(f)[0] == f[1]);
        assert(f.drop_first()[0] == f[1]);
        assert(f.drop_first().drop_first() == f2);
        let e2 = eval_mod(evens(f2), x2);
        let o2 = eval_mod(odds(f2), x2);
        let ef2 = eval_mod(f2, x);
        // Left side: f0 + x·f1 + (x·x)·e2 + x·(x·x)·o2, one reduction.
        assert(eval_mod(f.drop_first(), x) == mq_add(f[1], mq_mul(x, ef2)));
        assert(eval_mod(f, x) == mq_add(f[0], mq_mul(x, eval_mod(f.drop_first(), x))));
        assert(eval_mod(f, x) == (f[0] + (x * ((f[1] + (x * ef2) % q) % q)) % q) % q);
        lemma_mqm(x * ef2);
        lemma_cong_add(f[1], (x * ef2) % q, f[1], x * ef2);
        lemma_mqm(f[1] + (x * ef2) % q);
        lemma_mqm(x);
        lemma_cong_mul(x, (f[1] + (x * ef2) % q) % q, x, f[1] + x * ef2);
        lemma_mqm(x * ((f[1] + (x * ef2) % q) % q));
        lemma_mqm(x * (f[1] + x * ef2));
        lemma_cong_add(
            f[0],
            (x * ((f[1] + (x * ef2) % q) % q)) % q,
            f[0],
            x * (f[1] + x * ef2),
        );
        assert(eval_mod(f, x) == (f[0] + x * (f[1] + x * ef2)) % q);
        assert(x * (f[1] + x * ef2) == x * f[1] + (x * x) * ef2) by (nonlinear_arith);
        assert(eval_mod(f, x) == ((f[0] + x * f[1]) + (x * x) * ef2) % q);
        // Substitute the decimated form of ef2 under the product.
        assert(ef2 == (e2 + (x * o2) % q) % q);
        lemma_mqm(e2 + (x * o2) % q);
        lemma_mqm(x * o2);
        lemma_cong_add(e2, (x * o2) % q, e2, x * o2);
        lemma_mqm(x * x);
        lemma_cong_mul(x * x, ef2, x * x, e2 + x * o2);
        assert((x * x) * (e2 + x * o2) == (x * x) * e2 + x * ((x * x) * o2)) by (nonlinear_arith);
        lemma_mqm((x * x) * ef2);
        lemma_mqm((x * x) * (e2 + x * o2));
        lemma_mqm(f[0] + x * f[1]);
        lemma_cong_add(
            f[0] + x * f[1],
            (x * x) * ef2,
            f[0] + x * f[1],
            (x * x) * e2 + x * ((x * x) * o2),
        );
        let raw: int = (f[0] + x * f[1]) + ((x * x) * e2 + x * ((x * x) * o2));
        assert(eval_mod(f, x) == raw % q);
        // Flatten the decimated side to the same expression.
        assert(eval_mod(evens(f), x2) == (f[0] + (x2 * e2) % q) % q);
        lemma_mqm(x2 * e2);
        lemma_mqm(e2);
        lemma_cong_mul(x2, e2, x * x, e2);
        lemma_cong_add(f[0], (x2 * e2) % q, f[0], (x * x) * e2);
        assert(eval_mod(evens(f), x2) == (f[0] + (x * x) * e2) % q);
        assert(eval_mod(odds(f), x2) == (f[1] + (x2 * o2) % q) % q);
        lemma_mqm(x2 * o2);
        lemma_mqm(o2);
        lemma_cong_mul(x2, o2, x * x, o2);
        lemma_cong_add(f[1], (x2 * o2) % q, f[1], (x * x) * o2);
        assert(eval_mod(odds(f), x2) == (f[1] + (x * x) * o2) % q);
        lemma_mqm(f[1] + (x * x) * o2);
        lemma_mqm(x);
        lemma_cong_mul(x, eval_mod(odds(f), x2), x, f[1] + (x * x) * o2);
        assert(x * (f[1] + (x * x) * o2) == x * f[1] + x * ((x * x) * o2)) by (nonlinear_arith);
        lemma_mqm(f[0] + (x * x) * e2);
        lemma_mqm(x * (f[1] + (x * x) * o2));
        lemma_cong_add(
            eval_mod(evens(f), x2),
            (x * eval_mod(odds(f), x2)) % q,
            f[0] + (x * x) * e2,
            x * f[1] + x * ((x * x) * o2),
        );
        assert(mq_add(eval_mod(evens(f), x2), mq_mul(x, eval_mod(odds(f), x2))) == ((f[0] + (x
            * x) * e2) + (x * f[1] + x * ((x * x) * o2))) % q);
        assert(raw == (f[0] + (x * x) * e2) + (x * f[1] + x * ((x * x) * o2)));
    }
}

/// The forward transform is evaluation: output j is the value of the
/// input polynomial at the j-th root of the table's chain.
pub proof fn lemma_sntt_eval(t: &NttTables, f: Seq<int>)
    requires
        t.wf(),
        t.has_size(f.len() as int),
        coeffs_ok(f),
    ensures
        forall|j: int|
            0 <= j < f.len() ==> #[trigger] sntt(t, f)[j] == eval_mod(
                f,
                t.root_of(f.len() as int, j),
            ),
    decreases f.len(),
{
    let q = Q as int;
    let n = f.len() as int;
    lemma_size_level(t, n);
    let lv = t.level_of(n);
    lemma_sntt_wf(t, f);
    assert(pow2i(1) == 2) by {
        assert(pow2i(0) == 1);
    }
    if f.len() <= 2 {
        let s1 = t.sq1();
        assert(lv == 0) by {
            lemma_pow2i_injective(lv + 1, 1);
        }
        assert(t.roots@[0]@.len() == 2);
        assert(0 < t.roots@[0]@[0] < Q);
        assert(t.roots@[0]@[1] == Q - t.roots@[0]@[0]);
        assert(t.root_of(2, 0) == s1);
        assert(t.root_of(2, 1) == q - s1);
        assert(f.drop_first().drop_first() =~= Seq::<int>::empty());
        assert forall|j: int| 0 <= j < 2 implies #[trigger] sntt(t, f)[j] == eval_mod(
            f,
            t.root_of(2, j),
        ) by {
            let x = t.root_of(2, j);
            assert(f.drop_first()[0] == f[1]);
            assert(eval_mod(Seq::<int>::empty(), x) == 0);
            assert(eval_mod(f.drop_first().drop_first(), x) == 0);
            assert(eval_mod(f.drop_first(), x) == mq_add(f[1], mq_mul(x, 0)));
            assert(x * 0 == 0) by (nonlinear_arith);
            lemma_small_mod(f[1] as nat, q as nat);
            assert(eval_mod(f.drop_first(), x) == f[1]);
            assert(eval_mod(f, x) == (f[0] + (x * f[1]) % q) % q);
            lemma_mqm(x * f[1]);
            lemma_cong_add(f[0], (x * f[1]) % q, f[0], x * f[1]);
            assert(eval_mod(f, x) == (f[0] + x * f[1]) % q);
            if j == 0 {
                assert(sntt(t, f)[0] == mq_add(f[0], mq_mul(s1, f[1])));
            } else {
                assert(sntt(t, f)[1] == mq_sub(f[0], mq_mul(s1, f[1])));
                // (f0 - (s1·f1) mod q) mod q == (f0 - s1·f1) mod q
                lemma_small_mod(f[0] as nat, q as nat);
                lemma_sub_mod_noop(f[0], s1 * f[1], q);
                lemma_mqm(s1 * f[1]);
                // (f0 + (q - s1)·f1) mod q == (f0 - s1·f1) mod q
                assert(f[0] + (q - s1) * f[1] == q * f[1] + (f[0] - s1 * f[1]))
                    by (nonlinear_arith);
                lemma_mod_multiples_vanish(f[1], f[0] - s1 * f[1], q);
            }
        }
    } else {
        lemma_half_size(t, n);
        let fe = evens(f);
        let fo = odds(f);
        assert(coeffs_ok(fe)) by {
            assert(forall|i: int| 0 <= i < fe.len() ==> #[trigger] fe[i] == f[2 * i]);
        }
        assert(coeffs_ok(fo)) by {
            assert(forall|i: int| 0 <= i < fo.len() ==> #[trigger] fo[i] == f[2 * i + 1]);
        }
        lemma_sntt_eval(t, fe);
        lemma_sntt_eval(t, fo);
        lemma_sntt_wf(t, fe);
        lemma_sntt_wf(t, fo);
        let a = sntt(t, fe);
        let b = sntt(t, fo);
        assert(sntt(t, f) == smerge_ntt(t, a, b));
        assert(2 * a.len() == n);
        assert(lv >= 1) by {
            if lv == 0 {
                assert(n == 2);
            }
        }
        assert forall|j: int| 0 <= j < n implies #[trigger] sntt(t, f)[j] == eval_mod(
            f,
            t.root_of(n, j),
        ) by {
            let i = j / 2;
            let w = t.root_of(n, 2 * i);
            let x = t.root_of(n, j);
            assert(0 < t.roots@[lv]@[2 * i] < Q);
            assert(0 < t.roots@[lv]@[j] < Q);
            assert(0 <= i < pow2i(lv));
            assert((w * w) % q == t.roots@[lv - 1]@[i]);
            assert(t.root_of(n / 2, i) == t.roots@[lv - 1]@[i]);
            lemma_eval_split(f, x);
            assert(a[i] == eval_mod(fe, t.root_of(n / 2, i)));
            assert(b[i] == eval_mod(fo, t.root_of(n / 2, i)));
            if j % 2 == 0 {
                assert(j == 2 * i);
                assert(mq_mul(x, x) == t.root_of(n / 2, i));
                assert(sntt(t, f)[j] == mq_add(a[i], mq_mul(w, b[i])));
            } else {
                assert(j == 2 * i + 1);
                assert(t.roots@[lv]@[2 * i + 1] == Q - t.roots@[lv]@[2 * i]);
                assert(x == q - w);
                assert(mq_mul(x, x) == (w * w) % q) by {
                    assert((q - w) * (q - w) == q * (q - 2 * w) + w * w) by (nonlinear_arith);
                    lemma_mod_multiples_vanish(q - 2 * w, w * w, q);
                }
                assert(mq_mul(x, x) == t.root_of(n / 2, i));
                assert(sntt(t, f)[j] == mq_sub(a[i], mq_mul(w, b[i])));
                // eval at q - w carries the negated twiddle:
                // (A + ((q-w)·B) mod q) mod q == (A - w·B) mod q
                let av = a[i];
                let bv = b[i];
                assert(0 <= av < Q);
                assert(0 <= bv < Q);
                assert(eval_mod(f, x) == (av + ((q - w) * bv) % q) % q);
                lemma_mqm((q - w) * bv);
                lemma_cong_add(av, ((q - w) * bv) % q, av, (q - w) * bv);
                assert(av + (q - w) * bv == q * bv + (av - w * bv)) by (nonlinear_arith);
                lemma_mod_multiples_vanish(bv, av - w * bv, q);
                assert(eval_mod(f, x) == (av - w * bv) % q);
                lemma_small_mod(av as nat, q as nat);
                lemma_mqm(w * bv);
                lemma_sub_mod_noop(av, w * bv, q);
                assert(mq_sub(av, mq_mul(w, bv)) == (av - w * bv) % q);
            }
        }
    }
}

/// Ring multiplication is the direct negacyclic convolution: through
/// the transform, the pointwise product, and the inverse transform,
/// `mul(a, b)` equals `conv(a, b)` exactly, for all operands of a
/// covered size.
pub proof fn lemma_mul_is_conv(t: &NttTables, a: Seq<int>, b: Seq<int>)
    requires
        t.wf(),
        a.len() == b.len(),
        a.len() >= 1,
        t.has_size(a.len() as int),
        coeffs_ok(a),
        coeffs_ok(b),
    ensures
        smul(t, a, b) == conv(a, b),
{
    let n = a.len() as int;
    lemma_size_level(t, n);
    lemma_conv_wf(a, b);
    lemma_sntt_wf(t, a);
    lemma_sntt_wf(t, b);
    lemma_sntt_wf(t, conv(a, b));
    lemma_sntt_eval(t, a);
    lemma_sntt_eval(t, b);
    lemma_sntt_eval(t, conv(a, b));
    assert forall|j: int| 0 <= j < n implies sntt(t, conv(a, b))[j] == #[trigger] spoint_mul(
        sntt(t, a),
        sntt(t, b),
    )[j] by {
        lemma_root_pow(t, n, j);
        lemma_eval_conv(a, b, t.root_of(n, j));
    }
    assert(sntt(t, conv(a, b)) =~= spoint_mul(sntt(t, a), sntt(t, b)));
    lemma_sintt_sntt(t, conv(a, b));
}

/// Multiplying a quotient back by its divisor restores the dividend:
/// for every divisor with no zero transform-domain coefficient,
/// `mul(div(a, b), b) == a` exactly.
pub proof fn lemma_div_mul_cancel(t: &NttTables, a: Seq<int>, b: Seq<int>)
    requires
        t.wf(),
        a.len() == b.len(),
        t.has_size(a.len() as int),
        coeffs_ok(a),
        coeffs_ok(b),
        forall|j: int| 0 <= j < b.len() ==> #[trigger] sntt(t, b)[j] != 0,
    ensures
        smul(t, sdiv(t, a, b), b) == a,
{
    let fa = sntt(t, a);
    let fb = sntt(t, b);
    lemma_sntt_wf(t, a);
    lemma_sntt_wf(t, b);
    let d = spoint_div(t, fa, fb);
    assert(coeffs_ok(d));
    assert(d.len() == a.len());
    lemma_sintt_wf(t, d);
    lemma_sntt_sintt(t, d);
    assert forall|i: int| 0 <= i < a.len() implies spoint_mul(d, fb)[i] == fa[i] by {
        let bi = fb[i];
        assert(0 < bi < Q);
        let ib = t.inv_of(bi);
        assert((bi * ib) % (Q as int) == 1);
        assert(ib * bi == bi * ib) by (nonlinear_arith);
        lemma_mul_cancel_mod(fa[i], ib, bi);
        assert(d[i] == mq_mul(fa[i], ib));
    }
    assert(spoint_mul(d, fb) =~= fa);
    lemma_sintt_sntt(t, a);
}

} // verus!
