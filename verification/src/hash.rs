//! Hashing a message and salt to a ring point: a SHAKE256
//! extendable-output stream supplies 16-bit candidates, and rejection
//! sampling keeps them bias-free below K·q before reduction mod q.

use vstd::prelude::*;

use crate::common::Polynomial;
use crate::Q;

verus! {

/// The number of whole multiples of q below 2^16; candidates at K·q or
/// above are rejected to avoid modulo bias.
pub const K: u32 = 65536 / Q;

proof fn lemma_k_value()
    ensures
        K == 5,
        Q == 12289,
        K * Q == 61445,
{
    assert(Q == 12289);
    assert(65536u32 / 12289u32 == 5u32);
}

#[verifier::external_type_specification]
#[verifier::external_body]
pub struct ExShake256Hasher<const OUTPUT_SIZE: usize>(rs_shake256::Shake256Hasher<OUTPUT_SIZE>);

/// The bytes absorbed by the XOF so far.
pub uninterp spec fn xof_absorbed(h: rs_shake256::Shake256Hasher<2>) -> Seq<u8>;

/// How many two-byte blocks have been squeezed out so far.
pub uninterp spec fn xof_squeezed(h: rs_shake256::Shake256Hasher<2>) -> int;

/// The i-th two-byte block of the SHAKE256 output stream for a given
/// absorbed input: a function of the input and the index alone.
pub uninterp spec fn xof_block(input: Seq<u8>, i: int) -> Seq<u8>;

/// Relies on rs_shake256's `Shake256Hasher::default`: a fresh hasher
/// with nothing absorbed and nothing squeezed.
#[verifier::external_body]
fn xof_new() -> (h: rs_shake256::Shake256Hasher<2>)
    ensures
        xof_absorbed(h) == Seq::<u8>::empty(),
        xof_squeezed(h) == 0,
{
    rs_shake256::Shake256Hasher::default()
}

/// Relies on `Hasher::write` for `Shake256Hasher`: appends the bytes to
/// the absorbed input.
#[verifier::external_body]
fn xof_write(h: &mut rs_shake256::Shake256Hasher<2>, data: &[u8])
    requires
        xof_squeezed(*old(h)) == 0,
    ensures
        xof_absorbed(*final(h)) == xof_absorbed(*old(h)) + data@,
        xof_squeezed(*final(h)) == 0,
{
    std::hash::Hasher::write(h, data)
}

/// Relies on `HasherContext::finish` for `Shake256Hasher<2>`: pads and
/// absorbs the padding into the state, then squeezes two bytes. Each
/// call advances the state, and the block returned is determined by the
/// absorbed bytes and the number of earlier calls alone.
#[verifier::external_body]
fn xof_next(h: &mut rs_shake256::Shake256Hasher<2>) -> (r: [u8; 2])
    ensures
        xof_absorbed(*final(h)) == xof_absorbed(*old(h)),
        xof_squeezed(*final(h)) == xof_squeezed(*old(h)) + 1,
        r@ == xof_block(xof_absorbed(*old(h)), xof_squeezed(*old(h))),
{
    let out = <rs_shake256::Shake256Hasher<2> as rs_shake256::HasherContext<2>>::finish(h);
    let bytes = out.as_ref();
    [bytes[0], bytes[1]]
}

/// The accepted coefficients among the first `k` stream blocks: each
/// block is a 16-bit candidate, kept (reduced mod q) exactly when it is
/// below K·q.
pub open spec fn accepted_upto(input: Seq<u8>, k: int) -> Seq<u32>
    decreases k,
{
    if k <= 0 {
        Seq::empty()
    } else {
        let prev = accepted_upto(input, k - 1);
        let b = xof_block(input, k - 1);
        let elt = (b[0] as int) * 256 + (b[1] as int);
        if elt < K * Q {
            prev.push(((elt % (Q as int)) as u32))
        } else {
            prev
        }
    }
}

/// Earlier prefixes of the stream accept a prefix of the later ones.
pub proof fn lemma_accepted_prefix(input: Seq<u8>, k1: int, k2: int)
    requires
        0 <= k1 <= k2,
    ensures
        accepted_upto(input, k1).is_prefix_of(accepted_upto(input, k2)),
    decreases k2 - k1,
{
    if k1 < k2 {
        lemma_accepted_prefix(input, k1, k2 - 1);
    }
}

/// Every accepted coefficient is a residue in [0, q).
pub proof fn lemma_accepted_range(input: Seq<u8>, k: int)
    ensures
        forall|i: int| 0 <= i < accepted_upto(input, k).len() ==> #[trigger] accepted_upto(
            input,
            k,
        )[i] < Q,
    decreases k,
{
    if k > 0 {
        lemma_accepted_range(input, k - 1);
        let prev = accepted_upto(input, k - 1);
        assert forall|i: int| 0 <= i < accepted_upto(input, k).len() implies #[trigger] accepted_upto(
            input,
            k,
        )[i] < Q by {
            if i < prev.len() {
                assert(accepted_upto(input, k)[i] == prev[i]);
            }
        }
    }
}

impl Polynomial<u32> {
    /// Derive a ring element of length `n` with coefficients in [0, q)
    /// from the XOF stream seeded with the salt, then the message. The
    /// result is a function of (salt, message, n) alone, so two calls
    /// with the same arguments return the same element. A draw budget of
    /// 64 blocks per coefficient bounds the rejection loop; running out
    /// (never observed: each candidate is accepted with odds above
    /// fifteen in sixteen) yields nothing rather than a short element.
    pub fn hash_to_point(message: &[u8], salt: &[u8; 40], n: usize) -> (r: Option<
        Polynomial<u32>,
    >)
        ensures
            match r {
                Some(p) => {
                    &&& p@.len() == n
                    &&& p@ == accepted_upto(salt@ + message@, 64 * n as int).take(n as int)
                    &&& accepted_upto(salt@ + message@, 64 * n as int).len() >= n
                    &&& forall|i: int| 0 <= i < p@.len() ==> #[trigger] p@[i] < Q
                },
                None => accepted_upto(salt@ + message@, 64 * n as int).len() < n,
            },
    {
        let ghost input = salt@ + message@;
        let ghost budget = 64 * n as int;
        let mut h = xof_new();
        xof_write(&mut h, salt.as_slice());
        xof_write(&mut h, message);
        proof {
            assert(xof_absorbed(h) =~= input);
        }
        let mut coeffs: Vec<u32> = Vec::new();
        let mut draws: u128 = 0;
        while coeffs.len() < n
            invariant
                input == salt@ + message@,
                budget == 64 * n as int,
                0 <= draws <= budget,
                xof_absorbed(h) == input,
                xof_squeezed(h) == draws,
                coeffs@.len() <= n,
                coeffs@ == accepted_upto(input, draws as int),
            decreases budget - draws,
        {
            if draws == 64 * (n as u128) {
                proof {
                    assert(accepted_upto(input, budget).len() < n);
                }
                return None;
            }
            let b = xof_next(&mut h);
            draws = draws + 1;
            let elt: u32 = (b[0] as u32) * 256 + (b[1] as u32);
            proof {
                assert(xof_block(input, draws as int - 1)[0] == b@[0]);
                assert(xof_block(input, draws as int - 1)[1] == b@[1]);
                lemma_k_value();
            }
            if elt < K * Q {
                coeffs.push(elt % Q);
            }
            proof {
                assert(coeffs@ == accepted_upto(input, draws as int));
            }
        }
        proof {
            lemma_accepted_prefix(input, draws as int, budget);
            assert(coeffs@ =~= accepted_upto(input, budget).take(n as int));
            lemma_accepted_range(input, budget);
        }
        Some(Polynomial { coefficients: coeffs })
    }
}

} // verus!
