//! Scheme parameters and the signature record: the two standard
//! parameter sets (ring degrees 512 and 1024) and the byte layout of a
//! signature, one header byte, a forty-byte salt, and the compressed
//! content.

use vstd::prelude::*;

verus! {

/// Length of the signature header, in bytes.
pub const HEAD_LEN: usize = 1;

/// Length of the per-signing salt, in bytes.
pub const SALT_LEN: usize = 40;

/// One immutable parameter set. The two Gaussian widths are decimal
/// fixed-point values: the width is `mantissa / 10^exp10`, kept as
/// integers so the record carries them exactly; callers that need them
/// as floating-point numbers perform that one division themselves.
pub struct ParameterSet {
    /// Ring degree: the length of every ring element.
    pub n: usize,
    /// Decimal mantissa of the signing Gaussian width sigma.
    pub sigma_mantissa: u64,
    /// Decimal exponent of sigma: sigma = sigma_mantissa / 10^sigma_exp10.
    pub sigma_exp10: u32,
    /// Decimal mantissa of the minimal sampling width sigmin.
    pub sigmin_mantissa: u64,
    /// Decimal exponent of sigmin.
    pub sigmin_exp10: u32,
    /// Bound on the squared signature norm.
    pub sig_bound: i64,
    /// Total signature length in bytes, header and salt included.
    pub sig_bytelen: usize,
}

/// The degree-512 parameter set.
pub fn falcon_512() -> (p: ParameterSet)
    ensures
        p.n == 512,
        p.sigma_mantissa == 1657366171829776u64 && p.sigma_exp10 == 13,
        p.sigmin_mantissa == 12778336969128337u64 && p.sigmin_exp10 == 16,
        p.sig_bound == 34034726i64,
        p.sig_bytelen == 666,
{
    ParameterSet {
        n: 512,
        sigma_mantissa: 1657366171829776,
        sigma_exp10: 13,
        sigmin_mantissa: 12778336969128337,
        sigmin_exp10: 16,
        sig_bound: 34034726,
        sig_bytelen: 666,
    }
}

/// The degree-1024 parameter set.
pub fn falcon_1024() -> (p: ParameterSet)
    ensures
        p.n == 1024,
        p.sigma_mantissa == 16838857144654395u64 && p.sigma_exp10 == 14,
        p.sigmin_mantissa == 1298280334344292u64 && p.sigmin_exp10 == 15,
        p.sig_bound == 70265242i64,
        p.sig_bytelen == 1280,
{
    ParameterSet {
        n: 1024,
        sigma_mantissa: 16838857144654395,
        sigma_exp10: 14,
        sigmin_mantissa: 1298280334344292,
        sigmin_exp10: 15,
        sig_bound: 70265242,
        sig_bytelen: 1280,
    }
}

/// A parsed signature: header byte, salt, compressed content.
pub struct Signature {
    pub head: u8,
    pub salt: Vec<u8>,
    pub content: Vec<u8>,
}

impl Signature {
    /// A well-formed signature carries a full-length salt.
    pub open spec fn wf(&self) -> bool {
        self.salt@.len() == SALT_LEN
    }

    /// Parse a signature from its byte layout: one header byte, the
    /// forty-byte salt, and the rest as content. Fails exactly on
    /// buffers too short for header and salt.
    pub fn try_from(value: &[u8]) -> (r: Result<Signature, &'static str>)
        ensures
            match r {
                Ok(s) => {
                    &&& value@.len() >= 1 + SALT_LEN
                    &&& s.head == value@[0]
                    &&& s.salt@ == value@.subrange(1, 1 + SALT_LEN as int)
                    &&& s.content@ == value@.skip(1 + SALT_LEN as int)
                    &&& s.wf()
                },
                Err(e) => {
                    &&& value@.len() < 1 + SALT_LEN
                    &&& (value@.len() == 0 ==> e@ == "Could not parse head"@)
                    &&& (value@.len() > 0 ==> e@ == "Could not parse salt"@)
                },
            },
    {
        if value.len() == 0 {
            return Err("Could not parse head");
        }
        if value.len() < 1 + SALT_LEN {
            return Err("Could not parse salt");
        }
        let head = value[0];
        let mut salt: Vec<u8> = Vec::new();
        let mut i: usize = 1;
        while i < 1 + SALT_LEN
            invariant
                value@.len() >= 1 + SALT_LEN,
                1 <= i <= 1 + SALT_LEN,
                salt@ == value@.subrange(1, i as int),
            decreases 1 + SALT_LEN - i,
        {
            salt.push(value[i]);
            i = i + 1;
            proof {
                assert(salt@ =~= value@.subrange(1, i as int));
            }
        }
        let mut content: Vec<u8> = Vec::new();
        let mut j: usize = 1 + SALT_LEN;
        while j < value.len()
            invariant
                value@.len() >= 1 + SALT_LEN,
                1 + SALT_LEN <= j <= value@.len(),
                content@ == value@.subrange(1 + SALT_LEN as int, j as int),
            decreases value@.len() - j,
        {
            content.push(value[j]);
            j = j + 1;
            proof {
                assert(content@ =~= value@.subrange(1 + SALT_LEN as int, j as int));
            }
        }
        proof {
            assert(content@ =~= value@.skip(1 + SALT_LEN as int));
        }
        Ok(Signature { head, salt, content })
    }
}

} // verus!
