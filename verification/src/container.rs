use vstd::prelude::*;

use crate::Error;
use crate::bytes::{u64_of_be, u64_from_be, bytes_eq, lemma_pow10_monotone, pow10};
use crate::params::{
    rings_of,
    nsvals_of,
    last_size_of,
    max_of,
    scale_of,
    scale_u64,
    pow2_u64,
};
use vstd::arithmetic::power2::{pow2, lemma2_to64_rest, lemma_pow2_strictly_increases};
use vstd::slice::{slice_to_vec, slice_subrange};

verus! {

/// Byte length of the fixed header: the exponent byte (stored shifted by
/// one), the mantissa byte, and the public lower bound.
pub const HEADER_LEN: usize = 10;

/// Byte length of the masked payload region.
pub const MASKED_LEN: usize = 106;

/// Largest possible encoded proof (a 63-bit mantissa).
pub const MAX_PROOF_LEN: usize = 5203;

/// Byte length of a proof whose mantissa has `m` bits.
pub open spec fn total_len_of(m: nat) -> nat {
    (10 + 33 * (rings_of(m) - 1) + 106 + 32 * nsvals_of(m) + 32) as nat
}

/// The exponent stored in a proof header (first byte, shifted by one).
pub open spec fn exp_of_header(b: Seq<u8>) -> int {
    b[0] - 1
}

/// The mantissa width stored in a proof header.
pub open spec fn mantissa_of_header(b: Seq<u8>) -> nat {
    b[1] as nat
}

/// The public lower bound stored in a proof header.
pub open spec fn minv_of_header(b: Seq<u8>) -> u64 {
    u64_of_be(b.subrange(2, 10))
}

/// Offset of the masked payload region.
pub open spec fn masked_off_of(m: nat) -> int {
    10 + 33 * (rings_of(m) - 1)
}

/// Offset of the ring scalars.
pub open spec fn svals_off_of(m: nat) -> int {
    masked_off_of(m) + 106
}

/// Offset of the shared challenge.
pub open spec fn e0_off_of(m: nat) -> int {
    svals_off_of(m) + 32 * nsvals_of(m)
}

/// The masked payload region of an encoded proof.
pub open spec fn masked_region_of(b: Seq<u8>) -> Seq<u8> {
    b.subrange(masked_off_of(mantissa_of_header(b)), svals_off_of(mantissa_of_header(b)))
}

/// A structurally valid proof encoding: plausible header fields, the exact
/// length its mantissa demands, and an upper bound that fits `u64`.
pub open spec fn wf_proof(b: Seq<u8>) -> bool {
    &&& b.len() >= 10
    &&& b[0] <= 19
    &&& 1 <= b[1] <= 63
    &&& b.len() == total_len_of(mantissa_of_header(b))
    &&& max_of(
        minv_of_header(b) as nat,
        mantissa_of_header(b),
        scale_of(exp_of_header(b) as i32),
    ) < u64::MAX
}

/// The header fields recovered by the cheap structural parse.
pub struct ProofInfo {
    /// Decimal exponent, `-1` for a fully hidden mantissa.
    pub exp: i32,
    /// Number of hidden mantissa bits.
    pub mantissa: u32,
    /// Smallest value consistent with the proof.
    pub min_value: u64,
    /// Largest value consistent with the proof.
    pub max_value: u64,
}

/// Structural parse of the proof header; accepts exactly the well-formed
/// encodings and returns the header fields.
pub fn parse_header(b: &[u8]) -> (r: Option<ProofInfo>)
    ensures
        r.is_some() <==> wf_proof(b@),
        r matches Some(info) ==> {
            &&& info.exp == exp_of_header(b@)
            &&& info.mantissa == mantissa_of_header(b@)
            &&& info.min_value == minv_of_header(b@)
            &&& info.max_value as int == max_of(
                minv_of_header(b@) as nat,
                mantissa_of_header(b@),
                scale_of(exp_of_header(b@) as i32),
            )
            &&& -1 <= info.exp <= 18
            &&& 1 <= info.mantissa <= 63
        },
{
    if b.len() < 10 {
        return None;
    }
    let e: u8 = b[0];
    if e > 19 {
        return None;
    }
    let m: u8 = b[1];
    if m < 1 || m > 63 {
        return None;
    }
    let rings: usize = (m as usize + 1) / 2;
    let last: usize = if m % 2 == 0 {
        4
    } else {
        2
    };
    let expected: usize = 10 + 33 * (rings - 1) + 106 + 32 * (4 * (rings - 1) + last) + 32;
    proof {
        assert(rings == rings_of(m as nat));
        assert(last == last_size_of(m as nat));
        assert(expected == total_len_of(m as nat));
    }
    if b.len() != expected {
        return None;
    }
    let minb = slice_subrange(b, 2, 10);
    let min_value: u64 = u64_from_be(minb);
    let exp: i32 = e as i32 - 1;
    let scale: u64 = scale_u64(exp);
    let pw: u64 = pow2_u64(m as u32);
    proof {
        lemma2_to64_rest();
        if (m as nat) < 63 {
            lemma_pow2_strictly_increases(m as nat, 63);
        }
        assert(pw as nat <= pow2(63));
        if exp >= 0 {
            lemma_pow10_monotone(exp as nat, 18);
            assert(pow10(18) == 1000000000000000000nat) by {
                reveal_with_fuel(pow10, 19);
            }
        }
        assert(((pw - 1) as u128) * (scale as u128) <= 0x7FFFFFFFFFFFFFFFu128
            * 1000000000000000000u128) by (nonlinear_arith)
            requires
                (pw - 1) as u128 <= 0x7FFFFFFFFFFFFFFFu128,
                scale as u128 <= 1000000000000000000u128,
                scale >= 1,
        ;
    }
    let max128: u128 = min_value as u128 + ((pw - 1) as u128) * (scale as u128);
    if max128 >= u64::MAX as u128 {
        return None;
    }
    let max_value: u64 = max128 as u64;
    Some(ProofInfo { exp, mantissa: m as u32, min_value, max_value })
}

/// An encoded range proof whose header has been checked to be well formed.
#[derive(Clone, Debug, Eq, Hash)]
pub struct RangeProof {
    bytes: Vec<u8>,
}

impl View for RangeProof {
    type V = Seq<u8>;

    closed spec fn view(&self) -> Seq<u8> {
        self.bytes@
    }
}

impl PartialEq for RangeProof {
    fn eq(&self, other: &RangeProof) -> (r: bool) {
        bytes_eq(self.bytes.as_slice(), other.bytes.as_slice())
    }
}

impl vstd::std_specs::cmp::PartialEqSpecImpl for RangeProof {
    open spec fn obeys_eq_spec() -> bool {
        true
    }

    open spec fn eq_spec(&self, other: &RangeProof) -> bool {
        self@ == other@
    }
}

impl RangeProof {
    /// A structurally valid encoding.
    pub open spec fn wf(&self) -> bool {
        wf_proof(self@)
    }

    /// Serialize to bytes.
    pub fn serialize(&self) -> (r: Vec<u8>)
        ensures
            r@ == self@,
    {
        slice_to_vec(self.bytes.as_slice())
    }

    /// Parse from a byte slice, accepting exactly the byte strings whose
    /// header decodes and whose length matches the header, and keeping the
    /// bytes verbatim.
    pub fn from_slice(bytes: &[u8]) -> (r: Result<RangeProof, Error>)
        ensures
            r is Ok <==> wf_proof(bytes@),
            r matches Ok(p) ==> p@ == bytes@ && p.wf(),
            r matches Err(e) ==> e == Error::InvalidRangeProof,
    {
        match parse_header(bytes) {
            Some(_) => Ok(RangeProof { bytes: slice_to_vec(bytes) }),
            None => Err(Error::InvalidRangeProof),
        }
    }

    /// Wrap freshly produced proof bytes, revalidating the header.
    pub(crate) fn from_vec(bytes: Vec<u8>) -> (r: Result<RangeProof, Error>)
        ensures
            r is Ok <==> wf_proof(bytes@),
            r matches Ok(p) ==> p@ == bytes@ && p.wf(),
            r matches Err(e) ==> e == Error::InvalidRangeProof,
    {
        match parse_header(bytes.as_slice()) {
            Some(_) => Ok(RangeProof { bytes }),
            None => Err(Error::InvalidRangeProof),
        }
    }

    /// Get length.
    pub fn len(&self) -> (r: usize)
        ensures
            r == self@.len(),
    {
        self.bytes.len()
    }

    /// Check if it's empty.
    pub fn is_empty(&self) -> (r: bool)
        ensures
            r <==> self@.len() == 0,
    {
        self.bytes.len() == 0
    }

    /// Borrow the encoded bytes.
    pub(crate) fn as_bytes(&self) -> (r: &[u8])
        ensures
            r@ == self@,
    {
        self.bytes.as_slice()
    }
}

} // verus!
