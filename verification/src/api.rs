use vstd::prelude::*;

use crate::Error;
use crate::bytes::{u64_of_be, u16_of_be, u64_to_be_vec, bytes_eq, lemma_u64_be_roundtrip, be_int};
use crate::codec::{seed_of, mask_of, plain_of, derive_seed, build_masked, read_masked};
use crate::container::{
    RangeProof,
    ProofInfo,
    parse_header,
    wf_proof,
    exp_of_header,
    mantissa_of_header,
    minv_of_header,
    masked_off_of,
    svals_off_of,
    e0_off_of,
    masked_region_of,
    total_len_of,
};
use crate::curve::{sk_bytes, sk_to_bytes, sk_from_bytes, point_from_scalar, point_mul, point_add,
    point_negate, sk_ok, mod_n, group_order, point_ok, g_mul_of, ec_mul_of, ec_add_of, ec_neg_of};
use crate::params::{
    MAX_EXP,
    max_of,
    MSG_CAPACITY,
    params_ok,
    scale_of,
    hidden_of,
    mpub_of,
    mantissa_of,
    rings_of,
    nsvals_of,
    ring_size_of,
    scale_u64,
    pow2_u64,
    bitlen_u64,
    decompose,
    lemma_bitlen_bound,
};
use crate::ring::{derive_scalar, challenge_next, hash_to_scalar, ring_pubkey, u128_to_be32,
    derived_scalar_of, ring_pubkey_spec, u128_be32, h2s_spec, challenge_of};
use vstd::arithmetic::power2::{pow2, lemma_pow2_strictly_increases, lemma2_to64_rest};
use vstd::slice::{slice_to_vec, slice_subrange};

verus! {

/// Marker for contexts able to produce proofs.
pub trait Signing {

}

/// Marker for contexts able to check proofs.
pub trait Verification {

}

/// A context restricted to proof production.
pub struct SignOnly;

/// A context restricted to proof checking.
pub struct VerifyOnly;

/// A context able to do both.
pub struct All;

impl Signing for SignOnly {

}

impl Signing for All {

}

impl Verification for VerifyOnly {

}

impl Verification for All {

}

/// A protocol context carrying a capability marker, so that a signing call
/// against a verify-only context is rejected at compile time.
pub struct Secp256k1<C> {
    caps: C,
}

impl Secp256k1<All> {
    /// A context with both capabilities.
    pub fn new() -> (r: Secp256k1<All>) {
        Secp256k1 { caps: All }
    }
}

impl Secp256k1<SignOnly> {
    /// A context that can only sign.
    pub fn signing_only() -> (r: Secp256k1<SignOnly>) {
        Secp256k1 { caps: SignOnly }
    }
}

impl Secp256k1<VerifyOnly> {
    /// A context that can only verify.
    pub fn verification_only() -> (r: Secp256k1<VerifyOnly>) {
        Secp256k1 { caps: VerifyOnly }
    }
}

/// The compressed encoding of the standard value generator.
pub open spec fn std_gen() -> Seq<u8> {
    seq![
        0x02u8, 0x50u8, 0x92u8, 0x9bu8, 0x74u8, 0xc1u8, 0xa0u8, 0x49u8, 0x54u8, 0xb7u8, 0x8bu8,
        0x4bu8, 0x60u8, 0x35u8, 0xe9u8, 0x7au8, 0x5eu8, 0x07u8, 0x8au8, 0x5au8, 0x0fu8, 0x28u8,
        0xecu8, 0x96u8, 0xd5u8, 0x47u8, 0xbfu8, 0xeeu8, 0x9au8, 0xceu8, 0x80u8, 0x3au8, 0xc0u8,
    ]
}

/// Whether blinding a generator for a tag succeeds: the tag hashes to a
/// scalar and every curve operation along the way does.
pub open spec fn blinded_ok(tag: Seq<u8>, bb: Seq<u8>) -> bool {
    match crate::ring::h2s_spec(tag, 32) {
        Some(ts) => {
            let tp = crate::curve::ec_mul_of(std_gen(), ts);
            let bp = crate::curve::g_mul_of(bb);
            &&& crate::curve::point_ok(std_gen())
            &&& sk_ok(ts)
            &&& sk_ok(bb)
            &&& crate::curve::point_ok(tp)
            &&& crate::curve::point_ok(bp)
            &&& bp != crate::curve::ec_neg_of(tp)
        },
        None => false,
    }
}

/// A base point for the value side of a commitment, kept as its 33-byte
/// compressed encoding.
pub struct Generator {
    bytes: Vec<u8>,
}

impl View for Generator {
    type V = Seq<u8>;

    closed spec fn view(&self) -> Seq<u8> {
        self.bytes@
    }
}

impl Generator {
    /// A plausible generator encoding.
    pub open spec fn wf(&self) -> bool {
        self@.len() == 33
    }

    /// The standard value generator.
    pub fn standard() -> (r: Generator)
        ensures
            r.wf(),
            r@ == std_gen(),
    {
        let h: [u8; 33] = [0x02u8, 0x50, 0x92, 0x9b, 0x74, 0xc1, 0xa0, 0x49, 0x54, 0xb7, 0x8b,
            0x4b, 0x60, 0x35, 0xe9, 0x7a, 0x5e, 0x07, 0x8a, 0x5a, 0x0f, 0x28, 0xec, 0x96, 0xd5,
            0x47, 0xbf, 0xee, 0x9a, 0xce, 0x80, 0x3a, 0xc0];
        let r = Generator { bytes: slice_to_vec(h.as_slice()) };
        proof {
            assert(r@ =~= std_gen());
        }
        r
    }

    /// A generator blinded for an asset tag: the tag scalar times the
    /// standard generator, plus the blinding times the base point.
    pub fn new_blinded(tag: &[u8], blinding: &secp256k1::SecretKey) -> (r: Result<Generator, Error>)
        requires
            tag@.len() == 32,
        ensures
            r is Ok <==> blinded_ok(tag@, sk_bytes(*blinding)),
            r matches Ok(g) ==> g.wf(),
            r matches Err(e) ==> e == Error::CannotMakeRangeProof,
    {
        let std = Generator::standard();
        let ts = match hash_to_scalar(tag, 32) {
            Some(x) => x,
            None => return Err(Error::CannotMakeRangeProof),
        };
        let tp = match point_mul(std.bytes.as_slice(), ts.as_slice()) {
            Some(x) => x,
            None => return Err(Error::CannotMakeRangeProof),
        };
        let bb = sk_to_bytes(blinding);
        let bp = match point_from_scalar(bb.as_slice()) {
            Some(x) => x,
            None => return Err(Error::CannotMakeRangeProof),
        };
        match point_add(tp.as_slice(), bp.as_slice()) {
            Some(x) => Ok(Generator { bytes: x }),
            None => Err(Error::CannotMakeRangeProof),
        }
    }

    /// The compressed encoding.
    pub fn serialize(&self) -> (r: Vec<u8>)
        ensures
            r@ == self@,
    {
        slice_to_vec(self.bytes.as_slice())
    }

    /// Parse a compressed encoding.
    pub fn from_slice(bytes: &[u8]) -> (r: Result<Generator, Error>)
        ensures
            r matches Ok(g) ==> g.wf() && g@ == bytes@,
            r is Ok <==> bytes@.len() == 33,
            r matches Err(e) ==> e == Error::InvalidRangeProof,
    {
        if bytes.len() == 33 {
            Ok(Generator { bytes: slice_to_vec(bytes) })
        } else {
            Err(Error::InvalidRangeProof)
        }
    }
}

/// Whether committing to `value` under a blinding factor and a value
/// generator succeeds: every curve operation along the way does.
pub open spec fn commit_ok(value: u64, bb: Seq<u8>, gen: Seq<u8>) -> bool {
    if value == 0 {
        sk_ok(bb)
    } else {
        let base = crate::curve::g_mul_of(bb);
        let vb = crate::ring::u128_be32(value as u128);
        let hv = crate::curve::ec_mul_of(gen, vb);
        sk_ok(bb) && crate::curve::point_ok(gen) && sk_ok(vb) && crate::curve::point_ok(base)
            && crate::curve::point_ok(hv) && hv != crate::curve::ec_neg_of(base)
    }
}

/// The encoding of a Pedersen commitment to `value` under a blinding factor
/// and a value generator, composed from the curve operations.
pub open spec fn commit_encoding_of(value: u64, bb: Seq<u8>, gen: Seq<u8>) -> Seq<u8> {
    if value == 0 {
        crate::curve::g_mul_of(bb)
    } else {
        crate::curve::ec_add_of(
            crate::curve::g_mul_of(bb),
            crate::curve::ec_mul_of(gen, crate::ring::u128_be32(value as u128)),
        )
    }
}

/// A Pedersen commitment, kept as its 33-byte compressed encoding.
pub struct PedersenCommitment {
    bytes: Vec<u8>,
}

impl View for PedersenCommitment {
    type V = Seq<u8>;

    closed spec fn view(&self) -> Seq<u8> {
        self.bytes@
    }
}

impl PedersenCommitment {
    /// A plausible commitment encoding.
    pub open spec fn wf(&self) -> bool {
        self@.len() == 33
    }

    /// Commit to `value` under a blinding factor and a value generator.
    pub fn new(value: u64, blinding: &secp256k1::SecretKey, generator: &Generator) -> (r: Result<
        PedersenCommitment,
        Error,
    >)
        requires
            generator.wf(),
        ensures
            r is Ok <==> commit_ok(value, sk_bytes(*blinding), generator@),
            r matches Ok(c) ==> c.wf() && c@ == commit_encoding_of(
                value,
                sk_bytes(*blinding),
                generator@,
            ),
            r matches Err(e) ==> e == Error::CannotMakeRangeProof,
    {
        let bb = sk_to_bytes(blinding);
        let base = match point_from_scalar(bb.as_slice()) {
            Some(x) => x,
            None => return Err(Error::CannotMakeRangeProof),
        };
        if value == 0 {
            return Ok(PedersenCommitment { bytes: base });
        }
        let vb = u128_to_be32(value as u128);
        let hv = match point_mul(generator.bytes.as_slice(), vb.as_slice()) {
            Some(x) => x,
            None => return Err(Error::CannotMakeRangeProof),
        };
        match point_add(base.as_slice(), hv.as_slice()) {
            Some(x) => Ok(PedersenCommitment { bytes: x }),
            None => Err(Error::CannotMakeRangeProof),
        }
    }

    /// The compressed encoding.
    pub fn serialize(&self) -> (r: Vec<u8>)
        ensures
            r@ == self@,
    {
        slice_to_vec(self.bytes.as_slice())
    }

    /// Parse a compressed encoding.
    pub fn from_slice(bytes: &[u8]) -> (r: Result<PedersenCommitment, Error>)
        ensures
            r matches Ok(c) ==> c.wf() && c@ == bytes@,
            r is Ok <==> bytes@.len() == 33,
            r matches Err(e) ==> e == Error::InvalidRangeProof,
    {
        if bytes.len() == 33 {
            Ok(PedersenCommitment { bytes: slice_to_vec(bytes) })
        } else {
            Err(Error::InvalidRangeProof)
        }
    }
}

/// Secret material recovered by rewinding a proof.
pub struct Opening {
    /// The committed value.
    pub value: u64,
    /// The blinding factor of the commitment.
    pub blinding_factor: secp256k1::SecretKey,
    /// The embedded message.
    pub message: Vec<u8>,
}

/// The half-open interval of values consistent with a verified proof.
#[derive(Clone, Copy, PartialEq, Eq, Structural, Debug)]
pub struct Range {
    /// Smallest consistent value.
    pub start: u64,
    /// One past the largest consistent value.
    pub end: u64,
}

/// Concatenate equally sized chunks.
fn concat_chunks(v: &Vec<Vec<u8>>, l: usize) -> (r: Vec<u8>)
    requires
        forall|i: int| 0 <= i < v@.len() ==> (#[trigger] v@[i])@.len() == l,
        v@.len() * l <= usize::MAX,
    ensures
        r@.len() == v@.len() * l,
        forall|i: int|
            0 <= i < v@.len() ==> r@.subrange(i * l, (i + 1) * l) == (#[trigger] v@[i])@,
{
    let mut r: Vec<u8> = Vec::new();
    let mut i: usize = 0;
    while i < v.len()
        invariant
            i <= v@.len(),
            forall|k: int| 0 <= k < v@.len() ==> (#[trigger] v@[k])@.len() == l,
            v@.len() * l <= usize::MAX,
            r@.len() == i * l,
            forall|k: int|
                0 <= k < i ==> r@.subrange(k * l, (k + 1) * l) == (#[trigger] v@[k])@,
        decreases v@.len() - i,
    {
        proof {
            assert((i + 1) * l == i * l + l) by (nonlinear_arith);
            assert((i as int) * l <= v@.len() * l && (i + 1) * l <= v@.len() * l)
                by (nonlinear_arith)
                requires
                    0 <= i < v@.len(),
                    l >= 0,
            ;
        }
        let ghost old_r = r@;
        r.extend_from_slice(v[i].as_slice());
        proof {
            assert forall|k: int| 0 <= k < i + 1 implies r@.subrange(k * l, (k + 1) * l) == (
            #[trigger] v@[k])@ by {
                assert((k + 1) * l == k * l + l) by (nonlinear_arith);
                if k < i {
                    assert(old_r.subrange(k * l, (k + 1) * l) == v@[k]@);
                    assert((k + 1) * l <= old_r.len()) by (nonlinear_arith)
                        requires
                            0 <= k < i,
                            old_r.len() == (i as int) * l,
                            l >= 0,
                    ;
                    assert(r@.subrange(k * l, (k + 1) * l) =~= old_r.subrange(k * l, (k + 1) * l));
                } else {
                    assert(r@.subrange(k * l, (k + 1) * l) =~= v@[k]@);
                }
            }
        }
        i = i + 1;
    }
    r
}

impl<C: Signing> Secp256k1<C> {
    /// Prove that `commitment` hides a value within a range, with the lower
    /// bound set to `min_value`.
    ///
    /// Rejects exactly the parameters outside the protocol's bounds; on
    /// success the proof is well formed, its header carries the chosen
    /// exponent, mantissa width and public lower bound, and its masked
    /// region carries the hidden value and the message under the keystream
    /// drawn from `sk`, the commitment and the generator.
    #[verifier::rlimit(100)]
    pub fn make_rangeproof(
        &self,
        min_value: u64,
        commitment: PedersenCommitment,
        value: u64,
        commitment_blinding: secp256k1::SecretKey,
        message: &[u8],
        additional_commitment: &[u8],
        sk: secp256k1::SecretKey,
        exp: i32,
        min_bits: u8,
        additional_generator: Generator,
    ) -> (r: Result<RangeProof, Error>)
        requires
            commitment.wf(),
            additional_generator.wf(),
        ensures
            !params_ok(min_value, value, exp, min_bits, message@.len()) ==> r == Err::<
                RangeProof,
                Error,
            >(Error::CannotMakeRangeProof),
            r matches Err(e) ==> e == Error::CannotMakeRangeProof,
            r matches Ok(p) ==> {
                &&& p.wf()
                &&& params_ok(min_value, value, exp, min_bits, message@.len())
                &&& exp_of_header(p@) == exp
                &&& mantissa_of_header(p@) == mantissa_of(min_value, value, exp, min_bits)
                &&& minv_of_header(p@) == mpub_of(min_value, value, exp)
                &&& p@.subrange(0, 10) == seq![
                    (exp + 1) as u8,
                    mantissa_of(min_value, value, exp, min_bits) as u8,
                ] + crate::bytes::u64_be(mpub_of(min_value, value, exp) as u64)
                &&& p@.len() == total_len_of(mantissa_of(min_value, value, exp, min_bits))
                &&& (exists|rl: Seq<u8>|
                    {
                        &&& rl.len() == 32
                        &&& masked_region_of(p@) == mask_of(
                            seed_of(sk_bytes(sk), commitment@, additional_generator@),
                            plain_of(hidden_of(min_value, value, exp) as u64, rl, message@),
                        )
                        &&& (rings_of(mantissa_of_header(p@)) == 1 ==> rl == sk_bytes(
                            commitment_blinding,
                        ))
                        &&& (rings_of(mantissa_of_header(p@)) > 1 ==> be_int(rl) == mod_n(
                            (be_int(sk_bytes(commitment_blinding)) + group_order() - rsum_of(
                                seed_of(sk_bytes(sk), commitment@, additional_generator@),
                                (rings_of(mantissa_of_header(p@)) - 1) as nat,
                            )) as nat,
                        ))
                    })
            },
    {
        if value < min_value || exp < -1 || exp > MAX_EXP || min_bits > 64 || message.len()
            > MSG_CAPACITY {
            return Err(Error::CannotMakeRangeProof);
        }
        let scale: u64 = scale_u64(exp);
        let vprime: u64 = value - min_value;
        let vh: u64 = vprime / scale;
        let vrev: u64 = vprime % scale;
        proof {
            assert(vh as nat == hidden_of(min_value, value, exp));
            assert(vrev <= vprime) by (nonlinear_arith)
                requires
                    scale >= 1,
                    vrev == vprime % scale,
            ;
        }
        let mpub: u64 = min_value + vrev;
        let bl: u32 = bitlen_u64(vh);
        if bl > 63 {
            return Err(Error::CannotMakeRangeProof);
        }
        let wanted: u32 = if min_bits > 63 {
            63
        } else {
            min_bits as u32
        };
        let m: u32 = if exp == -1 {
            63
        } else if bl <= 1 && wanted <= 1 {
            1
        } else if bl >= wanted {
            bl
        } else {
            wanted
        };
        proof {
            assert(m as nat == mantissa_of(min_value, value, exp, min_bits));
        }
        let rings: usize = (m as usize + 1) / 2;
        let pw: u64 = pow2_u64(m);
        proof {
            lemma2_to64_rest();
            if (m as nat) < 63 {
                lemma_pow2_strictly_increases(m as nat, 63);
            }
            if exp >= 0 {
                crate::bytes::lemma_pow10_monotone(exp as nat, 18);
                assert(crate::bytes::pow10(18) == 1000000000000000000nat) by {
                    reveal_with_fuel(crate::bytes::pow10, 19);
                }
            }
            assert(((pw - 1) as u128) * (scale as u128) <= 0x7FFFFFFFFFFFFFFFu128
                * 1000000000000000000u128) by (nonlinear_arith)
                requires
                    (pw - 1) as u128 <= 0x7FFFFFFFFFFFFFFFu128,
                    scale as u128 <= 1000000000000000000u128,
                    scale >= 1,
            ;
        }
        let max128: u128 = mpub as u128 + ((pw - 1) as u128) * (scale as u128);
        if max128 >= u64::MAX as u128 {
            return Err(Error::CannotMakeRangeProof);
        }
        proof {
            assert(params_ok(min_value, value, exp, min_bits, message@.len()));
            lemma_bitlen_bound(vh as nat);
            if (bl as nat) < (m as nat) {
                lemma_pow2_strictly_increases(bl as nat, m as nat);
            }
        }
        let digits = decompose(vh, rings, m);
        let skb = sk_to_bytes(&sk);
        let blindb = sk_to_bytes(&commitment_blinding);
        let seed = derive_seed(skb.as_slice(), commitment.bytes.as_slice(),
            additional_generator.bytes.as_slice());

        // Per-ring blinding factors: derived from the seed for all rings but
        // the last, whose blinding closes the sum to the commitment's.
        let mut rvals: Vec<Vec<u8>> = Vec::new();
        let mut i: usize = 0;
        while i < rings - 1
            invariant
                i <= rings - 1,
                rings <= 32,
                rvals@.len() == i,
                forall|k: int| 0 <= k < i ==> (#[trigger] rvals@[k])@.len() == 32,
            decreases rings - 1 - i,
        {
            let rv = match derive_scalar(seed.as_slice(), 1u8, i as u8) {
                Some(x) => x,
                None => return Err(Error::CannotMakeRangeProof),
            };
            rvals.push(rv);
            i = i + 1;
        }
        let rlast: Vec<u8> = if rings == 1 {
            slice_to_vec(blindb.as_slice())
        } else {
            match closing_blinding(seed.as_slice(), blindb.as_slice(), rings) {
                Some(x) => x,
                None => return Err(Error::CannotMakeRangeProof),
            }
        };
        let mut rvals = rvals;
        rvals.push(rlast);
        proof {
            assert(rvals@[rings - 1]@.len() == 32);
        }

        let masked = build_masked(seed.as_slice(), vh, rvals[rings - 1].as_slice(), message);

        // Digit commitments.
        let mut comms: Vec<Vec<u8>> = Vec::new();
        let mut w: u128 = scale as u128;
        let mut i2: usize = 0;
        while i2 < rings
            invariant
                i2 <= rings,
                rings <= 32,
                comms@.len() == i2,
                forall|k: int| 0 <= k < i2 ==> (#[trigger] comms@[k])@.len() == 33,
                rvals@.len() == rings,
                forall|k: int| 0 <= k < rings ==> (#[trigger] rvals@[k])@.len() == 32,
                digits@.len() == rings,
                additional_generator.wf(),
                w <= u128::MAX / 4,
            decreases rings - i2,
        {
            let di: u8 = digits[i2];
            let base = match point_from_scalar(rvals[i2].as_slice()) {
                Some(x) => x,
                None => return Err(Error::CannotMakeRangeProof),
            };
            let ci: Vec<u8> = if di == 0 {
                base
            } else {
                if di > 3 {
                    return Err(Error::CannotMakeRangeProof);
                }
                proof {
                    assert((di as u128) * w <= 4 * (u128::MAX / 4)) by (nonlinear_arith)
                        requires
                            di <= 4,
                            w <= u128::MAX / 4,
                    ;
                }
                let vb = u128_to_be32((di as u128) * w);
                let hv = match point_mul(additional_generator.bytes.as_slice(), vb.as_slice()) {
                    Some(x) => x,
                    None => return Err(Error::CannotMakeRangeProof),
                };
                match point_add(base.as_slice(), hv.as_slice()) {
                    Some(x) => x,
                    None => return Err(Error::CannotMakeRangeProof),
                }
            };
            comms.push(ci);
            if i2 + 1 < rings {
                if w > u128::MAX / 16 {
                    return Err(Error::CannotMakeRangeProof);
                }
                w = w * 4;
            }
            i2 = i2 + 1;
        }

        // Borromean phase one: walk each ring forward from its secret
        // position with a fresh nonce, collecting the closing elements.
        let modd: bool = m % 2 == 1;
        let mut rfinals: Vec<Vec<u8>> = Vec::new();
        let mut hisvals: Vec<Vec<Vec<u8>>> = Vec::new();
        let mut kvals: Vec<Vec<u8>> = Vec::new();
        let mut w2: u128 = scale as u128;
        let mut i3: usize = 0;
        while i3 < rings
            invariant
                i3 <= rings,
                rings <= 32,
                rfinals@.len() == i3,
                hisvals@.len() == i3,
                kvals@.len() == i3,
                forall|k: int| 0 <= k < i3 ==> (#[trigger] rfinals@[k])@.len() == 33,
                forall|k: int| 0 <= k < i3 ==> (#[trigger] kvals@[k])@.len() == 32,
                forall|k: int, t: int|
                    0 <= k < i3 && 0 <= t < (#[trigger] hisvals@[k])@.len() ==> (#[trigger] (
                    hisvals@[k]@[t]))@.len() == 32,
                comms@.len() == rings,
                forall|k: int| 0 <= k < rings ==> (#[trigger] comms@[k])@.len() == 33,
                digits@.len() == rings,
                additional_generator.wf(),
                w2 <= u128::MAX / 4,
            decreases rings - i3,
    {
            let ni: usize = if i3 + 1 == rings && modd {
                2
            } else {
                4
            };
            let di: usize = digits[i3] as usize;
            if di >= ni {
                return Err(Error::CannotMakeRangeProof);
            }
            let kv = match derive_scalar(seed.as_slice(), 2u8, i3 as u8) {
                Some(x) => x,
                None => return Err(Error::CannotMakeRangeProof),
            };
            let mut cur: Vec<u8> = match point_from_scalar(kv.as_slice()) {
                Some(x) => x,
                None => return Err(Error::CannotMakeRangeProof),
            };
            let mut his: Vec<Vec<u8>> = Vec::new();
            let mut j: usize = di + 1;
            while j < ni
                invariant
                    di + 1 <= j <= ni,
                    ni <= 4,
                    i3 < rings,
                    rings <= 32,
                    cur@.len() == 33,
                    his@.len() == j - di - 1,
                    forall|t: int| 0 <= t < his@.len() ==> (#[trigger] his@[t])@.len() == 32,
                    comms@.len() == rings,
                    forall|k: int| 0 <= k < rings ==> (#[trigger] comms@[k])@.len() == 33,
                    additional_generator.wf(),
                    w2 <= u128::MAX / 4,
                decreases ni - j,
            {
                let e = match challenge_next(cur.as_slice(), i3 as u8, j as u8) {
                    Some(x) => x,
                    None => return Err(Error::CannotMakeRangeProof),
                };
                let s = match derive_scalar(seed.as_slice(), 5u8, (4 * i3 + j) as u8) {
                    Some(x) => x,
                    None => return Err(Error::CannotMakeRangeProof),
                };
                let p = match ring_pubkey(comms[i3].as_slice(), j as u8, w2,
                    additional_generator.bytes.as_slice()) {
                    Some(x) => x,
                    None => return Err(Error::CannotMakeRangeProof),
                };
                let sg = match point_from_scalar(s.as_slice()) {
                    Some(x) => x,
                    None => return Err(Error::CannotMakeRangeProof),
                };
                let ep = match point_mul(p.as_slice(), e.as_slice()) {
                    Some(x) => x,
                    None => return Err(Error::CannotMakeRangeProof),
                };
                cur = match point_add(sg.as_slice(), ep.as_slice()) {
                    Some(x) => x,
                    None => return Err(Error::CannotMakeRangeProof),
                };
                his.push(s);
                j = j + 1;
            }
            rfinals.push(cur);
            hisvals.push(his);
            kvals.push(kv);
            if i3 + 1 < rings {
                if w2 > u128::MAX / 16 {
                    return Err(Error::CannotMakeRangeProof);
                }
                w2 = w2 * 4;
            }
            i3 = i3 + 1;
        }

        // The shared challenge binds the closing elements, the header, the
        // masked payload, the digit commitments and the associated data.
        let mut header: Vec<u8> = Vec::new();
        header.push((exp + 1) as u8);
        header.push(m as u8);
        let mpubv = u64_to_be_vec(mpub);
        header.extend_from_slice(mpubv.as_slice());
        proof {
            assert(rings * 32 <= usize::MAX);
            assert(rings * 33 <= usize::MAX);
        }
        let rfcat = concat_chunks(&rfinals, 33);
        let ccat = concat_chunks(&comms, 33);
        let mut e0inp: Vec<u8> = Vec::new();
        e0inp.extend_from_slice(rfcat.as_slice());
        e0inp.extend_from_slice(header.as_slice());
        e0inp.extend_from_slice(masked.as_slice());
        e0inp.extend_from_slice(ccat.as_slice());
        e0inp.extend_from_slice(additional_commitment);
        e0inp.extend_from_slice(commitment.bytes.as_slice());
        e0inp.extend_from_slice(additional_generator.bytes.as_slice());
        let e0 = match hash_to_scalar(e0inp.as_slice(), 32) {
            Some(x) => x,
            None => return Err(Error::CannotMakeRangeProof),
        };

        // Borromean phase two: walk each ring from the shared challenge up
        // to the secret position and close it with the ring's blinding.
        let mut svals: Vec<Vec<u8>> = Vec::new();
        let mut w3: u128 = scale as u128;
        let mut i4: usize = 0;
        while i4 < rings
            invariant
                i4 <= rings,
                rings <= 32,
                svals@.len() == sval_count(i4 as int, rings as int, modd),
                forall|t: int| 0 <= t < svals@.len() ==> (#[trigger] svals@[t])@.len() == 32,
                e0@.len() == 32,
                comms@.len() == rings,
                forall|k: int| 0 <= k < rings ==> (#[trigger] comms@[k])@.len() == 33,
                rvals@.len() == rings,
                forall|k: int| 0 <= k < rings ==> (#[trigger] rvals@[k])@.len() == 32,
                kvals@.len() == rings,
                forall|k: int| 0 <= k < rings ==> (#[trigger] kvals@[k])@.len() == 32,
                hisvals@.len() == rings,
                forall|k: int, t: int|
                    0 <= k < rings && 0 <= t < (#[trigger] hisvals@[k])@.len() ==> (#[trigger] (
                    hisvals@[k]@[t]))@.len() == 32,
                digits@.len() == rings,
                additional_generator.wf(),
                w3 <= u128::MAX / 4,
            decreases rings - i4,
        {
            let ni: usize = if i4 + 1 == rings && modd {
                2
            } else {
                4
            };
            let di: usize = digits[i4] as usize;
            if di >= ni {
                return Err(Error::CannotMakeRangeProof);
            }
            let mut ecur: Vec<u8> = slice_to_vec(e0.as_slice());
            let mut j: usize = 0;
            while j < di
                invariant
                    j <= di,
                    di < ni,
                    ni <= 4,
                    i4 < rings,
                    rings <= 32,
                    ecur@.len() == 32,
                    svals@.len() == sval_count(i4 as int, rings as int, modd) + j,
                    forall|t: int| 0 <= t < svals@.len() ==> (#[trigger] svals@[t])@.len() == 32,
                    comms@.len() == rings,
                    forall|k: int| 0 <= k < rings ==> (#[trigger] comms@[k])@.len() == 33,
                    additional_generator.wf(),
                    w3 <= u128::MAX / 4,
                decreases di - j,
            {
                let s = match derive_scalar(seed.as_slice(), 5u8, (4 * i4 + j) as u8) {
                    Some(x) => x,
                    None => return Err(Error::CannotMakeRangeProof),
                };
                let p = match ring_pubkey(comms[i4].as_slice(), j as u8, w3,
                    additional_generator.bytes.as_slice()) {
                    Some(x) => x,
                    None => return Err(Error::CannotMakeRangeProof),
                };
                let sg = match point_from_scalar(s.as_slice()) {
                    Some(x) => x,
                    None => return Err(Error::CannotMakeRangeProof),
                };
                let ep = match point_mul(p.as_slice(), ecur.as_slice()) {
                    Some(x) => x,
                    None => return Err(Error::CannotMakeRangeProof),
                };
                let rr = match point_add(sg.as_slice(), ep.as_slice()) {
                    Some(x) => x,
                    None => return Err(Error::CannotMakeRangeProof),
                };
                ecur = match challenge_next(rr.as_slice(), i4 as u8, (j + 1) as u8) {
                    Some(x) => x,
                    None => return Err(Error::CannotMakeRangeProof),
                };
                svals.push(s);
                j = j + 1;
            }
            // Close the ring: s = k - e * r at the secret position.
            let t = match crate::curve::scalar_mul(rvals[i4].as_slice(), ecur.as_slice()) {
                Some(x) => x,
                None => return Err(Error::CannotMakeRangeProof),
            };
            let tn = match crate::curve::scalar_negate(t.as_slice()) {
                Some(x) => x,
                None => return Err(Error::CannotMakeRangeProof),
            };
            let sd = match crate::curve::scalar_add(kvals[i4].as_slice(), tn.as_slice()) {
                Some(x) => x,
                None => return Err(Error::CannotMakeRangeProof),
            };
            svals.push(sd);
            // The positions above the secret one were fixed in phase one.
            let mut j2: usize = di + 1;
            let hi = &hisvals[i4];
            proof {
                assert(hisvals@[i4 as int]@.len() == hi@.len());
            }
            if hi.len() != ni - di - 1 {
                return Err(Error::CannotMakeRangeProof);
            }
            let mut t2: usize = 0;
            while t2 < hi.len()
                invariant
                    t2 <= hi@.len(),
                    i4 < rings,
                    svals@.len() == sval_count(i4 as int, rings as int, modd) + di + 1 + t2,
                    forall|t: int| 0 <= t < svals@.len() ==> (#[trigger] svals@[t])@.len() == 32,
                    forall|t: int|
                        0 <= t < hi@.len() ==> (#[trigger] hi@[t])@.len() == 32,
                    hi@.len() == ni - di - 1,
                    di < ni,
                    ni <= 4,
                decreases hi@.len() - t2,
            {
                svals.push(slice_to_vec(hi[t2].as_slice()));
                t2 = t2 + 1;
            }
            proof {
                assert(sval_count((i4 + 1) as int, rings as int, modd) == sval_count(
                    i4 as int,
                    rings as int,
                    modd,
                ) + ni);
            }
            if i4 + 1 < rings {
                if w3 > u128::MAX / 16 {
                    return Err(Error::CannotMakeRangeProof);
                }
                w3 = w3 * 4;
            }
            i4 = i4 + 1;
        }

        // Assemble: header, stored digit commitments (all but the last),
        // masked payload, ring scalars, shared challenge.
        let mut stored: Vec<Vec<u8>> = Vec::new();
        let mut i5: usize = 0;
        while i5 < rings - 1
            invariant
                i5 <= rings - 1,
                stored@.len() == i5,
                comms@.len() == rings,
                rings <= 32,
                forall|k: int| 0 <= k < rings ==> (#[trigger] comms@[k])@.len() == 33,
                forall|k: int| 0 <= k < i5 ==> (#[trigger] stored@[k])@.len() == 33,
            decreases rings - 1 - i5,
        {
            stored.push(slice_to_vec(comms[i5].as_slice()));
            i5 = i5 + 1;
        }
        let scat = concat_chunks(&stored, 33);
        let nsv: usize = 4 * (rings - 1) + (if modd {
            2
        } else {
            4
        });
        if svals.len() != nsv {
            return Err(Error::CannotMakeRangeProof);
        }
        let svcat = concat_chunks(&svals, 32);
        let mut out: Vec<u8> = Vec::new();
        out.extend_from_slice(header.as_slice());
        out.extend_from_slice(scat.as_slice());
        out.extend_from_slice(masked.as_slice());
        out.extend_from_slice(svcat.as_slice());
        out.extend_from_slice(e0.as_slice());
        proof {
            lemma_u64_be_roundtrip(mpub);
            assert(header@.subrange(2, 10) =~= crate::bytes::u64_be(mpub));
            assert(out@.subrange(2, 10) =~= header@.subrange(2, 10));
            assert(out@[0] == (exp + 1) as u8 && out@[1] == m as u8);
            assert(out@.subrange(0, 10) =~= seq![(exp + 1) as u8, m as u8] + crate::bytes::u64_be(
                mpub,
            ));
        }
        match RangeProof::from_vec(out) {
            Ok(p) => {
                proof {
                    let mo = masked_off_of(mantissa_of_header(p@));
                    assert(mantissa_of_header(p@) == m as nat);
                    assert(rings_of(m as nat) == rings);
                    assert(mo == 10 + 33 * (rings - 1));
                    assert(p@.subrange(mo, mo + 106) =~= masked@);
                    assert(masked_region_of(p@) == masked@);
                    assert(masked_region_of(p@) == mask_of(
                        seed_of(sk_bytes(sk), commitment@, additional_generator@),
                        plain_of(vh, rvals@[rings - 1]@, message@),
                    ));
                }
                Ok(p)
            },
            Err(_) => Err(Error::CannotMakeRangeProof),
        }
    }
}

/// The modular sum of the seed-derived ring blindings for all rings but the
/// last, as both signing and rewinding compute it.
fn derived_blinding_sum(seed: &[u8], rings: usize) -> (r: Option<Vec<u8>>)
    requires
        seed@.len() == 32,
        2 <= rings <= 32,
    ensures
        r.is_some() == rsum_ok(seed@, (rings - 1) as nat),
        r matches Some(c) ==> c@.len() == 32 && sk_ok(c@) && be_int(c@) == rsum_of(
            seed@,
            (rings - 1) as nat,
        ),
{
    let first = match derive_scalar(seed, 1u8, 0u8) {
        Some(x) => x,
        None => {
            proof {
                if rsum_ok(seed@, (rings - 1) as nat) {
                    lemma_rsum_ok_mono(seed@, 1, (rings - 1) as nat);
                }
            }
            return None;
        },
    };
    let mut acc: Vec<u8> = first;
    proof {
        vstd::arithmetic::div_mod::lemma_small_mod(be_int(acc@), group_order());
        assert(rsum_of(seed@, 0) == 0);
        assert(be_int(acc@) == rsum_of(seed@, 1));
    }
    let mut k: usize = 1;
    while k < rings - 1
        invariant
            1 <= k <= rings - 1,
            rings <= 32,
            seed@.len() == 32,
            acc@.len() == 32,
            sk_ok(acc@),
            be_int(acc@) == rsum_of(seed@, k as nat),
            rsum_ok(seed@, k as nat),
        decreases rings - 1 - k,
    {
        let rv = match derive_scalar(seed, 1u8, k as u8) {
            Some(x) => x,
            None => {
                proof {
                    assert(!rsum_ok(seed@, (k + 1) as nat));
                    if rsum_ok(seed@, (rings - 1) as nat) {
                        lemma_rsum_ok_mono(seed@, (k + 1) as nat, (rings - 1) as nat);
                    }
                }
                return None;
            },
        };
        acc = match crate::curve::scalar_add(acc.as_slice(), rv.as_slice()) {
            Some(x) => x,
            None => {
                proof {
                    assert(!rsum_ok(seed@, (k + 1) as nat));
                    if rsum_ok(seed@, (rings - 1) as nat) {
                        lemma_rsum_ok_mono(seed@, (k + 1) as nat, (rings - 1) as nat);
                    }
                }
                return None;
            },
        };
        k = k + 1;
    }
    Some(acc)
}

/// The closing ring blinding chosen at signing time: the commitment blinding
/// minus the sum of the seed-derived ring blindings.
fn closing_blinding(seed: &[u8], blindb: &[u8], rings: usize) -> (r: Option<Vec<u8>>)
    requires
        seed@.len() == 32,
        blindb@.len() == 32,
        2 <= rings <= 32,
    ensures
        r matches Some(c) ==> c@.len() == 32 && be_int(c@) == mod_n(
            (be_int(blindb@) + group_order() - rsum_of(seed@, (rings - 1) as nat)) as nat,
        ),
{
    let acc = match derived_blinding_sum(seed, rings) {
        Some(x) => x,
        None => return None,
    };
    let neg = match crate::curve::scalar_negate(acc.as_slice()) {
        Some(x) => x,
        None => return None,
    };
    crate::curve::scalar_add(blindb, neg.as_slice())
}

/// The stored digit commitment `i` of an encoded proof.
pub open spec fn comm_bytes_of(pb: Seq<u8>, i: int) -> Seq<u8> {
    pb.subrange(10 + 33 * i, 10 + 33 * i + 33)
}

/// Ring scalar `idx` of an encoded proof.
pub open spec fn sval_bytes_of(pb: Seq<u8>, idx: int) -> Seq<u8> {
    pb.subrange(
        svals_off_of(mantissa_of_header(pb)) + 32 * idx,
        svals_off_of(mantissa_of_header(pb)) + 32 * idx + 32,
    )
}

/// The shared challenge an encoded proof carries.
pub open spec fn e0_bytes_of(pb: Seq<u8>) -> Seq<u8> {
    pb.subrange(
        e0_off_of(mantissa_of_header(pb)),
        e0_off_of(mantissa_of_header(pb)) + 32,
    )
}

/// The aggregate the digit commitments must sum to: the commitment minus the
/// public lower bound times the value generator, or nothing where a curve
/// operation fails.
pub open spec fn target_spec(pb: Seq<u8>, commitb: Seq<u8>, agenb: Seq<u8>) -> Option<Seq<u8>> {
    let minv = minv_of_header(pb);
    if minv == 0 {
        Some(commitb)
    } else {
        let vb = u128_be32(minv as u128);
        let hp = ec_mul_of(agenb, vb);
        let hn = ec_neg_of(hp);
        if point_ok(agenb) && sk_ok(vb) && point_ok(hp) && point_ok(commitb) && point_ok(hn) && hn
            != ec_neg_of(commitb) {
            Some(ec_add_of(commitb, hn))
        } else {
            None
        }
    }
}

/// The implied last digit commitment: the aggregate minus every stored digit
/// commitment, or nothing where a curve operation fails.
pub open spec fn clast_fold_spec(pb: Seq<u8>, acc: Seq<u8>, i: int) -> Option<Seq<u8>>
    decreases rings_of(mantissa_of_header(pb)) - 1 - i,
{
    let rings = rings_of(mantissa_of_header(pb)) as int;
    if i < 0 || i >= rings - 1 {
        Some(acc)
    } else {
        let ci = comm_bytes_of(pb, i);
        let nc = ec_neg_of(ci);
        if point_ok(ci) && point_ok(acc) && point_ok(nc) && nc != ec_neg_of(acc) {
            clast_fold_spec(pb, ec_add_of(acc, nc), i + 1)
        } else {
            None
        }
    }
}

/// One ring of the verification walk, from challenge `e` at position `j`:
/// the ring's closing element, or nothing where a step fails.
pub open spec fn chain_spec(
    pb: Seq<u8>,
    ci: Seq<u8>,
    agenb: Seq<u8>,
    i: int,
    j: int,
    ni: int,
    e: Seq<u8>,
    w: nat,
) -> Option<Seq<u8>>
    decreases ni - j,
{
    if j < 0 || j >= ni {
        None
    } else {
        let s = sval_bytes_of(pb, 4 * i + j);
        let sg = g_mul_of(s);
        match ring_pubkey_spec(ci, j, w, agenb) {
            Some(p) => {
                let ep = ec_mul_of(p, e);
                if sk_ok(s) && point_ok(p) && sk_ok(e) && point_ok(sg) && point_ok(ep) && ep
                    != ec_neg_of(sg) {
                    let rr = ec_add_of(sg, ep);
                    if j + 1 == ni {
                        Some(rr)
                    } else {
                        match challenge_of(rr, i as u8, (j + 1) as u8) {
                            Some(e2) => chain_spec(pb, ci, agenb, i, j + 1, ni, e2, w),
                            None => None,
                        }
                    }
                } else {
                    None
                }
            },
            None => None,
        }
    }
}

/// The concatenated closing elements of every ring from `i` on, or nothing
/// where a ring fails.
pub open spec fn rings_fold_spec(
    pb: Seq<u8>,
    clast: Seq<u8>,
    agenb: Seq<u8>,
    i: int,
    w: nat,
) -> Option<Seq<u8>>
    decreases rings_of(mantissa_of_header(pb)) - i,
{
    let m = mantissa_of_header(pb);
    let rings = rings_of(m) as int;
    if i < 0 || i >= rings {
        Some(Seq::empty())
    } else {
        let ni = ring_size_of(m, i as nat) as int;
        let ci = if i == rings - 1 {
            clast
        } else {
            comm_bytes_of(pb, i)
        };
        match chain_spec(pb, ci, agenb, i, 0, ni, e0_bytes_of(pb), w) {
            Some(rf) => {
                if i + 1 < rings && w > (u128::MAX / 16) as nat {
                    None
                } else {
                    match rings_fold_spec(pb, clast, agenb, i + 1, (w * 4) as nat) {
                        Some(rest) => Some(rf + rest),
                        None => None,
                    }
                }
            },
            None => None,
        }
    }
}

/// The concatenated digit commitments from `i` on, the implied last one
/// included.
pub open spec fn ccat_spec(pb: Seq<u8>, clast: Seq<u8>, i: int) -> Seq<u8>
    decreases rings_of(mantissa_of_header(pb)) - i,
{
    let rings = rings_of(mantissa_of_header(pb)) as int;
    if i < 0 || i >= rings {
        Seq::empty()
    } else {
        (if i == rings - 1 {
            clast
        } else {
            comm_bytes_of(pb, i)
        }) + ccat_spec(pb, clast, i + 1)
    }
}

/// Whether an encoded proof passes the full verification walk against the
/// commitment, the associated data and the generator: the aggregate and the
/// implied last digit commitment compute, every ring equation holds under
/// the shared challenge, and the recomputed challenge matches the one the
/// proof carries.
pub open spec fn check_ok(pb: Seq<u8>, commitb: Seq<u8>, ac: Seq<u8>, agenb: Seq<u8>) -> bool {
    match target_spec(pb, commitb, agenb) {
        Some(t) => match clast_fold_spec(pb, t, 0) {
            Some(clast) => match rings_fold_spec(
                pb,
                clast,
                agenb,
                0,
                scale_of(exp_of_header(pb) as i32),
            ) {
                Some(rfcat) => match h2s_spec(
                    rfcat + pb.subrange(0, 10) + masked_region_of(pb) + ccat_spec(pb, clast, 0)
                        + ac + commitb + agenb,
                    32,
                ) {
                    Some(e0p) => e0p == e0_bytes_of(pb),
                    None => false,
                },
                None => false,
            },
            None => false,
        },
        None => false,
    }
}

/// Whether rewinding a proof that already passes the verification walk
/// recovers an opening under the given key bytes: the unmasked hidden value
/// and message length are in range, the recovered value stays below the
/// proof's upper bound, and the blinding factor reconstructs to a valid
/// scalar.
pub open spec fn rewind_ok(pb: Seq<u8>, skb: Seq<u8>, commitb: Seq<u8>, agenb: Seq<u8>) -> bool {
    let seed = seed_of(skb, commitb, agenb);
    let u = mask_of(seed, masked_region_of(pb));
    let m = mantissa_of_header(pb);
    let rings = rings_of(m);
    let vh = u64_of_be(u.subrange(0, 8));
    let ml = u16_of_be(u.subrange(40, 42));
    let rl = u.subrange(8, 40);
    &&& ml <= 64
    &&& (vh as nat) < pow2(m)
    &&& minv_of_header(pb) + vh * scale_of(exp_of_header(pb) as i32) <= max_of(
        minv_of_header(pb) as nat,
        m,
        scale_of(exp_of_header(pb) as i32),
    )
    &&& (rings == 1 ==> sk_ok(rl))
    &&& (rings > 1 ==> (rsum_ok(seed, (rings - 1) as nat) && sk_ok(rl) && mod_n(
        (be_int(rl) + rsum_of(seed, (rings - 1) as nat)) as nat,
    ) != 0))
}

/// An option with a sequence glued in front of its content.
pub open spec fn opt_prepend(pre: Seq<u8>, o: Option<Seq<u8>>) -> Option<Seq<u8>> {
    match o {
        Some(x) => Some(pre + x),
        None => None,
    }
}

/// The shared structural and ring check behind verification and rewind:
/// decodes the proof, recomputes every ring equation and the shared
/// challenge, and hands back the header fields on success.
#[verifier::rlimit(100)]
proof fn lemma_fail_rings(
    pb: Seq<u8>,
    commitb: Seq<u8>,
    ac: Seq<u8>,
    agenb: Seq<u8>,
    t0: Seq<u8>,
    clg: Seq<u8>,
    i: int,
    w: nat,
    rfpre: Seq<u8>,
)
    requires
        target_spec(pb, commitb, agenb) == Some(t0),
        clast_fold_spec(pb, t0, 0) == Some(clg),
        rings_fold_spec(pb, clg, agenb, 0, scale_of(exp_of_header(pb) as i32)) == opt_prepend(
            rfpre,
            rings_fold_spec(pb, clg, agenb, i, w),
        ),
        rings_fold_spec(pb, clg, agenb, i, w) is None,
    ensures
        !check_ok(pb, commitb, ac, agenb),
{
}

proof fn lemma_ring_none(pb: Seq<u8>, clg: Seq<u8>, agenb: Seq<u8>, i: int, w: nat)
    requires
        0 <= i < rings_of(mantissa_of_header(pb)),
        chain_spec(
            pb,
            (if i == rings_of(mantissa_of_header(pb)) - 1 {
                clg
            } else {
                comm_bytes_of(pb, i)
            }),
            agenb,
            i,
            0,
            ring_size_of(mantissa_of_header(pb), i as nat) as int,
            e0_bytes_of(pb),
            w,
        ) is None,
    ensures
        rings_fold_spec(pb, clg, agenb, i, w) is None,
{
}

/// The shared structural and ring check behind verification and rewind:
/// decodes the proof, recomputes every ring equation and the shared
/// challenge, and hands back the header fields on success; it succeeds
/// exactly when the proof passes the verification walk.
#[verifier::rlimit(100)]
fn verify_core(pb: &[u8], commitb: &[u8], ac: &[u8], agenb: &[u8]) -> (r: Option<ProofInfo>)
    requires
        wf_proof(pb@),
        commitb@.len() == 33,
        agenb@.len() == 33,
    ensures
        r.is_some() == check_ok(pb@, commitb@, ac@, agenb@),
        r matches Some(info) ==> {
            &&& info.exp == exp_of_header(pb@)
            &&& info.mantissa == mantissa_of_header(pb@)
            &&& info.min_value == minv_of_header(pb@)
            &&& info.max_value as int == max_of(
                minv_of_header(pb@) as nat,
                mantissa_of_header(pb@),
                scale_of(exp_of_header(pb@) as i32),
            )
            &&& -1 <= info.exp <= 18
            &&& 1 <= info.mantissa <= 63
        },
{
    let info = match parse_header(pb) {
        Some(x) => x,
        None => {
            proof {
                assert(false);
            }
            return None;
        },
    };
    let m: u32 = info.mantissa;
    let rings: usize = (m as usize + 1) / 2;
    let modd: bool = m % 2 == 1;
    let scale: u64 = scale_u64(info.exp);
    let masked_off: usize = 10 + 33 * (rings - 1);
    let svals_off: usize = masked_off + 106;
    let nsv: usize = 4 * (rings - 1) + (if modd {
        2
    } else {
        4
    });
    let e0_off: usize = svals_off + 32 * nsv;
    proof {
        assert(rings == rings_of(m as nat));
        assert(nsv == nsvals_of(m as nat));
        assert(pb@.len() == total_len_of(m as nat));
        assert(pb@.len() == e0_off + 32);
        assert(svals_off == svals_off_of(m as nat));
        assert(e0_off == e0_off_of(m as nat));
    }
    let mut comms: Vec<Vec<u8>> = Vec::new();
    let mut i: usize = 0;
    while i < rings - 1
        invariant
            i <= rings - 1,
            rings <= 32,
            comms@.len() == i,
            forall|k: int| 0 <= k < i ==> (#[trigger] comms@[k])@.len() == 33,
            forall|k: int| 0 <= k < i ==> (#[trigger] comms@[k])@ == comm_bytes_of(pb@, k),
            pb@.len() >= 10 + 33 * (rings - 1),
        decreases rings - 1 - i,
    {
        comms.push(slice_to_vec(slice_subrange(pb, 10 + 33 * i, 10 + 33 * i + 33)));
        i = i + 1;
    }
    let target: Vec<u8> = if info.min_value > 0 {
        let vb = u128_to_be32(info.min_value as u128);
        let hp = match point_mul(agenb, vb.as_slice()) {
            Some(x) => x,
            None => {
                proof {
                    assert(target_spec(pb@, commitb@, agenb@) is None);
                }
                return None;
            },
        };
        let hn = match point_negate(hp.as_slice()) {
            Some(x) => x,
            None => {
                proof {
                    assert(target_spec(pb@, commitb@, agenb@) is None);
                }
                return None;
            },
        };
        match point_add(commitb, hn.as_slice()) {
            Some(x) => x,
            None => {
                proof {
                    assert(target_spec(pb@, commitb@, agenb@) is None);
                }
                return None;
            },
        }
    } else {
        slice_to_vec(commitb)
    };
    proof {
        assert(Some(target@) == target_spec(pb@, commitb@, agenb@));
    }
    let ghost t0 = target@;
    let mut acc: Vec<u8> = target;
    let mut i2: usize = 0;
    while i2 < rings - 1
        invariant
            i2 <= rings - 1,
            rings <= 32,
            rings == rings_of(m as nat),
            m as nat == mantissa_of_header(pb@),
            acc@.len() == 33,
            comms@.len() == rings - 1,
            forall|k: int| 0 <= k < rings - 1 ==> (#[trigger] comms@[k])@.len() == 33,
            forall|k: int| 0 <= k < rings - 1 ==> (#[trigger] comms@[k])@ == comm_bytes_of(pb@, k),
            target_spec(pb@, commitb@, agenb@) == Some(t0),
            clast_fold_spec(pb@, t0, 0) == clast_fold_spec(pb@, acc@, i2 as int),
        decreases rings - 1 - i2,
    {
        let nc = match point_negate(comms[i2].as_slice()) {
            Some(x) => x,
            None => {
                proof {
                    assert(clast_fold_spec(pb@, acc@, i2 as int) is None);
                    assert(!check_ok(pb@, commitb@, ac@, agenb@));
                }
                return None;
            },
        };
        acc = match point_add(acc.as_slice(), nc.as_slice()) {
            Some(x) => x,
            None => {
                proof {
                    assert(clast_fold_spec(pb@, acc@, i2 as int) is None);
                    assert(!check_ok(pb@, commitb@, ac@, agenb@));
                }
                return None;
            },
        };
        i2 = i2 + 1;
    }
    proof {
        assert(clast_fold_spec(pb@, acc@, (rings - 1) as int) == Some(acc@));
    }
    let ghost clg = acc@;
    comms.push(acc);
    let mut ccatv: Vec<u8> = Vec::new();
    let mut ic: usize = 0;
    proof {
        assert(ccat_spec(pb@, clg, 0) =~= Seq::<u8>::empty() + ccat_spec(pb@, clg, 0));
    }
    while ic < rings
        invariant
            ic <= rings,
            rings <= 32,
            rings == rings_of(m as nat),
            m as nat == mantissa_of_header(pb@),
            comms@.len() == rings,
            forall|k: int| 0 <= k < rings ==> (#[trigger] comms@[k])@.len() == 33,
            forall|k: int| 0 <= k < rings - 1 ==> (#[trigger] comms@[k])@ == comm_bytes_of(pb@, k),
            comms@[rings - 1]@ == clg,
            ccat_spec(pb@, clg, 0) == ccatv@ + ccat_spec(pb@, clg, ic as int),
        decreases rings - ic,
    {
        let ghost oldcc = ccatv@;
        ccatv.extend_from_slice(comms[ic].as_slice());
        proof {
            let elem = comms@[ic as int]@;
            assert(ccat_spec(pb@, clg, ic as int) == elem + ccat_spec(pb@, clg, ic + 1));
            assert(oldcc + (elem + ccat_spec(pb@, clg, ic + 1)) =~= (oldcc + elem) + ccat_spec(
                pb@,
                clg,
                ic + 1,
            ));
        }
        ic = ic + 1;
    }
    proof {
        assert(ccat_spec(pb@, clg, rings as int) =~= Seq::<u8>::empty());
        assert(ccatv@ + Seq::<u8>::empty() =~= ccatv@);
        assert(ccat_spec(pb@, clg, 0) == ccatv@);
    }
    let e0b = slice_to_vec(slice_subrange(pb, e0_off, e0_off + 32));
    let mut rfcatv: Vec<u8> = Vec::new();
    let mut w: u128 = scale as u128;
    let mut i3: usize = 0;
    proof {
        crate::bytes::lemma_pow10_monotone(0, 18);
        assert(crate::bytes::pow10(18) == 1000000000000000000nat) by {
            reveal_with_fuel(crate::bytes::pow10, 19);
        }
        assert(rings_fold_spec(pb@, clg, agenb@, 0, scale as nat) =~= opt_prepend(
            Seq::<u8>::empty(),
            rings_fold_spec(pb@, clg, agenb@, 0, scale as nat),
        ));
        assert(Seq::<u8>::empty() + rfcatv@ =~= rfcatv@);
    }
    while i3 < rings
        invariant
            i3 <= rings,
            rings <= 32,
            rings == rings_of(m as nat),
            m as nat == mantissa_of_header(pb@),
            scale as nat == scale_of(exp_of_header(pb@) as i32),
            comms@.len() == rings,
            forall|k: int| 0 <= k < rings ==> (#[trigger] comms@[k])@.len() == 33,
            forall|k: int| 0 <= k < rings - 1 ==> (#[trigger] comms@[k])@ == comm_bytes_of(pb@, k),
            comms@[rings - 1]@ == clg,
            e0b@.len() == 32,
            e0b@ == e0_bytes_of(pb@),
            agenb@.len() == 33,
            commitb@.len() == 33,
            w <= u128::MAX / 4,
            pb@.len() == e0_off + 32,
            e0_off == svals_off + 32 * nsv,
            svals_off == svals_off_of(m as nat),
            nsv == 4 * (rings - 1) + (if modd {
                2int
            } else {
                4int
            }),
            modd == (m % 2 == 1),
            target_spec(pb@, commitb@, agenb@) == Some(t0),
            clast_fold_spec(pb@, t0, 0) == Some(clg),
            rings_fold_spec(pb@, clg, agenb@, 0, scale as nat) == opt_prepend(
                rfcatv@,
                rings_fold_spec(pb@, clg, agenb@, i3 as int, w as nat),
            ),
        decreases rings - i3,
    {
        let ni: usize = if i3 + 1 == rings && modd {
            2
        } else {
            4
        };
        let ghost cig = comms@[i3 as int]@;
        proof {
            assert(ring_size_of(m as nat, i3 as nat) == ni);
            assert(cig == (if i3 as int == rings_of(mantissa_of_header(pb@)) - 1 {
                clg
            } else {
                comm_bytes_of(pb@, i3 as int)
            }));
        }
        let mut ecur: Vec<u8> = slice_to_vec(e0b.as_slice());
        let mut rr: Vec<u8> = Vec::new();
        let mut j: usize = 0;
        while j < ni
            invariant
                j <= ni,
                2 <= ni <= 4,
                i3 < rings,
                rings <= 32,
                rings == rings_of(m as nat),
                m as nat == mantissa_of_header(pb@),
                scale as nat == scale_of(exp_of_header(pb@) as i32),
                ecur@.len() == 32,
                j > 0 ==> rr@.len() == 33,
                comms@.len() == rings,
                forall|k: int| 0 <= k < rings ==> (#[trigger] comms@[k])@.len() == 33,
                cig == comms@[i3 as int]@,
                cig == (if i3 as int == rings_of(mantissa_of_header(pb@)) - 1 {
                    clg
                } else {
                    comm_bytes_of(pb@, i3 as int)
                }),
                agenb@.len() == 33,
                commitb@.len() == 33,
                w <= u128::MAX / 4,
                pb@.len() == e0_off + 32,
                e0_off == svals_off + 32 * nsv,
                svals_off == svals_off_of(m as nat),
                nsv == 4 * (rings - 1) + (if modd {
                    2int
                } else {
                    4int
                }),
                modd == (m % 2 == 1),
                ni == ring_size_of(m as nat, i3 as nat),
                e0b@ == e0_bytes_of(pb@),
                target_spec(pb@, commitb@, agenb@) == Some(t0),
                clast_fold_spec(pb@, t0, 0) == Some(clg),
                rings_fold_spec(pb@, clg, agenb@, 0, scale as nat) == opt_prepend(
                    rfcatv@,
                    rings_fold_spec(pb@, clg, agenb@, i3 as int, w as nat),
                ),
                j < ni ==> chain_spec(pb@, cig, agenb@, i3 as int, 0, ni as int, e0b@, w as nat)
                    == chain_spec(pb@, cig, agenb@, i3 as int, j as int, ni as int, ecur@, w as nat),
                j == ni ==> chain_spec(pb@, cig, agenb@, i3 as int, 0, ni as int, e0b@, w as nat)
                    == Some(rr@),
            decreases ni - j,
        {
            proof {
                assert(4 * i3 + j < nsv) by (nonlinear_arith)
                    requires
                        i3 < rings,
                        j < ni,
                        rings >= 1,
                        nsv == 4 * (rings - 1) + (if modd {
                            2int
                        } else {
                            4int
                        }),
                        ni == (if i3 + 1 == rings && modd {
                            2int
                        } else {
                            4int
                        }),
                ;
                assert(32 * (4 * i3 + j) + 32 <= 32 * nsv) by (nonlinear_arith)
                    requires
                        4 * i3 + j < nsv,
                ;
            }
            let soff: usize = svals_off + 32 * (4 * i3 + j);
            let s = slice_subrange(pb, soff, soff + 32);
            proof {
                assert(s@ == sval_bytes_of(pb@, 4 * (i3 as int) + j));
            }
            let sg = match point_from_scalar(s) {
                Some(x) => x,
                None => {
                    proof {
                        assert(chain_spec(pb@, cig, agenb@, i3 as int, j as int, ni as int, ecur@,
                            w as nat) is None);
                        lemma_ring_none(pb@, clg, agenb@, i3 as int, w as nat);
                        lemma_fail_rings(pb@, commitb@, ac@, agenb@, t0, clg, i3 as int, w as nat,
                            rfcatv@);
                    }
                    return None;
                },
            };
            let p = match ring_pubkey(comms[i3].as_slice(), j as u8, w, agenb) {
                Some(x) => x,
                None => {
                    proof {
                        assert(chain_spec(pb@, cig, agenb@, i3 as int, j as int, ni as int, ecur@,
                            w as nat) is None);
                        lemma_ring_none(pb@, clg, agenb@, i3 as int, w as nat);
                        lemma_fail_rings(pb@, commitb@, ac@, agenb@, t0, clg, i3 as int, w as nat,
                            rfcatv@);
                    }
                    return None;
                },
            };
            let ep = match point_mul(p.as_slice(), ecur.as_slice()) {
                Some(x) => x,
                None => {
                    proof {
                        assert(chain_spec(pb@, cig, agenb@, i3 as int, j as int, ni as int, ecur@,
                            w as nat) is None);
                        lemma_ring_none(pb@, clg, agenb@, i3 as int, w as nat);
                        lemma_fail_rings(pb@, commitb@, ac@, agenb@, t0, clg, i3 as int, w as nat,
                            rfcatv@);
                    }
                    return None;
                },
            };
            rr = match point_add(sg.as_slice(), ep.as_slice()) {
                Some(x) => x,
                None => {
                    proof {
                        assert(chain_spec(pb@, cig, agenb@, i3 as int, j as int, ni as int, ecur@,
                            w as nat) is None);
                        lemma_ring_none(pb@, clg, agenb@, i3 as int, w as nat);
                        lemma_fail_rings(pb@, commitb@, ac@, agenb@, t0, clg, i3 as int, w as nat,
                            rfcatv@);
                    }
                    return None;
                },
            };
            if j + 1 < ni {
                ecur = match challenge_next(rr.as_slice(), i3 as u8, (j + 1) as u8) {
                    Some(x) => x,
                    None => {
                        proof {
                            assert(chain_spec(pb@, cig, agenb@, i3 as int, j as int, ni as int,
                                ecur@, w as nat) is None);
                            lemma_ring_none(pb@, clg, agenb@, i3 as int, w as nat);
                            lemma_fail_rings(pb@, commitb@, ac@, agenb@, t0, clg, i3 as int,
                                w as nat, rfcatv@);
                        }
                        return None;
                    },
                };
            }
            j = j + 1;
        }
        let ghost oldrf = rfcatv@;
        let ghost w_old = w as nat;
        rfcatv.extend_from_slice(rr.as_slice());
        if i3 + 1 < rings {
            if w > u128::MAX / 16 {
                proof {
                    assert(rings_fold_spec(pb@, clg, agenb@, i3 as int, w as nat) is None);
                    lemma_fail_rings(pb@, commitb@, ac@, agenb@, t0, clg, i3 as int, w as nat,
                        oldrf);
                }
                return None;
            }
            w = w * 4;
        }
        proof {
            assert(chain_spec(pb@, cig, agenb@, i3 as int, 0, ni as int, e0b@, w_old) == Some(
                rr@,
            ));
            let rest = rings_fold_spec(pb@, clg, agenb@, i3 + 1, (w_old * 4) as nat);
            if rest is Some {
                assert(rings_fold_spec(pb@, clg, agenb@, i3 as int, w_old) == Some(rr@
                    + rest.unwrap()));
                assert(oldrf + (rr@ + rest.unwrap()) =~= (oldrf + rr@) + rest.unwrap());
            } else {
                assert(rings_fold_spec(pb@, clg, agenb@, i3 as int, w_old) is None);
            }
            if i3 + 1 < rings {
                assert(w as nat == w_old * 4);
            } else {
                assert(rings_fold_spec(pb@, clg, agenb@, i3 + 1, w as nat) == Some(
                    Seq::<u8>::empty(),
                ));
                assert(rings_fold_spec(pb@, clg, agenb@, i3 + 1, (w_old * 4) as nat) == Some(
                    Seq::<u8>::empty(),
                ));
            }
        }
        i3 = i3 + 1;
    }
    proof {
        assert(rings_fold_spec(pb@, clg, agenb@, rings as int, w as nat) == Some(
            Seq::<u8>::empty(),
        ));
        assert(rfcatv@ + Seq::<u8>::empty() =~= rfcatv@);
        assert(rings_fold_spec(pb@, clg, agenb@, 0, scale as nat) == Some(rfcatv@));
    }
    let header = slice_to_vec(slice_subrange(pb, 0, 10));
    let masked = slice_to_vec(slice_subrange(pb, masked_off, masked_off + 106));
    proof {
        assert(masked@ == masked_region_of(pb@));
    }
    let mut e0inp: Vec<u8> = Vec::new();
    e0inp.extend_from_slice(rfcatv.as_slice());
    e0inp.extend_from_slice(header.as_slice());
    e0inp.extend_from_slice(masked.as_slice());
    e0inp.extend_from_slice(ccatv.as_slice());
    e0inp.extend_from_slice(ac);
    e0inp.extend_from_slice(commitb);
    e0inp.extend_from_slice(agenb);
    proof {
        assert(e0inp@ =~= rfcatv@ + pb@.subrange(0, 10) + masked_region_of(pb@) + ccat_spec(
            pb@,
            clg,
            0,
        ) + ac@ + commitb@ + agenb@);
    }
    let e0p = match hash_to_scalar(e0inp.as_slice(), 32) {
        Some(x) => x,
        None => {
            proof {
                assert(!check_ok(pb@, commitb@, ac@, agenb@));
            }
            return None;
        },
    };
    if !bytes_eq(e0p.as_slice(), e0b.as_slice()) {
        proof {
            assert(!check_ok(pb@, commitb@, ac@, agenb@));
        }
        return None;
    }
    proof {
        assert(check_ok(pb@, commitb@, ac@, agenb@));
    }
    Some(info)
}

impl<C: Verification> Secp256k1<C> {
    /// Verify that the committed value is within a range.
    ///
    /// If the verification is successful, return the actual range of
    /// possible values, read from the proof's own header: the half-open
    /// interval from the public lower bound to one past the upper bound its
    /// exponent and mantissa imply.
    pub fn verify_rangeproof(
        &self,
        proof: RangeProof,
        commitment: PedersenCommitment,
        additional_commitment: &[u8],
        additional_generator: Generator,
    ) -> (r: Result<Range, Error>)
        requires
            proof.wf(),
            commitment.wf(),
            additional_generator.wf(),
        ensures
            r is Ok <==> check_ok(proof@, commitment@, additional_commitment@,
            additional_generator@),
            r matches Err(e) ==> e == Error::InvalidRangeProof,
            r matches Ok(rg) ==> {
                &&& rg.start == minv_of_header(proof@)
                &&& rg.end as int == max_of(
                    minv_of_header(proof@) as nat,
                    mantissa_of_header(proof@),
                    scale_of(exp_of_header(proof@) as i32),
                ) + 1
                &&& rg.start <= rg.end
            },
    {
        match verify_core(
            proof.as_bytes(),
            commitment.bytes.as_slice(),
            additional_commitment,
            additional_generator.bytes.as_slice(),
        ) {
            Some(info) => {
                proof {
                    vstd::arithmetic::power2::lemma_pow2_pos(mantissa_of_header(proof@));
                    assert(info.max_value as int >= info.min_value as int) by (nonlinear_arith)
                        requires
                            info.max_value as int == info.min_value + (pow2(
                                mantissa_of_header(proof@),
                            ) - 1) * scale_of(exp_of_header(proof@) as i32),
                            pow2(mantissa_of_header(proof@)) >= 1,
                            scale_of(exp_of_header(proof@) as i32) >= 0,
                    ;
                }
                Ok(Range { start: info.min_value, end: info.max_value + 1 })
            },
            None => Err(Error::InvalidRangeProof),
        }
    }

    /// Verify a range proof and rewind it to recover the information its
    /// author embedded: the committed value, the commitment's blinding
    /// factor and the message, unmasked with the keystream drawn from `sk`.
    #[verifier::rlimit(100)]
    pub fn rewind_rangeproof(
        &self,
        proof: &RangeProof,
        commitment: PedersenCommitment,
        sk: secp256k1::SecretKey,
        additional_commitment: &[u8],
        additional_generator: Generator,
    ) -> (r: Result<(Opening, Range), Error>)
        requires
            proof.wf(),
            commitment.wf(),
            additional_generator.wf(),
        ensures
            r is Ok <==> (check_ok(proof@, commitment@, additional_commitment@,
            additional_generator@) && rewind_ok(proof@, sk_bytes(sk), commitment@,
            additional_generator@)),
            !check_ok(proof@, commitment@, additional_commitment@, additional_generator@) ==> r
                == Err::<(Opening, Range), Error>(Error::InvalidRangeProof),
            r matches Err(e) ==> e == Error::InvalidRangeProof || e == Error::KeyError,
            r matches Ok(org) ==> ({
                let u = mask_of(
                    seed_of(sk_bytes(sk), commitment@, additional_generator@),
                    masked_region_of(proof@),
                );
                &&& org.1.start == minv_of_header(proof@)
                &&& org.1.end as int == max_of(
                    minv_of_header(proof@) as nat,
                    mantissa_of_header(proof@),
                    scale_of(exp_of_header(proof@) as i32),
                ) + 1
                &&& u16_of_be(u.subrange(40, 42)) <= 64
                &&& org.0.message@ == u.subrange(42, 42 + u16_of_be(u.subrange(40, 42)) as int)
                &&& org.0.value as int == minv_of_header(proof@) + u64_of_be(u.subrange(0, 8))
                    * scale_of(exp_of_header(proof@) as i32)
                &&& u64_of_be(u.subrange(0, 8)) < pow2(mantissa_of_header(proof@))
                &&& org.1.start <= org.0.value
                &&& org.0.value < org.1.end
                &&& (rings_of(mantissa_of_header(proof@)) == 1 ==> sk_bytes(org.0.blinding_factor)
                    == u.subrange(8, 40))
                &&& (rings_of(mantissa_of_header(proof@)) > 1 ==> be_int(sk_bytes(
                    org.0.blinding_factor,
                )) == mod_n(
                    (be_int(u.subrange(8, 40)) + rsum_of(
                        seed_of(sk_bytes(sk), commitment@, additional_generator@),
                        (rings_of(mantissa_of_header(proof@)) - 1) as nat,
                    )) as nat,
                ))
            }),
            r == Err::<(Opening, Range), Error>(Error::KeyError) ==> ({
                let u = mask_of(
                    seed_of(sk_bytes(sk), commitment@, additional_generator@),
                    masked_region_of(proof@),
                );
                let rings = rings_of(mantissa_of_header(proof@));
                &&& (rings == 1 ==> !sk_ok(u.subrange(8, 40)))
                &&& (rings > 1 ==> (!sk_ok(u.subrange(8, 40)) || mod_n(
                    (be_int(u.subrange(8, 40)) + rsum_of(
                        seed_of(sk_bytes(sk), commitment@, additional_generator@),
                        (rings - 1) as nat,
                    )) as nat,
                ) == 0))
            }),
    {
        let pb = proof.as_bytes();
        let info = match verify_core(
            pb,
            commitment.bytes.as_slice(),
            additional_commitment,
            additional_generator.bytes.as_slice(),
        ) {
            Some(x) => x,
            None => return Err(Error::InvalidRangeProof),
        };
        let m: u32 = info.mantissa;
        let rings: usize = (m as usize + 1) / 2;
        let scale: u64 = scale_u64(info.exp);
        let masked_off: usize = 10 + 33 * (rings - 1);
        proof {
            assert(rings == rings_of(m as nat));
            assert(pb@.len() == total_len_of(m as nat));
            assert(masked_off == masked_off_of(m as nat));
        }
        let skb = sk_to_bytes(&sk);
        let seed = derive_seed(
            skb.as_slice(),
            commitment.bytes.as_slice(),
            additional_generator.bytes.as_slice(),
        );
        let region = slice_subrange(pb, masked_off, masked_off + 106);
        proof {
            assert(region@ =~= masked_region_of(proof@));
        }
        let rm = read_masked(seed.as_slice(), region);
        let vh: u64 = rm.0;
        let rl: Vec<u8> = rm.1;
        let ml: u16 = rm.2;
        let msgbuf: Vec<u8> = rm.3;
        if ml > 64 {
            return Err(Error::InvalidRangeProof);
        }
        let pw: u64 = pow2_u64(m);
        if vh >= pw {
            return Err(Error::InvalidRangeProof);
        }
        proof {
            crate::bytes::lemma_pow10_monotone(0, 18);
            if info.exp >= 0 {
                crate::bytes::lemma_pow10_monotone(info.exp as nat, 18);
            }
            assert(crate::bytes::pow10(18) == 1000000000000000000nat) by {
                reveal_with_fuel(crate::bytes::pow10, 19);
            }
            lemma2_to64_rest();
            if (m as nat) < 63 {
                lemma_pow2_strictly_increases(m as nat, 63);
            }
            assert((vh as u128) * (scale as u128) <= 0x8000000000000000u128
                * 1000000000000000000u128) by (nonlinear_arith)
                requires
                    vh as u128 <= 0x8000000000000000u128,
                    scale as u128 <= 1000000000000000000u128,
            ;
        }
        let val128: u128 = info.min_value as u128 + (vh as u128) * (scale as u128);
        if val128 > info.max_value as u128 {
            return Err(Error::InvalidRangeProof);
        }
        let blind_bytes: Vec<u8> = if rings == 1 {
            rl
        } else {
            let acc = match derived_blinding_sum(seed.as_slice(), rings) {
                Some(x) => x,
                None => return Err(Error::InvalidRangeProof),
            };
            match crate::curve::scalar_add(rl.as_slice(), acc.as_slice()) {
                Some(x) => x,
                None => return Err(Error::KeyError),
            }
        };
        let bf = match sk_from_bytes(blind_bytes.as_slice()) {
            Some(x) => x,
            None => return Err(Error::KeyError),
        };
        let msg = slice_to_vec(slice_subrange(msgbuf.as_slice(), 0, ml as usize));
        proof {
            let u = mask_of(
                seed_of(sk_bytes(sk), commitment@, additional_generator@),
                masked_region_of(proof@),
            );
            assert(msg@ =~= u.subrange(42, 42 + ml as int));
        }
        let opening = Opening { value: val128 as u64, blinding_factor: bf, message: msg };
        let range = Range { start: info.min_value, end: info.max_value + 1 };
        Ok((opening, range))
    }
}

/// Sign-then-rewind round trip: a masked region laid down at signing time
/// with some seed, hidden value, closing blinding and message, when unmasked
/// with the same seed - as rewinding does - yields back exactly that hidden
/// value, those blinding bytes and that message.  Together with the masked
/// region clause of `make_rangeproof` and the recovery clauses of
/// `rewind_rangeproof` this says that rewinding a proof with the key it was
/// signed under recovers what the signer put in.
pub proof fn lemma_sign_rewind_recovery(
    seed: Seq<u8>,
    vh: u64,
    rl: Seq<u8>,
    msg: Seq<u8>,
    region: Seq<u8>,
    b: nat,
    srs: nat,
)
    requires
        rl.len() == 32,
        msg.len() <= 64,
        region == mask_of(seed, plain_of(vh, rl, msg)),
        0 < b < group_order(),
        srs < group_order(),
        be_int(rl) == mod_n((b + group_order() - srs) as nat),
    ensures
        ({
            let u = mask_of(seed, region);
            &&& u64_of_be(u.subrange(0, 8)) == vh
            &&& u.subrange(8, 40) == rl
            &&& u16_of_be(u.subrange(40, 42)) == msg.len() as u16
            &&& u.subrange(42, 42 + msg.len() as int) == msg
            &&& mod_n((be_int(u.subrange(8, 40)) + srs) as nat) == b as int
        }),
{
    crate::codec::lemma_mask_roundtrip(seed, vh, rl, msg);
    lemma_blinding_recovery(b, srs);
}

/// The modular sum of the first `n` ring blinding factors derived from a
/// seed.
pub open spec fn rsum_of(seed: Seq<u8>, n: nat) -> int
    decreases n,
{
    if n == 0 {
        0
    } else {
        mod_n(
            (rsum_of(seed, (n - 1) as nat) + be_int(
                derived_scalar_of(seed, 1u8, (n - 1) as u8).unwrap(),
            )) as nat,
        )
    }
}

/// Whether every step of summing the first `n` seed-derived ring blindings
/// succeeds: each scalar derives and no partial sum hits zero.
pub open spec fn rsum_ok(seed: Seq<u8>, n: nat) -> bool
    decreases n,
{
    if n == 0 {
        true
    } else if n == 1 {
        derived_scalar_of(seed, 1u8, 0u8).is_some()
    } else {
        &&& rsum_ok(seed, (n - 1) as nat)
        &&& derived_scalar_of(seed, 1u8, (n - 1) as u8).is_some()
        &&& mod_n(
            (rsum_of(seed, (n - 1) as nat) + be_int(
                derived_scalar_of(seed, 1u8, (n - 1) as u8).unwrap(),
            )) as nat,
        ) != 0
    }
}

proof fn lemma_rsum_ok_mono(seed: Seq<u8>, j: nat, n: nat)
    requires
        j <= n,
        rsum_ok(seed, n),
    ensures
        rsum_ok(seed, j),
    decreases n,
{
    if j < n {
        if n > 1 {
            lemma_rsum_ok_mono(seed, j, (n - 1) as nat);
        }
    }
}

/// Sign-then-rewind round trip for the blinding factor: the closing ring
/// blinding laid down at signing is the commitment blinding minus the sum of
/// the seed-derived ring blindings; adding the same sum back, as rewinding
/// does, returns exactly the commitment blinding.
pub proof fn lemma_blinding_recovery(b: nat, s: nat)
    requires
        0 < b < group_order(),
        s < group_order(),
    ensures
        mod_n((mod_n((b + group_order() - s) as nat) + s) as nat) == b as int,
{
    let n = group_order() as int;
    let x = (b + group_order() - s) as int;
    vstd::arithmetic::div_mod::lemma_small_mod(s, group_order());
    vstd::arithmetic::div_mod::lemma_add_mod_noop(x, s as int, n);
    assert((x + s) % n == (b + group_order()) as int % n);
    vstd::arithmetic::div_mod::lemma_mod_multiples_vanish(1, b as int, n);
    vstd::arithmetic::div_mod::lemma_small_mod(b, group_order());
}

/// The closing ring blinding is determined by its modular value: the sign
/// contract pins its 32 bytes up to `be_int`, and equal values mean equal
/// bytes, so the masked payload a proof carries is a function of the signing
/// inputs.
pub proof fn lemma_closing_blinding_unique(rl1: Seq<u8>, rl2: Seq<u8>)
    requires
        rl1.len() == 32,
        rl2.len() == 32,
        be_int(rl1) == be_int(rl2),
    ensures
        rl1 == rl2,
{
    crate::bytes::lemma_be_int_injective(rl1, rl2);
}

/// Number of ring scalars in the rings before ring `i`.
pub open spec fn sval_count(i: int, rings: int, modd: bool) -> int {
    if i == rings && modd {
        4 * (i - 1) + 2
    } else {
        4 * i
    }
}

} // verus!
