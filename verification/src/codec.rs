use vstd::prelude::*;

use crate::bytes::{
    u64_be,
    u64_of_be,
    u16_be,
    u16_of_be,
    u64_to_be_vec,
    u64_from_be,
    u16_to_be_vec,
    u16_from_be,
    xor_bytes,
    lemma_u64_be_roundtrip,
    lemma_u16_be_roundtrip,
    lemma_xor_involution,
};
use vstd::slice::{slice_to_vec, slice_subrange};

verus! {

/// The nonce seed: hash of the rewind key, the commitment and the generator.
pub open spec fn seed_of(skb: Seq<u8>, commit: Seq<u8>, agen: Seq<u8>) -> Seq<u8> {
    crate::curve::sha256_of(skb + commit + agen)
}

/// Byte `t` of the keystream drawn from a seed.
pub open spec fn ks_byte(seed: Seq<u8>, t: int) -> u8 {
    crate::curve::sha256_of(seed.push(3u8).push((t / 32) as u8))[t % 32]
}

/// A run of zero bytes.
pub open spec fn zeros(n: nat) -> Seq<u8> {
    Seq::new(n, |i: int| 0u8)
}

/// The plaintext payload carried inside the proof: the hidden mantissa
/// value, the closing blinding factor, and the length-prefixed message.
pub open spec fn plain_of(vh: u64, rl: Seq<u8>, msg: Seq<u8>) -> Seq<u8> {
    u64_be(vh) + rl + u16_be(msg.len() as u16) + msg + zeros((64 - msg.len()) as nat)
}

/// Byte-wise masking of a 106-byte payload with the keystream; masking is an
/// involution, so the same function also unmasks.
pub open spec fn mask_of(seed: Seq<u8>, p: Seq<u8>) -> Seq<u8> {
    Seq::new(106, |t: int| p[t] ^ ks_byte(seed, t))
}

/// The payload has exactly the masked region's size and its fields sit at
/// fixed offsets.
pub proof fn lemma_plain_fields(vh: u64, rl: Seq<u8>, msg: Seq<u8>)
    requires
        rl.len() == 32,
        msg.len() <= 64,
    ensures
        plain_of(vh, rl, msg).len() == 106,
        u64_of_be(plain_of(vh, rl, msg).subrange(0, 8)) == vh,
        plain_of(vh, rl, msg).subrange(8, 40) == rl,
        u16_of_be(plain_of(vh, rl, msg).subrange(40, 42)) == msg.len() as u16,
        plain_of(vh, rl, msg).subrange(42, 42 + msg.len() as int) == msg,
{
    let p = plain_of(vh, rl, msg);
    assert(p.subrange(0, 8) =~= u64_be(vh));
    lemma_u64_be_roundtrip(vh);
    assert(p.subrange(8, 40) =~= rl);
    assert(p.subrange(40, 42) =~= u16_be(msg.len() as u16));
    lemma_u16_be_roundtrip(msg.len() as u16);
    assert(p.subrange(42, 42 + msg.len() as int) =~= msg);
}

/// Masking twice with the same seed gives the payload back, and with it the
/// hidden value, the closing blinding factor and the embedded message: the
/// codec half of the sign-then-rewind round trip.
pub proof fn lemma_mask_roundtrip(seed: Seq<u8>, vh: u64, rl: Seq<u8>, msg: Seq<u8>)
    requires
        rl.len() == 32,
        msg.len() <= 64,
    ensures
        ({
            let u = mask_of(seed, mask_of(seed, plain_of(vh, rl, msg)));
            &&& u == plain_of(vh, rl, msg)
            &&& u64_of_be(u.subrange(0, 8)) == vh
            &&& u.subrange(8, 40) == rl
            &&& u16_of_be(u.subrange(40, 42)) == msg.len() as u16
            &&& u.subrange(42, 42 + msg.len() as int) == msg
        }),
{
    let p = plain_of(vh, rl, msg);
    lemma_plain_fields(vh, rl, msg);
    assert forall|t: int| 0 <= t < 106 implies mask_of(seed, mask_of(seed, p))[t] == p[t] by {
        lemma_xor_involution(p[t], ks_byte(seed, t));
    }
    assert(mask_of(seed, mask_of(seed, p)) =~= p);
}

/// Derive the nonce seed from the rewind key's bytes, the commitment and the
/// generator.
pub fn derive_seed(skb: &[u8], commit: &[u8], agen: &[u8]) -> (r: Vec<u8>)
    ensures
        r@ == seed_of(skb@, commit@, agen@),
        r@.len() == 32,
{
    let mut buf: Vec<u8> = Vec::new();
    buf.extend_from_slice(skb);
    buf.extend_from_slice(commit);
    buf.extend_from_slice(agen);
    proof {
        assert(buf@ =~= skb@ + commit@ + agen@);
    }
    crate::curve::sha256(buf.as_slice())
}

/// The first 106 keystream bytes drawn from a seed.
#[verifier::loop_isolation(false)]
pub fn keystream106(seed: &[u8]) -> (r: Vec<u8>)
    requires
        seed@.len() == 32,
    ensures
        r@.len() == 106,
        forall|t: int| 0 <= t < 106 ==> r@[t] == ks_byte(seed@, t),
{
    let mut out: Vec<u8> = Vec::new();
    let mut b: u8 = 0;
    while b < 4
        invariant
            b <= 4,
            out@.len() == 32 * b,
            forall|t: int| 0 <= t < out@.len() ==> out@[t] == ks_byte(seed@, t),
        decreases 4 - b,
    {
        let mut inp: Vec<u8> = slice_to_vec(seed);
        inp.push(3u8);
        inp.push(b);
        proof {
            assert(inp@ =~= seed@.push(3u8).push(b));
        }
        let h = crate::curve::sha256(inp.as_slice());
        let mut j: usize = 0;
        while j < 32
            invariant
                j <= 32,
                out@.len() == 32 * b + j,
                forall|t: int| 0 <= t < out@.len() ==> out@[t] == ks_byte(seed@, t),
        decreases 32 - j,
        {
            proof {
                let t: int = 32 * (b as int) + (j as int);
                assert(t / 32 == b && t % 32 == j) by (nonlinear_arith)
                    requires
                        t == 32 * (b as int) + (j as int),
                        0 <= j < 32,
                        0 <= b,
                ;
            }
            out.push(h[j]);
            j = j + 1;
        }
        b = b + 1;
    }
    out.truncate(106);
    out
}

/// Mask the payload for embedding: the hidden value, the closing blinding
/// factor, and the length-prefixed message, XOR-ed with the keystream.
pub fn build_masked(seed: &[u8], vh: u64, rl: &[u8], msg: &[u8]) -> (r: Vec<u8>)
    requires
        seed@.len() == 32,
        rl@.len() == 32,
        msg@.len() <= 64,
    ensures
        r@ == mask_of(seed@, plain_of(vh, rl@, msg@)),
        r@.len() == 106,
{
    let mut p: Vec<u8> = u64_to_be_vec(vh);
    p.extend_from_slice(rl);
    let lenv = u16_to_be_vec(msg.len() as u16);
    p.extend_from_slice(lenv.as_slice());
    p.extend_from_slice(msg);
    while p.len() < 106
        invariant
            42 + msg@.len() <= p@.len() <= 106,
            p@ == u64_be(vh) + rl@ + u16_be(msg@.len() as u16) + msg@ + zeros(
                (p@.len() - 42 - msg@.len()) as nat,
            ),
        decreases 106 - p@.len(),
    {
        p.push(0u8);
        proof {
            assert(p@ =~= u64_be(vh) + rl@ + u16_be(msg@.len() as u16) + msg@ + zeros(
                (p@.len() - 42 - msg@.len()) as nat,
            ));
        }
    }
    proof {
        assert(p@ =~= plain_of(vh, rl@, msg@));
    }
    let ks = keystream106(seed);
    let r = xor_bytes(p.as_slice(), ks.as_slice());
    proof {
        assert(r@ =~= mask_of(seed@, plain_of(vh, rl@, msg@)));
    }
    r
}

/// Unmask a masked region and split it into its fields: the hidden value,
/// the closing blinding factor bytes, the message length, and the full
/// message buffer.
pub fn read_masked(seed: &[u8], region: &[u8]) -> (r: (u64, Vec<u8>, u16, Vec<u8>))
    requires
        seed@.len() == 32,
        region@.len() == 106,
    ensures
        ({
            let u = mask_of(seed@, region@);
            &&& r.0 == u64_of_be(u.subrange(0, 8))
            &&& r.1@ == u.subrange(8, 40)
            &&& r.2 == u16_of_be(u.subrange(40, 42))
            &&& r.3@ == u.subrange(42, 106)
        }),
{
    let ks = keystream106(seed);
    let u = xor_bytes(region, ks.as_slice());
    proof {
        assert(u@ =~= mask_of(seed@, region@));
    }
    let vh = u64_from_be(slice_subrange(u.as_slice(), 0, 8));
    let rl = slice_to_vec(slice_subrange(u.as_slice(), 8, 40));
    let ml = u16_from_be(slice_subrange(u.as_slice(), 40, 42));
    let msg = slice_to_vec(slice_subrange(u.as_slice(), 42, 106));
    (vh, rl, ml, msg)
}

} // verus!
