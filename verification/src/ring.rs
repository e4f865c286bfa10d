use vstd::prelude::*;

use crate::curve::{sha256, sha256_of, sk_from_bytes, sk_ok, point_ok, ec_mul_of, ec_neg_of,
    ec_add_of};
use vstd::slice::slice_to_vec;

verus! {

/// A hash chained until it lands on a valid scalar, or nothing after the
/// given number of attempts.
pub open spec fn h2s_spec(data: Seq<u8>, fuel: nat) -> Option<Seq<u8>>
    decreases fuel,
{
    if fuel == 0 {
        None
    } else {
        let h = sha256_of(data);
        if sk_ok(h) {
            Some(h)
        } else {
            h2s_spec(h, (fuel - 1) as nat)
        }
    }
}

/// Hash the input and rehash until the digest is a valid scalar.
pub fn hash_to_scalar(data: &[u8], fuel: u32) -> (r: Option<Vec<u8>>)
    ensures
        r.is_some() == h2s_spec(data@, fuel as nat).is_some(),
        r matches Some(v) ==> Some(v@) == h2s_spec(data@, fuel as nat) && sk_ok(v@) && v@.len()
            == 32,
    decreases fuel,
{
    if fuel == 0 {
        return None;
    }
    let h = sha256(data);
    if sk_from_bytes(h.as_slice()).is_some() {
        Some(h)
    } else {
        hash_to_scalar(h.as_slice(), fuel - 1)
    }
}

/// The scalar derived from the seed for a domain tag and an index.
pub open spec fn derived_scalar_of(seed: Seq<u8>, tag: u8, i: u8) -> Option<Seq<u8>> {
    h2s_spec(seed.push(tag).push(i), 32)
}

/// Derive a per-ring scalar from the seed.
pub fn derive_scalar(seed: &[u8], tag: u8, i: u8) -> (r: Option<Vec<u8>>)
    ensures
        r.is_some() == derived_scalar_of(seed@, tag, i).is_some(),
        r matches Some(v) ==> Some(v@) == derived_scalar_of(seed@, tag, i) && sk_ok(v@)
            && v@.len() == 32,
{
    let mut inp: Vec<u8> = slice_to_vec(seed);
    inp.push(tag);
    inp.push(i);
    proof {
        assert(inp@ =~= seed@.push(tag).push(i));
    }
    hash_to_scalar(inp.as_slice(), 32)
}

/// The ring challenge that follows a ring element, bound to the ring and
/// position.
pub open spec fn challenge_of(rser: Seq<u8>, i: u8, j: u8) -> Option<Seq<u8>> {
    h2s_spec(rser.push(4u8).push(i).push(j), 32)
}

/// Derive the next ring challenge from a ring element.
pub fn challenge_next(rser: &[u8], i: u8, j: u8) -> (r: Option<Vec<u8>>)
    ensures
        r.is_some() == challenge_of(rser@, i, j).is_some(),
        r matches Some(v) ==> Some(v@) == challenge_of(rser@, i, j) && sk_ok(v@) && v@.len() == 32,
{
    let mut inp: Vec<u8> = slice_to_vec(rser);
    inp.push(4u8);
    inp.push(i);
    inp.push(j);
    proof {
        assert(inp@ =~= rser@.push(4u8).push(i).push(j));
    }
    hash_to_scalar(inp.as_slice(), 32)
}

/// Big-endian 32-byte encoding of a 128-bit value.
pub open spec fn u128_be32(v: u128) -> Seq<u8> {
    Seq::new(
        32,
        |i: int|
            if i < 16 {
                0u8
            } else {
                ((v >> (((31 - i) * 8) as u128)) & 0xff) as u8
            },
    )
}

/// Encode a 128-bit value as 32 big-endian bytes.
pub fn u128_to_be32(v: u128) -> (r: Vec<u8>)
    ensures
        r@ == u128_be32(v),
        r@.len() == 32,
{
    let mut r: Vec<u8> = Vec::new();
    let mut i: usize = 0;
    while i < 16
        invariant
            i <= 16,
            r@.len() == i,
            forall|t: int| 0 <= t < i ==> r@[t] == 0u8,
        decreases 16 - i,
    {
        r.push(0u8);
        i = i + 1;
    }
    let mut j: usize = 16;
    while j < 32
        invariant
            16 <= j <= 32,
            r@.len() == j,
            forall|t: int| 0 <= t < 16 ==> r@[t] == 0u8,
            forall|t: int| 16 <= t < j ==> r@[t] == ((v >> (((31 - t) * 8) as u128)) & 0xff) as u8,
        decreases 32 - j,
    {
        let sh: u32 = ((31 - j) * 8) as u32;
        r.push(((v >> sh as u128) & 0xff) as u8);
        j = j + 1;
    }
    proof {
        assert(r@ =~= u128_be32(v));
    }
    r
}

/// The ring member key at position `j` of a ring whose digit weight is `w`,
/// as a function of the encoded inputs: the digit commitment minus `j * w`
/// times the value generator, or nothing where a curve operation fails.
pub open spec fn ring_pubkey_spec(ci: Seq<u8>, j: int, w: nat, agen: Seq<u8>) -> Option<Seq<u8>> {
    if j == 0 {
        Some(ci)
    } else {
        let t = u128_be32((j * w) as u128);
        let hp = ec_mul_of(agen, t);
        let hn = ec_neg_of(hp);
        if point_ok(agen) && sk_ok(t) && point_ok(hp) && point_ok(ci) && point_ok(hn) && hn
            != ec_neg_of(ci) {
            Some(ec_add_of(ci, hn))
        } else {
            None
        }
    }
}

/// The ring member key at position `j` of a ring whose digit weight is `w`:
/// the digit commitment minus `j * w` times the value generator.
pub fn ring_pubkey(ci: &[u8], j: u8, w: u128, agen: &[u8]) -> (r: Option<Vec<u8>>)
    requires
        ci@.len() == 33,
        agen@.len() == 33,
        j <= 3,
        w <= u128::MAX / 4,
    ensures
        r.is_some() == ring_pubkey_spec(ci@, j as int, w as nat, agen@).is_some(),
        r matches Some(p) ==> Some(p@) == ring_pubkey_spec(ci@, j as int, w as nat, agen@)
            && p@.len() == 33,
{
    if j == 0 {
        return Some(slice_to_vec(ci));
    }
    proof {
        assert((j as u128) * w <= 4 * (u128::MAX / 4)) by (nonlinear_arith)
            requires
                j <= 4,
                w <= u128::MAX / 4,
        ;
    }
    let t = u128_to_be32((j as u128) * w);
    let hp = match crate::curve::point_mul(agen, t.as_slice()) {
        Some(x) => x,
        None => return None,
    };
    let hn = match crate::curve::point_negate(hp.as_slice()) {
        Some(x) => x,
        None => return None,
    };
    crate::curve::point_add(ci, hn.as_slice())
}

} // verus!
