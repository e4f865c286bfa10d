use vstd::prelude::*;

use crate::bytes::be_int;

verus! {

// The elliptic-curve group and scalar arithmetic are outside collaborators:
// this module declares their behaviour and is the only trusted part of the
// crate.  Scalars cross the boundary as 32 big-endian bytes, group elements
// as 33-byte compressed encodings.

#[verifier::external_type_specification]
#[verifier::external_body]
pub struct ExSecretKey(secp256k1::SecretKey);

/// The order of the secp256k1 group.
pub open spec fn group_order() -> nat {
    0xFFFFFFFFFFFFFFFFFFFFFFFFFFFFFFFEBAAEDCE6AF48A03BBFD25E8CD0364141nat
}

/// Reduction modulo the group order.
pub open spec fn mod_n(x: nat) -> int {
    (x as int) % (group_order() as int)
}

/// Bytes of a valid secret scalar: 32 bytes, nonzero, below the group order.
pub open spec fn sk_ok(b: Seq<u8>) -> bool {
    b.len() == 32 && 0 < be_int(b) && be_int(b) < group_order()
}

/// Bytes of a valid tweak scalar: 32 bytes below the group order (zero allowed).
pub open spec fn sc_ok(b: Seq<u8>) -> bool {
    b.len() == 32 && be_int(b) < group_order()
}

/// The SHA-256 digest of a byte sequence.
pub uninterp spec fn sha256_of(data: Seq<u8>) -> Seq<u8>;

/// The 32-byte representation of a secret key.
pub uninterp spec fn sk_bytes(k: secp256k1::SecretKey) -> Seq<u8>;

/// Whether 33 bytes are the compressed encoding of a curve point, as
/// secp256k1::PublicKey::from_slice decides it.
pub uninterp spec fn point_ok(p: Seq<u8>) -> bool;

/// The compressed encoding of the scalar multiple of the standard generator.
pub uninterp spec fn g_mul_of(k: Seq<u8>) -> Seq<u8>;

/// The compressed encoding of the scalar multiple of an encoded point.
pub uninterp spec fn ec_mul_of(p: Seq<u8>, k: Seq<u8>) -> Seq<u8>;

/// The compressed encoding of the sum of two encoded points.
pub uninterp spec fn ec_add_of(p: Seq<u8>, q: Seq<u8>) -> Seq<u8>;

/// The compressed encoding of the negation of an encoded point.
pub uninterp spec fn ec_neg_of(p: Seq<u8>) -> Seq<u8>;

/// Relies on bitcoin_hashes::sha256::Hash::hash: the digest is 32 bytes and
/// depends on the input bytes alone.
#[verifier::external_body]
pub fn sha256(data: &[u8]) -> (r: Vec<u8>)
    ensures
        r@ == sha256_of(data@),
        r@.len() == 32,
{
    bitcoin_hashes::sha256::Hash::hash(data).to_byte_array().to_vec()
}

/// Relies on secp256k1::SecretKey::to_secret_bytes, which returns the key's
/// 32-byte representation; a secret key is always a nonzero scalar below the
/// group order.
#[verifier::external_body]
pub fn sk_to_bytes(k: &secp256k1::SecretKey) -> (r: Vec<u8>)
    ensures
        r@ == sk_bytes(*k),
        sk_ok(r@),
{
    k.to_secret_bytes().to_vec()
}

/// Relies on secp256k1::SecretKey::from_secret_bytes, which accepts exactly
/// the nonzero 32-byte scalars below the group order.
#[verifier::external_body]
pub fn sk_from_bytes(b: &[u8]) -> (r: Option<secp256k1::SecretKey>)
    requires
        b@.len() == 32,
    ensures
        r.is_some() <==> sk_ok(b@),
        r matches Some(k) ==> sk_bytes(k) == b@,
{
    secp256k1::SecretKey::from_secret_bytes(b.try_into().unwrap()).ok()
}

/// Relies on secp256k1::SecretKey::add_tweak: addition modulo the group
/// order, failing exactly when the result would be zero.
#[verifier::external_body]
pub fn scalar_add(a: &[u8], b: &[u8]) -> (r: Option<Vec<u8>>)
    requires
        a@.len() == 32,
        b@.len() == 32,
    ensures
        r.is_some() <==> (sk_ok(a@) && sc_ok(b@) && mod_n((be_int(a@) + be_int(b@)) as nat) != 0),
        r matches Some(c) ==> c@.len() == 32 && be_int(c@) == mod_n((be_int(a@) + be_int(b@)) as nat),
    {
    let sa = match secp256k1::SecretKey::from_secret_bytes(a.try_into().unwrap()) {
        Ok(x) => x,
        Err(_) => return None,
    };
    let sb = match secp256k1::Scalar::from_be_bytes(b.try_into().unwrap()) {
        Ok(x) => x,
        Err(_) => return None,
    };
    match sa.add_tweak(&sb) {
        Ok(x) => Some(x.to_secret_bytes().to_vec()),
        Err(_) => None,
    }
}

/// Relies on secp256k1::SecretKey::mul_tweak: multiplication modulo the group
/// order, failing exactly when the result would be zero.
#[verifier::external_body]
pub fn scalar_mul(a: &[u8], b: &[u8]) -> (r: Option<Vec<u8>>)
    requires
        a@.len() == 32,
        b@.len() == 32,
    ensures
        r.is_some() <==> (sk_ok(a@) && sc_ok(b@) && mod_n((be_int(a@) * be_int(b@)) as nat) != 0),
        r matches Some(c) ==> c@.len() == 32 && be_int(c@) == mod_n((be_int(a@) * be_int(b@)) as nat),
    {
    let sa = match secp256k1::SecretKey::from_secret_bytes(a.try_into().unwrap()) {
        Ok(x) => x,
        Err(_) => return None,
    };
    let sb = match secp256k1::Scalar::from_be_bytes(b.try_into().unwrap()) {
        Ok(x) => x,
        Err(_) => return None,
    };
    match sa.mul_tweak(&sb) {
        Ok(x) => Some(x.to_secret_bytes().to_vec()),
        Err(_) => None,
    }
}

/// Relies on secp256k1::SecretKey::negate: negation modulo the group order.
#[verifier::external_body]
pub fn scalar_negate(a: &[u8]) -> (r: Option<Vec<u8>>)
    requires
        a@.len() == 32,
    ensures
        r.is_some() <==> sk_ok(a@),
        r matches Some(c) ==> c@.len() == 32 && be_int(c@) == group_order() - be_int(a@),
    {
    match secp256k1::SecretKey::from_secret_bytes(a.try_into().unwrap()) {
        Ok(x) => Some(x.negate().to_secret_bytes().to_vec()),
        Err(_) => None,
    }
}

/// Relies on secp256k1::PublicKey::from_secret_key and
/// secp256k1::PublicKey::serialize: the compressed encoding of k*G depends on
/// the scalar alone, the construction is infallible for a valid key, and the
/// serialized form parses back.
#[verifier::external_body]
pub fn point_from_scalar(k: &[u8]) -> (r: Option<Vec<u8>>)
    requires
        k@.len() == 32,
    ensures
        r.is_some() <==> sk_ok(k@),
        r matches Some(p) ==> p@ == g_mul_of(k@) && p@.len() == 33 && point_ok(p@),
    {
    match secp256k1::SecretKey::from_secret_bytes(k.try_into().unwrap()) {
        Ok(x) => Some(secp256k1::PublicKey::from_secret_key(&x).serialize().to_vec()),
        Err(_) => None,
    }
}

/// Relies on secp256k1::PublicKey::mul_tweak: scalar multiplication of a
/// point, a function of the encoded point and the scalar alone.  It fails
/// exactly when the point bytes do not parse or the scalar is zero or not
/// below the group order; the result parses back.
#[verifier::external_body]
pub fn point_mul(p: &[u8], k: &[u8]) -> (r: Option<Vec<u8>>)
    requires
        p@.len() == 33,
        k@.len() == 32,
    ensures
        r.is_some() <==> (point_ok(p@) && sk_ok(k@)),
        r matches Some(c) ==> c@ == ec_mul_of(p@, k@) && c@.len() == 33 && point_ok(c@),
    {
    let pt = match secp256k1::PublicKey::from_slice(p) {
        Ok(x) => x,
        Err(_) => return None,
    };
    let sc = match secp256k1::Scalar::from_be_bytes(k.try_into().unwrap()) {
        Ok(x) => x,
        Err(_) => return None,
    };
    match pt.mul_tweak(&sc) {
        Ok(x) => Some(x.serialize().to_vec()),
        Err(_) => None,
    }
}

/// Relies on secp256k1::PublicKey::combine: point addition, a function of
/// the two encoded points alone.  It fails exactly when a point does not
/// parse or the sum is the point at infinity, that is, when the second point
/// is the first's negation (compressed encodings are canonical); the result
/// parses back.
#[verifier::external_body]
pub fn point_add(p: &[u8], q: &[u8]) -> (r: Option<Vec<u8>>)
    requires
        p@.len() == 33,
        q@.len() == 33,
    ensures
        r.is_some() <==> (point_ok(p@) && point_ok(q@) && q@ != ec_neg_of(p@)),
        r matches Some(c) ==> c@ == ec_add_of(p@, q@) && c@.len() == 33 && point_ok(c@),
    {
    let pp = match secp256k1::PublicKey::from_slice(p) {
        Ok(x) => x,
        Err(_) => return None,
    };
    let pq = match secp256k1::PublicKey::from_slice(q) {
        Ok(x) => x,
        Err(_) => return None,
    };
    match pp.combine(&pq) {
        Ok(x) => Some(x.serialize().to_vec()),
        Err(_) => None,
    }
}

/// Relies on secp256k1::PublicKey::negate: point negation, a function of the
/// encoded point alone, failing exactly when the point bytes do not parse;
/// the result parses back.
#[verifier::external_body]
pub fn point_negate(p: &[u8]) -> (r: Option<Vec<u8>>)
    requires
        p@.len() == 33,
    ensures
        r.is_some() <==> point_ok(p@),
        r matches Some(c) ==> c@ == ec_neg_of(p@) && c@.len() == 33 && point_ok(c@),
    {
    match secp256k1::PublicKey::from_slice(p) {
        Ok(x) => Some(x.negate().serialize().to_vec()),
        Err(_) => None,
    }
}

} // verus!
