use vstd::prelude::*;

verus! {

/// Big-endian integer value of a byte sequence.
pub open spec fn be_int(s: Seq<u8>) -> nat
    decreases s.len(),
{
    if s.len() == 0 {
        0
    } else {
        (be_int(s.drop_last()) * 256 + s.last()) as nat
    }
}

/// Two equally long byte sequences with the same big-endian value are equal.
pub proof fn lemma_be_int_injective(a: Seq<u8>, b: Seq<u8>)
    requires
        a.len() == b.len(),
        be_int(a) == be_int(b),
    ensures
        a == b,
    decreases a.len(),
{
    if a.len() > 0 {
        let x = be_int(a.drop_last());
        let y = be_int(b.drop_last());
        let la = a.last();
        let lb = b.last();
        assert(x == y && la == lb) by (nonlinear_arith)
            requires
                x * 256 + la == y * 256 + lb,
                la < 256,
                lb < 256,
                x >= 0,
                y >= 0,
        ;
        lemma_be_int_injective(a.drop_last(), b.drop_last());
        assert forall|i: int| 0 <= i < a.len() implies a[i] == b[i] by {
            if i < a.len() - 1 {
                assert(a[i] == a.drop_last()[i]);
                assert(b[i] == b.drop_last()[i]);
            } else {
                assert(a[i] == a.last() && b[i] == b.last());
            }
        }
        assert(a =~= b);
    } else {
        assert(a =~= b);
    }
}

/// Powers of ten.
pub open spec fn pow10(e: nat) -> nat
    decreases e,
{
    if e == 0 {
        1
    } else {
        10 * pow10((e - 1) as nat)
    }
}

pub proof fn lemma_pow10_monotone(a: nat, b: nat)
    requires
        a <= b,
    ensures
        pow10(a) <= pow10(b),
        pow10(a) >= 1,
    decreases b,
{
    if a == b {
        lemma_pow10_pos(a);
    } else {
        lemma_pow10_monotone(a, (b - 1) as nat);
    }
}

pub proof fn lemma_pow10_pos(a: nat)
    ensures
        pow10(a) >= 1,
    decreases a,
{
    if a > 0 {
        lemma_pow10_pos((a - 1) as nat);
    }
}

/// The byte at position `i` (from the most significant end) of the
/// big-endian encoding of `v`.
pub open spec fn u64_be_byte(v: u64, i: int) -> u8 {
    ((v >> (((7 - i) * 8) as u64)) & 0xff) as u8
}

/// Eight-byte big-endian encoding of a 64-bit integer.
pub open spec fn u64_be(v: u64) -> Seq<u8> {
    Seq::new(8, |i: int| u64_be_byte(v, i))
}

/// The 64-bit integer read from eight big-endian bytes.
pub open spec fn u64_of_be(s: Seq<u8>) -> u64 {
    ((s[0] as u64) << 56) | ((s[1] as u64) << 48) | ((s[2] as u64) << 40) | ((s[3] as u64) << 32)
        | ((s[4] as u64) << 24) | ((s[5] as u64) << 16) | ((s[6] as u64) << 8) | (s[7] as u64)
}

/// Two-byte big-endian encoding of a 16-bit integer.
pub open spec fn u16_be(v: u16) -> Seq<u8> {
    seq![((v >> 8) & 0xff) as u8, (v & 0xff) as u8]
}

/// The 16-bit integer read from two big-endian bytes.
pub open spec fn u16_of_be(s: Seq<u8>) -> u16 {
    ((s[0] as u16) << 8) | (s[1] as u16)
}

/// Decoding a big-endian encoding gives the value back.
pub proof fn lemma_u64_be_roundtrip(v: u64)
    ensures
        u64_of_be(u64_be(v)) == v,
{
    let s = u64_be(v);
    assert(s[0] == ((v >> 56) & 0xff) as u8);
    assert(s[1] == ((v >> 48) & 0xff) as u8);
    assert(s[2] == ((v >> 40) & 0xff) as u8);
    assert(s[3] == ((v >> 32) & 0xff) as u8);
    assert(s[4] == ((v >> 24) & 0xff) as u8);
    assert(s[5] == ((v >> 16) & 0xff) as u8);
    assert(s[6] == ((v >> 8) & 0xff) as u8);
    assert(s[7] == ((v >> 0) & 0xff) as u8);
    assert(((((v >> 56) & 0xff) as u8 as u64) << 56) | ((((v >> 48) & 0xff) as u8 as u64) << 48)
        | ((((v >> 40) & 0xff) as u8 as u64) << 40) | ((((v >> 32) & 0xff) as u8 as u64) << 32)
        | ((((v >> 24) & 0xff) as u8 as u64) << 24) | ((((v >> 16) & 0xff) as u8 as u64) << 16)
        | ((((v >> 8) & 0xff) as u8 as u64) << 8) | (((v >> 0) & 0xff) as u8 as u64) == v)
        by (bit_vector);
}

/// Decoding a two-byte big-endian encoding gives the value back.
pub proof fn lemma_u16_be_roundtrip(v: u16)
    ensures
        u16_of_be(u16_be(v)) == v,
{
    let s = u16_be(v);
    assert(s[0] == ((v >> 8) & 0xff) as u8);
    assert(s[1] == (v & 0xff) as u8);
    assert(((((v >> 8) & 0xff) as u8 as u16) << 8) | ((v & 0xff) as u8 as u16) == v)
        by (bit_vector);
}

/// Masking twice with the same byte gives the original byte back.
pub proof fn lemma_xor_involution(x: u8, y: u8)
    ensures
        (x ^ y) ^ y == x,
{
    assert((x ^ y) ^ y == x) by (bit_vector);
}

pub fn u64_to_be_vec(v: u64) -> (r: Vec<u8>)
    ensures
        r@ == u64_be(v),
{
    let mut r: Vec<u8> = Vec::new();
    r.push(((v >> 56) & 0xff) as u8);
    r.push(((v >> 48) & 0xff) as u8);
    r.push(((v >> 40) & 0xff) as u8);
    r.push(((v >> 32) & 0xff) as u8);
    r.push(((v >> 24) & 0xff) as u8);
    r.push(((v >> 16) & 0xff) as u8);
    r.push(((v >> 8) & 0xff) as u8);
    r.push((v & 0xff) as u8);
    proof {
        assert(v & 0xff == (v >> 0) & 0xff) by (bit_vector);
        assert(r@ =~= u64_be(v));
    }
    r
}

pub fn u64_from_be(s: &[u8]) -> (r: u64)
    requires
        s@.len() == 8,
    ensures
        r == u64_of_be(s@),
{
    ((s[0] as u64) << 56) | ((s[1] as u64) << 48) | ((s[2] as u64) << 40) | ((s[3] as u64) << 32)
        | ((s[4] as u64) << 24) | ((s[5] as u64) << 16) | ((s[6] as u64) << 8) | (s[7] as u64)
}

pub fn u16_to_be_vec(v: u16) -> (r: Vec<u8>)
    ensures
        r@ == u16_be(v),
{
    let mut r: Vec<u8> = Vec::new();
    r.push(((v >> 8) & 0xff) as u8);
    r.push((v & 0xff) as u8);
    proof {
        assert(r@ =~= u16_be(v));
    }
    r
}

pub fn u16_from_be(s: &[u8]) -> (r: u16)
    requires
        s@.len() == 2,
    ensures
        r == u16_of_be(s@),
{
    ((s[0] as u16) << 8) | (s[1] as u16)
}

/// Byte-wise exclusive or of two equally long slices.
pub fn xor_bytes(a: &[u8], b: &[u8]) -> (r: Vec<u8>)
    requires
        a@.len() == b@.len(),
    ensures
        r@.len() == a@.len(),
        forall|i: int| 0 <= i < r@.len() ==> r@[i] == (a@[i] ^ b@[i]),
{
    let mut r: Vec<u8> = Vec::new();
    let mut i: usize = 0;
    while i < a.len()
        invariant
            i <= a@.len(),
            a@.len() == b@.len(),
            r@.len() == i,
            forall|j: int| 0 <= j < i ==> r@[j] == (a@[j] ^ b@[j]),
        decreases a@.len() - i,
    {
        r.push(a[i] ^ b[i]);
        i = i + 1;
    }
    r
}

/// True exactly when the two slices hold the same bytes.
pub fn bytes_eq(a: &[u8], b: &[u8]) -> (r: bool)
    ensures
        r <==> a@ == b@,
{
    if a.len() != b.len() {
        proof {
            assert(a@.len() != b@.len());
        }
        return false;
    }
    let mut i: usize = 0;
    while i < a.len()
        invariant
            i <= a@.len(),
            a@.len() == b@.len(),
            forall|j: int| 0 <= j < i ==> a@[j] == b@[j],
        decreases a@.len() - i,
    {
        if a[i] != b[i] {
            proof {
                assert(a@[i as int] != b@[i as int]);
            }
            return false;
        }
        i = i + 1;
    }
    proof {
        assert(a@ =~= b@);
    }
    true
}

pub fn pow10_u64(e: u32) -> (r: u64)
    requires
        e <= 18,
    ensures
        r as nat == pow10(e as nat),
        r >= 1,
{
    let mut acc: u64 = 1;
    let mut i: u32 = 0;
    while i < e
        invariant
            i <= e,
            e <= 18,
            acc as nat == pow10(i as nat),
        decreases e - i,
    {
        proof {
            lemma_pow10_monotone(i as nat, 17);
            assert(pow10(17) == 100000000000000000nat) by {
                reveal_with_fuel(pow10, 18);
            }
        }
        acc = acc * 10;
        i = i + 1;
    }
    proof {
        lemma_pow10_monotone(0, e as nat);
    }
    acc
}

} // verus!
