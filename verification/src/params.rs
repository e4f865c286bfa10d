use vstd::prelude::*;

use crate::bytes::{pow10, lemma_pow10_monotone, pow10_u64};
use vstd::arithmetic::power2::{
    pow2,
    lemma2_to64,
    lemma2_to64_rest,
    lemma_pow2_adds,
    lemma_pow2_strictly_increases,
};

verus! {

/// Largest exponent accepted by the protocol.
pub const MAX_EXP: i32 = 18;

/// Largest number of hidden mantissa bits.
pub const MAX_MANTISSA: u32 = 63;

/// Largest embedded message, in bytes.
pub const MSG_CAPACITY: usize = 64;

/// Powers of four.
pub open spec fn pow4(e: nat) -> nat
    decreases e,
{
    if e == 0 {
        1
    } else {
        4 * pow4((e - 1) as nat)
    }
}

pub proof fn lemma_pow4_pos(e: nat)
    ensures
        pow4(e) >= 1,
    decreases e,
{
    if e > 0 {
        lemma_pow4_pos((e - 1) as nat);
    }
}

/// pow2 of an even number is pow4 of its half.
pub proof fn lemma_pow2_pow4(k: nat)
    ensures
        pow2(2 * k) == pow4(k),
    decreases k,
{
    if k == 0 {
        lemma2_to64();
    } else {
        lemma_pow2_pow4((k - 1) as nat);
        lemma_pow2_adds(2 * (k - 1) as nat, 2);
        lemma2_to64();
        assert(2 * k == 2 * ((k - 1) as nat) + 2);
    }
}

/// Number of binary digits of a value.
pub open spec fn bitlen(v: nat) -> nat
    decreases v,
{
    if v == 0 {
        0
    } else {
        1 + bitlen(v / 2)
    }
}

/// Every value is below two to its bit length.
pub proof fn lemma_bitlen_bound(v: nat)
    ensures
        v < pow2(bitlen(v)),
    decreases v,
{
    if v == 0 {
        lemma2_to64();
    } else {
        lemma_bitlen_bound(v / 2);
        lemma_pow2_adds((bitlen(v / 2)), 1);
        lemma2_to64();
        assert(v == 2 * (v / 2) + v % 2) by (nonlinear_arith);
        assert(v % 2 < 2) by (nonlinear_arith);
    }
}

/// A value below a power of two has at most that many binary digits.
pub proof fn lemma_bitlen_le(v: nat, b: nat)
    requires
        v < pow2(b),
    ensures
        bitlen(v) <= b,
    decreases v,
{
    if v > 0 {
        lemma2_to64();
        if b == 0 {
            assert(pow2(0) == 1);
        }
        lemma_pow2_adds((b - 1) as nat, 1);
        assert(v / 2 < pow2((b - 1) as nat)) by (nonlinear_arith)
            requires
                v < pow2((b - 1) as nat) * 2,
        ;
        lemma_bitlen_le(v / 2, (b - 1) as nat);
    }
}

/// The decimal scale the exponent selects; a negative exponent hides
/// everything and scales by one.
pub open spec fn scale_of(exp: i32) -> nat {
    if exp >= 0 {
        pow10(exp as nat)
    } else {
        1
    }
}

/// The part of `value - min_value` that the proof hides.
pub open spec fn hidden_of(min_value: u64, value: u64, exp: i32) -> nat {
    ((value - min_value) as nat) / scale_of(exp)
}

/// The publicly revealed lower bound carried in the proof header:
/// `min_value` plus the revealed low decimal digits.
pub open spec fn mpub_of(min_value: u64, value: u64, exp: i32) -> nat {
    (min_value + ((value - min_value) as nat) % scale_of(exp)) as nat
}

/// The number of hidden mantissa bits the proof commits to.
pub open spec fn mantissa_of(min_value: u64, value: u64, exp: i32, min_bits: u8) -> nat {
    if exp == -1 {
        63
    } else {
        let needed = bitlen(hidden_of(min_value, value, exp));
        let wanted: nat = if min_bits > 63 {
            63
        } else {
            min_bits as nat
        };
        if needed <= 1 && wanted <= 1 {
            1
        } else if needed >= wanted {
            needed
        } else {
            wanted
        }
    }
}

/// The largest value consistent with a proof over `mantissa` hidden bits.
pub open spec fn max_of(mpub: nat, mantissa: nat, scale: nat) -> int {
    mpub + (pow2(mantissa) - 1) * scale
}

/// The signing parameters the protocol accepts: the committed value is at
/// least the lower bound, the exponent and message length are in range, the
/// hidden part fits in the mantissa, and the implied upper bound fits `u64`.
pub open spec fn params_ok(
    min_value: u64,
    value: u64,
    exp: i32,
    min_bits: u8,
    msg_len: nat,
) -> bool {
    &&& value >= min_value
    &&& -1 <= exp <= MAX_EXP
    &&& min_bits <= 64
    &&& msg_len <= MSG_CAPACITY
    &&& bitlen(hidden_of(min_value, value, exp)) <= 63
    &&& max_of(
        mpub_of(min_value, value, exp),
        mantissa_of(min_value, value, exp, min_bits),
        scale_of(exp),
    ) < u64::MAX
}

/// Number of rings over a mantissa of `m` bits: two bits per ring, with a
/// final one-bit ring when `m` is odd.
pub open spec fn rings_of(m: nat) -> nat {
    (m + 1) / 2
}

/// Number of members of the last ring.
pub open spec fn last_size_of(m: nat) -> nat {
    if m % 2 == 0 {
        4
    } else {
        2
    }
}

/// Number of members of ring `i`.
pub open spec fn ring_size_of(m: nat, i: nat) -> nat {
    if i + 1 == rings_of(m) {
        last_size_of(m)
    } else {
        4
    }
}

/// Total number of ring-signature scalars over all rings.
pub open spec fn nsvals_of(m: nat) -> nat {
    (4 * (rings_of(m) - 1) + last_size_of(m)) as nat
}

/// Value reconstructed from base-4 digits, least significant first.
pub open spec fn digits_value(ds: Seq<u8>) -> nat
    decreases ds.len(),
{
    if ds.len() == 0 {
        0
    } else {
        (ds[0] + 4 * digits_value(ds.drop_first())) as nat
    }
}

proof fn lemma_digits_value_push(ds: Seq<u8>, d: u8)
    ensures
        digits_value(ds.push(d)) == digits_value(ds) + d * pow4(ds.len()),
    decreases ds.len(),
{
    if ds.len() == 0 {
        assert(ds.push(d).drop_first() =~= Seq::<u8>::empty());
        assert(digits_value(Seq::<u8>::empty()) == 0);
        assert(ds.push(d)[0] == d);
        assert(digits_value(ds.push(d)) == d);
        assert(pow4(0) == 1);
    } else {
        assert(ds.push(d).drop_first() =~= ds.drop_first().push(d));
        lemma_digits_value_push(ds.drop_first(), d);
        let a = digits_value(ds.drop_first());
        let p = pow4((ds.len() - 1) as nat);
        assert(digits_value(ds.push(d)) == ds[0] + 4 * (a + d * p));
        assert(4 * (a + d * p) == 4 * a + d * (4 * p)) by (nonlinear_arith);
        assert(pow4(ds.len()) == 4 * p);
    }
}

/// Exponentiation of two, executable.
#[verifier::loop_isolation(false)]
pub fn pow2_u64(e: u32) -> (r: u64)
    requires
        e <= 63,
    ensures
        r as nat == pow2(e as nat),
        r >= 1,
{
    proof {
        lemma2_to64();
        lemma2_to64_rest();
    }
    let mut acc: u64 = 1;
    let mut i: u32 = 0;
    proof {
        assert(pow2(0) == 1);
    }
    while i < e
        invariant
            i <= e,
            acc as nat == pow2(i as nat),
        decreases e - i,
    {
        proof {
            if (i as nat) < 62 {
                lemma_pow2_strictly_increases(i as nat, 62);
            }
            lemma_pow2_adds(i as nat, 1);
        }
        acc = acc * 2;
        i = i + 1;
    }
    acc
}

/// Number of binary digits, executable.
#[verifier::loop_isolation(false)]
pub fn bitlen_u64(v: u64) -> (r: u32)
    ensures
        r as nat == bitlen(v as nat),
        r <= 64,
{
    proof {
        lemma2_to64();
        lemma2_to64_rest();
        lemma_bitlen_le(v as nat, 64);
    }
    let mut n: u32 = 0;
    let mut q: u64 = v;
    while q > 0
        invariant
            bitlen(v as nat) == n + bitlen(q as nat),
        decreases q,
    {
        proof {
            assert(bitlen(q as nat) == 1 + bitlen((q as nat) / 2));
        }
        q = q / 2;
        n = n + 1;
    }
    n
}

/// Base-4 digits of the hidden value, least significant first, with the
/// weighted sum reconstructing the value exactly.
#[verifier::loop_isolation(false)]
pub fn decompose(vh: u64, rings: usize, m: u32) -> (ds: Vec<u8>)
    requires
        1 <= m <= 63,
        rings == rings_of(m as nat),
        (vh as nat) < pow2(m as nat),
    ensures
        ds@.len() == rings,
        forall|i: int| 0 <= i < rings ==> ds@[i] < ring_size_of(m as nat, i as nat),
        digits_value(ds@) == vh,
{
    let mut ds: Vec<u8> = Vec::new();
    let mut q: u64 = vh;
    let mut i: usize = 0;
    proof {
        lemma_pow4_pos(rings as nat);
        assert(pow4(0) == 1);
        assert(digits_value(ds@) == 0);
    }
    while i < rings
        invariant
            i <= rings,
            ds@.len() == i,
            forall|j: int| 0 <= j < i ==> ds@[j] < 4,
            vh == digits_value(ds@) + (q as nat) * pow4(i as nat),
            digits_value(ds@) < pow4(i as nat),
        decreases rings - i,
    {
        let d: u8 = (q % 4) as u8;
        proof {
            let p = pow4(i as nat);
            lemma_pow4_pos(i as nat);
            assert(q == 4 * (q / 4) + q % 4) by (nonlinear_arith);
            assert((4 * (q as nat / 4) + (q as nat) % 4) * p == (q as nat / 4) * (4 * p) + ((
            q as nat) % 4) * p) by (nonlinear_arith);
            lemma_digits_value_push(ds@, d);
            assert(pow4((i + 1) as nat) == 4 * p);
            assert(digits_value(ds@) + (d as nat) * p < 4 * p) by (nonlinear_arith)
                requires
                    digits_value(ds@) < p,
                    (d as nat) < 4,
                    p >= 1,
            ;
        }
        ds.push(d);
        q = q / 4;
        i = i + 1;
    }
    proof {
        let p = pow4(rings as nat);
        let mn = m as nat;
        lemma_pow4_pos(rings as nat);
        if mn % 2 == 0 {
            lemma_pow2_pow4(mn / 2);
            assert(2 * (mn / 2) == mn);
            assert((vh as nat) < p);
        } else {
            lemma_pow2_pow4((mn + 1) / 2);
            assert(2 * ((mn + 1) / 2) == mn + 1);
            lemma_pow2_strictly_increases(mn, mn + 1);
            assert((vh as nat) < p);
        }
        assert((q as nat) * p <= vh) by (nonlinear_arith)
            requires
                vh == digits_value(ds@) + (q as nat) * p,
                digits_value(ds@) >= 0,
        ;
        assert(q == 0) by (nonlinear_arith)
            requires
                (q as nat) * p <= (vh as nat),
                (vh as nat) < p,
                p >= 1,
        ;
        if mn % 2 == 1 {
            lemma_last_digit_small(ds@, mn);
        }
    }
    ds
}

/// When the mantissa is odd the top digit fits in one bit.
proof fn lemma_last_digit_small(ds: Seq<u8>, m: nat)
    requires
        m % 2 == 1,
        1 <= m <= 63,
        ds.len() == rings_of(m),
        forall|j: int| 0 <= j < ds.len() ==> ds[j] < 4,
        digits_value(ds) < pow2(m),
    ensures
        ds[ds.len() - 1] < 2,
    decreases m,
{
    lemma2_to64();
    if m == 1 {
        assert(ds.len() == 1);
        assert(digits_value(ds) == ds[0] + 4 * digits_value(ds.drop_first()));
        assert(digits_value(ds) < 2);
    } else {
        let tail = ds.drop_first();
        assert(digits_value(ds) == ds[0] + 4 * digits_value(tail));
        lemma_pow2_adds((m - 2) as nat, 2);
        assert(pow2(m) == pow2((m - 2) as nat) * 4);
        assert(digits_value(tail) < pow2((m - 2) as nat)) by (nonlinear_arith)
            requires
                4 * digits_value(tail) < pow2((m - 2) as nat) * 4,
        ;
        assert(rings_of((m - 2) as nat) == rings_of(m) - 1);
        lemma_last_digit_small(tail, (m - 2) as nat);
        assert(tail[tail.len() - 1] == ds[ds.len() - 1]);
    }
}

/// The decimal scale, executable.
pub fn scale_u64(exp: i32) -> (r: u64)
    requires
        -1 <= exp <= MAX_EXP,
    ensures
        r as nat == scale_of(exp),
        r >= 1,
{
    if exp >= 0 {
        pow10_u64(exp as u32)
    } else {
        proof {
            lemma_pow10_monotone(0, 0);
        }
        1
    }
}

} // verus!
