//! Which intervals of addresses are CIDR blocks.

use crate::be;
use vstd::prelude::*;
use vstd::arithmetic::div_mod::*;
use vstd::arithmetic::power2::*;

verus! {

/// The low 128 bits of the number that `s` spells.
pub open spec fn low128(s: Seq<u8>) -> nat {
    be::be_value(s) % pow2(128)
}

/// Whether `l` to `h`, both ends counted in, is a block of `2` to the power
/// `n` numbers that starts at a multiple of its size.
pub open spec fn is_block(l: nat, h: nat, n: nat) -> bool {
    h + 1 == l + pow2(n) && l % pow2(n) == 0
}

/// The number of host bits of the block from `low` to `high`, if the two ends
/// have one non-zero length and are those of a block.
pub open spec fn host_bits(low: Seq<u8>, high: Seq<u8>) -> Option<nat> {
    if low.len() > 0 && low.len() == high.len() && exists|n: nat|
        is_block(low128(low), low128(high), n) {
        Some(choose|n: nat| is_block(low128(low), low128(high), n))
    } else {
        None
    }
}

/// The width in bits of an address of `len` bytes, as a 32-bit number.
pub open spec fn width(len: nat) -> nat {
    (len * 8) % 0x1_0000_0000
}

/// The network address, the prefix length and the width in bits of the CIDR
/// block from `low` to `high`, if they are the ends of one.
pub open spec fn cidr(low: Seq<u8>, high: Seq<u8>) -> Option<(Seq<u8>, nat, nat)> {
    match host_bits(low, high) {
        None => None,
        Some(n) => {
            let bits = width(low.len());
            Some((low, if n <= bits { (bits - n) as nat } else { 0 }, bits))
        },
    }
}

/// Different exponents give different powers of two.
pub proof fn lemma_pow2_injective(a: nat, b: nat)
    requires
        pow2(a) == pow2(b),
    ensures
        a == b,
{
    if a < b {
        lemma_pow2_strictly_increases(a, b);
    } else if b < a {
        lemma_pow2_strictly_increases(b, a);
    }
}

/// The host bits of a block are those that its ends determine.
pub proof fn lemma_host_bits(low: Seq<u8>, high: Seq<u8>, n: nat)
    requires
        low.len() > 0,
        low.len() == high.len(),
        is_block(low128(low), low128(high), n),
    ensures
        host_bits(low, high) == Some(n),
{
    let m = choose|m: nat| is_block(low128(low), low128(high), m);
    lemma_pow2_injective(n, m);
}

/// Decodes a big-endian unsigned number; of more than 16 bytes the last 16 count.
pub fn be_int(bytes: &[u8]) -> (r: u128)
    ensures
        r as nat == low128(bytes@),
{
    let mut v: u128 = 0;
    let mut i: usize = 0;
    proof {
        lemma_pow2_128();
        assert(bytes@.take(0) =~= Seq::<u8>::empty());
    }
    while i < bytes.len()
        invariant
            i <= bytes@.len(),
            v as nat == low128(bytes@.take(i as int)),
        decreases bytes.len() - i,
    {
        let b = bytes[i];
        proof {
            lemma_pow2_128();
            let s = bytes@.take(i + 1);
            assert(s.drop_last() =~= bytes@.take(i as int));
            assert(s.last() == b);
            let x = be::be_value(bytes@.take(i as int)) as int;
            let m = 0x1_0000_0000_0000_0000_0000_0000_0000_00int;
            assert(m * 256 == pow2(128));
            lemma_mod_mod(x, m, 256);
            assert((x * 256 + b) % (m * 256) == (x % m) * 256 + b) by {
                lemma_shifted_byte(x, m, b as int);
            }
            assert((x % (m * 256)) % m == x % m);
        }
        v = (v % 0x1_0000_0000_0000_0000_0000_0000_0000_00) * 256 + b as u128;
        i = i + 1;
    }
    assert(bytes@.take(i as int) =~= bytes@);
    v
}

proof fn lemma_pow2_128()
    ensures
        pow2(128) == 0x1_0000_0000_0000_0000_0000_0000_0000_0000,
{
    lemma_pow2_adds(64, 64);
    lemma2_to64();
}

proof fn lemma_shifted_byte(x: int, m: int, b: int)
    requires
        0 <= x,
        0 < m,
        0 <= b < 256,
    ensures
        (x * 256 + b) % (m * 256) == (x % m) * 256 + b,
{
    let q = x / m;
    let r = x % m;
    lemma_fundamental_div_mod(x, m);
    lemma_mod_bound(x, m);
    assert(x * 256 + b == q * (m * 256) + (r * 256 + b)) by (nonlinear_arith)
        requires
            x == m * q + r,
    ;
    lemma_fundamental_div_mod_converse(x * 256 + b, m * 256, q, r * 256 + b);
}

/// Whether `d` is one less than a power of two.
pub open spec fn is_low_mask(d: nat) -> bool {
    exists|n: nat| #[trigger] pow2(n) == d + 1
}

/// A number shares no bit with its successor just when it is one less than a power of two.
proof fn lemma_low_mask_bits(d: u128)
    ensures
        (d & ((d + 1) as u128)) == 0 <==> is_low_mask(d as nat),
    decreases d,
{
    if d == 0 {
        assert(0u128 & 1u128 == 0) by (bit_vector);
        lemma2_to64();
        assert(pow2(0) == d + 1);
    } else if d % 2 == 0 {
        assert((d & ((d + 1) as u128)) == d) by (bit_vector)
            requires
                d % 2 == 0,
        ;
        assert forall|n: nat| #[trigger] pow2(n) != d + 1 by {
            if n == 0 {
                lemma2_to64();
            } else {
                lemma_pow2_unfold(n);
            }
        }
    } else {
        let e = d / 2;
        assert(((d & ((d + 1) as u128)) == 0) == ((e & ((e + 1) as u128)) == 0)) by (bit_vector)
            requires
                d % 2 == 1,
                e == d / 2,
        ;
        lemma_low_mask_bits(e);
        if is_low_mask(e as nat) {
            let n = choose|n: nat| #[trigger] pow2(n) == e + 1;
            lemma_pow2_unfold(n + 1);
            assert(pow2(n + 1) == d + 1);
        }
        if is_low_mask(d as nat) {
            let n = choose|n: nat| #[trigger] pow2(n) == d + 1;
            lemma2_to64();
            lemma_pow2_unfold(n);
            assert(pow2((n - 1) as nat) == e + 1);
        }
    }
}

/// Tests whether the bits in which two ends of a range differ are one block of
/// low bits, that is, whether `diff` is one less than a power of two.
pub fn range_is_prefix(diff: u128) -> (r: bool)
    ensures
        r == is_low_mask(diff as nat),
{
    let plus1 = diff.wrapping_add(1);
    proof {
        lemma_low_mask_bits(diff);
        assert(diff == u128::MAX ==> ((diff + 1) as u128) == 0) by (bit_vector);
    }
    (diff & plus1) == 0
}

/// The number of one bits in a number that is one less than a power of two.
fn mask_bits(diff: u128) -> (r: u32)
    requires
        is_low_mask(diff as nat),
    ensures
        r <= 128,
        pow2(r as nat) == diff + 1,
{
    let mut d: u128 = diff;
    let mut n: u32 = 0;
    let ghost m = choose|m: nat| #[trigger] pow2(m) == diff + 1;
    proof {
        lemma_pow2_128();
        if m > 128 {
            lemma_pow2_strictly_increases(128, m);
        }
    }
    while d > 0
        invariant
            n <= m <= 128,
            d + 1 == pow2((m - n) as nat),
        decreases d,
    {
        proof {
            lemma2_to64();
            lemma_pow2_unfold((m - n) as nat);
        }
        d = d / 2;
        n = n + 1;
    }
    proof {
        lemma2_to64();
        lemma_pow2_injective((m - n) as nat, 0);
    }
    n
}

/// Recovers the CIDR block whose first address is `low` and whose last is `high`.
///
/// Returns the network address, the prefix length and the width in bits, or
/// `None` where the two are not the ends of a block.
pub fn interval_to_cidr(low: &[u8], high: &[u8]) -> (r: Option<(Vec<u8>, u32, u32)>)
    ensures
        match cidr(low@, high@) {
            None => r is None,
            Some((addr, plen, bits)) => r matches Some(t) && t.0@ == addr && t.1 == plen && t.2
                == bits,
        },
{
    if low.len() == 0 || low.len() != high.len() {
        return None;
    }
    let bits: u32 = ((low.len() % 0x2000_0000) * 8) as u32;
    let l = be_int(low);
    let h = be_int(high);
    proof {
        assert forall|n: nat| is_block(l as nat, h as nat, n) implies l <= h && pow2(n) == h - l + 1
            && is_low_mask((h - l) as nat) by {
            lemma_pow2_pos(n);
        }
        lemma_pow2_128();
    }
    if h < l {
        return None;
    }
    let diff = h - l;
    if !range_is_prefix(diff) {
        return None;
    }
    let host = mask_bits(diff);
    let aligned = if diff == u128::MAX {
        l == 0
    } else {
        l % (diff + 1) == 0
    };
    if !aligned {
        return None;
    }
    proof {
        if diff == u128::MAX {
            lemma_small_mod(0, pow2(host as nat));
        }
        assert(is_block(l as nat, h as nat, host as nat));
        lemma_host_bits(low@, high@, host as nat);
    }
    Some((vstd::slice::slice_to_vec(low), bits.saturating_sub(host), bits))
}

/// Of a long byte string the last 16 bytes count.
pub proof fn lemma_low128_tail(s: Seq<u8>)
    requires
        s.len() >= 16,
    ensures
        low128(s) == be::be_value(s.skip(s.len() - 16)),
{
    let a = s.take(s.len() - 16);
    let b = s.skip(s.len() - 16);
    assert(s =~= a + b);
    be::lemma_be_value_concat(a, b);
    be::lemma_be_value_bound(b);
    lemma_mod_multiples_vanish(be::be_value(a) as int, be::be_value(b) as int, pow2(128) as int);
    lemma_small_mod(be::be_value(b), pow2(128));
    assert(be::be_value(a) * pow2(128) == pow2(128) * be::be_value(a)) by (nonlinear_arith);
}

/// The block that two ends of one length make is that of their low 128 bits; where these
/// make none, or the ends are empty or of different lengths, there is none.
pub proof fn lemma_cidr_low_bits(low: Seq<u8>, high: Seq<u8>, n: nat)
    ensures
        low.len() > 0 && low.len() == high.len() && low128(low) % pow2(n) == 0 && low128(high) + 1
            == low128(low) + pow2(n) ==> cidr(low, high) == Some(
            (
                low,
                if n <= (8 * low.len()) % 0x1_0000_0000 {
                    ((8 * low.len()) % 0x1_0000_0000 - n) as nat
                } else {
                    0
                },
                (8 * low.len()) % 0x1_0000_0000,
            ),
        ),
        cidr(low, high) is Some ==> low.len() > 0 && low.len() == high.len() && exists|m: nat|
            low128(low) % #[trigger] pow2(m) == 0 && low128(high) + 1 == low128(low) + pow2(m),
{
    if low.len() > 0 && low.len() == high.len() && is_block(low128(low), low128(high), n) {
        lemma_host_bits(low, high, n);
    }
    if cidr(low, high) is Some {
        let m = choose|m: nat| is_block(low128(low), low128(high), m);
        assert(low128(low) % pow2(m) == 0);
    }
}

} // verus!
