//! The byte order of numbers on the wire.

use crate::be;
use vstd::endian;
use vstd::prelude::*;
use vstd::arithmetic::power2::*;

verus! {

/// The byte order in which a host holds numbers in memory. Netlink headers are
/// in the byte order of the host.
#[derive(Clone, Copy, Debug, PartialEq, Eq, Structural)]
pub enum ByteOrder {
    Little,
    Big,
}

/// The low `n` bytes of `v` in the given order.
#[verifier::opaque]
pub open spec fn bytes_of(order: ByteOrder, v: nat, n: nat) -> Seq<u8> {
    match order {
        ByteOrder::Big => be::be_bytes(v, n),
        ByteOrder::Little => be::be_bytes(v, n).reverse(),
    }
}

/// The number that the bytes `s` spell in the given order.
pub open spec fn value_of(order: ByteOrder, s: Seq<u8>) -> nat {
    match order {
        ByteOrder::Big => be::be_value(s),
        ByteOrder::Little => be::be_value(s.reverse()),
    }
}

/// A number that fits survives being written in a byte order and read back in it.
pub proof fn lemma_value_of_bytes(order: ByteOrder, v: nat, n: nat)
    requires
        v < pow2(8 * n),
    ensures
        bytes_of(order, v, n).len() == n,
        value_of(order, bytes_of(order, v, n)) == v,
{
    reveal(bytes_of);
    be::lemma_be_value_of_bytes(v, n);
    assert(be::be_bytes(v, n).reverse().reverse() =~= be::be_bytes(v, n));
}

/// Calls `u16::to_ne_bytes`, which gives the two bytes of a number in the order
/// of the host that runs the code. The contract says so, with `endianness` for
/// the order of that host.
#[verifier::external_body]
fn u16_to_ne_bytes(x: u16) -> (r: [u8; 2])
    ensures
        match endian::endianness() {
            endian::Endian::Little => r@ == bytes_of(ByteOrder::Little, x as nat, 2),
            endian::Endian::Big => r@ == bytes_of(ByteOrder::Big, x as nat, 2),
        },
{
    x.to_ne_bytes()
}

impl ByteOrder {
    /// The byte order of the host that runs the code.
    pub fn host() -> (r: ByteOrder)
        ensures
            r == match endian::endianness() {
                endian::Endian::Little => ByteOrder::Little,
                endian::Endian::Big => ByteOrder::Big,
            },
    {
        let b = u16_to_ne_bytes(1);
        proof {
            reveal(bytes_of);
            reveal_with_fuel(be::be_bytes, 3);
            assert(be::be_bytes(1, 2)[0] == 0);
            assert(be::be_bytes(1, 2)[1] == 1);
        }
        if b[0] == 1 {
            ByteOrder::Little
        } else {
            ByteOrder::Big
        }
    }
}

/// Writes the low `n` bytes of `v` in the given order.
pub fn to_bytes(order: ByteOrder, v: u64, n: usize) -> (r: Vec<u8>)
    requires
        n <= 8,
    ensures
        r@ == bytes_of(order, v as nat, n as nat),
        r@.len() == n,
{
    // The least significant byte first.
    let mut low: Vec<u8> = Vec::new();
    let mut x: u64 = v;
    let mut i: usize = 0;
    assert(be::be_bytes(v as nat, n as nat) =~= be::be_bytes(x as nat, n as nat) + low@.reverse());
    while i < n
        invariant
            i <= n,
            low@.len() == i,
            be::be_bytes(v as nat, n as nat) == be::be_bytes(x as nat, (n - i) as nat)
                + low@.reverse(),
        decreases n - i,
    {
        let ghost before = low@;
        let ghost y = x as nat;
        low.push((x % 256) as u8);
        x = x / 256;
        i = i + 1;
        proof {
            assert(low@.reverse() =~= seq![(y % 256) as u8] + before.reverse());
            assert(be::be_bytes(v as nat, n as nat) =~= be::be_bytes(x as nat, (n - i) as nat)
                + low@.reverse());
        }
    }
    proof {
        reveal(bytes_of);
        assert(be::be_bytes(v as nat, n as nat) =~= low@.reverse());
    }
    match order {
        ByteOrder::Little => {
            assert(low@ =~= low@.reverse().reverse());
            low
        },
        ByteOrder::Big => {
            let mut out: Vec<u8> = Vec::new();
            let mut j: usize = n;
            while j > 0
                invariant
                    j <= n,
                    low@.len() == n,
                    out@ =~= low@.reverse().take(n - j),
                decreases j,
            {
                j = j - 1;
                out.push(low[j]);
            }
            assert(out@ =~= low@.reverse());
            out
        },
    }
}

/// Reads the number that `n` bytes from `i` on spell in the given order.
pub fn from_bytes(order: ByteOrder, s: &[u8], i: usize, n: usize) -> (r: u64)
    requires
        n <= 8,
        i + n <= s@.len(),
    ensures
        r as nat == value_of(order, s@.subrange(i as int, i + n)),
        r < pow2(8 * n as nat),
{
    let ghost t = match order {
        ByteOrder::Big => s@.subrange(i as int, i + n),
        ByteOrder::Little => s@.subrange(i as int, i + n).reverse(),
    };
    let mut v: u64 = 0;
    let mut j: usize = 0;
    let len: usize = s.len();
    assert(t.take(0) =~= Seq::<u8>::empty());
    while j < n
        invariant
            j <= n <= 8,
            i + n <= len,
            len == s@.len(),
            t == match order {
                ByteOrder::Big => s@.subrange(i as int, i + n),
                ByteOrder::Little => s@.subrange(i as int, i + n).reverse(),
            },
            v as nat == be::be_value(t.take(j as int)),
        decreases n - j,
    {
        let b = match order {
            ByteOrder::Big => s[i + j],
            ByteOrder::Little => s[i + (n - 1 - j)],
        };
        proof {
            assert(t[j as int] == b);
            assert(t.take(j + 1).drop_last() =~= t.take(j as int));
            be::lemma_be_value_bound(t.take(j + 1));
            if j + 1 < 8 {
                lemma_pow2_strictly_increases(8 * (j + 1) as nat, 64);
            }
            lemma2_to64();
        }
        v = v * 256 + b as u64;
        j = j + 1;
    }
    proof {
        assert(t.take(j as int) =~= t);
        be::lemma_be_value_bound(t);
    }
    v
}

/// A number of `n` bytes is less than 256 to the power `n`, and two lists of bytes
/// spell one number only if they are the same.
pub proof fn lemma_value_bound(order: ByteOrder, s: Seq<u8>)
    ensures
        value_of(order, s) < pow2(8 * s.len()),
{
    be::lemma_be_value_bound(s);
    be::lemma_be_value_bound(s.reverse());
}

/// In either order the bytes are the digits of the number in base 256: with the
/// lowest first, or with the lowest last.
pub proof fn lemma_byte_order(v: nat, n: nat, b: u8)
    requires
        v < pow2(8 * n),
    ensures
        bytes_of(ByteOrder::Little, v * 256 + b as nat, n + 1) == seq![b] + bytes_of(
            ByteOrder::Little,
            v,
            n,
        ),
        bytes_of(ByteOrder::Big, v * 256 + b as nat, n + 1) == bytes_of(
            ByteOrder::Big,
            v,
            n,
        ).push(b),
        value_of(ByteOrder::Little, seq![b] + bytes_of(ByteOrder::Little, v, n)) == v * 256
            + b as nat,
        value_of(ByteOrder::Big, bytes_of(ByteOrder::Big, v, n).push(b)) == v * 256 + b as nat,
{
    reveal(bytes_of);
    let w = v * 256 + b as nat;
    be::lemma_pow2_bytes(n);
    assert(w / 256 == v && w % 256 == b);
    let s = be::be_bytes(v, n);
    assert(s.push(b).reverse() =~= seq![b] + s.reverse());
    lemma_value_of_bytes(ByteOrder::Little, w, n + 1);
    lemma_value_of_bytes(ByteOrder::Big, w, n + 1);
}

} // verus!
