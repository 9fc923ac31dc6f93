//! Elements as text: writing them for display, and reading them.

pub use crate::addr::{format_addr, format_ipv6, format_key, parse_addr};
pub use crate::cidr::{be_int, interval_to_cidr, range_is_prefix};
pub use crate::duration::{duration_fits, format_duration, parse_duration};
pub use crate::text::hex;

use crate::addr;
use crate::addr::read_address;
use crate::be;
use crate::cidr;
use crate::duration;
use crate::elem::{Elem, ElemView};
use crate::text;
use crate::text::{append_decimal, find_byte, parse_number};
use vstd::prelude::*;
use vstd::arithmetic::div_mod::*;
use vstd::arithmetic::power2::*;
use vstd::slice::slice_subrange;
use vstd::utf8::*;

verus! {

/// The first address of the block of `plen` network bits that `a` lies in.
pub open spec fn network(a: Seq<u8>, plen: nat) -> Seq<u8> {
    let v = be::be_value(a);
    be::be_bytes((v - v % pow2((8 * a.len() - plen) as nat)) as nat, a.len())
}

/// The last address of the block of `plen` network bits that `a` lies in.
pub open spec fn broadcast_addr(a: Seq<u8>, plen: nat) -> Seq<u8> {
    let v = be::be_value(a);
    let size = pow2((8 * a.len() - plen) as nat);
    be::be_bytes((v - v % size + size - 1) as nat, a.len())
}

/// The prefix length that the text `s` stands for: decimal digits, which may
/// follow a plus sign.
pub open spec fn prefix_len(s: Seq<u8>) -> Option<nat> {
    if s.len() > 0 && s[0] == 43 {
        text::number_of(s.skip(1), 10, u32::MAX as nat)
    } else {
        text::number_of(s, 10, u32::MAX as nat)
    }
}

/// The element that the text `s` stands for: the address, and no upper bound,
/// or, for a CIDR prefix, the first and the last address of its block.
pub open spec fn element_of(s: Seq<u8>) -> Option<(Seq<u8>, Option<Seq<u8>>)> {
    let k = text::find(s, 47);
    if k < s.len() {
        match (addr::address(s.take(k as int)), prefix_len(s.skip(k as int + 1))) {
            (Some(a), Some(plen)) => if plen <= 8 * a.len() {
                Some((network(a, plen), Some(broadcast_addr(a, plen))))
            } else {
                None
            },
            _ => None,
        }
    } else {
        match addr::address(s) {
            Some(a) => Some((a, None)),
            None => None,
        }
    }
}

/// What a key and an upper bound hold.
pub open spec fn element_view(e: Option<(Vec<u8>, Option<Vec<u8>>)>) -> Option<
    (Seq<u8>, Option<Seq<u8>>),
> {
    match e {
        None => None,
        Some((key, None)) => Some((key@, None)),
        Some((key, Some(end))) => Some((key@, Some(end@))),
    }
}

spec fn host_part(j: nat, plen: nat) -> nat {
    if 8 * j <= plen {
        0
    } else {
        (8 * j - plen) as nat
    }
}

/// What one more byte does to the first and the last address of a block.
proof fn lemma_block_step(v: nat, j: nat, plen: nat, b: u8, nb: u8, lb: u8)
    requires
        if 8 * (j + 1) <= plen {
            nb == b && lb == b
        } else if 8 * j >= plen {
            nb == 0 && lb == 255
        } else {
            let m = pow2((8 * (j + 1) - plen) as nat);
            nb == b - b as nat % m && lb == nb + m - 1
        },
    ensures
        ({
            let h = host_part(j, plen);
            let g = host_part(j + 1, plen);
            let w = v * 256 + b as nat;
            &&& (v - v % pow2(h)) * 256 + nb == w - w % pow2(g)
            &&& (v - v % pow2(h) + pow2(h) - 1) * 256 + lb == w - w % pow2(g) + pow2(g) - 1
        }),
{
    let h = host_part(j, plen);
    let g = host_part(j + 1, plen);
    let w = v * 256 + b as nat;
    lemma_pow2_pos(h);
    lemma_pow2_pos(g);
    lemma2_to64();
    if 8 * (j + 1) <= plen {
        assert(v % 1 == 0 && w % 1 == 0);
    } else if 8 * j >= plen {
        lemma_pow2_adds(h, 8);
        assert(g == h + 8);
        let p = pow2(h) as int;
        let q = v as int / p;
        let r = v as int % p;
        lemma_fundamental_div_mod(v as int, p);
        lemma_mod_bound(v as int, p);
        assert(w == q * (p * 256) + (r * 256 + b)) by (nonlinear_arith)
            requires
                w == v * 256 + b,
                v == p * q + r,
        ;
        lemma_fundamental_div_mod_converse(w as int, p * 256, q, r * 256 + b);
    } else {
        assert(v % 1 == 0);
        let e = (8 * j + 8 - plen) as nat;
        assert(0 < e < 8);
        lemma_pow2_adds(e, (8 - e) as nat);
        let m = pow2(e) as int;
        let o = pow2((8 - e) as nat) as int;
        assert(m * o == 256);
        let q = b as int / m;
        let r = b as int % m;
        lemma_fundamental_div_mod(b as int, m);
        lemma_mod_bound(b as int, m);
        assert(w == (v * o + q) * m + r) by (nonlinear_arith)
            requires
                w == v * 256 + b,
                b == m * q + r,
                m * o == 256,
        ;
        lemma_fundamental_div_mod_converse(w as int, m, v * o + q, r);
    }
}

/// The first and the last address of the block of `plen` network bits that `a` lies in.
fn block_of(a: &[u8], plen: u32) -> (r: (Vec<u8>, Vec<u8>))
    requires
        plen <= 8 * a@.len(),
    ensures
        r.0@ == network(a@, plen as nat),
        r.1@ == broadcast_addr(a@, plen as nat),
{
    let mut first: Vec<u8> = Vec::new();
    let mut last: Vec<u8> = Vec::new();
    let mut j: usize = 0;
    let whole: usize = (plen / 8) as usize;
    let host: u32 = 8 - plen % 8;
    proof {
        lemma2_to64();
        assert(a@.take(0) =~= Seq::<u8>::empty());
    }
    while j < a.len()
        invariant
            j <= a@.len(),
            plen <= 8 * a@.len(),
            whole == plen / 8,
            host == 8 - plen % 8,
            first@.len() == j,
            last@.len() == j,
            ({
                let v = be::be_value(a@.take(j as int));
                let p = pow2(host_part(j as nat, plen as nat));
                &&& be::be_value(first@) == v - v % p
                &&& be::be_value(last@) == v - v % p + p - 1
            }),
        decreases a.len() - j,
    {
        let b = a[j];
        let (nb, lb): (u8, u8) = if j < whole {
            (b, b)
        } else if j > whole || host == 8 {
            (0, 255)
        } else {
            let m: u8 = match host {
                1 => 2,
                2 => 4,
                3 => 8,
                4 => 16,
                5 => 32,
                6 => 64,
                _ => 128,
            };
            proof {
                lemma2_to64();
                assert(m == pow2(host as nat));
                assert(host == 8 * (j + 1) - plen);
                lemma_mod_bound(b as int, m as int);
                assert(b - b % m + m <= 256) by {
                    let q = b as int / m as int;
                    lemma_fundamental_div_mod(b as int, m as int);
                    lemma_pow2_adds(host as nat, (8 - host) as nat);
                    let o = pow2((8 - host) as nat) as int;
                    assert(q < o) by (nonlinear_arith)
                        requires
                            m * q <= b,
                            b < 256,
                            m * o == 256,
                            m > 0,
                    ;
                    assert(m * q + m <= 256) by (nonlinear_arith)
                        requires
                            q + 1 <= o,
                            m * o == 256,
                            m > 0,
                    ;
                }
            }
            let n = b - b % m;
            (n, n + (m - 1))
        };
        proof {
            let s = a@.take(j + 1);
            assert(s.drop_last() =~= a@.take(j as int));
            lemma_block_step(be::be_value(a@.take(j as int)), j as nat, plen as nat, b, nb, lb);
            assert(first@.push(nb).drop_last() =~= first@);
            assert(last@.push(lb).drop_last() =~= last@);
        }
        first.push(nb);
        last.push(lb);
        j = j + 1;
    }
    proof {
        assert(a@.take(j as int) =~= a@);
        be::lemma_be_bytes_of_value(first@);
        be::lemma_be_bytes_of_value(last@);
    }
    (first, last)
}

fn read_prefix_len(s: &[u8]) -> (r: Option<u32>)
    ensures
        match prefix_len(s@) {
            None => r is None,
            Some(v) => r matches Some(x) && x == v,
        },
{
    let digits = if s.len() > 0 && s[0] == 43 {
        slice_subrange(s, 1, s.len())
    } else {
        s
    };
    assert(s@.len() > 0 ==> s@.skip(1) =~= s@.subrange(1, s@.len() as int));
    match parse_number(digits, 10, 0xffff_ffff) {
        None => None,
        Some(v) => Some(v as u32),
    }
}

/// Reads an element: an address, or a CIDR prefix.
///
/// Returns the key, and for a CIDR prefix the last address of its block; the
/// key is then the first address of the block.
pub fn parse_element(s: &str) -> (r: Option<(Vec<u8>, Option<Vec<u8>>)>)
    ensures
        element_view(r) == element_of(encode_utf8(s@)),
        r is None <==> element_of(encode_utf8(s@)) is None,
        r matches Some((key, None)) ==> element_of(encode_utf8(s@)) == Some((key@, None::<Seq<u8>>)),
        r matches Some((key, Some(end))) ==> element_of(encode_utf8(s@)) == Some(
            (key@, Some(end@)),
        ),
{
    let b = s.as_bytes();
    let k = find_byte(b, 47);
    if k < b.len() {
        let addr_text = slice_subrange(b, 0, k);
        let plen_text = slice_subrange(b, k + 1, b.len());
        proof {
            assert(b@.take(k as int) =~= addr_text@);
            assert(b@.skip(k as int + 1) =~= plen_text@);
        }
        let plen = match read_prefix_len(plen_text) {
            None => {
                return None;
            },
            Some(p) => p,
        };
        let a = match read_address(addr_text) {
            None => {
                return None;
            },
            Some(a) => a,
        };
        let bits: u32 = (a.len() * 8) as u32;
        if plen > bits {
            return None;
        }
        let (first, last) = block_of(a.as_slice(), plen);
        Some((first, Some(last)))
    } else {
        match read_address(b) {
            None => None,
            Some(a) => Some((a, None)),
        }
    }
}

/// The times of an element as text.
pub open spec fn times_text(e: ElemView) -> Seq<char> {
    (match e.timeout_ms {
        Some(t) => " timeout "@ + duration::duration_text(t as nat),
        None => Seq::empty(),
    }) + (match e.expiration_ms {
        Some(t) => " expires "@ + duration::duration_text(t as nat),
        None => Seq::empty(),
    })
}

/// What an element spans, as text: a CIDR block, or the first and the last
/// address of any other interval, or a single address.
pub open spec fn span_text(e: ElemView) -> Seq<char> {
    if e.key_end.len() > 0 {
        match cidr::cidr(e.key, e.key_end) {
            Some((a, plen, bits)) => addr::addr_text(a, bits) + seq!['/'] + text::decimal(plen),
            None => addr::key_text(e.key) + seq!['-'] + addr::key_text(e.key_end),
        }
    } else if e.is_end {
        addr::key_text(e.key) + " (interval-end)"@
    } else {
        addr::key_text(e.key)
    }
}

/// An element as text.
pub open spec fn element_text(e: ElemView) -> Seq<char> {
    span_text(e) + times_text(e)
}

/// Where the block of `plen` network bits lies: it starts at a multiple of its
/// size, and its last address has the same length.
pub proof fn lemma_block_bounds(a: Seq<u8>, plen: nat)
    requires
        plen <= 8 * a.len(),
    ensures
        ({
            let v = be::be_value(a);
            let size = pow2((8 * a.len() - plen) as nat);
            let first = (v - v % size) as nat;
            &&& v % size <= v
            &&& first % size == 0
            &&& first + size <= pow2(8 * a.len())
            &&& network(a, plen).len() == a.len()
            &&& broadcast_addr(a, plen).len() == a.len()
            &&& be::be_value(network(a, plen)) == first
            &&& be::be_value(broadcast_addr(a, plen)) == first + size - 1
        }),
{
    let h = (8 * a.len() - plen) as nat;
    let v = be::be_value(a);
    let size = pow2(h);
    lemma_pow2_pos(h);
    lemma_pow2_adds(h, plen);
    be::lemma_be_value_bound(a);
    let q = v as int / size as int;
    lemma_fundamental_div_mod(v as int, size as int);
    lemma_mod_bound(v as int, size as int);
    let first = (v - v % size) as nat;
    let p = pow2(plen) as int;
    assert(v as int / size as int >= 0) by {
        lemma_div_pos_is_pos(v as int, size as int);
    }
    assert(first == q * size) by (nonlinear_arith)
        requires
            v == size * q + v % size,
            first == v - v % size,
    ;
    lemma_mod_multiples_basic(q, size as int);
    assert(q < p) by (nonlinear_arith)
        requires
            q * size <= v,
            v < size * p,
            size > 0,
    ;
    assert(q * size + size <= size * p) by (nonlinear_arith)
        requires
            q + 1 <= p,
            size > 0,
    ;
    be::lemma_be_value_of_bytes(first, a.len());
    be::lemma_be_value_of_bytes((first + size - 1) as nat, a.len());
}

/// A byte string of up to 16 bytes spells its low 128 bits.
pub proof fn lemma_low128(s: Seq<u8>)
    requires
        s.len() <= 16,
    ensures
        cidr::low128(s) == be::be_value(s),
{
    be::lemma_be_value_bound(s);
    if s.len() < 16 {
        lemma_pow2_strictly_increases(8 * s.len(), 128);
    }
    lemma_small_mod(be::be_value(s), pow2(128));
}

/// The two ends of the block that a CIDR prefix stands for are recognised as
/// that block, with the same prefix length.
pub proof fn lemma_prefix_is_cidr(a: Seq<u8>, plen: nat)
    requires
        1 <= a.len() <= 16,
        plen <= 8 * a.len(),
    ensures
        cidr::cidr(network(a, plen), broadcast_addr(a, plen)) == Some(
            (network(a, plen), plen, 8 * a.len()),
        ),
{
    let h = (8 * a.len() - plen) as nat;
    lemma_block_bounds(a, plen);
    lemma_low128(network(a, plen));
    lemma_low128(broadcast_addr(a, plen));
    cidr::lemma_host_bits(network(a, plen), broadcast_addr(a, plen), h);
}

/// The ends of a CIDR block are those that its prefix length gives.
pub proof fn lemma_cidr_is_prefix(low: Seq<u8>, high: Seq<u8>)
    requires
        1 <= low.len() <= 16,
        cidr::cidr(low, high) is Some,
    ensures
        ({
            let (a, plen, bits) = cidr::cidr(low, high).unwrap();
            &&& a == low
            &&& bits == 8 * low.len()
            &&& plen <= bits
            &&& network(low, plen) == low
            &&& broadcast_addr(low, plen) == high
        }),
{
    let n = choose|n: nat| cidr::is_block(cidr::low128(low), cidr::low128(high), n);
    lemma_low128(low);
    lemma_low128(high);
    be::lemma_be_value_bound(high);
    be::lemma_be_value_bound(low);
    if n > 8 * low.len() {
        lemma_pow2_strictly_increases(8 * low.len(), n);
    }
    let plen = (8 * low.len() - n) as nat;
    lemma_block_bounds(low, plen);
    be::lemma_be_value_injective(network(low, plen), low);
    be::lemma_be_value_injective(broadcast_addr(low, plen), high);
}

/// What [`format_element`] shows of a single address, or of a CIDR block, is
/// read back by [`parse_element`] as the same keys, where the element carries no
/// times.
pub proof fn lemma_element_read_back(e: ElemView)
    requires
        e.key.len() == 4 || e.key.len() == 16,
        e.timeout_ms is None,
        e.expiration_ms is None,
        e.key_end.len() == 0 ==> !e.is_end,
        e.key_end.len() > 0 ==> cidr::cidr(e.key, e.key_end) is Some,
    ensures
        element_of(encode_utf8(element_text(e))) == Some(
            (
                e.key,
                if e.key_end.len() > 0 {
                    Some(e.key_end)
                } else {
                    None
                },
            ),
        ),
{
    let k = encode_utf8(addr::key_text(e.key));
    addr::lemma_address_read_back(e.key);
    addr::lemma_address_text_bytes(e.key);
    assert(element_text(e) =~= span_text(e));
    if e.key_end.len() == 0 {
        text::lemma_find_after(k, Seq::empty(), 47);
        assert(k + Seq::<u8>::empty() =~= k);
    } else {
        lemma_cidr_is_prefix(e.key, e.key_end);
        let (a, plen, bits) = cidr::cidr(e.key, e.key_end).unwrap();
        let d = encode_utf8(text::decimal(plen));
        let s = encode_utf8(element_text(e));
        text::lemma_encode_concat(addr::key_text(e.key) + seq!['/'], text::decimal(plen));
        text::lemma_encode_concat(addr::key_text(e.key), seq!['/']);
        text::lemma_encode_ascii('/');
        assert(s =~= k + (seq![47u8] + d));
        text::lemma_find_after(k, seq![47u8] + d, 47);
        assert((seq![47u8] + d)[0] == 47);
        assert(s.take(k.len() as int) =~= k);
        assert(s.skip(k.len() as int + 1) =~= d);
        text::lemma_numeral_read_back(plen, 10);
        assert(text::digit_value(d[0], 10) is Some);
        assert(prefix_len(d) == Some(plen));
    }
}

/// The element that a text stands for is written in a form that stands for the
/// same element.
pub proof fn lemma_parsed_element_read_back(s: Seq<u8>)
    requires
        element_of(s) is Some,
    ensures
        ({
            let (key, end) = element_of(s).unwrap();
            let e = ElemView {
                key: key,
                is_end: false,
                key_end: end.unwrap_or(Seq::empty()),
                timeout_ms: None,
                expiration_ms: None,
            };
            element_of(encode_utf8(element_text(e))) == element_of(s)
        }),
{
    let k = text::find(s, 47);
    let (key, end) = element_of(s).unwrap();
    if k < s.len() {
        addr::lemma_address_len(s.take(k as int));
        let a = addr::address(s.take(k as int)).unwrap();
        let plen = prefix_len(s.skip(k as int + 1)).unwrap();
        lemma_block_bounds(a, plen);
        lemma_prefix_is_cidr(a, plen);
    } else {
        addr::lemma_address_len(s);
    }
    lemma_element_read_back(
        ElemView {
            key: key,
            is_end: false,
            key_end: end.unwrap_or(Seq::empty()),
            timeout_ms: None,
            expiration_ms: None,
        },
    );
}

/// Writes the times of an element, each behind its name.
pub fn suffice(e: &Elem) -> (r: String)
    ensures
        r@ == times_text(e@),
        r@ == (match e.timeout_ms {
            Some(t) => " timeout "@ + duration::duration_text(t as nat),
            None => Seq::empty(),
        }) + (match e.expiration_ms {
            Some(t) => " expires "@ + duration::duration_text(t as nat),
            None => Seq::empty(),
        }),
{
    let mut s = String::new();
    if let Some(t) = e.timeout_ms {
        s.append(" timeout ");
        s.append(format_duration(t).as_str());
    }
    if let Some(x) = e.expiration_ms {
        s.append(" expires ");
        s.append(format_duration(x).as_str());
    }
    assert(s@ =~= times_text(e@));
    s
}

/// Writes one reduced element for display.
///
/// An element with an upper bound is shown as a CIDR block where it is one, else
/// as a range; an end marker on its own is marked as such.
pub fn format_element(e: &Elem) -> (r: String)
    ensures
        r@ == element_text(e@),
{
    let mut s;
    if e.key_end.len() > 0 {
        match interval_to_cidr(e.key.as_slice(), e.key_end.as_slice()) {
            Some((a, plen, bits)) => {
                s = format_addr(a.as_slice(), bits);
                proof {
                    reveal_strlit("/");
                    assert("/"@ =~= seq!['/']);
                }
                s.append("/");
                append_decimal(&mut s, plen as u64);
            },
            None => {
                s = format_key(e.key.as_slice());
                proof {
                    reveal_strlit("-");
                    assert("-"@ =~= seq!['-']);
                }
                s.append("-");
                s.append(format_key(e.key_end.as_slice()).as_str());
            },
        }
    } else {
        s = format_key(e.key.as_slice());
        if e.is_end {
            s.append(" (interval-end)");
        }
    }
    s.append(suffice(e).as_str());
    s
}

/// Two ends of one length are recognised as a CIDR block exactly where the first is
/// a multiple of a power of two and the last is that power, less one, behind it; the
/// prefix is what the block leaves of the address.
pub proof fn lemma_cidr_exact(low: Seq<u8>, high: Seq<u8>, n: nat)
    requires
        1 <= low.len() <= 16,
        low.len() == high.len(),
    ensures
        be::be_value(low) % pow2(n) == 0 && be::be_value(high) + 1 == be::be_value(low) + pow2(n)
            ==> n <= 8 * low.len() && cidr::cidr(low, high) == Some(
            (low, (8 * low.len() - n) as nat, 8 * low.len()),
        ),
        cidr::cidr(low, high) matches Some((a, plen, bits)) ==> {
            let size = pow2((8 * low.len() - plen) as nat);
            &&& a == low
            &&& bits == 8 * low.len()
            &&& plen <= bits
            &&& be::be_value(low) % size == 0
            &&& be::be_value(high) + 1 == be::be_value(low) + size
        },
{
    lemma_low128(low);
    lemma_low128(high);
    be::lemma_be_value_bound(high);
    if be::be_value(low) % pow2(n) == 0 && be::be_value(high) + 1 == be::be_value(low) + pow2(n) {
        if n > 8 * low.len() {
            lemma_pow2_strictly_increases(8 * low.len(), n);
        }
        cidr::lemma_host_bits(low, high, n);
    }
    if cidr::cidr(low, high) is Some {
        lemma_cidr_is_prefix(low, high);
        let plen = cidr::cidr(low, high).unwrap().1;
        lemma_block_bounds(low, plen);
        lemma_pow2_pos((8 * low.len() - plen) as nat);
    }
}

/// Ends of different lengths, or of none, make no block.
pub proof fn lemma_no_cidr(low: Seq<u8>, high: Seq<u8>)
    requires
        low.len() == 0 || low.len() != high.len(),
    ensures
        cidr::cidr(low, high) is None,
{
}

/// The times of an element stand behind it, each behind its name, the timeout first.
pub proof fn lemma_element_text_times(e: ElemView)
    ensures
        ({
            let bare = ElemView {
                key: e.key,
                is_end: e.is_end,
                key_end: e.key_end,
                timeout_ms: None,
                expiration_ms: None,
            };
            element_text(e) == element_text(bare) + (match e.timeout_ms {
                Some(t) => " timeout "@ + duration::duration_text(t as nat),
                None => Seq::empty(),
            }) + (match e.expiration_ms {
                Some(t) => " expires "@ + duration::duration_text(t as nat),
                None => Seq::empty(),
            })
        }),
{
    let bare = ElemView {
        key: e.key,
        is_end: e.is_end,
        key_end: e.key_end,
        timeout_ms: None,
        expiration_ms: None,
    };
    assert(element_text(bare) =~= span_text(e));
    assert(element_text(e) =~= span_text(e) + (match e.timeout_ms {
        Some(t) => " timeout "@ + duration::duration_text(t as nat),
        None => Seq::empty(),
    }) + (match e.expiration_ms {
        Some(t) => " expires "@ + duration::duration_text(t as nat),
        None => Seq::empty(),
    }));
}

/// An end marker on its own is its key, marked as an end.
pub proof fn lemma_end_text(e: ElemView)
    requires
        e.is_end,
        e.key_end.len() == 0,
        e.timeout_ms is None,
        e.expiration_ms is None,
    ensures
        element_text(e) == addr::key_text(e.key) + " (interval-end)"@,
{
    assert(element_text(e) =~= addr::key_text(e.key) + " (interval-end)"@);
}

/// An interval that is no CIDR block is shown as its first and its last address with
/// a dash between them.
pub proof fn lemma_range_text(e: ElemView)
    requires
        e.key.len() == 4 || e.key.len() == 16,
        e.key_end.len() == 4 || e.key_end.len() == 16,
        cidr::cidr(e.key, e.key_end) is None,
        e.timeout_ms is None,
        e.expiration_ms is None,
    ensures
        ({
            let s = encode_utf8(element_text(e));
            let k = text::find(s, 45) as int;
            &&& k < s.len()
            &&& addr::address(s.take(k)) == Some(e.key)
            &&& addr::address(s.skip(k + 1)) == Some(e.key_end)
            &&& forall|i: int| 0 <= i < s.len() ==> #[trigger] s[i] != 32
        }),
{
    let a = addr::key_text(e.key);
    let b = addr::key_text(e.key_end);
    let ea = encode_utf8(a);
    let eb = encode_utf8(b);
    let s = encode_utf8(element_text(e));
    assert(element_text(e) =~= a + seq!['-'] + b);
    addr::lemma_address_read_back(e.key);
    addr::lemma_address_read_back(e.key_end);
    addr::lemma_address_text_bytes(e.key);
    addr::lemma_address_text_bytes(e.key_end);
    text::lemma_encode_concat(a + seq!['-'], b);
    text::lemma_encode_concat(a, seq!['-']);
    text::lemma_encode_ascii('-');
    assert(s =~= ea + (seq![45u8] + eb));
    text::lemma_find_after(ea, seq![45u8] + eb, 45);
    assert((seq![45u8] + eb)[0] == 45);
    let k = ea.len() as int;
    assert(s.take(k) =~= ea);
    assert(s.skip(k + 1) =~= eb);
    assert forall|i: int| 0 <= i < s.len() implies #[trigger] s[i] != 32 by {
        if i < k {
            assert(s[i] == ea[i]);
        } else if i > k {
            assert(s[i] == eb[i - k - 1]);
        }
    }
}

/// What a block or a single address is shown as holds no space and no dash.
proof fn lemma_block_text_bytes(e: ElemView)
    requires
        e.key.len() == 4 || e.key.len() == 16,
        e.key_end.len() == 0 ==> !e.is_end,
        e.key_end.len() > 0 ==> cidr::cidr(e.key, e.key_end) is Some,
    ensures
        forall|i: int|
            0 <= i < encode_utf8(span_text(e)).len() ==> (#[trigger] encode_utf8(span_text(e))[i])
                != 32 && encode_utf8(span_text(e))[i] != 45,
{
    let k = encode_utf8(addr::key_text(e.key));
    addr::lemma_address_text_bytes(e.key);
    if e.key_end.len() > 0 {
        lemma_cidr_is_prefix(e.key, e.key_end);
        let plen = cidr::cidr(e.key, e.key_end).unwrap().1;
        let d = encode_utf8(text::decimal(plen));
        let s = encode_utf8(span_text(e));
        text::lemma_encode_concat(addr::key_text(e.key) + seq!['/'], text::decimal(plen));
        text::lemma_encode_concat(addr::key_text(e.key), seq!['/']);
        text::lemma_encode_ascii('/');
        text::lemma_numeral_read_back(plen, 10);
        assert(s =~= k + (seq![47u8] + d));
        assert forall|i: int| 0 <= i < s.len() implies (#[trigger] s[i]) != 32 && s[i] != 45 by {
            if i < k.len() {
                assert(s[i] == k[i]);
            } else if i > k.len() {
                assert(s[i] == d[i - k.len() - 1]);
                assert(text::digit_value(d[i - k.len() - 1], 10) is Some);
            }
        }
    }
}

/// Whether `e` is an address or an interval of addresses, and no end marker.
pub open spec fn is_display(e: ElemView) -> bool {
    &&& e.key.len() == 4 || e.key.len() == 16
    &&& e.key_end.len() == 0 || e.key_end.len() == 4 || e.key_end.len() == 16
    &&& e.key_end.len() == 0 ==> !e.is_end
}

proof fn lemma_span_found(e: ElemView)
    requires
        is_display(e),
    ensures
        ({
            let s = encode_utf8(element_text(e));
            s.take(text::find(s, 32) as int) == encode_utf8(span_text(e))
        }),
{
    let sp = encode_utf8(span_text(e));
    let ti = encode_utf8(times_text(e));
    let s = encode_utf8(element_text(e));
    let bare = ElemView {
        key: e.key,
        is_end: e.is_end,
        key_end: e.key_end,
        timeout_ms: None,
        expiration_ms: None,
    };
    assert(element_text(bare) =~= span_text(e));
    if e.key_end.len() > 0 && cidr::cidr(e.key, e.key_end) is None {
        lemma_range_text(bare);
    } else {
        lemma_block_text_bytes(e);
    }
    text::lemma_encode_concat(span_text(e), times_text(e));
    text::lemma_find_after(sp, ti, 32);
    if times_text(e).len() > 0 {
        let t = times_text(e);
        reveal_strlit(" timeout ");
        reveal_strlit(" expires ");
        assert(t[0] == ' ');
        assert(t =~= seq![' '] + t.skip(1));
        text::lemma_encode_concat(seq![' '], t.skip(1));
        text::lemma_encode_ascii(' ');
        assert(ti[0] == 32);
    } else {
        assert(times_text(e) =~= Seq::<char>::empty());
        assert(ti =~= Seq::<u8>::empty());
    }
    assert(s.take(sp.len() as int) =~= sp);
}

/// Elements that are shown alike have the same keys, whatever their times.
pub proof fn lemma_element_text_injective(e: ElemView, f: ElemView)
    requires
        is_display(e),
        is_display(f),
        element_text(e) == element_text(f),
    ensures
        e.key == f.key,
        e.key_end == f.key_end,
{
    lemma_span_found(e);
    lemma_span_found(f);
    let be = ElemView {
        key: e.key,
        is_end: e.is_end,
        key_end: e.key_end,
        timeout_ms: None,
        expiration_ms: None,
    };
    let bf = ElemView {
        key: f.key,
        is_end: f.is_end,
        key_end: f.key_end,
        timeout_ms: None,
        expiration_ms: None,
    };
    assert(element_text(be) =~= span_text(e));
    assert(element_text(bf) =~= span_text(f));
    let s = encode_utf8(span_text(e));
    assert(s == encode_utf8(span_text(f)));
    let re = e.key_end.len() > 0 && cidr::cidr(e.key, e.key_end) is None;
    let rf = f.key_end.len() > 0 && cidr::cidr(f.key, f.key_end) is None;
    text::lemma_find(s, 45);
    if re {
        lemma_range_text(be);
    } else {
        lemma_block_text_bytes(e);
        lemma_element_read_back(be);
    }
    if rf {
        lemma_range_text(bf);
    } else {
        lemma_block_text_bytes(f);
        lemma_element_read_back(bf);
    }
    assert(e.key_end =~= f.key_end);
}

/// An address, a slash and a prefix length stand for the whole block of that many
/// network bits that the address lies in: the first address is a multiple of the size of
/// the block, no more than the address, and the last one is the size, less one, behind
/// it. A plus sign may stand in front of the length. A length of more bits than the
/// address has, or a length or an address that is none, is no element.
#[verifier::spinoff_prover]
pub proof fn lemma_prefix_element(s: Seq<u8>, d: Seq<u8>)
    requires
        forall|i: int| 0 <= i < s.len() ==> #[trigger] s[i] != 47,
    ensures
        element_of(s) == match addr::address(s) {
            Some(a) => Some((a, None::<Seq<u8>>)),
            None => None,
        },
        element_of(s + seq![47u8] + d) is Some <==> {
            &&& addr::address(s) matches Some(a)
            &&& prefix_len(d) matches Some(plen)
            &&& plen <= 8 * a.len()
        },
        element_of(s + seq![47u8] + d) matches Some((first, end)) ==> {
            let a = addr::address(s).unwrap();
            let size = pow2((8 * a.len() - prefix_len(d).unwrap()) as nat);
            &&& end matches Some(last)
            &&& first.len() == a.len()
            &&& last.len() == a.len()
            &&& be::be_value(first) % size == 0
            &&& be::be_value(first) <= be::be_value(a) < be::be_value(first) + size
            &&& be::be_value(last) + 1 == be::be_value(first) + size
        },
{
    let none = Seq::<u8>::empty();
    let t = s + seq![47u8] + d;
    let u = seq![47u8] + d;
    text::lemma_find_after(s, none, 47);
    assert(s + none =~= s);
    text::lemma_find_after(s, u, 47);
    assert(t =~= s + u);
    assert(u[0] == 47);
    assert(t.take(s.len() as int) =~= s);
    assert(t.skip(s.len() as int + 1) =~= d);
    if element_of(t) is Some {
        let a = addr::address(s).unwrap();
        let plen = prefix_len(d).unwrap();
        lemma_block_bounds(a, plen);
        lemma_pow2_pos((8 * a.len() - plen) as nat);
        lemma_mod_bound(be::be_value(a) as int, pow2((8 * a.len() - plen) as nat) as int);
    }
}

/// A prefix length is a decimal number below 2 to the power 32, which may follow one plus
/// sign.
pub proof fn lemma_prefix_len(d: Seq<u8>)
    requires
        d.len() > 0 ==> d[0] != 43,
    ensures
        prefix_len(d) == text::number_of(d, 10, 0xffff_ffff),
        prefix_len(seq![43u8] + d) == prefix_len(d),
{
    assert((seq![43u8] + d).skip(1) =~= d);
    assert((seq![43u8] + d)[0] == 43);
}

} // verus!
