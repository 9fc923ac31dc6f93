//! The text form of IP addresses.

use crate::be;
use crate::text;
use crate::text::{append_decimal, append_numeral, find_byte, parse_number};
use vstd::prelude::*;
use vstd::arithmetic::power2::*;
use vstd::slice::slice_subrange;
use vstd::utf8::*;

verus! {

/// The number that `s` stands for between the dots of an IPv4 address: up to
/// three decimal digits, no leading zero, at most 255.
pub open spec fn octet(s: Seq<u8>) -> Option<nat> {
    if s.len() <= 3 && (s.len() > 1 ==> s[0] != 48) {
        text::number_of(s, 10, 255)
    } else {
        None
    }
}

/// The bytes that `n` octets with dots between them stand for.
pub open spec fn dotted(s: Seq<u8>, n: nat) -> Option<Seq<u8>>
    decreases n,
{
    let k = text::find(s, 46);
    if n == 0 {
        None
    } else if n == 1 {
        match octet(s) {
            Some(v) => Some(seq![v as u8]),
            None => None,
        }
    } else if k == s.len() {
        None
    } else {
        match (octet(s.take(k as int)), dotted(s.skip(k as int + 1), (n - 1) as nat)) {
            (Some(v), Some(rest)) => Some(seq![v as u8] + rest),
            _ => None,
        }
    }
}

/// The IPv4 address that the text `s` stands for.
pub open spec fn ipv4(s: Seq<u8>) -> Option<Seq<u8>> {
    dotted(s, 4)
}

/// The two bytes that one to four hexadecimal digits stand for.
pub open spec fn group(s: Seq<u8>) -> Option<Seq<u8>> {
    if s.len() <= 4 {
        match text::number_of(s, 16, 0xffff) {
            Some(v) => Some(be::be_bytes(v, 2)),
            None => None,
        }
    } else {
        None
    }
}

/// The bytes that groups with colons between them stand for; where `dotted_tail`
/// is set, the last may be an IPv4 address.
pub open spec fn groups(s: Seq<u8>, dotted_tail: bool) -> Option<Seq<u8>>
    decreases s.len(),
{
    let k = text::find(s, 58);
    if k >= s.len() {
        if dotted_tail && ipv4(s) is Some {
            ipv4(s)
        } else {
            group(s)
        }
    } else {
        match (group(s.take(k as int)), groups(s.skip(k as int + 1), dotted_tail)) {
            (Some(g), Some(rest)) => Some(g + rest),
            _ => None,
        }
    }
}

/// Where two colons in a row first stand in `s`; the length of `s` where they do not.
pub open spec fn find_gap(s: Seq<u8>) -> nat
    decreases s.len(),
{
    if s.len() < 2 {
        s.len()
    } else if s[0] == 58 && s[1] == 58 {
        0
    } else {
        1 + find_gap(s.skip(1))
    }
}

/// `n` zero bytes.
pub open spec fn zeros(n: nat) -> Seq<u8> {
    Seq::new(n, |i: int| 0u8)
}

/// The bytes that groups stand for; none where the text is empty.
pub open spec fn groups_or_none(s: Seq<u8>, dotted_tail: bool) -> Option<Seq<u8>> {
    if s.len() == 0 {
        Some(Seq::empty())
    } else {
        groups(s, dotted_tail)
    }
}

/// The IPv6 address that the text `s` stands for: eight groups, or fewer with
/// `::` in place of the zero groups that are missing, of which there is at least
/// one. An IPv4 address may stand for the last two groups.
pub open spec fn ipv6(s: Seq<u8>) -> Option<Seq<u8>> {
    let g = find_gap(s);
    if g < s.len() {
        match (groups_or_none(s.take(g as int), false), groups_or_none(s.skip(g as int + 2), true)) {
            (Some(head), Some(tail)) => if head.len() + tail.len() <= 14 {
                Some(head + zeros((16 - head.len() - tail.len()) as nat) + tail)
            } else {
                None
            },
            _ => None,
        }
    } else {
        match groups(s, true) {
            Some(b) => if b.len() == 16 {
                Some(b)
            } else {
                None
            },
            None => None,
        }
    }
}

/// The address, IPv4 or IPv6, that the text `s` stands for.
pub open spec fn address(s: Seq<u8>) -> Option<Seq<u8>> {
    if ipv4(s) is Some {
        ipv4(s)
    } else {
        ipv6(s)
    }
}

proof fn lemma_dotted_len(s: Seq<u8>, n: nat)
    ensures
        dotted(s, n) matches Some(b) ==> b.len() == n,
    decreases n,
{
    if n > 1 {
        lemma_dotted_len(s.skip(text::find(s, 46) as int + 1), (n - 1) as nat);
    }
}

/// An address has 4 or 16 bytes.
pub proof fn lemma_address_len(s: Seq<u8>)
    ensures
        address(s) matches Some(b) ==> b.len() == 4 || b.len() == 16,
{
    lemma_dotted_len(s, 4);
}

fn read_octet(s: &[u8]) -> (r: Option<u8>)
    ensures
        match octet(s@) {
            None => r is None,
            Some(v) => r matches Some(x) && x == v,
        },
{
    if s.len() > 3 || (s.len() > 1 && s[0] == 48) {
        return None;
    }
    match parse_number(s, 10, 255) {
        None => None,
        Some(v) => Some(v as u8),
    }
}

fn read_ipv4(s: &[u8]) -> (r: Option<Vec<u8>>)
    ensures
        match ipv4(s@) {
            None => r is None,
            Some(b) => r matches Some(v) && v@ == b,
        },
{
    let mut out: Vec<u8> = Vec::new();
    let mut rest = s;
    let mut n: u8 = 4;
    while n > 1
        invariant
            1 <= n <= 4,
            ipv4(s@) == match dotted(rest@, n as nat) {
                Some(b) => Some(out@ + b),
                None => None,
            },
        decreases n,
    {
        let ghost before = out@;
        let k = find_byte(rest, 46);
        if k == rest.len() {
            return None;
        }
        match read_octet(slice_subrange(rest, 0, k)) {
            None => {
                return None;
            },
            Some(v) => {
                out.push(v);
            },
        }
        let ghost cut = rest@;
        rest = slice_subrange(rest, k + 1, rest.len());
        n = n - 1;
        proof {
            assert(cut.skip(k + 1) =~= rest@);
            if let Some(b) = dotted(rest@, n as nat) {
                assert(before + (seq![out@.last()] + b) =~= out@ + b);
            }
        }
    }
    match read_octet(rest) {
        None => None,
        Some(v) => {
            let ghost before = out@;
            out.push(v);
            assert(out@ =~= before + seq![v]);
            Some(out)
        },
    }
}

fn read_group(s: &[u8]) -> (r: Option<(u8, u8)>)
    ensures
        match group(s@) {
            None => r is None,
            Some(b) => r matches Some(p) && b == seq![p.0, p.1],
        },
{
    if s.len() > 4 {
        return None;
    }
    match parse_number(s, 16, 0xffff) {
        None => None,
        Some(v) => {
            proof {
                reveal_with_fuel(be::be_bytes, 3);
                assert(be::be_bytes(v as nat, 2) =~= seq![(v / 256) as u8, (v % 256) as u8]);
            }
            Some(((v / 256) as u8, (v % 256) as u8))
        },
    }
}

fn read_groups(s: &[u8], dotted_tail: bool) -> (r: Option<Vec<u8>>)
    ensures
        match groups(s@, dotted_tail) {
            None => r is None,
            Some(b) => r matches Some(v) && v@ == b,
        },
{
    let mut out: Vec<u8> = Vec::new();
    let mut rest = s;
    let mut k = find_byte(rest, 58);
    assert(groups(s@, dotted_tail) == match groups(rest@, dotted_tail) {
        Some(b) => Some(out@ + b),
        None => None,
    }) by {
        if let Some(b) = groups(rest@, dotted_tail) {
            assert(out@ + b =~= b);
        }
    }
    while k < rest.len()
        invariant
            k == text::find(rest@, 58),
            k <= rest@.len(),
            groups(s@, dotted_tail) == match groups(rest@, dotted_tail) {
                Some(b) => Some(out@ + b),
                None => None,
            },
        decreases rest.len(),
    {
        let ghost before = out@;
        match read_group(slice_subrange(rest, 0, k)) {
            None => {
                return None;
            },
            Some((hi, lo)) => {
                out.push(hi);
                out.push(lo);
                assert(out@ =~= before + seq![hi, lo]);
            },
        }
        let ghost cut = rest@;
        rest = slice_subrange(rest, k + 1, rest.len());
        k = find_byte(rest, 58);
        proof {
            assert(cut.skip(text::find(cut, 58) as int + 1) =~= rest@);
            if let Some(b) = groups(rest@, dotted_tail) {
                let g = seq![out@[before.len() as int], out@[before.len() as int + 1]];
                assert(before + (g + b) =~= out@ + b);
            }
        }
    }
    if dotted_tail {
        match read_ipv4(rest) {
            None => {},
            Some(mut v) => {
                out.append(&mut v);
                return Some(out);
            },
        }
    }
    match read_group(rest) {
        None => None,
        Some((hi, lo)) => {
            let ghost before = out@;
            out.push(hi);
            out.push(lo);
            assert(out@ =~= before + seq![hi, lo]);
            Some(out)
        },
    }
}

fn read_groups_or_none(s: &[u8], dotted_tail: bool) -> (r: Option<Vec<u8>>)
    ensures
        match groups_or_none(s@, dotted_tail) {
            None => r is None,
            Some(b) => r matches Some(v) && v@ == b,
        },
{
    if s.len() == 0 {
        Some(Vec::new())
    } else {
        read_groups(s, dotted_tail)
    }
}

fn gap_position(s: &[u8]) -> (r: usize)
    ensures
        r == find_gap(s@),
        r <= s@.len(),
        r < s@.len() ==> r + 2 <= s@.len(),
{
    let n = s.len();
    let mut i: usize = 0;
    assert(s@.skip(0) =~= s@);
    while n - i >= 2
        invariant
            i <= n,
            n == s@.len(),
            find_gap(s@) == i + find_gap(s@.skip(i as int)),
        decreases n - i,
    {
        if s[i] == 58 && s[i + 1] == 58 {
            return i;
        }
        assert(s@.skip(i as int).skip(1) =~= s@.skip(i + 1));
        i = i + 1;
    }
    n
}

fn read_ipv6(s: &[u8]) -> (r: Option<Vec<u8>>)
    ensures
        match ipv6(s@) {
            None => r is None,
            Some(b) => r matches Some(v) && v@ == b,
        },
{
    let g = gap_position(s);
    if g < s.len() {
        let head_text = slice_subrange(s, 0, g);
        let tail_text = slice_subrange(s, g + 2, s.len());
        proof {
            assert(s@.take(g as int) =~= head_text@);
            assert(s@.skip(g + 2) =~= tail_text@);
        }
        let head = read_groups_or_none(head_text, false);
        let tail = read_groups_or_none(tail_text, true);
        match (head, tail) {
            (Some(mut out), Some(mut t)) => {
                let h = out.len();
                if h > 14 || t.len() > 14 - h {
                    return None;
                }
                let ghost front = out@;
                let ghost back = t@;
                let ghost n = (16 - front.len() - back.len()) as nat;
                out.resize(16 - t.len(), 0);
                assert(out@ =~= front + zeros(n)) by {
                    assert forall|i: int| 0 <= i < out@.len() implies #[trigger] out@[i] == (front
                        + zeros(n))[i] by {
                        if i < front.len() {
                            assert(out@.subrange(0, front.len() as int)[i] == front[i]);
                        }
                    }
                }
                out.append(&mut t);
                Some(out)
            },
            _ => None,
        }
    } else {
        match read_groups(s, true) {
            None => None,
            Some(b) => {
                if b.len() == 16 {
                    Some(b)
                } else {
                    None
                }
            },
        }
    }
}

/// Reads the bytes of an IP address, IPv4 or IPv6, from the bytes of its text.
pub fn read_address(s: &[u8]) -> (r: Option<Vec<u8>>)
    ensures
        match address(s@) {
            None => r is None,
            Some(b) => r matches Some(v) && v@ == b,
        },
        r matches Some(v) ==> v@.len() == 4 || v@.len() == 16,
{
    proof {
        lemma_address_len(s@);
    }
    match read_ipv4(s) {
        Some(v) => Some(v),
        None => read_ipv6(s),
    }
}

/// Reads an IP address, IPv4 or IPv6, into its bytes in network order.
pub fn parse_addr(s: &str) -> (r: Option<Vec<u8>>)
    ensures
        match address(encode_utf8(s@)) {
            None => r is None,
            Some(b) => r matches Some(v) && v@ == b,
        },
{
    read_address(s.as_bytes())
}

/// Bytes in decimal, with dots between them.
pub open spec fn dotted_text(a: Seq<u8>) -> Seq<char>
    decreases a.len(),
{
    if a.len() == 0 {
        Seq::empty()
    } else if a.len() == 1 {
        text::decimal(a[0] as nat)
    } else {
        text::decimal(a[0] as nat) + seq!['.'] + dotted_text(a.skip(1))
    }
}

/// Pairs of bytes in hexadecimal, without leading zeros, with colons between them.
pub open spec fn groups_text(a: Seq<u8>) -> Seq<char>
    decreases a.len(),
{
    if a.len() < 2 {
        Seq::empty()
    } else if a.len() < 4 {
        text::numeral(be::be_value(a.take(2)), 16)
    } else {
        text::numeral(be::be_value(a.take(2)), 16) + seq![':'] + groups_text(a.skip(2))
    }
}

/// An address of `bits` bits as text: dotted decimal for IPv4, eight
/// hexadecimal groups for IPv6, and plain hexadecimal digits for anything else.
pub open spec fn addr_text(a: Seq<u8>, bits: nat) -> Seq<char> {
    if a.len() == 4 && bits == 32 {
        dotted_text(a)
    } else if a.len() == 16 && bits == 128 {
        groups_text(a)
    } else {
        text::hex_digits(a)
    }
}

/// A key as text, as an address where its length is that of one.
pub open spec fn key_text(k: Seq<u8>) -> Seq<char> {
    addr_text(k, 8 * k.len())
}

proof fn lemma_octet_read_back(v: u8)
    ensures
        octet(encode_utf8(text::decimal(v as nat))) == Some(v as nat),
{
    text::lemma_numeral_read_back(v as nat, 10);
    reveal_with_fuel(text::numeral, 4);
}

/// Dotted decimal is read back as the bytes that it was written for.
#[verifier::spinoff_prover]
proof fn lemma_dotted_read_back(a: Seq<u8>)
    requires
        a.len() >= 1,
    ensures
        dotted(encode_utf8(dotted_text(a)), a.len()) == Some(a),
    decreases a.len(),
{
    let d = encode_utf8(text::decimal(a[0] as nat));
    let e = encode_utf8(dotted_text(a));
    lemma_octet_read_back(a[0]);
    if a.len() == 1 {
        assert(a =~= seq![a[0]]);
    } else {
        let r = encode_utf8(dotted_text(a.skip(1)));
        lemma_dotted_read_back(a.skip(1));
        text::lemma_numeral_read_back(a[0] as nat, 10);
        text::lemma_encode_concat(text::decimal(a[0] as nat) + seq!['.'], dotted_text(a.skip(1)));
        text::lemma_encode_concat(text::decimal(a[0] as nat), seq!['.']);
        text::lemma_encode_ascii('.');
        assert(e =~= d + (seq![46u8] + r));
        assert forall|i: int| 0 <= i < d.len() implies #[trigger] d[i] != 46 by {
            assert(text::digit_value(d[i], 10) is Some);
        }
        text::lemma_find_after(d, seq![46u8] + r, 46);
        assert((seq![46u8] + r)[0] == 46);
        let k = d.len() as int;
        assert(e.take(k) =~= d);
        assert(e.skip(k + 1) =~= r);
        assert(seq![a[0]] + a.skip(1) =~= a);
    }
}

proof fn lemma_group_read_back(b: Seq<u8>)
    requires
        b.len() == 2,
    ensures
        group(encode_utf8(text::numeral(be::be_value(b), 16))) == Some(b),
{
    let v = be::be_value(b);
    reveal_with_fuel(be::be_value, 3);
    assert(b.drop_last().drop_last() =~= Seq::<u8>::empty());
    assert(v <= 0xffff);
    text::lemma_numeral_read_back(v, 16);
    reveal_with_fuel(text::numeral, 5);
    be::lemma_be_bytes_of_value(b);
}

/// Text without dots stands for no IPv4 address.
proof fn lemma_no_dot_no_ipv4(s: Seq<u8>)
    requires
        forall|i: int| 0 <= i < s.len() ==> #[trigger] s[i] != 46,
    ensures
        ipv4(s) is None,
{
    text::lemma_find(s, 46);
}

proof fn lemma_gap_free(d: Seq<u8>, r: Seq<u8>)
    requires
        forall|i: int| 0 <= i < d.len() ==> #[trigger] d[i] != 58,
        r.len() > 0,
        r[0] != 58,
        find_gap(r) == r.len(),
    ensures
        find_gap(d + (seq![58u8] + r)) == d.len() + 1 + r.len(),
    decreases d.len(),
{
    let s = d + (seq![58u8] + r);
    if d.len() == 0 {
        assert(s =~= seq![58u8] + r);
        assert(s[1] == r[0]);
        assert(s.skip(1) =~= r);
    } else {
        assert(s[0] == d[0]);
        assert(s.skip(1) =~= d.skip(1) + (seq![58u8] + r));
        assert forall|i: int| 0 <= i < d.skip(1).len() implies #[trigger] d.skip(1)[i] != 58 by {
            assert(d.skip(1)[i] == d[i + 1]);
        }
        lemma_gap_free(d.skip(1), r);
    }
}

proof fn lemma_gap_free_digits(d: Seq<u8>)
    requires
        forall|i: int| 0 <= i < d.len() ==> #[trigger] d[i] != 58,
    ensures
        find_gap(d) == d.len(),
    decreases d.len(),
{
    if d.len() >= 2 {
        assert(d[0] != 58);
        assert forall|i: int| 0 <= i < d.skip(1).len() implies #[trigger] d.skip(1)[i] != 58 by {
            assert(d.skip(1)[i] == d[i + 1]);
        }
        lemma_gap_free_digits(d.skip(1));
    }
}

/// Hexadecimal groups are read back as the bytes that they were written for.
proof fn lemma_groups_read_back(a: Seq<u8>)
    requires
        a.len() >= 2,
        a.len() % 2 == 0,
    ensures
        ({
            let e = encode_utf8(groups_text(a));
            &&& groups(e, true) == Some(a)
            &&& e.len() > 0
            &&& e[0] != 58
            &&& find_gap(e) == e.len()
            &&& forall|i: int| 0 <= i < e.len() ==> #[trigger] e[i] != 46
        }),
    decreases a.len(),
{
    let b = a.take(2);
    let n = text::numeral(be::be_value(b), 16);
    let d = encode_utf8(n);
    let e = encode_utf8(groups_text(a));
    lemma_group_read_back(b);
    text::lemma_numeral_read_back(be::be_value(b), 16);
    assert forall|i: int| 0 <= i < d.len() implies #[trigger] d[i] != 58 && d[i] != 46 by {
        assert(text::digit_value(d[i], 16) is Some);
    }
    if a.len() == 2 {
        assert(b =~= a);
        text::lemma_find_after(d, Seq::empty(), 58);
        assert(d + Seq::<u8>::empty() =~= d);
        lemma_no_dot_no_ipv4(d);
        lemma_gap_free_digits(d);
    } else {
        let r = encode_utf8(groups_text(a.skip(2)));
        lemma_groups_read_back(a.skip(2));
        text::lemma_encode_concat(n + seq![':'], groups_text(a.skip(2)));
        text::lemma_encode_concat(n, seq![':']);
        text::lemma_encode_ascii(':');
        assert(e =~= d + (seq![58u8] + r));
        text::lemma_find_after(d, seq![58u8] + r, 58);
        assert((seq![58u8] + r)[0] == 58);
        let k = d.len() as int;
        assert(e.take(k) =~= d);
        assert(e.skip(k + 1) =~= r);
        assert(b + a.skip(2) =~= a);
        lemma_gap_free(d, r);
        assert forall|i: int| 0 <= i < e.len() implies #[trigger] e[i] != 46 by {
            if i < k {
                assert(e[i] == d[i]);
            } else if i > k {
                assert(e[i] == r[i - k - 1]);
            }
        }
    }
}

spec fn in_address(b: u8) -> bool {
    b != 47 && b != 32 && b != 45
}

/// Dotted decimal holds only digits and dots.
proof fn lemma_dotted_text_bytes(a: Seq<u8>)
    ensures
        forall|i: int|
            0 <= i < encode_utf8(dotted_text(a)).len() ==> in_address(
                #[trigger] encode_utf8(dotted_text(a))[i],
            ),
    decreases a.len(),
{
    let e = encode_utf8(dotted_text(a));
    if a.len() >= 1 {
        let d = encode_utf8(text::decimal(a[0] as nat));
        text::lemma_numeral_read_back(a[0] as nat, 10);
        assert forall|i: int| 0 <= i < d.len() implies in_address(#[trigger] d[i]) by {
            assert(text::digit_value(d[i], 10) is Some);
        }
        if a.len() > 1 {
            let r = encode_utf8(dotted_text(a.skip(1)));
            lemma_dotted_text_bytes(a.skip(1));
            text::lemma_encode_concat(
                text::decimal(a[0] as nat) + seq!['.'],
                dotted_text(a.skip(1)),
            );
            text::lemma_encode_concat(text::decimal(a[0] as nat), seq!['.']);
            text::lemma_encode_ascii('.');
            assert(e =~= d + (seq![46u8] + r));
            assert forall|i: int| 0 <= i < e.len() implies in_address(#[trigger] e[i]) by {
                if i < d.len() {
                    assert(e[i] == d[i]);
                } else if i > d.len() {
                    assert(e[i] == r[i - d.len() - 1]);
                }
            }
        }
    }
}

/// Hexadecimal groups hold only digits and colons.
proof fn lemma_groups_text_bytes(a: Seq<u8>)
    ensures
        forall|i: int|
            0 <= i < encode_utf8(groups_text(a)).len() ==> in_address(
                #[trigger] encode_utf8(groups_text(a))[i],
            ),
    decreases a.len(),
{
    let e = encode_utf8(groups_text(a));
    if a.len() >= 2 {
        let n = text::numeral(be::be_value(a.take(2)), 16);
        let d = encode_utf8(n);
        text::lemma_numeral_read_back(be::be_value(a.take(2)), 16);
        assert forall|i: int| 0 <= i < d.len() implies in_address(#[trigger] d[i]) by {
            assert(text::digit_value(d[i], 16) is Some);
        }
        if a.len() >= 4 {
            let r = encode_utf8(groups_text(a.skip(2)));
            lemma_groups_text_bytes(a.skip(2));
            text::lemma_encode_concat(n + seq![':'], groups_text(a.skip(2)));
            text::lemma_encode_concat(n, seq![':']);
            text::lemma_encode_ascii(':');
            assert(e =~= d + (seq![58u8] + r));
            assert forall|i: int| 0 <= i < e.len() implies in_address(#[trigger] e[i]) by {
                if i < d.len() {
                    assert(e[i] == d[i]);
                } else if i > d.len() {
                    assert(e[i] == r[i - d.len() - 1]);
                }
            }
        }
    }
}

/// The text of an address holds no slash, no space and no dash.
pub proof fn lemma_address_text_bytes(k: Seq<u8>)
    requires
        k.len() == 4 || k.len() == 16,
    ensures
        forall|i: int|
            0 <= i < encode_utf8(key_text(k)).len() ==> {
                &&& #[trigger] encode_utf8(key_text(k))[i] != 47
                &&& encode_utf8(key_text(k))[i] != 32
                &&& encode_utf8(key_text(k))[i] != 45
            },
{
    lemma_dotted_text_bytes(k);
    lemma_groups_text_bytes(k);
}

/// An address that was written as a key is read back as the same bytes.
pub proof fn lemma_address_read_back(k: Seq<u8>)
    requires
        k.len() == 4 || k.len() == 16,
    ensures
        address(encode_utf8(key_text(k))) == Some(k),
{
    if k.len() == 4 {
        lemma_dotted_read_back(k);
    } else {
        lemma_groups_read_back(k);
        lemma_no_dot_no_ipv4(encode_utf8(groups_text(k)));
    }
}

fn format_ipv4(a: &[u8]) -> (r: String)
    requires
        a@.len() == 4,
    ensures
        r@ == dotted_text(a@),
{
    let mut s = String::new();
    proof {
        reveal_strlit(".");
        assert("."@ =~= seq!['.']);
        assert(a@.skip(0) =~= a@);
    }
    append_decimal(&mut s, a[0] as u64);
    let mut i: usize = 1;
    proof {
        assert(dotted_text(a@) =~= s@ + seq!['.'] + dotted_text(a@.skip(1)));
    }
    while i < 4
        invariant
            1 <= i <= 4,
            a@.len() == 4,
            "."@ == seq!['.'],
            dotted_text(a@) == if i < 4 {
                s@ + seq!['.'] + dotted_text(a@.skip(i as int))
            } else {
                s@
            },
        decreases 4 - i,
    {
        let ghost rest = a@.skip(i as int);
        let ghost before = s@;
        s.append(".");
        append_decimal(&mut s, a[i] as u64);
        proof {
            assert(rest[0] == a@[i as int]);
            assert(rest.skip(1) =~= a@.skip(i + 1));
            if i < 3 {
                assert(dotted_text(rest) == text::decimal(rest[0] as nat) + seq!['.'] + dotted_text(
                    a@.skip(i + 1),
                ));
                assert(dotted_text(a@) =~= s@ + seq!['.'] + dotted_text(a@.skip(i + 1)));
            } else {
                assert(dotted_text(a@) =~= s@);
            }
        }
        i = i + 1;
    }
    s
}

fn group_value(a: &[u8], i: usize) -> (r: u64)
    requires
        i + 2 <= a@.len(),
    ensures
        r as nat == be::be_value(a@.skip(i as int).take(2)),
{
    proof {
        let g = a@.skip(i as int).take(2);
        reveal_with_fuel(be::be_value, 3);
        assert(g.drop_last() =~= seq![g[0]]);
        assert(g.drop_last().drop_last() =~= Seq::<u8>::empty());
        assert(g[0] == a@[i as int]);
        assert(g[1] == a@[i + 1]);
    }
    (a[i] as u64) * 256 + a[i + 1] as u64
}

/// Writes an IPv6 address as eight groups, no run of zero groups left out.
pub fn format_ipv6(a: &[u8]) -> (r: String)
    requires
        a@.len() == 16,
    ensures
        r@ == groups_text(a@),
{
    let mut s = String::new();
    proof {
        reveal_strlit(":");
        assert(":"@ =~= seq![':']);
        assert(a@.skip(0) =~= a@);
    }
    append_numeral(&mut s, group_value(a, 0), 16);
    let mut i: usize = 2;
    proof {
        assert(groups_text(a@) =~= s@ + seq![':'] + groups_text(a@.skip(2)));
    }
    while i < 16
        invariant
            2 <= i <= 16,
            i % 2 == 0,
            a@.len() == 16,
            ":"@ == seq![':'],
            groups_text(a@) == if i < 16 {
                s@ + seq![':'] + groups_text(a@.skip(i as int))
            } else {
                s@
            },
        decreases 16 - i,
    {
        let ghost rest = a@.skip(i as int);
        s.append(":");
        append_numeral(&mut s, group_value(a, i), 16);
        proof {
            assert(rest.skip(2) =~= a@.skip(i + 2));
            if i < 14 {
                assert(groups_text(a@) =~= s@ + seq![':'] + groups_text(a@.skip(i + 2)));
            } else {
                assert(groups_text(a@) =~= s@);
            }
        }
        i = i + 2;
    }
    s
}

/// Writes an address of `bits` bits, 32 for IPv4 and 128 for IPv6.
pub fn format_addr(addr_data: &[u8], bits: u32) -> (r: String)
    ensures
        r@ == addr_text(addr_data@, bits as nat),
{
    if addr_data.len() == 4 && bits == 32 {
        format_ipv4(addr_data)
    } else if addr_data.len() == 16 && bits == 128 {
        format_ipv6(addr_data)
    } else {
        text::hex(addr_data)
    }
}

/// Writes a key, as an address where its length is that of one.
pub fn format_key(key: &[u8]) -> (r: String)
    ensures
        r@ == key_text(key@),
{
    match key.len() {
        4 => format_addr(key, 32),
        16 => format_addr(key, 128),
        _ => text::hex(key),
    }
}

/// An IPv4 address is shown as its four bytes in decimal with dots between them.
pub proof fn lemma_ipv4_text(a: u8, b: u8, c: u8, d: u8)
    ensures
        key_text(seq![a, b, c, d]) == text::decimal(a as nat) + seq!['.'] + text::decimal(b as nat)
            + seq!['.'] + text::decimal(c as nat) + seq!['.'] + text::decimal(d as nat),
{
    let s = seq![a, b, c, d];
    reveal_with_fuel(dotted_text, 5);
    assert(s.skip(1) =~= seq![b, c, d]);
    assert(s.skip(1).skip(1) =~= seq![c, d]);
    assert(s.skip(1).skip(1).skip(1) =~= seq![d]);
    assert(key_text(s) =~= text::decimal(a as nat) + seq!['.'] + text::decimal(b as nat)
        + seq!['.'] + text::decimal(c as nat) + seq!['.'] + text::decimal(d as nat));
}

/// An IPv6 address is shown as its first group and, behind a colon, the groups that
/// follow; a group is two bytes as a hexadecimal number. What is no address is shown
/// byte by byte.
pub proof fn lemma_ipv6_text(a: Seq<u8>)
    ensures
        a.len() == 16 ==> key_text(a) == groups_text(a),
        a.len() != 4 && a.len() != 16 ==> key_text(a) == text::hex_digits(a),
        a.len() >= 4 ==> groups_text(a) == text::numeral(256 * a[0] as nat + a[1] as nat, 16)
            + seq![':'] + groups_text(a.skip(2)),
        a.len() == 2 ==> groups_text(a) == text::numeral(256 * a[0] as nat + a[1] as nat, 16),
{
    if a.len() >= 2 {
        let b = a.take(2);
        assert(b =~= seq![a[0]].push(a[1]));
        be::lemma_be_value_bytes(seq![a[0]], a[1]);
        be::lemma_be_value_bytes(Seq::empty(), a[0]);
    }
}

/// A text between the dots of an IPv4 address is read exactly where it is a number below
/// 256 as it is written.
pub proof fn lemma_octet_exact(s: Seq<u8>, v: u8)
    ensures
        octet(s) == Some(v as nat) <==> s == encode_utf8(text::decimal(v as nat)),
        octet(s) matches Some(n) ==> n <= 255,
{
    lemma_octet_read_back(v);
    if octet(s) == Some(v as nat) {
        text::lemma_canonical_decimal(s);
    }
}

proof fn lemma_dotted_exact(s: Seq<u8>, n: nat)
    ensures
        dotted(s, n) matches Some(a) ==> s == encode_utf8(dotted_text(a)),
    decreases n,
{
    if let Some(a) = dotted(s, n) {
        if n == 1 {
            let v = octet(s).unwrap();
            lemma_octet_exact(s, v as u8);
            assert(a[0] == v);
        } else {
            let k = text::find(s, 46) as int;
            text::lemma_find(s, 46);
            let h = s.take(k);
            let t = s.skip(k + 1);
            let v = octet(h).unwrap();
            let b = dotted(t, (n - 1) as nat).unwrap();
            lemma_octet_exact(h, v as u8);
            lemma_dotted_exact(t, (n - 1) as nat);
            lemma_dotted_len(t, (n - 1) as nat);
            assert(a.skip(1) =~= b);
            assert(a[0] == v);
            text::lemma_encode_concat(text::decimal(v) + seq!['.'], dotted_text(b));
            text::lemma_encode_concat(text::decimal(v), seq!['.']);
            text::lemma_encode_ascii('.');
            assert(s =~= h + seq![46u8] + t);
        }
    }
}

/// A text is an IPv4 address exactly where four bytes are written as it.
pub proof fn lemma_ipv4_exact(s: Seq<u8>, a: Seq<u8>)
    requires
        a.len() == 4,
    ensures
        ipv4(s) == Some(a) <==> s == encode_utf8(key_text(a)),
        ipv4(s) matches Some(b) ==> b.len() == 4,
        ipv4(s) is Some ==> address(s) == ipv4(s),
        ipv4(s) is None ==> address(s) == ipv6(s),
{
    lemma_dotted_read_back(a);
    lemma_dotted_exact(s, 4);
    lemma_dotted_len(s, 4);
}

/// A group is one to four hexadecimal digits; it stands for two bytes that spell its
/// number.
pub proof fn lemma_group(s: Seq<u8>)
    ensures
        group(s) is Some <==> 1 <= s.len() <= 4 && text::all_digits(s, 16),
        group(s) matches Some(g) ==> g.len() == 2 && be::be_value(g) == text::digits_value(s, 16),
{
    if s.len() <= 4 && text::all_digits(s, 16) {
        assert forall|i: int| 0 <= i < s.len() implies text::digit_value(#[trigger] s[i], 16).unwrap()
            < 16 by {
            assert(text::digit_value(s[i], 16) is Some);
        }
        reveal_with_fuel(text::digits_value, 6);
        assert(text::digits_value(s, 16) <= 0xffff);
        lemma2_to64();
        be::lemma_be_value_of_bytes(text::digits_value(s, 16), 2);
    }
}

/// Groups are read one by one: the first is what stands in front of the first colon, and
/// the last may be an IPv4 address where that is allowed.
pub proof fn lemma_groups_in_parts(a: Seq<u8>, rest: Seq<u8>, dotted_tail: bool)
    requires
        forall|i: int| 0 <= i < a.len() ==> #[trigger] a[i] != 58,
    ensures
        groups(a, dotted_tail) == if dotted_tail && ipv4(a) is Some {
            ipv4(a)
        } else {
            group(a)
        },
        groups(a + seq![58u8] + rest, dotted_tail) == match (group(a), groups(rest, dotted_tail)) {
            (Some(g), Some(r)) => Some(g + r),
            _ => None,
        },
{
    let none = Seq::<u8>::empty();
    text::lemma_find_after(a, none, 58);
    assert(a + none =~= a);
    let s = a + seq![58u8] + rest;
    let t = seq![58u8] + rest;
    assert(s =~= a + t);
    text::lemma_find_after(a, t, 58);
    assert(t[0] == 58);
    assert(s.take(a.len() as int) =~= a);
    assert(s.skip(a.len() as int + 1) =~= rest);
}

/// The first two colons in a row stand for the zero bytes, two at least, that are missing
/// between the groups in front of them and those behind them; without them, the groups
/// make up the whole address.
pub proof fn lemma_ipv6_gap(head: Seq<u8>, tail: Seq<u8>)
    requires
        forall|i: int, j: int|
            0 <= i && j == i + 1 && j < head.len() ==> !(#[trigger] head[i] == 58
                && #[trigger] head[j] == 58),
        head.len() > 0 ==> head.last() != 58,
    ensures
        ({
            let s = head + seq![58u8, 58u8] + tail;
            let h = if head.len() == 0 {
                Some(Seq::empty())
            } else {
                groups(head, false)
            };
            let t = if tail.len() == 0 {
                Some(Seq::empty())
            } else {
                groups(tail, true)
            };
            ipv6(s) == match (h, t) {
                (Some(x), Some(y)) => if x.len() + y.len() <= 14 {
                    Some(x + Seq::new((16 - x.len() - y.len()) as nat, |i: int| 0u8) + y)
                } else {
                    None
                },
                _ => None,
            }
        }),
        ipv6(head) == match groups(head, true) {
            Some(x) => if x.len() == 16 {
                Some(x)
            } else {
                None
            },
            None => None,
        },
{
    let s = head + seq![58u8, 58u8] + tail;
    lemma_find_gap(head, tail);
    assert(s.take(head.len() as int) =~= head);
    assert(s.skip(head.len() as int + 2) =~= tail);
    if let (Some(x), Some(y)) = (groups_or_none(head, false), groups_or_none(tail, true)) {
        if x.len() + y.len() <= 14 {
            let n = (16 - x.len() - y.len()) as nat;
            assert(zeros(n) =~= Seq::new(n, |i: int| 0u8));
        }
    }
}

proof fn lemma_find_gap(head: Seq<u8>, tail: Seq<u8>)
    requires
        forall|i: int, j: int|
            0 <= i && j == i + 1 && j < head.len() ==> !(#[trigger] head[i] == 58
                && #[trigger] head[j] == 58),
        head.len() > 0 ==> head.last() != 58,
    ensures
        find_gap(head + seq![58u8, 58u8] + tail) == head.len(),
        find_gap(head) == head.len(),
    decreases head.len(),
{
    let s = head + seq![58u8, 58u8] + tail;
    if head.len() > 0 {
        let h = head.skip(1);
        assert(s.skip(1) =~= h + seq![58u8, 58u8] + tail);
        assert(s[0] == head[0]);
        if head.len() > 1 {
            assert(s[1] == head[1]);
            assert(h.last() == head.last());
        }
        assert forall|i: int, j: int| 0 <= i && j == i + 1 && j < h.len() implies !(
        #[trigger] h[i] == 58 && #[trigger] h[j] == 58) by {
            assert(h[i] == head[i + 1] && h[j] == head[j + 1]);
        }
        lemma_find_gap(h, tail);
    }
}

/// Bytes are shown as an address where their number and the bits asked for are those of
/// one, and byte by byte otherwise.
pub proof fn lemma_addr_text(a: Seq<u8>, bits: nat)
    ensures
        a.len() == 4 && bits == 32 || a.len() == 16 && bits == 128 ==> addr_text(a, bits)
            == key_text(a),
        !(a.len() == 4 && bits == 32) && !(a.len() == 16 && bits == 128) ==> addr_text(a, bits)
            == text::hex_digits(a),
{
}

} // verus!
