//! Reading netlink attributes.

use crate::be;
use crate::elem::{Elem, ElemView};
use crate::order;
use crate::order::{from_bytes, ByteOrder};
use crate::wire;
use crate::wire::{align_up, ALIGN, NLA_TYPE_MASK};
use vstd::prelude::*;
use vstd::arithmetic::power2::*;
use vstd::slice::{slice_subrange, slice_to_vec};

verus! {

/// The attributes of a set element.
pub const NFTA_SET_ELEM_KEY: u16 = 1;

pub const NFTA_SET_ELEM_FLAGS: u16 = 3;

pub const NFTA_SET_ELEM_TIMEOUT: u16 = 4;

pub const NFTA_SET_ELEM_EXPIRATION: u16 = 5;

pub const NFTA_SET_ELEM_KEY_END: u16 = 10;

/// The attribute that holds the bytes of a key.
pub const NFTA_DATA_VALUE: u16 = 1;

/// The flag of an element that closes an interval.
pub const NFT_SET_ELEM_INTERVAL_END: u32 = 0x1;

/// One attribute: its type, flag bits included, and its payload.
#[verifier::ext_equal]
pub struct AttrView {
    pub raw_type: u16,
    pub payload: Seq<u8>,
}

/// What `s` holds from `n` on.
pub open spec fn tail(s: Seq<u8>, n: int) -> Seq<u8> {
    if n >= s.len() {
        Seq::empty()
    } else {
        s.skip(n)
    }
}

/// The attributes that `b` starts with, up to the first that is cut short or
/// claims to be shorter than its own header.
#[verifier::opaque]
pub open spec fn attrs(order: ByteOrder, b: Seq<u8>) -> Seq<AttrView>
    decreases b.len(),
{
    if b.len() < 4 {
        Seq::empty()
    } else {
        let len = order::value_of(order, b.subrange(0, 2));
        if len < 4 || len > b.len() {
            Seq::empty()
        } else {
            proof {
                wire::lemma_aligned(0, len);
            }
            seq![
                AttrView {
                    raw_type: order::value_of(order, b.subrange(2, 4)) as u16,
                    payload: b.subrange(4, len as int),
                },
            ] + attrs(order, tail(b, wire::aligned(len) as int))
        }
    }
}

/// An attribute's type, without the flag bits.
pub open spec fn type_of(a: AttrView) -> u16 {
    a.raw_type & NLA_TYPE_MASK
}

/// The last attribute of type `t`.
pub open spec fn lookup(s: Seq<AttrView>, t: u16) -> Option<AttrView>
    decreases s.len(),
{
    if s.len() == 0 {
        None
    } else if type_of(s.last()) == t {
        Some(s.last())
    } else {
        lookup(s.drop_last(), t)
    }
}

/// The first attribute of type `t`.
pub open spec fn first(s: Seq<AttrView>, t: u16) -> Option<AttrView>
    decreases s.len(),
{
    if s.len() == 0 {
        None
    } else if type_of(s[0]) == t {
        Some(s[0])
    } else {
        first(s.skip(1), t)
    }
}

/// The bytes of a key, out of the attribute around them.
pub open spec fn data_value(order: ByteOrder, outer: AttrView) -> Option<Seq<u8>> {
    match first(attrs(order, outer.payload), NFTA_DATA_VALUE) {
        Some(inner) => Some(inner.payload),
        None => None,
    }
}

/// The bytes of the key in the last attribute of type `t`.
pub open spec fn key_in(order: ByteOrder, s: Seq<AttrView>, t: u16) -> Option<Seq<u8>> {
    match lookup(s, t) {
        Some(a) => data_value(order, a),
        None => None,
    }
}

/// The number in the last attribute of type `t`: its first `n` bytes, in
/// network byte order.
pub open spec fn scalar_in(s: Seq<AttrView>, t: u16, n: nat) -> Option<nat> {
    match lookup(s, t) {
        Some(a) => Some(be::be_value(a.payload.take(n as int))),
        None => None,
    }
}

/// The last attribute of type `t`, if there is one, has at least `n` bytes.
pub open spec fn holds(s: Seq<AttrView>, t: u16, n: nat) -> bool {
    match lookup(s, t) {
        Some(a) => a.payload.len() >= n,
        None => true,
    }
}

/// An element with a key has numbers that are not cut short.
pub open spec fn elem_readable(order: ByteOrder, s: Seq<AttrView>) -> bool {
    key_in(order, s, NFTA_SET_ELEM_KEY) is Some ==> {
        &&& holds(s, NFTA_SET_ELEM_FLAGS, 4)
        &&& holds(s, NFTA_SET_ELEM_TIMEOUT, 8)
        &&& holds(s, NFTA_SET_ELEM_EXPIRATION, 8)
    }
}

pub open spec fn as_u64(v: Option<nat>) -> Option<u64> {
    match v {
        Some(x) => Some(x as u64),
        None => None,
    }
}

/// The element that the attributes `s` describe.
pub open spec fn elem_of(order: ByteOrder, s: Seq<AttrView>) -> Option<ElemView> {
    match key_in(order, s, NFTA_SET_ELEM_KEY) {
        None => None,
        Some(key) => Some(
            ElemView {
                key,
                is_end: match scalar_in(s, NFTA_SET_ELEM_FLAGS, 4) {
                    Some(flags) => flags as u32 & NFT_SET_ELEM_INTERVAL_END != 0,
                    None => false,
                },
                key_end: match key_in(order, s, NFTA_SET_ELEM_KEY_END) {
                    Some(end) => end,
                    None => Seq::empty(),
                },
                timeout_ms: as_u64(scalar_in(s, NFTA_SET_ELEM_TIMEOUT, 8)),
                expiration_ms: as_u64(scalar_in(s, NFTA_SET_ELEM_EXPIRATION, 8)),
            },
        ),
    }
}

/// There are no attributes in nothing.
pub proof fn lemma_no_attrs(order: ByteOrder)
    ensures
        attrs(order, Seq::empty()) == Seq::<AttrView>::empty(),
{
    reveal(attrs);
}

/// A written attribute is the first one that is read, whatever follows it.
pub proof fn lemma_attr_read_back(order: ByteOrder, t: u16, payload: Seq<u8>, rest: Seq<u8>)
    requires
        4 + payload.len() < 0x1_0000,
    ensures
        attrs(order, wire::attr(order, t, payload) + rest) == seq![
            AttrView { raw_type: t, payload },
        ] + attrs(order, rest),
{
    reveal(attrs);
    reveal(wire::bare_attr);
    reveal(wire::attr_at);
    lemma2_to64();
    let len = 4 + payload.len();
    let a = wire::attr(order, t, payload);
    let b = a + rest;
    wire::lemma_attr_len(order, t, payload);
    order::lemma_value_of_bytes(order, len, 2);
    order::lemma_value_of_bytes(order, t as nat, 2);
    assert(b.subrange(0, 2) =~= order::bytes_of(order, len, 2));
    assert(b.subrange(2, 4) =~= order::bytes_of(order, t as nat, 2));
    assert(b.subrange(4, len as int) =~= payload);
    assert(tail(b, wire::aligned(len) as int) =~= rest);
}

/// A written attribute that holds attributes is the first one that is read,
/// whatever follows it.
pub proof fn lemma_nest_read_back(order: ByteOrder, t: u16, inner: Seq<u8>, rest: Seq<u8>)
    requires
        4 + inner.len() < 0x1_0000,
        inner.len() % 4 == 0,
    ensures
        attrs(order, wire::nest(order, t, inner) + rest) == seq![
            AttrView { raw_type: t | wire::NLA_F_NESTED, payload: inner },
        ] + attrs(order, rest),
{
    reveal(wire::attr_at);
    wire::lemma_aligned(0, 4 + inner.len());
    lemma_attr_read_back(order, t | wire::NLA_F_NESTED, inner, rest);
    assert(wire::attr(order, t | wire::NLA_F_NESTED, inner) =~= wire::nest(order, t, inner));
}

/// The types in use are read back without the flag of a nested attribute.
pub proof fn lemma_type_read_back(t: u16)
    requires
        t <= NLA_TYPE_MASK,
    ensures
        t & NLA_TYPE_MASK == t,
        (t | wire::NLA_F_NESTED) & NLA_TYPE_MASK == t,
{
    assert(t <= 0x3fff ==> t & 0x3fff == t && (t | 0x8000) & 0x3fff == t) by (bit_vector);
}

/// One attribute inside a buffer.
#[derive(Clone, Copy, Debug)]
pub struct NlAttr<'a> {
    pub raw_type: u16,
    pub payload: &'a [u8],
}

impl<'a> View for NlAttr<'a> {
    type V = AttrView;

    open spec fn view(&self) -> AttrView {
        AttrView { raw_type: self.raw_type, payload: self.payload@ }
    }
}

/// The attributes of a sequence of values.
pub open spec fn views(s: Seq<NlAttr<'_>>) -> Seq<AttrView> {
    s.map_values(|a: NlAttr| a@)
}

impl<'a> NlAttr<'a> {
    /// The type, without the flag bits.
    pub fn attr_type(&self) -> (r: u16)
        ensures
            r == type_of(self@),
    {
        self.raw_type & NLA_TYPE_MASK
    }

    /// The number in the first four bytes, in network byte order.
    pub fn as_u32_be(&self) -> (r: u32)
        requires
            self.payload@.len() >= 4,
        ensures
            r as nat == be::be_value(self.payload@.take(4)),
    {
        let v = from_bytes(ByteOrder::Big, self.payload, 0, 4);
        proof {
            lemma2_to64();
            assert(self.payload@.subrange(0, 4) =~= self.payload@.take(4));
        }
        v as u32
    }

    /// The number in the first eight bytes, in network byte order.
    pub fn as_u64_be(&self) -> (r: u64)
        requires
            self.payload@.len() >= 8,
        ensures
            r as nat == be::be_value(self.payload@.take(8)),
    {
        assert(self.payload@.subrange(0, 8) =~= self.payload@.take(8));
        from_bytes(ByteOrder::Big, self.payload, 0, 8)
    }
}

/// Splits `buf` into attributes.
#[verifier::rlimit(30)]
pub fn iter_attrs(order: ByteOrder, buf: &[u8]) -> (r: Vec<NlAttr<'_>>)
    ensures
        views(r@) == attrs(order, buf@),
{
    let mut out: Vec<NlAttr<'_>> = Vec::new();
    let mut pos: usize = 0;
    let len: usize = buf.len();
    proof {
        assert(tail(buf@, 0) =~= buf@);
        assert(views(out@) + attrs(order, buf@) =~= attrs(order, buf@));
    }
    assert forall|b: Seq<u8>| b.len() < 4 implies #[trigger] attrs(order, b) =~= Seq::empty() by {
        reveal(attrs);
    }
    while len - pos >= 4
        invariant_except_break
            forall|b: Seq<u8>| b.len() < 4 ==> #[trigger] attrs(order, b) =~= Seq::empty(),
            pos <= len,
            len == buf@.len(),
            attrs(order, buf@) == views(out@) + attrs(order, tail(buf@, pos as int)),
        ensures
            views(out@) == attrs(order, buf@),
        decreases len - pos,
    {
        let ghost b = tail(buf@, pos as int);
        proof {
            reveal(attrs);
        }
        let nla_len = from_bytes(order, buf, pos, 2);
        let nla_type = from_bytes(order, buf, pos + 2, 2);
        proof {
            lemma2_to64();
            assert(b.subrange(0, 2) =~= buf@.subrange(pos as int, pos + 2));
            assert(b.subrange(2, 4) =~= buf@.subrange(pos + 2, pos + 2 + 2));
        }
        let nla_len = nla_len as usize;
        if nla_len < 4 || nla_len > len - pos {
            assert(views(out@) + Seq::<AttrView>::empty() =~= views(out@));
            break;
        }
        let payload = slice_subrange(buf, pos + 4, pos + nla_len);
        let a = NlAttr { raw_type: nla_type as u16, payload };
        let used = align_up(nla_len, ALIGN);
        let ghost before = out@;
        let ghost rest = attrs(order, tail(b, used as int));
        proof {
            assert(payload@ =~= b.subrange(4, nla_len as int));
            assert(a@ == attrs(order, b)[0]);
            assert(attrs(order, b) == seq![a@] + rest);
        }
        out.push(a);
        pos = if used >= len - pos {
            len
        } else {
            pos + used
        };
        proof {
            assert(tail(b, used as int) =~= tail(buf@, pos as int));
            assert(views(out@) =~= views(before).push(a@));
            assert(views(before) + (seq![a@] + rest) =~= views(out@) + rest);
        }
    }
    out
}

/// A lookup table over the attributes of one level.
pub struct Table<'a> {
    pub items: Vec<NlAttr<'a>>,
}

impl<'a> View for Table<'a> {
    type V = Seq<AttrView>;

    open spec fn view(&self) -> Seq<AttrView> {
        views(self.items@)
    }
}

impl<'a> Table<'a> {
    pub fn new(attrs: Vec<NlAttr<'a>>) -> (r: Table<'a>)
        ensures
            r@ == views(attrs@),
    {
        Table { items: attrs }
    }

    /// Looks an attribute up by its type. Where a type occurs more than once, the
    /// last occurrence wins.
    pub fn get(&self, t: u16) -> (r: Option<NlAttr<'a>>)
        ensures
            match r {
                Some(a) => lookup(self@, t) == Some(a@),
                None => lookup(self@, t) is None,
            },
    {
        let mut i: usize = self.items.len();
        assert(self@.take(i as int) =~= self@);
        while i > 0
            invariant
                i <= self.items@.len(),
                lookup(self@, t) == lookup(self@.take(i as int), t),
            decreases i,
        {
            assert(self@.take(i as int).drop_last() =~= self@.take(i - 1));
            i = i - 1;
            let a = self.items[i];
            if a.attr_type() == t {
                return Some(a);
            }
        }
        None
    }
}

/// Finds the bytes of a key inside the attribute around them.
pub fn unwrap_data_value(order: ByteOrder, outer: &NlAttr<'_>) -> (r: Option<Vec<u8>>)
    ensures
        match r {
            Some(v) => data_value(order, outer@) == Some(v@),
            None => data_value(order, outer@) is None,
        },
{
    let inner = iter_attrs(order, outer.payload);
    let mut i: usize = 0;
    let ghost s = views(inner@);
    assert(s.skip(0) =~= s);
    while i < inner.len()
        invariant
            i <= inner@.len(),
            s == views(inner@),
            s == attrs(order, outer@.payload),
            first(s, NFTA_DATA_VALUE) == first(s.skip(i as int), NFTA_DATA_VALUE),
        decreases inner.len() - i,
    {
        let a = inner[i];
        if a.attr_type() == NFTA_DATA_VALUE {
            return Some(slice_to_vec(a.payload));
        }
        assert(s.skip(i as int).skip(1) =~= s.skip(i + 1));
        i = i + 1;
    }
    None
}

/// Whether the last attribute of type `t`, if there is one, has at least `n`
/// bytes.
fn table_holds(table: &Table<'_>, t: u16, n: usize) -> (r: bool)
    ensures
        r == holds(table@, t, n as nat),
{
    match table.get(t) {
        Some(a) => a.payload.len() >= n,
        None => true,
    }
}

fn table_u64(table: &Table<'_>, t: u16) -> (r: Option<u64>)
    requires
        holds(table@, t, 8),
    ensures
        r == as_u64(scalar_in(table@, t, 8)),
{
    match table.get(t) {
        Some(a) => Some(a.as_u64_be()),
        None => None,
    }
}

fn table_key(order: ByteOrder, table: &Table<'_>, t: u16) -> (r: Option<Vec<u8>>)
    ensures
        match r {
            Some(v) => key_in(order, table@, t) == Some(v@),
            None => key_in(order, table@, t) is None,
        },
{
    match table.get(t) {
        Some(a) => unwrap_data_value(order, &a),
        None => None,
    }
}

impl Elem {
    /// Whether [`Elem::from_attrs`] can read every number that it comes across.
    pub fn attrs_readable(order: ByteOrder, t: &Table<'_>) -> (r: bool)
        ensures
            r == elem_readable(order, t@),
    {
        if table_key(order, t, NFTA_SET_ELEM_KEY).is_none() {
            return true;
        }
        table_holds(t, NFTA_SET_ELEM_FLAGS, 4) && table_holds(t, NFTA_SET_ELEM_TIMEOUT, 8)
            && table_holds(t, NFTA_SET_ELEM_EXPIRATION, 8)
    }

    /// Reads an element out of its attributes. There is none without a key.
    pub fn from_attrs(order: ByteOrder, t: &Table<'_>) -> (r: Option<Elem>)
        requires
            elem_readable(order, t@),
        ensures
            match r {
                Some(e) => elem_of(order, t@) == Some(e@),
                None => elem_of(order, t@) is None,
            },
    {
        let key = match table_key(order, t, NFTA_SET_ELEM_KEY) {
            Some(key) => key,
            None => {
                return None;
            },
        };
        let is_end = match t.get(NFTA_SET_ELEM_FLAGS) {
            Some(f) => f.as_u32_be() & NFT_SET_ELEM_INTERVAL_END != 0,
            None => false,
        };
        let key_end = match table_key(order, t, NFTA_SET_ELEM_KEY_END) {
            Some(end) => end,
            None => Vec::new(),
        };
        let timeout_ms = table_u64(t, NFTA_SET_ELEM_TIMEOUT);
        let expiration_ms = table_u64(t, NFTA_SET_ELEM_EXPIRATION);
        Some(Elem { key, is_end, key_end, timeout_ms, expiration_ms })
    }
}

/// The last attribute of a type is found: whatever comes before it, and whatever of
/// other types comes behind it.
pub proof fn lemma_lookup(before: Seq<AttrView>, a: AttrView, behind: Seq<AttrView>, t: u16)
    requires
        forall|i: int| 0 <= i < behind.len() ==> (#[trigger] behind[i]).raw_type & 0x3fff != t,
    ensures
        a.raw_type & 0x3fff == t ==> lookup(before + seq![a] + behind, t) == Some(a),
        a.raw_type & 0x3fff != t ==> lookup(before + seq![a] + behind, t) == lookup(before, t),
    decreases behind.len(),
{
    let s = before + seq![a] + behind;
    if behind.len() == 0 {
        assert(s =~= before + seq![a]);
        assert(s.last() == a);
        assert(s.drop_last() =~= before);
    } else {
        let b = behind.drop_last();
        assert(s.last() == behind[behind.len() - 1]);
        assert(s.drop_last() =~= before + seq![a] + b);
        assert forall|i: int| 0 <= i < b.len() implies (#[trigger] b[i]).raw_type & 0x3fff != t by {
            assert(b[i] == behind[i]);
        }
        lemma_lookup(before, a, b, t);
    }
}

/// No attribute is found where there is none of the type.
pub proof fn lemma_lookup_none(s: Seq<AttrView>, t: u16)
    requires
        forall|i: int| 0 <= i < s.len() ==> (#[trigger] s[i]).raw_type & 0x3fff != t,
    ensures
        lookup(s, t) is None,
        first(s, t) is None,
    decreases s.len(),
{
    if s.len() > 0 {
        assert(s.last() == s[s.len() - 1]);
        let b = s.drop_last();
        assert forall|i: int| 0 <= i < b.len() implies (#[trigger] b[i]).raw_type & 0x3fff != t by {
            assert(b[i] == s[i]);
        }
        lemma_lookup_none(b, t);
        let c = s.skip(1);
        assert forall|i: int| 0 <= i < c.len() implies (#[trigger] c[i]).raw_type & 0x3fff != t by {
            assert(c[i] == s[i + 1]);
        }
        lemma_lookup_none(c, t);
    }
}

/// The first attribute of a type is found, whatever comes behind it.
pub proof fn lemma_first(before: Seq<AttrView>, a: AttrView, behind: Seq<AttrView>, t: u16)
    requires
        forall|i: int| 0 <= i < before.len() ==> (#[trigger] before[i]).raw_type & 0x3fff != t,
        a.raw_type & 0x3fff == t,
    ensures
        first(before + seq![a] + behind, t) == Some(a),
    decreases before.len(),
{
    let s = before + seq![a] + behind;
    if before.len() == 0 {
        assert(s[0] == a);
    } else {
        let b = before.skip(1);
        assert(s[0] == before[0]);
        assert(s.skip(1) =~= b + seq![a] + behind);
        assert forall|i: int| 0 <= i < b.len() implies (#[trigger] b[i]).raw_type & 0x3fff != t by {
            assert(b[i] == before[i + 1]);
        }
        lemma_first(b, a, behind, t);
    }
}

/// The flag bits of an attribute's type do not count.
pub proof fn lemma_type_flags(raw: u16, t: u16)
    requires
        t <= 0x3fff,
    ensures
        type_of(AttrView { raw_type: t, payload: Seq::empty() }) == t,
        type_of(AttrView { raw_type: t | 0x8000, payload: Seq::empty() }) == t,
        type_of(AttrView { raw_type: t | 0x4000, payload: Seq::empty() }) == t,
        type_of(AttrView { raw_type: t | 0xc000, payload: Seq::empty() }) == t,
        type_of(AttrView { raw_type: raw, payload: Seq::empty() }) <= 0x3fff,
{
    assert(t <= 0x3fff ==> t & 0x3fff == t && (t | 0x8000) & 0x3fff == t && (t | 0x4000) & 0x3fff
        == t && (t | 0xc000) & 0x3fff == t && raw & 0x3fff <= 0x3fff) by (bit_vector);
}

/// An attribute is as long as its header says, and the next one starts at the next
/// multiple of four; what fills the gap does not count. An attribute that is longer
/// than what is left, or shorter than its header, ends the list.
pub proof fn lemma_attrs_step(order: ByteOrder, b: Seq<u8>, len: nat)
    requires
        b.len() >= 4,
        len == order::value_of(order, b.subrange(0, 2)),
    ensures
        4 <= len <= b.len() ==> {
            &&& attrs(order, b).len() > 0
            &&& attrs(order, b)[0].raw_type == order::value_of(order, b.subrange(2, 4))
            &&& attrs(order, b)[0].payload == b.subrange(4, len as int)
            &&& forall|n: int|
                len <= n < len + 4 && n % 4 == 0 && n <= b.len() ==> attrs(order, b).skip(1)
                    == attrs(order, #[trigger] b.skip(n))
            &&& b.len() < (len + 3) / 4 * 4 ==> attrs(order, b).len() == 1
        },
        len < 4 || len > b.len() ==> attrs(order, b).len() == 0,
{
    reveal(attrs);
    reveal(wire::aligned);
    lemma2_to64();
    order::lemma_value_bound(order, b.subrange(2, 4));
    if 4 <= len <= b.len() {
        let rest = tail(b, wire::aligned(len) as int);
        assert(attrs(order, b).skip(1) =~= attrs(order, rest));
        assert forall|n: int| len <= n < len + 4 && n % 4 == 0 && n <= b.len() implies attrs(
            order,
            b,
        ).skip(1) == attrs(order, #[trigger] b.skip(n)) by {
            assert(n == wire::aligned(len));
            assert(rest =~= b.skip(n));
        }
    }
}

/// The parts of an element come from their own attributes: the key and the upper
/// bound from the bytes inside, the numbers from their bytes in network order, and
/// the kind from the lowest bit of the flags.
pub proof fn lemma_elem_parts(order: ByteOrder, s: Seq<AttrView>)
    ensures
        elem_of(order, s) is Some <==> (lookup(s, 1) matches Some(a) && first(
            attrs(order, a.payload),
            1,
        ) is Some),
        elem_of(order, s) matches Some(e) ==> {
            &&& e.key == first(attrs(order, lookup(s, 1).unwrap().payload), 1).unwrap().payload
            &&& (lookup(s, 3) is None ==> !e.is_end)
            &&& (lookup(s, 3) matches Some(a) ==> (a.payload.len() >= 4 ==> e.is_end == (
            be::be_value(a.payload.take(4)) % 2 == 1)))
            &&& (lookup(s, 4) is None ==> e.timeout_ms is None)
            &&& (lookup(s, 4) matches Some(a) ==> (a.payload.len() >= 8 ==> e.timeout_ms is Some
                && e.timeout_ms.unwrap() == be::be_value(a.payload.take(8))))
            &&& (lookup(s, 5) is None ==> e.expiration_ms is None)
            &&& (lookup(s, 5) matches Some(a) ==> (a.payload.len() >= 8 ==> e.expiration_ms is Some
                && e.expiration_ms.unwrap() == be::be_value(a.payload.take(8))))
            &&& e.key_end == (match lookup(s, 10) {
                Some(a) => match first(attrs(order, a.payload), 1) {
                    Some(inner) => inner.payload,
                    None => Seq::empty(),
                },
                None => Seq::empty(),
            })
        },
{
    lemma2_to64();
    if let Some(a) = lookup(s, 3) {
        be::lemma_be_value_bound(a.payload.take(4));
        let f = be::be_value(a.payload.take(4)) as u32;
        assert((f & 1 != 0) == (f % 2 == 1)) by (bit_vector);
    }
    if let Some(a) = lookup(s, 4) {
        be::lemma_be_value_bound(a.payload.take(8));
    }
    if let Some(a) = lookup(s, 5) {
        be::lemma_be_value_bound(a.payload.take(8));
    }
}

/// Attributes that say nothing of an element change nothing in it.
pub proof fn lemma_other_attrs_ignored(
    order: ByteOrder,
    before: Seq<AttrView>,
    a: AttrView,
    behind: Seq<AttrView>,
)
    requires
        a.raw_type & 0x3fff != 1,
        a.raw_type & 0x3fff != 3,
        a.raw_type & 0x3fff != 4,
        a.raw_type & 0x3fff != 5,
        a.raw_type & 0x3fff != 10,
    ensures
        elem_of(order, before + seq![a] + behind) == elem_of(order, before + behind),
{
    lemma_lookup_skips(before, a, behind, 1);
    lemma_lookup_skips(before, a, behind, 3);
    lemma_lookup_skips(before, a, behind, 4);
    lemma_lookup_skips(before, a, behind, 5);
    lemma_lookup_skips(before, a, behind, 10);
}

proof fn lemma_lookup_skips(before: Seq<AttrView>, a: AttrView, behind: Seq<AttrView>, t: u16)
    ensures
        a.raw_type & 0x3fff != t ==> lookup(before + seq![a] + behind, t) == lookup(
            before + behind,
            t,
        ),
    decreases behind.len(),
{
    let s = before + seq![a] + behind;
    let u = before + behind;
    if behind.len() == 0 {
        assert(s.drop_last() =~= before);
        assert(u =~= before);
        assert(s.last() == a);
    } else {
        assert(s.last() == behind.last() && u.last() == behind.last());
        assert(s.drop_last() =~= before + seq![a] + behind.drop_last());
        assert(u.drop_last() =~= before + behind.drop_last());
        lemma_lookup_skips(before, a, behind.drop_last(), t);
    }
}

/// Less than a header is no attribute.
pub proof fn lemma_short_attrs(order: ByteOrder, b: Seq<u8>)
    requires
        b.len() < 4,
    ensures
        attrs(order, b).len() == 0,
{
    reveal(attrs);
}

} // verus!
