//! Netlink messages and attributes as bytes.

use crate::addr;
use crate::be;
use crate::order;
use crate::order::{to_bytes, ByteOrder};
use vstd::arithmetic::power2::*;
use vstd::prelude::*;
use vstd::utf8::*;

verus! {

/// Messages and attributes start at multiples of this.
pub const ALIGN: usize = 4;

/// The bytes of a netlink message header.
pub const NLMSG_HDRLEN: usize = 16;

/// The bytes of the nfnetlink header behind it.
pub const NFG_HDRLEN: usize = 4;

pub const NFNETLINK_V0: u8 = 0;

pub const NLA_F_NESTED: u16 = 0x8000;

/// The bits of an attribute's type that are not flags.
pub const NLA_TYPE_MASK: u16 = 0x3fff;

/// The first multiple of [`ALIGN`] from `n` on.
#[verifier::opaque]
pub open spec fn aligned(n: nat) -> nat {
    (n + 3) / 4 * 4
}

/// Rounding up goes to a multiple of [`ALIGN`], by less than that, and leaves what
/// is in front of it alone where that is a multiple.
pub proof fn lemma_aligned(m: nat, n: nat)
    ensures
        aligned(n) % 4 == 0,
        n <= aligned(n) < n + 4,
        n % 4 == 0 ==> aligned(n) == n,
        m % 4 == 0 ==> aligned(m + n) == m + aligned(n),
{
    reveal(aligned);
}

/// How many bytes are missing from `n` to a multiple of [`ALIGN`].
pub open spec fn padding(n: nat) -> nat {
    (aligned(n) - n) as nat
}

/// An attribute's header and payload, without the padding behind it.
#[verifier::opaque]
pub open spec fn bare_attr(order: ByteOrder, t: u16, payload: Seq<u8>) -> Seq<u8> {
    order::bytes_of(order, 4 + payload.len(), 2) + order::bytes_of(order, t as nat, 2) + payload
}

/// An attribute that starts at the offset `at`, padded so that the next one
/// starts at a multiple of [`ALIGN`].
#[verifier::opaque]
pub open spec fn attr_at(order: ByteOrder, at: nat, t: u16, payload: Seq<u8>) -> Seq<u8> {
    bare_attr(order, t, payload) + addr::zeros(padding(at + 4 + payload.len()))
}

/// An attribute, padded.
pub open spec fn attr(order: ByteOrder, t: u16, payload: Seq<u8>) -> Seq<u8> {
    attr_at(order, 0, t, payload)
}

/// An attribute that holds attributes, which are padded already.
pub open spec fn nest(order: ByteOrder, t: u16, attrs: Seq<u8>) -> Seq<u8> {
    bare_attr(order, t | NLA_F_NESTED, attrs)
}

/// A text as the payload of an attribute: its bytes, and a zero byte.
pub open spec fn stringz(s: Seq<char>) -> Seq<u8> {
    encode_utf8(s).push(0)
}

/// The two headers of a message that is `len` bytes long with them.
#[verifier::opaque]
pub open spec fn header(
    order: ByteOrder,
    len: nat,
    kind: u16,
    family: u8,
    seq: u32,
    flags: u16,
    res_id: u16,
) -> Seq<u8> {
    order::bytes_of(order, len, 4) + order::bytes_of(order, kind as nat, 2) + order::bytes_of(
        order,
        flags as nat,
        2,
    ) + order::bytes_of(order, seq as nat, 4) + order::bytes_of(order, 0, 4) + seq![
        family,
        NFNETLINK_V0,
    ] + be::be_bytes(res_id as nat, 2)
}

/// A message with the attributes `body`.
pub open spec fn message(
    order: ByteOrder,
    kind: u16,
    family: u8,
    seq: u32,
    flags: u16,
    res_id: u16,
    body: Seq<u8>,
) -> Seq<u8> {
    header(order, 20 + body.len(), kind, family, seq, flags, res_id) + body
}

/// `s` with the bytes from `off` on replaced by `b`.
#[verifier::opaque]
pub open spec fn patched(s: Seq<u8>, off: int, b: Seq<u8>) -> Seq<u8> {
    s.take(off) + b + s.skip(off + b.len())
}

pub proof fn lemma_bytes_of_len(order: ByteOrder, v: nat, n: nat)
    ensures
        order::bytes_of(order, v, n).len() == n,
{
    reveal(order::bytes_of);
    be::lemma_be_bytes_len(v, n);
}

pub proof fn lemma_attr_len(order: ByteOrder, t: u16, payload: Seq<u8>)
    ensures
        bare_attr(order, t, payload).len() == 4 + payload.len(),
        attr(order, t, payload).len() == aligned(4 + payload.len()),
        aligned(4 + payload.len()) % 4 == 0,
        4 + payload.len() <= aligned(4 + payload.len()) < 8 + payload.len(),
        payload.len() % 4 == 0 ==> aligned(4 + payload.len()) == 4 + payload.len(),
        nest(order, t, payload).len() == 4 + payload.len(),
{
    reveal(bare_attr);
    reveal(attr_at);
    lemma_aligned(0, 4 + payload.len());
    lemma_bytes_of_len(order, 4 + payload.len(), 2);
    lemma_bytes_of_len(order, t as nat, 2);
    lemma_bytes_of_len(order, (t | NLA_F_NESTED) as nat, 2);
}

pub proof fn lemma_header_len(
    order: ByteOrder,
    len: nat,
    kind: u16,
    family: u8,
    seq: u32,
    flags: u16,
    res_id: u16,
)
    ensures
        header(order, len, kind, family, seq, flags, res_id).len() == 20,
{
    reveal(header);
    lemma_bytes_of_len(order, len, 4);
    lemma_bytes_of_len(order, kind as nat, 2);
    lemma_bytes_of_len(order, flags as nat, 2);
    lemma_bytes_of_len(order, seq as nat, 4);
    lemma_bytes_of_len(order, 0, 4);
    be::lemma_be_bytes_len(res_id as nat, 2);
}

/// Writing the length of `s` into the header of an attribute that was opened
/// empty gives the attribute that holds `s`.
pub proof fn lemma_close_attr(order: ByteOrder, before: Seq<u8>, t: u16, s: Seq<u8>)
    ensures
        patched(
            before + bare_attr(order, t, Seq::empty()) + s,
            before.len() as int,
            order::bytes_of(order, 4 + s.len(), 2),
        ) == before + bare_attr(order, t, s),
{
    reveal(bare_attr);
    reveal(patched);
    lemma_bytes_of_len(order, 4 + s.len(), 2);
    lemma_attr_len(order, t, s);
    lemma_attr_len(order, t, Seq::empty());
    lemma_bytes_of_len(order, t as nat, 2);
    lemma_bytes_of_len(order, 4, 2);
    assert(patched(
        before + bare_attr(order, t, Seq::empty()) + s,
        before.len() as int,
        order::bytes_of(order, 4 + s.len(), 2),
    ) =~= before + bare_attr(order, t, s));
}

/// Writing the headers in front of `body` gives a message.
pub proof fn lemma_message_patched(
    order: ByteOrder,
    before: Seq<u8>,
    kind: u16,
    family: u8,
    seq: u32,
    flags: u16,
    res_id: u16,
    body: Seq<u8>,
)
    ensures
        patched(
            before + addr::zeros(20) + body,
            before.len() as int,
            header(order, 20 + body.len(), kind, family, seq, flags, res_id),
        ) == before + message(order, kind, family, seq, flags, res_id, body),
{
    reveal(patched);
    lemma_header_len(order, 20 + body.len(), kind, family, seq, flags, res_id);
    assert(patched(
        before + addr::zeros(20) + body,
        before.len() as int,
        header(order, 20 + body.len(), kind, family, seq, flags, res_id),
    ) =~= before + message(order, kind, family, seq, flags, res_id, body));
}

/// Writing another sequence number into a message gives the message with that
/// number.
pub proof fn lemma_seq_patched(
    order: ByteOrder,
    kind: u16,
    family: u8,
    seq: u32,
    flags: u16,
    res_id: u16,
    body: Seq<u8>,
    to: u32,
)
    ensures
        patched(
            message(order, kind, family, seq, flags, res_id, body),
            8,
            order::bytes_of(order, to as nat, 4),
        ) == message(order, kind, family, to, flags, res_id, body),
{
    reveal(header);
    reveal(patched);
    let len = 20 + body.len();
    lemma_header_len(order, len, kind, family, seq, flags, res_id);
    lemma_header_len(order, len, kind, family, to, flags, res_id);
    lemma_bytes_of_len(order, len, 4);
    lemma_bytes_of_len(order, kind as nat, 2);
    lemma_bytes_of_len(order, flags as nat, 2);
    lemma_bytes_of_len(order, seq as nat, 4);
    lemma_bytes_of_len(order, to as nat, 4);
    assert(patched(
        message(order, kind, family, seq, flags, res_id, body),
        8,
        order::bytes_of(order, to as nat, 4),
    ) =~= message(order, kind, family, to, flags, res_id, body));
}

/// Rounds `n` up to a multiple of `a`, a power of two.
pub fn align_up(n: usize, a: usize) -> (r: usize)
    requires
        a > 0,
        n + a - 1 <= usize::MAX,
    ensures
        r == ((n + a - 1) as usize) & !((a - 1) as usize),
        a & ((a - 1) as usize) == 0 ==> n <= r < n + a && r & ((a - 1) as usize) == 0,
        a == ALIGN ==> r == aligned(n as nat),
{
    let r = (n + (a - 1)) & !(a - 1);
    proof {
        reveal(aligned);
        let m = (n + a - 1) as usize;
        assert(a & ((a - 1) as usize) == 0 ==> n <= r < n + a && r & ((a - 1) as usize) == 0)
            by (bit_vector)
            requires
                a > 0,
                m == n + a - 1,
                r == m & !((a - 1) as usize),
        ;
        assert(a == 4 ==> r == m / 4 * 4) by (bit_vector)
            requires
                r == m & !((a - 1) as usize),
        ;
    }
    r
}

fn patch(buf: &mut Vec<u8>, off: usize, b: &Vec<u8>)
    requires
        off + b@.len() <= old(buf)@.len(),
    ensures
        final(buf)@ == patched(old(buf)@, off as int, b@),
        final(buf)@.len() == old(buf)@.len(),
{
    let ghost before = buf@;
    let mut i: usize = 0;
    let len: usize = buf.len();
    while i < b.len()
        invariant
            i <= b@.len(),
            off + b@.len() <= len,
            len == before.len(),
            buf@.len() == len,
            forall|j: int|
                0 <= j < len ==> #[trigger] buf@[j] == if off <= j < off + i {
                    b@[j - off]
                } else {
                    before[j]
                },
        decreases b.len() - i,
    {
        let x = b[i];
        buf.set(off + i, x);
        i = i + 1;
    }
    proof {
        reveal(patched);
        assert(buf@ =~= patched(before, off as int, b@));
    }
}

fn append_zeros(buf: &mut Vec<u8>, n: usize)
    ensures
        final(buf)@ == old(buf)@ + addr::zeros(n as nat),
{
    let ghost before = buf@;
    let mut i: usize = 0;
    assert(buf@ =~= before + addr::zeros(0));
    while i < n
        invariant
            i <= n,
            buf@ == before + addr::zeros(i as nat),
        decreases n - i,
    {
        buf.push(0);
        i = i + 1;
        assert(buf@ =~= before + addr::zeros(i as nat));
    }
}

fn append_slice(buf: &mut Vec<u8>, s: &[u8])
    ensures
        final(buf)@ == old(buf)@ + s@,
{
    let ghost before = buf@;
    buf.extend_from_slice(s);
    assert(buf@ =~= before + s@);
}

/// A byte buffer in which messages grow.
pub struct MsgBuf {
    pub buf: Vec<u8>,
    pub order: ByteOrder,
}

impl View for MsgBuf {
    type V = Seq<u8>;

    open spec fn view(&self) -> Seq<u8> {
        self.buf@
    }
}

impl MsgBuf {
    /// What is in the buffer ends at a multiple of [`ALIGN`]. Every buffer is
    /// made so, and stays so.
    pub open spec fn wf(&self) -> bool {
        self@.len() % 4 == 0
    }

    /// An empty buffer for messages in the given byte order.
    pub fn new(order: ByteOrder) -> (r: MsgBuf)
        ensures
            r@ == Seq::<u8>::empty(),
            r.order == order,
            r.wf(),
    {
        MsgBuf { buf: Vec::with_capacity(256), order }
    }

    pub fn as_bytes(&self) -> (r: &[u8])
        ensures
            r@ == self@,
    {
        self.buf.as_slice()
    }

    /// Makes room for the headers of a message, and returns where it starts.
    pub fn put_header(&mut self) -> (off: usize)
        requires
            old(self)@.len() + 20 <= isize::MAX,
        ensures
            off == old(self)@.len(),
            final(self)@ == old(self)@ + addr::zeros(20),
            final(self).order == old(self).order,
            old(self).wf() ==> final(self).wf(),
    {
        let off = self.buf.len();
        append_zeros(&mut self.buf, NLMSG_HDRLEN + NFG_HDRLEN);
        off
    }

    /// Writes the headers of the message that starts at `off` and ends with the
    /// buffer. The reserved id is in network byte order.
    pub fn set_header(
        &mut self,
        off: usize,
        nlmsg_type: u16,
        family: u8,
        seq: u32,
        flags: u16,
        res_id: u16,
    )
        requires
            off + 20 <= old(self)@.len(),
        ensures
            final(self)@ == patched(
                old(self)@,
                off as int,
                header(
                    old(self).order,
                    (old(self)@.len() - off) as nat,
                    nlmsg_type,
                    family,
                    seq,
                    flags,
                    res_id,
                ),
            ),
            final(self).order == old(self).order,
            final(self)@.len() == old(self)@.len(),
            old(self).wf() ==> final(self).wf(),
    {
        let total = (self.buf.len() - off) as u64;
        let mut h: Vec<u8> = to_bytes(self.order, total, 4);
        append_slice(&mut h, to_bytes(self.order, nlmsg_type as u64, 2).as_slice());
        append_slice(&mut h, to_bytes(self.order, flags as u64, 2).as_slice());
        append_slice(&mut h, to_bytes(self.order, seq as u64, 4).as_slice());
        append_slice(&mut h, to_bytes(self.order, 0, 4).as_slice());
        let ghost g = h@;
        h.push(family);
        h.push(NFNETLINK_V0);
        assert(h@ =~= g + seq![family, NFNETLINK_V0]);
        append_slice(&mut h, to_bytes(ByteOrder::Big, res_id as u64, 2).as_slice());
        proof {
            reveal(order::bytes_of);
            reveal(header);
            lemma_header_len(self.order, total as nat, nlmsg_type, family, seq, flags, res_id);
        }
        patch(&mut self.buf, off, &h);
    }

    /// Writes the sequence number of the message that starts at `off`.
    pub fn fix_seq_at(&mut self, off: usize, seq: u32)
        requires
            off + 12 <= old(self)@.len(),
        ensures
            final(self)@ == patched(
                old(self)@,
                off + 8,
                order::bytes_of(old(self).order, seq as nat, 4),
            ),
            final(self).order == old(self).order,
            final(self)@.len() == old(self)@.len(),
            old(self).wf() ==> final(self).wf(),
    {
        let b = to_bytes(self.order, seq as u64, 4);
        let len: usize = self.buf.len();
        assert(off + 12 <= len);
        patch(&mut self.buf, off + 8, &b);
    }

    /// Appends an attribute and the padding behind it.
    pub fn put_attr(&mut self, t: u16, flags: u16, payload: &[u8])
        requires
            aligned(old(self)@.len() + 4 + payload@.len()) <= isize::MAX,
        ensures
            final(self)@ == old(self)@ + attr_at(
                old(self).order,
                old(self)@.len(),
                t | flags,
                payload@,
            ),
            old(self).wf() ==> final(self)@ == old(self)@ + attr(
                old(self).order,
                t | flags,
                payload@,
            ),
            final(self).order == old(self).order,
            final(self).wf(),
    {
        let ghost before = self@;
        proof {
            lemma_aligned(before.len(), 4 + payload@.len());
            lemma_aligned(0, before.len() + 4 + payload@.len());
        }
        let nla_len = (4 + payload.len()) as u64;
        append_slice(&mut self.buf, to_bytes(self.order, nla_len, 2).as_slice());
        append_slice(&mut self.buf, to_bytes(self.order, (t | flags) as u64, 2).as_slice());
        append_slice(&mut self.buf, payload);
        let unpadded = self.buf.len();
        let padded = align_up(unpadded, ALIGN);
        append_zeros(&mut self.buf, padded - unpadded);
        proof {
            reveal(bare_attr);
            reveal(attr_at);
            let b = bare_attr(self.order, t | flags, payload@);
            lemma_attr_len(self.order, t | flags, payload@);
            let z = addr::zeros(padding(before.len() + 4 + payload@.len()));
            assert(self@ =~= before + b + z);
            assert(before + b + z =~= before + (b + z));
            assert(before.len() % 4 == 0 ==> padding(before.len() + 4 + payload@.len()) == padding(
                4 + payload@.len(),
            ));
        }
    }

    /// Appends a text as an attribute, with a zero byte behind it.
    pub fn put_attr_stringz(&mut self, t: u16, s: &str)
        requires
            aligned(old(self)@.len() + 4 + stringz(s@).len()) <= isize::MAX,
        ensures
            final(self)@ == old(self)@ + attr_at(
                old(self).order,
                old(self)@.len(),
                t,
                stringz(s@),
            ),
            old(self).wf() ==> final(self)@ == old(self)@ + attr(
                old(self).order,
                t,
                stringz(s@),
            ),
            final(self).order == old(self).order,
            final(self).wf(),
    {
        let mut payload: Vec<u8> = Vec::new();
        append_slice(&mut payload, s.as_bytes());
        payload.push(0);
        assert(payload@ =~= stringz(s@));
        assert(t | 0 == t) by (bit_vector);
        self.put_attr(t, 0, payload.as_slice());
    }

    /// Opens an attribute that holds attributes, and returns where it starts.
    pub fn open_nest(&mut self, t: u16) -> (anchor: usize)
        requires
            old(self)@.len() + 4 <= isize::MAX,
        ensures
            anchor == old(self)@.len(),
            final(self)@ == old(self)@ + bare_attr(
                old(self).order,
                t | NLA_F_NESTED,
                Seq::empty(),
            ),
            final(self).order == old(self).order,
            old(self).wf() ==> final(self).wf(),
    {
        let ghost before = self@;
        let anchor = self.buf.len();
        append_slice(&mut self.buf, to_bytes(self.order, 4, 2).as_slice());
        append_slice(&mut self.buf, to_bytes(self.order, (t | NLA_F_NESTED) as u64, 2).as_slice());
        proof {
            reveal(bare_attr);
            assert(self@ =~= before + bare_attr(self.order, t | NLA_F_NESTED, Seq::empty()));
        }
        anchor
    }

    /// Closes the attribute that starts at `anchor`: its length becomes what is
    /// in the buffer from there on.
    pub fn close_nest(&mut self, anchor: usize)
        requires
            anchor + 2 <= old(self)@.len(),
        ensures
            final(self)@ == patched(
                old(self)@,
                anchor as int,
                order::bytes_of(old(self).order, (old(self)@.len() - anchor) as nat, 2),
            ),
            final(self).order == old(self).order,
            final(self)@.len() == old(self)@.len(),
            old(self).wf() ==> final(self).wf(),
    {
        let total = (self.buf.len() - anchor) as u64;
        let b = to_bytes(self.order, total, 2);
        patch(&mut self.buf, anchor, &b);
    }
}

/// The parts of a message stand at their places: its length, type, flags, sequence
/// number and port in the byte order of the host, the family, the version, the
/// reserved id in network order, and then what it holds.
pub proof fn lemma_message_parts(
    order: ByteOrder,
    kind: u16,
    family: u8,
    seq: u32,
    flags: u16,
    res_id: u16,
    body: Seq<u8>,
)
    requires
        20 + body.len() < 0x1_0000_0000,
    ensures
        ({
            let m = message(order, kind, family, seq, flags, res_id, body);
            &&& m.len() == 20 + body.len()
            &&& order::value_of(order, m.subrange(0, 4)) == 20 + body.len()
            &&& order::value_of(order, m.subrange(4, 6)) == kind
            &&& order::value_of(order, m.subrange(6, 8)) == flags
            &&& order::value_of(order, m.subrange(8, 12)) == seq
            &&& order::value_of(order, m.subrange(12, 16)) == 0
            &&& m[16] == family
            &&& m[17] == 0
            &&& be::be_value(m.subrange(18, 20)) == res_id
            &&& m.skip(20) == body
        }),
{
    reveal(header);
    lemma2_to64();
    let len = 20 + body.len();
    let m = message(order, kind, family, seq, flags, res_id, body);
    lemma_header_len(order, len, kind, family, seq, flags, res_id);
    order::lemma_value_of_bytes(order, len, 4);
    order::lemma_value_of_bytes(order, kind as nat, 2);
    order::lemma_value_of_bytes(order, flags as nat, 2);
    order::lemma_value_of_bytes(order, seq as nat, 4);
    order::lemma_value_of_bytes(order, 0, 4);
    be::lemma_be_value_of_bytes(res_id as nat, 2);
    assert(m.subrange(0, 4) =~= order::bytes_of(order, len, 4));
    assert(m.subrange(4, 6) =~= order::bytes_of(order, kind as nat, 2));
    assert(m.subrange(6, 8) =~= order::bytes_of(order, flags as nat, 2));
    assert(m.subrange(8, 12) =~= order::bytes_of(order, seq as nat, 4));
    assert(m.subrange(12, 16) =~= order::bytes_of(order, 0, 4));
    assert(m.subrange(18, 20) =~= be::be_bytes(res_id as nat, 2));
    assert(m.skip(20) =~= body);
}

/// The parts of an attribute stand at their places: its length, without what fills
/// it up, and its type in the byte order of the host, its payload, and zeros up to a
/// multiple of four.
pub proof fn lemma_attr_parts(order: ByteOrder, t: u16, payload: Seq<u8>)
    requires
        4 + payload.len() < 0x1_0000,
    ensures
        ({
            let a = attr(order, t, payload);
            &&& a.len() % 4 == 0
            &&& 4 + payload.len() <= a.len() < 8 + payload.len()
            &&& order::value_of(order, a.subrange(0, 2)) == 4 + payload.len()
            &&& order::value_of(order, a.subrange(2, 4)) == t
            &&& a.subrange(4, 4 + payload.len() as int) == payload
            &&& forall|i: int| 4 + payload.len() <= i < a.len() ==> #[trigger] a[i] == 0
        }),
        ({
            let a = nest(order, t, payload);
            &&& a.len() == 4 + payload.len()
            &&& order::value_of(order, a.subrange(0, 2)) == 4 + payload.len()
            &&& order::value_of(order, a.subrange(2, 4)) == t | 0x8000
            &&& a.skip(4) == payload
        }),
{
    reveal(bare_attr);
    reveal(attr_at);
    lemma2_to64();
    let len = 4 + payload.len();
    let u = t | NLA_F_NESTED;
    let a = attr(order, t, payload);
    let n = nest(order, t, payload);
    lemma_attr_len(order, t, payload);
    order::lemma_value_of_bytes(order, len, 2);
    order::lemma_value_of_bytes(order, t as nat, 2);
    order::lemma_value_of_bytes(order, u as nat, 2);
    assert(a.subrange(0, 2) =~= order::bytes_of(order, len, 2));
    assert(a.subrange(2, 4) =~= order::bytes_of(order, t as nat, 2));
    assert(a.subrange(4, len as int) =~= payload);
    assert(n.subrange(0, 2) =~= order::bytes_of(order, len, 2));
    assert(n.subrange(2, 4) =~= order::bytes_of(order, u as nat, 2));
    assert(n.skip(4) =~= payload);
}

/// Writing into a buffer changes what is written, and nothing else.
pub proof fn lemma_patched(s: Seq<u8>, off: int, b: Seq<u8>, i: int)
    requires
        0 <= off,
        off + b.len() <= s.len(),
        0 <= i < s.len(),
    ensures
        patched(s, off, b).len() == s.len(),
        patched(s, off, b)[i] == if off <= i < off + b.len() {
            b[i - off]
        } else {
            s[i]
        },
{
    reveal(patched);
}

/// The family stands right behind the netlink header.
pub proof fn lemma_family(
    order: ByteOrder,
    len: nat,
    kind: u16,
    family: u8,
    seq: u32,
    flags: u16,
    res_id: u16,
)
    ensures
        header(order, len, kind, family, seq, flags, res_id)[16] == family,
{
    reveal(header);
    lemma_bytes_of_len(order, len, 4);
    lemma_bytes_of_len(order, kind as nat, 2);
    lemma_bytes_of_len(order, flags as nat, 2);
    lemma_bytes_of_len(order, seq as nat, 4);
    lemma_bytes_of_len(order, 0, 4);
}

/// Wherever an attribute starts, its header and its payload are the same, and as many
/// zero bytes follow, three at most, as lead to a multiple of four.
pub proof fn lemma_attr_anywhere(order: ByteOrder, at: nat, t: u16, payload: Seq<u8>)
    ensures
        ({
            let a = attr_at(order, at, t, payload);
            &&& (at + a.len()) % 4 == 0
            &&& 4 + payload.len() <= a.len() < 8 + payload.len()
            &&& a.take(4 + payload.len() as int) == attr(order, t, payload).take(
                4 + payload.len() as int,
            )
            &&& forall|i: int| 4 + payload.len() <= i < a.len() ==> #[trigger] a[i] == 0
        }),
{
    reveal(attr_at);
    lemma_attr_len(order, t, payload);
    lemma_aligned(0, at + 4 + payload.len());
    assert(attr_at(order, at, t, payload).take(4 + payload.len() as int) =~= bare_attr(
        order,
        t,
        payload,
    ));
    assert(attr(order, t, payload).take(4 + payload.len() as int) =~= bare_attr(order, t, payload));
}

/// A text is written as its bytes and a zero byte.
pub proof fn lemma_stringz(s: Seq<char>)
    ensures
        stringz(s) == encode_utf8(s) + seq![0u8],
{
    assert(stringz(s) =~= encode_utf8(s) + seq![0u8]);
}

} // verus!
