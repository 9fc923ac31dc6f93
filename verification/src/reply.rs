//! Replies of the kernel.

use crate::attr;
use crate::dump;
use crate::dump::{elements_readable, read_elements, read_set_flags, set_flags_readable};
use crate::elem;
use crate::elem::{Elem, ElemView};
use crate::order;
use crate::order::{from_bytes, ByteOrder};
use crate::text;
use crate::text::append_signed;
use crate::wire;
use crate::wire::{ALIGN, NFG_HDRLEN, NLMSG_HDRLEN};
use vstd::arithmetic::power2::*;
use vstd::prelude::*;
use vstd::slice::slice_subrange;

verus! {

pub const NLMSG_NOOP: u16 = 0x1;

pub const NLMSG_ERROR: u16 = 0x2;

pub const NLMSG_DONE: u16 = 0x3;

/// The largest receive buffer.
pub const MAX_BUFFER: usize = 262144;

/// One message of a reply. An error number stands in its first four bytes behind
/// the header, and is read only out of a message of type [`NLMSG_ERROR`].
#[verifier::ext_equal]
pub struct FrameView {
    pub kind: u16,
    pub flags: u16,
    pub seq: u32,
    pub pid: u32,
    pub error: Option<i32>,
    pub body: Seq<u8>,
}

/// The signed number that four bytes with the unsigned value `v` spell.
pub open spec fn signed(v: nat) -> int {
    if v < 0x8000_0000 {
        v as int
    } else {
        v - 0x1_0000_0000
    }
}

/// The message of `len` bytes that `s` starts with.
pub open spec fn frame(order: ByteOrder, s: Seq<u8>, len: int) -> FrameView {
    FrameView {
        kind: order::value_of(order, s.subrange(4, 6)) as u16,
        flags: order::value_of(order, s.subrange(6, 8)) as u16,
        seq: order::value_of(order, s.subrange(8, 12)) as u32,
        pid: order::value_of(order, s.subrange(12, 16)) as u32,
        error: if s.len() >= 20 {
            Some(signed(order::value_of(order, s.subrange(16, 20))) as i32)
        } else {
            None
        },
        body: s.subrange(16, len),
    }
}

/// The messages that `s` starts with, up to the first that is cut short or
/// claims to be shorter than its own header.
#[verifier::opaque]
pub open spec fn frames(order: ByteOrder, s: Seq<u8>) -> Seq<FrameView>
    decreases s.len(),
{
    if s.len() < 16 {
        Seq::empty()
    } else {
        let len = order::value_of(order, s.subrange(0, 4));
        if len < 16 || len > s.len() {
            Seq::empty()
        } else {
            proof {
                wire::lemma_aligned(0, len);
            }
            seq![frame(order, s, len as int)] + frames(
                order,
                attr::tail(s, wire::aligned(len) as int),
            )
        }
    }
}

/// A message with data: its type and its body.
#[verifier::ext_equal]
pub struct MessageView {
    pub kind: u16,
    pub body: Seq<u8>,
}

/// How the reading of a datagram ended.
#[derive(Clone, Copy, Debug, PartialEq, Eq, Structural)]
pub enum End {
    /// There was nothing more to read.
    Exhausted,
    /// A message of type [`NLMSG_DONE`] came.
    Done,
    /// An acknowledgement came, and it is the whole reply.
    Acked,
    /// Data came, and there is only one message with data in the reply.
    Answered,
    /// The kernel reported the error, a negative error number.
    Refused(i32),
}

/// Whether a message answers one of our requests.
pub open spec fn is_ours(f: FrameView, portid: u32, seqs: Seq<u32>) -> bool {
    f.pid == portid && seqs.contains(f.seq)
}

/// Whether a message has data: it is no control message, and there is an
/// nfnetlink header in it.
pub open spec fn is_data(f: FrameView) -> bool {
    f.kind != NLMSG_NOOP && f.kind != NLMSG_DONE && f.kind != NLMSG_ERROR && f.body.len() >= 4
}

/// The messages with data among `f`, and how their reading ends.
///
/// Messages for others, empty ones, and data without an nfnetlink header are
/// passed over. If the reply is a `single` message, the reading ends with the
/// first message with data, or with an acknowledgement.
pub open spec fn reading(
    f: Seq<FrameView>,
    portid: u32,
    seqs: Seq<u32>,
    single: bool,
) -> (Seq<MessageView>, End)
    decreases f.len(),
{
    if f.len() == 0 {
        (Seq::empty(), End::Exhausted)
    } else if !is_ours(f[0], portid, seqs) {
        reading(f.skip(1), portid, seqs, single)
    } else if is_data(f[0]) {
        let m = MessageView { kind: f[0].kind, body: f[0].body };
        if single {
            (seq![m], End::Answered)
        } else {
            let (rest, end) = reading(f.skip(1), portid, seqs, single);
            (seq![m] + rest, end)
        }
    } else if f[0].kind == NLMSG_DONE {
        (Seq::empty(), End::Done)
    } else if f[0].kind == NLMSG_ERROR {
        match f[0].error {
            None => (Seq::empty(), End::Exhausted),
            Some(e) => if e != 0 {
                (Seq::empty(), End::Refused(e))
            } else if single {
                (Seq::empty(), End::Acked)
            } else {
                reading(f.skip(1), portid, seqs, single)
            },
        }
    } else {
        reading(f.skip(1), portid, seqs, single)
    }
}

/// Whether the reading goes on behind `f`.
pub open spec fn passes(f: FrameView, portid: u32, seqs: Seq<u32>, single: bool) -> bool {
    is_ours(f, portid, seqs) ==> {
        &&& f.kind != NLMSG_DONE
        &&& f.kind == NLMSG_ERROR ==> f.error == Some(0i32) && !single
        &&& is_data(f) ==> !single
    }
}

/// Whether `f` acknowledges the request `seq`.
pub open spec fn acknowledges(f: FrameView, portid: u32, seq: u32) -> bool {
    f.pid == portid && f.seq == seq && f.kind == NLMSG_ERROR && f.error == Some(0i32)
}

/// The sequence numbers, among `seqs`, that the messages of `f` acknowledge, as
/// far as they are read.
pub open spec fn acknowledgements(f: Seq<FrameView>, portid: u32, seqs: Seq<u32>) -> Seq<u32>
    decreases f.len(),
{
    if f.len() == 0 || !passes(f[0], portid, seqs, false) {
        Seq::empty()
    } else {
        (if is_ours(f[0], portid, seqs) && acknowledges(f[0], portid, f[0].seq) {
            seq![f[0].seq]
        } else {
            Seq::empty()
        }) + acknowledgements(f.skip(1), portid, seqs)
    }
}

/// What is left of the sequence numbers `pending` that wait for an
/// acknowledgement, when the messages of `f` have been read.
pub open spec fn unacknowledged(f: Seq<FrameView>, portid: u32, pending: Seq<u32>) -> Seq<u32> {
    pending.filter(|seq: u32| !acknowledgements(f, portid, pending).contains(seq))
}

/// A message with data inside a datagram.
#[derive(Clone, Copy, Debug)]
pub struct Message<'a> {
    pub kind: u16,
    pub body: &'a [u8],
}

impl<'a> View for Message<'a> {
    type V = MessageView;

    open spec fn view(&self) -> MessageView {
        MessageView { kind: self.kind, body: self.body@ }
    }
}

/// What each message of a list holds.
pub open spec fn messages(s: Seq<Message<'_>>) -> Seq<MessageView> {
    s.map_values(|m: Message| m@)
}

/// The messages with data that were found, and how their reading ended.
pub struct Reading<'a> {
    pub messages: Vec<Message<'a>>,
    pub end: End,
}

fn contains_seq(seqs: &[u32], seq: u32) -> (r: bool)
    ensures
        r == seqs@.contains(seq),
{
    let mut i: usize = 0;
    while i < seqs.len()
        invariant
            i <= seqs@.len(),
            forall|k: int| 0 <= k < i ==> #[trigger] seqs@[k] != seq,
        decreases seqs.len() - i,
    {
        if seqs[i] == seq {
            assert(seqs@[i as int] == seq);
            return true;
        }
        i = i + 1;
    }
    false
}

/// Reads a signed number of four bytes.
fn read_i32(order: ByteOrder, s: &[u8], i: usize) -> (r: i32)
    requires
        i + 4 <= s@.len(),
    ensures
        r == signed(order::value_of(order, s@.subrange(i as int, i + 4))),
{
    let v = from_bytes(order, s, i, 4);
    proof {
        lemma2_to64();
    }
    if v < 0x8000_0000 {
        v as i32
    } else {
        (v as i64 - 0x1_0000_0000) as i32
    }
}

/// Where what follows `n` bytes at `pos` starts in a buffer of `len` bytes.
fn next_start(pos: usize, n: usize, len: usize) -> (r: usize)
    requires
        pos + n <= len,
    ensures
        r == if pos + wire::aligned(n as nat) >= len {
            len as int
        } else {
            pos + wire::aligned(n as nat)
        },
{
    let pad: usize = (ALIGN - n % ALIGN) % ALIGN;
    proof {
        reveal(wire::aligned);
    }
    if len - pos - n <= pad {
        len
    } else {
        pos + n + pad
    }
}

/// One message inside a datagram.
#[derive(Clone, Copy, Debug)]
pub struct Frame<'a> {
    pub kind: u16,
    pub flags: u16,
    pub seq: u32,
    pub pid: u32,
    pub error: Option<i32>,
    pub body: &'a [u8],
}

impl<'a> View for Frame<'a> {
    type V = FrameView;

    open spec fn view(&self) -> FrameView {
        FrameView {
            kind: self.kind,
            flags: self.flags,
            seq: self.seq,
            pid: self.pid,
            error: self.error,
            body: self.body@,
        }
    }
}

/// What each message of a list holds.
pub open spec fn frame_views(s: Seq<Frame<'_>>) -> Seq<FrameView> {
    s.map_values(|f: Frame| f@)
}

/// Reads the message of `n` bytes at `pos`.
fn read_frame<'a>(order: ByteOrder, datagram: &'a [u8], pos: usize, n: usize) -> (r: Frame<'a>)
    requires
        16 <= n,
        pos + n <= datagram@.len(),
    ensures
        r@ == frame(order, datagram@.skip(pos as int), n as int),
{
    let len: usize = datagram.len();
    let ghost b = datagram@.skip(pos as int);
    proof {
        lemma2_to64();
        assert(b.subrange(4, 6) =~= datagram@.subrange(pos + 4, pos + 4 + 2));
        assert(b.subrange(6, 8) =~= datagram@.subrange(pos + 6, pos + 6 + 2));
        assert(b.subrange(8, 12) =~= datagram@.subrange(pos + 8, pos + 8 + 4));
        assert(b.subrange(12, 16) =~= datagram@.subrange(pos + 12, pos + 12 + 4));
    }
    let kind = from_bytes(order, datagram, pos + 4, 2) as u16;
    let flags = from_bytes(order, datagram, pos + 6, 2) as u16;
    let seq = from_bytes(order, datagram, pos + 8, 4) as u32;
    let pid = from_bytes(order, datagram, pos + 12, 4) as u32;
    let error = if len - pos >= NLMSG_HDRLEN + 4 {
        assert(b.subrange(16, 20) =~= datagram@.subrange(pos + 16, pos + 16 + 4));
        Some(read_i32(order, datagram, pos + NLMSG_HDRLEN))
    } else {
        None
    };
    let body = slice_subrange(datagram, pos + NLMSG_HDRLEN, pos + n);
    assert(body@ =~= b.subrange(16, n as int));
    Frame { kind, flags, seq, pid, error, body }
}

/// Splits a datagram into messages.
#[verifier::rlimit(30)]
pub fn iter_frames(order: ByteOrder, datagram: &[u8]) -> (r: Vec<Frame<'_>>)
    ensures
        frame_views(r@) == frames(order, datagram@),
{
    let mut out: Vec<Frame<'_>> = Vec::new();
    let mut pos: usize = 0;
    let len: usize = datagram.len();
    proof {
        assert(attr::tail(datagram@, 0) =~= datagram@);
        assert(frame_views(out@) + frames(order, datagram@) =~= frames(order, datagram@));
    }
    assert forall|b: Seq<u8>| b.len() < 16 implies #[trigger] frames(order, b)
        =~= Seq::empty() by {
        reveal(frames);
    }
    while len - pos >= NLMSG_HDRLEN
        invariant_except_break
            forall|b: Seq<u8>| b.len() < 16 ==> #[trigger] frames(order, b) =~= Seq::empty(),
            pos <= len,
            len == datagram@.len(),
            frames(order, datagram@) == frame_views(out@) + frames(
                order,
                attr::tail(datagram@, pos as int),
            ),
        ensures
            frame_views(out@) == frames(order, datagram@),
        decreases len - pos,
    {
        let ghost b = attr::tail(datagram@, pos as int);
        proof {
            reveal(frames);
            lemma2_to64();
            assert(b.subrange(0, 4) =~= datagram@.subrange(pos as int, pos + 4));
        }
        let msg_len = from_bytes(order, datagram, pos, 4);
        if msg_len < NLMSG_HDRLEN as u64 || msg_len > (len - pos) as u64 {
            assert(frame_views(out@) + Seq::<FrameView>::empty() =~= frame_views(out@));
            break;
        }
        let n = msg_len as usize;
        let f = read_frame(order, datagram, pos, n);
        let next = next_start(pos, n, len);
        let ghost before = out@;
        let ghost rest = frames(order, attr::tail(datagram@, next as int));
        proof {
            assert(attr::tail(b, wire::aligned(n as nat) as int) =~= attr::tail(
                datagram@,
                next as int,
            ));
            assert(frames(order, b) == seq![f@] + rest);
        }
        out.push(f);
        pos = next;
        proof {
            assert(frame_views(out@) =~= frame_views(before).push(f@));
            assert(frame_views(before) + (seq![f@] + rest) =~= frame_views(out@) + rest);
        }
    }
    out
}

/// Reads the messages among `items` that answer one of the requests with the
/// sequence numbers `seqs` from the port `portid`.
fn read_frames<'a>(items: &[Frame<'a>], portid: u32, seqs: &[u32], single: bool) -> (r: Reading<'a>)
    ensures
        (messages(r.messages@), r.end) == reading(frame_views(items@), portid, seqs@, single),
{
    let mut out: Vec<Message<'a>> = Vec::new();
    let mut i: usize = 0;
    let ghost fs = frame_views(items@);
    let ghost all = reading(fs, portid, seqs@, single);
    proof {
        assert(fs.skip(0) =~= fs);
        assert(messages(out@) + all.0 =~= all.0);
    }
    while i < items.len()
        invariant
            i <= items@.len(),
            fs == frame_views(items@),
            all == reading(fs, portid, seqs@, single),
            ({
                let rest = reading(fs.skip(i as int), portid, seqs@, single);
                all == (messages(out@) + rest.0, rest.1)
            }),
        decreases items.len() - i,
    {
        let f = items[i];
        let ghost t = fs.skip(i as int);
        proof {
            assert(t[0] == f@);
            assert(t.skip(1) =~= fs.skip(i + 1));
            assert(messages(out@) + Seq::<MessageView>::empty() =~= messages(out@));
        }
        let ours = f.pid == portid && contains_seq(seqs, f.seq);
        if !ours || f.kind == NLMSG_NOOP {
        } else if f.kind == NLMSG_DONE {
            return Reading { messages: out, end: End::Done };
        } else if f.kind == NLMSG_ERROR {
            match f.error {
                None => {
                    return Reading { messages: out, end: End::Exhausted };
                },
                Some(err) => {
                    if err != 0 {
                        return Reading { messages: out, end: End::Refused(err) };
                    }
                    if single {
                        return Reading { messages: out, end: End::Acked };
                    }
                },
            }
        } else if f.body.len() >= NFG_HDRLEN {
            let ghost before = out@;
            let m = Message { kind: f.kind, body: f.body };
            out.push(m);
            assert(messages(out@) =~= messages(before) + seq![m@]);
            if single {
                return Reading { messages: out, end: End::Answered };
            }
            proof {
                let rest = reading(t.skip(1), portid, seqs@, single).0;
                assert(messages(before) + (seq![m@] + rest) =~= messages(out@) + rest);
            }
        }
        i = i + 1;
    }
    assert(messages(out@) + Seq::<MessageView>::empty() =~= messages(out@));
    Reading { messages: out, end: End::Exhausted }
}

/// Reads the messages in a datagram that answer one of the requests with the
/// sequence numbers `seqs` from the port `portid`.
pub fn read_reply<'a>(
    order: ByteOrder,
    datagram: &'a [u8],
    portid: u32,
    seqs: &[u32],
    single: bool,
) -> (r: Reading<'a>)
    ensures
        (messages(r.messages@), r.end) == reading(
            frames(order, datagram@),
            portid,
            seqs@,
            single,
        ),
{
    let items = iter_frames(order, datagram);
    read_frames(items.as_slice(), portid, seqs, single)
}

/// Collects the sequence numbers, among `seqs`, that are acknowledged.
fn read_acknowledgements(items: &[Frame<'_>], portid: u32, seqs: &[u32]) -> (r: Vec<u32>)
    ensures
        r@ == acknowledgements(frame_views(items@), portid, seqs@),
{
    let mut out: Vec<u32> = Vec::new();
    let mut i: usize = 0;
    let ghost fs = frame_views(items@);
    let ghost all = acknowledgements(fs, portid, seqs@);
    proof {
        assert(fs.skip(0) =~= fs);
        assert(out@ + all =~= all);
    }
    while i < items.len()
        invariant
            i <= items@.len(),
            fs == frame_views(items@),
            all == acknowledgements(fs, portid, seqs@),
            all == out@ + acknowledgements(fs.skip(i as int), portid, seqs@),
        decreases items.len() - i,
    {
        let f = items[i];
        let ghost t = fs.skip(i as int);
        let ghost before = out@;
        let ghost rest = acknowledgements(fs.skip(i + 1), portid, seqs@);
        proof {
            assert(t[0] == f@);
            assert(t.skip(1) =~= fs.skip(i + 1));
            assert(before + Seq::<u32>::empty() =~= before);
            assert(Seq::<u32>::empty() + rest =~= rest);
        }
        if f.pid == portid && contains_seq(seqs, f.seq) {
            if f.kind == NLMSG_DONE {
                return out;
            }
            if f.kind == NLMSG_ERROR {
                match f.error {
                    Some(err) => {
                        if err != 0 {
                            return out;
                        }
                    },
                    None => {
                        return out;
                    },
                }
                out.push(f.seq);
                assert(before + (seq![f.seq] + rest) =~= out@ + rest);
            }
        }
        i = i + 1;
    }
    assert(out@ + Seq::<u32>::empty() =~= out@);
    out
}

/// Lists the sequence numbers in `pending` that are not in `acked`.
fn drop_acknowledged(pending: &[u32], acked: &[u32]) -> (r: Vec<u32>)
    ensures
        r@ == pending@.filter(|seq: u32| !acked@.contains(seq)),
{
    let ghost p = |seq: u32| !acked@.contains(seq);
    let mut out: Vec<u32> = Vec::new();
    let mut i: usize = 0;
    proof {
        reveal(Seq::filter);
        assert(pending@.take(0) =~= Seq::<u32>::empty());
    }
    while i < pending.len()
        invariant
            i <= pending@.len(),
            p == (|seq: u32| !acked@.contains(seq)),
            out@ == pending@.take(i as int).filter(p),
        decreases pending.len() - i,
    {
        proof {
            reveal(Seq::filter);
            assert(pending@.take(i + 1).drop_last() =~= pending@.take(i as int));
        }
        if !contains_seq(acked, pending[i]) {
            out.push(pending[i]);
        }
        i = i + 1;
    }
    assert(pending@.take(i as int) =~= pending@);
    out
}

/// What to do after a datagram.
#[derive(Clone, Copy, Debug, PartialEq, Eq, Structural)]
pub enum Outcome {
    /// Wait for another datagram.
    More,
    /// The reply is complete.
    Finished,
    /// The kernel reported the error, a negative error number.
    Refused(i32),
}

/// What follows after the reading of one datagram of the reply to a query. A
/// reply in many parts ends with [`NLMSG_DONE`]; any other ends with its message
/// with data, or with an acknowledgement.
pub open spec fn after_query(end: End) -> Outcome {
    match end {
        End::Refused(e) => Outcome::Refused(e),
        End::Exhausted => Outcome::More,
        _ => Outcome::Finished,
    }
}

/// What follows after the reading of one datagram of the reply to a batch, when
/// `left` still waits for an acknowledgement.
pub open spec fn after_batch(end: End, left: Seq<u32>) -> Outcome {
    match end {
        End::Refused(e) => Outcome::Refused(e),
        End::Done => Outcome::Finished,
        _ => if left.len() == 0 {
            Outcome::Finished
        } else {
            Outcome::More
        },
    }
}

/// Every message has an nfnetlink header.
pub open spec fn all_bodies(s: Seq<MessageView>) -> bool {
    forall|i: int| 0 <= i < s.len() ==> (#[trigger] s[i]).body.len() >= 4
}

/// Messages with data have an nfnetlink header.
pub proof fn lemma_reading_bodies(
    f: Seq<FrameView>,
    portid: u32,
    seqs: Seq<u32>,
    single: bool,
)
    ensures
        all_bodies(reading(f, portid, seqs, single).0),
    decreases f.len(),
{
    if f.len() > 0 {
        lemma_reading_bodies(f.skip(1), portid, seqs, single);
    }
}

/// There is at most one message with data in the reading of a single message.
pub proof fn lemma_single_reading(f: Seq<FrameView>, portid: u32, seqs: Seq<u32>)
    ensures
        reading(f, portid, seqs, true).0.len() <= 1,
        reading(f, portid, seqs, true).0.len() == 1 <==> reading(f, portid, seqs, true).1
            == End::Answered,
    decreases f.len(),
{
    if f.len() > 0 {
        lemma_single_reading(f.skip(1), portid, seqs);
    }
}

/// Reads a datagram of the reply to the query `seq`, and decides what follows. A
/// reply that does not come in many parts has one message with data; what comes
/// behind it is not read.
pub fn read_query_reply<'a>(
    order: ByteOrder,
    datagram: &'a [u8],
    portid: u32,
    seq: u32,
    multipart: bool,
) -> (r: (Vec<Message<'a>>, Outcome))
    ensures
        ({
            let (data, end) = reading(
                frames(order, datagram@),
                portid,
                seq![seq],
                !multipart,
            );
            &&& messages(r.0@) == data
            &&& r.1 == after_query(end)
            &&& r.1 == Outcome::More <==> end == End::Exhausted
            &&& forall|e: i32| r.1 == Outcome::Refused(e) <==> end == End::Refused(e)
        }),
        !multipart ==> r.0@.len() <= 1,
        !multipart && r.0@.len() == 1 ==> r.1 == Outcome::Finished,
        all_bodies(messages(r.0@)),
{
    let mut seqs: Vec<u32> = Vec::new();
    seqs.push(seq);
    assert(seqs@ =~= seq![seq]);
    let r = read_reply(order, datagram, portid, seqs.as_slice(), !multipart);
    proof {
        lemma_reading_bodies(frames(order, datagram@), portid, seqs@, !multipart);
        lemma_single_reading(frames(order, datagram@), portid, seqs@);
    }
    let outcome = match r.end {
        End::Refused(e) => Outcome::Refused(e),
        End::Exhausted => Outcome::More,
        _ => Outcome::Finished,
    };
    (r.messages, outcome)
}

/// Reads a datagram of the reply to a batch whose operations `pending` wait for
/// an acknowledgement. Decides what follows, and says which of them are left.
pub fn read_batch_reply<'a>(
    order: ByteOrder,
    datagram: &'a [u8],
    portid: u32,
    pending: &[u32],
) -> (r: (Vec<Message<'a>>, Outcome, Vec<u32>))
    ensures
        ({
            let (data, end) = reading(frames(order, datagram@), portid, pending@, false);
            &&& messages(r.0@) == data
            &&& r.2@ == unacknowledged(frames(order, datagram@), portid, pending@)
            &&& r.1 == after_batch(end, r.2@)
            &&& r.1 == match end {
                End::Refused(e) => Outcome::Refused(e),
                End::Done => Outcome::Finished,
                _ => if r.2@.len() == 0 {
                    Outcome::Finished
                } else {
                    Outcome::More
                },
            }
        }),
        all_bodies(messages(r.0@)),
{
    let items = iter_frames(order, datagram);
    let r = read_frames(items.as_slice(), portid, pending, false);
    let acked = read_acknowledgements(items.as_slice(), portid, pending);
    let left = drop_acknowledged(pending, acked.as_slice());
    proof {
        lemma_reading_bodies(frames(order, datagram@), portid, pending@, false);
    }
    let outcome = match r.end {
        End::Refused(e) => Outcome::Refused(e),
        End::Done => Outcome::Finished,
        _ => if left.len() == 0 {
            Outcome::Finished
        } else {
            Outcome::More
        },
    };
    (r.messages, outcome, left)
}

/// How a batch ends whose reply comes in the datagrams `d`, each as its messages.
pub open spec fn batch_outcome(
    d: Seq<Seq<FrameView>>,
    portid: u32,
    pending: Seq<u32>,
) -> Outcome
    decreases d.len(),
{
    if d.len() == 0 {
        Outcome::More
    } else {
        let left = unacknowledged(d[0], portid, pending);
        match after_batch(reading(d[0], portid, pending, false).1, left) {
            Outcome::More => batch_outcome(d.skip(1), portid, left),
            outcome => outcome,
        }
    }
}

/// What is acknowledged has an acknowledgement.
proof fn lemma_acknowledgement_found(
    f: Seq<FrameView>,
    portid: u32,
    seqs: Seq<u32>,
    seq: u32,
)
    requires
        acknowledgements(f, portid, seqs).contains(seq),
    ensures
        exists|i: int| 0 <= i < f.len() && acknowledges(#[trigger] f[i], portid, seq),
    decreases f.len(),
{
    if f.len() > 0 && passes(f[0], portid, seqs, false) {
        let a = acknowledgements(f, portid, seqs);
        let rest = acknowledgements(f.skip(1), portid, seqs);
        let k = choose|k: int| 0 <= k < a.len() && a[k] == seq;
        if acknowledges(f[0], portid, seq) {
        } else {
            let n = a.len() - rest.len();
            assert(k >= n);
            assert(rest[k - n] == seq);
            lemma_acknowledgement_found(f.skip(1), portid, seqs, seq);
            let i = choose|i: int|
                0 <= i < f.skip(1).len() && acknowledges(#[trigger] f.skip(1)[i], portid, seq);
            assert(f[i + 1] == f.skip(1)[i]);
        }
    }
}

/// What waits for an acknowledgement and gets none goes on waiting.
proof fn lemma_left(f: Seq<FrameView>, portid: u32, pending: Seq<u32>, seq: u32)
    requires
        pending.contains(seq),
    ensures
        unacknowledged(f, portid, pending).contains(seq) || acknowledgements(
            f,
            portid,
            pending,
        ).contains(seq),
{
    broadcast use vstd::seq_lib::group_filter_ensures;

    let p = |seq: u32| !acknowledgements(f, portid, pending).contains(seq);
    let i = choose|i: int| 0 <= i < pending.len() && pending[i] == seq;
    if p(seq) {
        assert(pending.filter(p).contains(pending[i]));
    }
}

/// What goes on waiting was waiting before.
proof fn lemma_left_was_pending(f: Seq<FrameView>, portid: u32, pending: Seq<u32>, seq: u32)
    requires
        unacknowledged(f, portid, pending).contains(seq),
    ensures
        pending.contains(seq),
{
    lemma_filter_subset(pending, |seq: u32| !acknowledgements(f, portid, pending).contains(seq), seq);
}

proof fn lemma_filter_subset(s: Seq<u32>, p: spec_fn(u32) -> bool, x: u32)
    requires
        s.filter(p).contains(x),
    ensures
        s.contains(x),
    decreases s.len(),
{
    reveal(Seq::filter);
    if s.len() > 0 {
        let t = s.drop_last();
        let i = choose|i: int| 0 <= i < s.filter(p).len() && s.filter(p)[i] == x;
        if s.last() == x {
            assert(s[s.len() - 1] == x);
        } else {
            assert(t.filter(p)[i] == x);
            lemma_filter_subset(t, p, x);
            let j = choose|j: int| 0 <= j < t.len() && t[j] == x;
            assert(s[j] == x);
        }
    }
}

/// A batch that finishes, with no [`NLMSG_DONE`] among the messages for us, has an
/// acknowledgement for each of its operations.
pub proof fn lemma_finished_batch_is_acknowledged(
    d: Seq<Seq<FrameView>>,
    portid: u32,
    pending: Seq<u32>,
    seq: u32,
)
    requires
        batch_outcome(d, portid, pending) == Outcome::Finished,
        forall|k: int, i: int|
            0 <= k < d.len() && 0 <= i < d[k].len() && (#[trigger] d[k][i]).pid == portid
                ==> d[k][i].kind != NLMSG_DONE,
        pending.contains(seq),
    ensures
        exists|k: int, i: int|
            0 <= k < d.len() && 0 <= i < d[k].len() && acknowledges(
                #[trigger] d[k][i],
                portid,
                seq,
            ),
    decreases d.len(),
{
    let f = d[0];
    let left = unacknowledged(f, portid, pending);
    let end = reading(f, portid, pending, false).1;
    lemma_no_done(f, portid, pending);
    lemma_left(f, portid, pending, seq);
    if acknowledgements(f, portid, pending).contains(seq) {
        lemma_acknowledgement_found(f, portid, pending, seq);
        let i = choose|i: int| 0 <= i < f.len() && acknowledges(#[trigger] f[i], portid, seq);
        assert(acknowledges(d[0][i], portid, seq));
    } else {
        let t = d.skip(1);
        assert(after_batch(end, left) == Outcome::More);
        assert forall|k: int, i: int|
            0 <= k < t.len() && 0 <= i < t[k].len() && (#[trigger] t[k][i]).pid
                == portid implies t[k][i].kind != NLMSG_DONE by {
            assert(t[k][i] == d[k + 1][i]);
        }
        lemma_finished_batch_is_acknowledged(t, portid, left, seq);
        let (k, i) = choose|k: int, i: int|
            0 <= k < t.len() && 0 <= i < t[k].len() && acknowledges(
                #[trigger] t[k][i],
                portid,
                seq,
            );
        assert(t[k][i] == d[k + 1][i]);
    }
}

proof fn lemma_no_done(f: Seq<FrameView>, portid: u32, seqs: Seq<u32>)
    requires
        forall|i: int|
            0 <= i < f.len() && (#[trigger] f[i]).pid == portid ==> f[i].kind != NLMSG_DONE,
    ensures
        reading(f, portid, seqs, false).1 != End::Done,
    decreases f.len(),
{
    if f.len() > 0 {
        let t = f.skip(1);
        assert forall|i: int| 0 <= i < t.len() && (#[trigger] t[i]).pid == portid implies t[i].kind
            != NLMSG_DONE by {
            assert(t[i] == f[i + 1]);
        }
        lemma_no_done(t, portid, seqs);
    }
}

/// What to do with what was received.
#[derive(Clone, Copy, Debug, PartialEq, Eq, Structural)]
pub enum Received {
    /// The buffer was full, so the datagram may be cut short: receive again into
    /// a buffer of this size.
    Grow(usize),
    /// There is no more.
    Nothing,
    /// Read the datagram.
    Datagram,
}

/// Decides what to do with `n` bytes in a buffer of `capacity` bytes.
pub fn received(n: usize, capacity: usize) -> (r: Received)
    requires
        n <= capacity,
    ensures
        r == if n == 0 {
            Received::Nothing
        } else if n == capacity && n < MAX_BUFFER {
            Received::Grow(
                if 2 * n <= MAX_BUFFER {
                    (2 * n) as usize
                } else {
                    MAX_BUFFER
                },
            )
        } else {
            Received::Datagram
        },
        r matches Received::Grow(c) ==> capacity < c <= MAX_BUFFER,
{
    if n == capacity && n < MAX_BUFFER && n > 0 {
        let doubled: usize = capacity * 2;
        return Received::Grow(
            if doubled <= MAX_BUFFER {
                doubled
            } else {
                MAX_BUFFER
            },
        );
    }
    if n == 0 {
        return Received::Nothing;
    }
    Received::Datagram
}

/// The messages among `f` that answer one of our requests.
pub open spec fn ours_only(f: Seq<FrameView>, portid: u32, seqs: Seq<u32>) -> Seq<FrameView>
    decreases f.len(),
{
    if f.len() == 0 {
        Seq::empty()
    } else if is_ours(f[0], portid, seqs) {
        seq![f[0]] + ours_only(f.skip(1), portid, seqs)
    } else {
        ours_only(f.skip(1), portid, seqs)
    }
}

/// Messages for others change nothing in the reading of a reply.
pub proof fn lemma_others_are_ignored(
    f: Seq<FrameView>,
    portid: u32,
    seqs: Seq<u32>,
    single: bool,
)
    ensures
        reading(ours_only(f, portid, seqs), portid, seqs, single) == reading(
            f,
            portid,
            seqs,
            single,
        ),
    decreases f.len(),
{
    if f.len() > 0 {
        lemma_others_are_ignored(f.skip(1), portid, seqs, single);
        if is_ours(f[0], portid, seqs) {
            let o = ours_only(f, portid, seqs);
            assert(o[0] == f[0]);
            assert(o.skip(1) =~= ours_only(f.skip(1), portid, seqs));
        }
    }
}

/// A reply may come in parts: where nothing in the first part ends the reading,
/// the two parts are read as they would be in one.
pub proof fn lemma_reply_in_parts(
    a: Seq<FrameView>,
    b: Seq<FrameView>,
    portid: u32,
    seqs: Seq<u32>,
    single: bool,
)
    requires
        forall|i: int| 0 <= i < a.len() ==> passes(#[trigger] a[i], portid, seqs, single),
    ensures
        reading(a, portid, seqs, single).1 == End::Exhausted,
        reading(a + b, portid, seqs, single) == (
            reading(a, portid, seqs, single).0 + reading(b, portid, seqs, single).0,
            reading(b, portid, seqs, single).1,
        ),
    decreases a.len(),
{
    let rest = reading(b, portid, seqs, single).0;
    if a.len() == 0 {
        assert(a + b =~= b);
        assert(reading(a, portid, seqs, single).0 + rest =~= rest);
    } else {
        let c = a.skip(1);
        assert forall|i: int| 0 <= i < c.len() implies passes(
            #[trigger] c[i],
            portid,
            seqs,
            single,
        ) by {
            assert(c[i] == a[i + 1]);
        }
        lemma_reply_in_parts(c, b, portid, seqs, single);
        assert((a + b)[0] == a[0]);
        assert((a + b).skip(1) =~= c + b);
        assert(passes(a[0], portid, seqs, single));
        assert(reading(a + b, portid, seqs, single).0 =~= reading(
            a,
            portid,
            seqs,
            single,
        ).0 + rest);
    }
}

/// A request that the kernel refuses is answered with the error that the kernel
/// reports, whatever comes before it in the reply without ending it, and
/// whatever comes behind it.
pub proof fn lemma_refusal_is_reported(
    before: Seq<FrameView>,
    f: FrameView,
    behind: Seq<FrameView>,
    portid: u32,
    seqs: Seq<u32>,
    single: bool,
    e: i32,
)
    requires
        forall|i: int|
            0 <= i < before.len() ==> passes(#[trigger] before[i], portid, seqs, single),
        is_ours(f, portid, seqs),
        f.kind == NLMSG_ERROR,
        f.error == Some(e),
        e != 0,
    ensures
        reading(before + seq![f] + behind, portid, seqs, single).1 == End::Refused(e),
    decreases before.len(),
{
    let s = before + seq![f] + behind;
    if before.len() == 0 {
        assert(s[0] == f);
    } else {
        assert(s[0] == before[0]);
        let b = before.skip(1);
        assert forall|i: int| 0 <= i < b.len() implies passes(
            #[trigger] b[i],
            portid,
            seqs,
            single,
        ) by {
            assert(b[i] == before[i + 1]);
        }
        lemma_refusal_is_reported(b, f, behind, portid, seqs, single, e);
        assert(s.skip(1) =~= b + seq![f] + behind);
    }
}

/// An operation of a batch that the kernel refuses makes the batch end with the
/// error, in whichever datagram it comes: before it nothing ends the reading, and
/// nothing acknowledges the operation.
pub proof fn lemma_batch_refusal_is_reported(
    d: Seq<Seq<FrameView>>,
    before: Seq<FrameView>,
    f: FrameView,
    behind: Seq<FrameView>,
    later: Seq<Seq<FrameView>>,
    portid: u32,
    pending: Seq<u32>,
    e: i32,
)
    requires
        forall|k: int, i: int|
            0 <= k < d.len() && 0 <= i < d[k].len() ==> passes(
                #[trigger] d[k][i],
                portid,
                pending,
                false,
            ) && !acknowledges(d[k][i], portid, f.seq),
        forall|i: int| 0 <= i < before.len() ==> passes(#[trigger] before[i], portid, pending, false),
        is_ours(f, portid, pending),
        f.kind == NLMSG_ERROR,
        f.error == Some(e),
        e != 0,
    ensures
        batch_outcome(d + seq![before + seq![f] + behind] + later, portid, pending)
            == Outcome::Refused(e),
    decreases d.len(),
{
    let all = d + seq![before + seq![f] + behind] + later;
    if d.len() == 0 {
        assert(all[0] == before + seq![f] + behind);
        lemma_refusal_is_reported(before, f, behind, portid, pending, false, e);
    } else {
        let g = d[0];
        let t = d.skip(1);
        let left = unacknowledged(g, portid, pending);
        assert(all[0] == g);
        assert(all.skip(1) =~= t + seq![before + seq![f] + behind] + later);
        assert forall|i: int| 0 <= i < g.len() implies passes(
            #[trigger] g[i],
            portid,
            pending,
            false,
        ) by {
            assert(g[i] == d[0][i]);
        }
        lemma_reply_in_parts(g, Seq::empty(), portid, pending, false);
        lemma_left(g, portid, pending, f.seq);
        if acknowledgements(g, portid, pending).contains(f.seq) {
            lemma_acknowledgement_found(g, portid, pending, f.seq);
            let i = choose|i: int|
                0 <= i < g.len() && acknowledges(#[trigger] g[i], portid, f.seq);
            assert(g[i] == d[0][i]);
        }
        assert forall|k: int, i: int| 0 <= k < t.len() && 0 <= i < t[k].len() implies passes(
            #[trigger] t[k][i],
            portid,
            left,
            false,
        ) && !acknowledges(t[k][i], portid, f.seq) by {
            assert(t[k][i] == d[k + 1][i]);
            if is_ours(t[k][i], portid, left) {
                lemma_left_was_pending(g, portid, pending, t[k][i].seq);
            }
        }
        assert forall|i: int| 0 <= i < before.len() implies passes(
            #[trigger] before[i],
            portid,
            left,
            false,
        ) by {
            if is_ours(before[i], portid, left) {
                lemma_left_was_pending(g, portid, pending, before[i].seq);
            }
        }
        lemma_batch_refusal_is_reported(t, before, f, behind, later, portid, left, e);
    }
}

/// The flags of a set after the messages `s`, which were `flags` before.
pub open spec fn flags_over(order: ByteOrder, s: Seq<MessageView>, flags: u32) -> u32
    decreases s.len(),
{
    if s.len() == 0 {
        flags
    } else {
        dump::flags_after(order, s.last().body, flags_over(order, s.drop_last(), flags))
    }
}

/// Reads the flags of a set out of messages; they stay `flags` where no message
/// has any. There are none where a message has flags that are cut short.
pub fn collect_flags(order: ByteOrder, msgs: &[Message<'_>], flags: u32) -> (r: Option<u32>)
    requires
        all_bodies(messages(msgs@)),
    ensures
        r == if forall|i: int|
            0 <= i < msgs@.len() ==> dump::flags_readable_in(order, (#[trigger] msgs@[i]).body@) {
            Some(flags_over(order, messages(msgs@), flags))
        } else {
            None
        },
{
    let ghost s = messages(msgs@);
    let mut out = flags;
    let mut i: usize = 0;
    assert(s.take(0) =~= Seq::<MessageView>::empty());
    while i < msgs.len()
        invariant
            i <= msgs@.len(),
            s == messages(msgs@),
            all_bodies(s),
            forall|k: int|
                0 <= k < i ==> dump::flags_readable_in(order, (#[trigger] msgs@[k]).body@),
            out == flags_over(order, s.take(i as int), flags),
        decreases msgs.len() - i,
    {
        let m = msgs[i];
        proof {
            assert(s[i as int] == m@);
            assert(s.take(i + 1).drop_last() =~= s.take(i as int));
            assert(s.take(i + 1).last() == m@);
        }
        if !set_flags_readable(order, m.body) {
            assert(!dump::flags_readable_in(order, msgs@[i as int].body@));
            return None;
        }
        out = read_set_flags(order, m.body, out);
        i = i + 1;
    }
    assert(s.take(i as int) =~= s);
    Some(out)
}

/// The elements in the messages `s`.
pub open spec fn elements_over(order: ByteOrder, s: Seq<MessageView>) -> Seq<ElemView>
    decreases s.len(),
{
    if s.len() == 0 {
        Seq::empty()
    } else {
        elements_over(order, s.drop_last()) + dump::elements_in(order, s.last().body)
    }
}

/// What each element of a list holds, if there is a list.
pub open spec fn list_view(v: Option<Vec<Elem>>) -> Option<Seq<ElemView>> {
    match v {
        Some(v) => Some(elem::views(v@)),
        None => None,
    }
}

/// Reads the elements out of messages. There are none where an element has a
/// number that is cut short.
pub fn collect_elements(order: ByteOrder, msgs: &[Message<'_>]) -> (r: Option<Vec<Elem>>)
    requires
        all_bodies(messages(msgs@)),
    ensures
        list_view(r) == if forall|i: int|
            0 <= i < msgs@.len() ==> dump::body_readable(order, (#[trigger] msgs@[i]).body@) {
            Some(elements_over(order, messages(msgs@)))
        } else {
            None
        },
        r matches Some(v) ==> elem::views(v@) == elements_over(order, messages(msgs@)),
{
    let ghost s = messages(msgs@);
    let mut out: Vec<Elem> = Vec::new();
    let mut i: usize = 0;
    proof {
        assert(s.take(0) =~= Seq::<MessageView>::empty());
        assert(elem::views(out@) =~= Seq::<ElemView>::empty());
    }
    while i < msgs.len()
        invariant
            i <= msgs@.len(),
            s == messages(msgs@),
            all_bodies(s),
            forall|k: int|
                0 <= k < i ==> dump::body_readable(order, (#[trigger] msgs@[k]).body@),
            elem::views(out@) == elements_over(order, s.take(i as int)),
        decreases msgs.len() - i,
    {
        let m = msgs[i];
        proof {
            assert(s[i as int] == m@);
            assert(s.take(i + 1).drop_last() =~= s.take(i as int));
            assert(s.take(i + 1).last() == m@);
        }
        if !elements_readable(order, m.body) {
            assert(!dump::body_readable(order, msgs@[i as int].body@));
            return None;
        }
        read_elements(order, m.body, &mut out);
        i = i + 1;
    }
    assert(s.take(i as int) =~= s);
    Some(out)
}

/// Elements may be read part by part.
pub proof fn lemma_elements_in_parts(order: ByteOrder, a: Seq<MessageView>, b: Seq<MessageView>)
    ensures
        elements_over(order, a + b) == elements_over(order, a) + elements_over(order, b),
    decreases b.len(),
{
    if b.len() == 0 {
        assert(a + b =~= a);
        assert(elements_over(order, a) + elements_over(order, b) =~= elements_over(order, a));
    } else {
        lemma_elements_in_parts(order, a, b.drop_last());
        assert((a + b).drop_last() =~= a + b.drop_last());
        assert((a + b).last() == b.last());
        assert(elements_over(order, a + b) =~= elements_over(order, a) + elements_over(order, b));
    }
}

/// Flags may be read part by part.
pub proof fn lemma_flags_in_parts(
    order: ByteOrder,
    a: Seq<MessageView>,
    b: Seq<MessageView>,
    flags: u32,
)
    ensures
        flags_over(order, a + b, flags) == flags_over(order, b, flags_over(order, a, flags)),
    decreases b.len(),
{
    if b.len() == 0 {
        assert(a + b =~= a);
    } else {
        lemma_flags_in_parts(order, a, b.drop_last(), flags);
        assert((a + b).drop_last() =~= a + b.drop_last());
        assert((a + b).last() == b.last());
    }
}

/// What an error number of the kernel means.
pub open spec fn errno_text(errno: i32) -> Seq<char> {
    if errno == -1 {
        "EPERM: operation not permitted"@
    } else if errno == -2 {
        "ENOENT: no such set"@
    } else if errno == -13 {
        "EACCES: permission denied (need root/CAP_NET_ADMIN?)"@
    } else if errno == -22 {
        "EINVAL: invalid argument"@
    } else if errno == -19 {
        "ENODEV: no such set"@
    } else if errno == -38 {
        "ENOSYS: not implemented"@
    } else if errno == -95 {
        "EOPNOTSUPP: kernel reply: operation not supported"@
    } else if errno == -105 {
        "ENOBUFS: kernel out of buffers"@
    } else {
        "errno "@ + text::signed_decimal(-errno)
    }
}

/// Says what an error number of the kernel means. It is negative; one that is
/// not known is shown as a number.
pub fn errno_to_msg(errno: i32) -> (r: String)
    requires
        errno != i32::MIN,
    ensures
        r@ == errno_text(errno),
{
    let mut s = String::new();
    let n: i32 = -errno;
    if n == 1 {
        s.append("EPERM: operation not permitted");
    } else if n == 2 {
        s.append("ENOENT: no such set");
    } else if n == 13 {
        s.append("EACCES: permission denied (need root/CAP_NET_ADMIN?)");
    } else if n == 22 {
        s.append("EINVAL: invalid argument");
    } else if n == 19 {
        s.append("ENODEV: no such set");
    } else if n == 38 {
        s.append("ENOSYS: not implemented");
    } else if n == 95 {
        s.append("EOPNOTSUPP: kernel reply: operation not supported");
    } else if n == 105 {
        s.append("ENOBUFS: kernel out of buffers");
    } else {
        s.append("errno ");
        append_signed(&mut s, n);
    }
    assert(s@ =~= errno_text(errno));
    s
}

/// What to say of a request that the kernel refused.
pub fn refusal_message(errno: i32) -> (r: String)
    requires
        errno != i32::MIN,
    ensures
        r@ == "kernel refused: "@ + errno_text(errno),
{
    let mut s = String::new();
    s.append("kernel refused: ");
    let m = errno_to_msg(errno);
    s.append(m.as_str());
    assert(s@ =~= "kernel refused: "@ + errno_text(errno));
    s
}

/// What to say of a query whose reply does not come.
pub fn timeout_message(multipart: bool) -> (r: String)
    ensures
        r@ == if multipart {
            "kernel reply timed out waiting for NLMSG_DONE"@
        } else {
            "recv timed out"@
        },
{
    let mut s = String::new();
    if multipart {
        s.append("kernel reply timed out waiting for NLMSG_DONE");
        assert(s@ =~= "kernel reply timed out waiting for NLMSG_DONE"@);
    } else {
        s.append("recv timed out");
        assert(s@ =~= "recv timed out"@);
    }
    s
}

/// A message is as long as its header says, its parts stand at their places in the
/// header, and the next message starts at the next multiple of four. A message that
/// is longer than what is left, or shorter than its header, ends the datagram.
pub proof fn lemma_frames_step(order: ByteOrder, s: Seq<u8>, len: nat)
    requires
        s.len() >= 16,
        len == order::value_of(order, s.subrange(0, 4)),
    ensures
        16 <= len <= s.len() ==> {
            let f = frames(order, s)[0];
            &&& frames(order, s).len() > 0
            &&& f.kind == order::value_of(order, s.subrange(4, 6))
            &&& f.flags == order::value_of(order, s.subrange(6, 8))
            &&& f.seq == order::value_of(order, s.subrange(8, 12))
            &&& f.pid == order::value_of(order, s.subrange(12, 16))
            &&& f.body == s.subrange(16, len as int)
            &&& (f.error is Some <==> s.len() >= 20)
            &&& (f.error matches Some(e) ==> (e - order::value_of(order, s.subrange(16, 20)))
                % 0x1_0000_0000 == 0)
            &&& forall|n: int|
                len <= n < len + 4 && n % 4 == 0 && n <= s.len() ==> frames(order, s).skip(1)
                    == frames(order, #[trigger] s.skip(n))
            &&& s.len() < (len + 3) / 4 * 4 ==> frames(order, s).len() == 1
        },
        len < 16 || len > s.len() ==> frames(order, s).len() == 0,
{
    reveal(frames);
    reveal(wire::aligned);
    lemma2_to64();
    order::lemma_value_bound(order, s.subrange(4, 6));
    order::lemma_value_bound(order, s.subrange(6, 8));
    order::lemma_value_bound(order, s.subrange(8, 12));
    order::lemma_value_bound(order, s.subrange(12, 16));
    if s.len() >= 20 {
        order::lemma_value_bound(order, s.subrange(16, 20));
    }
    if 16 <= len <= s.len() {
        let rest = attr::tail(s, wire::aligned(len) as int);
        assert(frames(order, s).skip(1) =~= frames(order, rest));
        assert forall|n: int| len <= n < len + 4 && n % 4 == 0 && n <= s.len() implies frames(
            order,
            s,
        ).skip(1) == frames(order, #[trigger] s.skip(n)) by {
            assert(n == wire::aligned(len));
            assert(rest =~= s.skip(n));
        }
    }
}

/// What one message does to the reading: one for others, an empty one, or data
/// without a header gives nothing; data is handed over; the end, an error and, in a
/// single reply, an acknowledgement or data end it, and nothing behind them is read.
pub proof fn lemma_reading_step(
    f: FrameView,
    rest: Seq<FrameView>,
    portid: u32,
    seqs: Seq<u32>,
    single: bool,
)
    ensures
        ({
            let ours = f.pid == portid && seqs.contains(f.seq);
            let data = f.kind != 1 && f.kind != 2 && f.kind != 3;
            let (m, end) = reading(seq![f] + rest, portid, seqs, single);
            let (m0, end0) = reading(rest, portid, seqs, single);
            &&& (!ours || f.kind == 1 || data && f.body.len() < 4 ==> m == m0 && end == end0)
            &&& (ours && f.kind == 3 ==> m.len() == 0 && end == End::Done)
            &&& (ours && f.kind == 2 ==> match f.error {
                None => m.len() == 0 && end == End::Exhausted,
                Some(e) => if e != 0 {
                    m.len() == 0 && end == End::Refused(e)
                } else if single {
                    m.len() == 0 && end == End::Acked
                } else {
                    m == m0 && end == end0
                },
            })
            &&& (ours && data && f.body.len() >= 4 ==> {
                &&& m.len() > 0
                &&& m[0].kind == f.kind
                &&& m[0].body == f.body
                &&& (single ==> m.len() == 1 && end == End::Answered)
                &&& (!single ==> m.skip(1) == m0 && end == end0)
            })
        }),
        reading(Seq::empty(), portid, seqs, single).0.len() == 0,
        reading(Seq::empty(), portid, seqs, single).1 == End::Exhausted,
{
    let s = seq![f] + rest;
    assert(s[0] == f);
    assert(s.skip(1) =~= rest);
    let (m, end) = reading(s, portid, seqs, single);
    let (m0, end0) = reading(rest, portid, seqs, single);
    if is_ours(f, portid, seqs) && is_data(f) && !single {
        assert(m.skip(1) =~= m0);
    }
}

/// An operation waits for its acknowledgement as long as none is read: of the
/// numbers that wait, in their order, just those are left that no message
/// acknowledges before the reading ends.
pub proof fn lemma_unacknowledged(
    f: Seq<FrameView>,
    portid: u32,
    pending: Seq<u32>,
    seq: u32,
)
    ensures
        unacknowledged(f, portid, pending).contains(seq) <==> pending.contains(seq) && !exists|
            i: int,
        |
            0 <= i < f.len() && (#[trigger] f[i]).pid == portid && f[i].seq == seq && f[i].kind == 2
                && f[i].error == Some(0i32) && forall|j: int|
                0 <= j < i ==> passes(#[trigger] f[j], portid, pending, false),
        unacknowledged(f, portid, pending).len() <= pending.len(),
{
    broadcast use vstd::seq_lib::group_filter_ensures;

    let a = acknowledgements(f, portid, pending);
    let p = |seq: u32| !acknowledgements(f, portid, pending).contains(seq);
    if pending.contains(seq) {
        lemma_left(f, portid, pending, seq);
        lemma_acknowledgements(f, portid, pending, seq);
    }
    if unacknowledged(f, portid, pending).contains(seq) {
        lemma_left_was_pending(f, portid, pending, seq);
        let u = pending.filter(p);
        let i = choose|i: int| 0 <= i < u.len() && u[i] == seq;
        assert(p(u[i]));
    }
}

proof fn lemma_acknowledgements(f: Seq<FrameView>, portid: u32, seqs: Seq<u32>, seq: u32)
    requires
        seqs.contains(seq),
    ensures
        acknowledgements(f, portid, seqs).contains(seq) <==> exists|i: int|
            0 <= i < f.len() && (#[trigger] f[i]).pid == portid && f[i].seq == seq && f[i].kind == 2
                && f[i].error == Some(0i32) && forall|j: int|
                0 <= j < i ==> passes(#[trigger] f[j], portid, seqs, false),
    decreases f.len(),
{
    if f.len() > 0 {
        let t = f.skip(1);
        let a = acknowledgements(f, portid, seqs);
        let b = acknowledgements(t, portid, seqs);
        lemma_acknowledgements(t, portid, seqs, seq);
        if a.contains(seq) {
            let k = choose|k: int| 0 <= k < a.len() && a[k] == seq;
            let n = a.len() - b.len();
            if k < n {
                assert(f[0].seq == seq);
            } else {
                assert(b[k - n] == seq);
                let i = choose|i: int|
                    0 <= i < t.len() && (#[trigger] t[i]).pid == portid && t[i].seq == seq
                        && t[i].kind == 2 && t[i].error == Some(0i32) && forall|j: int|
                        0 <= j < i ==> passes(#[trigger] t[j], portid, seqs, false);
                assert(f[i + 1] == t[i]);
                assert forall|j: int| 0 <= j < i + 1 implies passes(
                    #[trigger] f[j],
                    portid,
                    seqs,
                    false,
                ) by {
                    if j > 0 {
                        assert(f[j] == t[j - 1]);
                    }
                }
            }
        }
        if exists|i: int|
            0 <= i < f.len() && (#[trigger] f[i]).pid == portid && f[i].seq == seq && f[i].kind == 2
                && f[i].error == Some(0i32) && forall|j: int|
                0 <= j < i ==> passes(#[trigger] f[j], portid, seqs, false) {
            let i = choose|i: int|
                0 <= i < f.len() && (#[trigger] f[i]).pid == portid && f[i].seq == seq && f[i].kind
                    == 2 && f[i].error == Some(0i32) && forall|j: int|
                    0 <= j < i ==> passes(#[trigger] f[j], portid, seqs, false);
            if i == 0 {
                assert(a[0] == seq);
            } else {
                assert(passes(f[0], portid, seqs, false));
                assert(t[i - 1] == f[i]);
                assert forall|j: int| 0 <= j < i - 1 implies passes(
                    #[trigger] t[j],
                    portid,
                    seqs,
                    false,
                ) by {
                    assert(t[j] == f[j + 1]);
                }
                assert(b.contains(seq));
                let k = choose|k: int| 0 <= k < b.len() && b[k] == seq;
                assert(a[a.len() - b.len() + k] == seq);
            }
        }
    }
}

/// The flags of one message, and the elements of one message, are what its body
/// says.
pub proof fn lemma_one_message(order: ByteOrder, m: MessageView, flags: u32)
    ensures
        flags_over(order, seq![m], flags) == dump::flags_after(order, m.body, flags),
        flags_over(order, Seq::empty(), flags) == flags,
        elements_over(order, seq![m]) == dump::elements_in(order, m.body),
        elements_over(order, Seq::empty()).len() == 0,
{
    let none = Seq::<MessageView>::empty();
    assert(seq![m].drop_last() =~= none);
    assert(flags_over(order, none, flags) == flags);
    assert(elements_over(order, none) =~= Seq::<ElemView>::empty());
    assert(elements_over(order, seq![m]) =~= dump::elements_in(order, m.body));
}

/// An error number that is not among the known ones is shown as a number, with
/// its sign turned; known ones each have a text of their own.
pub proof fn lemma_errno_text(errno: i32)
    ensures
        errno != -1 && errno != -2 && errno != -13 && errno != -19 && errno != -22 && errno != -38
            && errno != -95 && errno != -105 ==> errno_text(errno) == "errno "@
            + text::signed_decimal(-errno),
        errno == -1 ==> errno_text(errno) == "EPERM: operation not permitted"@,
        errno == -2 ==> errno_text(errno) == "ENOENT: no such set"@,
        errno == -13 ==> errno_text(errno) == "EACCES: permission denied (need root/CAP_NET_ADMIN?)"@,
        errno == -19 ==> errno_text(errno) == "ENODEV: no such set"@,
        errno == -22 ==> errno_text(errno) == "EINVAL: invalid argument"@,
        errno == -38 ==> errno_text(errno) == "ENOSYS: not implemented"@,
        errno == -95 ==> errno_text(errno) == "EOPNOTSUPP: kernel reply: operation not supported"@,
        errno == -105 ==> errno_text(errno) == "ENOBUFS: kernel out of buffers"@,
{
}

/// Less than a header is no message.
pub proof fn lemma_short_datagram(order: ByteOrder, s: Seq<u8>)
    requires
        s.len() < 16,
    ensures
        frames(order, s).len() == 0,
{
    reveal(frames);
}

/// In the reply to a batch the reading goes on behind messages for others, empty ones,
/// data and acknowledgements; in a single reply data and acknowledgements end it too.
pub proof fn lemma_passes(f: FrameView, portid: u32, seqs: Seq<u32>)
    ensures
        passes(f, portid, seqs, false) <==> f.pid != portid || !seqs.contains(f.seq) || f.kind != 2
            && f.kind != 3 || f.kind == 2 && f.error == Some(0i32),
        passes(f, portid, seqs, true) <==> f.pid != portid || !seqs.contains(f.seq) || f.kind == 1
            || f.kind != 2 && f.kind != 3 && f.body.len() < 4,
{
}

/// What is left waiting is what waited, without what does not wait any more, in the order
/// that it had.
pub proof fn lemma_unacknowledged_order(
    f: Seq<FrameView>,
    portid: u32,
    pending: Seq<u32>,
    left: spec_fn(u32) -> bool,
)
    requires
        forall|seq: u32|
            pending.contains(seq) ==> (#[trigger] left(seq) <==> unacknowledged(
                f,
                portid,
                pending,
            ).contains(seq)),
    ensures
        unacknowledged(f, portid, pending) == pending.filter(left),
{
    broadcast use vstd::seq_lib::group_filter_ensures;

    let p = |seq: u32| !acknowledgements(f, portid, pending).contains(seq);
    assert forall|i: int| 0 <= i < pending.len() implies p(#[trigger] pending[i]) == left(
        pending[i],
    ) by {
        let x = pending[i];
        assert(pending.contains(x));
        if p(x) {
            assert(pending.filter(p).contains(x));
        }
        if pending.filter(p).contains(x) {
            let k = choose|k: int| 0 <= k < pending.filter(p).len() && pending.filter(p)[k] == x;
            assert(p(pending.filter(p)[k]));
        }
    }
    lemma_filter_alike(pending, p, left);
}

proof fn lemma_filter_alike(s: Seq<u32>, p: spec_fn(u32) -> bool, q: spec_fn(u32) -> bool)
    requires
        forall|i: int| 0 <= i < s.len() ==> p(#[trigger] s[i]) == q(s[i]),
    ensures
        s.filter(p) == s.filter(q),
    decreases s.len(),
{
    reveal(Seq::filter);
    if s.len() > 0 {
        let t = s.drop_last();
        assert forall|i: int| 0 <= i < t.len() implies p(#[trigger] t[i]) == q(t[i]) by {
            assert(t[i] == s[i]);
        }
        lemma_filter_alike(t, p, q);
        assert(s[s.len() - 1] == s.last());
    }
}

} // verus!
