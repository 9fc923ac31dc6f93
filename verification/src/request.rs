//! The requests that are sent to the kernel.

use crate::addr;
use crate::attr;
use crate::attr::{
    NFTA_DATA_VALUE, NFTA_SET_ELEM_FLAGS, NFTA_SET_ELEM_KEY, NFTA_SET_ELEM_TIMEOUT,
    NFT_SET_ELEM_INTERVAL_END,
};
use crate::be;
use crate::be::increment_be;
use crate::dump;
use crate::elem;
use crate::elem::{AddElem, AddView};
use crate::order;
use crate::order::{to_bytes, ByteOrder};
use crate::roundtrip;
use crate::wire;
use crate::wire::{MsgBuf, NLA_F_NESTED};
use vstd::prelude::*;
use vstd::slice::slice_to_vec;
use vstd::utf8::*;

verus! {

pub const NLM_F_REQUEST: u16 = 0x01;

pub const NLM_F_ACK: u16 = 0x04;

pub const NLM_F_DUMP: u16 = 0x300;

pub const NLM_F_CREATE: u16 = 0x400;

pub const NLM_F_EXCL: u16 = 0x200;

/// The nftables subsystem of nfnetlink.
pub const NFNL_SUBSYS_NFTABLES: u16 = 10;

pub const NFNL_MSG_BATCH_BEGIN: u16 = 0x10;

pub const NFNL_MSG_BATCH_END: u16 = 0x11;

pub const NFT_MSG_GETSET: u16 = 10;

pub const NFT_MSG_NEWSETELEM: u16 = 12;

pub const NFT_MSG_GETSETELEM: u16 = 13;

pub const NFT_MSG_DELSETELEM: u16 = 14;

pub const AF_UNSPEC: u8 = 0;

/// The attributes of a request that name a table and a set in it.
pub const NFTA_SET_TABLE: u16 = 1;

pub const NFTA_SET_NAME: u16 = 2;

pub const NFTA_SET_ELEM_LIST_TABLE: u16 = 1;

pub const NFTA_SET_ELEM_LIST_SET: u16 = 2;

/// The attribute that holds the list of elements, and the one around each of
/// them.
pub const NFTA_SET_ELEM_LIST_ELEMENTS: u16 = 3;

pub const NFTA_LIST_ELEM: u16 = 1;

/// An interval that ends with the last key of all has no key behind it to put
/// into its end marker.
#[derive(Clone, Copy, Debug, PartialEq, Eq, Structural)]
pub struct IntervalOverflow;

/// The attributes inside one entry of an element list: the key, the flag of an
/// end marker, and the timeout.
pub open spec fn entry_attrs(
    order: ByteOrder,
    key: Seq<u8>,
    is_end: bool,
    timeout_ms: Option<u64>,
) -> Seq<u8> {
    wire::nest(order, NFTA_SET_ELEM_KEY, wire::attr(order, NFTA_DATA_VALUE, key)) + (if is_end {
        wire::attr(order, NFTA_SET_ELEM_FLAGS, be::be_bytes(NFT_SET_ELEM_INTERVAL_END as nat, 4))
    } else {
        Seq::empty()
    }) + (match timeout_ms {
        Some(t) => wire::attr(order, NFTA_SET_ELEM_TIMEOUT, be::be_bytes(t as nat, 8)),
        None => Seq::empty(),
    })
}

/// One entry of an element list.
pub open spec fn entry(
    order: ByteOrder,
    key: Seq<u8>,
    is_end: bool,
    timeout_ms: Option<u64>,
) -> Seq<u8> {
    wire::nest(order, NFTA_LIST_ELEM, entry_attrs(order, key, is_end, timeout_ms))
}

/// How many bytes an entry with a key of `n` bytes takes.
pub open spec fn entry_size(n: nat, is_end: bool, timed: bool) -> nat {
    8 + wire::aligned(4 + n) + (if is_end {
        8nat
    } else {
        0
    }) + (if timed {
        12nat
    } else {
        0
    })
}

pub proof fn lemma_entry_size(order: ByteOrder, key: Seq<u8>, is_end: bool, timeout_ms: Option<u64>)
    ensures
        entry(order, key, is_end, timeout_ms).len() == entry_size(
            key.len(),
            is_end,
            timeout_ms is Some,
        ),
        entry_attrs(order, key, is_end, timeout_ms).len() == entry_size(
            key.len(),
            is_end,
            timeout_ms is Some,
        ) - 4,
        entry_size(key.len(), is_end, timeout_ms is Some) % 4 == 0,
{
    let value = wire::attr(order, NFTA_DATA_VALUE, key);
    wire::lemma_attr_len(order, NFTA_DATA_VALUE, key);
    wire::lemma_attr_len(order, NFTA_SET_ELEM_KEY, value);
    be::lemma_be_bytes_len(1, 4);
    wire::lemma_attr_len(order, NFTA_SET_ELEM_FLAGS, be::be_bytes(1, 4));
    if let Some(t) = timeout_ms {
        be::lemma_be_bytes_len(t as nat, 8);
        wire::lemma_attr_len(order, NFTA_SET_ELEM_TIMEOUT, be::be_bytes(t as nat, 8));
    }
    wire::lemma_attr_len(
        order,
        NFTA_LIST_ELEM,
        entry_attrs(order, key, is_end, timeout_ms),
    );
}

/// Appends the attribute that holds a key.
fn put_key(buf: &mut MsgBuf, key: &[u8])
    requires
        old(buf).wf(),
        old(buf)@.len() + 4 + wire::aligned(4 + key@.len()) <= isize::MAX,
    ensures
        final(buf)@ == old(buf)@ + wire::nest(
            old(buf).order,
            NFTA_SET_ELEM_KEY,
            wire::attr(old(buf).order, NFTA_DATA_VALUE, key@),
        ),
        final(buf)@.len() == old(buf)@.len() + 4 + wire::aligned(4 + key@.len()),
        final(buf).order == old(buf).order,
        final(buf).wf(),
{
    let ghost b0 = buf@;
    let ghost t = NFTA_SET_ELEM_KEY | NLA_F_NESTED;
    let ghost value = wire::attr(buf.order, NFTA_DATA_VALUE, key@);
    proof {
        assert(1u16 | 0 == 1) by (bit_vector);
        wire::lemma_aligned(b0.len() + 4, 4 + key@.len());
        wire::lemma_attr_len(buf.order, t, Seq::empty());
        wire::lemma_attr_len(buf.order, NFTA_DATA_VALUE, key@);
        wire::lemma_attr_len(buf.order, NFTA_SET_ELEM_KEY, value);
        wire::lemma_close_attr(buf.order, b0, t, value);
    }
    let anchor = buf.open_nest(NFTA_SET_ELEM_KEY);
    buf.put_attr(NFTA_DATA_VALUE, 0, key);
    buf.close_nest(anchor);
}

/// Appends an attribute that holds a number of `n` bytes in network byte order.
fn put_number(buf: &mut MsgBuf, t: u16, v: u64, n: usize)
    requires
        old(buf).wf(),
        n == 4 || n == 8,
        old(buf)@.len() + 4 + n <= isize::MAX,
    ensures
        final(buf)@ == old(buf)@ + wire::attr(
            old(buf).order,
            t,
            be::be_bytes(v as nat, n as nat),
        ),
        final(buf)@.len() == old(buf)@.len() + 4 + n,
        final(buf).order == old(buf).order,
        final(buf).wf(),
{
    let b = to_bytes(ByteOrder::Big, v, n);
    proof {
        reveal(order::bytes_of);
        assert(t | 0 == t) by (bit_vector);
        wire::lemma_aligned(buf@.len(), 4 + b@.len());
        wire::lemma_attr_len(buf.order, t, b@);
    }
    buf.put_attr(t, 0, b.as_slice());
}

/// Appends the attributes inside one entry of an element list.
fn put_entry_attrs(buf: &mut MsgBuf, key: &[u8], is_end: bool, timeout_ms: Option<u64>)
    requires
        old(buf).wf(),
        old(buf)@.len() + entry_size(key@.len(), is_end, timeout_ms is Some) - 4 <= isize::MAX,
    ensures
        final(buf)@ == old(buf)@ + entry_attrs(old(buf).order, key@, is_end, timeout_ms),
        final(buf)@.len() == old(buf)@.len() + entry_size(key@.len(), is_end, timeout_ms is Some)
            - 4,
        final(buf).order == old(buf).order,
        final(buf).wf(),
{
    let ghost b0 = buf@;
    let ghost a = wire::nest(
        buf.order,
        NFTA_SET_ELEM_KEY,
        wire::attr(buf.order, NFTA_DATA_VALUE, key@),
    );
    put_key(buf, key);
    let ghost mut f = Seq::<u8>::empty();
    if is_end {
        put_number(buf, NFTA_SET_ELEM_FLAGS, NFT_SET_ELEM_INTERVAL_END as u64, 4);
        proof {
            f = wire::attr(
                buf.order,
                NFTA_SET_ELEM_FLAGS,
                be::be_bytes(NFT_SET_ELEM_INTERVAL_END as nat, 4),
            );
        }
    }
    assert(buf@ =~= b0 + (a + f));
    let ghost mut t = Seq::<u8>::empty();
    if let Some(ms) = timeout_ms {
        put_number(buf, NFTA_SET_ELEM_TIMEOUT, ms, 8);
        proof {
            t = wire::attr(buf.order, NFTA_SET_ELEM_TIMEOUT, be::be_bytes(ms as nat, 8));
        }
    }
    assert(buf@ =~= b0 + (a + f + t));
}

/// Appends one entry of an element list.
fn put_one(buf: &mut MsgBuf, key: &[u8], is_end: bool, timeout_ms: Option<u64>)
    requires
        old(buf).wf(),
        old(buf)@.len() + entry_size(key@.len(), is_end, timeout_ms is Some) <= isize::MAX,
    ensures
        final(buf)@ == old(buf)@ + entry(old(buf).order, key@, is_end, timeout_ms),
        final(buf)@.len() == old(buf)@.len() + entry_size(key@.len(), is_end, timeout_ms is Some),
        final(buf).order == old(buf).order,
        final(buf).wf(),
{
    let ghost b0 = buf@;
    let ghost t = NFTA_LIST_ELEM | NLA_F_NESTED;
    let ghost inner = entry_attrs(buf.order, key@, is_end, timeout_ms);
    proof {
        wire::lemma_attr_len(buf.order, t, Seq::empty());
        lemma_entry_size(buf.order, key@, is_end, timeout_ms);
        wire::lemma_close_attr(buf.order, b0, t, inner);
    }
    let anchor = buf.open_nest(NFTA_LIST_ELEM);
    put_entry_attrs(buf, key, is_end, timeout_ms);
    buf.close_nest(anchor);
}

/// The last key of an element.
pub open spec fn last_key(key: Seq<u8>, key_end: Option<Seq<u8>>) -> Seq<u8> {
    match key_end {
        Some(b) => b,
        None => key,
    }
}

/// The entries for one element: in an interval set its start and an end marker
/// with the key behind the last one, in any other set its key alone.
pub open spec fn entries(
    order: ByteOrder,
    is_interval: bool,
    key: Seq<u8>,
    key_end: Option<Seq<u8>>,
    timeout_ms: Option<u64>,
) -> Option<Seq<u8>> {
    if is_interval {
        match be::successor(last_key(key, key_end)) {
            Some(end) => Some(
                entry(order, key, false, timeout_ms) + entry(order, end, true, None),
            ),
            None => None,
        }
    } else {
        Some(entry(order, key, false, timeout_ms))
    }
}

/// How many bytes the entries for one element take.
pub open spec fn entries_size(
    is_interval: bool,
    key: Seq<u8>,
    key_end: Option<Seq<u8>>,
    timed: bool,
) -> nat {
    entry_size(key.len(), false, timed) + (if is_interval {
        entry_size(last_key(key, key_end).len(), true, false)
    } else {
        0
    })
}

/// Appends the entries for one element to a list. Where the element has no end
/// marker, its start is there already. What is appended is read back as what was
/// written, if its length fits into an attribute.
pub fn put_elem_into_list(
    buf: &mut MsgBuf,
    is_interval: bool,
    key: &[u8],
    key_end: Option<&[u8]>,
    timeout_ms: Option<u64>,
) -> (r: Result<(), IntervalOverflow>)
    requires
        old(buf).wf(),
        old(buf)@.len() + entries_size(is_interval, key@, elem::bound_view(key_end), timeout_ms is Some)
            <= isize::MAX,
    ensures
        match entries(old(buf).order, is_interval, key@, elem::bound_view(key_end), timeout_ms) {
            Some(e) => {
                &&& r is Ok
                &&& final(buf)@ == old(buf)@ + e
                &&& final(buf)@.len() == old(buf)@.len() + entries_size(
                    is_interval,
                    key@,
                    elem::bound_view(key_end),
                    timeout_ms is Some,
                )
            },
            None => {
                &&& r is Err
                &&& final(buf)@ == old(buf)@ + entry(old(buf).order, key@, false, timeout_ms)
            },
        },
        final(buf).order == old(buf).order,
        final(buf).wf(),
        r is Ok && entries_size(is_interval, key@, elem::bound_view(key_end), timeout_ms is Some)
            < 0x1_0000 ==> {
            let added = attr::attrs(old(buf).order, final(buf)@.skip(old(buf)@.len() as int));
            &&& final(buf)@.take(old(buf)@.len() as int) == old(buf)@
            &&& dump::list_readable(old(buf).order, added)
            &&& dump::listed(old(buf).order, added) == roundtrip::entry_views(
                is_interval,
                key@,
                elem::bound_view(key_end),
                timeout_ms,
            )
        },
{
    let ghost b0 = buf@;
    put_one(buf, key, false, timeout_ms);
    if is_interval {
        let mut end_key = match key_end {
            Some(b) => slice_to_vec(b),
            None => slice_to_vec(key),
        };
        let ghost last = end_key@;
        if increment_be(end_key.as_mut_slice()).is_none() {
            return Err(IntervalOverflow);
        }
        proof {
            be::lemma_be_bytes_len(be::be_value(last) + 1, last.len());
        }
        let ghost b1 = buf@;
        put_one(buf, end_key.as_slice(), true, None);
        proof {
            let a = entry(buf.order, key@, false, timeout_ms);
            let b = entry(buf.order, end_key@, true, None);
            assert(b0 + a + b =~= b0 + (a + b));
        }
    }
    proof {
        let bound = elem::bound_view(key_end);
        let list = entries(buf.order, is_interval, key@, bound, timeout_ms).unwrap();
        assert(buf@.take(b0.len() as int) =~= b0);
        assert(buf@.skip(b0.len() as int) =~= list);
        if entries_size(is_interval, key@, bound, timeout_ms is Some) < 0x1_0000 {
            roundtrip::lemma_entries_read_back(
                buf.order,
                is_interval,
                key@,
                bound,
                timeout_ms,
                list,
            );
        }
    }
    Ok(())
}

/// The attributes that name a set.
pub open spec fn set_names(order: ByteOrder, table: Seq<char>, set: Seq<char>) -> Seq<u8> {
    wire::attr(order, NFTA_SET_ELEM_LIST_TABLE, wire::stringz(table)) + wire::attr(
        order,
        NFTA_SET_ELEM_LIST_SET,
        wire::stringz(set),
    )
}

pub open spec fn names_size(table: Seq<char>, set: Seq<char>) -> nat {
    wire::aligned(4 + wire::stringz(table).len()) + wire::aligned(4 + wire::stringz(set).len())
}

fn put_names(buf: &mut MsgBuf, table: &str, set: &str)
    requires
        old(buf).wf(),
        old(buf)@.len() + names_size(table@, set@) <= isize::MAX,
    ensures
        final(buf)@ == old(buf)@ + set_names(old(buf).order, table@, set@),
        final(buf)@.len() == old(buf)@.len() + names_size(table@, set@),
        final(buf).order == old(buf).order,
        final(buf).wf(),
{
    let ghost b0 = buf@;
    proof {
        wire::lemma_aligned(b0.len(), 4 + wire::stringz(table@).len());
        wire::lemma_aligned(
            b0.len() + wire::aligned(4 + wire::stringz(table@).len()),
            4 + wire::stringz(set@).len(),
        );
        wire::lemma_attr_len(buf.order, NFTA_SET_ELEM_LIST_TABLE, wire::stringz(table@));
        wire::lemma_attr_len(buf.order, NFTA_SET_ELEM_LIST_SET, wire::stringz(set@));
    }
    buf.put_attr_stringz(NFTA_SET_ELEM_LIST_TABLE, table);
    buf.put_attr_stringz(NFTA_SET_ELEM_LIST_SET, set);
    assert(buf@ =~= b0 + set_names(buf.order, table@, set@));
}

/// The type of an nftables message.
pub open spec fn nft_type(kind: u16) -> u16 {
    (NFNL_SUBSYS_NFTABLES << 8) | kind
}

/// A message that starts or ends a batch.
pub open spec fn marker(order: ByteOrder, kind: u16, seq: u32) -> Seq<u8> {
    wire::message(
        order,
        kind,
        AF_UNSPEC,
        seq,
        NLM_F_REQUEST,
        NFNL_SUBSYS_NFTABLES,
        Seq::empty(),
    )
}

/// A message that adds or deletes the elements of a list.
pub open spec fn operation(
    order: ByteOrder,
    kind: u16,
    flags: u16,
    family: u8,
    seq: u32,
    table: Seq<char>,
    set: Seq<char>,
    list: Seq<u8>,
) -> Seq<u8> {
    wire::message(
        order,
        nft_type(kind),
        family,
        seq,
        flags,
        0,
        set_names(order, table, set) + wire::nest(order, NFTA_SET_ELEM_LIST_ELEMENTS, list),
    )
}

fn put_marker(buf: &mut MsgBuf, kind: u16, seq: u32)
    requires
        old(buf).wf(),
        old(buf)@.len() + 20 <= isize::MAX,
    ensures
        final(buf)@ == old(buf)@ + marker(old(buf).order, kind, seq),
        final(buf)@.len() == old(buf)@.len() + 20,
        final(buf).order == old(buf).order,
{
    let ghost b0 = buf@;
    let off = buf.put_header();
    proof {
        assert(buf@ =~= b0 + addr::zeros(20) + Seq::<u8>::empty());
        wire::lemma_message_patched(
            buf.order,
            b0,
            kind,
            AF_UNSPEC,
            seq,
            NLM_F_REQUEST,
            NFNL_SUBSYS_NFTABLES,
            Seq::empty(),
        );
        wire::lemma_header_len(
            buf.order,
            20,
            kind,
            AF_UNSPEC,
            seq,
            NLM_F_REQUEST,
            NFNL_SUBSYS_NFTABLES,
        );
    }
    buf.set_header(off, kind, AF_UNSPEC, seq, NLM_F_REQUEST, NFNL_SUBSYS_NFTABLES);
}

/// Appends the list of the entries for one element.
fn put_list(
    buf: &mut MsgBuf,
    is_interval: bool,
    key: &[u8],
    key_end: Option<&[u8]>,
    timeout_ms: Option<u64>,
) -> (r: Result<(), IntervalOverflow>)
    requires
        old(buf).wf(),
        old(buf)@.len() + 4 + entries_size(
            is_interval,
            key@,
            elem::bound_view(key_end),
            timeout_ms is Some,
        ) <= isize::MAX,
    ensures
        match entries(old(buf).order, is_interval, key@, elem::bound_view(key_end), timeout_ms) {
            Some(list) => {
                &&& r is Ok
                &&& final(buf)@ == old(buf)@ + wire::nest(
                    old(buf).order,
                    NFTA_SET_ELEM_LIST_ELEMENTS,
                    list,
                )
                &&& final(buf)@.len() == old(buf)@.len() + 4 + entries_size(
                    is_interval,
                    key@,
                    elem::bound_view(key_end),
                    timeout_ms is Some,
                )
            },
            None => r is Err,
        },
        final(buf).order == old(buf).order,
        final(buf).wf(),
{
    let ghost order = buf.order;
    let ghost b0 = buf@;
    let ghost t = NFTA_SET_ELEM_LIST_ELEMENTS | NLA_F_NESTED;
    proof {
        wire::lemma_attr_len(order, t, Seq::empty());
    }
    let anchor = buf.open_nest(NFTA_SET_ELEM_LIST_ELEMENTS);
    match put_elem_into_list(buf, is_interval, key, key_end, timeout_ms) {
        Ok(_) => {},
        Err(e) => {
            return Err(e);
        },
    }
    proof {
        let list = entries(order, is_interval, key@, elem::bound_view(key_end), timeout_ms).unwrap();
        wire::lemma_close_attr(order, b0, t, list);
        wire::lemma_attr_len(order, NFTA_SET_ELEM_LIST_ELEMENTS, list);
    }
    buf.close_nest(anchor);
    Ok(())
}

/// How many bytes the message for one element takes.
pub open spec fn operation_size(
    table: Seq<char>,
    set: Seq<char>,
    is_interval: bool,
    key: Seq<u8>,
    key_end: Option<Seq<u8>>,
    timed: bool,
) -> nat {
    24 + names_size(table, set) + entries_size(is_interval, key, key_end, timed)
}

/// Writing the headers in front of the names and the list gives the message.
proof fn lemma_operation_patched(
    order: ByteOrder,
    before: Seq<u8>,
    kind: u16,
    flags: u16,
    family: u8,
    seq: u32,
    table: Seq<char>,
    set: Seq<char>,
    list: Seq<u8>,
)
    ensures
        ({
            let names = set_names(order, table, set);
            let nest = wire::nest(order, NFTA_SET_ELEM_LIST_ELEMENTS, list);
            wire::patched(
                before + addr::zeros(20) + names + nest,
                before.len() as int,
                wire::header(
                    order,
                    20 + names.len() + nest.len(),
                    nft_type(kind),
                    family,
                    seq,
                    flags,
                    0,
                ),
            ) == before + operation(order, kind, flags, family, seq, table, set, list)
        }),
{
    let names = set_names(order, table, set);
    let nest = wire::nest(order, NFTA_SET_ELEM_LIST_ELEMENTS, list);
    assert(before + addr::zeros(20) + names + nest =~= before + addr::zeros(20) + (names + nest));
    wire::lemma_message_patched(
        order,
        before,
        nft_type(kind),
        family,
        seq,
        flags,
        0,
        names + nest,
    );
}

/// Appends the message that adds or deletes one element.
fn put_operation(
    buf: &mut MsgBuf,
    kind: u16,
    flags: u16,
    family: u8,
    seq: u32,
    table: &str,
    set: &str,
    is_interval: bool,
    key: &[u8],
    key_end: Option<&[u8]>,
    timeout_ms: Option<u64>,
) -> (r: Result<(), IntervalOverflow>)
    requires
        old(buf).wf(),
        old(buf)@.len() + operation_size(
            table@,
            set@,
            is_interval,
            key@,
            elem::bound_view(key_end),
            timeout_ms is Some,
        ) <= isize::MAX,
    ensures
        match entries(old(buf).order, is_interval, key@, elem::bound_view(key_end), timeout_ms) {
            Some(list) => {
                &&& r is Ok
                &&& final(buf)@ == old(buf)@ + operation(
                    old(buf).order,
                    kind,
                    flags,
                    family,
                    seq,
                    table@,
                    set@,
                    list,
                )
                &&& final(buf)@.len() == old(buf)@.len() + operation_size(
                    table@,
                    set@,
                    is_interval,
                    key@,
                    elem::bound_view(key_end),
                    timeout_ms is Some,
                )
                &&& final(buf).wf()
                &&& final(buf).order == old(buf).order
            },
            None => r is Err,
        },
{
    let ghost order = buf.order;
    let ghost b0 = buf@;
    let off = buf.put_header();
    put_names(buf, table, set);
    match put_list(buf, is_interval, key, key_end, timeout_ms) {
        Ok(_) => {},
        Err(e) => {
            return Err(e);
        },
    }
    proof {
        let list = entries(order, is_interval, key@, elem::bound_view(key_end), timeout_ms).unwrap();
        lemma_operation_patched(order, b0, kind, flags, family, seq, table@, set@, list);
    }
    buf.set_header(off, (NFNL_SUBSYS_NFTABLES << 8) | kind, family, seq, flags, 0);
    Ok(())
}

/// The flags of a request that adds elements: it creates or replaces, or, if
/// `excl` is set, fails on an element that is there already.
pub open spec fn add_flags(excl: bool) -> u16 {
    if excl {
        NLM_F_REQUEST | (NLM_F_CREATE | NLM_F_EXCL) | NLM_F_ACK
    } else {
        NLM_F_REQUEST | NLM_F_CREATE | NLM_F_ACK
    }
}

fn flags_for_add(excl: bool) -> (r: u16)
    ensures
        r == add_flags(excl),
{
    if excl {
        NLM_F_REQUEST | (NLM_F_CREATE | NLM_F_EXCL) | NLM_F_ACK
    } else {
        NLM_F_REQUEST | NLM_F_CREATE | NLM_F_ACK
    }
}

/// The flags of a request that deletes elements.
pub open spec fn delete_flags() -> u16 {
    NLM_F_REQUEST | NLM_F_ACK
}

/// A request for what there is about a set.
pub open spec fn query(
    order: ByteOrder,
    kind: u16,
    flags: u16,
    family: u8,
    seq: u32,
    table: Seq<char>,
    set: Seq<char>,
) -> Seq<u8> {
    wire::message(
        order,
        nft_type(kind),
        family,
        seq,
        flags,
        0,
        set_names(order, table, set),
    )
}

fn build_query(
    order: ByteOrder,
    kind: u16,
    flags: u16,
    family: u8,
    table: &str,
    set: &str,
    seq: u32,
) -> (r: Vec<u8>)
    requires
        20 + names_size(table@, set@) <= isize::MAX,
    ensures
        r@ == query(order, kind, flags, family, seq, table@, set@),
{
    let mut buf = MsgBuf::new(order);
    let head = buf.put_header();
    put_names(&mut buf, table, set);
    proof {
        let names = set_names(order, table@, set@);
        let none = Seq::<u8>::empty();
        assert(buf@ =~= none + addr::zeros(20) + names);
        wire::lemma_message_patched(order, none, nft_type(kind), family, 0, flags, 0, names);
        wire::lemma_header_len(order, 20 + names.len(), nft_type(kind), family, 0, flags, 0);
        assert(none + query(order, kind, flags, family, 0, table@, set@) =~= query(
            order,
            kind,
            flags,
            family,
            0,
            table@,
            set@,
        ));
        wire::lemma_seq_patched(order, nft_type(kind), family, 0, flags, 0, names, seq);
    }
    buf.set_header(head, (NFNL_SUBSYS_NFTABLES << 8) | kind, family, 0, flags, 0);
    buf.fix_seq_at(0, seq);
    buf.buf
}

/// The request for the flags of a set.
pub fn set_flags_request(order: ByteOrder, family: u8, table: &str, set: &str, seq: u32) -> (r: Vec<
    u8,
>)
    requires
        20 + names_size(table@, set@) <= isize::MAX,
    ensures
        r@ == query(
            order,
            NFT_MSG_GETSET,
            NLM_F_REQUEST | NLM_F_ACK,
            family,
            seq,
            table@,
            set@,
        ),
{
    build_query(order, NFT_MSG_GETSET, NLM_F_REQUEST | NLM_F_ACK, family, table, set, seq)
}

/// The request for a dump of the elements of a set.
pub fn set_elements_request(
    order: ByteOrder,
    family: u8,
    table: &str,
    set: &str,
    seq: u32,
) -> (r: Vec<u8>)
    requires
        20 + names_size(table@, set@) <= isize::MAX,
    ensures
        r@ == query(
            order,
            NFT_MSG_GETSETELEM,
            NLM_F_REQUEST | NLM_F_DUMP | NLM_F_ACK,
            family,
            seq,
            table@,
            set@,
        ),
{
    build_query(
        order,
        NFT_MSG_GETSETELEM,
        NLM_F_REQUEST | NLM_F_DUMP | NLM_F_ACK,
        family,
        table,
        set,
        seq,
    )
}

/// A batch of operations, and the sequence numbers of the replies to it.
pub struct Batch {
    pub bytes: Vec<u8>,
    pub seqs: Vec<u32>,
}

/// Operations between the two markers of a batch.
pub open spec fn batch(order: ByteOrder, seq: u32, operations: Seq<u8>, end_seq: u32) -> Seq<u8> {
    marker(order, NFNL_MSG_BATCH_BEGIN, seq) + operations + marker(
        order,
        NFNL_MSG_BATCH_END,
        end_seq,
    )
}

/// What a batch with one operation on one element holds.
pub open spec fn single_batch(
    order: ByteOrder,
    kind: u16,
    flags: u16,
    family: u8,
    table: Seq<char>,
    set: Seq<char>,
    seq: u32,
    list: Seq<u8>,
) -> Seq<u8> {
    batch(
        order,
        seq,
        operation(order, kind, flags, family, (seq + 1) as u32, table, set, list),
        (seq + 2) as u32,
    )
}

fn build_single(
    order: ByteOrder,
    kind: u16,
    flags: u16,
    family: u8,
    table: &str,
    set: &str,
    is_interval: bool,
    key: &[u8],
    key_end: Option<&[u8]>,
    timeout_ms: Option<u64>,
    seq: u32,
) -> (r: Result<Batch, IntervalOverflow>)
    requires
        seq + 2 <= u32::MAX,
        40 + operation_size(
            table@,
            set@,
            is_interval,
            key@,
            elem::bound_view(key_end),
            timeout_ms is Some,
        ) <= isize::MAX,
    ensures
        match entries(order, is_interval, key@, elem::bound_view(key_end), timeout_ms) {
            Some(list) => {
                &&& r matches Ok(b)
                &&& b.bytes@ == single_batch(order, kind, flags, family, table@, set@, seq, list)
                &&& b.seqs@ == seq![(seq + 1) as u32]
            },
            None => r is Err,
        },
{
    let mut buf = MsgBuf::new(order);
    put_marker(&mut buf, NFNL_MSG_BATCH_BEGIN, seq);
    let ghost begin = marker(order, NFNL_MSG_BATCH_BEGIN, seq);
    assert(buf@ =~= begin);
    match put_operation(
        &mut buf,
        kind,
        flags,
        family,
        seq + 1,
        table,
        set,
        is_interval,
        key,
        key_end,
        timeout_ms,
    ) {
        Ok(_) => {},
        Err(e) => {
            return Err(e);
        },
    }
    put_marker(&mut buf, NFNL_MSG_BATCH_END, seq + 2);
    let mut seqs: Vec<u32> = Vec::new();
    seqs.push(seq + 1);
    Ok(Batch { bytes: buf.buf, seqs })
}

/// The batch that adds one element. `key_end` is the last key of the element;
/// sets without intervals ignore it.
pub fn add_element_batch(
    order: ByteOrder,
    family: u8,
    table: &str,
    set: &str,
    is_interval: bool,
    key: &[u8],
    key_end: Option<&[u8]>,
    timeout_ms: Option<u64>,
    excl: bool,
    seq: u32,
) -> (r: Result<Batch, IntervalOverflow>)
    requires
        seq + 2 <= u32::MAX,
        40 + operation_size(
            table@,
            set@,
            is_interval,
            key@,
            elem::bound_view(key_end),
            timeout_ms is Some,
        ) <= isize::MAX,
    ensures
        match entries(order, is_interval, key@, elem::bound_view(key_end), timeout_ms) {
            Some(list) => {
                &&& r matches Ok(b)
                &&& b.bytes@ == single_batch(
                    order,
                    NFT_MSG_NEWSETELEM,
                    add_flags(excl),
                    family,
                    table@,
                    set@,
                    seq,
                    list,
                )
                &&& b.seqs@ == seq![(seq + 1) as u32]
            },
            None => r is Err,
        },
{
    build_single(
        order,
        NFT_MSG_NEWSETELEM,
        flags_for_add(excl),
        family,
        table,
        set,
        is_interval,
        key,
        key_end,
        timeout_ms,
        seq,
    )
}

/// The batch that deletes one element. `key_end` is the last key of the element;
/// sets without intervals ignore it.
pub fn delete_element_batch(
    order: ByteOrder,
    family: u8,
    table: &str,
    set: &str,
    is_interval: bool,
    key: &[u8],
    key_end: Option<&[u8]>,
    seq: u32,
) -> (r: Result<Batch, IntervalOverflow>)
    requires
        seq + 2 <= u32::MAX,
        40 + operation_size(table@, set@, is_interval, key@, elem::bound_view(key_end), false)
            <= isize::MAX,
    ensures
        match entries(order, is_interval, key@, elem::bound_view(key_end), None) {
            Some(list) => {
                &&& r matches Ok(b)
                &&& b.bytes@ == single_batch(
                    order,
                    NFT_MSG_DELSETELEM,
                    delete_flags(),
                    family,
                    table@,
                    set@,
                    seq,
                    list,
                )
                &&& b.seqs@ == seq![(seq + 1) as u32]
            },
            None => r is Err,
        },
{
    build_single(
        order,
        NFT_MSG_DELSETELEM,
        NLM_F_REQUEST | NLM_F_ACK,
        family,
        table,
        set,
        is_interval,
        key,
        key_end,
        None,
        seq,
    )
}

/// What a batch that deletes one element and adds another holds.
pub open spec fn replace_batch(
    order: ByteOrder,
    excl: bool,
    family: u8,
    table: Seq<char>,
    set: Seq<char>,
    seq: u32,
    del: Seq<u8>,
    add: Seq<u8>,
) -> Seq<u8> {
    batch(
        order,
        seq,
        operation(
            order,
            NFT_MSG_DELSETELEM,
            delete_flags(),
            family,
            (seq + 1) as u32,
            table,
            set,
            del,
        ) + operation(
            order,
            NFT_MSG_NEWSETELEM,
            add_flags(excl),
            family,
            (seq + 2) as u32,
            table,
            set,
            add,
        ),
        (seq + 3) as u32,
    )
}

/// The batch that deletes one element and adds another.
pub fn replace_element_batch(
    order: ByteOrder,
    family: u8,
    table: &str,
    set: &str,
    is_interval: bool,
    del_key: &[u8],
    del_key_end: Option<&[u8]>,
    add_key: &[u8],
    add_key_end: Option<&[u8]>,
    add_timeout_ms: Option<u64>,
    add_excl: bool,
    seq: u32,
) -> (r: Result<Batch, IntervalOverflow>)
    requires
        seq + 3 <= u32::MAX,
        40 + operation_size(
            table@,
            set@,
            is_interval,
            del_key@,
            elem::bound_view(del_key_end),
            false,
        ) + operation_size(
            table@,
            set@,
            is_interval,
            add_key@,
            elem::bound_view(add_key_end),
            add_timeout_ms is Some,
        ) <= isize::MAX,
    ensures
        match (
            entries(order, is_interval, del_key@, elem::bound_view(del_key_end), None),
            entries(order, is_interval, add_key@, elem::bound_view(add_key_end), add_timeout_ms),
        ) {
            (Some(del), Some(add)) => {
                &&& r matches Ok(b)
                &&& b.bytes@ == replace_batch(
                    order,
                    add_excl,
                    family,
                    table@,
                    set@,
                    seq,
                    del,
                    add,
                )
                &&& b.seqs@ == seq![(seq + 1) as u32, (seq + 2) as u32]
            },
            _ => r is Err,
        },
{
    let mut buf = MsgBuf::new(order);
    put_marker(&mut buf, NFNL_MSG_BATCH_BEGIN, seq);
    assert(buf@ =~= marker(order, NFNL_MSG_BATCH_BEGIN, seq));
    match put_operation(
        &mut buf,
        NFT_MSG_DELSETELEM,
        NLM_F_REQUEST | NLM_F_ACK,
        family,
        seq + 1,
        table,
        set,
        is_interval,
        del_key,
        del_key_end,
        None,
    ) {
        Ok(_) => {},
        Err(e) => {
            return Err(e);
        },
    }
    match put_operation(
        &mut buf,
        NFT_MSG_NEWSETELEM,
        flags_for_add(add_excl),
        family,
        seq + 2,
        table,
        set,
        is_interval,
        add_key,
        add_key_end,
        add_timeout_ms,
    ) {
        Ok(_) => {},
        Err(e) => {
            return Err(e);
        },
    }
    put_marker(&mut buf, NFNL_MSG_BATCH_END, seq + 3);
    let mut seqs: Vec<u32> = Vec::new();
    seqs.push(seq + 1);
    seqs.push(seq + 2);
    proof {
        let begin = marker(order, NFNL_MSG_BATCH_BEGIN, seq);
        let del = operation(
            order,
            NFT_MSG_DELSETELEM,
            delete_flags(),
            family,
            (seq + 1) as u32,
            table@,
            set@,
            entries(order, is_interval, del_key@, elem::bound_view(del_key_end), None).unwrap(),
        );
        let add = operation(
            order,
            NFT_MSG_NEWSETELEM,
            add_flags(add_excl),
            family,
            (seq + 2) as u32,
            table@,
            set@,
            entries(
                order,
                is_interval,
                add_key@,
                elem::bound_view(add_key_end),
                add_timeout_ms,
            ).unwrap(),
        );
        assert(begin + del + add =~= begin + (del + add));
    }
    Ok(Batch { bytes: buf.buf, seqs })
}

/// The `k`th sequence number behind `seq`; they start again at 0 after the
/// largest.
pub open spec fn nth_seq(seq: u32, k: int) -> u32 {
    ((seq + k) % 0x1_0000_0000) as u32
}

/// The messages that add the elements of `s`, one each, with the sequence
/// numbers behind `seq`.
pub open spec fn additions(
    order: ByteOrder,
    flags: u16,
    family: u8,
    table: Seq<char>,
    set: Seq<char>,
    is_interval: bool,
    s: Seq<AddView>,
    seq: u32,
) -> Option<Seq<u8>>
    decreases s.len(),
{
    if s.len() == 0 {
        Some(Seq::empty())
    } else {
        match (
            additions(order, flags, family, table, set, is_interval, s.drop_last(), seq),
            entries(order, is_interval, s.last().key, s.last().key_end, s.last().timeout_ms),
        ) {
            (Some(before), Some(list)) => Some(
                before + operation(
                    order,
                    NFT_MSG_NEWSETELEM,
                    flags,
                    family,
                    nth_seq(seq, s.len() as int),
                    table,
                    set,
                    list,
                ),
            ),
            _ => None,
        }
    }
}

/// How many bytes the messages that add the elements of `s` take.
pub open spec fn additions_size(
    table: Seq<char>,
    set: Seq<char>,
    is_interval: bool,
    s: Seq<AddView>,
) -> nat
    decreases s.len(),
{
    if s.len() == 0 {
        0
    } else {
        additions_size(table, set, is_interval, s.drop_last()) + operation_size(
            table,
            set,
            is_interval,
            s.last().key,
            s.last().key_end,
            s.last().timeout_ms is Some,
        )
    }
}

proof fn lemma_additions_size_prefix(
    table: Seq<char>,
    set: Seq<char>,
    is_interval: bool,
    s: Seq<AddView>,
    n: int,
)
    requires
        0 <= n <= s.len(),
    ensures
        additions_size(table, set, is_interval, s.take(n)) <= additions_size(
            table,
            set,
            is_interval,
            s,
        ),
    decreases s.len(),
{
    if n < s.len() {
        lemma_additions_size_prefix(table, set, is_interval, s.drop_last(), n);
        assert(s.drop_last().take(n) =~= s.take(n));
    } else {
        assert(s.take(n) =~= s);
    }
}

/// Elements that cannot be added make a list that cannot be added.
proof fn lemma_additions_prefix(
    order: ByteOrder,
    flags: u16,
    family: u8,
    table: Seq<char>,
    set: Seq<char>,
    is_interval: bool,
    s: Seq<AddView>,
    seq: u32,
    n: int,
)
    requires
        0 <= n <= s.len(),
        additions(order, flags, family, table, set, is_interval, s.take(n), seq) is None,
    ensures
        additions(order, flags, family, table, set, is_interval, s, seq) is None,
    decreases s.len(),
{
    if n < s.len() {
        assert(s.drop_last().take(n) =~= s.take(n));
        lemma_additions_prefix(
            order,
            flags,
            family,
            table,
            set,
            is_interval,
            s.drop_last(),
            seq,
            n,
        );
    } else {
        assert(s.take(n) =~= s);
    }
}

/// The batch that adds all of `elements`. It fails if one of them cannot be
/// added.
pub fn add_elements_batch(
    order: ByteOrder,
    family: u8,
    table: &str,
    set: &str,
    is_interval: bool,
    elements: &[AddElem<'_>],
    excl: bool,
    seq: u32,
) -> (r: Result<Batch, IntervalOverflow>)
    requires
        elements@.len() < u32::MAX,
        40 + additions_size(table@, set@, is_interval, elem::add_views(elements@)) <= isize::MAX,
    ensures
        match additions(
            order,
            add_flags(excl),
            family,
            table@,
            set@,
            is_interval,
            elem::add_views(elements@),
            seq,
        ) {
            Some(operations) => {
                &&& r matches Ok(b)
                &&& b.bytes@ == batch(
                    order,
                    seq,
                    operations,
                    nth_seq(seq, elements@.len() as int + 1),
                )
                &&& b.seqs@ == Seq::new(elements@.len(), |i: int| nth_seq(seq, i + 1))
            },
            None => r is Err,
        },
{
    let mut buf = MsgBuf::new(order);
    put_marker(&mut buf, NFNL_MSG_BATCH_BEGIN, seq);
    let ghost begin = marker(order, NFNL_MSG_BATCH_BEGIN, seq);
    let ghost s = elem::add_views(elements@);
    assert(buf@ =~= begin);
    let flags = flags_for_add(excl);
    let mut seqs: Vec<u32> = Vec::new();
    let mut i: usize = 0;
    assert(s.take(0) =~= Seq::<AddView>::empty());
    assert(begin =~= begin + Seq::<u8>::empty());
    while i < elements.len()
        invariant
            i <= elements@.len() < u32::MAX,
            s == elem::add_views(elements@),
            40 + additions_size(table@, set@, is_interval, s) <= isize::MAX,
            flags == add_flags(excl),
            buf.order == order,
            buf.wf(),
            buf@.len() == 20 + additions_size(table@, set@, is_interval, s.take(i as int)),
            additions(
                order,
                flags,
                family,
                table@,
                set@,
                is_interval,
                s.take(i as int),
                seq,
            ) is Some,
            buf@ == begin + additions(
                order,
                flags,
                family,
                table@,
                set@,
                is_interval,
                s.take(i as int),
                seq,
            ).unwrap(),
            seqs@ == Seq::new(i as nat, |k: int| nth_seq(seq, k + 1)),
        decreases elements.len() - i,
    {
        let e = &elements[i];
        let this_seq = seq.wrapping_add(i as u32 + 1);
        let ghost t = s.take(i + 1);
        let ghost before = additions(
            order,
            flags,
            family,
            table@,
            set@,
            is_interval,
            s.take(i as int),
            seq,
        ).unwrap();
        proof {
            assert(t.drop_last() =~= s.take(i as int));
            assert(t.last() == e@);
            assert(this_seq == nth_seq(seq, i + 1));
            lemma_additions_size_prefix(table@, set@, is_interval, s, i + 1);
        }
        match put_operation(
            &mut buf,
            NFT_MSG_NEWSETELEM,
            flags,
            family,
            this_seq,
            table,
            set,
            is_interval,
            e.key,
            e.key_end,
            e.timeout_ms,
        ) {
            Ok(_) => {},
            Err(err) => {
                proof {
                    lemma_additions_prefix(
                        order,
                        flags,
                        family,
                        table@,
                        set@,
                        is_interval,
                        s,
                        seq,
                        i + 1,
                    );
                }
                return Err(err);
            },
        }
        seqs.push(this_seq);
        i = i + 1;
        proof {
            let list = entries(order, is_interval, e@.key, e@.key_end, e@.timeout_ms).unwrap();
            let op = operation(
                order,
                NFT_MSG_NEWSETELEM,
                flags,
                family,
                this_seq,
                table@,
                set@,
                list,
            );
            assert(begin + before + op =~= begin + (before + op));
            assert(seqs@ =~= Seq::new(i as nat, |k: int| nth_seq(seq, k + 1)));
        }
    }
    assert(s.take(i as int) =~= s);
    put_marker(&mut buf, NFNL_MSG_BATCH_END, seq.wrapping_add(elements.len() as u32 + 1));
    Ok(Batch { bytes: buf.buf, seqs })
}

fn aligned_size(n: u128) -> (r: u128)
    requires
        n <= 0xffff_ffff_ffff_ffff_ffff,
    ensures
        r == wire::aligned(n as nat),
        r < n + 4,
{
    proof {
        reveal(wire::aligned);
    }
    (n + 3) / 4 * 4
}

fn size_of_names(table: &str, set: &str) -> (r: u128)
    ensures
        r == names_size(table@, set@),
        r <= 0xffff_ffff_ffff_ffff_ffff,
{
    let t: usize = table.as_bytes().len();
    let s: usize = set.as_bytes().len();
    aligned_size(t as u128 + 5) + aligned_size(s as u128 + 5)
}

fn size_of_entry(n: usize, is_end: bool, timed: bool) -> (r: u128)
    ensures
        r == entry_size(n as nat, is_end, timed),
        r <= 0xffff_ffff_ffff_ffff_ffff,
{
    let end: u128 = if is_end {
        8
    } else {
        0
    };
    let timeout: u128 = if timed {
        12
    } else {
        0
    };
    8 + aligned_size(n as u128 + 4) + end + timeout
}

/// Whether the request for the flags, or for the elements, of a set fits into
/// memory.
pub fn query_fits(table: &str, set: &str) -> (r: bool)
    ensures
        r == (20 + names_size(table@, set@) <= isize::MAX),
{
    20 + size_of_names(table, set) <= isize::MAX as u128
}

/// Whether a batch with one message for each of `elements` fits into memory,
/// and has a sequence number for each of them.
pub fn batch_fits(table: &str, set: &str, is_interval: bool, elements: &[AddElem<'_>]) -> (r: bool)
    ensures
        r == (elements@.len() < u32::MAX && 40 + additions_size(
            table@,
            set@,
            is_interval,
            elem::add_views(elements@),
        ) <= isize::MAX),
{
    let len: usize = elements.len();
    if len >= u32::MAX as usize {
        return false;
    }
    let names = size_of_names(table, set);
    let ghost s = elem::add_views(elements@);
    let mut total: u128 = 40;
    let mut i: usize = 0;
    assert(s.take(0) =~= Seq::<AddView>::empty());
    while i < len
        invariant
            i <= len,
            len == elements@.len(),
            s == elem::add_views(elements@),
            names == names_size(table@, set@),
            names <= 0xffff_ffff_ffff_ffff_ffff,
            total == 40 + additions_size(table@, set@, is_interval, s.take(i as int)),
            i == 0 && total == 40 || total <= isize::MAX,
        decreases len - i,
    {
        let e = &elements[i];
        let last: usize = match e.key_end {
            Some(b) => b.len(),
            None => e.key.len(),
        };
        let end: u128 = if is_interval {
            size_of_entry(last, true, false)
        } else {
            0
        };
        total = total + 24 + names + size_of_entry(e.key.len(), false, e.timeout_ms.is_some())
            + end;
        proof {
            let t = s.take(i + 1);
            assert(t.drop_last() =~= s.take(i as int));
            assert(t.last() == e@);
            lemma_additions_size_prefix(table@, set@, is_interval, s, i + 1);
        }
        if total > isize::MAX as u128 {
            return false;
        }
        i = i + 1;
    }
    assert(s.take(i as int) =~= s);
    true
}

} // verus!
