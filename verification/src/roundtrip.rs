//! What is written, read back.

use crate::attr;
use crate::attr::{
    AttrView, NFTA_DATA_VALUE, NFTA_SET_ELEM_EXPIRATION, NFTA_SET_ELEM_FLAGS, NFTA_SET_ELEM_KEY,
    NFTA_SET_ELEM_KEY_END, NFTA_SET_ELEM_TIMEOUT, NFT_SET_ELEM_INTERVAL_END,
};
use crate::be;
use crate::dump;
use crate::elem::{AddView, ElemView};
use crate::intervals;
use crate::order;
use crate::order::ByteOrder;
use crate::reply;
use crate::request;
use crate::request::{
    NFNL_MSG_BATCH_BEGIN, NFNL_MSG_BATCH_END, NFTA_LIST_ELEM, NFTA_SET_ELEM_LIST_ELEMENTS,
    NFT_MSG_DELSETELEM, NFT_MSG_NEWSETELEM,
};
use crate::wire;
use vstd::arithmetic::power2::*;
use vstd::prelude::*;
use vstd::utf8::*;

verus! {

/// What an entry of an element list stands for.
pub open spec fn entry_view(key: Seq<u8>, is_end: bool, timeout_ms: Option<u64>) -> ElemView {
    ElemView { key, is_end, key_end: Seq::empty(), timeout_ms, expiration_ms: None }
}

proof fn lemma_scalars(s: Seq<AttrView>, k: AttrView, f: Seq<AttrView>, t: Seq<AttrView>)
    requires
        s == seq![k] + f + t,
        attr::type_of(k) == NFTA_SET_ELEM_KEY,
        f.len() <= 1,
        t.len() <= 1,
        f.len() == 1 ==> attr::type_of(f[0]) == NFTA_SET_ELEM_FLAGS,
        t.len() == 1 ==> attr::type_of(t[0]) == NFTA_SET_ELEM_TIMEOUT,
    ensures
        attr::lookup(s, NFTA_SET_ELEM_KEY) == Some(k),
        attr::lookup(s, NFTA_SET_ELEM_FLAGS) == if f.len() == 1 {
            Some(f[0])
        } else {
            None
        },
        attr::lookup(s, NFTA_SET_ELEM_TIMEOUT) == if t.len() == 1 {
            Some(t[0])
        } else {
            None
        },
        attr::lookup(s, NFTA_SET_ELEM_EXPIRATION) is None,
        attr::lookup(s, NFTA_SET_ELEM_KEY_END) is None,
{
    reveal_with_fuel(attr::lookup, 4);
    if t.len() == 1 {
        assert(s.last() == t[0]);
        assert(s.drop_last() =~= seq![k] + f);
    } else {
        assert(s =~= seq![k] + f);
    }
    if f.len() == 1 {
        assert((seq![k] + f).last() == f[0]);
        assert((seq![k] + f).drop_last() =~= seq![k]);
    } else {
        assert(seq![k] + f =~= seq![k]);
    }
    assert(seq![k].drop_last() =~= Seq::<AttrView>::empty());
}

/// A written entry is read as the element that was written.
pub proof fn lemma_entry_read_back(
    order: ByteOrder,
    key: Seq<u8>,
    is_end: bool,
    timeout_ms: Option<u64>,
)
    requires
        request::entry_size(key.len(), is_end, timeout_ms is Some) < 0x1_0000,
    ensures
        attr::elem_of(
            order,
            attr::attrs(order, request::entry_attrs(order, key, is_end, timeout_ms)),
        ) == Some(entry_view(key, is_end, timeout_ms)),
        attr::elem_readable(
            order,
            attr::attrs(order, request::entry_attrs(order, key, is_end, timeout_ms)),
        ),
{
    let none = Seq::<u8>::empty();
    let value = wire::attr(order, NFTA_DATA_VALUE, key);
    let nested_key = wire::nest(order, NFTA_SET_ELEM_KEY, value);
    let one = be::be_bytes(NFT_SET_ELEM_INTERVAL_END as nat, 4);
    let fb = if is_end {
        wire::attr(order, NFTA_SET_ELEM_FLAGS, one)
    } else {
        none
    };
    let tb = match timeout_ms {
        Some(t) => wire::attr(order, NFTA_SET_ELEM_TIMEOUT, be::be_bytes(t as nat, 8)),
        None => none,
    };
    let k = AttrView { raw_type: NFTA_SET_ELEM_KEY | wire::NLA_F_NESTED, payload: value };
    let f = if is_end {
        seq![AttrView { raw_type: NFTA_SET_ELEM_FLAGS, payload: one }]
    } else {
        Seq::empty()
    };
    let t = match timeout_ms {
        Some(t) => seq![
            AttrView { raw_type: NFTA_SET_ELEM_TIMEOUT, payload: be::be_bytes(t as nat, 8) },
        ],
        None => Seq::empty(),
    };
    attr::lemma_type_read_back(1);
    attr::lemma_type_read_back(3);
    attr::lemma_type_read_back(4);
    lemma2_to64();
    be::lemma_be_value_of_bytes(1, 4);
    wire::lemma_attr_len(order, NFTA_DATA_VALUE, key);
    attr::lemma_no_attrs(order);
    // The timeout, or nothing.
    assert(attr::attrs(order, tb) =~= t) by {
        if let Some(t) = timeout_ms {
            be::lemma_be_bytes_len(t as nat, 8);
            attr::lemma_attr_read_back(order, NFTA_SET_ELEM_TIMEOUT, be::be_bytes(t as nat, 8), none);
            assert(tb + none =~= tb);
        }
    }
    // The flags before it.
    assert(attr::attrs(order, fb + tb) =~= f + t) by {
        if is_end {
            attr::lemma_attr_read_back(order, NFTA_SET_ELEM_FLAGS, one, tb);
        } else {
            assert(fb + tb =~= tb);
        }
    }
    // The key before both.
    let s = attr::attrs(order, request::entry_attrs(order, key, is_end, timeout_ms));
    assert(s =~= seq![k] + f + t) by {
        assert(nested_key + fb + tb =~= nested_key + (fb + tb));
        attr::lemma_nest_read_back(order, NFTA_SET_ELEM_KEY, value, fb + tb);
    }
    lemma_scalars(s, k, f, t);
    assert(attr::data_value(order, k) == Some(key)) by {
        attr::lemma_attr_read_back(order, NFTA_DATA_VALUE, key, none);
        assert(value + none =~= value);
    }
    assert(one.take(4) =~= one);
    assert(1u32 & 1 != 0) by (bit_vector);
    if let Some(t) = timeout_ms {
        be::lemma_be_value_of_bytes(t as nat, 8);
        assert(be::be_bytes(t as nat, 8).take(8) =~= be::be_bytes(t as nat, 8));
    }
}

/// What the entries for one element stand for: in an interval set its start and
/// the end marker behind its last key, in any other set its key alone.
pub open spec fn entry_views(
    is_interval: bool,
    key: Seq<u8>,
    key_end: Option<Seq<u8>>,
    timeout_ms: Option<u64>,
) -> Seq<ElemView> {
    if is_interval {
        match be::successor(request::last_key(key, key_end)) {
            Some(end) => seq![entry_view(key, false, timeout_ms), entry_view(end, true, None)],
            None => Seq::empty(),
        }
    } else {
        seq![entry_view(key, false, timeout_ms)]
    }
}

/// The written entries for one element are read as what was written.
pub proof fn lemma_entries_read_back(
    order: ByteOrder,
    is_interval: bool,
    key: Seq<u8>,
    key_end: Option<Seq<u8>>,
    timeout_ms: Option<u64>,
    list: Seq<u8>,
)
    requires
        request::entries(order, is_interval, key, key_end, timeout_ms) == Some(list),
        request::entries_size(is_interval, key, key_end, timeout_ms is Some) < 0x1_0000,
    ensures
        list.len() == request::entries_size(is_interval, key, key_end, timeout_ms is Some),
        list.len() % 4 == 0,
        dump::listed(order, attr::attrs(order, list)) == entry_views(
            is_interval,
            key,
            key_end,
            timeout_ms,
        ),
        dump::list_readable(order, attr::attrs(order, list)),
{
    let none = Seq::<u8>::empty();
    let t = NFTA_LIST_ELEM | wire::NLA_F_NESTED;
    let start = request::entry_attrs(order, key, false, timeout_ms);
    let a = AttrView { raw_type: t, payload: start };
    let s = attr::attrs(order, list);
    attr::lemma_type_read_back(1);
    request::lemma_entry_size(order, key, false, timeout_ms);
    lemma_entry_read_back(order, key, false, timeout_ms);
    attr::lemma_no_attrs(order);
    reveal_with_fuel(dump::listed, 3);
    if is_interval {
        let last = request::last_key(key, key_end);
        let end = be::successor(last).unwrap();
        be::lemma_be_bytes_len(be::be_value(last) + 1, last.len());
        let stop = request::entry_attrs(order, end, true, None);
        let b = AttrView { raw_type: t, payload: stop };
        request::lemma_entry_size(order, end, true, None);
        lemma_entry_read_back(order, end, true, None);
        let stop_entry = request::entry(order, end, true, None);
        attr::lemma_nest_read_back(order, NFTA_LIST_ELEM, stop, none);
        assert(stop_entry + none =~= stop_entry);
        attr::lemma_nest_read_back(order, NFTA_LIST_ELEM, start, stop_entry);
        assert(s =~= seq![a, b]);
        assert(s.drop_last() =~= seq![a]);
    } else {
        attr::lemma_nest_read_back(order, NFTA_LIST_ELEM, start, none);
        assert(list + none =~= list);
        assert(s =~= seq![a]);
    }
    assert(seq![a].drop_last() =~= Seq::<AttrView>::empty());
    assert(dump::listed(order, s) =~= entry_views(is_interval, key, key_end, timeout_ms));
}

/// Whether the body of a message is for the address family, and names the table and
/// the set, each with a zero byte behind it.
pub open spec fn names_are(
    order: ByteOrder,
    body: Seq<u8>,
    family: u8,
    table: Seq<char>,
    set: Seq<char>,
) -> bool {
    let s = attr::attrs(order, body.skip(4));
    &&& body.len() >= 4
    &&& body[0] == family
    &&& attr::lookup(s, 1) matches Some(a)
    &&& a.payload == encode_utf8(table).push(0)
    &&& attr::lookup(s, 2) matches Some(b)
    &&& b.payload == encode_utf8(set).push(0)
}

/// A message that adds or deletes an element, read as part of a dump, holds what
/// was written into it.
pub proof fn lemma_operation_read_back(
    order: ByteOrder,
    kind: u16,
    flags: u16,
    family: u8,
    seq: u32,
    table: Seq<char>,
    set: Seq<char>,
    is_interval: bool,
    key: Seq<u8>,
    key_end: Option<Seq<u8>>,
    timeout_ms: Option<u64>,
    list: Seq<u8>,
)
    requires
        request::entries(order, is_interval, key, key_end, timeout_ms) == Some(list),
        4 + request::entries_size(is_interval, key, key_end, timeout_ms is Some) < 0x1_0000,
        4 + wire::stringz(table).len() < 0x1_0000,
        4 + wire::stringz(set).len() < 0x1_0000,
    ensures
        ({
            let m = request::operation(order, kind, flags, family, seq, table, set, list);
            &&& dump::body_readable(order, m.skip(16))
            &&& dump::elements_in(order, m.skip(16)) == entry_views(is_interval, key, key_end, timeout_ms)
            &&& names_are(order, m.skip(16), family, table, set)
        }),
{
    let m = request::operation(order, kind, flags, family, seq, table, set, list);
    let none = Seq::<u8>::empty();
    let x = wire::attr(order, request::NFTA_SET_ELEM_LIST_TABLE, wire::stringz(table));
    let y = wire::attr(order, request::NFTA_SET_ELEM_LIST_SET, wire::stringz(set));
    let z = wire::nest(order, NFTA_SET_ELEM_LIST_ELEMENTS, list);
    let a = AttrView {
        raw_type: request::NFTA_SET_ELEM_LIST_TABLE,
        payload: wire::stringz(table),
    };
    let b = AttrView { raw_type: request::NFTA_SET_ELEM_LIST_SET, payload: wire::stringz(set) };
    let c = AttrView {
        raw_type: NFTA_SET_ELEM_LIST_ELEMENTS | wire::NLA_F_NESTED,
        payload: list,
    };
    let s = attr::attrs(order, m.skip(16).skip(4));
    lemma_entries_read_back(order, is_interval, key, key_end, timeout_ms, list);
    attr::lemma_type_read_back(1);
    attr::lemma_type_read_back(2);
    attr::lemma_type_read_back(3);
    attr::lemma_no_attrs(order);
    assert(attr::attrs(order, z) =~= seq![c]) by {
        attr::lemma_nest_read_back(order, NFTA_SET_ELEM_LIST_ELEMENTS, list, none);
        assert(z + none =~= z);
    }
    assert(attr::attrs(order, y + z) =~= seq![b, c]) by {
        attr::lemma_attr_read_back(
            order,
            request::NFTA_SET_ELEM_LIST_SET,
            wire::stringz(set),
            z,
        );
    }
    assert(s =~= seq![a, b, c]) by {
        attr::lemma_attr_read_back(
            order,
            request::NFTA_SET_ELEM_LIST_TABLE,
            wire::stringz(table),
            y + z,
        );
        wire::lemma_header_len(
            order,
            20 + (x + y + z).len(),
            request::nft_type(kind),
            family,
            seq,
            flags,
            0,
        );
        assert(m.skip(16).skip(4) =~= x + (y + z));
    }
    assert(names_are(order, m.skip(16), family, table, set)) by {
        reveal(wire::header);
        wire::lemma_header_len(
            order,
            20 + (x + y + z).len(),
            request::nft_type(kind),
            family,
            seq,
            flags,
            0,
        );
        wire::lemma_family(
            order,
            20 + (x + y + z).len(),
            request::nft_type(kind),
            family,
            seq,
            flags,
            0,
        );
        reveal_with_fuel(attr::lookup, 4);
        assert(s.last() == c);
        assert(s.drop_last() =~= seq![a, b]);
        assert(seq![a, b].drop_last() =~= seq![a]);
        assert(m.skip(16)[0] == family);
    }
    reveal_with_fuel(dump::dumped, 4);
    assert(s.drop_last() =~= seq![a, b]);
    assert(seq![a, b].drop_last() =~= seq![a]);
    assert(seq![a].drop_last() =~= Seq::<AttrView>::empty());
    assert(dump::elements_in(order, m.skip(16)) =~= entry_views(is_interval, key, key_end, timeout_ms));
}

/// An element that was added to an interval set, read as part of a dump, reduces
/// to the interval that was added.
pub proof fn lemma_added_interval_reduces(
    order: ByteOrder,
    kind: u16,
    flags: u16,
    family: u8,
    seq: u32,
    table: Seq<char>,
    set: Seq<char>,
    key: Seq<u8>,
    key_end: Option<Seq<u8>>,
    timeout_ms: Option<u64>,
    list: Seq<u8>,
)
    requires
        request::entries(order, true, key, key_end, timeout_ms) == Some(list),
        4 + request::entries_size(true, key, key_end, timeout_ms is Some) < 0x1_0000,
        4 + wire::stringz(table).len() < 0x1_0000,
        4 + wire::stringz(set).len() < 0x1_0000,
        key.len() == request::last_key(key, key_end).len(),
        be::lex_le(key, request::last_key(key, key_end)),
    ensures
        ({
            let m = request::operation(order, kind, flags, family, seq, table, set, list);
            intervals::reduced(dump::elements_in(order, m.skip(16)), true) == seq![
                ElemView {
                    key,
                    is_end: false,
                    key_end: request::last_key(key, key_end),
                    timeout_ms,
                    expiration_ms: None,
                },
            ]
        }),
{
    let last = request::last_key(key, key_end);
    let end = be::successor(last).unwrap();
    lemma_operation_read_back(
        order,
        kind,
        flags,
        family,
        seq,
        table,
        set,
        true,
        key,
        key_end,
        timeout_ms,
        list,
    );
    intervals::lemma_boundary_pair_reduces(key, last, end, timeout_ms);
}

/// A written message is the first one that is read, whatever follows it.
pub proof fn lemma_message_read_back(
    order: ByteOrder,
    kind: u16,
    family: u8,
    seq: u32,
    flags: u16,
    res_id: u16,
    body: Seq<u8>,
    rest: Seq<u8>,
)
    requires
        20 + body.len() < 0x1_0000_0000,
        body.len() % 4 == 0,
    ensures
        ({
            let m = wire::message(order, kind, family, seq, flags, res_id, body);
            let fs = reply::frames(order, m + rest);
            &&& fs.len() > 0
            &&& fs[0].kind == kind
            &&& fs[0].seq == seq
            &&& fs[0].pid == 0
            &&& fs[0].flags == flags
            &&& fs[0].body == seq![family, 0u8] + be::be_bytes(res_id as nat, 2) + body
            &&& fs[0].body == m.skip(16)
            &&& fs.skip(1) == reply::frames(order, rest)
        }),
{
    reveal(reply::frames);
    reveal(wire::header);
    lemma2_to64();
    let len = 20 + body.len();
    let m = wire::message(order, kind, family, seq, flags, res_id, body);
    let s = m + rest;
    wire::lemma_header_len(order, len, kind, family, seq, flags, res_id);
    order::lemma_value_of_bytes(order, len, 4);
    order::lemma_value_of_bytes(order, kind as nat, 2);
    order::lemma_value_of_bytes(order, flags as nat, 2);
    order::lemma_value_of_bytes(order, seq as nat, 4);
    order::lemma_value_of_bytes(order, 0, 4);
    assert(s.subrange(0, 4) =~= order::bytes_of(order, len, 4));
    assert(s.subrange(4, 6) =~= order::bytes_of(order, kind as nat, 2));
    assert(s.subrange(6, 8) =~= order::bytes_of(order, flags as nat, 2));
    assert(s.subrange(8, 12) =~= order::bytes_of(order, seq as nat, 4));
    be::lemma_be_bytes_len(res_id as nat, 2);
    assert(m.skip(16) =~= seq![family, 0u8] + be::be_bytes(res_id as nat, 2) + body);
    assert(s.subrange(12, 16) =~= order::bytes_of(order, 0, 4));
    assert(s.subrange(16, len as int) =~= m.skip(16));
    wire::lemma_aligned(0, len);
    assert(attr::tail(s, wire::aligned(len) as int) =~= rest);
    assert(reply::frames(order, s).skip(1) =~= reply::frames(order, rest));
}

/// The element fits into a message, as do the names of the table and the set.
pub open spec fn fits_message(
    table: Seq<char>,
    set: Seq<char>,
    is_interval: bool,
    e: AddView,
) -> bool {
    &&& 4 + request::entries_size(is_interval, e.key, e.key_end, e.timeout_ms is Some) < 0x1_0000
    &&& 4 + wire::stringz(table).len() < 0x1_0000
    &&& 4 + wire::stringz(set).len() < 0x1_0000
}

proof fn lemma_operation_len(
    order: ByteOrder,
    table: Seq<char>,
    set: Seq<char>,
    is_interval: bool,
    e: AddView,
    list: Seq<u8>,
)
    requires
        request::entries(order, is_interval, e.key, e.key_end, e.timeout_ms) == Some(list),
        fits_message(table, set, is_interval, e),
    ensures
        ({
            let body = request::set_names(order, table, set) + wire::nest(
                order,
                NFTA_SET_ELEM_LIST_ELEMENTS,
                list,
            );
            body.len() % 4 == 0 && 20 + body.len() < 0x1_0000_0000
        }),
{
    wire::lemma_attr_len(order, request::NFTA_SET_ELEM_LIST_TABLE, wire::stringz(table));
    wire::lemma_attr_len(order, request::NFTA_SET_ELEM_LIST_SET, wire::stringz(set));
    wire::lemma_attr_len(order, NFTA_SET_ELEM_LIST_ELEMENTS, list);
    lemma_entries_read_back(order, is_interval, e.key, e.key_end, e.timeout_ms, list);
}

/// A message that adds or deletes an element is the first one that is read.
proof fn lemma_operation_first(
    order: ByteOrder,
    kind: u16,
    flags: u16,
    family: u8,
    seq: u32,
    table: Seq<char>,
    set: Seq<char>,
    is_interval: bool,
    e: AddView,
    list: Seq<u8>,
    rest: Seq<u8>,
)
    requires
        request::entries(order, is_interval, e.key, e.key_end, e.timeout_ms) == Some(list),
        fits_message(table, set, is_interval, e),
    ensures
        ({
            let m = request::operation(order, kind, flags, family, seq, table, set, list);
            let fs = reply::frames(order, m + rest);
            &&& fs.len() > 0
            &&& fs[0].kind == request::nft_type(kind)
            &&& fs[0].seq == seq
            &&& fs[0].flags == flags
            &&& names_are(order, fs[0].body, family, table, set)
            &&& dump::body_readable(order, fs[0].body)
            &&& dump::elements_in(order, fs[0].body) == entry_views(
                is_interval,
                e.key,
                e.key_end,
                e.timeout_ms,
            )
            &&& fs.skip(1) == reply::frames(order, rest)
        }),
{
    let body = request::set_names(order, table, set) + wire::nest(
        order,
        NFTA_SET_ELEM_LIST_ELEMENTS,
        list,
    );
    lemma_operation_len(order, table, set, is_interval, e, list);
    lemma_message_read_back(
        order,
        request::nft_type(kind),
        family,
        seq,
        flags,
        0,
        body,
        rest,
    );
    lemma_operation_read_back(
        order,
        kind,
        flags,
        family,
        seq,
        table,
        set,
        is_interval,
        e.key,
        e.key_end,
        e.timeout_ms,
        list,
    );
}

/// The messages that add elements are read as one message for each, in their
/// order, with the sequence number and the element that were written.
pub proof fn lemma_additions_read_back(
    order: ByteOrder,
    flags: u16,
    family: u8,
    table: Seq<char>,
    set: Seq<char>,
    is_interval: bool,
    s: Seq<AddView>,
    seq: u32,
    operations: Seq<u8>,
    rest: Seq<u8>,
)
    requires
        request::additions(order, flags, family, table, set, is_interval, s, seq) == Some(
            operations,
        ),
        forall|i: int| 0 <= i < s.len() ==> fits_message(table, set, is_interval, #[trigger] s[i]),
    ensures
        ({
            let fs = reply::frames(order, operations + rest);
            &&& fs.len() >= s.len()
            &&& fs.skip(s.len() as int) == reply::frames(order, rest)
            &&& forall|i: int|
                0 <= i < s.len() ==> {
                    &&& (#[trigger] fs[i]).kind == request::nft_type(NFT_MSG_NEWSETELEM)
                    &&& fs[i].flags == flags
                    &&& names_are(order, fs[i].body, family, table, set)
                    &&& dump::body_readable(order, fs[i].body)
                    &&& fs[i].seq == request::nth_seq(seq, i + 1)
                    &&& dump::elements_in(order, fs[i].body) == entry_views(
                        is_interval,
                        s[i].key,
                        s[i].key_end,
                        s[i].timeout_ms,
                    )
                }
        }),
    decreases s.len(),
{
    let fs = reply::frames(order, operations + rest);
    if s.len() == 0 {
        assert(operations + rest =~= rest);
        assert(fs.skip(0) =~= fs);
    } else {
        let t = s.drop_last();
        let e = s.last();
        let n = s.len() - 1;
        let before = request::additions(
            order,
            flags,
            family,
            table,
            set,
            is_interval,
            t,
            seq,
        ).unwrap();
        let list = request::entries(order, is_interval, e.key, e.key_end, e.timeout_ms).unwrap();
        let this_seq = request::nth_seq(seq, s.len() as int);
        let op = request::operation(
            order,
            NFT_MSG_NEWSETELEM,
            flags,
            family,
            this_seq,
            table,
            set,
            list,
        );
        assert(fits_message(table, set, is_interval, s[n]));
        assert forall|i: int| 0 <= i < t.len() implies fits_message(
            table,
            set,
            is_interval,
            #[trigger] t[i],
        ) by {
            assert(t[i] == s[i]);
        }
        assert(operations + rest =~= before + (op + rest));
        lemma_additions_read_back(
            order,
            flags,
            family,
            table,
            set,
            is_interval,
            t,
            seq,
            before,
            op + rest,
        );
        lemma_operation_first(
            order,
            NFT_MSG_NEWSETELEM,
            flags,
            family,
            this_seq,
            table,
            set,
            is_interval,
            e,
            list,
            rest,
        );
        let tail = reply::frames(order, op + rest);
        assert(fs.skip(n) == tail);
        assert(fs[n] == tail[0]);
        assert(fs.skip(n + 1) =~= tail.skip(1));
        assert forall|i: int| 0 <= i < s.len() implies {
            &&& (#[trigger] fs[i]).kind == request::nft_type(NFT_MSG_NEWSETELEM)
            &&& fs[i].flags == flags
            &&& names_are(order, fs[i].body, family, table, set)
            &&& dump::body_readable(order, fs[i].body)
            &&& fs[i].seq == request::nth_seq(seq, i + 1)
            &&& dump::elements_in(order, fs[i].body) == entry_views(
                is_interval,
                s[i].key,
                s[i].key_end,
                s[i].timeout_ms,
            )
        } by {
            if i < n {
                assert(s[i] == t[i]);
            }
        }
    }
}

proof fn lemma_subsystem_bytes()
    ensures
        seq![request::AF_UNSPEC, 0u8] + be::be_bytes(request::NFNL_SUBSYS_NFTABLES as nat, 2)
            + Seq::<u8>::empty() == seq![0u8, 0, 0, 10],
{
    reveal_with_fuel(be::be_bytes, 3);
    assert(be::be_bytes(10, 2) =~= seq![0u8, 10]);
    assert(seq![request::AF_UNSPEC, 0u8] + seq![0u8, 10] + Seq::<u8>::empty() =~= seq![
        0u8,
        0,
        0,
        10,
    ]);
}

proof fn lemma_begin_read_back(order: ByteOrder, seq: u32, operations: Seq<u8>, end_seq: u32)
    ensures
        ({
            let end = request::marker(order, NFNL_MSG_BATCH_END, end_seq);
            let fs = reply::frames(order, request::batch(order, seq, operations, end_seq));
            &&& fs.len() > 0
            &&& fs[0].kind == NFNL_MSG_BATCH_BEGIN
            &&& fs[0].seq == seq
            &&& fs[0].flags == 1
            &&& fs[0].body == seq![0u8, 0, 0, 10]
            &&& fs.skip(1) == reply::frames(order, operations + end)
        }),
{
    let begin = request::marker(order, NFNL_MSG_BATCH_BEGIN, seq);
    let end = request::marker(order, NFNL_MSG_BATCH_END, end_seq);
    assert(begin + operations + end =~= begin + (operations + end));
    lemma_subsystem_bytes();
    lemma_message_read_back(
        order,
        NFNL_MSG_BATCH_BEGIN,
        request::AF_UNSPEC,
        seq,
        request::NLM_F_REQUEST,
        request::NFNL_SUBSYS_NFTABLES,
        Seq::empty(),
        operations + end,
    );
}

proof fn lemma_end_read_back(order: ByteOrder, seq: u32)
    ensures
        ({
            let fs = reply::frames(order, request::marker(order, NFNL_MSG_BATCH_END, seq));
            &&& fs.len() == 1
            &&& fs[0].kind == NFNL_MSG_BATCH_END
            &&& fs[0].seq == seq
            &&& fs[0].flags == 1
            &&& fs[0].body == seq![0u8, 0, 0, 10]
        }),
{
    let none = Seq::<u8>::empty();
    let end = request::marker(order, NFNL_MSG_BATCH_END, seq);
    lemma_subsystem_bytes();
    lemma_message_read_back(
        order,
        NFNL_MSG_BATCH_END,
        request::AF_UNSPEC,
        seq,
        request::NLM_F_REQUEST,
        request::NFNL_SUBSYS_NFTABLES,
        none,
        none,
    );
    assert(end + none =~= end);
    assert(reply::frames(order, none) =~= Seq::empty()) by {
        reveal(reply::frames);
    }
}

/// A batch that adds elements is read as the marker that begins it, one message
/// for each element, and the marker that ends it.
pub proof fn lemma_batch_read_back(
    order: ByteOrder,
    flags: u16,
    family: u8,
    table: Seq<char>,
    set: Seq<char>,
    is_interval: bool,
    s: Seq<AddView>,
    seq: u32,
    operations: Seq<u8>,
    end_seq: u32,
)
    requires
        request::additions(order, flags, family, table, set, is_interval, s, seq) == Some(
            operations,
        ),
        forall|i: int| 0 <= i < s.len() ==> fits_message(table, set, is_interval, #[trigger] s[i]),
    ensures
        ({
            let fs = reply::frames(order, request::batch(order, seq, operations, end_seq));
            let n = s.len() as int;
            &&& fs.len() == n + 2
            &&& fs[0].kind == NFNL_MSG_BATCH_BEGIN
            &&& fs[0].seq == seq
            &&& fs[0].flags == 1
            &&& fs[0].body == seq![0u8, 0, 0, 10]
            &&& fs[n + 1].kind == NFNL_MSG_BATCH_END
            &&& fs[n + 1].seq == end_seq
            &&& fs[n + 1].flags == 1
            &&& fs[n + 1].body == seq![0u8, 0, 0, 10]
            &&& forall|i: int|
                1 <= i <= n ==> {
                    &&& (#[trigger] fs[i]).kind == request::nft_type(NFT_MSG_NEWSETELEM)
                    &&& fs[i].flags == flags
                    &&& names_are(order, fs[i].body, family, table, set)
                    &&& dump::body_readable(order, fs[i].body)
                    &&& fs[i].seq == request::nth_seq(seq, i)
                    &&& dump::elements_in(order, fs[i].body) == entry_views(
                        is_interval,
                        s[i - 1].key,
                        s[i - 1].key_end,
                        s[i - 1].timeout_ms,
                    )
                }
        }),
{
    let n = s.len() as int;
    let end = request::marker(order, NFNL_MSG_BATCH_END, end_seq);
    let fs = reply::frames(order, request::batch(order, seq, operations, end_seq));
    lemma_begin_read_back(order, seq, operations, end_seq);
    lemma_additions_read_back(
        order,
        flags,
        family,
        table,
        set,
        is_interval,
        s,
        seq,
        operations,
        end,
    );
    lemma_end_read_back(order, end_seq);
    let ops = reply::frames(order, operations + end);
    let last = reply::frames(order, end);
    assert(fs.skip(1) == ops);
    assert(ops.skip(n) == last);
    assert(ops[n] == last[0]);
    assert(fs[n + 1] == ops[n]);
    assert forall|i: int| 1 <= i <= n implies {
        &&& (#[trigger] fs[i]).kind == request::nft_type(NFT_MSG_NEWSETELEM)
        &&& fs[i].flags == flags
        &&& names_are(order, fs[i].body, family, table, set)
        &&& dump::body_readable(order, fs[i].body)
        &&& fs[i].seq == request::nth_seq(seq, i)
        &&& dump::elements_in(order, fs[i].body) == entry_views(
            is_interval,
            s[i - 1].key,
            s[i - 1].key_end,
            s[i - 1].timeout_ms,
        )
    } by {
        assert(fs[i] == ops[i - 1]);
    }
}

/// A batch with one operation is read as the marker that begins it, the
/// operation, and the marker that ends it.
pub proof fn lemma_single_batch_read_back(
    order: ByteOrder,
    kind: u16,
    flags: u16,
    family: u8,
    table: Seq<char>,
    set: Seq<char>,
    is_interval: bool,
    e: AddView,
    seq: u32,
    list: Seq<u8>,
)
    requires
        request::entries(order, is_interval, e.key, e.key_end, e.timeout_ms) == Some(list),
        fits_message(table, set, is_interval, e),
    ensures
        ({
            let fs = reply::frames(
                order,
                request::single_batch(order, kind, flags, family, table, set, seq, list),
            );
            &&& fs.len() == 3
            &&& fs[0].kind == NFNL_MSG_BATCH_BEGIN
            &&& fs[0].seq == seq
            &&& fs[0].flags == 1
            &&& fs[0].body == seq![0u8, 0, 0, 10]
            &&& fs[1].kind == request::nft_type(kind)
            &&& fs[1].seq == (seq + 1) as u32
            &&& fs[1].flags == flags
            &&& names_are(order, fs[1].body, family, table, set)
            &&& dump::body_readable(order, fs[1].body)
            &&& dump::elements_in(order, fs[1].body) == entry_views(
                is_interval,
                e.key,
                e.key_end,
                e.timeout_ms,
            )
            &&& fs[2].kind == NFNL_MSG_BATCH_END
            &&& fs[2].seq == (seq + 2) as u32
            &&& fs[2].flags == 1
            &&& fs[2].body == seq![0u8, 0, 0, 10]
        }),
{
    let op = request::operation(order, kind, flags, family, (seq + 1) as u32, table, set, list);
    let end = request::marker(order, NFNL_MSG_BATCH_END, (seq + 2) as u32);
    lemma_begin_read_back(order, seq, op, (seq + 2) as u32);
    lemma_operation_first(
        order,
        kind,
        flags,
        family,
        (seq + 1) as u32,
        table,
        set,
        is_interval,
        e,
        list,
        end,
    );
    lemma_end_read_back(order, (seq + 2) as u32);
    let fs = reply::frames(order, request::batch(order, seq, op, (seq + 2) as u32));
    assert(fs[1] == fs.skip(1)[0]);
    assert(fs[2] == fs.skip(1).skip(1)[0]);
}

/// A batch that replaces an element is read as the marker that begins it, the
/// deletion, the addition, and the marker that ends it.
pub proof fn lemma_replace_batch_read_back(
    order: ByteOrder,
    excl: bool,
    family: u8,
    table: Seq<char>,
    set: Seq<char>,
    is_interval: bool,
    del: AddView,
    add: AddView,
    seq: u32,
    del_list: Seq<u8>,
    add_list: Seq<u8>,
)
    requires
        request::entries(order, is_interval, del.key, del.key_end, del.timeout_ms) == Some(
            del_list,
        ),
        request::entries(order, is_interval, add.key, add.key_end, add.timeout_ms) == Some(
            add_list,
        ),
        fits_message(table, set, is_interval, del),
        fits_message(table, set, is_interval, add),
    ensures
        ({
            let fs = reply::frames(
                order,
                request::replace_batch(order, excl, family, table, set, seq, del_list, add_list),
            );
            &&& fs.len() == 4
            &&& fs[0].kind == NFNL_MSG_BATCH_BEGIN
            &&& fs[0].seq == seq
            &&& fs[0].flags == 1
            &&& fs[0].body == seq![0u8, 0, 0, 10]
            &&& fs[1].kind == request::nft_type(NFT_MSG_DELSETELEM)
            &&& fs[1].seq == (seq + 1) as u32
            &&& fs[1].flags == request::delete_flags()
            &&& names_are(order, fs[1].body, family, table, set)
            &&& dump::body_readable(order, fs[1].body)
            &&& dump::elements_in(order, fs[1].body) == entry_views(
                is_interval,
                del.key,
                del.key_end,
                del.timeout_ms,
            )
            &&& fs[2].kind == request::nft_type(NFT_MSG_NEWSETELEM)
            &&& fs[2].seq == (seq + 2) as u32
            &&& fs[2].flags == request::add_flags(excl)
            &&& names_are(order, fs[2].body, family, table, set)
            &&& dump::body_readable(order, fs[2].body)
            &&& dump::elements_in(order, fs[2].body) == entry_views(
                is_interval,
                add.key,
                add.key_end,
                add.timeout_ms,
            )
            &&& fs[3].kind == NFNL_MSG_BATCH_END
            &&& fs[3].seq == (seq + 3) as u32
            &&& fs[3].flags == 1
            &&& fs[3].body == seq![0u8, 0, 0, 10]
        }),
{
    let d = request::operation(
        order,
        NFT_MSG_DELSETELEM,
        request::delete_flags(),
        family,
        (seq + 1) as u32,
        table,
        set,
        del_list,
    );
    let a = request::operation(
        order,
        NFT_MSG_NEWSETELEM,
        request::add_flags(excl),
        family,
        (seq + 2) as u32,
        table,
        set,
        add_list,
    );
    let end = request::marker(order, NFNL_MSG_BATCH_END, (seq + 3) as u32);
    lemma_begin_read_back(order, seq, d + a, (seq + 3) as u32);
    assert(d + a + end =~= d + (a + end));
    lemma_operation_first(
        order,
        NFT_MSG_DELSETELEM,
        request::delete_flags(),
        family,
        (seq + 1) as u32,
        table,
        set,
        is_interval,
        del,
        del_list,
        a + end,
    );
    lemma_operation_first(
        order,
        NFT_MSG_NEWSETELEM,
        request::add_flags(excl),
        family,
        (seq + 2) as u32,
        table,
        set,
        is_interval,
        add,
        add_list,
        end,
    );
    lemma_end_read_back(order, (seq + 3) as u32);
    let fs = reply::frames(order, request::batch(order, seq, d + a, (seq + 3) as u32));
    let gs = reply::frames(order, d + (a + end));
    assert(fs.skip(1) == gs);
    assert(fs[1] == gs[0]);
    assert(fs[2] == gs.skip(1)[0]);
    assert(fs[3] == gs.skip(1).skip(1)[0]);
}

/// An interval that was added to an interval set, read as part of a dump, holds
/// exactly the addresses from its first to its last key.
pub proof fn lemma_added_interval_contains(
    order: ByteOrder,
    kind: u16,
    flags: u16,
    family: u8,
    seq: u32,
    table: Seq<char>,
    set: Seq<char>,
    key: Seq<u8>,
    key_end: Option<Seq<u8>>,
    timeout_ms: Option<u64>,
    list: Seq<u8>,
    ip: Seq<u8>,
)
    requires
        request::entries(order, true, key, key_end, timeout_ms) == Some(list),
        4 + request::entries_size(true, key, key_end, timeout_ms is Some) < 0x1_0000,
        4 + wire::stringz(table).len() < 0x1_0000,
        4 + wire::stringz(set).len() < 0x1_0000,
        key.len() == request::last_key(key, key_end).len(),
        be::lex_le(key, request::last_key(key, key_end)),
        ip.len() == key.len(),
    ensures
        ({
            let m = request::operation(order, kind, flags, family, seq, table, set, list);
            intervals::contains(dump::elements_in(order, m.skip(16)), true, ip) <==> be::lex_le(
                key,
                ip,
            ) && be::lex_le(ip, request::last_key(key, key_end))
        }),
{
    let last = request::last_key(key, key_end);
    let m = request::operation(order, kind, flags, family, seq, table, set, list);
    let s = dump::elements_in(order, m.skip(16));
    lemma_operation_read_back(
        order,
        kind,
        flags,
        family,
        seq,
        table,
        set,
        true,
        key,
        key_end,
        timeout_ms,
        list,
    );
    lemma_added_interval_reduces(
        order,
        kind,
        flags,
        family,
        seq,
        table,
        set,
        key,
        key_end,
        timeout_ms,
        list,
    );
    be::lemma_be_bytes_len(be::be_value(last) + 1, last.len());
    assert(s =~= entry_views(true, key, key_end, timeout_ms));
    intervals::lemma_contains_agrees_with_reduced(s, ip);
    let r = intervals::reduced(s, true);
    assert(last.len() > 0);
    assert(intervals::spans(r[0], ip) <==> be::lex_le(key, ip) && be::lex_le(ip, last));
    if intervals::any_spans(r, ip) {
        let i = choose|i: int| 0 <= i < r.len() && intervals::spans(#[trigger] r[i], ip);
        assert(i == 0);
    }
}

/// In a set without intervals an element is its key alone, whatever its upper bound.
/// In an interval set there is also an end marker, with the number behind the last
/// key and no timeout; there is none where all bytes of the last key are 255.
pub proof fn lemma_entries_parts(
    order: ByteOrder,
    is_interval: bool,
    key: Seq<u8>,
    key_end: Option<Seq<u8>>,
    timeout_ms: Option<u64>,
)
    ensures
        ({
            let last = match key_end {
                Some(b) => b,
                None => key,
            };
            let v = entry_views(is_interval, key, key_end, timeout_ms);
            let full = last == Seq::new(last.len(), |i: int| 255u8);
            &&& (request::entries(order, is_interval, key, key_end, timeout_ms) is None
                <==> is_interval && full)
            &&& (!is_interval ==> v.len() == 1)
            &&& (is_interval && !full ==> {
                &&& v.len() == 2
                &&& v[1].is_end
                &&& v[1].key.len() == last.len()
                &&& be::be_value(v[1].key) == be::be_value(last) + 1
                &&& v[1].key_end.len() == 0
                &&& v[1].timeout_ms is None
                &&& v[1].expiration_ms is None
            })
            &&& (!is_interval || !full ==> {
                &&& v[0].key == key
                &&& !v[0].is_end
                &&& v[0].key_end.len() == 0
                &&& v[0].timeout_ms == timeout_ms
                &&& v[0].expiration_ms is None
            })
        }),
{
    let last = request::last_key(key, key_end);
    be::lemma_successor(last);
    let full = last == Seq::new(last.len(), |i: int| 255u8);
    assert(full == be::all_bytes(last, 0xff)) by {
        if be::all_bytes(last, 0xff) {
            assert(last =~= Seq::new(last.len(), |i: int| 255u8));
        }
    }
    let v = entry_views(is_interval, key, key_end, timeout_ms);
    if !is_interval {
        assert(v[0] == entry_view(key, false, timeout_ms));
    } else if !full {
        assert(v[0] == entry_view(key, false, timeout_ms));
        assert(v[1].is_end && v[1].timeout_ms is None);
    } else {
        assert(request::entries(order, is_interval, key, key_end, timeout_ms) is None);
    }
}

/// The numbers of requests: types lie in the nftables subsystem, additions create,
/// and with `excl` fail on what is there, all are acknowledged, and sequence numbers
/// start again at 0.
pub proof fn lemma_request_numbers(kind: u16, excl: bool, seq: u32, k: int)
    requires
        kind <= 0xff,
        0 <= k <= 0xffff_ffff,
    ensures
        request::nft_type(kind) == 0x0a00 + kind,
        request::NFT_MSG_GETSET == 10,
        request::NFT_MSG_NEWSETELEM == 12,
        request::NFT_MSG_GETSETELEM == 13,
        request::NFT_MSG_DELSETELEM == 14,
        request::NFNL_MSG_BATCH_BEGIN == 16,
        request::NFNL_MSG_BATCH_END == 17,
        request::add_flags(excl) == if excl {
            0x605u16
        } else {
            0x405
        },
        request::delete_flags() == 0x5,
        request::NLM_F_REQUEST | request::NLM_F_ACK == 0x5,
        request::NLM_F_REQUEST | request::NLM_F_DUMP | request::NLM_F_ACK == 0x305,
        request::nth_seq(seq, k) == if seq + k < 0x1_0000_0000 {
            seq + k
        } else {
            seq + k - 0x1_0000_0000
        },
{
    assert(kind <= 0xff ==> (10u16 << 8) | kind == 0x0a00 + kind) by (bit_vector);
    assert(1u16 | (0x400u16 | 0x200u16) | 4u16 == 0x605) by (bit_vector);
    assert(1u16 | 0x400u16 | 4u16 == 0x405) by (bit_vector);
    assert(1u16 | 4u16 == 5) by (bit_vector);
    assert(1u16 | 0x300u16 | 4u16 == 0x305) by (bit_vector);
}

/// A query is one message, with its type, flags, sequence number and family, that
/// names the table and the set.
pub proof fn lemma_query_read_back(
    order: ByteOrder,
    kind: u16,
    flags: u16,
    family: u8,
    seq: u32,
    table: Seq<char>,
    set: Seq<char>,
)
    requires
        4 + wire::stringz(table).len() < 0x1_0000,
        4 + wire::stringz(set).len() < 0x1_0000,
    ensures
        ({
            let fs = reply::frames(
                order,
                request::query(order, kind, flags, family, seq, table, set),
            );
            &&& fs.len() == 1
            &&& fs[0].kind == request::nft_type(kind)
            &&& fs[0].flags == flags
            &&& fs[0].seq == seq
            &&& fs[0].pid == 0
            &&& names_are(order, fs[0].body, family, table, set)
            &&& attr::attrs(order, fs[0].body.skip(4)).len() == 2
        }),
{
    let none = Seq::<u8>::empty();
    let x = wire::attr(order, request::NFTA_SET_ELEM_LIST_TABLE, wire::stringz(table));
    let y = wire::attr(order, request::NFTA_SET_ELEM_LIST_SET, wire::stringz(set));
    let a = AttrView {
        raw_type: request::NFTA_SET_ELEM_LIST_TABLE,
        payload: wire::stringz(table),
    };
    let b = AttrView { raw_type: request::NFTA_SET_ELEM_LIST_SET, payload: wire::stringz(set) };
    let m = request::query(order, kind, flags, family, seq, table, set);
    wire::lemma_attr_len(order, request::NFTA_SET_ELEM_LIST_TABLE, wire::stringz(table));
    wire::lemma_attr_len(order, request::NFTA_SET_ELEM_LIST_SET, wire::stringz(set));
    lemma_message_read_back(
        order,
        request::nft_type(kind),
        family,
        seq,
        flags,
        0,
        x + y,
        none,
    );
    assert(m + none =~= m);
    let fs = reply::frames(order, m);
    assert(reply::frames(order, none) =~= Seq::empty()) by {
        reveal(reply::frames);
    }
    assert(fs.skip(1).len() == 0);
    be::lemma_be_bytes_len(0, 2);
    assert(fs[0].body.skip(4) =~= x + y);
    attr::lemma_no_attrs(order);
    attr::lemma_type_read_back(1);
    attr::lemma_type_read_back(2);
    let s = attr::attrs(order, x + y);
    assert(s =~= seq![a, b]) by {
        attr::lemma_attr_read_back(
            order,
            request::NFTA_SET_ELEM_LIST_TABLE,
            wire::stringz(table),
            y,
        );
        attr::lemma_attr_read_back(
            order,
            request::NFTA_SET_ELEM_LIST_SET,
            wire::stringz(set),
            none,
        );
        assert(y + none =~= y);
    }
    reveal_with_fuel(attr::lookup, 3);
    assert(s.last() == b);
    assert(s.drop_last() =~= seq![a]);
    assert(seq![a].drop_last() =~= Seq::<AttrView>::empty());
}

/// The entries for elements, one behind the other.
pub open spec fn entry_row(order: ByteOrder, es: Seq<ElemView>) -> Seq<u8>
    decreases es.len(),
{
    if es.len() == 0 {
        Seq::empty()
    } else {
        request::entry(order, es[0].key, es[0].is_end, es[0].timeout_ms) + entry_row(
            order,
            es.skip(1),
        )
    }
}

/// A list of any number of elements is read as just these elements, in their order.
pub proof fn lemma_list_read_back(order: ByteOrder, es: Seq<ElemView>)
    requires
        forall|i: int|
            0 <= i < es.len() ==> {
                &&& (#[trigger] es[i]).key_end.len() == 0
                &&& es[i].expiration_ms is None
                &&& request::entry_size(es[i].key.len(), es[i].is_end, es[i].timeout_ms is Some)
                    < 0x1_0000
            },
    ensures
        dump::listed(order, attr::attrs(order, entry_row(order, es))) == es,
        dump::list_readable(order, attr::attrs(order, entry_row(order, es))),
    decreases es.len(),
{
    if es.len() == 0 {
        attr::lemma_no_attrs(order);
        assert(dump::listed(order, Seq::empty()) =~= es);
    } else {
        let e = es[0];
        let t = es.skip(1);
        assert forall|i: int| 0 <= i < t.len() implies {
            &&& (#[trigger] t[i]).key_end.len() == 0
            &&& t[i].expiration_ms is None
            &&& request::entry_size(t[i].key.len(), t[i].is_end, t[i].timeout_ms is Some)
                < 0x1_0000
        } by {
            assert(t[i] == es[i + 1]);
        }
        lemma_list_read_back(order, t);
        let inner = request::entry_attrs(order, e.key, e.is_end, e.timeout_ms);
        let a = AttrView { raw_type: NFTA_LIST_ELEM | wire::NLA_F_NESTED, payload: inner };
        let rest = attr::attrs(order, entry_row(order, t));
        attr::lemma_type_read_back(1);
        request::lemma_entry_size(order, e.key, e.is_end, e.timeout_ms);
        lemma_entry_read_back(order, e.key, e.is_end, e.timeout_ms);
        attr::lemma_nest_read_back(order, NFTA_LIST_ELEM, inner, entry_row(order, t));
        assert(attr::attrs(order, entry_row(order, es)) == seq![a] + rest);
        dump::lemma_listed_in_parts(order, seq![a], rest);
        dump::lemma_listed_entry(order, a);
        assert(entry_view(e.key, e.is_end, e.timeout_ms) =~= e);
        dump::lemma_readable_in_parts(order, seq![a], rest);
        assert(seq![e] + t =~= es);
    }
}

/// The attributes of an element as the kernel dumps it: the key, the upper bound if
/// there is one, the flags, and the times that it has.
pub open spec fn dump_attrs(order: ByteOrder, e: ElemView) -> Seq<u8> {
    wire::nest(order, 1, wire::attr(order, 1, e.key)) + (if e.key_end.len() > 0 {
        wire::nest(order, 10, wire::attr(order, 1, e.key_end))
    } else {
        Seq::empty()
    }) + wire::attr(
        order,
        3,
        be::be_bytes(
            if e.is_end {
                1
            } else {
                0
            },
            4,
        ),
    ) + (match e.timeout_ms {
        Some(t) => wire::attr(order, 4, be::be_bytes(t as nat, 8)),
        None => Seq::empty(),
    }) + (match e.expiration_ms {
        Some(t) => wire::attr(order, 5, be::be_bytes(t as nat, 8)),
        None => Seq::empty(),
    })
}

proof fn lemma_number_read_back(order: ByteOrder, t: u16, v: u64, rest: Seq<u8>)
    ensures
        attr::attrs(order, wire::attr(order, t, be::be_bytes(v as nat, 8)) + rest) == seq![
            AttrView { raw_type: t, payload: be::be_bytes(v as nat, 8) },
        ] + attr::attrs(order, rest),
        be::be_bytes(v as nat, 8).len() == 8,
        be::be_value(be::be_bytes(v as nat, 8).take(8)) == v,
{
    lemma2_to64();
    be::lemma_be_value_of_bytes(v as nat, 8);
    assert(be::be_bytes(v as nat, 8).take(8) =~= be::be_bytes(v as nat, 8));
    attr::lemma_attr_read_back(order, t, be::be_bytes(v as nat, 8), rest);
}

proof fn lemma_nested_key_read_back(order: ByteOrder, t: u16, key: Seq<u8>, rest: Seq<u8>)
    requires
        key.len() < 0xff00,
    ensures
        ({
            let value = wire::attr(order, 1, key);
            &&& attr::attrs(order, wire::nest(order, t, value) + rest) == seq![
                AttrView { raw_type: t | wire::NLA_F_NESTED, payload: value },
            ] + attr::attrs(order, rest)
            &&& attr::first(attr::attrs(order, value), 1) == Some(
                AttrView { raw_type: 1, payload: key },
            )
        }),
{
    let none = Seq::<u8>::empty();
    let value = wire::attr(order, 1, key);
    wire::lemma_attr_len(order, 1, key);
    attr::lemma_nest_read_back(order, t, value, rest);
    attr::lemma_attr_read_back(order, 1, key, none);
    attr::lemma_no_attrs(order);
    attr::lemma_type_read_back(1);
    assert(value + none =~= value);
    assert(attr::attrs(order, value)[0] == (AttrView { raw_type: 1, payload: key }));
}

/// An element that the kernel dumps is read with all its parts.
#[verifier::rlimit(40)]
pub proof fn lemma_dumped_element_read_back(order: ByteOrder, e: ElemView)
    requires
        e.key.len() < 0xff00,
        e.key_end.len() < 0xff00,
    ensures
        attr::elem_of(order, attr::attrs(order, dump_attrs(order, e))) == Some(e),
        attr::elem_readable(order, attr::attrs(order, dump_attrs(order, e))),
{
    let none = Seq::<u8>::empty();
    let kb = wire::nest(order, 1, wire::attr(order, 1, e.key));
    let k = AttrView {
        raw_type: 1u16 | wire::NLA_F_NESTED,
        payload: wire::attr(order, 1, e.key),
    };
    let eb = if e.key_end.len() > 0 {
        wire::nest(order, 10, wire::attr(order, 1, e.key_end))
    } else {
        none
    };
    let n = AttrView {
        raw_type: 10u16 | wire::NLA_F_NESTED,
        payload: wire::attr(order, 1, e.key_end),
    };
    let es = if e.key_end.len() > 0 {
        seq![n]
    } else {
        Seq::empty()
    };
    let one: nat = if e.is_end {
        1
    } else {
        0
    };
    let fp = be::be_bytes(one, 4);
    let fb = wire::attr(order, 3, fp);
    let f = AttrView { raw_type: 3, payload: fp };
    let tb = match e.timeout_ms {
        Some(t) => wire::attr(order, 4, be::be_bytes(t as nat, 8)),
        None => none,
    };
    let ts = match e.timeout_ms {
        Some(t) => seq![AttrView { raw_type: 4, payload: be::be_bytes(t as nat, 8) }],
        None => Seq::empty(),
    };
    let xb = match e.expiration_ms {
        Some(t) => wire::attr(order, 5, be::be_bytes(t as nat, 8)),
        None => none,
    };
    let xs = match e.expiration_ms {
        Some(t) => seq![AttrView { raw_type: 5, payload: be::be_bytes(t as nat, 8) }],
        None => Seq::empty(),
    };
    attr::lemma_no_attrs(order);
    attr::lemma_type_read_back(1);
    attr::lemma_type_read_back(3);
    attr::lemma_type_read_back(4);
    attr::lemma_type_read_back(5);
    attr::lemma_type_read_back(10);
    assert(attr::attrs(order, xb) =~= xs) by {
        if let Some(t) = e.expiration_ms {
            lemma_number_read_back(order, 5, t, none);
            assert(xb + none =~= xb);
        }
    }
    assert(attr::attrs(order, tb + xb) =~= ts + xs) by {
        if let Some(t) = e.timeout_ms {
            lemma_number_read_back(order, 4, t, xb);
        } else {
            assert(tb + xb =~= xb);
        }
    }
    lemma2_to64();
    be::lemma_be_value_of_bytes(one, 4);
    assert(attr::attrs(order, fb + (tb + xb)) =~= seq![f] + (ts + xs)) by {
        attr::lemma_attr_read_back(order, 3, fp, tb + xb);
    }
    assert(attr::attrs(order, eb + (fb + (tb + xb))) =~= es + (seq![f] + (ts + xs))) by {
        if e.key_end.len() > 0 {
            lemma_nested_key_read_back(order, 10, e.key_end, fb + (tb + xb));
        } else {
            assert(eb + (fb + (tb + xb)) =~= fb + (tb + xb));
        }
    }
    let s = attr::attrs(order, dump_attrs(order, e));
    assert(s =~= seq![k] + es + seq![f] + ts + xs) by {
        lemma_nested_key_read_back(order, 1, e.key, eb + (fb + (tb + xb)));
        assert(dump_attrs(order, e) =~= kb + (eb + (fb + (tb + xb))));
    }
    lemma_dump_lookups(s, k, es, f, ts, xs);
    lemma_nested_key_read_back(order, 1, e.key, none);
    lemma_nested_key_read_back(order, 10, e.key_end, none);
    assert(fp.take(4) =~= fp);
    if let Some(t) = e.timeout_ms {
        lemma_number_read_back(order, 4, t, none);
    }
    if let Some(t) = e.expiration_ms {
        lemma_number_read_back(order, 5, t, none);
    }
    attr::lemma_elem_parts(order, s);
    assert(attr::elem_of(order, s).unwrap().key_end =~= e.key_end);
    assert(attr::elem_of(order, s).unwrap() =~= e);
}

proof fn lemma_dump_lookups(
    s: Seq<AttrView>,
    k: AttrView,
    es: Seq<AttrView>,
    f: AttrView,
    ts: Seq<AttrView>,
    xs: Seq<AttrView>,
)
    requires
        s == seq![k] + es + seq![f] + ts + xs,
        attr::type_of(k) == 1,
        es.len() <= 1,
        es.len() == 1 ==> attr::type_of(es[0]) == 10,
        attr::type_of(f) == 3,
        ts.len() <= 1,
        ts.len() == 1 ==> attr::type_of(ts[0]) == 4,
        xs.len() <= 1,
        xs.len() == 1 ==> attr::type_of(xs[0]) == 5,
    ensures
        attr::lookup(s, 1) == Some(k),
        attr::lookup(s, 3) == Some(f),
        attr::lookup(s, 10) == if es.len() == 1 {
            Some(es[0])
        } else {
            None
        },
        attr::lookup(s, 4) == if ts.len() == 1 {
            Some(ts[0])
        } else {
            None
        },
        attr::lookup(s, 5) == if xs.len() == 1 {
            Some(xs[0])
        } else {
            None
        },
{
    reveal_with_fuel(attr::lookup, 6);
    let s4 = seq![k] + es + seq![f] + ts;
    let s3 = seq![k] + es + seq![f];
    let s2 = seq![k] + es;
    if xs.len() == 1 {
        assert(s.last() == xs[0]);
        assert(s.drop_last() =~= s4);
    } else {
        assert(s =~= s4);
    }
    if ts.len() == 1 {
        assert(s4.last() == ts[0]);
        assert(s4.drop_last() =~= s3);
    } else {
        assert(s4 =~= s3);
    }
    assert(s3.last() == f);
    assert(s3.drop_last() =~= s2);
    if es.len() == 1 {
        assert(s2.last() == es[0]);
        assert(s2.drop_last() =~= seq![k]);
    } else {
        assert(s2 =~= seq![k]);
    }
    assert(seq![k].drop_last() =~= Seq::<AttrView>::empty());
}

/// An element that was added to a set without intervals, with or without a timeout,
/// read as part of a dump, is contained, and nothing else is; reduced, it is its key
/// with its timeout.
pub proof fn lemma_added_element_contained(
    order: ByteOrder,
    kind: u16,
    flags: u16,
    family: u8,
    seq: u32,
    table: Seq<char>,
    set: Seq<char>,
    key: Seq<u8>,
    key_end: Option<Seq<u8>>,
    timeout_ms: Option<u64>,
    list: Seq<u8>,
    ip: Seq<u8>,
)
    requires
        request::entries(order, false, key, key_end, timeout_ms) == Some(list),
        4 + request::entries_size(false, key, key_end, timeout_ms is Some) < 0x1_0000,
        4 + wire::stringz(table).len() < 0x1_0000,
        4 + wire::stringz(set).len() < 0x1_0000,
    ensures
        ({
            let m = request::operation(order, kind, flags, family, seq, table, set, list);
            let s = dump::elements_in(order, m.skip(16));
            let r = intervals::reduced(s, false);
            &&& (intervals::contains(s, false, ip) <==> ip == key)
            &&& r.len() == 1
            &&& r[0].key == key
            &&& r[0].timeout_ms == timeout_ms
        }),
{
    lemma_operation_read_back(
        order,
        kind,
        flags,
        family,
        seq,
        table,
        set,
        false,
        key,
        key_end,
        timeout_ms,
        list,
    );
    let m = request::operation(order, kind, flags, family, seq, table, set, list);
    let s = dump::elements_in(order, m.skip(16));
    assert(s[0] == entry_view(key, false, timeout_ms));
    intervals::lemma_plain_set(s, ip);
}

/// Elements can be added together exactly where each of them can be added.
pub proof fn lemma_additions_defined(
    order: ByteOrder,
    flags: u16,
    family: u8,
    table: Seq<char>,
    set: Seq<char>,
    is_interval: bool,
    s: Seq<AddView>,
    seq: u32,
)
    ensures
        request::additions(order, flags, family, table, set, is_interval, s, seq) is None
            <==> exists|i: int|
            0 <= i < s.len() && request::entries(
                order,
                is_interval,
                (#[trigger] s[i]).key,
                s[i].key_end,
                s[i].timeout_ms,
            ) is None,
    decreases s.len(),
{
    if s.len() > 0 {
        let t = s.drop_last();
        lemma_additions_defined(order, flags, family, table, set, is_interval, t, seq);
        assert(s[s.len() - 1] == s.last());
        if request::additions(order, flags, family, table, set, is_interval, t, seq) is None {
            let i = choose|i: int|
                0 <= i < t.len() && request::entries(
                    order,
                    is_interval,
                    (#[trigger] t[i]).key,
                    t[i].key_end,
                    t[i].timeout_ms,
                ) is None;
            assert(s[i] == t[i]);
        }
        if exists|i: int|
            0 <= i < s.len() && request::entries(
                order,
                is_interval,
                (#[trigger] s[i]).key,
                s[i].key_end,
                s[i].timeout_ms,
            ) is None {
            let i = choose|i: int|
                0 <= i < s.len() && request::entries(
                    order,
                    is_interval,
                    (#[trigger] s[i]).key,
                    s[i].key_end,
                    s[i].timeout_ms,
                ) is None;
            if i < t.len() {
                assert(t[i] == s[i]);
            }
        }
    }
}

/// The sizes that requests are said to have are those that they have.
pub proof fn lemma_request_sizes(
    order: ByteOrder,
    kind: u16,
    flags: u16,
    family: u8,
    seq: u32,
    table: Seq<char>,
    set: Seq<char>,
    is_interval: bool,
    e: AddView,
)
    ensures
        request::query(order, kind, flags, family, seq, table, set).len() == 20
            + request::names_size(table, set),
        request::marker(order, kind, seq).len() == 20,
        request::entries(order, is_interval, e.key, e.key_end, e.timeout_ms) matches Some(list) ==> {
            &&& list.len() == request::entries_size(
                is_interval,
                e.key,
                e.key_end,
                e.timeout_ms is Some,
            )
            &&& request::operation(order, kind, flags, family, seq, table, set, list).len()
                == request::operation_size(
                table,
                set,
                is_interval,
                e.key,
                e.key_end,
                e.timeout_ms is Some,
            )
        },
{
    wire::lemma_attr_len(order, request::NFTA_SET_ELEM_LIST_TABLE, wire::stringz(table));
    wire::lemma_attr_len(order, request::NFTA_SET_ELEM_LIST_SET, wire::stringz(set));
    assert(forall|n: nat, k: u16, f: u8, q: u32, g: u16, r: u16| #[trigger]
        wire::header(order, n, k, f, q, g, r).len() == 20) by {
        reveal(wire::header);
        reveal(order::bytes_of);
        assert forall|n: nat, k: u16, f: u8, q: u32, g: u16, r: u16| #[trigger]
            wire::header(order, n, k, f, q, g, r).len() == 20 by {
            be::lemma_be_bytes_len(n, 4);
            be::lemma_be_bytes_len(k as nat, 2);
            be::lemma_be_bytes_len(q as nat, 4);
            be::lemma_be_bytes_len(0, 4);
            be::lemma_be_bytes_len(g as nat, 2);
            be::lemma_be_bytes_len(r as nat, 2);
        }
    }
    if let Some(list) = request::entries(order, is_interval, e.key, e.key_end, e.timeout_ms) {
        wire::lemma_attr_len(order, request::NFTA_SET_ELEM_LIST_ELEMENTS, list);
        request::lemma_entry_size(order, e.key, false, e.timeout_ms);
        if let Some(end) = be::successor(request::last_key(e.key, e.key_end)) {
            be::lemma_successor(request::last_key(e.key, e.key_end));
            request::lemma_entry_size(order, end, true, None);
        }
    }
}

/// So are those of several additions.
pub proof fn lemma_additions_size(
    order: ByteOrder,
    flags: u16,
    family: u8,
    table: Seq<char>,
    set: Seq<char>,
    is_interval: bool,
    s: Seq<AddView>,
    seq: u32,
)
    ensures
        request::additions(order, flags, family, table, set, is_interval, s, seq) matches Some(b)
            ==> b.len() == request::additions_size(table, set, is_interval, s),
    decreases s.len(),
{
    if s.len() > 0 {
        lemma_additions_size(
            order,
            flags,
            family,
            table,
            set,
            is_interval,
            s.drop_last(),
            seq,
        );
        lemma_request_sizes(
            order,
            request::NFT_MSG_NEWSETELEM,
            flags,
            family,
            request::nth_seq(seq, s.len() as int),
            table,
            set,
            is_interval,
            s.last(),
        );
    }
}

} // verus!
