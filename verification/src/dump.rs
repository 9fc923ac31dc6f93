//! What the kernel tells about a set.

use crate::attr;
use crate::attr::{iter_attrs, AttrView, Table};
use crate::be;
use crate::elem;
use crate::elem::{Elem, ElemView};
use crate::order::ByteOrder;
use crate::request::{NFTA_LIST_ELEM, NFTA_SET_ELEM_LIST_ELEMENTS};
use crate::wire::NFG_HDRLEN;
use vstd::arithmetic::power2::*;
use vstd::prelude::*;
use vstd::slice::slice_subrange;

verus! {

/// The attribute that holds the flags of a set.
pub const NFTA_SET_FLAGS: u16 = 3;

/// The flag of a set whose elements are intervals.
pub const NFT_SET_INTERVAL: u32 = 0x4;

/// The elements in the attributes of a list. What is no element, or has no key,
/// is passed over.
pub open spec fn listed(order: ByteOrder, s: Seq<AttrView>) -> Seq<ElemView>
    decreases s.len(),
{
    if s.len() == 0 {
        Seq::empty()
    } else {
        listed(order, s.drop_last()) + (if attr::type_of(s.last()) == NFTA_LIST_ELEM {
            match attr::elem_of(order, attr::attrs(order, s.last().payload)) {
                Some(e) => seq![e],
                None => Seq::empty(),
            }
        } else {
            Seq::empty()
        })
    }
}

/// The elements in the lists among the attributes of a message.
pub open spec fn dumped(order: ByteOrder, s: Seq<AttrView>) -> Seq<ElemView>
    decreases s.len(),
{
    if s.len() == 0 {
        Seq::empty()
    } else {
        dumped(order, s.drop_last()) + (if attr::type_of(s.last()) == NFTA_SET_ELEM_LIST_ELEMENTS {
            listed(order, attr::attrs(order, s.last().payload))
        } else {
            Seq::empty()
        })
    }
}

/// The elements in the body of a message, behind the nfnetlink header.
pub open spec fn elements_in(order: ByteOrder, body: Seq<u8>) -> Seq<ElemView> {
    dumped(order, attr::attrs(order, body.skip(4)))
}

/// Every element of a list can be read.
pub open spec fn list_readable(order: ByteOrder, s: Seq<AttrView>) -> bool {
    forall|i: int|
        0 <= i < s.len() && attr::type_of(#[trigger] s[i]) == NFTA_LIST_ELEM
            ==> attr::elem_readable(order, attr::attrs(order, s[i].payload))
}

/// Every element in the body of a message can be read.
pub open spec fn body_readable(order: ByteOrder, body: Seq<u8>) -> bool {
    let s = attr::attrs(order, body.skip(4));
    forall|i: int|
        0 <= i < s.len() && attr::type_of(#[trigger] s[i]) == NFTA_SET_ELEM_LIST_ELEMENTS
            ==> list_readable(order, attr::attrs(order, s[i].payload))
}

fn read_list_readable(order: ByteOrder, list: &[u8]) -> (r: bool)
    ensures
        r == list_readable(order, attr::attrs(order, list@)),
{
    let subs = iter_attrs(order, list);
    let ghost s = attr::views(subs@);
    let mut i: usize = 0;
    while i < subs.len()
        invariant
            i <= subs@.len(),
            s == attr::views(subs@),
            s == attr::attrs(order, list@),
            forall|k: int|
                0 <= k < i && attr::type_of(#[trigger] s[k]) == NFTA_LIST_ELEM
                    ==> attr::elem_readable(order, attr::attrs(order, s[k].payload)),
        decreases subs.len() - i,
    {
        let sub = subs[i];
        assert(s[i as int] == sub@);
        if sub.attr_type() == NFTA_LIST_ELEM {
            let table = Table::new(iter_attrs(order, sub.payload));
            if !Elem::attrs_readable(order, &table) {
                return false;
            }
        }
        i = i + 1;
    }
    true
}

/// Whether [`read_elements`] can read every number that it comes across.
pub fn elements_readable(order: ByteOrder, body: &[u8]) -> (r: bool)
    requires
        body@.len() >= 4,
    ensures
        r == body_readable(order, body@),
{
    let outer = slice_subrange(body, NFG_HDRLEN, body.len());
    assert(outer@ =~= body@.skip(4));
    let items = iter_attrs(order, outer);
    let ghost s = attr::views(items@);
    let mut i: usize = 0;
    while i < items.len()
        invariant
            i <= items@.len(),
            s == attr::views(items@),
            s == attr::attrs(order, body@.skip(4)),
            forall|k: int|
                0 <= k < i && attr::type_of(#[trigger] s[k]) == NFTA_SET_ELEM_LIST_ELEMENTS
                    ==> list_readable(order, attr::attrs(order, s[k].payload)),
        decreases items.len() - i,
    {
        let a = items[i];
        assert(s[i as int] == a@);
        if a.attr_type() == NFTA_SET_ELEM_LIST_ELEMENTS {
            if !read_list_readable(order, a.payload) {
                return false;
            }
        }
        i = i + 1;
    }
    true
}

fn read_list(order: ByteOrder, list: &[u8], out: &mut Vec<Elem>)
    requires
        list_readable(order, attr::attrs(order, list@)),
    ensures
        elem::views(final(out)@) == elem::views(old(out)@) + listed(
            order,
            attr::attrs(order, list@),
        ),
{
    let subs = iter_attrs(order, list);
    let ghost s = attr::views(subs@);
    let ghost before = elem::views(out@);
    let mut i: usize = 0;
    proof {
        assert(s.take(0) =~= Seq::<AttrView>::empty());
        assert(before + listed(order, s.take(0)) =~= before);
    }
    while i < subs.len()
        invariant
            i <= subs@.len(),
            s == attr::views(subs@),
            s == attr::attrs(order, list@),
            list_readable(order, s),
            elem::views(out@) == before + listed(order, s.take(i as int)),
        decreases subs.len() - i,
    {
        let sub = subs[i];
        let ghost t = s.take(i + 1);
        let ghost sofar = elem::views(out@);
        let ghost o = out@;
        proof {
            assert(s[i as int] == sub@);
            assert(t.drop_last() =~= s.take(i as int));
            assert(t.last() == sub@);
            assert(before + listed(order, s.take(i as int)) + Seq::<ElemView>::empty() =~= before
                + (listed(order, s.take(i as int)) + Seq::<ElemView>::empty()));
        }
        if sub.attr_type() == NFTA_LIST_ELEM {
            let table = Table::new(iter_attrs(order, sub.payload));
            if let Some(e) = Elem::from_attrs(order, &table) {
                let ghost v = e@;
                out.push(e);
                proof {
                    assert(elem::views(out@) =~= elem::views(o) + seq![v]);
                    assert(before + listed(order, s.take(i as int)) + seq![v] =~= before + (listed(
                        order,
                        s.take(i as int),
                    ) + seq![v]));
                }
            } else {
                assert(sofar =~= sofar + Seq::<ElemView>::empty());
            }
        } else {
            assert(sofar =~= sofar + Seq::<ElemView>::empty());
        }
        i = i + 1;
    }
    assert(s.take(i as int) =~= s);
}

/// Appends the elements in the body of a message to `out`.
pub fn read_elements(order: ByteOrder, body: &[u8], out: &mut Vec<Elem>)
    requires
        body@.len() >= 4,
        body_readable(order, body@),
    ensures
        elem::views(final(out)@) == elem::views(old(out)@) + elements_in(order, body@),
{
    let outer = slice_subrange(body, NFG_HDRLEN, body.len());
    assert(outer@ =~= body@.skip(4));
    let items = iter_attrs(order, outer);
    let ghost s = attr::views(items@);
    let ghost before = elem::views(out@);
    let mut i: usize = 0;
    proof {
        assert(s.take(0) =~= Seq::<AttrView>::empty());
        assert(before + dumped(order, s.take(0)) =~= before);
    }
    while i < items.len()
        invariant
            i <= items@.len(),
            s == attr::views(items@),
            s == attr::attrs(order, body@.skip(4)),
            body_readable(order, body@),
            elem::views(out@) == before + dumped(order, s.take(i as int)),
        decreases items.len() - i,
    {
        let a = items[i];
        let ghost t = s.take(i + 1);
        let ghost sofar = elem::views(out@);
        proof {
            assert(s[i as int] == a@);
            assert(t.drop_last() =~= s.take(i as int));
            assert(t.last() == a@);
        }
        if a.attr_type() == NFTA_SET_ELEM_LIST_ELEMENTS {
            read_list(order, a.payload, out);
            proof {
                let l = listed(order, attr::attrs(order, a@.payload));
                assert(before + dumped(order, s.take(i as int)) + l =~= before + (dumped(
                    order,
                    s.take(i as int),
                ) + l));
            }
        } else {
            assert(sofar =~= before + (dumped(order, s.take(i as int)) + Seq::<
                ElemView,
            >::empty()));
        }
        i = i + 1;
    }
    assert(s.take(i as int) =~= s);
}

/// The flags of a set after a message with the body `body`: what it says of
/// them last, and `flags` where it says nothing.
pub open spec fn flags_after(order: ByteOrder, body: Seq<u8>, flags: u32) -> u32 {
    match attr::scalar_in(attr::attrs(order, body.skip(4)), NFTA_SET_FLAGS, 4) {
        Some(v) => v as u32,
        None => flags,
    }
}

/// All flags in the body of a message can be read.
pub open spec fn flags_readable_in(order: ByteOrder, body: Seq<u8>) -> bool {
    let s = attr::attrs(order, body.skip(4));
    forall|i: int|
        0 <= i < s.len() && attr::type_of(#[trigger] s[i]) == NFTA_SET_FLAGS
            ==> s[i].payload.len() >= 4
}

/// Whether [`read_set_flags`] can read every number that it comes across.
pub fn set_flags_readable(order: ByteOrder, body: &[u8]) -> (r: bool)
    requires
        body@.len() >= 4,
    ensures
        r == flags_readable_in(order, body@),
{
    let outer = slice_subrange(body, NFG_HDRLEN, body.len());
    assert(outer@ =~= body@.skip(4));
    let items = iter_attrs(order, outer);
    let ghost s = attr::views(items@);
    let mut i: usize = 0;
    while i < items.len()
        invariant
            i <= items@.len(),
            s == attr::views(items@),
            s == attr::attrs(order, body@.skip(4)),
            forall|k: int|
                0 <= k < i && attr::type_of(#[trigger] s[k]) == NFTA_SET_FLAGS
                    ==> s[k].payload.len() >= 4,
        decreases items.len() - i,
    {
        let a = items[i];
        assert(s[i as int] == a@);
        if a.attr_type() == NFTA_SET_FLAGS && a.payload.len() < 4 {
            return false;
        }
        i = i + 1;
    }
    true
}

/// Reads the flags of a set out of the body of a message; they stay `flags`
/// where it has none.
pub fn read_set_flags(order: ByteOrder, body: &[u8], flags: u32) -> (r: u32)
    requires
        body@.len() >= 4,
        flags_readable_in(order, body@),
    ensures
        r == flags_after(order, body@, flags),
{
    let outer = slice_subrange(body, NFG_HDRLEN, body.len());
    assert(outer@ =~= body@.skip(4));
    let items = iter_attrs(order, outer);
    let ghost s = attr::views(items@);
    let mut r = flags;
    let mut i: usize = 0;
    assert(s.take(0) =~= Seq::<AttrView>::empty());
    while i < items.len()
        invariant
            i <= items@.len(),
            s == attr::views(items@),
            s == attr::attrs(order, body@.skip(4)),
            flags_readable_in(order, body@),
            r == match attr::scalar_in(s.take(i as int), NFTA_SET_FLAGS, 4) {
                Some(v) => v as u32,
                None => flags,
            },
        decreases items.len() - i,
    {
        let a = items[i];
        proof {
            let t = s.take(i + 1);
            assert(s[i as int] == a@);
            assert(t.drop_last() =~= s.take(i as int));
            assert(t.last() == a@);
        }
        if a.attr_type() == NFTA_SET_FLAGS {
            r = a.as_u32_be();
        }
        i = i + 1;
    }
    assert(s.take(i as int) =~= s);
    r
}

/// Whether the flags of a set say that its elements are intervals.
pub fn is_interval_set(flags: u32) -> (r: bool)
    ensures
        r == (flags & NFT_SET_INTERVAL != 0),
        r == (flags / 4 % 2 == 1),
{
    assert((flags & 0x4 != 0) == (flags / 4 % 2 == 1)) by (bit_vector);
    flags & NFT_SET_INTERVAL != 0
}

/// Reading a list goes on where it was: the elements of two lists in a row are those
/// of the first and then those of the second.
pub proof fn lemma_listed_in_parts(order: ByteOrder, a: Seq<AttrView>, b: Seq<AttrView>)
    ensures
        listed(order, a + b) == listed(order, a) + listed(order, b),
    decreases b.len(),
{
    if b.len() == 0 {
        assert(a + b =~= a);
        assert(listed(order, a) + listed(order, b) =~= listed(order, a));
    } else {
        lemma_listed_in_parts(order, a, b.drop_last());
        assert((a + b).drop_last() =~= a + b.drop_last());
        assert((a + b).last() == b.last());
        assert(listed(order, a + b) =~= listed(order, a) + listed(order, b));
    }
}

/// An entry of a list gives the element that its attributes describe; anything else
/// in a list gives none.
pub proof fn lemma_listed_entry(order: ByteOrder, a: AttrView)
    ensures
        a.raw_type & 0x3fff == 1 ==> match attr::elem_of(order, attr::attrs(order, a.payload)) {
            Some(e) => listed(order, seq![a]) == seq![e],
            None => listed(order, seq![a]).len() == 0,
        },
        a.raw_type & 0x3fff != 1 ==> listed(order, seq![a]).len() == 0,
{
    assert(seq![a].drop_last() =~= Seq::<AttrView>::empty());
    assert(listed(order, seq![a].drop_last()) =~= Seq::<ElemView>::empty());
}

/// Reading a message goes on where it was: the elements of its lists come in their
/// order.
pub proof fn lemma_dumped_in_parts(order: ByteOrder, a: Seq<AttrView>, b: Seq<AttrView>)
    ensures
        dumped(order, a + b) == dumped(order, a) + dumped(order, b),
    decreases b.len(),
{
    if b.len() == 0 {
        assert(a + b =~= a);
        assert(dumped(order, a) + dumped(order, b) =~= dumped(order, a));
    } else {
        lemma_dumped_in_parts(order, a, b.drop_last());
        assert((a + b).drop_last() =~= a + b.drop_last());
        assert((a + b).last() == b.last());
        assert(dumped(order, a + b) =~= dumped(order, a) + dumped(order, b));
    }
}

/// A list in a message gives its elements; any other attribute gives none.
pub proof fn lemma_dumped_list(order: ByteOrder, a: AttrView)
    ensures
        a.raw_type & 0x3fff == 3 ==> dumped(order, seq![a]) == listed(
            order,
            attr::attrs(order, a.payload),
        ),
        a.raw_type & 0x3fff != 3 ==> dumped(order, seq![a]).len() == 0,
{
    assert(seq![a].drop_last() =~= Seq::<AttrView>::empty());
    assert(dumped(order, seq![a]) =~= dumped(order, seq![a].drop_last()) + if attr::type_of(a)
        == NFTA_SET_ELEM_LIST_ELEMENTS {
        listed(order, attr::attrs(order, a.payload))
    } else {
        Seq::empty()
    });
    assert(dumped(order, seq![a].drop_last()) =~= Seq::<ElemView>::empty());
    assert(dumped(order, seq![a]) =~= if attr::type_of(a) == NFTA_SET_ELEM_LIST_ELEMENTS {
        listed(order, attr::attrs(order, a.payload))
    } else {
        Seq::empty()
    });
}

/// The elements of a message are those of the attributes behind its four bytes of
/// nfnetlink header, whatever is in these.
pub proof fn lemma_elements_behind_header(order: ByteOrder, h: Seq<u8>, b: Seq<u8>)
    requires
        h.len() == 4,
    ensures
        elements_in(order, h + b) == dumped(order, attr::attrs(order, b)),
{
    assert((h + b).skip(4) =~= b);
}

/// Lists in a row can be read just if each of them can.
pub proof fn lemma_readable_in_parts(order: ByteOrder, a: Seq<AttrView>, b: Seq<AttrView>)
    ensures
        list_readable(order, a + b) <==> list_readable(order, a) && list_readable(order, b),
{
    let s = a + b;
    if list_readable(order, s) {
        assert forall|i: int|
            0 <= i < a.len() && attr::type_of(#[trigger] a[i])
                == NFTA_LIST_ELEM implies attr::elem_readable(
            order,
            attr::attrs(order, a[i].payload),
        ) by {
            assert(s[i] == a[i]);
        }
        assert forall|i: int|
            0 <= i < b.len() && attr::type_of(#[trigger] b[i])
                == NFTA_LIST_ELEM implies attr::elem_readable(
            order,
            attr::attrs(order, b[i].payload),
        ) by {
            assert(s[a.len() + i] == b[i]);
        }
    }
    if list_readable(order, a) && list_readable(order, b) {
        assert forall|i: int|
            0 <= i < s.len() && attr::type_of(#[trigger] s[i])
                == NFTA_LIST_ELEM implies attr::elem_readable(
            order,
            attr::attrs(order, s[i].payload),
        ) by {
            if i < a.len() {
                assert(s[i] == a[i]);
            } else {
                assert(s[i] == b[i - a.len()]);
            }
        }
    }
}

/// A message can be read just if each entry of each of its lists can: it has no
/// key, or its flags, timeout and expiration have all their bytes.
pub proof fn lemma_body_readable(order: ByteOrder, body: Seq<u8>)
    ensures
        body_readable(order, body) <==> forall|i: int, j: int|
            #![trigger attr::attrs(order, attr::attrs(order, body.skip(4))[i].payload)[j]]
            {
                let lists = attr::attrs(order, body.skip(4));
                let list = attr::attrs(order, lists[i].payload);
                let entry = attr::attrs(order, list[j].payload);
                0 <= i < lists.len() && 0 <= j < list.len() && lists[i].raw_type & 0x3fff == 3
                    && list[j].raw_type & 0x3fff == 1 && attr::key_in(order, entry, 1) is Some ==> {
                    &&& attr::lookup(entry, 3) matches Some(a) ==> a.payload.len() >= 4
                    &&& attr::lookup(entry, 4) matches Some(a) ==> a.payload.len() >= 8
                    &&& attr::lookup(entry, 5) matches Some(a) ==> a.payload.len() >= 8
                }
            },
{
    let lists = attr::attrs(order, body.skip(4));
    if body_readable(order, body) {
        assert forall|i: int, j: int|
            #![trigger attr::attrs(order, attr::attrs(order, body.skip(4))[i].payload)[j]]
            {
                let list = attr::attrs(order, lists[i].payload);
                let entry = attr::attrs(order, list[j].payload);
                0 <= i < lists.len() && 0 <= j < list.len() && lists[i].raw_type & 0x3fff == 3
                    && list[j].raw_type & 0x3fff == 1 && attr::key_in(order, entry, 1) is Some
            } implies {
            let list = attr::attrs(order, lists[i].payload);
            let entry = attr::attrs(order, list[j].payload);
            &&& attr::lookup(entry, 3) matches Some(a) ==> a.payload.len() >= 4
            &&& attr::lookup(entry, 4) matches Some(a) ==> a.payload.len() >= 8
            &&& attr::lookup(entry, 5) matches Some(a) ==> a.payload.len() >= 8
        } by {
            let list = attr::attrs(order, lists[i].payload);
            assert(attr::type_of(lists[i]) == NFTA_SET_ELEM_LIST_ELEMENTS);
            assert(list_readable(order, list));
            assert(attr::type_of(list[j]) == NFTA_LIST_ELEM);
            assert(attr::elem_readable(order, attr::attrs(order, list[j].payload)));
        }
    } else {
        let i = choose|i: int|
            0 <= i < lists.len() && attr::type_of(#[trigger] lists[i])
                == NFTA_SET_ELEM_LIST_ELEMENTS && !list_readable(
                order,
                attr::attrs(order, lists[i].payload),
            );
        let list = attr::attrs(order, lists[i].payload);
        let j = choose|j: int|
            0 <= j < list.len() && attr::type_of(#[trigger] list[j]) == NFTA_LIST_ELEM
                && !attr::elem_readable(order, attr::attrs(order, list[j].payload));
        assert(attr::attrs(order, attr::attrs(order, body.skip(4))[i].payload)[j] == list[j]);
    }
}

/// The flags that a message gives last are the flags of the set; what comes behind
/// them without flags changes nothing, and a message without flags leaves them.
pub proof fn lemma_last_flags_win(
    order: ByteOrder,
    body: Seq<u8>,
    before: Seq<AttrView>,
    a: AttrView,
    behind: Seq<AttrView>,
    flags: u32,
)
    requires
        forall|i: int| 0 <= i < behind.len() ==> (#[trigger] behind[i]).raw_type & 0x3fff != 3,
    ensures
        attr::attrs(order, body.skip(4)) == before + seq![a] + behind && a.raw_type & 0x3fff == 3
            && a.payload.len() >= 4 ==> flags_after(order, body, flags) == be::be_value(
            a.payload.take(4),
        ),
        attr::attrs(order, body.skip(4)) == behind ==> flags_after(order, body, flags) == flags,
{
    attr::lemma_lookup(before, a, behind, 3);
    attr::lemma_lookup_none(behind, 3);
    lemma2_to64();
    be::lemma_be_value_bound(a.payload.take(4));
}

/// The flags in a message can be read just if each has its four bytes.
pub proof fn lemma_flags_readable(order: ByteOrder, body: Seq<u8>)
    ensures
        flags_readable_in(order, body) <==> forall|i: int|
            0 <= i < attr::attrs(order, body.skip(4)).len() && (#[trigger] attr::attrs(
                order,
                body.skip(4),
            )[i]).raw_type & 0x3fff == 3 ==> attr::attrs(order, body.skip(4))[i].payload.len() >= 4,
{
    let s = attr::attrs(order, body.skip(4));
    if !flags_readable_in(order, body) {
        let i = choose|i: int|
            0 <= i < s.len() && attr::type_of(#[trigger] s[i]) == NFTA_SET_FLAGS
                && s[i].payload.len() < 4;
        assert(s[i].raw_type & 0x3fff == 3);
    }
}

} // verus!
