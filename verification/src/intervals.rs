//! From boundary elements to intervals: reduction for display, and membership.

use crate::be;
use crate::be::{bytes_equal, decrement_be, lex_less};
use crate::cidr;
use crate::cidr::interval_to_cidr;
use crate::elem;
use crate::elem::{Elem, ElemView};
use crate::fmt;
use crate::sort;
use crate::sort::sort_by_key;
use vstd::prelude::*;
use vstd::arithmetic::power2::*;
use vstd::slice::slice_to_vec;

verus! {

/// The boundary elements that `e` stands for: itself, or, where it starts an
/// interval and carries its upper bound, a start and an end marker.
pub open spec fn boundary_pair(e: ElemView) -> Seq<ElemView> {
    if e.is_end || e.key_end.len() == 0 {
        seq![e]
    } else {
        seq![
            (ElemView { key_end: Seq::empty(), ..e }),
            (ElemView { key: e.key_end, is_end: true, key_end: Seq::empty(), ..e }),
        ]
    }
}

/// The boundary elements that the elements of `s` stand for, in their order.
pub open spec fn boundaries(s: Seq<ElemView>) -> Seq<ElemView>
    decreases s.len(),
{
    if s.len() == 0 {
        Seq::empty()
    } else {
        boundaries(s.drop_last()) + boundary_pair(s.last())
    }
}

/// The first value that is present.
pub open spec fn either(a: Option<u64>, b: Option<u64>) -> Option<u64> {
    if a is Some {
        a
    } else {
        b
    }
}

/// The interval that starts at `start`, ends with the key `last`, and was
/// closed by `end`, whose times count where `start` has none.
pub open spec fn joined(start: ElemView, end: ElemView, last: Seq<u8>) -> ElemView {
    ElemView {
        key: start.key,
        is_end: start.is_end,
        key_end: last,
        timeout_ms: either(start.timeout_ms, end.timeout_ms),
        expiration_ms: either(start.expiration_ms, end.expiration_ms),
    }
}

/// The last key of the interval from `start` up to, and not including, the
/// key of `next`, where that interval is a CIDR block.
pub open spec fn block_end(start: ElemView, next: ElemView) -> Option<Seq<u8>> {
    match be::predecessor(next.key) {
        None => None,
        Some(last) => if cidr::cidr(start.key, last) is Some {
            Some(last)
        } else {
            None
        },
    }
}

/// Where the first end marker with the key `k` stands in `r`, among the elements
/// with that key in front of all others.
pub open spec fn first_end(r: Seq<ElemView>, k: Seq<u8>) -> Option<int>
    decreases r.len(),
{
    if r.len() == 0 || r[0].key != k {
        None
    } else if r[0].is_end {
        Some(0)
    } else {
        match first_end(r.skip(1), k) {
            Some(i) => Some(i + 1),
            None => None,
        }
    }
}

/// Which of the elements `r`, in the order of their keys, comes right behind the
/// start `a`. It is the first of them, but an end marker that closes a start with
/// a lower key comes before the starts that share its key: where one interval
/// ends, the next one may start.
pub open spec fn next_of(a: ElemView, r: Seq<ElemView>) -> int {
    if r[0].key == a.key {
        0
    } else {
        match first_end(r, r[0].key) {
            Some(i) => i,
            None => 0,
        }
    }
}

/// The end marker that is found has the key, and only starts with that key before
/// it.
pub proof fn lemma_first_end(r: Seq<ElemView>, k: Seq<u8>)
    ensures
        first_end(r, k) matches Some(i) ==> {
            &&& 0 <= i < r.len()
            &&& r[i].is_end
            &&& r[i].key == k
            &&& forall|j: int| 0 <= j < i ==> !(#[trigger] r[j]).is_end && r[j].key == k
        },
    decreases r.len(),
{
    if r.len() > 0 {
        let t = r.skip(1);
        lemma_first_end(t, k);
        if let Some(i) = first_end(r, k) {
            if i > 0 {
                assert(r[i] == t[i - 1]);
                assert forall|j: int| 0 <= j < i implies !(#[trigger] r[j]).is_end && r[j].key
                    == k by {
                    if j > 0 {
                        assert(r[j] == t[j - 1]);
                    }
                }
            }
        }
    }
}

/// The intervals that the boundary elements `s`, in the order of their keys,
/// describe.
///
/// An end marker closes the start right before it; its key is the first one
/// behind the interval. An end marker without a start is dropped, and so is a
/// pair whose end marker has the key zero. Of two starts in a row, the second
/// closes the first where the two make a CIDR block; otherwise the first stands
/// alone.
pub open spec fn decompose(s: Seq<ElemView>) -> Seq<ElemView>
    decreases s.len(),
{
    if s.len() == 0 {
        Seq::empty()
    } else if s[0].is_end {
        decompose(s.skip(1))
    } else if s.len() == 1 {
        s
    } else {
        let r = s.skip(1);
        let i = next_of(s[0], r);
        proof {
            lemma_first_end(r, r[0].key);
        }
        if r[i].is_end {
            match be::predecessor(r[i].key) {
                Some(last) => seq![joined(s[0], r[i], last)] + decompose(r.remove(i)),
                None => decompose(r.remove(i)),
            }
        } else {
            match block_end(s[0], r[i]) {
                Some(last) => seq![joined(s[0], r[i], last)] + decompose(r.remove(i)),
                None => seq![s[0]] + decompose(r),
            }
        }
    }
}

/// The elements of a set, one for each interval.
pub open spec fn reduced(s: Seq<ElemView>, is_interval: bool) -> Seq<ElemView> {
    if is_interval {
        decompose(sort::sorted(boundaries(s)))
    } else {
        s
    }
}

/// Whether `ip` lies in an interval that the boundary elements `s`, in the
/// order of their keys, describe. An interval runs from the key of its start up
/// to, and not including, the key that closes it.
pub open spec fn covers(s: Seq<ElemView>, ip: Seq<u8>) -> bool
    decreases s.len(),
{
    if s.len() == 0 {
        false
    } else if s[0].is_end {
        covers(s.skip(1), ip)
    } else if s.len() == 1 {
        ip == s[0].key
    } else {
        let r = s.skip(1);
        let i = next_of(s[0], r);
        proof {
            lemma_first_end(r, r[0].key);
        }
        if r[i].is_end || block_end(s[0], r[i]) is Some {
            be::lex_le(s[0].key, ip) && be::lex_lt(ip, r[i].key) || covers(r.remove(i), ip)
        } else {
            ip == s[0].key || covers(r, ip)
        }
    }
}

/// Whether a set with the elements `s` contains `ip`.
pub open spec fn contains(s: Seq<ElemView>, is_interval: bool, ip: Seq<u8>) -> bool {
    if is_interval {
        covers(sort::sorted(boundaries(s)), ip)
    } else {
        exists|i: int| 0 <= i < s.len() && !(#[trigger] s[i]).is_end && s[i].key == ip
    }
}

/// Whether the keys and upper bounds of `s` are `w` bytes long.
pub open spec fn of_width(s: Seq<ElemView>, w: nat) -> bool {
    forall|i: int|
        0 <= i < s.len() ==> (#[trigger] s[i]).key.len() == w && (s[i].key_end.len() == 0
            || s[i].key_end.len() == w)
}

/// Whether the reduced element `e` is, or spans, `ip`.
pub open spec fn spans(e: ElemView, ip: Seq<u8>) -> bool {
    if e.key_end.len() == 0 {
        e.key == ip
    } else {
        be::lex_le(e.key, ip) && be::lex_le(ip, e.key_end)
    }
}

/// Whether one of the reduced elements `s` is, or spans, `ip`.
pub open spec fn any_spans(s: Seq<ElemView>, ip: Seq<u8>) -> bool {
    exists|i: int| 0 <= i < s.len() && spans(#[trigger] s[i], ip)
}

proof fn lemma_any_spans_front(e: ElemView, s: Seq<ElemView>, ip: Seq<u8>)
    ensures
        any_spans(seq![e] + s, ip) <==> spans(e, ip) || any_spans(s, ip),
{
    let t = seq![e] + s;
    assert(t[0] == e);
    if any_spans(s, ip) {
        let i = choose|i: int| 0 <= i < s.len() && spans(#[trigger] s[i], ip);
        assert(t[i + 1] == s[i]);
    }
    if any_spans(t, ip) {
        let i = choose|i: int| 0 <= i < t.len() && spans(#[trigger] t[i], ip);
        if i > 0 {
            assert(t[i] == s[i - 1]);
        }
    }
}

/// The half-open and the closed form of an interval hold the same keys of its length.
proof fn lemma_exclusive_end(ip: Seq<u8>, end: Seq<u8>)
    requires
        ip.len() == end.len(),
    ensures
        be::predecessor(end) is None ==> !be::lex_lt(ip, end),
        be::predecessor(end) matches Some(last) ==> last.len() == end.len() && end.len() > 0 && (
        be::lex_lt(ip, end) <==> be::lex_le(ip, last)),
{
    be::lemma_lex_is_numeric(ip, end);
    be::lemma_be_value_extremes(end);
    be::lemma_predecessor(end);
    if let Some(last) = be::predecessor(end) {
        be::lemma_lex_is_numeric(last, ip);
    }
}

proof fn lemma_covers_is_any_spans(s: Seq<ElemView>, ip: Seq<u8>)
    requires
        forall|i: int|
            0 <= i < s.len() ==> (#[trigger] s[i]).key.len() == ip.len() && (s[i].is_end
                || s[i].key_end.len() == 0),
    ensures
        covers(s, ip) <==> any_spans(decompose(s), ip),
    decreases s.len(),
{
    if s.len() > 0 {
        let a = s[0];
        if a.is_end {
            lemma_covers_is_any_spans(s.skip(1), ip);
        } else if s.len() == 1 {
            assert(decompose(s)[0] == a);
        } else {
            let r = s.skip(1);
            let i = next_of(a, r);
            lemma_first_end(r, r[0].key);
            let b = r[i];
            let t = r.remove(i);
            assert(b == s[i + 1]);
            assert forall|j: int| 0 <= j < t.len() implies (#[trigger] t[j]).key.len() == ip.len()
                && (t[j].is_end || t[j].key_end.len() == 0) by {
                assert(t[j] == if j < i {
                    s[j + 1]
                } else {
                    s[j + 2]
                });
            }
            lemma_exclusive_end(ip, b.key);
            lemma_covers_is_any_spans(r, ip);
            lemma_covers_is_any_spans(t, ip);
            lemma_any_spans_front(a, decompose(r), ip);
            if let Some(last) = be::predecessor(b.key) {
                lemma_any_spans_front(joined(a, b, last), decompose(t), ip);
            }
        }
    }
}

/// The boundary elements of elements of one width have that width, and a start
/// among them carries no upper bound.
proof fn lemma_boundaries_width(s: Seq<ElemView>, w: nat)
    requires
        of_width(s, w),
    ensures
        forall|i: int|
            0 <= i < boundaries(s).len() ==> (#[trigger] boundaries(s)[i]).key.len() == w && (
            boundaries(s)[i].is_end || boundaries(s)[i].key_end.len() == 0),
    decreases s.len(),
{
    if s.len() > 0 {
        let t = s.drop_last();
        assert forall|i: int| 0 <= i < t.len() implies (#[trigger] t[i]).key.len() == w && (
        t[i].key_end.len() == 0 || t[i].key_end.len() == w) by {
            assert(t[i] == s[i]);
        }
        lemma_boundaries_width(t, w);
        assert(s.last() == s[s.len() - 1]);
        let p = boundary_pair(s.last());
        let b = boundaries(s);
        assert forall|i: int| 0 <= i < b.len() implies (#[trigger] b[i]).key.len() == w && (
        b[i].is_end || b[i].key_end.len() == 0) by {
            if i < boundaries(t).len() {
                assert(b[i] == boundaries(t)[i]);
            } else {
                assert(b[i] == p[i - boundaries(t).len()]);
            }
        }
    }
}

/// An address is in an interval set just when one of the set's reduced elements
/// is, or spans, that address, where all keys have the width of the address.
pub proof fn lemma_contains_agrees_with_reduced(s: Seq<ElemView>, ip: Seq<u8>)
    requires
        of_width(s, ip.len()),
    ensures
        contains(s, true, ip) <==> any_spans(reduced(s, true), ip),
{
    lemma_boundaries_width(s, ip.len());
    let b = boundaries(s);
    let t = sort::sorted(b);
    assert forall|i: int| 0 <= i < t.len() implies (#[trigger] t[i]).key.len() == ip.len() && (
    t[i].is_end || t[i].key_end.len() == 0) by {
        assert(t.contains(t[i]));
        sort::lemma_sorted_contains(b, t[i]);
        let j = choose|j: int| 0 <= j < b.len() && b[j] == t[i];
        assert(b[j].key.len() == ip.len());
    }
    lemma_covers_is_any_spans(t, ip);
}

proof fn lemma_boundaries_concat(a: Seq<ElemView>, b: Seq<ElemView>)
    ensures
        boundaries(a + b) == boundaries(a) + boundaries(b),
    decreases b.len(),
{
    if b.len() == 0 {
        assert(a + b =~= a);
        assert(boundaries(a) + boundaries(b) =~= boundaries(a));
    } else {
        assert((a + b).drop_last() =~= a + b.drop_last());
        lemma_boundaries_concat(a, b.drop_last());
        assert(boundaries(a + b) =~= boundaries(a) + boundaries(b));
    }
}

proof fn lemma_boundaries_idempotent(s: Seq<ElemView>)
    ensures
        boundaries(boundaries(s)) == boundaries(s),
    decreases s.len(),
{
    if s.len() > 0 {
        let t = s.drop_last();
        let p = boundary_pair(s.last());
        lemma_boundaries_idempotent(t);
        lemma_boundaries_concat(boundaries(t), p);
        reveal_with_fuel(boundaries, 3);
        if p.len() == 1 {
            assert(p.drop_last() =~= Seq::<ElemView>::empty());
            assert(boundaries(p) =~= p);
        } else {
            assert(p.drop_last() =~= seq![p[0]]);
            assert(p.drop_last().drop_last() =~= Seq::<ElemView>::empty());
            assert(boundaries(p) =~= p);
        }
    }
}

/// An interval set reduces to the same elements, and contains the same
/// addresses, whether its intervals come with both keys in one element or as
/// boundary elements.
pub proof fn lemma_wire_forms_agree(s: Seq<ElemView>, ip: Seq<u8>)
    ensures
        reduced(boundaries(s), true) == reduced(s, true),
        contains(boundaries(s), true, ip) == contains(s, true, ip),
{
    lemma_boundaries_idempotent(s);
}

/// The order of a dump does not matter, but for elements with one key: two dumps
/// of an interval set whose boundary elements are the same for each key reduce to
/// the same elements, and contain the same addresses.
pub proof fn lemma_dump_order_is_irrelevant(s: Seq<ElemView>, t: Seq<ElemView>, ip: Seq<u8>)
    requires
        forall|k: Seq<u8>| #[trigger]
            sort::with_key(boundaries(s), k) == sort::with_key(boundaries(t), k),
    ensures
        reduced(s, true) == reduced(t, true),
        contains(s, true, ip) == contains(t, true, ip),
{
    sort::lemma_sorts_alike(boundaries(s), boundaries(t));
}

/// The pair of boundary elements from `key` up to the key behind `last` reduces
/// to the interval from `key` to `last`.
pub proof fn lemma_boundary_pair_reduces(
    key: Seq<u8>,
    last: Seq<u8>,
    end: Seq<u8>,
    timeout_ms: Option<u64>,
)
    requires
        key.len() == last.len(),
        be::lex_le(key, last),
        be::successor(last) == Some(end),
    ensures
        reduced(
            seq![
                (ElemView {
                    key: key,
                    is_end: false,
                    key_end: Seq::empty(),
                    timeout_ms: timeout_ms,
                    expiration_ms: None,
                }),
                (ElemView {
                    key: end,
                    is_end: true,
                    key_end: Seq::empty(),
                    timeout_ms: None,
                    expiration_ms: None,
                }),
            ],
            true,
        ) == seq![
            (ElemView {
                key: key,
                is_end: false,
                key_end: last,
                timeout_ms: timeout_ms,
                expiration_ms: None,
            }),
        ],
{
    let a = ElemView {
        key: key,
        is_end: false,
        key_end: Seq::empty(),
        timeout_ms: timeout_ms,
        expiration_ms: None,
    };
    let b = ElemView {
        key: end,
        is_end: true,
        key_end: Seq::empty(),
        timeout_ms: None,
        expiration_ms: None,
    };
    let s = seq![a, b];
    assert(s.drop_last() =~= seq![a]);
    assert(seq![a].drop_last() =~= Seq::<ElemView>::empty());
    reveal_with_fuel(boundaries, 3);
    assert(boundaries(s) =~= s);
    be::lemma_successor(last);
    be::lemma_successor_predecessor_inverse(last);
    be::lemma_lex_is_numeric(last, key);
    be::lemma_lex_is_numeric(key, end);
    be::lemma_lex_is_numeric(end, key);
    reveal_with_fuel(sort::sorted, 3);
    assert(sort::sorted(s) =~= s);
    let r = s.skip(1);
    assert(s[0] == a && r[0] == b && be::predecessor(b.key) == Some(last));
    assert(next_of(a, r) == 0);
    assert(r.remove(0) =~= Seq::<ElemView>::empty());
    assert(decompose(r.remove(0)) =~= Seq::<ElemView>::empty());
    assert(decompose(s) =~= seq![joined(a, b, last)]);
}

/// Intervals in their order, each as its start and the end marker behind it: each
/// ends behind its start, and no later than the next one starts.
pub open spec fn apart(iv: Seq<(ElemView, ElemView)>) -> bool {
    &&& forall|i: int|
        0 <= i < iv.len() ==> {
            let (start, end) = #[trigger] iv[i];
            &&& !start.is_end
            &&& end.is_end
            &&& start.key.len() == end.key.len()
            &&& be::lex_lt(start.key, end.key)
        }
    &&& forall|i: int, j: int|
        0 <= i < iv.len() && j == i + 1 && j < iv.len() ==> be::lex_le(
            (#[trigger] iv[i]).1.key,
            (#[trigger] iv[j]).0.key,
        )
}

/// The boundary elements of intervals, in their order.
pub open spec fn bounds_of(iv: Seq<(ElemView, ElemView)>) -> Seq<ElemView> {
    Seq::new(
        2 * iv.len(),
        |i: int|
            if i % 2 == 0 {
                iv[i / 2].0
            } else {
                iv[i / 2].1
            },
    )
}

/// The elements that show intervals, each from its first key to the last one
/// before its end.
pub open spec fn shown(iv: Seq<(ElemView, ElemView)>) -> Seq<ElemView> {
    Seq::new(
        iv.len(),
        |i: int|
            joined(
                iv[i].0,
                iv[i].1,
                be::be_bytes((be::be_value(iv[i].1.key) - 1) as nat, iv[i].1.key.len()),
            ),
    )
}

/// Whether `ip` lies in one of the intervals: not before its start, and before its
/// end.
pub open spec fn inside(iv: Seq<(ElemView, ElemView)>, ip: Seq<u8>) -> bool {
    exists|i: int|
        0 <= i < iv.len() && be::lex_le((#[trigger] iv[i]).0.key, ip) && be::lex_lt(
            ip,
            iv[i].1.key,
        )
}

/// Of intervals that lie apart, an earlier one ends no later than a later one
/// starts.
proof fn lemma_apart(iv: Seq<(ElemView, ElemView)>, i: int, j: int)
    requires
        apart(iv),
        0 <= i < j < iv.len(),
    ensures
        be::lex_le(iv[i].1.key, iv[j].0.key),
    decreases j - i,
{
    if j == i + 1 {
        assert(be::lex_le(iv[i].1.key, iv[j].0.key));
    } else {
        lemma_apart(iv, i, j - 1);
        let m = iv[j - 1];
        assert(be::lex_lt(m.0.key, m.1.key));
        be::lemma_lex_total(m.0.key, m.1.key);
        assert(be::lex_le(m.1.key, iv[j].0.key));
        be::lemma_lex_transitive(iv[i].1.key, m.0.key, m.1.key);
        be::lemma_lex_transitive(iv[i].1.key, m.1.key, iv[j].0.key);
    }
}

/// Where the boundary elements of intervals lie: none before the first start, and
/// behind that one none before the first end, which no other end marker shares.
proof fn lemma_bounds(iv: Seq<(ElemView, ElemView)>, m: int)
    requires
        apart(iv),
        0 <= m < bounds_of(iv).len(),
    ensures
        be::lex_le(iv[0].0.key, bounds_of(iv)[m].key),
        m > 0 ==> be::lex_le(iv[0].1.key, bounds_of(iv)[m].key),
        m > 1 && bounds_of(iv)[m].is_end ==> bounds_of(iv)[m].key != iv[0].1.key,
{
    let (start, end) = iv[0];
    let (first, last) = iv[m / 2];
    let x = bounds_of(iv)[m];
    assert(x == if m % 2 == 0 {
        first
    } else {
        last
    });
    be::lemma_lex_total(start.key, end.key);
    be::lemma_lex_total(first.key, last.key);
    be::lemma_lex_total(start.key, start.key);
    be::lemma_lex_total(end.key, end.key);
    if m > 1 {
        lemma_apart(iv, 0, m / 2);
        be::lemma_lex_transitive(end.key, first.key, last.key);
        be::lemma_lex_transitive(start.key, end.key, x.key);
    }
}

/// An end marker behind nothing but elements with its key is found.
proof fn lemma_first_end_found(r: Seq<ElemView>, k: Seq<u8>, e: int)
    requires
        0 <= e < r.len(),
        r[e].is_end,
        forall|j: int| 0 <= j <= e ==> (#[trigger] r[j]).key == k,
    ensures
        first_end(r, k) is Some,
    decreases e,
{
    assert(r[0].key == k);
    if e > 0 {
        let t = r.skip(1);
        assert forall|j: int| 0 <= j <= e - 1 implies (#[trigger] t[j]).key == k by {
            assert(t[j] == r[j + 1]);
        }
        assert(t[e - 1] == r[e]);
        lemma_first_end_found(t, k, e - 1);
    }
}

/// Boundary elements with the keys in order start with the first start, its end
/// comes next, and without the two there are the others, in order.
proof fn lemma_first_interval(u: Seq<ElemView>, iv: Seq<(ElemView, ElemView)>)
    requires
        apart(iv),
        iv.len() > 0,
        sort::is_ordered(u),
        u.to_multiset() == bounds_of(iv).to_multiset(),
    ensures
        u.len() >= 2,
        u[0] == iv[0].0,
        ({
            let r = u.skip(1);
            let i = next_of(u[0], r);
            &&& 0 <= i < r.len()
            &&& r[i] == iv[0].1
            &&& sort::is_ordered(r.remove(i))
            &&& r.remove(i).to_multiset() == bounds_of(iv.skip(1)).to_multiset()
        }),
{
    broadcast use vstd::seq_lib::group_to_multiset_ensures;

    let (start, end) = iv[0];
    let l = bounds_of(iv);
    let m = l.skip(1);
    let r = u.skip(1);
    assert(u.to_multiset().len() == u.len() && l.to_multiset().len() == l.len());
    assert(l[0] == start && l[1] == end);
    be::lemma_lex_total(start.key, end.key);
    assert forall|x: ElemView| u.contains(x) implies l.contains(x) by {
        assert(u.to_multiset().count(x) > 0);
    }
    // The first start comes first.
    assert(u[0] == start) by {
        assert(l.contains(start));
        assert(u.to_multiset().count(start) > 0);
        let i = choose|i: int| 0 <= i < u.len() && u[i] == start;
        assert(be::lex_le(u[0].key, u[i].key));
        assert(u.contains(u[0]));
        let k = choose|k: int| 0 <= k < l.len() && l[k] == u[0];
        lemma_bounds(iv, k);
        be::lemma_lex_total(u[0].key, start.key);
    }
    assert(r =~= u.remove(0));
    assert(m =~= l.remove(0));
    assert(r.to_multiset() == m.to_multiset());
    assert forall|x: ElemView| #[trigger] r.contains(x) implies be::lex_le(end.key, x.key) && (
    x.is_end && x.key == end.key ==> x == end) by {
        assert(r.to_multiset().count(x) > 0);
        assert(m.contains(x));
        let k = choose|k: int| 0 <= k < m.len() && m[k] == x;
        assert(l[k + 1] == x);
        lemma_bounds(iv, k + 1);
    }
    // Its end comes next.
    assert(m[0] == end);
    assert(m.contains(end));
    assert(r.to_multiset().count(end) > 0);
    let e = choose|e: int| 0 <= e < r.len() && r[e] == end;
    assert forall|j: int| 0 <= j <= e implies (#[trigger] r[j]).key == end.key by {
        assert(be::lex_le(u[j + 1].key, u[e + 1].key));
        assert(r.contains(r[j]));
        be::lemma_lex_total(r[j].key, end.key);
    }
    assert(r[0].key == end.key);
    lemma_first_end_found(r, end.key, e);
    lemma_first_end(r, end.key);
    let i = next_of(u[0], r);
    assert(first_end(r, end.key) == Some(i));
    assert(r.contains(r[i]));
    assert(r[i] == end);
    // The others.
    let v = r.remove(i);
    let t = iv.skip(1);
    assert(bounds_of(t) =~= m.remove(0));
    assert(v.to_multiset() =~= bounds_of(t).to_multiset());
    assert forall|j: int, k: int| 0 <= j <= k < v.len() implies be::lex_le(
        #[trigger] v[j].key,
        #[trigger] v[k].key,
    ) by {
        let j2 = if j < i {
            j + 1
        } else {
            j + 2
        };
        let k2 = if k < i {
            k + 1
        } else {
            k + 2
        };
        assert(v[j] == u[j2] && v[k] == u[k2]);
        assert(be::lex_le(u[j2].key, u[k2].key));
    }
}

proof fn lemma_bounds_decompose(
    u: Seq<ElemView>,
    iv: Seq<(ElemView, ElemView)>,
    ip: Seq<u8>,
)
    requires
        apart(iv),
        sort::is_ordered(u),
        u.to_multiset() == bounds_of(iv).to_multiset(),
    ensures
        decompose(u) == shown(iv),
        covers(u, ip) <==> inside(iv, ip),
    decreases iv.len(),
{
    broadcast use vstd::seq_lib::group_to_multiset_ensures;

    if iv.len() == 0 {
        assert(u.to_multiset().len() == u.len());
        assert(bounds_of(iv).to_multiset().len() == 0);
        assert(decompose(u) =~= shown(iv));
    } else {
        let t = iv.skip(1);
        let (start, end) = iv[0];
        assert forall|i: int| 0 <= i < t.len() implies {
            let (start, end) = #[trigger] t[i];
            &&& !start.is_end
            &&& end.is_end
            &&& start.key.len() == end.key.len()
            &&& be::lex_lt(start.key, end.key)
        } by {
            assert(t[i] == iv[i + 1]);
        }
        assert forall|i: int, j: int|
            0 <= i < t.len() && j == i + 1 && j < t.len() implies be::lex_le(
            (#[trigger] t[i]).1.key,
            (#[trigger] t[j]).0.key,
        ) by {
            assert(t[i] == iv[i + 1] && t[j] == iv[j + 1]);
        }
        lemma_first_interval(u, iv);
        let r = u.skip(1);
        lemma_bounds_decompose(r.remove(next_of(u[0], r)), t, ip);
        be::lemma_lex_is_numeric(start.key, end.key);
        be::lemma_be_value_extremes(end.key);
        let last = be::predecessor(end.key).unwrap();
        assert(shown(iv) =~= seq![joined(start, end, last)] + shown(t)) by {
            assert forall|i: int| 0 < i < iv.len() implies #[trigger] shown(iv)[i] == shown(
                t,
            )[i - 1] by {
                assert(t[i - 1] == iv[i]);
            }
        }
        if inside(t, ip) {
            let i = choose|i: int|
                0 <= i < t.len() && be::lex_le((#[trigger] t[i]).0.key, ip) && be::lex_lt(
                    ip,
                    t[i].1.key,
                );
            assert(t[i] == iv[i + 1]);
        }
        if inside(iv, ip) {
            let i = choose|i: int|
                0 <= i < iv.len() && be::lex_le((#[trigger] iv[i]).0.key, ip) && be::lex_lt(
                    ip,
                    iv[i].1.key,
                );
            if i > 0 {
                assert(t[i - 1] == iv[i]);
            }
        }
        assert(iv[0].0 == start);
    }
}

/// What the elements that show intervals hold.
proof fn lemma_shown_parts(iv: Seq<(ElemView, ElemView)>)
    requires
        forall|i: int|
            0 <= i < iv.len() ==> {
                let (start, end) = #[trigger] iv[i];
                &&& !start.is_end
                &&& start.key.len() == end.key.len()
                &&& be::lex_lt(start.key, end.key)
            },
    ensures
        shown(iv).len() == iv.len(),
        forall|i: int|
            0 <= i < iv.len() ==> {
                let (start, end) = #[trigger] iv[i];
                let e = shown(iv)[i];
                &&& e.key == start.key
                &&& !e.is_end
                &&& e.key_end.len() == end.key.len()
                &&& be::be_value(e.key_end) + 1 == be::be_value(end.key)
                &&& e.timeout_ms == if start.timeout_ms is Some {
                    start.timeout_ms
                } else {
                    end.timeout_ms
                }
                &&& e.expiration_ms == if start.expiration_ms is Some {
                    start.expiration_ms
                } else {
                    end.expiration_ms
                }
            },
{
    assert forall|i: int| 0 <= i < iv.len() implies {
        let (start, end) = #[trigger] iv[i];
        let e = shown(iv)[i];
        &&& e.key_end.len() == end.key.len()
        &&& be::be_value(e.key_end) + 1 == be::be_value(end.key)
    } by {
        let (start, end) = iv[i];
        be::lemma_lex_is_numeric(start.key, end.key);
        be::lemma_be_value_bound(end.key);
        be::lemma_be_value_of_bytes((be::be_value(end.key) - 1) as nat, end.key.len());
    }
}

/// A set of intervals that lie apart, or touch, reduces to one element for each of
/// them, from its first to its last key, and contains just the addresses inside
/// them, in whatever order and form its elements are dumped. One end marker before
/// all of them, which closes nothing, makes no difference.
pub proof fn lemma_intervals_reduce(
    s: Seq<ElemView>,
    tidy: Seq<ElemView>,
    iv: Seq<(ElemView, ElemView)>,
    ip: Seq<u8>,
)
    requires
        apart(iv),
        tidy.len() <= 1,
        tidy.len() == 1 ==> tidy[0].is_end,
        tidy.len() == 1 && iv.len() > 0 ==> be::lex_lt(tidy[0].key, iv[0].0.key),
        boundaries(s).to_multiset() == (tidy + bounds_of(iv)).to_multiset(),
    ensures
        reduced(s, true) == shown(iv),
        contains(s, true, ip) <==> inside(iv, ip),
        reduced(s, true).len() == iv.len(),
        forall|i: int|
            0 <= i < iv.len() ==> {
                let (start, end) = #[trigger] iv[i];
                let e = reduced(s, true)[i];
                &&& e.key == start.key
                &&& !e.is_end
                &&& e.key_end.len() == end.key.len()
                &&& be::be_value(e.key_end) + 1 == be::be_value(end.key)
                &&& e.timeout_ms == if start.timeout_ms is Some {
                    start.timeout_ms
                } else {
                    end.timeout_ms
                }
                &&& e.expiration_ms == if start.expiration_ms is Some {
                    start.expiration_ms
                } else {
                    end.expiration_ms
                }
            },
{
    lemma_shown_parts(iv);
    broadcast use vstd::seq_lib::group_to_multiset_ensures;

    let u = sort::sorted(boundaries(s));
    let l = bounds_of(iv);
    let all = tidy + l;
    sort::lemma_sorted_is_stable_sort(boundaries(s));
    if tidy.len() == 1 {
        assert(all[0] == tidy[0]);
        assert(all.contains(tidy[0]));
        assert(u.to_multiset().count(tidy[0]) > 0);
        let i = choose|i: int| 0 <= i < u.len() && u[i] == tidy[0];
        assert(u[0] == tidy[0]) by {
            assert(be::lex_le(u[0].key, u[i].key));
            assert(u.contains(u[0]));
            assert(all.to_multiset().count(u[0]) > 0);
            let k = choose|k: int| 0 <= k < all.len() && all[k] == u[0];
            if k > 0 {
                assert(all[k] == l[k - 1]);
                lemma_bounds(iv, k - 1);
                be::lemma_lex_total(tidy[0].key, iv[0].0.key);
                be::lemma_lex_total(u[0].key, tidy[0].key);
                be::lemma_lex_transitive(iv[0].0.key, u[0].key, tidy[0].key);
            }
        }
        let v = u.skip(1);
        assert(v =~= u.remove(0));
        assert(l =~= all.remove(0));
        assert(v.to_multiset() =~= l.to_multiset());
        assert forall|j: int, k: int| 0 <= j <= k < v.len() implies be::lex_le(
            #[trigger] v[j].key,
            #[trigger] v[k].key,
        ) by {
            assert(be::lex_le(u[j + 1].key, u[k + 1].key));
        }
        lemma_bounds_decompose(v, iv, ip);
    } else {
        assert(all =~= l);
        lemma_bounds_decompose(u, iv, ip);
    }
}

/// Lists the boundary elements that `elems` stand for.
fn boundary_stream(elems: &[Elem]) -> (r: Vec<Elem>)
    ensures
        elem::views(r@) == boundaries(elem::views(elems@)),
{
    let mut stream: Vec<Elem> = Vec::new();
    let ghost vs = elem::views(elems@);
    let mut i: usize = 0;
    assert(vs.take(0) =~= Seq::<ElemView>::empty());
    assert(elem::views(stream@) =~= boundaries(vs.take(0)));
    while i < elems.len()
        invariant
            i <= elems@.len(),
            vs == elem::views(elems@),
            elem::views(stream@) == boundaries(vs.take(i as int)),
        decreases elems.len() - i,
    {
        let e = &elems[i];
        let ghost before = elem::views(stream@);
        proof {
            assert(vs.take(i + 1).drop_last() =~= vs.take(i as int));
            assert(vs.take(i + 1).last() == e@);
        }
        if e.is_end || e.key_end.len() == 0 {
            stream.push(e.duplicate());
        } else {
            stream.push(
                Elem {
                    key: slice_to_vec(e.key.as_slice()),
                    is_end: e.is_end,
                    key_end: Vec::new(),
                    timeout_ms: e.timeout_ms,
                    expiration_ms: e.expiration_ms,
                },
            );
            stream.push(
                Elem {
                    key: slice_to_vec(e.key_end.as_slice()),
                    is_end: true,
                    key_end: Vec::new(),
                    timeout_ms: e.timeout_ms,
                    expiration_ms: e.expiration_ms,
                },
            );
        }
        assert(elem::views(stream@) =~= before + boundary_pair(e@));
        i = i + 1;
    }
    assert(vs.take(i as int) =~= vs);
    stream
}

/// The key right before `key`, if there is one of that length.
fn key_before(key: &Vec<u8>) -> (r: Option<Vec<u8>>)
    ensures
        match be::predecessor(key@) {
            None => r is None,
            Some(last) => r matches Some(v) && v@ == last,
        },
{
    let mut last = slice_to_vec(key.as_slice());
    if decrement_be(last.as_mut_slice()).is_some() {
        Some(last)
    } else {
        None
    }
}

fn first_present(a: Option<u64>, b: Option<u64>) -> (r: Option<u64>)
    ensures
        r == either(a, b),
{
    if a.is_some() {
        a
    } else {
        b
    }
}

fn join(start: &Elem, end: &Elem, last: Vec<u8>) -> (r: Elem)
    ensures
        r@ == joined(start@, end@, last@),
{
    Elem {
        key: slice_to_vec(start.key.as_slice()),
        is_end: start.is_end,
        key_end: last,
        timeout_ms: first_present(start.timeout_ms, end.timeout_ms),
        expiration_ms: first_present(start.expiration_ms, end.expiration_ms),
    }
}

/// The last key of the CIDR block from `start` up to the key of `next`, if
/// the two make one.
fn block_last(start: &Elem, next: &Elem) -> (r: Option<Vec<u8>>)
    ensures
        match block_end(start@, next@) {
            None => r is None,
            Some(last) => r matches Some(v) && v@ == last,
        },
{
    match key_before(&next.key) {
        None => None,
        Some(last) => {
            if interval_to_cidr(start.key.as_slice(), last.as_slice()).is_some() {
                Some(last)
            } else {
                None
            }
        },
    }
}

/// The elements of `v`, the last one first.
fn reversed(v: Vec<Elem>) -> (r: Vec<Elem>)
    ensures
        elem::views(r@).reverse() == elem::views(v@),
{
    let mut v = v;
    let ghost vs = elem::views(v@);
    let mut out: Vec<Elem> = Vec::new();
    assert(elem::views(v@) + elem::views(out@).reverse() =~= vs);
    while v.len() > 0
        invariant
            elem::views(v@) + elem::views(out@).reverse() == vs,
        decreases v.len(),
    {
        let ghost before = elem::views(v@);
        let ghost done = elem::views(out@);
        if let Some(e) = v.pop() {
            out.push(e);
            proof {
                assert(elem::views(v@) =~= before.drop_last());
                assert(elem::views(out@) =~= done.push(before.last()));
                assert(elem::views(v@) + elem::views(out@).reverse() =~= vs);
            }
        }
    }
    assert(elem::views(out@).reverse() =~= vs);
    out
}

/// Finds the first end marker with the first key of the elements that are left, of
/// which the last one is the first in the order of their keys.
fn find_end(left: &Vec<Elem>) -> (i: Option<usize>)
    requires
        left@.len() > 0,
    ensures
        ({
            let r = elem::views(left@).reverse();
            match first_end(r, r[0].key) {
                Some(m) => i matches Some(v) && v == m,
                None => i is None,
            }
        }),
{
    let n: usize = left.len();
    let ghost r = elem::views(left@).reverse();
    let ghost k = r[0].key;
    let first = &left[n - 1];
    let mut j: usize = 0;
    proof {
        assert(r[0] == first@);
        assert(r.skip(0) =~= r);
    }
    while j < n
        invariant
            j <= n,
            n == left@.len(),
            r == elem::views(left@).reverse(),
            k == r[0].key,
            k == first.key@,
            first_end(r, k) == match first_end(r.skip(j as int), k) {
                Some(m) => Some(j + m),
                None => None,
            },
        decreases n - j,
    {
        let e = &left[n - 1 - j];
        let ghost t = r.skip(j as int);
        proof {
            assert(t[0] == e@);
            assert(t.skip(1) =~= r.skip(j + 1));
        }
        if !bytes_equal(e.key.as_slice(), first.key.as_slice()) {
            return None;
        }
        if e.is_end {
            return Some(j);
        }
        j = j + 1;
    }
    None
}

/// Takes what comes right behind the start `a` out of the elements that are left,
/// of which the last one is the first in the order of their keys.
fn take_next(a: &Elem, left: &mut Vec<Elem>) -> (b: Elem)
    requires
        old(left)@.len() > 0,
    ensures
        ({
            let r = elem::views(old(left)@).reverse();
            let i = next_of(a@, r);
            &&& 0 <= i < r.len()
            &&& b@ == r[i]
            &&& elem::views(final(left)@).reverse() == r.remove(i)
        }),
{
    let n: usize = left.len();
    let ghost r = elem::views(left@).reverse();
    proof {
        assert(r[0] == left@[n - 1]@);
        lemma_first_end(r, r[0].key);
    }
    let i: usize = if bytes_equal(left[n - 1].key.as_slice(), a.key.as_slice()) {
        0
    } else {
        match find_end(left) {
            Some(i) => i,
            None => 0,
        }
    };
    let b = left.remove(n - 1 - i);
    proof {
        assert(b@ == r[i as int]);
        assert(elem::views(left@).reverse() =~= r.remove(i as int));
    }
    b
}

/// Reduces the elements of a set, as the kernel lists them, to one element per
/// interval.
///
/// Elements of a set without intervals are returned as they are. In an interval
/// set an interval comes either as two boundary elements, a start and an end
/// marker, or as one element that carries both keys; the end is exclusive. The
/// reduced element holds the first and the last address of the interval. An
/// interval may start where another one ends.
pub fn reduce_intervals(elems: Vec<Elem>, is_interval: bool) -> (r: Vec<Elem>)
    ensures
        elem::views(r@) == reduced(elem::views(elems@), is_interval),
        !is_interval ==> r@ == elems@,
{
    if !is_interval {
        return elems;
    }
    let mut left = reversed(sort_by_key(boundary_stream(elems.as_slice())));
    let ghost vs = elem::views(left@).reverse();
    let mut out: Vec<Elem> = Vec::new();
    assert(decompose(vs) =~= elem::views(out@) + decompose(vs));
    while left.len() > 0
        invariant
            decompose(vs) == elem::views(out@) + decompose(elem::views(left@).reverse()),
        decreases left.len(),
    {
        let ghost rest = elem::views(left@).reverse();
        let ghost done = elem::views(out@);
        if let Some(e) = left.pop() {
            let ghost r = elem::views(left@).reverse();
            proof {
                assert(rest[0] == e@);
                assert(rest.skip(1) =~= r);
            }
            if e.is_end {
            } else if left.len() == 0 {
                let ghost v = e@;
                out.push(e);
                proof {
                    assert(elem::views(out@) =~= done.push(v));
                    assert(rest =~= seq![v]);
                    assert(decompose(vs) =~= elem::views(out@) + decompose(r));
                }
            } else {
                let f = take_next(&e, &mut left);
                let last = if f.is_end {
                    key_before(&f.key)
                } else {
                    block_last(&e, &f)
                };
                match last {
                    Some(last) => {
                        out.push(join(&e, &f, last));
                        proof {
                            let left_over = elem::views(left@).reverse();
                            assert(elem::views(out@) =~= done.push(elem::views(out@).last()));
                            assert(decompose(vs) =~= elem::views(out@) + decompose(left_over));
                        }
                    },
                    None => {
                        if !f.is_end {
                            let ghost v = e@;
                            let ghost w = f@;
                            let ghost ls = elem::views(left@);
                            out.push(e);
                            left.push(f);
                            proof {
                                lemma_first_end(r, r[0].key);
                                assert(w == r[0]);
                                assert(elem::views(left@) =~= ls.push(w));
                                assert(ls.push(w).reverse() =~= seq![w] + ls.reverse());
                                assert(seq![w] + r.remove(0) =~= r);
                                assert(elem::views(left@).reverse() =~= r);
                                assert(elem::views(out@) =~= done.push(v));
                                assert(decompose(vs) =~= elem::views(out@) + decompose(r));
                            }
                        }
                    },
                }
            }
        }
    }
    assert(elem::views(out@) =~= decompose(vs));
    out
}

/// Tests whether `ip_bytes` is an element of a set, or lies in one of its
/// intervals, given the elements of the set as the kernel lists them.
pub fn set_contains_ip(elems: &[Elem], is_interval: bool, ip_bytes: &[u8]) -> (r: bool)
    ensures
        r == contains(elem::views(elems@), is_interval, ip_bytes@),
        !is_interval ==> (r <==> exists|i: int|
            0 <= i < elems@.len() && !(#[trigger] elems@[i]).is_end && elems@[i].key@
                == ip_bytes@),
{
    if !is_interval {
        let ghost vs = elem::views(elems@);
        let mut i: usize = 0;
        while i < elems.len()
            invariant
                i <= elems@.len(),
                !is_interval,
                vs == elem::views(elems@),
                forall|j: int| 0 <= j < i ==> (#[trigger] vs[j]).is_end || vs[j].key != ip_bytes@,
            decreases elems.len() - i,
        {
            assert(vs[i as int] == elems@[i as int]@);
            if !elems[i].is_end && bytes_equal(ip_bytes, elems[i].key.as_slice()) {
                return true;
            }
            i = i + 1;
        }
        assert forall|j: int| 0 <= j < elems@.len() implies (#[trigger] elems@[j]).is_end
            || elems@[j].key@ != ip_bytes@ by {
            assert(vs[j] == elems@[j]@);
        }
        return false;
    }
    let mut left = reversed(sort_by_key(boundary_stream(elems)));
    let ghost vs = elem::views(left@).reverse();
    while left.len() > 0
        invariant
            is_interval,
            vs == sort::sorted(boundaries(elem::views(elems@))),
            covers(vs, ip_bytes@) == covers(elem::views(left@).reverse(), ip_bytes@),
        decreases left.len(),
    {
        let ghost rest = elem::views(left@).reverse();
        if let Some(e) = left.pop() {
            let ghost r = elem::views(left@).reverse();
            proof {
                assert(rest[0] == e@);
                assert(rest.skip(1) =~= r);
            }
            if e.is_end {
            } else if left.len() == 0 {
                return bytes_equal(ip_bytes, e.key.as_slice());
            } else {
                let f = take_next(&e, &mut left);
                if f.is_end || block_last(&e, &f).is_some() {
                    if !lex_less(ip_bytes, e.key.as_slice()) && lex_less(
                        ip_bytes,
                        f.key.as_slice(),
                    ) {
                        return true;
                    }
                } else {
                    if bytes_equal(ip_bytes, e.key.as_slice()) {
                        return true;
                    }
                    let ghost w = f@;
                    let ghost ls = elem::views(left@);
                    left.push(f);
                    proof {
                        lemma_first_end(r, r[0].key);
                        assert(w == r[0]);
                        assert(elem::views(left@) =~= ls.push(w));
                        assert(ls.push(w).reverse() =~= seq![w] + ls.reverse());
                        assert(seq![w] + r.remove(0) =~= r);
                    }
                }
            }
        }
    }
    false
}

/// A set without intervals is what its elements are: reducing it gives them as they
/// are, it contains the key of each that is no end marker, whatever its times, and
/// it contains nothing else.
pub proof fn lemma_plain_set(s: Seq<ElemView>, ip: Seq<u8>)
    ensures
        reduced(s, false).len() == s.len(),
        forall|i: int|
            0 <= i < s.len() ==> {
                &&& (#[trigger] reduced(s, false)[i]).key == s[i].key
                &&& reduced(s, false)[i].is_end == s[i].is_end
                &&& reduced(s, false)[i].key_end == s[i].key_end
                &&& reduced(s, false)[i].timeout_ms == s[i].timeout_ms
                &&& reduced(s, false)[i].expiration_ms == s[i].expiration_ms
            },
        forall|i: int| 0 <= i < s.len() && !(#[trigger] s[i]).is_end ==> contains(s, false, s[i].key),
        contains(s, false, ip) ==> exists|i: int|
            0 <= i < s.len() && !(#[trigger] s[i]).is_end && s[i].key == ip,
{
}

/// In an interval set without end markers and upper bounds, starts with the keys in
/// order of which no two neighbours make a block stand alone, each with its times: the
/// set contains just their keys.
pub proof fn lemma_lone_starts(s: Seq<ElemView>, ip: Seq<u8>)
    requires
        forall|i: int|
            0 <= i < s.len() ==> !(#[trigger] s[i]).is_end && s[i].key_end.len() == 0,
        forall|i: int, j: int|
            0 <= i < j < s.len() ==> be::lex_lt(#[trigger] s[i].key, #[trigger] s[j].key),
        forall|i: int, j: int|
            0 <= i && j == i + 1 && j < s.len() ==> block_end(#[trigger] s[i], #[trigger] s[j]) is None,
    ensures
        reduced(s, true) == s,
        contains(s, true, ip) <==> exists|i: int| 0 <= i < s.len() && #[trigger] s[i].key == ip,
{
    lemma_boundaries_of_bare(s);
    lemma_strictly_ordered(s);
    sort::lemma_sorted_of_ordered(s);
    lemma_lone_starts_ordered(s, ip);
}

/// Two neighbours make a block just where the first key is a multiple of a power of
/// two and the second lies that power behind it.
pub proof fn lemma_block_end(a: ElemView, b: ElemView, n: nat)
    requires
        1 <= a.key.len() <= 16,
        a.key.len() == b.key.len(),
    ensures
        be::be_value(a.key) % pow2(n) == 0 && be::be_value(b.key) == be::be_value(a.key) + pow2(n)
            ==> block_end(a, b) is Some,
        block_end(a, b) matches Some(last) ==> {
            &&& last.len() == b.key.len()
            &&& be::be_value(last) + 1 == be::be_value(b.key)
            &&& exists|m: nat|
                be::be_value(a.key) % #[trigger] pow2(m) == 0 && be::be_value(b.key)
                    == be::be_value(a.key) + pow2(m)
        },
{
    be::lemma_be_value_extremes(b.key);
    be::lemma_predecessor(b.key);
    lemma_pow2_pos(n);
    if let Some(last) = be::predecessor(b.key) {
        fmt::lemma_cidr_exact(a.key, last, n);
        if let Some((x, plen, bits)) = cidr::cidr(a.key, last) {
            let m = (8 * a.key.len() - plen) as nat;
            assert(be::be_value(a.key) % pow2(m) == 0);
        }
    }
}

proof fn lemma_boundaries_of_bare(s: Seq<ElemView>)
    requires
        forall|i: int|
            0 <= i < s.len() ==> (#[trigger] s[i]).is_end || s[i].key_end.len() == 0,
    ensures
        boundaries(s) == s,
    decreases s.len(),
{
    if s.len() > 0 {
        let t = s.drop_last();
        assert forall|i: int| 0 <= i < t.len() implies (#[trigger] t[i]).is_end
            || t[i].key_end.len() == 0 by {
            assert(t[i] == s[i]);
        }
        lemma_boundaries_of_bare(t);
        assert(boundary_pair(s[s.len() - 1]) == seq![s.last()]);
        assert(boundaries(s) =~= s);
    } else {
        assert(boundaries(s) =~= s);
    }
}

proof fn lemma_strictly_ordered(s: Seq<ElemView>)
    requires
        forall|i: int, j: int|
            0 <= i < j < s.len() ==> be::lex_lt(#[trigger] s[i].key, #[trigger] s[j].key),
    ensures
        sort::is_ordered(s),
{
    assert forall|i: int, j: int| 0 <= i <= j < s.len() implies be::lex_le(
        #[trigger] s[i].key,
        #[trigger] s[j].key,
    ) by {
        be::lemma_lex_total(s[i].key, s[j].key);
    }
}

/// Among starts with rising keys the next one is the next one.
proof fn lemma_next_start(s: Seq<ElemView>)
    requires
        s.len() >= 2,
        forall|i: int| 0 <= i < s.len() ==> !(#[trigger] s[i]).is_end,
    ensures
        next_of(s[0], s.skip(1)) == 0,
{
    let r = s.skip(1);
    lemma_first_end(r, r[0].key);
    if let Some(i) = first_end(r, r[0].key) {
        assert(r[i] == s[i + 1]);
    }
}

proof fn lemma_lone_starts_ordered(s: Seq<ElemView>, ip: Seq<u8>)
    requires
        forall|i: int| 0 <= i < s.len() ==> !(#[trigger] s[i]).is_end,
        forall|i: int, j: int|
            0 <= i && j == i + 1 && j < s.len() ==> block_end(#[trigger] s[i], #[trigger] s[j]) is None,
    ensures
        decompose(s) == s,
        covers(s, ip) <==> exists|i: int| 0 <= i < s.len() && #[trigger] s[i].key == ip,
    decreases s.len(),
{
    if s.len() == 0 {
        assert(decompose(s) =~= s);
    } else if s.len() == 1 {
        assert(s[0].key == s[0].key);
    } else {
        let r = s.skip(1);
        lemma_next_start(s);
        assert forall|i: int| 0 <= i < r.len() implies !(#[trigger] r[i]).is_end by {
            assert(r[i] == s[i + 1]);
        }
        assert forall|i: int, j: int| 0 <= i && j == i + 1 && j < r.len() implies block_end(
            #[trigger] r[i],
            #[trigger] r[j],
        ) is None by {
            assert(r[i] == s[i + 1] && r[j] == s[j + 1]);
        }
        lemma_lone_starts_ordered(r, ip);
        assert(r[0] == s[1]);
        assert(block_end(s[0], s[1]) is None);
        assert(seq![s[0]] + r =~= s);
        if exists|i: int| 0 <= i < s.len() && #[trigger] s[i].key == ip {
            let i = choose|i: int| 0 <= i < s.len() && #[trigger] s[i].key == ip;
            if i > 0 {
                assert(r[i - 1].key == ip);
            }
        }
        if exists|i: int| 0 <= i < r.len() && #[trigger] r[i].key == ip {
            let i = choose|i: int| 0 <= i < r.len() && #[trigger] r[i].key == ip;
            assert(s[i + 1].key == ip);
        }
        assert(s[0].key == s[0].key);
    }
}

/// Blocks that come as two starts each, the second of which stands behind the block,
/// reduce to one element for each block, from its first to its last key, with the
/// times of the first start, or else of the second; the set contains just the addresses
/// of the blocks.
pub proof fn lemma_blocks_without_ends(iv: Seq<(ElemView, ElemView)>, ip: Seq<u8>)
    requires
        forall|i: int|
            0 <= i < iv.len() ==> {
                let (start, next) = #[trigger] iv[i];
                &&& !start.is_end
                &&& !next.is_end
                &&& start.key_end.len() == 0
                &&& next.key_end.len() == 0
                &&& start.key.len() == next.key.len()
                &&& be::lex_lt(start.key, next.key)
                &&& block_end(start, next) is Some
            },
        forall|i: int, j: int|
            0 <= i < iv.len() && j == i + 1 && j < iv.len() ==> be::lex_lt(
                (#[trigger] iv[i]).1.key,
                (#[trigger] iv[j]).0.key,
            ),
    ensures
        ({
            let r = reduced(bounds_of(iv), true);
            &&& r.len() == iv.len()
            &&& forall|i: int|
                0 <= i < iv.len() ==> {
                    let (start, end) = #[trigger] iv[i];
                    let e = r[i];
                    &&& e.key == start.key
                    &&& !e.is_end
                    &&& e.key_end.len() == end.key.len()
                    &&& be::be_value(e.key_end) + 1 == be::be_value(end.key)
                    &&& e.timeout_ms == if start.timeout_ms is Some {
                        start.timeout_ms
                    } else {
                        end.timeout_ms
                    }
                    &&& e.expiration_ms == if start.expiration_ms is Some {
                        start.expiration_ms
                    } else {
                        end.expiration_ms
                    }
                }
        }),
        contains(bounds_of(iv), true, ip) <==> inside(iv, ip),
{
    let u = bounds_of(iv);
    assert forall|i: int| 0 <= i < u.len() implies !(#[trigger] u[i]).is_end && u[i].key_end.len()
        == 0 by {
        let (a, b) = iv[i / 2];
    }
    lemma_boundaries_of_bare(u);
    assert forall|i: int, j: int| 0 <= i <= j < u.len() implies be::lex_le(
        #[trigger] u[i].key,
        #[trigger] u[j].key,
    ) by {
        lemma_rising(iv, i, j);
    }
    sort::lemma_sorted_of_ordered(u);
    lemma_blocks_ordered(iv, ip);
    lemma_shown_parts(iv);
}

proof fn lemma_rising(iv: Seq<(ElemView, ElemView)>, i: int, j: int)
    requires
        forall|i: int|
            0 <= i < iv.len() ==> be::lex_lt((#[trigger] iv[i]).0.key, iv[i].1.key),
        forall|i: int, j: int|
            0 <= i < iv.len() && j == i + 1 && j < iv.len() ==> be::lex_lt(
                (#[trigger] iv[i]).1.key,
                (#[trigger] iv[j]).0.key,
            ),
        0 <= i <= j < 2 * iv.len(),
    ensures
        be::lex_le(bounds_of(iv)[i].key, bounds_of(iv)[j].key),
    decreases j - i,
{
    let u = bounds_of(iv);
    if i == j {
        be::lemma_lex_total(u[i].key, u[i].key);
    } else {
        lemma_rising(iv, i, j - 1);
        if j % 2 == 0 {
            assert(u[j] == iv[j / 2].0 && u[j - 1] == iv[j / 2 - 1].1);
        } else {
            assert(u[j] == iv[j / 2].1 && u[j - 1] == iv[j / 2].0);
        }
        be::lemma_lex_total(u[j - 1].key, u[j].key);
        be::lemma_lex_transitive(u[i].key, u[j - 1].key, u[j].key);
    }
}

proof fn lemma_blocks_ordered(iv: Seq<(ElemView, ElemView)>, ip: Seq<u8>)
    requires
        forall|i: int|
            0 <= i < iv.len() ==> {
                let (start, next) = #[trigger] iv[i];
                &&& !start.is_end
                &&& !next.is_end
                &&& block_end(start, next) is Some
            },
    ensures
        decompose(bounds_of(iv)) == shown(iv),
        covers(bounds_of(iv), ip) <==> inside(iv, ip),
    decreases iv.len(),
{
    let u = bounds_of(iv);
    if iv.len() == 0 {
        assert(decompose(u) =~= shown(iv));
    } else {
        let t = iv.skip(1);
        let (start, end) = iv[0];
        let r = u.skip(1);
        assert forall|i: int| 0 <= i < u.len() implies !(#[trigger] u[i]).is_end by {
            let (a, b) = iv[i / 2];
        }
        assert forall|i: int| 0 <= i < t.len() implies {
            let (start, next) = #[trigger] t[i];
            &&& !start.is_end
            &&& !next.is_end
            &&& block_end(start, next) is Some
        } by {
            assert(t[i] == iv[i + 1]);
        }
        lemma_next_start(u);
        assert(u[0] == start && r[0] == end);
        assert(r.remove(0) =~= bounds_of(t)) by {
            assert forall|i: int| 0 <= i < bounds_of(t).len() implies r.remove(0)[i]
                == #[trigger] bounds_of(t)[i] by {
                assert(t[i / 2] == iv[i / 2 + 1]);
                assert((i + 2) / 2 == i / 2 + 1);
            }
        }
        lemma_blocks_ordered(t, ip);
        let last = block_end(start, end).unwrap();
        assert(last == be::be_bytes((be::be_value(end.key) - 1) as nat, end.key.len()));
        assert(shown(iv) =~= seq![joined(start, end, last)] + shown(t)) by {
            assert forall|i: int| 0 < i < iv.len() implies #[trigger] shown(iv)[i] == shown(
                t,
            )[i - 1] by {
                assert(t[i - 1] == iv[i]);
            }
        }
        if inside(t, ip) {
            let i = choose|i: int|
                0 <= i < t.len() && be::lex_le((#[trigger] t[i]).0.key, ip) && be::lex_lt(
                    ip,
                    t[i].1.key,
                );
            assert(t[i] == iv[i + 1]);
        }
        if inside(iv, ip) {
            let i = choose|i: int|
                0 <= i < iv.len() && be::lex_le((#[trigger] iv[i]).0.key, ip) && be::lex_lt(
                    ip,
                    iv[i].1.key,
                );
            if i > 0 {
                assert(t[i - 1] == iv[i]);
            }
        }
    }
}

/// End markers that close nothing reduce to nothing, and contain no address.
pub proof fn lemma_ends_alone(s: Seq<ElemView>, ip: Seq<u8>)
    requires
        forall|i: int| 0 <= i < s.len() ==> (#[trigger] s[i]).is_end,
    ensures
        reduced(s, true).len() == 0,
        !contains(s, true, ip),
{
    lemma_boundaries_of_bare(s);
    let u = sort::sorted(s);
    assert forall|i: int| 0 <= i < u.len() implies (#[trigger] u[i]).is_end by {
        assert(u.contains(u[i]));
        sort::lemma_sorted_contains(s, u[i]);
    }
    lemma_ends_alone_ordered(u, ip);
}

proof fn lemma_ends_alone_ordered(s: Seq<ElemView>, ip: Seq<u8>)
    requires
        forall|i: int| 0 <= i < s.len() ==> (#[trigger] s[i]).is_end,
    ensures
        decompose(s).len() == 0,
        !covers(s, ip),
    decreases s.len(),
{
    if s.len() > 0 {
        let r = s.skip(1);
        assert forall|i: int| 0 <= i < r.len() implies (#[trigger] r[i]).is_end by {
            assert(r[i] == s[i + 1]);
        }
        lemma_ends_alone_ordered(r, ip);
    }
}

/// An interval that ends where it starts contains no address.
pub proof fn lemma_empty_interval(a: ElemView, b: ElemView, ip: Seq<u8>)
    requires
        !a.is_end,
        a.key_end.len() == 0,
        b.is_end,
        a.key == b.key,
    ensures
        !contains(seq![a, b], true, ip),
{
    let s = seq![a, b];
    lemma_boundaries_of_bare(s);
    be::lemma_lex_total(a.key, b.key);
    be::lemma_lex_total(a.key, ip);
    assert(sort::is_ordered(s));
    sort::lemma_sorted_of_ordered(s);
    let r = s.skip(1);
    assert(s[0] == a && r[0] == b);
    assert(next_of(s[0], r) == 0);
    assert(r.remove(0) =~= Seq::<ElemView>::empty());
    assert(!covers(r.remove(0), ip));
    assert(covers(s, ip) == (be::lex_le(a.key, ip) && be::lex_lt(ip, b.key)));
}

spec fn bare(e: ElemView) -> ElemView {
    ElemView {
        key: e.key,
        is_end: e.is_end,
        key_end: e.key_end,
        timeout_ms: None,
        expiration_ms: None,
    }
}

spec fn bares(s: Seq<ElemView>) -> Seq<ElemView> {
    Seq::new(s.len(), |i: int| bare(s[i]))
}

proof fn lemma_bare_boundaries(s: Seq<ElemView>)
    ensures
        boundaries(bares(s)) == bares(boundaries(s)),
    decreases s.len(),
{
    if s.len() > 0 {
        lemma_bare_boundaries(s.drop_last());
        assert(bares(s).drop_last() =~= bares(s.drop_last()));
        assert(boundary_pair(bare(s.last())) =~= bares(boundary_pair(s.last())));
    }
    assert(boundaries(bares(s)) =~= bares(boundaries(s)));
}

proof fn lemma_bare_insert(s: Seq<ElemView>, e: ElemView)
    ensures
        sort::insert(bares(s), bare(e)) == bares(sort::insert(s, e)),
    decreases s.len(),
{
    if s.len() > 0 && !be::lex_le(s.last().key, e.key) {
        lemma_bare_insert(s.drop_last(), e);
        assert(bares(s).drop_last() =~= bares(s.drop_last()));
    }
    assert(sort::insert(bares(s), bare(e)) =~= bares(sort::insert(s, e)));
}

proof fn lemma_bare_sorted(s: Seq<ElemView>)
    ensures
        sort::sorted(bares(s)) == bares(sort::sorted(s)),
    decreases s.len(),
{
    if s.len() > 0 {
        lemma_bare_sorted(s.drop_last());
        assert(bares(s).drop_last() =~= bares(s.drop_last()));
        lemma_bare_insert(sort::sorted(s.drop_last()), s.last());
    }
    assert(sort::sorted(bares(s)) =~= bares(sort::sorted(s)));
}

proof fn lemma_bare_first_end(s: Seq<ElemView>, k: Seq<u8>)
    ensures
        first_end(bares(s), k) == first_end(s, k),
    decreases s.len(),
{
    if s.len() > 0 {
        lemma_bare_first_end(s.skip(1), k);
        assert(bares(s).skip(1) =~= bares(s.skip(1)));
    }
}

proof fn lemma_bare_covers(s: Seq<ElemView>, ip: Seq<u8>)
    ensures
        covers(bares(s), ip) == covers(s, ip),
        decompose(bares(s)) == bares(decompose(s)),
    decreases s.len(),
{
    let t = bares(s);
    if s.len() > 0 {
        let r = s.skip(1);
        assert(t.skip(1) =~= bares(r));
        lemma_bare_covers(r, ip);
        if s.len() > 1 && !s[0].is_end {
            let i = next_of(s[0], r);
            lemma_first_end(r, r[0].key);
            lemma_bare_first_end(r, r[0].key);
            assert(next_of(t[0], t.skip(1)) == i);
            assert(bares(r).remove(i) =~= bares(r.remove(i)));
            lemma_bare_covers(r.remove(i), ip);
            assert(bares(r)[i] == bare(r[i]));
            assert(block_end(t[0], bares(r)[i]) == block_end(s[0], r[i]));
        }
    }
    assert(decompose(t) =~= bares(decompose(s)));
}

/// Membership, and the keys of the reduced elements, do not depend on times: two sets
/// whose elements have the same keys, in the same places, contain the same addresses.
pub proof fn lemma_times_are_irrelevant(
    s: Seq<ElemView>,
    t: Seq<ElemView>,
    is_interval: bool,
    ip: Seq<u8>,
)
    requires
        s.len() == t.len(),
        forall|i: int|
            0 <= i < s.len() ==> {
                &&& (#[trigger] s[i]).key == (#[trigger] t[i]).key
                &&& s[i].is_end == t[i].is_end
                &&& s[i].key_end == t[i].key_end
            },
    ensures
        contains(s, is_interval, ip) == contains(t, is_interval, ip),
        reduced(s, is_interval).len() == reduced(t, is_interval).len(),
        forall|i: int|
            0 <= i < reduced(s, is_interval).len() ==> {
                &&& (#[trigger] reduced(s, is_interval)[i]).key == reduced(t, is_interval)[i].key
                &&& reduced(s, is_interval)[i].key_end == reduced(t, is_interval)[i].key_end
                &&& reduced(s, is_interval)[i].is_end == reduced(t, is_interval)[i].is_end
            },
{
    if is_interval {
        assert forall|i: int| 0 <= i < s.len() implies bares(s)[i] == bares(t)[i] by {
            assert(s[i].key == t[i].key);
        }
        assert(bares(s) =~= bares(t));
        lemma_bare_boundaries(s);
        lemma_bare_boundaries(t);
        let x = boundaries(s);
        let y = boundaries(t);
        lemma_bare_sorted(x);
        lemma_bare_sorted(y);
        lemma_bare_covers(sort::sorted(x), ip);
        lemma_bare_covers(sort::sorted(y), ip);
        let p = reduced(s, true);
        let q = reduced(t, true);
        assert(bares(p) == bares(q));
        assert(bares(p).len() == p.len() && bares(q).len() == q.len());
        assert forall|i: int| 0 <= i < p.len() implies {
            &&& (#[trigger] p[i]).key == q[i].key
            &&& p[i].key_end == q[i].key_end
            &&& p[i].is_end == q[i].is_end
        } by {
            assert(bares(p)[i] == bares(q)[i]);
        }
    } else {
        if contains(s, false, ip) {
            let i = choose|i: int| 0 <= i < s.len() && !(#[trigger] s[i]).is_end && s[i].key == ip;
            assert(t[i].key == ip && !t[i].is_end);
        }
        if contains(t, false, ip) {
            let i = choose|i: int| 0 <= i < t.len() && !(#[trigger] t[i]).is_end && t[i].key == ip;
            assert(s[i].key == ip && !s[i].is_end);
        }
    }
}

/// Elements that carry their upper bound, apart from each other, reduce to the intervals
/// from their key to the last one before that bound, with their own times; the set
/// contains what lies not before the key and before the bound of one of them.
pub proof fn lemma_elements_with_bounds(s: Seq<ElemView>, ip: Seq<u8>)
    requires
        forall|i: int|
            0 <= i < s.len() ==> {
                &&& !(#[trigger] s[i]).is_end
                &&& s[i].key_end.len() > 0
                &&& s[i].key_end.len() == s[i].key.len()
                &&& be::lex_lt(s[i].key, s[i].key_end)
            },
        forall|i: int, j: int|
            0 <= i < s.len() && j == i + 1 && j < s.len() ==> be::lex_le(
                (#[trigger] s[i]).key_end,
                (#[trigger] s[j]).key,
            ),
    ensures
        reduced(s, true).len() == s.len(),
        forall|i: int|
            0 <= i < s.len() ==> {
                let e = reduced(s, true)[i];
                &&& e.key == (#[trigger] s[i]).key
                &&& !e.is_end
                &&& e.key_end.len() == s[i].key_end.len()
                &&& be::be_value(e.key_end) + 1 == be::be_value(s[i].key_end)
                &&& e.timeout_ms == s[i].timeout_ms
                &&& e.expiration_ms == s[i].expiration_ms
            },
        contains(s, true, ip) <==> exists|i: int|
            0 <= i < s.len() && be::lex_le((#[trigger] s[i]).key, ip) && be::lex_lt(
                ip,
                s[i].key_end,
            ),
{
    let iv = split(s);
    assert forall|i: int| 0 <= i < iv.len() implies {
        let (start, end) = #[trigger] iv[i];
        &&& !start.is_end
        &&& end.is_end
        &&& start.key.len() == end.key.len()
        &&& be::lex_lt(start.key, end.key)
    } by {
        assert(s[i].key_end.len() > 0);
    }
    assert forall|i: int, j: int|
        0 <= i < iv.len() && j == i + 1 && j < iv.len() implies be::lex_le(
        (#[trigger] iv[i]).1.key,
        (#[trigger] iv[j]).0.key,
    ) by {
        assert(be::lex_le(s[i].key_end, s[j].key));
    }
    lemma_split(s);
    let none = Seq::<ElemView>::empty();
    assert(none + bounds_of(iv) =~= bounds_of(iv));
    lemma_intervals_reduce(s, none, iv, ip);
    assert forall|i: int| 0 <= i < s.len() implies {
        let e = reduced(s, true)[i];
        &&& e.key == (#[trigger] s[i]).key
        &&& !e.is_end
        &&& e.key_end.len() == s[i].key_end.len()
        &&& be::be_value(e.key_end) + 1 == be::be_value(s[i].key_end)
        &&& e.timeout_ms == s[i].timeout_ms
        &&& e.expiration_ms == s[i].expiration_ms
    } by {
        let (start, end) = iv[i];
        assert(start.key == s[i].key && end.key == s[i].key_end);
        assert(start.timeout_ms == s[i].timeout_ms && end.timeout_ms == s[i].timeout_ms);
    }
    if inside(iv, ip) {
        let i = choose|i: int|
            0 <= i < iv.len() && be::lex_le((#[trigger] iv[i]).0.key, ip) && be::lex_lt(
                ip,
                iv[i].1.key,
            );
        assert(be::lex_le(s[i].key, ip));
    }
    if exists|i: int|
        0 <= i < s.len() && be::lex_le((#[trigger] s[i]).key, ip) && be::lex_lt(ip, s[i].key_end) {
        let i = choose|i: int|
            0 <= i < s.len() && be::lex_le((#[trigger] s[i]).key, ip) && be::lex_lt(
                ip,
                s[i].key_end,
            );
        assert(be::lex_le(iv[i].0.key, ip));
    }
}

spec fn split(s: Seq<ElemView>) -> Seq<(ElemView, ElemView)> {
    Seq::new(
        s.len(),
        |i: int|
            (
                ElemView { key_end: Seq::empty(), ..s[i] },
                ElemView { key: s[i].key_end, is_end: true, key_end: Seq::empty(), ..s[i] },
            ),
    )
}

proof fn lemma_split(s: Seq<ElemView>)
    requires
        forall|i: int| 0 <= i < s.len() ==> !(#[trigger] s[i]).is_end && s[i].key_end.len() > 0,
    ensures
        boundaries(s) == bounds_of(split(s)),
    decreases s.len(),
{
    if s.len() > 0 {
        let t = s.drop_last();
        assert forall|i: int| 0 <= i < t.len() implies !(#[trigger] t[i]).is_end
            && t[i].key_end.len() > 0 by {
            assert(t[i] == s[i]);
        }
        lemma_split(t);
        assert(!s[s.len() - 1].is_end);
        let b = bounds_of(split(s));
        assert forall|i: int| 0 <= i < b.len() implies boundaries(s)[i] == #[trigger] b[i] by {
            if i < 2 * t.len() {
                assert(bounds_of(split(t))[i] == b[i]);
            }
        }
        assert(boundaries(s) =~= b);
    } else {
        assert(boundaries(s) =~= bounds_of(split(s)));
    }
}

/// Boundary elements in their order: each item is a start on its own, or a start and
/// what closes it.
pub open spec fn row(items: Seq<(ElemView, Option<ElemView>)>) -> Seq<ElemView>
    decreases items.len(),
{
    if items.len() == 0 {
        Seq::empty()
    } else {
        (match items[0].1 {
            Some(b) => seq![items[0].0, b],
            None => seq![items[0].0],
        }) + row(items.skip(1))
    }
}

/// Whether `items` are in the order of their keys: what closes a start lies behind it,
/// and is an end marker, or makes a block with it; a start on its own makes no block with
/// the next; and only an end marker may share its key with the next start.
pub open spec fn row_apart(items: Seq<(ElemView, Option<ElemView>)>) -> bool {
    &&& forall|i: int|
        0 <= i < items.len() ==> {
            let (a, b) = #[trigger] items[i];
            &&& !a.is_end
            &&& a.key_end.len() == 0
            &&& b matches Some(c) ==> {
                &&& c.key.len() == a.key.len()
                &&& be::lex_lt(a.key, c.key)
                &&& c.is_end || c.key_end.len() == 0 && block_end(a, c) is Some
            }
        }
    &&& forall|i: int, j: int|
        0 <= i < items.len() && j == i + 1 && j < items.len() ==> {
            let (a, b) = #[trigger] items[i];
            let next = (#[trigger] items[j]).0;
            match b {
                None => be::lex_lt(a.key, next.key) && block_end(a, next) is None,
                Some(c) => if c.is_end {
                    be::lex_le(c.key, next.key)
                } else {
                    be::lex_lt(c.key, next.key)
                },
            }
        }
}

proof fn lemma_row_skip(items: Seq<(ElemView, Option<ElemView>)>)
    requires
        row_apart(items),
        items.len() > 0,
    ensures
        row_apart(items.skip(1)),
{
    let t = items.skip(1);
    assert forall|i: int| 0 <= i < t.len() implies {
        let (a, b) = #[trigger] t[i];
        &&& !a.is_end
        &&& a.key_end.len() == 0
        &&& b matches Some(c) ==> {
            &&& c.key.len() == a.key.len()
            &&& be::lex_lt(a.key, c.key)
            &&& c.is_end || c.key_end.len() == 0 && block_end(a, c) is Some
        }
    } by {
        assert(t[i] == items[i + 1]);
    }
    assert forall|i: int, j: int| 0 <= i < t.len() && j == i + 1 && j < t.len() implies {
        let (a, b) = #[trigger] t[i];
        let next = (#[trigger] t[j]).0;
        match b {
            None => be::lex_lt(a.key, next.key) && block_end(a, next) is None,
            Some(c) => if c.is_end {
                be::lex_le(c.key, next.key)
            } else {
                be::lex_lt(c.key, next.key)
            },
        }
    } by {
        assert(t[i] == items[i + 1] && t[j] == items[j + 1]);
    }
}

proof fn lemma_row_ordered(items: Seq<(ElemView, Option<ElemView>)>)
    requires
        row_apart(items),
    ensures
        sort::is_ordered(row(items)),
        items.len() > 0 ==> row(items).len() > 0 && row(items)[0] == items[0].0,
        forall|i: int|
            0 <= i < row(items).len() ==> (#[trigger] row(items)[i]).is_end || row(
                items,
            )[i].key_end.len() == 0,
    decreases items.len(),
{
    if items.len() > 0 {
        let t = items.skip(1);
        let (a, b) = items[0];
        let front = match b {
            Some(c) => seq![a, c],
            None => seq![a],
        };
        let r = row(items);
        lemma_row_skip(items);
        lemma_row_ordered(t);
        assert(r =~= front + row(t));
        assert(r[0] == a);
        if t.len() > 0 {
            assert(t[0] == items[1]);
            assert(row(t)[0] == items[1].0);
            be::lemma_lex_total(front.last().key, items[1].0.key);
        }
        be::lemma_lex_total(a.key, front.last().key);
        be::lemma_lex_total(a.key, a.key);
        be::lemma_lex_total(front.last().key, front.last().key);
        assert forall|j: int| front.len() <= j < r.len() implies be::lex_le(
            front.last().key,
            (#[trigger] r[j]).key,
        ) && be::lex_le(a.key, r[j].key) by {
            let k = j - front.len();
            assert(r[j] == row(t)[k]);
            assert(t.len() > 0);
            assert(be::lex_le(row(t)[0].key, row(t)[k].key));
            be::lemma_lex_transitive(front.last().key, row(t)[0].key, r[j].key);
            be::lemma_lex_transitive(a.key, front.last().key, r[j].key);
        }
        assert forall|i: int, j: int| 0 <= i <= j < r.len() implies be::lex_le(
            #[trigger] r[i].key,
            #[trigger] r[j].key,
        ) by {
            if i >= front.len() {
                assert(r[i] == row(t)[i - front.len()] && r[j] == row(t)[j - front.len()]);
            } else if j < front.len() {
                assert(r[i] == front[i] && r[j] == front[j]);
            } else {
                assert(r[i] == front[i]);
            }
        }
        assert forall|i: int| 0 <= i < r.len() implies (#[trigger] r[i]).is_end
            || r[i].key_end.len() == 0 by {
            if i >= front.len() {
                assert(r[i] == row(t)[i - front.len()]);
            }
        }
    }
}

/// The element that shows an item.
spec fn shown_item(item: (ElemView, Option<ElemView>)) -> ElemView {
    match item.1 {
        None => item.0,
        Some(c) => joined(
            item.0,
            c,
            be::be_bytes((be::be_value(c.key) - 1) as nat, c.key.len()),
        ),
    }
}

spec fn in_item(item: (ElemView, Option<ElemView>), ip: Seq<u8>) -> bool {
    match item.1 {
        None => item.0.key == ip,
        Some(c) => be::lex_le(item.0.key, ip) && be::lex_lt(ip, c.key),
    }
}

proof fn lemma_row_decompose(items: Seq<(ElemView, Option<ElemView>)>, ip: Seq<u8>)
    requires
        row_apart(items),
    ensures
        decompose(row(items)) == Seq::new(items.len(), |i: int| shown_item(items[i])),
        covers(row(items), ip) <==> exists|i: int|
            0 <= i < items.len() && in_item(#[trigger] items[i], ip),
    decreases items.len(),
{
    let u = row(items);
    let all = Seq::new(items.len(), |i: int| shown_item(items[i]));
    if items.len() == 0 {
        assert(decompose(u) =~= all);
    } else {
        let t = items.skip(1);
        let (a, b) = items[0];
        let front = match b {
            Some(c) => seq![a, c],
            None => seq![a],
        };
        let rest = Seq::new(t.len(), |i: int| shown_item(t[i]));
        lemma_row_skip(items);
        lemma_row_ordered(items);
        lemma_row_ordered(t);
        lemma_row_decompose(t, ip);
        assert(u =~= front + row(t));
        assert(u[0] == a);
        assert(all =~= seq![shown_item(items[0])] + rest) by {
            assert forall|i: int| 0 < i < items.len() implies #[trigger] all[i] == rest[i - 1] by {
                assert(t[i - 1] == items[i]);
            }
        }
        let r = u.skip(1);
        if let Some(c) = b {
            assert(r[0] == c);
            be::lemma_lex_total(a.key, c.key);
            assert(next_of(a, r) == 0) by {
                if !c.is_end {
                    lemma_first_end(r, c.key);
                    if let Some(i) = first_end(r, c.key) {
                        assert(r[1].key == c.key);
                        assert(r[1] == row(t)[0]);
                        assert(t.len() > 0);
                        assert(t[0] == items[1]);
                        assert(be::lex_lt(c.key, items[1].0.key));
                        be::lemma_lex_total(c.key, c.key);
                    }
                }
            }
            assert(r.remove(0) =~= row(t));
            be::lemma_lex_is_numeric(a.key, c.key);
            be::lemma_be_value_extremes(c.key);
        } else if t.len() > 0 {
            let next = items[1].0;
            assert(t[0] == items[1]);
            assert(r =~= row(t));
            assert(r[0] == next);
            be::lemma_lex_total(a.key, next.key);
            assert(next_of(a, r) == 0) by {
                lemma_first_end(r, next.key);
                if let Some(i) = first_end(r, next.key) {
                    assert(r[1].key == next.key);
                    assert(row(t).len() > 1);
                    lemma_row_second(t);
                    be::lemma_lex_total(next.key, next.key);
                }
            }
        } else {
            assert(r =~= Seq::<ElemView>::empty());
            assert(u =~= seq![a]);
            assert(all =~= seq![a]);
        }
        assert(decompose(u) =~= all);
        if exists|i: int| 0 <= i < items.len() && in_item(#[trigger] items[i], ip) {
            let i = choose|i: int| 0 <= i < items.len() && in_item(#[trigger] items[i], ip);
            if i > 0 {
                assert(t[i - 1] == items[i]);
                assert(in_item(t[i - 1], ip));
            }
        }
        if exists|i: int| 0 <= i < t.len() && in_item(#[trigger] t[i], ip) {
            let i = choose|i: int| 0 <= i < t.len() && in_item(#[trigger] t[i], ip);
            assert(t[i] == items[i + 1]);
            assert(in_item(items[i + 1], ip));
        }
        assert(in_item(items[0], ip) == match b {
            None => a.key == ip,
            Some(c) => be::lex_le(a.key, ip) && be::lex_lt(ip, c.key),
        });
    }
}

/// The second element of a row lies behind the first.
proof fn lemma_row_second(items: Seq<(ElemView, Option<ElemView>)>)
    requires
        row_apart(items),
        items.len() > 0,
        row(items).len() > 1,
    ensures
        be::lex_lt(row(items)[0].key, row(items)[1].key),
{
    let t = items.skip(1);
    let (a, b) = items[0];
    lemma_row_skip(items);
    lemma_row_ordered(t);
    if b is None {
        assert(row(items) =~= seq![a] + row(t));
        assert(row(items)[1] == row(t)[0]);
        assert(t.len() > 0);
        assert(t[0] == items[1]);
    }
}

/// An interval set whose elements are starts on their own, blocks that the next start
/// closes, and intervals that end markers close, in any mixture, reduces to one element
/// for each of these: a start on its own as it is, any other from its first to its last
/// key, with the times of its start, or else of what closes it. The set contains just the
/// starts on their own and what lies in the others.
pub proof fn lemma_mixed_row(items: Seq<(ElemView, Option<ElemView>)>, ip: Seq<u8>)
    requires
        row_apart(items),
    ensures
        reduced(row(items), true).len() == items.len(),
        forall|i: int|
            0 <= i < items.len() ==> {
                let e = reduced(row(items), true)[i];
                let (start, closing) = #[trigger] items[i];
                &&& closing is None ==> e == start
                &&& closing matches Some(end) ==> {
                    &&& e.key == start.key
                    &&& !e.is_end
                    &&& e.key_end.len() == end.key.len()
                    &&& be::be_value(e.key_end) + 1 == be::be_value(end.key)
                    &&& e.timeout_ms == if start.timeout_ms is Some {
                        start.timeout_ms
                    } else {
                        end.timeout_ms
                    }
                    &&& e.expiration_ms == if start.expiration_ms is Some {
                        start.expiration_ms
                    } else {
                        end.expiration_ms
                    }
                }
            },
        contains(row(items), true, ip) <==> exists|i: int|
            0 <= i < items.len() && match (#[trigger] items[i]).1 {
                None => items[i].0.key == ip,
                Some(end) => be::lex_le(items[i].0.key, ip) && be::lex_lt(ip, end.key),
            },
{
    lemma_row_ordered(items);
    lemma_boundaries_of_bare(row(items));
    sort::lemma_sorted_of_ordered(row(items));
    lemma_row_decompose(items, ip);
    assert forall|i: int| 0 <= i < items.len() implies {
        let e = reduced(row(items), true)[i];
        (#[trigger] items[i]).1 matches Some(end) ==> {
            &&& e.key_end.len() == end.key.len()
            &&& be::be_value(e.key_end) + 1 == be::be_value(end.key)
        }
    } by {
        if let Some(end) = items[i].1 {
            be::lemma_lex_is_numeric(items[i].0.key, end.key);
            be::lemma_be_value_bound(end.key);
            be::lemma_be_value_of_bytes((be::be_value(end.key) - 1) as nat, end.key.len());
        }
    }
    if contains(row(items), true, ip) {
        let i = choose|i: int| 0 <= i < items.len() && in_item(#[trigger] items[i], ip);
        assert(match items[i].1 {
            None => items[i].0.key == ip,
            Some(end) => be::lex_le(items[i].0.key, ip) && be::lex_lt(ip, end.key),
        });
    }
    if exists|i: int|
        0 <= i < items.len() && match (#[trigger] items[i]).1 {
            None => items[i].0.key == ip,
            Some(end) => be::lex_le(items[i].0.key, ip) && be::lex_lt(ip, end.key),
        } {
        let i = choose|i: int|
            0 <= i < items.len() && match (#[trigger] items[i]).1 {
                None => items[i].0.key == ip,
                Some(end) => be::lex_le(items[i].0.key, ip) && be::lex_lt(ip, end.key),
            };
        assert(in_item(items[i], ip));
    }
}

} // verus!
