//! Stable sorting of elements by key.

use crate::be;
use crate::be::lex_less;
use crate::elem;
use crate::elem::{Elem, ElemView};
use vstd::prelude::*;

verus! {

/// Puts `e` behind every element of `s` whose key does not come after that of `e`.
pub open spec fn insert(s: Seq<ElemView>, e: ElemView) -> Seq<ElemView>
    decreases s.len(),
{
    if s.len() == 0 || be::lex_le(s.last().key, e.key) {
        s.push(e)
    } else {
        insert(s.drop_last(), e).push(s.last())
    }
}

/// The elements of `s` in the order of their keys; elements with one key keep
/// the order that they have in `s`.
pub open spec fn sorted(s: Seq<ElemView>) -> Seq<ElemView>
    decreases s.len(),
{
    if s.len() == 0 {
        s
    } else {
        insert(sorted(s.drop_last()), s.last())
    }
}

/// The elements of two lists as one, taking the last of either list last;
/// where the keys tie, that of `b`.
pub open spec fn merged(a: Seq<ElemView>, b: Seq<ElemView>) -> Seq<ElemView>
    decreases a.len() + b.len(),
{
    if a.len() == 0 {
        b
    } else if b.len() == 0 {
        a
    } else if be::lex_le(a.last().key, b.last().key) {
        merged(a, b.drop_last()).push(b.last())
    } else {
        merged(a.drop_last(), b).push(a.last())
    }
}

proof fn lemma_merged_insert(a: Seq<ElemView>, b: Seq<ElemView>, e: ElemView)
    ensures
        merged(a, insert(b, e)) == insert(merged(a, b), e),
    decreases a.len() + b.len(),
{
    let c = insert(b, e);
    if a.len() == 0 {
    } else if b.len() == 0 {
        assert(c.drop_last() =~= b);
        if be::lex_le(a.last().key, e.key) {
        } else {
            lemma_merged_insert(a.drop_last(), b, e);
            assert(merged(a, b) == a);
            assert(merged(a.drop_last(), b) == a.drop_last());
        }
    } else {
        let x = a.last().key;
        let y = b.last().key;
        let z = e.key;
        be::lemma_lex_total(x, y);
        be::lemma_lex_total(y, z);
        be::lemma_lex_total(x, z);
        let m = merged(a, b);
        if be::lex_le(y, z) {
            assert(c == b.push(e));
            assert(c.drop_last() =~= b);
            if be::lex_le(x, z) {
            } else {
                if be::lex_le(x, y) {
                    be::lemma_lex_transitive(x, y, z);
                }
                lemma_merged_insert(a.drop_last(), b, e);
                assert(m.drop_last() =~= merged(a.drop_last(), b));
            }
        } else {
            assert(c.drop_last() =~= insert(b.drop_last(), e));
            if be::lex_le(x, y) {
                lemma_merged_insert(a, b.drop_last(), e);
                assert(m.drop_last() =~= merged(a, b.drop_last()));
            } else {
                if be::lex_le(x, z) {
                    be::lemma_lex_transitive(y, x, z);
                }
                lemma_merged_insert(a.drop_last(), b, e);
                assert(m.drop_last() =~= merged(a.drop_last(), b));
            }
        }
    }
}

/// Sorting a list is merging its two parts, each sorted.
proof fn lemma_sorted_concat(a: Seq<ElemView>, b: Seq<ElemView>)
    ensures
        sorted(a + b) == merged(sorted(a), sorted(b)),
    decreases b.len(),
{
    if b.len() == 0 {
        assert(a + b =~= a);
    } else {
        assert((a + b).drop_last() =~= a + b.drop_last());
        lemma_sorted_concat(a, b.drop_last());
        lemma_merged_insert(sorted(a), sorted(b.drop_last()), b.last());
    }
}

/// Whether the keys of `s` never go down.
pub open spec fn is_ordered(s: Seq<ElemView>) -> bool {
    forall|i: int, j: int| 0 <= i <= j < s.len() ==> be::lex_le(#[trigger] s[i].key, #[trigger] s[j].key)
}

proof fn lemma_insert(s: Seq<ElemView>, e: ElemView)
    ensures
        insert(s, e).to_multiset() == s.to_multiset().insert(e),
        is_ordered(s) ==> is_ordered(insert(s, e)),
        forall|k: Seq<u8>| #[trigger] with_key(insert(s, e), k) == with_key(s.push(e), k),
        forall|x: ElemView| #[trigger] insert(s, e).contains(x) ==> x == e || s.contains(x),
    decreases s.len(),
{
    broadcast use vstd::seq_lib::group_to_multiset_ensures;

    let r = insert(s, e);
    if s.len() == 0 || be::lex_le(s.last().key, e.key) {
        if is_ordered(s) {
            assert forall|i: int, j: int| 0 <= i <= j < r.len() implies be::lex_le(
                #[trigger] r[i].key,
                #[trigger] r[j].key,
            ) by {
                if i == j {
                    be::lemma_lex_total(r[i].key, r[j].key);
                } else if j == s.len() {
                    assert(be::lex_le(s[i].key, s[s.len() - 1].key));
                    be::lemma_lex_transitive(s[i].key, s.last().key, e.key);
                } else {
                    assert(be::lex_le(s[i].key, s[j].key));
                }
            }
        }
    } else {
        let t = s.drop_last();
        let last = s.last();
        let q = insert(t, e);
        lemma_insert(t, e);
        assert(s =~= t.push(last));
        be::lemma_lex_total(last.key, e.key);
        if is_ordered(s) {
            assert forall|i: int, j: int| 0 <= i <= j < t.len() implies be::lex_le(
                #[trigger] t[i].key,
                #[trigger] t[j].key,
            ) by {
                assert(be::lex_le(s[i].key, s[j].key));
            }
            assert forall|i: int, j: int| 0 <= i <= j < r.len() implies be::lex_le(
                #[trigger] r[i].key,
                #[trigger] r[j].key,
            ) by {
                if i == j {
                    be::lemma_lex_total(r[i].key, r[j].key);
                } else if j == q.len() {
                    assert(q.contains(q[i]));
                    if q[i] != e {
                        let k = choose|k: int| 0 <= k < t.len() && t[k] == q[i];
                        assert(be::lex_le(s[k].key, s[s.len() - 1].key));
                    }
                } else {
                    assert(be::lex_le(q[i].key, q[j].key));
                }
            }
        }
        assert forall|k: Seq<u8>| #[trigger] with_key(r, k) == with_key(s.push(e), k) by {
            lemma_with_key_push(q, last, k);
            lemma_with_key_push(t, last, k);
            lemma_with_key_push(s, e, k);
            lemma_with_key_push(t, e, k);
            assert(with_key(q, k) == with_key(t.push(e), k));
        }
        assert forall|x: ElemView| #[trigger] r.contains(x) implies x == e || s.contains(x) by {
            let i = choose|i: int| 0 <= i < r.len() && r[i] == x;
            if i < q.len() {
                assert(q.contains(q[i]));
                if x != e {
                    let k = choose|k: int| 0 <= k < t.len() && t[k] == x;
                    assert(s[k] == x);
                }
            } else {
                assert(s[s.len() - 1] == x);
            }
        }
    }
}

/// The elements of `s` with key `k`, in their order.
pub open spec fn with_key(s: Seq<ElemView>, k: Seq<u8>) -> Seq<ElemView>
    decreases s.len(),
{
    if s.len() == 0 {
        s
    } else if s.last().key == k {
        with_key(s.drop_last(), k).push(s.last())
    } else {
        with_key(s.drop_last(), k)
    }
}

proof fn lemma_with_key_push(s: Seq<ElemView>, e: ElemView, k: Seq<u8>)
    ensures
        with_key(s.push(e), k) == if e.key == k {
            with_key(s, k).push(e)
        } else {
            with_key(s, k)
        },
{
    assert(s.push(e).drop_last() =~= s);
}

/// Sorting orders the elements by key, keeps each of them, and keeps the order
/// of those that share a key.
pub proof fn lemma_sorted_is_stable_sort(s: Seq<ElemView>)
    ensures
        is_ordered(sorted(s)),
        sorted(s).to_multiset() == s.to_multiset(),
        forall|k: Seq<u8>| #[trigger] with_key(sorted(s), k) == with_key(s, k),
    decreases s.len(),
{
    broadcast use vstd::seq_lib::group_to_multiset_ensures;

    if s.len() > 0 {
        let t = s.drop_last();
        lemma_sorted_is_stable_sort(t);
        lemma_insert(sorted(t), s.last());
        assert(s =~= t.push(s.last()));
        assert forall|k: Seq<u8>| #[trigger] with_key(sorted(s), k) == with_key(s, k) by {
            lemma_with_key_push(sorted(t), s.last(), k);
            lemma_with_key_push(t, s.last(), k);
            assert(with_key(sorted(t), k) == with_key(t, k));
        }
    }
}

/// Sorting adds no element.
pub proof fn lemma_sorted_contains(s: Seq<ElemView>, x: ElemView)
    requires
        sorted(s).contains(x),
    ensures
        s.contains(x),
    decreases s.len(),
{
    if s.len() > 0 {
        let t = s.drop_last();
        lemma_insert(sorted(t), s.last());
        if x == s.last() {
            assert(s[s.len() - 1] == x);
        } else {
            lemma_sorted_contains(t, x);
            let i = choose|i: int| 0 <= i < t.len() && t[i] == x;
            assert(s[i] == x);
        }
    }
}

/// A key with elements is the key of one of them.
proof fn lemma_with_key_found(s: Seq<ElemView>, k: Seq<u8>)
    requires
        with_key(s, k).len() > 0,
    ensures
        exists|i: int| 0 <= i < s.len() && #[trigger] s[i].key == k,
    decreases s.len(),
{
    if s.len() > 0 {
        if s.last().key == k {
            assert(s[s.len() - 1].key == k);
        } else {
            lemma_with_key_found(s.drop_last(), k);
            let i = choose|i: int|
                0 <= i < s.drop_last().len() && #[trigger] s.drop_last()[i].key == k;
            assert(s[i].key == k);
        }
    }
}

/// Two ordered lists that agree on the elements of each key are the same.
proof fn lemma_ordered_unique(a: Seq<ElemView>, b: Seq<ElemView>)
    requires
        is_ordered(a),
        is_ordered(b),
        forall|k: Seq<u8>| #[trigger] with_key(a, k) == with_key(b, k),
    ensures
        a == b,
    decreases a.len(),
{
    if a.len() == 0 {
        if b.len() > 0 {
            assert(with_key(a, b.last().key) == with_key(b, b.last().key));
        }
        assert(a =~= b);
    } else {
        let x = a.last();
        assert(with_key(a, x.key) == with_key(b, x.key));
        lemma_with_key_found(b, x.key);
        let i = choose|i: int| 0 <= i < b.len() && #[trigger] b[i].key == x.key;
        let y = b.last();
        assert(with_key(a, y.key) == with_key(b, y.key));
        lemma_with_key_found(a, y.key);
        let j = choose|j: int| 0 <= j < a.len() && #[trigger] a[j].key == y.key;
        assert(be::lex_le(b[i].key, b[b.len() - 1].key));
        assert(be::lex_le(a[j].key, a[a.len() - 1].key));
        be::lemma_lex_total(x.key, y.key);
        assert(with_key(a, x.key).last() == x);
        assert(with_key(b, x.key).last() == y);
        let c = a.drop_last();
        let d = b.drop_last();
        assert forall|i: int, j: int| 0 <= i <= j < c.len() implies be::lex_le(
            #[trigger] c[i].key,
            #[trigger] c[j].key,
        ) by {
            assert(be::lex_le(a[i].key, a[j].key));
        }
        assert forall|i: int, j: int| 0 <= i <= j < d.len() implies be::lex_le(
            #[trigger] d[i].key,
            #[trigger] d[j].key,
        ) by {
            assert(be::lex_le(b[i].key, b[j].key));
        }
        assert forall|k: Seq<u8>| #[trigger] with_key(c, k) == with_key(d, k) by {
            assert(with_key(a, k) == with_key(b, k));
            if k == x.key {
                assert(with_key(c, k) =~= with_key(a, k).drop_last());
                assert(with_key(d, k) =~= with_key(b, k).drop_last());
            }
        }
        lemma_ordered_unique(c, d);
        assert(a =~= c.push(x));
        assert(b =~= d.push(y));
    }
}

/// Lists sort alike exactly if they have, for each key, the same elements in
/// the same order.
pub proof fn lemma_sorts_alike(s: Seq<ElemView>, t: Seq<ElemView>)
    ensures
        sorted(s) == sorted(t) <==> forall|k: Seq<u8>| #[trigger] with_key(s, k) == with_key(t, k),
{
    lemma_sorted_is_stable_sort(s);
    lemma_sorted_is_stable_sort(t);
    if sorted(s) == sorted(t) {
        assert forall|k: Seq<u8>| #[trigger] with_key(s, k) == with_key(t, k) by {
            assert(with_key(sorted(s), k) == with_key(sorted(t), k));
        }
    }
    if forall|k: Seq<u8>| #[trigger] with_key(s, k) == with_key(t, k) {
        assert forall|k: Seq<u8>| #[trigger] with_key(sorted(s), k) == with_key(sorted(t), k) by {
            assert(with_key(s, k) == with_key(t, k));
        }
        lemma_ordered_unique(sorted(s), sorted(t));
    }
}

/// What is in order stays as it is.
pub proof fn lemma_sorted_of_ordered(s: Seq<ElemView>)
    requires
        is_ordered(s),
    ensures
        sorted(s) == s,
{
    lemma_sorted_is_stable_sort(s);
    lemma_ordered_unique(sorted(s), s);
}

/// Merges two lists, each sorted by key; where keys tie, those of `a` come first.
fn merge(a: Vec<Elem>, b: Vec<Elem>) -> (r: Vec<Elem>)
    ensures
        elem::views(r@) == merged(elem::views(a@), elem::views(b@)),
{
    let mut a = a;
    let mut b = b;
    let ghost whole = merged(elem::views(a@), elem::views(b@));
    let mut rev: Vec<Elem> = Vec::new();
    assert(elem::views(rev@).reverse() =~= Seq::<ElemView>::empty());
    while a.len() > 0 && b.len() > 0
        invariant
            whole == merged(elem::views(a@), elem::views(b@)) + elem::views(rev@).reverse(),
        decreases a.len() + b.len(),
    {
        let ghost va = elem::views(a@);
        let ghost vb = elem::views(b@);
        let ghost vr = elem::views(rev@);
        if lex_less(b[b.len() - 1].key.as_slice(), a[a.len() - 1].key.as_slice()) {
            if let Some(x) = a.pop() {
                rev.push(x);
                proof {
                    assert(elem::views(a@) =~= va.drop_last());
                    assert(elem::views(rev@) =~= vr.push(va.last()));
                    assert(elem::views(rev@).reverse() =~= seq![va.last()] + vr.reverse());
                }
            }
        } else {
            if let Some(x) = b.pop() {
                rev.push(x);
                proof {
                    assert(elem::views(b@) =~= vb.drop_last());
                    assert(elem::views(rev@) =~= vr.push(vb.last()));
                    assert(elem::views(rev@).reverse() =~= seq![vb.last()] + vr.reverse());
                }
            }
        }
        assert(whole =~= merged(elem::views(a@), elem::views(b@)) + elem::views(rev@).reverse());
    }
    let mut out = if a.len() == 0 {
        b
    } else {
        a
    };
    while rev.len() > 0
        invariant
            whole == elem::views(out@) + elem::views(rev@).reverse(),
        decreases rev.len(),
    {
        let ghost vo = elem::views(out@);
        let ghost vr = elem::views(rev@);
        if let Some(x) = rev.pop() {
            out.push(x);
            proof {
                assert(elem::views(rev@) =~= vr.drop_last());
                assert(elem::views(out@) =~= vo.push(vr.last()));
                assert(vr.reverse() =~= seq![vr.last()] + vr.drop_last().reverse());
                assert(whole =~= elem::views(out@) + elem::views(rev@).reverse());
            }
        }
    }
    assert(whole =~= elem::views(out@));
    out
}

/// Sorts elements by key; elements with one key keep their order.
pub fn sort_by_key(v: Vec<Elem>) -> (r: Vec<Elem>)
    ensures
        elem::views(r@) == sorted(elem::views(v@)),
    decreases v.len(),
{
    let n = v.len();
    if n < 2 {
        proof {
            let s = elem::views(v@);
            if n == 1 {
                assert(s.drop_last() =~= Seq::<ElemView>::empty());
                assert(sorted(s.drop_last()) =~= Seq::<ElemView>::empty());
                assert(sorted(s) =~= s);
            }
        }
        return v;
    }
    let mut left = v;
    let right = left.split_off(n / 2);
    proof {
        assert(elem::views(v@) =~= elem::views(left@) + elem::views(right@));
        lemma_sorted_concat(elem::views(left@), elem::views(right@));
    }
    merge(sort_by_key(left), sort_by_key(right))
}

} // verus!
