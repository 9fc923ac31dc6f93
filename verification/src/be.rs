//! Unsigned numbers held as big-endian byte strings, and the byte order of keys.

use vstd::prelude::*;
use vstd::arithmetic::div_mod::*;
use vstd::arithmetic::mul::*;
use vstd::arithmetic::power2::*;

verus! {

/// The number that a byte string spells, most significant byte first.
pub open spec fn be_value(s: Seq<u8>) -> nat
    decreases s.len(),
{
    if s.len() == 0 {
        0
    } else {
        be_value(s.drop_last()) * 256 + s.last() as nat
    }
}

/// The low `n` bytes of `v`, most significant byte first.
pub open spec fn be_bytes(v: nat, n: nat) -> Seq<u8>
    decreases n,
{
    if n == 0 {
        Seq::empty()
    } else {
        be_bytes(v / 256, (n - 1) as nat).push((v % 256) as u8)
    }
}

/// Whether `a` comes before `b` in dictionary order of bytes.
pub open spec fn lex_lt(a: Seq<u8>, b: Seq<u8>) -> bool
    decreases a.len(),
{
    if b.len() == 0 {
        false
    } else if a.len() == 0 {
        true
    } else if a[0] != b[0] {
        a[0] < b[0]
    } else {
        lex_lt(a.drop_first(), b.drop_first())
    }
}

/// Whether `a` comes before `b` in dictionary order of bytes, or equals it.
pub open spec fn lex_le(a: Seq<u8>, b: Seq<u8>) -> bool {
    !lex_lt(b, a)
}

/// `n` more bytes make room for `256` to the power `n` times as many numbers.
pub proof fn lemma_pow2_bytes(n: nat)
    ensures
        pow2(8 * (n + 1)) == pow2(8 * n) * 256,
        pow2(8 * n) > 0,
{
    lemma_pow2_adds(8 * n, 8);
    lemma2_to64();
    lemma_pow2_pos(8 * n);
}

/// A byte string spells a number below `2` to the power of its width in bits.
pub proof fn lemma_be_value_bound(s: Seq<u8>)
    ensures
        be_value(s) < pow2(8 * s.len()),
    decreases s.len(),
{
    if s.len() == 0 {
        lemma2_to64();
    } else {
        lemma_be_value_bound(s.drop_last());
        lemma_pow2_bytes(s.drop_last().len());
    }
}

/// `be_bytes` gives strings of the asked length.
pub proof fn lemma_be_bytes_len(v: nat, n: nat)
    ensures
        be_bytes(v, n).len() == n,
    decreases n,
{
    if n > 0 {
        lemma_be_bytes_len(v / 256, (n - 1) as nat);
    }
}

/// A number that fits survives being written as bytes and read back.
pub proof fn lemma_be_value_of_bytes(v: nat, n: nat)
    requires
        v < pow2(8 * n),
    ensures
        be_bytes(v, n).len() == n,
        be_value(be_bytes(v, n)) == v,
    decreases n,
{
    if n == 0 {
        lemma2_to64();
    } else {
        let m = (n - 1) as nat;
        lemma_pow2_bytes(m);
        assert(v / 256 < pow2(8 * m));
        lemma_be_value_of_bytes(v / 256, m);
        let s = be_bytes(v, n);
        assert(s.drop_last() =~= be_bytes(v / 256, m));
        assert(s.last() == (v % 256) as u8);
    }
}

/// A byte string survives being read as a number and written back.
pub proof fn lemma_be_bytes_of_value(s: Seq<u8>)
    ensures
        be_bytes(be_value(s), s.len()) == s,
    decreases s.len(),
{
    if s.len() > 0 {
        let v = be_value(s);
        assert(v / 256 == be_value(s.drop_last()));
        assert(v % 256 == s.last() as nat);
        lemma_be_bytes_of_value(s.drop_last());
        assert(s =~= s.drop_last().push(s.last()));
    } else {
        assert(s =~= Seq::empty());
    }
}

/// Byte strings of one length that spell one number are equal.
pub proof fn lemma_be_value_injective(a: Seq<u8>, b: Seq<u8>)
    requires
        a.len() == b.len(),
        be_value(a) == be_value(b),
    ensures
        a == b,
{
    lemma_be_bytes_of_value(a);
    lemma_be_bytes_of_value(b);
}

/// The number that two byte strings spell together.
pub proof fn lemma_be_value_concat(a: Seq<u8>, b: Seq<u8>)
    ensures
        be_value(a + b) == be_value(a) * pow2(8 * b.len()) + be_value(b),
    decreases b.len(),
{
    if b.len() == 0 {
        assert(a + b =~= a);
        lemma2_to64();
        lemma_mul_basics_3(be_value(a) as int);
        assert(pow2(8 * b.len()) == 1);
    } else {
        let c = b.drop_last();
        assert((a + b).drop_last() =~= a + c);
        assert((a + b).last() == b.last());
        lemma_be_value_concat(a, c);
        lemma_pow2_bytes(c.len());
        let p = pow2(8 * c.len());
        let x = be_value(a);
        let y = be_value(c);
        assert((x * p + y) * 256 == x * (p * 256) + y * 256) by (nonlinear_arith);
        assert(8 * (c.len() + 1) == 8 * b.len());
    }
}

/// On strings of one length, dictionary order is the order of the numbers they spell.
pub proof fn lemma_lex_is_numeric(a: Seq<u8>, b: Seq<u8>)
    requires
        a.len() == b.len(),
    ensures
        lex_lt(a, b) <==> be_value(a) < be_value(b),
    decreases a.len(),
{
    if a.len() > 0 {
        let ta = a.drop_first();
        let tb = b.drop_first();
        assert(a =~= seq![a[0]] + ta);
        assert(b =~= seq![b[0]] + tb);
        lemma_be_value_concat(seq![a[0]], ta);
        lemma_be_value_concat(seq![b[0]], tb);
        lemma_be_value_bound(ta);
        lemma_be_value_bound(tb);
        reveal_with_fuel(be_value, 2);
        assert(seq![a[0]].drop_last() =~= Seq::<u8>::empty());
        assert(seq![b[0]].drop_last() =~= Seq::<u8>::empty());
        assert(be_value(seq![a[0]]) == a[0] as nat);
        assert(be_value(seq![b[0]]) == b[0] as nat);
        let p = pow2(8 * ta.len());
        lemma_lex_is_numeric(ta, tb);
        let x = a[0] as nat;
        let y = b[0] as nat;
        if x < y {
            assert(x * p + p <= y * p) by (nonlinear_arith)
                requires
                    x + 1 <= y,
            ;
        } else if y < x {
            assert(y * p + p <= x * p) by (nonlinear_arith)
                requires
                    y + 1 <= x,
            ;
        }
    }
}

/// Of two byte strings one comes no later than the other.
pub proof fn lemma_lex_total(a: Seq<u8>, b: Seq<u8>)
    ensures
        lex_le(a, b) || lex_le(b, a),
        lex_le(a, b) && lex_le(b, a) <==> a == b,
    decreases a.len(),
{
    if a.len() > 0 && b.len() > 0 {
        lemma_lex_total(a.drop_first(), b.drop_first());
        assert(a =~= seq![a[0]] + a.drop_first());
        assert(b =~= seq![b[0]] + b.drop_first());
    } else if a.len() == 0 && b.len() == 0 {
        assert(a =~= b);
    }
}

/// Dictionary order is transitive.
pub proof fn lemma_lex_transitive(a: Seq<u8>, b: Seq<u8>, c: Seq<u8>)
    requires
        lex_le(a, b),
        lex_le(b, c),
    ensures
        lex_le(a, c),
    decreases a.len(),
{
    if a.len() > 0 && b.len() > 0 && c.len() > 0 && a[0] == b[0] && b[0] == c[0] {
        lemma_lex_transitive(a.drop_first(), b.drop_first(), c.drop_first());
    }
}

/// Tests whether `a` comes before `b` in dictionary order of bytes.
pub fn lex_less(a: &[u8], b: &[u8]) -> (r: bool)
    ensures
        r == lex_lt(a@, b@),
{
    let mut i: usize = 0;
    assert(a@.skip(0) =~= a@);
    assert(b@.skip(0) =~= b@);
    while i < a.len() && i < b.len()
        invariant
            i <= a@.len(),
            i <= b@.len(),
            lex_lt(a@, b@) == lex_lt(a@.skip(i as int), b@.skip(i as int)),
        decreases a.len() - i,
    {
        if a[i] != b[i] {
            return a[i] < b[i];
        }
        assert(a@.skip(i as int).drop_first() =~= a@.skip(i + 1));
        assert(b@.skip(i as int).drop_first() =~= b@.skip(i + 1));
        i = i + 1;
    }
    i < b.len()
}

/// Tests whether two byte strings are equal.
pub fn bytes_equal(a: &[u8], b: &[u8]) -> (r: bool)
    ensures
        r == (a@ == b@),
{
    if a.len() != b.len() {
        return false;
    }
    let mut i: usize = 0;
    while i < a.len()
        invariant
            i <= a@.len(),
            a@.len() == b@.len(),
            forall|j: int| 0 <= j < i ==> a@[j] == b@[j],
        decreases a.len() - i,
    {
        if a[i] != b[i] {
            return false;
        }
        i = i + 1;
    }
    assert(a@ =~= b@);
    true
}

/// Whether every byte of `s` is `x`.
pub open spec fn all_bytes(s: Seq<u8>, x: u8) -> bool {
    forall|i: int| 0 <= i < s.len() ==> #[trigger] s[i] == x
}

/// The byte string of the same length that spells the next number, if one does.
pub open spec fn successor(s: Seq<u8>) -> Option<Seq<u8>> {
    if all_bytes(s, 0xff) {
        None
    } else {
        Some(be_bytes(be_value(s) + 1, s.len()))
    }
}

/// The byte string of the same length that spells the number before, if one does.
pub open spec fn predecessor(s: Seq<u8>) -> Option<Seq<u8>> {
    if all_bytes(s, 0) {
        None
    } else {
        Some(be_bytes((be_value(s) - 1) as nat, s.len()))
    }
}

/// The strings at the two ends of the range: all zero bits, and all one bits.
pub proof fn lemma_be_value_extremes(s: Seq<u8>)
    ensures
        all_bytes(s, 0) <==> be_value(s) == 0,
        all_bytes(s, 0xff) <==> be_value(s) == pow2(8 * s.len()) - 1,
    decreases s.len(),
{
    if s.len() == 0 {
        lemma2_to64();
    } else {
        let t = s.drop_last();
        lemma_be_value_extremes(t);
        lemma_be_value_bound(t);
        lemma_pow2_bytes(t.len());
        assert(s =~= t.push(s.last()));
        assert(all_bytes(s, 0) <==> all_bytes(t, 0) && s.last() == 0) by {
            assert(forall|i: int| 0 <= i < t.len() ==> t[i] == s[i]);
            assert(s.last() == s[s.len() - 1]);
        }
        assert(all_bytes(s, 0xff) <==> all_bytes(t, 0xff) && s.last() == 0xff) by {
            assert(forall|i: int| 0 <= i < t.len() ==> t[i] == s[i]);
            assert(s.last() == s[s.len() - 1]);
        }
    }
}

/// What `successor` gives has the same length and spells one more.
pub proof fn lemma_successor(s: Seq<u8>)
    ensures
        successor(s) matches Some(t) ==> t.len() == s.len() && be_value(t) == be_value(s) + 1,
{
    lemma_be_value_extremes(s);
    lemma_be_value_bound(s);
    if successor(s) is Some {
        lemma_be_value_of_bytes(be_value(s) + 1, s.len());
    }
}

/// What `predecessor` gives has the same length and spells one less.
pub proof fn lemma_predecessor(s: Seq<u8>)
    ensures
        predecessor(s) matches Some(t) ==> t.len() == s.len() && be_value(t) + 1 == be_value(s),
{
    lemma_be_value_extremes(s);
    lemma_be_value_bound(s);
    if predecessor(s) is Some {
        lemma_be_value_of_bytes((be_value(s) - 1) as nat, s.len());
    }
}

/// Counting one up and then one down leads back, and so does one down and then one up.
pub proof fn lemma_successor_predecessor_inverse(s: Seq<u8>)
    ensures
        successor(s) matches Some(t) ==> predecessor(t) == Some(s),
        predecessor(s) matches Some(t) ==> successor(t) == Some(s),
{
    lemma_successor(s);
    lemma_predecessor(s);
    lemma_be_value_bound(s);
    lemma_be_bytes_of_value(s);
    if let Some(t) = successor(s) {
        lemma_be_value_extremes(t);
    }
    if let Some(t) = predecessor(s) {
        lemma_be_value_extremes(t);
    }
}

/// Adds one to a big-endian number in place.
///
/// Returns `None`, and leaves the bytes as they are, when every byte is `0xff`.
pub fn increment_be(b: &mut [u8]) -> (r: Option<()>)
    ensures
        match successor(old(b)@) {
            None => r is None && final(b)@ == old(b)@,
            Some(t) => r is Some && final(b)@ == t,
        },
{
    let n = b.len();
    let mut k: usize = n;
    while k > 0 && b[k - 1] == 0xff
        invariant
            k <= n,
            n == b@.len(),
            b@ == old(b)@,
            forall|j: int| k <= j < n ==> #[trigger] b@[j] == 0xff,
        decreases k,
    {
        k = k - 1;
    }
    if k == 0 {
        return None;
    }
    let ghost before = b@;
    b[k - 1] = b[k - 1] + 1;
    let mut i: usize = k;
    proof {
        assert(b@.take(k as int).drop_last() =~= before.take(k as int).drop_last());
        assert(b@.take(k as int).last() == before.take(k as int).last() + 1);
    }
    while i < n
        invariant
            0 < k <= i <= n,
            n == b@.len(),
            n == before.len(),
            forall|j: int| k <= j < n ==> #[trigger] before[j] == 0xff,
            be_value(b@.take(i as int)) == be_value(before.take(i as int)) + 1,
        decreases n - i,
    {
        let ghost prev = b@;
        b[i] = 0;
        proof {
            assert(b@.take(i + 1).drop_last() =~= prev.take(i as int));
            assert(before.take(i + 1).drop_last() =~= before.take(i as int));
            assert(before.take(i + 1).last() == 0xff);
        }
        i = i + 1;
    }
    assert(b@.take(n as int) =~= b@);
    assert(before.take(n as int) =~= before);
    proof {
        lemma_be_bytes_of_value(b@);
    }
    Some(())
}

/// Subtracts one from a big-endian number in place.
///
/// Returns `None`, and leaves the bytes as they are, when every byte is zero
/// or there is no byte.
pub fn decrement_be(b: &mut [u8]) -> (r: Option<()>)
    ensures
        match predecessor(old(b)@) {
            None => r is None && final(b)@ == old(b)@,
            Some(t) => r is Some && final(b)@ == t,
        },
{
    let n = b.len();
    let mut k: usize = n;
    while k > 0 && b[k - 1] == 0
        invariant
            k <= n,
            n == b@.len(),
            b@ == old(b)@,
            forall|j: int| k <= j < n ==> #[trigger] b@[j] == 0,
        decreases k,
    {
        k = k - 1;
    }
    if k == 0 {
        return None;
    }
    let ghost before = b@;
    b[k - 1] = b[k - 1] - 1;
    let mut i: usize = k;
    proof {
        assert(b@.take(k as int).drop_last() =~= before.take(k as int).drop_last());
        assert(b@.take(k as int).last() == before.take(k as int).last() - 1);
    }
    while i < n
        invariant
            0 < k <= i <= n,
            n == b@.len(),
            n == before.len(),
            forall|j: int| k <= j < n ==> #[trigger] before[j] == 0,
            be_value(b@.take(i as int)) == be_value(before.take(i as int)) - 1,
        decreases n - i,
    {
        let ghost prev = b@;
        b[i] = 0xff;
        proof {
            assert(b@.take(i + 1).drop_last() =~= prev.take(i as int));
            assert(before.take(i + 1).drop_last() =~= before.take(i as int));
            assert(before.take(i + 1).last() == 0);
        }
        i = i + 1;
    }
    assert(b@.take(n as int) =~= b@);
    assert(before.take(n as int) =~= before);
    proof {
        lemma_be_bytes_of_value(b@);
    }
    Some(())
}

/// No byte spells 0, one byte spells itself, and one more byte behind others makes them
/// count 256 times as much.
pub proof fn lemma_be_value_bytes(s: Seq<u8>, b: u8)
    ensures
        be_value(Seq::empty()) == 0,
        be_value(seq![b]) == b,
        be_value(s.push(b)) == 256 * be_value(s) + b,
{
    assert(s.push(b).drop_last() =~= s);
    assert(seq![b].drop_last() =~= Seq::<u8>::empty());
    reveal_with_fuel(be_value, 2);
}

/// Only the largest number of a length has none of that length behind it, and only zero
/// has none before it.
pub proof fn lemma_neighbours(s: Seq<u8>)
    ensures
        successor(s) is Some <==> be_value(s) + 1 < pow2(8 * s.len()),
        predecessor(s) is Some <==> be_value(s) > 0,
{
    lemma_be_value_extremes(s);
    lemma_be_value_bound(s);
}

/// A byte string comes before those that it starts, and of two with one start the next
/// byte decides.
pub proof fn lemma_lex_prefix(c: Seq<u8>, a: Seq<u8>, b: Seq<u8>)
    requires
        a.len() > 0,
        b.len() > 0 ==> a[0] != b[0],
    ensures
        lex_lt(c + b, c + a) <==> b.len() == 0 || b[0] < a[0],
        lex_lt(c + a, c + b) <==> b.len() > 0 && a[0] < b[0],
        !lex_lt(c, c),
    decreases c.len(),
{
    if c.len() == 0 {
        assert(c + a =~= a);
        assert(c + b =~= b);
    } else {
        let d = c.drop_first();
        assert((c + a).drop_first() =~= d + a);
        assert((c + b).drop_first() =~= d + b);
        assert((c + a)[0] == c[0] && (c + b)[0] == c[0]);
        lemma_lex_prefix(d, a, b);
    }
}

} // verus!
