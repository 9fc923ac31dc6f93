//! Numbers as text, written and read.

use vstd::prelude::*;
use vstd::arithmetic::div_mod::*;
use vstd::utf8::*;

verus! {

/// The digit for `d`, which is below 16.
pub open spec fn digit(d: nat) -> char {
    if d < 10 {
        (48 + d) as char
    } else {
        (87 + d) as char
    }
}

/// The number `v` written in the given base, without leading zeros.
pub open spec fn numeral(v: nat, base: nat) -> Seq<char>
    decreases v,
{
    if base < 2 || v < base {
        seq![digit(v)]
    } else {
        proof {
            lemma_div_decreases(v as int, base as int);
        }
        numeral(v / base, base).push(digit(v % base))
    }
}

/// The decimal digits of `v`.
pub open spec fn decimal(v: nat) -> Seq<char> {
    numeral(v, 10)
}

/// The decimal digits of `v`, behind a minus sign where `v` is below zero.
pub open spec fn signed_decimal(v: int) -> Seq<char> {
    if v < 0 {
        seq!['-'] + decimal((-v) as nat)
    } else {
        decimal(v as nat)
    }
}

/// Each byte of `s` as two hexadecimal digits.
pub open spec fn hex_digits(s: Seq<u8>) -> Seq<char>
    decreases s.len(),
{
    if s.len() == 0 {
        Seq::empty()
    } else {
        hex_digits(s.drop_last()) + seq![digit(s.last() as nat / 16), digit(s.last() as nat % 16)]
    }
}

/// The number that the byte `b` stands for as a digit in base 10 or 16; in
/// base 16 letters of both cases are digits.
pub open spec fn digit_value(b: u8, base: nat) -> Option<nat> {
    if 48 <= b <= 57 {
        Some((b - 48) as nat)
    } else if base == 16 && 97 <= b <= 102 {
        Some((b - 87) as nat)
    } else if base == 16 && 65 <= b <= 70 {
        Some((b - 55) as nat)
    } else {
        None
    }
}

/// Whether every byte of `s` is a digit in the given base.
pub open spec fn all_digits(s: Seq<u8>, base: nat) -> bool {
    forall|i: int| 0 <= i < s.len() ==> digit_value(#[trigger] s[i], base) is Some
}

/// The number that the digits `s` spell in the given base.
pub open spec fn digits_value(s: Seq<u8>, base: nat) -> nat
    decreases s.len(),
{
    if s.len() == 0 {
        0
    } else {
        digits_value(s.drop_last(), base) * base + digit_value(s.last(), base).unwrap_or(0)
    }
}

/// How many bytes at the start of `s` are digits in the given base.
pub open spec fn digit_run(s: Seq<u8>, base: nat) -> nat
    decreases s.len(),
{
    if s.len() > 0 && digit_value(s[0], base) is Some {
        1 + digit_run(s.skip(1), base)
    } else {
        0
    }
}

/// The digits at the start of `s` are digits, and they end where they end.
pub proof fn lemma_digit_run(s: Seq<u8>, base: nat)
    ensures
        digit_run(s, base) <= s.len(),
        all_digits(s.take(digit_run(s, base) as int), base),
        digit_run(s, base) < s.len() ==> digit_value(s[digit_run(s, base) as int], base) is None,
    decreases s.len(),
{
    if s.len() > 0 && digit_value(s[0], base) is Some {
        let t = s.skip(1);
        lemma_digit_run(t, base);
        let k = digit_run(s, base) as int;
        assert forall|i: int| 0 <= i < k implies digit_value(#[trigger] s.take(k)[i], base) is Some by {
            if i > 0 {
                assert(t.take(k - 1)[i - 1] == s[i]);
            }
        }
    }
}

/// Digits in front of something that starts with no digit are a run.
pub proof fn lemma_digit_run_of(d: Seq<u8>, t: Seq<u8>, base: nat)
    requires
        all_digits(d, base),
        t.len() == 0 || digit_value(t[0], base) is None,
    ensures
        digit_run(d + t, base) == d.len(),
    decreases d.len(),
{
    if d.len() == 0 {
        assert(d + t =~= t);
    } else {
        assert(digit_value(d[0], base) is Some);
        assert((d + t).skip(1) =~= d.skip(1) + t);
        assert forall|i: int| 0 <= i < d.skip(1).len() implies digit_value(
            #[trigger] d.skip(1)[i],
            base,
        ) is Some by {
            assert(d.skip(1)[i] == d[i + 1]);
        }
        lemma_digit_run_of(d.skip(1), t, base);
    }
}

/// The encoding of two texts in a row is the encodings in a row.
pub proof fn lemma_encode_concat(a: Seq<char>, b: Seq<char>)
    ensures
        encode_utf8(a + b) == encode_utf8(a) + encode_utf8(b),
    decreases a.len(),
{
    if a.len() == 0 {
        assert(a + b =~= b);
        assert(encode_utf8(a) + encode_utf8(b) =~= encode_utf8(b));
    } else {
        assert((a + b).drop_first() =~= a.drop_first() + b);
        lemma_encode_concat(a.drop_first(), b);
        assert(encode_utf8(a + b) =~= encode_utf8(a) + encode_utf8(b));
    }
}

/// An ASCII character is encoded as its number.
pub proof fn lemma_encode_ascii(c: char)
    requires
        c as nat <= 127,
    ensures
        encode_utf8(seq![c]) == seq![c as u8],
{
    let s = seq![c];
    assert(is_ascii_chars(s));
    is_ascii_chars_encode_utf8(s);
    assert(s[0] == c);
    assert(encode_utf8(s) =~= seq![c as u8]);
}

/// A numeral is read back as the number that it was written for; it starts with
/// a zero only where it is the numeral of zero.
pub proof fn lemma_numeral_read_back(v: nat, base: nat)
    requires
        base == 10 || base == 16,
    ensures
        encode_utf8(numeral(v, base)).len() == numeral(v, base).len(),
        encode_utf8(numeral(v, base)).len() > 0,
        all_digits(encode_utf8(numeral(v, base)), base),
        digits_value(encode_utf8(numeral(v, base)), base) == v,
        encode_utf8(numeral(v, base))[0] == 48 <==> v == 0,
    decreases v,
{
    let n = numeral(v, base);
    let e = encode_utf8(n);
    if v < base {
        lemma_encode_ascii(digit(v));
        assert(e =~= seq![digit(v) as u8]);
        assert(e.drop_last() =~= Seq::<u8>::empty());
        reveal_with_fuel(digits_value, 2);
    } else {
        lemma_div_decreases(v as int, base as int);
        let m = numeral(v / base, base);
        let d = digit(v % base);
        lemma_numeral_read_back(v / base, base);
        assert(n =~= m + seq![d]);
        lemma_encode_concat(m, seq![d]);
        lemma_mod_bound(v as int, base as int);
        lemma_encode_ascii(d);
        assert(e =~= encode_utf8(m).push(d as u8));
        assert(e.drop_last() =~= encode_utf8(m));
        lemma_fundamental_div_mod(v as int, base as int);
        assert(base * (v / base) == (v / base) * base) by (nonlinear_arith);
        assert forall|i: int| 0 <= i < e.len() implies digit_value(#[trigger] e[i], base) is Some by {
            if i < encode_utf8(m).len() {
                assert(e[i] == encode_utf8(m)[i]);
            }
        }
        assert(v / base > 0) by (nonlinear_arith)
            requires
                v >= base,
                base >= 2,
        ;
        assert(e[0] == encode_utf8(m)[0]);
    }
}

/// The first digits of a number spell no more than the number.
pub proof fn lemma_digits_value_prefix(s: Seq<u8>, i: int, base: nat)
    requires
        0 <= i <= s.len(),
        base >= 1,
    ensures
        digits_value(s.take(i), base) <= digits_value(s, base),
    decreases s.len(),
{
    if i == s.len() {
        assert(s.take(i) =~= s);
    } else {
        let t = s.drop_last();
        lemma_digits_value_prefix(t, i, base);
        assert(t.take(i) =~= s.take(i));
        let x = digits_value(t, base);
        assert(x <= x * base) by (nonlinear_arith)
            requires
                base >= 1,
        ;
    }
}

/// The number that the digits `s` spell, if there is a digit, nothing but
/// digits, and the number is at most `max`.
pub open spec fn number_of(s: Seq<u8>, base: nat, max: nat) -> Option<nat> {
    if s.len() > 0 && all_digits(s, base) && digits_value(s, base) <= max {
        Some(digits_value(s, base))
    } else {
        None
    }
}

fn digit_of(b: u8, base: u64) -> (r: Option<u64>)
    ensures
        match digit_value(b, base as nat) {
            None => r is None,
            Some(d) => r matches Some(x) && x == d,
        },
        r matches Some(x) ==> x < 16,
{
    if 48 <= b && b <= 57 {
        Some((b - 48) as u64)
    } else if base == 16 && 97 <= b && b <= 102 {
        Some((b - 87) as u64)
    } else if base == 16 && 65 <= b && b <= 70 {
        Some((b - 55) as u64)
    } else {
        None
    }
}

/// Reads a number of at most `max`, made of nothing but digits.
pub fn parse_number(s: &[u8], base: u64, max: u64) -> (r: Option<u64>)
    requires
        base == 10 || base == 16,
        max <= 0xffff_ffff,
    ensures
        match number_of(s@, base as nat, max as nat) {
            None => r is None,
            Some(v) => r matches Some(x) && x == v,
        },
{
    if s.len() == 0 {
        return None;
    }
    let mut acc: u64 = 0;
    let mut i: usize = 0;
    assert(s@.take(0) =~= Seq::<u8>::empty());
    while i < s.len()
        invariant
            i <= s@.len(),
            base == 10 || base == 16,
            acc <= max <= 0xffff_ffff,
            acc == digits_value(s@.take(i as int), base as nat),
            forall|j: int| 0 <= j < i ==> digit_value(#[trigger] s@[j], base as nat) is Some,
        decreases s.len() - i,
    {
        proof {
            assert(s@.take(i + 1).drop_last() =~= s@.take(i as int));
            lemma_digits_value_prefix(s@, i + 1, base as nat);
            assert(acc * base <= 0xffff_ffff * 16) by (nonlinear_arith)
                requires
                    0 <= acc <= 0xffff_ffff,
                    0 <= base <= 16,
            ;
        }
        match digit_of(s[i], base) {
            None => {
                return None;
            },
            Some(d) => {
                acc = acc * base + d;
                if acc > max {
                    return None;
                }
            },
        }
        i = i + 1;
    }
    assert(s@.take(i as int) =~= s@);
    Some(acc)
}

/// Where `c` first stands in `s`; the length of `s` where it does not.
pub open spec fn find(s: Seq<u8>, c: u8) -> nat
    decreases s.len(),
{
    if s.len() == 0 || s[0] == c {
        0
    } else {
        1 + find(s.skip(1), c)
    }
}

/// What `find` finds.
pub proof fn lemma_find(s: Seq<u8>, c: u8)
    ensures
        find(s, c) <= s.len(),
        find(s, c) < s.len() ==> s[find(s, c) as int] == c,
        forall|i: int| 0 <= i < find(s, c) ==> #[trigger] s[i] != c,
    decreases s.len(),
{
    if s.len() > 0 && s[0] != c {
        let t = s.skip(1);
        lemma_find(t, c);
        assert forall|i: int| 0 <= i < find(s, c) implies #[trigger] s[i] != c by {
            if i > 0 {
                assert(t[i - 1] == s[i]);
            }
        }
    }
}

/// `find` passes over what does not hold the byte.
pub proof fn lemma_find_after(a: Seq<u8>, b: Seq<u8>, c: u8)
    requires
        forall|i: int| 0 <= i < a.len() ==> #[trigger] a[i] != c,
    ensures
        find(a + b, c) == a.len() + find(b, c),
    decreases a.len(),
{
    if a.len() == 0 {
        assert(a + b =~= b);
    } else {
        assert((a + b).skip(1) =~= a.skip(1) + b);
        assert forall|i: int| 0 <= i < a.skip(1).len() implies #[trigger] a.skip(1)[i] != c by {
            assert(a.skip(1)[i] == a[i + 1]);
        }
        assert(a[0] != c);
        lemma_find_after(a.skip(1), b, c);
    }
}

/// Finds where `c` first stands in `s`; the length of `s` where it does not.
pub fn find_byte(s: &[u8], c: u8) -> (r: usize)
    ensures
        r == find(s@, c),
        r <= s@.len(),
{
    let mut i: usize = 0;
    assert(s@.skip(0) =~= s@);
    while i < s.len() && s[i] != c
        invariant
            i <= s@.len(),
            find(s@, c) == i + find(s@.skip(i as int), c),
        decreases s.len() - i,
    {
        assert(s@.skip(i as int).skip(1) =~= s@.skip(i + 1));
        i = i + 1;
    }
    i
}

fn digit_str(d: u64) -> (r: &'static str)
    requires
        d < 16,
    ensures
        r@ == seq![digit(d as nat)],
{
    proof {
        reveal_strlit("0");
        reveal_strlit("1");
        reveal_strlit("2");
        reveal_strlit("3");
        reveal_strlit("4");
        reveal_strlit("5");
        reveal_strlit("6");
        reveal_strlit("7");
        reveal_strlit("8");
        reveal_strlit("9");
        reveal_strlit("a");
        reveal_strlit("b");
        reveal_strlit("c");
        reveal_strlit("d");
        reveal_strlit("e");
        reveal_strlit("f");
    }
    let r = match d {
        0 => "0",
        1 => "1",
        2 => "2",
        3 => "3",
        4 => "4",
        5 => "5",
        6 => "6",
        7 => "7",
        8 => "8",
        9 => "9",
        10 => "a",
        11 => "b",
        12 => "c",
        13 => "d",
        14 => "e",
        _ => "f",
    };
    assert(r@ =~= seq![digit(d as nat)]);
    r
}

/// Appends `v` in the given base.
pub fn append_numeral(s: &mut String, v: u64, base: u64)
    requires
        2 <= base <= 16,
    ensures
        final(s)@ == old(s)@ + numeral(v as nat, base as nat),
    decreases v,
{
    let ghost before = s@;
    if v >= base {
        proof {
            lemma_div_decreases(v as int, base as int);
        }
        append_numeral(s, v / base, base);
    }
    proof {
        if v < base {
            lemma_small_mod(v as nat, base as nat);
        }
    }
    s.append(digit_str(v % base));
    assert(s@ =~= before + numeral(v as nat, base as nat));
}

/// Appends `v` in decimal.
pub fn append_decimal(s: &mut String, v: u64)
    ensures
        final(s)@ == old(s)@ + decimal(v as nat),
{
    append_numeral(s, v, 10);
}

/// Appends `v` in decimal, behind a minus sign where it is below zero.
pub fn append_signed(s: &mut String, v: i32)
    ensures
        final(s)@ == old(s)@ + signed_decimal(v as int),
{
    let ghost before = s@;
    if v < 0 {
        proof {
            reveal_strlit("-");
        }
        s.append("-");
        append_decimal(s, (-(v as i64)) as u64);
    } else {
        append_decimal(s, v as u64);
    }
    assert(s@ =~= before + signed_decimal(v as int));
}

/// Writes each byte as two hexadecimal digits.
pub fn hex(b: &[u8]) -> (r: String)
    ensures
        r@ == hex_digits(b@),
{
    let mut s = String::new();
    let mut i: usize = 0;
    assert(b@.take(0) =~= Seq::<u8>::empty());
    while i < b.len()
        invariant
            i <= b@.len(),
            s@ == hex_digits(b@.take(i as int)),
        decreases b.len() - i,
    {
        let byte = b[i];
        s.append(digit_str((byte / 16) as u64));
        s.append(digit_str((byte % 16) as u64));
        proof {
            assert(b@.take(i + 1).drop_last() =~= b@.take(i as int));
            assert(s@ =~= hex_digits(b@.take(i + 1)));
        }
        i = i + 1;
    }
    assert(b@.take(i as int) =~= b@);
    s
}

/// Which bytes are digits, and what they stand for.
pub proof fn lemma_digit_value(b: u8, base: nat)
    requires
        base == 10 || base == 16,
    ensures
        48 <= b <= 57 ==> digit_value(b, base) == Some((b - 48) as nat),
        base == 16 && 65 <= b <= 70 ==> digit_value(b, base) == Some((b - 65 + 10) as nat),
        base == 16 && 97 <= b <= 102 ==> digit_value(b, base) == Some((b - 97 + 10) as nat),
        digit_value(b, base) is Some ==> 48 <= b <= 57 || base == 16 && (65 <= b <= 70 || 97 <= b
            <= 102),
{
}

/// A digit behind others makes them count as many times as much as the base says; no
/// digits spell 0.
pub proof fn lemma_digits_value_push(s: Seq<u8>, b: u8, base: nat)
    requires
        digit_value(b, base) is Some,
    ensures
        digits_value(Seq::empty(), base) == 0,
        digits_value(s.push(b), base) == digits_value(s, base) * base + digit_value(b, base).unwrap(),
{
    assert(s.push(b).drop_last() =~= s);
}

/// A text is read as a number exactly if it is digits, one at least, that spell no more
/// than the largest number wanted.
pub proof fn lemma_number_of(s: Seq<u8>, base: nat, max: nat)
    ensures
        number_of(s, base, max) matches Some(v) ==> v == digits_value(s, base) && v <= max,
        number_of(s, base, max) is None <==> s.len() == 0 || digits_value(s, base) > max || exists|
            i: int,
        | 0 <= i < s.len() && digit_value(#[trigger] s[i], base) is None,
{
}

/// A written number is read back where it is not too large.
pub proof fn lemma_number_read_back(v: nat, base: nat, max: nat)
    requires
        base == 10 || base == 16,
    ensures
        number_of(encode_utf8(numeral(v, base)), base, max) == if v <= max {
            Some(v)
        } else {
            None
        },
{
    lemma_numeral_read_back(v, base);
}

/// Decimal digits without a needless zero are what their number is written as.
pub proof fn lemma_canonical_decimal(s: Seq<u8>)
    requires
        s.len() > 0,
        all_digits(s, 10),
        s.len() > 1 ==> s[0] != 48,
    ensures
        encode_utf8(decimal(digits_value(s, 10))) == s,
        s[0] != 48 ==> digits_value(s, 10) > 0,
    decreases s.len(),
{
    let b = s.last();
    let t = s.drop_last();
    let v = digits_value(s, 10);
    assert(digit_value(s[s.len() - 1], 10) is Some);
    let d = digit_value(b, 10).unwrap();
    lemma_encode_ascii(digit(d));
    if s.len() == 1 {
        assert(t =~= Seq::<u8>::empty());
        assert(digits_value(t, 10) == 0);
        assert(v == d);
        assert(encode_utf8(decimal(v)) =~= s);
    } else {
        assert forall|i: int| 0 <= i < t.len() implies digit_value(#[trigger] t[i], 10) is Some by {
            assert(t[i] == s[i]);
        }
        lemma_canonical_decimal(t);
        let w = digits_value(t, 10);
        assert(w > 0);
        assert(v == w * 10 + d);
        lemma_fundamental_div_mod_converse(v as int, 10, w as int, d as int);
        assert(decimal(v) =~= decimal(w) + seq![digit(d)]);
        lemma_encode_concat(decimal(w), seq![digit(d)]);
        assert(encode_utf8(decimal(v)) =~= t.push(b));
        assert(t.push(b) =~= s);
    }
}

/// Numbers are written in digits and lower-case letters, up to `f`.
pub proof fn lemma_numeral_letters(v: nat, base: nat)
    requires
        base == 10 || base == 16,
    ensures
        numeral(v, base).len() > 0,
        forall|i: int|
            0 <= i < numeral(v, base).len() ==> {
                let c = #[trigger] numeral(v, base)[i];
                '0' <= c <= '9' || base == 16 && 'a' <= c <= 'f'
            },
    decreases v,
{
    if v >= base {
        lemma_div_decreases(v as int, base as int);
        lemma_numeral_letters(v / base, base);
        lemma_mod_bound(v as int, base as int);
    }
}

/// A number below zero is written behind a minus sign.
pub proof fn lemma_signed_decimal(v: int)
    ensures
        v >= 0 ==> signed_decimal(v) == decimal(v as nat),
        v < 0 ==> signed_decimal(v) == seq!['-'] + decimal((-v) as nat),
{
}

/// Bytes in hexadecimal: two lower-case digits for each byte, the high one first, and
/// bytes in a row as their digits in a row.
pub proof fn lemma_hex_digits(a: Seq<u8>, b: Seq<u8>, x: u8)
    ensures
        hex_digits(a).len() == 2 * a.len(),
        hex_digits(a + b) == hex_digits(a) + hex_digits(b),
        hex_digits(seq![x]) == seq![digit(x as nat / 16), digit(x as nat % 16)],
        forall|d: nat| #![trigger digit(d)] d < 10 ==> digit(d) as nat == '0' as nat + d,
        forall|d: nat| #![trigger digit(d)] 10 <= d < 16 ==> digit(d) as nat == 'a' as nat + d - 10,
    decreases a.len() + b.len(),
{
    assert(seq![x].drop_last() =~= Seq::<u8>::empty());
    reveal_with_fuel(hex_digits, 2);
    assert(hex_digits(seq![x]) =~= seq![digit(x as nat / 16), digit(x as nat % 16)]);
    if a.len() > 0 {
        lemma_hex_digits(a.drop_last(), Seq::empty(), x);
    }
    if b.len() == 0 {
        assert(a + b =~= a);
        assert(hex_digits(a) + hex_digits(b) =~= hex_digits(a));
    } else {
        lemma_hex_digits(a, b.drop_last(), x);
        assert((a + b).drop_last() =~= a + b.drop_last());
        assert((a + b).last() == b.last());
        assert(hex_digits(a + b) =~= hex_digits(a) + hex_digits(b));
    }
}

} // verus!
