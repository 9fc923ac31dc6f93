//! Durations as text: `1d2h30m`, `45s`, `250ms`, `0s`.

use crate::text;
use crate::text::append_decimal;
use vstd::prelude::*;
use vstd::arithmetic::div_mod::*;
use vstd::utf8::*;

verus! {

pub const DAY_MS: u64 = 86_400_000;

pub const HOUR_MS: u64 = 3_600_000;

pub const MINUTE_MS: u64 = 60_000;

pub const SECOND_MS: u64 = 1_000;

/// `n` units as text; nothing where there are none.
pub open spec fn part(n: nat, unit: Seq<char>) -> Seq<char> {
    if n > 0 {
        text::decimal(n) + unit
    } else {
        Seq::empty()
    }
}

/// A number of milliseconds as text, the largest unit first.
pub open spec fn duration_text(ms: nat) -> Seq<char> {
    if ms == 0 {
        seq!['0', 's']
    } else {
        part(ms / DAY_MS as nat, seq!['d']) + part(ms % DAY_MS as nat / HOUR_MS as nat, seq!['h'])
            + part(ms % HOUR_MS as nat / MINUTE_MS as nat, seq!['m']) + part(
            ms % MINUTE_MS as nat / SECOND_MS as nat,
            seq!['s'],
        ) + part(ms % SECOND_MS as nat, seq!['m', 's'])
    }
}

/// The unit at the start of `s`: how many bytes name it, and how many
/// milliseconds it has.
pub open spec fn unit_at(s: Seq<u8>) -> Option<(nat, nat)> {
    if s.len() == 0 {
        None
    } else if s.len() > 1 && s[0] == 109 && s[1] == 115 {
        Some((2, 1))
    } else if s[0] == 100 {
        Some((1, DAY_MS as nat))
    } else if s[0] == 104 {
        Some((1, HOUR_MS as nat))
    } else if s[0] == 109 {
        Some((1, MINUTE_MS as nat))
    } else if s[0] == 115 {
        Some((1, SECOND_MS as nat))
    } else {
        None
    }
}

/// The milliseconds that a row of components, each a decimal number and a unit,
/// adds up to; `None` where `s` is no such row.
pub open spec fn components_sum(s: Seq<u8>) -> Option<nat>
    decreases s.len(),
{
    if s.len() == 0 {
        Some(0)
    } else {
        proof {
            text::lemma_digit_run(s, 10);
        }
        let k = text::digit_run(s, 10);
        match unit_at(s.skip(k as int)) {
            Some((len, ms)) if k > 0 => match components_sum(s.skip((k + len) as int)) {
                Some(rest) => Some(text::digits_value(s.take(k as int), 10) * ms + rest),
                None => None,
            },
            _ => None,
        }
    }
}

/// The milliseconds that the text `s` stands for.
pub open spec fn duration_of(s: Seq<u8>) -> Option<nat> {
    if s.len() == 0 {
        None
    } else {
        components_sum(s)
    }
}

/// Whether every number met in reading the components `s`, and every sum from
/// `total` on, fits into 64 bits, up to the first byte that is out of place.
pub open spec fn components_fit(s: Seq<u8>, total: nat) -> bool
    decreases s.len(),
{
    proof {
        text::lemma_digit_run(s, 10);
    }
    let k = text::digit_run(s, 10);
    let n = text::digits_value(s.take(k as int), 10);
    k > 0 ==> n <= u64::MAX && match unit_at(s.skip(k as int)) {
        Some((len, ms)) => total + n * ms <= u64::MAX && components_fit(
            s.skip((k + len) as int),
            total + n * ms,
        ),
        None => true,
    }
}

/// One of the units as text, and its milliseconds.
spec fn is_unit(unit: Seq<char>, ms: nat) -> bool {
    ||| unit == seq!['d'] && ms == DAY_MS
    ||| unit == seq!['h'] && ms == HOUR_MS
    ||| unit == seq!['m'] && ms == MINUTE_MS
    ||| unit == seq!['s'] && ms == SECOND_MS
    ||| unit == seq!['m', 's'] && ms == 1
}

/// Whether `s` is empty or starts with a decimal digit.
spec fn starts_component(s: Seq<u8>) -> bool {
    s.len() > 0 ==> text::digit_value(s[0], 10) is Some
}

proof fn lemma_unit_read_back(unit: Seq<char>, ms: nat, rest: Seq<u8>)
    requires
        is_unit(unit, ms),
        starts_component(rest),
    ensures
        encode_utf8(unit).len() == unit.len(),
        unit_at(encode_utf8(unit) + rest) == Some((unit.len(), ms)),
        text::digit_value((encode_utf8(unit) + rest)[0], 10) is None,
{
    let u = encode_utf8(unit);
    assert(is_ascii_chars(unit));
    is_ascii_chars_encode_utf8(unit);
    assert(u[0] == unit[0] as u8);
    assert((u + rest)[0] == u[0]);
    if unit.len() == 2 {
        assert(u[1] == unit[1] as u8);
        assert((u + rest)[1] == u[1]);
    } else if rest.len() > 0 {
        assert((u + rest)[1] == rest[0]);
    }
}

/// A component in front of others adds its milliseconds to theirs.
proof fn lemma_part_read_back(n: nat, unit: Seq<char>, ms: nat, rest: Seq<u8>, total: nat)
    requires
        is_unit(unit, ms),
        starts_component(rest),
        components_sum(rest) is Some,
        components_fit(rest, total + n * ms),
        total + n * ms <= u64::MAX,
    ensures
        starts_component(encode_utf8(part(n, unit)) + rest),
        components_sum(encode_utf8(part(n, unit)) + rest) == Some(
            n * ms + components_sum(rest).unwrap(),
        ),
        components_fit(encode_utf8(part(n, unit)) + rest, total),
{
    let s = encode_utf8(part(n, unit)) + rest;
    if n == 0 {
        assert(s =~= rest);
        assert(n * ms == 0) by (nonlinear_arith)
            requires
                n == 0,
        ;
    } else {
        let d = encode_utf8(text::decimal(n));
        let u = encode_utf8(unit);
        text::lemma_numeral_read_back(n, 10);
        text::lemma_encode_concat(text::decimal(n), unit);
        lemma_unit_read_back(unit, ms, rest);
        text::lemma_digit_run_of(d, u + rest, 10);
        assert(s =~= d + (u + rest));
        assert(s.skip(d.len() as int) =~= u + rest);
        assert(s.take(d.len() as int) =~= d);
        assert(s.skip((d.len() + u.len()) as int) =~= rest);
        assert(s[0] == d[0]);
        assert(n <= n * ms) by (nonlinear_arith)
            requires
                ms >= 1,
        ;
    }
}

proof fn lemma_zero_read_back()
    ensures
        components_fit(encode_utf8(seq!['0', 's']), 0),
        duration_of(encode_utf8(seq!['0', 's'])) == Some(0nat),
{
    let none = Seq::<u8>::empty();
    let t = seq!['0', 's'];
    let e = encode_utf8(t);
    assert(is_ascii_chars(t));
    is_ascii_chars_encode_utf8(t);
    assert(e[0] == t[0] as u8);
    assert(e[1] == t[1] as u8);
    let d = seq![48u8];
    let u = seq![115u8];
    assert(e =~= d + u);
    assert(text::all_digits(d, 10));
    text::lemma_digit_run_of(d, u, 10);
    assert(text::digit_run(e, 10) == 1);
    assert(e.skip(1) =~= u);
    assert(e.skip(2) =~= none);
    assert(e.take(1) =~= d);
    assert(text::digits_value(d, 10) == 0) by {
        assert(d.drop_last() =~= none);
        reveal_with_fuel(text::digits_value, 2);
    }
    assert(unit_at(u) == Some((1nat, SECOND_MS as nat)));
    assert(components_sum(none) == Some(0nat));
    assert(text::digit_run(none, 10) == 0);
    assert(components_fit(none, 0));
    assert(components_fit(e, 0));
    assert(components_sum(e) == Some(0nat));
}

proof fn lemma_row_read_back(n1: nat, n2: nat, n3: nat, n4: nat, n5: nat, m: nat)
    requires
        n1 * DAY_MS + n2 * HOUR_MS + n3 * MINUTE_MS + n4 * SECOND_MS + n5 == m,
        0 < m <= u64::MAX,
    ensures
        ({
            let e = encode_utf8(
                part(n1, seq!['d']) + part(n2, seq!['h']) + part(n3, seq!['m']) + part(
                    n4,
                    seq!['s'],
                ) + part(n5, seq!['m', 's']),
            );
            components_fit(e, 0) && duration_of(e) == Some(m)
        }),
{
    let none = Seq::<u8>::empty();
    let p1 = part(n1, seq!['d']);
    let p2 = part(n2, seq!['h']);
    let p3 = part(n3, seq!['m']);
    let p4 = part(n4, seq!['s']);
    let p5 = part(n5, seq!['m', 's']);
    let r5 = encode_utf8(p5) + none;
    let r4 = encode_utf8(p4) + r5;
    let r3 = encode_utf8(p3) + r4;
    let r2 = encode_utf8(p2) + r3;
    let r1 = encode_utf8(p1) + r2;
    assert(encode_utf8(p1 + p2 + p3 + p4 + p5) == r1) by {
        text::lemma_encode_concat(p1 + p2 + p3 + p4, p5);
        text::lemma_encode_concat(p1 + p2 + p3, p4);
        text::lemma_encode_concat(p1 + p2, p3);
        text::lemma_encode_concat(p1, p2);
        assert(encode_utf8(p1 + p2 + p3 + p4 + p5) =~= r1);
    }
    let t1 = n1 * DAY_MS as nat;
    let t2 = t1 + n2 * HOUR_MS as nat;
    let t3 = t2 + n3 * MINUTE_MS as nat;
    let t4 = t3 + n4 * SECOND_MS as nat;
    assert(components_sum(none) == Some(0nat));
    assert(text::digit_run(none, 10) == 0);
    assert(components_fit(none, t4 + n5 * 1));
    lemma_part_read_back(n5, seq!['m', 's'], 1, none, t4);
    lemma_part_read_back(n4, seq!['s'], SECOND_MS as nat, r5, t3);
    lemma_part_read_back(n3, seq!['m'], MINUTE_MS as nat, r4, t2);
    lemma_part_read_back(n2, seq!['h'], HOUR_MS as nat, r3, t1);
    lemma_part_read_back(n1, seq!['d'], DAY_MS as nat, r2, 0);
    if r1.len() == 0 {
        assert(r1 =~= none);
    }
}

proof fn lemma_parts_sum(m: int)
    requires
        0 <= m,
    ensures
        m / 86_400_000 * 86_400_000 + m % 86_400_000 / 3_600_000 * 3_600_000 + m % 3_600_000
            / 60_000 * 60_000 + m % 60_000 / 1_000 * 1_000 + m % 1_000 == m,
{
    lemma_fundamental_div_mod(m, 86_400_000);
    lemma_fundamental_div_mod(m % 86_400_000, 3_600_000);
    lemma_fundamental_div_mod(m % 3_600_000, 60_000);
    lemma_fundamental_div_mod(m % 60_000, 1_000);
    lemma_mod_mod(m, 3_600_000, 24);
    lemma_mod_mod(m, 60_000, 60);
    lemma_mod_mod(m, 1_000, 60);
}

/// A duration that [`format_duration`] wrote is read back by [`parse_duration`]
/// as the same number of milliseconds, for every number of milliseconds.
pub proof fn lemma_duration_read_back(ms: u64)
    ensures
        components_fit(encode_utf8(duration_text(ms as nat)), 0),
        duration_of(encode_utf8(duration_text(ms as nat))) == Some(ms as nat),
{
    let m = ms as nat;
    if ms == 0 {
        lemma_zero_read_back();
    } else {
        lemma_parts_sum(ms as int);
        lemma_row_read_back(
            m / DAY_MS as nat,
            m % DAY_MS as nat / HOUR_MS as nat,
            m % HOUR_MS as nat / MINUTE_MS as nat,
            m % MINUTE_MS as nat / SECOND_MS as nat,
            m % SECOND_MS as nat,
            m,
        );
    }
}

/// Writes a number of milliseconds as text, the largest unit first.
pub fn format_duration(ms: u64) -> (r: String)
    ensures
        r@ == duration_text(ms as nat),
{
    let mut out = String::new();
    if ms == 0 {
        proof {
            reveal_strlit("0s");
        }
        out.append("0s");
        assert(out@ =~= duration_text(0));
        return out;
    }
    proof {
        reveal_strlit("d");
        reveal_strlit("h");
        reveal_strlit("m");
        reveal_strlit("s");
        reveal_strlit("ms");
        assert("d"@ =~= seq!['d']);
        assert("h"@ =~= seq!['h']);
        assert("m"@ =~= seq!['m']);
        assert("s"@ =~= seq!['s']);
        assert("ms"@ =~= seq!['m', 's']);
    }
    append_part(&mut out, ms / DAY_MS, "d");
    append_part(&mut out, ms % DAY_MS / HOUR_MS, "h");
    append_part(&mut out, ms % HOUR_MS / MINUTE_MS, "m");
    append_part(&mut out, ms % MINUTE_MS / SECOND_MS, "s");
    append_part(&mut out, ms % SECOND_MS, "ms");
    assert(out@ =~= duration_text(ms as nat));
    out
}

fn append_part(out: &mut String, n: u64, unit: &str)
    ensures
        final(out)@ == old(out)@ + part(n as nat, unit@),
{
    let ghost before = out@;
    if n > 0 {
        append_decimal(out, n);
        out.append(unit);
    }
    assert(out@ =~= before + part(n as nat, unit@));
}

/// What reading a duration comes to.
enum Scan {
    Overflow,
    Invalid,
    Value(u64),
}

fn unit_of(s: &[u8], i: usize) -> (r: Option<(usize, u64)>)
    requires
        i <= s@.len(),
    ensures
        match unit_at(s@.skip(i as int)) {
            None => r is None,
            Some((len, ms)) => r matches Some(u) && u.0 == len && u.1 == ms,
        },
        r matches Some(u) ==> i + u.0 <= s@.len() && u.0 > 0,
{
    let n = s.len();
    if i == n {
        return None;
    }
    assert(s@.skip(i as int)[0] == s@[i as int]);
    if n - i > 1 && s[i] == 109 && s[i + 1] == 115 {
        return Some((2, 1));
    }
    match s[i] {
        100 => Some((1, DAY_MS)),
        104 => Some((1, HOUR_MS)),
        109 => Some((1, MINUTE_MS)),
        115 => Some((1, SECOND_MS)),
        _ => None,
    }
}

/// Reads the digits at the start of `s[i..]`: where they end, and their value
/// if it fits.
fn read_digits(s: &[u8], i: usize) -> (r: (usize, Option<u64>))
    requires
        i <= s@.len(),
    ensures
        r.0 == i + text::digit_run(s@.skip(i as int), 10),
        i <= r.0 <= s@.len(),
        ({
            let v = text::digits_value(s@.subrange(i as int, r.0 as int), 10);
            match r.1 {
                Some(x) => x == v,
                None => v > u64::MAX,
            }
        }),
{
    let mut j: usize = i;
    let mut acc: Option<u64> = Some(0);
    assert(s@.subrange(i as int, i as int) =~= Seq::<u8>::empty());
    while j < s.len() && 48 <= s[j] && s[j] <= 57
        invariant
            i <= j <= s@.len(),
            text::digit_run(s@.skip(i as int), 10) == j - i + text::digit_run(
                s@.skip(j as int),
                10,
            ),
            match acc {
                Some(x) => x == text::digits_value(s@.subrange(i as int, j as int), 10),
                None => text::digits_value(s@.subrange(i as int, j as int), 10) > u64::MAX,
            },
        decreases s.len() - j,
    {
        let d = (s[j] - 48) as u64;
        proof {
            assert(s@.skip(j as int)[0] == s@[j as int]);
            assert(s@.skip(j as int).skip(1) =~= s@.skip(j + 1));
            assert(s@.subrange(i as int, j + 1).drop_last() =~= s@.subrange(i as int, j as int));
        }
        acc = match acc {
            None => None,
            Some(x) => match x.checked_mul(10) {
                None => None,
                Some(y) => y.checked_add(d),
            },
        };
        j = j + 1;
    }
    proof {
        if j < s@.len() {
            assert(s@.skip(j as int)[0] == s@[j as int]);
        }
    }
    (j, acc)
}

fn scan(s: &[u8]) -> (r: Scan)
    ensures
        match r {
            Scan::Overflow => !components_fit(s@, 0),
            Scan::Invalid => components_fit(s@, 0) && components_sum(s@) is None,
            Scan::Value(v) => components_fit(s@, 0) && components_sum(s@) == Some(v as nat),
        },
{
    let mut total: u64 = 0;
    let mut i: usize = 0;
    let n = s.len();
    assert(s@.skip(0) =~= s@);
    while i < n
        invariant
            i <= n,
            n == s@.len(),
            components_fit(s@, 0) == components_fit(s@.skip(i as int), total as nat),
            components_sum(s@) == match components_sum(s@.skip(i as int)) {
                Some(rest) => Some(total as nat + rest),
                None => None,
            },
        decreases n - i,
    {
        let ghost rest = s@.skip(i as int);
        let (j, value) = read_digits(s, i);
        proof {
            assert(rest.skip(j - i) =~= s@.skip(j as int));
            assert(rest.take(j - i) =~= s@.subrange(i as int, j as int));
        }
        if j == i {
            return Scan::Invalid;
        }
        let v = match value {
            None => {
                return Scan::Overflow;
            },
            Some(v) => v,
        };
        match unit_of(s, j) {
            None => {
                return Scan::Invalid;
            },
            Some((len, ms)) => {
                proof {
                    assert(rest.skip(j - i + len) =~= s@.skip(j + len));
                }
                let sum = match v.checked_mul(ms) {
                    None => None,
                    Some(x) => total.checked_add(x),
                };
                match sum {
                    None => {
                        return Scan::Overflow;
                    },
                    Some(x) => {
                        total = x;
                        i = j + len;
                    },
                }
            },
        }
    }
    proof {
        assert(s@.skip(i as int) =~= Seq::<u8>::empty());
    }
    Scan::Value(total)
}

/// Tests whether the numbers in `s` stay within 64 bits while it is read as a
/// duration, which [`parse_duration`] asks for.
pub fn duration_fits(s: &str) -> (r: bool)
    ensures
        r == components_fit(encode_utf8(s@), 0),
{
    match scan(s.as_bytes()) {
        Scan::Overflow => false,
        _ => true,
    }
}

/// Reads a duration in milliseconds.
///
/// Units are `d`, `h`, `m`, `s` and `ms`. Components may come in any order;
/// anything else, and an empty text, is `None`.
pub fn parse_duration(s: &str) -> (r: Option<u64>)
    requires
        components_fit(encode_utf8(s@), 0),
    ensures
        match duration_of(encode_utf8(s@)) {
            None => r is None,
            Some(ms) => r matches Some(v) && v == ms,
        },
{
    let b = s.as_bytes();
    if b.len() == 0 {
        return None;
    }
    match scan(b) {
        Scan::Value(v) => Some(v),
        _ => None,
    }
}

/// A duration is written as its days, hours below 24, minutes and seconds below 60 and
/// milliseconds below 1000, in this order, without those of which there are none; no
/// time at all is `0s`.
pub proof fn lemma_duration_text(d: nat, h: nat, m: nat, s: nat, r: nat)
    requires
        h < 24,
        m < 60,
        s < 60,
        r < 1000,
    ensures
        ({
            let ms = (((d * 24 + h) * 60 + m) * 60 + s) * 1000 + r;
            let none = Seq::<char>::empty();
            duration_text(ms) == if ms == 0 {
                seq!['0', 's']
            } else {
                (if d > 0 {
                    text::decimal(d) + seq!['d']
                } else {
                    none
                }) + (if h > 0 {
                    text::decimal(h) + seq!['h']
                } else {
                    none
                }) + (if m > 0 {
                    text::decimal(m) + seq!['m']
                } else {
                    none
                }) + (if s > 0 {
                    text::decimal(s) + seq!['s']
                } else {
                    none
                }) + (if r > 0 {
                    text::decimal(r) + seq!['m', 's']
                } else {
                    none
                })
            }
        }),
{
    let ms = (((d * 24 + h) * 60 + m) * 60 + s) * 1000 + r;
    let below = h * 3_600_000 + m * 60_000 + s * 1_000 + r;
    lemma_fundamental_div_mod_converse(ms as int, 86_400_000, d as int, below as int);
    lemma_fundamental_div_mod_converse(
        below as int,
        3_600_000,
        h as int,
        (m * 60_000 + s * 1_000 + r) as int,
    );
    lemma_fundamental_div_mod_converse(
        ms as int,
        3_600_000,
        (d * 24 + h) as int,
        (m * 60_000 + s * 1_000 + r) as int,
    );
    lemma_fundamental_div_mod_converse(
        (m * 60_000 + s * 1_000 + r) as int,
        60_000,
        m as int,
        (s * 1_000 + r) as int,
    );
    lemma_fundamental_div_mod_converse(
        ms as int,
        60_000,
        ((d * 24 + h) * 60 + m) as int,
        (s * 1_000 + r) as int,
    );
    lemma_fundamental_div_mod_converse((s * 1_000 + r) as int, 1_000, s as int, r as int);
    lemma_fundamental_div_mod_converse(
        ms as int,
        1_000,
        (((d * 24 + h) * 60 + m) * 60 + s) as int,
        r as int,
    );
}

/// A component, digits and the name of a unit, in front of others adds as many times the
/// milliseconds of the unit as its digits say; the whole fits where it does and the
/// others do.
pub proof fn lemma_component(d: Seq<u8>, unit: Seq<u8>, ms: nat, rest: Seq<u8>, total: nat)
    requires
        d.len() > 0,
        text::all_digits(d, 10),
        rest.len() > 0 ==> 48 <= rest[0] <= 57,
        ({
            ||| unit == seq![100u8] && ms == 86_400_000
            ||| unit == seq![104u8] && ms == 3_600_000
            ||| unit == seq![109u8] && ms == 60_000
            ||| unit == seq![115u8] && ms == 1_000
            ||| unit == seq![109u8, 115u8] && ms == 1
        }),
    ensures
        components_sum(d + unit + rest) == match components_sum(rest) {
            Some(x) => Some(text::digits_value(d, 10) * ms + x),
            None => None,
        },
        components_fit(d + unit + rest, total) <==> {
            &&& text::digits_value(d, 10) <= u64::MAX
            &&& total + text::digits_value(d, 10) * ms <= u64::MAX
            &&& components_fit(rest, total + text::digits_value(d, 10) * ms)
        },
        rest.len() == 0 ==> components_sum(rest) == Some(0nat) && components_fit(rest, total),
{
    let s = d + unit + rest;
    let ur = unit + rest;
    assert(ur[0] == unit[0]);
    if unit.len() == 2 {
        assert(ur[1] == unit[1]);
    } else if rest.len() > 0 {
        assert(ur[1] == rest[0]);
    }
    text::lemma_digit_run_of(d, ur, 10);
    assert(s =~= d + ur);
    assert(s.skip(d.len() as int) =~= ur);
    assert(s.take(d.len() as int) =~= d);
    assert(s.skip((d.len() + unit.len()) as int) =~= rest);
    assert(unit_at(ur) == Some((unit.len(), ms)));
}

/// What starts with no digit, is digits alone, or has behind its digits what names no
/// unit, is no duration, and neither is the empty text.
pub proof fn lemma_no_duration(d: Seq<u8>, rest: Seq<u8>)
    requires
        text::all_digits(d, 10),
        rest.len() > 0 ==> text::digit_value(rest[0], 10) is None,
    ensures
        duration_of(Seq::empty()) is None,
        d.len() == 0 ==> duration_of(d + rest) is None,
        rest.len() == 0 ==> duration_of(d + rest) is None,
        rest.len() > 0 && rest[0] != 100 && rest[0] != 104 && rest[0] != 109 && rest[0] != 115
            ==> duration_of(d + rest) is None,
{
    let s = d + rest;
    text::lemma_digit_run_of(d, rest, 10);
    assert(s.skip(d.len() as int) =~= rest);
}

/// A duration other than the empty text is the sum of its components.
pub proof fn lemma_duration_of(s: Seq<u8>)
    ensures
        s.len() > 0 ==> duration_of(s) == components_sum(s),
{
}

} // verus!
