//! The command line: its arguments, and what is printed.

use crate::be::bytes_equal;
use crate::cidr;
use crate::dump;
use crate::dump::is_interval_set;
use crate::duration;
use crate::elem;
use crate::elem::Elem;
use crate::fmt;
use crate::fmt::{format_duration, format_element};
use vstd::prelude::*;
use vstd::utf8::*;

verus! {

/// The number of the address family with the name `s`.
pub open spec fn family_number(s: Seq<char>) -> Option<u8> {
    if s == "ip"@ {
        Some(2)
    } else if s == "ip6"@ {
        Some(10)
    } else if s == "inet"@ {
        Some(1)
    } else if s == "bridge"@ {
        Some(7)
    } else if s == "arp"@ {
        Some(3)
    } else if s == "netdev"@ {
        Some(5)
    } else {
        None
    }
}

/// Whether two texts are the same.
fn same_text(a: &str, b: &str) -> (r: bool)
    ensures
        r == (a@ == b@),
{
    proof {
        encode_utf8_decode_utf8(a@);
        encode_utf8_decode_utf8(b@);
    }
    bytes_equal(a.as_bytes(), b.as_bytes())
}

fn number_of_family(s: &str) -> (r: Option<u8>)
    ensures
        r == family_number(s@),
{
    if same_text(s, "ip") {
        Some(2)
    } else if same_text(s, "ip6") {
        Some(10)
    } else if same_text(s, "inet") {
        Some(1)
    } else if same_text(s, "bridge") {
        Some(7)
    } else if same_text(s, "arp") {
        Some(3)
    } else if same_text(s, "netdev") {
        Some(5)
    } else {
        None
    }
}

/// Reads the name of an address family.
pub fn parse_family(s: &str) -> (r: Result<u8, String>)
    ensures
        match family_number(s@) {
            Some(n) => r == Ok::<u8, String>(n),
            None => r matches Err(m) && m@ == "unknown family '"@ + s@
                + "' (try: ip, ip6, inet, bridge, arp, netdev)"@,
        },
{
    match number_of_family(s) {
        Some(n) => Ok(n),
        None => {
            let mut m = String::new();
            m.append("unknown family '");
            m.append(s);
            m.append("' (try: ip, ip6, inet, bridge, arp, netdev)");
            assert(m@ =~= "unknown family '"@ + s@
                + "' (try: ip, ip6, inet, bridge, arp, netdev)"@);
            Err(m)
        },
    }
}

/// Whether `s` is the name of an address family.
pub fn is_family(s: &str) -> (r: bool)
    ensures
        r == (family_number(s@) is Some),
{
    number_of_family(s).is_some()
}

/// Reads a duration.
pub fn parse_duration(s: &str) -> (r: Result<u64, String>)
    requires
        duration::components_fit(encode_utf8(s@), 0),
    ensures
        match duration::duration_of(encode_utf8(s@)) {
            Some(ms) => r matches Ok(v) && v == ms,
            None => r matches Err(m) && m@ == "cannot parse duration '"@ + s@
                + "' (expected format like 30s, 5m, 1h30m, 250ms)"@,
        },
{
    match fmt::parse_duration(s) {
        Some(ms) => Ok(ms),
        None => {
            let mut m = String::new();
            m.append("cannot parse duration '");
            m.append(s);
            m.append("' (expected format like 30s, 5m, 1h30m, 250ms)");
            assert(m@ =~= "cannot parse duration '"@ + s@
                + "' (expected format like 30s, 5m, 1h30m, 250ms)"@);
            Err(m)
        },
    }
}

/// Reads an element, an address or a block of addresses.
pub fn parse_element(s: &str) -> (r: Result<(Vec<u8>, Option<Vec<u8>>), String>)
    ensures
        match r {
            Ok(e) => fmt::element_of(encode_utf8(s@)) is Some && fmt::element_view(Some(e))
                == fmt::element_of(encode_utf8(s@)),
            Err(m) => fmt::element_of(encode_utf8(s@)) is None && m@ == "cannot parse element '"@
                + s@ + "'"@,
        },
        r matches Ok((key, None)) ==> fmt::element_of(encode_utf8(s@)) == Some((key@, None::<Seq<u8>>)),
        r matches Ok((key, Some(end))) ==> fmt::element_of(encode_utf8(s@)) == Some(
            (key@, Some(end@)),
        ),
{
    match fmt::parse_element(s) {
        Some(e) => Ok(e),
        None => {
            let mut m = String::new();
            m.append("cannot parse element '");
            m.append(s);
            m.append("'");
            assert(m@ =~= "cannot parse element '"@ + s@ + "'"@);
            Err(m)
        },
    }
}

/// What each of a list of texts holds.
pub open spec fn texts(s: Seq<String>) -> Seq<Seq<char>> {
    Seq::new(s.len(), |i: int| s[i]@)
}

/// The arguments with the command `list` put in where they are only a family, a
/// table and a set.
pub open spec fn expanded(args: Seq<Seq<char>>) -> Seq<Seq<char>> {
    if args.len() == 4 && family_number(args[1]) is Some {
        args.insert(1, "list"@)
    } else {
        args
    }
}

/// Puts the command `list` into arguments that are only a family, a table and a
/// set. The name of the program comes first.
pub fn expand_shorthand(args: Vec<String>) -> (r: Vec<String>)
    ensures
        texts(r@) == expanded(texts(args@)),
        args@.len() == 4 && family_number(args@[1]@) is Some ==> {
            &&& r@.len() == 5
            &&& r@[0]@ == args@[0]@
            &&& r@[1]@ == "list"@
            &&& r@[2]@ == args@[1]@
            &&& r@[3]@ == args@[2]@
            &&& r@[4]@ == args@[3]@
        },
        args@.len() != 4 || family_number(args@[1]@) is None ==> r@ == args@,
{
    let mut args = args;
    if args.len() == 4 && is_family(args[1].as_str()) {
        let ghost before = args@;
        let mut list = String::new();
        list.append("list");
        assert(list@ =~= "list"@);
        args.insert(1, list);
        assert(texts(args@) =~= texts(before).insert(1, "list"@));
    }
    args
}

/// Whether to list a set as one of intervals: where its flags are not known, it
/// is taken to be one.
pub fn lists_intervals(flags: Option<u32>) -> (r: bool)
    ensures
        r == match flags {
            Some(f) => f & dump::NFT_SET_INTERVAL != 0,
            None => true,
        },
{
    match flags {
        Some(f) => is_interval_set(f),
        None => true,
    }
}

/// The lines that list the reduced elements `s` of a set.
pub open spec fn listing(
    table: Seq<char>,
    set: Seq<char>,
    s: Seq<elem::ElemView>,
) -> Seq<Seq<char>> {
    if s.len() == 0 {
        seq!["(set "@ + table + "/"@ + set + " has no elements)"@]
    } else {
        Seq::new(s.len(), |i: int| fmt::element_text(s[i]))
    }
}

/// Writes the lines that list the reduced elements of a set.
pub fn list_lines(table: &str, set: &str, elems: &[Elem]) -> (r: Vec<String>)
    ensures
        texts(r@) == listing(table@, set@, elem::views(elems@)),
        elems@.len() == 0 ==> r@.len() == 1 && r@[0]@ == "(set "@ + table@ + "/"@ + set@
            + " has no elements)"@,
        elems@.len() > 0 ==> r@.len() == elems@.len(),
        forall|i: int|
            0 <= i < elems@.len() ==> #[trigger] r@[i]@ == fmt::element_text(elems@[i]@),
{
    let mut out: Vec<String> = Vec::new();
    if elems.len() == 0 {
        let mut m = String::new();
        m.append("(set ");
        m.append(table);
        m.append("/");
        m.append(set);
        m.append(" has no elements)");
        assert(m@ =~= "(set "@ + table@ + "/"@ + set@ + " has no elements)"@);
        out.push(m);
        assert(texts(out@) =~= listing(table@, set@, elem::views(elems@)));
        return out;
    }
    let mut i: usize = 0;
    while i < elems.len()
        invariant
            i <= elems@.len(),
            out@.len() == i,
            forall|k: int|
                0 <= k < i ==> #[trigger] out@[k]@ == fmt::element_text(elem::views(elems@)[k]),
        decreases elems.len() - i,
    {
        out.push(format_element(&elems[i]));
        i = i + 1;
    }
    assert(texts(out@) =~= listing(table@, set@, elem::views(elems@)));
    out
}

/// What is said of the timeout of an element.
pub open spec fn timeout_note(timeout_ms: Option<u64>) -> Seq<char> {
    match timeout_ms {
        Some(ms) => " (timeout "@ + duration::duration_text(ms as nat) + ")"@,
        None => Seq::empty(),
    }
}

fn append_timeout_note(m: &mut String, timeout_ms: Option<u64>)
    ensures
        final(m)@ == old(m)@ + timeout_note(timeout_ms),
{
    let ghost before = m@;
    if let Some(ms) = timeout_ms {
        m.append(" (timeout ");
        m.append(format_duration(ms).as_str());
        m.append(")");
    }
    assert(m@ =~= before + timeout_note(timeout_ms));
}

/// What is said of an element that was added.
pub fn added_message(element: &str, table: &str, set: &str, timeout_ms: Option<u64>) -> (r: String)
    ensures
        r@ == "added "@ + element@ + " to "@ + table@ + "/"@ + set@ + timeout_note(timeout_ms),
        timeout_ms is None ==> r@ == "added "@ + element@ + " to "@ + table@ + "/"@ + set@,
        timeout_ms matches Some(ms) ==> r@ == "added "@ + element@ + " to "@ + table@ + "/"@ + set@
            + (" (timeout "@ + duration::duration_text(ms as nat) + ")"@),
{
    let mut m = String::new();
    m.append("added ");
    m.append(element);
    m.append(" to ");
    m.append(table);
    m.append("/");
    m.append(set);
    assert(m@ =~= "added "@ + element@ + " to "@ + table@ + "/"@ + set@);
    append_timeout_note(&mut m, timeout_ms);
    m
}

/// What is said of an element that was deleted.
pub fn deleted_message(element: &str, table: &str, set: &str) -> (r: String)
    ensures
        r@ == "deleted "@ + element@ + " from "@ + table@ + "/"@ + set@,
{
    let mut m = String::new();
    m.append("deleted ");
    m.append(element);
    m.append(" from ");
    m.append(table);
    m.append("/");
    m.append(set);
    assert(m@ =~= "deleted "@ + element@ + " from "@ + table@ + "/"@ + set@);
    m
}

/// What is said of an element that was replaced by another.
pub fn replaced_message(
    del_elem: &str,
    add_elem: &str,
    table: &str,
    set: &str,
    timeout_ms: Option<u64>,
) -> (r: String)
    ensures
        r@ == "replaced "@ + del_elem@ + " \u{2192} "@ + add_elem@ + " in "@ + table@ + "/"@ + set@
            + timeout_note(timeout_ms),
        timeout_ms is None ==> r@ == "replaced "@ + del_elem@ + " \u{2192} "@ + add_elem@ + " in "@
            + table@ + "/"@ + set@,
        timeout_ms matches Some(ms) ==> r@ == "replaced "@ + del_elem@ + " \u{2192} "@ + add_elem@
            + " in "@ + table@ + "/"@ + set@ + (" (timeout "@ + duration::duration_text(ms as nat)
            + ")"@),
{
    let mut m = String::new();
    m.append("replaced ");
    m.append(del_elem);
    m.append(" \u{2192} ");
    m.append(add_elem);
    m.append(" in ");
    m.append(table);
    m.append("/");
    m.append(set);
    assert(m@ =~= "replaced "@ + del_elem@ + " \u{2192} "@ + add_elem@ + " in "@ + table@ + "/"@
        + set@);
    append_timeout_note(&mut m, timeout_ms);
    m
}

/// A listing has a line for each element, in their order. The line of an address or
/// of a block, without times, is read back as its keys; the times follow it; elements
/// with different keys have different lines. A set without elements has one line that
/// says so.
pub proof fn lemma_listing(table: Seq<char>, set: Seq<char>, s: Seq<elem::ElemView>)
    ensures
        s.len() == 0 ==> listing(table, set, s).len() == 1 && listing(table, set, s)[0] == "(set "@
            + table + "/"@ + set + " has no elements)"@,
        s.len() > 0 ==> listing(table, set, s).len() == s.len(),
        forall|i: int|
            0 <= i < s.len() ==> {
                let e = #[trigger] s[i];
                let line = listing(table, set, s)[i];
                &&& ((e.key.len() == 4 || e.key.len() == 16) && (if e.key_end.len() > 0 {
                    cidr::cidr(e.key, e.key_end) is Some
                } else {
                    !e.is_end
                }) && e.timeout_ms is None && e.expiration_ms is None ==> fmt::element_of(
                    encode_utf8(line),
                ) == Some(
                    (
                        e.key,
                        if e.key_end.len() > 0 {
                            Some(e.key_end)
                        } else {
                            None
                        },
                    ),
                ))
                &&& line == listing(
                    table,
                    set,
                    seq![
                        elem::ElemView {
                            key: e.key,
                            is_end: e.is_end,
                            key_end: e.key_end,
                            timeout_ms: None,
                            expiration_ms: None,
                        },
                    ],
                )[0] + (match e.timeout_ms {
                    Some(t) => " timeout "@ + duration::duration_text(t as nat),
                    None => Seq::empty(),
                }) + (match e.expiration_ms {
                    Some(t) => " expires "@ + duration::duration_text(t as nat),
                    None => Seq::empty(),
                })
            },
        forall|i: int, j: int|
            0 <= i < s.len() && 0 <= j < s.len() && fmt::is_display(#[trigger] s[i])
                && fmt::is_display(#[trigger] s[j]) && (s[i].key != s[j].key || s[i].key_end
                != s[j].key_end) ==> listing(table, set, s)[i] != listing(table, set, s)[j],
{
    let l = listing(table, set, s);
    assert forall|i: int| 0 <= i < s.len() implies {
        let e = #[trigger] s[i];
        let line = listing(table, set, s)[i];
        &&& ((e.key.len() == 4 || e.key.len() == 16) && (if e.key_end.len() > 0 {
            cidr::cidr(e.key, e.key_end) is Some
        } else {
            !e.is_end
        }) && e.timeout_ms is None && e.expiration_ms is None ==> fmt::element_of(
            encode_utf8(line),
        ) == Some(
            (
                e.key,
                if e.key_end.len() > 0 {
                    Some(e.key_end)
                } else {
                    None
                },
            ),
        ))
        &&& line == listing(
            table,
            set,
            seq![
                elem::ElemView {
                    key: e.key,
                    is_end: e.is_end,
                    key_end: e.key_end,
                    timeout_ms: None,
                    expiration_ms: None,
                },
            ],
        )[0] + (match e.timeout_ms {
            Some(t) => " timeout "@ + duration::duration_text(t as nat),
            None => Seq::empty(),
        }) + (match e.expiration_ms {
            Some(t) => " expires "@ + duration::duration_text(t as nat),
            None => Seq::empty(),
        })
    } by {
        let e = s[i];
        assert(l[i] == fmt::element_text(e));
        if (e.key.len() == 4 || e.key.len() == 16) && (if e.key_end.len() > 0 {
            cidr::cidr(e.key, e.key_end) is Some
        } else {
            !e.is_end
        }) && e.timeout_ms is None && e.expiration_ms is None {
            fmt::lemma_element_read_back(e);
        }
        fmt::lemma_element_text_times(e);
    }
    assert forall|i: int, j: int|
        0 <= i < s.len() && 0 <= j < s.len() && fmt::is_display(#[trigger] s[i])
            && fmt::is_display(#[trigger] s[j]) && (s[i].key != s[j].key || s[i].key_end
            != s[j].key_end) implies l[i] != l[j] by {
        if l[i] == l[j] {
            fmt::lemma_element_text_injective(s[i], s[j]);
        }
    }
}

/// The names of the address families, with their numbers; any other text names none.
pub proof fn lemma_families(s: Seq<char>)
    ensures
        s == "ip"@ ==> family_number(s) == Some(2u8),
        s == "ip6"@ ==> family_number(s) == Some(10u8),
        s == "inet"@ ==> family_number(s) == Some(1u8),
        s == "bridge"@ ==> family_number(s) == Some(7u8),
        s == "arp"@ ==> family_number(s) == Some(3u8),
        s == "netdev"@ ==> family_number(s) == Some(5u8),
        s != "ip"@ && s != "ip6"@ && s != "inet"@ && s != "bridge"@ && s != "arp"@ && s
            != "netdev"@ ==> family_number(s) is None,
{
    reveal_strlit("ip");
    reveal_strlit("ip6");
    reveal_strlit("inet");
    reveal_strlit("bridge");
    reveal_strlit("arp");
    reveal_strlit("netdev");
    assert("ip"@.len() == 2 && "ip6"@.len() == 3 && "inet"@.len() == 4 && "bridge"@.len() == 6
        && "arp"@.len() == 3 && "netdev"@.len() == 6);
    assert("ip6"@[0] == 'i' && "arp"@[0] == 'a' && "bridge"@[0] == 'b' && "netdev"@[0] == 'n');
}

/// The program's name, a family, a table and a set become a command to list that set;
/// other arguments stay as they are.
pub proof fn lemma_expanded(args: Seq<Seq<char>>)
    ensures
        args.len() == 4 && family_number(args[1]) is Some ==> expanded(args) == seq![
            args[0],
            "list"@,
            args[1],
            args[2],
            args[3],
        ],
        args.len() != 4 || family_number(args[1]) is None ==> expanded(args) == args,
{
    if args.len() == 4 && family_number(args[1]) is Some {
        assert(expanded(args) =~= seq![args[0], "list"@, args[1], args[2], args[3]]);
    }
}

} // verus!
