//! Arguments and output.

use nft_set_elem::cli::{
    added_message, deleted_message, expand_shorthand, is_family, list_lines, lists_intervals,
    parse_duration, parse_element, parse_family, replaced_message,
};
use nft_set_elem::nl::Elem;

fn args(s: &[&str]) -> Vec<String> {
    s.iter().map(|a| a.to_string()).collect()
}

#[test]
fn families() {
    for (name, number) in
        [("ip", 2), ("ip6", 10), ("inet", 1), ("bridge", 7), ("arp", 3), ("netdev", 5)]
    {
        assert_eq!(parse_family(name), Ok(number));
        assert!(is_family(name));
    }
    assert!(!is_family("ipx"));
    assert_eq!(
        parse_family("IP"),
        Err("unknown family 'IP' (try: ip, ip6, inet, bridge, arp, netdev)".to_string())
    );
}

#[test]
fn durations_and_elements() {
    assert_eq!(parse_duration("1h30m"), Ok(5_400_000));
    assert_eq!(
        parse_duration("soon"),
        Err("cannot parse duration 'soon' (expected format like 30s, 5m, 1h30m, 250ms)".to_string())
    );
    assert_eq!(parse_element("10.0.0.1"), Ok((vec![10, 0, 0, 1], None)));
    assert_eq!(parse_element("home"), Err("cannot parse element 'home'".to_string()));
}

#[test]
fn the_shorthand_for_list() {
    let full = args(&["nftse", "list", "ip", "filter", "my_set"]);
    assert_eq!(expand_shorthand(args(&["nftse", "ip", "filter", "my_set"])), full);
    assert_eq!(expand_shorthand(full.clone()), full);
    let other = args(&["nftse", "list", "filter", "my_set"]);
    assert_eq!(expand_shorthand(other.clone()), other);
    let short = args(&["nftse", "ip", "filter"]);
    assert_eq!(expand_shorthand(short.clone()), short);
    assert_eq!(expand_shorthand(vec![]).len(), 0);
}

#[test]
fn unknown_flags_mean_intervals() {
    assert!(lists_intervals(None));
    assert!(lists_intervals(Some(0x14)));
    assert!(!lists_intervals(Some(0x10)));
}

#[test]
fn listings() {
    assert_eq!(list_lines("filter", "my_set", &[]), vec!["(set filter/my_set has no elements)"]);
    let e = Elem {
        key: vec![10, 0, 0, 0],
        is_end: false,
        key_end: vec![10, 0, 0, 255],
        timeout_ms: Some(3_600_000),
        expiration_ms: None,
    };
    assert_eq!(list_lines("t", "s", &[e.clone(), e]), vec!["10.0.0.0/24 timeout 1h"; 2]);
}

#[test]
fn reports() {
    assert_eq!(added_message("1.2.3.4", "t", "s", None), "added 1.2.3.4 to t/s");
    assert_eq!(
        added_message("1.2.3.4", "t", "s", Some(90_000)),
        "added 1.2.3.4 to t/s (timeout 1m30s)"
    );
    assert_eq!(deleted_message("1.2.3.4", "t", "s"), "deleted 1.2.3.4 from t/s");
    assert_eq!(replaced_message("a", "b", "t", "s", None), "replaced a \u{2192} b in t/s");
    assert_eq!(
        replaced_message("a", "b", "t", "s", Some(1)),
        "replaced a \u{2192} b in t/s (timeout 1ms)"
    );
}
