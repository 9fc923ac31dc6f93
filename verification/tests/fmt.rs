//! Elements as text.

use nft_set_elem::fmt::{
    be_int, duration_fits, format_addr, format_duration, format_element, format_key, hex,
    interval_to_cidr, parse_addr, parse_duration, parse_element, range_is_prefix, suffice,
};
use nft_set_elem::nl::Elem;

#[test]
fn range_is_prefix_matches_iff_host_mask_is_contiguous_low_bits() {
    assert!(range_is_prefix(0));
    assert!(range_is_prefix(1));
    assert!(range_is_prefix(3));
    assert!(range_is_prefix(0xFF));
    assert!(range_is_prefix(0x03FF)); // 2^10 - 1
    assert!(range_is_prefix(0xFFFF_FFFF));
    assert!(!range_is_prefix(2));     // 0b10 — not the (2^k-1) form
    assert!(!range_is_prefix(5));     // 0b101 — not the (2^k-1) form
}

#[test]
fn ipv4_full_range_is_32_prefixlen_for_full_range() {
    let (addr, plen, bits) = interval_to_cidr(&[0, 0, 0, 0], &[255, 255, 255, 255]).unwrap();
    assert_eq!(bits, 32);
    assert_eq!(plen, 0);
    assert_eq!(format_addr(&addr, bits), "0.0.0.0");
}

#[test]
fn ipv4_192_168_0_0_255_collapses_to_24() {
    let (addr, plen, bits) =
        interval_to_cidr(&[192, 168, 0, 0], &[192, 168, 0, 255]).unwrap();
    assert_eq!(bits, 32);
    assert_eq!(plen, 24);
    assert_eq!(format_addr(&addr, bits), "192.168.0.0");
}

#[test]
fn ipv4_10_0_0_0_to_10_255_255_255_is_8() {
    let (addr, plen, bits) =
        interval_to_cidr(&[10, 0, 0, 0], &[10, 255, 255, 255]).unwrap();
    assert_eq!(bits, 32);
    assert_eq!(plen, 8);
    assert_eq!(format_addr(&addr, bits), "10.0.0.0");
}

#[test]
fn ipv4_single_host_is_32() {
    let (addr, plen, bits) = interval_to_cidr(&[1, 2, 3, 4], &[1, 2, 3, 4]).unwrap();
    assert_eq!(bits, 32);
    assert_eq!(plen, 32);
    assert_eq!(format_addr(&addr, bits), "1.2.3.4");
}

#[test]
fn ipv4_misaligned_low_returns_none() {
    assert!(interval_to_cidr(&[10, 0, 0, 5], &[10, 0, 0, 10]).is_none());
}

#[test]
fn ipv4_range_with_host_gap_returns_none() {
    assert!(interval_to_cidr(&[192, 168, 0, 0], &[192, 168, 1, 1]).is_none());
}

#[test]
fn ipv4_30_pair_collapses() {
    let (addr, plen, _) = interval_to_cidr(&[0, 0, 0, 0], &[0, 0, 0, 3]).unwrap();
    assert_eq!(plen, 30);
    assert_eq!(format_addr(&addr, 32), "0.0.0.0");
}

#[test]
fn ipv6_2001_db8_64_collapses() {
    let low =
        [0x20, 0x01, 0x0d, 0xb8, 0, 0, 0, 0, 0, 0, 0, 0, 0, 0, 0, 0];
    let high =
        [0x20, 0x01, 0x0d, 0xb8, 0, 0, 0, 0, 0xff, 0xff, 0xff, 0xff, 0xff, 0xff, 0xff, 0xff];
    let (addr, plen, bits) = interval_to_cidr(&low, &high).unwrap();
    assert_eq!(bits, 128);
    assert_eq!(plen, 64);
    assert_eq!(format_addr(&addr, bits), "2001:db8:0:0:0:0:0:0");
}

#[test]
fn be_int_decodes_natural_order_ipv4() {
    assert_eq!(be_int(&[192, 168, 0, 1]), 0xC0A8_0001);
    assert_eq!(be_int(&[1, 2, 3, 4]), 0x0102_0304);
}

#[test]
fn duration_matches_nftables_print() {
    assert_eq!(format_duration(0), "0s");
    assert_eq!(format_duration(250), "250ms");
    assert_eq!(format_duration(1_000), "1s");
    assert_eq!(format_duration(60_000), "1m");
    assert_eq!(format_duration(3_600_000), "1h");
    assert_eq!(format_duration(86_400_000), "1d");
    assert_eq!(format_duration(5_430_000), "1h30m30s");
    assert_eq!(format_duration(95_040_000), "1d2h24m");
}

#[test]
fn parse_duration_roundtrips() {
    assert_eq!(parse_duration("0s"),    Some(0));
    assert_eq!(parse_duration("250ms"), Some(250));
    assert_eq!(parse_duration("1s"),    Some(1_000));
    assert_eq!(parse_duration("30s"),   Some(30_000));
    assert_eq!(parse_duration("1m"),    Some(60_000));
    assert_eq!(parse_duration("5m"),    Some(300_000));
    assert_eq!(parse_duration("1h"),    Some(3_600_000));
    assert_eq!(parse_duration("1d"),    Some(86_400_000));
    assert_eq!(parse_duration("1h30m30s"), Some(5_430_000));
    assert_eq!(parse_duration("1d2h24m"),  Some(95_040_000));
    assert_eq!(parse_duration(""),       None);
    assert_eq!(parse_duration("xyz"),    None);
    assert_eq!(parse_duration("5x"),     None);
}

#[test]
fn parse_addr_works_for_v4_and_v6() {
    assert_eq!(parse_addr("192.168.0.1"), Some(vec![192, 168, 0, 1]));
    assert_eq!(parse_addr("10.0.0.0"),    Some(vec![10, 0, 0, 0]));
    assert_eq!(parse_addr("::1"),         Some(vec![0,0,0,0,0,0,0,0,0,0,0,0,0,0,0,1]));
    assert_eq!(parse_addr("2001:db8::1"), Some(vec![0x20,0x01,0x0d,0xb8,0,0,0,0,0,0,0,0,0,0,0,1]));
    assert_eq!(parse_addr("bad"), None);
}

#[test]
fn parse_element_cidr_and_single() {
    let (k, ke) = parse_element("192.168.0.0/24").unwrap();
    assert_eq!(k,  vec![192, 168, 0, 0]);
    assert_eq!(ke, Some(vec![192, 168, 0, 255]));

    let (k, ke) = parse_element("192.168.1.1").unwrap();
    assert_eq!(k, vec![192, 168, 1, 1]);
    assert!(ke.is_none());

    assert!(parse_element("bogus/24").is_none());
    assert!(parse_element("1.2.3.4/33").is_none());
}

#[test]
fn format_element_3_5_64_0_18_shows_mask() {
    // After reduce_intervals, an element for 3.5.64.0/18 should have
    // key = 3.5.64.0 and key_end = 3.5.127.255 (inclusive).
    let e = Elem {
        key: vec![3, 5, 64, 0],
        is_end: false,
        key_end: vec![3, 5, 127, 255],
        timeout_ms: None,
        expiration_ms: None,
    };
    assert_eq!(format_element(&e), "3.5.64.0/18");
}

#[test]
fn format_element_single_ip_no_mask() {
    let e = Elem {
        key: vec![10, 0, 0, 1],
        is_end: false,
        key_end: vec![],
        timeout_ms: None,
        expiration_ms: None,
    };
    assert_eq!(format_element(&e), "10.0.0.1");
}

#[test]
fn format_element_with_timeout() {
    let e = Elem {
        key: vec![192, 168, 1, 1],
        is_end: false,
        key_end: vec![],
        timeout_ms: Some(3_600_000),
        expiration_ms: None,
    };
    assert_eq!(format_element(&e), "192.168.1.1 timeout 1h");
}

#[test]
fn format_element_range_fallback() {
    // A range that can't collapse to CIDR (misaligned) shows start-end.
    let e = Elem {
        key: vec![10, 0, 0, 5],
        is_end: false,
        key_end: vec![10, 0, 0, 10],
        timeout_ms: None,
        expiration_ms: None,
    };
    assert_eq!(format_element(&e), "10.0.0.5-10.0.0.10");
}

fn elem(key: &[u8], key_end: &[u8], is_end: bool) -> Elem {
    Elem {
        key: key.to_vec(),
        is_end,
        key_end: key_end.to_vec(),
        timeout_ms: None,
        expiration_ms: None,
    }
}

#[test]
fn intervals_of_other_shapes_are_no_blocks() {
    assert!(interval_to_cidr(&[10, 0, 0, 1], &[10, 0, 0, 0]).is_none());
    assert!(interval_to_cidr(&[10, 0, 0, 0], &[10, 0, 0]).is_none());
    let (a, plen, bits) = interval_to_cidr(&[10, 0, 0, 4], &[10, 0, 0, 7]).unwrap();
    assert_eq!(a, vec![10, 0, 0, 4]);
    assert_eq!((plen, bits), (30, 32));
}

#[test]
fn durations_are_read_back() {
    for ms in [0, 1, 999, 1_000, 59_999, 86_399_999, 90_061_001, u64::MAX] {
        let text = format_duration(ms);
        assert!(duration_fits(&text));
        assert_eq!(parse_duration(&text), Some(ms));
    }
}

#[test]
fn durations_in_other_forms() {
    assert_eq!(parse_duration("30s1h"), Some(3_630_000));
    assert_eq!(parse_duration("1m1ms"), Some(60_001));
    assert_eq!(parse_duration("5"), None);
    assert_eq!(parse_duration("s"), None);
    assert_eq!(parse_duration("1h 30m"), None);
    assert_eq!(parse_duration("1h-1m"), None);
    assert_eq!(format_duration(90_061_001), "1d1h1m1s1ms");
}

#[test]
fn durations_that_do_not_fit() {
    assert!(duration_fits("18446744073709551615ms"));
    assert!(!duration_fits("18446744073709551616ms"));
    assert!(!duration_fits("18446744073709551615s"));
    assert!(!duration_fits("18446744073709551615ms1ms"));
    assert!(duration_fits("nonsense"));
}

#[test]
fn addresses_in_other_forms() {
    assert_eq!(parse_addr("0.0.0.0"), Some(vec![0, 0, 0, 0]));
    assert_eq!(parse_addr("256.0.0.0"), None);
    assert_eq!(parse_addr("01.0.0.0"), None);
    assert_eq!(parse_addr("1.2.3"), None);
    assert_eq!(parse_addr("1.2.3.4.5"), None);
    assert_eq!(parse_addr(""), None);
    assert_eq!(parse_addr("::"), Some(vec![0; 16]));
    let mut mapped = vec![0u8; 16];
    mapped[10] = 0xff;
    mapped[11] = 0xff;
    mapped[12] = 1;
    mapped[13] = 2;
    mapped[14] = 3;
    mapped[15] = 4;
    assert_eq!(parse_addr("::ffff:1.2.3.4"), Some(mapped));
    assert_eq!(parse_addr("1::2::3"), None);
    assert_eq!(parse_addr("1:2:3:4:5:6:7"), None);
    assert_eq!(parse_addr("1:2:3:4:5:6:7:8:9"), None);
    assert_eq!(parse_addr("1:2:3:4:5:6:7::"), Some(vec![
        0, 1, 0, 2, 0, 3, 0, 4, 0, 5, 0, 6, 0, 7, 0, 0,
    ]));
    assert_eq!(parse_addr("1:2:3:4::5:6:7:8"), None);
    assert_eq!(parse_addr("12345::"), None);
    assert_eq!(parse_addr("g::"), None);
}

#[test]
fn addresses_are_read_back() {
    for a in [vec![0, 0, 0, 0], vec![1, 20, 255, 0], vec![0xab; 16], vec![0; 16]] {
        let text = format_addr(&a, 8 * a.len() as u32);
        assert_eq!(parse_addr(&text), Some(a));
    }
}

#[test]
fn elements_with_a_prefix() {
    assert_eq!(parse_element("10.1.2.3/8"), Some((vec![10, 0, 0, 0], Some(vec![10, 255, 255, 255]))));
    assert_eq!(parse_element("10.1.2.3/0"), Some((vec![0, 0, 0, 0], Some(vec![255, 255, 255, 255]))));
    assert_eq!(parse_element("10.1.2.3/32"), Some((vec![10, 1, 2, 3], Some(vec![10, 1, 2, 3]))));
    assert_eq!(parse_element("10.1.2.3/+24"), Some((vec![10, 1, 2, 0], Some(vec![10, 1, 2, 255]))));
    assert_eq!(parse_element("10.1.2.3/"), None);
    assert_eq!(parse_element("10.1.2.3/-1"), None);
    assert_eq!(parse_element("10.1.2.3/4294967296"), None);
    assert_eq!(parse_element("10.1.2.3/24/25"), None);
    let (k, ke) = parse_element("2001:db8::1/125").unwrap();
    assert_eq!(k[15], 0);
    assert_eq!(ke.unwrap()[15], 7);
}

#[test]
fn a_block_is_read_back() {
    let (key, key_end) = parse_element("172.16.9.1/20").unwrap();
    let e = elem(&key, &key_end.unwrap(), false);
    assert_eq!(format_element(&e), "172.16.0.0/20");
    let (key2, key_end2) = parse_element(&format_element(&e)).unwrap();
    assert_eq!(key2, e.key);
    assert_eq!(key_end2, Some(e.key_end));
}

#[test]
fn other_keys_and_markers() {
    assert_eq!(format_element(&elem(&[10, 0, 0, 1], &[], true)), "10.0.0.1 (interval-end)");
    assert_eq!(hex(&[0xde, 0xad, 0x01]), "dead01");
    assert_eq!(format_key(&[0xde, 0xad, 0x01]), "dead01");
    assert_eq!(format_element(&elem(&[], &[], false)), "");
    let mut e = elem(&[1, 2, 3, 4], &[], false);
    e.timeout_ms = Some(60_000);
    e.expiration_ms = Some(1_500);
    assert_eq!(suffice(&e), " timeout 1m expires 1s500ms");
    assert_eq!(format_element(&e), "1.2.3.4 timeout 1m expires 1s500ms");
}
