//! Interval sets: reduction and membership.

use nft_set_elem::nl::{decrement_be, increment_be, reduce_intervals, set_contains_ip, Elem};

fn k(b: &[u8]) -> Vec<u8> { b.to_vec() }
fn single(bytes: &[u8], timeout: Option<u64>, exp: Option<u64>) -> Elem {
    Elem {
        key: bytes.to_vec(),
        is_end: false,
        key_end: Vec::new(),
        timeout_ms: timeout,
        expiration_ms: exp,
    }
}
fn end(bytes: &[u8]) -> Elem {
    Elem {
        key: bytes.to_vec(),
        is_end: true,
        key_end: Vec::new(),
        timeout_ms: None,
        expiration_ms: None,
    }
}

#[test]
fn interval_set_with_single_ips_yields_single_addresses() {
    // Simulating the kernel-ordered dump:
    //   [194] 1.2.3.5 end / [195] 1.2.3.4 start(1h timeout) /
    //   [196] 1.1.1.2 end / [197] 1.1.1.1 start /
    //   [198] 0.0.0.0 end (the leading "0/0" tidy marker)
    let raw = vec![
        end(&[1, 2, 3, 5]),
        single(&[1, 2, 3, 4], Some(3_600_000), Some(3_546_490)),
        end(&[1, 1, 1, 2]),
        single(&[1, 1, 1, 1], None, None),
        end(&[0, 0, 0, 0]),
    ];
    let out = reduce_intervals(raw, true);
    assert_eq!(out.len(), 2);
    // 1.1.1.1: low==high so key_end == low (after decrement of 1.1.1.2)
    assert_eq!(&out[0].key, &k(&[1, 1, 1, 1]));
    assert_eq!(&out[0].key_end, &k(&[1, 1, 1, 1]));
    assert_eq!(out[0].timeout_ms, None);
    assert_eq!(out[0].expiration_ms, None);
    // 1.2.3.4: similar, with the timeout carried from start.
    assert_eq!(&out[1].key, &k(&[1, 2, 3, 4]));
    assert_eq!(&out[1].key_end, &k(&[1, 2, 3, 4]));
    assert_eq!(out[1].timeout_ms, Some(3_600_000));
    assert_eq!(out[1].expiration_ms, Some(3_546_490));
}

#[test]
fn interval_set_cidr_24_pairs_to_single_element() {
    let raw = vec![
        single(&[192, 168, 0, 0], None, Some(5_000_000)),
        end(&[192, 168, 1, 0]),    // kernel half-open end: 192.168.1.0
    ];
    let out = reduce_intervals(raw, true);
    assert_eq!(out.len(), 1);
    assert_eq!(&out[0].key, &k(&[192, 168, 0, 0]));
    assert_eq!(&out[0].key_end, &k(&[192, 168, 0, 255])); // end-1
}

#[test]
fn plain_set_short_circuits_pairing() {
    let raw = vec![
        single(&[1, 2, 3, 4], Some(3_600_000), Some(3_000_000)),
        single(&[5, 6, 7, 8], None, None),
    ];
    let out = reduce_intervals(raw, false);
    assert_eq!(out.len(), 2);
    assert!(out[0].key_end.is_empty());
    assert!(out[1].key_end.is_empty());
}

#[test]
fn decrement_be_handles_borrow() {
    let mut b = vec![0u8, 0, 5];
    assert!(decrement_be(&mut b).is_some());
    assert_eq!(b, vec![0u8, 0, 4]);
    let mut c = vec![1u8, 0, 0];
    assert!(decrement_be(&mut c).is_some());
    assert_eq!(c, vec![0u8, 0xff, 0xff]);
}

#[test]
fn decrement_be_underflow_returns_none() {
    let mut d = vec![0u8; 4];
    assert!(decrement_be(&mut d).is_none());
    // On underflow the buffer is unchanged (all zeros).
    assert_eq!(d, vec![0u8, 0, 0, 0]);
    // Single zero byte also underflows.
    let mut e = vec![0u8];
    assert!(decrement_be(&mut e).is_none());
}

#[test]
fn decrement_be_empty_returns_none() {
    let mut empty: Vec<u8> = vec![];
    assert!(decrement_be(&mut empty).is_none());
}

#[test]
fn set_contains_ip_non_interval_exact_match() {
    let elems = vec![
        single(&[192, 168, 1, 1], None, None),
        single(&[10, 0, 0, 1], None, None),
    ];
    assert!(set_contains_ip(&elems, false, &[192, 168, 1, 1]));
    assert!(set_contains_ip(&elems, false, &[10, 0, 0, 1]));
    assert!(!set_contains_ip(&elems, false, &[192, 168, 1, 2]));
    assert!(!set_contains_ip(&elems, false, &[10, 0, 0, 0]));
}

#[test]
fn set_contains_ip_interval_range() {
    // Interval set: 10.0.0.0/24 as a raw start/end pair.
    let raw = vec![
        single(&[10, 0, 0, 0], None, None),
        end(&[10, 0, 1, 0]),    // exclusive end = 10.0.1.0
    ];
    assert!(set_contains_ip(&raw, true, &[10, 0, 0, 0]));   // network
    assert!(set_contains_ip(&raw, true, &[10, 0, 0, 1]));   // inside
    assert!(set_contains_ip(&raw, true, &[10, 0, 0, 255])); // broadcast
    assert!(!set_contains_ip(&raw, true, &[10, 0, 1, 0]));  // exclusive end
    assert!(!set_contains_ip(&raw, true, &[10, 0, 1, 1]));  // outside
    assert!(!set_contains_ip(&raw, true, &[9, 255, 255, 255])); // below
}

#[test]
fn set_contains_ip_interval_single_address() {
    // Single address in an interval set: start == end.
    let raw = vec![
        single(&[1, 2, 3, 4], None, None),
        end(&[1, 2, 3, 5]),     // exclusive end = 1.2.3.5
    ];
    assert!(set_contains_ip(&raw, true, &[1, 2, 3, 4]));
    assert!(!set_contains_ip(&raw, true, &[1, 2, 3, 5]));
    assert!(!set_contains_ip(&raw, true, &[1, 2, 3, 3]));
}

#[test]
fn set_contains_ip_interval_with_orphan_end() {
    // Orphan end marker at the front (e.g. the 0.0.0.0 tidy marker)
    // must be ignored; the only real element is 10.0.0.0/24.
    let raw = vec![
        end(&[0, 0, 0, 0]),
        single(&[10, 0, 0, 0], None, None),
        end(&[10, 0, 1, 0]),
    ];
    assert!(set_contains_ip(&raw, true, &[10, 0, 0, 1]));
    assert!(set_contains_ip(&raw, true, &[10, 0, 0, 255]));
    assert!(!set_contains_ip(&raw, true, &[0, 0, 0, 0]));
    assert!(!set_contains_ip(&raw, true, &[10, 0, 1, 0]));
}

#[test]
fn set_contains_ip_interval_key_end_form() {
    // Element with KEY + KEY_END (single-element form).
    // The kernel stores `key_end` as the **exclusive** upper bound,
    // so for a 192.168.0.0/24 range the exclusive end is 192.168.1.0.
    let raw = vec![
        Elem {
            key: vec![192, 168, 0, 0],
            is_end: false,
            key_end: vec![192, 168, 1, 0],  // exclusive upper bound
            timeout_ms: None,
            expiration_ms: None,
        },
    ];
    assert!(set_contains_ip(&raw, true, &[192, 168, 0, 0]));
    assert!(set_contains_ip(&raw, true, &[192, 168, 0, 100]));
    assert!(set_contains_ip(&raw, true, &[192, 168, 0, 255]));
    assert!(!set_contains_ip(&raw, true, &[192, 168, 1, 0]));
    assert!(!set_contains_ip(&raw, true, &[192, 168, 1, 1]));
}

#[test]
fn interval_set_3_5_64_0_18_properly_paired() {
    // ── Boundary-pair form ──
    let raw = vec![
        single(&[3, 5, 64, 0], None, None),
        end(&[3, 5, 128, 0]),   // exclusive end
    ];
    let out = reduce_intervals(raw, true);
    assert_eq!(out.len(), 1, "expected 1 paired element");
    assert_eq!(&out[0].key, &k(&[3, 5, 64, 0]));
    assert_eq!(&out[0].key_end, &k(&[3, 5, 127, 255]));

    // ── Single-element KEY_END form ──
    let raw = vec![
        Elem {
            key: vec![3, 5, 64, 0],
            is_end: false,
            key_end: vec![3, 5, 128, 0],
            timeout_ms: None,
            expiration_ms: None,
        },
    ];
    let out = reduce_intervals(raw, true);
    assert_eq!(out.len(), 1, "expected 1 paired element from KEY_END form");
    assert_eq!(&out[0].key, &k(&[3, 5, 64, 0]));
    assert_eq!(&out[0].key_end, &k(&[3, 5, 127, 255]));
}

#[test]
fn increment_be_works_correctly() {
    let mut b = vec![0u8; 4];
    assert!(increment_be(&mut b).is_some());
    assert_eq!(b, vec![0, 0, 0, 1]);

    let mut all_ff = vec![0xffu8; 4];
    assert!(increment_be(&mut all_ff).is_none());
    // On overflow the buffer is unchanged.
    assert_eq!(all_ff, vec![0xff, 0xff, 0xff, 0xff]);

    let mut carry = vec![0u8, 0, 0xff];
    assert!(increment_be(&mut carry).is_some());
    assert_eq!(carry, vec![0, 1, 0]);
}

#[test]
fn stepping_there_and_back_changes_nothing() {
    for key in [vec![0u8, 0, 0, 0], vec![1, 2, 3, 255], vec![0, 255, 255, 255]] {
        let mut b = key.clone();
        assert!(increment_be(&mut b).is_some());
        assert_ne!(b, key);
        assert!(decrement_be(&mut b).is_some());
        assert_eq!(b, key);
    }
    let mut empty: Vec<u8> = vec![];
    assert!(increment_be(&mut empty).is_none());
}

#[test]
fn membership_agrees_with_the_reduced_elements() {
    let raw = vec![
        end(&[10, 0, 1, 0]),
        single(&[10, 0, 0, 0], None, None),
        single(&[20, 0, 0, 1], None, None),
        single(&[20, 0, 0, 9], None, None),
    ];
    let reduced = reduce_intervals(raw.clone(), true);
    for a in 9..22u8 {
        for d in 0..12u8 {
            let ip = [a, 0, 0, d];
            let spanned = reduced.iter().any(|e| {
                if e.key_end.is_empty() {
                    e.key == ip
                } else {
                    e.key.as_slice() <= &ip[..] && &ip[..] <= e.key_end.as_slice()
                }
            });
            assert_eq!(set_contains_ip(&raw, true, &ip), spanned);
        }
    }
}

#[test]
fn both_forms_of_an_interval_reduce_to_the_same() {
    let pair = vec![single(&[3, 0, 0, 0], Some(5), None), end(&[3, 0, 0, 7])];
    let mut one = single(&[3, 0, 0, 0], Some(5), None);
    one.key_end = vec![3, 0, 0, 7];
    let a = reduce_intervals(pair, true);
    let b = reduce_intervals(vec![one], true);
    assert_eq!(a.len(), 1);
    assert_eq!(b.len(), 1);
    assert_eq!(a[0].key, b[0].key);
    assert_eq!(a[0].key_end, vec![3, 0, 0, 6]);
    assert_eq!(a[0].key_end, b[0].key_end);
    assert_eq!(a[0].timeout_ms, b[0].timeout_ms);
}

#[test]
fn an_end_without_its_flag_closes_a_block() {
    let raw = vec![single(&[8, 0, 0, 0], None, None), single(&[8, 0, 1, 0], None, Some(9))];
    let out = reduce_intervals(raw.clone(), true);
    assert_eq!(out.len(), 1);
    assert_eq!(out[0].key_end, vec![8, 0, 0, 255]);
    assert_eq!(out[0].expiration_ms, Some(9));
    assert!(set_contains_ip(&raw, true, &[8, 0, 0, 77]));
    assert!(!set_contains_ip(&raw, true, &[8, 0, 1, 0]));
}

#[test]
fn an_end_at_zero_closes_nothing() {
    let raw = vec![single(&[0, 0, 0, 0], None, None), end(&[0, 0, 0, 0])];
    assert!(!set_contains_ip(&raw, true, &[0, 0, 0, 0]));
    assert_eq!(reduce_intervals(raw, true).len(), 0);
    assert_eq!(reduce_intervals(vec![], true).len(), 0);
}

#[test]
fn an_empty_interval_holds_nothing() {
    let mut empty = single(&[4], None, None);
    empty.key_end = vec![4];
    assert!(!set_contains_ip(&[empty.clone()], true, &[4]));
    assert!(!set_contains_ip(&[empty.clone()], true, &[3]));
    let mut next = single(&[8], None, None);
    next.key_end = vec![12];
    let both = [empty.clone(), next.clone()];
    assert!(set_contains_ip(&both, true, &[9]));
    assert!(!set_contains_ip(&both, true, &[4]));
    assert!(!set_contains_ip(&both, true, &[5]));
    let out = reduce_intervals(vec![empty, next], true);
    assert_eq!(out.len(), 2);
    assert_eq!((out[0].key.clone(), out[0].key_end.clone()), (vec![4], vec![3]));
    assert_eq!((out[1].key.clone(), out[1].key_end.clone()), (vec![8], vec![11]));
}

#[test]
fn an_end_in_front_of_a_start_leaves_it_open() {
    let raw = vec![end(&[4]), single(&[4], None, None)];
    assert!(set_contains_ip(&raw, true, &[4]));
    let out = reduce_intervals(raw, true);
    assert_eq!(out.len(), 1);
    assert!(out[0].key_end.is_empty());
}

#[test]
fn an_empty_interval_where_two_others_touch() {
    let raw = vec![
        single(&[4], None, None),
        end(&[4]),
        end(&[4]),
        single(&[1], None, None),
        single(&[4], None, None),
        end(&[9]),
    ];
    let out = reduce_intervals(raw.clone(), true);
    assert_eq!(out.len(), 3);
    assert_eq!((out[0].key.clone(), out[0].key_end.clone()), (vec![1], vec![3]));
    assert_eq!((out[1].key.clone(), out[1].key_end.clone()), (vec![4], vec![3]));
    assert_eq!((out[2].key.clone(), out[2].key_end.clone()), (vec![4], vec![8]));
    assert!(set_contains_ip(&raw, true, &[4]));
    assert!(!set_contains_ip(&raw, true, &[9]));
}

#[test]
fn intervals_that_touch_stay_apart() {
    let raw = vec![
        end(&[10, 0, 2, 0]),
        single(&[10, 0, 1, 0], None, None),
        end(&[10, 0, 1, 0]),
        single(&[10, 0, 0, 0], None, None),
        end(&[0, 0, 0, 0]),
    ];
    for shift in 0..5 {
        let mut turned = raw.clone();
        turned.rotate_left(shift);
        assert!(set_contains_ip(&turned, true, &[10, 0, 0, 0]));
        assert!(set_contains_ip(&turned, true, &[10, 0, 1, 5]));
        assert!(set_contains_ip(&turned, true, &[10, 0, 1, 255]));
        assert!(!set_contains_ip(&turned, true, &[10, 0, 2, 0]));
        assert!(!set_contains_ip(&turned, true, &[9, 255, 255, 255]));
        let out = reduce_intervals(turned, true);
        assert_eq!(out.len(), 2);
        assert_eq!(out[0].key, vec![10, 0, 0, 0]);
        assert_eq!(out[0].key_end, vec![10, 0, 0, 255]);
        assert_eq!(out[1].key, vec![10, 0, 1, 0]);
        assert_eq!(out[1].key_end, vec![10, 0, 1, 255]);
    }
}

#[test]
fn intervals_that_touch_in_the_form_with_both_keys() {
    let mut a = single(&[10, 0, 1, 0], None, None);
    a.key_end = vec![10, 0, 1, 9];
    let mut b = single(&[10, 0, 0, 7], Some(3), None);
    b.key_end = vec![10, 0, 1, 0];
    let out = reduce_intervals(vec![a, b], true);
    assert_eq!(out.len(), 2);
    assert_eq!((out[0].key.clone(), out[0].key_end.clone()), (vec![10, 0, 0, 7], vec![10, 0, 0, 255]));
    assert_eq!(out[0].timeout_ms, Some(3));
    assert_eq!((out[1].key.clone(), out[1].key_end.clone()), (vec![10, 0, 1, 0], vec![10, 0, 1, 8]));
}

#[test]
fn starts_with_one_key_keep_their_order() {
    let raw = vec![
        single(&[5, 0, 0, 0], Some(1), None),
        end(&[5, 0, 0, 0]),
        single(&[4, 0, 0, 0], None, None),
        single(&[5, 0, 0, 0], Some(2), None),
    ];
    let out = reduce_intervals(raw, true);
    assert_eq!(out.len(), 3);
    assert_eq!(out[0].key_end, vec![4, 255, 255, 255]);
    assert_eq!((out[1].timeout_ms, out[2].timeout_ms), (Some(1), Some(2)));
    assert!(out[1].key_end.is_empty() && out[2].key_end.is_empty());
}

#[test]
fn the_order_of_a_dump_is_irrelevant() {
    let raw = vec![
        single(&[9, 0, 0, 0], None, None),
        end(&[9, 0, 0, 8]),
        single(&[7, 0, 0, 0], Some(1), None),
        end(&[7, 1, 0, 0]),
    ];
    let expected = reduce_intervals(raw.clone(), true);
    assert_eq!(expected.len(), 2);
    for shift in 1..4 {
        let mut turned = raw.clone();
        turned.rotate_left(shift);
        let out = reduce_intervals(turned, true);
        assert_eq!(out.len(), 2);
        for i in 0..2 {
            assert_eq!(out[i].key, expected[i].key);
            assert_eq!(out[i].key_end, expected[i].key_end);
            assert_eq!(out[i].timeout_ms, expected[i].timeout_ms);
        }
    }
}
