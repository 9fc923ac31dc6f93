//! Requests and replies as bytes.

use nft_set_elem::attr::{iter_attrs, unwrap_data_value, NlAttr, Table};
use nft_set_elem::dump::is_interval_set;
use nft_set_elem::nl::{
    add_element_batch, add_elements_batch, align_up, batch_fits, collect_elements, collect_flags,
    delete_element_batch, errno_to_msg, put_elem_into_list, query_fits, read_batch_reply,
    read_query_reply, received, reduce_intervals, refusal_message, replace_element_batch,
    set_contains_ip, set_elements_request, set_flags_request, timeout_message, AddElem, ByteOrder,
    Elem, IntervalOverflow, Message, MsgBuf, Outcome, Received,
};
use nft_set_elem::order::{from_bytes, to_bytes};
use nft_set_elem::reply::{iter_frames, read_reply, End};

const LE: ByteOrder = ByteOrder::Little;
const BE: ByteOrder = ByteOrder::Big;

#[test]
fn the_order_of_the_host() {
    let expected = if 1u16.to_ne_bytes() == [1, 0] { LE } else { BE };
    assert_eq!(ByteOrder::host(), expected);
    assert_eq!(to_bytes(ByteOrder::host(), 0x0102_0304, 4), 0x0102_0304u32.to_ne_bytes().to_vec());
}

#[test]
fn numbers_are_read_back() {
    for order in [LE, BE] {
        let b = to_bytes(order, 0x1122_3344_5566_7788, 8);
        assert_eq!(from_bytes(order, &b, 0, 8), 0x1122_3344_5566_7788);
    }
    assert_eq!(to_bytes(LE, 0x1234, 2), vec![0x34, 0x12]);
    assert_eq!(to_bytes(BE, 0x1234, 2), vec![0x12, 0x34]);
    assert_eq!(to_bytes(BE, 0x12345, 2), vec![0x23, 0x45]);
}

#[test]
fn rounding_up() {
    assert_eq!(align_up(0, 4), 0);
    assert_eq!(align_up(1, 4), 4);
    assert_eq!(align_up(4, 4), 4);
    assert_eq!(align_up(13, 8), 16);
}

#[test]
fn a_buffer_grows_by_attributes() {
    let mut buf = MsgBuf::new(LE);
    buf.put_attr_stringz(7, "abcd");
    assert_eq!(buf.as_bytes(), &[9, 0, 7, 0, b'a', b'b', b'c', b'd', 0, 0, 0, 0]);
    let anchor = buf.open_nest(2);
    assert_eq!(anchor, 12);
    buf.put_attr(1, 0x4000, &[9, 9]);
    buf.close_nest(anchor);
    assert_eq!(&buf.as_bytes()[12..], &[12, 0, 2, 0x80, 6, 0, 1, 0x40, 9, 9, 0, 0]);
}

#[test]
fn attributes_are_read_back() {
    for order in [LE, BE] {
        let mut buf = MsgBuf::new(order);
        buf.put_attr(5, 0, &[1, 2, 3]);
        buf.put_attr(6, 0x4000, &[]);
        let items = iter_attrs(order, buf.as_bytes());
        assert_eq!(items.len(), 2);
        assert_eq!(items[0].raw_type, 5);
        assert_eq!(items[0].payload, &[1, 2, 3]);
        assert_eq!(items[1].raw_type, 0x4006);
        assert_eq!(items[1].attr_type(), 6);
        assert_eq!(items[1].payload.len(), 0);
    }
}

#[test]
fn malformed_attributes_end_the_list() {
    assert_eq!(iter_attrs(LE, &[]).len(), 0);
    assert_eq!(iter_attrs(LE, &[4, 0, 1]).len(), 0);
    assert_eq!(iter_attrs(LE, &[3, 0, 1, 0]).len(), 0);
    assert_eq!(iter_attrs(LE, &[9, 0, 1, 0, 5, 5, 5, 5]).len(), 0);
    // The last attribute needs no padding.
    assert_eq!(iter_attrs(LE, &[5, 0, 1, 0, 7]).len(), 1);
}

#[test]
fn the_last_of_two_attributes_wins() {
    let mut buf = MsgBuf::new(LE);
    buf.put_attr(3, 0, &[0, 0, 0, 1]);
    buf.put_attr(3, 0, &[0, 0, 0, 2, 99]);
    let table = Table::new(iter_attrs(LE, buf.as_bytes()));
    assert_eq!(table.get(3).unwrap().as_u32_be(), 2);
    assert!(table.get(4).is_none());
    let a = NlAttr { raw_type: 0x8004, payload: &[0, 0, 0, 0, 0, 0, 1, 0, 0] };
    assert_eq!(a.as_u64_be(), 256);
}

#[test]
fn a_key_is_the_first_value_inside() {
    let mut buf = MsgBuf::new(LE);
    buf.put_attr(2, 0, &[7]);
    buf.put_attr(1, 0, &[8]);
    buf.put_attr(1, 0, &[9]);
    let outer = NlAttr { raw_type: 1, payload: buf.as_bytes() };
    assert_eq!(unwrap_data_value(LE, &outer), Some(vec![8]));
    assert_eq!(unwrap_data_value(LE, &NlAttr { raw_type: 1, payload: &[] }), None);
}

#[test]
fn an_element_out_of_its_attributes() {
    let mut buf = MsgBuf::new(BE);
    let key = buf.open_nest(1);
    buf.put_attr(1, 0, &[1, 1, 1, 1]);
    buf.close_nest(key);
    let end = buf.open_nest(10);
    buf.put_attr(1, 0, &[1, 1, 2, 0]);
    buf.close_nest(end);
    buf.put_attr(4, 0, &[0, 0, 0, 0, 0, 0, 0, 5]);
    buf.put_attr(5, 0, &[0, 0, 0, 0, 0, 0, 0, 3]);
    let table = Table::new(iter_attrs(BE, buf.as_bytes()));
    assert!(Elem::attrs_readable(BE, &table));
    let e = Elem::from_attrs(BE, &table).unwrap();
    assert_eq!(e.key, vec![1, 1, 1, 1]);
    assert_eq!(e.key_end, vec![1, 1, 2, 0]);
    assert!(!e.is_end);
    assert_eq!((e.timeout_ms, e.expiration_ms), (Some(5), Some(3)));
    assert!(Elem::from_attrs(BE, &Table::new(vec![])).is_none());

    buf.put_attr(3, 0, &[0, 0, 1]);
    let table = Table::new(iter_attrs(BE, buf.as_bytes()));
    assert!(!Elem::attrs_readable(BE, &table));
}

#[test]
fn the_request_for_flags() {
    assert_eq!(
        set_flags_request(LE, 2, "t", "s", 7),
        vec![
            0x24, 0, 0, 0, 0x0a, 0x0a, 0x05, 0, 7, 0, 0, 0, 0, 0, 0, 0, 2, 0, 0, 0, 6, 0, 1, 0,
            b't', 0, 0, 0, 6, 0, 2, 0, b's', 0, 0, 0,
        ]
    );
    assert!(query_fits("t", "s"));
}

#[test]
fn the_request_for_elements() {
    assert_eq!(
        set_elements_request(BE, 10, "t", "s", 7),
        vec![
            0, 0, 0, 0x24, 0x0a, 0x0d, 0x03, 0x05, 0, 0, 0, 7, 0, 0, 0, 0, 10, 0, 0, 0, 0, 6, 0, 1,
            b't', 0, 0, 0, 0, 6, 0, 2, b's', 0, 0, 0,
        ]
    );
}

#[test]
fn the_batch_for_a_plain_set() {
    let b = add_element_batch(LE, 2, "t", "s", false, &[1, 2, 3, 4], Some(&[9, 9, 9, 9]), None, true, 5)
        .unwrap();
    let mut expected = vec![0x14, 0, 0, 0, 0x10, 0, 1, 0, 5, 0, 0, 0, 0, 0, 0, 0, 0, 0, 0, 10];
    expected.extend([0x38, 0, 0, 0, 0x0c, 0x0a, 0x05, 0x06, 6, 0, 0, 0, 0, 0, 0, 0, 2, 0, 0, 0]);
    expected.extend([6, 0, 1, 0, b't', 0, 0, 0, 6, 0, 2, 0, b's', 0, 0, 0]);
    expected.extend([0x14, 0, 3, 0x80, 0x10, 0, 1, 0x80, 0x0c, 0, 1, 0x80, 8, 0, 1, 0, 1, 2, 3, 4]);
    expected.extend([0x14, 0, 0, 0, 0x11, 0, 1, 0, 7, 0, 0, 0, 0, 0, 0, 0, 0, 0, 0, 10]);
    assert_eq!(b.bytes, expected);
    assert_eq!(b.seqs, vec![6]);
}

#[test]
fn the_list_for_an_interval_set() {
    let mut buf = MsgBuf::new(LE);
    let r = put_elem_into_list(&mut buf, true, &[10, 0, 0, 0], Some(&[10, 0, 0, 255]), Some(258));
    assert_eq!(r, Ok(()));
    let mut expected = vec![0x1c, 0, 1, 0x80, 0x0c, 0, 1, 0x80, 8, 0, 1, 0, 10, 0, 0, 0];
    expected.extend([0x0c, 0, 4, 0, 0, 0, 0, 0, 0, 0, 1, 2]);
    expected.extend([0x18, 0, 1, 0x80, 0x0c, 0, 1, 0x80, 8, 0, 1, 0, 10, 0, 1, 0]);
    expected.extend([8, 0, 3, 0, 0, 0, 0, 1]);
    assert_eq!(buf.as_bytes(), expected.as_slice());
}

#[test]
fn an_interval_with_no_key_behind_it() {
    let all = [255u8; 4];
    let mut buf = MsgBuf::new(LE);
    assert_eq!(put_elem_into_list(&mut buf, true, &all, None, None), Err(IntervalOverflow));
    assert_eq!(buf.as_bytes().len(), 16);
    assert!(add_element_batch(LE, 2, "t", "s", true, &[0, 0, 0, 0], Some(&all), None, false, 1).is_err());
    assert!(add_element_batch(LE, 2, "t", "s", false, &all, None, None, false, 1).is_ok());
    assert!(delete_element_batch(LE, 2, "t", "s", true, &all, None, 1).is_err());
    assert!(replace_element_batch(LE, 2, "t", "s", true, &[1; 4], None, &all, None, None, false, 1).is_err());
    assert!(replace_element_batch(LE, 2, "t", "s", true, &all, None, &[1; 4], None, None, false, 1).is_err());
    let good = AddElem { key: &[1; 4], key_end: None, timeout_ms: None };
    let bad = AddElem { key: &all, key_end: None, timeout_ms: None };
    assert!(add_elements_batch(LE, 2, "t", "s", true, &[good, bad], false, 1).is_err());
}

#[test]
fn an_added_interval_is_read_back() {
    for order in [LE, BE] {
        let b = add_element_batch(
            order, 2, "filter", "my_set", true, &[10, 0, 0, 0], Some(&[10, 0, 0, 255]), Some(60_000), false, 40,
        )
        .unwrap();
        let fs = iter_frames(order, &b.bytes);
        assert_eq!(fs.len(), 3);
        assert_eq!((fs[0].kind, fs[0].seq), (0x10, 40));
        assert_eq!((fs[1].kind, fs[1].seq), (0x0a0c, 41));
        assert_eq!((fs[2].kind, fs[2].seq), (0x11, 42));
        let msgs = [Message { kind: fs[1].kind, body: fs[1].body }];
        let raw = collect_elements(order, &msgs).unwrap();
        assert_eq!(raw.len(), 2);
        assert!(!raw[0].is_end && raw[1].is_end);
        assert!(set_contains_ip(&raw, true, &[10, 0, 0, 255]));
        assert!(!set_contains_ip(&raw, true, &[10, 0, 1, 0]));
        let out = reduce_intervals(raw, true);
        assert_eq!(out.len(), 1);
        assert_eq!(out[0].key, vec![10, 0, 0, 0]);
        assert_eq!(out[0].key_end, vec![10, 0, 0, 255]);
        assert_eq!(out[0].timeout_ms, Some(60_000));
    }
}

#[test]
fn a_deletion_has_its_own_type_and_flags() {
    let b = delete_element_batch(BE, 2, "t", "s", false, &[1, 2, 3, 4], None, 0).unwrap();
    assert_eq!(&b.bytes[24..28], &[0x0a, 0x0e, 0x00, 0x05]);
    assert_eq!(b.seqs, vec![1]);
}

#[test]
fn a_replacement_deletes_and_then_adds() {
    let b = replace_element_batch(
        LE, 2, "t", "s", false, &[1; 4], None, &[2; 4], None, Some(1_000), false, 9,
    )
    .unwrap();
    assert_eq!(b.seqs, vec![10, 11]);
    let fs = iter_frames(LE, &b.bytes);
    let kinds: Vec<u16> = fs.iter().map(|f| f.kind).collect();
    let seqs: Vec<u32> = fs.iter().map(|f| f.seq).collect();
    assert_eq!(kinds, vec![0x10, 0x0a0e, 0x0a0c, 0x11]);
    assert_eq!(seqs, vec![9, 10, 11, 12]);
    let msgs = [Message { kind: 0, body: fs[1].body }, Message { kind: 0, body: fs[2].body }];
    let es = collect_elements(LE, &msgs).unwrap();
    assert_eq!(es[0].key, vec![1; 4]);
    assert_eq!(es[0].timeout_ms, None);
    assert_eq!(es[1].key, vec![2; 4]);
    assert_eq!(es[1].timeout_ms, Some(1_000));
}

#[test]
fn a_batch_of_many_elements() {
    let elements = [
        AddElem { key: &[1; 4], key_end: None, timeout_ms: None },
        AddElem { key: &[2; 4], key_end: None, timeout_ms: Some(7) },
        AddElem { key: &[3; 4], key_end: None, timeout_ms: None },
    ];
    assert!(batch_fits("t", "s", false, &elements));
    // The sequence numbers start again after the largest.
    let b = add_elements_batch(LE, 2, "t", "s", false, &elements, false, u32::MAX - 1).unwrap();
    assert_eq!(b.seqs, vec![u32::MAX, 0, 1]);
    let fs = iter_frames(LE, &b.bytes);
    assert_eq!(fs.len(), 5);
    assert_eq!(fs[4].seq, 2);
    assert_eq!(fs[4].kind, 0x11);
    for i in 0..3 {
        assert_eq!(fs[i + 1].seq, b.seqs[i]);
        let es = collect_elements(LE, &[Message { kind: 0, body: fs[i + 1].body }]).unwrap();
        assert_eq!(es[0].key, elements[i].key);
        assert_eq!(es[0].timeout_ms, elements[i].timeout_ms);
    }
    assert!(batch_fits("t", "s", true, &[]));
    let none = add_elements_batch(LE, 2, "t", "s", true, &[], true, 3).unwrap();
    assert_eq!(none.bytes.len(), 40);
    assert_eq!(none.seqs.len(), 0);
}

/// A message of a reply in little-endian order.
fn msg(kind: u16, seq: u32, pid: u32, body: &[u8]) -> Vec<u8> {
    let mut m = to_bytes(LE, 16 + body.len() as u64, 4);
    m.extend(to_bytes(LE, kind as u64, 2));
    m.extend([0, 0]);
    m.extend(to_bytes(LE, seq as u64, 4));
    m.extend(to_bytes(LE, pid as u64, 4));
    m.extend(body);
    while m.len() % 4 != 0 {
        m.push(0);
    }
    m
}

fn error(seq: u32, errno: i32) -> Vec<u8> {
    msg(2, seq, 77, &errno.to_le_bytes())
}

fn flags_body(flags: u8) -> Vec<u8> {
    vec![2, 0, 0, 0, 8, 0, 3, 0, 0, 0, 0, flags]
}

#[test]
fn a_reply_with_flags() {
    let d = msg(0x0a09, 5, 77, &flags_body(4));
    let (msgs, outcome) = read_query_reply(LE, &d, 77, 5, false);
    assert_eq!(outcome, Outcome::Finished);
    assert_eq!(collect_flags(LE, &msgs, 0), Some(4));
    assert!(is_interval_set(4));
    assert!(!is_interval_set(3));
    assert_eq!(collect_flags(LE, &[], 9), Some(9));
    let short = [Message { kind: 0, body: &[2, 0, 0, 0, 6, 0, 3, 0, 1, 2] }];
    assert_eq!(collect_flags(LE, &short, 0), None);
}

#[test]
fn the_flags_that_come_last_win() {
    let mut body = flags_body(1);
    body.extend([8, 0, 3, 0, 0, 0, 0, 2]);
    let other = [2, 0, 0, 0];
    let msgs = [Message { kind: 0, body: &body }, Message { kind: 0, body: &other }];
    assert_eq!(collect_flags(LE, &msgs, 0), Some(2));
}

#[test]
fn elements_that_are_cut_short() {
    let b = add_element_batch(LE, 2, "t", "s", false, &[1; 4], None, Some(1), false, 0).unwrap();
    let fs = iter_frames(LE, &b.bytes);
    let mut body = fs[1].body.to_vec();
    let n = body.len();
    // The timeout claims to have two bytes.
    body[n - 12] = 6;
    assert!(collect_elements(LE, &[Message { kind: 0, body: &body }]).is_none());
}

#[test]
fn an_acknowledgement_ends_a_single_reply_only() {
    let d = error(5, 0);
    assert_eq!(read_query_reply(LE, &d, 77, 5, false).1, Outcome::Finished);
    assert_eq!(read_query_reply(LE, &d, 77, 5, true).1, Outcome::More);
}

#[test]
fn a_dump_ends_with_done() {
    let mut d = msg(0x0a0c, 5, 77, &[2, 0, 0, 0]);
    assert_eq!(read_query_reply(LE, &d, 77, 5, true).1, Outcome::More);
    d.extend(msg(3, 5, 77, &[0; 4]));
    d.extend(msg(0x0a0c, 5, 77, &[2, 0, 0, 0]));
    let (msgs, outcome) = read_query_reply(LE, &d, 77, 5, true);
    assert_eq!(outcome, Outcome::Finished);
    assert_eq!(msgs.len(), 1);
}

#[test]
fn a_refusal_is_reported() {
    let mut d = msg(1, 5, 77, &[]);
    d.extend(error(6, 0));
    d.extend(error(5, -2));
    d.extend(msg(3, 5, 77, &[]));
    assert_eq!(read_query_reply(LE, &d, 77, 5, true).1, Outcome::Refused(-2));
    assert_eq!(read_batch_reply(LE, &d, 77, &[6, 5]).1, Outcome::Refused(-2));
    assert_eq!(refusal_message(-2), "kernel refused: ENOENT: no such set");
}

#[test]
fn messages_for_others_are_ignored() {
    let ours = msg(0x0a09, 5, 77, &flags_body(4));
    let mut d = msg(3, 5, 78, &[]);
    d.extend(msg(2, 4, 77, &[255, 255, 255, 255]));
    d.extend(&ours);
    let (msgs, outcome) = read_query_reply(LE, &d, 77, 5, false);
    let (only, same) = read_query_reply(LE, &ours, 77, 5, false);
    assert_eq!(outcome, same);
    assert_eq!(msgs.len(), only.len());
    assert_eq!(msgs[0].body, only[0].body);
}

#[test]
fn a_batch_is_finished_when_all_is_acknowledged() {
    let mut d = error(6, 0);
    d.extend(error(7, 0));
    let (_, outcome, left) = read_batch_reply(LE, &d, 77, &[6, 7]);
    assert_eq!(outcome, Outcome::Finished);
    assert_eq!(left.len(), 0);
    let (_, outcome, left) = read_batch_reply(LE, &d, 77, &[5, 6, 7, 8]);
    assert_eq!(outcome, Outcome::More);
    assert_eq!(left, vec![5, 8]);
    let (_, outcome, left) = read_batch_reply(LE, &[], 77, &[6]);
    assert_eq!(outcome, Outcome::More);
    assert_eq!(left, vec![6]);
    assert_eq!(read_batch_reply(LE, &[], 77, &[]).1, Outcome::Finished);
    let r = read_reply(LE, &d, 77, &[6, 7], true);
    assert_eq!(r.end, End::Acked);
    assert_eq!(read_reply(LE, &d, 77, &[], true).end, End::Exhausted);
}

#[test]
fn a_batch_is_read_over_several_datagrams() {
    let first = error(6, 0);
    let (_, outcome, left) = read_batch_reply(LE, &first, 77, &[6, 7]);
    assert_eq!(outcome, Outcome::More);
    assert_eq!(left, vec![7]);
    let (_, refused, _) = read_batch_reply(LE, &error(7, -17), 77, &left);
    assert_eq!(refused, Outcome::Refused(-17));
    let (_, finished, none) = read_batch_reply(LE, &error(7, 0), 77, &left);
    assert_eq!(finished, Outcome::Finished);
    assert_eq!(none.len(), 0);
    // An acknowledgement that is meant for another request.
    assert_eq!(read_batch_reply(LE, &error(5, 0), 77, &left).1, Outcome::More);
    // The end of the reply.
    assert_eq!(read_batch_reply(LE, &msg(3, 7, 77, &[]), 77, &left).1, Outcome::Finished);
}

#[test]
fn a_single_reply_ends_with_its_first_data() {
    let mut d = msg(0x0a09, 5, 77, &[2, 0, 0]);
    d.extend(msg(0x0a09, 5, 77, &flags_body(4)));
    d.extend(msg(0x0a09, 5, 77, &flags_body(1)));
    d.extend(error(5, -2));
    let (msgs, outcome) = read_query_reply(LE, &d, 77, 5, false);
    assert_eq!(outcome, Outcome::Finished);
    assert_eq!(msgs.len(), 1);
    assert_eq!(msgs[0].kind, 0x0a09);
    assert_eq!(collect_flags(LE, &msgs, 0), Some(4));
    assert_eq!(read_reply(LE, &d, 77, &[5], true).end, End::Answered);
    let (all, refused) = read_query_reply(LE, &d, 77, 5, true);
    assert_eq!(all.len(), 2);
    assert_eq!(refused, Outcome::Refused(-2));
}

#[test]
fn malformed_messages_end_a_datagram() {
    assert_eq!(iter_frames(LE, &[0; 15]).len(), 0);
    let mut d = msg(9, 5, 77, &[1, 2, 3, 4]);
    d[0] = 15;
    assert_eq!(iter_frames(LE, &d).len(), 0);
    d[0] = 21;
    assert_eq!(iter_frames(LE, &d).len(), 0);
    d[0] = 20;
    let fs = iter_frames(LE, &d);
    assert_eq!(fs.len(), 1);
    assert_eq!(fs[0].body, &[1, 2, 3, 4]);
    // An error without a number, and data without a header.
    assert_eq!(read_query_reply(LE, &msg(2, 5, 77, &[]), 77, 5, false).1, Outcome::More);
    let bare = msg(9, 5, 77, &[1]);
    let (msgs, outcome) = read_query_reply(LE, &bare, 77, 5, false);
    assert_eq!(msgs.len(), 0);
    assert_eq!(outcome, Outcome::More);
}

#[test]
fn what_to_do_with_a_buffer() {
    assert_eq!(received(0, 65536), Received::Nothing);
    assert_eq!(received(100, 65536), Received::Datagram);
    assert_eq!(received(65536, 65536), Received::Grow(131072));
    assert_eq!(received(200_000, 200_000), Received::Grow(262144));
    assert_eq!(received(262144, 262144), Received::Datagram);
}

#[test]
fn error_numbers_and_timeouts() {
    assert_eq!(errno_to_msg(-1), "EPERM: operation not permitted");
    assert_eq!(errno_to_msg(-2), "ENOENT: no such set");
    assert_eq!(errno_to_msg(-13), "EACCES: permission denied (need root/CAP_NET_ADMIN?)");
    assert_eq!(errno_to_msg(-22), "EINVAL: invalid argument");
    assert_eq!(errno_to_msg(-19), "ENODEV: no such set");
    assert_eq!(errno_to_msg(-38), "ENOSYS: not implemented");
    assert_eq!(errno_to_msg(-95), "EOPNOTSUPP: kernel reply: operation not supported");
    assert_eq!(errno_to_msg(-105), "ENOBUFS: kernel out of buffers");
    assert_eq!(errno_to_msg(-17), "errno 17");
    assert_eq!(errno_to_msg(5), "errno -5");
    assert_eq!(timeout_message(false), "recv timed out");
    assert_eq!(timeout_message(true), "kernel reply timed out waiting for NLMSG_DONE");
}

#[test]
fn a_reply_in_parts() {
    let a = msg(0x0a09, 5, 77, &flags_body(1));
    let b = msg(0x0a09, 5, 77, &flags_body(6));
    let (first, more) = read_query_reply(LE, &a, 77, 5, true);
    let (second, _) = read_query_reply(LE, &b, 77, 5, true);
    assert_eq!(more, Outcome::More);
    let parts = collect_flags(LE, &second, collect_flags(LE, &first, 0).unwrap());
    let mut whole = a.clone();
    whole.extend(&b);
    let (both, _) = read_query_reply(LE, &whole, 77, 5, true);
    assert_eq!(both.len(), 2);
    assert_eq!(collect_flags(LE, &both, 0), parts);
    assert_eq!(parts, Some(6));
}
