use fdb_chat::keys::{
    decode_id, decode_key4, element as pack_element, id_value, message_key, messages_range, name_fits, recent_key,
    room_range, user_key,
};
use fdb_chat::stamp::Stamp;

fn element(s: &[u8]) -> Vec<u8> {
    let mut v = vec![0x02];
    v.extend_from_slice(s);
    v.push(0x00);
    v
}

#[test]
fn user_key_is_four_string_elements() {
    let mut expected = Vec::new();
    let parts: [&[u8]; 4] = [b"rooms", b"r1", b"users", b"alice"];
    for part in parts {
        expected.extend(element(part));
    }
    assert_eq!(user_key("r1", "alice"), expected);
}

#[test]
fn nul_in_a_name_is_escaped() {
    let key = user_key("a\0b", "u");
    let mut expected = element(b"rooms");
    expected.extend(vec![0x02, b'a', 0x00, 0xff, b'b', 0x00]);
    expected.extend(element(b"users"));
    expected.extend(element(b"u"));
    assert_eq!(key, expected);
}

#[test]
fn recent_key_and_ranges() {
    let mut prefix = element(b"rooms");
    prefix.extend(element(b"r1"));
    let mut recent = prefix.clone();
    recent.extend(element(b"most_recent_message"));
    assert_eq!(recent_key("r1"), recent);

    let mut messages = prefix.clone();
    messages.extend(element(b"messages"));
    let (begin, end) = messages_range("r1");
    let mut b = messages.clone();
    b.push(0x00);
    let mut e = messages.clone();
    e.push(0xff);
    assert_eq!(begin, b);
    assert_eq!(end, e);

    let (rb, re) = room_range("r1");
    let mut b = prefix.clone();
    b.push(0x00);
    let mut e = prefix;
    e.push(0xff);
    assert_eq!(rb, b);
    assert_eq!(re, e);
}

#[test]
fn message_key_decodes_to_its_parts() {
    let key = message_key("r\0oom", "2024-01-02T03:04:05.678Z");
    let (a, b, c, d) = decode_key4(&key).expect("four strings");
    assert_eq!(a, "rooms");
    assert_eq!(b, "r\0oom");
    assert_eq!(c, "messages");
    assert_eq!(d, "2024-01-02T03:04:05.678Z");
}

#[test]
fn foreign_keys_do_not_decode() {
    assert!(decode_key4(&recent_key("r1")).is_none());
    let mut key = message_key("r1", "x");
    key.push(0x02);
    assert!(decode_key4(&key).is_none());
    assert!(decode_key4(&[0x01, 0x61, 0x00]).is_none());
}

#[test]
fn identifier_value_round_trip() {
    let id = [7u8; 16];
    let v = id_value(&id);
    assert_eq!(v.len(), 17);
    assert_eq!(v[0], 0x30);
    assert_eq!(&v[1..], &id[..]);
    assert_eq!(decode_id(&v), Some(id));
    assert_eq!(decode_id(&v[..16]), None);
    assert_eq!(decode_id(&element(b"x")), None);
}

#[test]
fn stamp_validity() {
    assert!(Stamp::new(2024, 2, 29, 0, 0, 0, 0).is_some());
    assert!(Stamp::new(2023, 2, 29, 0, 0, 0, 0).is_none());
    assert!(Stamp::new(1900, 2, 29, 0, 0, 0, 0).is_none());
    assert!(Stamp::new(2000, 2, 29, 0, 0, 0, 0).is_some());
    assert!(Stamp::new(2024, 4, 31, 0, 0, 0, 0).is_none());
    assert!(Stamp::new(2024, 13, 1, 0, 0, 0, 0).is_none());
    assert!(Stamp::new(2024, 1, 1, 24, 0, 0, 0).is_none());
    assert!(Stamp::new(2024, 1, 1, 0, 0, 60, 0).is_none());
    assert!(Stamp::new(2024, 1, 1, 0, 0, 0, 1000).is_none());
    assert!(Stamp::new(10000, 1, 1, 0, 0, 0, 0).is_none());
    assert!(Stamp::new(0, 1, 1, 0, 0, 0, 0).is_some());
}

#[test]
fn stamp_text_is_fixed_width_rfc3339() {
    let t = Stamp::new(2024, 2, 29, 13, 5, 9, 7).unwrap();
    assert_eq!(t.to_text(), "2024-02-29T13:05:09.007Z");
    let t = Stamp::new(33, 12, 31, 23, 59, 59, 999).unwrap();
    assert_eq!(t.to_text(), "0033-12-31T23:59:59.999Z");
}

#[test]
fn stamp_text_round_trip() {
    let t = Stamp::new(2021, 7, 4, 1, 2, 3, 450).unwrap();
    assert_eq!(Stamp::from_text(&t.to_text()), Some(t));
}

#[test]
fn foreign_stamp_texts_are_refused() {
    assert_eq!(Stamp::from_text("2024-02-29T13:05:09.007+01:00"), None);
    assert_eq!(Stamp::from_text("2024-02-29T13:05:09.0071Z"), None);
    assert_eq!(Stamp::from_text("2024-02-29T13:05:09Z"), None);
    assert_eq!(Stamp::from_text("hello"), None);
    assert_eq!(Stamp::from_text(""), None);
}

#[test]
fn text_order_follows_time_order() {
    let stamps = [
        Stamp::new(999, 12, 31, 23, 59, 59, 999).unwrap(),
        Stamp::new(2023, 12, 31, 23, 59, 59, 999).unwrap(),
        Stamp::new(2024, 1, 1, 0, 0, 0, 0).unwrap(),
        Stamp::new(2024, 1, 1, 0, 0, 0, 1).unwrap(),
        Stamp::new(2024, 1, 1, 0, 0, 1, 0).unwrap(),
        Stamp::new(2024, 1, 1, 9, 59, 59, 999).unwrap(),
        Stamp::new(2024, 1, 1, 10, 0, 0, 0).unwrap(),
        Stamp::new(2024, 10, 1, 0, 0, 0, 0).unwrap(),
    ];
    for w in stamps.windows(2) {
        assert!(w[0].to_text() < w[1].to_text());
        assert!(message_key("r", &w[0].to_text()) < message_key("r", &w[1].to_text()));
    }
}

#[test]
fn earliest_and_latest_years_round_trip() {
    let first = Stamp::new(0, 1, 1, 0, 0, 0, 0).unwrap();
    assert_eq!(first.to_text(), "0000-01-01T00:00:00.000Z");
    assert_eq!(Stamp::from_text("0000-01-01T00:00:00.000Z"), Some(first));
    let last = Stamp::new(9999, 12, 31, 23, 59, 59, 999).unwrap();
    assert_eq!(Stamp::from_text(&last.to_text()), Some(last));
    let leap = Stamp::new(2000, 2, 29, 12, 0, 0, 0).unwrap();
    assert_eq!(Stamp::from_text(&leap.to_text()), Some(leap));
}

#[test]
fn single_element_and_name_bound() {
    assert_eq!(pack_element("ab"), vec![0x02, b'a', b'b', 0x00]);
    assert_eq!(pack_element(""), vec![0x02, 0x00]);
    assert_eq!(pack_element("\u{e9}"), vec![0x02, 0xc3, 0xa9, 0x00]);
    assert_eq!(pack_element("a\0"), vec![0x02, b'a', 0x00, 0xff, 0x00]);
    assert!(name_fits("alice"));
    assert!(name_fits(""));
}
