use serpyco_rs::datetime_text::{
    DateTimeValue, TzKind, parse_rfc3339, write_datetime, write_tz_offset,
    write_u32_padded,
};
use serpyco_rs::dates::{dump_date, dump_datetime, dump_time, parse_date, parse_datetime, parse_time};
use serpyco_rs::format_writer::{EncodedKey, FORMAT_JSON, FORMAT_MSGPACK, Writer};
use serpyco_rs::iterator_utils::IteratorUtils;
use serpyco_rs::str_kind::{PyUnicodeKind, find_str_kind, is_four_byte, str_kind_and_len};
use serpyco_rs::value_repr::{lossy_repr_truncated, push_bytes_repr, push_quoted, truncate_char_boundary};

#[test]
fn rfc3339_full_form() {
    let f = parse_rfc3339(b"2024-01-02T03:04:05.123456+05:30").unwrap();
    assert_eq!((f.year, f.month, f.day, f.hour, f.minute, f.second), (2024, 1, 2, 3, 4, 5));
    assert_eq!(f.microsecond, 123456);
    assert_eq!(f.offset, Some(5 * 3600 + 30 * 60));
}

#[test]
fn rfc3339_variants() {
    let f = parse_rfc3339(b"2011-12-13 14:15:16Z").unwrap();
    assert_eq!(f.offset, Some(0));
    assert_eq!(f.microsecond, 0);
    let f = parse_rfc3339(b"2011-12-13t14:15:16.5-0100").unwrap();
    assert_eq!(f.microsecond, 500000);
    assert_eq!(f.offset, Some(-3600));
    let f = parse_rfc3339(b"2011-12-13T14:15:16.1234567").unwrap();
    assert_eq!(f.microsecond, 123456);
    assert_eq!(f.offset, None);
    let f = parse_rfc3339(b"2011-12-13T14:15:16+0230").unwrap();
    assert_eq!(f.offset, Some(9000));
}

#[test]
fn rfc3339_rejects_malformed() {
    for s in [
        &b"2011-12-13"[..],
        b"2011/12/13T14:15:16",
        b"2011-12-13X14:15:16",
        b"2011-12-13T14:15:16.",
        b"2011-12-13T14:15:16Zx",
        b"2011-12-13T14:15:16+0a:00",
        b"20a1-12-13T14:15:16",
        b"2011-12-13T14:15:16+",
        b"2011-12-13T14:15:16+0",
        b"2011-12-13T14:15:16+05",
        b"2011-12-13T14:15:16+05:",
        b"2011-12-13T14:15:16+05:3",
        b"2011-12-13T14:15:16+05:300",
    ] {
        assert!(parse_rfc3339(s).is_none());
    }
    assert_eq!(parse_rfc3339(b"2011-12-13T14:15:16+05:30").unwrap().offset, Some(19800));
}

#[test]
fn padded_digits() {
    let mut out = Vec::new();
    write_u32_padded(&mut out, 7, 4);
    write_u32_padded(&mut out, 123, 2);
    write_u32_padded(&mut out, 5, 0);
    assert_eq!(out, b"000723");
}

#[test]
fn datetime_text_forms() {
    let mut out = Vec::new();
    let dt = DateTimeValue { year: 2024, month: 1, day: 2, hour: 3, minute: 4, second: 5, microsecond: 0, tz: TzKind::Utc };
    write_datetime(&mut out, &dt);
    assert_eq!(out, b"\"2024-01-02T03:04:05Z\"");
    let mut out = Vec::new();
    let dt = DateTimeValue { microsecond: 42, tz: TzKind::Other(Some(-5400)), ..dt };
    write_datetime(&mut out, &dt);
    assert_eq!(out, b"\"2024-01-02T03:04:05.000042-01:30\"");
    let mut out = Vec::new();
    write_datetime(&mut out, &DateTimeValue { tz: TzKind::Naive, microsecond: 0, ..dt });
    assert_eq!(out, b"\"2024-01-02T03:04:05\"");
    let mut out = Vec::new();
    write_tz_offset(&mut out, 0);
    write_tz_offset(&mut out, 3600);
    write_tz_offset(&mut out, -30);
    assert_eq!(out, b"Z+01:00-00:00");
}

#[test]
fn written_datetime_reads_back() {
    let dt = DateTimeValue { year: 1999, month: 12, day: 31, hour: 23, minute: 59, second: 58, microsecond: 999999, tz: TzKind::Other(Some(19800)) };
    let mut out = Vec::new();
    write_datetime(&mut out, &dt);
    let inner = &out[1..out.len() - 1];
    let f = parse_rfc3339(inner).unwrap();
    assert_eq!((f.year, f.month, f.day, f.hour, f.minute, f.second, f.microsecond), (1999, 12, 31, 23, 59, 58, 999999));
    assert_eq!(f.offset, Some(19800));
}

#[test]
fn speedate_round_trips() {
    let d = parse_date("2022-03-04").unwrap();
    assert_eq!((d.year, d.month, d.day), (2022, 3, 4));
    assert_eq!(dump_date(d), "2022-03-04");
    let t = parse_time("10:20:30.5").unwrap();
    assert_eq!((t.hour, t.minute, t.second, t.microsecond), (10, 20, 30, 500000));
    assert_eq!(dump_time(t, Some(0)), "10:20:30.500000Z");
    let dt = parse_datetime("2022-03-04T10:20:30+01:00").unwrap();
    assert_eq!(dt.time.tz_offset, Some(3600));
    assert_eq!(dump_datetime(dt.date, dt.time, None, true), "2022-03-04T10:20:30Z");
    assert_eq!(dump_datetime(dt.date, dt.time, None, false), "2022-03-04T10:20:30");
    assert_eq!(dump_datetime(dt.date, dt.time, Some(3600), false), "2022-03-04T10:20:30+01:00");
    let e = parse_date("nope").unwrap_err();
    assert!(e.starts_with("Fail parse datetime \""));
}

#[test]
fn string_layouts() {
    assert_eq!(str_kind_and_len("abc"), (PyUnicodeKind::Ascii, 3));
    assert_eq!(str_kind_and_len("héllo"), (PyUnicodeKind::OneByte, 5));
    assert_eq!(str_kind_and_len("€uro"), (PyUnicodeKind::TwoByte, 4));
    assert_eq!(str_kind_and_len("a😀"), (PyUnicodeKind::FourByte, 2));
    assert_eq!(find_str_kind("abcdefghijklmnopqrstuvwxyz😀", 27), PyUnicodeKind::FourByte);
    assert!(is_four_byte("0123456789012345678😀"));
    assert!(!is_four_byte("0123456789012345678€"));
}

#[test]
fn value_reprs() {
    assert_eq!(truncate_char_boundary("héllo", 2), "h");
    assert_eq!(truncate_char_boundary("héllo", 3), "hé");
    assert_eq!(truncate_char_boundary("abc", 10), "abc");
    let mut s = String::new();
    push_quoted(&mut s, "a'b\\c\n\u{1}d", '\'');
    assert_eq!(s, "'a\\'b\\\\c\\n\\x01d'");
    let mut s = String::new();
    push_bytes_repr(&mut s, &[b'a', b'\'', 0, 0x7f, b'\\', b'\t']);
    assert_eq!(s, "b'a\\'\\x00\\x7f\\\\\\t'");
    assert_eq!(lossy_repr_truncated(b"ok"), "ok");
    assert_eq!(lossy_repr_truncated(&[b'a', 0xff]), "a\u{fffd}");
    let long = vec![b'x'; 3000];
    let r = lossy_repr_truncated(&long);
    assert_eq!(r.chars().count(), 2049);
    assert!(r.ends_with('…'));
}

#[test]
fn writer_dispatch() {
    let mut j = Writer::with_capacity(FORMAT_JSON, 8).ok().unwrap();
    j.begin_map(Some(1));
    j.map_key_encoded(&EncodedKey::new("a"));
    j.write_i64(1);
    j.item_end();
    j.end_map();
    assert_eq!(j.as_bytes(), b"{\"a\":1}");
    assert!(j.write_bytes(&[1]).is_err());
    let mut m = Writer::with_capacity(FORMAT_MSGPACK, 8).ok().unwrap();
    m.begin_map(Some(1));
    m.map_key_encoded(&EncodedKey::new("a"));
    m.write_i64(1);
    m.item_end();
    m.end_map();
    assert_eq!(m.as_bytes(), &[0x81, 0xa1, b'a', 1]);
    assert!(m.write_bytes(&[1]).is_ok());
    assert!(Writer::with_capacity(7, 0).is_err());
}

#[test]
fn exact_size_iterator() {
    let mut it = vec![1, 2, 3].into_exact_size_iterator(3);
    assert_eq!(it.size_hint(), (3, Some(3)));
    assert_eq!(it.next(), Some(1));
    assert_eq!(it.size_hint(), (2, Some(2)));
    assert_eq!(it.next(), Some(2));
    assert_eq!(it.next(), Some(3));
    assert_eq!(it.size_hint(), (0, Some(0)));
}
