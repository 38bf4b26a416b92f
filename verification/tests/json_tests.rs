use serpyco_rs::json_scan::{Scan, ScanErrorKind, StrTok, unescape};
use serpyco_rs::json_writer::{JsonWriter, encode_map_key};
use serpyco_rs::stacks::ByteBuf;

#[test]
fn writer_object_drops_trailing_comma() {
    let mut w = JsonWriter::with_capacity(16);
    w.begin_map();
    w.map_key("a");
    w.write_i64(1);
    w.item_end();
    w.map_key("b");
    w.write_null();
    w.item_end();
    w.end_map();
    assert_eq!(w.as_bytes(), b"{\"a\":1,\"b\":null}");
}

#[test]
fn writer_empty_containers() {
    let mut w = JsonWriter::with_capacity(0);
    w.begin_array();
    w.begin_map();
    w.end_map();
    w.item_end();
    w.end_array();
    assert_eq!(w.as_bytes(), b"[{}]");
    let mut e = JsonWriter::with_capacity(0);
    e.begin_array();
    e.end_array();
    assert_eq!(e.as_bytes(), b"[]");
}

#[test]
fn writer_escapes_strings() {
    let mut w = JsonWriter::with_capacity(0);
    w.write_str("a\"b\\c\n\u{1}\u{8}\u{c}\r\t/é");
    assert_eq!(w.as_bytes(), "\"a\\\"b\\\\c\\n\\u0001\\b\\f\\r\\t/é\"".as_bytes());
}

#[test]
fn writer_escapes_long_strings() {
    let s = "0123456789abcdef\"0123456789abcdef\u{1f}xyz";
    let mut w = JsonWriter::with_capacity(0);
    w.write_str(s);
    assert_eq!(w.as_bytes(), b"\"0123456789abcdef\\\"0123456789abcdef\\u001fxyz\"");
}

#[test]
fn writer_numbers_and_bools() {
    let mut w = JsonWriter::with_capacity(0);
    w.begin_array();
    w.write_i64(i64::MIN);
    w.item_end();
    w.write_i64(0);
    w.item_end();
    w.write_bool(true);
    w.item_end();
    w.write_bool(false);
    w.item_end();
    w.write_raw_number("123456789012345678901234567890");
    w.item_end();
    w.end_array();
    assert_eq!(w.as_bytes(), b"[-9223372036854775808,0,true,false,123456789012345678901234567890]");
}

#[test]
fn writer_rollback_and_tail_is_null() {
    let mut w = JsonWriter::with_capacity(0);
    w.begin_map();
    let cp = w.checkpoint();
    w.map_key("x");
    let at = w.position();
    w.write_null();
    assert!(w.tail_is_null(at));
    w.rollback(cp);
    assert_eq!(w.as_bytes(), b"{");
    w.map_key("y");
    let at = w.position();
    w.write_i64(5);
    assert!(!w.tail_is_null(at));
}

#[test]
fn encoded_key_is_quoted_with_colon() {
    assert_eq!(encode_map_key("na\"me"), b"\"na\\\"me\":".to_vec());
    let mut w = JsonWriter::with_capacity(0);
    w.begin_map();
    w.map_key_encoded(&encode_map_key("k"));
    w.write_bool(true);
    w.item_end();
    w.end_map();
    assert_eq!(w.as_bytes(), b"{\"k\":true}");
}

#[test]
fn scan_object_keys_and_values() {
    let doc = b" { \"id\" : 42 , \"ok\":true,\"name\":\"x\\\"y\", \"n\": null } ";
    let mut s = Scan::new(doc);
    s.ws();
    s.enter_object().unwrap();
    assert_eq!(s.next_key(true).unwrap(), Some(&b"id"[..]));
    assert_eq!(s.take_i64().unwrap(), 42);
    assert_eq!(s.next_key(false).unwrap(), Some(&b"ok"[..]));
    assert_eq!(s.take_bool().unwrap(), true);
    assert_eq!(s.next_key(false).unwrap(), Some(&b"name"[..]));
    let mut buf = ByteBuf::new();
    assert_eq!(s.take_str_bytes(&mut buf).unwrap(), b"x\"y");
    assert_eq!(s.next_key(false).unwrap(), Some(&b"n"[..]));
    s.take_null().unwrap();
    assert_eq!(s.next_key(false).unwrap(), None);
    s.finish().unwrap();
}

#[test]
fn scan_integer_limits() {
    let mut s = Scan::new(b"-9223372036854775808");
    assert_eq!(s.take_i64().unwrap(), i64::MIN);
    let mut s = Scan::new(b"9223372036854775807");
    assert_eq!(s.take_i64().unwrap(), i64::MAX);
    let mut s = Scan::new(b"9223372036854775808");
    let e = s.take_i64().unwrap_err();
    assert_eq!(e.kind, ScanErrorKind::IntegerOutOfRange);
    assert_eq!(e.at, 0);
    let mut s = Scan::new(b"1.5");
    assert_eq!(s.take_i64().unwrap_err().kind, ScanErrorKind::ExpectedIntegerFoundFloat);
    let mut s = Scan::new(b"12345678901234567890");
    assert_eq!(s.take_i64().unwrap_err().kind, ScanErrorKind::ExpectedInteger);
    let mut s = Scan::new(b"-x");
    assert_eq!(s.take_i64().unwrap_err().kind, ScanErrorKind::ExpectedInteger);
}

#[test]
fn scan_errors_and_positions() {
    let mut s = Scan::new(b"{\"a\" 1}");
    s.enter_object().unwrap();
    let e = s.next_key(true).unwrap_err();
    assert_eq!(e.kind, ScanErrorKind::ExpectedColon);
    assert_eq!(e.at, 5);
    assert_eq!(e.message(), "expected ':'");
    let mut s = Scan::new(b"[1 2]");
    s.enter_array().unwrap();
    assert!(s.next_item(true).unwrap());
    s.take_i64().unwrap();
    let e = s.next_item(false).unwrap_err();
    assert_eq!(e.kind, ScanErrorKind::ExpectedCommaOrBracket);
    assert_eq!(e.at, 3);
    let mut s = Scan::new(b"1 x");
    s.take_i64().unwrap();
    let e = s.finish().unwrap_err();
    assert_eq!(e.kind, ScanErrorKind::TrailingData);
    assert_eq!(e.at, 2);
    let mut s = Scan::new(b"\"abc");
    let e = s.scan_string().err().unwrap();
    assert_eq!(e.kind, ScanErrorKind::UnterminatedString);
    assert_eq!(e.at, 1);
    let mut s = Scan::new(b"tru");
    assert_eq!(s.take_bool().unwrap_err().kind, ScanErrorKind::ExpectedBool);
    let mut s = Scan::new(b"nul");
    assert_eq!(s.take_null().unwrap_err().kind, ScanErrorKind::ExpectedNull);
}

#[test]
fn scan_string_shapes() {
    let mut s = Scan::new(b"\"plain\"");
    match s.scan_string().ok().unwrap() {
        StrTok::Ascii(b) => assert_eq!(b, b"plain"),
        _ => panic!("expected an ASCII token"),
    }
    let doc = "\"héllo\"".as_bytes();
    let mut s = Scan::new(doc);
    match s.scan_string().ok().unwrap() {
        StrTok::Utf8(b) => assert_eq!(b, "héllo".as_bytes()),
        _ => panic!("expected a UTF-8 token"),
    }
    let mut s = Scan::new(b"\"a\\\"b\" ");
    match s.scan_string().ok().unwrap() {
        StrTok::Escaped(b) => assert_eq!(b, b"a\\\"b"),
        _ => panic!("expected an escaped token"),
    }
    assert_eq!(s.position(), 6);
}

#[test]
fn unescape_forms() {
    let mut buf = ByteBuf::new();
    unescape(b"a\\n\\t\\/\\\\\\u00e9", &mut buf).unwrap();
    assert_eq!(buf.as_slice(), "a\n\t/\\é".as_bytes());
    unescape(b"\\ud83d\\ude00", &mut buf).unwrap();
    assert_eq!(buf.as_slice(), "😀".as_bytes());
    unescape(b"\\ud83dx", &mut buf).unwrap();
    assert_eq!(buf.as_slice(), "\u{fffd}x".as_bytes());
    unescape(b"\\u20AC", &mut buf).unwrap();
    assert_eq!(buf.as_slice(), "€".as_bytes());
}

#[test]
fn unescape_errors() {
    let mut buf = ByteBuf::new();
    let e = unescape(b"ab\\", &mut buf).unwrap_err();
    assert_eq!(e.kind, ScanErrorKind::TruncatedEscape);
    assert_eq!(e.at, 3);
    let e = unescape(b"\\q", &mut buf).unwrap_err();
    assert_eq!(e.kind, ScanErrorKind::InvalidEscape);
    assert_eq!(e.at, 2);
    let e = unescape(b"\\u12", &mut buf).unwrap_err();
    assert_eq!(e.kind, ScanErrorKind::TruncatedUnicodeEscape);
    let e = unescape(b"\\u12g4", &mut buf).unwrap_err();
    assert_eq!(e.kind, ScanErrorKind::InvalidUnicodeEscape);
    assert_eq!(e.at, 2);
}

#[test]
fn skip_nested_values() {
    let doc = b"{\"a\":[1,{\"b\":\"x\\\"\"},-2.5e3,true,null],\"c\":{}} ,";
    let mut s = Scan::new(doc);
    s.skip_value().unwrap();
    assert_eq!(s.position(), doc.len() - 2);
    let mut s = Scan::new(b"@");
    assert_eq!(s.skip_value().unwrap_err().kind, ScanErrorKind::UnexpectedToken);
}

#[test]
fn skip_depth_limit() {
    let mut doc = Vec::new();
    for _ in 0..70 {
        doc.push(b'[');
    }
    for _ in 0..70 {
        doc.push(b']');
    }
    let mut s = Scan::new(&doc);
    assert_eq!(s.skip_value().unwrap_err().kind, ScanErrorKind::RecursionLimitExceeded);
    let mut ok = Vec::new();
    for _ in 0..65 {
        ok.push(b'[');
    }
    for _ in 0..65 {
        ok.push(b']');
    }
    let mut s = Scan::new(&ok);
    s.skip_value().unwrap();
}

#[test]
fn skip_known_key_checks_plan() {
    let mut s = Scan::new(b"{\"id\":1,\"name\":2}");
    s.enter_object().unwrap();
    s.skip_known_key(2, true).unwrap();
    assert_eq!(s.take_i64().unwrap(), 1);
    s.skip_known_key(4, false).unwrap();
    assert_eq!(s.take_i64().unwrap(), 2);
    let mut s = Scan::new(b"{\"id\":1}");
    s.enter_object().unwrap();
    assert_eq!(s.skip_known_key(3, true).unwrap_err().kind, ScanErrorKind::PlanKeyLengthMismatch);
}

#[test]
fn written_string_reads_back() {
    let text = "quote\" back\\ nl\n tab\t ctl\u{2} é 😀";
    let mut w = JsonWriter::with_capacity(0);
    w.write_str(text);
    w.write_null();
    let bytes = w.as_bytes().to_vec();
    let mut s = Scan::new(&bytes);
    let mut buf = ByteBuf::new();
    assert_eq!(s.take_str_bytes(&mut buf).unwrap(), text.as_bytes());
    s.take_null().unwrap();
    s.finish().unwrap();
}

#[test]
fn written_integers_scan_back() {
    for v in [i64::MIN, -1234567890123, -1, 0, 7, 42, 9_007_199_254_740_993, i64::MAX] {
        let mut w = JsonWriter::with_capacity(32);
        w.write_i64(v);
        w.item_end();
        let bytes = w.as_bytes().to_vec();
        let mut s = Scan::new(&bytes);
        assert_eq!(s.take_i64().unwrap(), v);
        assert_eq!(s.position(), bytes.len() - 1);
    }
}
