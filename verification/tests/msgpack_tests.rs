use serpyco_rs::decode_error::DecodeErrorKind;
use serpyco_rs::msgpack_parser::{Kind, MsgpackParser, ParsedInt, WireNumber};
use serpyco_rs::msgpack_writer::{MsgpackWriter, encode_map_key, parse_u64};

fn ints(values: &[i64]) -> Vec<u8> {
    let mut w = MsgpackWriter::with_capacity(0);
    for v in values {
        w.write_i64(*v);
    }
    w.as_bytes().to_vec()
}

#[test]
fn integer_encodings_are_minimal() {
    assert_eq!(ints(&[0]), vec![0x00]);
    assert_eq!(ints(&[127]), vec![0x7f]);
    assert_eq!(ints(&[128]), vec![0xcc, 0x80]);
    assert_eq!(ints(&[300]), vec![0xcd, 0x01, 0x2c]);
    assert_eq!(ints(&[70000]), vec![0xce, 0x00, 0x01, 0x11, 0x70]);
    assert_eq!(ints(&[-1]), vec![0xff]);
    assert_eq!(ints(&[-32]), vec![0xe0]);
    assert_eq!(ints(&[-33]), vec![0xd0, 0xdf]);
    assert_eq!(ints(&[-129]), vec![0xd1, 0xff, 0x7f]);
    assert_eq!(ints(&[i64::MIN]), vec![0xd3, 0x80, 0, 0, 0, 0, 0, 0, 0]);
}

#[test]
fn integers_read_back() {
    let values = [0i64, 1, -1, 127, 128, -33, 255, 256, 65535, 65536, -129, -32769, i64::MAX, i64::MIN, 4294967296];
    let bytes = ints(&values);
    let mut p = MsgpackParser::new(&bytes);
    for v in values.iter() {
        assert_eq!(p.peek().unwrap(), Kind::Num);
        match p.take_int_known().ok().unwrap() {
            ParsedInt::I64(x) => assert_eq!(x, *v),
            ParsedInt::BigU64(_) => panic!("expected an i64"),
        }
    }
    p.finish().unwrap();
}

#[test]
fn big_unsigned_reads_as_big_int() {
    let mut w = MsgpackWriter::with_capacity(0);
    w.write_big_int("18446744073709551615").unwrap();
    assert_eq!(w.as_bytes(), &[0xcf, 0xff, 0xff, 0xff, 0xff, 0xff, 0xff, 0xff, 0xff]);
    let bytes = w.as_bytes().to_vec();
    let mut p = MsgpackParser::new(&bytes);
    p.peek().unwrap();
    match p.take_int_known().ok().unwrap() {
        ParsedInt::BigU64(b) => assert_eq!(b, 18446744073709551615u64),
        ParsedInt::I64(_) => panic!("expected a big integer"),
    }
    assert!(w.write_big_int("18446744073709551616").is_err());
    assert!(w.write_big_int("-5").is_err());
    assert_eq!(parse_u64("+42"), Some(42));
    assert_eq!(parse_u64("4x"), None);
}

#[test]
fn strings_and_bytes() {
    let mut w = MsgpackWriter::with_capacity(0);
    w.write_str("a");
    let long = "x".repeat(40);
    w.write_str(&long);
    w.write_bytes(&[1, 2, 3]);
    let bytes = w.as_bytes().to_vec();
    assert_eq!(&bytes[0..2], &[0xa1, b'a']);
    assert_eq!(&bytes[2..4], &[0xd9, 40]);
    assert_eq!(&bytes[44..49], &[0xc4, 3, 1, 2, 3]);
    let mut p = MsgpackParser::new(&bytes);
    assert_eq!(p.peek().unwrap(), Kind::Str);
    assert_eq!(p.take_str_known().unwrap(), "a");
    assert_eq!(p.peek().unwrap(), Kind::Str);
    assert_eq!(p.take_str_known().unwrap(), long);
    assert_eq!(p.peek().unwrap(), Kind::Bytes);
    assert_eq!(p.take_bytes_known().unwrap(), &[1, 2, 3]);
    p.finish().unwrap();
}

#[test]
fn unsized_map_is_backpatched() {
    let mut w = MsgpackWriter::with_capacity(0);
    w.begin_map(None);
    w.map_key("a");
    w.write_null();
    w.item_end();
    w.map_key("b");
    w.write_bool(true);
    w.item_end();
    w.end_map();
    assert_eq!(w.as_bytes(), &[0xdf, 0, 0, 0, 2, 0xa1, b'a', 0xc0, 0xa1, b'b', 0xc3]);
}

#[test]
fn sized_containers_get_exact_headers() {
    let mut w = MsgpackWriter::with_capacity(0);
    w.begin_array(Some(2));
    w.write_i64(1);
    w.item_end();
    w.write_i64(2);
    w.item_end();
    w.end_array();
    assert_eq!(w.as_bytes(), &[0x92, 1, 2]);
}

#[test]
fn rollback_restores_item_count() {
    let mut w = MsgpackWriter::with_capacity(0);
    w.begin_map(None);
    w.map_key("a");
    w.write_i64(1);
    w.item_end();
    let cp = w.checkpoint();
    w.map_key("b");
    let at = w.position();
    w.write_null();
    assert!(w.tail_is_null(at));
    w.item_end();
    w.rollback(cp);
    w.end_map();
    assert_eq!(w.as_bytes(), &[0xdf, 0, 0, 0, 1, 0xa1, b'a', 1]);
}

#[test]
fn maps_read_back_with_keys() {
    let mut w = MsgpackWriter::with_capacity(0);
    w.begin_map(Some(2));
    w.map_key_encoded(&encode_map_key("x"));
    w.write_i64(7);
    w.item_end();
    w.map_key("y");
    w.begin_array(Some(1));
    w.write_bool(false);
    w.item_end();
    w.end_array();
    w.item_end();
    w.end_map();
    let bytes = w.as_bytes().to_vec();
    let mut p = MsgpackParser::new(&bytes);
    assert_eq!(p.enter_map().unwrap(), Some("x"));
    assert_eq!(p.peek().unwrap(), Kind::Num);
    assert_eq!(p.read_number().unwrap(), WireNumber::I64(7));
    assert_eq!(p.next_key().unwrap(), Some("y"));
    p.skip_value().unwrap();
    assert_eq!(p.next_key().unwrap(), None);
    p.finish().unwrap();
}

#[test]
fn decode_errors() {
    let mut p = MsgpackParser::new(&[0xc1]);
    assert_eq!(p.peek().unwrap_err().kind, DecodeErrorKind::ReservedMarker);
    let mut p = MsgpackParser::new(&[0xd4, 0, 0]);
    assert_eq!(p.peek().unwrap_err().kind, DecodeErrorKind::ExtensionUnsupported);
    let mut p = MsgpackParser::new(&[]);
    let e = p.peek().unwrap_err();
    assert_eq!(e.kind, DecodeErrorKind::UnexpectedEnd);
    assert_eq!(e.position, 0);
    let mut p = MsgpackParser::new(&[0xa3, b'a']);
    p.peek().unwrap();
    assert_eq!(p.take_str_known().unwrap_err().kind, DecodeErrorKind::UnexpectedEnd);
    let mut p = MsgpackParser::new(&[0xa2, 0xff, 0xfe]);
    p.peek().unwrap();
    assert_eq!(p.take_str_known().unwrap_err().kind, DecodeErrorKind::InvalidUtf8);
    let p = MsgpackParser::new(&[0xc0]);
    assert_eq!(p.finish().unwrap_err().kind, DecodeErrorKind::TrailingData);
}

#[test]
fn skip_value_over_nested_input() {
    let mut w = MsgpackWriter::with_capacity(0);
    w.begin_array(Some(3));
    w.begin_map(Some(1));
    w.map_key("k");
    w.write_str("v");
    w.item_end();
    w.end_map();
    w.item_end();
    w.write_bytes(&[9; 300]);
    w.item_end();
    w.write_i64(-1000);
    w.item_end();
    w.end_array();
    w.write_null();
    let bytes = w.as_bytes().to_vec();
    let mut p = MsgpackParser::new(&bytes);
    p.skip_value().unwrap();
    assert_eq!(p.peek().unwrap(), Kind::Null);
}
