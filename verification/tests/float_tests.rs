use serpyco_rs::format_writer::{FORMAT_JSON, FORMAT_MSGPACK, Writer};
use serpyco_rs::msgpack_parser::{Kind, MsgpackParser};
use serpyco_rs::msgpack_writer::MsgpackWriter;

#[test]
fn float_parts_json_text() {
    let mut w = Writer::with_capacity(FORMAT_JSON, 8).unwrap();
    w.write_f64_parts(true, "1.5", 1.5f64.to_bits()).unwrap();
    assert_eq!(w.as_bytes(), b"1.5");
}

#[test]
fn float_parts_json_refuses_nan() {
    let mut w = Writer::with_capacity(FORMAT_JSON, 8).unwrap();
    let r = w.write_f64_parts(false, "", f64::NAN.to_bits());
    assert_eq!(r, Err("NaN and Infinity are not allowed in JSON"));
    assert_eq!(w.as_bytes(), b"");
}

#[test]
fn float_parts_msgpack_bits() {
    let mut w = Writer::with_capacity(FORMAT_MSGPACK, 8).unwrap();
    w.write_f64_parts(false, "", f64::INFINITY.to_bits()).unwrap();
    assert_eq!(w.as_bytes(), &[0xcb, 0x7f, 0xf0, 0, 0, 0, 0, 0, 0]);
}

#[test]
fn msgpack_f64_bits_big_endian() {
    let mut w = MsgpackWriter::with_capacity(4);
    w.write_f64_bits(1.5f64.to_bits());
    assert_eq!(w.as_bytes(), &[0xcb, 0x3f, 0xf8, 0, 0, 0, 0, 0, 0]);
}

#[test]
fn parser_depth_counts_open_containers() {
    let data = [0x91u8, 0x91, 0x01];
    let mut p = MsgpackParser::new(&data);
    assert_eq!(p.depth(), 0);
    assert_eq!(p.peek().unwrap(), Kind::Array);
    assert!(p.enter_array_known().unwrap());
    assert_eq!(p.depth(), 1);
    assert_eq!(p.peek().unwrap(), Kind::Array);
    assert!(p.enter_array_known().unwrap());
    assert_eq!(p.depth(), 2);
}
