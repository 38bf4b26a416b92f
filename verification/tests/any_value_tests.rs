use serpyco_rs::any_value::{AnyValue, AnyWriteError, DictEntry, FloatParts, write_any};
use serpyco_rs::context::Context;
use serpyco_rs::format_writer::{FORMAT_JSON, FORMAT_MSGPACK, Writer};
use serpyco_rs::msgpack_parser::MsgpackParser;

fn entry(key: &str, value: AnyValue) -> DictEntry {
    DictEntry { key: key.to_string(), value }
}

fn float(v: f64) -> AnyValue {
    let mut b = ryu::Buffer::new();
    let text = if v.is_finite() { b.format_finite(v).to_string() } else { String::new() };
    AnyValue::Float(FloatParts { finite: v.is_finite(), text, bits: v.to_bits() })
}

fn write(format: u8, v: &AnyValue, max_depth: usize) -> Result<Vec<u8>, AnyWriteError> {
    let mut w = Writer::with_capacity(format, 16).unwrap();
    let mut ctx = Context::new(false, max_depth);
    write_any(v, &mut w, &mut ctx)?;
    Ok(w.as_bytes().to_vec())
}

#[test]
fn any_value_json_nested() {
    let v = AnyValue::Dict(vec![
        entry("a", AnyValue::List(vec![AnyValue::Int(1), AnyValue::Null, AnyValue::Bool(true)])),
        entry("b", AnyValue::Str("x\"y".to_string())),
        entry("c", float(1.5)),
        entry("d", AnyValue::BigInt("123456789012345678901234567890".to_string())),
    ]);
    let out = write(FORMAT_JSON, &v, 10).unwrap();
    assert_eq!(
        out,
        b"{\"a\":[1,null,true],\"b\":\"x\\\"y\",\"c\":1.5,\"d\":123456789012345678901234567890}".to_vec()
    );
}

#[test]
fn any_value_json_empty_containers() {
    assert_eq!(write(FORMAT_JSON, &AnyValue::List(vec![]), 4).unwrap(), b"[]".to_vec());
    assert_eq!(write(FORMAT_JSON, &AnyValue::Dict(vec![]), 4).unwrap(), b"{}".to_vec());
    let v = AnyValue::List(vec![AnyValue::List(vec![]), AnyValue::Dict(vec![])]);
    assert_eq!(write(FORMAT_JSON, &v, 4).unwrap(), b"[[],{}]".to_vec());
}

#[test]
fn any_value_msgpack_nested() {
    let v = AnyValue::List(vec![
        AnyValue::Int(1),
        AnyValue::Str("a".to_string()),
        AnyValue::Dict(vec![entry("k", AnyValue::Bool(false))]),
        AnyValue::Bytes(vec![1, 2]),
        float(1.5),
    ]);
    let out = write(FORMAT_MSGPACK, &v, 10).unwrap();
    assert_eq!(
        out,
        vec![0x95, 0x01, 0xa1, 0x61, 0x81, 0xa1, 0x6b, 0xc2, 0xc4, 0x02, 0x01, 0x02, 0xcb, 0x3f, 0xf8, 0, 0, 0, 0, 0, 0]
    );
}

#[test]
fn any_value_depth_budget() {
    let v = AnyValue::List(vec![AnyValue::List(vec![AnyValue::Int(1)])]);
    assert_eq!(write(FORMAT_JSON, &v, 3).unwrap(), b"[[1]]".to_vec());
    let e = write(FORMAT_JSON, &v, 2).unwrap_err();
    match &e {
        AnyWriteError::TooDeep(x) => assert_eq!(x.max_depth, 2),
        other => panic!("unexpected {:?}", other),
    }
    assert_eq!(
        e.message(),
        "maximum recursion depth exceeded (2); likely a cyclic graph or excessively deep structure"
    );
}

#[test]
fn any_value_context_restored() {
    let v = AnyValue::List(vec![AnyValue::Bytes(vec![1])]);
    let mut w = Writer::with_capacity(FORMAT_JSON, 16).unwrap();
    let mut ctx = Context::new(false, 2);
    assert!(write_any(&v, &mut w, &mut ctx).is_err());
    // The budget is whole again: a value two levels deep still fits.
    let ok = AnyValue::List(vec![AnyValue::Null]);
    let mut w = Writer::with_capacity(FORMAT_JSON, 16).unwrap();
    write_any(&ok, &mut w, &mut ctx).unwrap();
    assert_eq!(w.as_bytes(), b"[null]");
}

#[test]
fn any_value_format_refusals() {
    let e = write(FORMAT_JSON, &AnyValue::Bytes(vec![1]), 4).unwrap_err();
    assert!(matches!(e, AnyWriteError::BytesNotSupported));
    assert_eq!(e.message(), "bytes values are not supported by this format");
    let e = write(FORMAT_JSON, &float(f64::NAN), 4).unwrap_err();
    assert!(matches!(e, AnyWriteError::NotFinite));
    assert_eq!(e.message(), "NaN and Infinity are not allowed in JSON");
    let e = write(FORMAT_MSGPACK, &AnyValue::BigInt("18446744073709551616".to_string()), 4).unwrap_err();
    assert!(matches!(e, AnyWriteError::IntegerOutOfRange));
    assert_eq!(e.message(), "integer is out of range for MessagePack");
    let out = write(FORMAT_MSGPACK, &AnyValue::BigInt("18446744073709551615".to_string()), 4).unwrap();
    assert_eq!(out, vec![0xcf, 0xff, 0xff, 0xff, 0xff, 0xff, 0xff, 0xff, 0xff]);
    let e = write(FORMAT_MSGPACK, &AnyValue::Unsupported("set".to_string()), 4).unwrap_err();
    assert_eq!(e.message(), "value of type 'set' is not serializable to this format");
}

#[test]
fn any_value_first_error_wins() {
    let v = AnyValue::List(vec![
        AnyValue::Unsupported("set".to_string()),
        AnyValue::Bytes(vec![1]),
    ]);
    let e = write(FORMAT_JSON, &v, 4).unwrap_err();
    assert!(matches!(e, AnyWriteError::NotSerializable(ref n) if n == "set"));
}

#[test]
fn any_value_msgpack_output_is_one_value() {
    let v = AnyValue::Dict(vec![
        entry("list", AnyValue::List(vec![AnyValue::Int(-200), AnyValue::BigInt("18446744073709551615".to_string())])),
        entry("text", AnyValue::Str("x".repeat(40))),
        entry("raw", AnyValue::Bytes(vec![7; 300])),
        entry("f", float(-0.25)),
    ]);
    let mut out = write(FORMAT_MSGPACK, &v, 10).unwrap();
    let len = out.len();
    out.push(0xc0);
    let mut p = MsgpackParser::new(&out);
    p.skip_value().unwrap();
    assert!(p.finish().is_err());
    let mut p = MsgpackParser::new(&out[..len]);
    p.skip_value().unwrap();
    p.finish().unwrap();
}

#[test]
fn any_value_json_output_is_one_value() {
    let v = AnyValue::Dict(vec![
        entry("a\"b", AnyValue::List(vec![AnyValue::Int(-5), float(2.5e-7), AnyValue::Null])),
        entry("", AnyValue::Dict(vec![entry("t", AnyValue::Bool(false))])),
        entry("big", AnyValue::BigInt("-99999999999999999999".to_string())),
        entry("s", AnyValue::Str("line\nbreak \u{1}".to_string())),
    ]);
    let mut out = write(FORMAT_JSON, &v, 10).unwrap();
    let len = out.len();
    out.extend_from_slice(b" ]");
    let mut s = serpyco_rs::json_scan::Scan::new(&out);
    s.skip_value().unwrap();
    assert_eq!(s.position(), len);
}
