use serpyco_rs::context::PathChunk;
use serpyco_rs::any_value::{AnyValue, DictEntry};
use serpyco_rs::decode_error::DecodeErrorKind;
use serpyco_rs::dumper::{DumpError, dump_bytes};
use serpyco_rs::json_loader::{load_bytes, load_json};
use serpyco_rs::dates::{DateTimeParts, DateValue, TimeValue};
use serpyco_rs::loader::{ChoiceKey, Expected, FieldSchema, LoadError, LoadOp, Schema, TextFormat, load_msgpack};
use serpyco_rs::type_info::{NumberTypeInfo, StringTypeInfo};

fn int_schema(min: Option<i64>, max: Option<i64>) -> Schema {
    Schema::Integer(NumberTypeInfo { min, max, inclusive_min: true, inclusive_max: true })
}

fn text() -> Schema {
    Schema::String(StringTypeInfo { min_length: None, max_length: None })
}

fn foo() -> Schema {
    Schema::Entity(vec![
        FieldSchema { key: "a".to_string(), schema: int_schema(Some(1), Some(10)), has_default: false },
        FieldSchema { key: "b".to_string(), schema: Schema::Optional(Box::new(text())), has_default: false },
        FieldSchema { key: "c".to_string(), schema: text(), has_default: true },
    ])
}

fn foo_ops() -> Vec<LoadOp> {
    vec![
        LoadOp::BeginEntity,
        LoadOp::Field(0),
        LoadOp::Int(5),
        LoadOp::Field(1),
        LoadOp::NoneValue,
        LoadOp::Default(2),
        LoadOp::EndEntity,
    ]
}

#[test]
fn loads_an_entity_from_msgpack() {
    let data = [0x82, 0xa1, b'a', 0x05, 0xa1, b'b', 0xc0];
    assert_eq!(load_msgpack(&foo(), &data, 16).ok().unwrap(), foo_ops());
}

#[test]
fn loads_an_entity_from_json() {
    let data = br#"{"a": 5, "b": null}"#;
    assert_eq!(load_json(&foo(), data, 16).ok().unwrap(), foo_ops());
}

#[test]
fn unknown_keys_are_skipped() {
    let data = br#"{"x": [1, {"y": 2}], "a": 5, "b": "hi", "c": "there"}"#;
    let ops = load_json(&foo(), data, 16).ok().unwrap();
    assert_eq!(
        ops,
        vec![
            LoadOp::BeginEntity,
            LoadOp::Field(0),
            LoadOp::Int(5),
            LoadOp::Field(1),
            LoadOp::Str("hi".to_string()),
            LoadOp::Field(2),
            LoadOp::Str("there".to_string()),
            LoadOp::EndEntity,
        ]
    );
}

#[test]
fn missing_required_field_is_reported_at_the_object() {
    let data = br#"{"b": "x"}"#;
    match load_json(&foo(), data, 16) {
        Err(LoadError::Schema(e)) => {
            assert_eq!(e.message, "\"a\" is a required property");
            assert_eq!(e.path, None);
        }
        _ => panic!("expected a schema error"),
    }
}

#[test]
fn bounds_are_checked_with_the_field_path() {
    let data = [0x81, 0xa1, b'a', 0x7b];
    match load_msgpack(&foo(), &data, 16) {
        Err(LoadError::Schema(e)) => {
            assert_eq!(e.message, "123 is greater than the maximum of 10");
            assert_eq!(e.path, Some("a".to_string()));
        }
        _ => panic!("expected a schema error"),
    }
}

#[test]
fn integer_above_maximum_at_the_root() {
    match load_json(&int_schema(Some(1), Some(10)), b"123", 16) {
        Err(LoadError::Schema(e)) => {
            assert_eq!(e.message, "123 is greater than the maximum of 10");
            assert_eq!(e.path, None);
        }
        _ => panic!("expected a schema error"),
    }
}

#[test]
fn string_length_is_checked() {
    let s = Schema::String(StringTypeInfo { min_length: Some(5), max_length: None });
    match load_json(&s, br#""1234""#, 16) {
        Err(LoadError::Schema(e)) => assert_eq!(e.message, "\"1234\" is shorter than 5 characters"),
        _ => panic!("expected a schema error"),
    }
}

#[test]
fn wrong_type_reports_position_and_path() {
    let data = [0x91, 0xa1, b'x'];
    let s = Schema::Array(Box::new(int_schema(None, None)));
    match load_msgpack(&s, &data, 16) {
        Err(LoadError::WrongType { expected, position, path }) => {
            assert_eq!(expected, Expected::Integer);
            assert_eq!(position, 1);
            assert!(matches!(path.as_slice(), [PathChunk::Index(0)]));
        }
        _ => panic!("expected a type error"),
    }
}

#[test]
fn lists_and_dictionaries() {
    let s = Schema::Dictionary(Box::new(Schema::Array(Box::new(int_schema(None, None)))));
    let ops = load_json(&s, br#"{"k": [1, 2], "e": []}"#, 16).ok().unwrap();
    assert_eq!(
        ops,
        vec![
            LoadOp::BeginDict,
            LoadOp::Key("k".to_string()),
            LoadOp::BeginList,
            LoadOp::Int(1),
            LoadOp::Int(2),
            LoadOp::EndList,
            LoadOp::Key("e".to_string()),
            LoadOp::BeginList,
            LoadOp::EndList,
            LoadOp::EndDict,
        ]
    );
    let data = [0x82, 0xa1, b'k', 0x92, 0x01, 0x02, 0xa1, b'e', 0x90];
    assert_eq!(load_msgpack(&s, &data, 16).ok().unwrap(), ops);
}

#[test]
fn nesting_is_limited() {
    let s = Schema::Array(Box::new(Schema::Array(Box::new(int_schema(None, None)))));
    assert!(matches!(load_json(&s, b"[[1]]", 1), Err(LoadError::TooDeep)));
    assert!(load_json(&s, b"[[1]]", 2).is_ok());
}

#[test]
fn syntax_errors_and_trailing_data() {
    assert!(matches!(load_json(&int_schema(None, None), b"[1", 16), Err(LoadError::WrongType { .. })));
    assert!(matches!(load_json(&text(), b"\"abc", 16), Err(LoadError::Json(_))));
    assert!(matches!(load_json(&int_schema(None, None), b"1 2", 16), Err(LoadError::Json(_))));
    assert!(matches!(load_msgpack(&int_schema(None, None), &[0x01, 0x02], 16), Err(LoadError::Decode(_))));
    assert_eq!(load_msgpack(&int_schema(None, None), &[0xcf, 0xff, 0xff, 0xff, 0xff, 0xff, 0xff, 0xff, 0xff], 16).ok().unwrap(), vec![LoadOp::BigUint(u64::MAX)]);
}

#[test]
fn dumps_an_entity_in_both_formats() {
    let v = AnyValue::Dict(vec![
        DictEntry { key: "a".to_string(), value: AnyValue::Int(5) },
        DictEntry { key: "b".to_string(), value: AnyValue::Null },
        DictEntry { key: "c".to_string(), value: AnyValue::Str("x".to_string()) },
    ]);
    assert_eq!(dump_bytes(&foo(), &v, 0, 16).ok().unwrap(), br#"{"a":5,"b":null,"c":"x"}"#.to_vec());
    let mp = dump_bytes(&foo(), &v, 1, 16).ok().unwrap();
    assert_eq!(mp, vec![0x83, 0xa1, b'a', 0x05, 0xa1, b'b', 0xc0, 0xa1, b'c', 0xa1, b'x']);
    let bad = AnyValue::Dict(vec![DictEntry { key: "a".to_string(), value: AnyValue::Str("5".to_string()) }]);
    assert!(matches!(dump_bytes(&foo(), &bad, 0, 16), Err(DumpError::Mismatch)));
    assert!(matches!(dump_bytes(&foo(), &v, 7, 16), Err(DumpError::UnknownFormat(7))));
}

#[test]
fn decode_errors_have_texts() {
    assert_eq!(DecodeErrorKind::TrailingData.message(), "trailing data");
    assert_eq!(DecodeErrorKind::UnexpectedEnd.message(), "unexpected end of MessagePack input");
}

#[test]
fn load_bytes_picks_the_reader_by_format() {
    let mp = [0x82, 0xa1, b'a', 0x05, 0xa1, b'b', 0xc0];
    assert_eq!(load_bytes(&foo(), &mp, 1, 16).ok().unwrap(), foo_ops());
    assert_eq!(load_bytes(&foo(), br#"{"a": 5, "b": null}"#, 0, 16).ok().unwrap(), foo_ops());
    assert!(matches!(load_bytes(&foo(), &mp, 2, 16), Err(LoadError::UnknownFormat(2))));
}

#[test]
fn dumped_bytes_load_back() {
    let v = AnyValue::Dict(vec![
        DictEntry { key: "a".to_string(), value: AnyValue::Int(5) },
        DictEntry { key: "b".to_string(), value: AnyValue::Null },
        DictEntry { key: "c".to_string(), value: AnyValue::Str("x".to_string()) },
    ]);
    let expected = vec![
        LoadOp::BeginEntity,
        LoadOp::Field(0),
        LoadOp::Int(5),
        LoadOp::Field(1),
        LoadOp::NoneValue,
        LoadOp::Field(2),
        LoadOp::Str("x".to_string()),
        LoadOp::EndEntity,
    ];
    for format in [0u8, 1u8] {
        let bytes = dump_bytes(&foo(), &v, format, 16).ok().unwrap();
        assert_eq!(load_bytes(&foo(), &bytes, format, 16).ok().unwrap(), expected);
    }
}

fn msgpack_str(t: &str) -> Vec<u8> {
    let mut b = if t.len() < 32 { vec![0xa0 | t.len() as u8] } else { vec![0xd9, t.len() as u8] };
    b.extend_from_slice(t.as_bytes());
    b
}

#[test]
fn formatted_texts_load_as_their_types() {
    let uuid = Schema::Formatted(TextFormat::Uuid);
    let u = "550e8400-e29b-41d4-a716-446655440000";
    assert_eq!(load_msgpack(&uuid, &msgpack_str(u), 4).ok().unwrap(), vec![LoadOp::Uuid(u.to_string())]);
    match load_msgpack(&uuid, &msgpack_str("abc"), 4) {
        Err(LoadError::Schema(e)) => assert_eq!(e.message, "abc is not of type \"uuid\""),
        _ => panic!("expected a schema error"),
    }
    assert!(matches!(
        load_msgpack(&uuid, &[0x05], 4),
        Err(LoadError::WrongType { expected: Expected::Format(TextFormat::Uuid), position: 0, .. })
    ));
    assert_eq!(
        load_json(&Schema::Formatted(TextFormat::Date), b"\"2024-01-02\"", 4).ok().unwrap(),
        vec![LoadOp::Date(DateValue { year: 2024, month: 1, day: 2 })]
    );
    assert_eq!(
        load_json(&Schema::Formatted(TextFormat::Time), b"\"12:30:05\"", 4).ok().unwrap(),
        vec![LoadOp::Time(TimeValue { hour: 12, minute: 30, second: 5, microsecond: 0, tz_offset: None })]
    );
    let dt = load_msgpack(&Schema::Formatted(TextFormat::DateTime { naive_to_utc: false }), &msgpack_str("2024-01-02T03:04:05+01:00"), 4)
        .ok()
        .unwrap();
    assert_eq!(
        dt,
        vec![LoadOp::DateTime(DateTimeParts {
            date: DateValue { year: 2024, month: 1, day: 2 },
            time: TimeValue { hour: 3, minute: 4, second: 5, microsecond: 0, tz_offset: Some(3600) },
        })]
    );
    match load_json(&Schema::Formatted(TextFormat::Date), b"\"tomorrow\"", 4) {
        Err(LoadError::Schema(e)) => assert_eq!(e.message, "tomorrow is not of type \"date\""),
        _ => panic!("expected a schema error"),
    }
}

#[test]
fn choices_load_by_value_and_list_their_values_on_a_miss() {
    let s = Schema::Choice(vec![ChoiceKey::Str("red".to_string()), ChoiceKey::Int(2), ChoiceKey::Bool(false)]);
    assert_eq!(load_json(&s, b"\"red\"", 4).ok().unwrap(), vec![LoadOp::Choice(0)]);
    assert_eq!(load_json(&s, b"2", 4).ok().unwrap(), vec![LoadOp::Choice(1)]);
    assert_eq!(load_msgpack(&s, &[0xc2], 4).ok().unwrap(), vec![LoadOp::Choice(2)]);
    // A flag equals 0 or 1, as in Python.
    assert_eq!(load_msgpack(&s, &[0x00], 4).ok().unwrap(), vec![LoadOp::Choice(2)]);
    match load_msgpack(&s, &msgpack_str("blue"), 4) {
        Err(LoadError::NotOneOf { position, path, items }) => {
            assert_eq!(position, 0);
            assert!(path.is_empty());
            assert_eq!(items, "[\"red\", 2, False]");
        }
        _ => panic!("expected a miss"),
    }
    assert!(matches!(load_json(&s, b"[1]", 4), Err(LoadError::NotOneOf { position: 0, .. })));
    assert!(matches!(load_msgpack(&s, &[0x05], 4), Err(LoadError::NotOneOf { .. })));
}

#[test]
fn bytes_load_from_msgpack_only() {
    assert_eq!(load_msgpack(&Schema::Bytes, &[0xc4, 0x02, 0x01, 0xff], 4).ok().unwrap(), vec![LoadOp::Bytes(vec![0x01, 0xff])]);
    assert!(matches!(
        load_json(&Schema::Bytes, b"\"ab\"", 4),
        Err(LoadError::WrongType { expected: Expected::Bytes, .. })
    ));
    assert!(matches!(
        load_msgpack(&Schema::Bytes, &msgpack_str("ab"), 4),
        Err(LoadError::WrongType { expected: Expected::Bytes, .. })
    ));
}

#[test]
fn choices_and_formatted_texts_dump() {
    let s = Schema::Choice(vec![ChoiceKey::Str("red".to_string()), ChoiceKey::Int(2)]);
    assert_eq!(dump_bytes(&s, &AnyValue::Int(2), 0, 4).ok().unwrap(), b"2".to_vec());
    assert!(matches!(dump_bytes(&s, &AnyValue::Int(3), 0, 4), Err(DumpError::Mismatch)));
    let d = Schema::Formatted(TextFormat::Date);
    assert_eq!(dump_bytes(&d, &AnyValue::Str("2024-01-02".to_string()), 0, 4).ok().unwrap(), b"\"2024-01-02\"".to_vec());
}

fn int_or_text() -> Schema {
    Schema::Union(vec![int_schema(Some(0), Some(9)), text()], "Union[int, str]".to_string())
}

#[test]
fn unions_read_by_kind_and_try_members_in_order() {
    assert_eq!(load_json(&int_or_text(), b"5", 4).ok().unwrap(), vec![LoadOp::Member(0), LoadOp::Int(5)]);
    assert_eq!(load_msgpack(&int_or_text(), &msgpack_str("x"), 4).ok().unwrap(), vec![LoadOp::Member(1), LoadOp::Str("x".to_string())]);
    // One member takes integers: its own error comes through.
    assert!(matches!(load_json(&int_or_text(), b"12", 4), Err(LoadError::Schema(_))));
    match load_json(&int_or_text(), b"null", 4) {
        Err(LoadError::NoMember { position, name, .. }) => {
            assert_eq!(position, 0);
            assert_eq!(name, "Union[int, str]");
        }
        _ => panic!("expected no member"),
    }
    // Two entities both read maps: the first that loads is kept.
    let a = Schema::Entity(vec![FieldSchema { key: "a".to_string(), schema: int_schema(None, None), has_default: false }]);
    let b = Schema::Entity(vec![FieldSchema { key: "b".to_string(), schema: text(), has_default: false }]);
    let u = Schema::Union(vec![a, b], "Union[A, B]".to_string());
    assert_eq!(
        load_json(&u, br#"{"b": "y"}"#, 4).ok().unwrap(),
        vec![LoadOp::Member(1), LoadOp::BeginEntity, LoadOp::Field(0), LoadOp::Str("y".to_string()), LoadOp::EndEntity]
    );
    assert_eq!(
        load_msgpack(&u, &[0x81, 0xa1, b'a', 0x07], 4).ok().unwrap(),
        vec![LoadOp::Member(0), LoadOp::BeginEntity, LoadOp::Field(0), LoadOp::Int(7), LoadOp::EndEntity]
    );
    assert!(matches!(load_json(&u, br#"{"c": 1}"#, 4), Err(LoadError::NoMember { .. })));
    assert_eq!(dump_bytes(&u, &AnyValue::Dict(vec![DictEntry { key: "b".to_string(), value: AnyValue::Str("y".to_string()) }]), 0, 4).ok().unwrap(), br#"{"b":"y"}"#.to_vec());
}

fn pair() -> Schema {
    Schema::Tuple(vec![int_schema(None, None), text()])
}

#[test]
fn tuples_read_each_item_as_its_type_and_check_the_count() {
    assert_eq!(
        load_json(&pair(), br#"[1, "a"]"#, 4).ok().unwrap(),
        vec![LoadOp::BeginList, LoadOp::Int(1), LoadOp::Str("a".to_string()), LoadOp::EndList]
    );
    assert_eq!(
        load_msgpack(&pair(), &[0x92, 0x01, 0xa1, b'a'], 4).ok().unwrap(),
        vec![LoadOp::BeginList, LoadOp::Int(1), LoadOp::Str("a".to_string()), LoadOp::EndList]
    );
    assert!(matches!(load_json(&pair(), b"[1]", 4), Err(LoadError::TupleSize { position: 0, less: true, size: 2, .. })));
    assert!(matches!(load_json(&pair(), b"[]", 4), Err(LoadError::TupleSize { less: true, size: 2, .. })));
    assert!(matches!(
        load_msgpack(&pair(), &[0x93, 0x01, 0xa1, b'a', 0xc0], 4),
        Err(LoadError::TupleSize { position: 0, less: false, size: 2, .. })
    ));
    // An item's own error comes before the count.
    assert!(matches!(load_json(&pair(), br#"["x"]"#, 4), Err(LoadError::WrongType { expected: Expected::Integer, .. })));
    assert!(matches!(load_json(&pair(), b"5", 4), Err(LoadError::WrongType { expected: Expected::Sequence, .. })));
    assert_eq!(
        dump_bytes(&pair(), &AnyValue::List(vec![AnyValue::Int(1), AnyValue::Str("a".to_string())]), 0, 4).ok().unwrap(),
        br#"[1,"a"]"#.to_vec()
    );
    assert!(matches!(dump_bytes(&pair(), &AnyValue::List(vec![AnyValue::Int(1)]), 0, 4), Err(DumpError::Mismatch)));
}
