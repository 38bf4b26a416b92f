use serpyco_rs::any_value::AnyValue;
use serpyco_rs::loader::{ChoiceKey, Schema};
use serpyco_rs::query_cast::{is_sequence, parse_i64, query_value};
use serpyco_rs::type_info::{NumberTypeInfo, StringTypeInfo};

fn int_schema() -> Schema {
    Schema::Integer(NumberTypeInfo { min: None, max: None, inclusive_min: true, inclusive_max: true })
}

fn text() -> Schema {
    Schema::String(StringTypeInfo { min_length: None, max_length: None })
}

fn s(t: &str) -> AnyValue {
    AnyValue::Str(t.to_string())
}

fn same(a: &AnyValue, b: &AnyValue) -> bool {
    match (a, b) {
        (AnyValue::Null, AnyValue::Null) => true,
        (AnyValue::Bool(x), AnyValue::Bool(y)) => x == y,
        (AnyValue::Int(x), AnyValue::Int(y)) => x == y,
        (AnyValue::Str(x), AnyValue::Str(y)) => x == y,
        (AnyValue::List(x), AnyValue::List(y)) => x.len() == y.len() && x.iter().zip(y.iter()).all(|(p, q)| same(p, q)),
        _ => false,
    }
}

fn int_list() -> Schema {
    Schema::Array(Box::new(int_schema()))
}

#[test]
fn parses_decimal_integers_as_str_parse_does() {
    assert_eq!(parse_i64("42"), Some(42));
    assert_eq!(parse_i64("+7"), Some(7));
    assert_eq!(parse_i64("-0012"), Some(-12));
    assert_eq!(parse_i64("9223372036854775807"), Some(i64::MAX));
    assert_eq!(parse_i64("-9223372036854775808"), Some(i64::MIN));
    assert_eq!(parse_i64("9223372036854775808"), None);
    assert_eq!(parse_i64("-9223372036854775809"), None);
    assert_eq!(parse_i64("123456789012345678901234567890"), None);
    assert_eq!(parse_i64(""), None);
    assert_eq!(parse_i64("-"), None);
    assert_eq!(parse_i64("+"), None);
    assert_eq!(parse_i64("1.5"), None);
    assert_eq!(parse_i64(" 1"), None);
    assert_eq!(parse_i64("0x10"), None);
    for t in ["0", "17", "-17", "+3", "x", "", "99999999999999999999"] {
        assert_eq!(parse_i64(t), t.parse::<i64>().ok());
    }
}

#[test]
fn query_texts_become_numbers_and_flags_where_asked() {
    assert!(same(&query_value(&int_schema(), s("5")), &AnyValue::Int(5)));
    assert!(same(&query_value(&int_schema(), s("five")), &s("five")));
    assert!(same(&query_value(&Schema::Boolean, s("true")), &AnyValue::Bool(true)));
    assert!(same(&query_value(&Schema::Boolean, s("F")), &AnyValue::Bool(false)));
    assert!(same(&query_value(&Schema::Boolean, s("yes")), &s("yes")));
    assert!(same(&query_value(&Schema::Optional(Box::new(int_schema())), s("-3")), &AnyValue::Int(-3)));
    assert!(same(&query_value(&text(), s("5")), &s("5")));
}

#[test]
fn query_lists_are_read_item_by_item() {
    assert!(is_sequence(&int_list()));
    assert!(is_sequence(&Schema::Optional(Box::new(int_list()))));
    assert!(!is_sequence(&int_schema()));
    assert!(same(
        &query_value(&int_list(), AnyValue::List(vec![s("1"), s("x"), s("-2")])),
        &AnyValue::List(vec![AnyValue::Int(1), s("x"), AnyValue::Int(-2)])
    ));
    assert!(same(&query_value(&int_schema(), AnyValue::List(vec![s("1")])), &AnyValue::List(vec![s("1")])));
}

#[test]
fn query_tuples_cast_each_position_as_its_type() {
    let pair = Schema::Tuple(vec![int_schema(), Schema::Boolean]);
    assert!(is_sequence(&pair));
    assert!(same(
        &query_value(&pair, AnyValue::List(vec![s("3"), s("true"), s("9")])),
        &AnyValue::List(vec![AnyValue::Int(3), AnyValue::Bool(true), s("9")])
    ));
}

#[test]
fn query_texts_of_integer_choices_become_the_integers() {
    let c = Schema::Choice(vec![ChoiceKey::Int(1), ChoiceKey::Int(20), ChoiceKey::Str("x".to_string())]);
    assert!(same(&query_value(&c, s("20")), &AnyValue::Int(20)));
    assert!(same(&query_value(&c, s("x")), &s("x")));
    assert!(same(&query_value(&c, s("020")), &s("020")));
    // A text choice that reads like an integer stays a text.
    let t = Schema::Choice(vec![ChoiceKey::Int(2), ChoiceKey::Str("2".to_string())]);
    assert!(same(&query_value(&t, s("2")), &s("2")));
}
