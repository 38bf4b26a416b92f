use serpyco_rs::context::{Context, InstancePath, PathChunk, into_path};
use serpyco_rs::errors::{ErrorItem, SchemaError, ValidationError, path_of};
use serpyco_rs::type_info::{NumberTypeInfo, TypeTag, items_repr, type_tag_for_class};
use serpyco_rs::validators::{
    _check_bounds, check_bounds, check_length, check_lower_bound, check_max_length,
    check_min_length, check_sequence_bounds, check_sequence_size, check_upper_bound, check_uuid,
    invalid_enum_item_err, invalid_type_dump_err, invalid_type_err, missing_dict_key_err,
    missing_required_property,
    no_encoder_for_discriminator, str_as_bool,
};

fn err(r: Result<(), SchemaError>) -> SchemaError {
    match r {
        Ok(()) => panic!("expected an error"),
        Err(e) => e,
    }
}

#[test]
fn depth_guard_enters_and_leaves() {
    let mut ctx = Context::new(true, 2);
    assert!(ctx.try_cast_from_string);
    let g1 = ctx.enter_depth().ok().unwrap();
    let g2 = ctx.enter_depth().ok().unwrap();
    let e = ctx.enter_depth().err().unwrap();
    assert_eq!(e.max_depth, 2);
    ctx.leave_depth(g2);
    let g3 = ctx.enter_depth().ok().unwrap();
    ctx.leave_depth(g3);
    ctx.leave_depth(g1);
    let g = ctx.enter_depth().ok().unwrap();
    ctx.leave_depth(g);
}

#[test]
fn zero_depth_budget_refuses_first_level() {
    let mut ctx = Context::new(false, 0);
    assert!(ctx.enter_depth().is_err());
}

#[test]
fn instance_path_renders_with_slashes() {
    let root = InstancePath::new();
    assert_eq!(into_path(&root), "");
    assert!(path_of(&root).is_none());
    let a = root.push(PathChunk::Property("items".to_string()));
    let b = a.push(PathChunk::Index(3));
    let c = b.push(PathChunk::PropertyValue("key".to_string()));
    assert_eq!(into_path(&c), "items/3/key");
    assert_eq!(path_of(&c), Some("items/3/key".to_string()));
    assert_eq!(c.to_vec().len(), 3);
}

#[test]
fn bound_messages() {
    let root = InstancePath::new();
    let e = err(check_lower_bound(5, Some(10), true, &root));
    assert_eq!(e.message, "5 is less than the minimum of 10");
    assert!(e.path.is_none());
    assert!(check_lower_bound(10, Some(10), true, &root).is_ok());
    assert!(check_lower_bound(10, Some(10), false, &root).is_err());
    let p = root.push(PathChunk::Property("n".to_string()));
    let e = err(check_upper_bound(-3, Some(-5), true, &p));
    assert_eq!(e.message, "-3 is greater than the maximum of -5");
    assert_eq!(e.path, Some("n".to_string()));
    assert!(check_upper_bound(-5, Some(-5), true, &p).is_ok());
    assert!(check_upper_bound(-5, Some(-5), false, &p).is_err());
    assert!(_check_bounds(7, None, None, true, true, &root).is_ok());
    let e = err(_check_bounds(0, Some(1), Some(-1), true, true, &root));
    assert_eq!(e.message, "0 is less than the minimum of 1");
    let info = NumberTypeInfo { min: Some(0i64), max: Some(100i64), inclusive_min: true, inclusive_max: false };
    assert!(check_bounds(50, &info, &root).is_ok());
    let e = err(check_bounds(100, &info, &root));
    assert_eq!(e.message, "100 is greater than the maximum of 100");
}

#[test]
fn length_messages() {
    let root = InstancePath::new();
    let e = err(check_length("héllo", Some(6), None, &root));
    assert_eq!(e.message, "\"héllo\" is shorter than 6 characters");
    assert!(check_length("héllo", Some(5), Some(5), &root).is_ok());
    let e = err(check_length("abc", None, Some(2), &root));
    assert_eq!(e.message, "\"abc\" is longer than 2 characters");
    assert!(check_min_length("x", 1, Some(1), &root).is_ok());
    assert!(check_max_length("x", 3, Some(2), &root).is_err());
}

#[test]
fn sequence_messages() {
    let root = InstancePath::new();
    let e = err(check_sequence_size("(1, 2)", 2, 3, None));
    assert_eq!(e.message, "(1, 2) has less than 3 items");
    let e = err(check_sequence_size("(1, 2)", 2, 1, Some(&root)));
    assert_eq!(e.message, "(1, 2) has more than 1 items");
    assert!(check_sequence_size("()", 0, 0, None).is_ok());
    let e = err(check_sequence_bounds("[1]", 1, Some(2), Some(5), None));
    assert_eq!(e.message, "[1] has less than 2 items");
    let e = err(check_sequence_bounds("[1, 2, 3]", 3, None, Some(2), None));
    assert_eq!(e.message, "[1, 2, 3] has more than 2 items");
    assert!(check_sequence_bounds("[]", 0, None, None, None).is_ok());
}

#[test]
fn other_messages() {
    let root = InstancePath::new();
    let e = missing_required_property("name", &root);
    assert_eq!(e.message, "\"name\" is a required property");
    assert_eq!(e.path, None);
    let e = no_encoder_for_discriminator("z", &["a".to_string(), "b".to_string()], &root);
    assert_eq!(e.message, "\"z\" is not one of [\"a\", \"b\"] discriminator values");
    let e = no_encoder_for_discriminator("z", &[], &root);
    assert_eq!(e.message, "\"z\" is not one of [] discriminator values");
    let e = invalid_type_err("int", "\"x\"", &root);
    assert_eq!(e.message, "\"x\" is not of type \"int\"");
    let e = invalid_type_dump_err("dict", "[1]");
    assert_eq!(e.message, "\"[1]\" is not of type \"dict\"");
    let e = invalid_enum_item_err("[1, 2]", "3", &root);
    assert_eq!(e.message, "3 is not one of [1, 2]");
}

#[test]
fn bool_spellings() {
    for s in ["t", "T", "true", "True", "TRUE"] {
        assert_eq!(str_as_bool(s), Some(true));
    }
    for s in ["f", "F", "false", "False", "FALSE"] {
        assert_eq!(str_as_bool(s), Some(false));
    }
    for s in ["", "tRUE", "yes", "1", "true "] {
        assert_eq!(str_as_bool(s), None);
    }
}

#[test]
fn uuid_forms() {
    let root = InstancePath::new();
    assert!(check_uuid("550e8400-e29b-41d4-a716-446655440000", "x", &root).is_ok());
    assert!(check_uuid("550E8400E29B41D4A716446655440000", "x", &root).is_ok());
    assert!(check_uuid("{550e8400-e29b-41d4-a716-446655440000}", "x", &root).is_ok());
    assert!(check_uuid("URN:uuid:550e8400-e29b-41d4-a716-446655440000", "x", &root).is_ok());
    let e = err(check_uuid("550e8400-e29b-41d4-a716-44665544000g", "\"bad\"", &root));
    assert_eq!(e.message, "\"bad\" is not of type \"uuid\"");
}

#[test]
fn error_items_render() {
    let item = ErrorItem::new("m".to_string(), "s".to_string(), "i".to_string());
    assert_eq!(item.__str__(), "m");
    assert_eq!(item.__repr__(), "ErrorItem(message='m', instance_path='i')");
    let v = ValidationError::new("bad".to_string());
    assert_eq!(v.__str__(), "bad");
    assert_eq!(v.__repr__(), "<ValidationError: 'bad'>");
}

#[test]
fn type_tags_by_class_name() {
    assert_eq!(type_tag_for_class("IntegerType"), Some(TypeTag::Integer));
    assert_eq!(type_tag_for_class("NoneType"), Some(TypeTag::NoneType));
    assert_eq!(type_tag_for_class("RecursionHolder"), Some(TypeTag::RecursionHolder));
    assert_eq!(type_tag_for_class("Integer"), None);
    assert_eq!(items_repr(&["1".to_string(), "'a'".to_string()]), "[1, 'a']");
    assert_eq!(items_repr(&[]), "[]");
}

#[test]
fn missing_dict_key_at_root() {
    let e = missing_dict_key_err("name");
    assert_eq!(e.message, "data dictionary is missing required parameter name");
    assert_eq!(e.path, None);
}

#[test]
fn readme_max_bound_message() {
    // Annotated[int, Min(1), Max(10)]; load(123)
    let root = InstancePath::new();
    let info = NumberTypeInfo { min: Some(1i64), max: Some(10i64), inclusive_min: true, inclusive_max: true };
    let e = err(check_bounds(123, &info, &root));
    assert_eq!(e.message, "123 is greater than the maximum of 10");
    assert_eq!(e.path, None);
}

#[test]
fn readme_min_length_message() {
    // Annotated[str, MinLength(5)]; load("1234")
    let root = InstancePath::new();
    let e = err(check_length("1234", Some(5), None, &root));
    assert_eq!(e.message, "\"1234\" is shorter than 5 characters");
    assert_eq!(e.path, None);
}

#[test]
fn error_item_repr_as_documented() {
    let e = ErrorItem::new("123 is greater than the maximum of 10".to_string(), String::new(), String::new());
    assert_eq!(e.__repr__(), "ErrorItem(message='123 is greater than the maximum of 10', instance_path='')");
}

#[test]
fn missing_property_is_reported_at_the_object() {
    let root = InstancePath::new();
    let e = missing_required_property("val1", &root);
    assert_eq!(e.message, "\"val1\" is a required property");
    assert_eq!(e.path, None);
}
