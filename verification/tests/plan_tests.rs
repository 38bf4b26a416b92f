use serpyco_rs::context::InstancePath;
use serpyco_rs::encoder_plan::{
    CustomFns, EncoderKind, EncoderPlan, FieldFacts, IncompleteCustomType, KeyFacts, TypeNode, TypeShape,
    encoder_plan,
};
use serpyco_rs::object_load::{EndAction, FieldRoute, ObjectRouter, Route};

fn field(key: &str, flattened: bool, has_default: bool) -> FieldRoute {
    FieldRoute { key: key.to_string(), flattened, has_default }
}

#[test]
fn router_follows_schema_order_and_table() {
    let mut r = ObjectRouter::new(vec![field("a", false, false), field("b", false, true), field("c", false, false)]);
    assert_eq!(r.route(Some(b"a")), Route::Field(0));
    assert_eq!(r.route(Some(b"zz")), Route::Skip);
    assert_eq!(r.route(Some(b"c")), Route::Field(2));
    assert_eq!(r.route(Some(b"a")), Route::Field(0));
    assert_eq!(r.route(None), Route::End);
    assert_eq!(r.end_actions(), vec![EndAction::Default(1)]);
}

#[test]
fn router_reports_first_missing_required() {
    let mut r = ObjectRouter::new(vec![field("a", false, true), field("b", false, false), field("c", false, false)]);
    assert_eq!(r.route(Some(b"c")), Route::Field(2));
    assert_eq!(r.end_actions(), vec![EndAction::Default(0), EndAction::Missing(1)]);
    let root = InstancePath::new();
    let e = r.missing_error(1, &root);
    assert_eq!(e.message, "\"b\" is a required property");
    assert_eq!(e.path, None);
}

#[test]
fn router_with_flatten_collects_unknown_keys() {
    let mut r = ObjectRouter::new(vec![field("a", false, false), field("rest", true, false), field("b", false, true)]);
    assert_eq!(r.route(Some(b"rest")), Route::Collect);
    assert_eq!(r.route(Some(b"x")), Route::Collect);
    assert_eq!(r.route(Some(b"a")), Route::Field(0));
    assert_eq!(r.route(None), Route::End);
    assert_eq!(r.end_actions(), vec![EndAction::Flatten(1), EndAction::Default(2)]);
}

#[test]
fn router_duplicate_key_routes_to_last_field() {
    let mut r = ObjectRouter::new(vec![field("k", false, true), field("k", false, true), field("z", false, true)]);
    assert_eq!(r.route(Some(b"z")), Route::Field(2));
    assert_eq!(r.route(Some(b"k")), Route::Field(1));
}

fn node(shape: TypeShape, custom: Option<CustomFns>) -> TypeNode {
    TypeNode { shape, custom }
}

#[test]
fn plans_of_scalars_and_wrapping() {
    let p = encoder_plan(&node(TypeShape::DateTime, None), true).unwrap();
    assert_eq!(p, EncoderPlan { kind: EncoderKind::DateTime { naive_datetime_to_utc: true }, register_as: None, wrap: None });
    let both = CustomFns { serialize: true, deserialize: false };
    let p = encoder_plan(&node(TypeShape::Integer, Some(both)), false).unwrap();
    assert_eq!(p.wrap, Some(both));
    let none = CustomFns { serialize: false, deserialize: false };
    let p = encoder_plan(&node(TypeShape::Integer, Some(none)), false).unwrap();
    assert_eq!(p.wrap, None);
    let p = encoder_plan(&node(TypeShape::RecursionHolder { inner_id: 7 }, None), false).unwrap();
    assert_eq!(p.kind, EncoderKind::Lazy { inner_id: 7 });
}

#[test]
fn plans_of_containers() {
    let key = KeyFacts { is_string: true, min_length: None, max_length: None, custom: None };
    let p = encoder_plan(&node(TypeShape::Dictionary { id: 3, omit_none: true, key }, None), false).unwrap();
    assert_eq!(p.kind, EncoderKind::Dictionary { omit_none: true, key_is_plain_str: true });
    assert_eq!(p.register_as, Some(3));
    let key = KeyFacts { min_length: Some(1), ..key };
    let p = encoder_plan(&node(TypeShape::Dictionary { id: 3, omit_none: false, key }, None), false).unwrap();
    assert_eq!(p.kind, EncoderKind::Dictionary { omit_none: false, key_is_plain_str: false });
    let fields = vec![
        FieldFacts { required: true, flattened: false },
        FieldFacts { required: false, flattened: true },
    ];
    let p = encoder_plan(
        &node(TypeShape::Entity { id: 9, omit_none: true, is_frozen: false, fields: fields.clone() }, None),
        false,
    )
    .unwrap();
    assert_eq!(p.kind, EncoderKind::Entity { omit_none: true, is_frozen: false, dump_sized: false, has_flatten: true });
    let p = encoder_plan(&node(TypeShape::Entity { id: 9, omit_none: false, is_frozen: true, fields: fields.clone() }, None), false)
        .unwrap();
    assert_eq!(p.kind, EncoderKind::Entity { omit_none: false, is_frozen: true, dump_sized: true, has_flatten: true });
    let p = encoder_plan(&node(TypeShape::TypedDict { id: 9, omit_none: false, fields }, None), false).unwrap();
    assert_eq!(p.kind, EncoderKind::TypedDict { omit_none: false, dump_sized: false, has_flatten: true });
}

#[test]
fn custom_type_needs_both_functions() {
    let p = encoder_plan(&node(TypeShape::Custom, Some(CustomFns { serialize: true, deserialize: true })), false).unwrap();
    assert_eq!(p, EncoderPlan { kind: EncoderKind::CustomType, register_as: None, wrap: None });
    let e = encoder_plan(&node(TypeShape::Custom, Some(CustomFns { serialize: true, deserialize: false })), false).unwrap_err();
    assert_eq!(e, IncompleteCustomType);
    assert_eq!(e.message(), "CustomType must have both serialize and deserialize methods");
    assert!(encoder_plan(&node(TypeShape::Custom, None), false).is_err());
}
