use serpyco_rs::datetime_text::{DateTimeValue, TzKind, parse_rfc3339, write_datetime};
use serpyco_rs::issue_keys::SKIP;
use serpyco_rs::issue_load::{
    Entity, FieldKind, LoadStep, ObjectLoad, PlanErrorKind, Presence, entity_fields, entity_keys, reads_as_none,
    key_index, ordered_end, ordered_key, take_plan,
};
use serpyco_rs::json_scan::{Scan, ScanErrorKind};
use serpyco_rs::stacks::ByteBuf;

fn label_doc_keys() -> Vec<String> {
    ["id", "node_id", "url", "name", "description", "color", "default"]
        .iter()
        .map(|k| k.to_string())
        .collect()
}

#[test]
fn key_index_finds_fields() {
    assert_eq!(key_index(Entity::Label, b"name"), 3);
    assert_eq!(key_index(Entity::Label, b"default"), 6);
    assert_eq!(key_index(Entity::Label, b"unknown"), SKIP);
    assert_eq!(key_index(Entity::User, b"login"), 0);
}

#[test]
fn entity_tables_agree() {
    let keys = entity_keys(Entity::Label);
    let fields = entity_fields(Entity::Label);
    assert_eq!(keys.len(), fields.len());
    assert_eq!(keys[6], "default");
    assert_eq!(fields[6].kind, FieldKind::Bool);
    assert_eq!(fields[0].presence, Presence::Required);
}

#[test]
fn object_load_walks_members() {
    let doc = b"{\"name\": \"bug\", \"extra\": [1, 2], \"id\": 5}";
    let mut s = Scan::new(doc);
    s.enter_object().unwrap();
    let mut load = ObjectLoad::new(Entity::Label);
    match load.step(&mut s).unwrap() {
        LoadStep::Field(idx, spec) => {
            assert_eq!(idx, 3);
            assert_eq!(spec.kind, FieldKind::Str);
            let mut buf = ByteBuf::new();
            assert_eq!(s.take_str_bytes(&mut buf).unwrap(), b"bug");
            load.mark(idx);
        }
        other => panic!("unexpected step {:?}", other),
    }
    assert_eq!(load.step(&mut s).unwrap(), LoadStep::Skip);
    s.skip_value().unwrap();
    match load.step(&mut s).unwrap() {
        LoadStep::Field(idx, _) => {
            assert_eq!(idx, 0);
            assert_eq!(s.take_i64().unwrap(), 5);
            load.mark(idx);
        }
        other => panic!("unexpected step {:?}", other),
    }
    assert_eq!(load.step(&mut s).unwrap(), LoadStep::End);
    // node_id is the first required field that was never read.
    assert_eq!(load.finish(), Err("node_id"));
}

#[test]
fn object_load_empty_object() {
    let mut s = Scan::new(b"{ }");
    s.enter_object().unwrap();
    let mut load = ObjectLoad::new(Entity::Label);
    assert_eq!(load.step(&mut s).unwrap(), LoadStep::End);
    assert_eq!(load.finish(), Err("id"));
}

#[test]
fn object_load_bad_separator() {
    let mut s = Scan::new(b"{\"id\" 5}");
    s.enter_object().unwrap();
    let mut load = ObjectLoad::new(Entity::Label);
    let e = load.step(&mut s).unwrap_err();
    assert_eq!(e.kind, ScanErrorKind::ExpectedColon);
}

#[test]
fn plan_in_document_order() {
    let keys = label_doc_keys();
    let plan = take_plan(&keys, Entity::Label).unwrap();
    assert_eq!(plan.len(), 7);
    assert_eq!(plan.member(0), (2, 0));
    assert_eq!(plan.member(3), (4, 3));
    assert_eq!(plan.member(6), (7, 6));
}

#[test]
fn plan_refuses_unknown_and_repeated_keys() {
    let mut keys = label_doc_keys();
    keys.push("nope".to_string());
    let e = take_plan(&keys, Entity::Label).err().unwrap();
    assert_eq!(e.kind, PlanErrorKind::UnknownKey);
    assert_eq!(e.index, 7);
    let keys = vec!["id".to_string(), "url".to_string(), "id".to_string()];
    let e = take_plan(&keys, Entity::Label).err().unwrap();
    assert_eq!(e.kind, PlanErrorKind::RepeatedKey);
    assert_eq!(e.index, 2);
}

#[test]
fn ordered_members_then_brace() {
    let keys = vec!["id".to_string(), "name".to_string()];
    let plan = take_plan(&keys, Entity::Label).unwrap();
    let doc = b"{\"id\":1,\"name\":\"x\"}";
    let mut s = Scan::new(doc);
    s.enter_object().unwrap();
    assert_eq!(ordered_key(&mut s, &plan, 0, true).unwrap(), 0);
    assert_eq!(s.take_i64().unwrap(), 1);
    assert_eq!(ordered_key(&mut s, &plan, 1, false).unwrap(), 3);
    let mut buf = ByteBuf::new();
    assert_eq!(s.take_str_bytes(&mut buf).unwrap(), b"x");
    ordered_end(&mut s).unwrap();
    assert_eq!(s.position(), doc.len());
}

#[test]
fn ordered_end_wants_brace() {
    let mut s = Scan::new(b" ,");
    let e = ordered_end(&mut s).unwrap_err();
    assert_eq!(e.kind, ScanErrorKind::PlanExpectedBrace);
    assert_eq!(e.at, 1);
}

#[test]
fn dumped_datetime_parses_back() {
    let dt = DateTimeValue {
        year: 2023,
        month: 11,
        day: 5,
        hour: 7,
        minute: 8,
        second: 9,
        microsecond: 42,
        tz: TzKind::Other(Some(-(5 * 3600 + 30 * 60))),
    };
    let mut out = Vec::new();
    write_datetime(&mut out, &dt);
    assert_eq!(out, b"\"2023-11-05T07:08:09.000042-05:30\"".to_vec());
    let f = parse_rfc3339(&out[1..out.len() - 1]).unwrap();
    assert_eq!(
        (f.year, f.month, f.day, f.hour, f.minute, f.second, f.microsecond, f.offset),
        (2023, 11, 5, 7, 8, 9, 42, Some(-(5 * 3600 + 30 * 60)))
    );
    let naive = DateTimeValue { tz: TzKind::Naive, microsecond: 0, ..dt };
    let mut out = Vec::new();
    write_datetime(&mut out, &naive);
    let f = parse_rfc3339(&out[1..out.len() - 1]).unwrap();
    assert_eq!((f.microsecond, f.offset), (0, None));
    let utc = DateTimeValue { tz: TzKind::Utc, ..dt };
    let mut out = Vec::new();
    write_datetime(&mut out, &utc);
    assert_eq!(parse_rfc3339(&out[1..out.len() - 1]).unwrap().offset, Some(0));
}

#[test]
fn only_optional_fields_read_null() {
    assert!(reads_as_none(FieldKind::OptStr, b'n'));
    assert!(reads_as_none(FieldKind::OptReactions, b'n'));
    assert!(!reads_as_none(FieldKind::Str, b'n'));
    assert!(!reads_as_none(FieldKind::OptUser, b'{'));
}
