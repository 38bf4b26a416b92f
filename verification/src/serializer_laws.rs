//! Laws of the serializer: what loading checks of a string or an integer,
//! what a choice or a formatted text loads as, which values a choice type
//! dumps, and how a custom serialize / deserialize pair wraps an encoder.
use crate::any_value::{AnyValue, fits};
use crate::dates::{dump_offset, speedate_date, speedate_datetime, speedate_time};
use crate::dumper::conforms;
use crate::encoder_plan::{CustomFns, EncoderKind, EncoderPlan, IncompleteCustomType, TypeNode, TypeShape, plan_of};
use crate::json_loader::{json_at, kind_of_lead};
use crate::json_reader::{jiter_known_bool, jiter_known_int, jiter_known_null, jiter_known_object, jiter_known_str, jiter_peek};
use crate::loader::{
    ChoiceKey, Expected, LoadFail, Op, Scalar, Schema, TextFormat, accepts, accepting, choice_of, first_accepting,
    int_load, is_schema_fail, load_at, text_op, union_try, tuple_items,
};
use crate::json_loader::{json_tuple_items, json_union_try};
use crate::loader::{choice_load, choice_text, items_text, key_matches};
use crate::query_cast::{digits_value, int_text_value, is_digit, text_cast};
use crate::encoder_plan::{FieldFacts, KeyFacts};
use crate::loader::{FieldSchema, default_ops, routes_of};
use crate::object_load::{EndAction, end_from};
use crate::validators::required_message;
use crate::dumper::{members_conform, tuple_conform, items_conform, values_conform, fields_conform};
use crate::any_value::DictEntry;
use crate::msgpack_parser::{bin_at, container_header, number_at, WireNumber};
use crate::msgpack_parser::{Kind, kind_of_marker, str_at};
use crate::numtext::decimal_chars;
use crate::type_info::{NumberTypeInfo, StringTypeInfo};
use crate::validators::{longer_message, lower_bound_message, shorter_message, upper_bound_message, uuid_text_ok};
use crate::any_value::any_out;
use crate::msgpack_grammar::{enc_bin, enc_int, enc_str};
use crate::msgpack_laws::{lemma_bin_roundtrip, lemma_int_roundtrip, lemma_str_roundtrip, wire_int};
use vstd::prelude::*;
use vstd::utf8::{decode_utf8, encode_utf8};

verus! {

/// The length limits of a string type hold of `n` characters.
pub open spec fn within_length(ti: StringTypeInfo, n: int) -> bool {
    &&& (ti.min_length matches Some(m) ==> n >= m)
    &&& (ti.max_length matches Some(m) ==> n <= m)
}

/// Loading a MessagePack string against a string type checks both of its
/// length limits: a string shorter than the minimum fails with the
/// "shorter" message, one longer than the maximum (and not too short)
/// with the "longer" message, and any other loads as that very text.
pub proof fn law_msgpack_string_length(
    ti: StringTypeInfo,
    d: Seq<u8>,
    p: int,
    path: Seq<Seq<char>>,
    dep: nat,
    b: Seq<u8>,
    end: int,
)
    requires
        0 <= p < d.len(),
        kind_of_marker(d[p]) == Ok::<Kind, crate::decode_error::DecodeErrorKind>(Kind::Str),
        str_at(d, p) == Ok::<(Seq<u8>, int), crate::decode_error::DecodeError>((b, end)),
    ensures
        ({
            let t = decode_utf8(b);
            let r = load_at(Schema::String(ti), d, p, path, dep);
            &&& (ti.min_length is Some && t.len() < ti.min_length->0 ==> r == Err::<(Seq<Op>, int), LoadFail>(
                LoadFail::Schema(shorter_message(t, ti.min_length->0 as int), path),
            ))
            &&& (ti.max_length is Some && t.len() > ti.max_length->0 && !(ti.min_length is Some && t.len()
                < ti.min_length->0) ==> r == Err::<(Seq<Op>, int), LoadFail>(
                LoadFail::Schema(longer_message(t, ti.max_length->0 as int), path),
            ))
            &&& (within_length(ti, t.len() as int) ==> r == Ok::<(Seq<Op>, int), LoadFail>((seq![Op::Str(t)], end)))
            &&& (r is Ok ==> within_length(ti, t.len() as int))
        }),
{
}

/// Loading a JSON string against a string type checks both of its length
/// limits, with the same messages as from MessagePack.
pub proof fn law_json_string_length(
    ti: StringTypeInfo,
    d: Seq<u8>,
    pos: int,
    path: Seq<Seq<char>>,
    dep: nat,
    lead: u8,
    q: int,
    t: Seq<char>,
    e: int,
)
    requires
        jiter_peek(d, pos) == Ok::<(u8, int), (Seq<char>, int)>((lead, q)),
        kind_of_lead(lead) == Some(Kind::Str),
        jiter_known_str(d, q) == Ok::<(Seq<char>, int), (Seq<char>, int)>((t, e)),
    ensures
        ({
            let r = json_at(Schema::String(ti), d, pos, path, dep);
            &&& (ti.min_length is Some && t.len() < ti.min_length->0 ==> r == Err::<(Seq<Op>, int), LoadFail>(
                LoadFail::Schema(shorter_message(t, ti.min_length->0 as int), path),
            ))
            &&& (ti.max_length is Some && t.len() > ti.max_length->0 && !(ti.min_length is Some && t.len()
                < ti.min_length->0) ==> r == Err::<(Seq<Op>, int), LoadFail>(
                LoadFail::Schema(longer_message(t, ti.max_length->0 as int), path),
            ))
            &&& (within_length(ti, t.len() as int) ==> r == Ok::<(Seq<Op>, int), LoadFail>((seq![Op::Str(t)], e)))
            &&& (r is Ok ==> within_length(ti, t.len() as int))
        }),
{
}

/// The messages of the length checks: the text in double quotes, then the
/// limit in decimal.
pub proof fn law_length_messages(t: Seq<char>, m: int)
    ensures
        shorter_message(t, m) == seq!['"'] + t + seq!['"'] + " is shorter than "@ + decimal_chars(m) + " characters"@,
        longer_message(t, m) == seq!['"'] + t + seq!['"'] + " is longer than "@ + decimal_chars(m) + " characters"@,
{
    reveal_strlit("\"");
    assert(seq!['"'] + t + seq!['"'] + " is shorter than "@ + decimal_chars(m) + " characters"@
        =~= "\""@ + t + "\""@ + " is shorter than "@ + decimal_chars(m) + " characters"@);
    assert(seq!['"'] + t + seq!['"'] + " is longer than "@ + decimal_chars(m) + " characters"@
        =~= "\""@ + t + "\""@ + " is longer than "@ + decimal_chars(m) + " characters"@);
}

/// An integer read by either reader passes an integer type's bounds or
/// fails with the bound's message: below an inclusive minimum or at an
/// exclusive one, above an inclusive maximum or at an exclusive one; inside
/// them it loads as itself.
pub proof fn law_integer_bounds(ti: NumberTypeInfo<i64>, v: int, end: int, path: Seq<Seq<char>>)
    requires
        i64::MIN <= v <= u64::MAX,
    ensures
        ({
            let r = int_load(ti, v, end, path);
            let low = ti.min matches Some(m) && (if ti.inclusive_min { v < m } else { v <= m });
            let high = ti.max matches Some(m) && (if ti.inclusive_max { v > m } else { v >= m });
            &&& (low ==> r == Err::<(Seq<Op>, int), LoadFail>(LoadFail::Schema(lower_bound_message(v, ti.min->0 as int), path)))
            &&& (!low && high ==> r == Err::<(Seq<Op>, int), LoadFail>(
                LoadFail::Schema(upper_bound_message(v, ti.max->0 as int), path),
            ))
            &&& (!low && !high && v <= i64::MAX ==> r == Ok::<(Seq<Op>, int), LoadFail>((seq![Op::Int(v as i64)], end)))
            &&& (!low && !high && v > i64::MAX ==> r == Ok::<(Seq<Op>, int), LoadFail>((seq![Op::BigUint(v as u64)], end)))
        }),
{
}

/// A formatted text loads only when it is in its format: a UUID as its own
/// text when it is one of the UUID forms, a date, time or date-time as what
/// speedate reads of it.
pub proof fn law_formatted_texts(t: Seq<char>, naive: bool)
    ensures
        text_op(TextFormat::Uuid, t) == (if uuid_text_ok(encode_utf8(t)) { Some(Op::Uuid(t)) } else { None }),
        speedate_date(t) matches Ok(v) ==> text_op(TextFormat::Date, t) == Some(Op::Date(v)),
        speedate_date(t) is Err ==> text_op(TextFormat::Date, t) is None,
        speedate_time(t) matches Ok(v) ==> text_op(TextFormat::Time, t) == Some(Op::Time(v)),
        speedate_time(t) is Err ==> text_op(TextFormat::Time, t) is None,
        speedate_datetime(t) matches Ok(v) ==> text_op(TextFormat::DateTime { naive_to_utc: naive }, t) == Some(
            Op::DateTime(v),
        ),
        speedate_datetime(t) is Err ==> text_op(TextFormat::DateTime { naive_to_utc: naive }, t) is None,
{
}

/// A text read where a choice is expected is the choice of a text item
/// with the same characters, and only such an item; when none has them,
/// it is none of the choices.
pub proof fn law_choice_of_text(items: Seq<ChoiceKey>, t: Seq<char>)
    ensures
        choice_of(items, Scalar::Text(t)) matches Some(i) ==> 0 <= i < items.len() && items[i] is Str && items[i]->Str_0@ == t,
        (forall|i: int| 0 <= i < items.len() ==> !(#[trigger] items[i] is Str && items[i]->Str_0@ == t)) ==> choice_of(
            items,
            Scalar::Text(t),
        ) is None,
    decreases items.len(),
{
    if items.len() > 0 {
        law_choice_of_text(items.drop_last(), t);
        assert forall|i: int| 0 <= i < items.drop_last().len() implies #[trigger] items.drop_last()[i] == items[i] by {}
    }
}

/// Loading a scalar as a choice gives the last item equal to it, read up to
/// the scalar's end; it fails as none of the items, listing them, exactly
/// when no item is equal to it.
pub proof fn law_choice_load(items: Seq<ChoiceKey>, k: Scalar, p: int, end: int, path: Seq<Seq<char>>)
    ensures
        choice_load(items, k, p, end, path) is Ok ==> exists|i: int|
            0 <= i < items.len() && key_matches(#[trigger] items[i], k) && (forall|j: int|
                i < j < items.len() ==> !key_matches(#[trigger] items[j], k)) && choice_load(items, k, p, end, path) == Ok::<
                (Seq<Op>, int),
                LoadFail,
            >((seq![Op::Choice(i as usize)], end)),
        choice_load(items, k, p, end, path) is Err <==> forall|i: int| 0 <= i < items.len() ==> !key_matches(#[trigger] items[i], k),
        choice_load(items, k, p, end, path) is Err ==> choice_load(items, k, p, end, path) == Err::<(Seq<Op>, int), LoadFail>(
            LoadFail::NotOneOf(p, path, items_text(items)),
        ),
{
    lemma_choice_found(items, k);
}

proof fn lemma_choice_found(items: Seq<ChoiceKey>, k: Scalar)
    ensures
        choice_of(items, k) matches Some(i) ==> 0 <= i < items.len() && key_matches(items[i], k) && forall|j: int|
            i < j < items.len() ==> !key_matches(#[trigger] items[j], k),
        choice_of(items, k) is None <==> forall|i: int| 0 <= i < items.len() ==> !key_matches(#[trigger] items[i], k),
    decreases items.len(),
{
    if items.len() > 0 {
        let pre = items.drop_last();
        lemma_choice_found(pre, k);
        assert forall|i: int| 0 <= i < pre.len() implies #[trigger] pre[i] == items[i] by {}
        if !key_matches(items.last(), k) {
            if let Some(i) = choice_of(items, k) {
                assert forall|j: int| i < j < items.len() implies !key_matches(#[trigger] items[j], k) by {
                    if j < pre.len() {
                        assert(pre[j] == items[j]);
                    }
                }
            }
        }
        if choice_of(items, k) is None {
            assert forall|i: int| 0 <= i < items.len() implies !key_matches(#[trigger] items[i], k) by {
                if i < pre.len() {
                    assert(pre[i] == items[i]);
                }
            }
        }
    }
}

/// An integer read where a choice is expected is the choice of an equal
/// integer item, or of a flag item of that value (0 or 1), and only such
/// an item.
pub proof fn law_choice_of_int(items: Seq<ChoiceKey>, v: int)
    ensures
        choice_of(items, Scalar::Int(v)) matches Some(i) ==> 0 <= i < items.len() && match items[i] {
            ChoiceKey::Int(j) => j as int == v,
            ChoiceKey::Bool(b) => v == (if b { 1int } else { 0int }),
            ChoiceKey::Str(_) => false,
        },
    decreases items.len(),
{
    if items.len() > 0 {
        law_choice_of_int(items.drop_last(), v);
    }
}

/// A value dumps as a choice type only when it is one of the choices: a
/// text equal to a text item, an integer equal to an integer item, a flag
/// equal to a flag item; no other value does.
pub proof fn law_choice_dump(items: Vec<ChoiceKey>, v: AnyValue)
    ensures
        conforms(Schema::Choice(items), v) <==> match v {
            AnyValue::Str(t) => exists|i: int| 0 <= i < items@.len() && #[trigger] items@[i] is Str && items@[i]->Str_0@ == t@,
            AnyValue::Int(j) => exists|i: int| 0 <= i < items@.len() && #[trigger] items@[i] == ChoiceKey::Int(j),
            AnyValue::Bool(b) => exists|i: int| 0 <= i < items@.len() && #[trigger] items@[i] == ChoiceKey::Bool(b),
            _ => false,
        },
{
    match v {
        AnyValue::Str(t) => {
            if conforms(Schema::Choice(items), v) {
                let i = choose|i: int| 0 <= i < items@.len() && crate::dumper::is_choice(#[trigger] items@[i], v);
                assert(items@[i] is Str && items@[i]->Str_0@ == t@);
            }
            if exists|i: int| 0 <= i < items@.len() && #[trigger] items@[i] is Str && items@[i]->Str_0@ == t@ {
                let i = choose|i: int| 0 <= i < items@.len() && #[trigger] items@[i] is Str && items@[i]->Str_0@ == t@;
                assert(crate::dumper::is_choice(items@[i], v));
            }
        },
        AnyValue::Int(j) => {
            if conforms(Schema::Choice(items), v) {
                let i = choose|i: int| 0 <= i < items@.len() && crate::dumper::is_choice(#[trigger] items@[i], v);
                assert(items@[i] == ChoiceKey::Int(j));
            }
            if exists|i: int| 0 <= i < items@.len() && #[trigger] items@[i] == ChoiceKey::Int(j) {
                let i = choose|i: int| 0 <= i < items@.len() && #[trigger] items@[i] == ChoiceKey::Int(j);
                assert(crate::dumper::is_choice(items@[i], v));
            }
        },
        AnyValue::Bool(b) => {
            if conforms(Schema::Choice(items), v) {
                let i = choose|i: int| 0 <= i < items@.len() && crate::dumper::is_choice(#[trigger] items@[i], v);
                assert(items@[i] == ChoiceKey::Bool(b));
            }
            if exists|i: int| 0 <= i < items@.len() && #[trigger] items@[i] == ChoiceKey::Bool(b) {
                let i = choose|i: int| 0 <= i < items@.len() && #[trigger] items@[i] == ChoiceKey::Bool(b);
                assert(crate::dumper::is_choice(items@[i], v));
            }
        },
        _ => {
            if conforms(Schema::Choice(items), v) {
                let i = choose|i: int| 0 <= i < items@.len() && crate::dumper::is_choice(#[trigger] items@[i], v);
                assert(!crate::dumper::is_choice(items@[i], v));
            }
        },
    }
}

/// A node with custom functions, other than a custom type itself, is
/// wrapped by them exactly when at least one of `serialize` and
/// `deserialize` is set; without custom functions it is not wrapped.
pub proof fn law_custom_wrap(t: TypeNode, naive: bool)
    requires
        !(t.shape is Custom),
    ensures
        plan_of(t, naive) matches Ok(p) && p.wrap == (match t.custom {
            Some(c) => if c.serialize || c.deserialize { Some(c) } else { None::<CustomFns> },
            None => None,
        }),
{
}

/// A custom type takes its own functions only when both are set, and is
/// then not wrapped; otherwise its plan fails.
pub proof fn law_custom_type(custom: Option<CustomFns>, naive: bool)
    ensures
        ({
            let t = TypeNode { shape: TypeShape::Custom, custom };
            if custom matches Some(c) && c.serialize && c.deserialize {
                plan_of(t, naive) == Ok::<EncoderPlan, IncompleteCustomType>(
                    EncoderPlan { kind: EncoderKind::CustomType, register_as: None, wrap: None },
                )
            } else {
                plan_of(t, naive) == Err::<EncoderPlan, IncompleteCustomType>(IncompleteCustomType)
            }
        }),
{
}

/// A date-time encoder dumps naive values as UTC exactly when the
/// serializer was asked to.
pub proof fn law_datetime_plan(custom: Option<CustomFns>, naive: bool)
    ensures
        plan_of(TypeNode { shape: TypeShape::DateTime, custom }, naive) matches Ok(p) && p.kind
            == (EncoderKind::DateTime { naive_datetime_to_utc: naive }),
{
}

/// A dumped date-time keeps the offset its zone reports, whatever the
/// serializer's `naive_datetime_to_utc`; only a naive one becomes UTC, and
/// only when asked to.
pub proof fn law_dump_offset(o: i32, naive_datetime_to_utc: bool)
    ensures
        dump_offset(Some(o), naive_datetime_to_utc) == Some(o),
        dump_offset(None, true) == Some(0i32),
        dump_offset(None, false) == None::<i32>,
{
}

/// Each type reads the kinds of value it can be: `None` nil, a flag a
/// boolean, an integer type a number, a text or formatted text a string,
/// bytes a binary, a choice a string, number or boolean, an optional type
/// nil or what its inner type reads, a list or tuple an array, a
/// dictionary or object a map, a union what any member reads.
pub proof fn law_accepted_kinds(s: Schema, k: Kind)
    ensures
        s is NoneType ==> (accepts(s, k) <==> k is Null),
        s is Boolean ==> (accepts(s, k) <==> k is Bool),
        s is Integer ==> (accepts(s, k) <==> k is Num),
        s is String ==> (accepts(s, k) <==> k is Str),
        s is Formatted ==> (accepts(s, k) <==> k is Str),
        s is Bytes ==> (accepts(s, k) <==> k is Bytes),
        s is Choice ==> (accepts(s, k) <==> (k is Str || k is Num || k is Bool)),
        s matches Schema::Optional(inner) ==> (accepts(s, k) <==> (k is Null || accepts(*inner, k))),
        s is Array ==> (accepts(s, k) <==> k is Array),
        s is Tuple ==> (accepts(s, k) <==> k is Array),
        s is Dictionary ==> (accepts(s, k) <==> k is Mapping),
        s is Entity ==> (accepts(s, k) <==> k is Mapping),
        s matches Schema::Union(ms, _) ==> (accepts(s, k) <==> exists|i: int| 0 <= i < ms@.len() && accepts(#[trigger] ms@[i], k)),
{
    if let Schema::Union(ms, _) = s {
        lemma_accepts_some(ms@, k);
    }
}

proof fn lemma_accepts_some(ms: Seq<Schema>, k: Kind)
    ensures
        crate::loader::accepts_some(ms, k) <==> exists|i: int| 0 <= i < ms.len() && accepts(#[trigger] ms[i], k),
    decreases ms.len(),
{
    if ms.len() > 0 {
        lemma_accepts_some(ms.drop_last(), k);
        if exists|i: int| 0 <= i < ms.len() && accepts(#[trigger] ms[i], k) {
            let i = choose|i: int| 0 <= i < ms.len() && accepts(#[trigger] ms[i], k);
            if i < ms.len() - 1 {
                assert(ms.drop_last()[i] == ms[i]);
            }
        }
        if exists|i: int| 0 <= i < ms.drop_last().len() && accepts(#[trigger] ms.drop_last()[i], k) {
            let i = choose|i: int| 0 <= i < ms.drop_last().len() && accepts(#[trigger] ms.drop_last()[i], k);
            assert(ms[i] == ms.drop_last()[i]);
        }
    }
}

/// A union tried member by member from `i` succeeds with the first member
/// that reads the value's kind and loads it: the operations start with
/// that member's index, and every member before it that reads the kind
/// failed a check. Its failure is either a failure that no check makes, from
/// a member that reads the kind, or that no member takes the value.
pub proof fn law_union_first_member(
    ms: Seq<Schema>,
    i: int,
    kind: Kind,
    span: Seq<u8>,
    p: int,
    end: int,
    path: Seq<Seq<char>>,
    dep: nat,
    name: Seq<char>,
)
    requires
        0 <= i,
    ensures
        union_try(ms, i, kind, span, p, end, path, dep, name) is Ok ==> ({
            let (o, e) = union_try(ms, i, kind, span, p, end, path, dep, name)->Ok_0;
            e == end && exists|j: int|
                #![trigger ms[j]]
                i <= j < ms.len() && accepts(ms[j], kind) && load_at(ms[j], span, 0, path, dep) is Ok && o == seq![
                    Op::Member(j as usize),
                ] + load_at(ms[j], span, 0, path, dep)->Ok_0.0 && forall|k: int|
                    i <= k < j && accepts(#[trigger] ms[k], kind) ==> (load_at(ms[k], span, 0, path, dep) is Err
                        && is_schema_fail(load_at(ms[k], span, 0, path, dep)->Err_0))
        }),
        union_try(ms, i, kind, span, p, end, path, dep, name) is Err ==> ({
            let f = union_try(ms, i, kind, span, p, end, path, dep, name)->Err_0;
            f == LoadFail::NoMember(p, path, name) || exists|j: int|
                #![trigger ms[j]]
                i <= j < ms.len() && accepts(ms[j], kind) && load_at(ms[j], span, 0, path, dep) == Err::<(Seq<Op>, int), LoadFail>(f)
                    && !is_schema_fail(f)
        }),
    decreases ms.len() - i,
{
    if i < ms.len() {
        law_union_first_member(ms, i + 1, kind, span, p, end, path, dep, name);
    }
}

/// An entity read from an empty MessagePack map: every field takes its
/// default, in field order, when each has one; otherwise the first field
/// without a default fails as a required property.
pub proof fn law_msgpack_empty_entity(fields: Vec<FieldSchema>, d: Seq<u8>, p: int, path: Seq<Seq<char>>, dep: nat)
    requires
        0 <= p < d.len(),
        d[p] == 0x80,
        dep > 0,
        fields@.len() <= usize::MAX,
    ensures
        (forall|i: int| 0 <= i < fields@.len() ==> (#[trigger] fields@[i]).has_default) ==> load_at(
            Schema::Entity(fields),
            d,
            p,
            path,
            dep,
        ) == Ok::<(Seq<Op>, int), LoadFail>(
            (seq![Op::BeginEntity] + Seq::new(fields@.len(), |i: int| Op::Default(i as usize)) + seq![Op::EndEntity], p + 1),
        ),
        forall|m: int|
            0 <= m < fields@.len() && !(#[trigger] fields@[m]).has_default && (forall|i: int|
                0 <= i < m ==> (#[trigger] fields@[i]).has_default) ==> load_at(Schema::Entity(fields), d, p, path, dep)
                == Err::<(Seq<Op>, int), LoadFail>(LoadFail::Schema(required_message(fields@[m].key@), path)),
{
    lemma_empty_entity_ends(fields, d, p, path, dep);
    lemma_unread_fields(fields@);
}

/// The end actions of an object in which no field was read: the defaults of
/// all fields when each has one, else up to the first field without one,
/// which is missing.
proof fn lemma_unread_fields(fields: Seq<FieldSchema>)
    requires
        fields.len() <= usize::MAX,
    ensures
        ({
            let acts = end_from(routes_of(fields), Seq::new(fields.len(), |i: int| false), false, 0);
            &&& (forall|i: int| 0 <= i < fields.len() ==> (#[trigger] fields[i]).has_default) ==> !(acts.len() > 0
                && acts.last() is Missing) && default_ops(acts) == Seq::new(fields.len(), |i: int| Op::Default(i as usize))
            &&& forall|m: int|
                0 <= m < fields.len() && !(#[trigger] fields[m]).has_default && (forall|i: int|
                    0 <= i < m ==> (#[trigger] fields[i]).has_default) ==> acts.len() > 0 && acts.last()
                    == EndAction::Missing(m as usize)
        }),
{
    let routes = routes_of(fields);
    let seen = Seq::new(fields.len(), |i: int| false);
    lemma_unseen_ends(routes, seen, 0);
    let acts = end_from(routes, seen, false, 0);
    if forall|i: int| 0 <= i < fields.len() ==> (#[trigger] fields[i]).has_default {
        assert forall|i: int| 0 <= i < routes.len() implies (#[trigger] routes[i]).has_default by {
            assert(fields[i].has_default);
        }
        assert(default_ops(acts) =~= Seq::new(fields.len(), |i: int| Op::Default(i as usize)));
    }
    assert forall|m: int|
        0 <= m < fields.len() && !(#[trigger] fields[m]).has_default && (forall|i: int|
            0 <= i < m ==> (#[trigger] fields[i]).has_default) implies acts.len() > 0 && acts.last()
            == EndAction::Missing(m as usize) by {
        assert(!routes[m].has_default);
        assert forall|i: int| 0 <= i < m implies (#[trigger] routes[i]).has_default by {
            assert(fields[i].has_default);
        }
        lemma_first_missing(routes, seen, 0, m);
    }
}

/// An entity read from an empty map ends at once: what it gives is what its
/// end actions, with no field read, make of it.
proof fn lemma_empty_entity_ends(fields: Vec<FieldSchema>, d: Seq<u8>, p: int, path: Seq<Seq<char>>, dep: nat)
    requires
        0 <= p < d.len(),
        d[p] == 0x80,
        dep > 0,
    ensures
        ({
            let acts = end_from(routes_of(fields@), Seq::new(fields@.len(), |i: int| false), false, 0);
            load_at(Schema::Entity(fields), d, p, path, dep) == if acts.len() > 0 && acts.last() is Missing {
                Err::<(Seq<Op>, int), LoadFail>(
                    LoadFail::Schema(required_message(fields@[acts.last()->Missing_0 as int].key@), path),
                )
            } else {
                Ok((seq![Op::BeginEntity] + Seq::<Op>::empty() + default_ops(acts) + seq![Op::EndEntity], p + 1))
            }
        }),
{
    assert(kind_of_marker(d[p]) == Ok::<Kind, crate::decode_error::DecodeErrorKind>(Kind::Mapping));
    assert(container_header(d, p, true) == Ok::<(int, int), crate::decode_error::DecodeError>((0int, p + 1)));
    let seen = Seq::new(fields@.len(), |i: int| false);
    assert(crate::loader::load_fields(fields@, d, p + 1, 0, seen, 0, path, (dep - 1) as nat) == Ok::<
        (Seq<Op>, int, Seq<bool>),
        LoadFail,
    >((Seq::empty(), p + 1, seen)));
    let acts = end_from(routes_of(fields@), seen, false, 0);
    if acts.len() > 0 && acts.last() is Missing {
        assert(load_at(Schema::Entity(fields), d, p, path, dep) == Err::<(Seq<Op>, int), LoadFail>(
            LoadFail::Schema(required_message(fields@[acts.last()->Missing_0 as int].key@), path),
        ));
    } else {
        assert(load_at(Schema::Entity(fields), d, p, path, dep) == Ok::<(Seq<Op>, int), LoadFail>(
            (seq![Op::BeginEntity] + Seq::<Op>::empty() + default_ops(acts) + seq![Op::EndEntity], p + 1),
        ));
    }
}

/// The JSON counterpart of `law_msgpack_empty_entity`: an entity read from
/// an empty object takes every field's default when each has one, else
/// fails on the first field without one as a required property.
pub proof fn law_json_empty_entity(
    fields: Vec<FieldSchema>,
    d: Seq<u8>,
    pos: int,
    path: Seq<Seq<char>>,
    dep: nat,
    lead: u8,
    q: int,
    e: int,
)
    requires
        jiter_peek(d, pos) == Ok::<(u8, int), (Seq<char>, int)>((lead, q)),
        kind_of_lead(lead) == Some(Kind::Mapping),
        jiter_known_object(d, q) == Ok::<(Option<Seq<char>>, int), (Seq<char>, int)>((None, e)),
        dep > 0,
        fields@.len() <= usize::MAX,
    ensures
        (forall|i: int| 0 <= i < fields@.len() ==> (#[trigger] fields@[i]).has_default) ==> json_at(
            Schema::Entity(fields),
            d,
            pos,
            path,
            dep,
        ) == Ok::<(Seq<Op>, int), LoadFail>(
            (seq![Op::BeginEntity] + Seq::new(fields@.len(), |i: int| Op::Default(i as usize)) + seq![Op::EndEntity], e),
        ),
        forall|m: int|
            0 <= m < fields@.len() && !(#[trigger] fields@[m]).has_default && (forall|i: int|
                0 <= i < m ==> (#[trigger] fields@[i]).has_default) ==> json_at(Schema::Entity(fields), d, pos, path, dep)
                == Err::<(Seq<Op>, int), LoadFail>(LoadFail::Schema(required_message(fields@[m].key@), path)),
{
    lemma_unread_fields(fields@);
    let acts = end_from(routes_of(fields@), Seq::new(fields@.len(), |i: int| false), false, 0);
    if acts.len() > 0 && acts.last() is Missing {
        assert(json_at(Schema::Entity(fields), d, pos, path, dep) == Err::<(Seq<Op>, int), LoadFail>(
            LoadFail::Schema(required_message(fields@[acts.last()->Missing_0 as int].key@), path),
        ));
    } else {
        assert(json_at(Schema::Entity(fields), d, pos, path, dep) == Ok::<(Seq<Op>, int), LoadFail>(
            (seq![Op::BeginEntity] + Seq::<Op>::empty() + default_ops(acts) + seq![Op::EndEntity], e),
        ));
        assert(seq![Op::BeginEntity] + Seq::<Op>::empty() + default_ops(acts) =~= seq![Op::BeginEntity] + default_ops(acts));
    }
}

/// JSON `null` loads as `None` against `None` and against an optional
/// type, a JSON flag as its value against a boolean type, a JSON integer
/// against an integer type as the integer checks of `int_load` say; any
/// other value against an optional type loads as against its inner type.
pub proof fn law_json_scalars(s: Schema, d: Seq<u8>, pos: int, path: Seq<Seq<char>>, dep: nat, lead: u8, q: int)
    requires
        jiter_peek(d, pos) == Ok::<(u8, int), (Seq<char>, int)>((lead, q)),
    ensures
        kind_of_lead(lead) == Some(Kind::Null) && (s is NoneType || s is Optional) ==> (jiter_known_null(d, q) matches Ok(
            e,
        ) ==> json_at(s, d, pos, path, dep) == Ok::<(Seq<Op>, int), LoadFail>((seq![Op::NoneValue], e))),
        kind_of_lead(lead) == Some(Kind::Bool) && s is Boolean ==> (jiter_known_bool(d, q, lead) matches Ok((b, e)) ==> json_at(
            s,
            d,
            pos,
            path,
            dep,
        ) == Ok::<(Seq<Op>, int), LoadFail>((seq![Op::Bool(b)], e))),
        kind_of_lead(lead) == Some(Kind::Num) ==> (s matches Schema::Integer(ti) ==> (jiter_known_int(d, q, lead) matches Ok(
            (v, e),
        ) ==> json_at(s, d, pos, path, dep) == int_load(ti, v as int, e, path))),
        kind_of_lead(lead) is Some && kind_of_lead(lead) != Some(Kind::Null) && s is NoneType ==> json_at(s, d, pos, path, dep)
            == Err::<(Seq<Op>, int), LoadFail>(LoadFail::WrongType(Expected::Null, q, path)),
        kind_of_lead(lead) is Some && kind_of_lead(lead) != Some(Kind::Null) ==> (s matches Schema::Optional(inner) ==> json_at(
            s,
            d,
            pos,
            path,
            dep,
        ) == json_at(*inner, d, q, path, dep)),
{
}

/// A MessagePack integer loads against an integer type as the integer
/// checks of `int_load` say, whether it was written signed or unsigned.
pub proof fn law_msgpack_integer(ti: NumberTypeInfo<i64>, d: Seq<u8>, p: int, path: Seq<Seq<char>>, dep: nat)
    requires
        0 <= p < d.len(),
        kind_of_marker(d[p]) == Ok::<Kind, crate::decode_error::DecodeErrorKind>(Kind::Num),
    ensures
        number_at(d, p) matches Ok((WireNumber::I64(v), end)) ==> load_at(Schema::Integer(ti), d, p, path, dep) == int_load(
            ti,
            v as int,
            end,
            path,
        ),
        number_at(d, p) matches Ok((WireNumber::U64(v), end)) ==> load_at(Schema::Integer(ti), d, p, path, dep) == int_load(
            ti,
            v as int,
            end,
            path,
        ),
{
}

/// What the value writer writes in MessagePack for a value that holds no
/// other, the loader reads back as that value, whatever follows: `None`,
/// a flag, an integer, a text and bytes against their unconstrained types.
pub proof fn law_msgpack_scalar_roundtrip(v: AnyValue, max: nat, rest: Seq<u8>, path: Seq<Seq<char>>, dep: nat)
    requires
        max >= 1,
        fits(v),
        any_out(v, false, 0, max) is Ok,
        any_out(v, false, 0, max)->Ok_0.len() + rest.len() <= usize::MAX,
    ensures
        ({
            let e = any_out(v, false, 0, max)->Ok_0;
            let d = e + rest;
            let no_bounds = NumberTypeInfo::<i64> { min: None, max: None, inclusive_min: false, inclusive_max: false };
            let no_limits = StringTypeInfo { min_length: None, max_length: None };
            &&& v is Null ==> load_at(Schema::NoneType, d, 0, path, dep) == Ok::<(Seq<Op>, int), LoadFail>(
                (seq![Op::NoneValue], 1),
            )
            &&& v matches AnyValue::Bool(b) ==> load_at(Schema::Boolean, d, 0, path, dep) == Ok::<(Seq<Op>, int), LoadFail>(
                (seq![Op::Bool(b)], 1),
            )
            &&& v matches AnyValue::Int(i) ==> load_at(Schema::Integer(no_bounds), d, 0, path, dep) == Ok::<
                (Seq<Op>, int),
                LoadFail,
            >((seq![Op::Int(i)], e.len() as int))
            &&& v matches AnyValue::Str(t) ==> load_at(Schema::String(no_limits), d, 0, path, dep) == Ok::<
                (Seq<Op>, int),
                LoadFail,
            >((seq![Op::Str(t@)], e.len() as int))
            &&& v matches AnyValue::Bytes(b) ==> load_at(Schema::Bytes, d, 0, path, dep) == Ok::<(Seq<Op>, int), LoadFail>(
                (seq![Op::Bytes(b@)], e.len() as int),
            )
        }),
{
    let e = any_out(v, false, 0, max)->Ok_0;
    let d = e + rest;
    match v {
        AnyValue::Null => {
            assert(d[0] == 0xc0u8);
        },
        AnyValue::Bool(b) => {
            assert(d[0] == if b { 0xc3u8 } else { 0xc2u8 });
        },
        AnyValue::Int(i) => {
            lemma_int_roundtrip(i, rest);
            assert(e == enc_int(i as int));
            assert(d[0] == e[0]);
            assert(kind_of_marker(d[0]) == Ok::<Kind, crate::decode_error::DecodeErrorKind>(Kind::Num));
        },
        AnyValue::Str(t) => {
            let b = encode_utf8(t@);
            vstd::utf8::encode_utf8_valid_utf8(t@);
            vstd::utf8::encode_utf8_decode_utf8(t@);
            lemma_str_roundtrip(b, rest);
            assert(e == enc_str(b));
            assert(d[0] == e[0]);
            assert(kind_of_marker(d[0]) == Ok::<Kind, crate::decode_error::DecodeErrorKind>(Kind::Str));
        },
        AnyValue::Bytes(x) => {
            lemma_bin_roundtrip(x@, rest);
            assert(e == enc_bin(x@));
            assert(d[0] == e[0]);
            assert(kind_of_marker(d[0]) == Ok::<Kind, crate::decode_error::DecodeErrorKind>(Kind::Bytes));
        },
        _ => {},
    }
}

/// With no field read and none flattened, the end actions from `i` are the
/// defaults of the fields from `i` on, up to the first field without one.
proof fn lemma_unseen_ends(routes: Seq<crate::object_load::FieldRoute>, seen: Seq<bool>, i: int)
    requires
        0 <= i <= routes.len(),
        routes.len() <= usize::MAX,
        seen.len() == routes.len(),
        forall|j: int| 0 <= j < seen.len() ==> !#[trigger] seen[j],
    ensures
        (forall|j: int| i <= j < routes.len() ==> (#[trigger] routes[j]).has_default) ==> end_from(routes, seen, false, i)
            == Seq::new((routes.len() - i) as nat, |j: int| EndAction::Default((i + j) as usize)),
    decreases routes.len() - i,
{
    if i < routes.len() {
        lemma_unseen_ends(routes, seen, i + 1);
        if forall|j: int| i <= j < routes.len() ==> (#[trigger] routes[j]).has_default {
            assert(routes[i].has_default);
            assert(end_from(routes, seen, false, i) =~= Seq::new(
                (routes.len() - i) as nat,
                |j: int| EndAction::Default((i + j) as usize),
            ));
        }
    } else {
        assert(end_from(routes, seen, false, i) =~= Seq::new(0, |j: int| EndAction::Default((i + j) as usize)));
    }
}

/// With no field read and none flattened, the end actions from `i` end with
/// the first field at or after `i` without a default, as missing.
proof fn lemma_first_missing(routes: Seq<crate::object_load::FieldRoute>, seen: Seq<bool>, i: int, m: int)
    requires
        0 <= i <= m < routes.len(),
        routes.len() <= usize::MAX,
        seen.len() == routes.len(),
        forall|j: int| 0 <= j < seen.len() ==> !#[trigger] seen[j],
        !routes[m].has_default,
        forall|j: int| i <= j < m ==> (#[trigger] routes[j]).has_default,
    ensures
        end_from(routes, seen, false, i).len() > 0,
        end_from(routes, seen, false, i).last() == EndAction::Missing(m as usize),
    decreases m - i,
{
    if i < m {
        assert(routes[i].has_default);
        lemma_first_missing(routes, seen, i + 1, m);
    }
}

/// A tuple loads only an array with exactly as many items as it has types.
pub proof fn law_tuple_count(types: Vec<Schema>, d: Seq<u8>, p: int, path: Seq<Seq<char>>, dep: nat)
    ensures
        load_at(Schema::Tuple(types), d, p, path, dep) is Ok ==> (0 <= p < d.len() && kind_of_marker(d[p]) == Ok::<
            Kind,
            crate::decode_error::DecodeErrorKind,
        >(Kind::Array) && container_header(d, p, false) is Ok && container_header(d, p, false)->Ok_0.0 == types@.len()),
{
}

/// A MessagePack nil loads as `None` against `None` and against an
/// optional type; a flag loads as its value against a boolean type.
pub proof fn law_msgpack_nil_and_flags(s: Schema, d: Seq<u8>, p: int, path: Seq<Seq<char>>, dep: nat)
    requires
        0 <= p < d.len(),
    ensures
        d[p] == 0xc0 && (s is NoneType || s is Optional) ==> load_at(s, d, p, path, dep) == Ok::<(Seq<Op>, int), LoadFail>(
            (seq![Op::NoneValue], p + 1),
        ),
        (d[p] == 0xc2 || d[p] == 0xc3) && s is Boolean ==> load_at(s, d, p, path, dep) == Ok::<(Seq<Op>, int), LoadFail>(
            (seq![Op::Bool(d[p] == 0xc3)], p + 1),
        ),
        d[p] != 0xc0 && kind_of_marker(d[p]) is Ok && s is NoneType ==> load_at(s, d, p, path, dep)
            == Err::<(Seq<Op>, int), LoadFail>(LoadFail::WrongType(Expected::Null, p, path)),
        d[p] != 0xc0 && s is Optional ==> load_at(s, d, p, path, dep) == load_at(*s->Optional_0, d, p, path, dep),
{
}

/// Bytes load from a MessagePack binary as its bytes, and from nothing
/// else.
pub proof fn law_msgpack_bytes(d: Seq<u8>, p: int, path: Seq<Seq<char>>, dep: nat)
    ensures
        load_at(Schema::Bytes, d, p, path, dep) is Ok ==> (0 <= p < d.len() && bin_at(d, p) is Ok && load_at(
            Schema::Bytes,
            d,
            p,
            path,
            dep,
        )->Ok_0 == (seq![Op::Bytes(bin_at(d, p)->Ok_0.0)], bin_at(d, p)->Ok_0.1)),
        0 <= p < d.len() && kind_of_marker(d[p]) is Ok && !(kind_of_marker(d[p])->Ok_0 is Bytes) ==> load_at(
            Schema::Bytes,
            d,
            p,
            path,
            dep,
        ) == Err::<(Seq<Op>, int), LoadFail>(LoadFail::WrongType(Expected::Bytes, p, path)),
{
}

/// A value has the shape of a union exactly when it has the shape of one
/// of its members.
pub proof fn law_union_dump(ms: Seq<Schema>, v: AnyValue)
    ensures
        members_conform(ms, v) <==> exists|i: int| 0 <= i < ms.len() && conforms(#[trigger] ms[i], v),
    decreases ms.len(),
{
    if ms.len() > 0 {
        law_union_dump(ms.drop_last(), v);
        if exists|i: int| 0 <= i < ms.len() && conforms(#[trigger] ms[i], v) {
            let i = choose|i: int| 0 <= i < ms.len() && conforms(#[trigger] ms[i], v);
            if i < ms.len() - 1 {
                assert(ms.drop_last()[i] == ms[i]);
            }
        }
        if exists|i: int| 0 <= i < ms.drop_last().len() && conforms(#[trigger] ms.drop_last()[i], v) {
            let i = choose|i: int| 0 <= i < ms.drop_last().len() && conforms(#[trigger] ms.drop_last()[i], v);
            assert(ms[i] == ms.drop_last()[i]);
        }
    }
}

/// A list has a tuple's shape exactly when it has as many items as the
/// tuple has types and each item has its type's shape.
pub proof fn law_tuple_dump(types: Seq<Schema>, items: Seq<AnyValue>)
    requires
        items.len() == types.len(),
    ensures
        tuple_conform(types, items) <==> forall|k: int| 0 <= k < items.len() ==> conforms(types[k], #[trigger] items[k]),
    decreases items.len(),
{
    if items.len() > 0 {
        lemma_tuple_prefix(types, items);
    }
}

proof fn lemma_tuple_prefix(types: Seq<Schema>, items: Seq<AnyValue>)
    requires
        items.len() <= types.len(),
    ensures
        tuple_conform(types, items) <==> forall|k: int| 0 <= k < items.len() ==> conforms(types[k], #[trigger] items[k]),
    decreases items.len(),
{
    if items.len() > 0 {
        let n = items.len() - 1;
        let pre = items.drop_last();
        lemma_tuple_prefix(types, pre);
        if tuple_conform(types, items) {
            assert forall|k: int| 0 <= k < items.len() implies conforms(types[k], #[trigger] items[k]) by {
                if k < n {
                    assert(pre[k] == items[k]);
                }
            }
        }
        if forall|k: int| 0 <= k < items.len() ==> conforms(types[k], #[trigger] items[k]) {
            assert forall|k: int| 0 <= k < pre.len() implies conforms(types[k], #[trigger] pre[k]) by {
                assert(pre[k] == items[k]);
            }
            assert(conforms(types[n], items[n]));
        }
    }
}

/// A list has a list type's shape exactly when each of its items has the
/// item type's shape.
pub proof fn law_list_dump(item: Schema, items: Seq<AnyValue>)
    ensures
        items_conform(item, items) <==> forall|k: int| 0 <= k < items.len() ==> conforms(item, #[trigger] items[k]),
    decreases items.len(),
{
    if items.len() > 0 {
        let n = items.len() - 1;
        let pre = items.subrange(0, n);
        law_list_dump(item, pre);
        if items_conform(item, items) {
            assert forall|k: int| 0 <= k < items.len() implies conforms(item, #[trigger] items[k]) by {
                if k < n {
                    assert(pre[k] == items[k]);
                }
            }
        }
        if forall|k: int| 0 <= k < items.len() ==> conforms(item, #[trigger] items[k]) {
            assert forall|k: int| 0 <= k < pre.len() implies conforms(item, #[trigger] pre[k]) by {
                assert(pre[k] == items[k]);
            }
            assert(conforms(item, items[n]));
        }
    }
}

/// The scalar shapes: `None` is nil, a flag a boolean, an integer type an
/// integer (also one beyond `i64`), a text or formatted text a string, bytes
/// a byte string; an optional type also takes nil.
pub proof fn law_scalar_dump(s: Schema, v: AnyValue)
    ensures
        s is NoneType ==> (conforms(s, v) <==> v is Null),
        s is Boolean ==> (conforms(s, v) <==> v is Bool),
        s is Integer ==> (conforms(s, v) <==> (v is Int || v is BigInt)),
        s is String ==> (conforms(s, v) <==> v is Str),
        s is Formatted ==> (conforms(s, v) <==> v is Str),
        s is Bytes ==> (conforms(s, v) <==> v is Bytes),
        s matches Schema::Optional(inner) ==> (conforms(s, v) <==> (v is Null || conforms(*inner, v))),
{
}

/// A map has the shape of a dictionary type exactly when every value in it
/// has the shape of the value type.
pub proof fn law_dict_dump(value: Schema, entries: Seq<DictEntry>)
    ensures
        values_conform(value, entries) <==> forall|k: int| 0 <= k < entries.len() ==> conforms(value, (#[trigger] entries[k]).value),
    decreases entries.len(),
{
    if entries.len() > 0 {
        let n = entries.len() - 1;
        let pre = entries.subrange(0, n);
        law_dict_dump(value, pre);
        if values_conform(value, entries) {
            assert forall|k: int| 0 <= k < entries.len() implies conforms(value, (#[trigger] entries[k]).value) by {
                if k < n {
                    assert(pre[k] == entries[k]);
                }
            }
        }
        if forall|k: int| 0 <= k < entries.len() ==> conforms(value, (#[trigger] entries[k]).value) {
            assert forall|k: int| 0 <= k < pre.len() implies conforms(value, (#[trigger] pre[k]).value) by {
                assert(pre[k] == entries[k]);
            }
            assert(conforms(value, entries[n].value));
        }
    }
}

/// A map has the shape of an entity exactly when it holds one entry per
/// field, in field order, each under its field's key with a value of its
/// field's type.
pub proof fn law_entity_dump(fields: Vec<FieldSchema>, entries: Vec<DictEntry>)
    ensures
        conforms(Schema::Entity(fields), AnyValue::Dict(entries)) <==> (entries@.len() == fields@.len() && forall|k: int|
            0 <= k < entries@.len() ==> (#[trigger] entries@[k]).key@ == fields@[k].key@ && conforms(
                fields@[k].schema,
                entries@[k].value,
            )),
{
    if entries@.len() == fields@.len() {
        lemma_fields_conform(fields@, entries@);
    }
}

proof fn lemma_fields_conform(fields: Seq<FieldSchema>, entries: Seq<DictEntry>)
    requires
        entries.len() <= fields.len(),
    ensures
        fields_conform(fields, entries) <==> forall|k: int|
            0 <= k < entries.len() ==> (#[trigger] entries[k]).key@ == fields[k].key@ && conforms(fields[k].schema, entries[k].value),
    decreases entries.len(),
{
    if entries.len() > 0 {
        let n = entries.len() - 1;
        let pre = entries.subrange(0, n);
        lemma_fields_conform(fields, pre);
        if fields_conform(fields, entries) {
            assert forall|k: int| 0 <= k < entries.len() implies (#[trigger] entries[k]).key@ == fields[k].key@ && conforms(
                fields[k].schema,
                entries[k].value,
            ) by {
                if k < n {
                    assert(pre[k] == entries[k]);
                }
            }
        }
        if forall|k: int|
            0 <= k < entries.len() ==> (#[trigger] entries[k]).key@ == fields[k].key@ && conforms(fields[k].schema, entries[k].value) {
            assert forall|k: int| 0 <= k < pre.len() implies (#[trigger] pre[k]).key@ == fields[k].key@ && conforms(
                fields[k].schema,
                pre[k].value,
            ) by {
                assert(pre[k] == entries[k]);
            }
            assert(entries[n].key@ == fields[n].key@);
        }
    }
}

/// The JSON counterpart of `law_union_first_member`: the first member that
/// reads the kind and loads the value's text wins, past members that fail a
/// check.
pub proof fn law_json_union_first_member(
    ms: Seq<Schema>,
    i: int,
    kind: Kind,
    span: Seq<u8>,
    q: int,
    end: int,
    path: Seq<Seq<char>>,
    dep: nat,
    name: Seq<char>,
)
    requires
        0 <= i,
    ensures
        json_union_try(ms, i, kind, span, q, end, path, dep, name) is Ok ==> ({
            let (o, e) = json_union_try(ms, i, kind, span, q, end, path, dep, name)->Ok_0;
            e == end && exists|j: int|
                #![trigger ms[j]]
                i <= j < ms.len() && accepts(ms[j], kind) && json_at(ms[j], span, 0, path, dep) is Ok && o == seq![
                    Op::Member(j as usize),
                ] + json_at(ms[j], span, 0, path, dep)->Ok_0.0 && forall|k: int|
                    i <= k < j && accepts(#[trigger] ms[k], kind) ==> (json_at(ms[k], span, 0, path, dep) is Err
                        && is_schema_fail(json_at(ms[k], span, 0, path, dep)->Err_0))
        }),
        json_union_try(ms, i, kind, span, q, end, path, dep, name) is Err ==> ({
            let f = json_union_try(ms, i, kind, span, q, end, path, dep, name)->Err_0;
            f == LoadFail::NoMember(q, path, name) || exists|j: int|
                #![trigger ms[j]]
                i <= j < ms.len() && accepts(ms[j], kind) && json_at(ms[j], span, 0, path, dep) == Err::<(Seq<Op>, int), LoadFail>(f)
                    && !is_schema_fail(f)
        }),
    decreases ms.len() - i,
{
    if i < ms.len() {
        law_json_union_first_member(ms, i + 1, kind, span, q, end, path, dep, name);
    }
}

/// Counting and finding the members that read a kind: the count is the
/// number of such members, and the first found reads it while none before
/// it does.
pub proof fn law_members_for_kind(ms: Seq<Schema>, k: Kind, i: int)
    requires
        0 <= i <= ms.len(),
    ensures
        ({
            let f = first_accepting(ms, k, i);
            &&& i <= f <= ms.len()
            &&& f < ms.len() ==> accepts(ms[f], k)
            &&& forall|j: int| i <= j < f ==> !accepts(#[trigger] ms[j], k)
        }),
        accepting(ms, k) == 0 <==> forall|j: int| 0 <= j < ms.len() ==> !accepts(#[trigger] ms[j], k),
        accepting(ms, k) <= ms.len(),
    decreases ms.len() - i, ms.len(),
{
    if i < ms.len() {
        law_members_for_kind(ms, k, i + 1);
    } else {
        lemma_accepting(ms, k);
    }
}

proof fn lemma_accepting(ms: Seq<Schema>, k: Kind)
    ensures
        accepting(ms, k) == 0 <==> forall|j: int| 0 <= j < ms.len() ==> !accepts(#[trigger] ms[j], k),
        accepting(ms, k) <= ms.len(),
    decreases ms.len(),
{
    if ms.len() > 0 {
        let pre = ms.drop_last();
        lemma_accepting(pre, k);
        if accepting(ms, k) == 0 {
            assert forall|j: int| 0 <= j < ms.len() implies !accepts(#[trigger] ms[j], k) by {
                if j < pre.len() {
                    assert(pre[j] == ms[j]);
                }
            }
        }
        if forall|j: int| 0 <= j < ms.len() ==> !accepts(#[trigger] ms[j], k) {
            assert forall|j: int| 0 <= j < pre.len() implies !accepts(#[trigger] pre[j], k) by {
                assert(pre[j] == ms[j]);
            }
            assert(!accepts(ms[ms.len() - 1], k));
        }
    }
}

/// A JSON tuple loads only with as many items as it has types: the item
/// count comes from reading the array one item at a time, and an array
/// that ends after a different count is refused.
pub proof fn law_json_tuple_items(types: Seq<Schema>, d: Seq<u8>, pos: int, k: int, path: Seq<Seq<char>>, dep: nat)
    ensures
        json_tuple_items(types, d, pos, k, path, dep) is Ok ==> json_tuple_items(types, d, pos, k, path, dep)->Ok_0.2 > k,
    decreases d.len() - pos,
{
    let item = if 0 <= k < types.len() {
        json_at(types[k], d, pos, path.push(decimal_chars(k)), dep)
    } else {
        match crate::json_reader::jiter_next_skip(d, pos) {
            Err(x) => Err(crate::json_loader::jfail(x)),
            Ok(e) => Ok((Seq::empty(), e)),
        }
    };
    if let Ok((o, e)) = item {
        if let Ok((true, q)) = crate::json_reader::jiter_array_step(d, e) {
            if !(q <= pos || q > d.len()) {
                law_json_tuple_items(types, d, q, k + 1, path, dep);
            }
        }
    }
}

/// How a choice is shown in messages: a text in double quotes, an integer
/// in decimal, a flag as `True` or `False`; the list of choices is in
/// square brackets.
pub proof fn law_choice_texts(c: ChoiceKey, items: Seq<ChoiceKey>)
    ensures
        c matches ChoiceKey::Str(t) ==> choice_text(c) == seq!['"'] + t@ + seq!['"'],
        c matches ChoiceKey::Int(i) ==> choice_text(c) == decimal_chars(i as int),
        c == ChoiceKey::Bool(true) ==> choice_text(c) == "True"@,
        c == ChoiceKey::Bool(false) ==> choice_text(c) == "False"@,
        items_text(items).len() >= 2,
        items_text(items)[0] == '[' && items_text(items).last() == ']',
        items.len() == 1 ==> items_text(items) == seq!['['] + choice_text(items[0]) + seq![']'],
{
    reveal_strlit("[");
    reveal_strlit("]");
    if items.len() == 1 {
        assert(items_text(items) =~= seq!['['] + choice_text(items[0]) + seq![']']);
    }
}

/// A decimal digit run's value: a digit appended multiplies it by ten and
/// adds the digit.
pub proof fn law_digits_value(s: Seq<u8>, c: u8)
    requires
        is_digit(c),
    ensures
        digits_value(s.push(c)) == 10 * digits_value(s) + (c - 0x30),
        digits_value(Seq::<u8>::empty()) == 0,
{
    assert(s.push(c).drop_last() =~= s);
}

/// A query text is read as an integer exactly when it is an optional sign
/// and one or more decimal digits that spell a value in range, and then as
/// that value, negated after a minus.
pub proof fn law_int_text(s: Seq<u8>)
    ensures
        int_text_value(s) matches Some(v) ==> s.len() > 0 && ({
            let signed = s[0] == 0x2bu8 || s[0] == 0x2du8;
            let body = if signed { s.drop_first() } else { s };
            &&& body.len() > 0
            &&& forall|i: int| 0 <= i < body.len() ==> is_digit(#[trigger] body[i])
            &&& v as int == if s[0] == 0x2du8 { -digits_value(body) } else { digits_value(body) }
        }),
        ({
            let signed = s.len() > 0 && (s[0] == 0x2bu8 || s[0] == 0x2du8);
            let body = if signed { s.drop_first() } else { s };
            let n = if signed && s[0] == 0x2du8 { -digits_value(body) } else { digits_value(body) };
            (body.len() > 0 && crate::query_cast::all_digits(body) && i64::MIN <= n && n <= i64::MAX) ==> int_text_value(s)
                == Some(n as i64)
        }),
{
}

/// Where a query field is an integer or a flag, a text that spells one is
/// read as it: an integer by its decimal text, a flag by its spellings;
/// a text field keeps its text.
pub proof fn law_query_casts(ti: NumberTypeInfo<i64>, si: StringTypeInfo, t: Seq<char>)
    ensures
        int_text_value(encode_utf8(t)) matches Some(v) ==> text_cast(Schema::Integer(ti), t) == Some(AnyValue::Int(v)),
        int_text_value(encode_utf8(t)) is None ==> text_cast(Schema::Integer(ti), t) is None,
        text_cast(Schema::String(si), t) is None,
        text_cast(Schema::Optional(Box::new(Schema::Integer(ti))), t) == text_cast(Schema::Integer(ti), t),
{
}

/// The plans' settings: a dictionary reads its keys as plain strings
/// exactly when its key type is a string type without limits or custom
/// functions; an object's dumped length is known unless `omit_none` may
/// drop a field that is not required; a typed dict's only when every field
/// is required; containers are registered under their identity.
pub proof fn law_plan_settings(custom: Option<CustomFns>, naive: bool, id: usize, omit_none: bool, key: KeyFacts, is_frozen: bool, fields: Vec<FieldFacts>)
    ensures
        ({
            let plain = key.is_string && key.min_length is None && key.max_length is None && key.custom is None;
            plan_of(TypeNode { shape: TypeShape::Dictionary { id, omit_none, key }, custom }, naive) matches Ok(p)
                && p.kind == (EncoderKind::Dictionary { omit_none, key_is_plain_str: plain }) && p.register_as == Some(id)
        }),
        ({
            let all = forall|i: int| 0 <= i < fields@.len() ==> (#[trigger] fields@[i]).required;
            let some = exists|i: int| 0 <= i < fields@.len() && (#[trigger] fields@[i]).flattened;
            &&& plan_of(TypeNode { shape: TypeShape::Entity { id, omit_none, is_frozen, fields }, custom }, naive) matches Ok(p)
                && p.kind == (EncoderKind::Entity { omit_none, is_frozen, dump_sized: !omit_none || all, has_flatten: some })
                && p.register_as == Some(id)
            &&& plan_of(TypeNode { shape: TypeShape::TypedDict { id, omit_none, fields }, custom }, naive) matches Ok(p)
                && p.kind == (EncoderKind::TypedDict { omit_none, dump_sized: all, has_flatten: some }) && p.register_as == Some(id)
        }),
        plan_of(TypeNode { shape: TypeShape::Optional { id }, custom }, naive) matches Ok(p) && p.register_as == Some(id),
        plan_of(TypeNode { shape: TypeShape::Integer, custom }, naive) matches Ok(p) && p.register_as is None,
{
}

} // verus!
