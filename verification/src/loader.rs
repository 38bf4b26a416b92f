//! Loading a MessagePack document against a schema: the value is checked
//! as it is read (types, numeric bounds, string lengths, required fields)
//! and comes out as a flat list of build operations that the caller turns
//! into objects. Defaults are the caller's to supply; the loader says which
//! fields take them.
use crate::context::{InstancePath, PathChunk, chunk_text};
use crate::dates::{DateTimeParts, DateValue, TimeValue, parse_date, parse_datetime, parse_time, speedate_date, speedate_datetime, speedate_time};
use crate::decode_error::{decode_err, DecodeError, DecodeErrorKind};
use crate::errors::{SchemaError, path_matches};
use crate::msgpack_grammar::value_end;
use crate::msgpack_parser::{
    Kind, MsgpackParser, ParsedInt, ParsedNumber, WireNumber, bin_at, container_header, kind_of_marker, number_at, str_at,
};
use crate::numtext::{decimal_chars, format_i64, format_u64};
use crate::object_load::{EndAction, FieldRoute, ObjectRouter, Route, any_flattened, end_from, route_spec};
use crate::stacks::{Frame, STACK_LIMIT};
use crate::type_info::{NumberTypeInfo, StringTypeInfo};
use crate::validators::{
    above_maximum, below_minimum, check_bounds, check_length, longer_message, lower_bound_message,
    error_at, invalid_type_err, not_of_type_message, required_message, shorter_message, upper_bound_message,
    uuid_parses, uuid_text_ok,
};
use crate::value_render::key_result;
use crate::value_repr::string_push;
use crate::json_reader::JsonError;
use crate::msgpack_parser::key_read_at;
use vstd::prelude::*;
use vstd::string::StringSliceAdditionalSpecFns;
use vstd::utf8::{decode_utf8, encode_utf8, encode_utf8_decode_utf8};

verus! {

/// A text that stands for another type.
#[derive(Debug, Clone, Copy, PartialEq, Eq, Structural)]
pub enum TextFormat {
    Uuid,
    Date,
    Time,
    /// A date-time; a naive one is dumped as UTC when `naive_to_utc`.
    DateTime { naive_to_utc: bool },
}

/// What a value must be.
pub enum Schema {
    NoneType,
    Boolean,
    Integer(NumberTypeInfo<i64>),
    String(StringTypeInfo),
    /// `None` (nil) or the inner type.
    Optional(Box<Schema>),
    /// A list of values of the item type.
    Array(Box<Schema>),
    /// A map from strings to values of the value type.
    Dictionary(Box<Schema>),
    /// An object with named fields.
    Entity(Vec<FieldSchema>),
    /// A text in the format: a UUID, a date, a time or a date-time.
    Formatted(TextFormat),
    /// A byte string (MessagePack `bin`; JSON has none).
    Bytes,
    /// One of the values of an enumeration or a literal type.
    Choice(Vec<ChoiceKey>),
    /// A value of any of the member types, tried in order; the text names
    /// the union in messages.
    Union(Vec<Schema>, String),
    /// A sequence of as many values as there are types, each of its own
    /// type.
    Tuple(Vec<Schema>),
}

/// A value that an enumeration or a literal type takes.
#[derive(Debug, Clone, PartialEq, Eq)]
pub enum ChoiceKey {
    Str(String),
    Int(i64),
    Bool(bool),
}

/// A scalar read where one of a set of values is expected.
pub enum KeyRead {
    Text(String),
    Int(i64),
    /// An unsigned integer beyond `i64`.
    BigUint(u64),
    Bool(bool),
}

/// A scalar as a value: text, integer or flag.
pub ghost enum Scalar {
    Text(Seq<char>),
    Int(int),
    Bool(bool),
}

pub open spec fn scalar_of(k: KeyRead) -> Scalar {
    match k {
        KeyRead::Text(t) => Scalar::Text(t@),
        KeyRead::Int(v) => Scalar::Int(v as int),
        KeyRead::BigUint(v) => Scalar::Int(v as int),
        KeyRead::Bool(b) => Scalar::Bool(b),
    }
}

/// A flag's value as an integer.
pub open spec fn flag_int(b: bool) -> int {
    if b { 1 } else { 0 }
}

/// `k` equals choice `c` as Python compares them: texts by their
/// characters, numbers by value, a flag as 0 or 1.
pub open spec fn key_matches(c: ChoiceKey, k: Scalar) -> bool {
    match (c, k) {
        (ChoiceKey::Str(s), Scalar::Text(t)) => s@ == t,
        (ChoiceKey::Int(i), Scalar::Int(v)) => i as int == v,
        (ChoiceKey::Int(i), Scalar::Bool(b)) => i as int == flag_int(b),
        (ChoiceKey::Bool(a), Scalar::Bool(b)) => a == b,
        (ChoiceKey::Bool(a), Scalar::Int(v)) => flag_int(a) == v,
        _ => false,
    }
}

/// The last of `items` that `k` equals (a later equal value replaces an
/// earlier one, as in a dictionary).
pub open spec fn choice_of(items: Seq<ChoiceKey>, k: Scalar) -> Option<int>
    decreases items.len(),
{
    if items.len() == 0 {
        None
    } else if key_matches(items.last(), k) {
        Some(items.len() - 1)
    } else {
        choice_of(items.drop_last(), k)
    }
}

/// Loading scalar `k`, read at `p` up to `end`, as one of `items`.
pub open spec fn choice_load(items: Seq<ChoiceKey>, k: Scalar, p: int, end: int, path: Seq<Seq<char>>) -> Result<(Seq<Op>, int), LoadFail> {
    match choice_of(items, k) {
        Some(i) => Ok((seq![Op::Choice(i as usize)], end)),
        None => Err(LoadFail::NotOneOf(p, path, items_text(items))),
    }
}

/// A choice as the messages show it: a text in double quotes, a number in
/// decimal, a flag as `True` or `False`.
pub open spec fn choice_text(c: ChoiceKey) -> Seq<char> {
    match c {
        ChoiceKey::Str(s) => seq!['"'] + s@ + seq!['"'],
        ChoiceKey::Int(i) => decimal_chars(i as int),
        ChoiceKey::Bool(b) => if b { "True"@ } else { "False"@ },
    }
}

/// The choices joined by `, `.
pub open spec fn joined_choices(items: Seq<ChoiceKey>) -> Seq<char>
    decreases items.len(),
{
    if items.len() == 0 {
        Seq::empty()
    } else if items.len() == 1 {
        choice_text(items[0])
    } else {
        joined_choices(items.drop_last()) + ", "@ + choice_text(items.last())
    }
}

/// The list of the choices, as in `… is not one of [1, 2]`.
pub open spec fn items_text(items: Seq<ChoiceKey>) -> Seq<char> {
    "["@ + joined_choices(items) + "]"@
}

/// The list of the choices.
pub fn choices_text(items: &Vec<ChoiceKey>) -> (r: String)
    ensures
        r@ == items_text(items@),
{
    proof {
        reveal_strlit("[");
        reveal_strlit("]");
        reveal_strlit(", ");
        reveal_strlit("True");
        reveal_strlit("False");
    }
    let mut out = String::from_str("[");
    let mut i: usize = 0;
    while i < items.len()
        invariant
            i <= items@.len(),
            out@ == "["@ + joined_choices(items@.subrange(0, i as int)),
        decreases items@.len() - i,
    {
        let ghost prev = items@.subrange(0, i as int);
        let ghost next = items@.subrange(0, i as int + 1);
        assert(next.drop_last() =~= prev);
        if i > 0 {
            out.append(", ");
        }
        let ghost o1 = out@;
        let c = &items[i];
        match c {
            ChoiceKey::Str(t) => {
                string_push(&mut out, '"');
                out.append(t.as_str());
                string_push(&mut out, '"');
                assert(out@ =~= o1 + (seq!['"'] + t@ + seq!['"']));
            },
            ChoiceKey::Int(v) => {
                let d = format_i64(*v);
                out.append(d.as_str());
                assert(out@ =~= o1 + decimal_chars(*v as int));
            },
            ChoiceKey::Bool(b) => {
                if *b {
                    out.append("True");
                } else {
                    out.append("False");
                }
            },
        }
        proof {
            assert(out@ =~= o1 + choice_text(items@[i as int]));
            if i == 0 {
                assert(joined_choices(next) == choice_text(next[0]));
            }
        }
        i += 1;
    }
    assert(items@.subrange(0, i as int) =~= items@);
    out.append("]");
    out
}

fn key_matches_exec(c: &ChoiceKey, k: &KeyRead) -> (r: bool)
    ensures
        r == key_matches(*c, scalar_of(*k)),
{
    match (c, k) {
        (ChoiceKey::Str(s), KeyRead::Text(t)) => crate::text::text_eq(s.as_str(), t.as_str()),
        (ChoiceKey::Int(i), KeyRead::Int(v)) => *i == *v,
        (ChoiceKey::Int(i), KeyRead::Bool(b)) => *i == (if *b { 1 } else { 0 }),
        (ChoiceKey::Bool(a), KeyRead::Bool(b)) => *a == *b,
        (ChoiceKey::Bool(a), KeyRead::Int(v)) => *v == (if *a { 1 } else { 0 }),
        (ChoiceKey::Int(i), KeyRead::BigUint(v)) => *i >= 0 && *i as u64 == *v,
        (ChoiceKey::Bool(a), KeyRead::BigUint(v)) => *v == (if *a { 1 } else { 0 }),
        _ => false,
    }
}

/// Which of `items` the scalar `k` is.
pub fn choice_index(items: &Vec<ChoiceKey>, k: &KeyRead) -> (r: Option<usize>)
    ensures
        match choice_of(items@, scalar_of(*k)) {
            Some(i) => r == Some(i as usize),
            None => r is None,
        },
{
    let mut i = items.len();
    assert(items@.subrange(0, i as int) =~= items@);
    while i > 0
        invariant
            i <= items@.len(),
            choice_of(items@, scalar_of(*k)) == choice_of(items@.subrange(0, i as int), scalar_of(*k)),
        decreases i,
    {
        let ghost sub = items@.subrange(0, i as int);
        assert(sub.drop_last() =~= items@.subrange(0, i - 1));
        if key_matches_exec(&items[i - 1], k) {
            return Some(i - 1);
        }
        i -= 1;
    }
    None
}

pub struct FieldSchema {
    /// The key the field is read from.
    pub key: String,
    pub schema: Schema,
    /// The field has a default value or a default factory.
    pub has_default: bool,
}

/// One operation of building the loaded value.
#[derive(Debug, Clone, PartialEq, Eq)]
pub enum LoadOp {
    NoneValue,
    Bool(bool),
    Int(i64),
    /// An unsigned integer beyond `i64`.
    BigUint(u64),
    Str(String),
    BeginList,
    EndList,
    BeginDict,
    /// The key of the next dictionary entry.
    Key(String),
    EndDict,
    BeginEntity,
    /// The next value is the field with this index.
    Field(usize),
    /// The field with this index takes its default.
    Default(usize),
    EndEntity,
    /// A UUID, by its text.
    Uuid(String),
    Date(DateValue),
    Time(TimeValue),
    DateTime(DateTimeParts),
    Bytes(Vec<u8>),
    /// The value is the choice with this index.
    Choice(usize),
    /// The next value is of the union member with this index.
    Member(usize),
}

/// The same operations, with texts as characters.
pub ghost enum Op {
    NoneValue,
    Bool(bool),
    Int(i64),
    BigUint(u64),
    Str(Seq<char>),
    BeginList,
    EndList,
    BeginDict,
    Key(Seq<char>),
    EndDict,
    BeginEntity,
    Field(usize),
    Default(usize),
    EndEntity,
    Uuid(Seq<char>),
    Date(DateValue),
    Time(TimeValue),
    DateTime(DateTimeParts),
    Bytes(Seq<u8>),
    Choice(usize),
    Member(usize),
}

pub open spec fn op_of(o: LoadOp) -> Op {
    match o {
        LoadOp::NoneValue => Op::NoneValue,
        LoadOp::Bool(b) => Op::Bool(b),
        LoadOp::Int(v) => Op::Int(v),
        LoadOp::BigUint(v) => Op::BigUint(v),
        LoadOp::Str(s) => Op::Str(s@),
        LoadOp::BeginList => Op::BeginList,
        LoadOp::EndList => Op::EndList,
        LoadOp::BeginDict => Op::BeginDict,
        LoadOp::Key(s) => Op::Key(s@),
        LoadOp::EndDict => Op::EndDict,
        LoadOp::BeginEntity => Op::BeginEntity,
        LoadOp::Field(i) => Op::Field(i),
        LoadOp::Default(i) => Op::Default(i),
        LoadOp::EndEntity => Op::EndEntity,
        LoadOp::Uuid(s) => Op::Uuid(s@),
        LoadOp::Date(d) => Op::Date(d),
        LoadOp::Time(t) => Op::Time(t),
        LoadOp::DateTime(dt) => Op::DateTime(dt),
        LoadOp::Bytes(b) => Op::Bytes(b@),
        LoadOp::Choice(i) => Op::Choice(i),
        LoadOp::Member(i) => Op::Member(i),
    }
}

pub open spec fn ops_of(v: Seq<LoadOp>) -> Seq<Op> {
    v.map_values(|o: LoadOp| op_of(o))
}

/// The type a value was expected to have.
#[derive(Debug, Clone, Copy, PartialEq, Eq, Structural)]
pub enum Expected {
    Null,
    Boolean,
    Integer,
    String,
    Array,
    Object,
    Format(TextFormat),
    Bytes,
    Sequence,
}

/// The name of a text format in messages.
pub open spec fn format_name(f: TextFormat) -> Seq<char> {
    match f {
        TextFormat::Uuid => "uuid"@,
        TextFormat::Date => "date"@,
        TextFormat::Time => "time"@,
        TextFormat::DateTime { .. } => "datetime"@,
    }
}

/// What a text in format `f` loads as: the UUID, or what speedate reads of
/// the date, time or date-time; `None` when it is not in the format.
pub open spec fn text_op(f: TextFormat, t: Seq<char>) -> Option<Op> {
    match f {
        TextFormat::Uuid => if uuid_text_ok(encode_utf8(t)) {
            Some(Op::Uuid(t))
        } else {
            None
        },
        TextFormat::Date => match speedate_date(t) {
            Ok(d) => Some(Op::Date(d)),
            Err(_) => None,
        },
        TextFormat::Time => match speedate_time(t) {
            Ok(v) => Some(Op::Time(v)),
            Err(_) => None,
        },
        TextFormat::DateTime { .. } => match speedate_datetime(t) {
            Ok(dt) => Some(Op::DateTime(dt)),
            Err(_) => None,
        },
    }
}

/// Loading text `t` in format `f`: its operation, or the message that it is
/// not of the format's type.
pub open spec fn text_load(f: TextFormat, t: Seq<char>, end: int, path: Seq<Seq<char>>) -> Result<(Seq<Op>, int), LoadFail> {
    match text_op(f, t) {
        Some(o) => Ok((seq![o], end)),
        None => Err(LoadFail::Schema(not_of_type_message(t, format_name(f)), path)),
    }
}

/// The name of a text format in messages.
pub fn format_name_str(f: TextFormat) -> (r: &'static str)
    ensures
        r@ == format_name(f),
{
    proof {
        reveal_strlit("uuid");
        reveal_strlit("date");
        reveal_strlit("time");
        reveal_strlit("datetime");
    }
    match f {
        TextFormat::Uuid => "uuid",
        TextFormat::Date => "date",
        TextFormat::Time => "time",
        TextFormat::DateTime { .. } => "datetime",
    }
}

/// Reads text `v` in format `f`: its operation, or the error that it is not
/// of the format's type.
pub fn load_formatted(f: TextFormat, v: &str, path: &InstancePath) -> (r: Result<LoadOp, SchemaError>)
    ensures
        match text_op(f, v@) {
            Some(o) => r matches Ok(x) && op_of(x) == o,
            None => r matches Err(e) && error_at(e, not_of_type_message(v@, format_name(f)), path.chunks()),
        },
{
    let ok = match f {
        TextFormat::Uuid => if uuid_parses(v) {
            Some(LoadOp::Uuid(String::from_str(v)))
        } else {
            None
        },
        TextFormat::Date => match parse_date(v) {
            Ok(d) => Some(LoadOp::Date(d)),
            Err(_) => None,
        },
        TextFormat::Time => match parse_time(v) {
            Ok(t) => Some(LoadOp::Time(t)),
            Err(_) => None,
        },
        TextFormat::DateTime { .. } => match parse_datetime(v) {
            Ok(dt) => Some(LoadOp::DateTime(dt)),
            Err(_) => None,
        },
    };
    match ok {
        Some(o) => Ok(o),
        None => Err(invalid_type_err(format_name_str(f), v, path)),
    }
}

/// Why a load failed, with paths as the texts of their steps.
pub ghost enum LoadFail {
    Decode(DecodeError),
    /// A JSON syntax error: its text and offset.
    Json(Seq<char>, int),
    /// A value failed a check of its schema: the message and the path.
    Schema(Seq<char>, Seq<Seq<char>>),
    /// The value at this position has the wrong type.
    WrongType(Expected, int, Seq<Seq<char>>),
    /// The nesting is deeper than allowed.
    TooDeep,
    /// The value at this position is none of a type's values, listed by
    /// the text.
    NotOneOf(int, Seq<Seq<char>>, Seq<char>),
    /// The value at this position is of none of a union's members; the text
    /// names the union.
    NoMember(int, Seq<Seq<char>>, Seq<char>),
    /// The sequence at this position has fewer (`true`) or more items than
    /// the tuple's `int` types.
    TupleSize(int, Seq<Seq<char>>, bool, int),
}

pub enum LoadError {
    Decode(DecodeError),
    Json(JsonError),
    Schema(SchemaError),
    /// The value at `position` (where the reader was left) is not of the
    /// `expected` type; the caller renders it for the message.
    WrongType { expected: Expected, position: usize, path: Vec<PathChunk> },
    TooDeep,
    /// The value at `position` is none of the values of its type; the caller
    /// renders it and the values for the message.
    NotOneOf { position: usize, path: Vec<PathChunk>, items: String },
    /// The value at `position` is of none of the members of the union
    /// `name`; the caller renders it for the message.
    NoMember { position: usize, path: Vec<PathChunk>, name: String },
    /// The sequence at `position` has fewer (`less`) or more items than the
    /// `size` of its tuple type; the caller renders it for the message.
    TupleSize { position: usize, path: Vec<PathChunk>, less: bool, size: usize },
    /// The format id names neither JSON nor MessagePack.
    UnknownFormat(u8),
}

/// A value of kind `k` can be of type `s`: the kinds each type reads.
pub open spec fn accepts(s: Schema, k: Kind) -> bool
    decreases s, 0int,
{
    match s {
        Schema::NoneType => k is Null,
        Schema::Boolean => k is Bool,
        Schema::Integer(_) => k is Num,
        Schema::String(_) => k is Str,
        Schema::Formatted(_) => k is Str,
        Schema::Bytes => k is Bytes,
        Schema::Choice(_) => k is Str || k is Num || k is Bool,
        Schema::Optional(inner) => k is Null || accepts(*inner, k),
        Schema::Array(_) => k is Array,
        Schema::Dictionary(_) => k is Mapping,
        Schema::Entity(_) => k is Mapping,
        Schema::Union(ms, _) => accepts_some(ms@, k),
        Schema::Tuple(_) => k is Array,
    }
}

/// Some of `ms` takes a value of kind `k`.
pub open spec fn accepts_some(ms: Seq<Schema>, k: Kind) -> bool
    decreases ms, ms.len(),
{
    if ms.len() == 0 {
        false
    } else {
        accepts_some(ms.drop_last(), k) || accepts(ms.last(), k)
    }
}

/// How many of `ms` take a value of kind `k`.
pub open spec fn accepting(ms: Seq<Schema>, k: Kind) -> nat
    decreases ms.len(),
{
    if ms.len() == 0 {
        0
    } else {
        accepting(ms.drop_last(), k) + if accepts(ms.last(), k) { 1nat } else { 0nat }
    }
}

/// The first of `ms` that takes a value of kind `k`, from index `i`.
pub open spec fn first_accepting(ms: Seq<Schema>, k: Kind, i: int) -> int
    decreases ms.len() - i,
{
    if i >= ms.len() || accepts(ms[i], k) {
        i
    } else {
        first_accepting(ms, k, i + 1)
    }
}

/// A failure that a union takes as "not this member" and goes on from.
pub open spec fn is_schema_fail(f: LoadFail) -> bool {
    f is Schema || f is WrongType || f is NotOneOf || f is NoMember || f is TupleSize
}

/// The texts of a path's steps.
pub open spec fn chunk_texts(chunks: Seq<PathChunk>) -> Seq<Seq<char>> {
    chunks.map_values(|c: PathChunk| chunk_text(c))
}

/// Step texts joined by `/`.
pub open spec fn join_texts(t: Seq<Seq<char>>) -> Seq<char>
    decreases t.len(),
{
    if t.len() == 0 {
        Seq::empty()
    } else if t.len() == 1 {
        t[0]
    } else {
        join_texts(t.drop_last()) + "/"@ + t.last()
    }
}

/// `e` is the failure `f`.
pub open spec fn fails_as(e: LoadError, f: LoadFail) -> bool {
    match (e, f) {
        (LoadError::Decode(a), LoadFail::Decode(b)) => a == b,
        (LoadError::Json(a), LoadFail::Json(m, i)) => a.message@ == m && a.index == i,
        (LoadError::Schema(s), LoadFail::Schema(m, t)) => s.message@ == m && path_matches(s.path, join_texts(t)),
        (LoadError::WrongType { expected, position, path }, LoadFail::WrongType(x, q, t)) => expected == x
            && position == q && chunk_texts(path@) == t,
        (LoadError::TooDeep, LoadFail::TooDeep) => true,
        (LoadError::NotOneOf { position, path, items }, LoadFail::NotOneOf(q, t, x)) => position == q
            && chunk_texts(path@) == t && items@ == x,
        (LoadError::NoMember { position, path, name }, LoadFail::NoMember(q, t, x)) => position == q
            && chunk_texts(path@) == t && name@ == x,
        (LoadError::TupleSize { position, path, less, size }, LoadFail::TupleSize(q, t, l, n)) => position == q
            && chunk_texts(path@) == t && less == l && size == n,
        _ => false,
    }
}

/// `ops` then what `r` loaded.
pub open spec fn after(ops: Seq<Op>, r: Result<(Seq<Op>, int), LoadFail>) -> Result<(Seq<Op>, int), LoadFail> {
    match r {
        Ok((o, e)) => Ok((ops + o, e)),
        Err(f) => Err(f),
    }
}

/// The routing table of an entity's fields.
pub open spec fn routes_of(fields: Seq<FieldSchema>) -> Seq<FieldRoute> {
    Seq::new(fields.len(), |i: int| FieldRoute { key: fields[i].key, flattened: false, has_default: fields[i].has_default })
}

/// The operations of an integer read as `v`, or the bound it breaks.
pub open spec fn int_load(ti: NumberTypeInfo<i64>, v: int, end: int, path: Seq<Seq<char>>) -> Result<(Seq<Op>, int), LoadFail> {
    if below_minimum(v, ti.min, ti.inclusive_min) {
        Err(LoadFail::Schema(lower_bound_message(v, ti.min->0 as int), path))
    } else if above_maximum(v, ti.max, ti.inclusive_max) {
        Err(LoadFail::Schema(upper_bound_message(v, ti.max->0 as int), path))
    } else if v <= i64::MAX {
        Ok((seq![Op::Int(v as i64)], end))
    } else {
        Ok((seq![Op::BigUint(v as u64)], end))
    }
}

/// Loading the value at `p` of `d` against `s`, at the path `path`, with
/// `dep` more levels of nesting allowed: the operations and the end of the
/// value, or why it fails.
pub open spec fn load_at(s: Schema, d: Seq<u8>, p: int, path: Seq<Seq<char>>, dep: nat) -> Result<(Seq<Op>, int), LoadFail>
    decreases dep, 0int, s, 0int,
{
    if p < 0 || p >= d.len() {
        Err(LoadFail::Decode(decode_err(DecodeErrorKind::UnexpectedEnd, p)))
    } else {
        match kind_of_marker(d[p]) {
            Err(k) => Err(LoadFail::Decode(decode_err(k, p))),
            Ok(kind) => match s {
                Schema::NoneType => if kind is Null {
                    Ok((seq![Op::NoneValue], p + 1))
                } else {
                    Err(LoadFail::WrongType(Expected::Null, p, path))
                },
                Schema::Boolean => if kind is Bool {
                    Ok((seq![Op::Bool(d[p] == 0xc3)], p + 1))
                } else {
                    Err(LoadFail::WrongType(Expected::Boolean, p, path))
                },
                Schema::Integer(ti) => if kind is Num {
                    match number_at(d, p) {
                        Err(e) => Err(LoadFail::Decode(e)),
                        Ok((WireNumber::I64(v), end)) => int_load(ti, v as int, end, path),
                        Ok((WireNumber::U64(v), end)) => int_load(ti, v as int, end, path),
                        Ok(_) => Err(LoadFail::Decode(decode_err(DecodeErrorKind::ExpectedInteger, p))),
                    }
                } else {
                    Err(LoadFail::WrongType(Expected::Integer, p, path))
                },
                Schema::String(ti) => if kind is Str {
                    match str_at(d, p) {
                        Err(e) => Err(LoadFail::Decode(e)),
                        Ok((b, end)) => {
                            let t = decode_utf8(b);
                            if ti.min_length is Some && t.len() < ti.min_length->0 {
                                Err(LoadFail::Schema(shorter_message(t, ti.min_length->0 as int), path))
                            } else if ti.max_length is Some && t.len() > ti.max_length->0 {
                                Err(LoadFail::Schema(longer_message(t, ti.max_length->0 as int), path))
                            } else {
                                Ok((seq![Op::Str(t)], end))
                            }
                        },
                    }
                } else {
                    Err(LoadFail::WrongType(Expected::String, p, path))
                },
                Schema::Optional(inner) => if kind is Null {
                    Ok((seq![Op::NoneValue], p + 1))
                } else {
                    load_at(*inner, d, p, path, dep)
                },
                Schema::Choice(items) => match kind {
                    Kind::Str => match str_at(d, p) {
                        Err(e) => Err(LoadFail::Decode(e)),
                        Ok((b, end)) => choice_load(items@, Scalar::Text(decode_utf8(b)), p, end, path),
                    },
                    Kind::Num => match number_at(d, p) {
                        Err(e) => Err(LoadFail::Decode(e)),
                        Ok((WireNumber::I64(v), end)) => choice_load(items@, Scalar::Int(v as int), p, end, path),
                        Ok((WireNumber::U64(v), end)) => choice_load(items@, Scalar::Int(v as int), p, end, path),
                        Ok(_) => Err(LoadFail::NotOneOf(p, path, items_text(items@))),
                    },
                    Kind::Bool => choice_load(items@, Scalar::Bool(d[p] == 0xc3), p, p + 1, path),
                    _ => Err(LoadFail::NotOneOf(p, path, items_text(items@))),
                },
                Schema::Tuple(types) => if dep == 0 {
                    Err(LoadFail::TooDeep)
                } else if !(kind is Array) {
                    Err(LoadFail::WrongType(Expected::Sequence, p, path))
                } else {
                    match container_header(d, p, false) {
                        Err(e) => Err(LoadFail::Decode(e)),
                        Ok((len, q)) => match tuple_items(types@, d, q, len, 0, path, (dep - 1) as nat) {
                            Err(f) => Err(f),
                            Ok((o, e)) => if len != types@.len() {
                                Err(LoadFail::TupleSize(p, path, len < types@.len(), types@.len() as int))
                            } else {
                                Ok((seq![Op::BeginList] + o + seq![Op::EndList], e))
                            },
                        },
                    }
                },
                Schema::Union(ms, name) => if accepting(ms@, kind) == 1 {
                    let i = first_accepting(ms@, kind, 0);
                    if 0 <= i < ms@.len() {
                        match load_at(ms@[i], d, p, path, dep) {
                            Ok((o, e)) => Ok((seq![Op::Member(i as usize)] + o, e)),
                            Err(f) => Err(f),
                        }
                    } else {
                        Err(LoadFail::NoMember(p, path, name@))
                    }
                } else {
                    match value_end(d, p) {
                        Err(e) => Err(LoadFail::Decode(e)),
                        Ok(end) => union_try(ms@, 0, kind, d.subrange(p, end), p, end, path, dep, name@),
                    }
                },
                Schema::Bytes => if kind is Bytes {
                    match bin_at(d, p) {
                        Err(e) => Err(LoadFail::Decode(e)),
                        Ok((b, end)) => Ok((seq![Op::Bytes(b)], end)),
                    }
                } else {
                    Err(LoadFail::WrongType(Expected::Bytes, p, path))
                },
                Schema::Formatted(f) => if kind is Str {
                    match str_at(d, p) {
                        Err(e) => Err(LoadFail::Decode(e)),
                        Ok((b, end)) => text_load(f, decode_utf8(b), end, path),
                    }
                } else {
                    Err(LoadFail::WrongType(Expected::Format(f), p, path))
                },
                Schema::Array(item) => if !(kind is Array) {
                    Err(LoadFail::WrongType(Expected::Array, p, path))
                } else if dep == 0 {
                    Err(LoadFail::TooDeep)
                } else {
                    match container_header(d, p, false) {
                        Err(e) => Err(LoadFail::Decode(e)),
                        Ok((len, q)) => match load_items(*item, d, q, len, 0, path, (dep - 1) as nat) {
                            Err(f) => Err(f),
                            Ok((o, e)) => Ok((seq![Op::BeginList] + o + seq![Op::EndList], e)),
                        },
                    }
                },
                Schema::Dictionary(value) => if !(kind is Mapping) {
                    Err(LoadFail::WrongType(Expected::Object, p, path))
                } else if dep == 0 {
                    Err(LoadFail::TooDeep)
                } else {
                    match container_header(d, p, true) {
                        Err(e) => Err(LoadFail::Decode(e)),
                        Ok((len, q)) => match load_entries(*value, d, q, len, path, (dep - 1) as nat) {
                            Err(f) => Err(f),
                            Ok((o, e)) => Ok((seq![Op::BeginDict] + o + seq![Op::EndDict], e)),
                        },
                    }
                },
                Schema::Entity(fields) => if !(kind is Mapping) {
                    Err(LoadFail::WrongType(Expected::Object, p, path))
                } else if dep == 0 {
                    Err(LoadFail::TooDeep)
                } else {
                    match container_header(d, p, true) {
                        Err(e) => Err(LoadFail::Decode(e)),
                        Ok((len, q)) => match load_fields(
                            fields@,
                            d,
                            q,
                            len,
                            Seq::new(fields@.len(), |i: int| false),
                            0,
                            path,
                            (dep - 1) as nat,
                        ) {
                            Err(f) => Err(f),
                            Ok((o, e, seen)) => {
                                let acts = end_from(routes_of(fields@), seen, false, 0);
                                if acts.len() > 0 && acts.last() is Missing {
                                    let i = acts.last()->Missing_0;
                                    Err(LoadFail::Schema(required_message(fields@[i as int].key@), path))
                                } else {
                                    Ok((seq![Op::BeginEntity] + o + default_ops(acts) + seq![Op::EndEntity], e))
                                }
                            },
                        },
                    }
                },
            },
        }
    }
}

/// `Default` operations for the fields that take their defaults.
pub open spec fn default_ops(acts: Seq<EndAction>) -> Seq<Op> {
    acts.map_values(|a: EndAction| match a {
        EndAction::Default(i) => Op::Default(i),
        EndAction::Flatten(i) => Op::Default(i),
        EndAction::Missing(i) => Op::Default(i),
    })
}

/// Trying the members of a union from `i` on the value `span`, read at `p`
/// up to `end`: the first member that takes its kind and loads it, past the
/// members that fail a check; any other failure stops.
pub open spec fn union_try(
    ms: Seq<Schema>,
    i: int,
    kind: Kind,
    span: Seq<u8>,
    p: int,
    end: int,
    path: Seq<Seq<char>>,
    dep: nat,
    name: Seq<char>,
) -> Result<(Seq<Op>, int), LoadFail>
    decreases dep, 0int, ms, ms.len() - i,
{
    if i < 0 || i >= ms.len() {
        Err(LoadFail::NoMember(p, path, name))
    } else if !accepts(ms[i], kind) {
        union_try(ms, i + 1, kind, span, p, end, path, dep, name)
    } else {
        match load_at(ms[i], span, 0, path, dep) {
            Ok((o, _)) => Ok((seq![Op::Member(i as usize)] + o, end)),
            Err(f) => if is_schema_fail(f) {
                union_try(ms, i + 1, kind, span, p, end, path, dep, name)
            } else {
                Err(f)
            },
        }
    }
}

/// The items of a sequence read as a tuple's: item `k` of its type while
/// the types last, any further item skipped.
pub open spec fn tuple_items(types: Seq<Schema>, d: Seq<u8>, p: int, n: int, k: int, path: Seq<Seq<char>>, dep: nat) -> Result<(Seq<Op>, int), LoadFail>
    decreases dep, 1int, types, n - k,
{
    if k >= n {
        Ok((Seq::empty(), p))
    } else if 0 <= k < types.len() {
        match load_at(types[k], d, p, path.push(decimal_chars(k)), dep) {
            Err(f) => Err(f),
            Ok((o, e)) => after(o, tuple_items(types, d, e, n, k + 1, path, dep)),
        }
    } else {
        match value_end(d, p) {
            Err(e) => Err(LoadFail::Decode(e)),
            Ok(e) => tuple_items(types, d, e, n, k + 1, path, dep),
        }
    }
}

/// Items `k` to `n` of a list, the one at `k` starting at `p`.
pub open spec fn load_items(item: Schema, d: Seq<u8>, p: int, n: int, k: int, path: Seq<Seq<char>>, dep: nat) -> Result<(Seq<Op>, int), LoadFail>
    decreases dep, 1int, item, n - k,
{
    if k >= n {
        Ok((Seq::empty(), p))
    } else {
        match load_at(item, d, p, path.push(decimal_chars(k)), dep) {
            Err(f) => Err(f),
            Ok((o, e)) => after(o, load_items(item, d, e, n, k + 1, path, dep)),
        }
    }
}

/// The `n` entries of a dictionary, the first key at `p`.
pub open spec fn load_entries(value: Schema, d: Seq<u8>, p: int, n: int, path: Seq<Seq<char>>, dep: nat) -> Result<(Seq<Op>, int), LoadFail>
    decreases dep, 1int, value, n,
{
    if n <= 0 {
        Ok((Seq::empty(), p))
    } else {
        match key_result(d, p) {
            Err(e) => Err(LoadFail::Decode(e)),
            Ok((kb, q)) => {
                let key = decode_utf8(kb);
                match load_at(value, d, q, path.push(key), dep) {
                    Err(f) => Err(f),
                    Ok((o, e)) => after(seq![Op::Key(key)] + o, load_entries(value, d, e, n - 1, path, dep)),
                }
            },
        }
    }
}

/// The `n` remaining entries of an entity, the first key at `p`, with the
/// fields `seen` so far and the field tried first, `expect`: the operations,
/// the end, and the fields seen at the end.
pub open spec fn load_fields(
    fields: Seq<FieldSchema>,
    d: Seq<u8>,
    p: int,
    n: int,
    seen: Seq<bool>,
    expect: int,
    path: Seq<Seq<char>>,
    dep: nat,
) -> Result<(Seq<Op>, int, Seq<bool>), LoadFail>
    decreases dep, 1int, fields, n,
{
    if n <= 0 {
        Ok((Seq::empty(), p, seen))
    } else {
        match key_result(d, p) {
            Err(e) => Err(LoadFail::Decode(e)),
            Ok((kb, q)) => match route_spec(routes_of(fields), false, expect, Some(kb)) {
                Route::Field(i) => match load_at(fields[i as int].schema, d, q, path.push(fields[i as int].key@), dep) {
                    Err(f) => Err(f),
                    Ok((o, e)) => match load_fields(fields, d, e, n - 1, seen.update(i as int, true), i + 1, path, dep) {
                        Err(f) => Err(f),
                        Ok((o2, e2, s2)) => Ok((seq![Op::Field(i)] + o + o2, e2, s2)),
                    },
                },
                _ => match value_end(d, q) {
                    Err(e) => Err(LoadFail::Decode(e)),
                    Ok(e) => load_fields(fields, d, e, n - 1, seen, expect, path, dep),
                },
            },
        }
    }
}

pub(crate) proof fn lemma_join(chunks: Seq<PathChunk>)
    ensures
        crate::context::join_path(chunks) == join_texts(chunk_texts(chunks)),
    decreases chunks.len(),
{
    if chunks.len() > 1 {
        lemma_join(chunks.drop_last());
        assert(chunk_texts(chunks).drop_last() =~= chunk_texts(chunks.drop_last()));
    }
}

pub(crate) proof fn lemma_texts_push(chunks: Seq<PathChunk>, c: PathChunk)
    ensures
        chunk_texts(chunks.push(c)) == chunk_texts(chunks).push(chunk_text(c)),
{
    assert(chunk_texts(chunks.push(c)) =~= chunk_texts(chunks).push(chunk_text(c)));
}

/// A checker's error, as a load failure at `path`.
fn schema_error(e: SchemaError, path: &InstancePath) -> (r: LoadError)
    ensures
        r == LoadError::Schema(e),
{
    LoadError::Schema(e)
}

fn wrong_type(expected: Expected, p: &MsgpackParser, path: &InstancePath) -> (r: LoadError)
    ensures
        r matches LoadError::WrongType { expected: x, position, path: v } && x == expected && position == p.index()
            && v@ == path.chunks(),
{
    LoadError::WrongType { expected, position: p.position(), path: path.to_vec() }
}

/// `v` is above the maximum `m` of an integer type.
fn big_above_max(v: u64, m: i64, path: &InstancePath) -> (e: SchemaError)
    ensures
        e.message@ == upper_bound_message(v as int, m as int),
        path_matches(e.path, crate::context::join_path(path.chunks())),
{
    let mut msg = format_u64(v);
    msg.append(" is greater than the maximum of ");
    let t = format_i64(m);
    msg.append(t.as_str());
    SchemaError::new(msg, path)
}

/// What loading the value at the reader's cursor against `s` did, as
/// `load_at` states it.
pub open spec fn loaded(
    s: Schema,
    p0: MsgpackParser,
    p1: MsgpackParser,
    path: Seq<PathChunk>,
    dep: nat,
    ops0: Seq<LoadOp>,
    ops1: Seq<LoadOp>,
    r: Result<(), LoadError>,
) -> bool {
    match load_at(s, p0.data(), p0.index(), chunk_texts(path), dep) {
        Ok((o, e)) => r is Ok && ops_of(ops1) == ops_of(ops0) + o && p1.index() == e && p1.frames() == p0.frames(),
        Err(f) => r matches Err(x) && fails_as(x, f),
    }
}

/// Whether a value of kind `k` can be of type `s`.
pub fn accepts_kind(s: &Schema, k: Kind) -> (r: bool)
    ensures
        r == accepts(*s, k),
    decreases s,
{
    match s {
        Schema::NoneType => k == Kind::Null,
        Schema::Boolean => k == Kind::Bool,
        Schema::Integer(_) => k == Kind::Num,
        Schema::String(_) => k == Kind::Str,
        Schema::Formatted(_) => k == Kind::Str,
        Schema::Bytes => k == Kind::Bytes,
        Schema::Choice(_) => k == Kind::Str || k == Kind::Num || k == Kind::Bool,
        Schema::Optional(inner) => k == Kind::Null || accepts_kind(inner, k),
        Schema::Array(_) => k == Kind::Array,
        Schema::Dictionary(_) => k == Kind::Mapping,
        Schema::Entity(_) => k == Kind::Mapping,
        Schema::Tuple(_) => k == Kind::Array,
        Schema::Union(ms, name) => {
            let mut found = false;
            let mut i: usize = 0;
            while i < ms.len()
                invariant
                    i <= ms@.len(),
                    found == accepts_some(ms@.subrange(0, i as int), k),
                    *s == Schema::Union(*ms, *name),
                decreases ms@.len() - i,
            {
                assert(ms@.subrange(0, i as int + 1).drop_last() =~= ms@.subrange(0, i as int));
                proof {
                    assert(decreases_to!(*s => (*s)->Union_0));
                    assert((*s)->Union_0 == *ms);
                    assert(decreases_to!(*ms => ms@));
                    assert(decreases_to!(ms@ => ms@[i as int]));
                    assert(decreases_to!(*s => ms@[i as int]));
                }
                let a = accepts_kind(&ms[i], k);
                found = found || a;
                i += 1;
            }
            assert(ms@.subrange(0, i as int) =~= ms@);
            found
        },
    }
}

/// How many members take a value of kind `k`, and the first that does.
pub(crate) fn count_accepting(ms: &Vec<Schema>, k: Kind) -> (r: (usize, usize))
    ensures
        r.0 == accepting(ms@, k),
        r.1 == first_accepting(ms@, k, 0),
{
    let mut n: usize = 0;
    let mut first: usize = 0;
    let mut found = false;
    let mut i: usize = 0;
    while i < ms.len()
        invariant
            i <= ms@.len(),
            n <= i,
            n == accepting(ms@.subrange(0, i as int), k),
            first_accepting(ms@, k, 0) == if found { first as int } else { first_accepting(ms@, k, i as int) },
        decreases ms@.len() - i,
    {
        assert(ms@.subrange(0, i as int + 1).drop_last() =~= ms@.subrange(0, i as int));
        if accepts_kind(&ms[i], k) {
            n += 1;
            if !found {
                found = true;
                first = i;
            }
        }
        i += 1;
    }
    assert(ms@.subrange(0, i as int) =~= ms@);
    if !found {
        first = i;
    }
    (n, first)
}

/// Loads the value at the cursor, whose kind `peek` gave, as of the union
/// of `ms`: the one member that takes its kind reads it in place; else the
/// value is taken whole and each member that takes its kind tries it, in
/// order, past those that fail a check.
#[verifier::spinoff_prover]
#[verifier::rlimit(40)]
fn load_union(
    ms: &Vec<Schema>,
    name: &String,
    kind: Kind,
    p: &mut MsgpackParser,
    path: &InstancePath,
    dep: usize,
    ops: &mut Vec<LoadOp>,
) -> (r: Result<(), LoadError>)
    requires
        old(p).wf(),
        old(p).frames().len() + dep < STACK_LIMIT,
        old(p).peeked(),
        kind_of_marker(old(p).data()[old(p).index()]) == Ok::<Kind, DecodeErrorKind>(kind),
    ensures
        final(p).data() == old(p).data(),
        final(p).wf(),
        loaded(Schema::Union(*ms, *name), *old(p), *final(p), path.chunks(), dep as nat, old(ops)@, final(ops)@, r),
        r matches Err(LoadError::WrongType { position, .. }) ==> final(p).index() == position,
    decreases dep, 0int, *ms, 1int,
{
    let ghost d = p.data();
    let ghost i0 = p.index();
    let ghost t = chunk_texts(path.chunks());
    let (n, first) = count_accepting(ms, kind);
    if n == 1 {
        if first >= ms.len() {
            return Err(LoadError::NoMember { position: p.position(), path: path.to_vec(), name: String::from_str(name.as_str()) });
        }
        proof {
            assert(decreases_to!(*ms => ms@));
            assert(decreases_to!(ms@ => ms@[first as int]));
        }
        let ghost o0 = ops@;
        ops.push(LoadOp::Member(first));
        let ghost o1 = ops@;
        let r = load_value(&ms[first], p, path, dep, ops);
        proof {
            assert(ops_of(o1) =~= ops_of(o0) + seq![Op::Member(first)]);
            if let Ok((o, e)) = load_at(ms@[first as int], d, i0, t, dep as nat) {
                assert(ops_of(ops@) =~= ops_of(o0) + (seq![Op::Member(first)] + o));
            }
        }
        return r;
    }
    let pos = p.position();
    let span = match p.take_raw_value() {
        Ok(s) => s,
        Err(e) => return Err(LoadError::Decode(e)),
    };
    let ghost end = p.index() as int;
    proof {
        crate::value_render::lemma_value_end_advances(d, i0);
    }
    let mut i: usize = 0;
    while i < ms.len()
        invariant
            i <= ms@.len(),
            span@ == d.subrange(i0, end),
            0 <= i0 < end <= d.len(),
            pos == i0,
            d == old(p).data(),
            i0 == old(p).index(),
            t == chunk_texts(path.chunks()),
            kind_of_marker(d[i0]) == Ok::<Kind, DecodeErrorKind>(kind),
            accepting(ms@, kind) != 1,
            value_end(d, i0) == Ok::<int, DecodeError>(end),
            ops@ == old(ops)@,
            p.wf(),
            p.data() == d,
            p.index() == end,
            p.frames() == old(p).frames(),
            old(p).frames().len() + dep < STACK_LIMIT,
            d.len() < usize::MAX,
            union_try(ms@, 0, kind, span@, i0, end, t, dep as nat, name@)
                == union_try(ms@, i as int, kind, span@, i0, end, t, dep as nat, name@),
        decreases ms@.len() - i,
    {
        if accepts_kind(&ms[i], kind) {
            proof {
                assert(decreases_to!(*ms => ms@));
                assert(decreases_to!(ms@ => ms@[i as int]));
            }
            let mut sub = MsgpackParser::new(span);
            let mut tmp: Vec<LoadOp> = Vec::new();
            let r = load_value(&ms[i], &mut sub, path, dep, &mut tmp);
            match r {
                Ok(()) => {
                    let ghost o0 = ops@;
                    ops.push(LoadOp::Member(i));
                    let ghost o1 = ops@;
                    let ghost tv = tmp@;
                    ops.append(&mut tmp);
                    proof {
                        assert(ops@ == o1 + tv);
                        assert(ops_of(ops@) =~= ops_of(o0) + (seq![Op::Member(i)] + ops_of(tv)));
                    }
                    return Ok(());
                },
                Err(e) => {
                    let go_on = match e {
                        LoadError::Schema(_) => true,
                        LoadError::WrongType { .. } => true,
                        LoadError::NotOneOf { .. } => true,
                        LoadError::NoMember { .. } => true,
                        LoadError::TupleSize { .. } => true,
                        _ => false,
                    };
                    if !go_on {
                        return Err(e);
                    }
                },
            }
        }
        i += 1;
    }
    Err(LoadError::NoMember { position: pos, path: path.to_vec(), name: String::from_str(name.as_str()) })
}

/// Loads the scalar at the cursor, whose kind `peek` gave, as one of `items`.
fn load_choice(items: &Vec<ChoiceKey>, kind: Kind, p: &mut MsgpackParser, path: &InstancePath, ops: &mut Vec<LoadOp>) -> (r: Result<(), LoadError>)
    requires
        old(p).wf(),
        old(p).peeked(),
        old(p).index() < old(p).data().len(),
        kind_of_marker(old(p).data()[old(p).index()]) == Ok::<Kind, DecodeErrorKind>(kind),
    ensures
        final(p).data() == old(p).data(),
        final(p).wf(),
        loaded(Schema::Choice(*items), *old(p), *final(p), path.chunks(), 0, old(ops)@, final(ops)@, r),
{
    let pos = p.position();
    let ghost d = p.data();
    let key = match kind {
        Kind::Str => match p.take_str_known() {
            Ok(v) => {
                proof {
                    encode_utf8_decode_utf8(v@);
                }
                KeyRead::Text(String::from_str(v))
            },
            Err(e) => return Err(LoadError::Decode(e)),
        },
        Kind::Num => match p.take_number_known() {
            Ok(ParsedNumber::Int(ParsedInt::I64(v))) => KeyRead::Int(v),
            Ok(ParsedNumber::Int(ParsedInt::BigU64(v))) => KeyRead::BigUint(v),
            Ok(_) => return Err(LoadError::NotOneOf { position: pos, path: path.to_vec(), items: choices_text(items) }),
            Err(e) => return Err(LoadError::Decode(e)),
        },
        Kind::Bool => match p.take_bool_known() {
            Ok(b) => KeyRead::Bool(b),
            Err(e) => return Err(LoadError::Decode(e)),
        },
        _ => return Err(LoadError::NotOneOf { position: pos, path: path.to_vec(), items: choices_text(items) }),
    };
    match choice_index(items, &key) {
        Some(i) => {
            ops.push(LoadOp::Choice(i));
            assert(ops_of(ops@) =~= ops_of(old(ops)@) + seq![Op::Choice(i)]);
            Ok(())
        },
        None => Err(LoadError::NotOneOf { position: pos, path: path.to_vec(), items: choices_text(items) }),
    }
}

/// Loads the value at the cursor against `s`, appending its build
/// operations to `ops`. At most `dep` more containers are entered. On a
/// value of the wrong type the reader is left on it, for the caller to
/// render it in the message.
#[verifier::spinoff_prover]
#[verifier::rlimit(80)]
pub fn load_value(s: &Schema, p: &mut MsgpackParser, path: &InstancePath, dep: usize, ops: &mut Vec<LoadOp>) -> (r: Result<(), LoadError>)
    requires
        old(p).wf(),
        old(p).frames().len() + dep < STACK_LIMIT,
    ensures
        final(p).data() == old(p).data(),
        final(p).wf(),
        loaded(*s, *old(p), *final(p), path.chunks(), dep as nat, old(ops)@, final(ops)@, r),
        r matches Err(LoadError::WrongType { position, .. }) ==> final(p).index() == position,
    decreases dep, 0int, *s, 0int,
{
    let ghost d = p.data();
    let ghost i = p.index();
    proof {
        lemma_join(path.chunks());
    }
    let kind = match p.peek() {
        Ok(k) => k,
        Err(e) => return Err(LoadError::Decode(e)),
    };
    match s {
        Schema::NoneType => {
            if kind == Kind::Null {
                let _ = p.take_null_known();
                ops.push(LoadOp::NoneValue);
                assert(ops_of(ops@) =~= ops_of(old(ops)@) + seq![Op::NoneValue]);
                Ok(())
            } else {
                Err(wrong_type(Expected::Null, p, path))
            }
        },
        Schema::Boolean => {
            if kind == Kind::Bool {
                let b = match p.take_bool_known() {
                    Ok(b) => b,
                    Err(e) => return Err(LoadError::Decode(e)),
                };
                ops.push(LoadOp::Bool(b));
                assert(ops_of(ops@) =~= ops_of(old(ops)@) + seq![Op::Bool(b)]);
                Ok(())
            } else {
                Err(wrong_type(Expected::Boolean, p, path))
            }
        },
        Schema::Integer(ti) => {
            if kind != Kind::Num {
                return Err(wrong_type(Expected::Integer, p, path));
            }
            match p.take_int_known() {
                Err(e) => Err(LoadError::Decode(e)),
                Ok(ParsedInt::I64(v)) => {
                    match check_bounds(v, ti, path) {
                        Err(e) => Err(schema_error(e, path)),
                        Ok(()) => {
                            ops.push(LoadOp::Int(v));
                            assert(ops_of(ops@) =~= ops_of(old(ops)@) + seq![Op::Int(v)]);
                            Ok(())
                        },
                    }
                },
                Ok(ParsedInt::BigU64(v)) => {
                    if let Some(m) = ti.max {
                        return Err(schema_error(big_above_max(v, m, path), path));
                    }
                    ops.push(LoadOp::BigUint(v));
                    assert(ops_of(ops@) =~= ops_of(old(ops)@) + seq![Op::BigUint(v)]);
                    Ok(())
                },
            }
        },
        Schema::String(ti) => {
            if kind != Kind::Str {
                return Err(wrong_type(Expected::String, p, path));
            }
            let v = match p.take_str_known() {
                Ok(v) => v,
                Err(e) => return Err(LoadError::Decode(e)),
            };
            proof {
                encode_utf8_decode_utf8(v@);
            }
            match check_length(v, ti.min_length, ti.max_length, path) {
                Err(e) => Err(schema_error(e, path)),
                Ok(()) => {
                    let t = String::from_str(v);
                    ops.push(LoadOp::Str(t));
                    assert(ops_of(ops@) =~= ops_of(old(ops)@) + seq![Op::Str(v@)]);
                    Ok(())
                },
            }
        },
        Schema::Choice(items) => load_choice(items, kind, p, path, ops),
        Schema::Tuple(types) => {
            if dep == 0 {
                return Err(LoadError::TooDeep);
            }
            if kind != Kind::Array {
                return Err(wrong_type(Expected::Sequence, p, path));
            }
            load_tuple(types, p, path, dep - 1, ops)
        },
        Schema::Union(ms, name) => load_union(ms, name, kind, p, path, dep, ops),
        Schema::Bytes => {
            if kind != Kind::Bytes {
                return Err(wrong_type(Expected::Bytes, p, path));
            }
            match p.take_bytes_known() {
                Err(e) => Err(LoadError::Decode(e)),
                Ok(b) => {
                    let v = vstd::slice::slice_to_vec(b);
                    ops.push(LoadOp::Bytes(v));
                    assert(ops_of(ops@) =~= ops_of(old(ops)@) + seq![Op::Bytes(b@)]);
                    Ok(())
                },
            }
        },
        Schema::Formatted(f) => {
            if kind != Kind::Str {
                return Err(wrong_type(Expected::Format(*f), p, path));
            }
            let v = match p.take_str_known() {
                Ok(v) => v,
                Err(e) => return Err(LoadError::Decode(e)),
            };
            proof {
                encode_utf8_decode_utf8(v@);
            }
            match load_formatted(*f, v, path) {
                Err(e) => Err(schema_error(e, path)),
                Ok(o) => {
                    let ghost x = op_of(o);
                    ops.push(o);
                    assert(ops_of(ops@) =~= ops_of(old(ops)@) + seq![x]);
                    Ok(())
                },
            }
        },
        Schema::Optional(inner) => {
            if kind == Kind::Null {
                let _ = p.take_null_known();
                ops.push(LoadOp::NoneValue);
                assert(ops_of(ops@) =~= ops_of(old(ops)@) + seq![Op::NoneValue]);
                Ok(())
            } else {
                load_value(inner, p, path, dep, ops)
            }
        },
        Schema::Array(item) => {
            if kind != Kind::Array {
                return Err(wrong_type(Expected::Array, p, path));
            }
            if dep == 0 {
                return Err(LoadError::TooDeep);
            }
            load_list(item, p, path, dep - 1, ops)
        },
        Schema::Dictionary(value) => {
            if kind != Kind::Mapping {
                return Err(wrong_type(Expected::Object, p, path));
            }
            if dep == 0 {
                return Err(LoadError::TooDeep);
            }
            load_dict(value, p, path, dep - 1, ops)
        },
        Schema::Entity(fields) => {
            if kind != Kind::Mapping {
                return Err(wrong_type(Expected::Object, p, path));
            }
            if dep == 0 {
                return Err(LoadError::TooDeep);
            }
            load_entity(fields, p, path, dep - 1, ops)
        },
    }
}

pub(crate) proof fn lemma_after_after(a: Seq<Op>, b: Seq<Op>, x: Result<(Seq<Op>, int), LoadFail>)
    ensures
        after(a, after(b, x)) == after(a + b, x),
{
    if let Ok((o, e)) = x {
        assert(a + (b + o) =~= (a + b) + o);
    }
}

/// Loads the list whose marker the last `peek` saw: `dep` is the nesting
/// allowed inside it.
fn load_list(item: &Schema, p: &mut MsgpackParser, path: &InstancePath, dep: usize, ops: &mut Vec<LoadOp>) -> (r: Result<(), LoadError>)
    requires
        old(p).wf(),
        old(p).peeked(),
        old(p).frames().len() + dep + 1 < STACK_LIMIT,
    ensures
        final(p).data() == old(p).data(),
        final(p).wf(),
        ({
            let d = old(p).data();
            let t = chunk_texts(path.chunks());
            match container_header(d, old(p).index(), false) {
                Err(e) => r matches Err(x) && fails_as(x, LoadFail::Decode(e)),
                Ok((len, q)) => match load_items(*item, d, q, len, 0, t, dep as nat) {
                    Ok((o, e)) => r is Ok && ops_of(final(ops)@) == ops_of(old(ops)@) + (seq![Op::BeginList] + o + seq![Op::EndList])
                        && final(p).index() == e && final(p).frames() == old(p).frames(),
                    Err(f) => r matches Err(x) && fails_as(x, f),
                },
            }
        }),
        r matches Err(LoadError::WrongType { position, .. }) ==> final(p).index() == position,
    decreases dep, 1int, *item, 0int,
{
    let ghost d = p.data();
    let ghost i = p.index();
    let ghost base = p.frames();
    let ghost t = chunk_texts(path.chunks());
    let ghost ops0 = ops_of(ops@);
    let more = match p.enter_array_known() {
        Ok(m) => m,
        Err(e) => return Err(LoadError::Decode(e)),
    };
    let ghost len = container_header(d, i, false)->Ok_0.0;
    let ghost q = p.index();
    let ghost v0 = ops@;
    ops.push(LoadOp::BeginList);
    proof {
        lemma_ops_push(v0, LoadOp::BeginList);
    }
    let ghost mut acc: Seq<Op> = Seq::empty();
    assert(ops_of(ops@) =~= ops0 + seq![Op::BeginList] + acc);
    let mut k: usize = 0;
    let mut going = more;
    while going
        invariant
            p.wf(),
            p.data() == d,
            0 <= k <= len,
            len <= u32::MAX + 1,
            going == (k < len),
            p.frames() == if going { base.push(Frame { is_map: false, remaining: (len - 1 - k) as u32 }) } else { base },
            base.len() + dep + 1 < STACK_LIMIT,
            ops_of(ops@) == ops0 + seq![Op::BeginList] + acc,
            d == old(p).data(),
            i == old(p).index(),
            container_header(d, i, false) == Ok::<(int, int), DecodeError>((len, q)),
            load_items(*item, d, q, len, 0, t, dep as nat) == after(acc, load_items(*item, d, p.index(), len, k as int, t, dep as nat)),
            t == chunk_texts(path.chunks()),
        decreases len - k,
    {
        let child = path.push(PathChunk::Index(k));
        proof {
            lemma_texts_push(path.chunks(), PathChunk::Index(k));
        }
        let ghost at = p.index();
        let ghost before = ops_of(ops@);
        let ghost step = load_at(*item, d, at, t.push(decimal_chars(k as int)), dep as nat);
        match load_value(item, p, &child, dep, ops) {
            Err(e) => {
                return Err(e);
            },
            Ok(()) => {},
        }
        let ghost o = step->Ok_0.0;
        proof {
            lemma_after_after(acc, o, load_items(*item, d, p.index(), len, k + 1, t, dep as nat));
            assert(before + o =~= ops0 + seq![Op::BeginList] + (acc + o));
            acc = acc + o;
        }
        match p.next_array_item() {
            Err(e) => {
                return Err(LoadError::Decode(e));
            },
            Ok(more_items) => {
                going = more_items;
            },
        }
        k += 1;
    }
    let ghost v1 = ops@;
    ops.push(LoadOp::EndList);
    proof {
        lemma_ops_push(v1, LoadOp::EndList);
        assert(ops_of(v1).push(Op::EndList) =~= ops0 + seq![Op::BeginList] + acc + seq![Op::EndList]);
        assert(after(acc, load_items(*item, d, p.index(), len, k as int, t, dep as nat)) == Ok::<(Seq<Op>, int), LoadFail>((acc + Seq::<Op>::empty(), p.index())));
        assert(acc + Seq::<Op>::empty() =~= acc);
        assert(ops_of(ops@) =~= ops0 + (seq![Op::BeginList] + acc + seq![Op::EndList]));
    }
    Ok(())
}

/// Loads the sequence at the cursor as a tuple of `types`.
#[verifier::spinoff_prover]
#[verifier::rlimit(40)]
fn load_tuple(types: &Vec<Schema>, p: &mut MsgpackParser, path: &InstancePath, dep: usize, ops: &mut Vec<LoadOp>) -> (r: Result<(), LoadError>)
    requires
        old(p).wf(),
        old(p).peeked(),
        old(p).frames().len() + dep + 1 < STACK_LIMIT,
    ensures
        final(p).data() == old(p).data(),
        final(p).wf(),
        ({
            let d = old(p).data();
            let t = chunk_texts(path.chunks());
            match container_header(d, old(p).index(), false) {
                Err(e) => r matches Err(x) && fails_as(x, LoadFail::Decode(e)),
                Ok((len, q)) => match tuple_items(types@, d, q, len, 0, t, dep as nat) {
                    Ok((o, e)) => if len != types@.len() {
                        r matches Err(x) && fails_as(x, LoadFail::TupleSize(old(p).index(), t, len < types@.len(), types@.len() as int))
                    } else {
                        r is Ok && ops_of(final(ops)@) == ops_of(old(ops)@) + (seq![Op::BeginList] + o + seq![Op::EndList])
                            && final(p).index() == e && final(p).frames() == old(p).frames()
                    },
                    Err(f) => r matches Err(x) && fails_as(x, f),
                },
            }
        }),
        r matches Err(LoadError::WrongType { position, .. }) ==> final(p).index() == position,
    decreases dep, 1int, *types, 0int,
{
    let ghost d = p.data();
    let ghost i = p.index();
    let ghost base = p.frames();
    let ghost t = chunk_texts(path.chunks());
    let ghost ops0 = ops_of(ops@);
    let start = p.position();
    let more = match p.enter_array_known() {
        Ok(m) => m,
        Err(e) => return Err(LoadError::Decode(e)),
    };
    let ghost len = container_header(d, i, false)->Ok_0.0;
    let ghost q = p.index();
    let ghost v0 = ops@;
    ops.push(LoadOp::BeginList);
    proof {
        lemma_ops_push(v0, LoadOp::BeginList);
    }
    let ghost mut acc: Seq<Op> = Seq::empty();
    assert(ops_of(ops@) =~= ops0 + seq![Op::BeginList] + acc);
    let mut k: usize = 0;
    let mut going = more;
    while going
        invariant
            p.wf(),
            p.data() == d,
            0 <= k <= len,
            len <= u32::MAX + 1,
            going == (k < len),
            p.frames() == if going { base.push(Frame { is_map: false, remaining: (len - 1 - k) as u32 }) } else { base },
            base.len() + dep + 1 < STACK_LIMIT,
            ops_of(ops@) == ops0 + seq![Op::BeginList] + acc,
            d == old(p).data(),
            i == old(p).index(),
            start == i,
            container_header(d, i, false) == Ok::<(int, int), DecodeError>((len, q)),
            tuple_items(types@, d, q, len, 0, t, dep as nat) == after(acc, tuple_items(types@, d, p.index(), len, k as int, t, dep as nat)),
            t == chunk_texts(path.chunks()),
        decreases len - k,
    {
        if k < types.len() {
            let child = path.push(PathChunk::Index(k));
            proof {
                lemma_texts_push(path.chunks(), PathChunk::Index(k));
                assert(decreases_to!(*types => types@));
                assert(decreases_to!(types@ => types@[k as int]));
            }
            let ghost at = p.index();
            let ghost before = ops_of(ops@);
            let ghost step = load_at(types@[k as int], d, at, t.push(decimal_chars(k as int)), dep as nat);
            match load_value(&types[k], p, &child, dep, ops) {
                Err(e) => {
                    return Err(e);
                },
                Ok(()) => {},
            }
            let ghost o = step->Ok_0.0;
            proof {
                lemma_after_after(acc, o, tuple_items(types@, d, p.index(), len, k + 1, t, dep as nat));
                assert(before + o =~= ops0 + seq![Op::BeginList] + (acc + o));
                acc = acc + o;
            }
        } else {
            match p.skip_value() {
                Err(e) => {
                    return Err(LoadError::Decode(e));
                },
                Ok(()) => {},
            }
        }
        match p.next_array_item() {
            Err(e) => {
                return Err(LoadError::Decode(e));
            },
            Ok(more_items) => {
                going = more_items;
            },
        }
        k += 1;
    }
    proof {
        assert(after(acc, tuple_items(types@, d, p.index(), len, k as int, t, dep as nat)) == Ok::<(Seq<Op>, int), LoadFail>((acc + Seq::<Op>::empty(), p.index())));
        assert(acc + Seq::<Op>::empty() =~= acc);
    }
    if k != types.len() {
        return Err(LoadError::TupleSize { position: start, path: path.to_vec(), less: k < types.len(), size: types.len() });
    }
    let ghost v1 = ops@;
    ops.push(LoadOp::EndList);
    proof {
        lemma_ops_push(v1, LoadOp::EndList);
        assert(ops_of(v1).push(Op::EndList) =~= ops0 + seq![Op::BeginList] + acc + seq![Op::EndList]);
        assert(ops_of(ops@) =~= ops0 + (seq![Op::BeginList] + acc + seq![Op::EndList]));
    }
    Ok(())
}

/// A key read at `q` is what `key_result` says.
proof fn lemma_key_read(d: Seq<u8>, q: int, new: &MsgpackParser, r: Result<Option<&str>, DecodeError>)
    requires
        key_read_at(d, q, new, r),
    ensures
        r matches Ok(Some(k)) ==> key_result(d, q) == Ok::<(Seq<u8>, int), DecodeError>((k.spec_bytes(), new.index())),
        r matches Err(e) ==> key_result(d, q) == Err::<(Seq<u8>, int), DecodeError>(e),
        !(r matches Ok(None)),
{
}

/// Loads the dictionary whose marker the last `peek` saw.
fn load_dict(value: &Schema, p: &mut MsgpackParser, path: &InstancePath, dep: usize, ops: &mut Vec<LoadOp>) -> (r: Result<(), LoadError>)
    requires
        old(p).wf(),
        old(p).peeked(),
        old(p).frames().len() + dep + 1 < STACK_LIMIT,
    ensures
        final(p).data() == old(p).data(),
        final(p).wf(),
        ({
            let d = old(p).data();
            let t = chunk_texts(path.chunks());
            match container_header(d, old(p).index(), true) {
                Err(e) => r matches Err(x) && fails_as(x, LoadFail::Decode(e)),
                Ok((len, q)) => match load_entries(*value, d, q, len, t, dep as nat) {
                    Ok((o, e)) => r is Ok && ops_of(final(ops)@) == ops_of(old(ops)@) + (seq![Op::BeginDict] + o + seq![Op::EndDict])
                        && final(p).index() == e && final(p).frames() == old(p).frames(),
                    Err(f) => r matches Err(x) && fails_as(x, f),
                },
            }
        }),
        r matches Err(LoadError::WrongType { position, .. }) ==> final(p).index() == position,
    decreases dep, 1int, *value, 0int,
{
    let ghost d = p.data();
    let ghost i = p.index();
    let ghost base = p.frames();
    let ghost marker = p.last_marker();
    let ghost t = chunk_texts(path.chunks());
    let ghost ops0 = ops_of(ops@);
    let r0 = p.enter_map_known();
    let ghost len = container_header(d, i, true)->Ok_0.0;
    let ghost q = container_header(d, i, true)->Ok_0.1;
    proof {
        if let Ok((l, qq)) = container_header(d, i, true) {
            if l != 0 {
                lemma_key_read(d, qq, p, r0);
            }
        }
    }
    let mut key = match r0 {
        Ok(k) => k,
        Err(e) => return Err(LoadError::Decode(e)),
    };
    let ghost v0 = ops@;
    ops.push(LoadOp::BeginDict);
    proof {
        lemma_ops_push(v0, LoadOp::BeginDict);
    }
    let ghost mut acc: Seq<Op> = Seq::empty();
    let ghost mut kp: int = q;
    assert(ops_of(ops@) =~= ops0 + seq![Op::BeginDict] + acc);
    let ghost mut j: int = 0;
    while key.is_some()
        invariant
            p.wf(),
            p.data() == d,
            0 <= j <= len,
            len <= u32::MAX + 1,
            key.is_some() == (j < len),
            key.is_some() ==> p.frames() == base.push(Frame { is_map: true, remaining: (len - 1 - j) as u32 }),
            key.is_none() ==> p.frames() == base && kp == p.index(),
            key matches Some(k) ==> key_result(d, kp) == Ok::<(Seq<u8>, int), DecodeError>((k.spec_bytes(), p.index())),
            base.len() + dep + 1 < STACK_LIMIT,
            ops_of(ops@) == ops0 + seq![Op::BeginDict] + acc,
            d == old(p).data(),
            i == old(p).index(),
            container_header(d, i, true) == Ok::<(int, int), DecodeError>((len, q)),
            load_entries(*value, d, q, len, t, dep as nat) == after(acc, load_entries(*value, d, kp, len - j, t, dep as nat)),
            t == chunk_texts(path.chunks()),
        decreases len - j,
    {
        let k = key.unwrap();
        proof {
            encode_utf8_decode_utf8(k@);
        }
        let name = String::from_str(k);
        let chunk = PathChunk::Property(String::from_str(k));
        let ghost c = chunk;
        let child = path.push(chunk);
        proof {
            lemma_texts_push(path.chunks(), c);
        }
        let ghost pre = ops@;
        ops.push(LoadOp::Key(name));
        proof {
            lemma_ops_push(pre, LoadOp::Key(name));
        }
        let ghost before = ops_of(ops@);
        let ghost at = p.index();
        let ghost step = load_at(*value, d, at, t.push(k@), dep as nat);
        match load_value(value, p, &child, dep, ops) {
            Err(e) => {
                return Err(e);
            },
            Ok(()) => {},
        }
        let ghost o = step->Ok_0.0;
        proof {
            lemma_after_after(acc, seq![Op::Key(k@)] + o, load_entries(*value, d, p.index(), len - j - 1, t, dep as nat));
            assert(before + o =~= ops0 + seq![Op::BeginDict] + (acc + (seq![Op::Key(k@)] + o)));
            acc = acc + (seq![Op::Key(k@)] + o);
        }
        let ghost here = p.index();
        let next = p.next_key();
        proof {
            if j + 1 < len {
                lemma_key_read(d, here, p, next);
            }
            kp = here;
            j = j + 1;
        }
        key = match next {
            Ok(k) => k,
            Err(e) => return Err(LoadError::Decode(e)),
        };
    }
    let ghost v1 = ops@;
    ops.push(LoadOp::EndDict);
    proof {
        lemma_ops_push(v1, LoadOp::EndDict);
        assert(ops_of(v1).push(Op::EndDict) =~= ops0 + seq![Op::BeginDict] + acc + seq![Op::EndDict]);
        assert(acc + Seq::<Op>::empty() =~= acc);
        assert(ops_of(ops@) =~= ops0 + (seq![Op::BeginDict] + acc + seq![Op::EndDict]));
    }
    Ok(())
}

/// `ops` then what `r` loaded, for an entity's fields.
pub open spec fn after_fields(ops: Seq<Op>, r: Result<(Seq<Op>, int, Seq<bool>), LoadFail>) -> Result<(Seq<Op>, int, Seq<bool>), LoadFail> {
    match r {
        Ok((o, e, s)) => Ok((ops + o, e, s)),
        Err(f) => Err(f),
    }
}

pub(crate) proof fn lemma_after_fields(a: Seq<Op>, b: Seq<Op>, x: Result<(Seq<Op>, int, Seq<bool>), LoadFail>)
    ensures
        after_fields(a, after_fields(b, x)) == after_fields(a + b, x),
{
    if let Ok((o, e, s)) = x {
        assert(a + (b + o) =~= (a + b) + o);
    }
}

/// The routing table of `fields`.
pub(crate) fn routes(fields: &Vec<FieldSchema>) -> (r: Vec<FieldRoute>)
    ensures
        r@ == routes_of(fields@),
{
    let mut r: Vec<FieldRoute> = Vec::new();
    let mut i: usize = 0;
    while i < fields.len()
        invariant
            i <= fields@.len(),
            r@ == routes_of(fields@).subrange(0, i as int),
        decreases fields@.len() - i,
    {
        r.push(FieldRoute { key: fields[i].key.clone(), flattened: false, has_default: fields[i].has_default });
        i += 1;
        assert(r@ =~= routes_of(fields@).subrange(0, i as int));
    }
    assert(r@ =~= routes_of(fields@));
    r
}

/// Loads the entity whose marker the last `peek` saw.
#[verifier::spinoff_prover]
#[verifier::rlimit(60)]
fn load_entity(fields: &Vec<FieldSchema>, p: &mut MsgpackParser, path: &InstancePath, dep: usize, ops: &mut Vec<LoadOp>) -> (r: Result<(), LoadError>)
    requires
        old(p).wf(),
        old(p).peeked(),
        old(p).frames().len() + dep + 1 < STACK_LIMIT,
    ensures
        final(p).data() == old(p).data(),
        final(p).wf(),
        ({
            let d = old(p).data();
            let t = chunk_texts(path.chunks());
            match container_header(d, old(p).index(), true) {
                Err(e) => r matches Err(x) && fails_as(x, LoadFail::Decode(e)),
                Ok((len, q)) => match load_fields(fields@, d, q, len, Seq::new(fields@.len(), |i: int| false), 0, t, dep as nat) {
                    Err(f) => r matches Err(x) && fails_as(x, f),
                    Ok((o, e, seen)) => {
                        let acts = end_from(routes_of(fields@), seen, false, 0);
                        if acts.len() > 0 && acts.last() is Missing {
                            r matches Err(x) && fails_as(
                                x,
                                LoadFail::Schema(required_message(fields@[acts.last()->Missing_0 as int].key@), t),
                            )
                        } else {
                            r is Ok && ops_of(final(ops)@) == ops_of(old(ops)@) + (seq![Op::BeginEntity] + o + default_ops(acts) + seq![Op::EndEntity])
                                && final(p).index() == e && final(p).frames() == old(p).frames()
                        }
                    },
                },
            }
        }),
        r matches Err(LoadError::WrongType { position, .. }) ==> final(p).index() == position,
    decreases dep, 1int, *fields, 0int,
{
    let ghost d = p.data();
    let ghost i = p.index();
    let ghost base = p.frames();
    let ghost t = chunk_texts(path.chunks());
    let ghost ops0 = ops_of(ops@);
    let mut router = ObjectRouter::new(routes(fields));
    proof {
        assert(!any_flattened(router.fields()));
        assert(router.seen() =~= Seq::new(fields@.len(), |i: int| false));
        lemma_join(path.chunks());
    }
    let r0 = p.enter_map_known();
    let ghost len = container_header(d, i, true)->Ok_0.0;
    let ghost q = container_header(d, i, true)->Ok_0.1;
    proof {
        if let Ok((l, qq)) = container_header(d, i, true) {
            if l != 0 {
                lemma_key_read(d, qq, p, r0);
            }
        }
    }
    let mut key = match r0 {
        Ok(k) => k,
        Err(e) => return Err(LoadError::Decode(e)),
    };
    let ghost v0 = ops@;
    ops.push(LoadOp::BeginEntity);
    proof {
        lemma_ops_push(v0, LoadOp::BeginEntity);
    }
    let ghost mut acc: Seq<Op> = Seq::empty();
    let ghost mut kp: int = q;
    assert(ops_of(ops@) =~= ops0 + seq![Op::BeginEntity] + acc);
    let ghost mut j: int = 0;
    while key.is_some()
        invariant
            p.wf(),
            p.data() == d,
            0 <= j <= len,
            len <= u32::MAX + 1,
            key.is_some() == (j < len),
            key.is_some() ==> p.frames() == base.push(Frame { is_map: true, remaining: (len - 1 - j) as u32 }),
            key.is_none() ==> p.frames() == base && kp == p.index(),
            key matches Some(k) ==> key_result(d, kp) == Ok::<(Seq<u8>, int), DecodeError>((k.spec_bytes(), p.index())),
            base.len() + dep + 1 < STACK_LIMIT,
            ops_of(ops@) == ops0 + seq![Op::BeginEntity] + acc,
            d == old(p).data(),
            i == old(p).index(),
            container_header(d, i, true) == Ok::<(int, int), DecodeError>((len, q)),
            router.wf(),
            router.fields() == routes_of(fields@),
            !router.has_flatten(),
            load_fields(fields@, d, q, len, Seq::new(fields@.len(), |i: int| false), 0, t, dep as nat) == after_fields(
                acc,
                load_fields(fields@, d, kp, len - j, router.seen(), router.expect(), t, dep as nat),
            ),
            t == chunk_texts(path.chunks()),
        decreases len - j,
    {
        let k = key.unwrap();
        let ghost seen0 = router.seen();
        let ghost expect0 = router.expect();
        let route = router.route(Some(k.as_bytes()));
        let ghost at = p.index();
        match route {
            Route::Field(fi) => {
                let ghost pre = ops@;
                ops.push(LoadOp::Field(fi));
                proof {
                    lemma_ops_push(pre, LoadOp::Field(fi));
                }
                let ghost before = ops_of(ops@);
                let child = path.push(PathChunk::Property(fields[fi].key.clone()));
                proof {
                    lemma_texts_push(path.chunks(), PathChunk::Property(fields@[fi as int].key));
                }
                let ghost step = load_at(fields@[fi as int].schema, d, at, t.push(fields@[fi as int].key@), dep as nat);
                match load_value(&fields[fi].schema, p, &child, dep, ops) {
                    Err(e) => {
                        return Err(e);
                    },
                    Ok(()) => {},
                }
                let ghost o = step->Ok_0.0;
                proof {
                    lemma_after_fields(
                        acc,
                        seq![Op::Field(fi)] + o,
                        load_fields(fields@, d, p.index(), len - j - 1, router.seen(), router.expect(), t, dep as nat),
                    );
                    assert(before + o =~= ops0 + seq![Op::BeginEntity] + (acc + (seq![Op::Field(fi)] + o)));
                    acc = acc + (seq![Op::Field(fi)] + o);
                }
            },
            _ => {
                match p.skip_value() {
                    Err(e) => {
                        return Err(LoadError::Decode(e));
                    },
                    Ok(()) => {},
                }
            },
        }
        let ghost here = p.index();
        let next = p.next_key();
        proof {
            if j + 1 < len {
                lemma_key_read(d, here, p, next);
            }
            kp = here;
            j = j + 1;
        }
        key = match next {
            Ok(k) => k,
            Err(e) => return Err(LoadError::Decode(e)),
        };
    }
    let acts = router.end_actions();
    let n = acts.len();
    proof {
        lemma_end_bound(router.fields(), router.seen(), false, 0);
    }
    if n > 0 {
        if let EndAction::Missing(mi) = acts[n - 1] {
            let e = router.missing_error(mi, path);
            return Err(LoadError::Schema(e));
        }
    }
    let ghost before_defaults = ops@;
    let mut a: usize = 0;
    while a < n
        invariant
            a <= n,
            n == acts@.len(),
            ops_of(ops@) == ops_of(before_defaults) + default_ops(acts@.subrange(0, a as int)),
        decreases n - a,
    {
        let fi = match acts[a] {
            EndAction::Default(x) => x,
            EndAction::Flatten(x) => x,
            EndAction::Missing(x) => x,
        };
        let ghost prev = ops@;
        ops.push(LoadOp::Default(fi));
        proof {
            assert(acts@.subrange(0, a + 1) =~= acts@.subrange(0, a as int).push(acts@[a as int]));
            assert(default_ops(acts@.subrange(0, a + 1)) =~= default_ops(acts@.subrange(0, a as int)).push(Op::Default(fi)));
            lemma_ops_push(prev, LoadOp::Default(fi));
        }
        a += 1;
    }
    let ghost v1 = ops@;
    ops.push(LoadOp::EndEntity);
    proof {
        lemma_ops_push(v1, LoadOp::EndEntity);
        assert(acts@.subrange(0, n as int) =~= acts@);
        assert(ops_of(v1).push(Op::EndEntity) =~= ops0 + seq![Op::BeginEntity] + acc + default_ops(acts@) + seq![Op::EndEntity]);
        assert(acc + Seq::<Op>::empty() =~= acc);
        assert(ops_of(ops@) =~= ops0 + (seq![Op::BeginEntity] + acc + default_ops(acts@) + seq![Op::EndEntity]));
    }
    Ok(())
}

pub(crate) proof fn lemma_end_bound(fields: Seq<FieldRoute>, seen: Seq<bool>, hf: bool, i: int)
    requires
        0 <= i,
    ensures
        forall|k: int| 0 <= k < end_from(fields, seen, hf, i).len() ==> match #[trigger] end_from(fields, seen, hf, i)[k] {
            EndAction::Default(x) => x < fields.len(),
            EndAction::Flatten(x) => x < fields.len(),
            EndAction::Missing(x) => x < fields.len(),
        },
    decreases fields.len() - i,
{
    if i < fields.len() {
        lemma_end_bound(fields, seen, hf, i + 1);
        let rest = end_from(fields, seen, hf, i + 1);
        let all = end_from(fields, seen, hf, i);
        if (hf && fields[i].flattened) || (!seen[i] && fields[i].has_default) {
            assert forall|k: int| 1 <= k < all.len() implies all[k] == rest[k - 1] by {}
        }
    }
}

pub(crate) proof fn lemma_ops_push(v: Seq<LoadOp>, x: LoadOp)
    ensures
        ops_of(v.push(x)) == ops_of(v).push(op_of(x)),
{
    assert(ops_of(v.push(x)) =~= ops_of(v).push(op_of(x)));
}

/// Loading a whole MessagePack document: the value at its start, which
/// must end where the document ends.
pub open spec fn load_doc(s: Schema, d: Seq<u8>, dep: nat) -> Result<Seq<Op>, LoadFail> {
    match load_at(s, d, 0, Seq::empty(), dep) {
        Err(f) => Err(f),
        Ok((o, e)) => if e == d.len() {
            Ok(o)
        } else {
            Err(LoadFail::Decode(decode_err(DecodeErrorKind::TrailingData, e)))
        },
    }
}

/// Loads a MessagePack document against `schema`, with at most `max_depth`
/// nested containers.
pub fn load_msgpack(schema: &Schema, data: &[u8], max_depth: usize) -> (r: Result<Vec<LoadOp>, LoadError>)
    requires
        data@.len() < usize::MAX,
        max_depth < STACK_LIMIT,
    ensures
        match load_doc(*schema, data@, max_depth as nat) {
            Ok(o) => r matches Ok(v) && ops_of(v@) == o,
            Err(f) => r matches Err(e) && fails_as(e, f),
        },
{
    let mut p = MsgpackParser::new(data);
    let root = InstancePath::new();
    let mut ops: Vec<LoadOp> = Vec::new();
    proof {
        assert(chunk_texts(root.chunks()) =~= Seq::<Seq<char>>::empty());
        assert(ops_of(ops@) =~= Seq::<Op>::empty());
    }
    match load_value(schema, &mut p, &root, max_depth, &mut ops) {
        Err(e) => Err(e),
        Ok(()) => match p.finish() {
            Err(e) => Err(LoadError::Decode(e)),
            Ok(()) => {
                assert(ops_of(ops@) =~= Seq::<Op>::empty() + ops_of(ops@));
                Ok(ops)
            },
        },
    }
}

} // verus!
