//! Loading a JSON document against a schema, through `jiter`: the same
//! checks and build operations as the MessagePack loader, stated over what
//! the reader gives at each offset.
use crate::context::{InstancePath, PathChunk};
use crate::format_writer::{FORMAT_JSON, FORMAT_MSGPACK};
use crate::json_reader::{
    JsonError, JsonReader, jiter_array_step, jiter_finish, jiter_known_array, jiter_known_bool, jiter_known_int,
    jiter_known_null, jiter_known_object, jiter_known_str, jiter_next_key, jiter_next_skip, jiter_peek,
};
use crate::loader::{
    Expected, FieldSchema, LoadError, LoadFail, LoadOp, Op, Schema, after, after_fields, chunk_texts,
    default_ops, fails_as, int_load, lemma_after_after, lemma_after_fields, lemma_end_bound, lemma_join,
    lemma_ops_push, lemma_texts_push, load_doc, load_formatted, op_of, text_load, ChoiceKey, KeyRead, Scalar, choice_index, choice_load, choices_text, items_text, accepting, accepts, accepts_kind, count_accepting, first_accepting, is_schema_fail, load_msgpack, ops_of, routes, routes_of,
};
use crate::msgpack_parser::Kind;
use crate::stacks::STACK_LIMIT;
use crate::numtext::decimal_chars;
use crate::object_load::{EndAction, ObjectRouter, Route, any_flattened, end_from, route_spec};
use crate::type_info::{NumberTypeInfo, StringTypeInfo};
use crate::validators::{check_bounds, check_length, longer_message, required_message, shorter_message};
use vstd::prelude::*;
use vstd::string::StringSliceAdditionalSpecFns;
use vstd::utf8::encode_utf8;

verus! {

/// The kind of value a JSON token starting with `b` is.
pub open spec fn kind_of_lead(b: u8) -> Option<Kind> {
    if (0x30 <= b && b <= 0x39) || b == 0x2d {
        Some(Kind::Num)
    } else if b == 0x6e {
        Some(Kind::Null)
    } else if b == 0x74 || b == 0x66 {
        Some(Kind::Bool)
    } else if b == 0x22 {
        Some(Kind::Str)
    } else if b == 0x5b {
        Some(Kind::Array)
    } else if b == 0x7b {
        Some(Kind::Mapping)
    } else {
        None
    }
}

fn lead_kind(b: u8) -> (r: Option<Kind>)
    ensures
        r == kind_of_lead(b),
{
    if (0x30 <= b && b <= 0x39) || b == 0x2d {
        Some(Kind::Num)
    } else if b == 0x6e {
        Some(Kind::Null)
    } else if b == 0x74 || b == 0x66 {
        Some(Kind::Bool)
    } else if b == 0x22 {
        Some(Kind::Str)
    } else if b == 0x5b {
        Some(Kind::Array)
    } else if b == 0x7b {
        Some(Kind::Mapping)
    } else {
        None
    }
}

pub open spec fn jfail(x: (Seq<char>, int)) -> LoadFail {
    LoadFail::Json(x.0, x.1)
}

/// The error for a byte that starts no JSON value (jiter's own text for it).
pub open spec fn unexpected_token(q: int) -> LoadFail {
    LoadFail::Json("expected value"@, q)
}

/// The error for a reader that did not move forward past an entry.
pub open spec fn stalled(q: int) -> LoadFail {
    LoadFail::Json("reader did not advance"@, q)
}

/// Loading the JSON value at offset `pos` of `d` against `s`.
pub open spec fn json_at(s: Schema, d: Seq<u8>, pos: int, path: Seq<Seq<char>>, dep: nat) -> Result<(Seq<Op>, int), LoadFail>
    decreases dep, 0int, s, 0int,
{
    match jiter_peek(d, pos) {
        Err(x) => Err(jfail(x)),
        Ok((lead, q)) => match kind_of_lead(lead) {
            None => Err(unexpected_token(q)),
            Some(kind) => match s {
                Schema::NoneType => if kind is Null {
                    match jiter_known_null(d, q) {
                        Err(x) => Err(jfail(x)),
                        Ok(e) => Ok((seq![Op::NoneValue], e)),
                    }
                } else {
                    Err(LoadFail::WrongType(Expected::Null, q, path))
                },
                Schema::Boolean => if kind is Bool {
                    match jiter_known_bool(d, q, lead) {
                        Err(x) => Err(jfail(x)),
                        Ok((b, e)) => Ok((seq![Op::Bool(b)], e)),
                    }
                } else {
                    Err(LoadFail::WrongType(Expected::Boolean, q, path))
                },
                Schema::Integer(ti) => if kind is Num {
                    match jiter_known_int(d, q, lead) {
                        Err(x) => Err(jfail(x)),
                        Ok((v, e)) => int_load(ti, v as int, e, path),
                    }
                } else {
                    Err(LoadFail::WrongType(Expected::Integer, q, path))
                },
                Schema::String(ti) => if kind is Str {
                    match jiter_known_str(d, q) {
                        Err(x) => Err(jfail(x)),
                        Ok((t, e)) => if ti.min_length is Some && t.len() < ti.min_length->0 {
                            Err(LoadFail::Schema(shorter_message(t, ti.min_length->0 as int), path))
                        } else if ti.max_length is Some && t.len() > ti.max_length->0 {
                            Err(LoadFail::Schema(longer_message(t, ti.max_length->0 as int), path))
                        } else {
                            Ok((seq![Op::Str(t)], e))
                        },
                    }
                } else {
                    Err(LoadFail::WrongType(Expected::String, q, path))
                },
                Schema::Choice(items) => match kind {
                    Kind::Str => match jiter_known_str(d, q) {
                        Err(x) => Err(jfail(x)),
                        Ok((t, e)) => choice_load(items@, Scalar::Text(t), q, e, path),
                    },
                    Kind::Num => match jiter_known_int(d, q, lead) {
                        Err(x) => Err(jfail(x)),
                        Ok((v, e)) => choice_load(items@, Scalar::Int(v as int), q, e, path),
                    },
                    Kind::Bool => match jiter_known_bool(d, q, lead) {
                        Err(x) => Err(jfail(x)),
                        Ok((b, e)) => choice_load(items@, Scalar::Bool(b), q, e, path),
                    },
                    _ => Err(LoadFail::NotOneOf(q, path, items_text(items@))),
                },
                Schema::Union(ms, name) => json_union_at(ms@, name@, kind, d, q, path, dep),
                Schema::Bytes => Err(LoadFail::WrongType(Expected::Bytes, q, path)),
                Schema::Formatted(f) => if kind is Str {
                    match jiter_known_str(d, q) {
                        Err(x) => Err(jfail(x)),
                        Ok((t, e)) => text_load(f, t, e, path),
                    }
                } else {
                    Err(LoadFail::WrongType(Expected::Format(f), q, path))
                },
                Schema::Optional(inner) => if kind is Null {
                    match jiter_known_null(d, q) {
                        Err(x) => Err(jfail(x)),
                        Ok(e) => Ok((seq![Op::NoneValue], e)),
                    }
                } else {
                    json_at(*inner, d, q, path, dep)
                },
                Schema::Tuple(types) => if dep == 0 {
                    Err(LoadFail::TooDeep)
                } else if !(kind is Array) {
                    Err(LoadFail::WrongType(Expected::Sequence, q, path))
                } else {
                    match jiter_known_array(d, q) {
                        Err(x) => Err(jfail(x)),
                        Ok((false, e)) => if types@.len() != 0 {
                            Err(LoadFail::TupleSize(q, path, true, types@.len() as int))
                        } else {
                            Ok((seq![Op::BeginList, Op::EndList], e))
                        },
                        Ok((true, e)) => match json_tuple_items(types@, d, e, 0, path, (dep - 1) as nat) {
                            Err(f) => Err(f),
                            Ok((o, e2, c)) => if c != types@.len() {
                                Err(LoadFail::TupleSize(q, path, c < types@.len(), types@.len() as int))
                            } else {
                                Ok((seq![Op::BeginList] + o + seq![Op::EndList], e2))
                            },
                        },
                    }
                },
                Schema::Array(item) => if !(kind is Array) {
                    Err(LoadFail::WrongType(Expected::Array, q, path))
                } else if dep == 0 {
                    Err(LoadFail::TooDeep)
                } else {
                    match jiter_known_array(d, q) {
                        Err(x) => Err(jfail(x)),
                        Ok((false, e)) => Ok((seq![Op::BeginList, Op::EndList], e)),
                        Ok((true, e)) => match json_items(*item, d, e, 0, path, (dep - 1) as nat) {
                            Err(f) => Err(f),
                            Ok((o, e2)) => Ok((seq![Op::BeginList] + o + seq![Op::EndList], e2)),
                        },
                    }
                },
                Schema::Dictionary(value) => if !(kind is Mapping) {
                    Err(LoadFail::WrongType(Expected::Object, q, path))
                } else if dep == 0 {
                    Err(LoadFail::TooDeep)
                } else {
                    match jiter_known_object(d, q) {
                        Err(x) => Err(jfail(x)),
                        Ok((None, e)) => Ok((seq![Op::BeginDict, Op::EndDict], e)),
                        Ok((Some(k), e)) => match json_entries(*value, d, k, e, path, (dep - 1) as nat) {
                            Err(f) => Err(f),
                            Ok((o, e2)) => Ok((seq![Op::BeginDict] + o + seq![Op::EndDict], e2)),
                        },
                    }
                },
                Schema::Entity(fields) => if !(kind is Mapping) {
                    Err(LoadFail::WrongType(Expected::Object, q, path))
                } else if dep == 0 {
                    Err(LoadFail::TooDeep)
                } else {
                    match jiter_known_object(d, q) {
                        Err(x) => Err(jfail(x)),
                        Ok((k, e)) => {
                            let seen0 = Seq::new(fields@.len(), |i: int| false);
                            let loaded = match k {
                                None => Ok((Seq::<Op>::empty(), e, seen0)),
                                Some(k) => json_fields(fields@, d, k, e, seen0, 0, path, (dep - 1) as nat),
                            };
                            match loaded {
                                Err(f) => Err(f),
                                Ok((o, e2, seen)) => {
                                    let acts = end_from(routes_of(fields@), seen, false, 0);
                                    if acts.len() > 0 && acts.last() is Missing {
                                        Err(LoadFail::Schema(required_message(fields@[acts.last()->Missing_0 as int].key@), path))
                                    } else {
                                        Ok((seq![Op::BeginEntity] + o + default_ops(acts) + seq![Op::EndEntity], e2))
                                    }
                                },
                            }
                        },
                    }
                },
            },
        },
    }
}

/// The JSON value at `q`, of `kind`, loaded as of the union of `ms` (named
/// `name`): the one member that takes its kind reads it in place; else
/// the value's text is taken whole and tried by each member that takes its
/// kind, in order, past those that fail a check.
pub open spec fn json_union_at(
    ms: Seq<Schema>,
    name: Seq<char>,
    kind: Kind,
    d: Seq<u8>,
    q: int,
    path: Seq<Seq<char>>,
    dep: nat,
) -> Result<(Seq<Op>, int), LoadFail>
    decreases dep, 0int, ms, ms.len() + 1,
{
    if accepting(ms, kind) == 1 {
        let i = first_accepting(ms, kind, 0);
        if 0 <= i < ms.len() {
            match json_at(ms[i], d, q, path, dep) {
                Ok((o, e)) => Ok((seq![Op::Member(i as usize)] + o, e)),
                Err(f) => Err(f),
            }
        } else {
            Err(LoadFail::NoMember(q, path, name))
        }
    } else {
        match jiter_next_skip(d, q) {
            Err(x) => Err(jfail(x)),
            Ok(e) => if 0 <= q <= e <= d.len() {
                json_union_try(ms, 0, kind, d.subrange(q, e), q, e, path, dep, name)
            } else {
                Err(LoadFail::Json("reader did not advance"@, e))
            },
        }
    }
}

/// Trying the members of a union from `i` on the JSON text `span`, read at
/// `q` up to `end`.
pub open spec fn json_union_try(
    ms: Seq<Schema>,
    i: int,
    kind: Kind,
    span: Seq<u8>,
    q: int,
    end: int,
    path: Seq<Seq<char>>,
    dep: nat,
    name: Seq<char>,
) -> Result<(Seq<Op>, int), LoadFail>
    decreases dep, 0int, ms, ms.len() - i,
{
    if i < 0 || i >= ms.len() {
        Err(LoadFail::NoMember(q, path, name))
    } else if !accepts(ms[i], kind) {
        json_union_try(ms, i + 1, kind, span, q, end, path, dep, name)
    } else {
        match json_at(ms[i], span, 0, path, dep) {
            Ok((o, _)) => Ok((seq![Op::Member(i as usize)] + o, end)),
            Err(f) => if is_schema_fail(f) {
                json_union_try(ms, i + 1, kind, span, q, end, path, dep, name)
            } else {
                Err(f)
            },
        }
    }
}

/// The items of a JSON array read as a tuple's, the first at `pos`: item
/// `k` of its type while the types last, any further item skipped; with
/// the operations, where the array ends and how many items it has.
pub open spec fn json_tuple_items(types: Seq<Schema>, d: Seq<u8>, pos: int, k: int, path: Seq<Seq<char>>, dep: nat) -> Result<(Seq<Op>, int, int), LoadFail>
    decreases dep, 1int, types, d.len() - pos,
{
    let item = if 0 <= k < types.len() {
        json_at(types[k], d, pos, path.push(decimal_chars(k)), dep)
    } else {
        match jiter_next_skip(d, pos) {
            Err(x) => Err(jfail(x)),
            Ok(e) => Ok((Seq::empty(), e)),
        }
    };
    match item {
        Err(f) => Err(f),
        Ok((o, e)) => match jiter_array_step(d, e) {
            Err(x) => Err(jfail(x)),
            Ok((false, q)) => Ok((o, q, k + 1)),
            Ok((true, q)) => if q <= pos || q > d.len() {
                Err(stalled(q))
            } else {
                match json_tuple_items(types, d, q, k + 1, path, dep) {
                    Err(f) => Err(f),
                    Ok((o2, e2, c)) => Ok((o + o2, e2, c)),
                }
            },
        },
    }
}

/// The elements of a list from the `k`-th, which starts at `pos`.
pub open spec fn json_items(item: Schema, d: Seq<u8>, pos: int, k: int, path: Seq<Seq<char>>, dep: nat) -> Result<(Seq<Op>, int), LoadFail>
    decreases dep, 1int, item, d.len() - pos,
{
    match json_at(item, d, pos, path.push(decimal_chars(k)), dep) {
        Err(f) => Err(f),
        Ok((o, e)) => match jiter_array_step(d, e) {
            Err(x) => Err(jfail(x)),
            Ok((false, q)) => Ok((o, q)),
            Ok((true, q)) => if q <= pos || q > d.len() {
                Err(stalled(q))
            } else {
                after(o, json_items(item, d, q, k + 1, path, dep))
            },
        },
    }
}

/// The entries of a dictionary from the one with key `key`, whose value
/// starts at `pos`.
pub open spec fn json_entries(value: Schema, d: Seq<u8>, key: Seq<char>, pos: int, path: Seq<Seq<char>>, dep: nat) -> Result<(Seq<Op>, int), LoadFail>
    decreases dep, 1int, value, d.len() - pos,
{
    match json_at(value, d, pos, path.push(key), dep) {
        Err(f) => Err(f),
        Ok((o, e)) => match jiter_next_key(d, e) {
            Err(x) => Err(jfail(x)),
            Ok((None, q)) => Ok((seq![Op::Key(key)] + o, q)),
            Ok((Some(k2), q)) => if q <= pos || q > d.len() {
                Err(stalled(q))
            } else {
                after(seq![Op::Key(key)] + o, json_entries(value, d, k2, q, path, dep))
            },
        },
    }
}

/// The entries of an entity from the one with key `key`, whose value starts
/// at `pos`.
pub open spec fn json_fields(
    fields: Seq<FieldSchema>,
    d: Seq<u8>,
    key: Seq<char>,
    pos: int,
    seen: Seq<bool>,
    expect: int,
    path: Seq<Seq<char>>,
    dep: nat,
) -> Result<(Seq<Op>, int, Seq<bool>), LoadFail>
    decreases dep, 1int, fields, d.len() - pos,
{
    let (head, loaded, seen2, expect2) = match route_spec(routes_of(fields), false, expect, Some(encode_utf8(key))) {
        Route::Field(i) => (
            seq![Op::Field(i)],
            json_at(fields[i as int].schema, d, pos, path.push(fields[i as int].key@), dep),
            seen.update(i as int, true),
            i + 1,
        ),
        _ => (
            Seq::<Op>::empty(),
            match jiter_next_skip(d, pos) {
                Err(x) => Err(jfail(x)),
                Ok(e) => Ok((Seq::<Op>::empty(), e)),
            },
            seen,
            expect,
        ),
    };
    match loaded {
        Err(f) => Err(f),
        Ok((o, e)) => match jiter_next_key(d, e) {
            Err(x) => Err(jfail(x)),
            Ok((None, q)) => Ok((head + o, q, seen2)),
            Ok((Some(k2), q)) => if q <= pos || q > d.len() {
                Err(stalled(q))
            } else {
                after_fields(head + o, json_fields(fields, d, k2, q, seen2, expect2, path, dep))
            },
        },
    }
}

/// Loading a whole JSON document: its value, then nothing but whitespace.
pub open spec fn json_doc(s: Schema, d: Seq<u8>, dep: nat) -> Result<Seq<Op>, LoadFail> {
    match json_at(s, d, 0, Seq::empty(), dep) {
        Err(f) => Err(f),
        Ok((o, e)) => match jiter_finish(d, e) {
            Err(x) => Err(jfail(x)),
            Ok(()) => Ok(o),
        },
    }
}

fn json_error(message: &str, index: usize) -> (r: LoadError)
    ensures
        r matches LoadError::Json(e) && e.message@ == message@ && e.index == index,
{
    LoadError::Json(JsonError { message: String::from_str(message), index })
}

/// What loading the JSON value at the reader's offset against `s` did.
pub open spec fn json_loaded(
    s: Schema,
    d: Seq<u8>,
    pos0: int,
    pos1: int,
    path: Seq<PathChunk>,
    dep: nat,
    ops0: Seq<LoadOp>,
    ops1: Seq<LoadOp>,
    r: Result<(), LoadError>,
) -> bool {
    match json_at(s, d, pos0, chunk_texts(path), dep) {
        Ok((o, e)) => r is Ok && ops_of(ops1) == ops_of(ops0) + o && pos1 == e,
        Err(f) => r matches Err(x) && fails_as(x, f),
    }
}

/// Loads the JSON value at the reader's offset, of `kind`, as of the union
/// of `ms`.
#[verifier::spinoff_prover]
#[verifier::rlimit(40)]
fn json_union(
    ms: &Vec<Schema>,
    name: &String,
    kind: Kind,
    rd: &mut JsonReader,
    path: &InstancePath,
    dep: usize,
    ops: &mut Vec<LoadOp>,
) -> (r: Result<(), LoadError>)
    requires
        old(rd).wf(),
    ensures
        final(rd).wf(),
        final(rd).data() == old(rd).data(),
        match json_union_at(ms@, name@, kind, old(rd).data(), old(rd).pos(), chunk_texts(path.chunks()), dep as nat) {
            Ok((o, e)) => r is Ok && ops_of(final(ops)@) == ops_of(old(ops)@) + o && final(rd).pos() == e,
            Err(f) => r matches Err(x) && fails_as(x, f),
        },
    decreases dep, 0int, *ms, 1int,
{
    let ghost d = rd.data();
    let ghost q = rd.pos();
    let ghost t = chunk_texts(path.chunks());
    let (n, first) = count_accepting(ms, kind);
    if n == 1 {
        if first >= ms.len() {
            return Err(LoadError::NoMember { position: rd.index(), path: path.to_vec(), name: String::from_str(name.as_str()) });
        }
        proof {
            assert(decreases_to!(*ms => ms@));
            assert(decreases_to!(ms@ => ms@[first as int]));
        }
        let ghost o0 = ops@;
        ops.push(LoadOp::Member(first));
        let ghost o1 = ops@;
        let r = json_value(&ms[first], rd, path, dep, ops);
        proof {
            lemma_ops_push(o0, LoadOp::Member(first));
            assert(ops_of(o1) =~= ops_of(o0) + seq![Op::Member(first)]);
            if let Ok((o, e)) = json_at(ms@[first as int], d, q, t, dep as nat) {
                assert(ops_of(ops@) =~= ops_of(o0) + (seq![Op::Member(first)] + o));
            }
        }
        return r;
    }
    let pos = rd.index();
    let span = match rd.raw_value() {
        Ok(Some(b)) => b,
        Ok(None) => return Err(json_error("reader did not advance", rd.index())),
        Err(e) => return Err(LoadError::Json(e)),
    };
    let ghost end = rd.pos();
    let mut i: usize = 0;
    while i < ms.len()
        invariant
            i <= ms@.len(),
            span@ == d.subrange(q, end),
            0 <= q <= end <= d.len(),
            pos == q,
            d == old(rd).data(),
            q == old(rd).pos(),
            t == chunk_texts(path.chunks()),
            accepting(ms@, kind) != 1,
            jiter_next_skip(d, q) == Ok::<int, (Seq<char>, int)>(end),
            ops@ == old(ops)@,
            rd.wf(),
            rd.data() == d,
            rd.pos() == end,
            json_union_try(ms@, 0, kind, span@, q, end, t, dep as nat, name@)
                == json_union_try(ms@, i as int, kind, span@, q, end, t, dep as nat, name@),
        decreases ms@.len() - i,
    {
        if accepts_kind(&ms[i], kind) {
            proof {
                assert(decreases_to!(*ms => ms@));
                assert(decreases_to!(ms@ => ms@[i as int]));
            }
            let mut sub = JsonReader::new(span);
            let mut tmp: Vec<LoadOp> = Vec::new();
            let r = json_value(&ms[i], &mut sub, path, dep, &mut tmp);
            match r {
                Ok(()) => {
                    let ghost o0 = ops@;
                    ops.push(LoadOp::Member(i));
                    let ghost o1 = ops@;
                    let ghost tv = tmp@;
                    ops.append(&mut tmp);
                    proof {
                        lemma_ops_push(o0, LoadOp::Member(i));
                        assert(ops@ == o1 + tv);
                        assert(ops_of(ops@) =~= ops_of(o1) + ops_of(tv));
                        assert(ops_of(ops@) =~= ops_of(o0) + (seq![Op::Member(i)] + ops_of(tv)));
                    }
                    return Ok(());
                },
                Err(e) => {
                    let go_on = match e {
                        LoadError::Schema(_) => true,
                        LoadError::WrongType { .. } => true,
                        LoadError::NotOneOf { .. } => true,
                        LoadError::NoMember { .. } => true,
                        LoadError::TupleSize { .. } => true,
                        _ => false,
                    };
                    if !go_on {
                        return Err(e);
                    }
                },
            }
        }
        i += 1;
    }
    Err(LoadError::NoMember { position: pos, path: path.to_vec(), name: String::from_str(name.as_str()) })
}

/// Loads the JSON scalar at the reader's offset, whose lead byte `lead`
/// is of `kind`, as one of `items`.
fn json_choice(items: &Vec<ChoiceKey>, kind: Kind, lead: u8, rd: &mut JsonReader, path: &InstancePath, ops: &mut Vec<LoadOp>) -> (r: Result<(), LoadError>)
    requires
        old(rd).wf(),
    ensures
        final(rd).wf(),
        final(rd).data() == old(rd).data(),
        match kind {
            Kind::Str => match jiter_known_str(old(rd).data(), old(rd).pos()) {
                Err(x) => r matches Err(e) && fails_as(e, jfail(x)),
                Ok((t, e)) => choice_done(choice_load(items@, Scalar::Text(t), old(rd).pos(), e, chunk_texts(path.chunks())), final(rd).pos(), old(ops)@, final(ops)@, r),
            },
            Kind::Num => match jiter_known_int(old(rd).data(), old(rd).pos(), lead) {
                Err(x) => r matches Err(e) && fails_as(e, jfail(x)),
                Ok((v, e)) => choice_done(choice_load(items@, Scalar::Int(v as int), old(rd).pos(), e, chunk_texts(path.chunks())), final(rd).pos(), old(ops)@, final(ops)@, r),
            },
            Kind::Bool => match jiter_known_bool(old(rd).data(), old(rd).pos(), lead) {
                Err(x) => r matches Err(e) && fails_as(e, jfail(x)),
                Ok((b, e)) => choice_done(choice_load(items@, Scalar::Bool(b), old(rd).pos(), e, chunk_texts(path.chunks())), final(rd).pos(), old(ops)@, final(ops)@, r),
            },
            _ => r matches Err(e) && fails_as(e, LoadFail::NotOneOf(old(rd).pos(), chunk_texts(path.chunks()), items_text(items@))),
        },
{
    let pos = rd.index();
    let key = match kind {
        Kind::Str => match rd.known_str() {
            Ok(t) => KeyRead::Text(t),
            Err(e) => return Err(LoadError::Json(e)),
        },
        Kind::Num => match rd.known_int(lead) {
            Ok(v) => KeyRead::Int(v),
            Err(e) => return Err(LoadError::Json(e)),
        },
        Kind::Bool => match rd.known_bool(lead) {
            Ok(b) => KeyRead::Bool(b),
            Err(e) => return Err(LoadError::Json(e)),
        },
        _ => return Err(LoadError::NotOneOf { position: pos, path: path.to_vec(), items: choices_text(items) }),
    };
    match choice_index(items, &key) {
        Some(i) => {
            let ghost v0 = ops@;
            ops.push(LoadOp::Choice(i));
            proof {
                lemma_ops_push(v0, LoadOp::Choice(i));
                assert(ops_of(ops@) =~= ops_of(old(ops)@) + seq![Op::Choice(i)]);
            }
            Ok(())
        },
        None => Err(LoadError::NotOneOf { position: pos, path: path.to_vec(), items: choices_text(items) }),
    }
}

/// What a choice load that read its scalar did: the choice's operation
/// appended and the reader at the scalar's end, or the failure.
pub open spec fn choice_done(
    c: Result<(Seq<Op>, int), LoadFail>,
    pos1: int,
    ops0: Seq<LoadOp>,
    ops1: Seq<LoadOp>,
    r: Result<(), LoadError>,
) -> bool {
    match c {
        Ok((o, e)) => r is Ok && ops_of(ops1) == ops_of(ops0) + o && pos1 == e,
        Err(f) => r matches Err(x) && fails_as(x, f),
    }
}

/// Loads the JSON value at the reader's offset against `s`, appending its
/// build operations to `ops`.
#[verifier::spinoff_prover]
#[verifier::rlimit(50)]
pub fn json_value(s: &Schema, rd: &mut JsonReader, path: &InstancePath, dep: usize, ops: &mut Vec<LoadOp>) -> (r: Result<(), LoadError>)
    requires
        old(rd).wf(),
    ensures
        final(rd).wf(),
        final(rd).data() == old(rd).data(),
        json_loaded(*s, old(rd).data(), old(rd).pos(), final(rd).pos(), path.chunks(), dep as nat, old(ops)@, final(ops)@, r),
    decreases dep, 0int, *s, 0int,
{
    let ghost d = rd.data();
    proof {
        lemma_join(path.chunks());
    }
    let lead = match rd.peek() {
        Ok(b) => b,
        Err(e) => return Err(LoadError::Json(e)),
    };
    let kind = match lead_kind(lead) {
        Some(k) => k,
        None => return Err(json_error("expected value", rd.index())),
    };
    match s {
        Schema::NoneType => {
            if kind != Kind::Null {
                return Err(LoadError::WrongType { expected: Expected::Null, position: rd.index(), path: path.to_vec() });
            }
            match rd.known_null() {
                Err(e) => Err(LoadError::Json(e)),
                Ok(()) => {
                    let ghost v0 = ops@;
                    ops.push(LoadOp::NoneValue);
                    proof {
                        lemma_ops_push(v0, LoadOp::NoneValue);
                        assert(ops_of(ops@) =~= ops_of(old(ops)@) + seq![Op::NoneValue]);
                    }
                    Ok(())
                },
            }
        },
        Schema::Boolean => {
            if kind != Kind::Bool {
                return Err(LoadError::WrongType { expected: Expected::Boolean, position: rd.index(), path: path.to_vec() });
            }
            match rd.known_bool(lead) {
                Err(e) => Err(LoadError::Json(e)),
                Ok(b) => {
                    let ghost v0 = ops@;
                    ops.push(LoadOp::Bool(b));
                    proof {
                        lemma_ops_push(v0, LoadOp::Bool(b));
                        assert(ops_of(ops@) =~= ops_of(old(ops)@) + seq![Op::Bool(b)]);
                    }
                    Ok(())
                },
            }
        },
        Schema::Integer(ti) => {
            if kind != Kind::Num {
                return Err(LoadError::WrongType { expected: Expected::Integer, position: rd.index(), path: path.to_vec() });
            }
            match rd.known_int(lead) {
                Err(e) => Err(LoadError::Json(e)),
                Ok(v) => match check_bounds(v, ti, path) {
                    Err(e) => Err(LoadError::Schema(e)),
                    Ok(()) => {
                        let ghost v0 = ops@;
                        ops.push(LoadOp::Int(v));
                        proof {
                            lemma_ops_push(v0, LoadOp::Int(v));
                            assert(ops_of(ops@) =~= ops_of(old(ops)@) + seq![Op::Int(v)]);
                        }
                        Ok(())
                    },
                },
            }
        },
        Schema::String(ti) => {
            if kind != Kind::Str {
                return Err(LoadError::WrongType { expected: Expected::String, position: rd.index(), path: path.to_vec() });
            }
            match rd.known_str() {
                Err(e) => Err(LoadError::Json(e)),
                Ok(t) => match check_length(t.as_str(), ti.min_length, ti.max_length, path) {
                    Err(e) => Err(LoadError::Schema(e)),
                    Ok(()) => {
                        let ghost v0 = ops@;
                        let ghost tv = t@;
                        ops.push(LoadOp::Str(t));
                        proof {
                            lemma_ops_push(v0, LoadOp::Str(t));
                            assert(ops_of(ops@) =~= ops_of(old(ops)@) + seq![Op::Str(tv)]);
                        }
                        Ok(())
                    },
                },
            }
        },
        Schema::Choice(items) => json_choice(items, kind, lead, rd, path, ops),
        Schema::Tuple(types) => {
            if dep == 0 {
                return Err(LoadError::TooDeep);
            }
            if kind != Kind::Array {
                return Err(LoadError::WrongType { expected: Expected::Sequence, position: rd.index(), path: path.to_vec() });
            }
            json_tuple(types, rd, path, dep - 1, ops)
        },
        Schema::Union(ms, name) => json_union(ms, name, kind, rd, path, dep, ops),
        Schema::Bytes => Err(LoadError::WrongType { expected: Expected::Bytes, position: rd.index(), path: path.to_vec() }),
        Schema::Formatted(f) => {
            if kind != Kind::Str {
                return Err(LoadError::WrongType { expected: Expected::Format(*f), position: rd.index(), path: path.to_vec() });
            }
            match rd.known_str() {
                Err(e) => Err(LoadError::Json(e)),
                Ok(t) => match load_formatted(*f, t.as_str(), path) {
                    Err(e) => Err(LoadError::Schema(e)),
                    Ok(o) => {
                        let ghost v0 = ops@;
                        let ghost x = op_of(o);
                        ops.push(o);
                        proof {
                            lemma_ops_push(v0, o);
                            assert(ops_of(ops@) =~= ops_of(old(ops)@) + seq![x]);
                        }
                        Ok(())
                    },
                },
            }
        },
        Schema::Optional(inner) => {
            if kind == Kind::Null {
                match rd.known_null() {
                    Err(e) => Err(LoadError::Json(e)),
                    Ok(()) => {
                        let ghost v0 = ops@;
                        ops.push(LoadOp::NoneValue);
                        proof {
                            lemma_ops_push(v0, LoadOp::NoneValue);
                            assert(ops_of(ops@) =~= ops_of(old(ops)@) + seq![Op::NoneValue]);
                        }
                        Ok(())
                    },
                }
            } else {
                json_value(inner, rd, path, dep, ops)
            }
        },
        Schema::Array(item) => {
            if kind != Kind::Array {
                return Err(LoadError::WrongType { expected: Expected::Array, position: rd.index(), path: path.to_vec() });
            }
            if dep == 0 {
                return Err(LoadError::TooDeep);
            }
            json_list(item, rd, path, dep - 1, ops)
        },
        Schema::Dictionary(value) => {
            if kind != Kind::Mapping {
                return Err(LoadError::WrongType { expected: Expected::Object, position: rd.index(), path: path.to_vec() });
            }
            if dep == 0 {
                return Err(LoadError::TooDeep);
            }
            json_dict(value, rd, path, dep - 1, ops)
        },
        Schema::Entity(fields) => {
            if kind != Kind::Mapping {
                return Err(LoadError::WrongType { expected: Expected::Object, position: rd.index(), path: path.to_vec() });
            }
            if dep == 0 {
                return Err(LoadError::TooDeep);
            }
            json_entity(fields, rd, path, dep - 1, ops)
        },
    }
}

fn json_list(item: &Schema, rd: &mut JsonReader, path: &InstancePath, dep: usize, ops: &mut Vec<LoadOp>) -> (r: Result<(), LoadError>)
    requires
        old(rd).wf(),
    ensures
        final(rd).wf(),
        final(rd).data() == old(rd).data(),
        ({
            let d = old(rd).data();
            let t = chunk_texts(path.chunks());
            match jiter_known_array(d, old(rd).pos()) {
                Err(x) => r matches Err(e) && fails_as(e, jfail(x)),
                Ok((false, e)) => r is Ok && ops_of(final(ops)@) == ops_of(old(ops)@) + seq![Op::BeginList, Op::EndList]
                    && final(rd).pos() == e,
                Ok((true, e)) => match json_items(*item, d, e, 0, t, dep as nat) {
                    Err(f) => r matches Err(x) && fails_as(x, f),
                    Ok((o, e2)) => r is Ok && ops_of(final(ops)@) == ops_of(old(ops)@) + (seq![Op::BeginList] + o + seq![Op::EndList])
                        && final(rd).pos() == e2,
                },
            }
        }),
    decreases dep, 1int, *item, 0int,
{
    let ghost d = rd.data();
    let ghost t = chunk_texts(path.chunks());
    let ghost ops0 = ops_of(ops@);
    let first = match rd.known_array() {
        Ok(b) => b,
        Err(e) => return Err(LoadError::Json(e)),
    };
    let ghost v0 = ops@;
    ops.push(LoadOp::BeginList);
    proof {
        lemma_ops_push(v0, LoadOp::BeginList);
    }
    if !first {
        let ghost v1 = ops@;
        ops.push(LoadOp::EndList);
        proof {
            lemma_ops_push(v1, LoadOp::EndList);
            assert(ops_of(ops@) =~= ops0 + seq![Op::BeginList, Op::EndList]);
        }
        return Ok(());
    }
    let ghost start = rd.pos();
    let _ = rd.index();
    let ghost mut acc: Seq<Op> = Seq::empty();
    assert(ops_of(ops@) =~= ops0 + seq![Op::BeginList] + acc);
    let mut k: usize = 0;
    loop
        invariant
            rd.wf(),
            rd.data() == d,
            d == old(rd).data(),
            t == chunk_texts(path.chunks()),
            k as int <= rd.pos(),
            ops_of(ops@) == ops0 + seq![Op::BeginList] + acc,
            json_items(*item, d, start, 0, t, dep as nat) == after(acc, json_items(*item, d, rd.pos(), k as int, t, dep as nat)),
            ops0 == ops_of(old(ops)@),
            jiter_known_array(d, old(rd).pos()) == Ok::<(bool, int), (Seq<char>, int)>((true, start)),
        decreases d.len() - rd.pos(),
    {
        let before_pos = rd.index();
        let chunk = PathChunk::Index(k);
        let ghost c = chunk;
        let child = path.push(chunk);
        proof {
            lemma_texts_push(path.chunks(), c);
        }
        let ghost before = ops_of(ops@);
        let ghost step = json_at(*item, d, rd.pos(), t.push(decimal_chars(k as int)), dep as nat);
        match json_value(item, rd, &child, dep, ops) {
            Err(e) => {
                return Err(e);
            },
            Ok(()) => {},
        }
        let ghost o = step->Ok_0.0;
        let ghost e1 = rd.pos();
        let more = match rd.array_step() {
            Ok(b) => b,
            Err(e) => return Err(LoadError::Json(e)),
        };
        if !more {
            let ghost v1 = ops@;
            ops.push(LoadOp::EndList);
            proof {
                lemma_ops_push(v1, LoadOp::EndList);
                assert(before + o =~= ops0 + seq![Op::BeginList] + (acc + o));
                assert(ops_of(ops@) =~= ops0 + (seq![Op::BeginList] + (acc + o) + seq![Op::EndList]));
            }
            return Ok(());
        }
        let now = rd.index();
        if now <= before_pos || now > rd.len() {
            return Err(json_error("reader did not advance", now));
        }
        proof {
            lemma_after_after(acc, o, json_items(*item, d, rd.pos(), k + 1, t, dep as nat));
            assert(before + o =~= ops0 + seq![Op::BeginList] + (acc + o));
            acc = acc + o;
        }
        k += 1;
    }
}

/// Loads the JSON array at the reader's offset as a tuple of `types`.
#[verifier::spinoff_prover]
#[verifier::rlimit(40)]
fn json_tuple(types: &Vec<Schema>, rd: &mut JsonReader, path: &InstancePath, dep: usize, ops: &mut Vec<LoadOp>) -> (r: Result<(), LoadError>)
    requires
        old(rd).wf(),
    ensures
        final(rd).wf(),
        final(rd).data() == old(rd).data(),
        ({
            let d = old(rd).data();
            let t = chunk_texts(path.chunks());
            let q = old(rd).pos();
            match jiter_known_array(d, q) {
                Err(x) => r matches Err(e) && fails_as(e, jfail(x)),
                Ok((false, e)) => if types@.len() != 0 {
                    r matches Err(x) && fails_as(x, LoadFail::TupleSize(q, t, true, types@.len() as int))
                } else {
                    r is Ok && ops_of(final(ops)@) == ops_of(old(ops)@) + seq![Op::BeginList, Op::EndList] && final(rd).pos() == e
                },
                Ok((true, e)) => match json_tuple_items(types@, d, e, 0, t, dep as nat) {
                    Err(f) => r matches Err(x) && fails_as(x, f),
                    Ok((o, e2, c)) => if c != types@.len() {
                        r matches Err(x) && fails_as(x, LoadFail::TupleSize(q, t, c < types@.len(), types@.len() as int))
                    } else {
                        r is Ok && ops_of(final(ops)@) == ops_of(old(ops)@) + (seq![Op::BeginList] + o + seq![Op::EndList])
                            && final(rd).pos() == e2
                    },
                },
            }
        }),
    decreases dep, 1int, *types, 0int,
{
    let ghost d = rd.data();
    let ghost t = chunk_texts(path.chunks());
    let ghost ops0 = ops_of(ops@);
    let at = rd.index();
    let first = match rd.known_array() {
        Ok(b) => b,
        Err(e) => return Err(LoadError::Json(e)),
    };
    if !first {
        if types.len() != 0 {
            return Err(LoadError::TupleSize { position: at, path: path.to_vec(), less: true, size: types.len() });
        }
        let ghost v0 = ops@;
        ops.push(LoadOp::BeginList);
        let ghost v1 = ops@;
        ops.push(LoadOp::EndList);
        proof {
            lemma_ops_push(v0, LoadOp::BeginList);
            lemma_ops_push(v1, LoadOp::EndList);
            assert(ops_of(ops@) =~= ops0 + seq![Op::BeginList, Op::EndList]);
        }
        return Ok(());
    }
    let ghost start = rd.pos();
    let _ = rd.index();
    let mut items: Vec<LoadOp> = Vec::new();
    let ghost mut acc: Seq<Op> = Seq::empty();
    assert(ops_of(items@) =~= acc);
    let mut k: usize = 0;
    loop
        invariant
            rd.wf(),
            rd.data() == d,
            d == old(rd).data(),
            at == old(rd).pos(),
            t == chunk_texts(path.chunks()),
            k as int <= rd.pos(),
            ops_of(items@) == acc,
            ops@ == old(ops)@,
            ops0 == ops_of(old(ops)@),
            json_tuple_items(types@, d, start, 0, t, dep as nat) == match json_tuple_items(types@, d, rd.pos(), k as int, t, dep as nat) {
                Err(f) => Err(f),
                Ok((o2, e2, c)) => Ok((acc + o2, e2, c)),
            },
            jiter_known_array(d, old(rd).pos()) == Ok::<(bool, int), (Seq<char>, int)>((true, start)),
        decreases d.len() - rd.pos(),
    {
        let before_pos = rd.index();
        let ghost before = ops_of(items@);
        let ghost o: Seq<Op>;
        if k < types.len() {
            let chunk = PathChunk::Index(k);
            let ghost c = chunk;
            let child = path.push(chunk);
            proof {
                lemma_texts_push(path.chunks(), c);
                assert(decreases_to!(*types => types@));
                assert(decreases_to!(types@ => types@[k as int]));
            }
            let ghost step = json_at(types@[k as int], d, rd.pos(), t.push(decimal_chars(k as int)), dep as nat);
            match json_value(&types[k], rd, &child, dep, &mut items) {
                Err(e) => {
                    return Err(e);
                },
                Ok(()) => {},
            }
            proof {
                o = step->Ok_0.0;
            }
        } else {
            match rd.next_skip() {
                Err(e) => {
                    return Err(LoadError::Json(e));
                },
                Ok(()) => {},
            }
            proof {
                o = Seq::empty();
                assert(before + o =~= before);
            }
        }
        let more = match rd.array_step() {
            Ok(b) => b,
            Err(e) => return Err(LoadError::Json(e)),
        };
        if !more {
            if !(k < types.len() && k + 1 == types.len()) {
                let less = k < types.len() && k + 1 < types.len();
                return Err(LoadError::TupleSize { position: at, path: path.to_vec(), less, size: types.len() });
            }
            let ghost v0 = ops@;
            ops.push(LoadOp::BeginList);
            let ghost v1 = ops@;
            let ghost iv = items@;
            ops.append(&mut items);
            let ghost v2 = ops@;
            ops.push(LoadOp::EndList);
            proof {
                lemma_ops_push(v0, LoadOp::BeginList);
                assert(v2 == v1 + iv);
                assert(ops_of(v2) =~= ops_of(v1) + ops_of(iv));
                lemma_ops_push(v2, LoadOp::EndList);
                assert(ops_of(ops@) =~= ops0 + (seq![Op::BeginList] + (acc + o) + seq![Op::EndList]));
            }
            return Ok(());
        }
        let now = rd.index();
        if now <= before_pos || now > rd.len() {
            return Err(json_error("reader did not advance", now));
        }
        proof {
            assert(acc + (o + Seq::<Op>::empty()) =~= acc + o);
            assert forall|o2: Seq<Op>| #[trigger] (acc + (o + o2)) == (acc + o) + o2 by {
                assert(acc + (o + o2) =~= (acc + o) + o2);
            }
            acc = acc + o;
        }
        k += 1;
    }
}

fn json_dict(value: &Schema, rd: &mut JsonReader, path: &InstancePath, dep: usize, ops: &mut Vec<LoadOp>) -> (r: Result<(), LoadError>)
    requires
        old(rd).wf(),
    ensures
        final(rd).wf(),
        final(rd).data() == old(rd).data(),
        ({
            let d = old(rd).data();
            let t = chunk_texts(path.chunks());
            match jiter_known_object(d, old(rd).pos()) {
                Err(x) => r matches Err(e) && fails_as(e, jfail(x)),
                Ok((None, e)) => r is Ok && ops_of(final(ops)@) == ops_of(old(ops)@) + seq![Op::BeginDict, Op::EndDict]
                    && final(rd).pos() == e,
                Ok((Some(k), e)) => match json_entries(*value, d, k, e, t, dep as nat) {
                    Err(f) => r matches Err(x) && fails_as(x, f),
                    Ok((o, e2)) => r is Ok && ops_of(final(ops)@) == ops_of(old(ops)@) + (seq![Op::BeginDict] + o + seq![Op::EndDict])
                        && final(rd).pos() == e2,
                },
            }
        }),
    decreases dep, 1int, *value, 0int,
{
    let ghost d = rd.data();
    let ghost t = chunk_texts(path.chunks());
    let ghost ops0 = ops_of(ops@);
    let first = match rd.known_object() {
        Ok(k) => k,
        Err(e) => return Err(LoadError::Json(e)),
    };
    let ghost v0 = ops@;
    ops.push(LoadOp::BeginDict);
    proof {
        lemma_ops_push(v0, LoadOp::BeginDict);
    }
    let mut key = match first {
        None => {
            let ghost v1 = ops@;
            ops.push(LoadOp::EndDict);
            proof {
                lemma_ops_push(v1, LoadOp::EndDict);
                assert(ops_of(ops@) =~= ops0 + seq![Op::BeginDict, Op::EndDict]);
            }
            return Ok(());
        },
        Some(k) => k,
    };
    let ghost k0 = key@;
    let ghost start = rd.pos();
    let ghost mut acc: Seq<Op> = Seq::empty();
    assert(ops_of(ops@) =~= ops0 + seq![Op::BeginDict] + acc);
    loop
        invariant
            rd.wf(),
            rd.data() == d,
            d == old(rd).data(),
            t == chunk_texts(path.chunks()),
            ops_of(ops@) == ops0 + seq![Op::BeginDict] + acc,
            json_entries(*value, d, k0, start, t, dep as nat) == after(acc, json_entries(*value, d, key@, rd.pos(), t, dep as nat)),
            ops0 == ops_of(old(ops)@),
            jiter_known_object(d, old(rd).pos()) matches Ok((Some(kk), ss)) && kk == k0 && ss == start,
        decreases d.len() - rd.pos(),
    {
        let before_pos = rd.index();
        let chunk = PathChunk::Property(key.clone());
        let ghost c = chunk;
        let child = path.push(chunk);
        proof {
            lemma_texts_push(path.chunks(), c);
        }
        let ghost kv = key@;
        let ghost pre = ops@;
        ops.push(LoadOp::Key(key));
        proof {
            lemma_ops_push(pre, LoadOp::Key(key));
        }
        let ghost before = ops_of(ops@);
        let ghost step = json_at(*value, d, rd.pos(), t.push(kv), dep as nat);
        match json_value(value, rd, &child, dep, ops) {
            Err(e) => {
                return Err(e);
            },
            Ok(()) => {},
        }
        let ghost o = step->Ok_0.0;
        let next = match rd.next_key() {
            Ok(k) => k,
            Err(e) => return Err(LoadError::Json(e)),
        };
        match next {
            None => {
                let ghost v1 = ops@;
                ops.push(LoadOp::EndDict);
                proof {
                    lemma_ops_push(v1, LoadOp::EndDict);
                    assert(before + o =~= ops0 + seq![Op::BeginDict] + (acc + (seq![Op::Key(kv)] + o)));
                    assert(ops_of(ops@) =~= ops0 + (seq![Op::BeginDict] + (acc + (seq![Op::Key(kv)] + o)) + seq![Op::EndDict]));
                }
                return Ok(());
            },
            Some(k2) => {
                let now = rd.index();
                if now <= before_pos || now > rd.len() {
                    return Err(json_error("reader did not advance", now));
                }
                proof {
                    lemma_after_after(acc, seq![Op::Key(kv)] + o, json_entries(*value, d, k2@, rd.pos(), t, dep as nat));
                    assert(before + o =~= ops0 + seq![Op::BeginDict] + (acc + (seq![Op::Key(kv)] + o)));
                    acc = acc + (seq![Op::Key(kv)] + o);
                }
                key = k2;
            },
        }
    }
}

/// The end of an entity: the fields not read take their defaults, unless a
/// required one is missing.
fn entity_end(router: &ObjectRouter, fields: &Vec<FieldSchema>, path: &InstancePath, ops: &mut Vec<LoadOp>) -> (r: Result<(), LoadError>)
    requires
        router.wf(),
        router.fields() == routes_of(fields@),
        !router.has_flatten(),
    ensures
        ({
            let acts = end_from(routes_of(fields@), router.seen(), false, 0);
            if acts.len() > 0 && acts.last() is Missing {
                r matches Err(x) && fails_as(
                    x,
                    LoadFail::Schema(required_message(fields@[acts.last()->Missing_0 as int].key@), chunk_texts(path.chunks())),
                )
            } else {
                r is Ok && ops_of(final(ops)@) == ops_of(old(ops)@) + default_ops(acts) + seq![Op::EndEntity]
            }
        }),
{
    proof {
        lemma_join(path.chunks());
    }
    let acts = router.end_actions();
    let n = acts.len();
    proof {
        lemma_end_bound(router.fields(), router.seen(), false, 0);
    }
    if n > 0 {
        if let EndAction::Missing(mi) = acts[n - 1] {
            let e = router.missing_error(mi, path);
            return Err(LoadError::Schema(e));
        }
    }
    let ghost before_defaults = ops@;
    let mut a: usize = 0;
    while a < n
        invariant
            a <= n,
            n == acts@.len(),
            ops_of(ops@) == ops_of(before_defaults) + default_ops(acts@.subrange(0, a as int)),
        decreases n - a,
    {
        let fi = match acts[a] {
            EndAction::Default(x) => x,
            EndAction::Flatten(x) => x,
            EndAction::Missing(x) => x,
        };
        let ghost prev = ops@;
        ops.push(LoadOp::Default(fi));
        proof {
            assert(acts@.subrange(0, a + 1) =~= acts@.subrange(0, a as int).push(acts@[a as int]));
            assert(default_ops(acts@.subrange(0, a + 1)) =~= default_ops(acts@.subrange(0, a as int)).push(Op::Default(fi)));
            lemma_ops_push(prev, LoadOp::Default(fi));
        }
        a += 1;
    }
    let ghost v1 = ops@;
    ops.push(LoadOp::EndEntity);
    proof {
        lemma_ops_push(v1, LoadOp::EndEntity);
        assert(acts@.subrange(0, n as int) =~= acts@);
    }
    Ok(())
}

#[verifier::spinoff_prover]
#[verifier::rlimit(60)]
fn json_entity(fields: &Vec<FieldSchema>, rd: &mut JsonReader, path: &InstancePath, dep: usize, ops: &mut Vec<LoadOp>) -> (r: Result<(), LoadError>)
    requires
        old(rd).wf(),
    ensures
        final(rd).wf(),
        final(rd).data() == old(rd).data(),
        ({
            let d = old(rd).data();
            let t = chunk_texts(path.chunks());
            match jiter_known_object(d, old(rd).pos()) {
                Err(x) => r matches Err(e) && fails_as(e, jfail(x)),
                Ok((k, e)) => {
                    let seen0 = Seq::new(fields@.len(), |i: int| false);
                    let loaded = match k {
                        None => Ok((Seq::<Op>::empty(), e, seen0)),
                        Some(k) => json_fields(fields@, d, k, e, seen0, 0, t, dep as nat),
                    };
                    match loaded {
                        Err(f) => r matches Err(x) && fails_as(x, f),
                        Ok((o, e2, seen)) => {
                            let acts = end_from(routes_of(fields@), seen, false, 0);
                            if acts.len() > 0 && acts.last() is Missing {
                                r matches Err(x) && fails_as(
                                    x,
                                    LoadFail::Schema(required_message(fields@[acts.last()->Missing_0 as int].key@), t),
                                )
                            } else {
                                r is Ok && ops_of(final(ops)@) == ops_of(old(ops)@) + (seq![Op::BeginEntity] + o + default_ops(acts) + seq![Op::EndEntity])
                                    && final(rd).pos() == e2
                            }
                        },
                    }
                },
            }
        }),
    decreases dep, 1int, *fields, 0int,
{
    let ghost d = rd.data();
    let ghost t = chunk_texts(path.chunks());
    let ghost ops0 = ops_of(ops@);
    let mut router = ObjectRouter::new(routes(fields));
    proof {
        assert(!any_flattened(router.fields()));
        assert(router.seen() =~= Seq::new(fields@.len(), |i: int| false));
    }
    let first = match rd.known_object() {
        Ok(k) => k,
        Err(e) => return Err(LoadError::Json(e)),
    };
    let ghost v0 = ops@;
    ops.push(LoadOp::BeginEntity);
    proof {
        lemma_ops_push(v0, LoadOp::BeginEntity);
    }
    let mut key = match first {
        None => {
            let ghost v1 = ops@;
            let r = entity_end(&router, fields, path, ops);
            proof {
                if r is Ok {
                    assert(ops_of(ops@) =~= ops0 + (seq![Op::BeginEntity] + Seq::<Op>::empty() + default_ops(end_from(routes_of(fields@), router.seen(), false, 0)) + seq![Op::EndEntity]));
                }
            }
            return r;
        },
        Some(k) => k,
    };
    let ghost k0 = key@;
    let ghost start = rd.pos();
    let ghost mut acc: Seq<Op> = Seq::empty();
    assert(ops_of(ops@) =~= ops0 + seq![Op::BeginEntity] + acc);
    loop
        invariant
            rd.wf(),
            rd.data() == d,
            d == old(rd).data(),
            t == chunk_texts(path.chunks()),
            ops_of(ops@) == ops0 + seq![Op::BeginEntity] + acc,
            router.wf(),
            router.fields() == routes_of(fields@),
            !router.has_flatten(),
            json_fields(fields@, d, k0, start, Seq::new(fields@.len(), |i: int| false), 0, t, dep as nat) == after_fields(
                acc,
                json_fields(fields@, d, key@, rd.pos(), router.seen(), router.expect(), t, dep as nat),
            ),
            ops0 == ops_of(old(ops)@),
            jiter_known_object(d, old(rd).pos()) matches Ok((Some(kk), ss)) && kk == k0 && ss == start,
        decreases d.len() - rd.pos(),
    {
        let before_pos = rd.index();
        let ghost kv = key@;
        proof {
            vstd::utf8::encode_utf8_decode_utf8(kv);
        }
        let route = router.route(Some(key.as_str().as_bytes()));
        let ghost head: Seq<Op>;
        let ghost o: Seq<Op>;
        match route {
            Route::Field(fi) => {
                let ghost pre = ops@;
                ops.push(LoadOp::Field(fi));
                proof {
                    lemma_ops_push(pre, LoadOp::Field(fi));
                }
                let ghost before = ops_of(ops@);
                let chunk = PathChunk::Property(fields[fi].key.clone());
                let ghost c = chunk;
                let child = path.push(chunk);
                proof {
                    lemma_texts_push(path.chunks(), c);
                }
                let ghost step = json_at(fields@[fi as int].schema, d, rd.pos(), t.push(fields@[fi as int].key@), dep as nat);
                match json_value(&fields[fi].schema, rd, &child, dep, ops) {
                    Err(e) => {
                        return Err(e);
                    },
                    Ok(()) => {},
                }
                proof {
                    head = seq![Op::Field(fi)];
                    o = step->Ok_0.0;
                    assert(ops_of(ops@) =~= ops0 + seq![Op::BeginEntity] + (acc + (head + o)));
                }
            },
            _ => {
                match rd.next_skip() {
                    Err(e) => {
                        return Err(LoadError::Json(e));
                    },
                    Ok(()) => {},
                }
                proof {
                    head = Seq::empty();
                    o = Seq::empty();
                    assert(ops_of(ops@) =~= ops0 + seq![Op::BeginEntity] + (acc + (head + o)));
                }
            },
        }
        let next = match rd.next_key() {
            Ok(k) => k,
            Err(e) => return Err(LoadError::Json(e)),
        };
        match next {
            None => {
                let ghost mid = ops_of(ops@);
                let r = entity_end(&router, fields, path, ops);
                proof {
                    if r is Ok {
                        assert(ops_of(ops@) =~= ops0 + (seq![Op::BeginEntity] + (acc + (head + o)) + default_ops(end_from(routes_of(fields@), router.seen(), false, 0)) + seq![Op::EndEntity]));
                    }
                }
                return r;
            },
            Some(k2) => {
                let now = rd.index();
                if now <= before_pos || now > rd.len() {
                    return Err(json_error("reader did not advance", now));
                }
                proof {
                    lemma_after_fields(acc, head + o, json_fields(fields@, d, k2@, rd.pos(), router.seen(), router.expect(), t, dep as nat));
                    acc = acc + (head + o);
                }
                key = k2;
            },
        }
    }
}

/// Loads a JSON document against `schema`, with at most `max_depth`
/// nested containers.
pub fn load_json(schema: &Schema, data: &[u8], max_depth: usize) -> (r: Result<Vec<LoadOp>, LoadError>)
    ensures
        match json_doc(*schema, data@, max_depth as nat) {
            Ok(o) => r matches Ok(v) && ops_of(v@) == o,
            Err(f) => r matches Err(e) && fails_as(e, f),
        },
{
    let mut rd = JsonReader::new(data);
    let root = InstancePath::new();
    let mut ops: Vec<LoadOp> = Vec::new();
    proof {
        assert(chunk_texts(root.chunks()) =~= Seq::<Seq<char>>::empty());
        assert(ops_of(ops@) =~= Seq::<Op>::empty());
    }
    match json_value(schema, &mut rd, &root, max_depth, &mut ops) {
        Err(e) => Err(e),
        Ok(()) => match rd.finish() {
            Err(e) => Err(LoadError::Json(e)),
            Ok(()) => {
                assert(ops_of(ops@) =~= Seq::<Op>::empty() + ops_of(ops@));
                Ok(ops)
            },
        },
    }
}

/// Loads a document in the format that `format` names (JSON or MessagePack)
/// against `schema`, with at most `max_depth` nested containers; any other
/// format id is refused before a byte is read.
pub fn load_bytes(schema: &Schema, data: &[u8], format: u8, max_depth: usize) -> (r: Result<Vec<LoadOp>, LoadError>)
    requires
        data@.len() < usize::MAX,
        max_depth < STACK_LIMIT,
    ensures
        format == FORMAT_JSON ==> match json_doc(*schema, data@, max_depth as nat) {
            Ok(o) => r matches Ok(v) && ops_of(v@) == o,
            Err(f) => r matches Err(e) && fails_as(e, f),
        },
        format == FORMAT_MSGPACK ==> match load_doc(*schema, data@, max_depth as nat) {
            Ok(o) => r matches Ok(v) && ops_of(v@) == o,
            Err(f) => r matches Err(e) && fails_as(e, f),
        },
        format != FORMAT_JSON && format != FORMAT_MSGPACK ==> (r matches Err(LoadError::UnknownFormat(g)) && g == format),
{
    if format == FORMAT_JSON {
        load_json(schema, data, max_depth)
    } else if format == FORMAT_MSGPACK {
        load_msgpack(schema, data, max_depth)
    } else {
        Err(LoadError::UnknownFormat(format))
    }
}

} // verus!
