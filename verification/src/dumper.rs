//! Dumping a value against a schema: the value (entities already turned
//! into their keyed fields) is checked to have the schema's shape, then
//! written as JSON or MessagePack.
use crate::any_value::{AnyValue, AnyWriteError, DictEntry, any_out, fits, write_any};
use crate::context::Context;
use crate::format_writer::{FORMAT_JSON, FORMAT_MSGPACK, Writer};
use crate::loader::{ChoiceKey, FieldSchema, Schema};
use crate::stacks::STACK_LIMIT;
use crate::text::extend_bytes;
use vstd::prelude::*;

verus! {

/// `v` has the shape `s` asks for: the scalar of its type, `None` where the
/// type is optional, list items, dictionary values and entity fields (by
/// key, in field order) of their own types.
pub open spec fn conforms(s: Schema, v: AnyValue) -> bool
    decreases v, s,
{
    match s {
        Schema::NoneType => v is Null,
        Schema::Boolean => v is Bool,
        Schema::Integer(_) => v is Int || v is BigInt,
        Schema::String(_) => v is Str,
        Schema::Formatted(_) => v is Str,
        Schema::Bytes => v is Bytes,
        Schema::Choice(items) => exists|i: int| 0 <= i < items@.len() && is_choice(#[trigger] items@[i], v),
        Schema::Union(ms, _) => members_conform(ms@, v),
        Schema::Tuple(types) => match v {
            AnyValue::List(items) => items@.len() == types@.len() && tuple_conform(types@, items@),
            _ => false,
        },
        Schema::Optional(inner) => v is Null || conforms(*inner, v),
        Schema::Array(item) => match v {
            AnyValue::List(items) => items_conform(*item, items@),
            _ => false,
        },
        Schema::Dictionary(value) => match v {
            AnyValue::Dict(entries) => values_conform(*value, entries@),
            _ => false,
        },
        Schema::Entity(fields) => match v {
            AnyValue::Dict(entries) => entries@.len() == fields@.len() && fields_conform(fields@, entries@),
            _ => false,
        },
    }
}

pub open spec fn items_conform(item: Schema, items: Seq<AnyValue>) -> bool
    decreases items, item,
{
    if items.len() == 0 {
        true
    } else {
        items_conform(item, items.subrange(0, items.len() - 1)) && conforms(item, items[items.len() - 1])
    }
}

pub open spec fn values_conform(value: Schema, entries: Seq<DictEntry>) -> bool
    decreases entries, value,
{
    if entries.len() == 0 {
        true
    } else {
        values_conform(value, entries.subrange(0, entries.len() - 1)) && conforms(value, entries[entries.len() - 1].value)
    }
}

/// Entry `i` is field `i`: its key and a value of its type.
pub open spec fn fields_conform(fields: Seq<FieldSchema>, entries: Seq<DictEntry>) -> bool
    decreases entries, fields,
{
    if entries.len() == 0 || fields.len() < entries.len() {
        entries.len() == 0
    } else {
        let i = entries.len() - 1;
        &&& fields_conform(fields, entries.subrange(0, i))
        &&& entries[i].key@ == fields[i].key@
        &&& conforms(fields[i].schema, entries[i].value)
    }
}

proof fn lemma_items_prefix(item: Schema, s: Seq<AnyValue>, k: int)
    requires
        0 <= k <= s.len(),
        items_conform(item, s),
    ensures
        items_conform(item, s.subrange(0, k)),
    decreases s.len(),
{
    if k < s.len() {
        lemma_items_prefix(item, s.subrange(0, s.len() - 1), k);
        assert(s.subrange(0, s.len() - 1).subrange(0, k) =~= s.subrange(0, k));
    } else {
        assert(s.subrange(0, k) =~= s);
    }
}

proof fn lemma_values_prefix(value: Schema, s: Seq<DictEntry>, k: int)
    requires
        0 <= k <= s.len(),
        values_conform(value, s),
    ensures
        values_conform(value, s.subrange(0, k)),
    decreases s.len(),
{
    if k < s.len() {
        lemma_values_prefix(value, s.subrange(0, s.len() - 1), k);
        assert(s.subrange(0, s.len() - 1).subrange(0, k) =~= s.subrange(0, k));
    } else {
        assert(s.subrange(0, k) =~= s);
    }
}

proof fn lemma_fields_prefix(fields: Seq<FieldSchema>, s: Seq<DictEntry>, k: int)
    requires
        0 <= k <= s.len(),
        fields_conform(fields, s),
    ensures
        fields_conform(fields, s.subrange(0, k)),
    decreases s.len(),
{
    if k < s.len() {
        lemma_fields_prefix(fields, s.subrange(0, s.len() - 1), k);
        assert(s.subrange(0, s.len() - 1).subrange(0, k) =~= s.subrange(0, k));
    } else {
        assert(s.subrange(0, k) =~= s);
    }
}

/// Item `k` of `items` has the shape of type `k` of `types`, for the
/// first `items.len()` types.
pub open spec fn tuple_conform(types: Seq<Schema>, items: Seq<AnyValue>) -> bool
    decreases items, types,
{
    if items.len() == 0 || types.len() < items.len() {
        items.len() == 0
    } else {
        tuple_conform(types, items.drop_last()) && conforms(types[items.len() - 1], items.last())
    }
}

/// `v` has the shape of some of `ms`.
pub open spec fn members_conform(ms: Seq<Schema>, v: AnyValue) -> bool
    decreases v, ms, ms.len(),
{
    if ms.len() == 0 {
        false
    } else {
        members_conform(ms.drop_last(), v) || conforms(ms.last(), v)
    }
}

/// `v` is the value `c`.
pub open spec fn is_choice(c: ChoiceKey, v: AnyValue) -> bool {
    match (c, v) {
        (ChoiceKey::Str(s), AnyValue::Str(t)) => s@ == t@,
        (ChoiceKey::Int(i), AnyValue::Int(j)) => i == j,
        (ChoiceKey::Bool(a), AnyValue::Bool(b)) => a == b,
        _ => false,
    }
}

fn is_choice_exec(c: &ChoiceKey, v: &AnyValue) -> (r: bool)
    ensures
        r == is_choice(*c, *v),
{
    match (c, v) {
        (ChoiceKey::Str(s), AnyValue::Str(t)) => crate::text::text_eq(s.as_str(), t.as_str()),
        (ChoiceKey::Int(i), AnyValue::Int(j)) => *i == *j,
        (ChoiceKey::Bool(a), AnyValue::Bool(b)) => *a == *b,
        _ => false,
    }
}

/// Whether `v` is one of `items`.
fn one_of(items: &Vec<ChoiceKey>, v: &AnyValue) -> (r: bool)
    ensures
        r == exists|i: int| 0 <= i < items@.len() && is_choice(#[trigger] items@[i], *v),
{
    let mut i: usize = 0;
    while i < items.len()
        invariant
            i <= items@.len(),
            forall|j: int| 0 <= j < i ==> !is_choice(#[trigger] items@[j], *v),
        decreases items@.len() - i,
    {
        if is_choice_exec(&items[i], v) {
            return true;
        }
        i += 1;
    }
    false
}

/// Whether `v` has the shape `s` asks for.
pub fn check_shape(s: &Schema, v: &AnyValue) -> (r: bool)
    ensures
        r == conforms(*s, *v),
    decreases *v, *s,
{
    match s {
        Schema::NoneType => matches!(v, AnyValue::Null),
        Schema::Boolean => matches!(v, AnyValue::Bool(_)),
        Schema::Integer(_) => matches!(v, AnyValue::Int(_)) || matches!(v, AnyValue::BigInt(_)),
        Schema::String(_) => matches!(v, AnyValue::Str(_)),
        Schema::Formatted(_) => matches!(v, AnyValue::Str(_)),
        Schema::Bytes => matches!(v, AnyValue::Bytes(_)),
        Schema::Choice(items) => one_of(items, v),
        Schema::Tuple(types) => match v {
            AnyValue::List(items) => {
                if items.len() != types.len() {
                    return false;
                }
                let mut ok = true;
                let mut i: usize = 0;
                while i < items.len()
                    invariant
                        i <= items@.len(),
                        items@.len() == types@.len(),
                        ok == tuple_conform(types@, items@.subrange(0, i as int)),
                        *v == AnyValue::List(*items),
                        *s == Schema::Tuple(*types),
                    decreases items@.len() - i,
                {
                    proof {
                        assert(decreases_to!(*v => (*v)->List_0));
                        assert((*v)->List_0 == *items);
                        assert(decreases_to!(*items => items@));
                        assert(decreases_to!(items@ => items@[i as int]));
                        assert(decreases_to!(*v => items@[i as int]));
                    }
                    let ghost next = items@.subrange(0, i + 1);
                    assert(next.drop_last() =~= items@.subrange(0, i as int));
                    let c = check_shape(&types[i], &items[i]);
                    ok = ok && c;
                    i += 1;
                }
                assert(items@.subrange(0, i as int) =~= items@);
                ok
            },
            _ => false,
        },
        Schema::Union(ms, name) => {
            let mut ok = false;
            let mut i: usize = 0;
            while i < ms.len()
                invariant
                    i <= ms@.len(),
                    ok == members_conform(ms@.subrange(0, i as int), *v),
                    *s == Schema::Union(*ms, *name),
                decreases ms@.len() - i,
            {
                assert(ms@.subrange(0, i as int + 1).drop_last() =~= ms@.subrange(0, i as int));
                proof {
                    assert(decreases_to!(*s => (*s)->Union_0));
                    assert((*s)->Union_0 == *ms);
                    assert(decreases_to!(*ms => ms@));
                    assert(decreases_to!(ms@ => ms@[i as int]));
                    assert(decreases_to!(*s => ms@[i as int]));
                }
                let c = check_shape(&ms[i], v);
                ok = ok || c;
                i += 1;
            }
            assert(ms@.subrange(0, i as int) =~= ms@);
            ok
        },
        Schema::Optional(inner) => matches!(v, AnyValue::Null) || check_shape(inner, v),
        Schema::Array(item) => match v {
            AnyValue::List(items) => {
                let mut i: usize = 0;
                assert(items@.subrange(0, 0) =~= Seq::<AnyValue>::empty());
                while i < items.len()
                    invariant
                        i <= items@.len(),
                        items_conform(**item, items@.subrange(0, i as int)),
                        *v == AnyValue::List(*items),
                        *s == Schema::Array(*item),
                    decreases items@.len() - i,
                {
                    proof {
                        assert(decreases_to!(*v => (*v)->List_0));
                        assert((*v)->List_0 == *items);
                        assert(decreases_to!(*items => items@));
                        assert(decreases_to!(items@ => items@[i as int]));
                        assert(decreases_to!(*v => items@[i as int]));
                    }
                    let ghost next = items@.subrange(0, i + 1);
                    assert(next.subrange(0, i as int) =~= items@.subrange(0, i as int));
                    if !check_shape(item, &items[i]) {
                        proof {
                            if items_conform(**item, items@) {
                                lemma_items_prefix(**item, items@, i + 1);
                            }
                        }
                        return false;
                    }
                    i += 1;
                }
                assert(items@.subrange(0, items@.len() as int) =~= items@);
                true
            },
            _ => false,
        },
        Schema::Dictionary(value) => match v {
            AnyValue::Dict(entries) => {
                let mut i: usize = 0;
                assert(entries@.subrange(0, 0) =~= Seq::<DictEntry>::empty());
                while i < entries.len()
                    invariant
                        i <= entries@.len(),
                        values_conform(**value, entries@.subrange(0, i as int)),
                        *v == AnyValue::Dict(*entries),
                        *s == Schema::Dictionary(*value),
                    decreases entries@.len() - i,
                {
                    proof {
                        assert(decreases_to!(*v => (*v)->Dict_0));
                        assert((*v)->Dict_0 == *entries);
                        assert(decreases_to!(*entries => entries@));
                        assert(decreases_to!(entries@ => entries@[i as int]));
                        assert(decreases_to!(entries@[i as int] => entries@[i as int].value));
                        assert(decreases_to!(*v => entries@[i as int].value));
                    }
                    let ghost next = entries@.subrange(0, i + 1);
                    assert(next.subrange(0, i as int) =~= entries@.subrange(0, i as int));
                    if !check_shape(value, &entries[i].value) {
                        proof {
                            if values_conform(**value, entries@) {
                                lemma_values_prefix(**value, entries@, i + 1);
                            }
                        }
                        return false;
                    }
                    i += 1;
                }
                assert(entries@.subrange(0, entries@.len() as int) =~= entries@);
                true
            },
            _ => false,
        },
        Schema::Entity(fields) => match v {
            AnyValue::Dict(entries) => {
                if entries.len() != fields.len() {
                    return false;
                }
                let mut i: usize = 0;
                assert(entries@.subrange(0, 0) =~= Seq::<DictEntry>::empty());
                while i < entries.len()
                    invariant
                        i <= entries@.len(),
                        entries@.len() == fields@.len(),
                        fields_conform(fields@, entries@.subrange(0, i as int)),
                        *v == AnyValue::Dict(*entries),
                        *s == Schema::Entity(*fields),
                    decreases entries@.len() - i,
                {
                    proof {
                        assert(decreases_to!(*v => (*v)->Dict_0));
                        assert((*v)->Dict_0 == *entries);
                        assert(decreases_to!(*entries => entries@));
                        assert(decreases_to!(entries@ => entries@[i as int]));
                        assert(decreases_to!(entries@[i as int] => entries@[i as int].value));
                        assert(decreases_to!(*v => entries@[i as int].value));
                    }
                    let ghost next = entries@.subrange(0, i + 1);
                    assert(next.subrange(0, i as int) =~= entries@.subrange(0, i as int));
                    let same_key = entries[i].key == fields[i].key;
                    if !same_key || !check_shape(&fields[i].schema, &entries[i].value) {
                        proof {
                            if entries@.len() == fields@.len() && fields_conform(fields@, entries@) {
                                lemma_fields_prefix(fields@, entries@, i + 1);
                            }
                        }
                        return false;
                    }
                    i += 1;
                }
                assert(entries@.subrange(0, entries@.len() as int) =~= entries@);
                true
            },
            _ => false,
        },
    }
}

/// Why a dump failed.
pub enum DumpError {
    /// The value does not have the schema's shape.
    Mismatch,
    /// The format cannot hold the value.
    Write(AnyWriteError),
    /// The format id is neither JSON nor MessagePack.
    UnknownFormat(u8),
}

/// The bytes of dumping `v` against `s` in the format `format`.
pub open spec fn dump_spec(s: Schema, v: AnyValue, format: u8, max_depth: nat) -> Result<Seq<u8>, DumpError> {
    if format != FORMAT_JSON && format != FORMAT_MSGPACK {
        Err(DumpError::UnknownFormat(format))
    } else if !conforms(s, v) {
        Err(DumpError::Mismatch)
    } else {
        match any_out(v, format == FORMAT_JSON, 0, max_depth) {
            Ok(b) => Ok(b),
            Err(e) => Err(DumpError::Write(e)),
        }
    }
}

/// Dumps `v` against `s`: JSON (`format` 0) or MessagePack (`format` 1),
/// with at most `max_depth` nested values.
pub fn dump_bytes(s: &Schema, v: &AnyValue, format: u8, max_depth: usize) -> (r: Result<Vec<u8>, DumpError>)
    requires
        fits(*v),
        max_depth < STACK_LIMIT,
    ensures
        match dump_spec(*s, *v, format, max_depth as nat) {
            Ok(b) => r matches Ok(out) && out@ == b,
            Err(DumpError::Mismatch) => r matches Err(DumpError::Mismatch),
            Err(DumpError::UnknownFormat(f)) => r matches Err(DumpError::UnknownFormat(g)) && f == g,
            Err(DumpError::Write(e)) => r matches Err(DumpError::Write(x)) && x == e,
        },
{
    let mut w = match Writer::with_capacity(format, 1024) {
        Ok(w) => w,
        Err(_) => return Err(DumpError::UnknownFormat(format)),
    };
    if !check_shape(s, v) {
        return Err(DumpError::Mismatch);
    }
    let mut ctx = Context::new(false, max_depth);
    match write_any(v, &mut w, &mut ctx) {
        Err(e) => Err(DumpError::Write(e)),
        Ok(()) => {
            let mut out: Vec<u8> = Vec::new();
            extend_bytes(&mut out, w.as_bytes());
            proof {
                assert(out@ =~= w.bytes());
            }
            Ok(out)
        },
    }
}

} // verus!
