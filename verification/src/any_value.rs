//! Writing a value of any shape: null, booleans, integers, floats, text,
//! bytes, lists and string-keyed maps. Every value, nested ones included,
//! takes one level of the context's depth budget while it is written.
use crate::context::{Context, RecursionLimitExceeded};
use crate::format_writer::Writer;
use crate::json_writer::{json_key, json_string};
use crate::msgpack_grammar::{be_bytes, enc_bin, enc_container_header, enc_int, enc_str, enc_uint};
use crate::msgpack_writer::decimal_value;
use crate::numtext::{decimal_chars, decimal_text, format_u64};
use crate::stacks::{Container, STACK_LIMIT};
use vstd::prelude::*;
use vstd::string::StringSliceAdditionalSpecFns;
use vstd::utf8::encode_utf8;

verus! {

/// What the writers need of a float: whether it is finite, its shortest
/// round-trip decimal text, and its IEEE 754 bit pattern.
pub struct FloatParts {
    pub finite: bool,
    pub text: String,
    pub bits: u64,
}

/// One key and its value in a map.
pub struct DictEntry {
    pub key: String,
    pub value: AnyValue,
}

/// A value of any shape. Tuples are lists; map keys are text.
pub enum AnyValue {
    Null,
    Bool(bool),
    Int(i64),
    /// An integer beyond `i64`, as its decimal text.
    BigInt(String),
    Float(FloatParts),
    Str(String),
    Bytes(Vec<u8>),
    List(Vec<AnyValue>),
    Dict(Vec<DictEntry>),
    /// A value of a type no format can hold, by the type's name.
    Unsupported(String),
}

/// Why a value could not be written.
#[derive(Debug)]
pub enum AnyWriteError {
    /// Nesting went past the depth budget.
    TooDeep(RecursionLimitExceeded),
    /// JSON has no bytes.
    BytesNotSupported,
    /// JSON has no NaN or infinity.
    NotFinite,
    /// MessagePack holds integers up to 2^64 - 1 only.
    IntegerOutOfRange,
    /// No format holds a value of this type.
    NotSerializable(String),
}

/// The text of each error.
pub open spec fn any_error_message(e: AnyWriteError) -> Seq<char> {
    match e {
        AnyWriteError::TooDeep(x) => "maximum recursion depth exceeded ("@ + decimal_chars(x.max_depth as int)
            + "); likely a cyclic graph or excessively deep structure"@,
        AnyWriteError::BytesNotSupported => "bytes values are not supported by this format"@,
        AnyWriteError::NotFinite => "NaN and Infinity are not allowed in JSON"@,
        AnyWriteError::IntegerOutOfRange => "integer is out of range for MessagePack"@,
        AnyWriteError::NotSerializable(name) => "value of type '"@ + name@ + "' is not serializable to this format"@,
    }
}

impl AnyWriteError {
    pub fn message(&self) -> (r: String)
        ensures
            r@ == any_error_message(*self),
    {
        match self {
            AnyWriteError::TooDeep(x) => {
                let mut s = String::from_str("maximum recursion depth exceeded (");
                let n = format_u64(x.max_depth as u64);
                s.append(n.as_str());
                s.append("); likely a cyclic graph or excessively deep structure");
                s
            },
            AnyWriteError::BytesNotSupported => String::from_str("bytes values are not supported by this format"),
            AnyWriteError::NotFinite => String::from_str("NaN and Infinity are not allowed in JSON"),
            AnyWriteError::IntegerOutOfRange => String::from_str("integer is out of range for MessagePack"),
            AnyWriteError::NotSerializable(name) => {
                let mut s = String::from_str("value of type '");
                s.append(name.as_str());
                s.append("' is not serializable to this format");
                s
            },
        }
    }
}

/// Every text, byte string and container fits a 32-bit length.
pub open spec fn fits(v: AnyValue) -> bool
    decreases v,
{
    match v {
        AnyValue::Str(s) => encode_utf8(s@).len() <= u32::MAX,
        AnyValue::Bytes(b) => b@.len() <= u32::MAX,
        AnyValue::List(items) => items@.len() <= u32::MAX && items_fit(items@),
        AnyValue::Dict(entries) => entries@.len() <= u32::MAX && entries_fit(entries@),
        _ => true,
    }
}

pub open spec fn items_fit(items: Seq<AnyValue>) -> bool
    decreases items,
{
    if items.len() == 0 {
        true
    } else {
        items_fit(items.subrange(0, items.len() - 1)) && fits(items[items.len() - 1])
    }
}

pub open spec fn entries_fit(entries: Seq<DictEntry>) -> bool
    decreases entries,
{
    if entries.len() == 0 {
        true
    } else {
        let last = entries[entries.len() - 1];
        &&& entries_fit(entries.subrange(0, entries.len() - 1))
        &&& encode_utf8(last.key@).len() <= u32::MAX
        &&& fits(last.value)
    }
}

/// A JSON container from its members, each followed by a comma: the last
/// comma gives way to the closing bracket.
pub open spec fn wrap_json(body: Seq<u8>, open: u8, close: u8) -> Seq<u8> {
    if body.len() == 0 {
        seq![open, close]
    } else {
        seq![open] + body.drop_last() + seq![close]
    }
}

/// The separator after each member: a comma in JSON, nothing in MessagePack.
pub open spec fn sep(json: bool) -> Seq<u8> {
    if json {
        seq![0x2cu8]
    } else {
        Seq::empty()
    }
}

/// The output of a value that holds no other value.
pub open spec fn scalar_out(v: AnyValue, json: bool) -> Result<Seq<u8>, AnyWriteError> {
    match v {
        AnyValue::Null => Ok(if json { seq![0x6eu8, 0x75u8, 0x6cu8, 0x6cu8] } else { seq![0xc0u8] }),
        AnyValue::Bool(b) => Ok(
            if json {
                if b {
                    seq![0x74u8, 0x72u8, 0x75u8, 0x65u8]
                } else {
                    seq![0x66u8, 0x61u8, 0x6cu8, 0x73u8, 0x65u8]
                }
            } else {
                seq![if b { 0xc3u8 } else { 0xc2u8 }]
            },
        ),
        AnyValue::Int(i) => Ok(if json { decimal_text(i as int) } else { enc_int(i as int) }),
        AnyValue::BigInt(s) => if json {
            Ok(encode_utf8(s@))
        } else {
            match decimal_value(encode_utf8(s@)) {
                Some(n) => if n <= u64::MAX {
                    Ok(enc_uint(n))
                } else {
                    Err(AnyWriteError::IntegerOutOfRange)
                },
                None => Err(AnyWriteError::IntegerOutOfRange),
            }
        },
        AnyValue::Float(f) => if json {
            if f.finite {
                Ok(encode_utf8(f.text@))
            } else {
                Err(AnyWriteError::NotFinite)
            }
        } else {
            Ok(seq![0xcbu8] + be_bytes(f.bits as int, 8))
        },
        AnyValue::Str(s) => Ok(if json { json_string(encode_utf8(s@)) } else { enc_str(encode_utf8(s@)) }),
        AnyValue::Bytes(b) => if json {
            Err(AnyWriteError::BytesNotSupported)
        } else {
            Ok(enc_bin(b@))
        },
        AnyValue::Unsupported(name) => Err(AnyWriteError::NotSerializable(name)),
        _ => Ok(Seq::empty()),
    }
}

/// What writing `v` at context depth `depth` under the budget `max` gives:
/// its bytes in the chosen format, or the first error met in document
/// order.
pub open spec fn any_out(v: AnyValue, json: bool, depth: nat, max: nat) -> Result<Seq<u8>, AnyWriteError>
    decreases v,
{
    if depth + 1 > max {
        Err(AnyWriteError::TooDeep(RecursionLimitExceeded { max_depth: max as usize }))
    } else {
        match v {
            AnyValue::List(items) => match items_out(items@, json, depth + 1, max) {
                Ok(body) => Ok(
                    if json {
                        wrap_json(body, 0x5b, 0x5d)
                    } else {
                        enc_container_header(items@.len() as int, false) + body
                    },
                ),
                Err(e) => Err(e),
            },
            AnyValue::Dict(entries) => match entries_out(entries@, json, depth + 1, max) {
                Ok(body) => Ok(
                    if json {
                        wrap_json(body, 0x7b, 0x7d)
                    } else {
                        enc_container_header(entries@.len() as int, true) + body
                    },
                ),
                Err(e) => Err(e),
            },
            _ => scalar_out(v, json),
        }
    }
}

/// The members of a list, each followed by its separator.
pub open spec fn items_out(items: Seq<AnyValue>, json: bool, depth: nat, max: nat) -> Result<Seq<u8>, AnyWriteError>
    decreases items,
{
    if items.len() == 0 {
        Ok(Seq::empty())
    } else {
        match items_out(items.subrange(0, items.len() - 1), json, depth, max) {
            Err(e) => Err(e),
            Ok(front) => match any_out(items[items.len() - 1], json, depth, max) {
                Err(e) => Err(e),
                Ok(x) => Ok(front + x + sep(json)),
            },
        }
    }
}

/// The text of a map key: `"key":` in JSON, a string in MessagePack.
pub open spec fn key_out(key: String, json: bool) -> Seq<u8> {
    if json {
        json_key(encode_utf8(key@))
    } else {
        enc_str(encode_utf8(key@))
    }
}

/// The entries of a map, each followed by its separator.
pub open spec fn entries_out(entries: Seq<DictEntry>, json: bool, depth: nat, max: nat) -> Result<Seq<u8>, AnyWriteError>
    decreases entries,
{
    if entries.len() == 0 {
        Ok(Seq::empty())
    } else {
        let last = entries[entries.len() - 1];
        match entries_out(entries.subrange(0, entries.len() - 1), json, depth, max) {
            Err(e) => Err(e),
            Ok(front) => match any_out(last.value, json, depth, max) {
                Err(e) => Err(e),
                Ok(x) => Ok(front + key_out(last.key, json) + x + sep(json)),
            },
        }
    }
}

/// An error among the first `k` members is the error of the whole list.
proof fn lemma_items_prefix_err(items: Seq<AnyValue>, k: int, json: bool, depth: nat, max: nat, e: AnyWriteError)
    requires
        0 <= k <= items.len(),
        items_out(items.subrange(0, k), json, depth, max) == Err::<Seq<u8>, AnyWriteError>(e),
    ensures
        items_out(items, json, depth, max) == Err::<Seq<u8>, AnyWriteError>(e),
    decreases items.len(),
{
    if k == items.len() {
        assert(items.subrange(0, k) =~= items);
    } else {
        let front = items.subrange(0, items.len() - 1);
        assert(front.subrange(0, k) =~= items.subrange(0, k));
        lemma_items_prefix_err(front, k, json, depth, max, e);
    }
}

proof fn lemma_entries_prefix_err(entries: Seq<DictEntry>, k: int, json: bool, depth: nat, max: nat, e: AnyWriteError)
    requires
        0 <= k <= entries.len(),
        entries_out(entries.subrange(0, k), json, depth, max) == Err::<Seq<u8>, AnyWriteError>(e),
    ensures
        entries_out(entries, json, depth, max) == Err::<Seq<u8>, AnyWriteError>(e),
    decreases entries.len(),
{
    if k == entries.len() {
        assert(entries.subrange(0, k) =~= entries);
    } else {
        let front = entries.subrange(0, entries.len() - 1);
        assert(front.subrange(0, k) =~= entries.subrange(0, k));
        lemma_entries_prefix_err(front, k, json, depth, max, e);
    }
}

proof fn lemma_items_fit_at(items: Seq<AnyValue>, i: int)
    requires
        items_fit(items),
        0 <= i < items.len(),
    ensures
        fits(items[i]),
    decreases items.len(),
{
    if i < items.len() - 1 {
        let front = items.subrange(0, items.len() - 1);
        lemma_items_fit_at(front, i);
        assert(front[i] == items[i]);
    }
}

proof fn lemma_entries_fit_at(entries: Seq<DictEntry>, i: int)
    requires
        entries_fit(entries),
        0 <= i < entries.len(),
    ensures
        fits(entries[i].value),
        encode_utf8(entries[i].key@).len() <= u32::MAX,
    decreases entries.len(),
{
    if i < entries.len() - 1 {
        let front = entries.subrange(0, entries.len() - 1);
        lemma_entries_fit_at(front, i);
        assert(front[i] == entries[i]);
    }
}

/// Room on the MessagePack container stack for every level the budget still
/// allows.
pub open spec fn room(w: Writer, open_extra: nat, ctx: Context) -> bool {
    w matches Writer::Msgpack(m) ==> m.open_containers().len() + open_extra + ctx.max_depth() < STACK_LIMIT + ctx.depth()
}

/// The context is as it was: same depth, budget and casting rule.
pub open spec fn same_context(a: Context, b: Context) -> bool {
    &&& a.wf()
    &&& a.depth() == b.depth()
    &&& a.max_depth() == b.max_depth()
    &&& a.casts_from_string() == b.casts_from_string()
}

/// Writes the members of a list after its header; `ctx` is already one
/// level into the list.
fn write_items(items: &Vec<AnyValue>, w: &mut Writer, ctx: &mut Context) -> (r: Result<(), AnyWriteError>)
    requires
        old(w).wf(),
        old(ctx).wf(),
        items@.len() <= u32::MAX,
        items_fit(items@),
        room(*old(w), 1, *old(ctx)),
    ensures
        same_context(*final(ctx), *old(ctx)),
        final(w).wf(),
        (*final(w) is Json) == (*old(w) is Json),
        match items_out(items@, *old(w) is Json, old(ctx).depth(), old(ctx).max_depth()) {
            Ok(body) => r is Ok && final(w).appended(
                old(w),
                wrap_json(body, 0x5b, 0x5d),
                enc_container_header(items@.len() as int, false) + body,
            ),
            Err(e) => r == Err::<(), AnyWriteError>(e),
        },
    decreases items,
{
    let ghost w0 = *w;
    let ghost json = w0 is Json;
    let ghost d = ctx.depth();
    let ghost mx = ctx.max_depth();
    let ghost c0 = *ctx;
    let n = items.len();
    w.begin_array(Some(n));
    let mut i: usize = 0;
    while i < n
        invariant
            w0 == *old(w),
            c0 == *old(ctx),
            n == items@.len(),
            n <= u32::MAX,
            items_fit(items@),
            0 <= i <= n,
            w.wf(),
            (*w is Json) == json,
            json == (w0 is Json),
            same_context(*ctx, c0),
            d == c0.depth(),
            mx == c0.max_depth(),
            room(w0, 1, c0),
            items_out(items@.subrange(0, i as int), json, d, mx) is Ok,
            json ==> w.bytes() == w0.bytes() + seq![0x5bu8] + items_out(items@.subrange(0, i as int), json, d, mx)->Ok_0,
            !json ==> (w0 matches Writer::Msgpack(m0) && *w matches Writer::Msgpack(m) && m.bytes() == m0.bytes()
                + enc_container_header(n as int, false) + items_out(items@.subrange(0, i as int), json, d, mx)->Ok_0
                && m.open_containers() == m0.open_containers().push(
                Container { is_map: false, backpatch: None, declared: n as u32, items: i as u32 },
            )),
        decreases n - i,
    {
        let ghost prefix = items@.subrange(0, i as int);
        let ghost next = items@.subrange(0, i + 1);
        proof {
            assert(next.subrange(0, i as int) =~= prefix);
            assert(next[i as int] == items@[i as int]);
            lemma_items_fit_at(items@, i as int);
        }
        let ghost wb = *w;
        match write_any(&items[i], w, ctx) {
            Err(e) => {
                proof {
                    lemma_items_prefix_err(items@, i + 1, json, d, mx, e);
                }
                return Err(e);
            },
            Ok(()) => {},
        }
        w.item_end();
        i += 1;
        proof {
            let x = any_out(items@[(i - 1) as int], json, d, mx)->Ok_0;
            assert(items_out(next, json, d, mx) == Ok::<Seq<u8>, AnyWriteError>(items_out(prefix, json, d, mx)->Ok_0 + x + sep(json)));
            if json {
                assert(w.bytes() =~= w0.bytes() + seq![0x5bu8] + items_out(next, json, d, mx)->Ok_0);
            } else {
                assert(w->Msgpack_0.bytes() =~= w0->Msgpack_0.bytes() + enc_container_header(n as int, false) + items_out(next, json, d, mx)->Ok_0);
            }
        }
    }
    proof {
        assert(items@.subrange(0, n as int) =~= items@);
    }
    let ghost body = items_out(items@, json, d, mx)->Ok_0;
    proof {
        if json && n > 0 {
            let front = items@.subrange(0, n - 1);
            assert(body == items_out(front, json, d, mx)->Ok_0 + any_out(items@[n - 1], json, d, mx)->Ok_0 + seq![0x2cu8]);
            assert(body.len() > 0 && body.last() == 0x2c);
        }
        if json && n == 0 {
            assert(body =~= Seq::<u8>::empty());
        }
    }
    w.end_array();
    proof {
        if json {
            if n > 0 {
                assert(w.bytes() =~= w0.bytes() + wrap_json(body, 0x5b, 0x5d));
            } else {
                assert(w.bytes() =~= w0.bytes() + wrap_json(body, 0x5b, 0x5d));
            }
        } else {
            assert(w->Msgpack_0.bytes() =~= w0->Msgpack_0.bytes() + (enc_container_header(n as int, false) + body));
            assert(w->Msgpack_0.open_containers() =~= w0->Msgpack_0.open_containers());
        }
    }
    Ok(())
}

/// Writes the entries of a map after its header; `ctx` is already one level
/// into the map.
fn write_entries(entries: &Vec<DictEntry>, w: &mut Writer, ctx: &mut Context) -> (r: Result<(), AnyWriteError>)
    requires
        old(w).wf(),
        old(ctx).wf(),
        entries@.len() <= u32::MAX,
        entries_fit(entries@),
        room(*old(w), 1, *old(ctx)),
    ensures
        same_context(*final(ctx), *old(ctx)),
        final(w).wf(),
        (*final(w) is Json) == (*old(w) is Json),
        match entries_out(entries@, *old(w) is Json, old(ctx).depth(), old(ctx).max_depth()) {
            Ok(body) => r is Ok && final(w).appended(
                old(w),
                wrap_json(body, 0x7b, 0x7d),
                enc_container_header(entries@.len() as int, true) + body,
            ),
            Err(e) => r == Err::<(), AnyWriteError>(e),
        },
    decreases entries,
{
    let ghost w0 = *w;
    let ghost json = w0 is Json;
    let ghost d = ctx.depth();
    let ghost mx = ctx.max_depth();
    let ghost c0 = *ctx;
    let n = entries.len();
    w.begin_map(Some(n));
    let mut i: usize = 0;
    while i < n
        invariant
            w0 == *old(w),
            c0 == *old(ctx),
            n == entries@.len(),
            n <= u32::MAX,
            entries_fit(entries@),
            0 <= i <= n,
            w.wf(),
            (*w is Json) == json,
            json == (w0 is Json),
            same_context(*ctx, c0),
            d == c0.depth(),
            mx == c0.max_depth(),
            room(w0, 1, c0),
            entries_out(entries@.subrange(0, i as int), json, d, mx) is Ok,
            json ==> w.bytes() == w0.bytes() + seq![0x7bu8] + entries_out(entries@.subrange(0, i as int), json, d, mx)->Ok_0,
            !json ==> (w0 matches Writer::Msgpack(m0) && *w matches Writer::Msgpack(m) && m.bytes() == m0.bytes()
                + enc_container_header(n as int, true) + entries_out(entries@.subrange(0, i as int), json, d, mx)->Ok_0
                && m.open_containers() == m0.open_containers().push(
                Container { is_map: true, backpatch: None, declared: n as u32, items: i as u32 },
            )),
        decreases n - i,
    {
        let ghost prefix = entries@.subrange(0, i as int);
        let ghost next = entries@.subrange(0, i + 1);
        proof {
            assert(next.subrange(0, i as int) =~= prefix);
            assert(next[i as int] == entries@[i as int]);
            lemma_entries_fit_at(entries@, i as int);
        }
        let entry = &entries[i];
        w.map_key(entry.key.as_str());
        let ghost wk = *w;
        match write_any(&entry.value, w, ctx) {
            Err(e) => {
                proof {
                    lemma_entries_prefix_err(entries@, i + 1, json, d, mx, e);
                }
                return Err(e);
            },
            Ok(()) => {},
        }
        w.item_end();
        i += 1;
        proof {
            let x = any_out(entries@[(i - 1) as int].value, json, d, mx)->Ok_0;
            let k = key_out(entries@[(i - 1) as int].key, json);
            assert(entries_out(next, json, d, mx) == Ok::<Seq<u8>, AnyWriteError>(entries_out(prefix, json, d, mx)->Ok_0 + k + x + sep(json)));
            if json {
                assert(w.bytes() =~= w0.bytes() + seq![0x7bu8] + entries_out(next, json, d, mx)->Ok_0);
            } else {
                assert(w->Msgpack_0.bytes() =~= w0->Msgpack_0.bytes() + enc_container_header(n as int, true) + entries_out(next, json, d, mx)->Ok_0);
            }
        }
    }
    proof {
        assert(entries@.subrange(0, n as int) =~= entries@);
    }
    let ghost body = entries_out(entries@, json, d, mx)->Ok_0;
    proof {
        if json && n > 0 {
            assert(body.len() > 0 && body.last() == 0x2c);
        }
        if json && n == 0 {
            assert(body =~= Seq::<u8>::empty());
        }
    }
    w.end_map();
    proof {
        if json {
            assert(w.bytes() =~= w0.bytes() + wrap_json(body, 0x7b, 0x7d));
        } else {
            assert(w->Msgpack_0.bytes() =~= w0->Msgpack_0.bytes() + (enc_container_header(n as int, true) + body));
            assert(w->Msgpack_0.open_containers() =~= w0->Msgpack_0.open_containers());
        }
    }
    Ok(())
}

/// Writes `v` in the writer's format. The value takes one level of `ctx`
/// while it is written, and each value nested in it one more; the context
/// is as before afterwards, whatever the outcome. Stops at the first value
/// the format cannot hold.
pub fn write_any(v: &AnyValue, w: &mut Writer, ctx: &mut Context) -> (r: Result<(), AnyWriteError>)
    requires
        old(w).wf(),
        old(ctx).wf(),
        fits(*v),
        room(*old(w), 0, *old(ctx)),
    ensures
        same_context(*final(ctx), *old(ctx)),
        final(w).wf(),
        (*final(w) is Json) == (*old(w) is Json),
        match any_out(*v, *old(w) is Json, old(ctx).depth(), old(ctx).max_depth()) {
            Ok(b) => r is Ok && final(w).appended(old(w), b, b),
            Err(e) => r == Err::<(), AnyWriteError>(e),
        },
    decreases v,
{
    let ghost c0 = *ctx;
    let guard = match ctx.enter_depth() {
        Ok(g) => g,
        Err(e) => {
            return Err(AnyWriteError::TooDeep(e));
        },
    };
    let r = match v {
        AnyValue::Null => {
            w.write_null();
            Ok(())
        },
        AnyValue::Bool(b) => {
            w.write_bool(*b);
            Ok(())
        },
        AnyValue::Int(i) => {
            w.write_i64(*i);
            Ok(())
        },
        AnyValue::BigInt(s) => match w.write_big_int(s.as_str()) {
            Ok(()) => Ok(()),
            Err(_) => Err(AnyWriteError::IntegerOutOfRange),
        },
        AnyValue::Float(f) => match w.write_f64_parts(f.finite, f.text.as_str(), f.bits) {
            Ok(()) => Ok(()),
            Err(_) => Err(AnyWriteError::NotFinite),
        },
        AnyValue::Str(s) => {
            w.write_str(s.as_str());
            Ok(())
        },
        AnyValue::Bytes(b) => match w.write_bytes(b.as_slice()) {
            Ok(()) => Ok(()),
            Err(_) => Err(AnyWriteError::BytesNotSupported),
        },
        AnyValue::List(items) => write_items(items, w, ctx),
        AnyValue::Dict(entries) => write_entries(entries, w, ctx),
        AnyValue::Unsupported(name) => Err(AnyWriteError::NotSerializable(name.clone())),
    };
    ctx.leave_depth(guard);
    r
}

} // verus!
