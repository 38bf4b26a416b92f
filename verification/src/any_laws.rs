//! What the readers make of what the value writer writes: in either format
//! it is exactly one complete value.
use crate::any_value::{
    AnyValue, DictEntry, any_out, entries_fit, entries_out, fits, items_fit, items_out, key_out, scalar_out, sep,
    wrap_json,
};
use crate::decode_error::DecodeError;
use crate::msgpack_grammar::{
    be_bytes, enc_container_header, enc_int, enc_len_prefixed, enc_uint, read_u8_at, skip_step,
    skip_values, value_end,
};
use crate::msgpack_laws::{lemma_be_bytes_len, lemma_pow256, lemma_read_be};
use crate::msgpack_writer::{all_digits, decimal_value, digits_value};
use crate::escape::json_escape;
use crate::json_laws::{lemma_close_over_escaped, lemma_digits_value_of};
use crate::json_scan::{
    ScanError, cur_at, false_lit, is_number_byte, next_item_spec, next_key_spec, null_lit, number_run, skip_items_spec,
    skip_members_spec, skip_value_spec, starts_with_at, string_span, true_lit, ws_end,
};
use crate::json_writer::{json_key, json_string};
use crate::numtext::{decimal_digits, decimal_text};
use vstd::prelude::*;
use vstd::utf8::encode_utf8;

verus! {

/// `e` sits at `p` in `d`.
pub open spec fn placed(d: Seq<u8>, p: int, e: Seq<u8>) -> bool {
    &&& 0 <= p
    &&& p + e.len() <= d.len()
    &&& d.subrange(p, p + e.len()) == e
}

proof fn lemma_placed_byte(d: Seq<u8>, p: int, e: Seq<u8>, i: int)
    requires
        placed(d, p, e),
        0 <= i < e.len(),
    ensures
        d[p + i] == e[i],
{
    assert(d.subrange(p, p + e.len())[i] == d[p + i]);
}

/// A part of a placed sequence is placed too.
proof fn lemma_placed_part(d: Seq<u8>, p: int, e: Seq<u8>, a: int, b: int)
    requires
        placed(d, p, e),
        0 <= a <= b <= e.len(),
    ensures
        placed(d, p + a, e.subrange(a, b)),
{
    assert(d.subrange(p + a, p + b) =~= e.subrange(a, b)) by {
        assert forall|i: int| 0 <= i < b - a implies d.subrange(p + a, p + b)[i] == e.subrange(a, b)[i] by {
            lemma_placed_byte(d, p, e, a + i);
        }
    }
}

/// A payload with its length in front, as the writer frames text and bytes,
/// is one step of the reader with nothing nested.
proof fn lemma_len_prefixed_step(payload: Seq<u8>, m8: u8, m16: u8, m32: u8, d: Seq<u8>, p: int)
    requires
        payload.len() <= u32::MAX,
        (m8 == 0xc4 && m16 == 0xc5 && m32 == 0xc6) || (m8 == 0xd9 && m16 == 0xda && m32 == 0xdb),
        placed(d, p, enc_len_prefixed(payload, m8, m16, m32)),
        d.len() <= usize::MAX,
    ensures
        skip_step(d, p) == Ok::<(int, int), DecodeError>((p + enc_len_prefixed(payload, m8, m16, m32).len(), 0)),
{
    let e = enc_len_prefixed(payload, m8, m16, m32);
    let n = payload.len() as int;
    lemma_pow256();
    lemma_placed_byte(d, p, e, 0);
    if n <= 0xff {
        lemma_placed_byte(d, p, e, 1);
        assert(read_u8_at(d, p + 1) == Ok::<(int, int), DecodeError>((n, p + 2)));
    } else if n <= 0xffff {
        lemma_be_bytes_len(n, 2);
        lemma_placed_part(d, p, e, 1, 3);
        assert(e.subrange(1, 3) =~= be_bytes(n, 2));
        lemma_read_be(d, p + 1, n, 2);
    } else {
        lemma_be_bytes_len(n, 4);
        lemma_placed_part(d, p, e, 1, 5);
        assert(e.subrange(1, 5) =~= be_bytes(n, 4));
        lemma_read_be(d, p + 1, n, 4);
    }
}

/// An unsigned integer as the writer encodes it is one reader step.
proof fn lemma_uint_step(v: int, d: Seq<u8>, p: int)
    requires
        0 <= v <= u64::MAX,
        placed(d, p, enc_uint(v)),
        d.len() <= usize::MAX,
    ensures
        skip_step(d, p) == Ok::<(int, int), DecodeError>((p + enc_uint(v).len(), 0)),
{
    let e = enc_uint(v);
    lemma_placed_byte(d, p, e, 0);
    lemma_be_bytes_len(v, 2);
    lemma_be_bytes_len(v, 4);
    lemma_be_bytes_len(v, 8);
}

/// A signed integer as the writer encodes it is one reader step.
proof fn lemma_int_step(v: int, d: Seq<u8>, p: int)
    requires
        i64::MIN <= v <= i64::MAX,
        placed(d, p, enc_int(v)),
        d.len() <= usize::MAX,
    ensures
        skip_step(d, p) == Ok::<(int, int), DecodeError>((p + enc_int(v).len(), 0)),
{
    if v >= 0 {
        lemma_uint_step(v, d, p);
    } else {
        let e = enc_int(v);
        lemma_placed_byte(d, p, e, 0);
        lemma_be_bytes_len(v + 0x1_0000, 2);
        lemma_be_bytes_len(v + 0x1_0000_0000, 4);
        lemma_be_bytes_len(v + 0x1_0000_0000_0000_0000, 8);
    }
}

proof fn lemma_digits_nonneg(s: Seq<u8>)
    requires
        all_digits(s),
    ensures
        digits_value(s) >= 0,
    decreases s.len(),
{
    if s.len() > 0 {
        let f = s.drop_last();
        assert forall|i: int| 0 <= i < f.len() implies 0x30 <= #[trigger] f[i] <= 0x39 by {
            assert(f[i] == s[i]);
        }
        lemma_digits_nonneg(f);
        assert(0x30 <= s[s.len() - 1]);
    }
}

/// A decimal text denotes a non-negative integer.
proof fn lemma_decimal_nonneg(s: Seq<u8>)
    ensures
        decimal_value(s) matches Some(n) ==> n >= 0,
{
    let digits = if s.len() > 0 && s[0] == 0x2b {
        s.subrange(1, s.len() as int)
    } else {
        s
    };
    if digits.len() > 0 && all_digits(digits) {
        lemma_digits_nonneg(digits);
    }
}

/// A value that holds no other value, as the writer encodes it, is one
/// reader step with nothing nested.
proof fn lemma_scalar_step(v: AnyValue, d: Seq<u8>, p: int)
    requires
        !(v is List),
        !(v is Dict),
        fits(v),
        scalar_out(v, false) is Ok,
        placed(d, p, scalar_out(v, false)->Ok_0),
        d.len() <= usize::MAX,
    ensures
        skip_step(d, p) == Ok::<(int, int), DecodeError>((p + scalar_out(v, false)->Ok_0.len(), 0)),
{
    let e = scalar_out(v, false)->Ok_0;
    match v {
        AnyValue::Int(i) => lemma_int_step(i as int, d, p),
        AnyValue::BigInt(s) => {
            lemma_decimal_nonneg(encode_utf8(s@));
            lemma_uint_step(decimal_value(encode_utf8(s@))->0, d, p);
        },
        AnyValue::Float(f) => {
            lemma_placed_byte(d, p, e, 0);
            lemma_be_bytes_len(f.bits as int, 8);
        },
        AnyValue::Str(s) => {
            let b = encode_utf8(s@);
            if b.len() <= 31 {
                lemma_placed_byte(d, p, e, 0);
            } else {
                lemma_len_prefixed_step(b, 0xd9, 0xda, 0xdb, d, p);
            }
        },
        AnyValue::Bytes(b) => lemma_len_prefixed_step(b@, 0xc4, 0xc5, 0xc6, d, p),
        _ => lemma_placed_byte(d, p, e, 0),
    }
}

/// An exact container header is one reader step announcing its entries:
/// `n` elements, or `2n` keys and values.
proof fn lemma_header_step(n: int, is_map: bool, d: Seq<u8>, p: int)
    requires
        0 <= n <= u32::MAX,
        is_map ==> 2 * n <= usize::MAX,
        placed(d, p, enc_container_header(n, is_map)),
        d.len() <= usize::MAX,
    ensures
        skip_step(d, p) == Ok::<(int, int), DecodeError>(
            (p + enc_container_header(n, is_map).len(), if is_map { 2 * n } else { n }),
        ),
{
    let h = enc_container_header(n, is_map);
    lemma_pow256();
    lemma_placed_byte(d, p, h, 0);
    if n <= 0x0f {
    } else if n <= 0xffff {
        lemma_be_bytes_len(n, 2);
        lemma_placed_part(d, p, h, 1, 3);
        assert(h.subrange(1, 3) =~= be_bytes(n, 2));
        lemma_read_be(d, p + 1, n, 2);
    } else {
        lemma_be_bytes_len(n, 4);
        lemma_placed_part(d, p, h, 1, 5);
        assert(h.subrange(1, 5) =~= be_bytes(n, 4));
        lemma_read_be(d, p + 1, n, 4);
    }
}

/// Every value the writer writes takes at least one byte.
proof fn lemma_out_len(v: AnyValue, depth: nat, max: nat)
    requires
        any_out(v, false, depth, max) is Ok,
    ensures
        any_out(v, false, depth, max)->Ok_0.len() >= 1,
{
    match v {
        AnyValue::Int(i) => {
            lemma_be_bytes_len(i as int, 2);
        },
        AnyValue::Str(s) => {
            if encode_utf8(s@).len() > 31 {
                lemma_be_bytes_len(encode_utf8(s@).len() as int, 2);
            }
        },
        AnyValue::Float(f) => lemma_be_bytes_len(f.bits as int, 8),
        _ => {},
    }
}

/// A list's members take at least a byte each.
proof fn lemma_items_len(items: Seq<AnyValue>, depth: nat, max: nat)
    requires
        items_out(items, false, depth, max) is Ok,
    ensures
        items_out(items, false, depth, max)->Ok_0.len() >= items.len(),
    decreases items.len(),
{
    if items.len() > 0 {
        lemma_items_len(items.subrange(0, items.len() - 1), depth, max);
        lemma_out_len(items[items.len() - 1], depth, max);
    }
}

/// A map's entries take at least two bytes each, key and value.
proof fn lemma_entries_len(entries: Seq<DictEntry>, depth: nat, max: nat)
    requires
        entries_out(entries, false, depth, max) is Ok,
    ensures
        entries_out(entries, false, depth, max)->Ok_0.len() >= 2 * entries.len(),
    decreases entries.len(),
{
    if entries.len() > 0 {
        let last = entries[entries.len() - 1];
        lemma_entries_len(entries.subrange(0, entries.len() - 1), depth, max);
        lemma_out_len(last.value, depth, max);
        assert(key_out(last.key, false).len() >= 1);
    }
}

/// A value with nothing nested, stepped over with `k` more pending.
proof fn lemma_scalar_skips(v: AnyValue, d: Seq<u8>, p: int, k: int)
    requires
        !(v is List),
        !(v is Dict),
        fits(v),
        scalar_out(v, false) is Ok,
        placed(d, p, scalar_out(v, false)->Ok_0),
        d.len() <= usize::MAX,
        0 <= k <= d.len() - (p + scalar_out(v, false)->Ok_0.len()),
    ensures
        skip_values(d, p, 1 + k) == skip_values(d, p + scalar_out(v, false)->Ok_0.len(), k),
{
    lemma_scalar_step(v, d, p);
}

/// A list stepped over with `k` more pending: its header, then its members.
proof fn lemma_list_skips(items: Vec<AnyValue>, depth: nat, max: nat, d: Seq<u8>, p: int, k: int)
    requires
        items@.len() <= u32::MAX,
        items_fit(items@),
        items_out(items@, false, depth, max) is Ok,
        placed(
            d,
            p,
            enc_container_header(items@.len() as int, false) + items_out(items@, false, depth, max)->Ok_0,
        ),
        d.len() <= usize::MAX,
        0 <= k <= d.len() - (p + enc_container_header(items@.len() as int, false).len()
            + items_out(items@, false, depth, max)->Ok_0.len()),
    ensures
        skip_values(d, p, 1 + k) == skip_values(
            d,
            p + enc_container_header(items@.len() as int, false).len() + items_out(items@, false, depth, max)->Ok_0.len(),
            k,
        ),
    decreases items,
{
    let n = items@.len() as int;
    let h = enc_container_header(n, false);
    let body = items_out(items@, false, depth, max)->Ok_0;
    let b = h + body;
    lemma_placed_part(d, p, b, 0, h.len() as int);
    assert(b.subrange(0, h.len() as int) =~= h);
    lemma_placed_part(d, p, b, h.len() as int, b.len() as int);
    assert(b.subrange(h.len() as int, b.len() as int) =~= body);
    lemma_header_step(n, false, d, p);
    lemma_items_len(items@, depth, max);
    assert(skip_values(d, p, 1 + k) == skip_values(d, p + h.len(), n + k));
    lemma_items_skips(items@, depth, max, d, p + h.len(), k);
}

/// A map stepped over with `k` more pending: its header, then its entries.
proof fn lemma_dict_skips(entries: Vec<DictEntry>, depth: nat, max: nat, d: Seq<u8>, p: int, k: int)
    requires
        entries@.len() <= u32::MAX,
        entries_fit(entries@),
        entries_out(entries@, false, depth, max) is Ok,
        placed(
            d,
            p,
            enc_container_header(entries@.len() as int, true) + entries_out(entries@, false, depth, max)->Ok_0,
        ),
        d.len() <= usize::MAX,
        0 <= k <= d.len() - (p + enc_container_header(entries@.len() as int, true).len()
            + entries_out(entries@, false, depth, max)->Ok_0.len()),
    ensures
        skip_values(d, p, 1 + k) == skip_values(
            d,
            p + enc_container_header(entries@.len() as int, true).len() + entries_out(entries@, false, depth, max)->Ok_0.len(),
            k,
        ),
    decreases entries,
{
    let n = entries@.len() as int;
    let h = enc_container_header(n, true);
    let body = entries_out(entries@, false, depth, max)->Ok_0;
    let b = h + body;
    lemma_placed_part(d, p, b, 0, h.len() as int);
    assert(b.subrange(0, h.len() as int) =~= h);
    lemma_placed_part(d, p, b, h.len() as int, b.len() as int);
    assert(b.subrange(h.len() as int, b.len() as int) =~= body);
    lemma_entries_len(entries@, depth, max);
    lemma_header_step(n, true, d, p);
    assert(skip_values(d, p, 1 + k) == skip_values(d, p + h.len(), 2 * n + k));
    lemma_entries_skips(entries@, depth, max, d, p + h.len(), k);
}

/// Stepping over a written value, with `k` more values pending after it,
/// lands right after it with those `k` still pending.
proof fn lemma_value_skips(v: AnyValue, depth: nat, max: nat, d: Seq<u8>, p: int, k: int)
    requires
        fits(v),
        any_out(v, false, depth, max) is Ok,
        placed(d, p, any_out(v, false, depth, max)->Ok_0),
        d.len() <= usize::MAX,
        0 <= k <= d.len() - (p + any_out(v, false, depth, max)->Ok_0.len()),
    ensures
        skip_values(d, p, 1 + k) == skip_values(d, p + any_out(v, false, depth, max)->Ok_0.len(), k),
    decreases v,
{
    match v {
        AnyValue::List(items) => {
            assert(any_out(v, false, depth, max)->Ok_0 == enc_container_header(items@.len() as int, false)
                + items_out(items@, false, depth + 1, max)->Ok_0);
            lemma_list_skips(items, depth + 1, max, d, p, k);
        },
        AnyValue::Dict(entries) => {
            assert(any_out(v, false, depth, max)->Ok_0 == enc_container_header(entries@.len() as int, true)
                + entries_out(entries@, false, depth + 1, max)->Ok_0);
            lemma_dict_skips(entries, depth + 1, max, d, p, k);
        },
        _ => {
            lemma_scalar_skips(v, d, p, k);
        },
    }
}

/// Stepping over a list's written members, with `k` more values pending
/// after them, lands right after them with those `k` still pending.
proof fn lemma_items_skips(items: Seq<AnyValue>, depth: nat, max: nat, d: Seq<u8>, p: int, k: int)
    requires
        items_fit(items),
        items_out(items, false, depth, max) is Ok,
        placed(d, p, items_out(items, false, depth, max)->Ok_0),
        d.len() <= usize::MAX,
        0 <= k <= d.len() - (p + items_out(items, false, depth, max)->Ok_0.len()),
    ensures
        skip_values(d, p, items.len() + k) == skip_values(d, p + items_out(items, false, depth, max)->Ok_0.len(), k),
    decreases items,
{
    if items.len() > 0 {
        let front = items.subrange(0, items.len() - 1);
        let x = items[items.len() - 1];
        let body = items_out(items, false, depth, max)->Ok_0;
        let f = items_out(front, false, depth, max)->Ok_0;
        let xb = any_out(x, false, depth, max)->Ok_0;
        assert(body =~= f + xb);
        lemma_placed_part(d, p, body, 0, f.len() as int);
        assert(body.subrange(0, f.len() as int) =~= f);
        lemma_placed_part(d, p, body, f.len() as int, body.len() as int);
        assert(body.subrange(f.len() as int, body.len() as int) =~= xb);
        lemma_out_len(x, depth, max);
        lemma_items_skips(front, depth, max, d, p, 1 + k);
        assert(front.len() + (1 + k) == items.len() + k);
        lemma_value_skips(x, depth, max, d, p + f.len(), k);
    } else {
        assert(items.len() + k == k);
    }
}

/// A map key stepped over with `k` more pending.
proof fn lemma_key_skips(key: String, d: Seq<u8>, p: int, k: int)
    requires
        encode_utf8(key@).len() <= u32::MAX,
        placed(d, p, key_out(key, false)),
        d.len() <= usize::MAX,
        0 <= k <= d.len() - (p + key_out(key, false).len()),
    ensures
        skip_values(d, p, 1 + k) == skip_values(d, p + key_out(key, false).len(), k),
{
    let key_value = AnyValue::Str(key);
    assert(scalar_out(key_value, false) == Ok::<Seq<u8>, crate::any_value::AnyWriteError>(key_out(key, false)));
    lemma_scalar_skips(key_value, d, p, k);
}

/// Stepping over a map's written entries, with `k` more values pending after
/// them, lands right after them with those `k` still pending.
#[verifier::spinoff_prover]
#[verifier::rlimit(40)]
proof fn lemma_entries_skips(entries: Seq<DictEntry>, depth: nat, max: nat, d: Seq<u8>, p: int, k: int)
    requires
        entries_fit(entries),
        entries_out(entries, false, depth, max) is Ok,
        placed(d, p, entries_out(entries, false, depth, max)->Ok_0),
        d.len() <= usize::MAX,
        0 <= k <= d.len() - (p + entries_out(entries, false, depth, max)->Ok_0.len()),
    ensures
        skip_values(d, p, 2 * entries.len() + k) == skip_values(
            d,
            p + entries_out(entries, false, depth, max)->Ok_0.len(),
            k,
        ),
    decreases entries,
{
    if entries.len() > 0 {
        let front = entries.subrange(0, entries.len() - 1);
        let last = entries[entries.len() - 1];
        let body = entries_out(entries, false, depth, max)->Ok_0;
        let f = entries_out(front, false, depth, max)->Ok_0;
        let kb = key_out(last.key, false);
        let xb = any_out(last.value, false, depth, max)->Ok_0;
        assert(body =~= f + kb + xb);
        lemma_placed_part(d, p, body, 0, f.len() as int);
        assert(body.subrange(0, f.len() as int) =~= f);
        lemma_placed_part(d, p, body, f.len() as int, (f.len() + kb.len()) as int);
        assert(body.subrange(f.len() as int, (f.len() + kb.len()) as int) =~= kb);
        lemma_placed_part(d, p, body, (f.len() + kb.len()) as int, body.len() as int);
        assert(body.subrange((f.len() + kb.len()) as int, body.len() as int) =~= xb);
        lemma_out_len(last.value, depth, max);
        lemma_entries_skips(front, depth, max, d, p, 2 + k);
        assert(2 * front.len() + (2 + k) == 2 * entries.len() + k);
        lemma_key_skips(last.key, d, p + f.len(), 1 + k);
        lemma_value_skips(last.value, depth, max, d, p + f.len() + kb.len(), k);
    } else {
        assert(2 * entries.len() + k == k);
    }
}

/// What the value writer writes in MessagePack is exactly one complete
/// value for the reader: stepping over it from its first byte lands right
/// after its last, whatever follows.
pub proof fn lemma_msgpack_any_one_value(v: AnyValue, depth: nat, max: nat, rest: Seq<u8>)
    requires
        fits(v),
        any_out(v, false, depth, max) is Ok,
        any_out(v, false, depth, max)->Ok_0.len() + rest.len() <= usize::MAX,
    ensures
        value_end(any_out(v, false, depth, max)->Ok_0 + rest, 0) == Ok::<int, DecodeError>(
            any_out(v, false, depth, max)->Ok_0.len() as int,
        ),
{
    let b = any_out(v, false, depth, max)->Ok_0;
    let d = b + rest;
    assert(d.subrange(0, b.len() as int) =~= b);
    lemma_value_skips(v, depth, max, d, 0, 0);
}

// --- JSON -------------------------------------------------------------------

/// A number token as the scanner steps over it: a `-` or a digit first,
/// then only number bytes.
pub open spec fn number_token(t: Seq<u8>) -> bool {
    &&& t.len() > 0
    &&& (t[0] == 0x2d || (0x30 <= t[0] <= 0x39))
    &&& forall|i: int| 0 <= i < t.len() ==> is_number_byte(#[trigger] t[i])
}

/// Every number text a value carries (integers beyond `i64`, finite
/// floats) is a number token.
pub open spec fn texts_numeric(v: AnyValue) -> bool
    decreases v,
{
    match v {
        AnyValue::BigInt(s) => number_token(encode_utf8(s@)),
        AnyValue::Float(f) => f.finite ==> number_token(encode_utf8(f.text@)),
        AnyValue::List(items) => items_numeric(items@),
        AnyValue::Dict(entries) => entries_numeric(entries@),
        _ => true,
    }
}

pub open spec fn items_numeric(items: Seq<AnyValue>) -> bool
    decreases items,
{
    if items.len() == 0 {
        true
    } else {
        items_numeric(items.subrange(0, items.len() - 1)) && texts_numeric(items[items.len() - 1])
    }
}

pub open spec fn entries_numeric(entries: Seq<DictEntry>) -> bool
    decreases entries,
{
    if entries.len() == 0 {
        true
    } else {
        entries_numeric(entries.subrange(0, entries.len() - 1)) && texts_numeric(entries[entries.len() - 1].value)
    }
}

proof fn lemma_ws_stays(d: Seq<u8>, i: int)
    requires
        0 <= i,
        i == d.len() || (i < d.len() && d[i] > 0x20),
    ensures
        ws_end(d, i) == i,
{
}

proof fn lemma_number_run_to(d: Seq<u8>, i: int, end: int)
    requires
        0 <= i <= end <= d.len(),
        forall|j: int| i <= j < end ==> is_number_byte(#[trigger] d[j]),
        end == d.len() || !is_number_byte(d[end]),
    ensures
        number_run(d, i) == end,
    decreases end - i,
{
    if i < end {
        lemma_number_run_to(d, i + 1, end);
    }
}

/// The decimal text of an integer is a number token.
proof fn lemma_decimal_number_token(v: int)
    ensures
        number_token(decimal_text(v)),
{
    let mag: nat = if v < 0 { (-v) as nat } else { v as nat };
    lemma_digits_value_of(mag);
    let t = decimal_text(v);
    let dg = decimal_digits(mag);
    if v < 0 {
        assert forall|i: int| 0 <= i < t.len() implies is_number_byte(#[trigger] t[i]) by {
            if i > 0 {
                assert(t[i] == dg[i - 1]);
            }
        }
    } else {
        assert forall|i: int| 0 <= i < t.len() implies is_number_byte(#[trigger] t[i]) by {
            assert(t[i] == dg[i]);
        }
    }
}

/// A number token in place is stepped over whole when no number byte
/// follows it.
proof fn lemma_number_skips(t: Seq<u8>, d: Seq<u8>, p: int, sd: int)
    requires
        number_token(t),
        placed(d, p, t),
        p + t.len() == d.len() || !is_number_byte(d[p + t.len()]),
        0 <= sd <= 64,
    ensures
        skip_value_spec(d, p, sd) == Ok::<int, ScanError>(p + t.len()),
{
    lemma_placed_byte(d, p, t, 0);
    assert forall|j: int| p + 1 <= j < p + t.len() implies is_number_byte(#[trigger] d[j]) by {
        lemma_placed_byte(d, p, t, j - p);
    }
    lemma_number_run_to(d, p + 1, p + t.len());
}

/// A JSON string in place: its contents start right after the opening
/// quote and close at its last byte.
proof fn lemma_string_span_of(x: Seq<u8>, d: Seq<u8>, p: int)
    requires
        placed(d, p, json_string(x)),
    ensures
        string_span(d, p) == Ok::<(int, int), ScanError>((p + 1, p + 1 + json_escape(x).len())),
        json_string(x).len() == json_escape(x).len() + 2,
        cur_at(d, p) == 0x22,
{
    let js = json_string(x);
    let e = json_escape(x);
    lemma_placed_byte(d, p, js, 0);
    lemma_placed_part(d, p, js, 1, 1 + e.len() as int);
    assert(js.subrange(1, 1 + e.len() as int) =~= e);
    lemma_close_over_escaped(d, p + 1, x);
    lemma_placed_byte(d, p, js, 1 + e.len() as int);
}

/// What a written value begins with: never blank, never a closing bracket
/// or a comma.
proof fn lemma_json_first_byte(v: AnyValue, depth: nat, max: nat)
    requires
        texts_numeric(v),
        any_out(v, true, depth, max) is Ok,
    ensures
        ({
            let b = any_out(v, true, depth, max)->Ok_0;
            &&& b.len() >= 1
            &&& b[0] > 0x20
            &&& b[0] != 0x5d && b[0] != 0x7d && b[0] != 0x2c
        }),
{
    match v {
        AnyValue::Int(i) => lemma_decimal_number_token(i as int),
        _ => {},
    }
}

/// A value with nothing nested, stepped over by the scanner.
proof fn lemma_json_scalar_skips(v: AnyValue, d: Seq<u8>, p: int, sd: int)
    requires
        !(v is List),
        !(v is Dict),
        texts_numeric(v),
        scalar_out(v, true) is Ok,
        placed(d, p, scalar_out(v, true)->Ok_0),
        p + scalar_out(v, true)->Ok_0.len() == d.len() || !is_number_byte(d[p + scalar_out(v, true)->Ok_0.len()]),
        0 <= sd <= 64,
    ensures
        skip_value_spec(d, p, sd) == Ok::<int, ScanError>(p + scalar_out(v, true)->Ok_0.len()),
{
    let b = scalar_out(v, true)->Ok_0;
    match v {
        AnyValue::Null => {
            lemma_placed_byte(d, p, b, 0);
            assert(starts_with_at(d, p, null_lit()));
        },
        AnyValue::Bool(x) => {
            lemma_placed_byte(d, p, b, 0);
            if x {
                assert(starts_with_at(d, p, true_lit()));
            } else {
                lemma_placed_byte(d, p, b, 1);
                assert(!starts_with_at(d, p, true_lit()));
                assert(starts_with_at(d, p, false_lit()));
            }
        },
        AnyValue::Int(i) => {
            lemma_decimal_number_token(i as int);
            lemma_number_skips(b, d, p, sd);
        },
        AnyValue::BigInt(_) => lemma_number_skips(b, d, p, sd),
        AnyValue::Float(_) => lemma_number_skips(b, d, p, sd),
        AnyValue::Str(t) => {
            lemma_string_span_of(encode_utf8(t@), d, p);
        },
        _ => {},
    }
}

/// The members of a prefix of a list are written first, each with its
/// separator.
proof fn lemma_items_prefix(items: Seq<AnyValue>, k: int, json: bool, depth: nat, max: nat)
    requires
        items_out(items, json, depth, max) is Ok,
        0 <= k <= items.len(),
    ensures
        items_out(items.subrange(0, k), json, depth, max) is Ok,
        items_out(items.subrange(0, k), json, depth, max)->Ok_0.len() <= items_out(items, json, depth, max)->Ok_0.len(),
        items_out(items, json, depth, max)->Ok_0.subrange(0, items_out(items.subrange(0, k), json, depth, max)->Ok_0.len() as int)
            == items_out(items.subrange(0, k), json, depth, max)->Ok_0,
        k < items.len() ==> any_out(items[k], json, depth, max) is Ok && items_out(items.subrange(0, k + 1), json, depth, max)
            == Ok::<Seq<u8>, crate::any_value::AnyWriteError>(
            items_out(items.subrange(0, k), json, depth, max)->Ok_0 + any_out(items[k], json, depth, max)->Ok_0 + sep(json),
        ),
    decreases items.len(),
{
    let n = items.len();
    let b = items_out(items, json, depth, max)->Ok_0;
    if k == n {
        assert(items.subrange(0, k) =~= items);
        assert(b.subrange(0, b.len() as int) =~= b);
    } else {
        let front = items.subrange(0, n - 1);
        let f = items_out(front, json, depth, max)->Ok_0;
        assert(b == f + any_out(items[n - 1], json, depth, max)->Ok_0 + sep(json));
        lemma_items_prefix(front, k, json, depth, max);
        assert(front.subrange(0, k) =~= items.subrange(0, k));
        let fk = items_out(items.subrange(0, k), json, depth, max)->Ok_0;
        assert(b.subrange(0, fk.len() as int) =~= f.subrange(0, fk.len() as int));
        if k + 1 < n {
            assert(front.subrange(0, k + 1) =~= items.subrange(0, k + 1));
            assert(front[k] == items[k]);
        } else {
            assert(items.subrange(0, k + 1) =~= items);
        }
    }
}

proof fn lemma_entries_prefix(entries: Seq<DictEntry>, k: int, json: bool, depth: nat, max: nat)
    requires
        entries_out(entries, json, depth, max) is Ok,
        0 <= k <= entries.len(),
    ensures
        entries_out(entries.subrange(0, k), json, depth, max) is Ok,
        entries_out(entries.subrange(0, k), json, depth, max)->Ok_0.len() <= entries_out(entries, json, depth, max)->Ok_0.len(),
        entries_out(entries, json, depth, max)->Ok_0.subrange(0, entries_out(entries.subrange(0, k), json, depth, max)->Ok_0.len() as int)
            == entries_out(entries.subrange(0, k), json, depth, max)->Ok_0,
        k < entries.len() ==> any_out(entries[k].value, json, depth, max) is Ok && entries_out(entries.subrange(0, k + 1), json, depth, max)
            == Ok::<Seq<u8>, crate::any_value::AnyWriteError>(
            entries_out(entries.subrange(0, k), json, depth, max)->Ok_0 + key_out(entries[k].key, json)
                + any_out(entries[k].value, json, depth, max)->Ok_0 + sep(json),
        ),
    decreases entries.len(),
{
    let n = entries.len();
    let b = entries_out(entries, json, depth, max)->Ok_0;
    if k == n {
        assert(entries.subrange(0, k) =~= entries);
        assert(b.subrange(0, b.len() as int) =~= b);
    } else {
        let front = entries.subrange(0, n - 1);
        let f = entries_out(front, json, depth, max)->Ok_0;
        let last = entries[n - 1];
        assert(b == f + key_out(last.key, json) + any_out(last.value, json, depth, max)->Ok_0 + sep(json));
        lemma_entries_prefix(front, k, json, depth, max);
        assert(front.subrange(0, k) =~= entries.subrange(0, k));
        let fk = entries_out(entries.subrange(0, k), json, depth, max)->Ok_0;
        assert(b.subrange(0, fk.len() as int) =~= f.subrange(0, fk.len() as int));
        if k + 1 < n {
            assert(front.subrange(0, k + 1) =~= entries.subrange(0, k + 1));
            assert(front[k] == entries[k]);
        } else {
            assert(entries.subrange(0, k + 1) =~= entries);
        }
    }
}

/// Where the bytes of a JSON container sit: the opening bracket, the
/// members (the last comma dropped), the closing bracket.
proof fn lemma_wrap_at(b: Seq<u8>, open: u8, close: u8)
    requires
        b.len() > 0,
    ensures
        wrap_json(b, open, close).len() == b.len() + 1,
        wrap_json(b, open, close)[0] == open,
        wrap_json(b, open, close)[b.len() as int] == close,
        forall|i: int| 0 <= i < b.len() - 1 ==> wrap_json(b, open, close)[i + 1] == #[trigger] b[i],
{
}

/// Stepping over a written value with the scanner, at skip depth `sd`:
/// it is one value, ending right after its last byte.
proof fn lemma_json_value_skips(v: AnyValue, depth: nat, max: nat, d: Seq<u8>, p: int, sd: int)
    requires
        texts_numeric(v),
        any_out(v, true, depth, max) is Ok,
        placed(d, p, any_out(v, true, depth, max)->Ok_0),
        p + any_out(v, true, depth, max)->Ok_0.len() == d.len() || !is_number_byte(
            d[p + any_out(v, true, depth, max)->Ok_0.len()],
        ),
        0 <= sd,
        sd + max <= 65 + depth,
    ensures
        skip_value_spec(d, p, sd) == Ok::<int, ScanError>(p + any_out(v, true, depth, max)->Ok_0.len()),
    decreases v, 0int,
{
    match v {
        AnyValue::List(items) => {
            lemma_json_list_skips(items, depth + 1, max, d, p, sd);
        },
        AnyValue::Dict(entries) => {
            lemma_json_dict_skips(entries, depth + 1, max, d, p, sd);
        },
        _ => {
            lemma_json_scalar_skips(v, d, p, sd);
        },
    }
}

proof fn lemma_json_list_skips(items: Vec<AnyValue>, depth: nat, max: nat, d: Seq<u8>, p: int, sd: int)
    requires
        items_numeric(items@),
        depth <= max,
        items_out(items@, true, depth, max) is Ok,
        placed(d, p, wrap_json(items_out(items@, true, depth, max)->Ok_0, 0x5b, 0x5d)),
        0 <= sd,
        sd + 1 + max <= 65 + depth,
    ensures
        skip_value_spec(d, p, sd) == Ok::<int, ScanError>(
            p + wrap_json(items_out(items@, true, depth, max)->Ok_0, 0x5b, 0x5d).len(),
        ),
    decreases items, 0int,
{
    let w = wrap_json(items_out(items@, true, depth, max)->Ok_0, 0x5b, 0x5d);
    lemma_placed_byte(d, p, w, 0);
    lemma_json_items_from(items@, depth, max, d, p, sd, 0);
    assert(items@.subrange(0, 0) =~= Seq::<AnyValue>::empty());
}

/// Where member `k` of a written list sits: the scanner's step before it
/// lands on its first byte, and what follows it cannot continue a number.
#[verifier::spinoff_prover]
#[verifier::rlimit(40)]
proof fn lemma_json_item_place(items: Seq<AnyValue>, depth: nat, max: nat, d: Seq<u8>, p: int, k: int)
    requires
        items_out(items, true, depth, max) is Ok,
        placed(d, p, wrap_json(items_out(items, true, depth, max)->Ok_0, 0x5b, 0x5d)),
        0 <= k < items.len(),
        texts_numeric(items[k]),
    ensures
        any_out(items[k], true, depth, max) is Ok,
        items_out(items.subrange(0, k), true, depth, max) is Ok,
        items_out(items.subrange(0, k + 1), true, depth, max) is Ok,
        ({
            let fk = items_out(items.subrange(0, k), true, depth, max)->Ok_0;
            let x = any_out(items[k], true, depth, max)->Ok_0;
            let q = p + 1 + fk.len();
            &&& placed(d, q, x)
            &&& q + x.len() < d.len()
            &&& !is_number_byte(d[q + x.len()])
            &&& next_item_spec(d, if k == 0 { p + 1 } else { p + fk.len() }, k == 0) == Ok::<(bool, int), ScanError>((true, q))
            &&& p + items_out(items.subrange(0, k + 1), true, depth, max)->Ok_0.len() == q + x.len()
        }),
{
    let n = items.len();
    let b = items_out(items, true, depth, max)->Ok_0;
    let w = wrap_json(b, 0x5b, 0x5d);
    lemma_items_prefix(items, k, true, depth, max);
    lemma_items_prefix(items, k + 1, true, depth, max);
    lemma_wrap_at(b, 0x5b, 0x5d);
    let fk = items_out(items.subrange(0, k), true, depth, max)->Ok_0;
    let x = any_out(items[k], true, depth, max)->Ok_0;
    let fk1 = items_out(items.subrange(0, k + 1), true, depth, max)->Ok_0;
    let lf: int = fk.len() as int;
    let lx: int = x.len() as int;
    let lf1: int = fk1.len() as int;
    assert(fk1 == fk + x + seq![0x2cu8]);
    let q = p + 1 + lf;
    lemma_json_first_byte(items[k], depth, max);
    assert forall|j: int| 0 <= j < lx implies w[1 + lf + j] == x[j] by {
        assert(b[lf + j] == fk1[lf + j]);
    }
    lemma_placed_part(d, p, w, 1 + lf, 1 + lf + lx);
    assert(w.subrange(1 + lf, 1 + lf + lx) =~= x);
    let after = 1 + lf + lx;
    if k + 1 < n {
        lemma_items_prefix(items, k + 2, true, depth, max);
        assert(b[lf1 - 1] == fk1[lf1 - 1]);
        assert(w[after] == 0x2c);
    } else {
        assert(items.subrange(0, k + 1) =~= items);
        assert(w[after] == 0x5d);
    }
    lemma_placed_byte(d, p, w, after);
    lemma_placed_byte(d, p, w, 1 + lf);
    if k == 0 {
        assert(fk =~= Seq::<u8>::empty());
        lemma_ws_stays(d, p + 1);
    } else {
        lemma_items_prefix(items, k - 1, true, depth, max);
        assert(lf >= 1 && fk[lf - 1] == 0x2c);
        assert(b[lf - 1] == fk[lf - 1]);
        lemma_placed_byte(d, p, w, lf);
        lemma_ws_stays(d, p + lf);
        lemma_ws_stays(d, q);
    }
}

/// From the position before member `k` of a written list (after `[` for
/// the first, on the comma before it otherwise) the scanner steps over the
/// rest of the list.
proof fn lemma_json_items_from(items: Seq<AnyValue>, depth: nat, max: nat, d: Seq<u8>, p: int, sd: int, k: int)
    requires
        items_numeric(items),
        items_out(items, true, depth, max) is Ok,
        placed(d, p, wrap_json(items_out(items, true, depth, max)->Ok_0, 0x5b, 0x5d)),
        0 <= sd,
        sd + 1 + max <= 65 + depth,
        0 <= k <= items.len(),
    ensures
        skip_items_spec(
            d,
            if k == 0 { p + 1 } else { p + items_out(items.subrange(0, k), true, depth, max)->Ok_0.len() },
            sd,
            k == 0,
        ) == Ok::<int, ScanError>(p + wrap_json(items_out(items, true, depth, max)->Ok_0, 0x5b, 0x5d).len()),
    decreases items, items.len() - k,
{
    let n = items.len();
    let b = items_out(items, true, depth, max)->Ok_0;
    let w = wrap_json(b, 0x5b, 0x5d);
    lemma_items_prefix(items, k, true, depth, max);
    let fk = items_out(items.subrange(0, k), true, depth, max)->Ok_0;
    let pos = if k == 0 { p + 1 } else { p + fk.len() };
    if n == 0 {
        assert(b =~= Seq::<u8>::empty());
        assert(w == seq![0x5bu8, 0x5du8]);
        lemma_placed_byte(d, p, w, 1);
        lemma_ws_stays(d, p + 1);
        assert(next_item_spec(d, p + 1, true) == Ok::<(bool, int), ScanError>((false, p + 2)));
    } else if k == n {
        assert(items.subrange(0, k) =~= items);
        lemma_wrap_at(b, 0x5b, 0x5d);
        lemma_placed_byte(d, p, w, b.len() as int);
        lemma_ws_stays(d, p + b.len());
        assert(next_item_spec(d, pos, false) == Ok::<(bool, int), ScanError>((false, p + b.len() + 1)));
    } else {
        lemma_items_numeric_at(items, k);
        lemma_json_item_place(items, depth, max, d, p, k);
        let x = any_out(items[k], true, depth, max)->Ok_0;
        let q = p + 1 + fk.len();
        lemma_json_value_skips(items[k], depth, max, d, q, sd + 1);
        lemma_json_items_from(items, depth, max, d, p, sd, k + 1);
    }
}

proof fn lemma_items_numeric_at(items: Seq<AnyValue>, k: int)
    requires
        items_numeric(items),
        0 <= k < items.len(),
    ensures
        texts_numeric(items[k]),
    decreases items.len(),
{
    if k < items.len() - 1 {
        let front = items.subrange(0, items.len() - 1);
        lemma_items_numeric_at(front, k);
        assert(front[k] == items[k]);
    }
}

proof fn lemma_entries_numeric_at(entries: Seq<DictEntry>, k: int)
    requires
        entries_numeric(entries),
        0 <= k < entries.len(),
    ensures
        texts_numeric(entries[k].value),
    decreases entries.len(),
{
    if k < entries.len() - 1 {
        let front = entries.subrange(0, entries.len() - 1);
        lemma_entries_numeric_at(front, k);
        assert(front[k] == entries[k]);
    }
}

proof fn lemma_json_dict_skips(entries: Vec<DictEntry>, depth: nat, max: nat, d: Seq<u8>, p: int, sd: int)
    requires
        entries_numeric(entries@),
        depth <= max,
        entries_out(entries@, true, depth, max) is Ok,
        placed(d, p, wrap_json(entries_out(entries@, true, depth, max)->Ok_0, 0x7b, 0x7d)),
        0 <= sd,
        sd + 1 + max <= 65 + depth,
    ensures
        skip_value_spec(d, p, sd) == Ok::<int, ScanError>(
            p + wrap_json(entries_out(entries@, true, depth, max)->Ok_0, 0x7b, 0x7d).len(),
        ),
    decreases entries, 0int,
{
    let w = wrap_json(entries_out(entries@, true, depth, max)->Ok_0, 0x7b, 0x7d);
    lemma_placed_byte(d, p, w, 0);
    lemma_json_entries_from(entries@, depth, max, d, p, sd, 0);
    assert(entries@.subrange(0, 0) =~= Seq::<DictEntry>::empty());
}

/// Where entry `k` of a written map sits: the scanner's step before it
/// reads its key and lands on the first byte of its value, and what follows
/// the value cannot continue a number.
#[verifier::spinoff_prover]
#[verifier::rlimit(60)]
proof fn lemma_json_entry_place(entries: Seq<DictEntry>, depth: nat, max: nat, d: Seq<u8>, p: int, k: int)
    requires
        entries_out(entries, true, depth, max) is Ok,
        placed(d, p, wrap_json(entries_out(entries, true, depth, max)->Ok_0, 0x7b, 0x7d)),
        0 <= k < entries.len(),
        texts_numeric(entries[k].value),
    ensures
        any_out(entries[k].value, true, depth, max) is Ok,
        entries_out(entries.subrange(0, k), true, depth, max) is Ok,
        entries_out(entries.subrange(0, k + 1), true, depth, max) is Ok,
        ({
            let fk = entries_out(entries.subrange(0, k), true, depth, max)->Ok_0;
            let x = any_out(entries[k].value, true, depth, max)->Ok_0;
            let kb = encode_utf8(entries[k].key@);
            let q = p + 1 + fk.len();
            let pv = q + json_key(kb).len();
            &&& placed(d, pv, x)
            &&& pv + x.len() < d.len()
            &&& !is_number_byte(d[pv + x.len()])
            &&& next_key_spec(d, if k == 0 { p + 1 } else { p + fk.len() }, k == 0) == Ok::<(Option<(int, int)>, int), ScanError>(
                (Some((q + 1, q + 1 + json_escape(kb).len())), pv),
            )
            &&& p + entries_out(entries.subrange(0, k + 1), true, depth, max)->Ok_0.len() == pv + x.len()
        }),
{
    let n = entries.len();
    let b = entries_out(entries, true, depth, max)->Ok_0;
    let w = wrap_json(b, 0x7b, 0x7d);
    lemma_entries_prefix(entries, k, true, depth, max);
    lemma_entries_prefix(entries, k + 1, true, depth, max);
    lemma_wrap_at(b, 0x7b, 0x7d);
    let fk = entries_out(entries.subrange(0, k), true, depth, max)->Ok_0;
    let kb = encode_utf8(entries[k].key@);
    let key = json_key(kb);
    let js = json_string(kb);
    let x = any_out(entries[k].value, true, depth, max)->Ok_0;
    let fk1 = entries_out(entries.subrange(0, k + 1), true, depth, max)->Ok_0;
    let lf: int = fk.len() as int;
    let lkey: int = key.len() as int;
    let ljs: int = js.len() as int;
    let lx: int = x.len() as int;
    let lf1: int = fk1.len() as int;
    assert(key == js + seq![0x3au8]);
    assert(fk1 == fk + key + x + seq![0x2cu8]);
    let q = p + 1 + lf;
    let pv = q + lkey;
    lemma_json_first_byte(entries[k].value, depth, max);
    assert forall|j: int| 0 <= j < ljs implies w[1 + lf + j] == js[j] by {
        assert(b[lf + j] == fk1[lf + j]);
    }
    lemma_placed_part(d, p, w, 1 + lf, 1 + lf + ljs);
    assert(w.subrange(1 + lf, 1 + lf + ljs) =~= js);
    lemma_string_span_of(kb, d, q);
    assert(b[lf + ljs] == fk1[lf + ljs]);
    lemma_placed_byte(d, p, w, 1 + lf + ljs);
    assert forall|j: int| 0 <= j < lx implies w[1 + lf + lkey + j] == x[j] by {
        assert(b[lf + lkey + j] == fk1[lf + lkey + j]);
    }
    lemma_placed_part(d, p, w, 1 + lf + lkey, 1 + lf + lkey + lx);
    assert(w.subrange(1 + lf + lkey, 1 + lf + lkey + lx) =~= x);
    lemma_placed_byte(d, p, w, 1 + lf + lkey);
    let after = 1 + lf + lkey + lx;
    if k + 1 < n {
        lemma_entries_prefix(entries, k + 2, true, depth, max);
        assert(b[lf1 - 1] == fk1[lf1 - 1]);
        assert(w[after] == 0x2c);
    } else {
        assert(entries.subrange(0, k + 1) =~= entries);
        assert(w[after] == 0x7d);
    }
    lemma_placed_byte(d, p, w, after);
    let e = q + 1 + json_escape(kb).len();
    lemma_ws_stays(d, e + 1);
    lemma_ws_stays(d, pv);
    if k == 0 {
        assert(fk =~= Seq::<u8>::empty());
        lemma_ws_stays(d, p + 1);
    } else {
        lemma_entries_prefix(entries, k - 1, true, depth, max);
        assert(lf >= 1 && fk[lf - 1] == 0x2c);
        assert(b[lf - 1] == fk[lf - 1]);
        lemma_placed_byte(d, p, w, lf);
        lemma_ws_stays(d, p + lf);
        lemma_ws_stays(d, q);
    }
}

/// From the position before entry `k` of a written map (after `{` for the
/// first, on the comma before it otherwise) the scanner steps over the rest
/// of the map.
proof fn lemma_json_entries_from(entries: Seq<DictEntry>, depth: nat, max: nat, d: Seq<u8>, p: int, sd: int, k: int)
    requires
        entries_numeric(entries),
        entries_out(entries, true, depth, max) is Ok,
        placed(d, p, wrap_json(entries_out(entries, true, depth, max)->Ok_0, 0x7b, 0x7d)),
        0 <= sd,
        sd + 1 + max <= 65 + depth,
        0 <= k <= entries.len(),
    ensures
        skip_members_spec(
            d,
            if k == 0 { p + 1 } else { p + entries_out(entries.subrange(0, k), true, depth, max)->Ok_0.len() },
            sd,
            k == 0,
        ) == Ok::<int, ScanError>(p + wrap_json(entries_out(entries, true, depth, max)->Ok_0, 0x7b, 0x7d).len()),
    decreases entries, entries.len() - k,
{
    let n = entries.len();
    let b = entries_out(entries, true, depth, max)->Ok_0;
    let w = wrap_json(b, 0x7b, 0x7d);
    lemma_entries_prefix(entries, k, true, depth, max);
    let fk = entries_out(entries.subrange(0, k), true, depth, max)->Ok_0;
    let pos = if k == 0 { p + 1 } else { p + fk.len() };
    if n == 0 {
        assert(b =~= Seq::<u8>::empty());
        assert(w == seq![0x7bu8, 0x7du8]);
        lemma_placed_byte(d, p, w, 1);
        lemma_ws_stays(d, p + 1);
        assert(next_key_spec(d, p + 1, true) == Ok::<(Option<(int, int)>, int), ScanError>((None, p + 2)));
    } else if k == n {
        assert(entries.subrange(0, k) =~= entries);
        lemma_wrap_at(b, 0x7b, 0x7d);
        lemma_placed_byte(d, p, w, b.len() as int);
        lemma_ws_stays(d, p + b.len());
        assert(next_key_spec(d, pos, false) == Ok::<(Option<(int, int)>, int), ScanError>((None, p + b.len() + 1)));
    } else {
        lemma_entries_numeric_at(entries, k);
        lemma_json_entry_place(entries, depth, max, d, p, k);
        let kb = encode_utf8(entries[k].key@);
        let pv = p + 1 + fk.len() + json_key(kb).len();
        lemma_json_value_skips(entries[k].value, depth, max, d, pv, sd + 1);
        lemma_json_entries_from(entries, depth, max, d, p, sd, k + 1);
    }
}

/// What the value writer writes in JSON is exactly one complete value for
/// the scanner, when its number texts are number tokens and the depth
/// budget stays within the scanner's nesting limit: stepping over it from
/// its first byte lands right after its last, whatever follows that does
/// not continue a number.
pub proof fn lemma_json_any_one_value(v: AnyValue, max: nat, rest: Seq<u8>)
    requires
        texts_numeric(v),
        max <= 65,
        any_out(v, true, 0, max) is Ok,
        rest.len() > 0 ==> !is_number_byte(rest[0]),
    ensures
        skip_value_spec(any_out(v, true, 0, max)->Ok_0 + rest, 0, 0) == Ok::<int, ScanError>(
            any_out(v, true, 0, max)->Ok_0.len() as int,
        ),
{
    let b = any_out(v, true, 0, max)->Ok_0;
    let d = b + rest;
    assert(d.subrange(0, b.len() as int) =~= b);
    if rest.len() > 0 {
        assert(d[b.len() as int] == rest[0]);
    }
    lemma_json_value_skips(v, 0, max, d, 0, 0);
}

} // verus!
