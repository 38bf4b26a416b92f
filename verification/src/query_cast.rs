//! Query-string values: every value of a query string is a text (or a list
//! of texts, for a field that takes several), so where the schema asks for
//! a number or a flag, a text that spells one is read as it before the
//! value is loaded.
use crate::any_value::AnyValue;
use crate::loader::{ChoiceKey, Schema};
use crate::numtext::{decimal_chars, format_i64};
use crate::text::text_eq;
use crate::validators::{str_as_bool, str_as_bool_spec};
use vstd::prelude::*;
use vstd::string::StringSliceAdditionalSpecFns;
use vstd::utf8::encode_utf8;

verus! {

pub open spec fn is_digit(c: u8) -> bool {
    0x30 <= c <= 0x39
}

pub open spec fn all_digits(s: Seq<u8>) -> bool {
    forall|i: int| 0 <= i < s.len() ==> is_digit(#[trigger] s[i])
}

/// The number that a run of decimal digits spells.
pub open spec fn digits_value(s: Seq<u8>) -> int
    decreases s.len(),
{
    if s.len() == 0 {
        0
    } else {
        digits_value(s.drop_last()) * 10 + (s.last() - 0x30)
    }
}

/// The `i64` that a text spells in decimal: an optional `+` or `-`, then
/// one or more digits, and a value in range; `None` for any other text.
pub open spec fn int_text_value(s: Seq<u8>) -> Option<i64> {
    let signed = s.len() > 0 && (s[0] == 0x2bu8 || s[0] == 0x2du8);
    let body = if signed { s.drop_first() } else { s };
    let v = if signed && s[0] == 0x2du8 { -digits_value(body) } else { digits_value(body) };
    if body.len() > 0 && all_digits(body) && i64::MIN <= v <= i64::MAX {
        Some(v as i64)
    } else {
        None
    }
}

/// Reads a decimal `i64` as `str::parse` does.
pub fn parse_i64(s: &str) -> (r: Option<i64>)
    ensures
        r == int_text_value(s.spec_bytes()),
{
    let b = s.as_bytes();
    let n = b.len();
    let ghost sb = b@;
    let mut i: usize = 0;
    let mut neg = false;
    if n > 0 && (b[0] == 0x2b || b[0] == 0x2d) {
        neg = b[0] == 0x2d;
        i = 1;
    }
    let start = i;
    let ghost body = sb.subrange(start as int, n as int);
    proof {
        if start == 0 {
            assert(body =~= sb);
        } else {
            assert(body =~= sb.drop_first());
        }
    }
    if start == n {
        return None;
    }
    let mut acc: u128 = 0;
    let mut over = false;
    while i < n
        invariant
            start <= i <= n,
            n == sb.len(),
            b@ == sb,
            sb == s.spec_bytes(),
            body == sb.subrange(start as int, n as int),
            body == (if n > 0 && (sb[0] == 0x2bu8 || sb[0] == 0x2du8) { sb.drop_first() } else { sb }),
            neg == (n > 0 && sb[0] == 0x2du8),
            all_digits(sb.subrange(start as int, i as int)),
            !over ==> acc == digits_value(sb.subrange(start as int, i as int)) && acc <= 0x8000_0000_0000_0000,
            over ==> digits_value(sb.subrange(start as int, i as int)) > 0x8000_0000_0000_0000,
        decreases n - i,
    {
        let c = b[i];
        if c < 0x30 || c > 0x39 {
            proof {
                assert(body[i - start] == sb[i as int]);
                assert(!is_digit(body[i - start]));
            }
            return None;
        }
        let ghost prev = sb.subrange(start as int, i as int);
        let ghost next = sb.subrange(start as int, i as int + 1);
        proof {
            assert(next.drop_last() =~= prev);
            assert(all_digits(next)) by {
                assert forall|j: int| 0 <= j < next.len() implies is_digit(#[trigger] next[j]) by {
                    if j < prev.len() {
                        assert(next[j] == prev[j]);
                    }
                }
            }
            assert(next.last() == c);
        }
        if !over {
            let v = acc * 10 + (c - 0x30) as u128;
            if v > 0x8000_0000_0000_0000 {
                over = true;
            } else {
                acc = v;
            }
        }
        i += 1;
    }
    proof {
        assert(sb.subrange(start as int, n as int) =~= body);
    }
    if over {
        None
    } else if neg {
        Some((0 - (acc as i128)) as i64)
    } else if acc <= 0x7fff_ffff_ffff_ffff {
        Some(acc as i64)
    } else {
        None
    }
}

/// What a query-string text becomes where `s` is its type: the number or
/// flag it spells where `s` asks for one (through `Optional`); `None` where
/// it stays a text.
pub open spec fn text_cast(s: Schema, t: Seq<char>) -> Option<AnyValue>
    decreases s,
{
    match s {
        Schema::Integer(_) => match int_text_value(encode_utf8(t)) {
            Some(i) => Some(AnyValue::Int(i)),
            None => None,
        },
        Schema::Boolean => match str_as_bool_spec(encode_utf8(t)) {
            Some(b) => Some(AnyValue::Bool(b)),
            None => None,
        },
        Schema::Optional(inner) => text_cast(*inner, t),
        Schema::Choice(items) => if has_text(items@, t) {
            None
        } else {
            match int_spelled(items@, t) {
                Some(i) => Some(AnyValue::Int(i)),
                None => None,
            }
        },
        _ => None,
    }
}

/// Choice `c` is the text `t`.
pub open spec fn is_text(c: ChoiceKey, t: Seq<char>) -> bool {
    match c {
        ChoiceKey::Str(x) => x@ == t,
        _ => false,
    }
}

/// One of `items` is the text `t`.
pub open spec fn has_text(items: Seq<ChoiceKey>, t: Seq<char>) -> bool {
    exists|k: int| 0 <= k < items.len() && is_text(#[trigger] items[k], t)
}

/// The integer among `items` (the last, should two be equal) whose decimal
/// text is `t`: a choice of integers also takes its value's text.
pub open spec fn int_spelled(items: Seq<ChoiceKey>, t: Seq<char>) -> Option<i64>
    decreases items.len(),
{
    if items.len() == 0 {
        None
    } else {
        match items.last() {
            ChoiceKey::Int(i) => if decimal_chars(i as int) == t {
                Some(i)
            } else {
                int_spelled(items.drop_last(), t)
            },
            _ => int_spelled(items.drop_last(), t),
        }
    }
}

fn cast_choice_text(items: &Vec<ChoiceKey>, t: &String) -> (r: Option<AnyValue>)
    ensures
        r == (if has_text(items@, t@) {
            None
        } else {
            match int_spelled(items@, t@) {
                Some(i) => Some(AnyValue::Int(i)),
                None => None,
            }
        }),
{
    let mut k: usize = 0;
    while k < items.len()
        invariant
            k <= items@.len(),
            forall|j: int| 0 <= j < k ==> !is_text(#[trigger] items@[j], t@),
        decreases items@.len() - k,
    {
        if let ChoiceKey::Str(x) = &items[k] {
            if text_eq(x.as_str(), t.as_str()) {
                return None;
            }
        }
        k += 1;
    }
    assert(!has_text(items@, t@));
    let mut i = items.len();
    assert(items@.subrange(0, i as int) =~= items@);
    while i > 0
        invariant
            i <= items@.len(),
            !has_text(items@, t@),
            int_spelled(items@, t@) == int_spelled(items@.subrange(0, i as int), t@),
        decreases i,
    {
        assert(items@.subrange(0, i as int).drop_last() =~= items@.subrange(0, i - 1));
        if let ChoiceKey::Int(v) = &items[i - 1] {
            let d = format_i64(*v);
            if text_eq(d.as_str(), t.as_str()) {
                return Some(AnyValue::Int(*v));
            }
        }
        i -= 1;
    }
    None
}

/// What one query-string item becomes where `s` is its type.
pub open spec fn item_cast(s: Schema, v: AnyValue) -> AnyValue {
    match v {
        AnyValue::Str(t) => match text_cast(s, t@) {
            Some(c) => c,
            None => v,
        },
        _ => v,
    }
}

/// The field takes several values: a list or a tuple, also an optional one.
pub open spec fn is_seq(s: Schema) -> bool
    decreases s,
{
    match s {
        Schema::Array(_) => true,
        Schema::Tuple(_) => true,
        Schema::Optional(inner) => is_seq(*inner),
        _ => false,
    }
}

/// The type of value `k` of a field that takes several: a list's item
/// type, a tuple's type at `k` (none past its types).
pub open spec fn item_type(s: Schema, k: int) -> Option<Schema>
    decreases s,
{
    match s {
        Schema::Array(item) => Some(*item),
        Schema::Tuple(types) => if 0 <= k < types@.len() {
            Some(types@[k])
        } else {
            None
        },
        Schema::Optional(inner) => item_type(*inner, k),
        _ => None,
    }
}

/// Value `k` of a list read where `s` is the field's type.
pub open spec fn nth_cast(s: Schema, k: int, v: AnyValue) -> AnyValue {
    match item_type(s, k) {
        Some(t) => item_cast(t, v),
        None => v,
    }
}

/// `r` is query-string value `v` read where `s` is its field's type: a list
/// for a field that takes several values has each item read as its type;
/// any other value is read as `s` itself.
pub open spec fn casts_to(s: Schema, v: AnyValue, r: AnyValue) -> bool {
    match v {
        AnyValue::List(items) => if is_seq(s) {
            r matches AnyValue::List(out) && out@.len() == items@.len()
                && forall|k: int| 0 <= k < items@.len() ==> out@[k] == nth_cast(s, k, #[trigger] items@[k])
        } else {
            r == item_cast(s, v)
        },
        _ => r == item_cast(s, v),
    }
}

fn cast_text(s: &Schema, t: &String) -> (r: Option<AnyValue>)
    ensures
        r == text_cast(*s, t@),
    decreases s,
{
    match s {
        Schema::Integer(_) => match parse_i64(t.as_str()) {
            Some(i) => Some(AnyValue::Int(i)),
            None => None,
        },
        Schema::Boolean => match str_as_bool(t.as_str()) {
            Some(b) => Some(AnyValue::Bool(b)),
            None => None,
        },
        Schema::Optional(inner) => cast_text(inner, t),
        Schema::Choice(items) => cast_choice_text(items, t),
        _ => None,
    }
}

fn cast_item(s: &Schema, v: AnyValue) -> (r: AnyValue)
    ensures
        r == item_cast(*s, v),
{
    match v {
        AnyValue::Str(t) => match cast_text(s, &t) {
            Some(c) => c,
            None => AnyValue::Str(t),
        },
        other => other,
    }
}

/// The list or tuple type under `s`'s optional layers.
fn seq_type_of(s: &Schema) -> (r: Option<&Schema>)
    ensures
        r is Some <==> is_seq(*s),
        r matches Some(x) ==> ((*x) is Array || (*x) is Tuple),
        r matches Some(x) ==> forall|k: int| #[trigger] item_type(*x, k) == item_type(*s, k),
    decreases s,
{
    match s {
        Schema::Array(_) => Some(s),
        Schema::Tuple(_) => Some(s),
        Schema::Optional(inner) => seq_type_of(inner),
        _ => None,
    }
}

/// Whether a field of type `s` takes every value its key has in the query
/// string, rather than one.
pub fn is_sequence(s: &Schema) -> (r: bool)
    ensures
        r == is_seq(*s),
{
    seq_type_of(s).is_some()
}

/// Reads query-string value `v` where `s` is its field's type.
pub fn query_value(s: &Schema, v: AnyValue) -> (r: AnyValue)
    ensures
        casts_to(*s, v, r),
{
    match v {
        AnyValue::List(items) => match seq_type_of(s) {
            Some(x) => {
                let ghost all = items@;
                let mut rest = items;
                let n = rest.len();
                let mut out: Vec<AnyValue> = Vec::new();
                let mut i: usize = 0;
                while rest.len() > 0
                    invariant
                        all.len() == n,
                        i + rest@.len() == all.len(),
                        rest@ == all.subrange(i as int, all.len() as int),
                        out@.len() == i,
                        (*x) is Array || (*x) is Tuple,
                        forall|k: int| #[trigger] item_type(*s, k) == item_type(*x, k),
                        forall|k: int| 0 <= k < i ==> out@[k] == nth_cast(*s, k, #[trigger] all[k]),
                    decreases rest@.len(),
                {
                    let y = rest.remove(0);
                    assert(y == all[i as int]);
                    let c = match x {
                        Schema::Array(item) => cast_item(item, y),
                        Schema::Tuple(types) => if i < types.len() {
                            cast_item(&types[i], y)
                        } else {
                            y
                        },
                        _ => y,
                    };
                    assert(c == nth_cast(*s, i as int, all[i as int])) by {
                        assert(item_type(*s, i as int) == item_type(*x, i as int));
                    }
                    out.push(c);
                    proof {
                        assert(rest@ =~= all.subrange(i as int + 1, all.len() as int));
                    }
                    i += 1;
                }
                AnyValue::List(out)
            },
            None => AnyValue::List(items),
        },
        other => cast_item(s, other),
    }
}

} // verus!
