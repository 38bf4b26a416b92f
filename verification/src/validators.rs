//! Checks of a value against the limits of its schema, and the messages of
//! the failures they report.
use crate::context::{InstancePath, PathChunk, join_path};
use crate::errors::{SchemaError, path_matches};
use crate::numtext::{decimal_chars, format_i64, format_u64};
use crate::text::bytes_eq;
use crate::type_info::NumberTypeInfo;
use vstd::prelude::*;
use vstd::string::StringSliceAdditionalSpecFns;

verus! {

/// `val` falls below `min` (or reaches it, when the bound is exclusive).
pub open spec fn below_minimum(val: int, min: Option<i64>, inclusive: bool) -> bool {
    match min {
        Some(m) => if inclusive { val < m } else { val <= m },
        None => false,
    }
}

/// `val` rises above `max` (or reaches it, when the bound is exclusive).
pub open spec fn above_maximum(val: int, max: Option<i64>, inclusive: bool) -> bool {
    match max {
        Some(m) => if inclusive { val > m } else { val >= m },
        None => false,
    }
}

pub open spec fn lower_bound_message(val: int, min: int) -> Seq<char> {
    decimal_chars(val) + " is less than the minimum of "@ + decimal_chars(min)
}

pub open spec fn upper_bound_message(val: int, max: int) -> Seq<char> {
    decimal_chars(val) + " is greater than the maximum of "@ + decimal_chars(max)
}

/// An error at `path` with exactly `message`.
pub open spec fn error_at(e: SchemaError, message: Seq<char>, path: Seq<PathChunk>) -> bool {
    e.message@ == message && path_matches(e.path, join_path(path))
}

fn i64_text(v: i64) -> (r: String)
    ensures
        r@ == decimal_chars(v as int),
{
    format_i64(v)
}

fn usize_text(v: usize) -> (r: String)
    ensures
        r@ == decimal_chars(v as int),
{
    format_u64(v as u64)
}

pub fn check_lower_bound(val: i64, min: Option<i64>, inclusive: bool, instance_path: &InstancePath) -> (r: Result<(), SchemaError>)
    ensures
        r is Err <==> below_minimum(val as int, min, inclusive),
        r matches Err(e) ==> error_at(e, lower_bound_message(val as int, min->0 as int), instance_path.chunks()),
{
    if let Some(m) = min {
        let violates = if inclusive { val < m } else { val <= m };
        if violates {
            let mut msg = i64_text(val);
            msg.append(" is less than the minimum of ");
            let t = i64_text(m);
            msg.append(t.as_str());
            return Err(SchemaError::new(msg, instance_path));
        }
    }
    Ok(())
}

pub fn check_upper_bound(val: i64, max: Option<i64>, inclusive: bool, instance_path: &InstancePath) -> (r: Result<(), SchemaError>)
    ensures
        r is Err <==> above_maximum(val as int, max, inclusive),
        r matches Err(e) ==> error_at(e, upper_bound_message(val as int, max->0 as int), instance_path.chunks()),
{
    if let Some(m) = max {
        let violates = if inclusive { val > m } else { val >= m };
        if violates {
            let mut msg = i64_text(val);
            msg.append(" is greater than the maximum of ");
            let t = i64_text(m);
            msg.append(t.as_str());
            return Err(SchemaError::new(msg, instance_path));
        }
    }
    Ok(())
}

/// Both bounds; the lower one is reported first.
pub fn _check_bounds(
    val: i64,
    min: Option<i64>,
    max: Option<i64>,
    inclusive_min: bool,
    inclusive_max: bool,
    instance_path: &InstancePath,
) -> (r: Result<(), SchemaError>)
    ensures
        r is Err <==> (below_minimum(val as int, min, inclusive_min) || above_maximum(val as int, max, inclusive_max)),
        r matches Err(e) ==> if below_minimum(val as int, min, inclusive_min) {
            error_at(e, lower_bound_message(val as int, min->0 as int), instance_path.chunks())
        } else {
            error_at(e, upper_bound_message(val as int, max->0 as int), instance_path.chunks())
        },
{
    if min.is_none() && max.is_none() {
        return Ok(());
    }
    check_lower_bound(val, min, inclusive_min, instance_path)?;
    check_upper_bound(val, max, inclusive_max, instance_path)?;
    Ok(())
}

/// The bounds of an integer type, checked on `val`.
pub fn check_bounds(val: i64, type_info: &NumberTypeInfo<i64>, instance_path: &InstancePath) -> (r: Result<(), SchemaError>)
    ensures
        r is Err <==> (below_minimum(val as int, type_info.min, type_info.inclusive_min) || above_maximum(val as int, type_info.max, type_info.inclusive_max)),
        r matches Err(e) ==> if below_minimum(val as int, type_info.min, type_info.inclusive_min) {
            error_at(e, lower_bound_message(val as int, type_info.min->0 as int), instance_path.chunks())
        } else {
            error_at(e, upper_bound_message(val as int, type_info.max->0 as int), instance_path.chunks())
        },
{
    _check_bounds(val, type_info.min, type_info.max, type_info.inclusive_min, type_info.inclusive_max, instance_path)
}

pub open spec fn quoted(s: Seq<char>) -> Seq<char> {
    "\""@ + s + "\""@
}

pub open spec fn shorter_message(val: Seq<char>, min: int) -> Seq<char> {
    quoted(val) + " is shorter than "@ + decimal_chars(min) + " characters"@
}

pub open spec fn longer_message(val: Seq<char>, max: int) -> Seq<char> {
    quoted(val) + " is longer than "@ + decimal_chars(max) + " characters"@
}

/// Appends `"text"`.
fn append_quoted(out: &mut String, text: &str)
    ensures
        final(out)@ == old(out)@ + quoted(text@),
{
    out.append("\"");
    out.append(text);
    out.append("\"");
}

/// `len` (the length of `val` in characters) is at least `min`.
pub fn check_min_length(val: &str, len: usize, min: Option<usize>, instance_path: &InstancePath) -> (r: Result<(), SchemaError>)
    ensures
        r is Err <==> (min is Some && len < min->0),
        r matches Err(e) ==> error_at(e, shorter_message(val@, min->0 as int), instance_path.chunks()),
{
    if let Some(m) = min {
        if len < m {
            let mut msg = String::new();
            append_quoted(&mut msg, val);
            msg.append(" is shorter than ");
            let t = usize_text(m);
            msg.append(t.as_str());
            msg.append(" characters");
            return Err(SchemaError::new(msg, instance_path));
        }
    }
    Ok(())
}

/// `len` (the length of `val` in characters) is at most `max`.
pub fn check_max_length(val: &str, len: usize, max: Option<usize>, instance_path: &InstancePath) -> (r: Result<(), SchemaError>)
    ensures
        r is Err <==> (max is Some && len > max->0),
        r matches Err(e) ==> error_at(e, longer_message(val@, max->0 as int), instance_path.chunks()),
{
    if let Some(m) = max {
        if len > m {
            let mut msg = String::new();
            append_quoted(&mut msg, val);
            msg.append(" is longer than ");
            let t = usize_text(m);
            msg.append(t.as_str());
            msg.append(" characters");
            return Err(SchemaError::new(msg, instance_path));
        }
    }
    Ok(())
}

/// The length of `val` in characters lies within `min ..= max`.
pub fn check_length(val: &str, min: Option<usize>, max: Option<usize>, instance_path: &InstancePath) -> (r: Result<(), SchemaError>)
    ensures
        r is Err <==> ((min is Some && val@.len() < min->0) || (max is Some && val@.len() > max->0)),
        r matches Err(e) ==> if min is Some && val@.len() < min->0 {
            error_at(e, shorter_message(val@, min->0 as int), instance_path.chunks())
        } else {
            error_at(e, longer_message(val@, max->0 as int), instance_path.chunks())
        },
{
    if min.is_none() && max.is_none() {
        return Ok(());
    }
    let len = val.unicode_len();
    check_min_length(val, len, min, instance_path)?;
    check_max_length(val, len, max, instance_path)?;
    Ok(())
}

pub open spec fn required_message(property: Seq<char>) -> Seq<char> {
    quoted(property) + " is a required property"@
}

/// The error for an absent required property: reported at the path of the
/// object that lacks it.
pub fn missing_required_property(property: &str, instance_path: &InstancePath) -> (e: SchemaError)
    ensures
        error_at(e, required_message(property@), instance_path.chunks()),
{
    let mut msg = String::new();
    append_quoted(&mut msg, property);
    msg.append(" is a required property");
    SchemaError::new(msg, instance_path)
}


/// The path of a check on a sequence: the root when none is given.
pub open spec fn opt_path_chunks(p: Option<&InstancePath>) -> Seq<PathChunk> {
    match p {
        Some(p) => p.chunks(),
        None => Seq::empty(),
    }
}

fn error_at_opt(msg: String, instance_path: Option<&InstancePath>) -> (e: SchemaError)
    ensures
        e.message@ == msg@,
        path_matches(e.path, join_path(opt_path_chunks(instance_path))),
{
    match instance_path {
        Some(p) => SchemaError::new(msg, p),
        None => {
            let root = InstancePath::new();
            SchemaError::new(msg, &root)
        },
    }
}

pub open spec fn fewer_items_message(val: Seq<char>, n: int) -> Seq<char> {
    val + " has less than "@ + decimal_chars(n) + " items"@
}

pub open spec fn more_items_message(val: Seq<char>, n: int) -> Seq<char> {
    val + " has more than "@ + decimal_chars(n) + " items"@
}

/// `{val} has less than {n} items` (`less` set) or `{val} has more than {n}
/// items`, where `val` is the sequence's text.
pub fn sequence_size_err(val: &str, n: usize, less: bool, instance_path: Option<&InstancePath>) -> (e: SchemaError)
    ensures
        error_at(e, if less { fewer_items_message(val@, n as int) } else { more_items_message(val@, n as int) }, opt_path_chunks(instance_path)),
{
    let mut msg = String::from_str(val);
    if less {
        msg.append(" has less than ");
    } else {
        msg.append(" has more than ");
    }
    let t = usize_text(n);
    msg.append(t.as_str());
    msg.append(" items");
    error_at_opt(msg, instance_path)
}

/// A fixed-size sequence (a tuple) has exactly `size` items; `val` is its
/// text, used in the message.
pub fn check_sequence_size(val: &str, seq_len: usize, size: usize, instance_path: Option<&InstancePath>) -> (r: Result<(), SchemaError>)
    ensures
        r is Err <==> seq_len != size,
        r matches Err(e) ==> error_at(e, if seq_len < size { fewer_items_message(val@, size as int) } else { more_items_message(val@, size as int) }, opt_path_chunks(instance_path)),
{
    if seq_len == size {
        Ok(())
    } else {
        Err(sequence_size_err(val, size, seq_len < size, instance_path))
    }
}

/// A list has between `min` and `max` items; `val` is its text.
pub fn check_sequence_bounds(
    val: &str,
    seq_len: usize,
    min: Option<usize>,
    max: Option<usize>,
    instance_path: Option<&InstancePath>,
) -> (r: Result<(), SchemaError>)
    ensures
        r is Err <==> ((min is Some && seq_len < min->0) || (max is Some && seq_len > max->0)),
        r matches Err(e) ==> if min is Some && seq_len < min->0 {
            error_at(e, fewer_items_message(val@, min->0 as int), opt_path_chunks(instance_path))
        } else {
            error_at(e, more_items_message(val@, max->0 as int), opt_path_chunks(instance_path))
        },
{
    if min.is_none() && max.is_none() {
        return Ok(());
    }
    if let Some(m) = min {
        if seq_len < m {
            return Err(sequence_size_err(val, m, true, instance_path));
        }
    }
    if let Some(m) = max {
        if seq_len > m {
            return Err(sequence_size_err(val, m, false, instance_path));
        }
    }
    Ok(())
}

/// `"a", "b", ...`: each item quoted, separated by `, `.
pub open spec fn quoted_list(items: Seq<Seq<char>>) -> Seq<char>
    decreases items.len(),
{
    if items.len() == 0 {
        Seq::empty()
    } else if items.len() == 1 {
        quoted(items[0])
    } else {
        quoted_list(items.drop_last()) + ", "@ + quoted(items.last())
    }
}

pub open spec fn texts(items: Seq<String>) -> Seq<Seq<char>> {
    items.map_values(|s: String| s@)
}

pub open spec fn discriminator_message(key: Seq<char>, items: Seq<Seq<char>>) -> Seq<char> {
    quoted(key) + " is not one of ["@ + quoted_list(items) + "] discriminator values"@
}

/// The error for a discriminator value that selects no member of a tagged
/// union.
pub fn no_encoder_for_discriminator(key: &str, discriminators: &[String], instance_path: &InstancePath) -> (e: SchemaError)
    ensures
        error_at(e, discriminator_message(key@, texts(discriminators@)), instance_path.chunks()),
{
    let mut items = String::new();
    let mut i: usize = 0;
    while i < discriminators.len()
        invariant
            i <= discriminators@.len(),
            items@ == quoted_list(texts(discriminators@.subrange(0, i as int))),
        decreases discriminators@.len() - i,
    {
        let ghost before = discriminators@.subrange(0, i as int);
        let ghost after = discriminators@.subrange(0, i as int + 1);
        assert(texts(after).drop_last() =~= texts(before));
        if i > 0 {
            items.append(", ");
        }
        append_quoted(&mut items, discriminators[i].as_str());
        i += 1;
        assert(texts(after).last() == discriminators@[i - 1]@);
        if i == 1 {
            assert(items@ =~= quoted_list(texts(after)));
        }
    }
    assert(discriminators@.subrange(0, i as int) =~= discriminators@);
    let mut msg = String::new();
    append_quoted(&mut msg, key);
    msg.append(" is not one of [");
    msg.append(items.as_str());
    msg.append("] discriminator values");
    SchemaError::new(msg, instance_path)
}

pub open spec fn not_of_type_message(value: Seq<char>, type_: Seq<char>) -> Seq<char> {
    value + " is not of type "@ + quoted(type_)
}

/// The error for a loaded value of the wrong type; `value` is its rendering
/// (quoted when the value is a string).
pub fn invalid_type_err(type_: &str, value: &str, instance_path: &InstancePath) -> (e: SchemaError)
    ensures
        error_at(e, not_of_type_message(value@, type_@), instance_path.chunks()),
{
    let mut msg = String::from_str(value);
    msg.append(" is not of type ");
    append_quoted(&mut msg, type_);
    SchemaError::new(msg, instance_path)
}

/// The error for a dumped value of the wrong type, at the root; `value` is
/// its text, always quoted.
pub fn invalid_type_dump_err(type_: &str, value: &str) -> (e: SchemaError)
    ensures
        error_at(e, not_of_type_message(quoted(value@), type_@), Seq::empty()),
{
    let mut msg = String::new();
    append_quoted(&mut msg, value);
    msg.append(" is not of type ");
    append_quoted(&mut msg, type_);
    let root = InstancePath::new();
    SchemaError::new(msg, &root)
}

pub open spec fn missing_dict_key_message(name: Seq<char>) -> Seq<char> {
    "data dictionary is missing required parameter "@ + name
}

/// The error for a dumped dictionary without a required key, at the root.
pub fn missing_dict_key_err(name: &str) -> (e: SchemaError)
    ensures
        error_at(e, missing_dict_key_message(name@), Seq::empty()),
{
    let mut msg = String::from_str("data dictionary is missing required parameter ");
    msg.append(name);
    let root = InstancePath::new();
    SchemaError::new(msg, &root)
}

pub open spec fn not_one_of_message(value: Seq<char>, items: Seq<char>) -> Seq<char> {
    value + " is not one of "@ + items
}

/// The error for a value outside an enumeration; `value` is its rendering
/// and `items` the enumeration's text.
pub fn invalid_enum_item_err(items: &str, value: &str, instance_path: &InstancePath) -> (e: SchemaError)
    ensures
        error_at(e, not_one_of_message(value@, items@), instance_path.chunks()),
{
    let mut msg = String::from_str(value);
    msg.append(" is not one of ");
    msg.append(items);
    SchemaError::new(msg, instance_path)
}

/// The boolean a text spells: `t`, `T`, `true`, `True`, `TRUE` and the five
/// spellings of false.
pub open spec fn str_as_bool_spec(b: Seq<u8>) -> Option<bool> {
    if b == seq![0x74u8] || b == seq![0x54u8] || b == seq![0x74u8, 0x72u8, 0x75u8, 0x65u8] || b
        == seq![0x54u8, 0x72u8, 0x75u8, 0x65u8] || b == seq![0x54u8, 0x52u8, 0x55u8, 0x45u8] {
        Some(true)
    } else if b == seq![0x66u8] || b == seq![0x46u8] || b == seq![0x66u8, 0x61u8, 0x6cu8, 0x73u8, 0x65u8]
        || b == seq![0x46u8, 0x61u8, 0x6cu8, 0x73u8, 0x65u8] || b == seq![0x46u8, 0x41u8, 0x4cu8, 0x53u8, 0x45u8] {
        Some(false)
    } else {
        None
    }
}

pub fn str_as_bool(str: &str) -> (r: Option<bool>)
    ensures
        r == str_as_bool_spec(str.spec_bytes()),
{
    let b = str.as_bytes();
    let t1: [u8; 1] = [0x74];
    let t2: [u8; 1] = [0x54];
    let t3: [u8; 4] = [0x74, 0x72, 0x75, 0x65];
    let t4: [u8; 4] = [0x54, 0x72, 0x75, 0x65];
    let t5: [u8; 4] = [0x54, 0x52, 0x55, 0x45];
    let f1: [u8; 1] = [0x66];
    let f2: [u8; 1] = [0x46];
    let f3: [u8; 5] = [0x66, 0x61, 0x6c, 0x73, 0x65];
    let f4: [u8; 5] = [0x46, 0x61, 0x6c, 0x73, 0x65];
    let f5: [u8; 5] = [0x46, 0x41, 0x4c, 0x53, 0x45];
    assert(t1@ =~= seq![0x74u8]);
    assert(t2@ =~= seq![0x54u8]);
    assert(t3@ =~= seq![0x74u8, 0x72u8, 0x75u8, 0x65u8]);
    assert(t4@ =~= seq![0x54u8, 0x72u8, 0x75u8, 0x65u8]);
    assert(t5@ =~= seq![0x54u8, 0x52u8, 0x55u8, 0x45u8]);
    assert(f1@ =~= seq![0x66u8]);
    assert(f2@ =~= seq![0x46u8]);
    assert(f3@ =~= seq![0x66u8, 0x61u8, 0x6cu8, 0x73u8, 0x65u8]);
    assert(f4@ =~= seq![0x46u8, 0x61u8, 0x6cu8, 0x73u8, 0x65u8]);
    assert(f5@ =~= seq![0x46u8, 0x41u8, 0x4cu8, 0x53u8, 0x45u8]);
    if bytes_eq(b, t1.as_slice()) || bytes_eq(b, t2.as_slice()) || bytes_eq(b, t3.as_slice()) || bytes_eq(b, t4.as_slice())
        || bytes_eq(b, t5.as_slice()) {
        Some(true)
    } else if bytes_eq(b, f1.as_slice()) || bytes_eq(b, f2.as_slice()) || bytes_eq(b, f3.as_slice()) || bytes_eq(b, f4.as_slice())
        || bytes_eq(b, f5.as_slice()) {
        Some(false)
    } else {
        None
    }
}


/// A hexadecimal digit, either case.
pub open spec fn is_hex_digit(c: u8) -> bool {
    (0x30 <= c <= 0x39) || (0x61 <= c <= 0x66) || (0x41 <= c <= 0x46)
}

/// `xxxxxxxx-xxxx-xxxx-xxxx-xxxxxxxxxxxx` of hexadecimal digits.
pub open spec fn hyphenated_uuid(s: Seq<u8>) -> bool {
    &&& s.len() == 36
    &&& forall|i: int| 0 <= i < 36 ==> if i == 8 || i == 13 || i == 18 || i == 23 {
        #[trigger] s[i] == 0x2d
    } else {
        is_hex_digit(s[i])
    }
}

/// ASCII lowercase of a byte.
pub open spec fn ascii_lower(c: u8) -> u8 {
    if 0x41 <= c <= 0x5a { (c + 0x20) as u8 } else { c }
}

/// The text forms of a UUID: 32 hexadecimal digits, the hyphenated form,
/// the hyphenated form in braces, or `urn:uuid:` (any case) before it.
pub open spec fn uuid_text_ok(b: Seq<u8>) -> bool {
    ||| (b.len() == 32 && forall|i: int| 0 <= i < 32 ==> is_hex_digit(#[trigger] b[i]))
    ||| hyphenated_uuid(b)
    ||| (b.len() == 38 && b[0] == 0x7b && b[37] == 0x7d && hyphenated_uuid(b.subrange(1, 37)))
    ||| (b.len() == 45 && b.subrange(0, 9).map_values(|c: u8| ascii_lower(c)) == "urn:uuid:".spec_bytes()
        && hyphenated_uuid(b.subrange(9, 45)))
}

/// `uuid::Uuid::parse_str(..).is_ok()`: whether the text is one of the UUID
/// text forms.
#[verifier::external_body]
pub(crate) fn uuid_parses(s: &str) -> (r: bool)
    ensures
        r == uuid_text_ok(s.spec_bytes()),
{
    uuid::Uuid::parse_str(s).is_ok()
}

/// Whether `s` is a UUID text; otherwise the error naming the value by
/// `rendered`.
pub fn check_uuid(s: &str, rendered: &str, instance_path: &InstancePath) -> (r: Result<(), SchemaError>)
    ensures
        r is Ok <==> uuid_text_ok(s.spec_bytes()),
        r matches Err(e) ==> error_at(e, not_of_type_message(rendered@, "uuid"@), instance_path.chunks()),
{
    if uuid_parses(s) {
        Ok(())
    } else {
        Err(invalid_type_err("uuid", rendered, instance_path))
    }
}

} // verus!
