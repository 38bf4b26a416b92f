//! Bounded, printable renderings of input values for error messages: error
//! paths must not copy an arbitrarily large input into a message.
use vstd::prelude::*;
use vstd::string::StringSliceAdditionalSpecFns;
use vstd::utf8::{decode_utf8, is_char_boundary, valid_utf8};

verus! {

/// Most bytes of an input value a message may quote.
pub const VALUE_REPR_LIMIT: usize = 2048;

/// `String::push`: appends one character.
#[verifier::external_body]
pub(crate) fn string_push(s: &mut String, c: char)
    ensures
        final(s)@ == old(s)@.push(c),
{
    s.push(c)
}

/// The text `String::from_utf8_lossy` makes of bytes that are not valid
/// UTF-8 (each maximal invalid sequence becomes U+FFFD).
pub uninterp spec fn lossy_text(b: Seq<u8>) -> Seq<char>;

/// `String::from_utf8_lossy`: the decoded text of valid UTF-8, otherwise the
/// text with replacement characters named by [`lossy_text`].
#[verifier::external_body]
fn utf8_lossy(b: &[u8]) -> (r: String)
    ensures
        valid_utf8(b@) ==> r@ == decode_utf8(b@),
        !valid_utf8(b@) ==> r@ == lossy_text(b@),
{
    String::from_utf8_lossy(b).into_owned()
}

/// The text of bytes, valid or not.
pub open spec fn lossy(b: Seq<u8>) -> Seq<char> {
    if valid_utf8(b) {
        decode_utf8(b)
    } else {
        lossy_text(b)
    }
}

/// The input as text, cut at [`VALUE_REPR_LIMIT`] bytes with `…` marking
/// the cut.
pub fn lossy_repr_truncated(data: &[u8]) -> (r: String)
    ensures
        data@.len() <= VALUE_REPR_LIMIT ==> r@ == lossy(data@),
        data@.len() > VALUE_REPR_LIMIT ==> r@ == lossy(data@.subrange(0, VALUE_REPR_LIMIT as int)).push('…'),
{
    if data.len() <= VALUE_REPR_LIMIT {
        utf8_lossy(data)
    } else {
        let mut out = utf8_lossy(&data[0..VALUE_REPR_LIMIT]);
        string_push(&mut out, '…');
        out
    }
}

/// The largest character boundary of `b` at or below `e`.
pub open spec fn boundary_at_or_below(b: Seq<u8>, e: int) -> int
    decreases e,
{
    if e <= 0 {
        0
    } else if is_char_boundary(b, e) {
        e
    } else {
        boundary_at_or_below(b, e - 1)
    }
}

/// The cut of a text at `e` bytes: never past `e`, on a character boundary,
/// and the last boundary there is at or below `e`.
pub proof fn law_boundary_cut(b: Seq<u8>, e: int)
    requires
        e <= b.len(),
    ensures
        0 <= boundary_at_or_below(b, e),
        e >= 0 ==> boundary_at_or_below(b, e) <= e,
        boundary_at_or_below(b, e) > 0 ==> is_char_boundary(b, boundary_at_or_below(b, e)),
        forall|k: int| boundary_at_or_below(b, e) < k <= e ==> !is_char_boundary(b, k),
    decreases e,
{
    if e > 0 && !is_char_boundary(b, e) {
        law_boundary_cut(b, e - 1);
    }
}

/// The longest prefix of `value` at most `max` bytes long that ends on a
/// character boundary.
pub fn truncate_char_boundary(value: &str, max: usize) -> (r: &str)
    ensures
        value.spec_bytes().len() <= max ==> r.spec_bytes() == value.spec_bytes(),
        value.spec_bytes().len() > max ==> r.spec_bytes() == value.spec_bytes().subrange(
            0,
            boundary_at_or_below(value.spec_bytes(), max as int),
        ),
{
    if value.as_bytes().len() <= max {
        return value;
    }
    let mut end = max;
    proof {
        vstd::utf8::encode_utf8_valid_utf8(value@);
    }
    while !value.is_char_boundary(end)
        invariant
            end <= max,
            valid_utf8(value.spec_bytes()),
            boundary_at_or_below(value.spec_bytes(), end as int) == boundary_at_or_below(value.spec_bytes(), max as int),
        decreases end,
    {
        end -= 1;
    }
    let (head, _) = value.split_at(end);
    head
}

/// A control character (general category Cc).
pub open spec fn is_control_char(c: char) -> bool {
    (c as u32) <= 0x1f || (0x7f <= (c as u32) && (c as u32) <= 0x9f)
}

/// Lowercase hexadecimal digit.
pub open spec fn hex_char(n: int) -> char {
    if n < 10 {
        (0x30 + n) as char
    } else {
        (0x61 + n - 10) as char
    }
}

/// One character as written inside a `quote`-quoted literal.
pub open spec fn quoted_char(c: char, quote: char) -> Seq<char> {
    if c == '\\' {
        seq!['\\', '\\']
    } else if c == '\n' {
        seq!['\\', 'n']
    } else if c == '\r' {
        seq!['\\', 'r']
    } else if c == '\t' {
        seq!['\\', 't']
    } else if c == quote {
        seq!['\\', c]
    } else if is_control_char(c) {
        seq!['\\', 'x', hex_char((c as u32) as int / 16), hex_char((c as u32) as int % 16)]
    } else {
        seq![c]
    }
}

pub open spec fn quoted_body(s: Seq<char>, quote: char) -> Seq<char>
    decreases s.len(),
{
    if s.len() == 0 {
        Seq::empty()
    } else {
        quoted_body(s.drop_last(), quote) + quoted_char(s.last(), quote)
    }
}

fn push_hex(out: &mut String, n: u32)
    requires
        n < 16,
    ensures
        final(out)@ == old(out)@.push(hex_char(n as int)),
{
    let c: u8 = if n < 10 { 0x30 + n as u8 } else { 0x61 + n as u8 - 10 };
    string_push(out, c as char);
}

/// Appends `value` between `quote`s, with `\`, line breaks, tabs, the quote
/// and other control characters escaped.
pub fn push_quoted(out: &mut String, value: &str, quote: char)
    ensures
        final(out)@ == old(out)@ + seq![quote] + quoted_body(value@, quote) + seq![quote],
{
    string_push(out, quote);
    let n = value.unicode_len();
    let mut i: usize = 0;
    while i < n
        invariant
            n == value@.len(),
            i <= n,
            out@ == old(out)@ + seq![quote] + quoted_body(value@.subrange(0, i as int), quote),
        decreases n - i,
    {
        let ch = value.get_char(i);
        let ghost before = out@;
        if ch == '\\' {
            string_push(out, '\\');
            string_push(out, '\\');
        } else if ch == '\n' {
            string_push(out, '\\');
            string_push(out, 'n');
        } else if ch == '\r' {
            string_push(out, '\\');
            string_push(out, 'r');
        } else if ch == '\t' {
            string_push(out, '\\');
            string_push(out, 't');
        } else if ch == quote {
            string_push(out, '\\');
            string_push(out, ch);
        } else if (ch as u32) <= 0x1f || (0x7f <= (ch as u32) && (ch as u32) <= 0x9f) {
            string_push(out, '\\');
            string_push(out, 'x');
            push_hex(out, (ch as u32) / 16);
            push_hex(out, (ch as u32) % 16);
        } else {
            string_push(out, ch);
        }
        proof {
            let next = value@.subrange(0, i as int + 1);
            assert(next.drop_last() =~= value@.subrange(0, i as int));
            assert(out@ =~= before + quoted_char(ch, quote));
        }
        i += 1;
    }
    assert(value@.subrange(0, n as int) =~= value@);
    string_push(out, quote);
}

/// One byte as written inside a Python bytes literal.
pub open spec fn byte_repr(b: u8) -> Seq<char> {
    if b == 0x5c {
        seq!['\\', '\\']
    } else if b == 0x27 {
        seq!['\\', '\'']
    } else if b == 0x0a {
        seq!['\\', 'n']
    } else if b == 0x0d {
        seq!['\\', 'r']
    } else if b == 0x09 {
        seq!['\\', 't']
    } else if 0x20 <= b <= 0x7e {
        seq![b as char]
    } else {
        seq!['\\', 'x', hex_char(b as int / 16), hex_char(b as int % 16)]
    }
}

pub open spec fn bytes_repr_body(s: Seq<u8>) -> Seq<char>
    decreases s.len(),
{
    if s.len() == 0 {
        Seq::empty()
    } else {
        bytes_repr_body(s.drop_last()) + byte_repr(s.last())
    }
}

/// Appends `value` as a Python bytes literal, `b'...'`.
pub fn push_bytes_repr(out: &mut String, value: &[u8])
    ensures
        final(out)@ == old(out)@ + seq!['b', '\''] + bytes_repr_body(value@) + seq!['\''],
{
    string_push(out, 'b');
    string_push(out, '\'');
    let mut i: usize = 0;
    while i < value.len()
        invariant
            i <= value@.len(),
            out@ == old(out)@ + seq!['b', '\''] + bytes_repr_body(value@.subrange(0, i as int)),
        decreases value@.len() - i,
    {
        let b = value[i];
        let ghost before = out@;
        if b == 0x5c {
            string_push(out, '\\');
            string_push(out, '\\');
        } else if b == 0x27 {
            string_push(out, '\\');
            string_push(out, '\'');
        } else if b == 0x0a {
            string_push(out, '\\');
            string_push(out, 'n');
        } else if b == 0x0d {
            string_push(out, '\\');
            string_push(out, 'r');
        } else if b == 0x09 {
            string_push(out, '\\');
            string_push(out, 't');
        } else if 0x20 <= b && b <= 0x7e {
            string_push(out, b as char);
        } else {
            string_push(out, '\\');
            string_push(out, 'x');
            push_hex(out, (b / 16) as u32);
            push_hex(out, (b % 16) as u32);
        }
        proof {
            let next = value@.subrange(0, i as int + 1);
            assert(next.drop_last() =~= value@.subrange(0, i as int));
            assert(out@ =~= before + byte_repr(b));
        }
        i += 1;
    }
    assert(value@.subrange(0, i as int) =~= value@);
    string_push(out, '\'');
}

} // verus!
