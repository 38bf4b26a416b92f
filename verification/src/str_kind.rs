//! Which compact layout a text needs as a Python string: ASCII, one byte
//! (Latin-1), two bytes (the Basic Multilingual Plane) or four bytes per
//! character.
use vstd::prelude::*;
use vstd::string::StringSliceAdditionalSpecFns;
use vstd::utf8::{encode_scalar, encode_utf8};

verus! {

#[derive(Debug, Clone, Copy, PartialEq, Eq, Structural)]
pub enum PyUnicodeKind {
    Ascii,
    OneByte,
    TwoByte,
    FourByte,
}

/// The number of bytes that do not continue a UTF-8 sequence (are not
/// `0b10xxxxxx`): for valid UTF-8, the number of characters.
pub open spec fn non_continuation_count(b: Seq<u8>) -> nat
    decreases b.len(),
{
    if b.len() == 0 {
        0
    } else {
        non_continuation_count(b.drop_last()) + if (b.last() >> 6) != 2 { 1nat } else { 0nat }
    }
}

/// `bytecount::num_chars`: the bytes that do not continue a UTF-8 sequence.
#[verifier::external_body]
fn num_chars(b: &[u8]) -> (r: usize)
    ensures
        r == non_continuation_count(b@),
{
    bytecount::num_chars(b)
}

/// Every character is at most U+00FF.
pub open spec fn all_latin1(s: Seq<char>) -> bool {
    forall|i: int| 0 <= i < s.len() ==> (#[trigger] s[i] as u32) <= 0xFF
}

/// `encoding_rs::mem::is_str_latin1`: whether every character is at most
/// U+00FF.
#[verifier::external_body]
fn is_str_latin1(s: &str) -> (r: bool)
    ensures
        r == all_latin1(s@),
{
    encoding_rs::mem::is_str_latin1(s)
}

/// Some byte leads a four-byte UTF-8 sequence (is above 0xEF).
pub open spec fn has_four_byte_lead(b: Seq<u8>) -> bool {
    exists|i: int| 0 <= i < b.len() && b[i] > 239
}

/// Whether some character needs four bytes in UTF-8 (some byte is above
/// 0xEF), looking at eight bytes per step.
pub fn is_four_byte(buf: &str) -> (r: bool)
    ensures
        r == has_four_byte_lead(buf.spec_bytes()),
{
    let b = buf.as_bytes();
    let len = b.len();
    let mut idx: usize = 0;
    while idx < len.saturating_sub(8)
        invariant
            len == b@.len(),
            b@ == buf.spec_bytes(),
            idx <= len,
            forall|j: int| 0 <= j < idx ==> b@[j] <= 239,
        decreases len - idx,
    {
        let val = b[idx] > 239 || b[idx + 1] > 239 || b[idx + 2] > 239 || b[idx + 3] > 239 || b[idx + 4] > 239
            || b[idx + 5] > 239 || b[idx + 6] > 239 || b[idx + 7] > 239;
        if val {
            proof {
                let k = if b[idx as int] > 239 { idx as int } else if b[idx + 1] > 239 { idx + 1 } else if b[idx + 2] > 239 {
                    idx + 2
                } else if b[idx + 3] > 239 { idx + 3 } else if b[idx + 4] > 239 { idx + 4 } else if b[idx + 5] > 239 {
                    idx + 5
                } else if b[idx + 6] > 239 { idx + 6 } else { idx + 7 };
                assert(b@[k] > 239);
                assert(buf.spec_bytes()[k] > 239);
                assert(has_four_byte_lead(buf.spec_bytes()));
            }
            return true;
        }
        idx += 8;
    }
    while idx < len
        invariant
            len == b@.len(),
            b@ == buf.spec_bytes(),
            idx <= len,
            forall|j: int| 0 <= j < idx ==> b@[j] <= 239,
        decreases len - idx,
    {
        if b[idx] > 239 {
            assert(buf.spec_bytes()[idx as int] > 239);
            assert(has_four_byte_lead(buf.spec_bytes()));
            return true;
        }
        idx += 1;
    }
    false
}

/// The layout a text needs, from its byte length, character count, widest
/// character and Latin-1 check.
pub open spec fn str_kind_spec(s: &str, num_chars: nat) -> PyUnicodeKind {
    if s.spec_bytes().len() == num_chars {
        PyUnicodeKind::Ascii
    } else if has_four_byte_lead(s.spec_bytes()) {
        PyUnicodeKind::FourByte
    } else if all_latin1(s@) {
        PyUnicodeKind::OneByte
    } else {
        PyUnicodeKind::TwoByte
    }
}

/// The UTF-8 bytes of one character: one byte exactly for ASCII, and a
/// byte above 0xEF exactly for a character beyond U+FFFF.
proof fn lemma_scalar_bytes(c: char)
    ensures
        encode_scalar(c as u32).len() >= 1,
        encode_scalar(c as u32).len() == 1 <==> (c as u32) <= 0x7f,
        (exists|i: int| 0 <= i < encode_scalar(c as u32).len() && #[trigger] encode_scalar(c as u32)[i] > 239) <==> (c as u32)
            > 0xFFFF,
{
    let v = c as u32;
    vstd::utf8::char_is_scalar(c);
    let e = encode_scalar(v);
    assert((0x80u8 | ((v & 0x3F) as u8)) <= 0xbf) by (bit_vector);
    assert((0x80u8 | (((v >> 6) & 0x3F) as u8)) <= 0xbf) by (bit_vector);
    assert((0x80u8 | (((v >> 12) & 0x3F) as u8)) <= 0xbf) by (bit_vector);
    if v <= 0x7f {
        assert(((v & 0x7F) as u8) <= 0x7f) by (bit_vector);
    } else if v <= 0x7ff {
        assert((0xC0u8 | (((v >> 6) & 0x1F) as u8)) <= 0xDF) by (bit_vector);
    } else if v <= 0xffff {
        assert((0xE0u8 | (((v >> 12) & 0x0F) as u8)) <= 0xEF) by (bit_vector);
    } else {
        assert((0xF0u8 | (((v >> 18) & 0x7) as u8)) >= 0xF0) by (bit_vector);
        assert(e[0] > 239);
    }
}

/// The UTF-8 bytes of a text: at least one per character, exactly one per
/// character for ASCII text only, and a byte above 0xEF exactly when some
/// character is beyond U+FFFF.
proof fn lemma_encoded(chars: Seq<char>)
    ensures
        encode_utf8(chars).len() >= chars.len(),
        encode_utf8(chars).len() == chars.len() <==> forall|i: int| 0 <= i < chars.len() ==> (#[trigger] chars[i] as u32) <= 0x7f,
        has_four_byte_lead(encode_utf8(chars)) <==> exists|i: int| 0 <= i < chars.len() && (#[trigger] chars[i] as u32) > 0xFFFF,
    decreases chars.len(),
{
    if chars.len() > 0 {
        let rest = chars.drop_first();
        lemma_encoded(rest);
        lemma_scalar_bytes(chars[0]);
        let h = encode_scalar(chars[0] as u32);
        let t = encode_utf8(rest);
        let all = encode_utf8(chars);
        assert(all == h + t);
        assert forall|i: int| 0 <= i < rest.len() implies #[trigger] rest[i] == chars[i + 1] by {}
        if forall|i: int| 0 <= i < chars.len() ==> (#[trigger] chars[i] as u32) <= 0x7f {
            assert((chars[0] as u32) <= 0x7f);
            assert forall|i: int| 0 <= i < rest.len() implies (#[trigger] rest[i] as u32) <= 0x7f by {
                assert(chars[i + 1] as u32 <= 0x7f);
            }
        }
        if all.len() == chars.len() {
            assert forall|i: int| 0 <= i < chars.len() implies (#[trigger] chars[i] as u32) <= 0x7f by {
                if i > 0 {
                    assert(rest[i - 1] == chars[i]);
                }
            }
        }
        if has_four_byte_lead(all) {
            let k = choose|k: int| 0 <= k < all.len() && all[k] > 239;
            if k < h.len() {
                assert(h[k] > 239);
            } else {
                assert(t[k - h.len()] > 239);
                assert(has_four_byte_lead(t));
                let j = choose|j: int| 0 <= j < rest.len() && (#[trigger] rest[j] as u32) > 0xFFFF;
                assert(chars[j + 1] as u32 > 0xFFFF);
            }
        }
        if exists|i: int| 0 <= i < chars.len() && (#[trigger] chars[i] as u32) > 0xFFFF {
            let j = choose|j: int| 0 <= j < chars.len() && (#[trigger] chars[j] as u32) > 0xFFFF;
            if j == 0 {
                let k = choose|k: int| 0 <= k < h.len() && #[trigger] h[k] > 239;
                assert(all[k] == h[k]);
            } else {
                assert(rest[j - 1] as u32 > 0xFFFF);
                let k = choose|k: int| 0 <= k < t.len() && t[k] > 239;
                assert(all[h.len() + k] == t[k]);
            }
        }
    }
}

proof fn lemma_count_concat(a: Seq<u8>, b: Seq<u8>)
    ensures
        non_continuation_count(a + b) == non_continuation_count(a) + non_continuation_count(b),
    decreases b.len(),
{
    if b.len() > 0 {
        lemma_count_concat(a, b.drop_last());
        assert((a + b).drop_last() =~= a + b.drop_last());
    } else {
        assert(a + b =~= a);
    }
}

/// Exactly one byte of a character's UTF-8 bytes starts it.
proof fn lemma_scalar_count(c: char)
    ensures
        non_continuation_count(encode_scalar(c as u32)) == 1,
{
    let v = c as u32;
    vstd::utf8::char_is_scalar(c);
    assert(((0x80u8 | ((v & 0x3F) as u8)) >> 6) == 2) by (bit_vector);
    assert(((0x80u8 | (((v >> 6) & 0x3F) as u8)) >> 6) == 2) by (bit_vector);
    assert(((0x80u8 | (((v >> 12) & 0x3F) as u8)) >> 6) == 2) by (bit_vector);
    assert((((v & 0x7F) as u8) >> 6) != 2) by (bit_vector);
    assert(((0xC0u8 | (((v >> 6) & 0x1F) as u8)) >> 6) != 2) by (bit_vector);
    assert(((0xE0u8 | (((v >> 12) & 0x0F) as u8)) >> 6) != 2) by (bit_vector);
    assert(((0xF0u8 | (((v >> 18) & 0x7) as u8)) >> 6) != 2) by (bit_vector);
    reveal_with_fuel(non_continuation_count, 5);
}

/// The bytes that start a character in a text's UTF-8 bytes are as many
/// as its characters.
pub proof fn law_char_count(chars: Seq<char>)
    ensures
        non_continuation_count(encode_utf8(chars)) == chars.len(),
    decreases chars.len(),
{
    if chars.len() > 0 {
        law_char_count(chars.drop_first());
        lemma_scalar_count(chars[0]);
        lemma_count_concat(encode_scalar(chars[0] as u32), encode_utf8(chars.drop_first()));
    }
}

/// The layout of a text, given its true character count: ASCII when every
/// character is ASCII; else four bytes when some character is beyond
/// U+FFFF; else one byte when every character is at most U+00FF; else two
/// bytes.
pub proof fn law_str_kind(s: &str)
    ensures
        str_kind_spec(s, s@.len()) == PyUnicodeKind::Ascii <==> forall|i: int| 0 <= i < s@.len() ==> (#[trigger] s@[i] as u32) <= 0x7f,
        str_kind_spec(s, s@.len()) == PyUnicodeKind::FourByte <==> exists|i: int|
            0 <= i < s@.len() && (#[trigger] s@[i] as u32) > 0xFFFF,
        str_kind_spec(s, s@.len()) == PyUnicodeKind::OneByte <==> (exists|i: int|
            0 <= i < s@.len() && (#[trigger] s@[i] as u32) > 0x7f) && forall|i: int| 0 <= i < s@.len() ==> (#[trigger] s@[i] as u32) <= 0xFF,
        str_kind_spec(s, s@.len()) == PyUnicodeKind::TwoByte <==> (exists|i: int|
            0 <= i < s@.len() && (#[trigger] s@[i] as u32) > 0xFF) && forall|i: int| 0 <= i < s@.len() ==> (#[trigger] s@[i] as u32) <= 0xFFFF,
{
    lemma_encoded(s@);
}

/// The layout of `buf`, given its character count.
pub fn find_str_kind(buf: &str, num_chars: usize) -> (r: PyUnicodeKind)
    ensures
        r == str_kind_spec(buf, num_chars as nat),
{
    if buf.as_bytes().len() == num_chars {
        PyUnicodeKind::Ascii
    } else if is_four_byte(buf) {
        PyUnicodeKind::FourByte
    } else if is_str_latin1(buf) {
        PyUnicodeKind::OneByte
    } else {
        PyUnicodeKind::TwoByte
    }
}

/// The layout of `buf` and its character count.
pub fn str_kind_and_len(buf: &str) -> (r: (PyUnicodeKind, usize))
    ensures
        r.1 == non_continuation_count(buf.spec_bytes()),
        r.0 == str_kind_spec(buf, r.1 as nat),
{
    let n = num_chars(buf.as_bytes());
    (find_str_kind(buf, n), n)
}

} // verus!
