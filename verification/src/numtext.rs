//! Decimal text of integers.
use vstd::prelude::*;
use vstd::utf8::{encode_utf8, is_ascii_chars, is_ascii_chars_encode_utf8};

verus! {

/// Decimal digits of a natural number, most significant first, no leading
/// zeros.
pub open spec fn decimal_digits(n: nat) -> Seq<u8>
    decreases n,
{
    if n < 10 {
        seq![(0x30 + n) as u8]
    } else {
        decimal_digits(n / 10).push((0x30 + n % 10) as u8)
    }
}

/// Decimal text of an integer: a `-` before the digits of its magnitude
/// when negative.
pub open spec fn decimal_text(v: int) -> Seq<u8> {
    if v < 0 {
        seq![0x2du8] + decimal_digits((-v) as nat)
    } else {
        decimal_digits(v as nat)
    }
}

/// The same text as characters.
pub open spec fn decimal_chars(v: int) -> Seq<char> {
    decimal_text(v).map_values(|b: u8| b as char)
}

proof fn lemma_digits_ascii(n: nat)
    ensures
        forall|i: int| 0 <= i < decimal_digits(n).len() ==> 0x30 <= #[trigger] decimal_digits(n)[i] <= 0x39,
    decreases n,
{
    if n >= 10 {
        lemma_digits_ascii(n / 10);
        let d = decimal_digits(n);
        let p = decimal_digits(n / 10);
        assert(d == p.push((0x30 + n % 10) as u8));
        assert forall|i: int| 0 <= i < d.len() implies 0x30 <= #[trigger] d[i] <= 0x39 by {
            if i < p.len() {
                assert(d[i] == p[i]);
            }
        }
    }
}

/// Decimal text is ASCII, so its characters encode to its bytes.
pub proof fn lemma_decimal_chars_bytes(v: int)
    ensures
        encode_utf8(decimal_chars(v)) == decimal_text(v),
        decimal_chars(v).len() == decimal_text(v).len(),
{
    let t = decimal_text(v);
    let c = decimal_chars(v);
    if v < 0 {
        lemma_digits_ascii((-v) as nat);
    } else {
        lemma_digits_ascii(v as nat);
    }
    assert forall|i: int| 0 <= i < t.len() implies 0x2d <= #[trigger] t[i] <= 0x39 by {
        if v < 0 {
            if i > 0 {
                assert(t[i] == decimal_digits((-v) as nat)[i - 1]);
            }
        }
    }
    assert forall|i: int| 0 <= i < c.len() implies '\0' <= #[trigger] c[i] <= '\u{7f}' by {
        assert(c[i] == t[i] as char);
    }
    assert(is_ascii_chars(c));
    is_ascii_chars_encode_utf8(c);
    assert forall|i: int| 0 <= i < t.len() implies encode_utf8(c)[i] == t[i] by {
        assert(c[i] == t[i] as char);
        let b = t[i];
        assert((b as char) as u8 == b);
    }
    assert(encode_utf8(c) =~= t);
}

/// `itoa::Buffer::format` on an `i64`: the integer's decimal text.
#[verifier::external_body]
pub(crate) fn format_i64(v: i64) -> (r: String)
    ensures
        r@ == decimal_chars(v as int),
{
    itoa::Buffer::new().format(v).to_string()
}

/// `itoa::Buffer::format` on a `u64`: the integer's decimal text.
#[verifier::external_body]
pub(crate) fn format_u64(v: u64) -> (r: String)
    ensures
        r@ == decimal_chars(v as int),
{
    itoa::Buffer::new().format(v).to_string()
}

} // verus!
