//! What the JSON writer writes, the scanner reads back.
use crate::escape::{escape_byte, hex_digit, json_escape, lemma_escape_clean, lemma_escape_concat, all_clean, needs_escape_spec};
use crate::json_scan::{
    ScanError, StrKind, cur_at, decoded_string, escape_step, hex4, hex_val, lemma_unescape_step, scalar_or_replacement, string_close,
    string_span, token_kind, unescape_from, has_backslash,
};
use crate::json_scan::{digit_run, is_float_mark, take_i64_spec};
use crate::json_writer::{close_spec, json_string};
use crate::msgpack_writer::digits_value;
use crate::numtext::{decimal_digits, decimal_text};
use vstd::prelude::*;
use vstd::utf8::encode_scalar;

verus! {

/// The successful value of a decoding, if any.
pub open spec fn ok_value(r: Result<Seq<u8>, ScanError>) -> Option<Seq<u8>> {
    match r {
        Ok(v) => Some(v),
        Err(_) => None,
    }
}

/// A step at `p.len() + j` of `p + t` does what the step at `j` of `t` does,
/// `p.len()` further on.
#[verifier::spinoff_prover]
#[verifier::rlimit(40)]
proof fn lemma_step_shift(p: Seq<u8>, t: Seq<u8>, j: int)
    requires
        0 <= j < t.len(),
    ensures
        (escape_step(p + t, p.len() + j) is Err) == (escape_step(t, j) is Err),
        escape_step(t, j) matches Ok((piece, next)) ==> escape_step(p + t, p.len() + j) == Ok::<(Seq<u8>, int), ScanError>((piece, next + p.len())),
{
    let s = p + t;
    let i = p.len() + j;
    assert(s[i] == t[j]);
    if j + 1 < t.len() {
        assert(s[i + 1] == t[j + 1]);
    }
    if j + 6 <= t.len() {
        assert(s[i + 2] == t[j + 2]);
        assert(s[i + 3] == t[j + 3]);
        assert(s[i + 4] == t[j + 4]);
        assert(s[i + 5] == t[j + 5]);
        assert((hex4(s, i + 2) is Err) == (hex4(t, j + 2) is Err));
        assert(hex4(t, j + 2) matches Ok(v) ==> hex4(s, i + 2) == Ok::<u32, ScanError>(v));
    } else {
        assert(hex4(s, i + 2) is Err && hex4(t, j + 2) is Err);
    }
    assert(cur_at(s, i + 6) == cur_at(t, j + 6));
    assert(cur_at(s, i + 7) == cur_at(t, j + 7));
    if j + 12 <= t.len() {
        assert(s[i + 8] == t[j + 8]);
        assert(s[i + 9] == t[j + 9]);
        assert(s[i + 10] == t[j + 10]);
        assert(s[i + 11] == t[j + 11]);
        assert((hex4(s, i + 8) is Err) == (hex4(t, j + 8) is Err));
        assert(hex4(t, j + 8) matches Ok(v) ==> hex4(s, i + 8) == Ok::<u32, ScanError>(v));
    } else {
        assert(hex4(s, i + 8) is Err && hex4(t, j + 8) is Err);
    }
}

/// Decoding `t` from `j` gives the same bytes as decoding `p + t` from
/// `p.len() + j`.
#[verifier::spinoff_prover]
#[verifier::rlimit(50)]
proof fn lemma_unescape_shift(p: Seq<u8>, t: Seq<u8>, j: int)
    requires
        0 <= j <= t.len(),
    ensures
        ok_value(unescape_from(p + t, p.len() + j)) == ok_value(unescape_from(t, j)),
    decreases t.len() - j,
{
    let s = p + t;
    let i = p.len() + j;
    if j < t.len() {
        lemma_step_shift(p, t, j);
        lemma_unescape_step(s, i);
        lemma_unescape_step(t, j);
        if let Ok((piece, next)) = escape_step(t, j) {
            crate::json_scan::lemma_escape_step_advances(t, j);
            lemma_unescape_shift(p, t, next);
        }
    }
}

proof fn lemma_hex_roundtrip(n: int)
    requires
        0 <= n < 16,
    ensures
        hex_val(hex_digit(n)) == Some(n as u32),
{
}

/// Decoding the escaped form of one byte, followed by anything, gives that
/// byte first and continues right after the escaped form.
#[verifier::spinoff_prover]
#[verifier::rlimit(40)]
proof fn lemma_escape_byte_step(b: u8, t: Seq<u8>)
    ensures
        escape_step(escape_byte(b) + t, 0) == Ok::<(Seq<u8>, int), ScanError>((seq![b], escape_byte(b).len() as int)),
{
    let e = escape_byte(b);
    let s = e + t;
    if b < 0x20 && b != 0x08 && b != 0x09 && b != 0x0a && b != 0x0c && b != 0x0d {
        lemma_hex_roundtrip(b as int / 16);
        lemma_hex_roundtrip(b as int % 16);
        assert(s[0] == 0x5c && s[1] == 0x75 && s[2] == 0x30 && s[3] == 0x30);
        assert(s[4] == hex_digit(b as int / 16) && s[5] == hex_digit(b as int % 16));
        assert(hex4(s, 2) == Ok::<u32, ScanError>(b as u32));
        assert(scalar_or_replacement(b as u32) == b as u32);
        assert((b as u32) & 0x7F == b as u32) by (bit_vector)
            requires
                b < 0x20,
        ;
        assert(encode_scalar(b as u32) =~= seq![b]);
    } else {
        assert(s[0] == e[0]);
        if e.len() == 2 {
            assert(s[1] == e[1]);
        }
    }
}

proof fn lemma_escape_front(b: u8, rest: Seq<u8>)
    ensures
        json_escape(seq![b] + rest) == escape_byte(b) + json_escape(rest),
{
    lemma_escape_concat(seq![b], rest);
    assert(seq![b].drop_last() =~= Seq::<u8>::empty());
    assert(json_escape(Seq::<u8>::empty()) =~= Seq::<u8>::empty());
    assert(json_escape(seq![b]) =~= escape_byte(b));
}

/// Decoding `e + t` where `e` decodes to `b` in one step.
proof fn lemma_decode_after_step(e: Seq<u8>, t: Seq<u8>, b: u8, rest: Seq<u8>)
    requires
        e.len() > 0,
        escape_step(e + t, 0) == Ok::<(Seq<u8>, int), ScanError>((seq![b], e.len() as int)),
        unescape_from(t, 0) == Ok::<Seq<u8>, ScanError>(rest),
    ensures
        unescape_from(e + t, 0) == Ok::<Seq<u8>, ScanError>(seq![b] + rest),
{
    lemma_unescape_step(e + t, 0);
    lemma_unescape_shift(e, t, 0);
    assert(e.len() + 0 == e.len());
}

/// Unescaping undoes escaping: the escaped form of any bytes decodes back
/// to those bytes.
pub proof fn lemma_unescape_escape(x: Seq<u8>)
    ensures
        unescape_from(json_escape(x), 0) == Ok::<Seq<u8>, ScanError>(x),
    decreases x.len(),
{
    if x.len() == 0 {
        assert(json_escape(x) =~= Seq::<u8>::empty());
        assert(x =~= Seq::<u8>::empty());
    } else {
        let b = x[0];
        let rest = x.drop_first();
        lemma_unescape_escape(rest);
        assert(seq![b] + rest =~= x);
        lemma_escape_front(b, rest);
        lemma_escape_byte_step(b, json_escape(rest));
        lemma_decode_after_step(escape_byte(b), json_escape(rest), b, rest);
        assert(json_escape(x) == escape_byte(b) + json_escape(rest));
    }
}


/// The escaped form of any bytes holds no closing quote: the escape-aware
/// walk steps over all of it.
pub(crate) proof fn lemma_close_over_escaped(s: Seq<u8>, i: int, x: Seq<u8>)
    requires
        0 <= i,
        i + json_escape(x).len() <= s.len(),
        s.subrange(i, i + json_escape(x).len()) == json_escape(x),
    ensures
        string_close(s, i) == string_close(s, i + json_escape(x).len()),
    decreases x.len(),
{
    if x.len() == 0 {
        assert(json_escape(x) =~= Seq::<u8>::empty());
    } else {
        let b = x[0];
        let rest = x.drop_first();
        assert(seq![b] + rest =~= x);
        lemma_escape_front(b, rest);
        let e = escape_byte(b);
        let t = json_escape(rest);
        assert(json_escape(x) == e + t);
        assert(s.subrange(i + e.len(), i + e.len() + t.len()) =~= t) by {
            assert forall|k: int| 0 <= k < t.len() implies s.subrange(i + e.len(), i + e.len() + t.len())[k] == t[k] by {
                assert(s.subrange(i, i + json_escape(x).len())[e.len() + k] == (e + t)[e.len() + k]);
            }
        }
        lemma_close_over_escaped(s, i + e.len(), rest);
        assert forall|k: int| 0 <= k < e.len() implies s[i + k] == #[trigger] e[k] by {
            assert(s.subrange(i, i + json_escape(x).len())[k] == (e + t)[k]);
        }
        if e.len() == 6 {
            assert(s[i] == 0x5c);
            assert(s[i + 2] == 0x30 && s[i + 3] == 0x30);
            assert(s[i + 4] == hex_digit(b as int / 16));
            assert(s[i + 5] == hex_digit(b as int % 16));
            assert(string_close(s, i + 5) == string_close(s, i + 6));
            assert(string_close(s, i + 4) == string_close(s, i + 5));
            assert(string_close(s, i + 3) == string_close(s, i + 4));
            assert(string_close(s, i + 2) == string_close(s, i + 3));
        } else if e.len() == 2 {
            assert(s[i] == 0x5c);
        } else {
            assert(s[i] == b);
        }
    }
}

/// Escaping without a single backslash means nothing needed escaping.
proof fn lemma_no_backslash_clean(x: Seq<u8>)
    requires
        !has_backslash(json_escape(x)),
    ensures
        all_clean(x),
{
    assert forall|k: int| 0 <= k < x.len() implies !needs_escape_spec(#[trigger] x[k]) by {
        if needs_escape_spec(x[k]) {
            let pre = x.subrange(0, k);
            let post = x.subrange(k, x.len() as int);
            assert(pre + post =~= x);
            lemma_escape_concat(pre, post);
            assert(post =~= seq![x[k]] + post.drop_first());
            lemma_escape_front(x[k], post.drop_first());
            let j = json_escape(pre).len();
            assert(json_escape(x)[j as int] == escape_byte(x[k])[0]);
            assert(json_escape(x)[j as int] == 0x5c);
        }
    }
}

/// A string the JSON writer wrote reads back as the same bytes, with the
/// cursor right after it, whatever follows.
pub proof fn lemma_string_roundtrip(x: Seq<u8>, rest: Seq<u8>)
    ensures
        decoded_string(json_string(x) + rest, 0) == Ok::<(Seq<u8>, int), ScanError>((x, json_string(x).len() as int)),
{
    let d = json_string(x) + rest;
    let ex = json_escape(x);
    let n = ex.len() as int;
    assert(d[0] == 0x22);
    assert(d.subrange(1, 1 + n) =~= ex);
    assert(d[1 + n] == 0x22);
    lemma_close_over_escaped(d, 1, x);
    assert(string_close(d, 1 + n) == Some(1 + n));
    assert(string_span(d, 0) == Ok::<(int, int), ScanError>((1, 1 + n)));
    if token_kind(ex) == StrKind::Escaped {
        lemma_unescape_escape(x);
    } else {
        lemma_no_backslash_clean(x);
        lemma_escape_clean(x);
    }
}


/// Elements, each followed by a `,` (what `item_end` writes).
pub open spec fn with_trailing_commas(items: Seq<Seq<u8>>) -> Seq<u8>
    decreases items.len(),
{
    if items.len() == 0 {
        Seq::empty()
    } else {
        with_trailing_commas(items.drop_last()) + items.last() + seq![0x2cu8]
    }
}

/// Elements separated by `,`.
pub open spec fn comma_joined(items: Seq<Seq<u8>>) -> Seq<u8>
    decreases items.len(),
{
    if items.len() == 0 {
        Seq::empty()
    } else if items.len() == 1 {
        items[0]
    } else {
        comma_joined(items.drop_last()) + seq![0x2cu8] + items.last()
    }
}

proof fn lemma_trailing_is_joined(items: Seq<Seq<u8>>)
    requires
        items.len() > 0,
    ensures
        with_trailing_commas(items) == comma_joined(items) + seq![0x2cu8],
    decreases items.len(),
{
    if items.len() == 1 {
        assert(items.drop_last() =~= Seq::<Seq<u8>>::empty());
        assert(with_trailing_commas(items.drop_last()) == Seq::<u8>::empty());
        assert(items.last() == items[0]);
        assert(with_trailing_commas(items) =~= comma_joined(items) + seq![0x2cu8]);
    } else {
        let init = items.drop_last();
        lemma_trailing_is_joined(init);
        assert(with_trailing_commas(items) == with_trailing_commas(init) + items.last() + seq![0x2cu8]);
        assert(comma_joined(items) == comma_joined(init) + seq![0x2cu8] + items.last());
        assert(with_trailing_commas(init) == comma_joined(init) + seq![0x2cu8]);
        assert(with_trailing_commas(items) == comma_joined(init) + seq![0x2cu8] + items.last() + seq![0x2cu8]);
    }
}

/// Closing a container after elements that each ended with `item_end`
/// gives the elements separated by commas: the separator after the last
/// one is dropped, and an empty container stays empty.
pub proof fn lemma_close_drops_trailing_comma(before: Seq<u8>, opener: u8, items: Seq<Seq<u8>>, terminator: u8)
    requires
        opener != 0x2c,
    ensures
        close_spec(before.push(opener) + with_trailing_commas(items), terminator) == before.push(opener)
            + comma_joined(items) + seq![terminator],
{
    let head = before.push(opener);
    if items.len() == 0 {
        assert(head + with_trailing_commas(items) =~= head);
        assert(head + comma_joined(items) + seq![terminator] =~= head.push(terminator));
    } else {
        lemma_trailing_is_joined(items);
        let b = head + comma_joined(items) + seq![0x2cu8];
        assert(head + with_trailing_commas(items) =~= b);
        assert(b.drop_last() =~= head + comma_joined(items));
        assert(b.drop_last().push(terminator) =~= head + comma_joined(items) + seq![terminator]);
    }
}

/// Rolling back to a checkpoint undoes everything written after it.
pub proof fn lemma_json_rollback_undoes(at_checkpoint: Seq<u8>, written: Seq<u8>)
    ensures
        (at_checkpoint + written).subrange(0, at_checkpoint.len() as int) == at_checkpoint,
{
    assert((at_checkpoint + written).subrange(0, at_checkpoint.len() as int) =~= at_checkpoint);
}

/// The decimal digits of `n` read back as `n`.
pub(crate) proof fn lemma_digits_value_of(n: nat)
    ensures
        digits_value(decimal_digits(n)) == n,
        decimal_digits(n).len() >= 1,
        forall|i: int| 0 <= i < decimal_digits(n).len() ==> 0x30 <= #[trigger] decimal_digits(n)[i] <= 0x39,
    decreases n,
{
    if n >= 10 {
        lemma_digits_value_of(n / 10);
        let p = decimal_digits(n / 10);
        let d = decimal_digits(n);
        assert(d == p.push((0x30 + n % 10) as u8));
        assert(d.drop_last() =~= p);
        assert(d.last() == (0x30 + n % 10) as u8);
        assert(digits_value(d) == digits_value(p) * 10 + (n % 10));
        assert forall|i: int| 0 <= i < d.len() implies 0x30 <= #[trigger] d[i] <= 0x39 by {
            if i < p.len() {
                assert(d[i] == p[i]);
            }
        }
    } else {
        let d = decimal_digits(n);
        assert(d.drop_last() =~= Seq::<u8>::empty());
        assert(digits_value(Seq::<u8>::empty()) == 0);
        assert(digits_value(d) == digits_value(d.drop_last()) * 10 + (d.last() - 0x30));
    }
}

/// Ten to the power `k`.
spec fn ten_pow(k: nat) -> nat
    decreases k,
{
    if k == 0 {
        1
    } else {
        10 * ten_pow((k - 1) as nat)
    }
}

/// A number below `10^k` has at most `k` digits.
proof fn lemma_digits_len(n: nat, k: nat)
    requires
        k >= 1,
        n < ten_pow(k),
    ensures
        decimal_digits(n).len() <= k,
    decreases k,
{
    if n >= 10 && k > 1 {
        assert(n / 10 < ten_pow((k - 1) as nat));
        lemma_digits_len(n / 10, (k - 1) as nat);
    } else if n >= 10 {
        assert(ten_pow(1) == 10) by {
            reveal_with_fuel(ten_pow, 2);
        }
    }
}

/// The run of digits in `d` from `i` up to `end`, with no digit at `end`.
proof fn lemma_run_to(d: Seq<u8>, i: int, end: int)
    requires
        0 <= i <= end <= d.len(),
        forall|j: int| i <= j < end ==> 0x30 <= #[trigger] d[j] <= 0x39,
        end == d.len() || !(0x30 <= d[end] <= 0x39),
    ensures
        digit_run(d, i) == end,
    decreases end - i,
{
    if i < end {
        lemma_run_to(d, i + 1, end);
    }
}

/// An integer the JSON writer wrote reads back as the same integer, and
/// the scanner stops right after it when what follows is not part of a
/// number.
pub proof fn lemma_json_int_roundtrip(v: i64, rest: Seq<u8>)
    requires
        rest.len() > 0 ==> !(0x30 <= rest[0] <= 0x39) && !is_float_mark(rest[0]),
    ensures
        take_i64_spec(decimal_text(v as int) + rest, 0) == Ok::<(i64, int), ScanError>(
            (v, decimal_text(v as int).len() as int),
        ),
{
    let t = decimal_text(v as int);
    let d = t + rest;
    let neg = v < 0;
    let mag: nat = if neg { (-(v as int)) as nat } else { v as nat };
    let digits = decimal_digits(mag);
    lemma_digits_value_of(mag);
    let from: int = if neg { 1 } else { 0 };
    assert(t == if neg { seq![0x2du8] + digits } else { digits });
    assert(t.len() == from + digits.len());
    assert(cur_at(d, 0) == 0x2d <==> neg) by {
        if !neg {
            assert(d[0] == digits[0]);
        }
    }
    assert forall|j: int| from <= j < t.len() implies 0x30 <= #[trigger] d[j] <= 0x39 by {
        assert(d[j] == digits[j - from]);
    }
    if rest.len() > 0 {
        assert(d[t.len() as int] == rest[0]);
    }
    lemma_run_to(d, from, t.len() as int);
    assert(d.subrange(from, t.len() as int) =~= digits);
    assert(ten_pow(19) == 10_000_000_000_000_000_000) by {
        reveal_with_fuel(ten_pow, 20);
    }
    lemma_digits_len(mag, 19);
    assert(cur_at(d, t.len() as int) == if rest.len() > 0 { rest[0] } else { 0u8 });
}

} // verus!
