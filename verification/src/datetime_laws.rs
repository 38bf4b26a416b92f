//! A date-time the writer writes, the RFC 3339 reader reads back.
use crate::datetime_text::{
    DateTimeFields, DateTimeValue, TzKind, datetime_json, dig, digits_end, frac_micros, offset_part,
    offset_start, padded_digits, parse_rfc3339_spec, rfc3339_head_ok,
    two_at, tz_text,
};
use vstd::prelude::*;

verus! {

/// The offset a written zone reads back as.
pub open spec fn read_back_offset(tz: TzKind) -> Option<i32> {
    match tz {
        TzKind::Naive => None,
        TzKind::Utc => Some(0),
        TzKind::Other(None) => None,
        TzKind::Other(Some(s)) => Some(s),
    }
}

/// Fields that fit their text widths, and an offset of whole minutes under
/// 100 hours.
pub open spec fn writable(dt: DateTimeValue) -> bool {
    &&& dt.year < 10000
    &&& dt.month < 100
    &&& dt.day < 100
    &&& dt.hour < 100
    &&& dt.minute < 100
    &&& dt.second < 100
    &&& dt.microsecond < 1_000_000
    &&& (dt.tz matches TzKind::Other(Some(s)) ==> (s % 60 == 0 && -360000 < s < 360000))
}

pub open spec fn fields_of(dt: DateTimeValue) -> DateTimeFields {
    DateTimeFields {
        year: dt.year,
        month: dt.month,
        day: dt.day,
        hour: dt.hour,
        minute: dt.minute,
        second: dt.second,
        microsecond: dt.microsecond,
        offset: read_back_offset(dt.tz),
    }
}

pub open spec fn digit_byte(v: nat) -> u8 {
    (0x30 + v % 10) as u8
}

proof fn lemma_padded2(v: nat)
    requires
        v < 100,
    ensures
        padded_digits(v, 2) == seq![digit_byte(v / 10), digit_byte(v)],
{
    reveal_with_fuel(padded_digits, 3);
    assert(padded_digits(v, 2) =~= seq![digit_byte(v / 10), digit_byte(v)]);
}

proof fn lemma_padded4(v: nat)
    requires
        v < 10000,
    ensures
        padded_digits(v, 4) == seq![digit_byte(v / 1000), digit_byte(v / 100), digit_byte(v / 10), digit_byte(v)],
{
    reveal_with_fuel(padded_digits, 5);
    assert(v / 10 / 10 == v / 100);
    assert(v / 10 / 10 / 10 == v / 1000);
    assert(padded_digits(v, 4) =~= seq![digit_byte(v / 1000), digit_byte(v / 100), digit_byte(v / 10), digit_byte(v)]);
}

proof fn lemma_padded6(v: nat)
    requires
        v < 1_000_000,
    ensures
        padded_digits(v, 6) == seq![
            digit_byte(v / 100000),
            digit_byte(v / 10000),
            digit_byte(v / 1000),
            digit_byte(v / 100),
            digit_byte(v / 10),
            digit_byte(v),
        ],
{
    reveal_with_fuel(padded_digits, 7);
    assert(v / 10 / 10 == v / 100);
    assert(v / 10 / 10 / 10 == v / 1000);
    assert(v / 10 / 10 / 10 / 10 == v / 10000);
    assert(v / 10 / 10 / 10 / 10 / 10 == v / 100000);
    assert(padded_digits(v, 6) =~= seq![
        digit_byte(v / 100000),
        digit_byte(v / 10000),
        digit_byte(v / 1000),
        digit_byte(v / 100),
        digit_byte(v / 10),
        digit_byte(v),
    ]);
}

/// `YYYY-MM-DDTHH:MM:SS`.
pub open spec fn head19(dt: DateTimeValue) -> Seq<u8> {
    padded_digits(dt.year as nat, 4) + seq![0x2du8] + padded_digits(dt.month as nat, 2) + seq![0x2du8]
        + padded_digits(dt.day as nat, 2) + seq![0x54u8] + padded_digits(dt.hour as nat, 2) + seq![0x3au8]
        + padded_digits(dt.minute as nat, 2) + seq![0x3au8] + padded_digits(dt.second as nat, 2)
}

pub open spec fn frac_text(dt: DateTimeValue) -> Seq<u8> {
    if dt.microsecond != 0 {
        seq![0x2eu8] + padded_digits(dt.microsecond as nat, 6)
    } else {
        Seq::empty()
    }
}

proof fn lemma_json_shape(dt: DateTimeValue)
    ensures
        datetime_json(dt) == seq![0x22u8] + (head19(dt) + frac_text(dt) + tz_text(dt.tz)) + seq![0x22u8],
{
    assert(datetime_json(dt) =~= seq![0x22u8] + (head19(dt) + frac_text(dt) + tz_text(dt.tz)) + seq![0x22u8]);
}

proof fn lemma_digit_byte(v: nat)
    ensures
        dig(digit_byte(v)) == Some((v % 10) as int),
        digit_byte(v) != 0x2e && digit_byte(v) != 0x2b && digit_byte(v) != 0x2d,
        digit_byte(v) != 0x5a && digit_byte(v) != 0x7a && digit_byte(v) != 0x3a,
{
}

proof fn lemma_two_digits(v: nat)
    requires
        v < 100,
    ensures
        ((v / 10) % 10) * 10 + v % 10 == v,
{
}

proof fn lemma_four_digits(v: nat)
    requires
        v < 10000,
    ensures
        ((v / 1000) % 10) * 1000 + ((v / 100) % 10) * 100 + ((v / 10) % 10) * 10 + v % 10 == v,
{
}

proof fn lemma_six_digits(v: nat)
    requires
        v < 1_000_000,
    ensures
        ((v / 100000) % 10) * 100000 + ((v / 10000) % 10) * 10000 + ((v / 1000) % 10) * 1000
            + ((v / 100) % 10) * 100 + ((v / 10) % 10) * 10 + v % 10 == v,
{
    let x = v as int;
    vstd::arithmetic::div_mod::lemma_div_denominator(x, 10, 10);
    vstd::arithmetic::div_mod::lemma_div_denominator(x, 100, 10);
    vstd::arithmetic::div_mod::lemma_div_denominator(x, 1000, 10);
    vstd::arithmetic::div_mod::lemma_div_denominator(x, 10000, 10);
    let q1 = x / 10;
    let q2 = x / 100;
    let q3 = x / 1000;
    let q4 = x / 10000;
    let q5 = x / 100000;
    assert(x == 10 * q1 + x % 10);
    assert(q1 == 10 * q2 + q1 % 10);
    assert(q2 == 10 * q3 + q2 % 10);
    assert(q3 == 10 * q4 + q3 % 10);
    assert(q4 == 10 * q5 + q4 % 10);
    assert(q5 % 10 == q5);
}

/// The nineteen bytes of the head, one by one.
proof fn lemma_head19(dt: DateTimeValue)
    requires
        writable(dt),
    ensures
        head19(dt) == seq![
            digit_byte(dt.year as nat / 1000), digit_byte(dt.year as nat / 100),
            digit_byte(dt.year as nat / 10), digit_byte(dt.year as nat), 0x2du8,
            digit_byte(dt.month as nat / 10), digit_byte(dt.month as nat), 0x2du8,
            digit_byte(dt.day as nat / 10), digit_byte(dt.day as nat), 0x54u8,
            digit_byte(dt.hour as nat / 10), digit_byte(dt.hour as nat), 0x3au8,
            digit_byte(dt.minute as nat / 10), digit_byte(dt.minute as nat), 0x3au8,
            digit_byte(dt.second as nat / 10), digit_byte(dt.second as nat),
        ],
{
    lemma_padded4(dt.year as nat);
    lemma_padded2(dt.month as nat);
    lemma_padded2(dt.day as nat);
    lemma_padded2(dt.hour as nat);
    lemma_padded2(dt.minute as nat);
    lemma_padded2(dt.second as nat);
    assert(head19(dt) =~= seq![
        digit_byte(dt.year as nat / 1000), digit_byte(dt.year as nat / 100),
        digit_byte(dt.year as nat / 10), digit_byte(dt.year as nat), 0x2du8,
        digit_byte(dt.month as nat / 10), digit_byte(dt.month as nat), 0x2du8,
        digit_byte(dt.day as nat / 10), digit_byte(dt.day as nat), 0x54u8,
        digit_byte(dt.hour as nat / 10), digit_byte(dt.hour as nat), 0x3au8,
        digit_byte(dt.minute as nat / 10), digit_byte(dt.minute as nat), 0x3au8,
        digit_byte(dt.second as nat / 10), digit_byte(dt.second as nat),
    ]);
}

/// A two-digit field written at `i` reads back as its value.
proof fn lemma_two_at(b: Seq<u8>, i: int, v: nat)
    requires
        v < 100,
        0 <= i,
        i + 1 < b.len(),
        b[i] == digit_byte(v / 10),
        b[i + 1] == digit_byte(v),
    ensures
        two_at(b, i) == Some(v as int),
{
    lemma_digit_byte(v / 10);
    lemma_digit_byte(v);
    lemma_two_digits(v);
}

/// The head of a written date-time is well formed and reads back its fields.
proof fn lemma_head_reads_back(dt: DateTimeValue, b: Seq<u8>)
    requires
        writable(dt),
        b.len() >= 19,
        b.subrange(0, 19) == head19(dt),
    ensures
        rfc3339_head_ok(b),
        two_at(b, 5) == Some(dt.month as int),
        two_at(b, 8) == Some(dt.day as int),
        two_at(b, 11) == Some(dt.hour as int),
        two_at(b, 14) == Some(dt.minute as int),
        two_at(b, 17) == Some(dt.second as int),
        (b[0] - 0x30) * 1000 + (b[1] - 0x30) * 100 + (b[2] - 0x30) * 10 + (b[3] - 0x30) == dt.year,
{
    lemma_head19(dt);
    let h = head19(dt);
    assert forall|k: int| 0 <= k < 19 implies b[k] == h[k] by {
        assert(b[k] == b.subrange(0, 19)[k]);
    }
    let y = dt.year as nat;
    lemma_digit_byte(y / 1000);
    lemma_digit_byte(y / 100);
    lemma_digit_byte(y / 10);
    lemma_digit_byte(y);
    lemma_four_digits(y);
    lemma_digit_byte(dt.month as nat / 10);
    lemma_digit_byte(dt.month as nat);
    lemma_digit_byte(dt.day as nat / 10);
    lemma_digit_byte(dt.day as nat);
    lemma_digit_byte(dt.hour as nat / 10);
    lemma_digit_byte(dt.hour as nat);
    lemma_digit_byte(dt.minute as nat / 10);
    lemma_digit_byte(dt.minute as nat);
    lemma_digit_byte(dt.second as nat / 10);
    lemma_digit_byte(dt.second as nat);
    assert(b[0] == h[0] && b[1] == h[1] && b[2] == h[2] && b[3] == h[3]);
    assert(b[4] == h[4] && b[7] == h[7] && b[10] == h[10] && b[13] == h[13] && b[16] == h[16]);
    assert forall|k: int| #![trigger b[k]]
        (0 <= k < 4 || 5 <= k < 7 || 8 <= k < 10 || 11 <= k < 13 || 14 <= k < 16 || 17 <= k < 19)
        implies dig(b[k]) is Some by {
        assert(b[k] == h[k]);
    }
    lemma_two_at(b, 5, dt.month as nat);
    lemma_two_at(b, 8, dt.day as nat);
    lemma_two_at(b, 11, dt.hour as nat);
    lemma_two_at(b, 14, dt.minute as nat);
    lemma_two_at(b, 17, dt.second as nat);
}

/// The six fraction digits after the dot read back as the microseconds,
/// and end the run of digits.
proof fn lemma_frac_reads_back(dt: DateTimeValue, b: Seq<u8>)
    requires
        writable(dt),
        dt.microsecond != 0,
        b.len() >= 26,
        b.subrange(19, 26) == frac_text(dt),
        b.len() == 26 || dig(b[26]) is None,
    ensures
        b[19] == 0x2e,
        digits_end(b, 20) == 26,
        frac_micros(b, 20, 26, 100_000) == dt.microsecond,
{
    let v = dt.microsecond as nat;
    lemma_padded6(v);
    let f = frac_text(dt);
    assert forall|k: int| 19 <= k < 26 implies b[k] == f[k - 19] by {
        assert(b[k] == b.subrange(19, 26)[k - 19]);
    }
    lemma_digit_byte(v / 100000);
    lemma_digit_byte(v / 10000);
    lemma_digit_byte(v / 1000);
    lemma_digit_byte(v / 100);
    lemma_digit_byte(v / 10);
    lemma_digit_byte(v);
    lemma_six_digits(v);
    assert(b[20] == digit_byte(v / 100000));
    assert(b[21] == digit_byte(v / 10000));
    assert(b[22] == digit_byte(v / 1000));
    assert(b[23] == digit_byte(v / 100));
    assert(b[24] == digit_byte(v / 10));
    assert(b[25] == digit_byte(v));
    assert(digits_end(b, 26) == 26);
    assert(digits_end(b, 25) == 26);
    assert(digits_end(b, 24) == 26);
    assert(digits_end(b, 23) == 26);
    assert(digits_end(b, 22) == 26);
    assert(digits_end(b, 21) == 26);
    assert(digits_end(b, 20) == 26);
    assert(frac_micros(b, 26, 26, 0) == 0);
    assert(frac_micros(b, 25, 26, 1) == (v % 10) as int);
    assert(frac_micros(b, 24, 26, 10) == ((v / 10) % 10) * 10 + v % 10);
    assert(frac_micros(b, 23, 26, 100) == ((v / 100) % 10) * 100 + ((v / 10) % 10) * 10 + v % 10);
    assert(frac_micros(b, 22, 26, 1000) == ((v / 1000) % 10) * 1000 + ((v / 100) % 10) * 100
        + ((v / 10) % 10) * 10 + v % 10);
    assert(frac_micros(b, 21, 26, 10000) == ((v / 10000) % 10) * 10000 + ((v / 1000) % 10) * 1000
        + ((v / 100) % 10) * 100 + ((v / 10) % 10) * 10 + v % 10);
}

/// The offset as the reader reads it back: seconds east of UTC.
pub open spec fn offset_read_back(tz: TzKind) -> Option<int> {
    match read_back_offset(tz) {
        None => None,
        Some(s) => Some(s as int),
    }
}

/// The zone text from `i` to the end reads back as the zone's offset, and a
/// sign there has its four digits and the colon after it.
proof fn lemma_tz_reads_back(tz: TzKind, b: Seq<u8>, i: int)
    requires
        0 <= i <= b.len(),
        b.subrange(i, b.len() as int) == tz_text(tz),
        tz matches TzKind::Other(Some(s)) ==> (s % 60 == 0 && -360000 < s < 360000),
    ensures
        offset_part(b, i) == Some(offset_read_back(tz)),
        i < b.len() ==> (b[i] == 0x5a || b[i] == 0x2b || b[i] == 0x2d),
        i < b.len() && (b[i] == 0x2b || b[i] == 0x2d) ==> {
            &&& i + 6 == b.len()
            &&& dig(b[i + 1]) is Some
            &&& dig(b[i + 2]) is Some
            &&& b[i + 3] == 0x3a
        },
{
    let t = tz_text(tz);
    assert forall|k: int| i <= k < b.len() implies b[k] == t[k - i] by {
        assert(b[k] == b.subrange(i, b.len() as int)[k - i]);
    }
    match tz {
        TzKind::Other(Some(secs)) => {
            if secs != 0 {
                let a: int = if secs < 0 { -secs } else { secs as int };
                let mins = a / 60;
                assert(a % 60 == 0) by {
                    assert(secs == 60 * (secs / 60) + secs % 60);
                    if secs < 0 {
                        assert(a == 60 * (-(secs / 60)));
                    }
                }
                assert(a == 60 * mins);
                let hh = (mins / 60) as nat;
                let mm = (mins % 60) as nat;
                assert(hh < 100);
                lemma_padded2(hh);
                lemma_padded2(mm);
                assert(t.len() == 6);
                assert(b[i + 1] == digit_byte(hh / 10));
                assert(b[i + 2] == digit_byte(hh));
                assert(b[i + 3] == 0x3a);
                assert(b[i + 4] == digit_byte(mm / 10));
                assert(b[i + 5] == digit_byte(mm));
                lemma_two_at(b, i + 1, hh);
                lemma_two_at(b, i + 4, mm);
                lemma_digit_byte(hh / 10);
                lemma_digit_byte(hh);
                assert(mins == 60 * (mins / 60) + mins % 60);
                assert(hh * 3600 + mm * 60 == a);
            } else {
                assert(t =~= seq![0x5au8]);
            }
        },
        TzKind::Utc => {
            assert(t =~= seq![0x5au8]);
        },
        _ => {
            assert(t.len() == 0);
        },
    }
}

proof fn lemma_head19_len(dt: DateTimeValue)
    requires
        writable(dt),
    ensures
        head19(dt).len() == 19,
{
    lemma_head19(dt);
}

proof fn lemma_frac_len(dt: DateTimeValue)
    requires
        writable(dt),
    ensures
        frac_text(dt).len() == if dt.microsecond != 0 { 7int } else { 0int },
{
    if dt.microsecond != 0 {
        lemma_padded6(dt.microsecond as nat);
    }
}

/// The reader's result, from what is known of each part of the text.
proof fn lemma_parse_from_parts(dt: DateTimeValue, b: Seq<u8>, start: int)
    requires
        rfc3339_head_ok(b),
        two_at(b, 5) == Some(dt.month as int),
        two_at(b, 8) == Some(dt.day as int),
        two_at(b, 11) == Some(dt.hour as int),
        two_at(b, 14) == Some(dt.minute as int),
        two_at(b, 17) == Some(dt.second as int),
        (b[0] - 0x30) * 1000 + (b[1] - 0x30) * 100 + (b[2] - 0x30) * 10 + (b[3] - 0x30) == dt.year,
        offset_start(b) == start,
        start == 19 || start == 26,
        offset_part(b, start) == Some(offset_read_back(dt.tz)),
        start == 26 ==> frac_micros(b, 20, 26, 100_000) == dt.microsecond,
        start == 19 ==> dt.microsecond == 0,
    ensures
        parse_rfc3339_spec(b) == Some(fields_of(dt)),
{
}

/// What the date-time writer writes, with its quotes taken off, the RFC 3339
/// reader reads back: the same year, month,
/// day, hour, minute, second and microsecond, and the zone's offset (none
/// for a naive date-time or a zone that reports none, zero for UTC).
pub proof fn lemma_datetime_roundtrip(dt: DateTimeValue)
    requires
        writable(dt),
    ensures
        ({
            let j = datetime_json(dt);
            let inner = j.subrange(1, j.len() - 1);
            parse_rfc3339_spec(inner) == Some(fields_of(dt))
        }),
{
    let j = datetime_json(dt);
    let h = head19(dt);
    let f = frac_text(dt);
    let t = tz_text(dt.tz);
    lemma_json_shape(dt);
    lemma_head19_len(dt);
    lemma_frac_len(dt);
    let inner = j.subrange(1, j.len() - 1);
    assert(inner =~= h + f + t);
    assert(inner.subrange(0, 19) =~= h);
    lemma_head_reads_back(dt, inner);
    let start: int = if dt.microsecond != 0 { 26 } else { 19 };
    assert(inner.subrange(start, inner.len() as int) =~= t);
    lemma_tz_reads_back(dt.tz, inner, start);
    if dt.microsecond != 0 {
        assert(inner.subrange(19, 26) =~= f);
        lemma_frac_reads_back(dt, inner);
    } else {
        if inner.len() > 19 {
            assert(inner[19] != 0x2e);
        }
    }
    assert(offset_start(inner) == start);
    lemma_parse_from_parts(dt, inner, start);
}

} // verus!
