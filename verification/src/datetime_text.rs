//! RFC 3339 date-times as text: `YYYY-MM-DD(T| )HH:MM:SS[.ffffff][Z|±HH:MM]`.
use crate::text::extend_bytes;
use vstd::prelude::*;

verus! {

/// The fields of a date-time as written in its text; `offset` is in seconds
/// east of UTC, `None` for a naive date-time.
#[derive(Debug, Clone, Copy, PartialEq, Eq, Structural)]
pub struct DateTimeFields {
    pub year: u32,
    pub month: u32,
    pub day: u32,
    pub hour: u32,
    pub minute: u32,
    pub second: u32,
    pub microsecond: u32,
    pub offset: Option<i32>,
}

/// The value of an ASCII digit.
pub open spec fn dig(b: u8) -> Option<int> {
    if 0x30 <= b <= 0x39 {
        Some(b - 0x30)
    } else {
        None
    }
}

/// The two-digit number at `i` (both bytes must be there).
pub open spec fn two_at(b: Seq<u8>, i: int) -> Option<int> {
    match dig(b[i]) {
        None => None,
        Some(hi) => match dig(b[i + 1]) {
            None => None,
            Some(lo) => Some(hi * 10 + lo),
        },
    }
}

/// Fraction digits from `i` to `end` as microseconds: the first six count,
/// scaled from 100000 down; later ones are read and ignored.
pub open spec fn frac_micros(b: Seq<u8>, i: int, end: int, scale: int) -> int
    decreases end - i,
{
    if i >= end {
        0
    } else {
        (if scale > 0 { (b[i] - 0x30) * scale } else { 0 }) + frac_micros(b, i + 1, end, scale / 10)
    }
}

/// The end of the run of digits from `i`.
pub open spec fn digits_end(b: Seq<u8>, i: int) -> int
    decreases b.len() - i,
{
    if 0 <= i < b.len() && dig(b[i]) is Some {
        digits_end(b, i + 1)
    } else {
        i
    }
}

/// Where the offset part starts: after the fraction, if any.
pub open spec fn offset_start(b: Seq<u8>) -> int {
    if 19 < b.len() && b[19] == 0x2e {
        digits_end(b, 20)
    } else {
        19
    }
}

/// The fixed-position part: length, separators and digits.
pub open spec fn rfc3339_head_ok(b: Seq<u8>) -> bool {
    &&& b.len() >= 19
    &&& b[4] == 0x2d && b[7] == 0x2d && b[13] == 0x3a && b[16] == 0x3a
    &&& (b[10] == 0x54 || b[10] == 0x74 || b[10] == 0x20)
    &&& forall|k: int| #![trigger b[k]] (0 <= k < 4 || 5 <= k < 7 || 8 <= k < 10 || 11 <= k < 13 || 14 <= k < 16 || 17 <= k < 19) ==> dig(b[k]) is Some
}

/// The offset part from `i` to the end: nothing, `Z`/`z`, or a sign, two
/// hour digits, an optional colon and two minute digits. `None` (the outer
/// option) when it is malformed.
pub open spec fn offset_part(b: Seq<u8>, i: int) -> Option<Option<int>> {
    if i >= b.len() {
        Some(None)
    } else if b[i] == 0x5a || b[i] == 0x7a {
        if i + 1 == b.len() { Some(Some(0)) } else { None }
    } else if b[i] == 0x2b || b[i] == 0x2d {
        let s = i + 1;
        let m = if s + 2 < b.len() && b[s + 2] == 0x3a { s + 3 } else { s + 2 };
        if m + 2 != b.len() {
            None
        } else {
            match (two_at(b, s), two_at(b, m)) {
                (Some(oh), Some(om)) => {
                    let secs = oh * 3600 + om * 60;
                    Some(Some(if b[i] == 0x2d { -secs } else { secs }))
                },
                _ => None,
            }
        }
    } else {
        None
    }
}

/// The fields of an RFC 3339 date-time text, `None` when it is malformed.
/// Field ranges are not checked here (a month of 13 is read as 13).
pub open spec fn parse_rfc3339_spec(b: Seq<u8>) -> Option<DateTimeFields> {
    if !rfc3339_head_ok(b) {
        None
    } else {
        let i = offset_start(b);
        if i == 20 {
            None
        } else {
            match offset_part(b, i) {
                None => None,
                Some(off) => Some(DateTimeFields {
                    year: ((b[0] - 0x30) * 1000 + (b[1] - 0x30) * 100 + (b[2] - 0x30) * 10 + (b[3] - 0x30)) as u32,
                    month: two_at(b, 5)->0 as u32,
                    day: two_at(b, 8)->0 as u32,
                    hour: two_at(b, 11)->0 as u32,
                    minute: two_at(b, 14)->0 as u32,
                    second: two_at(b, 17)->0 as u32,
                    microsecond: if i > 19 { frac_micros(b, 20, i, 100_000) as u32 } else { 0 },
                    offset: match off {
                        None => None,
                        Some(s) => Some(s as i32),
                    },
                }),
            }
        }
    }
}

fn digit(b: u8) -> (r: Option<u32>)
    ensures
        r matches Some(v) ==> dig(b) == Some(v as int),
        r is None ==> dig(b) is None,
{
    if 0x30 <= b && b <= 0x39 {
        Some((b - 0x30) as u32)
    } else {
        None
    }
}

fn two(b: &[u8], i: usize) -> (r: Option<u32>)
    requires
        i < b@.len(),
        dig(b@[i as int]) is Some ==> i + 1 < b@.len(),
    ensures
        r matches Some(v) ==> two_at(b@, i as int) == Some(v as int),
        r is None ==> two_at(b@, i as int) is None,
{
    let hi = digit(b[i])?;
    let lo = digit(b[i + 1])?;
    Some(hi * 10 + lo)
}

proof fn lemma_digits_end(b: Seq<u8>, i: int)
    requires
        0 <= i <= b.len(),
    ensures
        i <= digits_end(b, i) <= b.len(),
        forall|k: int| i <= k < digits_end(b, i) ==> dig(#[trigger] b[k]) is Some,
    decreases b.len() - i,
{
    if i < b.len() && dig(b[i]) is Some {
        lemma_digits_end(b, i + 1);
    }
}

/// Parses the offset part from `i`; `None` when malformed.
fn parse_offset(b: &[u8], i: usize) -> (r: Option<Option<i32>>)
    requires
        19 <= i <= b@.len(),
        b@.len() < usize::MAX - 4,
    ensures
        match offset_part(b@, i as int) {
            None => r is None,
            Some(None) => r == Some(None::<i32>),
            Some(Some(s)) => r == Some(Some(s as i32)) && -400_000 < s < 400_000,
        },
{
    let n = b.len();
    if i >= n {
        return Some(None);
    }
    let c = b[i];
    if c == 0x5a || c == 0x7a {
        if i + 1 == n {
            return Some(Some(0));
        }
        return None;
    }
    if c != 0x2b && c != 0x2d {
        return None;
    }
    let s = i + 1;
    let m = if s + 2 < n && b[s + 2] == 0x3a { s + 3 } else { s + 2 };
    if m + 2 != n {
        return None;
    }
    let oh = two(b, s);
    let om = two(b, m);
    if oh.is_none() || om.is_none() {
        return None;
    }
    let secs: i32 = (oh.unwrap() as i32) * 3600 + (om.unwrap() as i32) * 60;
    Some(Some(if c == 0x2d { -secs } else { secs }))
}


/// Reads an RFC 3339 date-time text into its fields; `None` when it is
/// malformed. Field ranges are left to the caller.
pub fn parse_rfc3339(b: &[u8]) -> (r: Option<DateTimeFields>)
    requires
        b@.len() < usize::MAX - 4,
    ensures
        r == parse_rfc3339_spec(b@),
{
    let n = b.len();
    if n < 19 || b[4] != 0x2d || b[7] != 0x2d || b[13] != 0x3a || b[16] != 0x3a {
        return None;
    }
    if !(b[10] == 0x54 || b[10] == 0x74 || b[10] == 0x20) {
        return None;
    }
    let y0 = digit(b[0]);
    let y1 = digit(b[1]);
    let y2 = digit(b[2]);
    let y3 = digit(b[3]);
    let month = two(b, 5);
    let day = two(b, 8);
    let hour = two(b, 11);
    let minute = two(b, 14);
    let second = two(b, 17);
    if y0.is_none() || y1.is_none() || y2.is_none() || y3.is_none() || month.is_none() || day.is_none()
        || hour.is_none() || minute.is_none() || second.is_none() {
        proof {
            assert(!rfc3339_head_ok(b@)) by {
                if y0.is_none() { assert(dig(b@[0]) is None); }
                if y1.is_none() { assert(dig(b@[1]) is None); }
                if y2.is_none() { assert(dig(b@[2]) is None); }
                if y3.is_none() { assert(dig(b@[3]) is None); }
                if month.is_none() { assert(dig(b@[5]) is None || dig(b@[6]) is None); }
                if day.is_none() { assert(dig(b@[8]) is None || dig(b@[9]) is None); }
                if hour.is_none() { assert(dig(b@[11]) is None || dig(b@[12]) is None); }
                if minute.is_none() { assert(dig(b@[14]) is None || dig(b@[15]) is None); }
                if second.is_none() { assert(dig(b@[17]) is None || dig(b@[18]) is None); }
            }
        }
        return None;
    }
    proof {
        assert forall|k: int| #![trigger b@[k]] (0 <= k < 4 || 5 <= k < 7 || 8 <= k < 10 || 11 <= k < 13 || 14 <= k < 16 || 17 <= k < 19) implies dig(b@[k]) is Some by {
            if k == 0 || k == 1 || k == 2 || k == 3 {
            } else {
                if k == 6 || k == 9 || k == 12 || k == 15 || k == 18 {
                    assert(dig(b@[k - 1]) is Some);
                }
            }
        }
        assert(rfc3339_head_ok(b@));
    }
    let year = y0.unwrap() * 1000 + y1.unwrap() * 100 + y2.unwrap() * 10 + y3.unwrap();
    let mut i: usize = 19;
    let mut micro: u32 = 0;
    if i < n && b[i] == 0x2e {
        i = 20;
        let mut scale: u32 = 100_000;
        proof {
            lemma_digits_end(b@, 20);
        }
        while i < n && digit(b[i]).is_some()
            invariant
                n == b@.len(),
                20 <= i <= n,
                digits_end(b@, i as int) == digits_end(b@, 20),
                frac_micros(b@, 20, digits_end(b@, 20), 100_000) == micro + frac_micros(b@, i as int, digits_end(b@, 20), scale as int),
                micro + 10 * scale <= 1_000_000,
            decreases n - i,
        {
            let d = digit(b[i]).unwrap();
            proof {
                assert(d <= 9);
                assert(d as int == b@[i as int] - 0x30);
                assert(digits_end(b@, i as int) == digits_end(b@, i + 1));
                lemma_digits_end(b@, i + 1);
                assert(d * scale <= 9 * scale) by (nonlinear_arith)
                    requires
                        d <= 9,
                ;
                assert(scale / 10 * 10 <= scale);
            }
            if scale > 0 {
                micro = micro + d * scale;
                scale = scale / 10;
            } else {
                scale = scale / 10;
            }
            i += 1;
        }
        if i == 20 {
            return None;
        }
    }
    assert(i as int == offset_start(b@));
    let offset = parse_offset(b, i)?;
    Some(DateTimeFields {
        year,
        month: month.unwrap(),
        day: day.unwrap(),
        hour: hour.unwrap(),
        minute: minute.unwrap(),
        second: second.unwrap(),
        microsecond: micro,
        offset,
    })
}




/// The last `width` decimal digits of `v`, zero-padded.
#[verifier::opaque]
pub open spec fn padded_digits(v: nat, width: nat) -> Seq<u8>
    decreases width,
{
    if width == 0 {
        Seq::empty()
    } else {
        padded_digits(v / 10, (width - 1) as nat).push((0x30 + v % 10) as u8)
    }
}

/// Appends the last `width` decimal digits of `v`, zero-padded.
pub fn write_u32_padded(out: &mut Vec<u8>, v: u32, width: usize)
    requires
        width <= 6,
    ensures
        final(out)@ == old(out)@ + padded_digits(v as nat, width as nat),
{
    reveal(padded_digits);
    let mut buf: Vec<u8> = vec![0x30u8; width];
    let mut i = width;
    let mut cur = v;
    let ghost mut tail: Seq<u8> = Seq::empty();
    while i > 0
        invariant
            i <= width,
            buf@.len() == width,
            buf@.subrange(i as int, width as int) == tail,
            padded_digits(v as nat, width as nat) == padded_digits(cur as nat, i as nat) + tail,
        decreases i,
    {
        i -= 1;
        let d = (0x30 + cur % 10) as u8;
        proof {
            reveal(padded_digits);
            let pd = padded_digits(cur as nat, (i + 1) as nat);
            assert(pd == padded_digits((cur / 10) as nat, i as nat).push(d));
            assert(padded_digits(cur as nat, (i + 1) as nat) + tail =~= padded_digits((cur / 10) as nat, i as nat) + (seq![d] + tail));
            tail = seq![d] + tail;
        }
        buf.set(i, d);
        cur = cur / 10;
        assert(buf@.subrange(i as int, width as int) =~= tail);
    }
    assert(padded_digits(cur as nat, 0) =~= Seq::<u8>::empty()) by {
        reveal(padded_digits);
    }
    assert(buf@ =~= buf@.subrange(0, width as int));
    assert(padded_digits(v as nat, width as nat) =~= tail);
    extend_bytes(out, buf.as_slice());
}

/// The zone of a date-time as the writer sees it: none, the UTC singleton,
/// or another zone with the offset it reports (in seconds; `None` when it
/// reports none).
#[derive(Debug, Clone, Copy, PartialEq, Eq, Structural)]
pub enum TzKind {
    Naive,
    Utc,
    Other(Option<i32>),
}

/// A date-time value to be written.
#[derive(Debug, Clone, Copy, PartialEq, Eq, Structural)]
pub struct DateTimeValue {
    pub year: u32,
    pub month: u32,
    pub day: u32,
    pub hour: u32,
    pub minute: u32,
    pub second: u32,
    pub microsecond: u32,
    pub tz: TzKind,
}

/// `±HH:MM` of an offset in seconds (minutes rounded toward zero); `Z` for
/// a zero offset.
pub open spec fn offset_text(secs: int) -> Seq<u8> {
    if secs == 0 {
        seq![0x5au8]
    } else {
        let mins = (if secs < 0 { -secs } else { secs }) / 60;
        seq![if secs < 0 { 0x2du8 } else { 0x2bu8 }] + padded_digits((mins / 60) as nat, 2) + seq![0x3au8]
            + padded_digits((mins % 60) as nat, 2)
    }
}

pub open spec fn tz_text(tz: TzKind) -> Seq<u8> {
    match tz {
        TzKind::Naive => Seq::empty(),
        TzKind::Utc => seq![0x5au8],
        TzKind::Other(None) => Seq::empty(),
        TzKind::Other(Some(secs)) => offset_text(secs as int),
    }
}

/// `"YYYY-MM-DDTHH:MM:SS[.ffffff][Z|±HH:MM]"`, quotes included; the
/// fraction only when it is not zero.
pub open spec fn datetime_json(dt: DateTimeValue) -> Seq<u8> {
    seq![0x22u8] + padded_digits(dt.year as nat, 4) + seq![0x2du8] + padded_digits(dt.month as nat, 2)
        + seq![0x2du8] + padded_digits(dt.day as nat, 2) + seq![0x54u8] + padded_digits(dt.hour as nat, 2)
        + seq![0x3au8] + padded_digits(dt.minute as nat, 2) + seq![0x3au8] + padded_digits(dt.second as nat, 2)
        + (if dt.microsecond != 0 { seq![0x2eu8] + padded_digits(dt.microsecond as nat, 6) } else { Seq::empty() })
        + tz_text(dt.tz) + seq![0x22u8]
}

/// Appends the offset of a zone other than UTC.
pub fn write_tz_offset(out: &mut Vec<u8>, secs: i32)
    ensures
        final(out)@ == old(out)@ + offset_text(secs as int),
{
    if secs == 0 {
        out.push(0x5a);
        assert(out@ =~= old(out)@ + offset_text(secs as int));
        return;
    }
    let abs: u32 = if secs < 0 { ((-(secs + 1)) as u32) + 1 } else { secs as u32 };
    let mins = abs / 60;
    let sign: u8 = if secs < 0 { 0x2d } else { 0x2b };
    out.push(sign);
    write_u32_padded(out, mins / 60, 2);
    out.push(0x3a);
    write_u32_padded(out, mins % 60, 2);
    assert(out@ =~= old(out)@ + offset_text(secs as int));
}


/// Appends a date-time as a JSON string.
pub fn write_datetime(out: &mut Vec<u8>, dt: &DateTimeValue)
    ensures
        final(out)@ == old(out)@ + datetime_json(*dt),
{
    out.reserve(40);
    out.push(0x22);
    write_u32_padded(out, dt.year, 4);
    out.push(0x2d);
    write_u32_padded(out, dt.month, 2);
    out.push(0x2d);
    write_u32_padded(out, dt.day, 2);
    out.push(0x54);
    write_u32_padded(out, dt.hour, 2);
    out.push(0x3a);
    write_u32_padded(out, dt.minute, 2);
    out.push(0x3a);
    write_u32_padded(out, dt.second, 2);
    let ghost mid = out@;
    if dt.microsecond != 0 {
        out.push(0x2e);
        write_u32_padded(out, dt.microsecond, 6);
    }
    let ghost after_frac = out@;
    match dt.tz {
        TzKind::Utc => out.push(0x5a),
        TzKind::Other(Some(secs)) => write_tz_offset(out, secs),
        _ => {},
    }
    assert(out@ =~= after_frac + tz_text(dt.tz));
    out.push(0x22);
    assert(out@ =~= old(out)@ + datetime_json(*dt));
}

} // verus!
