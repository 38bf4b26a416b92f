//! Dates, times and date-times between text and fields, through speedate.
use vstd::prelude::*;

verus! {

#[derive(Debug, Clone, Copy, PartialEq, Eq, Structural)]
pub struct DateValue {
    pub year: u16,
    pub month: u8,
    pub day: u8,
}

/// A time of day; `tz_offset` in seconds east of UTC.
#[derive(Debug, Clone, Copy, PartialEq, Eq, Structural)]
pub struct TimeValue {
    pub hour: u8,
    pub minute: u8,
    pub second: u8,
    pub microsecond: u32,
    pub tz_offset: Option<i32>,
}

#[derive(Debug, Clone, Copy, PartialEq, Eq, Structural)]
pub struct DateTimeParts {
    pub date: DateValue,
    pub time: TimeValue,
}

/// What `speedate::Time::parse_str` makes of a text: the time, or the text
/// of its error.
pub uninterp spec fn speedate_time(s: Seq<char>) -> Result<TimeValue, Seq<char>>;

/// What `speedate::Date::parse_str` makes of a text.
pub uninterp spec fn speedate_date(s: Seq<char>) -> Result<DateValue, Seq<char>>;

/// What `speedate::DateTime::parse_str` makes of a text.
pub uninterp spec fn speedate_datetime(s: Seq<char>) -> Result<DateTimeParts, Seq<char>>;

/// `speedate::DateTime`'s `Display` text.
pub uninterp spec fn speedate_datetime_text(dt: DateTimeParts) -> Seq<char>;

/// `speedate::Time`'s `Display` text.
pub uninterp spec fn speedate_time_text(t: TimeValue) -> Seq<char>;

/// `speedate::Date`'s `Display` text.
pub uninterp spec fn speedate_date_text(d: DateValue) -> Seq<char>;

/// `str`'s `Debug` text: the text quoted, with escapes.
pub uninterp spec fn debug_text(s: Seq<char>) -> Seq<char>;

/// `r` carries the value or the error text of `n`.
pub open spec fn result_is<T>(r: Result<T, String>, n: Result<T, Seq<char>>) -> bool {
    match (r, n) {
        (Ok(a), Ok(b)) => a == b,
        (Err(e), Err(m)) => e@ == m,
        _ => false,
    }
}

/// `speedate::Time::parse_str`: the time a text spells, or the text of the
/// parse error.
#[verifier::external_body]
fn time_parse_str(s: &str) -> (r: Result<TimeValue, String>)
    ensures
        result_is(r, speedate_time(s@)),
{
    match speedate::Time::parse_str(s) {
        Ok(t) => Ok(TimeValue { hour: t.hour, minute: t.minute, second: t.second, microsecond: t.microsecond, tz_offset: t.tz_offset }),
        Err(e) => Err(e.to_string()),
    }
}

/// `speedate::Date::parse_str`: the date a text spells, or the text of the
/// parse error.
#[verifier::external_body]
fn date_parse_str(s: &str) -> (r: Result<DateValue, String>)
    ensures
        result_is(r, speedate_date(s@)),
{
    match speedate::Date::parse_str(s) {
        Ok(d) => Ok(DateValue { year: d.year, month: d.month, day: d.day }),
        Err(e) => Err(e.to_string()),
    }
}

/// `speedate::DateTime::parse_str`: the date-time a text spells, or the
/// text of the parse error.
#[verifier::external_body]
fn datetime_parse_str(s: &str) -> (r: Result<DateTimeParts, String>)
    ensures
        result_is(r, speedate_datetime(s@)),
{
    match speedate::DateTime::parse_str(s) {
        Ok(dt) => Ok(DateTimeParts {
            date: DateValue { year: dt.date.year, month: dt.date.month, day: dt.date.day },
            time: TimeValue {
                hour: dt.time.hour,
                minute: dt.time.minute,
                second: dt.time.second,
                microsecond: dt.time.microsecond,
                tz_offset: dt.time.tz_offset,
            },
        }),
        Err(e) => Err(e.to_string()),
    }
}

/// An offset `speedate` can show: under a day either way, the range its
/// `tz_offset` field documents (its `Display` writes the hours as two
/// digits and fails on more).
pub open spec fn showable_offset(tz_offset: Option<i32>) -> bool {
    tz_offset matches Some(o) ==> -86400 < o < 86400
}

/// `speedate::DateTime` shown with `Display`.
#[verifier::external_body]
fn datetime_text(dt: &DateTimeParts) -> (r: String)
    requires
        showable_offset(dt.time.tz_offset),
    ensures
        r@ == speedate_datetime_text(*dt),
{
    let date = speedate::Date { year: dt.date.year, month: dt.date.month, day: dt.date.day };
    let time = speedate::Time {
        hour: dt.time.hour,
        minute: dt.time.minute,
        second: dt.time.second,
        microsecond: dt.time.microsecond,
        tz_offset: dt.time.tz_offset,
    };
    speedate::DateTime { date, time }.to_string()
}

/// `speedate::Time` shown with `Display`.
#[verifier::external_body]
fn time_text(t: &TimeValue) -> (r: String)
    requires
        showable_offset(t.tz_offset),
    ensures
        r@ == speedate_time_text(*t),
{
    speedate::Time { hour: t.hour, minute: t.minute, second: t.second, microsecond: t.microsecond, tz_offset: t.tz_offset }.to_string()
}

/// `speedate::Date` shown with `Display`.
#[verifier::external_body]
fn date_text(d: &DateValue) -> (r: String)
    ensures
        r@ == speedate_date_text(*d),
{
    speedate::Date { year: d.year, month: d.month, day: d.day }.to_string()
}

/// `str` shown with `Debug`.
#[verifier::external_body]
fn debug_quoted(s: &str) -> (r: String)
    ensures
        r@ == debug_text(s@),
{
    format!("{:?}", s)
}

/// The message of a failed parse.
pub open spec fn parse_error_message(err: Seq<char>) -> Seq<char> {
    "Fail parse datetime "@ + debug_text(err)
}

fn parse_error(err: String) -> (r: String)
    ensures
        r@ == parse_error_message(err@),
{
    let mut msg = String::from_str("Fail parse datetime ");
    let q = debug_quoted(err.as_str());
    msg.append(q.as_str());
    msg
}

/// The date-time a text spells, or the message of the parse error.
pub fn parse_datetime(value: &str) -> (r: Result<DateTimeParts, String>)
    ensures
        match speedate_datetime(value@) {
            Ok(dt) => r == Ok::<DateTimeParts, String>(dt),
            Err(m) => r matches Err(e) && e@ == parse_error_message(m),
        },
{
    match datetime_parse_str(value) {
        Ok(dt) => Ok(dt),
        Err(e) => Err(parse_error(e)),
    }
}

/// The time a text spells, or the message of the parse error.
pub fn parse_time(value: &str) -> (r: Result<TimeValue, String>)
    ensures
        match speedate_time(value@) {
            Ok(t) => r == Ok::<TimeValue, String>(t),
            Err(m) => r matches Err(e) && e@ == parse_error_message(m),
        },
{
    match time_parse_str(value) {
        Ok(t) => Ok(t),
        Err(e) => Err(parse_error(e)),
    }
}

/// The date a text spells, or the message of the parse error.
pub fn parse_date(value: &str) -> (r: Result<DateValue, String>)
    ensures
        match speedate_date(value@) {
            Ok(d) => r == Ok::<DateValue, String>(d),
            Err(m) => r matches Err(e) && e@ == parse_error_message(m),
        },
{
    match date_parse_str(value) {
        Ok(d) => Ok(d),
        Err(e) => Err(parse_error(e)),
    }
}

/// The offset a dumped date-time carries: its zone's, else UTC for a naive
/// value when asked to, else none.
pub open spec fn dump_offset(tz_offset: Option<i32>, naive_datetime_to_utc: bool) -> Option<i32> {
    match tz_offset {
        Some(o) => Some(o),
        None => if naive_datetime_to_utc { Some(0) } else { None },
    }
}

/// The text of a date-time; `tz_offset` is what its zone reports.
pub fn dump_datetime(date: DateValue, time: TimeValue, tz_offset: Option<i32>, naive_datetime_to_utc: bool) -> (r: String)
    requires
        showable_offset(dump_offset(tz_offset, naive_datetime_to_utc)),
    ensures
        r@ == speedate_datetime_text(DateTimeParts {
            date,
            time: TimeValue { tz_offset: dump_offset(tz_offset, naive_datetime_to_utc), ..time },
        }),
        tz_offset is Some ==> r@ == speedate_datetime_text(DateTimeParts { date, time: TimeValue { tz_offset, ..time } }),
        tz_offset is None && naive_datetime_to_utc ==> r@ == speedate_datetime_text(
            DateTimeParts { date, time: TimeValue { tz_offset: Some(0i32), ..time } },
        ),
        tz_offset is None && !naive_datetime_to_utc ==> r@ == speedate_datetime_text(
            DateTimeParts { date, time: TimeValue { tz_offset: None, ..time } },
        ),
{
    let offset = match tz_offset {
        Some(o) => Some(o),
        None => if naive_datetime_to_utc { Some(0) } else { None },
    };
    let t = TimeValue { tz_offset: offset, ..time };
    datetime_text(&DateTimeParts { date, time: t })
}

/// The text of a time; `tz_offset` is what its zone reports.
pub fn dump_time(time: TimeValue, tz_offset: Option<i32>) -> (r: String)
    requires
        showable_offset(tz_offset),
    ensures
        r@ == speedate_time_text(TimeValue { tz_offset: tz_offset, ..time }),
{
    let t = TimeValue { tz_offset, ..time };
    time_text(&t)
}

/// The text of a date.
pub fn dump_date(date: DateValue) -> (r: String)
    ensures
        r@ == speedate_date_text(date),
{
    date_text(&date)
}

} // verus!
