//! Cursor over a JSON document for a reader that knows, at each step, which
//! JSON type the schema expects. Every reader either consumes exactly the
//! token it names or reports the position where the input departs from it.
use crate::msgpack_writer::digits_value;
use crate::stacks::{BYTE_BUF_LIMIT, ByteBuf, bytes_of};
use vstd::prelude::*;
use vstd::utf8::{
    encode_scalar, is_scalar, last_continuation_byte, leading_byte_width_1, leading_byte_width_2,
    leading_byte_width_3, leading_byte_width_4, second_last_continuation_byte,
    third_last_continuation_byte,
};

verus! {

/// Nesting cap for skipping an unknown value.
pub const MAX_SKIP_DEPTH: u32 = 64;

/// What the input failed to be.
#[derive(Debug, Clone, Copy, PartialEq, Eq, Structural)]
pub enum ScanErrorKind {
    TrailingData,
    ExpectedObject,
    ExpectedCommaOrBrace,
    ExpectedObjectKey,
    ExpectedColon,
    PlanExpectedComma,
    PlanExpectedKey,
    PlanKeyLengthMismatch,
    PlanExpectedColon,
    PlanExpectedBrace,
    ExpectedArray,
    ExpectedCommaOrBracket,
    ExpectedNull,
    ExpectedBool,
    ExpectedInteger,
    ExpectedIntegerFoundFloat,
    IntegerOutOfRange,
    UnterminatedString,
    ExpectedString,
    RecursionLimitExceeded,
    UnexpectedToken,
    TruncatedEscape,
    InvalidEscape,
    TruncatedUnicodeEscape,
    InvalidUnicodeEscape,
}

/// A syntax error and the byte position it was found at.
#[derive(Debug, Clone, Copy, PartialEq, Eq, Structural)]
pub struct ScanError {
    pub kind: ScanErrorKind,
    pub at: usize,
}

pub open spec fn serr(kind: ScanErrorKind, at: int) -> ScanError {
    ScanError { kind, at: at as usize }
}

/// The text of each scan error.
pub open spec fn scan_error_text(kind: ScanErrorKind) -> Seq<char> {
    match kind {
        ScanErrorKind::TrailingData => "trailing data"@,
        ScanErrorKind::ExpectedObject => "expected '{'"@,
        ScanErrorKind::ExpectedCommaOrBrace => "expected ',' or '}'"@,
        ScanErrorKind::ExpectedObjectKey => "expected object key"@,
        ScanErrorKind::ExpectedColon => "expected ':'"@,
        ScanErrorKind::PlanExpectedComma => "ordered plan: expected ','"@,
        ScanErrorKind::PlanExpectedKey => "ordered plan: expected key"@,
        ScanErrorKind::PlanKeyLengthMismatch => "ordered plan: key length mismatch"@,
        ScanErrorKind::PlanExpectedColon => "ordered plan: expected ':'"@,
        ScanErrorKind::PlanExpectedBrace => "ordered plan: expected '}'"@,
        ScanErrorKind::ExpectedArray => "expected '['"@,
        ScanErrorKind::ExpectedCommaOrBracket => "expected ',' or ']'"@,
        ScanErrorKind::ExpectedNull => "expected null"@,
        ScanErrorKind::ExpectedBool => "expected bool"@,
        ScanErrorKind::ExpectedInteger => "expected integer"@,
        ScanErrorKind::ExpectedIntegerFoundFloat => "expected integer, found float"@,
        ScanErrorKind::IntegerOutOfRange => "integer out of range"@,
        ScanErrorKind::UnterminatedString => "unterminated string"@,
        ScanErrorKind::ExpectedString => "expected string"@,
        ScanErrorKind::RecursionLimitExceeded => "recursion limit exceeded"@,
        ScanErrorKind::UnexpectedToken => "unexpected token"@,
        ScanErrorKind::TruncatedEscape => "truncated escape"@,
        ScanErrorKind::InvalidEscape => "invalid escape"@,
        ScanErrorKind::TruncatedUnicodeEscape => "truncated \\u escape"@,
        ScanErrorKind::InvalidUnicodeEscape => "invalid \\u escape"@,
    }
}

impl ScanError {
    /// The text of the error, without its position.
    pub fn message(&self) -> (r: &'static str)
        ensures
            r@ == scan_error_text(self.kind),
    {
        match self.kind {
            ScanErrorKind::TrailingData => "trailing data",
            ScanErrorKind::ExpectedObject => "expected '{'",
            ScanErrorKind::ExpectedCommaOrBrace => "expected ',' or '}'",
            ScanErrorKind::ExpectedObjectKey => "expected object key",
            ScanErrorKind::ExpectedColon => "expected ':'",
            ScanErrorKind::PlanExpectedComma => "ordered plan: expected ','",
            ScanErrorKind::PlanExpectedKey => "ordered plan: expected key",
            ScanErrorKind::PlanKeyLengthMismatch => "ordered plan: key length mismatch",
            ScanErrorKind::PlanExpectedColon => "ordered plan: expected ':'",
            ScanErrorKind::PlanExpectedBrace => "ordered plan: expected '}'",
            ScanErrorKind::ExpectedArray => "expected '['",
            ScanErrorKind::ExpectedCommaOrBracket => "expected ',' or ']'",
            ScanErrorKind::ExpectedNull => "expected null",
            ScanErrorKind::ExpectedBool => "expected bool",
            ScanErrorKind::ExpectedInteger => "expected integer",
            ScanErrorKind::ExpectedIntegerFoundFloat => "expected integer, found float",
            ScanErrorKind::IntegerOutOfRange => "integer out of range",
            ScanErrorKind::UnterminatedString => "unterminated string",
            ScanErrorKind::ExpectedString => "expected string",
            ScanErrorKind::RecursionLimitExceeded => "recursion limit exceeded",
            ScanErrorKind::UnexpectedToken => "unexpected token",
            ScanErrorKind::TruncatedEscape => "truncated escape",
            ScanErrorKind::InvalidEscape => "invalid escape",
            ScanErrorKind::TruncatedUnicodeEscape => "truncated \\u escape",
            ScanErrorKind::InvalidUnicodeEscape => "invalid \\u escape",
        }
    }
}

/// The byte classes a scan stops on.
#[derive(Debug, Clone, Copy, PartialEq, Eq, Structural)]
pub enum Stop {
    /// `"`, `\`, or a non-ASCII byte.
    StringEnd,
    /// `"` or `\`.
    QuoteOrBackslash,
    /// `"`, `\`, or a control character.
    NeedsEscape,
}

pub open spec fn stop_matches(stop: Stop, b: u8) -> bool {
    match stop {
        Stop::StringEnd => b == 0x22 || b == 0x5c || b >= 0x80,
        Stop::QuoteOrBackslash => b == 0x22 || b == 0x5c,
        Stop::NeedsEscape => b == 0x22 || b == 0x5c || b < 0x20,
    }
}

/// Whether `b` belongs to `stop`'s class.
pub fn matches(stop: Stop, b: u8) -> (r: bool)
    ensures
        r == stop_matches(stop, b),
{
    match stop {
        Stop::StringEnd => b == 0x22 || b == 0x5c || b >= 0x80,
        Stop::QuoteOrBackslash => b == 0x22 || b == 0x5c,
        Stop::NeedsEscape => b == 0x22 || b == 0x5c || b < 0x20,
    }
}

/// Index of the first byte at or after `from` in `stop`'s class; the length
/// of `d` when there is none.
pub open spec fn first_from(stop: Stop, d: Seq<u8>, from: int) -> int
    decreases d.len() - from,
{
    if from >= d.len() {
        d.len() as int
    } else if from >= 0 && stop_matches(stop, d[from]) {
        from
    } else {
        first_from(stop, d, from + 1)
    }
}

pub proof fn lemma_first_from(stop: Stop, d: Seq<u8>, from: int)
    requires
        0 <= from,
    ensures
        from <= d.len() ==> from <= first_from(stop, d, from) <= d.len(),
        from > d.len() ==> first_from(stop, d, from) == d.len(),
        first_from(stop, d, from) < d.len() ==> stop_matches(stop, d[first_from(stop, d, from)]),
        forall|k: int| from <= k < first_from(stop, d, from) ==> !stop_matches(stop, #[trigger] d[k]),
    decreases d.len() - from,
{
    if from < d.len() && !stop_matches(stop, d[from]) {
        lemma_first_from(stop, d, from + 1);
    }
}

/// Index of the first byte at or after `from` that belongs to `stop`'s class.
pub fn find(stop: Stop, bytes: &[u8], from: usize) -> (r: Option<usize>)
    ensures
        r == (if first_from(stop, bytes@, from as int) < bytes@.len() {
            Some(first_from(stop, bytes@, from as int) as usize)
        } else {
            None::<usize>
        }),
{
    let mut i = from;
    proof {
        lemma_first_from(stop, bytes@, from as int);
    }
    while i < bytes.len()
        invariant
            from <= i,
            first_from(stop, bytes@, i as int) == first_from(stop, bytes@, from as int),
        decreases bytes@.len() - i,
    {
        if matches(stop, bytes[i]) {
            return Some(i);
        }
        i += 1;
    }
    None
}

/// The byte at `i`, or 0 past the end.
pub open spec fn cur_at(d: Seq<u8>, i: int) -> u8 {
    if 0 <= i < d.len() {
        d[i]
    } else {
        0
    }
}

/// The first position at or after `i` that is not whitespace (any byte up to
/// 0x20 counts as whitespace).
pub open spec fn ws_end(d: Seq<u8>, i: int) -> int
    decreases d.len() - i,
{
    if 0 <= i < d.len() && d[i] <= 0x20 {
        ws_end(d, i + 1)
    } else {
        i
    }
}

pub proof fn lemma_ws_end(d: Seq<u8>, i: int)
    requires
        0 <= i <= d.len(),
    ensures
        i <= ws_end(d, i) <= d.len(),
    decreases d.len() - i,
{
    if i < d.len() && d[i] <= 0x20 {
        lemma_ws_end(d, i + 1);
    }
}

pub struct Scan<'a> {
    d: &'a [u8],
    i: usize,
}

impl<'a> Scan<'a> {
    pub closed spec fn data(&self) -> Seq<u8> {
        self.d@
    }

    /// The cursor.
    pub closed spec fn pos(&self) -> int {
        self.i as int
    }

    /// The cursor stays within the document.
    pub closed spec fn wf(&self) -> bool {
        &&& self.i <= self.d@.len()
        &&& self.d@.len() < usize::MAX
    }

    pub fn new(d: &'a [u8]) -> (s: Self)
        requires
            d@.len() < usize::MAX,
        ensures
            s.wf(),
            s.data() == d@,
            s.pos() == 0,
    {
        Scan { d, i: 0 }
    }

    pub fn position(&self) -> (r: usize)
        ensures
            r == self.pos(),
    {
        self.i
    }

    /// The byte at the cursor; 0 past the end, which no token starts with.
    pub fn cur(&self) -> (r: u8)
        ensures
            r == cur_at(self.data(), self.pos()),
    {
        if self.i < self.d.len() {
            self.d[self.i]
        } else {
            0
        }
    }

    /// Skips whitespace.
    pub fn ws(&mut self)
        requires
            old(self).wf(),
        ensures
            final(self).wf(),
            final(self).data() == old(self).data(),
            final(self).pos() == ws_end(old(self).data(), old(self).pos()),
    {
        let d = self.d;
        let mut i = self.i;
        proof {
            lemma_ws_end(d@, i as int);
        }
        while i < d.len() && d[i] <= 0x20
            invariant
                i <= d@.len(),
                ws_end(d@, i as int) == ws_end(d@, old(self).i as int),
            decreases d@.len() - i,
        {
            i += 1;
        }
        self.i = i;
    }

    /// Only whitespace may follow the top-level value.
    pub fn finish(&mut self) -> (r: Result<(), ScanError>)
        requires
            old(self).wf(),
        ensures
            final(self).wf(),
            final(self).data() == old(self).data(),
            final(self).pos() == ws_end(old(self).data(), old(self).pos()),
            r == (if final(self).pos() == old(self).data().len() {
                Ok::<(), ScanError>(())
            } else {
                Err(serr(ScanErrorKind::TrailingData, final(self).pos()))
            }),
    {
        self.ws();
        if self.i == self.d.len() {
            Ok(())
        } else {
            Err(ScanError { kind: ScanErrorKind::TrailingData, at: self.i })
        }
    }

    /// Consumes `b`, or reports `kind` at the cursor.
    pub fn expect(&mut self, b: u8, kind: ScanErrorKind) -> (r: Result<(), ScanError>)
        requires
            old(self).wf(),
            b != 0,
        ensures
            final(self).wf(),
            final(self).data() == old(self).data(),
            cur_at(old(self).data(), old(self).pos()) == b ==> (r is Ok && final(self).pos()
                == old(self).pos() + 1),
            cur_at(old(self).data(), old(self).pos()) != b ==> (r == Err::<(), ScanError>(serr(kind, old(self).pos()))
                && final(self).pos() == old(self).pos()),
    {
        if self.i < self.d.len() && self.d[self.i] == b {
            self.i += 1;
            Ok(())
        } else {
            Err(ScanError { kind, at: self.i })
        }
    }

    /// Consumes `{`.
    pub fn enter_object(&mut self) -> (r: Result<(), ScanError>)
        requires
            old(self).wf(),
        ensures
            final(self).wf(),
            final(self).data() == old(self).data(),
            cur_at(old(self).data(), old(self).pos()) == 0x7b ==> (r is Ok && final(self).pos()
                == old(self).pos() + 1),
            cur_at(old(self).data(), old(self).pos()) != 0x7b ==> r == Err::<(), ScanError>(serr(ScanErrorKind::ExpectedObject, old(self).pos())),
    {
        self.expect(0x7b, ScanErrorKind::ExpectedObject)
    }

    /// Consumes `[`.
    pub fn enter_array(&mut self) -> (r: Result<(), ScanError>)
        requires
            old(self).wf(),
        ensures
            final(self).wf(),
            final(self).data() == old(self).data(),
            cur_at(old(self).data(), old(self).pos()) == 0x5b ==> (r is Ok && final(self).pos()
                == old(self).pos() + 1),
            cur_at(old(self).data(), old(self).pos()) != 0x5b ==> r == Err::<(), ScanError>(serr(ScanErrorKind::ExpectedArray, old(self).pos())),
    {
        self.expect(0x5b, ScanErrorKind::ExpectedArray)
    }

    /// `Ok(true)`: an element follows (a `,` between elements is consumed);
    /// `Ok(false)`: the array ended (its `]` is consumed).
    pub fn next_item(&mut self, first: bool) -> (r: Result<bool, ScanError>)
        requires
            old(self).wf(),
        ensures
            final(self).wf(),
            final(self).data() == old(self).data(),
            match next_item_spec(old(self).data(), old(self).pos(), first) {
                Ok((more, p)) => r == Ok::<bool, ScanError>(more) && final(self).pos() == p,
                Err(e) => r == Err::<bool, ScanError>(e),
            },
    {
        self.ws();
        let c = self.cur();
        if c == 0x5d {
            self.i += 1;
            Ok(false)
        } else if c == 0x2c && !first {
            self.i += 1;
            self.ws();
            Ok(true)
        } else if first {
            Ok(true)
        } else {
            Err(ScanError { kind: ScanErrorKind::ExpectedCommaOrBracket, at: self.i })
        }
    }

    /// Whether the bytes at the cursor begin with `lit`.
    fn at_literal(&self, lit: &[u8]) -> (r: bool)
        requires
            self.wf(),
        ensures
            r == (self.pos() + lit@.len() <= self.data().len() && self.data().subrange(
                self.pos(),
                self.pos() + lit@.len(),
            ) == lit@),
    {
        if lit.len() > self.d.len() - self.i {
            return false;
        }
        let mut k: usize = 0;
        while k < lit.len()
            invariant
                self.wf(),
                self.i + lit@.len() <= self.d@.len(),
                k <= lit@.len(),
                self.d@.subrange(self.i as int, self.i + k) == lit@.subrange(0, k as int),
            decreases lit@.len() - k,
        {
            if self.d[self.i + k] != lit[k] {
                assert(self.d@.subrange(self.i as int, self.i + lit@.len())[k as int] != lit@[k as int]);
                return false;
            }
            k += 1;
            assert(self.d@.subrange(self.i as int, self.i + k) =~= self.d@.subrange(
                self.i as int,
                self.i + k - 1,
            ).push(self.d@[self.i + k - 1]));
            assert(lit@.subrange(0, k as int) =~= lit@.subrange(0, k - 1).push(lit@[k - 1]));
        }
        assert(lit@.subrange(0, k as int) =~= lit@);
        true
    }

    /// `null`.
    pub fn take_null(&mut self) -> (r: Result<(), ScanError>)
        requires
            old(self).wf(),
        ensures
            final(self).wf(),
            final(self).data() == old(self).data(),
            starts_with_at(old(self).data(), old(self).pos(), null_lit()) ==> (r is Ok && final(self).pos() == old(self).pos() + 4),
            !starts_with_at(old(self).data(), old(self).pos(), null_lit()) ==> (r == Err::<(), ScanError>(serr(ScanErrorKind::ExpectedNull, old(self).pos())) && final(self).pos() == old(self).pos()),
    {
        let lit: [u8; 4] = [0x6e, 0x75, 0x6c, 0x6c];
        assert(lit@ =~= null_lit());
        if self.at_literal(lit.as_slice()) {
            self.i += 4;
            Ok(())
        } else {
            Err(ScanError { kind: ScanErrorKind::ExpectedNull, at: self.i })
        }
    }

    /// `true` or `false`.
    pub fn take_bool(&mut self) -> (r: Result<bool, ScanError>)
        requires
            old(self).wf(),
        ensures
            final(self).wf(),
            final(self).data() == old(self).data(),
            ({
                let d = old(self).data();
                let i = old(self).pos();
                if starts_with_at(d, i, true_lit()) {
                    r == Ok::<bool, ScanError>(true) && final(self).pos() == i + 4
                } else if starts_with_at(d, i, false_lit()) {
                    r == Ok::<bool, ScanError>(false) && final(self).pos() == i + 5
                } else {
                    r == Err::<bool, ScanError>(serr(ScanErrorKind::ExpectedBool, i)) && final(self).pos() == i
                }
            }),
    {
        let t: [u8; 4] = [0x74, 0x72, 0x75, 0x65];
        let f: [u8; 5] = [0x66, 0x61, 0x6c, 0x73, 0x65];
        assert(t@ =~= true_lit());
        assert(f@ =~= false_lit());
        if self.at_literal(t.as_slice()) {
            self.i += 4;
            Ok(true)
        } else if self.at_literal(f.as_slice()) {
            self.i += 5;
            Ok(false)
        } else {
            Err(ScanError { kind: ScanErrorKind::ExpectedBool, at: self.i })
        }
    }

    /// An integer token as `i64`. A float-shaped token, more than 19 digits
    /// or a magnitude beyond `i64` is an error.
    pub fn take_i64(&mut self) -> (r: Result<i64, ScanError>)
        requires
            old(self).wf(),
        ensures
            final(self).wf(),
            final(self).data() == old(self).data(),
            match take_i64_spec(old(self).data(), old(self).pos()) {
                Ok((v, end)) => r == Ok::<i64, ScanError>(v) && final(self).pos() == end,
                Err(e) => r == Err::<i64, ScanError>(e),
            },
    {
        let start = self.i;
        let d = self.d;
        let n = d.len();
        let neg = self.cur() == 0x2d;
        if neg {
            self.i += 1;
        }
        let from = self.i;
        let mut acc: u64 = 0;
        proof {
            lemma_digit_run(d@, from as int);
        }
        while self.i < n && 0x30 <= d[self.i] && d[self.i] <= 0x39
            invariant
                self.d == d,
                n == d@.len(),
                n < usize::MAX,
                from <= self.i <= n,
                digit_run(d@, self.i as int) == digit_run(d@, from as int),
                forall|k: int| from <= k < self.i ==> 0x30 <= #[trigger] d@[k] <= 0x39,
                self.i - from <= 19 ==> acc == digits_value(d@.subrange(from as int, self.i as int)),
                self.i - from <= 19 ==> acc < pow10(self.i - from),
            decreases n - self.i,
        {
            let c = d[self.i];
            let ghost prev = d@.subrange(from as int, self.i as int);
            proof {
                lemma_digits_value_push(prev, c);
                assert(d@.subrange(from as int, self.i + 1) =~= prev.push(c));
            }
            if self.i - from < 19 {
                proof {
                    lemma_pow10_step(self.i - from);
                }
                acc = acc * 10 + (c - 0x30) as u64;
            }
            self.i += 1;
        }
        let end = self.i;
        let ndigits = end - from;
        if ndigits == 0 || ndigits > 19 {
            return Err(ScanError { kind: ScanErrorKind::ExpectedInteger, at: start });
        }
        let c = self.cur();
        if c == 0x2e || c == 0x65 || c == 0x45 {
            return Err(ScanError { kind: ScanErrorKind::ExpectedIntegerFoundFloat, at: start });
        }
        if neg {
            if acc > 0x8000_0000_0000_0000u64 {
                return Err(ScanError { kind: ScanErrorKind::IntegerOutOfRange, at: start });
            }
            if acc == 0x8000_0000_0000_0000u64 {
                Ok(i64::MIN)
            } else {
                Ok(-(acc as i64))
            }
        } else {
            if acc > 0x7fff_ffff_ffff_ffffu64 {
                return Err(ScanError { kind: ScanErrorKind::IntegerOutOfRange, at: start });
            }
            Ok(acc as i64)
        }
    }

    /// Steps over a key known to have `key_len` bytes, checking the quotes
    /// around it and the `:` after it (and the `,` before it unless `first`).
    pub fn skip_known_key(&mut self, key_len: usize, first: bool) -> (r: Result<(), ScanError>)
        requires
            old(self).wf(),
            key_len < usize::MAX - old(self).data().len() - 1,
        ensures
            final(self).data() == old(self).data(),
            match known_key_spec(old(self).data(), old(self).pos(), key_len as int, first) {
                Ok(p) => r is Ok && final(self).wf() && final(self).pos() == p,
                Err(e) => r == Err::<(), ScanError>(e),
            },
    {
        self.ws();
        if !first {
            self.expect(0x2c, ScanErrorKind::PlanExpectedComma)?;
            self.ws();
        }
        self.expect(0x22, ScanErrorKind::PlanExpectedKey)?;
        let e = self.i + key_len;
        if e >= self.d.len() || self.d[e] != 0x22 {
            return Err(ScanError { kind: ScanErrorKind::PlanKeyLengthMismatch, at: e });
        }
        self.i = e + 1;
        self.ws();
        self.expect(0x3a, ScanErrorKind::PlanExpectedColon)?;
        self.ws();
        Ok(())
    }
}

/// Stepping over a member key whose length is known without reading it:
/// the comma before it unless it is the first, the quoted key of
/// `key_len` bytes, and the colon after it. The position after the colon
/// and the whitespace that follows, or the first thing that is missing.
pub open spec fn known_key_spec(d: Seq<u8>, pos: int, key_len: int, first: bool) -> Result<int, ScanError> {
    let a = ws_end(d, pos);
    let q = if first { a } else { ws_end(d, a + 1) };
    let e = q + 1 + key_len;
    let w = ws_end(d, e + 1);
    if !first && cur_at(d, a) != 0x2c {
        Err(serr(ScanErrorKind::PlanExpectedComma, a))
    } else if cur_at(d, q) != 0x22 {
        Err(serr(ScanErrorKind::PlanExpectedKey, q))
    } else if cur_at(d, e) != 0x22 {
        Err(serr(ScanErrorKind::PlanKeyLengthMismatch, e))
    } else if cur_at(d, w) != 0x3a {
        Err(serr(ScanErrorKind::PlanExpectedColon, w))
    } else {
        Ok(ws_end(d, w + 1))
    }
}

pub open spec fn null_lit() -> Seq<u8> {
    seq![0x6eu8, 0x75u8, 0x6cu8, 0x6cu8]
}

pub open spec fn true_lit() -> Seq<u8> {
    seq![0x74u8, 0x72u8, 0x75u8, 0x65u8]
}

pub open spec fn false_lit() -> Seq<u8> {
    seq![0x66u8, 0x61u8, 0x6cu8, 0x73u8, 0x65u8]
}

/// `d` holds `lit` at position `i`.
pub open spec fn starts_with_at(d: Seq<u8>, i: int, lit: Seq<u8>) -> bool {
    i + lit.len() <= d.len() && d.subrange(i, i + lit.len()) == lit
}

/// The integer token at `start`: an optional `-` and at most 19 digits,
/// not followed by a fraction or an exponent, within `i64`. Its value and
/// the position after it, or what is wrong with it.
pub open spec fn take_i64_spec(d: Seq<u8>, start: int) -> Result<(i64, int), ScanError> {
    let neg = cur_at(d, start) == 0x2d;
    let from = if neg { start + 1 } else { start };
    let end = digit_run(d, from);
    let v = digits_value(d.subrange(from, end));
    if end == from || end - from > 19 {
        Err(serr(ScanErrorKind::ExpectedInteger, start))
    } else if is_float_mark(cur_at(d, end)) {
        Err(serr(ScanErrorKind::ExpectedIntegerFoundFloat, start))
    } else if (neg && v > 0x8000_0000_0000_0000) || (!neg && v > i64::MAX) {
        Err(serr(ScanErrorKind::IntegerOutOfRange, start))
    } else {
        Ok(((if neg { -v } else { v }) as i64, end))
    }
}

/// `.`, `e` or `E`: the byte after digits that makes a number a float.
pub open spec fn is_float_mark(b: u8) -> bool {
    b == 0x2e || b == 0x65 || b == 0x45
}

/// The end of the run of ASCII digits that starts at `i`.
pub open spec fn digit_run(d: Seq<u8>, i: int) -> int
    decreases d.len() - i,
{
    if 0 <= i < d.len() && 0x30 <= d[i] <= 0x39 {
        digit_run(d, i + 1)
    } else {
        i
    }
}

pub proof fn lemma_digit_run(d: Seq<u8>, i: int)
    requires
        0 <= i <= d.len(),
    ensures
        i <= digit_run(d, i) <= d.len(),
        forall|k: int| i <= k < digit_run(d, i) ==> 0x30 <= #[trigger] d[k] <= 0x39,
        digit_run(d, i) < d.len() ==> !(0x30 <= d[digit_run(d, i)] <= 0x39),
    decreases d.len() - i,
{
    if i < d.len() && 0x30 <= d[i] <= 0x39 {
        lemma_digit_run(d, i + 1);
    }
}

pub open spec fn pow10(n: int) -> int
    decreases n,
{
    if n <= 0 {
        1
    } else {
        10 * pow10(n - 1)
    }
}

proof fn lemma_pow10_mono(n: int)
    requires
        0 <= n <= 18,
    ensures
        0 < pow10(n) <= pow10(18),
    decreases 18 - n,
{
    if n < 18 {
        lemma_pow10_mono(n + 1);
    }
    assert(pow10(n) > 0) by {
        lemma_pow10_pos(n);
    }
}

proof fn lemma_pow10_pos(n: int)
    ensures
        pow10(n) > 0,
    decreases n,
{
    if n > 0 {
        lemma_pow10_pos(n - 1);
    }
}

proof fn lemma_pow10_step(n: int)
    requires
        0 <= n < 19,
    ensures
        pow10(n + 1) == 10 * pow10(n),
        pow10(n) <= 1_000_000_000_000_000_000,
{
    lemma_pow10_mono(n);
    assert(pow10(18) == 1_000_000_000_000_000_000) by {
        reveal_with_fuel(pow10, 19);
    }
}

proof fn lemma_digits_value_push(s: Seq<u8>, c: u8)
    ensures
        digits_value(s.push(c)) == digits_value(s) * 10 + (c - 0x30),
{
    assert(s.push(c).drop_last() =~= s);
}


/// The closing quote of a string whose contents start at `i`: a `\` makes
/// the byte after it part of the contents.
pub open spec fn string_close(d: Seq<u8>, i: int) -> Option<int>
    decreases d.len() + 1 - i,
{
    if i < 0 || i >= d.len() {
        None
    } else if d[i] == 0x22 {
        Some(i)
    } else if d[i] == 0x5c {
        string_close(d, i + 2)
    } else {
        string_close(d, i + 1)
    }
}

/// Bytes that are neither `"` nor `\` do not move the closing quote.
pub proof fn lemma_string_close_skip(d: Seq<u8>, i: int, k: int)
    requires
        0 <= i <= k <= d.len(),
        forall|j: int| i <= j < k ==> !stop_matches(Stop::QuoteOrBackslash, #[trigger] d[j]),
    ensures
        string_close(d, i) == string_close(d, k),
        string_close(d, i) matches Some(c) ==> c >= k,
    decreases k - i,
{
    if i < k {
        lemma_string_close_skip(d, i + 1, k);
    }
    lemma_string_close_ge(d, k);
}

pub proof fn lemma_string_close_ge(d: Seq<u8>, i: int)
    ensures
        string_close(d, i) matches Some(c) ==> i <= c < d.len() && d[c] == 0x22,
    decreases d.len() + 1 - i,
{
    if 0 <= i < d.len() && d[i] != 0x22 {
        if d[i] == 0x5c {
            lemma_string_close_ge(d, i + 2);
        } else {
            lemma_string_close_ge(d, i + 1);
        }
    }
}

/// The three shapes of a string token.
#[derive(Debug, Clone, Copy, PartialEq, Eq, Structural)]
pub enum StrKind {
    /// No escapes, every byte below 0x80.
    Ascii,
    /// No escapes, some byte at or above 0x80.
    Utf8,
    /// Contains at least one `\`.
    Escaped,
}

pub open spec fn has_backslash(s: Seq<u8>) -> bool {
    exists|k: int| 0 <= k < s.len() && s[k] == 0x5c
}

pub open spec fn has_high_byte(s: Seq<u8>) -> bool {
    exists|k: int| 0 <= k < s.len() && s[k] >= 0x80
}

/// The shape of a string token with contents `s`.
pub open spec fn token_kind(s: Seq<u8>) -> StrKind {
    if has_backslash(s) {
        StrKind::Escaped
    } else if has_high_byte(s) {
        StrKind::Utf8
    } else {
        StrKind::Ascii
    }
}

/// A string token still in the input buffer, escapes and all.
pub enum StrTok<'a> {
    Ascii(&'a [u8]),
    Utf8(&'a [u8]),
    Escaped(&'a [u8]),
}

pub open spec fn tok_kind(t: StrTok) -> StrKind {
    match t {
        StrTok::Ascii(_) => StrKind::Ascii,
        StrTok::Utf8(_) => StrKind::Utf8,
        StrTok::Escaped(_) => StrKind::Escaped,
    }
}

pub open spec fn tok_bytes(t: StrTok) -> Seq<u8> {
    match t {
        StrTok::Ascii(s) => s@,
        StrTok::Utf8(s) => s@,
        StrTok::Escaped(s) => s@,
    }
}

/// The contents' span of the string token whose `"` is at `i`: from `i + 1`
/// to its closing quote.
pub open spec fn string_span(d: Seq<u8>, i: int) -> Result<(int, int), ScanError> {
    match string_close(d, i + 1) {
        Some(c) => Ok((i + 1, c)),
        None => Err(serr(ScanErrorKind::UnterminatedString, i + 1)),
    }
}

/// `t` is the token of the span `start..close` of `d`.
pub open spec fn tok_is(t: StrTok, d: Seq<u8>, start: int, close: int) -> bool {
    tok_bytes(t) == d.subrange(start, close) && tok_kind(t) == token_kind(d.subrange(start, close))
}

/// What reading the string token at `i` does: the token on success, with the
/// cursor after its closing quote; the cursor unmoved on failure.
pub open spec fn scanned_string(d: Seq<u8>, i: int, r: Result<StrTok, ScanError>, pos: int) -> bool {
    match string_span(d, i) {
        Ok((start, close)) => r matches Ok(t) && tok_is(t, d, start, close) && pos == close + 1,
        Err(e) => r == Err::<StrTok, ScanError>(e) && pos == i,
    }
}

proof fn lemma_no_byte(s: Seq<u8>, d: Seq<u8>, from: int, to: int)
    requires
        0 <= from <= to <= d.len(),
        s == d.subrange(from, to),
        forall|j: int| from <= j < to ==> d[j] != 0x5c,
    ensures
        !has_backslash(s),
{
    assert forall|k: int| 0 <= k < s.len() implies s[k] != 0x5c by {
        assert(s[k] == d[from + k]);
    }
}

impl<'a> Scan<'a> {
    /// Fast path: a `"`-led string with no escape and no non-ASCII byte.
    /// `None` leaves the cursor where it was.
    fn ascii_span(&mut self) -> (r: Option<&'a [u8]>)
        requires
            old(self).wf(),
            cur_at(old(self).data(), old(self).pos()) == 0x22,
        ensures
            final(self).wf(),
            final(self).data() == old(self).data(),
            ({
                let d = old(self).data();
                let a = first_from(Stop::StringEnd, d, old(self).pos() + 1);
                if a < d.len() && d[a] == 0x22 {
                    r matches Some(s) && s@ == d.subrange(old(self).pos() + 1, a) && final(self).pos() == a + 1
                } else {
                    r is None && final(self).pos() == old(self).pos()
                }
            }),
    {
        let start = self.i + 1;
        proof {
            lemma_first_from(Stop::StringEnd, self.d@, start as int);
        }
        let at = match find(Stop::StringEnd, self.d, start) {
            Some(at) => at,
            None => return None,
        };
        if self.d[at] != 0x22 {
            return None;
        }
        self.i = at + 1;
        Some(&self.d[start..at])
    }

    /// A `\` was seen in the string whose contents start at `start`: walks
    /// to the closing quote escape-aware.
    fn scan_escaped(&mut self, start: usize) -> (r: Result<StrTok<'a>, ScanError>)
        requires
            old(self).wf(),
            1 <= start <= old(self).data().len(),
            first_from(Stop::QuoteOrBackslash, old(self).data(), start as int) < old(self).data().len(),
            old(self).data()[first_from(Stop::QuoteOrBackslash, old(self).data(), start as int)] == 0x5c,
        ensures
            final(self).wf(),
            final(self).data() == old(self).data(),
            scanned_string(old(self).data(), start - 1, r, if r is Ok { final(self).pos() } else { start - 1 }),
            r is Err ==> final(self).pos() == old(self).pos(),
    {
        let ghost d = self.d@;
        let ghost b = first_from(Stop::QuoteOrBackslash, d, start as int);
        let mut i = start;
        proof {
            lemma_first_from(Stop::QuoteOrBackslash, d, start as int);
            lemma_string_close_skip(d, start as int, b);
        }
        loop
            invariant
                self.d@ == d,
                d == old(self).d@,
                self.wf(),
                self.i == old(self).i,
                start <= b < d.len(),
                d[b] == 0x5c,
                b == first_from(Stop::QuoteOrBackslash, d, start as int),
                string_close(d, start as int) == string_close(d, b),
                i == start || b < i,
                start <= i,
                i <= d.len() + 1,
                string_close(d, start as int) == string_close(d, i as int),
            decreases d.len() + 1 - i,
        {
            proof {
                lemma_first_from(Stop::QuoteOrBackslash, d, i as int);
            }
            let at = match find(Stop::QuoteOrBackslash, self.d, i) {
                Some(at) => at,
                None => {
                    proof {
                        if i <= d.len() {
                            lemma_string_close_skip(d, i as int, d.len() as int);
                        }
                    }
                    return Err(ScanError { kind: ScanErrorKind::UnterminatedString, at: start });
                },
            };
            proof {
                lemma_string_close_skip(d, i as int, at as int);
            }
            if self.d[at] == 0x22 {
                self.i = at + 1;
                proof {
                    lemma_string_close_ge(d, b);
                    assert(d.subrange(start as int, at as int)[b - start] == 0x5c);
                }
                return Ok(StrTok::Escaped(&self.d[start..at]));
            }
            i = at + 2;
        }
    }

    /// The general string reader: a non-ASCII byte, an escape, or no
    /// closing quote at all.
    fn scan_string_slow(&mut self) -> (r: Result<StrTok<'a>, ScanError>)
        requires
            old(self).wf(),
            cur_at(old(self).data(), old(self).pos()) == 0x22,
        ensures
            final(self).wf(),
            final(self).data() == old(self).data(),
            scanned_string(old(self).data(), old(self).pos(), r, final(self).pos()),
    {
        let ghost d = self.d@;
        let start = self.i + 1;
        proof {
            lemma_first_from(Stop::StringEnd, d, start as int);
        }
        let at = match find(Stop::StringEnd, self.d, start) {
            Some(at) => at,
            None => {
                proof {
                    lemma_string_close_skip(d, start as int, d.len() as int);
                }
                return Err(ScanError { kind: ScanErrorKind::UnterminatedString, at: start });
            },
        };
        proof {
            lemma_string_close_skip(d, start as int, at as int);
        }
        if self.d[at] == 0x22 {
            self.i = at + 1;
            proof {
                let s = d.subrange(start as int, at as int);
                lemma_no_byte(s, d, start as int, at as int);
                assert(!has_high_byte(s)) by {
                    assert forall|k: int| 0 <= k < s.len() implies s[k] < 0x80 by {
                        assert(s[k] == d[start + k]);
                    }
                }
            }
            Ok(StrTok::Ascii(&self.d[start..at]))
        } else if self.d[at] == 0x5c {
            proof {
                lemma_first_from(Stop::QuoteOrBackslash, d, start as int);
                assert(first_from(Stop::QuoteOrBackslash, d, start as int) == at as int) by {
                    lemma_first_qb_is(d, start as int, at as int);
                }
            }
            self.scan_escaped(start)
        } else {
            proof {
                lemma_first_from(Stop::QuoteOrBackslash, d, at + 1);
            }
            match find(Stop::QuoteOrBackslash, self.d, at + 1) {
                Some(end) => {
                    proof {
                        lemma_string_close_skip(d, at as int, end as int);
                    }
                    if self.d[end] == 0x22 {
                        self.i = end + 1;
                        proof {
                            let s = d.subrange(start as int, end as int);
                            lemma_no_byte(s, d, start as int, end as int);
                            assert(s[at - start] >= 0x80);
                        }
                        Ok(StrTok::Utf8(&self.d[start..end]))
                    } else {
                        proof {
                            assert(first_from(Stop::QuoteOrBackslash, d, start as int) == end as int) by {
                                lemma_first_qb_is(d, start as int, end as int);
                            }
                        }
                        self.scan_escaped(start)
                    }
                },
                None => {
                    proof {
                        lemma_string_close_skip(d, at as int, d.len() as int);
                    }
                    Err(ScanError { kind: ScanErrorKind::UnterminatedString, at: start })
                },
            }
        }
    }

    /// A `"`-led string token; the cursor ends after its closing quote.
    pub fn scan_string(&mut self) -> (r: Result<StrTok<'a>, ScanError>)
        requires
            old(self).wf(),
            cur_at(old(self).data(), old(self).pos()) == 0x22,
        ensures
            final(self).wf(),
            final(self).data() == old(self).data(),
            scanned_string(old(self).data(), old(self).pos(), r, final(self).pos()),
    {
        let ghost d = self.d@;
        let ghost i0 = self.i as int;
        match self.ascii_span() {
            Some(s) => {
                proof {
                    let a = first_from(Stop::StringEnd, d, i0 + 1);
                    lemma_first_from(Stop::StringEnd, d, i0 + 1);
                    lemma_string_close_skip(d, i0 + 1, a);
                    let sp = d.subrange(i0 + 1, a);
                    lemma_no_byte(sp, d, i0 + 1, a);
                    assert(!has_high_byte(sp)) by {
                        assert forall|k: int| 0 <= k < sp.len() implies sp[k] < 0x80 by {
                            assert(sp[k] == d[i0 + 1 + k]);
                        }
                    }
                }
                Ok(StrTok::Ascii(s))
            },
            None => self.scan_string_slow(),
        }
    }
}

/// Bytes before `at` (from `from`) are neither quote nor backslash and `at`
/// is one: it is the first.
proof fn lemma_first_qb_is(d: Seq<u8>, from: int, at: int)
    requires
        0 <= from <= at < d.len(),
        stop_matches(Stop::QuoteOrBackslash, d[at]),
        forall|j: int| from <= j < at ==> !stop_matches(Stop::QuoteOrBackslash, #[trigger] d[j]),
    ensures
        first_from(Stop::QuoteOrBackslash, d, from) == at,
    decreases at - from,
{
    if from < at {
        lemma_first_qb_is(d, from + 1, at);
    }
}


/// The step between array elements at `i`: `(true, p)` when an element
/// starts at `p`, `(false, p)` when the array ended before `p`.
pub open spec fn next_item_spec(d: Seq<u8>, i: int, first: bool) -> Result<(bool, int), ScanError> {
    let a = ws_end(d, i);
    if cur_at(d, a) == 0x5d {
        Ok((false, a + 1))
    } else if cur_at(d, a) == 0x2c && !first {
        Ok((true, ws_end(d, a + 1)))
    } else if first {
        Ok((true, a))
    } else {
        Err(serr(ScanErrorKind::ExpectedCommaOrBracket, a))
    }
}

/// The step between object members at `i`: `(Some((s, e)), p)` when the
/// member's key spans `s..e` and its value starts at `p`; `(None, p)` when
/// the object ended before `p`.
pub open spec fn next_key_spec(d: Seq<u8>, i: int, first: bool) -> Result<(Option<(int, int)>, int), ScanError> {
    let a = ws_end(d, i);
    let c = cur_at(d, a);
    if c == 0x7d {
        Ok((None, a + 1))
    } else if (c == 0x2c && !first) || first {
        let k = if c == 0x2c && !first { ws_end(d, a + 1) } else { a };
        if cur_at(d, k) != 0x22 {
            Err(serr(ScanErrorKind::ExpectedObjectKey, k))
        } else {
            match string_span(d, k) {
                Err(e) => Err(e),
                Ok((s, e)) => {
                    let w = ws_end(d, e + 1);
                    if cur_at(d, w) != 0x3a {
                        Err(serr(ScanErrorKind::ExpectedColon, w))
                    } else {
                        Ok((Some((s, e)), ws_end(d, w + 1)))
                    }
                },
            }
        }
    } else {
        Err(serr(ScanErrorKind::ExpectedCommaOrBrace, a))
    }
}

impl<'a> Scan<'a> {
    /// Next member key of the current object, raw (escapes kept), with the
    /// cursor left on its value; `None` when the object ended (its `}` is
    /// consumed).
    pub fn next_key(&mut self, first: bool) -> (r: Result<Option<&'a [u8]>, ScanError>)
        requires
            old(self).wf(),
        ensures
            final(self).wf(),
            final(self).data() == old(self).data(),
            match next_key_spec(old(self).data(), old(self).pos(), first) {
                Ok((None, p)) => r == Ok::<Option<&'a [u8]>, ScanError>(None) && final(self).pos() == p,
                Ok((Some((s, e)), p)) => r matches Ok(Some(key)) && key@ == old(self).data().subrange(s, e)
                    && final(self).pos() == p,
                Err(err) => r == Err::<Option<&'a [u8]>, ScanError>(err),
            },
    {
        let ghost d = self.d@;
        self.ws();
        let c = self.cur();
        if c == 0x7d {
            self.i += 1;
            return Ok(None);
        } else if c == 0x2c && !first {
            self.i += 1;
            self.ws();
        } else if !first {
            return Err(ScanError { kind: ScanErrorKind::ExpectedCommaOrBrace, at: self.i });
        }
        if self.cur() != 0x22 {
            return Err(ScanError { kind: ScanErrorKind::ExpectedObjectKey, at: self.i });
        }
        let key = match self.scan_string()? {
            StrTok::Ascii(s) => s,
            StrTok::Utf8(s) => s,
            StrTok::Escaped(s) => s,
        };
        self.ws();
        self.expect(0x3a, ScanErrorKind::ExpectedColon)?;
        self.ws();
        Ok(Some(key))
    }
}


/// The value of a hexadecimal digit (either case).
pub open spec fn hex_val(c: u8) -> Option<u32> {
    if 0x30 <= c <= 0x39 {
        Some((c - 0x30) as u32)
    } else if 0x61 <= c <= 0x66 {
        Some((c - 0x61 + 10) as u32)
    } else if 0x41 <= c <= 0x46 {
        Some((c - 0x41 + 10) as u32)
    } else {
        None
    }
}

/// The four hexadecimal digits at `at` as a number.
pub open spec fn hex4(s: Seq<u8>, at: int) -> Result<u32, ScanError> {
    if at < 0 || at + 4 > s.len() {
        Err(serr(ScanErrorKind::TruncatedUnicodeEscape, at))
    } else {
        match (hex_val(s[at]), hex_val(s[at + 1]), hex_val(s[at + 2]), hex_val(s[at + 3])) {
            (Some(a), Some(b), Some(c), Some(d)) => Ok((a * 4096 + b * 256 + c * 16 + d) as u32),
            _ => Err(serr(ScanErrorKind::InvalidUnicodeEscape, at)),
        }
    }
}

/// The byte a one-letter escape stands for.
pub open spec fn simple_escape(e: u8) -> Option<u8> {
    if e == 0x22 {
        Some(0x22u8)
    } else if e == 0x5c {
        Some(0x5cu8)
    } else if e == 0x2f {
        Some(0x2fu8)
    } else if e == 0x62 {
        Some(0x08u8)
    } else if e == 0x66 {
        Some(0x0cu8)
    } else if e == 0x6e {
        Some(0x0au8)
    } else if e == 0x72 {
        Some(0x0du8)
    } else if e == 0x74 {
        Some(0x09u8)
    } else {
        None
    }
}

/// A code point, or U+FFFD in place of a lone surrogate.
pub open spec fn scalar_or_replacement(cp: u32) -> u32 {
    if is_scalar(cp) {
        cp
    } else {
        0xFFFD
    }
}

/// The code point of a surrogate pair.
pub open spec fn combine_surrogates(hi: u32, lo: u32) -> u32 {
    (0x10000 + (hi - 0xD800) * 1024 + (lo - 0xDC00)) as u32
}

pub open spec fn prepend(p: Seq<u8>, r: Result<Seq<u8>, ScanError>) -> Result<Seq<u8>, ScanError> {
    match r {
        Ok(v) => Ok(p + v),
        Err(e) => Err(e),
    }
}

/// The first decoded piece of `s[i..]` and where the input continues: a
/// plain byte stands for itself; a `\uXXXX` high surrogate followed by a
/// `\uXXXX` low one is one code point; any other surrogate becomes U+FFFD.
pub open spec fn escape_step(s: Seq<u8>, i: int) -> Result<(Seq<u8>, int), ScanError> {
    if s[i] != 0x5c {
        Ok((seq![s[i]], i + 1))
    } else if i + 1 >= s.len() {
        Err(serr(ScanErrorKind::TruncatedEscape, i + 1))
    } else if simple_escape(s[i + 1]) is Some {
        Ok((seq![simple_escape(s[i + 1])->0], i + 2))
    } else if s[i + 1] == 0x75 {
        unicode_step(s, i)
    } else {
        Err(serr(ScanErrorKind::InvalidEscape, i + 2))
    }
}

/// The code point of the `\u` escape whose `\` is at `i`, encoded, and
/// where the input continues.
pub open spec fn unicode_step(s: Seq<u8>, i: int) -> Result<(Seq<u8>, int), ScanError> {
    match hex4(s, i + 2) {
        Err(e) => Err(e),
        Ok(hi) => if 0xD800 <= hi < 0xDC00 && cur_at(s, i + 6) == 0x5c && cur_at(s, i + 7) == 0x75 {
            match hex4(s, i + 8) {
                Err(e) => Err(e),
                Ok(lo) => if 0xDC00 <= lo < 0xE000 {
                    Ok((encode_scalar(combine_surrogates(hi, lo)), i + 12))
                } else {
                    Ok((encode_scalar(scalar_or_replacement(hi)), i + 6))
                },
            }
        } else {
            Ok((encode_scalar(scalar_or_replacement(hi)), i + 6))
        },
    }
}

/// Every step moves forward and stays within `s`.
pub proof fn lemma_escape_step_advances(s: Seq<u8>, i: int)
    requires
        0 <= i < s.len(),
    ensures
        escape_step(s, i) matches Ok((_, next)) ==> i < next <= s.len(),
{
}

/// The bytes `s[i..]` stand for once their escapes are decoded.
pub open spec fn unescape_from(s: Seq<u8>, i: int) -> Result<Seq<u8>, ScanError>
    decreases s.len() - i,
{
    if i < 0 || i >= s.len() {
        Ok(Seq::empty())
    } else {
        match escape_step(s, i) {
            Err(e) => Err(e),
            Ok((piece, next)) => if i < next <= s.len() {
                prepend(piece, unescape_from(s, next))
            } else {
                Ok(Seq::empty())
            },
        }
    }
}

/// One step of decoding.
pub proof fn lemma_unescape_step(s: Seq<u8>, i: int)
    requires
        0 <= i < s.len(),
    ensures
        unescape_from(s, i) == match escape_step(s, i) {
            Err(e) => Err(e),
            Ok((piece, next)) => prepend(piece, unescape_from(s, next)),
        },
{
    lemma_escape_step_advances(s, i);
}

/// The four hexadecimal digits of a `\u` escape at `at`.
fn read_hex4(s: &[u8], at: usize) -> (r: Result<u32, ScanError>)
    requires
        s@.len() <= BYTE_BUF_LIMIT,
        at <= s@.len() + 8,
    ensures
        r == hex4(s@, at as int),
        r matches Ok(v) ==> v <= 0xFFFF,
{
    if at + 4 > s.len() {
        return Err(ScanError { kind: ScanErrorKind::TruncatedUnicodeEscape, at });
    }
    let mut v: u32 = 0;
    let mut k: usize = 0;
    let ghost vals: Seq<u32> = Seq::empty();
    while k < 4
        invariant
            at + 4 <= s@.len(),
            s@.len() <= BYTE_BUF_LIMIT,
            k <= 4,
            vals.len() == k,
            forall|j: int| 0 <= j < k ==> hex_val(s@[at + j]) == Some(#[trigger] vals[j]),
            v == if k == 0 { 0 } else if k == 1 { vals[0] as int } else if k == 2 {
                vals[0] * 16 + vals[1]
            } else if k == 3 {
                vals[0] * 256 + vals[1] * 16 + vals[2]
            } else {
                vals[0] * 4096 + vals[1] * 256 + vals[2] * 16 + vals[3]
            },
            forall|j: int| 0 <= j < k ==> #[trigger] vals[j] < 16,
        decreases 4 - k,
    {
        let c = s[at + k];
        let d: u32 = if 0x30 <= c && c <= 0x39 {
            (c - 0x30) as u32
        } else if 0x61 <= c && c <= 0x66 {
            (c - 0x61 + 10) as u32
        } else if 0x41 <= c && c <= 0x46 {
            (c - 0x41 + 10) as u32
        } else {
            return Err(ScanError { kind: ScanErrorKind::InvalidUnicodeEscape, at });
        };
        proof {
            vals = vals.push(d);
        }
        v = v * 16 + d;
        k += 1;
    }
    Ok(v)
}

/// Appends the UTF-8 encoding of `cp`, or of U+FFFD when `cp` is a
/// surrogate.
fn push_scalar(buf: &mut ByteBuf, cp: u32)
    requires
        bytes_of(*old(buf)).len() + 4 <= BYTE_BUF_LIMIT,
        cp <= 0x10FFFF,
    ensures
        bytes_of(*final(buf)) == bytes_of(*old(buf)) + encode_scalar(scalar_or_replacement(cp)),
        encode_scalar(scalar_or_replacement(cp)).len() <= 4,
        cp <= 0xFFFF ==> encode_scalar(scalar_or_replacement(cp)).len() <= 3,
{
    let c: u32 = if 0xD800 <= cp && cp <= 0xDFFF { 0xFFFD } else { cp };
    assert(c == scalar_or_replacement(cp));
    if c <= 0x7F {
        buf.push((c & 0x7F) as u8);
        assert(bytes_of(*buf) =~= bytes_of(*old(buf)) + seq![leading_byte_width_1(c)]);
    } else if c <= 0x7FF {
        buf.push(0xC0 | ((c >> 6) & 0x1F) as u8);
        buf.push(0x80 | (c & 0x3F) as u8);
        assert(bytes_of(*buf) =~= bytes_of(*old(buf)) + seq![leading_byte_width_2(c), last_continuation_byte(c)]);
    } else if c <= 0xFFFF {
        buf.push(0xE0 | ((c >> 12) & 0x0F) as u8);
        buf.push(0x80 | ((c >> 6) & 0x3F) as u8);
        buf.push(0x80 | (c & 0x3F) as u8);
        assert(bytes_of(*buf) =~= bytes_of(*old(buf)) + seq![
            leading_byte_width_3(c),
            second_last_continuation_byte(c),
            last_continuation_byte(c),
        ]);
    } else {
        buf.push(0xF0 | ((c >> 18) & 0x7) as u8);
        buf.push(0x80 | ((c >> 12) & 0x3F) as u8);
        buf.push(0x80 | ((c >> 6) & 0x3F) as u8);
        buf.push(0x80 | (c & 0x3F) as u8);
        assert(bytes_of(*buf) =~= bytes_of(*old(buf)) + seq![
            leading_byte_width_4(c),
            third_last_continuation_byte(c),
            second_last_continuation_byte(c),
            last_continuation_byte(c),
        ]);
    }
}


proof fn lemma_prepend_assoc(a: Seq<u8>, b: Seq<u8>, r: Result<Seq<u8>, ScanError>)
    ensures
        prepend(a, prepend(b, r)) == prepend(a + b, r),
{
    if let Ok(v) = r {
        assert(a + (b + v) =~= (a + b) + v);
    }
}

proof fn lemma_prepend_empty(r: Result<Seq<u8>, ScanError>)
    ensures
        prepend(Seq::empty(), r) == r,
{
    if let Ok(v) = r {
        assert(Seq::<u8>::empty() + v =~= v);
    }
}

/// A run without `\` decodes to itself.
proof fn lemma_unescape_run(s: Seq<u8>, from: int, to: int)
    requires
        0 <= from <= to <= s.len(),
        forall|j: int| from <= j < to ==> #[trigger] s[j] != 0x5c,
    ensures
        unescape_from(s, from) == prepend(s.subrange(from, to), unescape_from(s, to)),
    decreases to - from,
{
    if from == to {
        assert(s.subrange(from, to) =~= Seq::<u8>::empty());
        lemma_prepend_empty(unescape_from(s, to));
    } else {
        lemma_unescape_run(s, from + 1, to);
        lemma_unescape_step(s, from);
        lemma_prepend_assoc(seq![s[from]], s.subrange(from + 1, to), unescape_from(s, to));
        assert(seq![s[from]] + s.subrange(from + 1, to) =~= s.subrange(from, to));
    }
}

/// Decodes the `\u` escape whose `\` is at `bs`, returning where the input
/// continues.
fn decode_unicode(s: &[u8], bs: usize, buf: &mut ByteBuf) -> (r: Result<usize, ScanError>)
    requires
        s@.len() <= BYTE_BUF_LIMIT,
        bs + 1 < s@.len(),
        bytes_of(*old(buf)).len() <= bs,
    ensures
        match unicode_step(s@, bs as int) {
            Ok((piece, next)) => r == Ok::<usize, ScanError>(next as usize) && bytes_of(*final(buf))
                == bytes_of(*old(buf)) + piece && piece.len() <= next - bs,
            Err(e) => r == Err::<usize, ScanError>(e),
        },
{
    let n = s.len();
    let mut i = bs + 2;
    let hi = read_hex4(s, i)?;
    let mut cp = hi;
    i += 4;
    if 0xD800 <= cp && cp < 0xDC00 && i + 1 < n && s[i] == 0x5c && s[i + 1] == 0x75 {
        let lo = read_hex4(s, i + 2)?;
        if 0xDC00 <= lo && lo < 0xE000 {
            cp = 0x1_0000 + (cp - 0xD800) * 1024 + (lo - 0xDC00);
            i += 6;
            assert(is_scalar(cp));
            assert(cp == combine_surrogates(hi, lo));
        }
    }
    push_scalar(buf, cp);
    Ok(i)
}

/// Decodes the escape whose `\` is at `bs`, returning where the input
/// continues.
fn decode_escape(s: &[u8], bs: usize, buf: &mut ByteBuf) -> (r: Result<usize, ScanError>)
    requires
        s@.len() <= BYTE_BUF_LIMIT,
        bs < s@.len(),
        s@[bs as int] == 0x5c,
        bytes_of(*old(buf)).len() <= bs,
    ensures
        match escape_step(s@, bs as int) {
            Ok((piece, next)) => r == Ok::<usize, ScanError>(next as usize) && bytes_of(*final(buf))
                == bytes_of(*old(buf)) + piece && piece.len() <= next - bs,
            Err(e) => r == Err::<usize, ScanError>(e),
        },
{
    let n = s.len();
    let i = bs + 1;
    if i >= n {
        return Err(ScanError { kind: ScanErrorKind::TruncatedEscape, at: i });
    }
    let e = s[i];
    let simple: Option<u8> = if e == 0x22 {
        Some(0x22)
    } else if e == 0x5c {
        Some(0x5c)
    } else if e == 0x2f {
        Some(0x2f)
    } else if e == 0x62 {
        Some(0x08)
    } else if e == 0x66 {
        Some(0x0c)
    } else if e == 0x6e {
        Some(0x0a)
    } else if e == 0x72 {
        Some(0x0d)
    } else if e == 0x74 {
        Some(0x09)
    } else {
        None
    };
    assert(simple == simple_escape(e));
    if let Some(v) = simple {
        buf.push(v);
        Ok(i + 1)
    } else if e == 0x75 {
        decode_unicode(s, bs, buf)
    } else {
        Err(ScanError { kind: ScanErrorKind::InvalidEscape, at: i + 1 })
    }
}

/// Decodes the JSON escapes of `s` into `buf`.
pub fn unescape(s: &[u8], buf: &mut ByteBuf) -> (r: Result<(), ScanError>)
    requires
        s@.len() <= BYTE_BUF_LIMIT,
    ensures
        match unescape_from(s@, 0) {
            Ok(v) => r is Ok && bytes_of(*final(buf)) == v,
            Err(e) => r == Err::<(), ScanError>(e),
        },
{
    buf.clear();
    buf.reserve(s.len());
    let n = s.len();
    let mut i: usize = 0;
    proof {
        lemma_prepend_empty(unescape_from(s@, 0));
    }
    while i < n
        invariant
            n == s@.len(),
            n <= BYTE_BUF_LIMIT,
            i <= n,
            bytes_of(*buf).len() <= i,
            unescape_from(s@, 0) == prepend(bytes_of(*buf), unescape_from(s@, i as int)),
        decreases n - i,
    {
        if s[i] != 0x5c {
            let from = i;
            while i < n && s[i] != 0x5c
                invariant
                    n == s@.len(),
                    from <= i <= n,
                    forall|j: int| from <= j < i ==> #[trigger] s@[j] != 0x5c,
                decreases n - i,
            {
                i += 1;
            }
            proof {
                lemma_unescape_run(s@, from as int, i as int);
                lemma_prepend_assoc(bytes_of(*buf), s@.subrange(from as int, i as int), unescape_from(s@, i as int));
            }
            buf.extend_from_slice(&s[from..i]);
        } else {
            let ghost before = bytes_of(*buf);
            proof {
                lemma_unescape_step(s@, i as int);
            }
            let next = decode_escape(s, i, buf)?;
            proof {
                if let Ok((piece, nx)) = escape_step(s@, i as int) {
                    lemma_prepend_assoc(before, piece, unescape_from(s@, nx));
                }
            }
            i = next;
        }
    }
    proof {
        if let Ok(v) = unescape_from(s@, 0) {
            assert(bytes_of(*buf) + Seq::<u8>::empty() =~= bytes_of(*buf));
        }
    }
    Ok(())
}

/// The end of a number-shaped run (digits, `.`, `e`, `E`, `+`, `-`) that
/// starts at `i`.
pub open spec fn number_run(d: Seq<u8>, i: int) -> int
    decreases d.len() - i,
{
    if 0 <= i < d.len() && is_number_byte(d[i]) {
        number_run(d, i + 1)
    } else {
        i
    }
}

pub open spec fn is_number_byte(b: u8) -> bool {
    (0x30 <= b <= 0x39) || b == 0x2e || b == 0x65 || b == 0x45 || b == 0x2b || b == 0x2d
}

fn number_byte(b: u8) -> (r: bool)
    ensures
        r == is_number_byte(b),
{
    (0x30 <= b && b <= 0x39) || b == 0x2e || b == 0x65 || b == 0x45 || b == 0x2b || b == 0x2d
}

pub proof fn lemma_number_run(d: Seq<u8>, i: int)
    requires
        0 <= i <= d.len(),
    ensures
        i <= number_run(d, i) <= d.len(),
    decreases d.len() - i,
{
    if i < d.len() && is_number_byte(d[i]) {
        lemma_number_run(d, i + 1);
    }
}

/// Where the value at `i`, nested `depth` levels deep, ends. Strings,
/// literals and numbers are read as their own readers read them; a number is
/// any run of number bytes. Objects and arrays recurse one level deeper,
/// up to [`MAX_SKIP_DEPTH`].
pub open spec fn skip_value_spec(d: Seq<u8>, i: int, depth: int) -> Result<int, ScanError>
    decreases d.len() - i, 1int,
{
    if depth > MAX_SKIP_DEPTH {
        Err(serr(ScanErrorKind::RecursionLimitExceeded, i))
    } else {
        let c = cur_at(d, i);
        if c == 0x22 {
            match string_span(d, i) {
                Ok((_, close)) => Ok(close + 1),
                Err(e) => Err(e),
            }
        } else if c == 0x7b {
            skip_members_spec(d, i + 1, depth, true)
        } else if c == 0x5b {
            skip_items_spec(d, i + 1, depth, true)
        } else if c == 0x74 || c == 0x66 {
            if starts_with_at(d, i, true_lit()) {
                Ok(i + 4)
            } else if starts_with_at(d, i, false_lit()) {
                Ok(i + 5)
            } else {
                Err(serr(ScanErrorKind::ExpectedBool, i))
            }
        } else if c == 0x6e {
            if starts_with_at(d, i, null_lit()) {
                Ok(i + 4)
            } else {
                Err(serr(ScanErrorKind::ExpectedNull, i))
            }
        } else if c == 0x2d || (0x30 <= c <= 0x39) {
            Ok(number_run(d, i + 1))
        } else {
            Err(serr(ScanErrorKind::UnexpectedToken, i))
        }
    }
}

/// The rest of an object from `i`: members, each a key and a value one level
/// deeper, up to the closing `}`. (The guards on positions always hold: each
/// step moves forward.)
pub open spec fn skip_members_spec(d: Seq<u8>, i: int, depth: int, first: bool) -> Result<int, ScanError>
    decreases d.len() - i, 2int,
{
    match next_key_spec(d, i, first) {
        Err(e) => Err(e),
        Ok((None, p)) => Ok(p),
        Ok((Some(_), p)) => if i < p <= d.len() {
            match skip_value_spec(d, p, depth + 1) {
                Err(e) => Err(e),
                Ok(q) => if p < q <= d.len() {
                    skip_members_spec(d, q, depth, false)
                } else {
                    Ok(q)
                },
            }
        } else {
            Ok(p)
        },
    }
}

/// The rest of an array from `i`: elements one level deeper, up to the
/// closing `]`.
pub open spec fn skip_items_spec(d: Seq<u8>, i: int, depth: int, first: bool) -> Result<int, ScanError>
    decreases d.len() - i, 2int,
{
    match next_item_spec(d, i, first) {
        Err(e) => Err(e),
        Ok((false, p)) => Ok(p),
        Ok((true, p)) => if i <= p <= d.len() {
            match skip_value_spec(d, p, depth + 1) {
                Err(e) => Err(e),
                Ok(q) => if p < q <= d.len() {
                    skip_items_spec(d, q, depth, false)
                } else {
                    Ok(q)
                },
            }
        } else {
            Ok(p)
        },
    }
}

pub proof fn lemma_next_key_advances(d: Seq<u8>, i: int, first: bool)
    requires
        0 <= i <= d.len(),
    ensures
        next_key_spec(d, i, first) matches Ok((_, p)) ==> i < p <= d.len(),
{
    let a = ws_end(d, i);
    lemma_ws_end(d, i);
    let c = cur_at(d, a);
    if c == 0x2c && !first {
        lemma_ws_end(d, a + 1);
    }
    let k = if c == 0x2c && !first { ws_end(d, a + 1) } else { a };
    if cur_at(d, k) == 0x22 {
        lemma_string_close_ge(d, k + 1);
        if let Ok((s, e)) = string_span(d, k) {
            lemma_ws_end(d, e + 1);
            let w = ws_end(d, e + 1);
            if cur_at(d, w) == 0x3a {
                lemma_ws_end(d, w + 1);
            }
        }
    }
}

pub proof fn lemma_next_item_advances(d: Seq<u8>, i: int, first: bool)
    requires
        0 <= i <= d.len(),
    ensures
        next_item_spec(d, i, first) matches Ok((more, p)) ==> (i <= p <= d.len() && (!more ==> i < p)),
{
    let a = ws_end(d, i);
    lemma_ws_end(d, i);
    if cur_at(d, a) == 0x2c && !first {
        lemma_ws_end(d, a + 1);
    }
}

/// A skipped value is at least one byte long.
pub proof fn lemma_skip_advances(d: Seq<u8>, i: int, depth: int)
    requires
        0 <= i <= d.len(),
    ensures
        skip_value_spec(d, i, depth) matches Ok(q) ==> i < q <= d.len(),
    decreases d.len() - i, 1int,
{
    if depth <= MAX_SKIP_DEPTH {
        let c = cur_at(d, i);
        if c == 0x22 {
            lemma_string_close_ge(d, i + 1);
        } else if c == 0x7b {
            lemma_members_advance(d, i + 1, depth, true);
        } else if c == 0x5b {
            lemma_items_advance(d, i + 1, depth, true);
        } else if c == 0x2d || (0x30 <= c <= 0x39) {
            lemma_number_run(d, i + 1);
        }
    }
}

pub proof fn lemma_members_advance(d: Seq<u8>, i: int, depth: int, first: bool)
    requires
        0 <= i <= d.len(),
    ensures
        skip_members_spec(d, i, depth, first) matches Ok(q) ==> i < q <= d.len(),
    decreases d.len() - i, 2int,
{
    lemma_next_key_advances(d, i, first);
    if let Ok((Some(_), p)) = next_key_spec(d, i, first) {
        lemma_skip_advances(d, p, depth + 1);
        if let Ok(q) = skip_value_spec(d, p, depth + 1) {
            lemma_members_advance(d, q, depth, false);
        }
    }
}

pub proof fn lemma_items_advance(d: Seq<u8>, i: int, depth: int, first: bool)
    requires
        0 <= i <= d.len(),
    ensures
        skip_items_spec(d, i, depth, first) matches Ok(q) ==> i < q <= d.len(),
    decreases d.len() - i, 2int,
{
    lemma_next_item_advances(d, i, first);
    if let Ok((true, p)) = next_item_spec(d, i, first) {
        lemma_skip_advances(d, p, depth + 1);
        if let Ok(q) = skip_value_spec(d, p, depth + 1) {
            lemma_items_advance(d, q, depth, false);
        }
    }
}

impl<'a> Scan<'a> {
    /// Skips one value of any shape (an unknown key's value).
    pub fn skip_value(&mut self) -> (r: Result<(), ScanError>)
        requires
            old(self).wf(),
        ensures
            final(self).wf(),
            final(self).data() == old(self).data(),
            match skip_value_spec(old(self).data(), old(self).pos(), 0) {
                Ok(p) => r is Ok && final(self).pos() == p,
                Err(e) => r == Err::<(), ScanError>(e),
            },
    {
        self.skip_value_at(0)
    }

    fn skip_value_at(&mut self, depth: u32) -> (r: Result<(), ScanError>)
        requires
            old(self).wf(),
        ensures
            final(self).wf(),
            final(self).data() == old(self).data(),
            match skip_value_spec(old(self).data(), old(self).pos(), depth as int) {
                Ok(p) => r is Ok && final(self).pos() == p,
                Err(e) => r == Err::<(), ScanError>(e),
            },
        decreases MAX_SKIP_DEPTH + 1 - depth,
    {
        let ghost d = self.d@;
        let ghost i0 = self.i as int;
        if depth > MAX_SKIP_DEPTH {
            return Err(ScanError { kind: ScanErrorKind::RecursionLimitExceeded, at: self.i });
        }
        let c = self.cur();
        if c == 0x22 {
            self.scan_string()?;
            Ok(())
        } else if c == 0x7b {
            self.i += 1;
            let mut first = true;
            loop
                invariant
                    self.wf(),
                    self.d@ == d,
                    d == old(self).d@,
                    i0 == old(self).i,
                    depth <= MAX_SKIP_DEPTH,
                    skip_value_spec(d, i0, depth as int) == skip_members_spec(d, self.i as int, depth as int, first),
                decreases d.len() - self.i,
            {
                let ghost i1 = self.i as int;
                proof {
                    lemma_next_key_advances(d, i1, first);
                }
                match self.next_key(first)? {
                    None => return Ok(()),
                    Some(_) => {
                        let ghost p = self.i as int;
                        proof {
                            lemma_skip_advances(d, p, depth + 1);
                        }
                        self.skip_value_at(depth + 1)?;
                        first = false;
                    },
                }
            }
        } else if c == 0x5b {
            self.i += 1;
            let mut first = true;
            loop
                invariant
                    self.wf(),
                    self.d@ == d,
                    d == old(self).d@,
                    i0 == old(self).i,
                    depth <= MAX_SKIP_DEPTH,
                    skip_value_spec(d, i0, depth as int) == skip_items_spec(d, self.i as int, depth as int, first),
                decreases d.len() - self.i,
            {
                let ghost i1 = self.i as int;
                proof {
                    lemma_next_item_advances(d, i1, first);
                }
                if !self.next_item(first)? {
                    return Ok(());
                }
                let ghost p = self.i as int;
                proof {
                    lemma_skip_advances(d, p, depth + 1);
                }
                self.skip_value_at(depth + 1)?;
                first = false;
            }
        } else if c == 0x74 || c == 0x66 {
            self.take_bool()?;
            Ok(())
        } else if c == 0x6e {
            self.take_null()
        } else if c == 0x2d || (0x30 <= c && c <= 0x39) {
            self.i += 1;
            proof {
                lemma_number_run(d, self.i as int);
            }
            while self.i < self.d.len() && number_byte(self.d[self.i])
                invariant
                    self.wf(),
                    self.d@ == d,
                    i0 < self.i <= d.len(),
                    number_run(d, self.i as int) == number_run(d, i0 + 1),
                decreases d.len() - self.i,
            {
                self.i += 1;
            }
            Ok(())
        } else {
            Err(ScanError { kind: ScanErrorKind::UnexpectedToken, at: self.i })
        }
    }
}

/// What reading a string at `i` gives: its bytes (escapes decoded when it
/// has any) and the position after its closing quote.
pub open spec fn decoded_string(d: Seq<u8>, i: int) -> Result<(Seq<u8>, int), ScanError> {
    if cur_at(d, i) != 0x22 {
        Err(serr(ScanErrorKind::ExpectedString, i))
    } else {
        match string_span(d, i) {
            Err(e) => Err(e),
            Ok((s, c)) => {
                let span = d.subrange(s, c);
                if token_kind(span) == StrKind::Escaped {
                    match unescape_from(span, 0) {
                        Ok(v) => Ok((v, c + 1)),
                        Err(e) => Err(e),
                    }
                } else {
                    Ok((span, c + 1))
                }
            },
        }
    }
}

impl<'a> Scan<'a> {
    /// The bytes of the string token at the cursor, unescaped into `buf` when
    /// it has escapes. Error positions inside an escape count from the
    /// token's first content byte.
    pub fn take_str_bytes<'b>(&mut self, buf: &'b mut ByteBuf) -> (r: Result<&'b [u8], ScanError>)
        where 'a: 'b
        requires
            old(self).wf(),
            old(self).data().len() <= BYTE_BUF_LIMIT,
        ensures
            final(self).wf(),
            final(self).data() == old(self).data(),
            match decoded_string(old(self).data(), old(self).pos()) {
                Ok((v, p)) => r matches Ok(out) && out@ == v && final(self).pos() == p,
                Err(e) => r == Err::<&'b [u8], ScanError>(e),
            },
    {
        if self.cur() != 0x22 {
            return Err(ScanError { kind: ScanErrorKind::ExpectedString, at: self.i });
        }
        proof {
            lemma_string_close_ge(self.d@, self.i + 1);
        }
        match self.scan_string()? {
            StrTok::Ascii(s) => Ok(s),
            StrTok::Utf8(s) => Ok(s),
            StrTok::Escaped(s) => {
                unescape(s, buf)?;
                Ok(buf.as_slice())
            },
        }
    }
}

} // verus!
