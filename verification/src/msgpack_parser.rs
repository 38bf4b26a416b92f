//! Pull-parser over MessagePack bytes.
//!
//! `*_known` readers consume the marker captured by the immediately preceding
//! `peek()`; their contracts require it (`peeked`). `enter_map` and the map-key
//! reader peek for themselves.
use crate::decode_error::{decode_err, make_decode_error, DecodeError, DecodeErrorKind};
use crate::msgpack_grammar::{
    lemma_skip_step_advances, lemma_skip_values_bounds, read_be_at, read_u8_at, skip_step, skip_values, span_end, value_end,
};
use crate::stacks::{frames_of, Frame, FrameStack, STACK_LIMIT};
use vstd::prelude::*;
use vstd::string::StringSliceAdditionalSpecFns;

verus! {

/// Kind of the next value in the input stream.
#[derive(Debug, Clone, Copy, PartialEq, Eq, Structural)]
pub enum Kind {
    Null,
    Bool,
    Num,
    Str,
    Bytes,
    Array,
    Mapping,
}

/// Integer from the wire: `i64` when it fits; an unsigned value beyond
/// `i64` keeps its `u64` (the caller makes a big integer of it).
#[derive(Debug, Clone, Copy, PartialEq, Eq, Structural)]
pub enum ParsedInt {
    I64(i64),
    BigU64(u64),
}

/// A number as the marker types it. Floats are carried as their IEEE-754
/// bit patterns (`F32` as the 32-bit pattern of a `float 32`).
#[derive(Debug, Clone, Copy, PartialEq, Eq, Structural)]
pub enum WireNumber {
    I64(i64),
    U64(u64),
    F32(u32),
    F64(u64),
}

/// Any number from the wire, split int-vs-float by the marker.
pub enum ParsedNumber {
    Int(ParsedInt),
    F32(u32),
    F64(u64),
}

/// What `peek` reports for a marker byte.
pub open spec fn kind_of_marker(m: u8) -> Result<Kind, DecodeErrorKind> {
    if m == 0xc0 {
        Ok(Kind::Null)
    } else if m == 0xc2 || m == 0xc3 {
        Ok(Kind::Bool)
    } else if m <= 0x7f || (0xca <= m && m <= 0xd3) || m >= 0xe0 {
        Ok(Kind::Num)
    } else if (0xa0 <= m && m <= 0xbf) || (0xd9 <= m && m <= 0xdb) {
        Ok(Kind::Str)
    } else if 0xc4 <= m && m <= 0xc6 {
        Ok(Kind::Bytes)
    } else if (0x90 <= m && m <= 0x9f) || m == 0xdc || m == 0xdd {
        Ok(Kind::Array)
    } else if (0x80 <= m && m <= 0x8f) || m == 0xde || m == 0xdf {
        Ok(Kind::Mapping)
    } else if m == 0xc1 {
        Err(DecodeErrorKind::ReservedMarker)
    } else {
        Err(DecodeErrorKind::ExtensionUnsupported)
    }
}

/// The number whose marker is at `p`, and the position after it.
pub open spec fn number_at(d: Seq<u8>, p: int) -> Result<(WireNumber, int), DecodeError> {
    let m = d[p];
    let q = p + 1;
    if m <= 0x7f {
        Ok((WireNumber::I64(m as i64), q))
    } else if m >= 0xe0 {
        Ok((WireNumber::I64((m - 0x100) as i64), q))
    } else if m == 0xcc || m == 0xd0 {
        match read_u8_at(d, q) {
            Err(e) => Err(e),
            Ok((v, r)) => Ok((
                WireNumber::I64(
                    if m == 0xcc {
                        v as i64
                    } else {
                        (if v >= 0x80 {
                            v - 0x100
                        } else {
                            v
                        }) as i64
                    },
                ),
                r,
            )),
        }
    } else if m == 0xcd || m == 0xd1 {
        match read_be_at(d, q, 2) {
            Err(e) => Err(e),
            Ok((v, r)) => Ok((
                WireNumber::I64(
                    if m == 0xcd {
                        v as i64
                    } else {
                        (if v >= 0x8000 {
                            v - 0x1_0000
                        } else {
                            v
                        }) as i64
                    },
                ),
                r,
            )),
        }
    } else if m == 0xce || m == 0xd2 || m == 0xca {
        match read_be_at(d, q, 4) {
            Err(e) => Err(e),
            Ok((v, r)) => Ok((
                if m == 0xce {
                    WireNumber::I64(v as i64)
                } else if m == 0xd2 {
                    WireNumber::I64(
                        (if v >= 0x8000_0000 {
                            v - 0x1_0000_0000
                        } else {
                            v
                        }) as i64,
                    )
                } else {
                    WireNumber::F32(v as u32)
                },
                r,
            )),
        }
    } else if m == 0xcf || m == 0xd3 || m == 0xcb {
        match read_be_at(d, q, 8) {
            Err(e) => Err(e),
            Ok((v, r)) => Ok((
                if m == 0xcf {
                    WireNumber::U64(v as u64)
                } else if m == 0xd3 {
                    WireNumber::I64(
                        (if v >= 0x8000_0000_0000_0000 {
                            v - 0x1_0000_0000_0000_0000
                        } else {
                            v
                        }) as i64,
                    )
                } else {
                    WireNumber::F64(v as u64)
                },
                r,
            )),
        }
    } else {
        Err(decode_err(DecodeErrorKind::ExpectedNumber, p))
    }
}

/// Length field of a string whose marker is at `p`: where the payload
/// starts and how long it is.
pub open spec fn str_header(d: Seq<u8>, p: int) -> Result<(int, int), DecodeError> {
    let m = d[p];
    let q = p + 1;
    if 0xa0 <= m && m <= 0xbf {
        Ok((q, m - 0xa0))
    } else if m == 0xd9 {
        match read_u8_at(d, q) {
            Err(e) => Err(e),
            Ok((n, r)) => Ok((r, n)),
        }
    } else if m == 0xda {
        match read_be_at(d, q, 2) {
            Err(e) => Err(e),
            Ok((n, r)) => Ok((r, n)),
        }
    } else if m == 0xdb {
        match read_be_at(d, q, 4) {
            Err(e) => Err(e),
            Ok((n, r)) => Ok((r, n)),
        }
    } else {
        Err(decode_err(DecodeErrorKind::ExpectedString, p))
    }
}

/// The string whose marker is at `p`: its UTF-8 payload and the position
/// after it.
pub open spec fn str_at(d: Seq<u8>, p: int) -> Result<(Seq<u8>, int), DecodeError> {
    match str_header(d, p) {
        Err(e) => Err(e),
        Ok((s, n)) => match span_end(d, s, n) {
            Err(e) => Err(e),
            Ok(end) => if vstd::utf8::valid_utf8(d.subrange(s, end)) {
                Ok((d.subrange(s, end), end))
            } else {
                Err(decode_err(DecodeErrorKind::InvalidUtf8, p))
            },
        },
    }
}

/// Length field of a binary value whose marker is at `p`.
pub open spec fn bin_header(d: Seq<u8>, p: int) -> Result<(int, int), DecodeError> {
    let m = d[p];
    let q = p + 1;
    if m == 0xc4 {
        match read_u8_at(d, q) {
            Err(e) => Err(e),
            Ok((n, r)) => Ok((r, n)),
        }
    } else if m == 0xc5 {
        match read_be_at(d, q, 2) {
            Err(e) => Err(e),
            Ok((n, r)) => Ok((r, n)),
        }
    } else if m == 0xc6 {
        match read_be_at(d, q, 4) {
            Err(e) => Err(e),
            Ok((n, r)) => Ok((r, n)),
        }
    } else {
        Err(decode_err(DecodeErrorKind::ExpectedBinary, p))
    }
}

/// The binary value whose marker is at `p` and the position after it.
pub open spec fn bin_at(d: Seq<u8>, p: int) -> Result<(Seq<u8>, int), DecodeError> {
    match bin_header(d, p) {
        Err(e) => Err(e),
        Ok((s, n)) => match span_end(d, s, n) {
            Err(_) => Err(decode_err(DecodeErrorKind::TruncatedBinary, p)),
            Ok(end) => Ok((d.subrange(s, end), end)),
        },
    }
}

/// Entry count of the array (`is_map == false`) or map whose marker is at
/// `p`, and the position after its header.
pub open spec fn container_header(d: Seq<u8>, p: int, is_map: bool) -> Result<
    (int, int),
    DecodeError,
> {
    let m = d[p];
    let q = p + 1;
    let (fix_lo, m16, m32, kind) = if is_map {
        (0x80u8, 0xdeu8, 0xdfu8, DecodeErrorKind::ExpectedMap)
    } else {
        (0x90u8, 0xdcu8, 0xddu8, DecodeErrorKind::ExpectedArray)
    };
    if fix_lo <= m && m <= fix_lo + 0x0f {
        Ok((m - fix_lo, q))
    } else if m == m16 {
        read_be_at(d, q, 2)
    } else if m == m32 {
        read_be_at(d, q, 4)
    } else {
        Err(decode_err(kind, p))
    }
}

/// Streaming MessagePack reader over a byte slice.
pub struct MsgpackParser<'a> {
    data: &'a [u8],
    index: usize,
    /// Marker byte captured by the last `peek()`.
    last_marker: u8,
    containers: FrameStack,
}

impl<'a> MsgpackParser<'a> {
    /// The input.
    pub closed spec fn data(&self) -> Seq<u8> {
        self.data@
    }

    /// Offset of the next unread byte.
    pub closed spec fn index(&self) -> int {
        self.index as int
    }

    /// Marker seen by the last `peek`.
    pub closed spec fn last_marker(&self) -> u8 {
        self.last_marker
    }

    /// Containers entered and not yet finished, outermost first.
    pub closed spec fn frames(&self) -> Seq<Frame> {
        frames_of(self.containers)
    }

    /// The reader's invariant: the cursor is within the input, and every
    /// open container was entered by reading at least one byte.
    pub open spec fn wf(&self) -> bool {
        &&& self.frames().len() <= self.index() <= self.data().len()
        &&& self.data().len() < usize::MAX
        &&& self.frames().len() <= STACK_LIMIT
    }

    /// The last `peek` read the byte under the cursor.
    pub open spec fn peeked(&self) -> bool {
        &&& self.index() < self.data().len()
        &&& self.last_marker() == self.data()[self.index()]
    }

    /// Only the cursor moved.
    pub open spec fn moved_only(&self, other: &Self) -> bool {
        &&& self.data() == other.data()
        &&& self.last_marker() == other.last_marker()
        &&& self.frames() == other.frames()
    }

    pub fn new(data: &'a [u8]) -> (p: Self)
        requires
            data@.len() < usize::MAX,
        ensures
            p.wf(),
            p.data() == data@,
            p.index() == 0,
            p.frames() == Seq::<Frame>::empty(),
            p.last_marker() == 0,
    {
        MsgpackParser { data, index: 0, last_marker: 0, containers: FrameStack::new() }
    }

    /// A reader whose cursor is at `index`, with no container open.
    pub fn new_at(data: &'a [u8], index: usize) -> (p: Self)
        requires
            data@.len() < usize::MAX,
            index <= data@.len(),
        ensures
            p.wf(),
            p.data() == data@,
            p.index() == index,
            p.frames() == Seq::<Frame>::empty(),
    {
        MsgpackParser { data, index, last_marker: 0, containers: FrameStack::new() }
    }

    /// The offset of the next unread byte.
    pub fn position(&self) -> (r: usize)
        ensures
            r == self.index(),
    {
        self.index
    }

    /// How many containers are open.
    pub fn depth(&self) -> (r: usize)
        ensures
            r == self.frames().len(),
    {
        self.containers.len()
    }

    /// Reads the marker under the cursor and classifies it, without
    /// consuming it.
    pub fn peek(&mut self) -> (r: Result<Kind, DecodeError>)
        requires
            old(self).wf(),
        ensures
            final(self).wf(),
            final(self).data() == old(self).data(),
            final(self).index() == old(self).index(),
            final(self).frames() == old(self).frames(),
            old(self).index() >= old(self).data().len() ==> r == Err::<Kind, DecodeError>(
                decode_err(DecodeErrorKind::UnexpectedEnd, old(self).index()),
            ) && final(self).last_marker() == old(self).last_marker(),
            old(self).index() < old(self).data().len() ==> {
                &&& final(self).last_marker() == old(self).data()[old(self).index()]
                &&& final(self).peeked()
                &&& match kind_of_marker(final(self).last_marker()) {
                    Ok(k) => r == Ok::<Kind, DecodeError>(k),
                    Err(kind) => r == Err::<Kind, DecodeError>(
                        decode_err(kind, old(self).index()),
                    ),
                }
            },
    {
        let marker = self.peek_u8()?;
        self.last_marker = marker;
        if marker == 0xc0 {
            Ok(Kind::Null)
        } else if marker == 0xc2 || marker == 0xc3 {
            Ok(Kind::Bool)
        } else if marker <= 0x7f || (0xca <= marker && marker <= 0xd3) || marker >= 0xe0 {
            Ok(Kind::Num)
        } else if (0xa0 <= marker && marker <= 0xbf) || (0xd9 <= marker && marker <= 0xdb) {
            Ok(Kind::Str)
        } else if 0xc4 <= marker && marker <= 0xc6 {
            Ok(Kind::Bytes)
        } else if (0x90 <= marker && marker <= 0x9f) || marker == 0xdc || marker == 0xdd {
            Ok(Kind::Array)
        } else if (0x80 <= marker && marker <= 0x8f) || marker == 0xde || marker == 0xdf {
            Ok(Kind::Mapping)
        } else if marker == 0xc1 {
            Err(make_decode_error(DecodeErrorKind::ReservedMarker, self.index))
        } else {
            Err(make_decode_error(DecodeErrorKind::ExtensionUnsupported, self.index))
        }
    }

    /// Consumes the `nil` the last `peek` saw.
    pub fn take_null_known(&mut self) -> (r: Result<(), DecodeError>)
        requires
            old(self).wf(),
            old(self).peeked(),
        ensures
            final(self).wf(),
            final(self).moved_only(old(self)),
            final(self).index() == old(self).index() + 1,
            r is Ok,
    {
        self.index += 1;
        Ok(())
    }

    /// Consumes the boolean the last `peek` saw: `true` exactly for `0xc3`.
    pub fn take_bool_known(&mut self) -> (r: Result<bool, DecodeError>)
        requires
            old(self).wf(),
            old(self).peeked(),
        ensures
            final(self).wf(),
            final(self).moved_only(old(self)),
            final(self).index() == old(self).index() + 1,
            r == Ok::<bool, DecodeError>(old(self).last_marker() == 0xc3),
    {
        self.index += 1;
        Ok(self.last_marker == 0xc3)
    }

    /// Reads the number whose marker the last `peek` saw.
    pub fn read_number(&mut self) -> (r: Result<WireNumber, DecodeError>)
        requires
            old(self).wf(),
            old(self).peeked(),
        ensures
            final(self).wf(),
            final(self).moved_only(old(self)),
            match number_at(old(self).data(), old(self).index()) {
                Ok((n, end)) => r == Ok::<WireNumber, DecodeError>(n) && final(self).index()
                    == end,
                Err(e) => r == Err::<WireNumber, DecodeError>(e),
            },
    {
        let pos = self.index;
        let marker = self.last_marker;
        self.index += 1;
        if marker <= 0x7f {
            Ok(WireNumber::I64(marker as i64))
        } else if marker >= 0xe0 {
            Ok(WireNumber::I64(marker as i64 - 0x100))
        } else if marker == 0xcc {
            let v = self.take_u8()?;
            Ok(WireNumber::I64(v as i64))
        } else if marker == 0xd0 {
            let v = self.take_u8()?;
            Ok(WireNumber::I64(
                if v >= 0x80 {
                    v as i64 - 0x100
                } else {
                    v as i64
                },
            ))
        } else if marker == 0xcd {
            let v = self.take_u16()?;
            Ok(WireNumber::I64(v as i64))
        } else if marker == 0xd1 {
            let v = self.take_u16()?;
            Ok(WireNumber::I64(
                if v >= 0x8000 {
                    v as i64 - 0x1_0000
                } else {
                    v as i64
                },
            ))
        } else if marker == 0xce {
            let v = self.take_u32()?;
            Ok(WireNumber::I64(v as i64))
        } else if marker == 0xd2 {
            let v = self.take_u32()?;
            Ok(WireNumber::I64(
                if v >= 0x8000_0000 {
                    v as i64 - 0x1_0000_0000
                } else {
                    v as i64
                },
            ))
        } else if marker == 0xca {
            let v = self.take_u32()?;
            Ok(WireNumber::F32(v))
        } else if marker == 0xcf {
            let v = self.take_u64()?;
            Ok(WireNumber::U64(v))
        } else if marker == 0xd3 {
            let v = self.take_u64()?;
            Ok(WireNumber::I64(
                if v >= 0x8000_0000_0000_0000 {
                    (v - 0x8000_0000_0000_0000) as i64 + i64::MIN
                } else {
                    v as i64
                },
            ))
        } else if marker == 0xcb {
            let v = self.take_u64()?;
            Ok(WireNumber::F64(v))
        } else {
            self.index = pos;
            Err(make_decode_error(DecodeErrorKind::ExpectedNumber, pos))
        }
    }

    /// Reads the integer whose marker the last `peek` saw. A float is
    /// refused with the cursor left on it; an unsigned value beyond `i64`
    /// comes back as its `u64`.
    pub fn take_int_known(&mut self) -> (r: Result<ParsedInt, DecodeError>)
        requires
            old(self).wf(),
            old(self).peeked(),
        ensures
            final(self).wf(),
            final(self).moved_only(old(self)),
            match number_at(old(self).data(), old(self).index()) {
                Ok((WireNumber::I64(v), end)) => r matches Ok(ParsedInt::I64(x)) && x == v
                    && final(self).index() == end,
                Ok((WireNumber::U64(v), end)) => final(self).index() == end && if v
                    <= i64::MAX {
                    r matches Ok(ParsedInt::I64(x)) && x == v
                } else {
                    r matches Ok(ParsedInt::BigU64(x)) && x == v
                },
                Ok(_) => r matches Err(e) && e == decode_err(
                    DecodeErrorKind::ExpectedInteger,
                    old(self).index(),
                ) && final(self).index() == old(self).index(),
                Err(e) => r matches Err(x) && x == e,
            },
    {
        let pos = self.index;
        match self.read_number()? {
            WireNumber::I64(value) => Ok(ParsedInt::I64(value)),
            WireNumber::U64(value) => {
                if value <= i64::MAX as u64 {
                    Ok(ParsedInt::I64(value as i64))
                } else {
                    Ok(ParsedInt::BigU64(value))
                }
            },
            _ => {
                self.index = pos;
                Err(make_decode_error(DecodeErrorKind::ExpectedInteger, pos))
            },
        }
    }

    /// Reads the number whose marker the last `peek` saw, typed by its
    /// marker.
    pub fn take_number_known(&mut self) -> (r: Result<ParsedNumber, DecodeError>)
        requires
            old(self).wf(),
            old(self).peeked(),
        ensures
            final(self).wf(),
            final(self).moved_only(old(self)),
            match number_at(old(self).data(), old(self).index()) {
                Ok((n, end)) => final(self).index() == end && match n {
                    WireNumber::I64(v) => r matches Ok(ParsedNumber::Int(ParsedInt::I64(x)))
                        && x == v,
                    WireNumber::U64(v) => if v <= i64::MAX {
                        r matches Ok(ParsedNumber::Int(ParsedInt::I64(x))) && x == v
                    } else {
                        r matches Ok(ParsedNumber::Int(ParsedInt::BigU64(x))) && x == v
                    },
                    WireNumber::F32(b) => r matches Ok(ParsedNumber::F32(x)) && x == b,
                    WireNumber::F64(b) => r matches Ok(ParsedNumber::F64(x)) && x == b,
                },
                Err(e) => r matches Err(x) && x == e,
            },
    {
        match self.read_number()? {
            WireNumber::I64(value) => Ok(ParsedNumber::Int(ParsedInt::I64(value))),
            WireNumber::U64(value) => {
                if value <= i64::MAX as u64 {
                    Ok(ParsedNumber::Int(ParsedInt::I64(value as i64)))
                } else {
                    Ok(ParsedNumber::Int(ParsedInt::BigU64(value)))
                }
            },
            WireNumber::F32(bits) => Ok(ParsedNumber::F32(bits)),
            WireNumber::F64(bits) => Ok(ParsedNumber::F64(bits)),
        }
    }

    /// Reads the string whose marker the last `peek` saw; its bytes must be
    /// UTF-8.
    pub fn take_str_known(&mut self) -> (r: Result<&'a str, DecodeError>)
        requires
            old(self).wf(),
            old(self).peeked(),
        ensures
            final(self).wf(),
            final(self).moved_only(old(self)),
            match str_at(old(self).data(), old(self).index()) {
                Ok((bytes, end)) => r matches Ok(s) && s.spec_bytes() == bytes
                    && final(self).index() == end,
                Err(e) => r matches Err(x) && x == e,
            },
    {
        let pos = self.index;
        let len = self.read_str_len()?;
        let bytes = self.take_slice(len)?;
        validate_str(bytes, pos)
    }

    /// Reads the binary value whose marker the last `peek` saw.
    pub fn take_bytes_known(&mut self) -> (r: Result<&'a [u8], DecodeError>)
        requires
            old(self).wf(),
            old(self).peeked(),
        ensures
            final(self).wf(),
            final(self).moved_only(old(self)),
            match bin_at(old(self).data(), old(self).index()) {
                Ok((bytes, end)) => r matches Ok(b) && b@ == bytes && final(self).index()
                    == end,
                Err(e) => r matches Err(x) && x == e,
            },
    {
        let pos = self.index;
        let len = self.read_bin_len()?;
        match self.take_slice(len) {
            Ok(s) => Ok(s),
            Err(_) => Err(make_decode_error(DecodeErrorKind::TruncatedBinary, pos)),
        }
    }

    /// Enters the map the last `peek` saw. `None`: the map is empty (and
    /// finished); `Some(key)`: its first key, read.
    pub fn enter_map_known(&mut self) -> (r: Result<Option<&'a str>, DecodeError>)
        requires
            old(self).wf(),
            old(self).peeked(),
            old(self).frames().len() < STACK_LIMIT,
        ensures
            final(self).wf(),
            final(self).data() == old(self).data(),
            enter_map_post(old(self).data(), old(self).index(), old(self).frames(), old(self).last_marker(), final(self), r),
    {
        match self.enter_map_inner() {
            Ok((key, _)) => Ok(key),
            Err(e) => Err(e),
        }
    }

    /// `enter_map_known` that also reports the entry count, capped by what
    /// the remaining input can hold. `0` means the map was empty.
    pub fn enter_map_known_sized(&mut self) -> (r: Result<(Option<&'a str>, usize), DecodeError>)
        requires
            old(self).wf(),
            old(self).peeked(),
            old(self).frames().len() < STACK_LIMIT,
        ensures
            final(self).wf(),
            final(self).data() == old(self).data(),
            enter_map_post(
                old(self).data(),
                old(self).index(),
                old(self).frames(),
                old(self).last_marker(),
                final(self),
                match r {
                    Ok((k, _)) => Ok(k),
                    Err(e) => Err(e),
                },
            ),
            r matches Ok((k, n)) ==> match container_header(
                old(self).data(),
                old(self).index(),
                true,
            ) {
                Ok((len, q)) => n == if len == 0 {
                    0
                } else {
                    clamp_spec(true, len, old(self).data().len() - q)
                },
                Err(_) => false,
            },
    {
        self.enter_map_inner()
    }

    /// Enters the array the last `peek` saw: `true` when it has a first
    /// element, `false` when it is empty (and finished).
    pub fn enter_array_known(&mut self) -> (r: Result<bool, DecodeError>)
        requires
            old(self).wf(),
            old(self).peeked(),
            old(self).frames().len() < STACK_LIMIT,
        ensures
            final(self).wf(),
            final(self).data() == old(self).data(),
            final(self).last_marker() == old(self).last_marker(),
            match container_header(old(self).data(), old(self).index(), false) {
                Ok((len, q)) => final(self).index() == q && if len == 0 {
                    r == Ok::<bool, DecodeError>(false) && final(self).frames() == old(self).frames()
                } else {
                    r == Ok::<bool, DecodeError>(true) && final(self).frames() == old(self).frames().push(Frame { is_map: false, remaining: (len - 1) as u32 })
                },
                Err(e) => r == Err::<bool, DecodeError>(e) && final(self).frames() == old(self).frames(),
            },
    {
        let len = self.read_array_len()?;
        if len == 0 {
            return Ok(false);
        }
        self.containers.push(Frame { is_map: false, remaining: len - 1 });
        Ok(true)
    }

    /// Entry count of the container entered last, as its header stated it
    /// but capped by what the remaining input can hold. Only meaningful
    /// right after entering: it is derived from the entries still pending.
    pub fn container_len_hint(&self) -> (r: Option<usize>)
        requires
            self.wf(),
        ensures
            self.frames().len() == 0 ==> r.is_none(),
            self.frames().len() > 0 ==> r == Some(
                clamp_spec(
                    self.frames().last().is_map,
                    self.frames().last().remaining + 1,
                    self.data().len() - self.index(),
                ) as usize,
            ),
    {
        match self.containers.last() {
            None => None,
            Some(container) => Some(
                self.clamp_stated_len(container.is_map, container.remaining as u64 + 1),
            ),
        }
    }

    /// Caps a stated entry count by the bytes left: an array entry takes at
    /// least one byte, a map pair at least two.
    fn clamp_stated_len(&self, is_map: bool, stated: u64) -> (r: usize)
        requires
            self.wf(),
        ensures
            r == clamp_spec(is_map, stated as int, self.data().len() - self.index()),
    {
        let room = self.data.len() - self.index;
        let cap = if is_map {
            room / 2 + 1
        } else {
            room + 1
        };
        if stated < cap as u64 {
            stated as usize
        } else {
            cap
        }
    }

    /// Enters a map without a preceding `peek` (discriminated-union scan).
    pub fn enter_map(&mut self) -> (r: Result<Option<&'a str>, DecodeError>)
        requires
            old(self).wf(),
            old(self).frames().len() < STACK_LIMIT,
        ensures
            final(self).wf(),
            final(self).data() == old(self).data(),
            old(self).index() >= old(self).data().len() ==> (r matches Err(e) && e
                == decode_err(DecodeErrorKind::UnexpectedEnd, old(self).index())),
            old(self).index() < old(self).data().len() ==> {
                let m = old(self).data()[old(self).index()];
                match kind_of_marker(m) {
                    Ok(Kind::Mapping) => enter_map_post(
                        old(self).data(),
                        old(self).index(),
                        old(self).frames(),
                        m,
                        final(self),
                        r,
                    ),
                    Ok(_) => r matches Err(e) && e == decode_err(
                        DecodeErrorKind::ExpectedMap,
                        old(self).index(),
                    ),
                    Err(k) => r matches Err(e) && e == decode_err(k, old(self).index()),
                }
            },
    {
        let pos = self.index;
        let kind = self.peek()?;
        if kind != Kind::Mapping {
            return Err(make_decode_error(DecodeErrorKind::ExpectedMap, pos));
        }
        match self.enter_map_inner() {
            Ok((key, _)) => Ok(key),
            Err(e) => Err(e),
        }
    }

    fn enter_map_inner(&mut self) -> (r: Result<(Option<&'a str>, usize), DecodeError>)
        requires
            old(self).wf(),
            old(self).peeked(),
            old(self).frames().len() < STACK_LIMIT,
        ensures
            final(self).wf(),
            final(self).data() == old(self).data(),
            enter_map_post(
                old(self).data(),
                old(self).index(),
                old(self).frames(),
                old(self).last_marker(),
                final(self),
                match r {
                    Ok((k, _)) => Ok(k),
                    Err(e) => Err(e),
                },
            ),
            r matches Ok((k, n)) ==> match container_header(
                old(self).data(),
                old(self).index(),
                true,
            ) {
                Ok((len, q)) => n == if len == 0 {
                    0
                } else {
                    clamp_spec(true, len, old(self).data().len() - q)
                },
                Err(_) => false,
            },
    {
        let len = self.read_map_len()?;
        if len == 0 {
            return Ok((None, 0));
        }
        self.containers.push(Frame { is_map: true, remaining: len - 1 });
        let hint = self.clamp_stated_len(true, len as u64);
        let key = self.take_map_key()?;
        Ok((Some(key), hint))
    }

    /// Next key of the innermost map: `None` when the map is finished (it is
    /// then closed).
    pub fn next_key(&mut self) -> (r: Result<Option<&'a str>, DecodeError>)
        requires
            old(self).wf(),
        ensures
            final(self).wf(),
            final(self).data() == old(self).data(),
            old(self).frames().len() == 0 ==> (r matches Err(e) && e == decode_err(
                DecodeErrorKind::MapIteratorInactive,
                old(self).index(),
            )),
            old(self).frames().len() > 0 && !old(self).frames().last().is_map ==> (r matches Err(
                e,
            ) && e == decode_err(DecodeErrorKind::ExpectedActiveMap, old(self).index())),
            old(self).frames().len() > 0 && old(self).frames().last().is_map && old(self).frames().last().remaining == 0 ==> (r matches Ok(None) && final(self).frames()
                == old(self).frames().drop_last() && final(self).index() == old(self).index()),
            old(self).frames().len() > 0 && old(self).frames().last().is_map && old(self).frames().last().remaining > 0 ==> {
                let top = old(self).frames().last();
                &&& final(self).frames() == old(self).frames().drop_last().push(
                    Frame { is_map: true, remaining: (top.remaining - 1) as u32 },
                )
                &&& key_read_at(old(self).data(), old(self).index(), final(self), r)
            },
    {
        let top = match self.containers.last() {
            None => {
                return Err(make_decode_error(DecodeErrorKind::MapIteratorInactive, self.index));
            },
            Some(c) => c,
        };
        if !top.is_map {
            return Err(make_decode_error(DecodeErrorKind::ExpectedActiveMap, self.index));
        }
        if top.remaining == 0 {
            self.containers.pop();
            Ok(None)
        } else {
            self.containers.pop();
            self.containers.push(Frame { is_map: true, remaining: top.remaining - 1 });
            match self.take_map_key() {
                Ok(k) => Ok(Some(k)),
                Err(e) => Err(e),
            }
        }
    }

    /// Steps to the next element of the innermost array: `false` when the
    /// array is finished (it is then closed).
    pub fn next_array_item(&mut self) -> (r: Result<bool, DecodeError>)
        requires
            old(self).wf(),
        ensures
            final(self).wf(),
            final(self).data() == old(self).data(),
            final(self).index() == old(self).index(),
            final(self).last_marker() == old(self).last_marker(),
            old(self).frames().len() == 0 ==> r == Err::<bool, DecodeError>(
                decode_err(DecodeErrorKind::ArrayIteratorInactive, old(self).index()),
            ) && final(self).frames() == old(self).frames(),
            old(self).frames().len() > 0 && old(self).frames().last().is_map ==> r == Err::<
                bool,
                DecodeError,
            >(decode_err(DecodeErrorKind::ExpectedActiveArray, old(self).index()))
                && final(self).frames() == old(self).frames(),
            old(self).frames().len() > 0 && !old(self).frames().last().is_map && old(self).frames().last().remaining == 0 ==> r == Ok::<bool, DecodeError>(false) && final(self).frames() == old(self).frames().drop_last(),
            old(self).frames().len() > 0 && !old(self).frames().last().is_map && old(self).frames().last().remaining > 0 ==> r == Ok::<bool, DecodeError>(true) && final(self).frames() == old(self).frames().drop_last().push(
                Frame { is_map: false, remaining: (old(self).frames().last().remaining - 1) as u32 },
            ),
    {
        let top = match self.containers.last() {
            None => {
                return Err(
                    make_decode_error(DecodeErrorKind::ArrayIteratorInactive, self.index),
                );
            },
            Some(c) => c,
        };
        if top.is_map {
            return Err(make_decode_error(DecodeErrorKind::ExpectedActiveArray, self.index));
        }
        if top.remaining == 0 {
            self.containers.pop();
            Ok(false)
        } else {
            self.containers.pop();
            self.containers.push(Frame { is_map: false, remaining: top.remaining - 1 });
            Ok(true)
        }
    }

    /// Steps over one whole value, nested containers included, without
    /// recursion.
    pub fn skip_value(&mut self) -> (r: Result<(), DecodeError>)
        requires
            old(self).wf(),
        ensures
            final(self).wf(),
            final(self).moved_only(old(self)),
            match value_end(old(self).data(), old(self).index()) {
                Ok(end) => r is Ok && final(self).index() == end,
                Err(e) => r == Err::<(), DecodeError>(e),
            },
    {
        let ghost d = self.data@;
        let ghost start = self.index as int;
        let mut pending: usize = 1;
        while pending > 0
            invariant
                self.wf(),
                self.data() == d,
                start == old(self).index(),
                self.moved_only(old(self)),
                skip_values(d, self.index as int, pending as int) == skip_values(d, start, 1),
            decreases d.len() - self.index,
        {
            let ghost at = self.index as int;
            let ghost before = pending as int;
            proof {
                lemma_skip_step_advances(d, at);
                assert(skip_values(d, at, before) == match skip_step(d, at) {
                    Err(e) => Err(e),
                    Ok((q, c)) => if before - 1 + c > usize::MAX {
                        Err(decode_err(DecodeErrorKind::ContainerTooLarge, at))
                    } else if q <= at || q > d.len() {
                        Ok(at)
                    } else {
                        skip_values(d, q, before - 1 + c)
                    },
                });
            }
            pending -= 1;
            let marker_pos = self.index;
            let count = match self.skip_header() {
                Ok(c) => c,
                Err(e) => {
                    return Err(e);
                },
            };
            pending = add_pending(pending, count, marker_pos)?;
        }
        Ok(())
    }

    /// Steps over the header (and any inline payload) of the value under the
    /// cursor and returns how many nested values follow it.
    #[verifier::spinoff_prover]
    #[verifier::rlimit(40)]
    fn skip_header(&mut self) -> (r: Result<usize, DecodeError>)
        requires
            old(self).wf(),
        ensures
            final(self).wf(),
            final(self).moved_only(old(self)),
            match skip_step(old(self).data(), old(self).index()) {
                Ok((q, c)) => r == Ok::<usize, DecodeError>(c as usize) && final(self).index() == q,
                Err(e) => r == Err::<usize, DecodeError>(e),
            },
    {
        let marker_pos = self.index;
        let marker = self.take_u8()?;
        let count: usize;
        if marker <= 0x7f || marker >= 0xe0 || marker == 0xc0 || marker == 0xc2 || marker
            == 0xc3 {
            count = 0;
        } else if marker <= 0x8f {
            count = (marker - 0x80) as usize * 2;
        } else if marker <= 0x9f {
            count = (marker - 0x90) as usize;
        } else if marker <= 0xbf {
            self.skip_bytes((marker - 0xa0) as usize)?;
            count = 0;
        } else if marker == 0xc1 {
            return Err(make_decode_error(DecodeErrorKind::ReservedMarker, marker_pos));
        } else if marker == 0xc4 || marker == 0xd9 {
            let len = self.take_u8()? as usize;
            self.skip_bytes(len)?;
            count = 0;
        } else if marker == 0xc5 || marker == 0xda {
            let len = self.take_u16()? as usize;
            self.skip_bytes(len)?;
            count = 0;
        } else if marker == 0xc6 || marker == 0xdb {
            let len = self.take_u32()? as usize;
            self.skip_bytes(len)?;
            count = 0;
        } else if marker == 0xca || marker == 0xce || marker == 0xd2 {
            self.skip_bytes(4)?;
            count = 0;
        } else if marker == 0xcb || marker == 0xcf || marker == 0xd3 {
            self.skip_bytes(8)?;
            count = 0;
        } else if marker == 0xcc || marker == 0xd0 {
            self.skip_bytes(1)?;
            count = 0;
        } else if marker == 0xcd || marker == 0xd1 {
            self.skip_bytes(2)?;
            count = 0;
        } else if marker == 0xdc {
            count = self.take_u16()? as usize;
        } else if marker == 0xdd {
            count = self.take_u32()? as usize;
        } else if marker == 0xde {
            count = self.take_u16()? as usize * 2;
        } else if marker == 0xdf {
            let len = self.take_u32()? as usize;
            count = match len.checked_mul(2) {
                Some(c) => c,
                None => {
                    return Err(
                        make_decode_error(DecodeErrorKind::MapLengthTooLarge, marker_pos),
                    );
                },
            };
        } else if marker == 0xc7 {
            let len = self.take_u8()? as usize;
            self.skip_bytes(len + 1)?;
            count = 0;
        } else if marker == 0xc8 {
            let len = self.take_u16()? as usize;
            self.skip_bytes(len + 1)?;
            count = 0;
        } else if marker == 0xc9 {
            let len = self.take_u32()? as usize;
            let total = match len.checked_add(1) {
                Some(t) => t,
                None => {
                    return Err(
                        make_decode_error(
                            DecodeErrorKind::ExtensionLengthTooLarge,
                            marker_pos,
                        ),
                    );
                },
            };
            self.skip_bytes(total)?;
            count = 0;
        } else if marker == 0xd4 {
            self.skip_bytes(2)?;
            count = 0;
        } else if marker == 0xd5 {
            self.skip_bytes(3)?;
            count = 0;
        } else if marker == 0xd6 {
            self.skip_bytes(5)?;
            count = 0;
        } else if marker == 0xd7 {
            self.skip_bytes(9)?;
            count = 0;
        } else {
            self.skip_bytes(17)?;
            count = 0;
        }
        Ok(count)
    }

    /// Steps over one whole value and returns the bytes it spans.
    pub fn take_raw_value(&mut self) -> (r: Result<&'a [u8], DecodeError>)
        requires
            old(self).wf(),
        ensures
            final(self).wf(),
            final(self).moved_only(old(self)),
            match value_end(old(self).data(), old(self).index()) {
                Ok(end) => r matches Ok(s) && s@ == old(self).data().subrange(
                    old(self).index(),
                    end,
                ) && final(self).index() == end,
                Err(e) => r matches Err(x) && x == e,
            },
    {
        let start = self.index;
        proof {
            lemma_skip_values_bounds(self.data@, start as int, 1);
        }
        self.skip_value()?;
        Ok(vstd::slice::slice_subrange(self.data, start, self.index))
    }

    /// Succeeds exactly when the whole input has been consumed.
    pub fn finish(&self) -> (r: Result<(), DecodeError>)
        requires
            self.wf(),
        ensures
            self.index() == self.data().len() ==> r is Ok,
            self.index() != self.data().len() ==> r == Err::<(), DecodeError>(
                decode_err(DecodeErrorKind::TrailingData, self.index()),
            ),
    {
        if self.index == self.data.len() {
            Ok(())
        } else {
            Err(make_decode_error(DecodeErrorKind::TrailingData, self.index))
        }
    }

    /// Peeks and reads a map key, which must be a string.
    fn take_map_key(&mut self) -> (r: Result<&'a str, DecodeError>)
        requires
            old(self).wf(),
        ensures
            final(self).wf(),
            final(self).data() == old(self).data(),
            final(self).frames() == old(self).frames(),
            key_read_at(
                old(self).data(),
                old(self).index(),
                final(self),
                match r {
                    Ok(k) => Ok(Some(k)),
                    Err(e) => Err(e),
                },
            ),
    {
        let pos = self.index;
        let kind = self.peek()?;
        if kind == Kind::Str {
            self.take_str_known()
        } else {
            Err(make_decode_error(DecodeErrorKind::MapKeyNotString, pos))
        }
    }

    fn read_str_len(&mut self) -> (r: Result<usize, DecodeError>)
        requires
            old(self).wf(),
            old(self).peeked(),
        ensures
            final(self).wf(),
            final(self).moved_only(old(self)),
            match str_header(old(self).data(), old(self).index()) {
                Ok((s, n)) => r == Ok::<usize, DecodeError>(n as usize) && final(self).index()
                    == s,
                Err(e) => r == Err::<usize, DecodeError>(e),
            },
    {
        let pos = self.index;
        let marker = self.last_marker;
        self.index += 1;
        if 0xa0 <= marker && marker <= 0xbf {
            Ok((marker - 0xa0) as usize)
        } else if marker == 0xd9 {
            Ok(self.take_u8()? as usize)
        } else if marker == 0xda {
            Ok(self.take_u16()? as usize)
        } else if marker == 0xdb {
            Ok(self.take_u32()? as usize)
        } else {
            Err(make_decode_error(DecodeErrorKind::ExpectedString, pos))
        }
    }

    fn read_bin_len(&mut self) -> (r: Result<usize, DecodeError>)
        requires
            old(self).wf(),
            old(self).peeked(),
        ensures
            final(self).wf(),
            final(self).moved_only(old(self)),
            match bin_header(old(self).data(), old(self).index()) {
                Ok((s, n)) => r == Ok::<usize, DecodeError>(n as usize) && final(self).index()
                    == s,
                Err(e) => r == Err::<usize, DecodeError>(e),
            },
    {
        let pos = self.index;
        let marker = self.last_marker;
        self.index += 1;
        if marker == 0xc4 {
            Ok(self.take_u8()? as usize)
        } else if marker == 0xc5 {
            Ok(self.take_u16()? as usize)
        } else if marker == 0xc6 {
            Ok(self.take_u32()? as usize)
        } else {
            Err(make_decode_error(DecodeErrorKind::ExpectedBinary, pos))
        }
    }

    fn read_array_len(&mut self) -> (r: Result<u32, DecodeError>)
        requires
            old(self).wf(),
            old(self).peeked(),
        ensures
            final(self).wf(),
            final(self).moved_only(old(self)),
            match container_header(old(self).data(), old(self).index(), false) {
                Ok((n, q)) => r == Ok::<u32, DecodeError>(n as u32) && final(self).index() == q,
                Err(e) => r == Err::<u32, DecodeError>(e),
            },
    {
        let pos = self.index;
        let marker = self.last_marker;
        self.index += 1;
        if 0x90 <= marker && marker <= 0x9f {
            Ok((marker - 0x90) as u32)
        } else if marker == 0xdc {
            Ok(self.take_u16()? as u32)
        } else if marker == 0xdd {
            self.take_u32()
        } else {
            Err(make_decode_error(DecodeErrorKind::ExpectedArray, pos))
        }
    }

    fn read_map_len(&mut self) -> (r: Result<u32, DecodeError>)
        requires
            old(self).wf(),
            old(self).peeked(),
        ensures
            final(self).wf(),
            final(self).moved_only(old(self)),
            match container_header(old(self).data(), old(self).index(), true) {
                Ok((n, q)) => r == Ok::<u32, DecodeError>(n as u32) && final(self).index() == q,
                Err(e) => r == Err::<u32, DecodeError>(e),
            },
    {
        let pos = self.index;
        let marker = self.last_marker;
        self.index += 1;
        if 0x80 <= marker && marker <= 0x8f {
            Ok((marker - 0x80) as u32)
        } else if marker == 0xde {
            Ok(self.take_u16()? as u32)
        } else if marker == 0xdf {
            self.take_u32()
        } else {
            Err(make_decode_error(DecodeErrorKind::ExpectedMap, pos))
        }
    }

    fn peek_u8(&self) -> (r: Result<u8, DecodeError>)
        requires
            self.wf(),
        ensures
            self.index() < self.data().len() ==> r == Ok::<u8, DecodeError>(
                self.data()[self.index()],
            ),
            self.index() >= self.data().len() ==> r == Err::<u8, DecodeError>(
                decode_err(DecodeErrorKind::UnexpectedEnd, self.index()),
            ),
    {
        if self.index < self.data.len() {
            Ok(self.data[self.index])
        } else {
            Err(make_decode_error(DecodeErrorKind::UnexpectedEnd, self.index))
        }
    }

    fn take_u8(&mut self) -> (r: Result<u8, DecodeError>)
        requires
            old(self).wf(),
        ensures
            final(self).wf(),
            final(self).moved_only(old(self)),
            match read_u8_at(old(self).data(), old(self).index()) {
                Ok((v, q)) => r == Ok::<u8, DecodeError>(v as u8) && final(self).index() == q,
                Err(e) => r == Err::<u8, DecodeError>(e),
            },
    {
        let value = self.peek_u8()?;
        self.index += 1;
        Ok(value)
    }

    fn take_u16(&mut self) -> (r: Result<u16, DecodeError>)
        requires
            old(self).wf(),
        ensures
            final(self).wf(),
            final(self).moved_only(old(self)),
            match read_be_at(old(self).data(), old(self).index(), 2) {
                Ok((v, q)) => r == Ok::<u16, DecodeError>(v as u16) && final(self).index() == q,
                Err(e) => r == Err::<u16, DecodeError>(e),
            },
    {
        let b = self.take_slice(2)?;
        Ok(b[0] as u16 * 0x100 + b[1] as u16)
    }

    fn take_u32(&mut self) -> (r: Result<u32, DecodeError>)
        requires
            old(self).wf(),
        ensures
            final(self).wf(),
            final(self).moved_only(old(self)),
            match read_be_at(old(self).data(), old(self).index(), 4) {
                Ok((v, q)) => r == Ok::<u32, DecodeError>(v as u32) && final(self).index() == q,
                Err(e) => r == Err::<u32, DecodeError>(e),
            },
    {
        let b = self.take_slice(4)?;
        let hi = b[0] as u32 * 0x100 + b[1] as u32;
        let lo = b[2] as u32 * 0x100 + b[3] as u32;
        Ok(hi * 0x1_0000 + lo)
    }

    fn take_u64(&mut self) -> (r: Result<u64, DecodeError>)
        requires
            old(self).wf(),
        ensures
            final(self).wf(),
            final(self).moved_only(old(self)),
            match read_be_at(old(self).data(), old(self).index(), 8) {
                Ok((v, q)) => r == Ok::<u64, DecodeError>(v as u64) && final(self).index() == q,
                Err(e) => r == Err::<u64, DecodeError>(e),
            },
    {
        let b = self.take_slice(8)?;
        let w0 = b[0] as u64 * 0x100 + b[1] as u64;
        let w1 = b[2] as u64 * 0x100 + b[3] as u64;
        let w2 = b[4] as u64 * 0x100 + b[5] as u64;
        let w3 = b[6] as u64 * 0x100 + b[7] as u64;
        let hi = w0 * 0x1_0000 + w1;
        let lo = w2 * 0x1_0000 + w3;
        Ok(hi * 0x1_0000_0000 + lo)
    }

    fn take_slice(&mut self, len: usize) -> (r: Result<&'a [u8], DecodeError>)
        requires
            old(self).wf(),
        ensures
            final(self).wf(),
            final(self).moved_only(old(self)),
            match span_end(old(self).data(), old(self).index(), len as int) {
                Ok(end) => r matches Ok(s) && s@ == old(self).data().subrange(
                    old(self).index(),
                    end,
                ) && final(self).index() == end,
                Err(e) => r matches Err(x) && x == e,
            },
    {
        let end = match self.index.checked_add(len) {
            Some(e) => e,
            None => {
                return Err(make_decode_error(DecodeErrorKind::ValueLengthTooLarge, self.index));
            },
        };
        if end > self.data.len() {
            return Err(make_decode_error(DecodeErrorKind::UnexpectedEnd, self.index));
        }
        let slice = vstd::slice::slice_subrange(self.data, self.index, end);
        self.index = end;
        Ok(slice)
    }

    fn skip_bytes(&mut self, len: usize) -> (r: Result<(), DecodeError>)
        requires
            old(self).wf(),
        ensures
            final(self).wf(),
            final(self).moved_only(old(self)),
            match span_end(old(self).data(), old(self).index(), len as int) {
                Ok(end) => r is Ok && final(self).index() == end,
                Err(e) => r == Err::<(), DecodeError>(e),
            },
    {
        match self.take_slice(len) {
            Ok(_) => Ok(()),
            Err(e) => Err(e),
        }
    }
}

/// What entering the map whose header starts at `p` leaves behind, for a
/// reader that had `frames` open and `marker` as its last peeked marker.
pub open spec fn enter_map_post(
    d: Seq<u8>,
    p: int,
    frames: Seq<Frame>,
    marker: u8,
    new: &MsgpackParser,
    r: Result<Option<&str>, DecodeError>,
) -> bool {
    match container_header(d, p, true) {
        Err(e) => r == Err::<Option<&str>, DecodeError>(e),
        Ok((len, q)) => if len == 0 {
            &&& r == Ok::<Option<&str>, DecodeError>(None)
            &&& new.index() == q
            &&& new.frames() == frames
            &&& new.last_marker() == marker
        } else {
            &&& new.frames() == frames.push(Frame { is_map: true, remaining: (len - 1) as u32 })
            &&& key_read_at(d, q, new, r)
        },
    }
}

/// `r` is the outcome of peeking and reading a string key at `p`.
pub open spec fn key_read_at(
    d: Seq<u8>,
    p: int,
    new: &MsgpackParser,
    r: Result<Option<&str>, DecodeError>,
) -> bool {
    if p >= d.len() {
        r matches Err(e) && e == decode_err(DecodeErrorKind::UnexpectedEnd, p)
    } else {
        &&& new.last_marker() == d[p]
        &&& match kind_of_marker(d[p]) {
            Err(k) => r matches Err(e) && e == decode_err(k, p),
            Ok(Kind::Str) => match str_at(d, p) {
                Ok((bytes, end)) => r matches Ok(Some(s)) && s.spec_bytes() == bytes
                    && new.index() == end,
                Err(e) => r matches Err(x) && x == e,
            },
            Ok(_) => r matches Err(e) && e == decode_err(DecodeErrorKind::MapKeyNotString, p),
        }
    }
}

/// The cap `clamp_stated_len` applies for `room` bytes left.
pub open spec fn clamp_spec(is_map: bool, stated: int, room: int) -> int {
    let cap = if is_map {
        room / 2 + 1
    } else {
        room + 1
    };
    if stated < cap {
        stated
    } else {
        cap
    }
}

/// Adds `count` more values to skip, refusing a total beyond `usize`.
fn add_pending(pending: usize, count: usize, marker_pos: usize) -> (r: Result<usize, DecodeError>)
    ensures
        pending + count <= usize::MAX ==> r == Ok::<usize, DecodeError>(
            (pending + count) as usize,
        ),
        pending + count > usize::MAX ==> r == Err::<usize, DecodeError>(
            decode_err(DecodeErrorKind::ContainerTooLarge, marker_pos as int),
        ),
{
    match pending.checked_add(count) {
        Some(total) => Ok(total),
        None => Err(make_decode_error(DecodeErrorKind::ContainerTooLarge, marker_pos)),
    }
}

/// Checks that `bytes` are UTF-8 and views them as text.
fn validate_str<'b>(bytes: &'b [u8], pos: usize) -> (r: Result<&'b str, DecodeError>)
    ensures
        vstd::utf8::valid_utf8(bytes@) ==> (r matches Ok(s) && s.spec_bytes() == bytes@),
        !vstd::utf8::valid_utf8(bytes@) ==> r == Err::<&'b str, DecodeError>(
            decode_err(DecodeErrorKind::InvalidUtf8, pos as int),
        ),
{
    match crate::text::utf8_from_bytes(bytes) {
        Some(s) => Ok(s),
        None => Err(make_decode_error(DecodeErrorKind::InvalidUtf8, pos)),
    }
}

} // verus!
