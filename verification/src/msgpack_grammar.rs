//! The MessagePack wire format as the reader understands it, stated over
//! byte sequences: big-endian fields, value headers, and what it takes to
//! step over a run of values.
use crate::decode_error::{decode_err, DecodeError, DecodeErrorKind};
use vstd::prelude::*;

verus! {

/// Big-endian value of the two bytes at `p`.
pub open spec fn be16(d: Seq<u8>, p: int) -> int {
    d[p] as int * 0x100 + d[p + 1] as int
}

/// Big-endian value of the four bytes at `p`.
pub open spec fn be32(d: Seq<u8>, p: int) -> int {
    be16(d, p) * 0x1_0000 + be16(d, p + 2)
}

/// Big-endian value of the eight bytes at `p`.
pub open spec fn be64(d: Seq<u8>, p: int) -> int {
    be32(d, p) * 0x1_0000_0000 + be32(d, p + 4)
}

/// End of an `n`-byte span starting at `p`, or why it does not fit: a length
/// that overflows the address space, or input that ends too early.
pub open spec fn span_end(d: Seq<u8>, p: int, n: int) -> Result<int, DecodeError> {
    if p + n > usize::MAX {
        Err(decode_err(DecodeErrorKind::ValueLengthTooLarge, p))
    } else if p + n > d.len() {
        Err(decode_err(DecodeErrorKind::UnexpectedEnd, p))
    } else {
        Ok(p + n)
    }
}

/// One byte at `p`: its value and the position after it.
pub open spec fn read_u8_at(d: Seq<u8>, p: int) -> Result<(int, int), DecodeError> {
    if p >= d.len() {
        Err(decode_err(DecodeErrorKind::UnexpectedEnd, p))
    } else {
        Ok((d[p] as int, p + 1))
    }
}

/// A big-endian field of `n` (2, 4 or 8) bytes at `p`: its value and the
/// position after it.
pub open spec fn read_be_at(d: Seq<u8>, p: int, n: int) -> Result<(int, int), DecodeError> {
    match span_end(d, p, n) {
        Err(e) => Err(e),
        Ok(end) => Ok((
            if n == 2 {
                be16(d, p)
            } else if n == 4 {
                be32(d, p)
            } else {
                be64(d, p)
            },
            end,
        )),
    }
}

/// A length field of `n` bytes at `p` followed by that many payload bytes
/// plus `extra` (the type byte of an extension): the end of the value.
pub open spec fn sized_payload_end(d: Seq<u8>, p: int, n: int, extra: int) -> Result<
    int,
    DecodeError,
> {
    let field = if n == 1 {
        read_u8_at(d, p)
    } else {
        read_be_at(d, p, n)
    };
    match field {
        Err(e) => Err(e),
        Ok((len, q)) => span_end(d, q, len + extra),
    }
}

/// Wraps an end position as "no nested values".
pub open spec fn leaf(r: Result<int, DecodeError>) -> Result<(int, int), DecodeError> {
    match r {
        Err(e) => Err(e),
        Ok(q) => Ok((q, 0)),
    }
}

/// The header of the value whose marker sits at `mp`: the position after
/// the header and its inline payload, and how many nested values follow it
/// (array elements, or map keys and values).
pub open spec fn skip_step(d: Seq<u8>, mp: int) -> Result<(int, int), DecodeError> {
    if mp < 0 || mp >= d.len() {
        Err(decode_err(DecodeErrorKind::UnexpectedEnd, mp))
    } else {
        let m = d[mp];
        let q = mp + 1;
        if m <= 0x7f || m >= 0xe0 || m == 0xc0 || m == 0xc2 || m == 0xc3 {
            Ok((q, 0))
        } else if m <= 0x8f {
            Ok((q, 2 * (m - 0x80)))
        } else if m <= 0x9f {
            Ok((q, m - 0x90))
        } else if m <= 0xbf {
            leaf(span_end(d, q, m - 0xa0))
        } else if m == 0xc1 {
            Err(decode_err(DecodeErrorKind::ReservedMarker, mp))
        } else if m == 0xc4 || m == 0xd9 {
            leaf(sized_payload_end(d, q, 1, 0))
        } else if m == 0xc5 || m == 0xda {
            leaf(sized_payload_end(d, q, 2, 0))
        } else if m == 0xc6 || m == 0xdb {
            leaf(sized_payload_end(d, q, 4, 0))
        } else if m == 0xca || m == 0xce || m == 0xd2 {
            leaf(span_end(d, q, 4))
        } else if m == 0xcb || m == 0xcf || m == 0xd3 {
            leaf(span_end(d, q, 8))
        } else if m == 0xcc || m == 0xd0 {
            leaf(span_end(d, q, 1))
        } else if m == 0xcd || m == 0xd1 {
            leaf(span_end(d, q, 2))
        } else if m == 0xdc {
            match read_be_at(d, q, 2) {
                Err(e) => Err(e),
                Ok((n, r)) => Ok((r, n)),
            }
        } else if m == 0xdd {
            match read_be_at(d, q, 4) {
                Err(e) => Err(e),
                Ok((n, r)) => Ok((r, n)),
            }
        } else if m == 0xde {
            match read_be_at(d, q, 2) {
                Err(e) => Err(e),
                Ok((n, r)) => Ok((r, 2 * n)),
            }
        } else if m == 0xdf {
            match read_be_at(d, q, 4) {
                Err(e) => Err(e),
                Ok((n, r)) => if 2 * n > usize::MAX {
                    Err(decode_err(DecodeErrorKind::MapLengthTooLarge, mp))
                } else {
                    Ok((r, 2 * n))
                },
            }
        } else if m == 0xc7 {
            leaf(sized_payload_end(d, q, 1, 1))
        } else if m == 0xc8 {
            leaf(sized_payload_end(d, q, 2, 1))
        } else if m == 0xc9 {
            match read_be_at(d, q, 4) {
                Err(e) => Err(e),
                Ok((n, r)) => if n + 1 > usize::MAX {
                    Err(decode_err(DecodeErrorKind::ExtensionLengthTooLarge, mp))
                } else {
                    leaf(span_end(d, r, n + 1))
                },
            }
        } else if m == 0xd4 {
            leaf(span_end(d, q, 2))
        } else if m == 0xd5 {
            leaf(span_end(d, q, 3))
        } else if m == 0xd6 {
            leaf(span_end(d, q, 5))
        } else if m == 0xd7 {
            leaf(span_end(d, q, 9))
        } else {
            leaf(span_end(d, q, 17))
        }
    }
}

/// A successful step always moves forward and stays within the input.
pub proof fn lemma_skip_step_advances(d: Seq<u8>, mp: int)
    ensures
        skip_step(d, mp) matches Ok((q, c)) ==> mp < q <= d.len() && 0 <= c <= usize::MAX,
{
}

/// End position of `pending` consecutive values starting at `p`, or the
/// first error met while stepping over them. A value count that no longer
/// fits a `usize` is itself an error.
pub open spec fn skip_values(d: Seq<u8>, p: int, pending: int) -> Result<int, DecodeError>
    decreases d.len() - p,
{
    if pending <= 0 {
        Ok(p)
    } else {
        match skip_step(d, p) {
            Err(e) => Err(e),
            Ok((q, c)) => if pending - 1 + c > usize::MAX {
                Err(decode_err(DecodeErrorKind::ContainerTooLarge, p))
            } else if q <= p || q > d.len() {
                Ok(p)
            } else {
                skip_values(d, q, pending - 1 + c)
            },
        }
    }
}

/// Stepping over values never moves backwards or past the input.
pub proof fn lemma_skip_values_bounds(d: Seq<u8>, p: int, pending: int)
    requires
        0 <= p <= d.len(),
    ensures
        skip_values(d, p, pending) matches Ok(e) ==> p <= e <= d.len(),
    decreases d.len() - p,
{
    if pending > 0 {
        lemma_skip_step_advances(d, p);
        if let Ok((q, c)) = skip_step(d, p) {
            if pending - 1 + c <= usize::MAX && p < q <= d.len() {
                lemma_skip_values_bounds(d, q, pending - 1 + c);
            }
        }
    }
}

/// End of the single value starting at `p`.
pub open spec fn value_end(d: Seq<u8>, p: int) -> Result<int, DecodeError> {
    skip_values(d, p, 1)
}

} // verus!

verus! {

/// `v` as `n` big-endian bytes (the low `8 * n` bits of `v`).
pub open spec fn be_bytes(v: int, n: nat) -> Seq<u8>
    decreases n,
{
    if n == 0 {
        Seq::empty()
    } else {
        be_bytes(v / 0x100, (n - 1) as nat).push((v % 0x100) as u8)
    }
}

/// Shortest encoding of a non-negative integer below 2^64.
pub open spec fn enc_uint(v: int) -> Seq<u8> {
    if v <= 0x7f {
        seq![v as u8]
    } else if v <= 0xff {
        seq![0xccu8, v as u8]
    } else if v <= 0xffff {
        seq![0xcdu8] + be_bytes(v, 2)
    } else if v <= 0xffff_ffff {
        seq![0xceu8] + be_bytes(v, 4)
    } else {
        seq![0xcfu8] + be_bytes(v, 8)
    }
}

/// Shortest encoding of an integer in the `i64` range.
pub open spec fn enc_int(v: int) -> Seq<u8> {
    if v >= 0 {
        enc_uint(v)
    } else if v >= -32 {
        seq![(v + 0x100) as u8]
    } else if v >= -0x80 {
        seq![0xd0u8, (v + 0x100) as u8]
    } else if v >= -0x8000 {
        seq![0xd1u8] + be_bytes(v + 0x1_0000, 2)
    } else if v >= -0x8000_0000 {
        seq![0xd2u8] + be_bytes(v + 0x1_0000_0000, 4)
    } else {
        seq![0xd3u8] + be_bytes(v + 0x1_0000_0000_0000_0000, 8)
    }
}

/// A payload preceded by the shortest of three length forms (8, 16 or 32
/// bits), each with its own marker.
pub open spec fn enc_len_prefixed(payload: Seq<u8>, m8: u8, m16: u8, m32: u8) -> Seq<u8> {
    let n = payload.len() as int;
    if n <= 0xff {
        seq![m8, n as u8] + payload
    } else if n <= 0xffff {
        seq![m16] + be_bytes(n, 2) + payload
    } else {
        seq![m32] + be_bytes(n, 4) + payload
    }
}

/// Encoding of a string with the given UTF-8 bytes.
pub open spec fn enc_str(bytes: Seq<u8>) -> Seq<u8> {
    if bytes.len() <= 31 {
        seq![(0xa0 + bytes.len()) as u8] + bytes
    } else {
        enc_len_prefixed(bytes, 0xd9, 0xda, 0xdb)
    }
}

/// Encoding of a binary value.
pub open spec fn enc_bin(bytes: Seq<u8>) -> Seq<u8> {
    enc_len_prefixed(bytes, 0xc4, 0xc5, 0xc6)
}

/// Shortest header of a map (`is_map`) or array with `n` entries.
pub open spec fn enc_container_header(n: int, is_map: bool) -> Seq<u8> {
    if n <= 0x0f {
        seq![((if is_map { 0x80int } else { 0x90int }) + n) as u8]
    } else if n <= 0xffff {
        seq![if is_map { 0xdeu8 } else { 0xdcu8 }] + be_bytes(n, 2)
    } else {
        seq![if is_map { 0xdfu8 } else { 0xddu8 }] + be_bytes(n, 4)
    }
}

} // verus!
