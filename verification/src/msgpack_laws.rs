//! What the reader gives back of what the writer wrote, and what a rollback
//! undoes.
use crate::decode_error::DecodeError;
use crate::msgpack_grammar::{
    be16, be32, be64, be_bytes, enc_bin, enc_container_header, enc_int, enc_len_prefixed,
    enc_str, enc_uint, read_be_at, read_u8_at, skip_values, span_end, value_end,
};
use crate::msgpack_parser::{bin_at, container_header, number_at, str_at, WireNumber};
use crate::msgpack_writer::{
    checkpoint_of, patch_count, rollback_bytes, rollback_containers, ARRAY32, MAP32,
};
use crate::stacks::Container;
use vstd::prelude::*;

verus! {

/// 256 to the power `n`.
pub open spec fn pow256(n: nat) -> int
    decreases n,
{
    if n == 0 {
        1
    } else {
        256 * pow256((n - 1) as nat)
    }
}

/// Big-endian value of a byte string.
pub open spec fn be_value(s: Seq<u8>) -> int
    decreases s.len(),
{
    if s.len() == 0 {
        0
    } else {
        be_value(s.drop_last()) * 256 + s.last()
    }
}

/// The integer a number read from the wire stands for, when it is one.
pub open spec fn wire_int(w: WireNumber) -> Option<int> {
    match w {
        WireNumber::I64(v) => Some(v as int),
        WireNumber::U64(v) => Some(v as int),
        _ => None,
    }
}

pub(crate) proof fn lemma_be_bytes_len(v: int, n: nat)
    ensures
        be_bytes(v, n).len() == n,
    decreases n,
{
    if n > 0 {
        lemma_be_bytes_len(v / 0x100, (n - 1) as nat);
    }
}

proof fn lemma_be_bytes_value(v: int, n: nat)
    requires
        0 <= v < pow256(n),
    ensures
        be_value(be_bytes(v, n)) == v,
    decreases n,
{
    if n > 0 {
        let p = pow256((n - 1) as nat);
        assert(0 <= v / 256 < p) by (nonlinear_arith)
            requires
                0 <= v < 256 * p,
        ;
        lemma_be_bytes_value(v / 0x100, (n - 1) as nat);
        let s = be_bytes(v, n);
        assert(s.drop_last() =~= be_bytes(v / 0x100, (n - 1) as nat));
    }
}

pub(crate) proof fn lemma_pow256()
    ensures
        pow256(1) == 0x100,
        pow256(2) == 0x1_0000,
        pow256(4) == 0x1_0000_0000,
        pow256(8) == 0x1_0000_0000_0000_0000,
{
    reveal_with_fuel(pow256, 9);
}

/// Reading back `n` big-endian bytes written for `v`.
pub(crate) proof fn lemma_read_be(d: Seq<u8>, p: int, v: int, n: nat)
    requires
        n == 2 || n == 4 || n == 8,
        0 <= p,
        p + n <= d.len(),
        d.len() <= usize::MAX,
        d.subrange(p, p + n) == be_bytes(v, n),
        0 <= v < pow256(n),
    ensures
        read_be_at(d, p, n as int) == Ok::<(int, int), DecodeError>((v, p + n)),
{
    lemma_be_bytes_value(v, n);
    let s = d.subrange(p, p + n);
    if n == 2 {
        reveal_with_fuel(be_value, 3);
        assert(s.drop_last().drop_last() =~= Seq::<u8>::empty());
        assert(be16(d, p) == be_value(s));
    } else if n == 4 {
        reveal_with_fuel(be_value, 5);
        assert(s.drop_last().drop_last().drop_last().drop_last() =~= Seq::<u8>::empty());
        assert(be32(d, p) == be_value(s));
    } else {
        reveal_with_fuel(be_value, 9);
        assert(s.drop_last().drop_last().drop_last().drop_last().drop_last().drop_last().drop_last().drop_last()
            =~= Seq::<u8>::empty());
        assert(be64(d, p) == be_value(s));
    }
}

/// Facts about one encoded integer: it reads back as `v` and spans all of
/// `e`.
pub open spec fn reads_back_int(e: Seq<u8>, rest: Seq<u8>, v: int) -> bool {
    let d = e + rest;
    &&& (number_at(d, 0) matches Ok((w, end)) && wire_int(w) == Some(v) && end == e.len())
    &&& value_end(d, 0) == Ok::<int, DecodeError>(e.len() as int)
}

/// The `n`-byte big-endian field after the marker of `d` holds `stored`.
proof fn lemma_field_after_marker(e: Seq<u8>, rest: Seq<u8>, stored: int, n: nat)
    requires
        n == 2 || n == 4 || n == 8,
        e.len() == 1 + n,
        e.len() + rest.len() <= usize::MAX,
        e.subrange(1, 1 + n as int) == be_bytes(stored, n),
        0 <= stored < pow256(n),
    ensures
        read_be_at(e + rest, 1, n as int) == Ok::<(int, int), DecodeError>((stored, 1 + n as int)),
        skip_values(e + rest, 1 + n as int, 0) == Ok::<int, DecodeError>(1 + n as int),
        span_end(e + rest, 1, n as int) == Ok::<int, DecodeError>(1 + n as int),
{
    let d = e + rest;
    assert(d.subrange(1, 1 + n as int) =~= e.subrange(1, 1 + n as int));
    lemma_read_be(d, 1, stored, n);
}

/// An unsigned integer written by the writer reads back as the same
/// integer, and stepping over it lands right after it, whatever follows.
pub proof fn lemma_uint_roundtrip(v: u64, rest: Seq<u8>)
    requires
        enc_uint(v as int).len() + rest.len() <= usize::MAX,
    ensures
        reads_back_int(enc_uint(v as int), rest, v as int),
{
    let e = enc_uint(v as int);
    let d = e + rest;
    lemma_pow256();
    if v <= 0x7f {
        assert(skip_values(d, 1, 0) == Ok::<int, DecodeError>(1));
    } else if v <= 0xff {
        assert(skip_values(d, 2, 0) == Ok::<int, DecodeError>(2));
    } else if v <= 0xffff {
        lemma_be_bytes_len(v as int, 2);
        assert(e.subrange(1, 3) =~= be_bytes(v as int, 2));
        lemma_field_after_marker(e, rest, v as int, 2);
    } else if v <= 0xffff_ffff {
        lemma_be_bytes_len(v as int, 4);
        assert(e.subrange(1, 5) =~= be_bytes(v as int, 4));
        lemma_field_after_marker(e, rest, v as int, 4);
    } else {
        lemma_be_bytes_len(v as int, 8);
        assert(e.subrange(1, 9) =~= be_bytes(v as int, 8));
        lemma_field_after_marker(e, rest, v as int, 8);
    }
}

/// A float written by its bit pattern reads back as the same bit pattern,
/// and stepping over it lands right after it, whatever follows.
pub proof fn lemma_f64_bits_roundtrip(bits: u64, rest: Seq<u8>)
    requires
        9 + rest.len() <= usize::MAX,
    ensures
        ({
            let e = seq![0xcbu8] + be_bytes(bits as int, 8);
            let d = e + rest;
            &&& number_at(d, 0) == Ok::<(WireNumber, int), DecodeError>((WireNumber::F64(bits), 9))
            &&& value_end(d, 0) == Ok::<int, DecodeError>(9)
        }),
{
    let e = seq![0xcbu8] + be_bytes(bits as int, 8);
    lemma_pow256();
    lemma_be_bytes_len(bits as int, 8);
    assert(e.subrange(1, 9) =~= be_bytes(bits as int, 8));
    lemma_field_after_marker(e, rest, bits as int, 8);
}

/// A signed integer written by the writer reads back as the same integer,
/// and stepping over it lands right after it, whatever follows.
pub proof fn lemma_int_roundtrip(v: i64, rest: Seq<u8>)
    requires
        enc_int(v as int).len() + rest.len() <= usize::MAX,
    ensures
        reads_back_int(enc_int(v as int), rest, v as int),
{
    let e = enc_int(v as int);
    let d = e + rest;
    lemma_pow256();
    if v >= 0 {
        lemma_uint_roundtrip(v as u64, rest);
    } else if v >= -32 {
        assert(skip_values(d, 1, 0) == Ok::<int, DecodeError>(1));
    } else if v >= -0x80 {
        assert(skip_values(d, 2, 0) == Ok::<int, DecodeError>(2));
    } else if v >= -0x8000 {
        let s = v + 0x1_0000;
        lemma_be_bytes_len(s, 2);
        assert(e.subrange(1, 3) =~= be_bytes(s, 2));
        lemma_field_after_marker(e, rest, s, 2);
    } else if v >= -0x8000_0000 {
        let s = v + 0x1_0000_0000;
        lemma_be_bytes_len(s, 4);
        assert(e.subrange(1, 5) =~= be_bytes(s, 4));
        lemma_field_after_marker(e, rest, s, 4);
    } else {
        let s = v + 0x1_0000_0000_0000_0000;
        lemma_be_bytes_len(s, 8);
        assert(e.subrange(1, 9) =~= be_bytes(s, 8));
        lemma_field_after_marker(e, rest, s, 8);
    }
}

/// Reading back a length-prefixed payload: the length field, then the
/// payload itself.
proof fn lemma_len_prefixed(payload: Seq<u8>, m8: u8, m16: u8, m32: u8, rest: Seq<u8>)
    requires
        payload.len() <= u32::MAX,
        enc_len_prefixed(payload, m8, m16, m32).len() + rest.len() <= usize::MAX,
    ensures
        ({
            let e = enc_len_prefixed(payload, m8, m16, m32);
            let d = e + rest;
            let n = payload.len() as int;
            let (w, field) = if n <= 0xff {
                (1int, read_u8_at(d, 1))
            } else if n <= 0xffff {
                (2int, read_be_at(d, 1, 2))
            } else {
                (4int, read_be_at(d, 1, 4))
            };
            &&& d[0] == if n <= 0xff {
                m8
            } else if n <= 0xffff {
                m16
            } else {
                m32
            }
            &&& field == Ok::<(int, int), DecodeError>((n, 1 + w))
            &&& e.len() == 1 + w + n
            &&& span_end(d, 1 + w, n) == Ok::<int, DecodeError>(e.len() as int)
            &&& d.subrange(1 + w, e.len() as int) == payload
        }),
{
    let e = enc_len_prefixed(payload, m8, m16, m32);
    let d = e + rest;
    let n = payload.len() as int;
    lemma_pow256();
    lemma_be_bytes_len(n, 2);
    lemma_be_bytes_len(n, 4);
    if n <= 0xff {
        assert(d.subrange(2, e.len() as int) =~= payload);
    } else if n <= 0xffff {
        assert(d.subrange(1, 3) =~= be_bytes(n, 2));
        lemma_read_be(d, 1, n, 2);
        assert(d.subrange(3, e.len() as int) =~= payload);
    } else {
        assert(d.subrange(1, 5) =~= be_bytes(n, 4));
        lemma_read_be(d, 1, n, 4);
        assert(d.subrange(5, e.len() as int) =~= payload);
    }
}

/// A string written by the writer reads back as the same text, and
/// stepping over it lands right after it, whatever follows.
pub proof fn lemma_str_roundtrip(bytes: Seq<u8>, rest: Seq<u8>)
    requires
        vstd::utf8::valid_utf8(bytes),
        bytes.len() <= u32::MAX,
        enc_str(bytes).len() + rest.len() <= usize::MAX,
    ensures
        ({
            let e = enc_str(bytes);
            let d = e + rest;
            &&& str_at(d, 0) == Ok::<(Seq<u8>, int), DecodeError>((bytes, e.len() as int))
            &&& value_end(d, 0) == Ok::<int, DecodeError>(e.len() as int)
        }),
{
    let e = enc_str(bytes);
    let d = e + rest;
    if bytes.len() <= 31 {
        assert(d.subrange(1, 1 + bytes.len() as int) =~= bytes);
    } else {
        lemma_len_prefixed(bytes, 0xd9, 0xda, 0xdb, rest);
    }
    assert(skip_values(d, e.len() as int, 0) == Ok::<int, DecodeError>(e.len() as int));
}

/// A binary value written by the writer reads back as the same bytes, and
/// stepping over it lands right after it, whatever follows.
pub proof fn lemma_bin_roundtrip(bytes: Seq<u8>, rest: Seq<u8>)
    requires
        bytes.len() <= u32::MAX,
        enc_bin(bytes).len() + rest.len() <= usize::MAX,
    ensures
        ({
            let e = enc_bin(bytes);
            let d = e + rest;
            &&& bin_at(d, 0) == Ok::<(Seq<u8>, int), DecodeError>((bytes, e.len() as int))
            &&& value_end(d, 0) == Ok::<int, DecodeError>(e.len() as int)
        }),
{
    let e = enc_bin(bytes);
    let d = e + rest;
    lemma_len_prefixed(bytes, 0xc4, 0xc5, 0xc6, rest);
    assert(skip_values(d, e.len() as int, 0) == Ok::<int, DecodeError>(e.len() as int));
}

/// An exact container header written by the writer reads back as the same
/// entry count.
pub proof fn lemma_header_roundtrip(n: u32, is_map: bool, rest: Seq<u8>)
    requires
        enc_container_header(n as int, is_map).len() + rest.len() <= usize::MAX,
    ensures
        ({
            let e = enc_container_header(n as int, is_map);
            container_header(e + rest, 0, is_map) == Ok::<(int, int), DecodeError>(
                (n as int, e.len() as int),
            )
        }),
{
    let e = enc_container_header(n as int, is_map);
    let d = e + rest;
    lemma_pow256();
    lemma_be_bytes_len(n as int, 2);
    lemma_be_bytes_len(n as int, 4);
    if n <= 0x0f {
    } else if n <= 0xffff {
        assert(d.subrange(1, 3) =~= be_bytes(n as int, 2));
        lemma_read_be(d, 1, n as int, 2);
    } else {
        assert(d.subrange(1, 5) =~= be_bytes(n as int, 4));
        lemma_read_be(d, 1, n as int, 4);
    }
}

/// A reserved header, once patched with the item count on close, reads back
/// as a container of that many entries.
pub proof fn lemma_patched_header(bytes: Seq<u8>, pos: int, is_map: bool, n: u32)
    requires
        0 <= pos,
        pos + 5 <= bytes.len() <= usize::MAX,
        bytes[pos] == if is_map { MAP32 } else { ARRAY32 },
    ensures
        container_header(patch_count(bytes, pos, n as int), pos, is_map)
            == Ok::<(int, int), DecodeError>((n as int, pos + 5)),
{
    let d = patch_count(bytes, pos, n as int);
    lemma_pow256();
    lemma_be_bytes_len(n as int, 4);
    assert(d.subrange(pos + 1, pos + 5) =~= be_bytes(n as int, 4));
    assert(d[pos] == bytes[pos]);
    lemma_read_be(d, pos + 1, n as int, 4);
}

/// Rolling back to a checkpoint undoes everything written since it was
/// taken, as long as no container open at the checkpoint was closed in
/// between (later ones may be open, and the innermost one may have counted
/// more items).
pub proof fn lemma_rollback_undoes(
    bytes: Seq<u8>,
    containers: Seq<Container>,
    later_bytes: Seq<u8>,
    later_containers: Seq<Container>,
)
    requires
        bytes.len() <= usize::MAX,
        containers.len() <= usize::MAX,
        later_bytes.len() >= bytes.len(),
        later_bytes.subrange(0, bytes.len() as int) == bytes,
        later_containers.len() >= containers.len(),
        containers.len() > 0 ==> later_containers.subrange(0, containers.len() - 1)
            == containers.drop_last() && later_containers[containers.len() - 1] == (Container {
            items: later_containers[containers.len() - 1].items,
            ..containers.last()
        }),
    ensures
        rollback_bytes(later_bytes, checkpoint_of(bytes, containers)) == bytes,
        rollback_containers(later_containers, checkpoint_of(bytes, containers)) == containers,
{
    let cp = checkpoint_of(bytes, containers);
    if containers.len() > 0 {
        let cut = if cp.containers_len < later_containers.len() {
            later_containers.subrange(0, cp.containers_len as int)
        } else {
            later_containers
        };
        assert(cut.drop_last() =~= containers.drop_last());
        assert(cut.drop_last().push(Container { items: cp.top_items, ..cut.last() })
            =~= containers);
    } else {
        assert(later_containers.subrange(0, 0) =~= containers);
    }
}

} // verus!
