//! Streaming MessagePack writer.
//!
//! Container lengths are usually known up front, so `begin_map` and
//! `begin_array` take `Some(len)` and write the exact minimal header. When the
//! length depends on what actually gets written, `None` reserves the 32-bit
//! header form and the item count is patched in when the container closes.
use crate::msgpack_grammar::{
    be_bytes, enc_bin, enc_container_header, enc_int, enc_len_prefixed, enc_str, enc_uint,
};
use crate::stacks::{containers_of, Container, ContainerStack, STACK_LIMIT};
use crate::text::extend_bytes;
use vstd::prelude::*;
use vstd::string::StringSliceAdditionalSpecFns;

verus! {

pub const ARRAY32: u8 = 0xdd;

pub const MAP32: u8 = 0xdf;

/// A saved writer position for a speculative write that may be rolled back.
#[derive(Debug, Clone, Copy, PartialEq, Eq, Structural)]
pub struct MsgpackCheckpoint {
    pub buf_len: usize,
    pub containers_len: usize,
    /// Item count of the innermost open container when the snapshot was
    /// taken, restored on rollback.
    pub top_items: u32,
}

pub struct MsgpackWriter {
    buf: Vec<u8>,
    containers: ContainerStack,
}

/// Appends `v` as `n` big-endian bytes.
fn push_be(buf: &mut Vec<u8>, v: u64, n: usize)
    requires
        n <= 8,
    ensures
        final(buf)@ == old(buf)@ + be_bytes(v as int, n as nat),
    decreases n,
{
    if n > 0 {
        push_be(buf, v / 0x100, n - 1);
        buf.push((v % 0x100) as u8);
        assert(final(buf)@ =~= old(buf)@ + be_bytes(v as int, n as nat));
    } else {
        assert(final(buf)@ =~= old(buf)@ + be_bytes(v as int, n as nat));
    }
}

/// `"key"` rendered once, at encoder-construction time.
pub fn encode_map_key(key: &str) -> (r: Vec<u8>)
    requires
        key.spec_bytes().len() <= u32::MAX,
    ensures
        r@ == enc_str(key.spec_bytes()),
{
    let mut buf = Vec::with_capacity(key.len().saturating_add(5));
    write_str_to(&mut buf, key);
    buf
}

/// Shortest header of a map with `len` entries.
fn write_map_header(buf: &mut Vec<u8>, len: u32)
    ensures
        final(buf)@ == old(buf)@ + enc_container_header(len as int, true),
{
    if len <= 0x0f {
        buf.push(0x80 + len as u8);
        assert(final(buf)@ =~= old(buf)@ + enc_container_header(len as int, true));
    } else if len <= 0xffff {
        buf.push(0xde);
        push_be(buf, len as u64, 2);
        assert(final(buf)@ =~= old(buf)@ + enc_container_header(len as int, true));
    } else {
        buf.push(MAP32);
        push_be(buf, len as u64, 4);
        assert(final(buf)@ =~= old(buf)@ + enc_container_header(len as int, true));
    }
}

/// Shortest header of an array with `len` elements.
fn write_array_header(buf: &mut Vec<u8>, len: u32)
    ensures
        final(buf)@ == old(buf)@ + enc_container_header(len as int, false),
{
    if len <= 0x0f {
        buf.push(0x90 + len as u8);
        assert(final(buf)@ =~= old(buf)@ + enc_container_header(len as int, false));
    } else if len <= 0xffff {
        buf.push(0xdc);
        push_be(buf, len as u64, 2);
        assert(final(buf)@ =~= old(buf)@ + enc_container_header(len as int, false));
    } else {
        buf.push(ARRAY32);
        push_be(buf, len as u64, 4);
        assert(final(buf)@ =~= old(buf)@ + enc_container_header(len as int, false));
    }
}

/// Shortest encoding of an unsigned integer.
fn write_u64_to(buf: &mut Vec<u8>, value: u64)
    ensures
        final(buf)@ == old(buf)@ + enc_uint(value as int),
{
    if value <= 0x7f {
        buf.push(value as u8);
        assert(final(buf)@ =~= old(buf)@ + enc_uint(value as int));
    } else if value <= 0xff {
        buf.push(0xcc);
        buf.push(value as u8);
        assert(final(buf)@ =~= old(buf)@ + enc_uint(value as int));
    } else if value <= 0xffff {
        buf.push(0xcd);
        push_be(buf, value, 2);
        assert(final(buf)@ =~= old(buf)@ + enc_uint(value as int));
    } else if value <= 0xffff_ffff {
        buf.push(0xce);
        push_be(buf, value, 4);
        assert(final(buf)@ =~= old(buf)@ + enc_uint(value as int));
    } else {
        buf.push(0xcf);
        push_be(buf, value, 8);
        assert(final(buf)@ =~= old(buf)@ + enc_uint(value as int));
    }
}

/// Encoding of a string: `fixstr` up to 31 bytes, then the 8/16/32-bit
/// length forms.
fn write_str_to(buf: &mut Vec<u8>, value: &str)
    requires
        value.spec_bytes().len() <= u32::MAX,
    ensures
        final(buf)@ == old(buf)@ + enc_str(value.spec_bytes()),
{
    let bytes = value.as_bytes();
    let len = bytes.len();
    if len <= 31 {
        buf.push(0xa0 + len as u8);
        extend_bytes(buf, bytes);
        assert(final(buf)@ =~= old(buf)@ + enc_str(value.spec_bytes()));
    } else {
        write_len_prefixed(buf, bytes, 0xd9, 0xda, 0xdb);
    }
}

/// A payload preceded by the shortest of the three length forms.
fn write_len_prefixed(buf: &mut Vec<u8>, value: &[u8], marker8: u8, marker16: u8, marker32: u8)
    requires
        value@.len() <= u32::MAX,
    ensures
        final(buf)@ == old(buf)@ + enc_len_prefixed(value@, marker8, marker16, marker32),
{
    let len = value.len();
    if len <= 0xff {
        buf.push(marker8);
        buf.push(len as u8);
    } else if len <= 0xffff {
        buf.push(marker16);
        push_be(buf, len as u64, 2);
    } else {
        buf.push(marker32);
        push_be(buf, len as u64, 4);
    }
    extend_bytes(buf, value);
    assert(final(buf)@ =~= old(buf)@ + enc_len_prefixed(value@, marker8, marker16, marker32));
}

/// Value of a decimal digit string with an optional leading `+`, when it is
/// one: the acceptance of `str::parse::<u64>`.
pub open spec fn decimal_value(s: Seq<u8>) -> Option<int> {
    let digits = if s.len() > 0 && s[0] == 0x2b {
        s.subrange(1, s.len() as int)
    } else {
        s
    };
    if digits.len() == 0 || !all_digits(digits) {
        None
    } else {
        Some(digits_value(digits))
    }
}

proof fn lemma_digits_value_nonneg(s: Seq<u8>)
    requires
        all_digits(s),
    ensures
        digits_value(s) >= 0,
    decreases s.len(),
{
    if s.len() > 0 {
        lemma_digits_value_nonneg(s.drop_last());
    }
}

/// Every byte is an ASCII decimal digit.
pub open spec fn all_digits(s: Seq<u8>) -> bool {
    forall|i: int| 0 <= i < s.len() ==> 0x30 <= #[trigger] s[i] <= 0x39
}

/// Value of a string of decimal digits.
pub open spec fn digits_value(s: Seq<u8>) -> int
    decreases s.len(),
{
    if s.len() == 0 {
        0
    } else {
        digits_value(s.drop_last()) * 10 + (s.last() - 0x30)
    }
}

/// `s.parse::<u64>()`: the value of a decimal digit string (optionally led by
/// `+`) when it fits in `u64`, `None` otherwise.
pub fn parse_u64(s: &str) -> (r: Option<u64>)
    ensures
        match decimal_value(s.spec_bytes()) {
            Some(v) => if v <= u64::MAX {
                r == Some(v as u64)
            } else {
                r.is_none()
            },
            None => r.is_none(),
        },
        decimal_value(s.spec_bytes()) matches Some(v) ==> v >= 0,
{
    let b = s.as_bytes();
    let mut i: usize = 0;
    if b.len() > 0 && b[0] == 0x2b {
        i = 1;
    }
    let start = i;
    let ghost digits = b@.subrange(start as int, b@.len() as int);
    assert(digits =~= if b@.len() > 0 && b@[0] == 0x2b {
        b@.subrange(1, b@.len() as int)
    } else {
        b@
    });
    if start == b.len() {
        return None;
    }
    let mut acc: u64 = 0;
    let mut overflow = false;
    while i < b.len()
        invariant
            start <= i <= b@.len(),
            start < b@.len(),
            digits == b@.subrange(start as int, b@.len() as int),
            b@ == s.spec_bytes(),
            digits == if b@.len() > 0 && b@[0] == 0x2b {
                b@.subrange(1, b@.len() as int)
            } else {
                b@
            },
            forall|j: int| start <= j < i ==> 0x30 <= #[trigger] b@[j] <= 0x39,
            !overflow ==> acc == digits_value(b@.subrange(start as int, i as int)),
            overflow ==> digits_value(b@.subrange(start as int, i as int)) > u64::MAX,
        decreases b@.len() - i,
    {
        let c = b[i];
        if c < 0x30 || c > 0x39 {
            assert(!all_digits(digits)) by {
                assert(digits[i - start] == c);
            }
            return None;
        }
        let ghost prev = b@.subrange(start as int, i as int);
        assert(b@.subrange(start as int, i + 1) =~= prev.push(c));
        assert(b@.subrange(start as int, i + 1).drop_last() =~= prev);
        if !overflow {
            if acc > (u64::MAX - (c - 0x30) as u64) / 10 {
                overflow = true;
                assert(digits_value(prev) * 10 + (c - 0x30) > u64::MAX) by (nonlinear_arith)
                    requires
                        digits_value(prev) > (u64::MAX - (c - 0x30)) / 10,
                        0 <= c - 0x30 <= 9,
                ;
            } else {
                assert(acc * 10 + (c - 0x30) <= u64::MAX) by (nonlinear_arith)
                    requires
                        acc <= (u64::MAX - (c - 0x30)) / 10,
                        0 <= c - 0x30 <= 9,
                ;
                acc = acc * 10 + (c - 0x30) as u64;
            }
        } else {
            assert(digits_value(prev) * 10 + (c - 0x30) > u64::MAX) by (nonlinear_arith)
                requires
                    digits_value(prev) > u64::MAX,
                    0 <= c - 0x30 <= 9,
            ;
        }
        i += 1;
    }
    assert(b@.subrange(start as int, i as int) =~= digits);
    assert(all_digits(digits)) by {
        assert forall|j: int| 0 <= j < digits.len() implies 0x30 <= #[trigger] digits[j] <= 0x39 by {
            assert(digits[j] == b@[start + j]);
        }
    }
    if start == 1 {
        assert(digits =~= b@.subrange(1, b@.len() as int));
    } else {
        assert(digits =~= b@);
    }
    proof {
        lemma_digits_value_nonneg(digits);
    }
    if overflow {
        None
    } else {
        Some(acc)
    }
}

impl MsgpackWriter {
    /// Bytes written so far.
    pub closed spec fn bytes(&self) -> Seq<u8> {
        self.buf@
    }

    /// Containers begun and not yet ended, outermost first.
    pub closed spec fn open_containers(&self) -> Seq<Container> {
        containers_of(self.containers)
    }

    /// The writer's invariant: every reserved header lies inside the
    /// written bytes, and the stack stays below its growth limit.
    pub open spec fn wf(&self) -> bool {
        &&& self.open_containers().len() <= STACK_LIMIT
        &&& forall|i: int|
            0 <= i < self.open_containers().len() ==> header_fits(
                #[trigger] self.open_containers()[i],
                self.bytes().len() as int,
            )
    }

    /// Only the written bytes changed, by appending `extra`.
    pub open spec fn appended(&self, old: &Self, extra: Seq<u8>) -> bool {
        &&& self.bytes() == old.bytes() + extra
        &&& self.open_containers() == old.open_containers()
    }

    pub fn with_capacity(capacity: usize) -> (w: Self)
        ensures
            w.wf(),
            w.bytes() == Seq::<u8>::empty(),
            w.open_containers() == Seq::<Container>::empty(),
    {
        MsgpackWriter { buf: Vec::with_capacity(capacity), containers: ContainerStack::new() }
    }

    /// How many containers are open.
    pub fn open_count(&self) -> (r: usize)
        ensures
            r == self.open_containers().len(),
    {
        self.containers.len()
    }

    pub fn as_bytes(&self) -> (r: &[u8])
        ensures
            r@ == self.bytes(),
    {
        self.buf.as_slice()
    }

    /// Start position of the next value written.
    pub fn position(&self) -> (r: usize)
        ensures
            r == self.bytes().len(),
    {
        self.buf.len()
    }

    /// Snapshot of the writer, for `rollback`.
    pub fn checkpoint(&self) -> (cp: MsgpackCheckpoint)
        ensures
            cp == checkpoint_of(self.bytes(), self.open_containers()),
    {
        MsgpackCheckpoint {
            buf_len: self.buf.len(),
            containers_len: self.containers.len(),
            top_items: match self.containers.last() {
                Some(c) => c.items,
                None => 0,
            },
        }
    }

    /// Returns to a snapshot: the bytes and the container stack are cut back
    /// to their lengths then, and the innermost remaining container gets its
    /// item count back. The containers kept must have their reserved headers
    /// inside the bytes kept.
    pub fn rollback(&mut self, cp: MsgpackCheckpoint)
        requires
            old(self).wf(),
            headers_kept(old(self).open_containers(), cp),
        ensures
            final(self).wf(),
            final(self).bytes() == rollback_bytes(old(self).bytes(), cp),
            final(self).open_containers() == rollback_containers(old(self).open_containers(), cp),
    {
        self.buf.truncate(cp.buf_len);
        self.containers.truncate(cp.containers_len);
        match self.containers.pop() {
            Some(c) => {
                self.containers.push(Container { items: cp.top_items, ..c });
            },
            None => {},
        }
        proof {
            let cs = self.open_containers();
            assert forall|i: int| 0 <= i < cs.len() implies header_fits(#[trigger] cs[i], self.bytes().len() as int) by {
                assert(cs[i].backpatch == old(self).open_containers()[i].backpatch);
            }
        }
    }

    /// Whether the bytes written since `from` are exactly one `nil`.
    pub fn tail_is_null(&self, from: usize) -> (r: bool)
        requires
            from <= self.bytes().len(),
        ensures
            r == (self.bytes().subrange(from as int, self.bytes().len() as int) == seq![0xc0u8]),
    {
        let n = self.buf.len();
        let r = n - from == 1 && self.buf[from] == 0xc0;
        if r {
            assert(self.bytes().subrange(from as int, n as int) =~= seq![0xc0u8]);
        } else if n - from == 1 {
            assert(self.bytes().subrange(from as int, n as int)[0] != 0xc0u8);
        } else {
            assert(self.bytes().subrange(from as int, n as int).len() != 1);
        }
        r
    }

    /// Ends an item of the innermost container: counts it.
    pub fn item_end(&mut self)
        requires
            old(self).wf(),
            old(self).open_containers().len() > 0,
            old(self).open_containers().last().items < u32::MAX,
        ensures
            final(self).wf(),
            final(self).bytes() == old(self).bytes(),
            final(self).open_containers() == old(self).open_containers().drop_last().push(
                Container {
                    items: (old(self).open_containers().last().items + 1) as u32,
                    ..old(self).open_containers().last()
                },
            ),
    {
        match self.containers.pop() {
            Some(c) => {
                self.containers.push(Container { items: c.items + 1, ..c });
            },
            None => {},
        }
        proof {
            let cs = self.open_containers();
            assert forall|i: int| 0 <= i < cs.len() implies header_fits(#[trigger] cs[i], self.bytes().len() as int) by {
                assert(cs[i].backpatch == old(self).open_containers()[i].backpatch);
            }
        }
    }

    /// Appends encoded bytes.
    fn append(&mut self, extra: &[u8])
        requires
            old(self).wf(),
        ensures
            final(self).wf(),
            final(self).appended(old(self), extra@),
    {
        extend_bytes(&mut self.buf, extra);
        proof {
            self.lemma_wf_after_growth(old(self));
        }
    }

    proof fn lemma_wf_after_growth(&self, before: &Self)
        requires
            before.wf(),
            self.open_containers() == before.open_containers(),
            self.bytes().len() >= before.bytes().len(),
        ensures
            self.wf(),
    {
        let cs = self.open_containers();
        assert forall|i: int| 0 <= i < cs.len() implies header_fits(#[trigger] cs[i], self.bytes().len() as int) by {
            assert(before.open_containers()[i] == cs[i]);
        }
    }

    pub fn write_null(&mut self)
        requires
            old(self).wf(),
        ensures
            final(self).wf(),
            final(self).appended(old(self), seq![0xc0u8]),
    {
        self.buf.push(0xc0);
        assert(self.bytes() =~= old(self).bytes() + seq![0xc0u8]);
        proof {
            self.lemma_wf_after_growth(old(self));
        }
    }

    pub fn write_bool(&mut self, value: bool)
        requires
            old(self).wf(),
        ensures
            final(self).wf(),
            final(self).appended(old(self), seq![if value { 0xc3u8 } else { 0xc2u8 }]),
    {
        self.buf.push(if value { 0xc3 } else { 0xc2 });
        assert(self.bytes() =~= old(self).bytes() + seq![if value { 0xc3u8 } else { 0xc2u8 }]);
        proof {
            self.lemma_wf_after_growth(old(self));
        }
    }

    /// Shortest encoding of a signed integer.
    pub fn write_i64(&mut self, value: i64)
        requires
            old(self).wf(),
        ensures
            final(self).wf(),
            final(self).appended(old(self), enc_int(value as int)),
    {
        if value >= 0 {
            write_u64_to(&mut self.buf, value as u64);
        } else if value >= -32 {
            self.buf.push((value + 0x100) as u8);
        } else if value >= -0x80 {
            self.buf.push(0xd0);
            self.buf.push((value + 0x100) as u8);
        } else if value >= -0x8000 {
            self.buf.push(0xd1);
            push_be(&mut self.buf, (value + 0x1_0000) as u64, 2);
        } else if value >= -0x8000_0000 {
            self.buf.push(0xd2);
            push_be(&mut self.buf, (value + 0x1_0000_0000) as u64, 4);
        } else {
            self.buf.push(0xd3);
            push_be(&mut self.buf, (value - i64::MIN) as u64 + 0x8000_0000_0000_0000, 8);
        }
        assert(self.bytes() =~= old(self).bytes() + enc_int(value as int));
        proof {
            self.lemma_wf_after_growth(old(self));
        }
    }

    /// A 64-bit float given by its IEEE 754 bit pattern: `0xcb` and the
    /// eight bytes, most significant first.
    pub fn write_f64_bits(&mut self, bits: u64)
        requires
            old(self).wf(),
        ensures
            final(self).wf(),
            final(self).appended(old(self), seq![0xcbu8] + be_bytes(bits as int, 8)),
    {
        self.buf.push(0xcb);
        push_be(&mut self.buf, bits, 8);
        assert(self.bytes() =~= old(self).bytes() + (seq![0xcbu8] + be_bytes(bits as int, 8)));
        proof {
            self.lemma_wf_after_growth(old(self));
        }
    }

    /// An integer beyond `i64`, given as its decimal text: written as an
    /// unsigned integer when it fits `u64`, refused otherwise.
    pub fn write_big_int(&mut self, value: &str) -> (r: Result<(), &'static str>)
        requires
            old(self).wf(),
        ensures
            final(self).wf(),
            match decimal_value(value.spec_bytes()) {
                Some(v) => if v <= u64::MAX {
                    r is Ok && final(self).appended(old(self), enc_uint(v))
                } else {
                    r == Err::<(), &'static str>("integer is out of range for MessagePack")
                        && final(self).appended(old(self), Seq::<u8>::empty())
                },
                None => r == Err::<(), &'static str>("integer is out of range for MessagePack")
                    && final(self).appended(old(self), Seq::<u8>::empty()),
            },
    {
        match parse_u64(value) {
            Some(v) => {
                write_u64_to(&mut self.buf, v);
                assert(decimal_value(value.spec_bytes()) == Some(v as int));
                proof {
                    self.lemma_wf_after_growth(old(self));
                }
                Ok(())
            },
            None => {
                assert(self.bytes() =~= old(self).bytes() + Seq::<u8>::empty());
                Err("integer is out of range for MessagePack")
            },
        }
    }

    pub fn write_str(&mut self, value: &str)
        requires
            old(self).wf(),
            value.spec_bytes().len() <= u32::MAX,
        ensures
            final(self).wf(),
            final(self).appended(old(self), enc_str(value.spec_bytes())),
    {
        write_str_to(&mut self.buf, value);
        proof {
            self.lemma_wf_after_growth(old(self));
        }
    }

    pub fn write_bytes(&mut self, value: &[u8])
        requires
            old(self).wf(),
            value@.len() <= u32::MAX,
        ensures
            final(self).wf(),
            final(self).appended(old(self), enc_bin(value@)),
    {
        write_len_prefixed(&mut self.buf, value, 0xc4, 0xc5, 0xc6);
        proof {
            self.lemma_wf_after_growth(old(self));
        }
    }

    /// Begins a map; see [`Self::begin_container`] for `len`.
    pub fn begin_map(&mut self, len: Option<usize>)
        requires
            old(self).wf(),
            old(self).open_containers().len() < STACK_LIMIT,
            len matches Some(n) ==> n <= u32::MAX,
        ensures
            final(self).wf(),
            begun(old(self), final(self), true, len),
    {
        self.begin_container(true, MAP32, len);
    }

    pub fn map_key(&mut self, key: &str)
        requires
            old(self).wf(),
            key.spec_bytes().len() <= u32::MAX,
        ensures
            final(self).wf(),
            final(self).appended(old(self), enc_str(key.spec_bytes())),
    {
        self.write_str(key);
    }

    /// Appends a key rendered by [`encode_map_key`].
    pub fn map_key_encoded(&mut self, encoded: &[u8])
        requires
            old(self).wf(),
        ensures
            final(self).wf(),
            final(self).appended(old(self), encoded@),
    {
        self.append(encoded);
    }

    pub fn end_map(&mut self)
        requires
            old(self).wf(),
            closable(old(self), true),
        ensures
            final(self).wf(),
            ended(old(self), final(self)),
    {
        self.end_container(true);
    }

    /// Begins an array; see [`Self::begin_container`] for `len`.
    pub fn begin_array(&mut self, len: Option<usize>)
        requires
            old(self).wf(),
            old(self).open_containers().len() < STACK_LIMIT,
            len matches Some(n) ==> n <= u32::MAX,
        ensures
            final(self).wf(),
            begun(old(self), final(self), false, len),
    {
        self.begin_container(false, ARRAY32, len);
    }

    pub fn end_array(&mut self)
        requires
            old(self).wf(),
            closable(old(self), false),
        ensures
            final(self).wf(),
            ended(old(self), final(self)),
    {
        self.end_container(false);
    }

    /// `Some(len)`: the exact header for `len` entries; `None`: a reserved
    /// 32-bit header, patched with the item count on close.
    fn begin_container(&mut self, is_map: bool, marker32: u8, len: Option<usize>)
        requires
            old(self).wf(),
            old(self).open_containers().len() < STACK_LIMIT,
            len matches Some(n) ==> n <= u32::MAX,
            marker32 == if is_map { MAP32 } else { ARRAY32 },
        ensures
            final(self).wf(),
            begun(old(self), final(self), is_map, len),
    {
        match len {
            Some(n) => {
                let n = n as u32;
                if is_map {
                    write_map_header(&mut self.buf, n);
                } else {
                    write_array_header(&mut self.buf, n);
                }
                proof {
                    self.lemma_wf_after_growth(old(self));
                }
                self.containers.push(Container { is_map, backpatch: None, declared: n, items: 0 });
            },
            None => {
                let header_pos = self.buf.len();
                self.buf.push(marker32);
                self.buf.push(0);
                self.buf.push(0);
                self.buf.push(0);
                self.buf.push(0);
                proof {
                    self.lemma_wf_after_growth(old(self));
                }
                self.containers.push(
                    Container { is_map, backpatch: Some(header_pos), declared: 0, items: 0 },
                );
            },
        }
        proof {
            let cs = self.open_containers();
            assert forall|i: int| 0 <= i < cs.len() implies header_fits(#[trigger] cs[i], self.bytes().len() as int) by {
                if i < cs.len() - 1 {
                    assert(cs[i] == old(self).open_containers()[i]);
                }
            }
            assert(self.bytes() =~= old(self).bytes() + match len {
                Some(n) => enc_container_header(n as int, is_map),
                None => seq![marker32, 0u8, 0u8, 0u8, 0u8],
            });
        }
    }

    /// Closes the innermost container, patching its reserved header with the
    /// item count when it has one.
    fn end_container(&mut self, is_map: bool)
        requires
            old(self).wf(),
            closable(old(self), is_map),
        ensures
            final(self).wf(),
            ended(old(self), final(self)),
    {
        let ghost k = old(self).open_containers().len() - 1;
        proof {
            assert(header_fits(old(self).open_containers()[k], old(self).bytes().len() as int));
        }
        let c = match self.containers.pop() {
            Some(c) => c,
            None => {
                return;
            },
        };
        assert(c == old(self).open_containers()[k]);
        match c.backpatch {
            Some(pos) => {
                let items = c.items;
                let _len = self.buf.len();
                self.buf.set(pos + 1, (items / 0x100_0000) as u8);
                self.buf.set(pos + 2, (items / 0x1_0000 % 0x100) as u8);
                self.buf.set(pos + 3, (items / 0x100 % 0x100) as u8);
                self.buf.set(pos + 4, (items % 0x100) as u8);
                proof {
                    reveal_with_fuel(be_bytes, 5);
                    assert(self.bytes() =~= patch_count(old(self).bytes(), pos as int, items as int));
                }
            },
            None => {},
        }
        proof {
            let cs = self.open_containers();
            assert forall|i: int| 0 <= i < cs.len() implies header_fits(#[trigger] cs[i], self.bytes().len() as int) by {
                assert(cs[i] == old(self).open_containers()[i]);
            }
        }
    }
}

/// What beginning a container leaves: its header appended and a new
/// innermost container with no items yet.
pub open spec fn begun(old: &MsgpackWriter, new: &MsgpackWriter, is_map: bool, len: Option<usize>) -> bool {
    match len {
        Some(n) => {
            &&& new.bytes() == old.bytes() + enc_container_header(n as int, is_map)
            &&& new.open_containers() == old.open_containers().push(
                Container { is_map, backpatch: None, declared: n as u32, items: 0 },
            )
        },
        None => {
            &&& new.bytes() == old.bytes() + seq![
                if is_map { MAP32 } else { ARRAY32 },
                0u8,
                0u8,
                0u8,
                0u8,
            ]
            &&& new.open_containers() == old.open_containers().push(
                Container {
                    is_map,
                    backpatch: Some(old.bytes().len() as usize),
                    declared: 0,
                    items: 0,
                },
            )
        },
    }
}

/// The innermost container is of the given kind and, when its header was
/// exact, got as many items as it announced.
pub open spec fn closable(w: &MsgpackWriter, is_map: bool) -> bool {
    &&& w.open_containers().len() > 0
    &&& w.open_containers().last().is_map == is_map
    &&& w.open_containers().last().backpatch is None ==> w.open_containers().last().items
        == w.open_containers().last().declared
}

/// What closing the innermost container leaves: it is popped, and a
/// reserved header now holds its item count.
pub open spec fn ended(old: &MsgpackWriter, new: &MsgpackWriter) -> bool {
    let c = old.open_containers().last();
    &&& new.open_containers() == old.open_containers().drop_last()
    &&& new.bytes() == match c.backpatch {
        Some(pos) => patch_count(old.bytes(), pos as int, c.items as int),
        None => old.bytes(),
    }
}

/// A reserved header of `c`, if any, lies within the first `len` bytes.
pub open spec fn header_fits(c: Container, len: int) -> bool {
    match c.backpatch {
        Some(pos) => pos + 5 <= len,
        None => true,
    }
}

/// The bytes with the four count bytes of the header at `pos` set to `n`.
pub open spec fn patch_count(bytes: Seq<u8>, pos: int, n: int) -> Seq<u8> {
    bytes.subrange(0, pos + 1) + be_bytes(n, 4) + bytes.subrange(pos + 5, bytes.len() as int)
}

/// The containers a checkpoint keeps have their reserved headers inside the
/// bytes it keeps.
pub open spec fn headers_kept(cs: Seq<Container>, cp: MsgpackCheckpoint) -> bool {
    forall|i: int|
        0 <= i < cp.containers_len && i < cs.len() ==> header_fits(#[trigger] cs[i], cp.buf_len as int)
}

/// The snapshot `checkpoint` takes of a writer in this state.
pub open spec fn checkpoint_of(bytes: Seq<u8>, containers: Seq<Container>) -> MsgpackCheckpoint {
    MsgpackCheckpoint {
        buf_len: bytes.len() as usize,
        containers_len: containers.len() as usize,
        top_items: if containers.len() > 0 {
            containers.last().items
        } else {
            0
        },
    }
}

/// The bytes `rollback` leaves.
pub open spec fn rollback_bytes(bytes: Seq<u8>, cp: MsgpackCheckpoint) -> Seq<u8> {
    if cp.buf_len < bytes.len() {
        bytes.subrange(0, cp.buf_len as int)
    } else {
        bytes
    }
}

/// The container stack `rollback` leaves.
pub open spec fn rollback_containers(cs: Seq<Container>, cp: MsgpackCheckpoint) -> Seq<Container> {
    let cut = if cp.containers_len < cs.len() {
        cs.subrange(0, cp.containers_len as int)
    } else {
        cs
    };
    if cut.len() > 0 {
        cut.drop_last().push(Container { items: cp.top_items, ..cut.last() })
    } else {
        cut
    }
}

} // verus!
