//! Streaming JSON writer over a byte buffer.
//!
//! Separators are trailing: every element is followed by `item_end`, and the
//! container's closer drops the one comma left over. That keeps the
//! per-element path an unconditional push and needs no open-container stack.
use crate::escape::{escape_into, json_escape};
use crate::numtext::{decimal_text, format_i64, lemma_decimal_chars_bytes};
use crate::text::extend_bytes;
use vstd::prelude::*;
use vstd::string::StringSliceAdditionalSpecFns;

verus! {

pub struct JsonWriter {
    buf: Vec<u8>,
}

/// A saved writer position: the buffer length alone captures the state.
#[derive(Debug, Clone, Copy, PartialEq, Eq, Structural)]
pub struct JsonCheckpoint {
    pub buf_len: usize,
}

/// `"key":` — a quoted, escaped string followed by a colon.
pub open spec fn json_key(key: Seq<u8>) -> Seq<u8> {
    seq![0x22u8] + json_escape(key) + seq![0x22u8, 0x3au8]
}

/// A quoted, escaped string.
pub open spec fn json_string(s: Seq<u8>) -> Seq<u8> {
    seq![0x22u8] + json_escape(s) + seq![0x22u8]
}

/// The bytes after closing a container with `terminator`: a trailing comma
/// is dropped first.
pub open spec fn close_spec(bytes: Seq<u8>, terminator: u8) -> Seq<u8> {
    if bytes.len() > 0 && bytes.last() == 0x2c {
        bytes.drop_last().push(terminator)
    } else {
        bytes.push(terminator)
    }
}

/// Renders `"key":` once, at encoder-construction time.
pub fn encode_map_key(key: &str) -> (r: Vec<u8>)
    ensures
        r@ == json_key(key.spec_bytes()),
{
    let mut buf = Vec::with_capacity(key.len().saturating_add(3));
    buf.push(0x22);
    escape_into(&mut buf, key);
    buf.push(0x22);
    buf.push(0x3a);
    assert(buf@ =~= json_key(key.spec_bytes()));
    buf
}

impl JsonWriter {
    /// The bytes written so far.
    pub closed spec fn bytes(&self) -> Seq<u8> {
        self.buf@
    }

    pub fn with_capacity(capacity: usize) -> (w: Self)
        ensures
            w.bytes() == Seq::<u8>::empty(),
    {
        JsonWriter { buf: Vec::with_capacity(capacity) }
    }

    pub fn as_bytes(&self) -> (r: &[u8])
        ensures
            r@ == self.bytes(),
    {
        self.buf.as_slice()
    }

    /// Separator after an element or a map value.
    pub fn item_end(&mut self)
        ensures
            final(self).bytes() == old(self).bytes().push(0x2c),
    {
        self.buf.push(0x2c);
    }

    /// Closes a container, dropping the comma left by its last element.
    fn close(&mut self, terminator: u8)
        ensures
            final(self).bytes() == close_spec(old(self).bytes(), terminator),
    {
        let n = self.buf.len();
        if n > 0 && self.buf[n - 1] == 0x2c {
            self.buf.pop();
        }
        self.buf.push(terminator);
    }

    pub fn write_null(&mut self)
        ensures
            final(self).bytes() == old(self).bytes() + seq![0x6eu8, 0x75u8, 0x6cu8, 0x6cu8],
    {
        self.buf.push(0x6e);
        self.buf.push(0x75);
        self.buf.push(0x6c);
        self.buf.push(0x6c);
        assert(self.bytes() =~= old(self).bytes() + seq![0x6eu8, 0x75u8, 0x6cu8, 0x6cu8]);
    }

    pub fn write_bool(&mut self, v: bool)
        ensures
            final(self).bytes() == old(self).bytes() + if v {
                seq![0x74u8, 0x72u8, 0x75u8, 0x65u8]
            } else {
                seq![0x66u8, 0x61u8, 0x6cu8, 0x73u8, 0x65u8]
            },
    {
        if v {
            self.buf.push(0x74);
            self.buf.push(0x72);
            self.buf.push(0x75);
            self.buf.push(0x65);
        } else {
            self.buf.push(0x66);
            self.buf.push(0x61);
            self.buf.push(0x6c);
            self.buf.push(0x73);
            self.buf.push(0x65);
        }
        assert(self.bytes() =~= old(self).bytes() + if v {
            seq![0x74u8, 0x72u8, 0x75u8, 0x65u8]
        } else {
            seq![0x66u8, 0x61u8, 0x6cu8, 0x73u8, 0x65u8]
        });
    }

    /// The integer's decimal text.
    pub fn write_i64(&mut self, v: i64)
        ensures
            final(self).bytes() == old(self).bytes() + decimal_text(v as int),
    {
        let text = format_i64(v);
        proof {
            lemma_decimal_chars_bytes(v as int);
        }
        extend_bytes(&mut self.buf, text.as_str().as_bytes());
    }

    /// A number token copied verbatim (an integer beyond `i64`, as text).
    pub fn write_raw_number(&mut self, v: &str)
        ensures
            final(self).bytes() == old(self).bytes() + v.spec_bytes(),
    {
        extend_bytes(&mut self.buf, v.as_bytes());
    }

    /// Start position of the next value written.
    pub fn position(&self) -> (r: usize)
        ensures
            r == self.bytes().len(),
    {
        self.buf.len()
    }

    pub fn checkpoint(&self) -> (cp: JsonCheckpoint)
        ensures
            cp.buf_len == self.bytes().len(),
    {
        JsonCheckpoint { buf_len: self.buf.len() }
    }

    /// Cuts the bytes back to the checkpoint's length.
    pub fn rollback(&mut self, cp: JsonCheckpoint)
        ensures
            cp.buf_len <= old(self).bytes().len() ==> final(self).bytes() == old(
                self,
            ).bytes().subrange(0, cp.buf_len as int),
            cp.buf_len > old(self).bytes().len() ==> final(self).bytes() == old(self).bytes(),
    {
        self.buf.truncate(cp.buf_len);
    }

    /// Whether the value written since `from` is `null`.
    pub fn tail_is_null(&self, from: usize) -> (r: bool)
        requires
            from <= self.bytes().len(),
        ensures
            r == (self.bytes().subrange(from as int, self.bytes().len() as int) == seq![
                0x6eu8,
                0x75u8,
                0x6cu8,
                0x6cu8,
            ]),
    {
        let n = self.buf.len();
        let ghost null = seq![0x6eu8, 0x75u8, 0x6cu8, 0x6cu8];
        let ghost tail = self.bytes().subrange(from as int, n as int);
        if n - from != 4 {
            assert(tail.len() != null.len());
            return false;
        }
        let r = self.buf[from] == 0x6e && self.buf[from + 1] == 0x75 && self.buf[from + 2] == 0x6c
            && self.buf[from + 3] == 0x6c;
        if r {
            assert(tail =~= null);
        } else {
            assert(tail[0] != null[0] || tail[1] != null[1] || tail[2] != null[2] || tail[3]
                != null[3]);
        }
        r
    }

    /// A quoted, escaped string.
    pub fn write_str(&mut self, v: &str)
        ensures
            final(self).bytes() == old(self).bytes() + json_string(v.spec_bytes()),
    {
        self.buf.reserve(v.len().saturating_add(2));
        self.buf.push(0x22);
        escape_into(&mut self.buf, v);
        self.buf.push(0x22);
        assert(self.bytes() =~= old(self).bytes() + json_string(v.spec_bytes()));
    }

    pub fn begin_map(&mut self)
        ensures
            final(self).bytes() == old(self).bytes().push(0x7b),
    {
        self.buf.push(0x7b);
    }

    /// `"key":`.
    pub fn map_key(&mut self, key: &str)
        ensures
            final(self).bytes() == old(self).bytes() + json_key(key.spec_bytes()),
    {
        self.write_str(key);
        self.buf.push(0x3a);
        assert(self.bytes() =~= old(self).bytes() + json_key(key.spec_bytes()));
    }

    /// Appends a key rendered by [`encode_map_key`].
    pub fn map_key_encoded(&mut self, encoded: &[u8])
        ensures
            final(self).bytes() == old(self).bytes() + encoded@,
    {
        extend_bytes(&mut self.buf, encoded);
    }

    pub fn end_map(&mut self)
        ensures
            final(self).bytes() == close_spec(old(self).bytes(), 0x7d),
    {
        self.close(0x7d);
    }

    pub fn begin_array(&mut self)
        ensures
            final(self).bytes() == old(self).bytes().push(0x5b),
    {
        self.buf.push(0x5b);
    }

    pub fn end_array(&mut self)
        ensures
            final(self).bytes() == close_spec(old(self).bytes(), 0x5d),
    {
        self.close(0x5d);
    }
}

} // verus!
