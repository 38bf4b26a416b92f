//! One writer interface over the two output formats. The set of formats is
//! closed, so each call is a match on the format.
use crate::json_writer::{JsonCheckpoint, JsonWriter, close_spec, encode_map_key as json_encode_key, json_key, json_string};
use crate::msgpack_grammar::{be_bytes, enc_bin, enc_int, enc_str, enc_uint};
use crate::msgpack_writer::{
    MsgpackCheckpoint, MsgpackWriter, begun, closable, decimal_value, encode_map_key as msgpack_encode_key,
    ended, headers_kept, rollback_bytes, rollback_containers,
};
use crate::numtext::decimal_text;
use crate::stacks::{Container, STACK_LIMIT};
use vstd::prelude::*;
use vstd::string::StringSliceAdditionalSpecFns;

verus! {

pub const FORMAT_JSON: u8 = 0;

pub const FORMAT_MSGPACK: u8 = 1;

pub enum Writer {
    Json(JsonWriter),
    Msgpack(MsgpackWriter),
}

/// A saved writer position, of the writer's format.
pub enum Checkpoint {
    Json(JsonCheckpoint),
    Msgpack(MsgpackCheckpoint),
}

/// A map key rendered once for both formats.
pub struct EncodedKey {
    json: Vec<u8>,
    msgpack: Vec<u8>,
}

impl EncodedKey {
    pub closed spec fn json_bytes(&self) -> Seq<u8> {
        self.json@
    }

    pub closed spec fn msgpack_bytes(&self) -> Seq<u8> {
        self.msgpack@
    }

    pub fn new(key: &str) -> (k: Self)
        requires
            key.spec_bytes().len() <= u32::MAX,
        ensures
            k.json_bytes() == json_key(key.spec_bytes()),
            k.msgpack_bytes() == enc_str(key.spec_bytes()),
    {
        EncodedKey { json: json_encode_key(key), msgpack: msgpack_encode_key(key) }
    }
}

/// The format id is not one of the known formats.
#[derive(Debug, Clone, Copy, PartialEq, Eq, Structural)]
pub struct UnknownFormat {
    pub format: u8,
}

impl Writer {
    pub open spec fn wf(&self) -> bool {
        match *self {
            Writer::Json(_) => true,
            Writer::Msgpack(w) => w.wf(),
        }
    }

    /// The bytes written so far.
    pub open spec fn bytes(&self) -> Seq<u8> {
        match *self {
            Writer::Json(w) => w.bytes(),
            Writer::Msgpack(w) => w.bytes(),
        }
    }

    /// `self` is `old` with `json` appended (JSON) or `msgpack` appended
    /// (MessagePack, open containers unchanged).
    pub open spec fn appended(&self, old: &Writer, json: Seq<u8>, msgpack: Seq<u8>) -> bool {
        match (*old, *self) {
            (Writer::Json(a), Writer::Json(b)) => b.bytes() == a.bytes() + json,
            (Writer::Msgpack(a), Writer::Msgpack(b)) => b.wf() && b.appended(&a, msgpack),
            _ => false,
        }
    }

    /// A new empty writer; `capacity` only affects how often the buffer grows.
    pub fn with_capacity(format: u8, capacity: usize) -> (r: Result<Writer, UnknownFormat>)
        ensures
            format == FORMAT_JSON ==> (r matches Ok(w) && w is Json && w.bytes() == Seq::<u8>::empty()),
            format == FORMAT_MSGPACK ==> (r matches Ok(w) && w is Msgpack && w.wf() && w.bytes()
                == Seq::<u8>::empty() && w->Msgpack_0.open_containers() == Seq::<Container>::empty()),
            format != FORMAT_JSON && format != FORMAT_MSGPACK ==> r == Err::<Writer, UnknownFormat>(UnknownFormat { format }),
    {
        if format == FORMAT_JSON {
            Ok(Writer::Json(JsonWriter::with_capacity(capacity)))
        } else if format == FORMAT_MSGPACK {
            Ok(Writer::Msgpack(MsgpackWriter::with_capacity(capacity)))
        } else {
            Err(UnknownFormat { format })
        }
    }

    /// How many containers are open in a MessagePack writer; JSON keeps no
    /// count and answers 0.
    pub fn open_count(&self) -> (r: usize)
        ensures
            *self matches Writer::Msgpack(m) ==> r == m.open_containers().len(),
            *self is Json ==> r == 0,
    {
        match self {
            Writer::Json(_) => 0,
            Writer::Msgpack(w) => w.open_count(),
        }
    }

    pub fn as_bytes(&self) -> (r: &[u8])
        ensures
            r@ == self.bytes(),
    {
        match self {
            Writer::Json(w) => w.as_bytes(),
            Writer::Msgpack(w) => w.as_bytes(),
        }
    }

    pub fn checkpoint(&self) -> (cp: Checkpoint)
        ensures
            match (*self, cp) {
                (Writer::Json(w), Checkpoint::Json(c)) => c.buf_len == w.bytes().len(),
                (Writer::Msgpack(w), Checkpoint::Msgpack(c)) => c == crate::msgpack_writer::checkpoint_of(
                    w.bytes(),
                    w.open_containers(),
                ),
                _ => false,
            },
    {
        match self {
            Writer::Json(w) => Checkpoint::Json(w.checkpoint()),
            Writer::Msgpack(w) => Checkpoint::Msgpack(w.checkpoint()),
        }
    }

    /// Undoes everything written since `cp`, taken on this writer.
    pub fn rollback(&mut self, cp: Checkpoint)
        requires
            old(self).wf(),
            match (*old(self), cp) {
                (Writer::Json(_), Checkpoint::Json(_)) => true,
                (Writer::Msgpack(w), Checkpoint::Msgpack(c)) => headers_kept(w.open_containers(), c),
                _ => false,
            },
        ensures
            final(self).wf(),
            match (*old(self), *final(self), cp) {
                (Writer::Json(a), Writer::Json(b), Checkpoint::Json(c)) => if c.buf_len <= a.bytes().len() {
                    b.bytes() == a.bytes().subrange(0, c.buf_len as int)
                } else {
                    b.bytes() == a.bytes()
                },
                (Writer::Msgpack(a), Writer::Msgpack(b), Checkpoint::Msgpack(c)) => b.bytes() == rollback_bytes(a.bytes(), c)
                    && b.open_containers() == rollback_containers(a.open_containers(), c),
                _ => false,
            },
    {
        match (self, cp) {
            (Writer::Json(w), Checkpoint::Json(c)) => w.rollback(c),
            (Writer::Msgpack(w), Checkpoint::Msgpack(c)) => w.rollback(c),
            _ => {},
        }
    }

    /// Start position of the next value written.
    pub fn position(&self) -> (r: usize)
        ensures
            r == self.bytes().len(),
    {
        match self {
            Writer::Json(w) => w.position(),
            Writer::Msgpack(w) => w.position(),
        }
    }

    /// Whether the value written since `from` is null in this format.
    pub fn tail_is_null(&self, from: usize) -> (r: bool)
        requires
            from <= self.bytes().len(),
        ensures
            r == (self.bytes().subrange(from as int, self.bytes().len() as int) == match *self {
                Writer::Json(_) => seq![0x6eu8, 0x75u8, 0x6cu8, 0x6cu8],
                Writer::Msgpack(_) => seq![0xc0u8],
            }),
    {
        match self {
            Writer::Json(w) => w.tail_is_null(from),
            Writer::Msgpack(w) => w.tail_is_null(from),
        }
    }

    pub fn write_null(&mut self)
        requires
            old(self).wf(),
        ensures
            final(self).appended(old(self), seq![0x6eu8, 0x75u8, 0x6cu8, 0x6cu8], seq![0xc0u8]),
    {
        match self {
            Writer::Json(w) => w.write_null(),
            Writer::Msgpack(w) => w.write_null(),
        }
    }

    pub fn write_bool(&mut self, v: bool)
        requires
            old(self).wf(),
        ensures
            final(self).appended(
                old(self),
                if v { seq![0x74u8, 0x72u8, 0x75u8, 0x65u8] } else { seq![0x66u8, 0x61u8, 0x6cu8, 0x73u8, 0x65u8] },
                seq![if v { 0xc3u8 } else { 0xc2u8 }],
            ),
    {
        match self {
            Writer::Json(w) => w.write_bool(v),
            Writer::Msgpack(w) => w.write_bool(v),
        }
    }

    pub fn write_i64(&mut self, v: i64)
        requires
            old(self).wf(),
        ensures
            final(self).appended(old(self), decimal_text(v as int), enc_int(v as int)),
    {
        match self {
            Writer::Json(w) => w.write_i64(v),
            Writer::Msgpack(w) => w.write_i64(v),
        }
    }

    /// An integer beyond `i64`, given as decimal text: copied as a number token
    /// in JSON; MessagePack takes it only when it fits `u64`.
    pub fn write_big_int(&mut self, v: &str) -> (r: Result<(), &'static str>)
        requires
            old(self).wf(),
        ensures
            final(self).wf(),
            *old(self) is Json ==> (r is Ok && final(self).appended(old(self), v.spec_bytes(), Seq::empty())),
            *old(self) is Msgpack ==> match decimal_value(v.spec_bytes()) {
                Some(n) => if n <= u64::MAX {
                    r is Ok && final(self).appended(old(self), Seq::empty(), enc_uint(n))
                } else {
                    r == Err::<(), &'static str>("integer is out of range for MessagePack")
                        && final(self).appended(old(self), Seq::empty(), Seq::empty())
                },
                None => r == Err::<(), &'static str>("integer is out of range for MessagePack")
                    && final(self).appended(old(self), Seq::empty(), Seq::empty()),
            },
    {
        match self {
            Writer::Json(w) => {
                w.write_raw_number(v);
                Ok(())
            },
            Writer::Msgpack(w) => w.write_big_int(v),
        }
    }

    /// A float, handed over as what each format needs of it: whether it is
    /// finite, its shortest round-trip decimal text (JSON) and its IEEE 754
    /// bit pattern (MessagePack). JSON has no NaN or infinity and refuses
    /// them, writing nothing.
    pub fn write_f64_parts(&mut self, finite: bool, text: &str, bits: u64) -> (r: Result<(), &'static str>)
        requires
            old(self).wf(),
        ensures
            final(self).wf(),
            *old(self) is Json ==> if finite {
                r is Ok && final(self).appended(old(self), text.spec_bytes(), Seq::empty())
            } else {
                r == Err::<(), &'static str>("NaN and Infinity are not allowed in JSON") && *final(self) == *old(self)
            },
            *old(self) is Msgpack ==> r is Ok && final(self).appended(
                old(self),
                Seq::empty(),
                seq![0xcbu8] + be_bytes(bits as int, 8),
            ),
    {
        match self {
            Writer::Json(w) => {
                if !finite {
                    return Err("NaN and Infinity are not allowed in JSON");
                }
                w.write_raw_number(text);
                Ok(())
            },
            Writer::Msgpack(w) => {
                w.write_f64_bits(bits);
                Ok(())
            },
        }
    }

    pub fn write_str(&mut self, v: &str)
        requires
            old(self).wf(),
            v.spec_bytes().len() <= u32::MAX,
        ensures
            final(self).appended(old(self), json_string(v.spec_bytes()), enc_str(v.spec_bytes())),
    {
        match self {
            Writer::Json(w) => w.write_str(v),
            Writer::Msgpack(w) => w.write_str(v),
        }
    }

    /// Raw bytes: MessagePack only.
    pub fn write_bytes(&mut self, v: &[u8]) -> (r: Result<(), &'static str>)
        requires
            old(self).wf(),
            v@.len() <= u32::MAX,
        ensures
            *old(self) is Json <==> r is Err,
            *old(self) is Json ==> r == Err::<(), &'static str>("bytes values are not supported by this format")
                && *final(self) == *old(self),
            *old(self) is Msgpack ==> final(self).appended(old(self), Seq::empty(), enc_bin(v@)),
    {
        match self {
            Writer::Json(_) => Err("bytes values are not supported by this format"),
            Writer::Msgpack(w) => {
                w.write_bytes(v);
                Ok(())
            },
        }
    }

    /// `len`: the number of entries when known up front; JSON ignores it.
    pub fn begin_map(&mut self, len: Option<usize>)
        requires
            old(self).wf(),
            *old(self) matches Writer::Msgpack(w) ==> w.open_containers().len() < STACK_LIMIT,
            len matches Some(n) ==> n <= u32::MAX,
        ensures
            final(self).wf(),
            match (*old(self), *final(self)) {
                (Writer::Json(a), Writer::Json(b)) => b.bytes() == a.bytes().push(0x7b),
                (Writer::Msgpack(a), Writer::Msgpack(b)) => begun(&a, &b, true, len),
                _ => false,
            },
    {
        match self {
            Writer::Json(w) => w.begin_map(),
            Writer::Msgpack(w) => w.begin_map(len),
        }
    }

    pub fn map_key(&mut self, key: &str)
        requires
            old(self).wf(),
            key.spec_bytes().len() <= u32::MAX,
        ensures
            final(self).appended(old(self), json_key(key.spec_bytes()), enc_str(key.spec_bytes())),
    {
        match self {
            Writer::Json(w) => w.map_key(key),
            Writer::Msgpack(w) => w.map_key(key),
        }
    }

    /// A key rendered by [`EncodedKey::new`].
    pub fn map_key_encoded(&mut self, key: &EncodedKey)
        requires
            old(self).wf(),
        ensures
            final(self).appended(old(self), key.json_bytes(), key.msgpack_bytes()),
    {
        match self {
            Writer::Json(w) => w.map_key_encoded(key.json.as_slice()),
            Writer::Msgpack(w) => w.map_key_encoded(key.msgpack.as_slice()),
        }
    }

    pub fn end_map(&mut self)
        requires
            old(self).wf(),
            *old(self) matches Writer::Msgpack(w) ==> closable(&w, true),
        ensures
            final(self).wf(),
            match (*old(self), *final(self)) {
                (Writer::Json(a), Writer::Json(b)) => b.bytes() == close_spec(a.bytes(), 0x7d),
                (Writer::Msgpack(a), Writer::Msgpack(b)) => ended(&a, &b),
                _ => false,
            },
    {
        match self {
            Writer::Json(w) => w.end_map(),
            Writer::Msgpack(w) => w.end_map(),
        }
    }

    pub fn begin_array(&mut self, len: Option<usize>)
        requires
            old(self).wf(),
            *old(self) matches Writer::Msgpack(w) ==> w.open_containers().len() < STACK_LIMIT,
            len matches Some(n) ==> n <= u32::MAX,
        ensures
            final(self).wf(),
            match (*old(self), *final(self)) {
                (Writer::Json(a), Writer::Json(b)) => b.bytes() == a.bytes().push(0x5b),
                (Writer::Msgpack(a), Writer::Msgpack(b)) => begun(&a, &b, false, len),
                _ => false,
            },
    {
        match self {
            Writer::Json(w) => w.begin_array(),
            Writer::Msgpack(w) => w.begin_array(len),
        }
    }

    /// After each array element and each map value.
    pub fn item_end(&mut self)
        requires
            old(self).wf(),
            *old(self) matches Writer::Msgpack(w) ==> (w.open_containers().len() > 0 && w.open_containers().last().items < u32::MAX),
        ensures
            final(self).wf(),
            match (*old(self), *final(self)) {
                (Writer::Json(a), Writer::Json(b)) => b.bytes() == a.bytes().push(0x2c),
                (Writer::Msgpack(a), Writer::Msgpack(b)) => b.bytes() == a.bytes() && b.open_containers()
                    == a.open_containers().drop_last().push(
                    Container { items: (a.open_containers().last().items + 1) as u32, ..a.open_containers().last() },
                ),
                _ => false,
            },
    {
        match self {
            Writer::Json(w) => w.item_end(),
            Writer::Msgpack(w) => w.item_end(),
        }
    }

    pub fn end_array(&mut self)
        requires
            old(self).wf(),
            *old(self) matches Writer::Msgpack(w) ==> closable(&w, false),
        ensures
            final(self).wf(),
            match (*old(self), *final(self)) {
                (Writer::Json(a), Writer::Json(b)) => b.bytes() == close_spec(a.bytes(), 0x5d),
                (Writer::Msgpack(a), Writer::Msgpack(b)) => ended(&a, &b),
                _ => false,
            },
    {
        match self {
            Writer::Json(w) => w.end_array(),
            Writer::Msgpack(w) => w.end_array(),
        }
    }
}

} // verus!
