//! The JSON pull reader, `jiter`. Each read depends on the document and the
//! reader's offset alone, so what it gives is named as a function of the
//! two; the reader keeps the offset as a ghost value.
use vstd::prelude::*;

verus! {

#[verifier::external_type_specification]
#[verifier::external_body]
pub struct ExJiter<'j>(jiter::Jiter<'j>);

/// A JSON syntax error: the text of its kind and the offset where it was
/// found.
pub struct JsonError {
    pub message: String,
    pub index: usize,
}

/// `Jiter::peek` at `pos`: the first byte of the next value, and the offset
/// it leaves the reader at; or the error's text and offset.
pub uninterp spec fn jiter_peek(data: Seq<u8>, pos: int) -> Result<(u8, int), (Seq<char>, int)>;

/// `Jiter::known_null`.
pub uninterp spec fn jiter_known_null(data: Seq<u8>, pos: int) -> Result<int, (Seq<char>, int)>;

/// `Jiter::known_bool`, given the peeked byte.
pub uninterp spec fn jiter_known_bool(data: Seq<u8>, pos: int, lead: u8) -> Result<(bool, int), (Seq<char>, int)>;

/// `Jiter::known_int`, given the peeked byte.
pub uninterp spec fn jiter_known_int(data: Seq<u8>, pos: int, lead: u8) -> Result<(i64, int), (Seq<char>, int)>;

/// `Jiter::known_str`: the decoded string.
pub uninterp spec fn jiter_known_str(data: Seq<u8>, pos: int) -> Result<(Seq<char>, int), (Seq<char>, int)>;

/// `Jiter::known_array`: whether the array has a first element.
pub uninterp spec fn jiter_known_array(data: Seq<u8>, pos: int) -> Result<(bool, int), (Seq<char>, int)>;

/// `Jiter::array_step`: whether another element follows.
pub uninterp spec fn jiter_array_step(data: Seq<u8>, pos: int) -> Result<(bool, int), (Seq<char>, int)>;

/// `Jiter::known_object`: the first key, if any.
pub uninterp spec fn jiter_known_object(data: Seq<u8>, pos: int) -> Result<(Option<Seq<char>>, int), (Seq<char>, int)>;

/// `Jiter::next_key`: the next key, if any.
pub uninterp spec fn jiter_next_key(data: Seq<u8>, pos: int) -> Result<(Option<Seq<char>>, int), (Seq<char>, int)>;

/// `Jiter::next_skip`: the offset after the value skipped.
pub uninterp spec fn jiter_next_skip(data: Seq<u8>, pos: int) -> Result<int, (Seq<char>, int)>;

/// `Jiter::finish`: whether only whitespace is left.
pub uninterp spec fn jiter_finish(data: Seq<u8>, pos: int) -> Result<(), (Seq<char>, int)>;

/// `e` is the error named by `x`.
pub open spec fn error_is(e: JsonError, x: (Seq<char>, int)) -> bool {
    e.message@ == x.0 && e.index == x.1
}

/// `Jiter::new`: a reader at the start of `data`.
#[verifier::external_body]
fn jiter_new<'j>(data: &'j [u8]) -> jiter::Jiter<'j> {
    jiter::Jiter::new(data)
}

/// A JSON document being read, with the reader's offset.
pub struct JsonReader<'j> {
    jiter: jiter::Jiter<'j>,
    bytes: &'j [u8],
    len: usize,
    data: Ghost<Seq<u8>>,
    pos: Ghost<int>,
}

impl<'j> JsonReader<'j> {
    pub closed spec fn data(&self) -> Seq<u8> {
        self.data@
    }

    pub closed spec fn pos(&self) -> int {
        self.pos@
    }

    pub fn new(data: &'j [u8]) -> (r: Self)
        ensures
            r.data() == data@,
            r.pos() == 0,
            r.wf(),
    {
        JsonReader { jiter: jiter_new(data), bytes: data, len: data.len(), data: Ghost(data@), pos: Ghost(0) }
    }

    /// The length of the document.
    pub fn len(&self) -> (r: usize)
        requires
            self.wf(),
        ensures
            r == self.data().len(),
    {
        self.len
    }

    pub open spec fn wf(&self) -> bool {
        &&& self.len_field() == self.data().len()
        &&& self.bytes_field() == self.data()
    }

    pub closed spec fn bytes_field(&self) -> Seq<u8> {
        self.bytes@
    }

    /// The bytes of the value at the offset, which the reader then steps
    /// over (`Jiter::next_skip`); `None` when the skip does not end inside
    /// the document after the offset.
    pub fn raw_value(&mut self) -> (r: Result<Option<&'j [u8]>, JsonError>)
        requires
            old(self).wf(),
        ensures
            final(self).wf(),
            final(self).data() == old(self).data(),
            match jiter_next_skip(old(self).data(), old(self).pos()) {
                Ok(q) => final(self).pos() == q && if old(self).pos() <= q <= old(self).data().len() {
                    r matches Ok(Some(b)) && b@ == old(self).data().subrange(old(self).pos(), q)
                } else {
                    r == Ok::<Option<&[u8]>, JsonError>(None)
                },
                Err(x) => r matches Err(e) && error_is(e, x),
            },
    {
        let start = self.index();
        self.next_skip()?;
        let end = self.index();
        if start <= end && end <= self.len {
            Ok(Some(vstd::slice::slice_subrange(self.bytes, start, end)))
        } else {
            Ok(None)
        }
    }

    pub closed spec fn len_field(&self) -> int {
        self.len as int
    }

    /// `Jiter::current_index`: the reader's offset.
    #[verifier::external_body]
    pub fn index(&self) -> (r: usize)
        ensures
            r == self.pos(),
    {
        self.jiter.current_index()
    }

    /// `Jiter::peek`.
    #[verifier::external_body]
    pub fn peek(&mut self) -> (r: Result<u8, JsonError>)
        ensures
            final(self).data() == old(self).data(),
            final(self).len_field() == old(self).len_field(),
            final(self).bytes_field() == old(self).bytes_field(),
            match jiter_peek(old(self).data(), old(self).pos()) {
                Ok((b, q)) => r == Ok::<u8, JsonError>(b) && final(self).pos() == q,
                Err(x) => r matches Err(e) && error_is(e, x),
            },
    {
        match self.jiter.peek() {
            Ok(p) => Ok(p.into_inner()),
            Err(e) => Err(JsonError { message: format!("{}", e.error_type), index: e.index }),
        }
    }

    /// `Jiter::known_null`.
    #[verifier::external_body]
    pub fn known_null(&mut self) -> (r: Result<(), JsonError>)
        ensures
            final(self).data() == old(self).data(),
            final(self).len_field() == old(self).len_field(),
            final(self).bytes_field() == old(self).bytes_field(),
            match jiter_known_null(old(self).data(), old(self).pos()) {
                Ok(q) => r is Ok && final(self).pos() == q,
                Err(x) => r matches Err(e) && error_is(e, x),
            },
    {
        match self.jiter.known_null() {
            Ok(()) => Ok(()),
            Err(e) => Err(JsonError { message: format!("{}", e.error_type), index: e.index }),
        }
    }

    /// `Jiter::known_bool`.
    #[verifier::external_body]
    pub fn known_bool(&mut self, lead: u8) -> (r: Result<bool, JsonError>)
        ensures
            final(self).data() == old(self).data(),
            final(self).len_field() == old(self).len_field(),
            final(self).bytes_field() == old(self).bytes_field(),
            match jiter_known_bool(old(self).data(), old(self).pos(), lead) {
                Ok((b, q)) => r == Ok::<bool, JsonError>(b) && final(self).pos() == q,
                Err(x) => r matches Err(e) && error_is(e, x),
            },
    {
        match self.jiter.known_bool(jiter::Peek::new(lead)) {
            Ok(b) => Ok(b),
            Err(e) => Err(JsonError { message: format!("{}", e.error_type), index: e.index }),
        }
    }

    /// `Jiter::known_int`.
    #[verifier::external_body]
    pub fn known_int(&mut self, lead: u8) -> (r: Result<i64, JsonError>)
        ensures
            final(self).data() == old(self).data(),
            final(self).len_field() == old(self).len_field(),
            final(self).bytes_field() == old(self).bytes_field(),
            match jiter_known_int(old(self).data(), old(self).pos(), lead) {
                Ok((v, q)) => r == Ok::<i64, JsonError>(v) && final(self).pos() == q,
                Err(x) => r matches Err(e) && error_is(e, x),
            },
    {
        match self.jiter.known_int(jiter::Peek::new(lead)) {
            Ok(jiter::NumberInt::Int(v)) => Ok(v),
            Err(e) => Err(JsonError { message: format!("{}", e.error_type), index: e.index }),
        }
    }

    /// `Jiter::known_str`.
    #[verifier::external_body]
    pub fn known_str(&mut self) -> (r: Result<String, JsonError>)
        ensures
            final(self).data() == old(self).data(),
            final(self).len_field() == old(self).len_field(),
            final(self).bytes_field() == old(self).bytes_field(),
            match jiter_known_str(old(self).data(), old(self).pos()) {
                Ok((s, q)) => r matches Ok(t) && t@ == s && final(self).pos() == q,
                Err(x) => r matches Err(e) && error_is(e, x),
            },
    {
        match self.jiter.known_str() {
            Ok(s) => Ok(s.to_string()),
            Err(e) => Err(JsonError { message: format!("{}", e.error_type), index: e.index }),
        }
    }

    /// `Jiter::known_array`.
    #[verifier::external_body]
    pub fn known_array(&mut self) -> (r: Result<bool, JsonError>)
        ensures
            final(self).data() == old(self).data(),
            final(self).len_field() == old(self).len_field(),
            final(self).bytes_field() == old(self).bytes_field(),
            match jiter_known_array(old(self).data(), old(self).pos()) {
                Ok((b, q)) => r == Ok::<bool, JsonError>(b) && final(self).pos() == q,
                Err(x) => r matches Err(e) && error_is(e, x),
            },
    {
        match self.jiter.known_array() {
            Ok(first) => Ok(first.is_some()),
            Err(e) => Err(JsonError { message: format!("{}", e.error_type), index: e.index }),
        }
    }

    /// `Jiter::array_step`.
    #[verifier::external_body]
    pub fn array_step(&mut self) -> (r: Result<bool, JsonError>)
        ensures
            final(self).data() == old(self).data(),
            final(self).len_field() == old(self).len_field(),
            final(self).bytes_field() == old(self).bytes_field(),
            match jiter_array_step(old(self).data(), old(self).pos()) {
                Ok((b, q)) => r == Ok::<bool, JsonError>(b) && final(self).pos() == q,
                Err(x) => r matches Err(e) && error_is(e, x),
            },
    {
        match self.jiter.array_step() {
            Ok(next) => Ok(next.is_some()),
            Err(e) => Err(JsonError { message: format!("{}", e.error_type), index: e.index }),
        }
    }

    /// `Jiter::known_object`.
    #[verifier::external_body]
    pub fn known_object(&mut self) -> (r: Result<Option<String>, JsonError>)
        ensures
            final(self).data() == old(self).data(),
            final(self).len_field() == old(self).len_field(),
            final(self).bytes_field() == old(self).bytes_field(),
            match jiter_known_object(old(self).data(), old(self).pos()) {
                Ok((k, q)) => r matches Ok(t) && final(self).pos() == q && match (t, k) {
                    (Some(a), Some(b)) => a@ == b,
                    (None, None) => true,
                    _ => false,
                },
                Err(x) => r matches Err(e) && error_is(e, x),
            },
    {
        match self.jiter.known_object() {
            Ok(Some(s)) => Ok(Some(s.to_string())),
            Ok(None) => Ok(None),
            Err(e) => Err(JsonError { message: format!("{}", e.error_type), index: e.index }),
        }
    }

    /// `Jiter::next_key`.
    #[verifier::external_body]
    pub fn next_key(&mut self) -> (r: Result<Option<String>, JsonError>)
        ensures
            final(self).data() == old(self).data(),
            final(self).len_field() == old(self).len_field(),
            final(self).bytes_field() == old(self).bytes_field(),
            match jiter_next_key(old(self).data(), old(self).pos()) {
                Ok((k, q)) => r matches Ok(t) && final(self).pos() == q && match (t, k) {
                    (Some(a), Some(b)) => a@ == b,
                    (None, None) => true,
                    _ => false,
                },
                Err(x) => r matches Err(e) && error_is(e, x),
            },
    {
        match self.jiter.next_key() {
            Ok(Some(s)) => Ok(Some(s.to_string())),
            Ok(None) => Ok(None),
            Err(e) => Err(JsonError { message: format!("{}", e.error_type), index: e.index }),
        }
    }

    /// `Jiter::next_skip`.
    #[verifier::external_body]
    pub fn next_skip(&mut self) -> (r: Result<(), JsonError>)
        ensures
            final(self).data() == old(self).data(),
            final(self).len_field() == old(self).len_field(),
            final(self).bytes_field() == old(self).bytes_field(),
            match jiter_next_skip(old(self).data(), old(self).pos()) {
                Ok(q) => r is Ok && final(self).pos() == q,
                Err(x) => r matches Err(e) && error_is(e, x),
            },
    {
        match self.jiter.next_skip() {
            Ok(()) => Ok(()),
            Err(e) => Err(JsonError { message: format!("{}", e.error_type), index: e.index }),
        }
    }

    /// `Jiter::finish`.
    #[verifier::external_body]
    pub fn finish(&mut self) -> (r: Result<(), JsonError>)
        ensures
            final(self).data() == old(self).data(),
            final(self).len_field() == old(self).len_field(),
            final(self).bytes_field() == old(self).bytes_field(),
            match jiter_finish(old(self).data(), old(self).pos()) {
                Ok(()) => r is Ok,
                Err(x) => r matches Err(e) && error_is(e, x),
            },
    {
        match self.jiter.finish() {
            Ok(()) => Ok(()),
            Err(e) => Err(JsonError { message: format!("{}", e.error_type), index: e.index }),
        }
    }
}

} // verus!
