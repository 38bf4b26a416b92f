//! Python-style rendering of the MessagePack value under the cursor, for
//! error messages, one step at a time. The text is budgeted: once the
//! output holds `VALUE_REPR_LIMIT` bytes, or the nesting reaches
//! `RENDER_MAX_DEPTH`, what is left of a value is skipped and marked `…`;
//! what the budget cuts is still consumed. A float's text is the caller's:
//! the step that reads one hands back its bits, and the caller appends the
//! text before the next step.
use crate::decode_error::{decode_err, DecodeError, DecodeErrorKind};
use crate::msgpack_grammar::{lemma_skip_step_advances, lemma_skip_values_bounds, skip_step, skip_values, value_end};
use crate::msgpack_parser::{
    Kind, MsgpackParser, WireNumber, bin_at, container_header, kind_of_marker, number_at, str_at,
};
use crate::numtext::{decimal_chars, format_i64, format_u64};
use crate::stacks::{Frame, STACK_LIMIT};
use crate::value_repr::{
    VALUE_REPR_LIMIT, boundary_at_or_below, bytes_repr_body, push_bytes_repr, push_quoted, quoted_body,
    string_push, truncate_char_boundary,
};
use vstd::prelude::*;
use vstd::string::{StrSliceExecFns, StringSliceAdditionalSpecFns};
use vstd::utf8::{decode_utf8, encode_utf8, encode_utf8_decode_utf8};

verus! {

/// Nesting depth past which values are not rendered, far below any useful
/// error text.
pub const RENDER_MAX_DEPTH: usize = 64;

/// Where the walk stands.
#[derive(Debug, Clone, Copy, PartialEq, Eq, Structural)]
pub enum Phase {
    /// A value starts at the cursor; `top_level` for the value itself (a
    /// top-level string is shown in double quotes).
    Value { top_level: bool },
    /// The innermost array has an element at the cursor.
    Item,
    /// A value has just been rendered.
    After,
    /// The budget ran out inside the innermost container: its remaining
    /// entries are skipped.
    SkipRest,
    /// The value has been rendered and consumed.
    Done,
}

/// What a step asks of the caller.
#[derive(Debug, Clone, Copy, PartialEq, Eq, Structural)]
pub enum RenderAction {
    /// Step again.
    Continue,
    /// Append the text of this float (`single` for a 32-bit one, whose
    /// pattern is in the low bits), then step again.
    NeedFloat { bits: u64, single: bool },
    /// The value is rendered.
    Done,
}

/// The state of one rendering.
pub struct ValueRender {
    /// The kinds (`true` for a map) of the containers this rendering
    /// entered and has not finished, outermost first.
    open: Vec<bool>,
    /// No entry of the innermost container has been rendered yet.
    first: bool,
    phase: Phase,
    /// Where the value starts.
    start: Ghost<int>,
    /// The reader's containers when the walk started.
    below: Ghost<Seq<Frame>>,
}

/// The UTF-8 length of a text.
pub open spec fn byte_len(s: Seq<char>) -> int {
    encode_utf8(s).len() as int
}

pub open spec fn ellipsis() -> Seq<char> {
    seq!['…']
}

/// The text ends with `…`.
pub open spec fn ends_with_ellipsis(s: Seq<char>) -> bool {
    s.len() > 0 && s.last() == '…'
}

/// The part of a string's bytes that is shown: all of them within the
/// budget, else the longest prefix within it that ends on a character
/// boundary.
pub open spec fn shown_bytes(b: Seq<u8>) -> Seq<u8> {
    if b.len() <= VALUE_REPR_LIMIT {
        b
    } else {
        b.subrange(0, boundary_at_or_below(b, VALUE_REPR_LIMIT as int))
    }
}

/// `…` when the budget cut the bytes.
pub open spec fn cut_mark(b: Seq<u8>) -> Seq<char> {
    if b.len() > VALUE_REPR_LIMIT {
        ellipsis()
    } else {
        Seq::empty()
    }
}

/// A string value: double-quoted as it is at the top level, else as a
/// Python literal in single quotes.
pub open spec fn str_text(b: Seq<u8>, top_level: bool) -> Seq<char> {
    let shown = decode_utf8(shown_bytes(b));
    (if top_level {
        seq!['"'] + shown + seq!['"']
    } else {
        seq!['\''] + quoted_body(shown, '\'') + seq!['\'']
    }) + cut_mark(b)
}

/// A binary value, as a Python bytes literal.
pub open spec fn bin_text(b: Seq<u8>) -> Seq<char> {
    let shown = if b.len() <= VALUE_REPR_LIMIT { b } else { b.subrange(0, VALUE_REPR_LIMIT as int) };
    seq!['b', '\''] + bytes_repr_body(shown) + seq!['\''] + cut_mark(b)
}

/// A map key and the `: ` after it.
pub open spec fn key_text(b: Seq<u8>) -> Seq<char> {
    str_text(b, false) + seq![':', ' ']
}

/// The text of an entry's start: `…` once the budget is spent (the rest of
/// the container is then skipped), else the separator from the previous
/// entry.
pub open spec fn entry_start(out: Seq<char>, first: bool) -> Seq<char> {
    if byte_len(out) >= VALUE_REPR_LIMIT {
        ellipsis()
    } else if first {
        Seq::empty()
    } else {
        seq![',', ' ']
    }
}

/// The text of a map entry's key, given the output so far.
pub open spec fn map_entry_text(out: Seq<char>, first: bool, key: Seq<u8>) -> Seq<char> {
    if byte_len(out) >= VALUE_REPR_LIMIT {
        ellipsis()
    } else {
        entry_start(out, first) + key_text(key)
    }
}

/// The phase after an entry's start.
pub open spec fn entry_phase(out: Seq<char>) -> Phase {
    if byte_len(out) >= VALUE_REPR_LIMIT {
        Phase::SkipRest
    } else {
        Phase::Value { top_level: false }
    }
}

/// A value at this depth is not rendered but skipped.
pub open spec fn over_budget(out: Seq<char>, depth: int) -> bool {
    byte_len(out) >= VALUE_REPR_LIMIT || depth >= RENDER_MAX_DEPTH
}

/// The marker of what the budget skipped, unless the text already ends with one.
pub open spec fn skip_mark(out: Seq<char>) -> Seq<char> {
    if ends_with_ellipsis(out) {
        Seq::empty()
    } else {
        ellipsis()
    }
}

impl ValueRender {
    pub closed spec fn open(&self) -> Seq<bool> {
        self.open@
    }

    pub closed spec fn first(&self) -> bool {
        self.first
    }

    pub closed spec fn phase(&self) -> Phase {
        self.phase
    }

    /// Where the value starts.
    pub closed spec fn start(&self) -> int {
        self.start@
    }

    /// The reader's containers when the walk started.
    pub closed spec fn below(&self) -> Seq<Frame> {
        self.below@
    }

    /// The rendering agrees with the reader: the containers it entered are
    /// the reader's innermost ones, above those the reader had open when the
    /// walk started, and the phase fits the innermost one.
    pub open spec fn wf_frames(&self, p: &MsgpackParser) -> bool {
        let n = self.open().len();
        let base = p.frames().len() - n;
        &&& p.wf()
        &&& n <= p.frames().len()
        &&& n <= RENDER_MAX_DEPTH
        &&& forall|i: int| 0 <= i < n ==> #[trigger] self.open()[i] == p.frames()[base + i].is_map
        &&& self.phase() is Item ==> n > 0 && !self.open().last()
        &&& self.phase() is SkipRest ==> n > 0
        &&& self.phase() is Done ==> n == 0
        &&& base == self.below().len()
        &&& p.frames().subrange(0, base) == self.below()
        &&& base + RENDER_MAX_DEPTH < STACK_LIMIT
    }

    /// Skipping `pending` values from the cursor ends where skipping the
    /// value from its start ends.
    pub open spec fn consumes(&self, p: &MsgpackParser, pending: int) -> bool {
        value_end(p.data(), self.start()) matches Ok(e) ==> skip_values(p.data(), p.index(), pending) == Ok::<int, DecodeError>(e)
    }

    /// The walk's invariant: the frames agree, and what is left to consume
    /// ends where the value ends.
    pub open spec fn wf(&self, p: &MsgpackParser) -> bool {
        &&& self.wf_frames(p)
        &&& self.consumes(p, pending_values(self.phase(), p.frames(), self.open().len() as int))
    }

    /// A rendering of the value at the cursor.
    pub fn new(p: &MsgpackParser) -> (r: Self)
        requires
            p.wf(),
            p.frames().len() + RENDER_MAX_DEPTH < STACK_LIMIT,
        ensures
            r.wf(p),
            r.open() == Seq::<bool>::empty(),
            r.first(),
            r.phase() == (Phase::Value { top_level: true }),
            r.start() == p.index(),
            r.below() == p.frames(),
    {
        let r = ValueRender {
            open: Vec::new(),
            first: true,
            phase: Phase::Value { top_level: true },
            start: Ghost(p.index()),
            below: Ghost(p.frames()),
        };
        assert(p.frames().subrange(0, p.frames().len() as int) =~= p.frames());
        r
    }

    /// The step that starts a map entry whose key has been read.
    fn map_entry(&mut self, out: &mut String, key: &str)
        ensures
            final(out)@ == old(out)@ + map_entry_text(old(out)@, old(self).first(), key.spec_bytes()),
            final(self).phase() == entry_phase(old(out)@),
            final(self).open() == old(self).open(),
            final(self).first() == (old(self).first() && byte_len(old(out)@) >= VALUE_REPR_LIMIT),
            final(self).start() == old(self).start(),
            final(self).below() == old(self).below(),
    {
        let ghost o = out@;
        if out.as_str().as_bytes().len() >= VALUE_REPR_LIMIT {
            string_push(out, '…');
            self.phase = Phase::SkipRest;
            assert(out@ =~= o + ellipsis());
            return;
        }
        proof {
            reveal_strlit(", ");
            reveal_strlit(": ");
        }
        if !self.first {
            out.append(", ");
        }
        let ghost o1 = out@;
        assert(o1 =~= o + entry_start(o, old(self).first()));
        self.first = false;
        push_str_text(out, key, false);
        out.append(": ");
        self.phase = Phase::Value { top_level: false };
        assert(out@ =~= o + (entry_start(o, old(self).first()) + key_text(key.spec_bytes())));
    }
}

/// Appends a string value's text.
fn push_str_text(out: &mut String, value: &str, top_level: bool)
    ensures
        final(out)@ == old(out)@ + str_text(value.spec_bytes(), top_level),
{
    let ghost o = out@;
    let ghost vb = value.spec_bytes();
    let shown = truncate_char_boundary(value, VALUE_REPR_LIMIT);
    proof {
        encode_utf8_decode_utf8(shown@);
        assert(shown.spec_bytes() == shown_bytes(vb));
        assert(shown@ == decode_utf8(shown_bytes(vb)));
        if vb.len() > VALUE_REPR_LIMIT {
            lemma_boundary_below(vb, VALUE_REPR_LIMIT as int);
            assert(shown.spec_bytes().len() < vb.len());
        }
    }
    if top_level {
        string_push(out, '"');
        out.append(shown);
        string_push(out, '"');
    } else {
        push_quoted(out, shown, '\'');
    }
    let ghost o2 = out@;
    if shown.as_bytes().len() < value.as_bytes().len() {
        string_push(out, '…');
        proof {
            assert(vb.len() > VALUE_REPR_LIMIT);
            assert(cut_mark(vb) == ellipsis());
        }
    } else {
        proof {
            assert(vb.len() <= VALUE_REPR_LIMIT);
            assert(cut_mark(vb) == Seq::<char>::empty());
        }
    }
    proof {
        let head = if top_level {
            seq!['"'] + decode_utf8(shown_bytes(vb)) + seq!['"']
        } else {
            seq!['\''] + quoted_body(decode_utf8(shown_bytes(vb)), '\'') + seq!['\'']
        };
        assert(o2 =~= o + head);
        assert(out@ =~= o + head + cut_mark(vb));
    }
}

proof fn lemma_boundary_below(b: Seq<u8>, e: int)
    requires
        0 <= e,
    ensures
        0 <= boundary_at_or_below(b, e) <= e,
    decreases e,
{
    if e > 0 {
        lemma_boundary_below(b, e - 1);
    }
}

/// Appends a binary value's text.
fn push_bin_text(out: &mut String, value: &[u8])
    ensures
        final(out)@ == old(out)@ + bin_text(value@),
{
    let n = if value.len() < VALUE_REPR_LIMIT { value.len() } else { VALUE_REPR_LIMIT };
    let shown = slice_prefix(value, n);
    push_bytes_repr(out, shown);
    if n < value.len() {
        string_push(out, '…');
    }
    proof {
        if value@.len() <= VALUE_REPR_LIMIT {
            assert(value@.subrange(0, n as int) =~= value@);
        }
    }
}

fn slice_prefix(value: &[u8], n: usize) -> (r: &[u8])
    requires
        n <= value@.len(),
    ensures
        r@ == value@.subrange(0, n as int),
{
    let (head, _) = value.split_at(n);
    head
}

/// Whether the text ends with `…`.
fn ends_with_mark(out: &String) -> (r: bool)
    ensures
        r == ends_with_ellipsis(out@),
{
    let s = out.as_str();
    let n = s.unicode_len();
    n > 0 && s.get_char(n - 1) == '…'
}

/// What reading a map key at `q` gives: its bytes and end, or the
/// reader's error.
pub open spec fn key_result(d: Seq<u8>, q: int) -> Result<(Seq<u8>, int), DecodeError> {
    if q >= d.len() {
        Err(decode_err(DecodeErrorKind::UnexpectedEnd, q))
    } else {
        match kind_of_marker(d[q]) {
            Err(k) => Err(decode_err(k, q)),
            Ok(Kind::Str) => str_at(d, q),
            Ok(_) => Err(decode_err(DecodeErrorKind::MapKeyNotString, q)),
        }
    }
}

/// `r` continues the walk.
pub open spec fn cont(r: Result<RenderAction, DecodeError>) -> bool {
    r == Ok::<RenderAction, DecodeError>(RenderAction::Continue)
}

/// A step that rendered a scalar: the cursor moved to `end`, `text` was
/// appended, and a value has been rendered.
pub open spec fn scalar_done(
    first: bool,
    open: Seq<bool>,
    fr: Seq<Frame>,
    o: Seq<char>,
    end: int,
    text: Seq<char>,
    s: &ValueRender,
    p: &MsgpackParser,
    out: Seq<char>,
) -> bool {
    &&& p.index() == end
    &&& p.frames() == fr
    &&& out == o + text
    &&& s.phase() == Phase::After
    &&& s.open() == open
    &&& s.first() == first
}

/// A map entry's key was read at `q` after the text `o` (first entry when
/// `first`), with `frames` left open.
pub open spec fn key_step(
    d: Seq<u8>,
    q: int,
    first: bool,
    open: Seq<bool>,
    frames: Seq<Frame>,
    o: Seq<char>,
    s: &ValueRender,
    p: &MsgpackParser,
    out: Seq<char>,
    r: Result<RenderAction, DecodeError>,
) -> bool {
    match key_result(d, q) {
        Err(e) => r == Err::<RenderAction, DecodeError>(e),
        Ok((kb, end)) => {
            &&& cont(r)
            &&& p.index() == end
            &&& p.frames() == frames
            &&& s.open() == open
            &&& out == o + map_entry_text(o, first, kb)
            &&& s.phase() == entry_phase(o)
            &&& s.first() == (first && byte_len(o) >= VALUE_REPR_LIMIT)
        },
    }
}

/// The step from a value at the cursor.
pub open spec fn value_post(
    top_level: bool,
    first: bool,
    open: Seq<bool>,
    d: Seq<u8>,
    i: int,
    fr: Seq<Frame>,
    o: Seq<char>,
    s: &ValueRender,
    p: &MsgpackParser,
    out: Seq<char>,
    r: Result<RenderAction, DecodeError>,
) -> bool {
    if over_budget(o, open.len() as int) {
        match value_end(d, i) {
            Ok(end) => cont(r) && scalar_done(first, open, fr, o, end, skip_mark(o), s, p, out),
            Err(e) => r == Err::<RenderAction, DecodeError>(e),
        }
    } else if i >= d.len() {
        r == Err::<RenderAction, DecodeError>(decode_err(DecodeErrorKind::UnexpectedEnd, i))
    } else {
        match kind_of_marker(d[i]) {
            Err(k) => r == Err::<RenderAction, DecodeError>(decode_err(k, i)),
            Ok(Kind::Null) => cont(r) && scalar_done(first, open, fr, o, i + 1, "None"@, s, p, out),
            Ok(Kind::Bool) => cont(r) && scalar_done(
                first,
                open,
                fr,
                o,
                i + 1,
                if d[i] == 0xc3 { "True"@ } else { "False"@ },
                s,
                p,
                out,
            ),
            Ok(Kind::Num) => match number_at(d, i) {
                Err(e) => r == Err::<RenderAction, DecodeError>(e),
                Ok((n, end)) => match n {
                    WireNumber::I64(v) => cont(r) && scalar_done(first, open, fr, o, end, decimal_chars(v as int), s, p, out),
                    WireNumber::U64(v) => cont(r) && scalar_done(first, open, fr, o, end, decimal_chars(v as int), s, p, out),
                    WireNumber::F32(b) => r == Ok::<RenderAction, DecodeError>(
                        RenderAction::NeedFloat { bits: b as u64, single: true },
                    ) && scalar_done(first, open, fr, o, end, Seq::empty(), s, p, out),
                    WireNumber::F64(b) => r == Ok::<RenderAction, DecodeError>(
                        RenderAction::NeedFloat { bits: b, single: false },
                    ) && scalar_done(first, open, fr, o, end, Seq::empty(), s, p, out),
                },
            },
            Ok(Kind::Str) => match str_at(d, i) {
                Err(e) => r == Err::<RenderAction, DecodeError>(e),
                Ok((b, end)) => cont(r) && scalar_done(first, open, fr, o, end, str_text(b, top_level), s, p, out),
            },
            Ok(Kind::Bytes) => match bin_at(d, i) {
                Err(e) => r == Err::<RenderAction, DecodeError>(e),
                Ok((b, end)) => cont(r) && scalar_done(first, open, fr, o, end, bin_text(b), s, p, out),
            },
            Ok(Kind::Array) => match container_header(d, i, false) {
                Err(e) => r == Err::<RenderAction, DecodeError>(e),
                Ok((len, q)) => if len == 0 {
                    cont(r) && scalar_done(first, open, fr, o, q, "[]"@, s, p, out)
                } else {
                    &&& cont(r)
                    &&& p.index() == q
                    &&& out == o + "["@
                    &&& p.frames() == fr.push(Frame { is_map: false, remaining: (len - 1) as u32 })
                    &&& s.phase() == Phase::Item
                    &&& s.open() == open.push(false)
                    &&& s.first()
                },
            },
            Ok(Kind::Mapping) => match container_header(d, i, true) {
                Err(e) => r == Err::<RenderAction, DecodeError>(e),
                Ok((len, q)) => if len == 0 {
                    cont(r) && scalar_done(first, open, fr, o, q, "{}"@, s, p, out)
                } else {
                    key_step(
                        d,
                        q,
                        true,
                        open.push(true),
                        fr.push(Frame { is_map: true, remaining: (len - 1) as u32 }),
                        o + "{"@,
                        s,
                        p,
                        out,
                        r,
                    )
                },
            },
        }
    }
}

/// The step from an element of the innermost array.
pub open spec fn item_post(
    first: bool,
    open: Seq<bool>,
    i: int,
    fr: Seq<Frame>,
    o: Seq<char>,
    s: &ValueRender,
    p: &MsgpackParser,
    out: Seq<char>,
    r: Result<RenderAction, DecodeError>,
) -> bool {
    &&& cont(r)
    &&& p.index() == i
    &&& p.frames() == fr
    &&& s.open() == open
    &&& out == o + entry_start(o, first)
    &&& s.phase() == entry_phase(o)
    &&& s.first() == (first && byte_len(o) >= VALUE_REPR_LIMIT)
}

/// How the innermost container goes on at `i`, after a value (`skipping`:
/// while its remaining entries are skipped).
pub open spec fn continue_post(
    skipping: bool,
    first: bool,
    open: Seq<bool>,
    d: Seq<u8>,
    i: int,
    fr: Seq<Frame>,
    o: Seq<char>,
    s: &ValueRender,
    p: &MsgpackParser,
    out: Seq<char>,
    r: Result<RenderAction, DecodeError>,
) -> bool {
    let top = fr.last();
    if top.remaining == 0 {
        &&& cont(r)
        &&& p.index() == i
        &&& p.frames() == fr.drop_last()
        &&& s.open() == open.drop_last()
        &&& out == o + (if top.is_map { "}"@ } else { "]"@ })
        &&& s.phase() == Phase::After
        &&& s.first() == first
    } else if !top.is_map {
        &&& cont(r)
        &&& p.index() == i
        &&& p.frames() == fr.drop_last().push(Frame { is_map: false, remaining: (top.remaining - 1) as u32 })
        &&& s.open() == open
        &&& out == o
        &&& s.phase() == (if skipping { Phase::SkipRest } else { Phase::Item })
        &&& s.first() == first
    } else if skipping {
        match key_result(d, i) {
            Err(e) => r == Err::<RenderAction, DecodeError>(e),
            Ok((kb, end)) => {
                &&& cont(r)
                &&& p.index() == end
                &&& p.frames() == fr.drop_last().push(Frame { is_map: true, remaining: (top.remaining - 1) as u32 })
                &&& s.open() == open
                &&& out == o
                &&& s.phase() == Phase::SkipRest
                &&& s.first() == first
            },
        }
    } else {
        key_step(
            d,
            i,
            first,
            open,
            fr.drop_last().push(Frame { is_map: true, remaining: (top.remaining - 1) as u32 }),
            o,
            s,
            p,
            out,
            r,
        )
    }
}

/// The step after a value.
pub open spec fn after_post(
    first: bool,
    open: Seq<bool>,
    d: Seq<u8>,
    i: int,
    fr: Seq<Frame>,
    o: Seq<char>,
    s: &ValueRender,
    p: &MsgpackParser,
    out: Seq<char>,
    r: Result<RenderAction, DecodeError>,
) -> bool {
    if open.len() == 0 {
        &&& r == Ok::<RenderAction, DecodeError>(RenderAction::Done)
        &&& out == o
        &&& p.index() == i
        &&& p.frames() == fr
        &&& s.phase() == Phase::Done
        &&& s.open() == open
        &&& s.first() == first
    } else {
        continue_post(false, first, open, d, i, fr, o, s, p, out, r)
    }
}

/// The step that skips an entry of a container the budget cut.
pub open spec fn skip_post(
    first: bool,
    open: Seq<bool>,
    d: Seq<u8>,
    i: int,
    fr: Seq<Frame>,
    o: Seq<char>,
    s: &ValueRender,
    p: &MsgpackParser,
    out: Seq<char>,
    r: Result<RenderAction, DecodeError>,
) -> bool {
    match value_end(d, i) {
        Err(e) => r == Err::<RenderAction, DecodeError>(e),
        Ok(end) => continue_post(true, first, open, d, end, fr, o, s, p, out, r),
    }
}

/// What one step does, from the phase it starts in.
pub open spec fn step_post(
    s0: &ValueRender,
    p0: &MsgpackParser,
    o: Seq<char>,
    s: &ValueRender,
    p: &MsgpackParser,
    out: Seq<char>,
    r: Result<RenderAction, DecodeError>,
) -> bool {
    let d = p0.data();
    let i = p0.index();
    let fr = p0.frames();
    match s0.phase() {
        Phase::Done => r == Ok::<RenderAction, DecodeError>(RenderAction::Done) && out == o && p.index() == i
            && p.frames() == fr && s.phase() == Phase::Done && s.open() == s0.open() && s.first() == s0.first(),
        Phase::Value { top_level } => value_post(top_level, s0.first(), s0.open(), d, i, fr, o, s, p, out, r),
        Phase::Item => item_post(s0.first(), s0.open(), i, fr, o, s, p, out, r),
        Phase::After => after_post(s0.first(), s0.open(), d, i, fr, o, s, p, out, r),
        Phase::SkipRest => skip_post(s0.first(), s0.open(), d, i, fr, o, s, p, out, r),
    }
}

/// What an open container still holds, counted as values: an array its
/// remaining elements, a map the keys and values of its remaining entries.
pub open spec fn frame_values(f: Frame) -> int {
    if f.is_map {
        2 * f.remaining
    } else {
        f.remaining as int
    }
}

/// The values still held by the innermost `n` of `frames`.
pub open spec fn held_values(frames: Seq<Frame>, n: int) -> int
    decreases n,
{
    if n <= 0 || frames.len() == 0 {
        0
    } else {
        frame_values(frames.last()) + held_values(frames.drop_last(), n - 1)
    }
}

/// The values the walk has still to consume: the one at the cursor, unless
/// a value has just ended, and those its containers still hold.
pub open spec fn pending_values(phase: Phase, frames: Seq<Frame>, n: int) -> int {
    (if phase is After || phase is Done { 0int } else { 1int }) + held_values(frames, n)
}

proof fn lemma_held_nonneg(frames: Seq<Frame>, n: int)
    ensures
        held_values(frames, n) >= 0,
    decreases n,
{
    if n > 0 && frames.len() > 0 {
        lemma_held_nonneg(frames.drop_last(), n - 1);
    }
}

/// Changing the innermost frame changes only its own count.
proof fn lemma_held_top(frames: Seq<Frame>, f: Frame, n: int)
    requires
        n >= 1,
        frames.len() >= 1,
    ensures
        held_values(frames.drop_last().push(f), n) == frame_values(f) + held_values(frames.drop_last(), n - 1),
        held_values(frames, n) == frame_values(frames.last()) + held_values(frames.drop_last(), n - 1),
        held_values(frames.push(f), n + 1) == frame_values(f) + held_values(frames, n),
{
    assert(frames.drop_last().push(f).drop_last() =~= frames.drop_last());
    assert(frames.push(f).drop_last() =~= frames);
}

/// One value less to skip, after stepping over the header at `p`.
proof fn lemma_unfold(d: Seq<u8>, p: int, n: int, e: int)
    requires
        n >= 1,
        skip_values(d, p, n) == Ok::<int, DecodeError>(e),
    ensures
        skip_step(d, p) matches Ok((q, c)) && skip_values(d, q, n - 1 + c) == Ok::<int, DecodeError>(e),
{
    lemma_skip_step_advances(d, p);
}

/// Skipping `a + b` values is skipping `a` values, then `b`.
proof fn lemma_split(d: Seq<u8>, p: int, a: int, b: int, e: int)
    requires
        a >= 0,
        b >= 0,
        skip_values(d, p, a + b) == Ok::<int, DecodeError>(e),
    ensures
        skip_values(d, p, a) matches Ok(x) ==> skip_values(d, x, b) == Ok::<int, DecodeError>(e),
    decreases d.len() - p,
{
    if a > 0 {
        lemma_skip_step_advances(d, p);
        if let Ok((q, c)) = skip_step(d, p) {
            assert(a + b - 1 + c <= usize::MAX);
            assert(p < q <= d.len());
            assert(skip_values(d, p, a) == skip_values(d, q, a - 1 + c));
            assert(skip_values(d, p, a + b) == skip_values(d, q, (a - 1 + c) + b));
            lemma_split(d, q, a - 1 + c, b, e);
        }
    }
}

/// A number's reader and the skipper agree on where it ends.
proof fn lemma_number_step(d: Seq<u8>, p: int)
    requires
        0 <= p < d.len(),
        d.len() < usize::MAX,
        kind_of_marker(d[p]) == Ok::<Kind, DecodeErrorKind>(Kind::Num),
    ensures
        number_at(d, p) matches Ok((n, end)) ==> skip_step(d, p) == Ok::<(int, int), DecodeError>((end, 0)),
{
}

proof fn lemma_str_step(d: Seq<u8>, p: int)
    requires
        0 <= p < d.len(),
        kind_of_marker(d[p]) == Ok::<Kind, DecodeErrorKind>(Kind::Str),
    ensures
        str_at(d, p) matches Ok((b, end)) ==> skip_step(d, p) == Ok::<(int, int), DecodeError>((end, 0)),
{
}

proof fn lemma_bin_step(d: Seq<u8>, p: int)
    requires
        0 <= p < d.len(),
        kind_of_marker(d[p]) == Ok::<Kind, DecodeErrorKind>(Kind::Bytes),
    ensures
        bin_at(d, p) matches Ok((b, end)) ==> skip_step(d, p) == Ok::<(int, int), DecodeError>((end, 0)),
{
}

proof fn lemma_array_step(d: Seq<u8>, p: int)
    requires
        0 <= p < d.len(),
        kind_of_marker(d[p]) == Ok::<Kind, DecodeErrorKind>(Kind::Array),
    ensures
        container_header(d, p, false) matches Ok((len, q)) ==> skip_step(d, p) == Ok::<(int, int), DecodeError>((q, len)),
{
}

proof fn lemma_map_step(d: Seq<u8>, p: int)
    requires
        0 <= p < d.len(),
        kind_of_marker(d[p]) == Ok::<Kind, DecodeErrorKind>(Kind::Mapping),
    ensures
        container_header(d, p, true) matches Ok((len, q)) ==> (skip_step(d, p) == Ok::<(int, int), DecodeError>((q, 2 * len))
            || skip_step(d, p) is Err),
{
}

/// A value that holds nothing nested ends where the skipper says.
proof fn lemma_leaf(d: Seq<u8>, i: int, h: int, e: int, end: int)
    requires
        h >= 0,
        skip_values(d, i, 1 + h) == Ok::<int, DecodeError>(e),
        skip_step(d, i) == Ok::<(int, int), DecodeError>((end, 0)),
    ensures
        skip_values(d, end, h) == Ok::<int, DecodeError>(e),
{
    lemma_unfold(d, i, 1 + h, e);
}

proof fn lemma_held_push(frames: Seq<Frame>, f: Frame, n: int)
    requires
        n >= 0,
    ensures
        held_values(frames.push(f), n + 1) == frame_values(f) + held_values(frames, n),
{
    assert(frames.push(f).drop_last() =~= frames);
}

proof fn lemma_below_push(frames: Seq<Frame>, f: Frame, base: int)
    requires
        0 <= base <= frames.len(),
    ensures
        frames.push(f).subrange(0, base) == frames.subrange(0, base),
{
    assert(frames.push(f).subrange(0, base) =~= frames.subrange(0, base));
}

proof fn lemma_below_top(frames: Seq<Frame>, f: Frame, base: int)
    requires
        0 <= base < frames.len(),
    ensures
        frames.drop_last().push(f).subrange(0, base) == frames.subrange(0, base),
        frames.drop_last().subrange(0, base) == frames.subrange(0, base),
{
    assert(frames.drop_last().push(f).subrange(0, base) =~= frames.subrange(0, base));
    assert(frames.drop_last().subrange(0, base) =~= frames.subrange(0, base));
}

impl ValueRender {
    fn step_value(&mut self, p: &mut MsgpackParser, out: &mut String, top_level: bool) -> (r: Result<RenderAction, DecodeError>)
        requires
            old(self).wf(old(p)),
            old(self).phase() == (Phase::Value { top_level }),
        ensures
            final(p).data() == old(p).data(),
            final(self).start() == old(self).start(),
            final(self).below() == old(self).below(),
            r is Ok ==> final(self).wf(final(p)),
            value_post(top_level, old(self).first(), old(self).open(), old(p).data(), old(p).index(), old(p).frames(), old(out)@, final(self), final(p), final(out)@, r),
    {
        if out.as_str().as_bytes().len() >= VALUE_REPR_LIMIT || self.open.len() >= RENDER_MAX_DEPTH {
            return self.value_skip(p, out);
        }
        let kind = p.peek()?;
        match kind {
            Kind::Array => self.value_array(p, out),
            Kind::Mapping => self.value_map(p, out),
            _ => self.value_scalar(p, out, top_level, kind),
        }
    }

    fn value_skip(&mut self, p: &mut MsgpackParser, out: &mut String) -> (r: Result<RenderAction, DecodeError>)
        requires
            old(self).wf(old(p)),
            old(self).phase() is Value,
            over_budget(old(out)@, old(self).open().len() as int),
        ensures
            final(p).data() == old(p).data(),
            final(self).start() == old(self).start(),
            final(self).below() == old(self).below(),
            r is Ok ==> final(self).wf(final(p)),
            match value_end(old(p).data(), old(p).index()) {
                Ok(end) => cont(r) && scalar_done(old(self).first(), old(self).open(), old(p).frames(), old(out)@, end, skip_mark(old(out)@), final(self), final(p), final(out)@),
                Err(e) => r == Err::<RenderAction, DecodeError>(e),
            },
    {
        let ghost o = out@;
        let ghost d = p.data();
        let ghost i = p.index();
        let ghost h = held_values(p.frames(), self.open@.len() as int);
        proof {
            lemma_held_nonneg(p.frames(), self.open@.len() as int);
        }
        p.skip_value()?;
        if !ends_with_mark(out) {
            string_push(out, '…');
        }
        self.phase = Phase::After;
        proof {
            assert(out@ =~= o + skip_mark(o));
            if let Ok(e) = value_end(d, self.start()) {
                lemma_split(d, i, 1, h, e);
            }
        }
        Ok(RenderAction::Continue)
    }

    fn value_scalar(&mut self, p: &mut MsgpackParser, out: &mut String, top_level: bool, kind: Kind) -> (r: Result<RenderAction, DecodeError>)
        requires
            old(self).wf(old(p)),
            old(self).phase() == (Phase::Value { top_level }),
            !over_budget(old(out)@, old(self).open().len() as int),
            old(p).peeked(),
            kind_of_marker(old(p).data()[old(p).index()]) == Ok::<Kind, DecodeErrorKind>(kind),
            !(kind is Array),
            !(kind is Mapping),
        ensures
            final(p).data() == old(p).data(),
            final(self).start() == old(self).start(),
            final(self).below() == old(self).below(),
            r is Ok ==> final(self).wf(final(p)),
            value_post(top_level, old(self).first(), old(self).open(), old(p).data(), old(p).index(), old(p).frames(), old(out)@, final(self), final(p), final(out)@, r),
    {
        let ghost o = out@;
        let ghost d = p.data();
        let ghost i = p.index();
        let ghost h = held_values(p.frames(), self.open@.len() as int);
        let ghost st = self.start();
        let ghost m = d[i];
        proof {
            lemma_held_nonneg(p.frames(), self.open@.len() as int);
        }
        match kind {
            Kind::Null => {
                p.take_null_known()?;
                out.append("None");
            },
            Kind::Bool => {
                let b = p.take_bool_known()?;
                if b {
                    out.append("True");
                } else {
                    out.append("False");
                }
            },
            Kind::Num => {
                let v = p.read_number()?;
                self.phase = Phase::After;
                proof {
                    lemma_number_step(d, i);
                    if let Ok(e) = value_end(d, st) {
                        lemma_leaf(d, i, h, e, p.index());
                    }
                }
                match v {
                    WireNumber::I64(v) => {
                        let t = format_i64(v);
                        out.append(t.as_str());
                    },
                    WireNumber::U64(v) => {
                        let t = format_u64(v);
                        out.append(t.as_str());
                    },
                    WireNumber::F32(b) => {
                        assert(out@ =~= o + Seq::<char>::empty());
                        return Ok(RenderAction::NeedFloat { bits: b as u64, single: true });
                    },
                    WireNumber::F64(b) => {
                        assert(out@ =~= o + Seq::<char>::empty());
                        return Ok(RenderAction::NeedFloat { bits: b, single: false });
                    },
                }
                return Ok(RenderAction::Continue);
            },
            Kind::Str => {
                let v = p.take_str_known()?;
                push_str_text(out, v, top_level);
                proof {
                    lemma_str_step(d, i);
                }
            },
            _ => {
                let v = p.take_bytes_known()?;
                push_bin_text(out, v);
                proof {
                    lemma_bin_step(d, i);
                }
            },
        }
        self.phase = Phase::After;
        proof {
            if let Ok(e) = value_end(d, st) {
                if m == 0xc0 || m == 0xc2 || m == 0xc3 {
                    assert(skip_step(d, i) == Ok::<(int, int), DecodeError>((i + 1, 0)));
                }
                lemma_leaf(d, i, h, e, p.index());
            }
        }
        Ok(RenderAction::Continue)
    }

    #[verifier::spinoff_prover]
    #[verifier::rlimit(60)]
    fn value_array(&mut self, p: &mut MsgpackParser, out: &mut String) -> (r: Result<RenderAction, DecodeError>)
        requires
            old(self).wf(old(p)),
            old(self).phase() is Value,
            !over_budget(old(out)@, old(self).open().len() as int),
            old(p).peeked(),
            kind_of_marker(old(p).data()[old(p).index()]) == Ok::<Kind, DecodeErrorKind>(Kind::Array),
        ensures
            final(p).data() == old(p).data(),
            final(self).start() == old(self).start(),
            final(self).below() == old(self).below(),
            r is Ok ==> final(self).wf(final(p)),
            value_post(old(self).phase()->top_level, old(self).first(), old(self).open(), old(p).data(), old(p).index(), old(p).frames(), old(out)@, final(self), final(p), final(out)@, r),
    {
        let ghost o = out@;
        let ghost fr = p.frames();
        let ghost d = p.data();
        let ghost i = p.index();
        let ghost n = self.open@.len() as int;
        let ghost h = held_values(fr, n);
        let ghost st = self.start();
        proof {
            lemma_held_nonneg(fr, n);
            reveal_strlit("[");
            reveal_strlit("]");
            reveal_strlit("[]");
        }
        out.append("[");
        let more = p.enter_array_known()?;
        proof {
            lemma_array_step(d, i);
            if let Ok(e) = value_end(d, st) {
                lemma_unfold(d, i, 1 + h, e);
            }
        }
        if more {
            self.open.push(false);
            self.first = true;
            self.phase = Phase::Item;
            proof {
                let n1 = self.open@.len();
                assert forall|k: int| 0 <= k < n1 implies #[trigger] self.open@[k] == p.frames()[p.frames().len() - n1 + k].is_map by {
                    if k < n1 - 1 {
                        assert(self.open@[k] == old(self).open()[k]);
                        assert(p.frames()[p.frames().len() - n1 + k] == fr[fr.len() - (n1 - 1) + k]);
                    }
                }
                let f = p.frames().last();
                assert(p.frames() == fr.push(f));
                lemma_below_push(fr, f, fr.len() - n);
                lemma_held_push(fr, f, n);
            }
            return Ok(RenderAction::Continue);
        }
        out.append("]");
        self.phase = Phase::After;
        assert(out@ =~= o + "[]"@);
        Ok(RenderAction::Continue)
    }

    #[verifier::spinoff_prover]
    #[verifier::rlimit(60)]
    fn value_map(&mut self, p: &mut MsgpackParser, out: &mut String) -> (r: Result<RenderAction, DecodeError>)
        requires
            old(self).wf(old(p)),
            old(self).phase() is Value,
            !over_budget(old(out)@, old(self).open().len() as int),
            old(p).peeked(),
            kind_of_marker(old(p).data()[old(p).index()]) == Ok::<Kind, DecodeErrorKind>(Kind::Mapping),
        ensures
            final(p).data() == old(p).data(),
            final(self).start() == old(self).start(),
            final(self).below() == old(self).below(),
            r is Ok ==> final(self).wf(final(p)),
            value_post(old(self).phase()->top_level, old(self).first(), old(self).open(), old(p).data(), old(p).index(), old(p).frames(), old(out)@, final(self), final(p), final(out)@, r),
    {
        let ghost o = out@;
        let ghost fr = p.frames();
        let ghost d = p.data();
        let ghost i = p.index();
        let ghost n = self.open@.len() as int;
        let ghost h = held_values(fr, n);
        let ghost st = self.start();
        proof {
            lemma_held_nonneg(fr, n);
            lemma_map_step(d, i);
            reveal_strlit("{");
            reveal_strlit("}");
            reveal_strlit("{}");
        }
        out.append("{");
        match p.enter_map_known()? {
            Some(k) => {
                self.open.push(true);
                self.first = true;
                self.map_entry(out, k);
                proof {
                    let n1 = self.open@.len();
                    assert forall|j: int| 0 <= j < n1 implies #[trigger] self.open@[j] == p.frames()[p.frames().len() - n1 + j].is_map by {
                        if j < n1 - 1 {
                            assert(self.open@[j] == old(self).open()[j]);
                            assert(p.frames()[p.frames().len() - n1 + j] == fr[fr.len() - (n1 - 1) + j]);
                        }
                    }
                    let f = p.frames().last();
                    assert(p.frames() == fr.push(f));
                    lemma_below_push(fr, f, fr.len() - n);
                    lemma_held_push(fr, f, n);
                    let (len, q) = container_header(d, i, true)->Ok_0;
                    lemma_str_step(d, q);
                    if let Ok(e) = value_end(d, st) {
                        lemma_unfold(d, i, 1 + h, e);
                        lemma_unfold(d, q, h + 2 * len, e);
                    }
                }
                Ok(RenderAction::Continue)
            },
            None => {
                out.append("}");
                self.phase = Phase::After;
                proof {
                    assert(out@ =~= o + "{}"@);
                    if let Ok(e) = value_end(d, st) {
                        lemma_unfold(d, i, 1 + h, e);
                    }
                }
                Ok(RenderAction::Continue)
            },
        }
    }

    /// The innermost container, an array, goes on at the cursor.
    #[verifier::spinoff_prover]
    #[verifier::rlimit(40)]
    fn next_in_array(&mut self, p: &mut MsgpackParser, out: &mut String, skipping: bool) -> (r: Result<RenderAction, DecodeError>)
        requires
            old(self).wf_frames(old(p)),
            old(self).open().len() > 0,
            !old(p).frames().last().is_map,
            old(self).consumes(old(p), held_values(old(p).frames(), old(self).open().len() as int)),
        ensures
            final(p).data() == old(p).data(),
            final(self).start() == old(self).start(),
            final(self).below() == old(self).below(),
            r is Ok ==> final(self).wf(final(p)),
            continue_post(skipping, old(self).first(), old(self).open(), old(p).data(), old(p).index(), old(p).frames(), old(out)@, final(self), final(p), final(out)@, r),
    {
        let ghost fr = p.frames();
        let n = self.open.len();
        let ghost base = fr.len() - n;
        proof {
            lemma_held_nonneg(fr.drop_last(), n - 1);
        }
        if p.next_array_item()? {
            self.phase = if skipping { Phase::SkipRest } else { Phase::Item };
            proof {
                let f = p.frames().last();
                assert(p.frames() == fr.drop_last().push(f));
                lemma_held_top(fr, f, n as int);
                lemma_below_top(fr, f, base);
            }
        } else {
            self.open.pop();
            out.append("]");
            self.phase = Phase::After;
            proof {
                lemma_held_top(fr, fr.last(), n as int);
                lemma_below_top(fr, fr.last(), base);
            }
        }
        proof {
            let m = self.open@.len();
            assert forall|j: int| 0 <= j < m implies #[trigger] self.open@[j] == p.frames()[p.frames().len() - m + j].is_map by {
                assert(self.open@[j] == old(self).open()[j]);
                assert(p.frames()[p.frames().len() - m + j].is_map == fr[fr.len() - n + j].is_map);
            }
        }
        Ok(RenderAction::Continue)
    }

    /// The innermost container, a map, goes on at the cursor.
    #[verifier::spinoff_prover]
    #[verifier::rlimit(80)]
    fn next_in_map(&mut self, p: &mut MsgpackParser, out: &mut String, skipping: bool) -> (r: Result<RenderAction, DecodeError>)
        requires
            old(self).wf_frames(old(p)),
            old(self).open().len() > 0,
            old(p).frames().last().is_map,
            old(self).consumes(old(p), held_values(old(p).frames(), old(self).open().len() as int)),
        ensures
            final(p).data() == old(p).data(),
            final(self).start() == old(self).start(),
            final(self).below() == old(self).below(),
            r is Ok ==> final(self).wf(final(p)),
            continue_post(skipping, old(self).first(), old(self).open(), old(p).data(), old(p).index(), old(p).frames(), old(out)@, final(self), final(p), final(out)@, r),
    {
        let ghost fr = p.frames();
        let ghost d = p.data();
        let ghost i = p.index();
        let ghost st = self.start();
        let n = self.open.len();
        let ghost base = fr.len() - n;
        proof {
            lemma_held_nonneg(fr.drop_last(), n - 1);
        }
        match p.next_key()? {
            Some(k) => {
                if skipping {
                    self.phase = Phase::SkipRest;
                } else {
                    self.map_entry(out, k);
                }
                proof {
                    let f = p.frames().last();
                    assert(p.frames() == fr.drop_last().push(f));
                    lemma_held_top(fr, f, n as int);
                    lemma_below_top(fr, f, base);
                    lemma_str_step(d, i);
                    if let Ok(e) = value_end(d, st) {
                        lemma_unfold(d, i, held_values(fr, n as int), e);
                    }
                }
            },
            None => {
                self.open.pop();
                out.append("}");
                self.phase = Phase::After;
                proof {
                    lemma_held_top(fr, fr.last(), n as int);
                    lemma_below_top(fr, fr.last(), base);
                }
            },
        }
        proof {
            let m = self.open@.len();
            assert forall|j: int| 0 <= j < m implies #[trigger] self.open@[j] == p.frames()[p.frames().len() - m + j].is_map by {
                assert(self.open@[j] == old(self).open()[j]);
                assert(p.frames()[p.frames().len() - m + j].is_map == fr[fr.len() - n + j].is_map);
            }
        }
        Ok(RenderAction::Continue)
    }

    /// The innermost container goes on at the cursor, all of whose own
    /// values have been consumed.
    fn step_next(&mut self, p: &mut MsgpackParser, out: &mut String, skipping: bool) -> (r: Result<RenderAction, DecodeError>)
        requires
            old(self).wf_frames(old(p)),
            old(self).open().len() > 0,
            old(self).consumes(old(p), held_values(old(p).frames(), old(self).open().len() as int)),
        ensures
            final(p).data() == old(p).data(),
            final(self).start() == old(self).start(),
            final(self).below() == old(self).below(),
            r is Ok ==> final(self).wf(final(p)),
            continue_post(skipping, old(self).first(), old(self).open(), old(p).data(), old(p).index(), old(p).frames(), old(out)@, final(self), final(p), final(out)@, r),
    {
        let ghost fr = p.frames();
        let n = self.open.len();
        let is_map = self.open[n - 1];
        proof {
            assert(self.open@[n - 1] == fr[fr.len() - n + (n - 1)].is_map);
        }
        if is_map {
            self.next_in_map(p, out, skipping)
        } else {
            self.next_in_array(p, out, skipping)
        }
    }

    fn step_after(&mut self, p: &mut MsgpackParser, out: &mut String) -> (r: Result<RenderAction, DecodeError>)
        requires
            old(self).wf(old(p)),
            old(self).phase() == Phase::After,
        ensures
            final(p).data() == old(p).data(),
            final(self).start() == old(self).start(),
            final(self).below() == old(self).below(),
            r is Ok ==> final(self).wf(final(p)),
            after_post(old(self).first(), old(self).open(), old(p).data(), old(p).index(), old(p).frames(), old(out)@, final(self), final(p), final(out)@, r),
    {
        if self.open.len() == 0 {
            self.phase = Phase::Done;
            return Ok(RenderAction::Done);
        }
        self.step_next(p, out, false)
    }

    fn step_skip(&mut self, p: &mut MsgpackParser, out: &mut String) -> (r: Result<RenderAction, DecodeError>)
        requires
            old(self).wf(old(p)),
            old(self).phase() == Phase::SkipRest,
        ensures
            final(p).data() == old(p).data(),
            final(self).start() == old(self).start(),
            final(self).below() == old(self).below(),
            r is Ok ==> final(self).wf(final(p)),
            skip_post(old(self).first(), old(self).open(), old(p).data(), old(p).index(), old(p).frames(), old(out)@, final(self), final(p), final(out)@, r),
    {
        let ghost d = p.data();
        let ghost i = p.index();
        let ghost h = held_values(p.frames(), self.open@.len() as int);
        proof {
            lemma_held_nonneg(p.frames(), self.open@.len() as int);
        }
        p.skip_value()?;
        proof {
            if let Ok(e) = value_end(d, self.start()) {
                lemma_split(d, i, 1, h, e);
            }
        }
        self.step_next(p, out, true)
    }
}

impl ValueRender {
    /// One step of the rendering: exactly what [`step_post`] states. When a
    /// step answers `Done`, the walk has consumed the value exactly (the
    /// cursor is where skipping it would end) and the reader's containers
    /// are as the walk found them. After an error nothing more is stated.
    pub fn step(&mut self, p: &mut MsgpackParser, out: &mut String) -> (r: Result<RenderAction, DecodeError>)
        requires
            old(self).wf(old(p)),
        ensures
            final(p).data() == old(p).data(),
            final(self).start() == old(self).start(),
            final(self).below() == old(self).below(),
            r is Ok ==> final(self).wf(final(p)),
            step_post(old(self), old(p), old(out)@, final(self), final(p), final(out)@, r),
            r == Ok::<RenderAction, DecodeError>(RenderAction::Done) ==> {
                &&& final(p).frames() == old(self).below()
                &&& value_end(old(p).data(), old(self).start()) matches Ok(e) ==> final(p).index() == e
            },
    {
        let r = match self.phase {
            Phase::Done => Ok(RenderAction::Done),
            Phase::Value { top_level } => self.step_value(p, out, top_level),
            Phase::Item => {
                let ghost o = out@;
                if out.as_str().as_bytes().len() >= VALUE_REPR_LIMIT {
                    string_push(out, '…');
                    self.phase = Phase::SkipRest;
                    assert(out@ =~= o + ellipsis());
                } else {
                    proof {
                        reveal_strlit(", ");
                    }
                    if !self.first {
                        out.append(", ");
                    }
                    assert(out@ =~= o + entry_start(o, old(self).first()));
                    self.first = false;
                    self.phase = Phase::Value { top_level: false };
                }
                Ok(RenderAction::Continue)
            },
            Phase::After => self.step_after(p, out),
            Phase::SkipRest => self.step_skip(p, out),
        };
        proof {
            if r == Ok::<RenderAction, DecodeError>(RenderAction::Done) {
                assert(self.phase() is Done);
                assert(p.frames().subrange(0, p.frames().len() as int) =~= p.frames());
            }
        }
        r
    }
}

/// The order of the phases within one position of the cursor: a step that
/// does not move the cursor or close a container goes down this order.
pub open spec fn phase_rank(phase: Phase) -> int {
    match phase {
        Phase::After => 3,
        Phase::Item => 2,
        Phase::Value { .. } => 1,
        Phase::SkipRest => 1,
        Phase::Done => 0,
    }
}

/// `(a1, b1, c1)` comes before `(a0, b0, c0)` in the lexicographic order.
pub open spec fn lex_before(a1: int, b1: int, c1: int, a0: int, b0: int, c0: int) -> bool {
    a1 < a0 || (a1 == a0 && (b1 < b0 || (b1 == b0 && c1 < c0)))
}

pub(crate) proof fn lemma_value_end_advances(d: Seq<u8>, i: int)
    requires
        0 <= i <= d.len(),
    ensures
        value_end(d, i) matches Ok(end) ==> i < end <= d.len(),
{
    lemma_skip_step_advances(d, i);
    if let Ok((q, c)) = skip_step(d, i) {
        if c <= usize::MAX && i < q <= d.len() {
            lemma_skip_values_bounds(d, q, c);
        }
    }
}

/// A step that answers `Continue` moves the walk forward: the cursor
/// advances, or a container closes, or the phase goes down its order.
proof fn lemma_step_progress(
    s0: &ValueRender,
    p0: &MsgpackParser,
    o: Seq<char>,
    s1: &ValueRender,
    p1: &MsgpackParser,
    out: Seq<char>,
)
    requires
        s0.wf(p0),
        step_post(s0, p0, o, s1, p1, out, Ok::<RenderAction, DecodeError>(RenderAction::Continue)),
        p1.data() == p0.data(),
        p1.wf(),
    ensures
        lex_before(
            p1.data().len() - p1.index(),
            s1.open().len() as int,
            phase_rank(s1.phase()),
            p0.data().len() - p0.index(),
            s0.open().len() as int,
            phase_rank(s0.phase()),
        ),
{
    let d = p0.data();
    let i = p0.index();
    lemma_value_end_advances(d, i);
}

/// One step of the walk that goes on: the reader's bytes stay, and the step
/// answered `Continue`.
pub open spec fn moves<'a>(s0: ValueRender, p0: MsgpackParser<'a>, o0: Seq<char>, s: ValueRender, p: MsgpackParser<'a>, o: Seq<char>) -> bool {
    &&& p.data() == p0.data()
    &&& step_post(&s0, &p0, o0, &s, &p, o, Ok::<RenderAction, DecodeError>(RenderAction::Continue))
}

/// A state of the walk: the rendering, the reader and the text so far.
pub type WalkState<'a> = (ValueRender, MsgpackParser<'a>, Seq<char>);

/// Each state of `t` is one step that goes on from the one before.
pub open spec fn chain<'a>(t: Seq<WalkState<'a>>) -> bool {
    forall|i: int| 0 <= i < t.len() - 1 ==> #[trigger] moves(t[i].0, t[i].1, t[i].2, t[i + 1].0, t[i + 1].1, t[i + 1].2)
}

/// The whole walk of `run`: from the state it starts in, steps that go on,
/// then the step that answers `r`, which is not `Continue`; the text, the
/// cursor, the reader's containers and the state are where those steps
/// leave them.
pub open spec fn walk_post<'a>(
    s0: ValueRender,
    p0: MsgpackParser<'a>,
    o0: Seq<char>,
    s: ValueRender,
    p: MsgpackParser<'a>,
    o: Seq<char>,
    r: Result<RenderAction, DecodeError>,
) -> bool {
    exists|t: Seq<WalkState<'a>>| #[trigger] chain(t) && t.len() > 0 && t[0] == (s0, p0, o0) && {
        let m = t.last();
        &&& p.data() == m.1.data()
        &&& step_post(&m.0, &m.1, m.2, &s, &p, o, r)
        &&& !cont(r)
    }
}

impl ValueRender {
    /// Steps until a float's text is needed or the value is rendered. The
    /// text, the cursor and the answer are exactly those of the steps taken
    /// (`walk_post`): each step's text and separator are fixed by
    /// `step_post`. After `NeedFloat`, the caller appends the float's text
    /// and runs again; at `Done` the cursor is where skipping the value
    /// would end and the reader's containers are as the walk found them.
    pub fn run(&mut self, p: &mut MsgpackParser, out: &mut String) -> (r: Result<RenderAction, DecodeError>)
        requires
            old(self).wf(old(p)),
        ensures
            final(p).data() == old(p).data(),
            final(self).start() == old(self).start(),
            final(self).below() == old(self).below(),
            r is Ok ==> final(self).wf(final(p)),
            r != Ok::<RenderAction, DecodeError>(RenderAction::Continue),
            walk_post(*old(self), *old(p), old(out)@, *final(self), *final(p), final(out)@, r),
            r == Ok::<RenderAction, DecodeError>(RenderAction::Done) ==> {
                &&& final(p).frames() == old(self).below()
                &&& value_end(old(p).data(), old(self).start()) matches Ok(e) ==> final(p).index() == e
            },
    {
        let ghost t: Seq<WalkState<'_>> = seq![(*self, *p, out@)];
        loop
            invariant
                self.wf(p),
                p.data() == old(p).data(),
                self.start() == old(self).start(),
                self.below() == old(self).below(),
                chain(t),
                t.len() > 0,
                t[0] == (*old(self), *old(p), old(out)@),
                t.last() == (*self, *p, out@),
            decreases p.data().len() - p.index(), self.open().len(), phase_rank(self.phase()),
        {
            let ghost s0 = *self;
            let ghost p0 = *p;
            let ghost o = out@;
            let r = self.step(p, out);
            match r {
                Ok(RenderAction::Continue) => {
                    proof {
                        lemma_step_progress(&s0, &p0, o, self, p, out@);
                        let t1 = t.push((*self, *p, out@));
                        assert forall|i: int| 0 <= i < t1.len() - 1 implies #[trigger] moves(
                            t1[i].0,
                            t1[i].1,
                            t1[i].2,
                            t1[i + 1].0,
                            t1[i + 1].1,
                            t1[i + 1].2,
                        ) by {
                            if i < t.len() - 1 {
                                assert(t1[i] == t[i] && t1[i + 1] == t[i + 1]);
                            }
                        }
                        t = t1;
                    }
                },
                _ => {
                    assert(chain(t));
                    return r;
                },
            }
        }
    }
}

} // verus!
