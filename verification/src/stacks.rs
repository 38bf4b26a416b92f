//! The small inline stacks the MessagePack reader and writer keep their open
//! containers in, and the byte buffer that string unescaping fills. All three
//! are `smallvec::SmallVec`s; each is held in a struct of its own whose
//! contents are named by a spec function, and every method below is a single
//! call into `smallvec`.
use smallvec::SmallVec;
use vstd::prelude::*;

verus! {

/// Largest number of frames a stack may hold before a `push`. `SmallVec`
/// grows to the next power of two and panics ("capacity overflow") once that
/// allocation size no longer fits `isize`; below this bound it never does.
pub const STACK_LIMIT: usize = 0x100_0000;

/// Largest length a byte buffer may reach. `SmallVec::reserve` rounds the
/// requested length up to a power of two and panics when that overflows the
/// allocation size (`isize::MAX` bytes); at a quarter of the address range
/// the rounded length still fits, on every pointer width.
pub const BYTE_BUF_LIMIT: usize = usize::MAX / 4 + 1;

/// One open container of the MessagePack reader: its kind and how many
/// entries (array elements, or map pairs) are still to come after the
/// current one.
#[derive(Debug, Clone, Copy, PartialEq, Eq, Structural)]
pub struct Frame {
    pub is_map: bool,
    pub remaining: u32,
}

/// One open container of the MessagePack writer.
#[derive(Debug, Clone, Copy, PartialEq, Eq, Structural)]
pub struct Container {
    pub is_map: bool,
    /// `Some(pos)`: a 32-bit header was reserved at `pos` and is patched with
    /// the item count on close; `None`: the exact header is already written.
    pub backpatch: Option<usize>,
    /// The length announced by an exact header.
    pub declared: u32,
    /// Items completed so far.
    pub items: u32,
}

/// Stack of open containers of the reader (`SmallVec<[Frame; 8]>`).
#[verifier::external_body]
pub struct FrameStack {
    inner: SmallVec<[Frame; 8]>,
}

/// Stack of open containers of the writer (`SmallVec<[Container; 8]>`).
#[verifier::external_body]
pub struct ContainerStack {
    inner: SmallVec<[Container; 8]>,
}

/// Scratch buffer for unescaped string bytes (`SmallVec<[u8; 64]>`).
#[verifier::external_body]
pub struct ByteBuf {
    inner: SmallVec<[u8; 64]>,
}

/// The frames a `FrameStack` holds, bottom first.
pub uninterp spec fn frames_of(s: FrameStack) -> Seq<Frame>;

/// The containers a `ContainerStack` holds, bottom first.
pub uninterp spec fn containers_of(s: ContainerStack) -> Seq<Container>;

/// The bytes a `ByteBuf` holds.
pub uninterp spec fn bytes_of(b: ByteBuf) -> Seq<u8>;

impl FrameStack {
    /// `SmallVec::new`: an empty stack.
    #[verifier::external_body]
    pub(crate) fn new() -> (r: FrameStack)
        ensures
            frames_of(r) == Seq::<Frame>::empty(),
    {
        FrameStack { inner: SmallVec::new() }
    }

    /// `SmallVec::len`.
    #[verifier::external_body]
    pub(crate) fn len(&self) -> (r: usize)
        ensures
            r == frames_of(*self).len(),
    {
        self.inner.len()
    }

    /// `SmallVec::push`: appends `f` on top.
    #[verifier::external_body]
    pub(crate) fn push(&mut self, f: Frame)
        requires
            frames_of(*old(self)).len() < STACK_LIMIT,
        ensures
            frames_of(*final(self)) == frames_of(*old(self)).push(f),
    {
        self.inner.push(f)
    }

    /// `SmallVec::pop`: removes and returns the top frame, `None` when empty.
    #[verifier::external_body]
    pub(crate) fn pop(&mut self) -> (r: Option<Frame>)
        ensures
            frames_of(*old(self)).len() == 0 ==> r.is_none() && frames_of(*final(self))
                == frames_of(*old(self)),
            frames_of(*old(self)).len() > 0 ==> r == Some(frames_of(*old(self)).last())
                && frames_of(*final(self)) == frames_of(*old(self)).drop_last(),
    {
        self.inner.pop()
    }

    /// `<[Frame]>::last` through `Deref`, copied out.
    #[verifier::external_body]
    pub(crate) fn last(&self) -> (r: Option<Frame>)
        ensures
            frames_of(*self).len() == 0 ==> r.is_none(),
            frames_of(*self).len() > 0 ==> r == Some(frames_of(*self).last()),
    {
        self.inner.last().copied()
    }
}

impl ContainerStack {
    /// `SmallVec::new`: an empty stack.
    #[verifier::external_body]
    pub(crate) fn new() -> (r: ContainerStack)
        ensures
            containers_of(r) == Seq::<Container>::empty(),
    {
        ContainerStack { inner: SmallVec::new() }
    }

    /// `SmallVec::len`.
    #[verifier::external_body]
    pub(crate) fn len(&self) -> (r: usize)
        ensures
            r == containers_of(*self).len(),
    {
        self.inner.len()
    }

    /// `SmallVec::push`: appends `c` on top.
    #[verifier::external_body]
    pub(crate) fn push(&mut self, c: Container)
        requires
            containers_of(*old(self)).len() < STACK_LIMIT,
        ensures
            containers_of(*final(self)) == containers_of(*old(self)).push(c),
    {
        self.inner.push(c)
    }

    /// `SmallVec::pop`: removes and returns the top container, `None` when empty.
    #[verifier::external_body]
    pub(crate) fn pop(&mut self) -> (r: Option<Container>)
        ensures
            containers_of(*old(self)).len() == 0 ==> r.is_none() && containers_of(*final(self))
                == containers_of(*old(self)),
            containers_of(*old(self)).len() > 0 ==> r == Some(containers_of(*old(self)).last())
                && containers_of(*final(self)) == containers_of(*old(self)).drop_last(),
    {
        self.inner.pop()
    }

    /// `<[Container]>::last` through `Deref`, copied out.
    #[verifier::external_body]
    pub(crate) fn last(&self) -> (r: Option<Container>)
        ensures
            containers_of(*self).len() == 0 ==> r.is_none(),
            containers_of(*self).len() > 0 ==> r == Some(containers_of(*self).last()),
    {
        self.inner.last().copied()
    }

    /// `SmallVec::truncate`: keeps the bottom `len` containers (all of them
    /// when there are fewer).
    #[verifier::external_body]
    pub(crate) fn truncate(&mut self, len: usize)
        ensures
            len < containers_of(*old(self)).len() ==> containers_of(*final(self))
                == containers_of(*old(self)).subrange(0, len as int),
            len >= containers_of(*old(self)).len() ==> containers_of(*final(self))
                == containers_of(*old(self)),
    {
        self.inner.truncate(len)
    }
}

impl ByteBuf {
    /// `SmallVec::new`: an empty buffer.
    #[verifier::external_body]
    pub(crate) fn empty() -> (r: ByteBuf)
        ensures
            bytes_of(r) == Seq::<u8>::empty(),
    {
        ByteBuf { inner: SmallVec::new() }
    }

    /// An empty buffer.
    pub fn new() -> (r: ByteBuf)
        ensures
            bytes_of(r) == Seq::<u8>::empty(),
    {
        ByteBuf::empty()
    }

    /// `SmallVec::clear`.
    #[verifier::external_body]
    pub(crate) fn clear(&mut self)
        ensures
            bytes_of(*final(self)) == Seq::<u8>::empty(),
    {
        self.inner.clear()
    }

    /// `SmallVec::reserve`: capacity only, the contents stay as they are.
    #[verifier::external_body]
    pub(crate) fn reserve(&mut self, additional: usize)
        requires
            bytes_of(*old(self)).len() + additional <= BYTE_BUF_LIMIT,
        ensures
            bytes_of(*final(self)) == bytes_of(*old(self)),
    {
        self.inner.reserve(additional)
    }

    /// `SmallVec::push`: appends one byte.
    #[verifier::external_body]
    pub(crate) fn push(&mut self, b: u8)
        requires
            bytes_of(*old(self)).len() < BYTE_BUF_LIMIT,
        ensures
            bytes_of(*final(self)) == bytes_of(*old(self)).push(b),
    {
        self.inner.push(b)
    }

    /// `SmallVec::extend_from_slice`: appends `s`.
    #[verifier::external_body]
    pub(crate) fn extend_from_slice(&mut self, s: &[u8])
        requires
            bytes_of(*old(self)).len() + s@.len() <= BYTE_BUF_LIMIT,
        ensures
            bytes_of(*final(self)) == bytes_of(*old(self)) + s@,
    {
        self.inner.extend_from_slice(s)
    }

    /// `SmallVec::as_slice`: the bytes held.
    #[verifier::external_body]
    pub(crate) fn held(&self) -> (r: &[u8])
        ensures
            r@ == bytes_of(*self),
    {
        self.inner.as_slice()
    }

    /// The bytes held.
    pub fn as_slice(&self) -> (r: &[u8])
        ensures
            r@ == bytes_of(*self),
    {
        self.held()
    }
}

} // verus!
