//! Validation context: the recursion-depth budget and the path of the value
//! being validated.
use crate::numtext::{decimal_chars, format_u64};
use vstd::prelude::*;

verus! {

/// Per-call settings and the depth of the active encoder recursion.
pub struct Context {
    pub try_cast_from_string: bool,
    depth: usize,
    max_depth: usize,
}

/// Proof that one level was entered; handed back to [`Context::leave_depth`]
/// when that level is done.
pub struct DepthGuard {
    level: usize,
}

/// Entering one more level would pass the depth budget.
#[derive(Debug, Clone, Copy, PartialEq, Eq, Structural)]
pub struct RecursionLimitExceeded {
    pub max_depth: usize,
}

impl DepthGuard {
    /// The depth right after the level it stands for was entered.
    pub closed spec fn level(&self) -> nat {
        self.level as nat
    }
}

impl Context {
    pub closed spec fn depth(&self) -> nat {
        self.depth as nat
    }

    /// Whether loading may cast a string to the expected scalar type.
    pub closed spec fn casts_from_string(&self) -> bool {
        self.try_cast_from_string
    }

    pub closed spec fn max_depth(&self) -> nat {
        self.max_depth as nat
    }

    /// The depth never passes the budget.
    pub open spec fn wf(&self) -> bool {
        self.depth() <= self.max_depth()
    }

    pub fn new(try_cast_from_string: bool, max_depth: usize) -> (c: Self)
        ensures
            c.wf(),
            c.casts_from_string() == try_cast_from_string,
            c.depth() == 0,
            c.max_depth() == max_depth,
    {
        Context { try_cast_from_string, depth: 0, max_depth }
    }

    /// Enters one more level of recursion, unless that passes `max_depth`.
    pub fn enter_depth(&mut self) -> (r: Result<DepthGuard, RecursionLimitExceeded>)
        requires
            old(self).wf(),
        ensures
            final(self).wf(),
            final(self).max_depth() == old(self).max_depth(),
            final(self).casts_from_string() == old(self).casts_from_string(),
            r is Err <==> old(self).depth() + 1 > old(self).max_depth(),
            r matches Err(e) ==> (e.max_depth == old(self).max_depth() && final(self).depth()
                == old(self).depth()),
            r matches Ok(g) ==> (entered(*old(self), *final(self)) && g.level() == final(self).depth()),
    {
        if self.depth >= self.max_depth {
            return Err(RecursionLimitExceeded { max_depth: self.max_depth });
        }
        self.depth = self.depth + 1;
        Ok(DepthGuard { level: self.depth })
    }

    /// Leaves the innermost level, the one `guard` stands for.
    pub fn leave_depth(&mut self, guard: DepthGuard)
        requires
            old(self).wf(),
            guard.level() == old(self).depth(),
            guard.level() >= 1,
        ensures
            final(self).wf(),
            left(*old(self), *final(self)),
    {
        self.depth = self.depth - 1;
    }
}

/// `after` is `before` one level deeper.
pub open spec fn entered(before: Context, after: Context) -> bool {
    &&& after.depth() == before.depth() + 1
    &&& after.max_depth() == before.max_depth()
    &&& after.casts_from_string() == before.casts_from_string()
}

/// `after` is `before` one level shallower.
pub open spec fn left(before: Context, after: Context) -> bool {
    &&& after.depth() + 1 == before.depth()
    &&& after.max_depth() == before.max_depth()
    &&& after.casts_from_string() == before.casts_from_string()
}

/// Entering a level and leaving it again gives back the same context.
pub proof fn lemma_enter_leave_restores(c0: Context, c1: Context, c2: Context)
    requires
        entered(c0, c1),
        left(c1, c2),
    ensures
        c2 == c0,
{
}

/// One step of an instance path.
#[derive(Debug)]
pub enum PathChunk {
    /// Property name within an object.
    Property(String),
    /// Index within an array.
    Index(usize),
    /// A mapping key, by its text.
    PropertyValue(String),
}

/// The text of one step.
pub open spec fn chunk_text(c: PathChunk) -> Seq<char> {
    match c {
        PathChunk::Property(s) => s@,
        PathChunk::Index(i) => decimal_chars(i as int),
        PathChunk::PropertyValue(s) => s@,
    }
}

/// The steps' texts joined by `/`.
pub open spec fn join_path(chunks: Seq<PathChunk>) -> Seq<char>
    decreases chunks.len(),
{
    if chunks.len() == 0 {
        Seq::empty()
    } else if chunks.len() == 1 {
        chunk_text(chunks[0])
    } else {
        join_path(chunks.drop_last()) + "/"@ + chunk_text(chunks.last())
    }
}

pub fn clone_chunk(c: &PathChunk) -> (r: PathChunk)
    ensures
        r == *c,
{
    match c {
        PathChunk::Property(s) => PathChunk::Property(s.clone()),
        PathChunk::Index(i) => PathChunk::Index(*i),
        PathChunk::PropertyValue(s) => PathChunk::PropertyValue(s.clone()),
    }
}

/// The location of a value inside the document being validated, root first.
pub struct InstancePath {
    chunks: Vec<PathChunk>,
}

impl InstancePath {
    pub closed spec fn chunks(&self) -> Seq<PathChunk> {
        self.chunks@
    }

    /// The root.
    pub fn new() -> (p: Self)
        ensures
            p.chunks() == Seq::<PathChunk>::empty(),
    {
        InstancePath { chunks: Vec::new() }
    }

    /// This path extended by one step.
    pub fn push(&self, chunk: PathChunk) -> (p: Self)
        ensures
            p.chunks() == self.chunks().push(chunk),
    {
        let mut chunks: Vec<PathChunk> = Vec::with_capacity(self.chunks.len());
        let mut i: usize = 0;
        while i < self.chunks.len()
            invariant
                i <= self.chunks@.len(),
                chunks@ == self.chunks@.subrange(0, i as int),
            decreases self.chunks@.len() - i,
        {
            chunks.push(clone_chunk(&self.chunks[i]));
            i += 1;
            assert(chunks@ =~= self.chunks@.subrange(0, i as int));
        }
        assert(chunks@ =~= self.chunks@);
        chunks.push(chunk);
        InstancePath { chunks }
    }

    /// The steps, root first.
    pub fn to_vec(&self) -> (r: Vec<PathChunk>)
        ensures
            r@ == self.chunks(),
    {
        let mut r: Vec<PathChunk> = Vec::with_capacity(self.chunks.len());
        let mut i: usize = 0;
        while i < self.chunks.len()
            invariant
                i <= self.chunks@.len(),
                r@ == self.chunks@.subrange(0, i as int),
            decreases self.chunks@.len() - i,
        {
            r.push(clone_chunk(&self.chunks[i]));
            i += 1;
            assert(r@ =~= self.chunks@.subrange(0, i as int));
        }
        assert(r@ =~= self.chunks@);
        r
    }
}

/// Appends the text of one step.
fn append_chunk(out: &mut String, c: &PathChunk)
    ensures
        final(out)@ == old(out)@ + chunk_text(*c),
{
    match c {
        PathChunk::Property(s) => out.append(s.as_str()),
        PathChunk::Index(i) => {
            let t = format_u64(*i as u64);
            out.append(t.as_str());
        },
        PathChunk::PropertyValue(s) => out.append(s.as_str()),
    }
}

/// The path as text: the steps joined by `/`; empty at the root.
pub fn into_path(pointer: &InstancePath) -> (r: String)
    ensures
        r@ == join_path(pointer.chunks()),
{
    let mut out = String::new();
    let mut i: usize = 0;
    let n = pointer.chunks.len();
    while i < n
        invariant
            n == pointer.chunks@.len(),
            i <= n,
            out@ == join_path(pointer.chunks@.subrange(0, i as int)),
        decreases n - i,
    {
        let ghost prefix = pointer.chunks@.subrange(0, i as int + 1);
        assert(prefix.drop_last() =~= pointer.chunks@.subrange(0, i as int));
        if i > 0 {
            out.append("/");
        }
        append_chunk(&mut out, &pointer.chunks[i]);
        i += 1;
        if i == 1 {
            assert(out@ =~= join_path(prefix));
        }
    }
    assert(pointer.chunks@.subrange(0, n as int) =~= pointer.chunks@);
    out
}

} // verus!
