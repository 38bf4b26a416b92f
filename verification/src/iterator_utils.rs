//! An iterator whose length is known up front.
use vstd::prelude::*;

verus! {

/// Items handed out in order, with the count of those still to come, which
/// the creator states.
pub struct ExactSizeIteratorWrapper<T> {
    /// The items not handed out yet, last one first.
    rev: Vec<T>,
    len: usize,
}

impl<T> ExactSizeIteratorWrapper<T> {
    /// The items still to come, in order.
    pub closed spec fn remaining(&self) -> Seq<T> {
        self.rev@.reverse()
    }

    /// The stated count of items still to come.
    pub closed spec fn stated_len(&self) -> nat {
        self.len as nat
    }

    /// The next item; the stated count goes down by one.
    pub fn next(&mut self) -> (r: Option<T>)
        requires
            old(self).stated_len() > 0,
        ensures
            final(self).stated_len() == old(self).stated_len() - 1,
            old(self).remaining().len() == 0 ==> (r is None && final(self).remaining() == old(self).remaining()),
            old(self).remaining().len() > 0 ==> (r == Some(old(self).remaining()[0]) && final(self).remaining()
                == old(self).remaining().drop_first()),
    {
        self.len = self.len - 1;
        let r = self.rev.pop();
        proof {
            if old(self).rev@.len() > 0 {
                assert(old(self).rev@.reverse()[0] == old(self).rev@.last());
                assert(self.rev@.reverse() =~= old(self).rev@.reverse().drop_first());
            }
        }
        r
    }

    /// `(len, Some(len))` for the stated count.
    pub fn size_hint(&self) -> (r: (usize, Option<usize>))
        ensures
            r == (self.stated_len() as usize, Some(self.stated_len() as usize)),
    {
        (self.len, Some(self.len))
    }
}

/// Turning a collection of items into an iterator that states its length.
pub trait IteratorUtils<T>: Sized {
    /// An iterator over the items that states `len` as its length.
    fn into_exact_size_iterator(self, len: usize) -> ExactSizeIteratorWrapper<T>;
}

impl<T> IteratorUtils<T> for Vec<T> {
    fn into_exact_size_iterator(self, len: usize) -> (it: ExactSizeIteratorWrapper<T>)
        ensures
            it.remaining() == self@,
            it.stated_len() == len,
    {
        let mut items = self;
        let mut rev: Vec<T> = Vec::new();
        while items.len() > 0
            invariant
                items@ + rev@.reverse() == self@,
            decreases items@.len(),
        {
            let ghost before_items = items@;
            let ghost before_rev = rev@;
            let x = items.pop().unwrap();
            rev.push(x);
            proof {
                assert(rev@.reverse() =~= seq![x] + before_rev.reverse());
                assert(before_items =~= items@.push(x));
                assert(items@ + rev@.reverse() =~= before_items + before_rev.reverse());
            }
        }
        assert(items@ + rev@.reverse() =~= rev@.reverse());
        ExactSizeIteratorWrapper { rev, len }
    }
}

} // verus!
