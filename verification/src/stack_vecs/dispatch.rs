//! A double-ended iterator over the elements of a stack vector.

use vstd::prelude::*;

verus! {

/// Iterates over a slice of stack elements from both ends.
#[derive(Debug)]
pub enum DynIter<'a, T> {
    /// The elements `items[front..back]` are still to come.
    Slice { items: &'a [T], front: usize, back: usize },
}

impl<'a, T> DynIter<'a, T> {
    /// The elements still to come, front first.
    pub open spec fn remaining(&self) -> Seq<T> {
        match self {
            DynIter::Slice { items, front, back } => items@.subrange(*front as int, *back as int),
        }
    }

    /// The iterator's positions lie within its slice.
    pub open spec fn wf(&self) -> bool {
        match self {
            DynIter::Slice { items, front, back } => *front <= *back <= items@.len(),
        }
    }

    /// Iterate over all elements of `items`.
    pub fn slice(items: &'a [T]) -> (it: Self)
        ensures
            it.wf(),
            it.remaining() == items@,
    {
        let it = DynIter::Slice { items, front: 0, back: items.len() };
        assert(it.remaining() =~= items@);
        it
    }

    /// The next element from the front, if any.
    pub fn next(&mut self) -> (r: Option<&'a T>)
        requires
            old(self).wf(),
        ensures
            final(self).wf(),
            old(self).remaining().len() == 0 ==> r is None && final(self).remaining() == old(self).remaining(),
            old(self).remaining().len() > 0 ==> r == Some(&old(self).remaining()[0]) && final(self).remaining()
                == old(self).remaining().drop_first(),
    {
        match self {
            DynIter::Slice { items, front, back } => {
                if *front < *back {
                    let r = &items[*front];
                    *front = *front + 1;
                    proof {
                        assert(items@.subrange(*front as int, *back as int) =~= items@.subrange(*front - 1, *back as int).drop_first());
                    }
                    Some(r)
                } else {
                    None
                }
            },
        }
    }

    /// The next element from the back, if any.
    pub fn next_back(&mut self) -> (r: Option<&'a T>)
        requires
            old(self).wf(),
        ensures
            final(self).wf(),
            old(self).remaining().len() == 0 ==> r is None && final(self).remaining() == old(self).remaining(),
            old(self).remaining().len() > 0 ==> r == Some(&old(self).remaining().last()) && final(self).remaining()
                == old(self).remaining().drop_last(),
    {
        match self {
            DynIter::Slice { items, front, back } => {
                if *front < *back {
                    *back = *back - 1;
                    let r = &items[*back];
                    proof {
                        assert(items@.subrange(*front as int, *back as int) =~= items@.subrange(*front as int, *back + 1).drop_last());
                    }
                    Some(r)
                } else {
                    None
                }
            },
        }
    }

    /// The exact number of elements still to come, as a lower and an upper bound.
    pub fn size_hint(&self) -> (r: (usize, Option<usize>))
        requires
            self.wf(),
        ensures
            r.0 == self.remaining().len(),
            r.1 == Some(r.0),
    {
        match self {
            DynIter::Slice { items, front, back } => {
                let n = *back - *front;
                (n, Some(n))
            },
        }
    }

    /// The number of elements still to come.
    pub fn len(&self) -> (n: usize)
        requires
            self.wf(),
        ensures
            n == self.remaining().len(),
    {
        match self {
            DynIter::Slice { items, front, back } => *back - *front,
        }
    }
}

} // verus!
