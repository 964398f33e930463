//! A stack vector backed by a plain `Vec<T>`.

use vstd::prelude::*;

use crate::values::{clone_exact, clone_value};

verus! {

/// Stack vector backed by plain `Vec<T>`: `try_push` always succeeds.
#[derive(Clone, Debug, PartialEq, Eq, Hash, Default)]
pub struct VecStackVec<T>(Vec<T>);

impl<T> View for VecStackVec<T> {
    type V = Seq<T>;

    /// The elements, bottom to top.
    closed spec fn view(&self) -> Seq<T> {
        self.0@
    }
}

impl<T> VecStackVec<T> {
    /// The elements from bottom to top, as a slice to iterate over.
    pub fn iter(&self) -> (s: &[T])
        ensures
            s@ == self@,
    {
        self.0.as_slice()
    }

    /// Create from a single value.
    pub fn unit(val: T) -> (v: Self)
        ensures
            v@ == seq![val],
    {
        let mut data = Vec::new();
        data.push(val);
        let v = VecStackVec(data);
        assert(v@ =~= seq![val]);
        v
    }

    /// Create from a Vec.
    pub fn from_vec(v: Vec<T>) -> (r: Self)
        ensures
            r@ == v@,
    {
        VecStackVec(v)
    }

    /// Number of elements.
    pub fn len(&self) -> (n: usize)
        ensures
            n == self@.len(),
    {
        self.0.len()
    }

    /// Last element (top of stack).
    pub fn last(&self) -> (r: Option<&T>)
        ensures
            self@.len() == 0 ==> r is None,
            self@.len() > 0 ==> r == Some(&self@.last()),
    {
        if self.0.len() == 0 {
            None
        } else {
            Some(&self.0[self.0.len() - 1])
        }
    }

    /// Keep the first `new_len` elements (all when there are fewer).
    pub fn truncate(&mut self, new_len: usize)
        ensures
            final(self)@ == old(self)@.subrange(
                0,
                if new_len <= old(self)@.len() { new_len as int } else { old(self)@.len() as int },
            ),
    {
        self.0.truncate(new_len);
        assert(self@ =~= old(self)@.subrange(
            0,
            if new_len <= old(self)@.len() { new_len as int } else { old(self)@.len() as int },
        ));
    }

    /// Push a value; always succeeds.
    pub fn try_push(&mut self, val: T) -> (pushed: bool)
        ensures
            pushed,
            final(self)@ == old(self)@.push(val),
    {
        self.0.push(val);
        true
    }
}

impl<T: Clone> VecStackVec<T> {
    /// The first `n` elements (all when there are fewer), copied.
    pub fn take(&self, n: usize) -> (r: Self)
        requires
            clone_exact::<T>(),
        ensures
            r@ == self@.subrange(0, if n <= self@.len() { n as int } else { self@.len() as int }),
    {
        let m = if n < self.0.len() { n } else { self.0.len() };
        let mut v: Vec<T> = Vec::new();
        let mut i: usize = 0;
        while i < m
            invariant
                clone_exact::<T>(),
                m <= self@.len(),
                i <= m,
                v@ == self@.subrange(0, i as int),
            decreases m - i,
        {
            v.push(clone_value(&self.0[i]));
            i += 1;
            proof {
                assert(v@ =~= self@.subrange(0, i as int));
            }
        }
        VecStackVec(v)
    }

    /// The elements of `self` followed by those of `other`.
    pub fn append(&self, other: &Self) -> (r: Self)
        requires
            clone_exact::<T>(),
        ensures
            r@ == self@ + other@,
    {
        let mut v: Vec<T> = Vec::new();
        let mut i: usize = 0;
        while i < self.0.len()
            invariant
                clone_exact::<T>(),
                i <= self@.len(),
                v@ == self@.subrange(0, i as int),
            decreases self@.len() - i,
        {
            v.push(clone_value(&self.0[i]));
            i += 1;
            proof {
                assert(v@ =~= self@.subrange(0, i as int));
            }
        }
        let mut j: usize = 0;
        while j < other.0.len()
            invariant
                clone_exact::<T>(),
                j <= other@.len(),
                v@ == self@ + other@.subrange(0, j as int),
            decreases other@.len() - j,
        {
            v.push(clone_value(&other.0[j]));
            j += 1;
            proof {
                assert(v@ =~= self@ + other@.subrange(0, j as int));
            }
        }
        proof {
            assert(self@.subrange(0, self@.len() as int) =~= self@);
            assert(other@.subrange(0, other@.len() as int) =~= other@);
        }
        VecStackVec(v)
    }
}

} // verus!
