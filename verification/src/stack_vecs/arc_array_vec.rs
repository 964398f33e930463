//! A stack vector backed by a shared `Arc<Vec<T>>` with a window length.

use std::sync::Arc;
use vstd::prelude::*;
use vstd::std_specs::cmp::PartialEqSpec;

use crate::values::{clone_exact, clone_value};

verus! {

/// `Arc::try_unwrap`: the value when this is its only strong reference, else the `Arc` back.
#[verifier::external_body]
fn arc_try_unwrap<T>(a: Arc<T>) -> (r: Result<T, Arc<T>>)
    ensures
        match r {
            Ok(t) => t == *a,
            Err(e) => e == a,
        },
{
    Arc::try_unwrap(a)
}

/// Stack vector backed by `Arc<Vec<T>>` with a window length.
///
/// Only `data[0..len]` is visible. Clones share the backing data; `take` and
/// `truncate` only shrink the window. `try_push` succeeds only when the backing
/// data is not shared, otherwise the caller should build a new vector.
#[derive(Clone, Debug)]
pub struct ArcArrayVec<T> {
    data: Arc<Vec<T>>,
    nw: usize,
}

impl<T> View for ArcArrayVec<T> {
    type V = Seq<T>;

    /// The visible window, bottom to top.
    closed spec fn view(&self) -> Seq<T> {
        let n = if self.nw <= self.data@.len() { self.nw as int } else { self.data@.len() as int };
        self.data@.subrange(0, n)
    }
}

impl<T> ArcArrayVec<T> {
    /// The visible length, as stored.
    fn window(&self) -> (n: usize)
        ensures
            n == self@.len(),
    {
        if self.nw <= self.data.len() {
            self.nw
        } else {
            self.data.len()
        }
    }

    /// Create an empty ArcArrayVec.
    pub fn new() -> (v: Self)
        ensures
            v@ == Seq::<T>::empty(),
    {
        let v = ArcArrayVec { data: Arc::new(Vec::new()), nw: 0 };
        assert(v@ =~= Seq::<T>::empty());
        v
    }

    /// Get elements as a slice.
    pub fn as_slice(&self) -> (s: &[T])
        ensures
            s@ == self@,
    {
        let n = self.window();
        vstd::slice::slice_subrange(self.data.as_slice(), 0, n)
    }

    /// The elements from bottom to top, as a slice to iterate over.
    pub fn iter(&self) -> (s: &[T])
        ensures
            s@ == self@,
    {
        self.as_slice()
    }

    /// Number of elements in the view.
    pub fn len(&self) -> (n: usize)
        ensures
            n == self@.len(),
    {
        self.window()
    }

    /// Whether the view is empty.
    pub fn is_empty(&self) -> (r: bool)
        ensures
            r == (self@.len() == 0),
    {
        self.window() == 0
    }

    /// Last element (top of stack).
    pub fn last(&self) -> (r: Option<&T>)
        ensures
            self@.len() == 0 ==> r is None,
            self@.len() > 0 ==> r == Some(&self@.last()),
    {
        let n = self.window();
        if n == 0 {
            None
        } else {
            Some(&self.data[n - 1])
        }
    }

    /// The first `n` elements (all when there are fewer), sharing the backing data.
    pub fn take(&self, n: usize) -> (r: Self)
        ensures
            r@ == self@.subrange(0, if n <= self@.len() { n as int } else { self@.len() as int }),
    {
        let w = self.window();
        let r = ArcArrayVec { data: self.data.clone(), nw: if n < w { n } else { w } };
        assert(r@ =~= self@.subrange(0, if n <= self@.len() { n as int } else { self@.len() as int }));
        r
    }

    /// Keep the first `new_len` elements (all when there are fewer).
    pub fn truncate(&mut self, new_len: usize)
        ensures
            final(self)@ == old(self)@.subrange(
                0,
                if new_len <= old(self)@.len() { new_len as int } else { old(self)@.len() as int },
            ),
    {
        let w = self.window();
        self.nw = if new_len < w { new_len } else { w };
        assert(self@ =~= old(self)@.subrange(
            0,
            if new_len <= old(self)@.len() { new_len as int } else { old(self)@.len() as int },
        ));
    }
}

impl<T: Clone> ArcArrayVec<T> {
    /// Create from a single value.
    pub fn unit(val: T) -> (v: Self)
        ensures
            v@ == seq![val],
    {
        let mut data = Vec::new();
        data.push(val);
        let v = ArcArrayVec { data: Arc::new(data), nw: 1 };
        assert(v@ =~= seq![val]);
        v
    }

    /// Create from a Vec.
    pub fn from_vec(v: Vec<T>) -> (r: Self)
        ensures
            r@ == v@,
    {
        let nw = v.len();
        let r = ArcArrayVec { data: Arc::new(v), nw };
        assert(r@ =~= v@);
        r
    }

    /// Convert to a Vec.
    pub fn to_vec(&self) -> (v: Vec<T>)
        requires
            clone_exact::<T>(),
        ensures
            v@ == self@,
    {
        let n = self.window();
        let mut v: Vec<T> = Vec::new();
        let mut i: usize = 0;
        while i < n
            invariant
                clone_exact::<T>(),
                n == self@.len(),
                i <= n,
                v@ == self@.subrange(0, i as int),
            decreases n - i,
        {
            v.push(clone_value(&self.data[i]));
            i += 1;
            proof {
                assert(v@ =~= self@.subrange(0, i as int));
            }
        }
        proof {
            assert(self@.subrange(0, n as int) =~= self@);
        }
        v
    }

    /// Append other's elements on top, producing a new instance.
    pub fn append(&self, other: &Self) -> (r: Self)
        requires
            clone_exact::<T>(),
        ensures
            r@ == self@ + other@,
    {
        if other.window() == 0 {
            assert(other@ =~= Seq::<T>::empty());
            assert(self@ + other@ =~= self@);
            return ArcArrayVec { data: self.data.clone(), nw: self.nw };
        }
        if self.window() == 0 {
            assert(self@ =~= Seq::<T>::empty());
            assert(self@ + other@ =~= other@);
            return ArcArrayVec { data: other.data.clone(), nw: other.nw };
        }
        let mut v = self.to_vec();
        let rest = other.to_vec();
        let mut i: usize = 0;
        let ghost start = v@;
        while i < rest.len()
            invariant
                clone_exact::<T>(),
                i <= rest@.len(),
                v@ == start + rest@.subrange(0, i as int),
            decreases rest@.len() - i,
        {
            v.push(clone_value(&rest[i]));
            i += 1;
            proof {
                assert(v@ =~= start + rest@.subrange(0, i as int));
            }
        }
        proof {
            assert(rest@.subrange(0, rest@.len() as int) =~= rest@);
        }
        Self::from_vec(v)
    }

    /// Try to push. Succeeds only if this is the sole owner of the backing data.
    pub fn try_push(&mut self, val: T) -> (pushed: bool)
        ensures
            pushed ==> final(self)@ == old(self)@.push(val),
            !pushed ==> final(self)@ == old(self)@,
    {
        let n = self.window();
        let mut taken = Arc::new(Vec::new());
        std::mem::swap(&mut taken, &mut self.data);
        match arc_try_unwrap(taken) {
            Ok(mut data) => {
                data.truncate(n);
                data.push(val);
                self.nw = data.len();
                self.data = Arc::new(data);
                assert(self@ =~= old(self)@.push(val));
                true
            },
            Err(shared) => {
                self.data = shared;
                false
            },
        }
    }
}

impl<T> Default for ArcArrayVec<T> {
    /// The empty vector.
    fn default() -> (v: Self)
        ensures
            v@ == Seq::<T>::empty(),
    {
        Self::new()
    }
}

impl<T: PartialEq> PartialEq for ArcArrayVec<T> {
    /// Two vectors are equal when their visible windows hold equal elements.
    fn eq(&self, other: &Self) -> (equal: bool) {
        let a = self.as_slice();
        let b = other.as_slice();
        if a.len() != b.len() {
            return false;
        }
        let mut i: usize = 0;
        while i < a.len()
            invariant
                a@ == self@,
                b@ == other@,
                a@.len() == b@.len(),
                i <= a@.len(),
                <T as PartialEqSpec>::obeys_eq_spec() ==> forall|j: int| 0 <= j < i ==> (#[trigger] a@[j]).eq_spec(&b@[j]),
            decreases a@.len() - i,
        {
            if !(a[i] == b[i]) {
                return false;
            }
            i += 1;
        }
        true
    }
}

impl<T: PartialEq> vstd::std_specs::cmp::PartialEqSpecImpl for ArcArrayVec<T> {
    open spec fn obeys_eq_spec() -> bool {
        <T as PartialEqSpec>::obeys_eq_spec()
    }

    open spec fn eq_spec(&self, other: &Self) -> bool {
        &&& self@.len() == other@.len()
        &&& forall|j: int| 0 <= j < self@.len() ==> (#[trigger] self@[j]).eq_spec(&other@[j])
    }
}

impl<T: Eq> Eq for ArcArrayVec<T> {
}

/// `Hash::hash` for slices (std): writes the slice, its length and then its
/// elements, into the hasher. Nothing is promised of the hasher's state.
pub assume_specification<E: std::hash::Hash, G: std::hash::Hasher>[ <[E] as std::hash::Hash>::hash::<G> ](
    data: &[E],
    state: &mut G,
);

impl<T: std::hash::Hash> std::hash::Hash for ArcArrayVec<T> {
    /// Hash the visible window, so that equal vectors hash equally.
    fn hash<H: std::hash::Hasher>(&self, state: &mut H) {
        self.as_slice().hash(state);
    }
}

} // verus!
