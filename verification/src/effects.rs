//! Stack effects: pop a number of values, then push a sequence.

use vstd::prelude::*;

verus! {

/// A stack transformation that pops values and then pushes a sequence.
///
/// Values in `push` are pushed in iteration order, so the final value becomes
/// the new top of the stack.
#[derive(Clone, Debug, PartialEq, Eq, Hash)]
pub struct StackEffect<P> {
    pub(crate) pop: usize,
    pub(crate) push: P,
}

impl<P> StackEffect<P> {
    /// The number of values popped.
    pub closed spec fn spec_pop(&self) -> usize {
        self.pop
    }

    /// The pushed sequence container.
    pub closed spec fn spec_pushed(&self) -> P {
        self.push
    }

    /// Construct an effect that pops `pop` values and then pushes `push`.
    pub fn new(pop: usize, push: P) -> (e: Self)
        ensures
            e.spec_pop() == pop,
            e.spec_pushed() == push,
    {
        StackEffect { pop, push }
    }

    /// Return the number of values popped by this effect.
    pub fn pop_count(&self) -> (n: usize)
        ensures
            n == self.spec_pop(),
    {
        self.pop
    }

    /// Return the pushed sequence container.
    pub fn pushed(&self) -> (p: &P)
        ensures
            *p == self.spec_pushed(),
    {
        &self.push
    }
}

} // verus!
