//! What the stack operations need of the symbol and weight types: equality
//! that is structural equality, and clones that are equal to their source.

use vstd::prelude::*;

use crate::weight::{lawful_join, Weight};

verus! {

/// Every clone of a `T` is equal to the value it was cloned from.
pub open spec fn clone_exact<T: Clone>() -> bool {
    forall|a: T, b: T| #[trigger] vstd::pervasive::strictly_cloned::<T>(a, b) ==> a == b
}

/// The laws that the symbol type `S` and the weight type `W` must obey: `==` on
/// symbols is structural equality, cloning a symbol or a weight yields an equal
/// value, and `W::join` is a function that is associative, commutative and
/// idempotent.
pub open spec fn exact_values<S: PartialEq + Clone, W: Weight + Clone>() -> bool {
    &&& vstd::laws_eq::obeys_concrete_eq::<S>()
    &&& clone_exact::<S>()
    &&& clone_exact::<W>()
    &&& lawful_join::<W>()
}

/// `Clone::clone`, for types whose clones are equal to their source.
#[verifier::external_body]
pub(crate) fn clone_value<T: Clone>(value: &T) -> (copy: T)
    requires
        clone_exact::<T>(),
    ensures
        copy == *value,
{
    value.clone()
}

/// Compare two symbols with `==`.
pub(crate) fn symbols_equal<S: PartialEq>(a: &S, b: &S) -> (equal: bool)
    requires
        vstd::laws_eq::obeys_concrete_eq::<S>(),
    ensures
        equal == (*a == *b),
{
    proof {
        reveal(vstd::laws_eq::obeys_concrete_eq);
    }
    *a == *b
}

} // verus!
