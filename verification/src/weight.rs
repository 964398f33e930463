//! The weight algebra: a join that is associative, commutative and idempotent,
//! and the order-free description of "the join of a set of weights" that the
//! contracts of the stack operations use.

use vstd::prelude::*;

verus! {

/// A value associated with a stack alternative.
///
/// [`Weight::join`] must be associative, commutative, and idempotent. These
/// laws make the meaning of a GSS independent of how its alternatives were
/// combined:
///
/// - `(a ⋁ b) ⋁ c = a ⋁ (b ⋁ c)`
/// - `a ⋁ b = b ⋁ a`
/// - `a ⋁ a = a`
pub trait Weight: Sized {
    /// Join two weights.
    fn join(&self, other: &Self) -> Self;
}

impl Weight for () {
    fn join(&self, other: &Self) -> (joined: Self)
        ensures
            joined == (),
    {
    }
}

/// `f` describes [`Weight::join`] and obeys the join laws: every result of
/// `a.join(b)` is `f(a, b)`, and `f` is associative, commutative and idempotent.
pub open spec fn join_laws<W: Weight>(f: spec_fn(W, W) -> W) -> bool {
    &&& forall|a: W, b: W, r: W| #[trigger] call_ensures(W::join, (&a, &b), r) ==> r == f(a, b)
    &&& forall|a: W, b: W, c: W| #[trigger] f(f(a, b), c) == f(a, f(b, c))
    &&& forall|a: W, b: W| #[trigger] f(a, b) == f(b, a)
    &&& forall|a: W| #[trigger] f(a, a) == a
}

/// `W::join` computes a function that obeys the join laws.
#[verifier::opaque]
pub open spec fn lawful_join<W: Weight>() -> bool {
    exists|f: spec_fn(W, W) -> W| #[trigger] join_laws::<W>(f)
}

/// The join of `a` and `b`, as the function that [`Weight::join`] computes
/// when the join is lawful.
pub open spec fn spec_join<W: Weight>(a: W, b: W) -> W {
    (choose|f: spec_fn(W, W) -> W| #[trigger] join_laws::<W>(f))(a, b)
}

/// A join is lawful once a function that describes it and obeys the laws is
/// given: this is how a weight type with a verified `join` establishes
/// [`lawful_join`].
pub proof fn lemma_lawful_join_from<W: Weight>(f: spec_fn(W, W) -> W)
    requires
        join_laws::<W>(f),
    ensures
        lawful_join::<W>(),
{
    reveal(lawful_join);
}

/// The unit weight obeys the join laws.
pub proof fn lemma_unit_lawful()
    ensures
        lawful_join::<()>(),
{
    let f = |a: (), b: ()| ();
    lemma_lawful_join_from::<()>(f);
}

/// The three join laws, for particular weights.
pub proof fn lemma_join_laws<W: Weight>(a: W, b: W, c: W)
    requires
        lawful_join::<W>(),
    ensures
        spec_join(spec_join(a, b), c) == spec_join(a, spec_join(b, c)),
        spec_join(a, b) == spec_join(b, a),
        spec_join(a, a) == a,
{
    reveal(lawful_join);
    let f = choose|f: spec_fn(W, W) -> W| #[trigger] join_laws::<W>(f);
    assert(join_laws::<W>(f));
    assert(spec_join(a, b) == f(a, b));
    assert(spec_join(b, c) == f(b, c));
    assert(spec_join(spec_join(a, b), c) == f(f(a, b), c));
    assert(spec_join(a, spec_join(b, c)) == f(a, f(b, c)));
    assert(f(f(a, b), c) == f(a, f(b, c)));
    assert(f(a, b) == f(b, a));
    assert(f(a, a) == a);
}

/// Join two weights, for a lawful join.
pub fn join_weights<W: Weight>(a: &W, b: &W) -> (joined: W)
    requires
        lawful_join::<W>(),
    ensures
        joined == spec_join(*a, *b),
{
    let r = a.join(b);
    proof {
        reveal(lawful_join);
        let f = choose|f: spec_fn(W, W) -> W| #[trigger] join_laws::<W>(f);
        assert(join_laws::<W>(f));
        assert(r == f(*a, *b));
    }
    r
}

/// `a` is below `b` in the order that the join induces: `a ⋁ b == b`.
pub open spec fn weight_le<W: Weight>(a: W, b: W) -> bool {
    spec_join(a, b) == b
}

/// `w` is the least upper bound of the weights in `vals`.
///
/// Under the join laws this determines `w` uniquely (see
/// [`lemma_join_of_unique`]), so it states "`w` is the join of `vals`" without
/// fixing an order in which the members are combined.
pub open spec fn is_join_of<W: Weight>(w: W, vals: Set<W>) -> bool {
    forall|u: W| #[trigger] weight_le(w, u) <==> (forall|v: W| vals.contains(v) ==> weight_le(v, u))
}

/// `r` is `None` exactly when `vals` is empty, and otherwise the join of `vals`.
pub open spec fn is_opt_join_of<W: Weight>(r: Option<W>, vals: Set<W>) -> bool {
    match r {
        None => vals == Set::<W>::empty(),
        Some(w) => (exists|v: W| vals.contains(v)) && is_join_of(w, vals),
    }
}

/// Join two optional weights, treating `None` as no contribution.
pub open spec fn opt_join<W: Weight>(a: Option<W>, b: Option<W>) -> Option<W> {
    match a {
        Some(x) => match b {
            Some(y) => Some(spec_join(x, y)),
            None => Some(x),
        },
        None => b,
    }
}

/// Joining below an upper bound: `a ⋁ b ≤ u` exactly when `a ≤ u` and `b ≤ u`.
pub proof fn lemma_le_join<W: Weight>(a: W, b: W, u: W)
    requires
        lawful_join::<W>(),
    ensures
        weight_le(spec_join(a, b), u) <==> (weight_le(a, u) && weight_le(b, u)),
{
    lemma_join_laws(a, b, u);
    lemma_join_laws(a, a, b);
    lemma_join_laws(a, spec_join(a, b), u);
    lemma_join_laws(b, a, u);
    lemma_join_laws(b, b, a);
    lemma_join_laws(b, spec_join(a, b), u);
    lemma_join_laws(a, b, b);
    lemma_join_laws(b, b, b);
    lemma_join_laws(a, a, a);
}

/// The order is reflexive.
pub proof fn lemma_le_refl<W: Weight>(a: W)
    requires
        lawful_join::<W>(),
    ensures
        weight_le(a, a),
{
    lemma_join_laws(a, a, a);
}

/// A single weight is the join of itself.
pub proof fn lemma_join_of_single<W: Weight>(v: W)
    ensures
        is_join_of(v, set![v]),
        is_opt_join_of(Some(v), set![v]),
{
    assert(set![v].contains(v));
}

/// The join of two joins is the join of the union.
pub proof fn lemma_join_of_union<W: Weight>(x: W, xs: Set<W>, y: W, ys: Set<W>)
    requires
        lawful_join::<W>(),
        is_join_of(x, xs),
        is_join_of(y, ys),
    ensures
        is_join_of(spec_join(x, y), xs + ys),
{
    assert forall|u: W| #[trigger]
        weight_le(spec_join(x, y), u) <==> (forall|v: W| (xs + ys).contains(v) ==> weight_le(v, u)) by {
        lemma_le_join(x, y, u);
        assert(weight_le(x, u) <==> (forall|v: W| xs.contains(v) ==> weight_le(v, u)));
        assert(weight_le(y, u) <==> (forall|v: W| ys.contains(v) ==> weight_le(v, u)));
    }
}

/// The optional version of [`lemma_join_of_union`].
pub proof fn lemma_opt_join_of_union<W: Weight>(x: Option<W>, xs: Set<W>, y: Option<W>, ys: Set<W>)
    requires
        lawful_join::<W>(),
        is_opt_join_of(x, xs),
        is_opt_join_of(y, ys),
    ensures
        is_opt_join_of(opt_join(x, y), xs + ys),
{
    match x {
        Some(a) => match y {
            Some(b) => {
                lemma_join_of_union(a, xs, b, ys);
                let v = choose|v: W| xs.contains(v);
                assert((xs + ys).contains(v));
            },
            None => {
                assert(xs + ys =~= xs);
            },
        },
        None => {
            assert(xs + ys =~= ys);
        },
    }
}

/// The join of a set is unique.
pub proof fn lemma_join_of_unique<W: Weight>(x: W, y: W, vals: Set<W>)
    requires
        lawful_join::<W>(),
        is_join_of(x, vals),
        is_join_of(y, vals),
    ensures
        x == y,
{
    lemma_le_refl(x);
    lemma_le_refl(y);
    assert(weight_le(x, y));
    assert(weight_le(y, x));
    lemma_join_laws(x, y, y);
}

/// Sets that are equal as sets have the same join.
pub proof fn lemma_opt_join_of_unique<W: Weight>(x: Option<W>, y: Option<W>, vals: Set<W>)
    requires
        lawful_join::<W>(),
        is_opt_join_of(x, vals),
        is_opt_join_of(y, vals),
    ensures
        x == y,
{
    match x {
        Some(a) => match y {
            Some(b) => lemma_join_of_unique(a, b, vals),
            None => {
                let v = choose|v: W| vals.contains(v);
                assert(Set::<W>::empty().contains(v));
            },
        },
        None => match y {
            Some(b) => {
                let v = choose|v: W| vals.contains(v);
                assert(Set::<W>::empty().contains(v));
            },
            None => {},
        },
    }
}

/// Joining a weight with itself changes nothing, also for optional weights.
pub proof fn lemma_opt_join_idempotent<W: Weight>(a: Option<W>)
    requires
        lawful_join::<W>(),
    ensures
        opt_join(a, a) == a,
{
    if let Some(x) = a {
        lemma_join_laws(x, x, x);
    }
}

} // verus!
