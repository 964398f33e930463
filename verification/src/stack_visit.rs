//! The error of bounded materialisation.

use vstd::prelude::*;

use crate::gss::WeightedGss;
use crate::values::{clone_exact, clone_value, exact_values};
use crate::weight::Weight;

verus! {

/// Error returned when a bounded operation would materialise too many stacks.
#[derive(Clone, Copy, Debug, PartialEq, Eq)]
pub struct StackLimitExceeded {
    /// Maximum number of distinct concrete stacks allowed by the caller.
    pub limit: usize,
}

impl StackLimitExceeded {
    /// The error for the bound `limit`.
    pub(crate) fn new(limit: usize) -> (e: Self)
        ensures
            e.limit == limit,
    {
        StackLimitExceeded { limit }
    }
}

} // verus!

verus! {

/// The entries of `l` are exactly the stacks of `m`, each given top-first, with
/// their weights, each once.
pub open spec fn lists_stacks_top_first<S, W>(m: Map<Seq<S>, W>, l: Seq<(Vec<S>, W)>) -> bool {
    &&& forall|i: int, j: int| 0 <= i < l.len() && 0 <= j < l.len() && i != j ==> l[i].0@ != l[j].0@
    &&& forall|i: int| 0 <= i < l.len() ==> m.contains_key(#[trigger] l[i].0@.reverse()) && m[l[i].0@.reverse()] == l[i].1
    &&& forall|k: Seq<S>| #[trigger] m.contains_key(k) ==> exists|i: int| 0 <= i < l.len() && l[i].0@ == k.reverse()
}

/// Reversing a sequence twice gives it back.
pub proof fn lemma_reverse_reverse<S>(s: Seq<S>)
    ensures
        s.reverse().reverse() == s,
{
    assert(s.reverse().reverse() =~= s);
}

/// A copy of `v` in reverse order.
pub fn reversed<S: Clone>(v: &Vec<S>) -> (r: Vec<S>)
    requires
        clone_exact::<S>(),
    ensures
        r@ == v@.reverse(),
{
    let mut r: Vec<S> = Vec::new();
    let mut i = v.len();
    while i > 0
        invariant
            clone_exact::<S>(),
            i <= v@.len(),
            r@ == v@.subrange(i as int, v@.len() as int).reverse(),
        decreases i,
    {
        i -= 1;
        r.push(clone_value(&v[i]));
        proof {
            assert(r@ =~= v@.subrange(i as int, v@.len() as int).reverse());
        }
    }
    proof {
        assert(v@.subrange(0, v@.len() as int) =~= v@);
    }
    r
}

/// Materialise the stacks, each top-first, with their weights, in unspecified
/// order; fails rather than returning more than `max_stacks` stacks.
pub fn collect_stacks_top_first<S: PartialEq + Clone, W: Weight + Clone>(
    gss: &WeightedGss<S, W>,
    max_stacks: usize,
) -> (r: Result<Vec<(Vec<S>, W)>, StackLimitExceeded>)
    requires
        exact_values::<S, W>(),
    ensures
        gss@.dom().finite(),
        match r {
            Ok(v) => gss@.dom().len() <= max_stacks && v@.len() == gss@.dom().len() && lists_stacks_top_first(gss@, v@),
            Err(e) => e.limit == max_stacks && gss@.dom().len() > max_stacks,
        },
{
    match gss.to_stacks(max_stacks) {
        Ok(v) => {
            let mut out: Vec<(Vec<S>, W)> = Vec::new();
            let mut i: usize = 0;
            while i < v.len()
                invariant
                    exact_values::<S, W>(),
                    i <= v@.len(),
                    out@.len() == i,
                    forall|j: int| 0 <= j < i ==> (#[trigger] out@[j]).0@ == v@[j].0@.reverse() && out@[j].1 == v@[j].1,
                decreases v@.len() - i,
            {
                let s = reversed(&v[i].0);
                out.push((s, clone_value(&v[i].1)));
                i += 1;
            }
            proof {
                assert forall|a: int, b: int| 0 <= a < out@.len() && 0 <= b < out@.len() && a != b implies out@[a].0@ != out@[b].0@ by {
                    lemma_reverse_reverse(v@[a].0@);
                    lemma_reverse_reverse(v@[b].0@);
                }
                assert forall|a: int| 0 <= a < out@.len() implies gss@.contains_key(#[trigger] out@[a].0@.reverse()) && gss@[out@[a].0@.reverse()] == out@[a].1 by {
                    lemma_reverse_reverse(v@[a].0@);
                    assert(gss@.contains_key(v@[a].0@));
                }
                assert forall|k: Seq<S>| #[trigger] gss@.contains_key(k) implies exists|a: int| 0 <= a < out@.len() && out@[a].0@ == k.reverse() by {
                    let a = choose|a: int| 0 <= a < v@.len() && v@[a].0@ == k;
                    assert(out@[a].0@ == k.reverse());
                }
            }
            Ok(out)
        },
        Err(e) => Err(e),
    }
}

/// Visit the distinct stacks of `gss` top-first, each once with its weight;
/// `visit` is not called when there are more than `max_stacks` of them.
///
/// On `Ok`, every stack `k` of `gss` was handed to `visit` as the slice of `k`
/// reversed (top first), together with the weight of `k`.
pub fn for_each_stack_top_first<S: PartialEq + Clone, W: Weight + Clone, F: FnMut(&[S], &W)>(
    gss: &WeightedGss<S, W>,
    max_stacks: usize,
    mut visit: F,
) -> (r: Result<(), StackLimitExceeded>)
    requires
        exact_values::<S, W>(),
        forall|s: &[S], w: &W| #[trigger] visit.requires((s, w)),
    ensures
        gss@.dom().finite(),
        match r {
            Ok(()) => gss@.dom().len() <= max_stacks,
            Err(e) => e.limit == max_stacks && gss@.dom().len() > max_stacks,
        },
        r is Ok ==> forall|k: Seq<S>| #[trigger] gss@.contains_key(k) ==> exists|s: &[S], w: &W|
            s@ == k.reverse() && *w == gss@[k] && call_ensures(visit, (s, w), ()),
{
    let ghost v0 = visit;
    match collect_stacks_top_first(gss, max_stacks) {
        Ok(v) => {
            let mut i: usize = 0;
            while i < v.len()
                invariant
                    i <= v@.len(),
                    forall|s: &[S], w: &W| #[trigger] visit.requires((s, w)),
                    visit == v0,
                    forall|j: int| 0 <= j < i ==> exists|s: &[S], w: &W|
                        s@ == (#[trigger] v@[j]).0@ && *w == v@[j].1 && call_ensures(visit, (s, w), ()),
                decreases v@.len() - i,
            {
                let s = v[i].0.as_slice();
                let w = &v[i].1;
                visit(s, w);
                proof {
                    assert(s@ == v@[i as int].0@ && *w == v@[i as int].1 && call_ensures(visit, (s, w), ()));
                }
                i += 1;
            }
            proof {
                assert forall|k: Seq<S>| #[trigger] gss@.contains_key(k) implies exists|s: &[S], w: &W|
                    s@ == k.reverse() && *w == gss@[k] && call_ensures(visit, (s, w), ()) by {
                    let j = choose|j: int| 0 <= j < v@.len() && v@[j].0@ == k.reverse();
                    assert(gss@.contains_key(v@[j].0@.reverse()));
                    lemma_reverse_reverse(k);
                    assert(v@[j].0@.reverse() == k);
                    let (s, w) = choose|s: &[S], w: &W| s@ == v@[j].0@ && *w == v@[j].1 && call_ensures(visit, (s, w), ());
                    assert(s@ == k.reverse() && *w == gss@[k] && call_ensures(visit, (s, w), ()));
                }
            }
            Ok(())
        },
        Err(e) => Err(e),
    }
}

} // verus!
