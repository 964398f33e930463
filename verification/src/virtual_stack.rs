//! A mutable view of the linear top of a weighted GSS over its hidden floor,
//! whatever the weights, with batched pop-and-push effects.

use vstd::prelude::*;

use crate::effects::StackEffect;
use crate::gss::{merged_all, popped_weights, weight_at, WeightedGss};
use crate::linear_prefix::{linear_top, with_prefix, LinearPrefix};
use crate::values::{clone_value, exact_values};
use crate::weight::{is_join_of, is_opt_join_of, lemma_join_of_unique, Weight};

verus! {

/// The stacks of `m` with `count` values popped from each stack that is long
/// enough, joining the weights of the stacks that become equal.
pub open spec fn popped_all<S, W: Weight>(m: Map<Seq<S>, W>, count: nat) -> Map<Seq<S>, W> {
    Map::new(
        |k: Seq<S>| popped_weights(m, count, k) != Set::<W>::empty(),
        |k: Seq<S>| choose|w: W| is_join_of(w, popped_weights(m, count, k)),
    )
}

/// A map whose weights are the joins of the popped weights is the popped map.
pub proof fn lemma_popped_all<S, W: Weight>(g: Map<Seq<S>, W>, m: Map<Seq<S>, W>, count: nat)
    requires
        crate::weight::lawful_join::<W>(),
        forall|k: Seq<S>| #[trigger] is_opt_join_of(weight_at(g, k), popped_weights(m, count, k)),
    ensures
        g == popped_all(m, count),
{
    let p = popped_all(m, count);
    assert forall|k: Seq<S>| #[trigger] g.contains_key(k) <==> p.contains_key(k) by {
        assert(is_opt_join_of(weight_at(g, k), popped_weights(m, count, k)));
        if g.contains_key(k) {
            let v = choose|v: W| popped_weights(m, count, k).contains(v);
            assert(popped_weights(m, count, k).contains(v));
        }
    }
    assert forall|k: Seq<S>| #[trigger] g.contains_key(k) implies g[k] == p[k] by {
        assert(is_opt_join_of(weight_at(g, k), popped_weights(m, count, k)));
        let w = choose|w: W| is_join_of(w, popped_weights(m, count, k));
        lemma_join_of_unique(g[k], w, popped_weights(m, count, k));
    }
    assert(g =~= p);
}

/// The stacks of `m` after the effect `(pop, pushes)`: `pop` values popped
/// from every stack long enough, then `pushes` pushed.
pub open spec fn after_op<S, W: Weight>(m: Map<Seq<S>, W>, op: StackEffect<Vec<S>>) -> Map<Seq<S>, W> {
    with_prefix(popped_all(m, op.spec_pop() as nat), op.spec_pushed()@)
}

/// A mutable view of the linear top of a [`WeightedGss`]: the visible
/// values, bottom-to-top, over an unchanged hidden floor whose stacks keep
/// their own weights.
#[derive(Clone, Debug)]
pub struct VirtualStack<S, W> {
    prefix: LinearPrefix<S, W>,
}

impl<S, W> VirtualStack<S, W> {
    /// The visible values, bottom-to-top.
    pub closed spec fn values(self) -> Seq<S> {
        self.prefix.prefix()
    }

    /// The stacks of the hidden floor, with their weights.
    pub closed spec fn floor(self) -> Map<Seq<S>, W> {
        self.prefix.floor()
    }

    /// The stacks that the view stands for.
    pub open spec fn stacks(self) -> Map<Seq<S>, W> {
        with_prefix(self.floor(), self.values())
    }
}

impl<S: PartialEq + Clone, W: Weight + Clone> VirtualStack<S, W> {
    /// View the longest common top of the stacks of `gss`; `None` unless
    /// every stack is non-empty and all share one top.
    pub fn from_gss(gss: &WeightedGss<S, W>) -> (r: Option<Self>)
        requires
            exact_values::<S, W>(),
        ensures
            r is Some <==> exists|x: S| #[trigger] crate::gss::is_sole_top(gss@, x),
            r matches Some(v) ==> {
                &&& v.values().len() > 0
                &&& v.stacks() == gss@
                &&& !exists|x: S| #[trigger] crate::gss::is_sole_top(v.floor(), x)
            },
    {
        match linear_top(gss) {
            Some(prefix) => Some(VirtualStack { prefix }),
            None => None,
        }
    }

    /// The top visible value.
    pub fn top(&self) -> (r: Option<&S>)
        ensures
            self.values().len() > 0 ==> r == Some(&self.values().last()),
            self.values().len() == 0 ==> r is None,
    {
        self.prefix.get(0)
    }

    /// The visible value `depth` places below the top.
    pub fn get_from_top(&self, depth: usize) -> (r: Option<&S>)
        ensures
            depth < self.values().len() ==> r == Some(&self.values()[self.values().len() - 1 - depth]),
            depth >= self.values().len() ==> r is None,
    {
        self.prefix.get(depth)
    }

    /// The number of visible values.
    pub fn prefix_len(&self) -> (n: usize)
        ensures
            n == self.values().len(),
    {
        self.prefix.len()
    }

    /// Whether the hidden floor is exactly the empty stack, so that the view
    /// stands for one complete stack.
    pub fn is_complete(&self) -> (r: bool)
        ensures
            r == (self.floor().dom() == set![Seq::<S>::empty()]),
    {
        self.prefix.floor_is_empty()
    }

    /// Push a value on top.
    pub fn push(&mut self, value: S)
        ensures
            final(self).values() == old(self).values().push(value),
            final(self).floor() == old(self).floor(),
    {
        self.prefix.push(value);
    }

    /// Replace the top visible value; `false`, changing nothing, when no value
    /// is visible.
    pub fn replace_top(&mut self, value: S) -> (r: bool)
        ensures
            r == (old(self).values().len() > 0),
            r ==> final(self).values() == old(self).values().drop_last().push(value),
            !r ==> final(self).values() == old(self).values(),
            final(self).floor() == old(self).floor(),
    {
        if self.prefix.is_empty() {
            return false;
        }
        self.prefix.popn(1);
        self.prefix.push(value);
        true
    }

    /// Pop visible values and return how many reached the hidden floor.
    pub fn pop_prefix(&mut self, count: usize) -> (rest: usize)
        ensures
            count <= old(self).values().len() ==> rest == 0 && final(self).values() == old(self).values().subrange(
                0,
                old(self).values().len() - count,
            ),
            count > old(self).values().len() ==> rest == count - old(self).values().len()
                && final(self).values() == Seq::<S>::empty(),
            final(self).floor() == old(self).floor(),
    {
        self.prefix.popn(count)
    }

    /// The GSS of the visible values over the floor.
    pub fn into_gss(self) -> (g: WeightedGss<S, W>)
        requires
            exact_values::<S, W>(),
        ensures
            g@ == self.stacks(),
    {
        self.prefix.into_gss()
    }

    /// Apply each effect `(pop, pushes)` to the stacks of the view and merge
    /// the results: `pop` values are popped from every stack long enough,
    /// joining the weights of stacks that become equal, then `pushes` is
    /// pushed.
    pub fn apply_ops(self, ops: Vec<StackEffect<Vec<S>>>) -> (g: WeightedGss<S, W>)
        requires
            exact_values::<S, W>(),
        ensures
            g@ == merged_all(ops@.map_values(|op: StackEffect<Vec<S>>| after_op(self.stacks(), op))),
    {
        let ghost full = self.stacks();
        let gss = self.into_gss();
        let ghost views = ops@.map_values(|op: StackEffect<Vec<S>>| after_op(full, op));
        let mut out = WeightedGss::new();
        let mut i: usize = 0;
        while i < ops.len()
            invariant
                exact_values::<S, W>(),
                gss@ == full,
                views == ops@.map_values(|op: StackEffect<Vec<S>>| after_op(full, op)),
                i <= ops@.len(),
                out@ == merged_all(views.take(i as int)),
            decreases ops@.len() - i,
        {
            assert(views.take(i as int + 1).drop_last() =~= views.take(i as int));
            let popped = gss.popn(ops[i].pop_count());
            proof {
                lemma_popped_all(popped@, full, ops@[i as int].spec_pop() as nat);
            }
            let pushes = ops[i].pushed();
            let mut branch = popped;
            let mut j: usize = 0;
            proof {
                crate::linear_prefix::lemma_with_prefix_empty(branch@);
                assert(pushes@.subrange(0, 0) =~= Seq::<S>::empty());
            }
            while j < pushes.len()
                invariant
                    exact_values::<S, W>(),
                    j <= pushes@.len(),
                    branch@ == with_prefix(popped_all(full, ops@[i as int].spec_pop() as nat), pushes@.subrange(0, j as int)),
                decreases pushes@.len() - j,
            {
                let x = clone_value(&pushes[j]);
                proof {
                    crate::linear_prefix::lemma_pushed_prefix(branch@, x);
                    crate::linear_prefix::lemma_with_prefix_twice(
                        popped_all(full, ops@[i as int].spec_pop() as nat),
                        pushes@.subrange(0, j as int),
                        seq![x],
                    );
                    assert(pushes@.subrange(0, j as int) + seq![x] =~= pushes@.subrange(0, j + 1));
                }
                branch = branch.push(x);
                j += 1;
            }
            proof {
                assert(pushes@.subrange(0, pushes@.len() as int) =~= pushes@);
                assert(*pushes == ops@[i as int].spec_pushed());
            }
            out = out.merge(&branch);
            i += 1;
        }
        assert(views.take(ops@.len() as int) =~= views);
        out
    }
}

} // verus!
