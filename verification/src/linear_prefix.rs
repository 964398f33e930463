//! A mutable view of the linear top of a weighted GSS over its unchanged floor.

use std::sync::Arc;
use vstd::prelude::*;

use crate::gss::{is_sole_top, pushed, WeightedGss};
use crate::node::{
    arc_node, has_symbol, is_live, lemma_live_has_stack, lemma_lookup_edge, lemma_lookup_nonempty, lookup,
    node_is_live, node_push, node_stacks, node_uniform, node_values, wf, Node,
};
use crate::values::{clone_exact, clone_value, exact_values};
use crate::weight::Weight;

verus! {

/// The stacks `k + prefix` for the stacks `k` of `floor`, with their weights.
pub open spec fn with_prefix<S, W>(floor: Map<Seq<S>, W>, prefix: Seq<S>) -> Map<Seq<S>, W> {
    Map::new(
        |k: Seq<S>|
            k.len() >= prefix.len() && k.subrange(k.len() - prefix.len(), k.len() as int) == prefix
                && floor.contains_key(k.subrange(0, k.len() - prefix.len())),
        |k: Seq<S>| floor[k.subrange(0, k.len() - prefix.len())],
    )
}

/// Adding two prefixes one after the other adds their concatenation.
pub proof fn lemma_with_prefix_twice<S, W>(m: Map<Seq<S>, W>, p1: Seq<S>, p2: Seq<S>)
    ensures
        with_prefix(with_prefix(m, p1), p2) == with_prefix(m, p1 + p2),
{
    let a = with_prefix(with_prefix(m, p1), p2);
    let b = with_prefix(m, p1 + p2);
    let p = p1 + p2;
    assert forall|k: Seq<S>| #[trigger] a.contains_key(k) <==> b.contains_key(k) by {
        if k.len() >= p.len() {
            let d = k.subrange(0, k.len() - p2.len());
            assert(d.subrange(0, d.len() - p1.len()) =~= k.subrange(0, k.len() - p.len()));
            assert(d.subrange(d.len() - p1.len(), d.len() as int) =~= k.subrange(k.len() - p.len(), k.len() - p2.len()));
            if k.subrange(k.len() - p.len(), k.len() as int) == p {
                let tail = k.subrange(k.len() - p.len(), k.len() as int);
                assert forall|j: int| 0 <= j < p2.len() implies #[trigger] k.subrange(k.len() - p2.len(), k.len() as int)[j] == p2[j] by {
                    assert(tail[p1.len() + j] == p[p1.len() + j]);
                }
                assert forall|j: int| 0 <= j < p1.len() implies #[trigger] k.subrange(k.len() - p.len(), k.len() - p2.len())[j] == p1[j] by {
                    assert(tail[j] == p[j]);
                }
                assert(k.subrange(k.len() - p.len(), k.len() - p2.len()) =~= p1);
                assert(k.subrange(k.len() - p2.len(), k.len() as int) =~= p2);
            }
            if k.subrange(k.len() - p2.len(), k.len() as int) == p2 && d.subrange(d.len() - p1.len(), d.len() as int) == p1 {
                assert(k.subrange(k.len() - p.len(), k.len() as int) =~= p);
            }
        } else if k.len() >= p2.len() {
            let d = k.subrange(0, k.len() - p2.len());
            assert(d.len() < p1.len());
        }
    }
    assert forall|k: Seq<S>| #[trigger] a.contains_key(k) implies a[k] == b[k] by {
        let d = k.subrange(0, k.len() - p2.len());
        assert(d.subrange(0, d.len() - p1.len()) =~= k.subrange(0, k.len() - p.len()));
    }
    assert(a =~= b);
}

/// A node without the empty stack and with a single edge holds the stacks of
/// its child with the edge symbol on top.
pub proof fn lemma_single_edge<S, W>(n: Node<S, W>)
    requires
        wf(n),
        n.empty is None,
        n.children@.len() == 1,
    ensures
        node_stacks(n) == with_prefix(node_stacks(*n.children@[0].child), seq![n.children@[0].symbol]),
{
    let c = *n.children@[0].child;
    let s = n.children@[0].symbol;
    let a = node_stacks(n);
    let b = with_prefix(node_stacks(c), seq![s]);
    assert forall|k: Seq<S>| #[trigger] a.contains_key(k) <==> b.contains_key(k) by {
        if k.len() > 0 {
            lemma_lookup_nonempty(n, k);
            assert(k.subrange(0, k.len() - 1) =~= k.drop_last());
            assert(k.subrange(k.len() - 1, k.len() as int) =~= seq![k.last()]);
            if k.last() == s {
                lemma_lookup_edge(n, 0, k.drop_last());
                assert(k.drop_last().push(s) =~= k);
            } else {
                assert(!has_symbol(n.children@, k.last()));
                assert(seq![k.last()] != seq![s]) by {
                    assert(seq![k.last()][0] != seq![s][0]);
                }
            }
        }
    }
    assert forall|k: Seq<S>| #[trigger] a.contains_key(k) implies a[k] == b[k] by {
        lemma_lookup_nonempty(n, k);
        assert(k.subrange(0, k.len() - 1) =~= k.drop_last());
        lemma_lookup_edge(n, 0, k.drop_last());
        assert(k.drop_last().push(s) =~= k);
    }
    assert(a =~= b);
}

/// A node has a linear top exactly when its stacks have one sole top.
pub proof fn lemma_sole_top_node<S, W>(n: Node<S, W>)
    requires
        wf(n),
    ensures
        (n.empty is None && n.children@.len() == 1) <==> exists|x: S| #[trigger] is_sole_top(node_stacks(n), x),
{
    let m = node_stacks(n);
    crate::node::lemma_dom_finite(n);
    assert(m.dom() =~= crate::node::node_dom(n));
    if n.empty is None && n.children@.len() == 1 {
        let x = n.children@[0].symbol;
        lemma_live_has_stack(n);
        let k0 = choose|k: Seq<S>| lookup(n, k) is Some;
        assert(m.dom().contains(k0));
        assert forall|k: Seq<S>| #[trigger] m.contains_key(k) implies k.len() > 0 && k.last() == x by {
            if k.len() > 0 {
                lemma_lookup_nonempty(n, k);
            }
        }
        assert(is_sole_top(m, x));
    } else {
        assert forall|y: S| !(#[trigger] is_sole_top(m, y)) by {
            if is_sole_top(m, y) {
                if n.empty is Some {
                    assert(m.contains_key(Seq::<S>::empty()));
                } else if n.children@.len() == 0 {
                    assert(m.dom() =~= Set::<Seq<S>>::empty());
                } else {
                    let c0 = *n.children@[0].child;
                    let c1 = *n.children@[1].child;
                    lemma_live_has_stack(c0);
                    lemma_live_has_stack(c1);
                    let t0 = choose|t: Seq<S>| lookup(c0, t) is Some;
                    let t1 = choose|t: Seq<S>| lookup(c1, t) is Some;
                    lemma_lookup_edge(n, 0, t0);
                    lemma_lookup_edge(n, 1, t1);
                    assert(m.contains_key(t0.push(n.children@[0].symbol)));
                    assert(m.contains_key(t1.push(n.children@[1].symbol)));
                }
            }
        }
    }
}

/// Mutable view of a linear top prefix over an unchanged hidden floor.
///
/// The hidden floor may still be branched. Use [`Self::floor_is_empty`] to test
/// whether the prefix represents one complete concrete stack.
#[derive(Clone, Debug)]
pub struct LinearPrefix<S, W> {
    values: Vec<S>,
    floor: WeightedGss<S, W>,
}

impl<S, W> LinearPrefix<S, W> {
    /// The accessible values, bottom-to-top.
    pub closed spec fn prefix(self) -> Seq<S> {
        self.values@
    }

    /// The stacks of the hidden floor, with their weights.
    pub closed spec fn floor(self) -> Map<Seq<S>, W> {
        self.floor@
    }

    /// Return the number of values in the accessible linear prefix.
    pub fn len(&self) -> (n: usize)
        ensures
            n == self.prefix().len(),
    {
        self.values.len()
    }

    /// The accessible values, bottom-to-top, and the hidden floor.
    pub(crate) fn parts(&self) -> (r: (&Vec<S>, &WeightedGss<S, W>))
        ensures
            r.0@ == self.prefix(),
            r.1@ == self.floor(),
    {
        (&self.values, &self.floor)
    }

    /// Return whether the accessible prefix is empty.
    pub fn is_empty(&self) -> (r: bool)
        ensures
            r == (self.prefix().len() == 0),
    {
        self.values.len() == 0
    }

    /// Return a visible value by depth from the top.
    pub fn get(&self, depth_from_top: usize) -> (r: Option<&S>)
        ensures
            depth_from_top < self.prefix().len() ==> r == Some(&self.prefix()[self.prefix().len() - 1 - depth_from_top]),
            depth_from_top >= self.prefix().len() ==> r is None,
    {
        if depth_from_top < self.values.len() {
            Some(&self.values[self.values.len() - 1 - depth_from_top])
        } else {
            None
        }
    }

    /// Return whether the hidden floor is exactly the empty stack.
    pub fn floor_is_empty(&self) -> (r: bool)
        ensures
            r == (self.floor().dom() == set![Seq::<S>::empty()]),
    {
        let root = self.floor.root();
        proof {
            let n = arc_node(root);
            let e = Seq::<S>::empty();
            if n.empty is Some && n.children@.len() == 0 {
                assert(self.floor().dom() =~= set![e]) by {
                    assert forall|k: Seq<S>| #[trigger] self.floor().dom().contains(k) implies k == e by {
                        if k.len() > 0 {
                            lemma_lookup_nonempty(n, k);
                        }
                    }
                }
            } else if n.empty is None {
                assert(!self.floor().dom().contains(e));
            } else {
                let c = *n.children@[0].child;
                lemma_live_has_stack(c);
                let t = choose|t: Seq<S>| lookup(c, t) is Some;
                lemma_lookup_edge(n, 0, t);
                let k = t.push(n.children@[0].symbol);
                assert(self.floor().dom().contains(k));
                assert(!set![e].contains(k));
            }
        }
        root.empty.is_some() && root.children.len() == 0
    }

    /// Push one value onto the prefix.
    pub fn push(&mut self, value: S)
        ensures
            final(self).prefix() == old(self).prefix().push(value),
            final(self).floor() == old(self).floor(),
    {
        self.values.push(value);
    }

    /// Pop values from the prefix and return the number that reached its floor.
    pub fn popn(&mut self, count: usize) -> (rest: usize)
        ensures
            count <= old(self).prefix().len() ==> rest == 0 && final(self).prefix() == old(self).prefix().subrange(
                0,
                old(self).prefix().len() - count,
            ),
            count > old(self).prefix().len() ==> rest == count - old(self).prefix().len() && final(self).prefix()
                == Seq::<S>::empty(),
            final(self).floor() == old(self).floor(),
    {
        let ghost start = self.values@;
        let mut rest = count;
        while rest > 0 && self.values.len() > 0
            invariant
                self.values@.len() <= start.len(),
                self.values@ == start.subrange(0, self.values@.len() as int),
                rest + (start.len() - self.values@.len()) == count,
                self.floor() == old(self).floor(),
            decreases rest,
        {
            self.values.pop();
            rest -= 1;
            proof {
                assert(self.values@ =~= start.subrange(0, self.values@.len() as int));
            }
        }
        proof {
            if count > start.len() {
                assert(self.values@ =~= Seq::<S>::empty());
            }
        }
        rest
    }
}

impl<S: PartialEq + Clone, W: Weight + Clone> LinearPrefix<S, W> {
    /// Convert the view back into a weighted GSS.
    pub fn into_gss(self) -> (g: WeightedGss<S, W>)
        requires
            exact_values::<S, W>(),
        ensures
            g@ == with_prefix(self.floor(), self.prefix()),
    {
        let ghost p = self.values@;
        let ghost fl = self.floor@;
        let mut g = self.floor.clone();
        let mut i: usize = 0;
        proof {
            lemma_with_prefix_empty(fl);
            assert(p.subrange(0, 0) =~= Seq::<S>::empty());
        }
        while i < self.values.len()
            invariant
                exact_values::<S, W>(),
                p == self.values@,
                i <= p.len(),
                g@ == with_prefix(fl, p.subrange(0, i as int)),
            decreases p.len() - i,
        {
            let x = clone_value(&self.values[i]);
            let next = g.push(x);
            proof {
                let pre = p.subrange(0, i as int);
                assert(p.subrange(0, i + 1) =~= pre + seq![x]);
                lemma_pushed_prefix(g@, x);
                lemma_with_prefix_twice(fl, pre, seq![x]);
            }
            g = next;
            i += 1;
        }
        proof {
            assert(p.subrange(0, p.len() as int) =~= p);
        }
        g
    }
}

/// Pushing `x` adds the one-value prefix `[x]`.
pub proof fn lemma_pushed_prefix<S, W>(m: Map<Seq<S>, W>, x: S)
    ensures
        pushed(m, x) == with_prefix(m, seq![x]),
{
    let a = pushed(m, x);
    let b = with_prefix(m, seq![x]);
    assert forall|k: Seq<S>| #[trigger] a.contains_key(k) <==> b.contains_key(k) by {
        if k.len() > 0 {
            assert(k.subrange(0, k.len() - 1) =~= k.drop_last());
            assert(k.subrange(k.len() - 1, k.len() as int) =~= seq![k.last()]);
            if k.subrange(k.len() - 1, k.len() as int) == seq![x] {
                assert(seq![k.last()][0] == seq![x][0]);
            }
        }
    }
    assert forall|k: Seq<S>| #[trigger] a.contains_key(k) implies a[k] == b[k] by {
        assert(k.subrange(0, k.len() - 1) =~= k.drop_last());
    }
    assert(a =~= b);
}

/// Every stack of `m` carries the same weight.
pub open spec fn one_weight<S, W>(m: Map<Seq<S>, W>) -> bool {
    forall|a: Seq<S>, b: Seq<S>| #![trigger m[a], m[b]] m.contains_key(a) && m.contains_key(b) ==> m[a] == m[b]
}

/// A node's weights are one value exactly when it holds a stack and all its
/// stacks carry the same weight.
pub proof fn lemma_uniform_one_weight<S, W>(n: Node<S, W>)
    requires
        wf(n),
    ensures
        (exists|w: W| node_values(n) == set![w]) <==> (one_weight(node_stacks(n)) && exists|k: Seq<S>|
            #[trigger] node_stacks(n).contains_key(k)),
{
    let m = node_stacks(n);
    if exists|w: W| node_values(n) == set![w] {
        let w = choose|w: W| node_values(n) == set![w];
        assert(node_values(n).contains(w));
        let k = choose|k: Seq<S>| #[trigger] lookup(n, k) == Some(w);
        assert(m.contains_key(k));
        assert forall|a: Seq<S>, b: Seq<S>| m.contains_key(a) && m.contains_key(b) implies #[trigger] m[a] == #[trigger] m[b] by {
            assert(lookup(n, a) == Some(m[a]));
            assert(lookup(n, b) == Some(m[b]));
            assert(node_values(n).contains(m[a]));
            assert(node_values(n).contains(m[b]));
        }
    }
    if one_weight(m) && exists|k: Seq<S>| #[trigger] m.contains_key(k) {
        let k = choose|k: Seq<S>| #[trigger] m.contains_key(k);
        let w = m[k];
        assert forall|v: W| node_values(n).contains(v) <==> #[trigger] set![w].contains(v) by {
            if node_values(n).contains(v) {
                let k2 = choose|k2: Seq<S>| #[trigger] lookup(n, k2) == Some(v);
                assert(m.contains_key(k2));
                assert(m[k2] == m[k]);
            }
            if v == w {
                assert(lookup(n, k) == Some(w));
            }
        }
        assert(node_values(n) =~= set![w]);
    }
}

/// Adding a prefix keeps whether all stacks carry the same weight.
pub proof fn lemma_one_weight_prefix<S, W>(floor: Map<Seq<S>, W>, p: Seq<S>)
    ensures
        one_weight(with_prefix(floor, p)) <==> one_weight(floor),
        (exists|k: Seq<S>| #[trigger] with_prefix(floor, p).contains_key(k)) ==> exists|k: Seq<S>|
            #[trigger] floor.contains_key(k),
{
    let m = with_prefix(floor, p);
    if one_weight(floor) {
        assert forall|a: Seq<S>, b: Seq<S>| m.contains_key(a) && m.contains_key(b) implies #[trigger] m[a] == #[trigger] m[b] by {
            let fa = a.subrange(0, a.len() - p.len());
            let fb = b.subrange(0, b.len() - p.len());
            assert(floor[fa] == floor[fb]);
        }
    }
    if one_weight(m) {
        assert forall|a: Seq<S>, b: Seq<S>| floor.contains_key(a) && floor.contains_key(b) implies #[trigger] floor[a] == #[trigger] floor[b] by {
            let ka = a + p;
            let kb = b + p;
            assert(ka.subrange(0, ka.len() - p.len()) =~= a);
            assert(ka.subrange(ka.len() - p.len(), ka.len() as int) =~= p);
            assert(kb.subrange(0, kb.len() - p.len()) =~= b);
            assert(kb.subrange(kb.len() - p.len(), kb.len() as int) =~= p);
            assert(m.contains_key(ka));
            assert(m.contains_key(kb));
            assert(m[ka] == m[kb]);
        }
    }
    if exists|k: Seq<S>| #[trigger] m.contains_key(k) {
        let k = choose|k: Seq<S>| #[trigger] m.contains_key(k);
        assert(floor.contains_key(k.subrange(0, k.len() - p.len())));
    }
}

/// The longest common top of the stacks of `gss` over the floor that it
/// leaves, whatever the weights; `None` unless all stacks share one top.
pub(crate) fn linear_top<S: PartialEq + Clone, W: Weight + Clone>(gss: &WeightedGss<S, W>) -> (r: Option<LinearPrefix<S, W>>)
    requires
        exact_values::<S, W>(),
    ensures
        r is Some <==> exists|x: S| #[trigger] is_sole_top(gss@, x),
        r matches Some(p) ==> {
            &&& p.prefix().len() > 0
            &&& with_prefix(p.floor(), p.prefix()) == gss@
            &&& !exists|x: S| #[trigger] is_sole_top(p.floor(), x)
        },
{
    let root = gss.root();
    proof {
        lemma_sole_top_node(arc_node(root));
    }
    if !(root.empty.is_none() && root.children.len() == 1) {
        return None;
    }
    let mut values: Vec<S> = Vec::new();
    let mut cur = root.clone();
    proof {
        assert(with_prefix(node_stacks(*cur), values@.reverse()) =~= gss@) by {
            lemma_with_prefix_empty(node_stacks(*cur));
            assert(values@.reverse() =~= Seq::<S>::empty());
        }
    }
    while cur.empty.is_none() && cur.children.len() == 1
        invariant
            exact_values::<S, W>(),
            wf(*cur),
            with_prefix(node_stacks(*cur), values@.reverse()) == gss@,
            values@.len() == 0 ==> (cur.empty is None && cur.children@.len() == 1),
        decreases *cur,
    {
        let s = clone_value(&cur.children[0].symbol);
        let next = cur.children[0].child.clone();
        proof {
            lemma_single_edge(arc_node(&cur));
            lemma_with_prefix_twice(node_stacks(arc_node(&next)), seq![s], values@.reverse());
            assert(values@.push(s).reverse() =~= seq![s] + values@.reverse());
        }
        values.push(s);
        cur = next;
    }
    let mut bottom_up: Vec<S> = Vec::new();
    let mut i = values.len();
    while i > 0
        invariant
            exact_values::<S, W>(),
            i <= values@.len(),
            bottom_up@ == values@.subrange(i as int, values@.len() as int).reverse(),
        decreases i,
    {
        i -= 1;
        bottom_up.push(clone_value(&values[i]));
        proof {
            assert(bottom_up@ =~= values@.subrange(i as int, values@.len() as int).reverse());
        }
    }
    proof {
        lemma_sole_top_node(arc_node(&cur));
        assert(values@.subrange(0, values@.len() as int) =~= values@);
    }
    Some(LinearPrefix { values: bottom_up, floor: WeightedGss::from_root(cur) })
}

/// Try to expose a mutable linear top prefix over an unchanged hidden floor.
///
/// Returns a view exactly when all stacks carry one weight, every stack is
/// non-empty and all stacks share one top value. The view's prefix is the
/// longest common top of all stacks that leaves a floor with the same property
/// false.
pub fn linear_prefix<S: PartialEq + Clone, W: Weight + Clone + PartialEq>(gss: &WeightedGss<S, W>) -> (r: Option<LinearPrefix<S, W>>)
    requires
        exact_values::<S, W>(),
        vstd::laws_eq::obeys_concrete_eq::<W>(),
    ensures
        r is Some <==> (exists|x: S| #[trigger] is_sole_top(gss@, x)) && one_weight(gss@),
        r matches Some(p) ==> {
            &&& p.prefix().len() > 0
            &&& with_prefix(p.floor(), p.prefix()) == gss@
            &&& !exists|x: S| #[trigger] is_sole_top(p.floor(), x)
        },
{
    let p = match linear_top(gss) {
        Some(p) => p,
        None => return None,
    };
    let floor_root = p.floor.root();
    let uniform = node_uniform(floor_root);
    proof {
        lemma_uniform_one_weight(arc_node(floor_root));
        lemma_one_weight_prefix(p.floor@, p.values@);
        let x = choose|x: S| #[trigger] is_sole_top(gss@, x);
        let k = choose|k: Seq<S>| #[trigger] gss@.contains_key(k);
        assert(gss@.contains_key(k));
    }
    if uniform.is_none() {
        return None;
    }
    Some(p)
}

/// Adding the empty prefix changes nothing.
pub proof fn lemma_with_prefix_empty<S, W>(m: Map<Seq<S>, W>)
    ensures
        with_prefix(m, Seq::<S>::empty()) == m,
{
    let e = Seq::<S>::empty();
    assert forall|k: Seq<S>| #[trigger] with_prefix(m, e).contains_key(k) <==> m.contains_key(k) by {
        assert(k.subrange(0, k.len() as int) =~= k);
        assert(k.subrange(k.len() as int, k.len() as int) =~= e);
    }
    assert forall|k: Seq<S>| #[trigger] m.contains_key(k) implies with_prefix(m, e)[k] == m[k] by {
        assert(k.subrange(0, k.len() as int) =~= k);
        assert(k.subrange(k.len() as int, k.len() as int) =~= e);
        assert(with_prefix(m, e).contains_key(k));
    }
    assert(with_prefix(m, e) =~= m);
}


/// Stacks of `with_prefix(floor, p)` end with `p`, and lose it back into `floor`.
pub proof fn lemma_with_prefix_member<S, W>(floor: Map<Seq<S>, W>, p: Seq<S>, k: Seq<S>)
    requires
        with_prefix(floor, p).contains_key(k),
    ensures
        k.len() >= p.len(),
        k.subrange(k.len() - p.len(), k.len() as int) == p,
        floor.contains_key(k.subrange(0, k.len() - p.len())),
        k.subrange(0, k.len() - p.len()) + p == k,
{
    assert(k.subrange(0, k.len() - p.len()) + k.subrange(k.len() - p.len(), k.len() as int) =~= k);
}

/// A stack of `floor` with `p` on top is a stack of `with_prefix(floor, p)`.
pub proof fn lemma_with_prefix_add<S, W>(floor: Map<Seq<S>, W>, p: Seq<S>, f: Seq<S>)
    requires
        floor.contains_key(f),
    ensures
        with_prefix(floor, p).contains_key(f + p),
        with_prefix(floor, p)[f + p] == floor[f],
{
    let k = f + p;
    assert(k.subrange(0, k.len() - p.len()) =~= f);
    assert(k.subrange(k.len() - p.len(), k.len() as int) =~= p);
}

/// A longer prefix over a floor without a sole top cannot describe the same
/// non-empty stacks as a shorter one over a floor without a sole top.
proof fn lemma_no_longer_prefix<S, W>(f1: Map<Seq<S>, W>, p1: Seq<S>, f2: Map<Seq<S>, W>, p2: Seq<S>)
    requires
        with_prefix(f1, p1) == with_prefix(f2, p2),
        exists|k: Seq<S>| #[trigger] with_prefix(f1, p1).contains_key(k),
        !exists|x: S| #[trigger] is_sole_top(f1, x),
    ensures
        p2.len() <= p1.len(),
{
    if p2.len() > p1.len() {
        let m = with_prefix(f1, p1);
        let d = p2.len() - p1.len();
        let q = p2.subrange(0, d);
        let k0 = choose|k: Seq<S>| #[trigger] m.contains_key(k);
        lemma_with_prefix_member(f1, p1, k0);
        let x = q.last();
        assert(is_sole_top(f1, x)) by {
            let f0 = k0.subrange(0, k0.len() - p1.len());
            assert(f1.contains_key(f0));
            assert forall|f: Seq<S>| #[trigger] f1.contains_key(f) implies f.len() > 0 && f.last() == x by {
                lemma_with_prefix_add(f1, p1, f);
                let k = f + p1;
                assert(with_prefix(f2, p2).contains_key(k));
                lemma_with_prefix_member(f2, p2, k);
                assert(k.subrange(k.len() - p2.len(), k.len() as int) == p2);
                assert(f.len() >= d);
                assert(k[f.len() - 1] == p2[d - 1]) by {
                    assert(k.subrange(k.len() - p2.len(), k.len() as int)[d - 1] == p2[d - 1]);
                }
                assert(k[f.len() - 1] == f[f.len() - 1]);
            }
        }
        assert(false);
    }
}

/// The longest common top of a non-empty set of stacks is unique: two
/// prefixes over floors without a sole top that describe the same stacks are
/// equal, and so are their floors.
pub proof fn lemma_linear_top_unique<S, W>(f1: Map<Seq<S>, W>, p1: Seq<S>, f2: Map<Seq<S>, W>, p2: Seq<S>)
    requires
        with_prefix(f1, p1) == with_prefix(f2, p2),
        exists|k: Seq<S>| #[trigger] with_prefix(f1, p1).contains_key(k),
        !exists|x: S| #[trigger] is_sole_top(f1, x),
        !exists|x: S| #[trigger] is_sole_top(f2, x),
    ensures
        p1 == p2,
        f1 == f2,
{
    let m = with_prefix(f1, p1);
    lemma_no_longer_prefix(f1, p1, f2, p2);
    assert(exists|k: Seq<S>| #[trigger] with_prefix(f2, p2).contains_key(k)) by {
        let k0 = choose|k: Seq<S>| #[trigger] m.contains_key(k);
        assert(with_prefix(f2, p2).contains_key(k0));
    }
    lemma_no_longer_prefix(f2, p2, f1, p1);
    let k0 = choose|k: Seq<S>| #[trigger] m.contains_key(k);
    lemma_with_prefix_member(f1, p1, k0);
    lemma_with_prefix_member(f2, p2, k0);
    assert(p1 =~= p2);
    assert forall|f: Seq<S>| #[trigger] f1.contains_key(f) <==> f2.contains_key(f) by {
        if f1.contains_key(f) {
            lemma_with_prefix_add(f1, p1, f);
            lemma_with_prefix_member(f2, p2, f + p1);
            assert((f + p1).subrange(0, (f + p1).len() - p2.len()) =~= f);
        }
        if f2.contains_key(f) {
            lemma_with_prefix_add(f2, p2, f);
            lemma_with_prefix_member(f1, p1, f + p2);
            assert((f + p2).subrange(0, (f + p2).len() - p1.len()) =~= f);
        }
    }
    assert forall|f: Seq<S>| #[trigger] f1.contains_key(f) implies f1[f] == f2[f] by {
        lemma_with_prefix_add(f1, p1, f);
        lemma_with_prefix_add(f2, p2, f);
    }
    assert(f1 =~= f2);
}

} // verus!
