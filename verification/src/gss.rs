//! The weighted GSS: a persistent finite map from bottom-to-top stacks to
//! weights, with stack operations that join the weights of stacks they make
//! coincide.

use std::sync::Arc;
use vstd::prelude::*;

use crate::node::{
    children_wf, clone_stack, covers, dead_node, distinct_keys, entries_of, is_live, lemma_depth,
    lemma_dom_finite, lemma_live_has_stack, lemma_lookup_below_index, lemma_lookup_edge,
    lemma_lookup_nonempty, lookup, mapped_by, mapped_total, node_collect, node_map, node_dom, node_filter_map, node_from_stack,
    node_is_live, node_joined, node_merge, node_pop_top, node_popn, node_push, node_retain_empty,
    node_retain_top, node_stacks, node_tops, node_values, popn_contrib, has_symbol, symbol_index, wf, Node,
};
use crate::stack_visit::StackLimitExceeded;
use crate::values::{clone_exact, clone_value, exact_values};
use crate::weight::{is_join_of, is_opt_join_of, lemma_join_laws, spec_join, Weight};

verus! {

/// The weight of stack `k` in `m`, if `m` holds it.
pub open spec fn weight_at<S, W>(m: Map<Seq<S>, W>, k: Seq<S>) -> Option<W> {
    if m.contains_key(k) {
        Some(m[k])
    } else {
        None
    }
}

/// Every stack of `m` with `x` pushed on top.
pub open spec fn pushed<S, W>(m: Map<Seq<S>, W>, x: S) -> Map<Seq<S>, W> {
    Map::new(
        |k: Seq<S>| k.len() > 0 && k.last() == x && m.contains_key(k.drop_last()),
        |k: Seq<S>| m[k.drop_last()],
    )
}

/// The union of `a` and `b`, joining the weights of stacks in both.
pub open spec fn merged<S, W: Weight>(a: Map<Seq<S>, W>, b: Map<Seq<S>, W>) -> Map<Seq<S>, W> {
    Map::new(
        |k: Seq<S>| a.contains_key(k) || b.contains_key(k),
        |k: Seq<S>|
            if a.contains_key(k) && b.contains_key(k) {
                spec_join(a[k], b[k])
            } else if a.contains_key(k) {
                a[k]
            } else {
                b[k]
            },
    )
}

/// The merge of all the maps of `ms`, in order.
pub open spec fn merged_all<S, W: Weight>(ms: Seq<Map<Seq<S>, W>>) -> Map<Seq<S>, W>
    decreases ms.len(),
{
    if ms.len() == 0 {
        Map::empty()
    } else {
        merged(merged_all(ms.drop_last()), ms.last())
    }
}

/// The weights of the stacks of `m` that become `k` when `count` values are popped.
pub open spec fn popped_weights<S, W>(m: Map<Seq<S>, W>, count: nat, k: Seq<S>) -> Set<W> {
    Set::new(|w: W| exists|t: Seq<S>| t.len() == count && m.contains_key(k + t) && #[trigger] m[k + t] == w)
}

/// The stacks of `m` whose top is `x`.
pub open spec fn retained_top<S, W>(m: Map<Seq<S>, W>, x: S) -> Map<Seq<S>, W> {
    Map::new(|k: Seq<S>| m.contains_key(k) && k.len() > 0 && k.last() == x, |k: Seq<S>| m[k])
}

/// The empty stack of `m`, if it holds it.
pub open spec fn retained_empty<S, W>(m: Map<Seq<S>, W>) -> Map<Seq<S>, W> {
    Map::new(|k: Seq<S>| m.contains_key(k) && k.len() == 0, |k: Seq<S>| m[k])
}

/// The stacks of `m` whose top is `x`, with that top popped.
pub open spec fn popped_top<S, W>(m: Map<Seq<S>, W>, x: S) -> Map<Seq<S>, W> {
    Map::new(|t: Seq<S>| m.contains_key(t.push(x)), |t: Seq<S>| m[t.push(x)])
}

/// `x` is the top of some stack of `m`.
pub open spec fn is_top<S, W>(m: Map<Seq<S>, W>, x: S) -> bool {
    exists|k: Seq<S>| m.contains_key(k) && k.len() > 0 && k.last() == x
}

/// `m` holds stacks, every one of them non-empty with top `x`.
pub open spec fn is_sole_top<S, W>(m: Map<Seq<S>, W>, x: S) -> bool {
    &&& exists|k: Seq<S>| #[trigger] m.contains_key(k)
    &&& forall|k: Seq<S>| #[trigger] m.contains_key(k) ==> k.len() > 0 && k.last() == x
}

/// The entries of `l` are exactly the stacks of `m` with their weights, each once.
pub open spec fn lists_stacks<S, W>(m: Map<Seq<S>, W>, l: Seq<(Vec<S>, W)>) -> bool {
    &&& forall|i: int, j: int| 0 <= i < l.len() && 0 <= j < l.len() && i != j ==> l[i].0@ != l[j].0@
    &&& forall|i: int| 0 <= i < l.len() ==> m.contains_key(#[trigger] l[i].0@) && m[l[i].0@] == l[i].1
    &&& forall|k: Seq<S>| #[trigger] m.contains_key(k) ==> exists|i: int| 0 <= i < l.len() && l[i].0@ == k
}

/// The weights that the entries of `l` give to stack `k`.
pub open spec fn entry_weights<S, W>(l: Seq<(Vec<S>, W)>, k: Seq<S>) -> Set<W> {
    Set::new(|w: W| exists|i: int| 0 <= i < l.len() && l[i].0@ == k && #[trigger] l[i].1 == w)
}

/// An unweighted graph-structured stack.
pub type Gss<S> = WeightedGss<S, ()>;

/// A persistent collection of weighted stack alternatives.
///
/// Stacks are supplied and returned bottom-to-top. If several alternatives
/// denote the same concrete stack, their weights are joined.
#[derive(Debug)]
pub struct WeightedGss<S, W> {
    pub(crate) root: Arc<Node<S, W>>,
}

impl<S, W> WeightedGss<S, W> {
    /// The trie that represents this GSS.
    pub(crate) closed spec fn root_node(&self) -> Node<S, W> {
        *self.root
    }

    #[verifier::type_invariant]
    spec fn inv(self) -> bool {
        wf(*self.root)
    }

    /// The stacks of this GSS, bottom-to-top, with their weights.
    pub closed spec fn stacks(self) -> Map<Seq<S>, W> {
        Map::new(|k: Seq<S>| lookup(*self.root, k) is Some, |k: Seq<S>| lookup(*self.root, k)->0)
    }

    /// The GSS represented by a well-formed trie.
    pub(crate) fn from_root(root: Arc<Node<S, W>>) -> (g: Self)
        requires
            wf(*root),
        ensures
            g@ == node_stacks(*root),
            g.root_node() == *root,
    {
        let g = WeightedGss { root };
        assert(g@ =~= node_stacks(*g.root));
        g
    }

    /// The well-formed trie that represents this GSS.
    pub(crate) fn root(&self) -> (r: &Arc<Node<S, W>>)
        ensures
            **r == self.root_node(),
            wf(**r),
            self@ == node_stacks(**r),
    {
        proof {
            use_type_invariant(self);
            assert(self@ =~= node_stacks(self.root_node()));
        }
        &self.root
    }

    /// Construct a GSS containing no stack alternatives.
    pub fn new() -> (g: Self)
        ensures
            g@ == Map::<Seq<S>, W>::empty(),
    {
        let root = dead_node();
        let g = WeightedGss { root };
        assert(g@ =~= Map::<Seq<S>, W>::empty());
        g
    }

    /// Return whether this GSS contains no alternatives.
    pub fn is_empty(&self) -> (r: bool)
        ensures
            r == (self@ == Map::<Seq<S>, W>::empty()),
    {
        proof {
            use_type_invariant(self);
            if is_live(self.root_node()) {
                lemma_live_has_stack(self.root_node());
                let k = choose|k: Seq<S>| lookup(self.root_node(), k) is Some;
                assert(self@.contains_key(k));
                assert(self@ != Map::<Seq<S>, W>::empty());
            } else {
                assert(self@ =~= Map::<Seq<S>, W>::empty());
            }
        }
        !node_is_live(&self.root)
    }

    /// Return the maximum represented stack depth, saturating at `usize::MAX`.
    pub fn max_depth(&self) -> (d: usize)
        ensures
            self@.dom().finite(),
            forall|k: Seq<S>| #[trigger] self@.contains_key(k) ==> k.len() <= d || d == usize::MAX,
            self@.dom().len() > 0 ==> exists|k: Seq<S>| #[trigger] self@.contains_key(k) && k.len() >= d,
            self@ == Map::<Seq<S>, W>::empty() ==> d == 0,
    {
        proof {
            use_type_invariant(self);
            lemma_depth(self.root_node());
            lemma_dom_finite(self.root_node());
            assert(self@.dom() =~= node_dom(self.root_node()));
            if !is_live(self.root_node()) {
                assert(self@.dom() =~= Set::<Seq<S>>::empty());
            } else if self@.dom().len() > 0 {
                let k = choose|k: Seq<S>| #[trigger] lookup(self.root_node(), k) is Some && k.len() >= self.root.depth;
                assert(self@.contains_key(k));
            }
            if self@ == Map::<Seq<S>, W>::empty() && is_live(self.root_node()) {
                lemma_live_has_stack(self.root_node());
                let k = choose|k: Seq<S>| lookup(self.root_node(), k) is Some;
                assert(self@.contains_key(k));
            }
        }
        self.root.depth
    }
}

impl<S, W> Clone for WeightedGss<S, W> {
    /// A handle to the same persistent value.
    fn clone(&self) -> (g: Self)
        ensures
            g@ == self@,
    {
        proof {
            use_type_invariant(self);
        }
        WeightedGss { root: self.root.clone() }
    }
}

impl<S, W> Default for WeightedGss<S, W> {
    /// The GSS with no alternatives.
    fn default() -> (g: Self)
        ensures
            g@ == Map::<Seq<S>, W>::empty(),
    {
        Self::new()
    }
}

impl<S, W> View for WeightedGss<S, W> {
    type V = Map<Seq<S>, W>;

    closed spec fn view(&self) -> Map<Seq<S>, W> {
        self.stacks()
    }
}

impl<S: PartialEq + Clone, W: Weight + Clone> WeightedGss<S, W> {
    /// Construct a GSS containing one bottom-to-top stack.
    pub fn from_stack(stack: Vec<S>, weight: W) -> (g: Self)
        requires
            exact_values::<S, W>(),
        ensures
            g@ == map![stack@ => weight],
    {
        let root = node_from_stack(&stack, weight);
        let g = WeightedGss { root };
        assert(g@ =~= map![stack@ => weight]);
        g
    }

    /// Construct several bottom-to-top stacks carrying one shared weight.
    pub fn from_stacks_with_weight(stacks: Vec<Vec<S>>, weight: W) -> (g: Self)
        requires
            exact_values::<S, W>(),
        ensures
            forall|k: Seq<S>| #[trigger] g@.contains_key(k) <==> exists|i: int| 0 <= i < stacks@.len() && stacks@[i]@ == k,
            forall|k: Seq<S>| #[trigger] g@.contains_key(k) ==> g@[k] == weight,
    {
        let mut g = WeightedGss::new();
        let mut i: usize = 0;
        while i < stacks.len()
            invariant
                exact_values::<S, W>(),
                i <= stacks@.len(),
                forall|k: Seq<S>| #[trigger] g@.contains_key(k) <==> exists|j: int| 0 <= j < i && stacks@[j]@ == k,
                forall|k: Seq<S>| #[trigger] g@.contains_key(k) ==> g@[k] == weight,
            decreases stacks@.len() - i,
        {
            let one = WeightedGss::from_stack(clone_stack(&stacks[i]), clone_value(&weight));
            let next = g.merge(&one);
            proof {
                assert forall|k: Seq<S>| #[trigger] next@.contains_key(k) implies next@[k] == weight by {
                    if g@.contains_key(k) && one@.contains_key(k) {
                        lemma_join_laws(weight, weight, weight);
                    }
                }
                assert forall|k: Seq<S>| #[trigger] next@.contains_key(k) <==> exists|j: int| 0 <= j < i + 1 && stacks@[j]@ == k by {
                    if next@.contains_key(k) && !g@.contains_key(k) {
                        assert(stacks@[i as int]@ == k);
                    }
                    if exists|j: int| 0 <= j < i + 1 && stacks@[j]@ == k {
                        let j = choose|j: int| 0 <= j < i + 1 && stacks@[j]@ == k;
                        if j < i {
                            assert(g@.contains_key(k));
                        } else {
                            assert(one@.contains_key(k));
                        }
                    }
                }
            }
            g = next;
            i += 1;
        }
        g
    }

    /// Construct from bottom-to-top stack and weight pairs; the weights of
    /// equal stacks are joined.
    pub fn from_stacks(entries: Vec<(Vec<S>, W)>) -> (g: Self)
        requires
            exact_values::<S, W>(),
        ensures
            forall|k: Seq<S>| #[trigger] g@.contains_key(k) <==> exists|i: int| 0 <= i < entries@.len() && entries@[i].0@ == k,
            forall|k: Seq<S>| #[trigger] g@.contains_key(k) ==> is_join_of(g@[k], entry_weights(entries@, k)),
    {
        let mut g = WeightedGss::new();
        let mut i: usize = 0;
        proof {
            assert forall|k: Seq<S>| #[trigger] is_opt_join_of(weight_at(g@, k), entry_weights(entries@.subrange(0, 0), k)) by {
                assert(entry_weights(entries@.subrange(0, 0), k) =~= Set::<W>::empty());
            }
        }
        while i < entries.len()
            invariant
                exact_values::<S, W>(),
                i <= entries@.len(),
                forall|k: Seq<S>| #[trigger] is_opt_join_of(weight_at(g@, k), entry_weights(entries@.subrange(0, i as int), k)),
            decreases entries@.len() - i,
        {
            let one = WeightedGss::from_stack(clone_stack(&entries[i].0), clone_value(&entries[i].1));
            let next = g.merge(&one);
            proof {
                let pre = entries@.subrange(0, i as int);
                let post = entries@.subrange(0, i + 1);
                assert forall|k: Seq<S>| #[trigger] is_opt_join_of(weight_at(next@, k), entry_weights(post, k)) by {
                    let single = if k == entries@[i as int].0@ { set![entries@[i as int].1] } else { Set::<W>::empty() };
                    if k == entries@[i as int].0@ {
                        crate::weight::lemma_join_of_single(entries@[i as int].1);
                    }
                    crate::weight::lemma_opt_join_of_union(weight_at(g@, k), entry_weights(pre, k), weight_at(one@, k), single);
                    assert(crate::weight::opt_join(weight_at(g@, k), weight_at(one@, k)) == weight_at(next@, k));
                    assert(entry_weights(post, k) =~= entry_weights(pre, k) + single) by {
                        assert forall|w: W| #[trigger] entry_weights(post, k).contains(w) implies (entry_weights(pre, k) + single).contains(w) by {
                            let j = choose|j: int| 0 <= j < post.len() && post[j].0@ == k && #[trigger] post[j].1 == w;
                            if j < i {
                                assert(pre[j] == post[j]);
                            }
                        }
                        assert forall|w: W| #[trigger] (entry_weights(pre, k) + single).contains(w) implies entry_weights(post, k).contains(w) by {
                            if entry_weights(pre, k).contains(w) {
                                let j = choose|j: int| 0 <= j < pre.len() && pre[j].0@ == k && #[trigger] pre[j].1 == w;
                                assert(post[j] == pre[j]);
                            } else {
                                assert(post[i as int] == entries@[i as int]);
                            }
                        }
                    }
                }
            }
            g = next;
            i += 1;
        }
        proof {
            assert(entries@.subrange(0, entries@.len() as int) =~= entries@);
            assert forall|k: Seq<S>| #[trigger] g@.contains_key(k) <==> exists|i: int| 0 <= i < entries@.len() && entries@[i].0@ == k by {
                assert(is_opt_join_of(weight_at(g@, k), entry_weights(entries@, k)));
                if exists|i: int| 0 <= i < entries@.len() && entries@[i].0@ == k {
                    let i = choose|i: int| 0 <= i < entries@.len() && entries@[i].0@ == k;
                    assert(entry_weights(entries@, k).contains(entries@[i].1));
                }
                if g@.contains_key(k) {
                    let w = choose|w: W| entry_weights(entries@, k).contains(w);
                }
            }
            assert forall|k: Seq<S>| #[trigger] g@.contains_key(k) implies is_join_of(g@[k], entry_weights(entries@, k)) by {
                assert(is_opt_join_of(weight_at(g@, k), entry_weights(entries@, k)));
            }
        }
        g
    }

    /// Return the union of the alternatives in `self` and `other`.
    pub fn merge(&self, other: &Self) -> (g: Self)
        requires
            exact_values::<S, W>(),
        ensures
            g@ == merged(self@, other@),
    {
        proof {
            use_type_invariant(self);
            use_type_invariant(other);
        }
        let root = node_merge(&self.root, &other.root);
        let g = WeightedGss { root };
        assert(g@ =~= merged(self@, other@));
        g
    }

    /// Push `symbol` onto every represented stack.
    pub fn push(&self, symbol: S) -> (g: Self)
        requires
            exact_values::<S, W>(),
        ensures
            g@ == pushed(self@, symbol),
    {
        proof {
            use_type_invariant(self);
        }
        let root = node_push(&self.root, symbol);
        let g = WeightedGss { root };
        assert(g@ =~= pushed(self@, symbol));
        g
    }

    /// Pop `count` values, discarding alternatives that underflow; the weights
    /// of stacks that become equal are joined.
    pub fn popn(&self, count: usize) -> (g: Self)
        requires
            exact_values::<S, W>(),
        ensures
            forall|k: Seq<S>| #[trigger] is_opt_join_of(weight_at(g@, k), popped_weights(self@, count as nat, k)),
    {
        proof {
            use_type_invariant(self);
        }
        let root = node_popn(&self.root, count);
        let g = WeightedGss { root };
        proof {
            assert forall|k: Seq<S>| #[trigger] is_opt_join_of(weight_at(g@, k), popped_weights(self@, count as nat, k)) by {
                assert(is_opt_join_of(lookup(g.root_node(), k), popn_contrib(self.root_node(), count as nat, k)));
                assert(weight_at(g@, k) == lookup(g.root_node(), k));
                assert(popped_weights(self@, count as nat, k) =~= popn_contrib(self.root_node(), count as nat, k)) by {
                    assert forall|w: W| #[trigger] popped_weights(self@, count as nat, k).contains(w) implies popn_contrib(self.root_node(), count as nat, k).contains(w) by {
                        let t = choose|t: Seq<S>| t.len() == count as nat && self@.contains_key(k + t) && #[trigger] self@[k + t] == w;
                        assert(lookup(self.root_node(), k + t) == Some(w));
                    }
                    assert forall|w: W| #[trigger] popn_contrib(self.root_node(), count as nat, k).contains(w) implies popped_weights(self@, count as nat, k).contains(w) by {
                        let t = choose|t: Seq<S>| t.len() == count as nat && #[trigger] lookup(self.root_node(), k + t) == Some(w);
                        assert(self@.contains_key(k + t));
                        assert(self@[k + t] == w);
                    }
                }
            }
        }
        g
    }

    /// Pop one value from every non-empty stack; empty alternatives underflow
    /// and disappear.
    pub fn pop(&self) -> (g: Self)
        requires
            exact_values::<S, W>(),
        ensures
            forall|k: Seq<S>| #[trigger] is_opt_join_of(weight_at(g@, k), popped_weights(self@, 1, k)),
    {
        self.popn(1)
    }

    /// Return the unique non-empty top value: the top of every stack, when
    /// there is a stack and none is empty.
    pub fn top(&self) -> (r: Option<S>)
        requires
            exact_values::<S, W>(),
        ensures
            forall|x: S| (r == Some(x)) <==> #[trigger] is_sole_top(self@, x),
    {
        proof {
            use_type_invariant(self);
            lemma_dom_finite(self.root_node());
            assert(self@.dom() =~= node_dom(self.root_node()));
        }
        if self.root.empty.is_none() && self.root.children.len() == 1 {
            let x = clone_value(&self.root.children[0].symbol);
            proof {
                let n = self.root_node();
                assert forall|k: Seq<S>| #[trigger] self@.contains_key(k) implies k.len() > 0 && k.last() == x by {
                    if k.len() > 0 {
                        lemma_lookup_nonempty(n, k);
                    }
                }
                lemma_live_has_stack(n);
                let k = choose|k: Seq<S>| lookup(n, k) is Some;
                assert(self@.dom().contains(k));
                assert forall|y: S| (Some(x) == Some(y)) <==> #[trigger] is_sole_top(self@, y) by {
                    if is_sole_top(self@, y) {
                        assert(self@.contains_key(k));
                    }
                }
            }
            Some(x)
        } else {
            proof {
                let n = self.root_node();
                assert forall|y: S| !(#[trigger] is_sole_top(self@, y)) by {
                    if is_sole_top(self@, y) {
                        if n.empty is Some {
                            assert(self@.contains_key(Seq::<S>::empty()));
                        } else if n.children@.len() == 0 {
                            assert(self@.dom() =~= Set::<Seq<S>>::empty());
                        } else {
                            let c0 = *n.children@[0].child;
                            let c1 = *n.children@[1].child;
                            lemma_live_has_stack(c0);
                            lemma_live_has_stack(c1);
                            let t0 = choose|t: Seq<S>| lookup(c0, t) is Some;
                            let t1 = choose|t: Seq<S>| lookup(c1, t) is Some;
                            lemma_lookup_edge(n, 0, t0);
                            lemma_lookup_edge(n, 1, t1);
                            assert(self@.contains_key(t0.push(n.children@[0].symbol)));
                            assert(self@.contains_key(t1.push(n.children@[1].symbol)));
                        }
                    }
                }
            }
            None
        }
    }

    /// The distinct non-empty top values, in unspecified order.
    pub fn tops(&self) -> (r: Vec<S>)
        requires
            exact_values::<S, W>(),
        ensures
            r@.no_duplicates(),
            forall|x: S| #[trigger] r@.contains(x) <==> is_top(self@, x),
    {
        proof {
            use_type_invariant(self);
        }
        let r = node_tops(&self.root);
        proof {
            let n = self.root_node();
            assert forall|x: S| #[trigger] r@.contains(x) <==> is_top(self@, x) by {
                if r@.contains(x) {
                    let i = choose|i: int| 0 <= i < r@.len() && r@[i] == x;
                    let c = *n.children@[i].child;
                    lemma_live_has_stack(c);
                    let t = choose|t: Seq<S>| lookup(c, t) is Some;
                    lemma_lookup_edge(n, i, t);
                    assert(self@.contains_key(t.push(x)));
                }
                if is_top(self@, x) {
                    let k = choose|k: Seq<S>| self@.contains_key(k) && k.len() > 0 && k.last() == x;
                    lemma_lookup_nonempty(n, k);
                    let i = symbol_index(n.children@, x);
                    assert(r@[i] == x);
                }
            }
        }
        r
    }

    /// Return whether the empty stack is represented.
    pub fn has_empty_stack(&self) -> (r: bool)
        ensures
            r == self@.contains_key(Seq::<S>::empty()),
    {
        self.root.empty.is_some()
    }

    /// Retain alternatives whose top equals `top`, without popping it.
    pub fn retain_top(&self, top: &S) -> (g: Self)
        requires
            exact_values::<S, W>(),
        ensures
            g@ == retained_top(self@, *top),
    {
        proof {
            use_type_invariant(self);
        }
        let root = node_retain_top(&self.root, top);
        let g = WeightedGss { root };
        assert(g@ =~= retained_top(self@, *top));
        g
    }

    /// Retain only the empty-stack alternative.
    pub fn retain_empty(&self) -> (g: Self)
        requires
            exact_values::<S, W>(),
        ensures
            g@ == retained_empty(self@),
    {
        proof {
            use_type_invariant(self);
        }
        let root = node_retain_empty(&self.root);
        let g = WeightedGss { root };
        assert(g@ =~= retained_empty(self@));
        g
    }

    /// Retain alternatives whose top equals `top`, then pop it.
    pub fn pop_top(&self, top: &S) -> (g: Self)
        requires
            exact_values::<S, W>(),
        ensures
            g@ == popped_top(self@, *top),
    {
        proof {
            use_type_invariant(self);
        }
        let root = node_pop_top(&self.root, top);
        let g = WeightedGss { root };
        assert(g@ =~= popped_top(self@, *top));
        g
    }

    /// Return the alternatives of `self` together with `stack`, carrying `weight`.
    pub fn with_stack(&self, stack: Vec<S>, weight: W) -> (g: Self)
        requires
            exact_values::<S, W>(),
        ensures
            g@ == merged(self@, map![stack@ => weight]),
    {
        self.merge(&Self::from_stack(stack, weight))
    }

    /// Merge every GSS of `values`.
    pub fn merge_all(values: Vec<Self>) -> (g: Self)
        requires
            exact_values::<S, W>(),
        ensures
            g@ == merged_all(values@.map_values(|v: Self| v@)),
    {
        let ghost views = values@.map_values(|v: Self| v@);
        let mut g = Self::new();
        let mut i: usize = 0;
        while i < values.len()
            invariant
                exact_values::<S, W>(),
                views == values@.map_values(|v: Self| v@),
                i <= values@.len(),
                g@ == merged_all(views.take(i as int)),
            decreases values@.len() - i,
        {
            assert(views.take(i as int + 1).drop_last() =~= views.take(i as int));
            g = g.merge(&values[i]);
            i += 1;
        }
        assert(views.take(values@.len() as int) =~= views);
        g
    }

    /// Split `self` by top value: for each distinct top `x`, the pair of `x`
    /// and the stacks whose top is `x`, with `x` popped.
    pub fn pop_branches(&self) -> (r: Vec<(S, Self)>)
        requires
            exact_values::<S, W>(),
        ensures
            forall|i: int, j: int| 0 <= i < j < r@.len() ==> (#[trigger] r@[i]).0 != (#[trigger] r@[j]).0,
            forall|i: int| 0 <= i < r@.len() ==> is_top(self@, (#[trigger] r@[i]).0),
            forall|i: int| 0 <= i < r@.len() ==> (#[trigger] r@[i]).1@ == popped_top(self@, r@[i].0),
            forall|x: S| is_top(self@, x) ==> exists|i: int| 0 <= i < r@.len() && (#[trigger] r@[i]).0 == x,
    {
        let tops = self.tops();
        let mut r: Vec<(S, Self)> = Vec::new();
        let mut i: usize = 0;
        while i < tops.len()
            invariant
                exact_values::<S, W>(),
                tops@.no_duplicates(),
                forall|x: S| #[trigger] tops@.contains(x) <==> is_top(self@, x),
                i <= tops@.len(),
                r@.len() == i,
                forall|j: int| 0 <= j < i ==> (#[trigger] r@[j]).0 == tops@[j],
                forall|j: int| 0 <= j < i ==> (#[trigger] r@[j]).1@ == popped_top(self@, tops@[j]),
            decreases tops@.len() - i,
        {
            let rest = self.pop_top(&tops[i]);
            r.push((clone_value(&tops[i]), rest));
            i += 1;
        }
        proof {
            assert forall|j: int| 0 <= j < r@.len() implies is_top(self@, (#[trigger] r@[j]).0) by {
                assert(tops@.contains(tops@[j]));
            }
            assert forall|x: S| is_top(self@, x) implies exists|j: int| 0 <= j < r@.len() && (#[trigger] r@[j]).0 == x by {
                assert(tops@.contains(x));
                let j = choose|j: int| 0 <= j < tops@.len() && tops@[j] == x;
                assert(r@[j].0 == x);
            }
        }
        r
    }

    /// The weight of the empty stack, if it is represented.
    pub fn empty_weight(&self) -> (r: Option<W>)
        requires
            exact_values::<S, W>(),
        ensures
            r == weight_at(self@, Seq::<S>::empty()),
    {
        proof {
            use_type_invariant(self);
        }
        match &self.root.empty {
            Some(w) => Some(clone_value(w)),
            None => None,
        }
    }

    /// Join the weights of all represented alternatives; `None` only when this
    /// GSS contains no alternatives.
    pub fn joined_weight(&self) -> (r: Option<W>)
        requires
            exact_values::<S, W>(),
        ensures
            is_opt_join_of(r, self@.values()),
    {
        proof {
            use_type_invariant(self);
        }
        let r = node_joined(&self.root);
        proof {
            assert(self@.values() =~= node_values(self.root_node())) by {
                assert forall|w: W| #[trigger] self@.values().contains(w) implies node_values(self.root_node()).contains(w) by {
                    let k = choose|k: Seq<S>| self@.contains_key(k) && self@[k] == w;
                    assert(lookup(self.root_node(), k) == Some(w));
                }
                assert forall|w: W| #[trigger] node_values(self.root_node()).contains(w) implies self@.values().contains(w) by {
                    let k = choose|k: Seq<S>| #[trigger] lookup(self.root_node(), k) == Some(w);
                    assert(self@.contains_key(k));
                }
            }
        }
        r
    }

    /// The stored weights: here one for each represented stack, in
    /// unspecified order.
    pub fn weights(&self) -> (r: Vec<W>)
        requires
            exact_values::<S, W>(),
        ensures
            forall|w: W| #[trigger] r@.contains(w) <==> self@.values().contains(w),
    {
        proof {
            use_type_invariant(self);
        }
        let (v, complete) = node_collect(&self.root, usize::MAX);
        let mut r: Vec<W> = Vec::new();
        let mut i: usize = 0;
        while i < v.len()
            invariant
                exact_values::<S, W>(),
                i <= v@.len(),
                r@.len() == i,
                forall|j: int| 0 <= j < i ==> #[trigger] r@[j] == v@[j].1,
            decreases v@.len() - i,
        {
            r.push(clone_value(&v[i].1));
            i += 1;
        }
        proof {
            assert(complete);
            assert forall|w: W| #[trigger] r@.contains(w) <==> self@.values().contains(w) by {
                if r@.contains(w) {
                    let j = choose|j: int| 0 <= j < r@.len() && r@[j] == w;
                    assert(lookup(self.root_node(), v@[j].0@) == Some(v@[j].1));
                    assert(self@.contains_key(v@[j].0@));
                }
                if self@.values().contains(w) {
                    let k = choose|k: Seq<S>| self@.contains_key(k) && self@[k] == w;
                    assert(lookup(self.root_node(), k) is Some);
                    let j = choose|j: int| 0 <= j < v@.len() && v@[j].0@ == k;
                    assert(lookup(self.root_node(), v@[j].0@) == Some(v@[j].1));
                    assert(r@[j] == w);
                }
            }
        }
        r
    }

    /// Transform the weight of every stack, keeping the stacks.
    pub fn map_weights<V: Weight + Clone, F: FnMut(&W) -> V>(&self, mut transform: F) -> (g: WeightedGss<S, V>)
        requires
            exact_values::<S, W>(),
            forall|w: W| #[trigger] transform.requires((&w,)),
        ensures
            g@.dom() == self@.dom(),
            forall|k: Seq<S>| #[trigger] self@.contains_key(k) ==> transform.ensures((&self@[k],), g@[k]),
    {
        proof {
            use_type_invariant(self);
        }
        let root = node_map(&self.root, &mut transform);
        let g = WeightedGss { root };
        proof {
            assert forall|k: Seq<S>| #[trigger] self@.contains_key(k) implies transform.ensures((&self@[k],), g@[k]) by {
                assert(mapped_total(transform, lookup(self.root_node(), k), lookup(g.root_node(), k)));
            }
            assert forall|k: Seq<S>| #[trigger] g@.dom().contains(k) <==> self@.dom().contains(k) by {
                assert(mapped_total(transform, lookup(self.root_node(), k), lookup(g.root_node(), k)));
            }
            assert(g@.dom() =~= self@.dom());
        }
        g
    }

    /// Transform the weight of every stack, dropping the stacks for which
    /// `transform` returns `None`.
    pub fn filter_map_weights<V: Weight + Clone, F: FnMut(&W) -> Option<V>>(&self, mut transform: F) -> (g: WeightedGss<S, V>)
        requires
            exact_values::<S, W>(),
            forall|w: W| #[trigger] transform.requires((&w,)),
        ensures
            forall|k: Seq<S>| #[trigger] g@.contains_key(k) ==> self@.contains_key(k) && transform.ensures((&self@[k],), Some(g@[k])),
            forall|k: Seq<S>| self@.contains_key(k) && !(#[trigger] g@.contains_key(k)) ==> transform.ensures((&self@[k],), None::<V>),
    {
        proof {
            use_type_invariant(self);
        }
        let root = node_filter_map(&self.root, &mut transform);
        let g = WeightedGss { root };
        proof {
            assert forall|k: Seq<S>| #[trigger] g@.contains_key(k) implies self@.contains_key(k) && transform.ensures((&self@[k],), Some(g@[k])) by {
                assert(mapped_by(transform, lookup(self.root_node(), k), lookup(g.root_node(), k)));
            }
            assert forall|k: Seq<S>| self@.contains_key(k) && !(#[trigger] g@.contains_key(k)) implies transform.ensures((&self@[k],), None::<V>) by {
                assert(mapped_by(transform, lookup(self.root_node(), k), lookup(g.root_node(), k)));
            }
        }
        g
    }

    /// Materialise the bottom-to-top stacks and their weights, in unspecified
    /// order. Fails rather than returning more than `max_stacks` stacks.
    pub fn to_stacks(&self, max_stacks: usize) -> (r: Result<Vec<(Vec<S>, W)>, StackLimitExceeded>)
        requires
            exact_values::<S, W>(),
        ensures
            self@.dom().finite(),
            match r {
                Ok(v) => self@.dom().len() <= max_stacks && v@.len() == self@.dom().len() && lists_stacks(self@, v@),
                Err(e) => e.limit == max_stacks && self@.dom().len() > max_stacks,
            },
    {
        proof {
            use_type_invariant(self);
            lemma_dom_finite(self.root_node());
            assert(self@.dom() =~= node_dom(self.root_node()));
        }
        let (v, complete) = node_collect(&self.root, max_stacks);
        proof {
            let keys = v@.map_values(|e: (Vec<S>, W)| e.0@);
            assert(keys.no_duplicates()) by {
                assert forall|i: int, j: int| 0 <= i < keys.len() && 0 <= j < keys.len() && i != j implies keys[i] != keys[j] by {
                    assert(v@[i].0@ != v@[j].0@);
                }
            }
            keys.unique_seq_to_set();
            assert(keys.to_set() <= self@.dom()) by {
                assert forall|k: Seq<S>| #[trigger] keys.to_set().contains(k) implies self@.dom().contains(k) by {
                    let i = choose|i: int| 0 <= i < keys.len() && keys[i] == k;
                    assert(lookup(self.root_node(), v@[i].0@) == Some(v@[i].1));
                }
            }
            vstd::set_lib::lemma_len_subset(keys.to_set(), self@.dom());
            if complete {
                assert(keys.to_set() =~= self@.dom()) by {
                    assert forall|k: Seq<S>| #[trigger] self@.dom().contains(k) implies keys.to_set().contains(k) by {
                        assert(lookup(self.root_node(), k) is Some);
                        let i = choose|i: int| 0 <= i < v@.len() && v@[i].0@ == k;
                        assert(keys[i] == k);
                    }
                }
                assert(lists_stacks(self@, v@)) by {
                    assert forall|i: int| 0 <= i < v@.len() implies self@.contains_key(#[trigger] v@[i].0@) && self@[v@[i].0@] == v@[i].1 by {
                        assert(lookup(self.root_node(), v@[i].0@) == Some(v@[i].1));
                    }
                    assert forall|k: Seq<S>| #[trigger] self@.contains_key(k) implies exists|i: int| 0 <= i < v@.len() && v@[i].0@ == k by {
                        assert(lookup(self.root_node(), k) is Some);
                    }
                }
            }
        }
        if complete {
            Ok(v)
        } else {
            Err(StackLimitExceeded::new(max_stacks))
        }
    }
}

} // verus!
