//! Exact identifiers for the sets of stacks that weighted GSS values represent,
//! with their weights erased.

use std::sync::Arc;
use vstd::prelude::*;

use crate::gss::WeightedGss;
use crate::node::{
    arc_node, has_symbol, is_live, lemma_live_has_stack, lemma_lookup_below_index, lemma_lookup_nonempty,
    linear_step, lookup, symbol_index, wf, Node,
};
use crate::values::{clone_exact, clone_value, symbols_equal};

verus! {

/// Opaque canonical identifier for an extensional set of concrete stacks.
///
/// An ID is meaningful only with the [`StackLanguageInterner`] that returned it.
#[derive(Clone, Copy, Debug, PartialEq, Eq, Hash)]
pub struct StackLanguageId(usize);

/// A canonical trie node: whether the empty stack belongs to the language, and
/// the languages below each top symbol, by identifier.
#[derive(Debug)]
pub struct LangNode<S> {
    pub empty: bool,
    pub children: Vec<(S, usize)>,
}

/// The identifier that the edge of `node` with symbol `s` leads to, or 0 (the
/// empty language) where `node` has no such edge.
pub open spec fn edge_target<S>(node: LangNode<S>, s: S) -> int {
    if exists|p: int| 0 <= p < node.children@.len() && node.children@[p].0 == s {
        node.children@[choose|p: int| 0 <= p < node.children@.len() && node.children@[p].0 == s].1 as int
    } else {
        0
    }
}

/// Stack `k` (bottom-to-top) belongs to the language with identifier `id`.
pub open spec fn in_lang<S>(nodes: Seq<LangNode<S>>, id: int, k: Seq<S>) -> bool
    decreases k.len(),
{
    &&& 0 <= id < nodes.len()
    &&& if k.len() == 0 {
        nodes[id].empty
    } else {
        in_lang(nodes, edge_target(nodes[id], k.last()), k.drop_last())
    }
}

/// Every edge of `a` is an edge of `b`.
pub open spec fn edges_within<S>(a: LangNode<S>, b: LangNode<S>) -> bool {
    forall|p: int| 0 <= p < a.children@.len() ==> has_edge(b, #[trigger] a.children@[p])
}

/// `e` is an edge of `node`.
pub open spec fn has_edge<S>(node: LangNode<S>, e: (S, usize)) -> bool {
    exists|q: int| 0 <= q < node.children@.len() && node.children@[q] == e
}

/// Two nodes with the same flag and the same edges.
pub open spec fn same_node<S>(a: LangNode<S>, b: LangNode<S>) -> bool {
    a.empty == b.empty && edges_within(a, b) && edges_within(b, a)
}

/// No two edges of `node` carry the same symbol.
pub open spec fn distinct_edge_symbols<S>(node: LangNode<S>) -> bool {
    forall|p: int, q: int|
        0 <= p < node.children@.len() && 0 <= q < node.children@.len() && p != q
            ==> (#[trigger] node.children@[p]).0 != (#[trigger] node.children@[q]).0
}

/// The edges of `node` lead to identifiers in `1..bound`.
pub open spec fn edges_below<S>(node: LangNode<S>, bound: int) -> bool {
    forall|p: int| 0 <= p < node.children@.len() ==> 0 < (#[trigger] node.children@[p]).1 < bound
}

/// The node table is canonical: node 0 is the empty language, every other node
/// is live, edges carry distinct symbols and lead to older, non-empty nodes, and
/// no two nodes are the same.
pub open spec fn table_wf<S>(nodes: Seq<LangNode<S>>) -> bool {
    &&& nodes.len() >= 1
    &&& !nodes[0].empty
    &&& nodes[0].children@.len() == 0
    &&& forall|i: int| 1 <= i < nodes.len() ==> (#[trigger] nodes[i]).empty || nodes[i].children@.len() > 0
    &&& forall|i: int| 0 <= i < nodes.len() ==> distinct_edge_symbols(#[trigger] nodes[i])
    &&& forall|i: int| 0 <= i < nodes.len() ==> edges_below(#[trigger] nodes[i], i)
    &&& forall|i: int, j: int| 0 <= i < j < nodes.len() ==> !same_node(#[trigger] nodes[i], #[trigger] nodes[j])
}

/// The edge with symbol `s` is found by its symbol.
pub proof fn lemma_edge_target<S>(node: LangNode<S>, p: int)
    requires
        distinct_edge_symbols(node),
        0 <= p < node.children@.len(),
    ensures
        edge_target(node, node.children@[p].0) == node.children@[p].1,
{
    let s = node.children@[p].0;
    let q = choose|q: int| 0 <= q < node.children@.len() && node.children@[q].0 == s;
    if q != p {
        assert(node.children@[p].0 != node.children@[q].0);
    }
}

/// An edge target is 0 or an older identifier.
pub proof fn lemma_edge_target_bounds<S>(nodes: Seq<LangNode<S>>, id: int, s: S)
    requires
        table_wf(nodes),
        0 <= id < nodes.len(),
    ensures
        edge_target(nodes[id], s) == 0 || 0 < edge_target(nodes[id], s) < id,
{
    assert(edges_below(nodes[id], id));
    if exists|p: int| 0 <= p < nodes[id].children@.len() && nodes[id].children@[p].0 == s {
        let p = choose|p: int| 0 <= p < nodes[id].children@.len() && nodes[id].children@[p].0 == s;
        assert(0 < nodes[id].children@[p].1 < id);
    }
}

/// Identifier 0 names the empty language.
pub proof fn lemma_zero_is_empty<S>(nodes: Seq<LangNode<S>>, k: Seq<S>)
    requires
        table_wf(nodes),
    ensures
        !in_lang(nodes, 0, k),
    decreases k.len(),
{
    if k.len() > 0 {
        assert(edge_target(nodes[0], k.last()) == 0);
        lemma_zero_is_empty(nodes, k.drop_last());
    }
}

/// A table that extends another keeps the languages of the older identifiers.
pub proof fn lemma_extend_keeps_languages<S>(old: Seq<LangNode<S>>, new: Seq<LangNode<S>>, id: int, k: Seq<S>)
    requires
        table_wf(old),
        old.len() <= new.len(),
        old == new.subrange(0, old.len() as int),
        0 <= id < old.len(),
    ensures
        in_lang(new, id, k) == in_lang(old, id, k),
    decreases k.len(),
{
    assert(new[id] == old[id]);
    if k.len() > 0 {
        lemma_edge_target_bounds(old, id, k.last());
        lemma_extend_keeps_languages(old, new, edge_target(old[id], k.last()), k.drop_last());
    }
}

/// Every identifier but 0 names a non-empty language.
pub proof fn lemma_nonempty<S>(nodes: Seq<LangNode<S>>, id: int)
    requires
        table_wf(nodes),
        0 < id < nodes.len(),
    ensures
        exists|k: Seq<S>| #[trigger] in_lang(nodes, id, k),
    decreases id,
{
    if nodes[id].empty {
        assert(in_lang(nodes, id, Seq::<S>::empty()));
    } else {
        let e = nodes[id].children@[0];
        assert(edges_below(nodes[id], id));
        assert(0 < e.1 < id);
        lemma_nonempty(nodes, e.1 as int);
        let t = choose|t: Seq<S>| #[trigger] in_lang(nodes, e.1 as int, t);
        lemma_edge_language(nodes, id, 0, t);
        assert(in_lang(nodes, id, t.push(e.0)));
    }
}

/// The language below symbol `s` of node `id` is that of the edge with symbol `s`.
pub proof fn lemma_edge_language<S>(nodes: Seq<LangNode<S>>, id: int, p: int, t: Seq<S>)
    requires
        table_wf(nodes),
        0 <= id < nodes.len(),
        0 <= p < nodes[id].children@.len(),
    ensures
        in_lang(nodes, id, t.push(nodes[id].children@[p].0)) == in_lang(nodes, nodes[id].children@[p].1 as int, t),
{
    let k = t.push(nodes[id].children@[p].0);
    assert(k.drop_last() =~= t);
    assert(distinct_edge_symbols(nodes[id]));
    lemma_edge_target(nodes[id], p);
}

/// Identifiers with the same language are equal.
pub proof fn lemma_exact<S>(nodes: Seq<LangNode<S>>, a: int, b: int)
    requires
        table_wf(nodes),
        0 <= a < nodes.len(),
        0 <= b < nodes.len(),
        forall|k: Seq<S>| #[trigger] in_lang(nodes, a, k) == in_lang(nodes, b, k),
    ensures
        a == b,
    decreases a + b, 1nat,
{
    if a == 0 && b != 0 {
        lemma_nonempty(nodes, b);
        let k = choose|k: Seq<S>| #[trigger] in_lang(nodes, b, k);
        lemma_zero_is_empty(nodes, k);
    } else if b == 0 && a != 0 {
        lemma_nonempty(nodes, a);
        let k = choose|k: Seq<S>| #[trigger] in_lang(nodes, a, k);
        lemma_zero_is_empty(nodes, k);
    } else if a != b {
        let e = Seq::<S>::empty();
        assert(in_lang(nodes, a, e) == nodes[a].empty);
        assert(in_lang(nodes, b, e) == nodes[b].empty);
        lemma_edges_within(nodes, a, b);
        lemma_edges_within(nodes, b, a);
        if a < b {
            assert(!same_node(nodes[a], nodes[b]));
        } else {
            assert(!same_node(nodes[b], nodes[a]));
        }
    }
}

/// The edges of a node are edges of every node with the same language.
pub proof fn lemma_edges_within<S>(nodes: Seq<LangNode<S>>, a: int, b: int)
    requires
        table_wf(nodes),
        0 < a < nodes.len(),
        0 < b < nodes.len(),
        forall|k: Seq<S>| #[trigger] in_lang(nodes, a, k) == in_lang(nodes, b, k),
    ensures
        edges_within(nodes[a], nodes[b]),
    decreases a + b, 0nat,
{
    assert forall|p: int| 0 <= p < nodes[a].children@.len() implies has_edge(nodes[b], #[trigger] nodes[a].children@[p]) by {
        let s = nodes[a].children@[p].0;
        let c = nodes[a].children@[p].1 as int;
        assert(edges_below(nodes[a], a));
        assert(0 < c < a);
        lemma_nonempty(nodes, c);
        let t = choose|t: Seq<S>| #[trigger] in_lang(nodes, c, t);
        lemma_edge_language(nodes, a, p, t);
        let k = t.push(s);
        assert(in_lang(nodes, b, k));
        assert(k.drop_last() =~= t);
        if !exists|q: int| 0 <= q < nodes[b].children@.len() && nodes[b].children@[q].0 == s {
            assert(edge_target(nodes[b], s) == 0);
            lemma_zero_is_empty(nodes, t);
        }
        let q = choose|q: int| 0 <= q < nodes[b].children@.len() && nodes[b].children@[q].0 == s;
        let c2 = nodes[b].children@[q].1 as int;
        assert(edges_below(nodes[b], b));
        assert(0 < c2 < b);
        assert forall|u: Seq<S>| #[trigger] in_lang(nodes, c, u) == in_lang(nodes, c2, u) by {
            lemma_edge_language(nodes, a, p, u);
            lemma_edge_language(nodes, b, q, u);
            assert(in_lang(nodes, a, u.push(s)) == in_lang(nodes, b, u.push(s)));
        }
        lemma_exact(nodes, c, c2);
        assert(nodes[b].children@[q] == nodes[a].children@[p]);
    }
}

/// `node` describes trie node `n` over `nodes`: the same empty-stack flag, and
/// edge by edge the same symbols, leading to the languages of the children.
pub open spec fn describes<S, W>(nodes: Seq<LangNode<S>>, node: LangNode<S>, n: Node<S, W>) -> bool {
    &&& node.empty == (n.empty is Some)
    &&& node.children@.len() == n.children@.len()
    &&& forall|p: int| 0 <= p < node.children@.len() ==> (#[trigger] node.children@[p]).0 == n.children@[p].symbol
    &&& forall|p: int| 0 <= p < node.children@.len() ==> 0 < (#[trigger] node.children@[p]).1 < nodes.len()
    &&& forall|p: int, k: Seq<S>|
        0 <= p < node.children@.len() ==> #[trigger] in_lang(nodes, node.children@[p].1 as int, k) == (lookup(
            *n.children@[p].child,
            k,
        ) is Some)
}

/// A table node that is the same as a description of `n` has the stacks of `n`
/// as its language.
pub proof fn lemma_described_language<S, W>(nodes: Seq<LangNode<S>>, id: int, node: LangNode<S>, n: Node<S, W>, k: Seq<S>)
    requires
        table_wf(nodes),
        wf(n),
        0 <= id < nodes.len(),
        same_node(nodes[id], node),
        describes(nodes, node, n),
    ensures
        in_lang(nodes, id, k) == (lookup(n, k) is Some),
{
    if k.len() > 0 {
        let s = k.last();
        let t = k.drop_last();
        let here = nodes[id];
        assert(distinct_edge_symbols(here));
        lemma_lookup_nonempty(n, k);
        if has_symbol(n.children@, s) {
            let p = symbol_index(n.children@, s);
            lemma_lookup_below_index(n.children@, p, t);
            assert(node.children@[p].0 == s);
            assert(has_edge(here, node.children@[p]));
            let q = choose|q: int| 0 <= q < here.children@.len() && here.children@[q] == node.children@[p];
            lemma_edge_target(here, q);
            assert(in_lang(nodes, node.children@[p].1 as int, t) == (lookup(*n.children@[p].child, t) is Some));
        } else {
            if exists|q: int| 0 <= q < here.children@.len() && here.children@[q].0 == s {
                let q = choose|q: int| 0 <= q < here.children@.len() && here.children@[q].0 == s;
                assert(has_edge(node, here.children@[q]));
                let p = choose|p: int| 0 <= p < node.children@.len() && node.children@[p] == here.children@[q];
                assert(n.children@[p].symbol == s);
            }
            lemma_zero_is_empty(nodes, t);
        }
    }
}

/// Canonicalizes the unweighted stack language denoted by weighted GSS values.
///
/// Weights and representation layout do not affect the returned ID. IDs are
/// exact within one interner instance and are intended for visited sets in
/// fixpoint algorithms.
#[derive(Debug)]
pub struct StackLanguageInterner<S> {
    nodes: Vec<LangNode<S>>,
}

impl<S> StackLanguageInterner<S> {
    /// The interner's table is well-formed.
    pub closed spec fn wf(&self) -> bool {
        table_wf(self.nodes@)
    }

    /// `id` was returned by this interner.
    pub closed spec fn issued(&self, id: StackLanguageId) -> bool {
        id.0 < self.nodes@.len()
    }

    /// The set of stacks that `id` stands for.
    pub closed spec fn language(&self, id: StackLanguageId) -> Set<Seq<S>> {
        Set::new(|k: Seq<S>| in_lang(self.nodes@, id.0 as int, k))
    }

    /// Construct an empty interner.
    pub fn new() -> (r: Self)
        ensures
            r.wf(),
            forall|id: StackLanguageId| #[trigger] r.issued(id) ==> r.language(id) == Set::<Seq<S>>::empty(),
    {
        let mut nodes = Vec::new();
        nodes.push(LangNode { empty: false, children: Vec::new() });
        let r = StackLanguageInterner { nodes };
        proof {
            assert forall|id: StackLanguageId| #[trigger] r.issued(id) implies r.language(id) == Set::<Seq<S>>::empty() by {
                assert forall|k: Seq<S>| !r.language(id).contains(k) by {
                    lemma_zero_is_empty(r.nodes@, k);
                }
                assert(r.language(id) =~= Set::<Seq<S>>::empty());
            }
        }
        r
    }

    /// Two identifiers of one interner are equal exactly when their languages are.
    pub proof fn law_ids_are_exact(&self, a: StackLanguageId, b: StackLanguageId)
        requires
            self.wf(),
            self.issued(a),
            self.issued(b),
        ensures
            (self.language(a) == self.language(b)) <==> (a == b),
    {
        if self.language(a) == self.language(b) {
            assert forall|k: Seq<S>| #[trigger] in_lang(self.nodes@, a.0 as int, k) == in_lang(self.nodes@, b.0 as int, k) by {
                assert(self.language(a).contains(k) == self.language(b).contains(k));
            }
            lemma_exact(self.nodes@, a.0 as int, b.0 as int);
        }
    }

    /// Interning again a language that an interner already issued an ID for
    /// gives that ID back: when a later state of the interner (one that keeps
    /// the IDs of `self` and their languages, as `intern` does) issues `again`
    /// for the language of `first`, the two IDs are equal.
    pub proof fn law_reintern_gives_same_id(&self, later: &Self, first: StackLanguageId, again: StackLanguageId)
        requires
            later.wf(),
            self.issued(first),
            later.issued(first),
            later.language(first) == self.language(first),
            later.issued(again),
            later.language(again) == self.language(first),
        ensures
            again == first,
    {
        later.law_ids_are_exact(first, again);
    }
}

impl<S> Default for StackLanguageInterner<S> {
    fn default() -> (r: Self)
        ensures
            r.wf(),
            forall|id: StackLanguageId| #[trigger] r.issued(id) ==> r.language(id) == Set::<Seq<S>>::empty(),
    {
        Self::new()
    }
}

impl<S: PartialEq + Clone> StackLanguageInterner<S> {
    /// Whether two nodes have the same flag and the same edges.
    fn same_node_exec(a: &LangNode<S>, b: &LangNode<S>) -> (r: bool)
        requires
            vstd::laws_eq::obeys_concrete_eq::<S>(),
        ensures
            r == same_node(*a, *b),
    {
        a.empty == b.empty && Self::edges_within_exec(a, b) && Self::edges_within_exec(b, a)
    }

    /// Whether every edge of `a` is an edge of `b`.
    fn edges_within_exec(a: &LangNode<S>, b: &LangNode<S>) -> (r: bool)
        requires
            vstd::laws_eq::obeys_concrete_eq::<S>(),
        ensures
            r == edges_within(*a, *b),
    {
        let mut p: usize = 0;
        while p < a.children.len()
            invariant
                vstd::laws_eq::obeys_concrete_eq::<S>(),
                p <= a.children@.len(),
                forall|pp: int| 0 <= pp < p ==> has_edge(*b, #[trigger] a.children@[pp]),
            decreases a.children@.len() - p,
        {
            let mut found = false;
            let mut q: usize = 0;
            while q < b.children.len()
                invariant
                    vstd::laws_eq::obeys_concrete_eq::<S>(),
                    p < a.children@.len(),
                    q <= b.children@.len(),
                    !found ==> forall|qq: int| 0 <= qq < q ==> b.children@[qq] != a.children@[p as int],
                    found ==> has_edge(*b, a.children@[p as int]),
                decreases b.children@.len() - q,
            {
                if !found && a.children[p].1 == b.children[q].1 && symbols_equal(&a.children[p].0, &b.children[q].0) {
                    found = true;
                    assert(b.children@[q as int] == a.children@[p as int]);
                }
                q += 1;
            }
            if !found {
                proof {
                    if has_edge(*b, a.children@[p as int]) {
                        let qq = choose|qq: int| 0 <= qq < b.children@.len() && b.children@[qq] == a.children@[p as int];
                        assert(b.children@[qq] != a.children@[p as int]);
                    }
                }
                return false;
            }
            p += 1;
        }
        true
    }

    /// The identifier of `node`, which describes trie node `n`: an existing
    /// identifier when the table holds the same node, else a new one.
    fn find_or_add<W>(&mut self, node: LangNode<S>, Ghost(n): Ghost<Node<S, W>>) -> (id: usize)
        requires
            old(self).wf(),
            wf(n),
            vstd::laws_eq::obeys_concrete_eq::<S>(),
            describes(old(self).nodes@, node, n),
        ensures
            final(self).wf(),
            old(self).nodes@.len() <= final(self).nodes@.len(),
            old(self).nodes@ == final(self).nodes@.subrange(0, old(self).nodes@.len() as int),
            id < final(self).nodes@.len(),
            forall|k: Seq<S>| #[trigger] in_lang(final(self).nodes@, id as int, k) == (lookup(n, k) is Some),
    {
        let ghost mid = self.nodes@;
        let mut j: usize = 0;
        while j < self.nodes.len()
            invariant
                table_wf(self.nodes@),
                self.nodes@ == mid,
                old(self).nodes@ == mid,
                wf(n),
                describes(mid, node, n),
                vstd::laws_eq::obeys_concrete_eq::<S>(),
                j <= self.nodes@.len(),
                forall|jj: int| 0 <= jj < j ==> !same_node(#[trigger] mid[jj], node),
            decreases self.nodes@.len() - j,
        {
            if Self::same_node_exec(&self.nodes[j], &node) {
                proof {
                    assert forall|k: Seq<S>| #[trigger] in_lang(self.nodes@, j as int, k) == (lookup(n, k) is Some) by {
                        lemma_described_language(mid, j as int, node, n, k);
                    }
                    assert(mid =~= self.nodes@.subrange(0, mid.len() as int));
                }
                return j;
            }
            j += 1;
        }
        let id = self.nodes.len();
        proof {
            if node.children@.len() == 0 && !node.empty {
                assert(same_node(mid[0], node));
            }
        }
        self.nodes.push(node);
        proof {
            let nodes = self.nodes@;
            assert(mid =~= nodes.subrange(0, mid.len() as int));
            assert(nodes[id as int] == node);
            assert forall|a: int, b: int| 0 <= a < b < nodes.len() implies !same_node(#[trigger] nodes[a], #[trigger] nodes[b]) by {
                assert(nodes[a] == mid[a]);
                if b < id {
                    assert(nodes[b] == mid[b]);
                }
            }
            assert forall|a: int| 0 <= a < nodes.len() implies distinct_edge_symbols(#[trigger] nodes[a]) by {
                if a < id {
                    assert(nodes[a] == mid[a]);
                } else {
                    assert forall|p: int, q: int|
                        0 <= p < node.children@.len() && 0 <= q < node.children@.len() && p != q
                            implies (#[trigger] node.children@[p]).0 != (#[trigger] node.children@[q]).0 by {
                        assert(n.children@[p].symbol != n.children@[q].symbol);
                    }
                }
            }
            assert forall|a: int| 0 <= a < nodes.len() implies edges_below(#[trigger] nodes[a], a) by {
                if a < id {
                    assert(nodes[a] == mid[a]);
                }
            }
            assert forall|a: int| 1 <= a < nodes.len() implies (#[trigger] nodes[a]).empty || nodes[a].children@.len() > 0 by {
                if a < id {
                    assert(nodes[a] == mid[a]);
                }
            }
            assert(table_wf(nodes));
            assert forall|p: int, k: Seq<S>| 0 <= p < node.children@.len() implies #[trigger] in_lang(
                nodes,
                node.children@[p].1 as int,
                k,
            ) == (lookup(*n.children@[p].child, k) is Some) by {
                lemma_extend_keeps_languages(mid, nodes, node.children@[p].1 as int, k);
            }
            assert(describes(nodes, node, n));
            assert(edges_within(node, node)) by {
                assert forall|p: int| 0 <= p < node.children@.len() implies has_edge(node, #[trigger] node.children@[p]) by {
                    assert(node.children@[p] == node.children@[p]);
                }
            }
            assert forall|k: Seq<S>| #[trigger] in_lang(nodes, id as int, k) == (lookup(n, k) is Some) by {
                lemma_described_language(nodes, id as int, node, n, k);
            }
        }
        id
    }

    /// Intern the language of a trie node.
    ///
    /// A run of nodes without the empty stack and with a single edge is walked
    /// in a loop and interned from the bottom up, so long linear stacks do not
    /// deepen the recursion.
    fn intern_node<W>(&mut self, n: &Arc<Node<S, W>>) -> (id: usize)
        requires
            old(self).wf(),
            wf(**n),
            vstd::laws_eq::obeys_concrete_eq::<S>(),
            clone_exact::<S>(),
        ensures
            final(self).wf(),
            old(self).nodes@.len() <= final(self).nodes@.len(),
            old(self).nodes@ == final(self).nodes@.subrange(0, old(self).nodes@.len() as int),
            id < final(self).nodes@.len(),
            forall|k: Seq<S>| #[trigger] in_lang(final(self).nodes@, id as int, k) == (lookup(**n, k) is Some),
        decreases **n,
    {
        let ghost start = self.nodes@;
        let mut cur = n.clone();
        let mut path: Vec<S> = Vec::new();
        let ghost mut gn: Seq<Node<S, W>> = seq![arc_node(n)];
        loop
            invariant
                clone_exact::<S>(),
                wf(*cur),
                **n == *cur || decreases_to!(**n => *cur),
                gn.len() == path@.len() + 1,
                gn[0] == **n,
                gn.last() == *cur,
                forall|i: int| 0 <= i <= path@.len() ==> wf(#[trigger] gn[i]),
                forall|i: int| 0 <= i < path@.len() ==> linear_step(gn[i], #[trigger] path@[i], gn[i + 1]),
            decreases *cur,
        {
            if !(cur.empty.is_none() && cur.children.len() == 1) {
                break;
            }
            let ghost prev = path@;
            path.push(clone_value(&cur.children[0].symbol));
            let next = cur.children[0].child.clone();
            proof {
                assert(decreases_to!(*cur => *next));
                if arc_node(n) != arc_node(&cur) {
                    assert(decreases_to!(**n => *next));
                }
                gn = gn.push(arc_node(&next));
                assert forall|i: int| 0 <= i < path@.len() implies linear_step(gn[i], #[trigger] path@[i], gn[i + 1]) by {
                    if i < prev.len() {
                        assert(path@[i] == prev[i]);
                    }
                }
            }
            cur = next;
        }
        let mut children: Vec<(S, usize)> = Vec::new();
        let len = cur.children.len();
        let mut i: usize = 0;
        while i < len
            invariant
                table_wf(self.nodes@),
                wf(*cur),
                **n == *cur || decreases_to!(**n => *cur),
                vstd::laws_eq::obeys_concrete_eq::<S>(),
                clone_exact::<S>(),
                len == cur.children@.len(),
                i <= len,
                start.len() <= self.nodes@.len(),
                start == self.nodes@.subrange(0, start.len() as int),
                children@.len() == i,
                forall|p: int| 0 <= p < i ==> (#[trigger] children@[p]).0 == cur.children@[p].symbol,
                forall|p: int| 0 <= p < i ==> 0 < (#[trigger] children@[p]).1 < self.nodes@.len(),
                forall|p: int, k: Seq<S>|
                    0 <= p < i ==> #[trigger] in_lang(self.nodes@, children@[p].1 as int, k) == (lookup(
                        *cur.children@[p].child,
                        k,
                    ) is Some),
            decreases len - i,
        {
            let ghost before = self.nodes@;
            proof {
                assert(decreases_to!(*cur => *cur.children@[i as int].child));
                if arc_node(n) != arc_node(&cur) {
                    assert(decreases_to!(**n => *cur.children@[i as int].child));
                }
            }
            let c = self.intern_node(&cur.children[i].child);
            proof {
                let cn = *cur.children@[i as int].child;
                assert(is_live(cn));
                assert(wf(cn));
                lemma_live_has_stack(cn);
                let t = choose|t: Seq<S>| lookup(cn, t) is Some;
                assert(in_lang(self.nodes@, c as int, t));
                lemma_zero_is_empty(self.nodes@, t);
                assert forall|p: int, k: Seq<S>| 0 <= p < i implies #[trigger] in_lang(
                    self.nodes@,
                    children@[p].1 as int,
                    k,
                ) == (lookup(*cur.children@[p].child, k) is Some) by {
                    lemma_extend_keeps_languages(before, self.nodes@, children@[p].1 as int, k);
                }
                assert(start =~= self.nodes@.subrange(0, start.len() as int)) by {
                    assert(before.subrange(0, start.len() as int) =~= self.nodes@.subrange(0, start.len() as int));
                }
            }
            children.push((clone_value(&cur.children[i].symbol), c));
            i += 1;
        }
        let node = LangNode { empty: cur.empty.is_some(), children };
        assert(describes(self.nodes@, node, *cur));
        let ghost before_base = self.nodes@;
        let mut id = self.find_or_add::<W>(node, Ghost(arc_node(&cur)));
        proof {
            assert(start =~= self.nodes@.subrange(0, start.len() as int)) by {
                assert(before_base.subrange(0, start.len() as int) =~= self.nodes@.subrange(0, start.len() as int));
            }
        }
        let mut j: usize = path.len();
        while j > 0
            invariant
                table_wf(self.nodes@),
                vstd::laws_eq::obeys_concrete_eq::<S>(),
                clone_exact::<S>(),
                j <= path@.len(),
                gn.len() == path@.len() + 1,
                gn[0] == **n,
                forall|i: int| 0 <= i <= path@.len() ==> wf(#[trigger] gn[i]),
                forall|i: int| 0 <= i < path@.len() ==> linear_step(gn[i], #[trigger] path@[i], gn[i + 1]),
                start.len() <= self.nodes@.len(),
                start == self.nodes@.subrange(0, start.len() as int),
                id < self.nodes@.len(),
                forall|k: Seq<S>| #[trigger] in_lang(self.nodes@, id as int, k) == (lookup(gn[j as int], k) is Some),
            decreases j,
        {
            j -= 1;
            let ghost before = self.nodes@;
            let ghost g = gn[j as int];
            let ghost below = gn[j + 1];
            proof {
                assert(linear_step(g, path@[j as int], below));
                assert(wf(g));
                assert(is_live(below));
                lemma_live_has_stack(below);
                let t = choose|t: Seq<S>| lookup(below, t) is Some;
                assert(in_lang(self.nodes@, id as int, t));
                lemma_zero_is_empty(self.nodes@, t);
            }
            let mut edge: Vec<(S, usize)> = Vec::new();
            edge.push((clone_value(&path[j]), id));
            let node = LangNode { empty: false, children: edge };
            proof {
                assert(node.children@[0] == (path@[j as int], id));
                assert(describes(self.nodes@, node, g));
            }
            id = self.find_or_add::<W>(node, Ghost(g));
            proof {
                assert(start =~= self.nodes@.subrange(0, start.len() as int)) by {
                    assert(before.subrange(0, start.len() as int) =~= self.nodes@.subrange(0, start.len() as int));
                }
            }
        }
        proof {
            assert(start =~= self.nodes@.subrange(0, start.len() as int));
        }
        id
    }

    /// Intern the exact stack language of `gss` after erasing its weights.
    ///
    /// The returned ID is local to this interner instance.
    pub fn intern<W>(&mut self, gss: &WeightedGss<S, W>) -> (id: StackLanguageId)
        requires
            old(self).wf(),
            vstd::laws_eq::obeys_concrete_eq::<S>(),
            clone_exact::<S>(),
        ensures
            final(self).wf(),
            final(self).issued(id),
            final(self).language(id) == gss@.dom(),
            forall|old_id: StackLanguageId| #[trigger] old(self).issued(old_id) ==> final(self).issued(old_id) && final(self).language(old_id) == old(self).language(old_id),
    {
        let ghost start = self.nodes@;
        let root = gss.root();
        let id = self.intern_node(root);
        proof {
            assert(self.language(StackLanguageId(id)) =~= gss@.dom()) by {
                assert forall|k: Seq<S>| #[trigger] self.language(StackLanguageId(id)).contains(k) == gss@.dom().contains(k) by {
                    assert(gss@ == crate::node::node_stacks(arc_node(root)));
                }
            }
            assert forall|old_id: StackLanguageId| #[trigger] old(self).issued(old_id) implies final(self).issued(old_id) && final(self).language(old_id) == old(self).language(old_id) by {
                assert forall|k: Seq<S>| #[trigger] final(self).language(old_id).contains(k) == old(self).language(old_id).contains(k) by {
                    lemma_extend_keeps_languages(start, self.nodes@, old_id.0 as int, k);
                }
                assert(final(self).language(old_id) =~= old(self).language(old_id));
            }
        }
        StackLanguageId(id)
    }
}

} // verus!
