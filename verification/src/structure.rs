//! A listing of the shared trie behind a weighted GSS, node by node, for
//! diagnostics.

use std::sync::Arc;
use vstd::prelude::*;

use crate::gss::{weight_at, WeightedGss};
use crate::node::{arc_ptr_eq, has_symbol, lookup, symbol_index, wf, Node};
use crate::values::{clone_exact, clone_value, exact_values};
use crate::weight::Weight;

verus! {

/// One listed trie node: the weight of the empty stack at this node, if any,
/// and for each top symbol the index of the listed node below it.
#[derive(Debug)]
pub struct ListedNode<S, W> {
    pub empty: Option<W>,
    pub edges: Vec<(S, usize)>,
}

/// The index that the edge of `node` with top symbol `s` leads to, if any.
pub open spec fn listed_target<S, W>(node: ListedNode<S, W>, s: S) -> Option<int> {
    if exists|p: int| 0 <= p < node.edges@.len() && node.edges@[p].0 == s {
        Some(node.edges@[choose|p: int| 0 <= p < node.edges@.len() && node.edges@[p].0 == s].1 as int)
    } else {
        None
    }
}

/// The weight of the bottom-to-top stack `k` at listed node `id`, if it is represented.
pub open spec fn listed_lookup<S, W>(nodes: Seq<ListedNode<S, W>>, id: int, k: Seq<S>) -> Option<W>
    decreases k.len(),
{
    if !(0 <= id < nodes.len()) {
        None
    } else if k.len() == 0 {
        nodes[id].empty
    } else {
        match listed_target(nodes[id], k.last()) {
            Some(t) => listed_lookup(nodes, t, k.drop_last()),
            None => None,
        }
    }
}

/// Listed node `i` is trie node `n`: the same empty weight, and edge by edge
/// the same symbols, leading to earlier listed nodes that are the children.
pub open spec fn describes_node<S, W>(nodes: Seq<ListedNode<S, W>>, sources: Seq<Arc<Node<S, W>>>, i: int, n: Node<S, W>) -> bool {
    &&& nodes[i].empty == n.empty
    &&& nodes[i].edges@.len() == n.children@.len()
    &&& forall|p: int| 0 <= p < n.children@.len() ==> (#[trigger] nodes[i].edges@[p]).0 == n.children@[p].symbol
    &&& forall|p: int| 0 <= p < n.children@.len() ==> (#[trigger] nodes[i].edges@[p]).1 < i
    &&& forall|p: int| 0 <= p < n.children@.len() ==> sources[(#[trigger] nodes[i].edges@[p]).1 as int] == n.children@[p].child
}

/// Every listed node describes its source trie node.
pub open spec fn listing_wf<S, W>(nodes: Seq<ListedNode<S, W>>, sources: Seq<Arc<Node<S, W>>>) -> bool {
    &&& nodes.len() == sources.len()
    &&& forall|i: int| 0 <= i < sources.len() ==> wf(*#[trigger] sources[i])
    &&& forall|i: int| 0 <= i < sources.len() ==> describes_node(nodes, sources, i, *#[trigger] sources[i])
}

/// A listed node has the stacks and weights of the trie node it lists.
pub proof fn lemma_listed_lookup<S, W>(nodes: Seq<ListedNode<S, W>>, sources: Seq<Arc<Node<S, W>>>, i: int, k: Seq<S>)
    requires
        listing_wf(nodes, sources),
        0 <= i < nodes.len(),
    ensures
        listed_lookup(nodes, i, k) == lookup(*sources[i], k),
    decreases k.len(),
{
    let n = *sources[i];
    assert(wf(n));
    assert(describes_node(nodes, sources, i, n));
    if k.len() > 0 {
        let s = k.last();
        if has_symbol(n.children@, s) {
            let p = symbol_index(n.children@, s);
            assert(nodes[i].edges@[p].0 == s);
            let q = choose|q: int| 0 <= q < nodes[i].edges@.len() && nodes[i].edges@[q].0 == s;
            assert(n.children@[q].symbol == s);
            assert(p == q);
            let t = nodes[i].edges@[p].1 as int;
            assert(t < i);
            assert(sources[t] == n.children@[p].child);
            lemma_listed_lookup(nodes, sources, t, k.drop_last());
        } else {
            if exists|q: int| 0 <= q < nodes[i].edges@.len() && nodes[i].edges@[q].0 == s {
                let q = choose|q: int| 0 <= q < nodes[i].edges@.len() && nodes[i].edges@[q].0 == s;
                assert(n.children@[q].symbol == s);
            }
        }
    }
}

/// List trie node `n` and the nodes below it, after the nodes listed so far;
/// a node that is already listed (the same allocation) is not listed again.
fn list_node<S: Clone, W: Clone>(
    n: &Arc<Node<S, W>>,
    nodes: &mut Vec<ListedNode<S, W>>,
    sources: &mut Vec<Arc<Node<S, W>>>,
) -> (id: usize)
    requires
        wf(**n),
        clone_exact::<S>(),
        clone_exact::<W>(),
        listing_wf(old(nodes)@, old(sources)@),
    ensures
        listing_wf(final(nodes)@, final(sources)@),
        old(nodes)@.len() <= final(nodes)@.len(),
        old(nodes)@ == final(nodes)@.subrange(0, old(nodes)@.len() as int),
        old(sources)@ == final(sources)@.subrange(0, old(sources)@.len() as int),
        id < final(nodes)@.len(),
        id < old(nodes)@.len() || id == final(nodes)@.len() - 1,
        final(sources)@[id as int] == *n,
    decreases **n,
{
    let mut j: usize = 0;
    while j < sources.len()
        invariant
            j <= sources@.len(),
            nodes@ == old(nodes)@,
            sources@ == old(sources)@,
            listing_wf(nodes@, sources@),
        decreases sources@.len() - j,
    {
        if arc_ptr_eq(&sources[j], n) {
            return j;
        }
        j += 1;
    }
    let ghost start_nodes = nodes@;
    let ghost start_sources = sources@;
    let mut edges: Vec<(S, usize)> = Vec::new();
    let len = n.children.len();
    let mut i: usize = 0;
    while i < len
        invariant
            wf(**n),
            clone_exact::<S>(),
            clone_exact::<W>(),
            len == n.children@.len(),
            i <= len,
            listing_wf(nodes@, sources@),
            start_nodes.len() <= nodes@.len(),
            start_sources.len() == start_nodes.len(),
            start_nodes == nodes@.subrange(0, start_nodes.len() as int),
            start_sources == sources@.subrange(0, start_sources.len() as int),
            edges@.len() == i,
            forall|p: int| 0 <= p < i ==> (#[trigger] edges@[p]).0 == n.children@[p].symbol,
            forall|p: int| 0 <= p < i ==> (#[trigger] edges@[p]).1 < nodes@.len(),
            forall|p: int| 0 <= p < i ==> sources@[(#[trigger] edges@[p]).1 as int] == n.children@[p].child,
        decreases len - i,
    {
        let ghost before_nodes = nodes@;
        let ghost before_sources = sources@;
        let c = list_node(&n.children[i].child, nodes, sources);
        proof {
            assert forall|p: int| 0 <= p < i implies sources@[(#[trigger] edges@[p]).1 as int] == n.children@[p].child by {
                assert(before_sources[edges@[p].1 as int] == sources@[edges@[p].1 as int]);
            }
            assert(start_nodes =~= nodes@.subrange(0, start_nodes.len() as int)) by {
                assert(before_nodes.subrange(0, start_nodes.len() as int) =~= nodes@.subrange(0, start_nodes.len() as int));
            }
            assert(start_sources =~= sources@.subrange(0, start_sources.len() as int)) by {
                assert(before_sources.subrange(0, start_sources.len() as int) =~= sources@.subrange(0, start_sources.len() as int));
            }
        }
        edges.push((clone_value(&n.children[i].symbol), c));
        i += 1;
    }
    let empty = match &n.empty {
        Some(w) => Some(clone_value(w)),
        None => None,
    };
    let id = nodes.len();
    let ghost mid_nodes = nodes@;
    let ghost mid_sources = sources@;
    nodes.push(ListedNode { empty, edges });
    sources.push(n.clone());
    proof {
        assert(mid_nodes =~= nodes@.subrange(0, id as int));
        assert(mid_sources =~= sources@.subrange(0, id as int));
        assert forall|a: int| 0 <= a < sources@.len() implies wf(*#[trigger] sources@[a]) && describes_node(
            nodes@,
            sources@,
            a,
            *sources@[a],
        ) by {
            if a < id {
                assert(nodes@[a] == mid_nodes[a]);
                assert(sources@[a] == mid_sources[a]);
                assert(describes_node(mid_nodes, mid_sources, a, *mid_sources[a]));
                let m = *sources@[a];
                assert forall|p: int| 0 <= p < m.children@.len() implies sources@[(#[trigger] nodes@[a].edges@[p]).1 as int] == m.children@[p].child by {
                    assert(mid_sources[mid_nodes[a].edges@[p].1 as int] == m.children@[p].child);
                }
            }
        }
        assert(start_nodes =~= nodes@.subrange(0, start_nodes.len() as int)) by {
            assert(mid_nodes.subrange(0, start_nodes.len() as int) =~= nodes@.subrange(0, start_nodes.len() as int));
        }
        assert(start_sources =~= sources@.subrange(0, start_sources.len() as int)) by {
            assert(mid_sources.subrange(0, start_sources.len() as int) =~= sources@.subrange(0, start_sources.len() as int));
        }
    }
    id
}

impl<S: PartialEq + Clone, W: Weight + Clone> WeightedGss<S, W> {
    /// List the nodes of the shared trie that represents this GSS, each node
    /// after the nodes below it, so that the last listed node is the root.
    ///
    /// The listing is a representation detail, for diagnostics: two GSS values
    /// with the same stacks and weights may be listed differently.
    pub fn structure(&self) -> (r: Vec<ListedNode<S, W>>)
        requires
            exact_values::<S, W>(),
        ensures
            r@.len() > 0,
            forall|i: int, p: int| 0 <= i < r@.len() && 0 <= p < r@[i].edges@.len() ==> (#[trigger] r@[i].edges@[p]).1 < i,
            forall|k: Seq<S>| #[trigger] listed_lookup(r@, r@.len() - 1, k) == weight_at(self@, k),
    {
        let root = self.root();
        let mut nodes: Vec<ListedNode<S, W>> = Vec::new();
        let mut sources: Vec<Arc<Node<S, W>>> = Vec::new();
        let id = list_node(root, &mut nodes, &mut sources);
        proof {
            assert forall|i: int, p: int| 0 <= i < nodes@.len() && 0 <= p < nodes@[i].edges@.len() implies (#[trigger] nodes@[i].edges@[p]).1 < i by {
                assert(describes_node(nodes@, sources@, i, *sources@[i]));
            }
            assert forall|k: Seq<S>| #[trigger] listed_lookup(nodes@, nodes@.len() - 1, k) == weight_at(self@, k) by {
                lemma_listed_lookup(nodes@, sources@, id as int, k);
            }
        }
        nodes
    }
}

} // verus!
