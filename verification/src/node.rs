//! The persistent stack trie that represents a weighted GSS.
//!
//! A node describes a set of stacks by their top: `empty` is the weight of the
//! empty stack, and each edge leads, through its symbol, to the node that holds
//! the stacks below that top symbol. Nodes are immutable and shared through
//! `Arc`, so pushes, top selections and merges reuse the untouched parts of
//! their operands, and one node may be reachable along many paths.

use std::sync::Arc;
use vstd::prelude::*;

use crate::values::{clone_value, exact_values, symbols_equal, clone_exact};
use crate::weight::{
    join_weights, lawful_join, is_opt_join_of, lemma_join_of_single, lemma_opt_join_idempotent, lemma_opt_join_of_union, opt_join,
    Weight,
};


verus! {

/// An edge of the trie: the top symbol and the node of the stacks below it.
#[derive(Debug)]
pub struct Edge<S, W> {
    pub symbol: S,
    pub child: Arc<Node<S, W>>,
}

/// A trie node: the weight of the empty stack, if it is represented, and the
/// alternatives grouped by their top symbol. `depth` caches the maximum stack
/// length, saturating at `usize::MAX`.
#[derive(Debug)]
pub struct Node<S, W> {
    pub empty: Option<W>,
    pub children: Vec<Edge<S, W>>,
    pub depth: usize,
}

/// Some edge of `cs` carries symbol `s`.
pub open spec fn has_symbol<S, W>(cs: Seq<Edge<S, W>>, s: S) -> bool {
    exists|i: int| 0 <= i < cs.len() && cs[i].symbol == s
}

/// The index of an edge of `cs` that carries symbol `s`.
pub open spec fn symbol_index<S, W>(cs: Seq<Edge<S, W>>, s: S) -> int {
    choose|i: int| 0 <= i < cs.len() && cs[i].symbol == s
}

/// The weight of the bottom-to-top stack `k` in node `n`, if `n` represents it.
pub open spec fn lookup<S, W>(n: Node<S, W>, k: Seq<S>) -> Option<W>
    decreases k.len(),
{
    if k.len() == 0 {
        n.empty
    } else if has_symbol(n.children@, k.last()) {
        lookup(*n.children@[symbol_index(n.children@, k.last())].child, k.drop_last())
    } else {
        None
    }
}

/// The weight of stack `t` below top symbol `s` among the edges `cs`.
pub open spec fn lookup_below<S, W>(cs: Seq<Edge<S, W>>, s: S, t: Seq<S>) -> Option<W> {
    if has_symbol(cs, s) {
        lookup(*cs[symbol_index(cs, s)].child, t)
    } else {
        None
    }
}

/// No two edges carry the same symbol.
pub open spec fn distinct_symbols<S, W>(cs: Seq<Edge<S, W>>) -> bool {
    forall|i: int, j: int| 0 <= i < cs.len() && 0 <= j < cs.len() && i != j ==> cs[i].symbol != cs[j].symbol
}

/// The node represents at least one stack (given well-formedness).
pub open spec fn is_live<S, W>(n: Node<S, W>) -> bool {
    n.empty is Some || n.children@.len() > 0
}

/// `x + 1`, saturating at `usize::MAX`.
pub open spec fn sat_inc(x: usize) -> usize {
    if x == usize::MAX {
        usize::MAX
    } else {
        (x + 1) as usize
    }
}

/// The saturated maximum of `child.depth + 1` over the edges.
pub open spec fn children_depth<S, W>(cs: Seq<Edge<S, W>>) -> usize
    decreases cs.len(),
{
    if cs.len() == 0 {
        0
    } else {
        let d = children_depth(cs.drop_last());
        let c = sat_inc(cs.last().child.depth);
        if d >= c {
            d
        } else {
            c
        }
    }
}

/// Well-formedness: distinct symbols on the edges of every node, no edge to a
/// node that represents nothing, and correct cached depths.
pub open spec fn wf<S, W>(n: Node<S, W>) -> bool
    decreases n,
{
    &&& distinct_symbols(n.children@)
    &&& n.depth == children_depth(n.children@)
    &&& forall|i: int| 0 <= i < n.children@.len() ==> is_live(*#[trigger] n.children@[i].child)
    &&& forall|i: int| 0 <= i < n.children@.len() ==> wf(*#[trigger] n.children@[i].child)
}

/// Edges that are the children of a well-formed node.
pub open spec fn children_wf<S, W>(cs: Seq<Edge<S, W>>) -> bool {
    &&& distinct_symbols(cs)
    &&& forall|i: int| 0 <= i < cs.len() ==> is_live(*#[trigger] cs[i].child)
    &&& forall|i: int| 0 <= i < cs.len() ==> wf(*#[trigger] cs[i].child)
}

/// The node that an `Arc` points to.
pub open spec fn arc_node<S, W>(a: &Arc<Node<S, W>>) -> Node<S, W> {
    **a
}

/// The stacks of a trie node as a map.
pub open spec fn node_stacks<S, W>(n: Node<S, W>) -> Map<Seq<S>, W> {
    Map::new(|k: Seq<S>| lookup(n, k) is Some, |k: Seq<S>| lookup(n, k)->0)
}

/// Looking up `t.push(s)` goes through the edge that carries `s`.
pub proof fn lemma_lookup_edge<S, W>(n: Node<S, W>, i: int, t: Seq<S>)
    requires
        distinct_symbols(n.children@),
        0 <= i < n.children@.len(),
    ensures
        lookup(n, t.push(n.children@[i].symbol)) == lookup(*n.children@[i].child, t),
{
    let s = n.children@[i].symbol;
    let k = t.push(s);
    assert(k.last() == s);
    assert(k.drop_last() =~= t);
    assert(has_symbol(n.children@, s));
    let j = symbol_index(n.children@, s);
    assert(n.children@[j].symbol == s);
}

/// A stack that is not the empty stack is looked up below its top symbol.
pub proof fn lemma_lookup_nonempty<S, W>(n: Node<S, W>, k: Seq<S>)
    requires
        k.len() > 0,
    ensures
        lookup(n, k) == lookup_below(n.children@, k.last(), k.drop_last()),
{
}

/// The weight below symbol `s` among distinct edges is the weight in the edge
/// that carries `s`.
pub proof fn lemma_lookup_below_index<S, W>(cs: Seq<Edge<S, W>>, i: int, t: Seq<S>)
    requires
        distinct_symbols(cs),
        0 <= i < cs.len(),
    ensures
        lookup_below(cs, cs[i].symbol, t) == lookup(*cs[i].child, t),
{
    assert(has_symbol(cs, cs[i].symbol));
}

/// A node that is not live represents no stack.
pub proof fn lemma_dead_lookup<S, W>(n: Node<S, W>, k: Seq<S>)
    requires
        !is_live(n),
    ensures
        lookup(n, k) is None,
{
}

/// A well-formed live node represents some stack.
pub proof fn lemma_live_has_stack<S, W>(n: Node<S, W>)
    requires
        wf(n),
        is_live(n),
    ensures
        exists|k: Seq<S>| lookup(n, k) is Some,
    decreases n,
{
    if n.empty is Some {
        assert(lookup(n, Seq::<S>::empty()) is Some);
    } else {
        let c = *n.children@[0].child;
        assert(wf(c));
        assert(is_live(c));
        lemma_live_has_stack(c);
        let t = choose|t: Seq<S>| lookup(c, t) is Some;
        lemma_lookup_edge(n, 0, t);
        assert(lookup(n, t.push(n.children@[0].symbol)) is Some);
    }
}

/// Compute the cached depth of a node with the given edges.
fn compute_depth<S, W>(children: &Vec<Edge<S, W>>) -> (d: usize)
    ensures
        d == children_depth(children@),
{
    let mut d: usize = 0;
    let mut i: usize = 0;
    while i < children.len()
        invariant
            i <= children.len(),
            d == children_depth(children@.subrange(0, i as int)),
        decreases children.len() - i,
    {
        let cd = children[i].child.depth;
        let c = if cd == usize::MAX {
            usize::MAX
        } else {
            cd + 1
        };
        proof {
            let sub = children@.subrange(0, i + 1);
            assert(sub.drop_last() =~= children@.subrange(0, i as int));
            assert(sub.last() == children@[i as int]);
        }
        if c > d {
            d = c;
        }
        i += 1;
    }
    proof {
        assert(children@.subrange(0, children.len() as int) =~= children@);
    }
    d
}

/// Build a node from its parts, computing the cached depth.
pub fn make_node<S, W>(empty: Option<W>, children: Vec<Edge<S, W>>) -> (n: Node<S, W>)
    requires
        children_wf(children@),
    ensures
        wf(n),
        n.empty == empty,
        n.children@ == children@,
{
    let depth = compute_depth(&children);
    Node { empty, children, depth }
}

/// The node that represents no stack.
pub fn dead_node<S, W>() -> (n: Arc<Node<S, W>>)
    ensures
        wf(*n),
        !is_live(*n),
        forall|k: Seq<S>| #[trigger] lookup(*n, k) is None,
{
    let n = make_node(None, Vec::new());
    Arc::new(n)
}

/// The node that represents only the empty stack, with weight `w`.
pub fn leaf_node<S, W>(w: W) -> (n: Arc<Node<S, W>>)
    ensures
        wf(*n),
        is_live(*n),
        forall|k: Seq<S>| #[trigger] lookup(*n, k) == if k.len() == 0 { Some(w) } else { None::<W> },
{
    let n = make_node(Some(w), Vec::new());
    Arc::new(n)
}

/// Whether the node represents any stack.
pub fn node_is_live<S, W>(n: &Node<S, W>) -> (live: bool)
    ensures
        live == is_live(*n),
{
    n.empty.is_some() || n.children.len() > 0
}

/// The weights after pushing `x` onto every stack: `k` is represented exactly
/// when it ends in `x` and the rest was represented.
pub open spec fn pushed_lookup<S, W>(n: Node<S, W>, x: S, k: Seq<S>) -> Option<W> {
    if k.len() > 0 && k.last() == x {
        lookup(n, k.drop_last())
    } else {
        None
    }
}

/// Push `x` onto every stack of `n`.
pub fn node_push<S, W>(n: &Arc<Node<S, W>>, x: S) -> (r: Arc<Node<S, W>>)
    requires
        wf(**n),
    ensures
        wf(*r),
        is_live(*r) == is_live(**n),
        forall|k: Seq<S>| #[trigger] lookup(*r, k) == pushed_lookup(**n, x, k),
{
    if !node_is_live(n) {
        proof {
            assert forall|k: Seq<S>| #[trigger] lookup(**n, k) == pushed_lookup(**n, x, k) by {
                if k.len() > 0 {
                    lemma_dead_lookup(**n, k.drop_last());
                }
            }
        }
        return n.clone();
    }
    let mut children = Vec::new();
    children.push(Edge { symbol: x, child: n.clone() });
    let r = make_node(None, children);
    proof {
        assert forall|k: Seq<S>| #[trigger] lookup(r, k) == pushed_lookup(**n, x, k) by {
            if k.len() > 0 {
                if k.last() == x {
                    lemma_lookup_edge(r, 0, k.drop_last());
                    assert(k.drop_last().push(x) =~= k);
                } else {
                    assert(!has_symbol(r.children@, k.last()));
                }
            }
        }
    }
    Arc::new(r)
}


/// `Arc::ptr_eq`: two `Arc`s that point to the same allocation hold the same value.
#[verifier::external_body]
pub(crate) fn arc_ptr_eq<T>(a: &Arc<T>, b: &Arc<T>) -> (same: bool)
    ensures
        same ==> *a == *b,
{
    Arc::ptr_eq(a, b)
}

/// Find the edge that carries symbol `s`.
pub fn find_edge<S: PartialEq, W>(cs: &Vec<Edge<S, W>>, s: &S) -> (r: Option<usize>)
    requires
        vstd::laws_eq::obeys_concrete_eq::<S>(),
    ensures
        match r {
            Some(i) => i < cs@.len() && cs@[i as int].symbol == *s,
            None => !has_symbol(cs@, *s),
        },
{
    let mut i: usize = 0;
    while i < cs.len()
        invariant
            vstd::laws_eq::obeys_concrete_eq::<S>(),
            i <= cs.len(),
            forall|m: int| 0 <= m < i ==> (#[trigger] cs@[m]).symbol != *s,
        decreases cs.len() - i,
    {
        if symbols_equal(&cs[i].symbol, s) {
            return Some(i);
        }
        i += 1;
    }
    None
}

/// Join two optional weights.
pub fn join_options<W: Weight + Clone>(a: &Option<W>, b: &Option<W>) -> (r: Option<W>)
    requires
        clone_exact::<W>(),
        lawful_join::<W>(),
    ensures
        r == opt_join(*a, *b),
{
    match a {
        Some(x) => match b {
            Some(y) => Some(join_weights(x, y)),
            None => Some(clone_value(x)),
        },
        None => match b {
            Some(y) => Some(clone_value(y)),
            None => None,
        },
    }
}

/// Clone an edge.
fn clone_edge<S: Clone, W>(e: &Edge<S, W>) -> (r: Edge<S, W>)
    requires
        clone_exact::<S>(),
    ensures
        r == *e,
{
    Edge { symbol: clone_value(&e.symbol), child: e.child.clone() }
}

/// `m` has no empty stack and one edge, with symbol `s`, to a node equal to `c`.
pub open spec fn linear_step<S, W>(m: Node<S, W>, s: S, c: Node<S, W>) -> bool {
    &&& m.empty is None
    &&& m.children@.len() == 1
    &&& m.children@[0].symbol == s
    &&& *m.children@[0].child == c
}

/// A node with no empty stack and a single edge holds the stacks of its child
/// with the edge's symbol pushed.
pub proof fn lemma_linear_lookup<S, W>(m: Node<S, W>, k: Seq<S>)
    requires
        m.empty is None,
        m.children@.len() == 1,
    ensures
        lookup(m, k) == pushed_lookup(*m.children@[0].child, m.children@[0].symbol, k),
{
    if k.len() > 0 {
        if k.last() == m.children@[0].symbol {
            lemma_lookup_edge(m, 0, k.drop_last());
            assert(k.drop_last().push(m.children@[0].symbol) =~= k);
        } else {
            assert(!has_symbol(m.children@, k.last()));
        }
    }
}

/// The union of the stacks of `a` and `b`, joining the weights of stacks that
/// both represent.
///
/// A top path that `a` and `b` share, node by node without branching, is
/// walked in a loop, so long linear stacks do not deepen the recursion.
pub fn node_merge<S: PartialEq + Clone, W: Weight + Clone>(
    a: &Arc<Node<S, W>>,
    b: &Arc<Node<S, W>>,
) -> (r: Arc<Node<S, W>>)
    requires
        wf(**a),
        wf(**b),
        exact_values::<S, W>(),
    ensures
        wf(*r),
        is_live(*r) == (is_live(**a) || is_live(**b)),
        forall|k: Seq<S>| #[trigger] lookup(*r, k) == opt_join(lookup(**a, k), lookup(**b, k)),
    decreases **a, 1nat,
{
    let mut ca = a.clone();
    let mut cb = b.clone();
    let mut path: Vec<S> = Vec::new();
    let ghost mut ga: Seq<Node<S, W>> = seq![arc_node(a)];
    let ghost mut gb: Seq<Node<S, W>> = seq![arc_node(b)];
    loop
        invariant
            exact_values::<S, W>(),
            wf(*ca),
            wf(*cb),
            **a == *ca || decreases_to!(**a => *ca),
            ga.len() == path@.len() + 1,
            gb.len() == ga.len(),
            ga[0] == **a,
            gb[0] == **b,
            ga.last() == *ca,
            gb.last() == *cb,
            path@.len() > 0 ==> is_live(*ca) && is_live(**a) && is_live(**b),
            forall|i: int| 0 <= i < path@.len() ==> linear_step(ga[i], #[trigger] path@[i], ga[i + 1]),
            forall|i: int| 0 <= i < path@.len() ==> linear_step(gb[i], #[trigger] path@[i], gb[i + 1]),
        decreases *ca,
    {
        if !(ca.children.len() == 1 && cb.children.len() == 1 && ca.empty.is_none() && cb.empty.is_none()) {
            break;
        }
        if arc_ptr_eq(&ca, &cb) || !symbols_equal(&ca.children[0].symbol, &cb.children[0].symbol) {
            break;
        }
        let ghost prev = path@;
        path.push(clone_value(&ca.children[0].symbol));
        let na = ca.children[0].child.clone();
        let nb = cb.children[0].child.clone();
        proof {
            assert(decreases_to!(*ca => *na));
            if arc_node(a) != arc_node(&ca) {
                assert(decreases_to!(**a => *na));
            }
            assert(is_live(*na));
            ga = ga.push(arc_node(&na));
            gb = gb.push(arc_node(&nb));
            assert forall|i: int| 0 <= i < path@.len() implies linear_step(ga[i], #[trigger] path@[i], ga[i + 1]) && linear_step(gb[i], path@[i], gb[i + 1]) by {
                if i < prev.len() {
                    assert(path@[i] == prev[i]);
                }
            }
        }
        ca = na;
        cb = nb;
    }
    let mut r = merge_level(&ca, &cb);
    let mut j: usize = path.len();
    while j > 0
        invariant
            exact_values::<S, W>(),
            j <= path@.len(),
            ga.len() == path@.len() + 1,
            gb.len() == ga.len(),
            wf(*r),
            path@.len() > 0 ==> is_live(*r),
            path@.len() == 0 ==> is_live(*r) == (is_live(ga[0]) || is_live(gb[0])),
            forall|i: int| 0 <= i < path@.len() ==> linear_step(ga[i], #[trigger] path@[i], ga[i + 1]),
            forall|i: int| 0 <= i < path@.len() ==> linear_step(gb[i], #[trigger] path@[i], gb[i + 1]),
            forall|k: Seq<S>| #[trigger] lookup(*r, k) == opt_join(lookup(ga[j as int], k), lookup(gb[j as int], k)),
        decreases j,
    {
        j -= 1;
        let next = node_push(&r, clone_value(&path[j]));
        proof {
            let s = path@[j as int];
            assert(linear_step(ga[j as int], s, ga[j + 1]));
            assert(linear_step(gb[j as int], s, gb[j + 1]));
            assert forall|k: Seq<S>| #[trigger] lookup(*next, k) == opt_join(lookup(ga[j as int], k), lookup(gb[j as int], k)) by {
                lemma_linear_lookup(ga[j as int], k);
                lemma_linear_lookup(gb[j as int], k);
            }
        }
        r = next;
    }
    r
}

/// The union of the stacks of `a` and `b`, one trie level at a time: the
/// empty-stack weights are joined and the edges with the same symbol are
/// merged below.
fn merge_level<S: PartialEq + Clone, W: Weight + Clone>(
    a: &Arc<Node<S, W>>,
    b: &Arc<Node<S, W>>,
) -> (r: Arc<Node<S, W>>)
    requires
        wf(**a),
        wf(**b),
        exact_values::<S, W>(),
    ensures
        wf(*r),
        is_live(*r) == (is_live(**a) || is_live(**b)),
        forall|k: Seq<S>| #[trigger] lookup(*r, k) == opt_join(lookup(**a, k), lookup(**b, k)),
    decreases **a, 0nat,
{
    if arc_ptr_eq(a, b) {
        proof {
            assert forall|k: Seq<S>| #[trigger] lookup(**a, k) == opt_join(lookup(**a, k), lookup(**b, k)) by {
                lemma_opt_join_idempotent(lookup(**a, k));
            }
        }
        return a.clone();
    }
    if !node_is_live(a) {
        proof {
            assert forall|k: Seq<S>| #[trigger] lookup(**b, k) == opt_join(lookup(**a, k), lookup(**b, k)) by {
                lemma_dead_lookup(**a, k);
            }
        }
        return b.clone();
    }
    if !node_is_live(b) {
        proof {
            assert forall|k: Seq<S>| #[trigger] lookup(**a, k) == opt_join(lookup(**a, k), lookup(**b, k)) by {
                lemma_dead_lookup(**b, k);
            }
        }
        return a.clone();
    }
    let empty = join_options(&a.empty, &b.empty);
    let mut out: Vec<Edge<S, W>> = Vec::new();
    let alen = a.children.len();
    let mut i: usize = 0;
    while i < alen
        invariant
            wf(**a),
            wf(**b),
            exact_values::<S, W>(),
            alen == a.children@.len(),
            i <= alen,
            out@.len() == i,
            forall|m: int| 0 <= m < i ==> (#[trigger] out@[m]).symbol == a.children@[m].symbol,
            forall|m: int| 0 <= m < i ==> is_live(*(#[trigger] out@[m]).child),
            forall|m: int| 0 <= m < i ==> wf(*(#[trigger] out@[m]).child),
            forall|m: int, t: Seq<S>|
                0 <= m < i ==> #[trigger] lookup(*out@[m].child, t) == opt_join(
                    lookup(*a.children@[m].child, t),
                    lookup_below(b.children@, a.children@[m].symbol, t),
                ),
        decreases alen - i,
    {
        let ea = &a.children[i];
        let sym = clone_value(&ea.symbol);
        match find_edge(&b.children, &ea.symbol) {
            Some(j) => {
                let c = node_merge(&ea.child, &b.children[j].child);
                proof {
                    assert forall|t: Seq<S>|
                        #[trigger] lookup(*c, t) == opt_join(
                            lookup(*a.children@[i as int].child, t),
                            lookup_below(b.children@, a.children@[i as int].symbol, t),
                        ) by {
                        lemma_lookup_below_index(b.children@, j as int, t);
                    }
                }
                out.push(Edge { symbol: sym, child: c });
            },
            None => {
                out.push(Edge { symbol: sym, child: ea.child.clone() });
            },
        }
        i += 1;
    }
    let ghost first = out@;
    let blen = b.children.len();
    let mut j: usize = 0;
    while j < blen
        invariant
            wf(**a),
            wf(**b),
            exact_values::<S, W>(),
            alen == a.children@.len(),
            blen == b.children@.len(),
            first.len() == alen,
            j <= blen,
            out@.len() >= alen,
            forall|m: int| 0 <= m < alen ==> #[trigger] out@[m] == first[m],
            forall|m: int| 0 <= m < alen ==> (#[trigger] first[m]).symbol == a.children@[m].symbol,
            forall|m: int| 0 <= m < alen ==> is_live(*(#[trigger] first[m]).child),
            forall|m: int| 0 <= m < alen ==> wf(*(#[trigger] first[m]).child),
            forall|m: int, t: Seq<S>|
                0 <= m < alen ==> #[trigger] lookup(*first[m].child, t) == opt_join(
                    lookup(*a.children@[m].child, t),
                    lookup_below(b.children@, a.children@[m].symbol, t),
                ),
            forall|m: int|
                alen <= m < out@.len() ==> exists|jj: int|
                    0 <= jj < j && #[trigger] out@[m] == b.children@[jj] && !has_symbol(
                        a.children@,
                        b.children@[jj].symbol,
                    ),
            forall|jj: int|
                0 <= jj < j && !has_symbol(a.children@, (#[trigger] b.children@[jj]).symbol)
                    ==> has_symbol(out@, b.children@[jj].symbol),
            distinct_symbols(out@),
        decreases blen - j,
    {
        let eb = &b.children[j];
        if find_edge(&a.children, &eb.symbol).is_none() {
            let e = clone_edge(eb);
            proof {
                assert forall|m: int| 0 <= m < out@.len() implies (#[trigger] out@[m]).symbol != eb.symbol by {
                    if m < alen {
                        assert(out@[m].symbol == a.children@[m].symbol);
                    } else {
                        let jj = choose|jj: int|
                            0 <= jj < j && #[trigger] out@[m] == b.children@[jj] && !has_symbol(
                                a.children@,
                                b.children@[jj].symbol,
                            );
                        assert(jj != j);
                    }
                }
            }
            let ghost prev = out@;
            out.push(e);
            proof {
                assert(out@[out@.len() - 1] == b.children@[j as int]);
                assert forall|jj: int|
                    0 <= jj < j + 1 && !has_symbol(a.children@, (#[trigger] b.children@[jj]).symbol)
                        implies has_symbol(out@, b.children@[jj].symbol) by {
                    if jj < j {
                        assert(has_symbol(prev, b.children@[jj].symbol));
                        let m = symbol_index(prev, b.children@[jj].symbol);
                        assert(out@[m] == prev[m]);
                    } else {
                        assert(out@[out@.len() - 1].symbol == b.children@[jj].symbol);
                    }
                }
            }
        }
        j += 1;
    }
    proof {
        assert forall|m: int| 0 <= m < out@.len() implies is_live(*(#[trigger] out@[m]).child) && wf(
            *out@[m].child,
        ) by {
            if m >= alen {
                let jj = choose|jj: int|
                    0 <= jj < j && #[trigger] out@[m] == b.children@[jj] && !has_symbol(
                        a.children@,
                        b.children@[jj].symbol,
                    );
                assert(is_live(*b.children@[jj].child));
            }
        }
    }
    let ghost out_s = out@;
    let r = make_node(empty, out);
    proof {
        assert forall|k: Seq<S>| #[trigger] lookup(r, k) == opt_join(lookup(**a, k), lookup(**b, k)) by {
            if k.len() > 0 {
                let s = k.last();
                let t = k.drop_last();
                lemma_lookup_nonempty(r, k);
                lemma_lookup_nonempty(**a, k);
                lemma_lookup_nonempty(**b, k);
                if has_symbol(a.children@, s) {
                    let m = symbol_index(a.children@, s);
                    lemma_lookup_below_index(a.children@, m, t);
                    assert(out_s[m] == first[m]);
                    lemma_lookup_below_index(out_s, m, t);
                    assert(lookup(*first[m].child, t) == opt_join(
                        lookup(*a.children@[m].child, t),
                        lookup_below(b.children@, a.children@[m].symbol, t),
                    ));
                } else if has_symbol(b.children@, s) {
                    let jj = symbol_index(b.children@, s);
                    assert(has_symbol(out_s, b.children@[jj].symbol));
                    let m = symbol_index(out_s, s);
                    if m < alen {
                        assert(out_s[m] == first[m]);
                        assert(has_symbol(a.children@, s));
                    } else {
                        let jj2 = choose|jj2: int|
                            0 <= jj2 < j && #[trigger] out_s[m] == b.children@[jj2] && !has_symbol(
                                a.children@,
                                b.children@[jj2].symbol,
                            );
                        assert(jj2 == jj);
                        lemma_lookup_below_index(out_s, m, t);
                        lemma_lookup_below_index(b.children@, jj, t);
                    }
                } else {
                    if has_symbol(out_s, s) {
                        let m = symbol_index(out_s, s);
                        if m < alen {
                            assert(out_s[m] == first[m]);
                            assert(has_symbol(a.children@, s));
                        } else {
                            let jj2 = choose|jj2: int|
                                0 <= jj2 < j && #[trigger] out_s[m] == b.children@[jj2] && !has_symbol(
                                    a.children@,
                                    b.children@[jj2].symbol,
                                );
                            assert(has_symbol(b.children@, s));
                        }
                    }
                }
            }
        }
        assert(is_live(**a));
        assert(out_s.len() >= alen);
    }
    Arc::new(r)
}


/// The weights of the stacks that become `k` when `c` values are popped.
pub open spec fn popn_contrib<S, W>(n: Node<S, W>, c: nat, k: Seq<S>) -> Set<W> {
    Set::new(|w: W| exists|t: Seq<S>| t.len() == c && #[trigger] lookup(n, k + t) == Some(w))
}

/// The weights below the first `i` edges that become `k` when `c` values are popped
/// from the children.
pub open spec fn popn_edges_contrib<S, W>(cs: Seq<Edge<S, W>>, i: int, c: nat, k: Seq<S>) -> Set<W> {
    Set::new(
        |w: W|
            exists|m: int, t: Seq<S>|
                0 <= m < i && t.len() == c && #[trigger] lookup(*cs[m].child, k + t) == Some(w),
    )
}

/// Popping nothing changes no weight.
pub proof fn lemma_popn_zero_contrib<S, W: Weight>(n: Node<S, W>, k: Seq<S>)
    ensures
        is_opt_join_of(lookup(n, k), popn_contrib(n, 0, k)),
{
    let e = Seq::<S>::empty();
    assert(k + e =~= k);
    match lookup(n, k) {
        Some(v) => {
            assert(popn_contrib(n, 0, k) =~= set![v]) by {
                assert(lookup(n, k + e) == Some(v));
            }
            lemma_join_of_single(v);
        },
        None => {
            assert(popn_contrib(n, 0, k) =~= Set::<W>::empty()) by {
                assert forall|w: W| !(#[trigger] popn_contrib(n, 0, k).contains(w)) by {
                    if popn_contrib(n, 0, k).contains(w) {
                        let t = choose|t: Seq<S>| t.len() == 0 && #[trigger] lookup(n, k + t) == Some(w);
                        assert(t =~= e);
                    }
                }
            }
        },
    }
}

/// Popping `c + 1` values from a node pops `c` values from each of its children.
pub proof fn lemma_popn_edges_contrib<S, W>(n: Node<S, W>, c: nat, k: Seq<S>)
    requires
        distinct_symbols(n.children@),
    ensures
        popn_edges_contrib(n.children@, n.children@.len() as int, c, k) =~= popn_contrib(n, c + 1, k),
{
    let cs = n.children@;
    assert forall|w: W| #[trigger] popn_edges_contrib(cs, cs.len() as int, c, k).contains(w) implies popn_contrib(
        n,
        c + 1,
        k,
    ).contains(w) by {
        let (m, t) = choose|m: int, t: Seq<S>|
            0 <= m < cs.len() && t.len() == c && #[trigger] lookup(*cs[m].child, k + t) == Some(w);
        let t2 = t.push(cs[m].symbol);
        lemma_lookup_edge(n, m, k + t);
        assert((k + t).push(cs[m].symbol) =~= k + t2);
        assert(t2.len() == c + 1);
        assert(lookup(n, k + t2) == Some(w));
    }
    assert forall|w: W| #[trigger] popn_contrib(n, c + 1, k).contains(w) implies popn_edges_contrib(
        cs,
        cs.len() as int,
        c,
        k,
    ).contains(w) by {
        let t = choose|t: Seq<S>| t.len() == c + 1 && #[trigger] lookup(n, k + t) == Some(w);
        let s = t.last();
        let t1 = t.drop_last();
        assert((k + t).last() == s);
        assert((k + t).drop_last() =~= k + t1);
        lemma_lookup_nonempty(n, k + t);
        assert(has_symbol(cs, s));
        let m = symbol_index(cs, s);
        lemma_lookup_below_index(cs, m, k + t1);
        assert(lookup(*cs[m].child, k + t1) == Some(w));
    }
}

/// Popping `c + 1` values from a node with one edge pops `c` values from its child.
pub proof fn lemma_popn_single_edge<S, W>(m: Node<S, W>, c: nat, k: Seq<S>)
    requires
        m.children@.len() == 1,
    ensures
        popn_contrib(m, c + 1, k) == popn_contrib(*m.children@[0].child, c, k),
{
    lemma_popn_edges_contrib(m, c, k);
    assert(popn_edges_contrib(m.children@, 1, c, k) =~= popn_contrib(*m.children@[0].child, c, k)) by {
        assert forall|w: W| #[trigger] popn_edges_contrib(m.children@, 1, c, k).contains(w) implies popn_contrib(
            *m.children@[0].child,
            c,
            k,
        ).contains(w) by {
            let (i, t) = choose|i: int, t: Seq<S>|
                0 <= i < 1 && t.len() == c && #[trigger] lookup(*m.children@[i].child, k + t) == Some(w);
            assert(i == 0);
        }
        assert forall|w: W| #[trigger] popn_contrib(*m.children@[0].child, c, k).contains(w) implies popn_edges_contrib(
            m.children@,
            1,
            c,
            k,
        ).contains(w) by {
            let t = choose|t: Seq<S>| t.len() == c && #[trigger] lookup(*m.children@[0].child, k + t) == Some(w);
            assert(lookup(*m.children@[0].child, k + t) == Some(w));
        }
    }
}

/// Pop `c` values from every stack of `n`, discarding stacks shorter than `c`
/// and joining the weights of stacks that become equal.
///
/// Nodes with a single edge are passed through in a loop, so popping through a
/// long linear run of the trie does not deepen the recursion.
pub fn node_popn<S: PartialEq + Clone, W: Weight + Clone>(n: &Arc<Node<S, W>>, c: usize) -> (r: Arc<
    Node<S, W>,
>)
    requires
        wf(**n),
        exact_values::<S, W>(),
    ensures
        wf(*r),
        forall|k: Seq<S>| #[trigger] is_opt_join_of(lookup(*r, k), popn_contrib(**n, c as nat, k)),
    decreases c,
{
    let mut cur = n.clone();
    let mut d: usize = c;
    while d > 0 && cur.children.len() == 1
        invariant
            wf(*cur),
            d <= c,
            forall|k: Seq<S>| #[trigger] popn_contrib(**n, c as nat, k) == popn_contrib(*cur, d as nat, k),
        decreases d,
    {
        proof {
            assert forall|k: Seq<S>| #[trigger] popn_contrib(**n, c as nat, k) == popn_contrib(
                *cur.children@[0].child,
                (d - 1) as nat,
                k,
            ) by {
                lemma_popn_single_edge(*cur, (d - 1) as nat, k);
                assert(popn_contrib(**n, c as nat, k) == popn_contrib(*cur, d as nat, k));
            }
        }
        cur = cur.children[0].child.clone();
        d -= 1;
    }
    if d == 0 {
        proof {
            assert forall|k: Seq<S>| #[trigger] is_opt_join_of(lookup(*cur, k), popn_contrib(**n, c as nat, k)) by {
                lemma_popn_zero_contrib(*cur, k);
                assert(popn_contrib(**n, c as nat, k) == popn_contrib(*cur, d as nat, k));
            }
        }
        return cur;
    }
    let mut acc = dead_node();
    let len = cur.children.len();
    let mut i: usize = 0;
    proof {
        assert forall|k: Seq<S>| #[trigger] is_opt_join_of(lookup(*acc, k), popn_edges_contrib(cur.children@, 0, (d - 1) as nat, k)) by {
            assert(popn_edges_contrib(cur.children@, 0, (d - 1) as nat, k) =~= Set::<W>::empty());
        }
    }
    while i < len
        invariant
            wf(*cur),
            exact_values::<S, W>(),
            0 < d <= c,
            len == cur.children@.len(),
            i <= len,
            wf(*acc),
            forall|k: Seq<S>| #[trigger] is_opt_join_of(lookup(*acc, k), popn_edges_contrib(cur.children@, i as int, (d - 1) as nat, k)),
        decreases len - i,
    {
        let p = node_popn(&cur.children[i].child, d - 1);
        let next = node_merge(&acc, &p);
        proof {
            assert forall|k: Seq<S>| #[trigger] is_opt_join_of(lookup(*next, k), popn_edges_contrib(cur.children@, i + 1, (d - 1) as nat, k)) by {
                let child = *cur.children@[i as int].child;
                lemma_opt_join_of_union(
                    lookup(*acc, k),
                    popn_edges_contrib(cur.children@, i as int, (d - 1) as nat, k),
                    lookup(*p, k),
                    popn_contrib(child, (d - 1) as nat, k),
                );
                assert(popn_edges_contrib(cur.children@, i + 1, (d - 1) as nat, k) =~= popn_edges_contrib(cur.children@, i as int, (d - 1) as nat, k) + popn_contrib(child, (d - 1) as nat, k)) by {
                    let cs = cur.children@;
                    assert forall|w: W| #[trigger] popn_edges_contrib(cs, i + 1, (d - 1) as nat, k).contains(w) implies
                        (popn_edges_contrib(cs, i as int, (d - 1) as nat, k) + popn_contrib(child, (d - 1) as nat, k)).contains(w) by {
                        let (m, t) = choose|m: int, t: Seq<S>|
                            0 <= m < i + 1 && t.len() == (d - 1) as nat && #[trigger] lookup(*cs[m].child, k + t) == Some(w);
                        if m < i {
                            assert(popn_edges_contrib(cs, i as int, (d - 1) as nat, k).contains(w));
                        } else {
                            assert(popn_contrib(child, (d - 1) as nat, k).contains(w));
                        }
                    }
                    assert forall|w: W| #[trigger] (popn_edges_contrib(cs, i as int, (d - 1) as nat, k) + popn_contrib(child, (d - 1) as nat, k)).contains(w) implies
                        popn_edges_contrib(cs, i + 1, (d - 1) as nat, k).contains(w) by {
                        if popn_contrib(child, (d - 1) as nat, k).contains(w) {
                            let t = choose|t: Seq<S>| t.len() == (d - 1) as nat && #[trigger] lookup(child, k + t) == Some(w);
                            assert(lookup(*cs[i as int].child, k + t) == Some(w));
                        } else {
                            let (m, t) = choose|m: int, t: Seq<S>|
                                0 <= m < i && t.len() == (d - 1) as nat && #[trigger] lookup(*cs[m].child, k + t) == Some(w);
                            assert(lookup(*cs[m].child, k + t) == Some(w));
                        }
                    }
                }
            }
        }
        acc = next;
        i += 1;
    }
    proof {
        assert forall|k: Seq<S>| #[trigger] is_opt_join_of(lookup(*acc, k), popn_contrib(**n, c as nat, k)) by {
            lemma_popn_edges_contrib(*cur, (d - 1) as nat, k);
            assert(((d - 1) as nat) + 1 == d as nat);
            assert(popn_contrib(**n, c as nat, k) == popn_contrib(*cur, d as nat, k));
        }
    }
    acc
}


/// Keep only the stacks whose top is `x`.
pub fn node_retain_top<S: PartialEq + Clone, W>(n: &Arc<Node<S, W>>, x: &S) -> (r: Arc<Node<S, W>>)
    requires
        wf(**n),
        vstd::laws_eq::obeys_concrete_eq::<S>(),
        clone_exact::<S>(),
    ensures
        wf(*r),
        forall|k: Seq<S>| #[trigger] lookup(*r, k) == if k.len() > 0 && k.last() == *x {
            lookup(**n, k)
        } else {
            None
        },
{
    match find_edge(&n.children, x) {
        Some(i) => {
            let e = clone_edge(&n.children[i]);
            let mut children = Vec::new();
            children.push(e);
            let r = make_node(None, children);
            proof {
                assert forall|k: Seq<S>| #[trigger] lookup(r, k) == if k.len() > 0 && k.last() == *x {
                    lookup(**n, k)
                } else {
                    None
                } by {
                    if k.len() > 0 {
                        lemma_lookup_nonempty(r, k);
                        lemma_lookup_nonempty(**n, k);
                        if k.last() == *x {
                            lemma_lookup_below_index(r.children@, 0, k.drop_last());
                            lemma_lookup_below_index(n.children@, i as int, k.drop_last());
                        } else {
                            assert(!has_symbol(r.children@, k.last()));
                        }
                    }
                }
            }
            Arc::new(r)
        },
        None => {
            let r = dead_node();
            proof {
                assert forall|k: Seq<S>| #[trigger] lookup(*r, k) == if k.len() > 0 && k.last() == *x {
                    lookup(**n, k)
                } else {
                    None
                } by {
                    if k.len() > 0 {
                        lemma_lookup_nonempty(**n, k);
                    }
                }
            }
            r
        },
    }
}

/// Keep only the stacks whose top is `x`, and pop that top.
pub fn node_pop_top<S: PartialEq + Clone, W>(n: &Arc<Node<S, W>>, x: &S) -> (r: Arc<Node<S, W>>)
    requires
        wf(**n),
        vstd::laws_eq::obeys_concrete_eq::<S>(),
    ensures
        wf(*r),
        forall|t: Seq<S>| #[trigger] lookup(*r, t) == lookup(**n, t.push(*x)),
{
    match find_edge(&n.children, x) {
        Some(i) => {
            let c = n.children[i].child.clone();
            proof {
                assert forall|t: Seq<S>| #[trigger] lookup(*c, t) == lookup(**n, t.push(*x)) by {
                    lemma_lookup_edge(**n, i as int, t);
                }
            }
            c
        },
        None => {
            let r = dead_node();
            proof {
                assert forall|t: Seq<S>| #[trigger] lookup(*r, t) == lookup(**n, t.push(*x)) by {
                    lemma_lookup_nonempty(**n, t.push(*x));
                    assert(t.push(*x).last() == *x);
                }
            }
            r
        },
    }
}

/// Keep only the empty stack.
pub fn node_retain_empty<S, W: Clone>(n: &Arc<Node<S, W>>) -> (r: Arc<Node<S, W>>)
    requires
        wf(**n),
        clone_exact::<W>(),
    ensures
        wf(*r),
        forall|k: Seq<S>| #[trigger] lookup(*r, k) == if k.len() == 0 { lookup(**n, k) } else { None },
{
    match &n.empty {
        Some(w) => leaf_node(clone_value(w)),
        None => dead_node(),
    }
}

/// The symbols on the edges of `n`: the distinct tops of its non-empty stacks.
pub fn node_tops<S: Clone, W>(n: &Node<S, W>) -> (tops: Vec<S>)
    requires
        clone_exact::<S>(),
    ensures
        tops@.len() == n.children@.len(),
        forall|i: int| 0 <= i < tops@.len() ==> #[trigger] tops@[i] == n.children@[i].symbol,
{
    let mut tops = Vec::new();
    let mut i: usize = 0;
    while i < n.children.len()
        invariant
            clone_exact::<S>(),
            i <= n.children@.len(),
            tops@.len() == i,
            forall|m: int| 0 <= m < i ==> #[trigger] tops@[m] == n.children@[m].symbol,
        decreases n.children@.len() - i,
    {
        tops.push(clone_value(&n.children[i].symbol));
        i += 1;
    }
    tops
}

/// The weights of all stacks of `n`.
pub open spec fn node_values<S, W>(n: Node<S, W>) -> Set<W> {
    Set::new(|w: W| exists|k: Seq<S>| #[trigger] lookup(n, k) == Some(w))
}

/// The weights of all stacks below the first `i` edges.
pub open spec fn edges_values<S, W>(cs: Seq<Edge<S, W>>, i: int) -> Set<W> {
    Set::new(|w: W| exists|m: int, t: Seq<S>| 0 <= m < i && #[trigger] lookup(*cs[m].child, t) == Some(w))
}

/// The weight of the empty stack, as a set.
pub open spec fn empty_values<W>(e: Option<W>) -> Set<W> {
    match e {
        Some(w) => set![w],
        None => Set::empty(),
    }
}

/// A node with no empty stack and a single edge has the weights of its child.
pub proof fn lemma_linear_values<S, W>(m: Node<S, W>)
    requires
        m.empty is None,
        m.children@.len() == 1,
    ensures
        node_values(m) == node_values(*m.children@[0].child),
{
    let c = *m.children@[0].child;
    let s = m.children@[0].symbol;
    assert forall|w: W| #[trigger] node_values(m).contains(w) implies node_values(c).contains(w) by {
        let k = choose|k: Seq<S>| #[trigger] lookup(m, k) == Some(w);
        lemma_linear_lookup(m, k);
        assert(lookup(c, k.drop_last()) == Some(w));
    }
    assert forall|w: W| #[trigger] node_values(c).contains(w) implies node_values(m).contains(w) by {
        let t = choose|t: Seq<S>| #[trigger] lookup(c, t) == Some(w);
        lemma_linear_lookup(m, t.push(s));
        assert(t.push(s).drop_last() =~= t);
        assert(lookup(m, t.push(s)) == Some(w));
    }
    assert(node_values(m) =~= node_values(c));
}

/// The join of the weights of all stacks of `n`.
///
/// A top run of nodes without the empty stack and with a single edge is walked
/// in a loop, so a long linear stack does not deepen the recursion.
pub fn node_joined<S, W: Weight + Clone>(n: &Arc<Node<S, W>>) -> (r: Option<W>)
    requires
        wf(**n),
        clone_exact::<W>(),
        lawful_join::<W>(),
    ensures
        is_opt_join_of(r, node_values(**n)),
    decreases **n, 1nat,
{
    let mut cur = n.clone();
    loop
        invariant
            wf(*cur),
            **n == *cur || decreases_to!(**n => *cur),
            node_values(**n) == node_values(*cur),
        decreases *cur,
    {
        if !(cur.empty.is_none() && cur.children.len() == 1) {
            break;
        }
        let next = cur.children[0].child.clone();
        proof {
            assert(decreases_to!(*cur => *next));
            if arc_node(n) != arc_node(&cur) {
                assert(decreases_to!(**n => *next));
            }
            lemma_linear_values(arc_node(&cur));
        }
        cur = next;
    }
    joined_level(&cur)
}

/// The join of the weights of all stacks of `n`, one trie level at a time.
fn joined_level<S, W: Weight + Clone>(n: &Arc<Node<S, W>>) -> (r: Option<W>)
    requires
        wf(**n),
        clone_exact::<W>(),
        lawful_join::<W>(),
    ensures
        is_opt_join_of(r, node_values(**n)),
    decreases **n, 0nat,
{
    let mut acc = join_options(&n.empty, &None);
    let len = n.children.len();
    let mut i: usize = 0;
    assert(is_opt_join_of(acc, empty_values(n.empty) + edges_values(n.children@, 0))) by {
        match n.empty {
            Some(w) => lemma_join_of_single(w),
            None => {},
        }
        assert(empty_values(n.empty) + edges_values(n.children@, 0) =~= empty_values(n.empty));
    }
    while i < len
        invariant
            wf(**n),
            clone_exact::<W>(),
            lawful_join::<W>(),
            len == n.children@.len(),
            i <= len,
            is_opt_join_of(acc, empty_values(n.empty) + edges_values(n.children@, i as int)),
        decreases len - i,
    {
        let cj = node_joined(&n.children[i].child);
        assert(is_opt_join_of(opt_join(acc, cj), empty_values(n.empty) + edges_values(n.children@, i + 1))) by {
            let child = *n.children@[i as int].child;
            lemma_opt_join_of_union(
                acc,
                empty_values(n.empty) + edges_values(n.children@, i as int),
                cj,
                node_values(child),
            );
            let cs = n.children@;
            assert(empty_values(n.empty) + edges_values(cs, i + 1) =~= (empty_values(n.empty) + edges_values(cs, i as int)) + node_values(child)) by {
                assert forall|w: W| #[trigger] edges_values(cs, i + 1).contains(w) implies
                    (edges_values(cs, i as int) + node_values(child)).contains(w) by {
                    let (m, t) = choose|m: int, t: Seq<S>| 0 <= m < i + 1 && #[trigger] lookup(*cs[m].child, t) == Some(w);
                    if m < i {
                        assert(edges_values(cs, i as int).contains(w));
                    } else {
                        assert(node_values(child).contains(w));
                    }
                }
                assert forall|w: W| #[trigger] (edges_values(cs, i as int) + node_values(child)).contains(w) implies
                    edges_values(cs, i + 1).contains(w) by {
                    if node_values(child).contains(w) {
                        let t = choose|t: Seq<S>| #[trigger] lookup(child, t) == Some(w);
                        assert(lookup(*cs[i as int].child, t) == Some(w));
                    } else {
                        let (m, t) = choose|m: int, t: Seq<S>| 0 <= m < i && #[trigger] lookup(*cs[m].child, t) == Some(w);
                        assert(lookup(*cs[m].child, t) == Some(w));
                    }
                }
            }
        }
        acc = join_options(&acc, &cj);
        i += 1;
    }
    proof {
        let cs = n.children@;
        assert(empty_values(n.empty) + edges_values(cs, len as int) =~= node_values(**n)) by {
            assert forall|w: W| #[trigger] node_values(**n).contains(w) implies
                (empty_values(n.empty) + edges_values(cs, len as int)).contains(w) by {
                let k = choose|k: Seq<S>| #[trigger] lookup(**n, k) == Some(w);
                if k.len() == 0 {
                    assert(empty_values(n.empty).contains(w));
                } else {
                    lemma_lookup_nonempty(**n, k);
                    let m = symbol_index(cs, k.last());
                    lemma_lookup_below_index(cs, m, k.drop_last());
                    assert(lookup(*cs[m].child, k.drop_last()) == Some(w));
                }
            }
            assert forall|w: W| #[trigger] (empty_values(n.empty) + edges_values(cs, len as int)).contains(w) implies
                node_values(**n).contains(w) by {
                if empty_values(n.empty).contains(w) {
                    assert(lookup(**n, Seq::<S>::empty()) == Some(w));
                } else {
                    let (m, t) = choose|m: int, t: Seq<S>| 0 <= m < len && #[trigger] lookup(*cs[m].child, t) == Some(w);
                    lemma_lookup_edge(**n, m, t);
                    assert(lookup(**n, t.push(cs[m].symbol)) == Some(w));
                }
            }
        }
    }
    acc
}


/// The stacks that `n` represents.
pub open spec fn node_dom<S, W>(n: Node<S, W>) -> Set<Seq<S>> {
    Set::new(|k: Seq<S>| lookup(n, k) is Some)
}

/// The non-empty stacks of `n` whose top is the symbol of one of the first `i` edges.
pub open spec fn edges_dom<S, W>(n: Node<S, W>, i: int) -> Set<Seq<S>> {
    Set::new(
        |k: Seq<S>|
            k.len() > 0 && lookup(n, k) is Some && has_symbol(n.children@, k.last()) && symbol_index(
                n.children@,
                k.last(),
            ) < i,
    )
}

/// A well-formed node represents finitely many stacks.
pub proof fn lemma_dom_finite<S, W>(n: Node<S, W>)
    requires
        wf(n),
    ensures
        node_dom(n).finite(),
    decreases n, n.children@.len() + 1,
{
    let len = n.children@.len() as int;
    lemma_edges_dom_finite(n, len);
    let e = Seq::<S>::empty();
    assert(node_dom(n) <= edges_dom(n, len).insert(e)) by {
        assert forall|k: Seq<S>| #[trigger] node_dom(n).contains(k) implies edges_dom(n, len).insert(e).contains(k) by {
            if k.len() == 0 {
                assert(k =~= e);
            } else {
                lemma_lookup_nonempty(n, k);
            }
        }
    }
    vstd::set_lib::lemma_set_subset_finite(edges_dom(n, len).insert(e), node_dom(n));
}

/// The stacks below the first `i` edges are finitely many.
pub proof fn lemma_edges_dom_finite<S, W>(n: Node<S, W>, i: int)
    requires
        wf(n),
        0 <= i <= n.children@.len(),
    ensures
        edges_dom(n, i).finite(),
    decreases n, i,
{
    let cs = n.children@;
    if i == 0 {
        assert(edges_dom(n, 0) =~= Set::<Seq<S>>::empty());
    } else {
        lemma_edges_dom_finite(n, i - 1);
        let c = *cs[i - 1].child;
        lemma_dom_finite(c);
        let s = cs[i - 1].symbol;
        let f = |t: Seq<S>| t.push(s);
        node_dom(c).lemma_map_finite(f);
        assert(edges_dom(n, i) <= edges_dom(n, i - 1) + node_dom(c).map(f)) by {
            assert forall|k: Seq<S>| #[trigger] edges_dom(n, i).contains(k) implies (edges_dom(n, i - 1) + node_dom(c).map(f)).contains(k) by {
                let m = symbol_index(cs, k.last());
                if m == i - 1 {
                    lemma_lookup_nonempty(n, k);
                    lemma_lookup_below_index(cs, m, k.drop_last());
                    assert(node_dom(c).contains(k.drop_last()));
                    assert(k.drop_last().push(s) =~= k);
                    assert(f(k.drop_last()) == k);
                }
            }
        }
        vstd::set_lib::lemma_set_subset_finite(edges_dom(n, i - 1) + node_dom(c).map(f), edges_dom(n, i));
    }
}

/// Clone a stack.
pub fn clone_stack<S: Clone>(v: &Vec<S>) -> (r: Vec<S>)
    requires
        clone_exact::<S>(),
    ensures
        r@ == v@,
{
    let mut r = Vec::new();
    let mut i: usize = 0;
    while i < v.len()
        invariant
            clone_exact::<S>(),
            i <= v@.len(),
            r@ == v@.subrange(0, i as int),
        decreases v@.len() - i,
    {
        r.push(clone_value(&v[i]));
        i += 1;
        proof {
            assert(r@ =~= v@.subrange(0, i as int));
        }
    }
    proof {
        assert(v@.subrange(0, v@.len() as int) =~= v@);
    }
    r
}

/// The keys of a list of weighted stacks are pairwise different.
pub open spec fn distinct_keys<S, W>(l: Seq<(Vec<S>, W)>) -> bool {
    forall|i: int, j: int| 0 <= i < l.len() && 0 <= j < l.len() && i != j ==> l[i].0@ != l[j].0@
}

/// Every entry of the list is a stack of `n` with its weight.
pub open spec fn entries_of<S, W>(n: Node<S, W>, l: Seq<(Vec<S>, W)>) -> bool {
    forall|i: int| 0 <= i < l.len() ==> #[trigger] lookup(n, l[i].0@) == Some(l[i].1)
}

/// Every stack of `n` is a key of the list.
pub open spec fn covers<S, W>(n: Node<S, W>, l: Seq<(Vec<S>, W)>) -> bool {
    forall|k: Seq<S>| #[trigger] lookup(n, k) is Some ==> exists|i: int| 0 <= i < l.len() && l[i].0@ == k
}

/// The symbols that the chain of single edges `path`, from its position `i` to
/// its end, adds on top of a stack, bottom-to-top.
pub open spec fn chain_suffix<S>(path: Seq<S>, i: int) -> Seq<S>
    decreases path.len() - i,
{
    if i >= path.len() {
        Seq::empty()
    } else {
        chain_suffix(path, i + 1).push(path[i])
    }
}

/// `gn` is a run of nodes, each without the empty stack and with one edge,
/// carrying the symbol of `path` at the same position, to the next node.
pub open spec fn is_chain<S, W>(gn: Seq<Node<S, W>>, path: Seq<S>) -> bool {
    &&& gn.len() == path.len() + 1
    &&& forall|i: int| 0 <= i < path.len() ==> linear_step(gn[i], #[trigger] path[i], gn[i + 1])
}

/// Along a chain, the stacks at position `i` are those at its end with the
/// chain's symbols from `i` on pushed.
pub proof fn lemma_chain_lookup<S, W>(gn: Seq<Node<S, W>>, path: Seq<S>, i: int, k: Seq<S>)
    requires
        is_chain(gn, path),
        0 <= i <= path.len(),
    ensures
        lookup(gn[i], k) is Some ==> chain_suffix(path, i).len() <= k.len() && k =~= k.subrange(
            0,
            k.len() - chain_suffix(path, i).len(),
        ) + chain_suffix(path, i),
        forall|t: Seq<S>| #[trigger] lookup(gn[i], t + chain_suffix(path, i)) == lookup(gn[path.len() as int], t),
    decreases path.len() - i,
{
    if i < path.len() {
        assert(linear_step(gn[i], path[i], gn[i + 1]));
        lemma_linear_lookup(gn[i], k);
        if lookup(gn[i], k) is Some {
            let dl = k.drop_last();
            lemma_chain_lookup(gn, path, i + 1, dl);
            let s1 = chain_suffix(path, i + 1);
            let base = dl.subrange(0, dl.len() - s1.len());
            assert(dl =~= base + s1);
            assert(k =~= dl.push(path[i]));
            assert(k.subrange(0, k.len() - chain_suffix(path, i).len()) =~= base);
            assert(k =~= base + chain_suffix(path, i));
        }
        assert forall|t: Seq<S>| #[trigger] lookup(gn[i], t + chain_suffix(path, i)) == lookup(gn[path.len() as int], t) by {
            let u = t + chain_suffix(path, i + 1);
            assert(t + chain_suffix(path, i) =~= u.push(path[i]));
            lemma_linear_lookup(gn[i], u.push(path[i]));
            assert(u.push(path[i]).drop_last() =~= u);
            lemma_chain_lookup(gn, path, i + 1, u);
        }
    } else {
        assert forall|t: Seq<S>| #[trigger] lookup(gn[i], t + chain_suffix(path, i)) == lookup(gn[path.len() as int], t) by {
            assert(t + chain_suffix(path, i) =~= t);
        }
    }
}

/// Enumerate the stacks of `n`, bottom-to-top, with their weights, stopping as
/// soon as more than `limit` distinct stacks have been found. The flag tells
/// whether the enumeration is complete.
///
/// A top run of nodes without the empty stack and with a single edge is walked
/// in a loop, so a long linear stack does not deepen the recursion.
pub fn node_collect<S: Clone, W: Clone>(n: &Arc<Node<S, W>>, limit: usize) -> (r: (Vec<(Vec<S>, W)>, bool))
    requires
        wf(**n),
        clone_exact::<S>(),
        clone_exact::<W>(),
    ensures
        entries_of(**n, r.0@),
        distinct_keys(r.0@),
        r.1 ==> covers(**n, r.0@) && r.0@.len() <= limit,
        !r.1 ==> r.0@.len() > limit,
    decreases **n, 1nat,
{
    let mut cur = n.clone();
    let mut path: Vec<S> = Vec::new();
    let ghost mut gn: Seq<Node<S, W>> = seq![arc_node(n)];
    loop
        invariant
            clone_exact::<S>(),
            wf(*cur),
            **n == *cur || decreases_to!(**n => *cur),
            is_chain(gn, path@),
            gn[0] == **n,
            gn.last() == *cur,
        decreases *cur,
    {
        if !(cur.empty.is_none() && cur.children.len() == 1) {
            break;
        }
        let ghost prev = path@;
        path.push(clone_value(&cur.children[0].symbol));
        let next = cur.children[0].child.clone();
        proof {
            assert(decreases_to!(*cur => *next));
            if arc_node(n) != arc_node(&cur) {
                assert(decreases_to!(**n => *next));
            }
            gn = gn.push(arc_node(&next));
            assert forall|i: int| 0 <= i < path@.len() implies linear_step(gn[i], #[trigger] path@[i], gn[i + 1]) by {
                if i < prev.len() {
                    assert(path@[i] == prev[i]);
                }
            }
        }
        cur = next;
    }
    let (sub, complete) = collect_level(&cur, limit);
    if path.len() == 0 {
        return (sub, complete);
    }
    let ghost m = path@.len() as int;
    let mut out: Vec<(Vec<S>, W)> = Vec::new();
    let mut q: usize = 0;
    while q < sub.len()
        invariant
            clone_exact::<S>(),
            clone_exact::<W>(),
            is_chain(gn, path@),
            m == path@.len(),
            gn[m] == *cur,
            q <= sub@.len(),
            out@.len() == q,
            forall|j: int| 0 <= j < q ==> (#[trigger] out@[j]).0@ == sub@[j].0@ + chain_suffix(path@, 0) && out@[j].1 == sub@[j].1,
        decreases sub@.len() - q,
    {
        let mut stack = clone_stack(&sub[q].0);
        let mut p: usize = path.len();
        while p > 0
            invariant
                clone_exact::<S>(),
                p <= path@.len(),
                q < sub@.len(),
                stack@ == sub@[q as int].0@ + chain_suffix(path@, p as int),
            decreases p,
        {
            p -= 1;
            stack.push(clone_value(&path[p]));
            assert(stack@ =~= sub@[q as int].0@ + chain_suffix(path@, p as int));
        }
        out.push((stack, clone_value(&sub[q].1)));
        q += 1;
    }
    proof {
        let sfx = chain_suffix(path@, 0);
        assert forall|j: int| 0 <= j < out@.len() implies #[trigger] lookup(**n, out@[j].0@) == Some(out@[j].1) by {
            lemma_chain_lookup(gn, path@, 0, out@[j].0@);
            assert(lookup(gn[0], sub@[j].0@ + sfx) == lookup(gn[m], sub@[j].0@));
        }
        assert forall|a: int, b: int| 0 <= a < out@.len() && 0 <= b < out@.len() && a != b implies out@[a].0@ != out@[b].0@ by {
            if out@[a].0@ == out@[b].0@ {
                assert(sub@[a].0@ =~= out@[a].0@.subrange(0, sub@[a].0@.len() as int));
                assert(sub@[b].0@ =~= out@[b].0@.subrange(0, sub@[b].0@.len() as int));
            }
        }
        if complete {
            assert forall|k: Seq<S>| #[trigger] lookup(**n, k) is Some implies exists|j: int| 0 <= j < out@.len() && out@[j].0@ == k by {
                lemma_chain_lookup(gn, path@, 0, k);
                let t = k.subrange(0, k.len() - sfx.len());
                assert(lookup(gn[0], t + sfx) == lookup(gn[m], t));
                assert(k =~= t + sfx);
                let j = choose|j: int| 0 <= j < sub@.len() && sub@[j].0@ == t;
                assert(out@[j].0@ =~= k);
            }
        }
    }
    (out, complete)
}

/// Enumerate the stacks of `n` one trie level at a time: its empty stack, then
/// the stacks below each edge with the edge's symbol on top.
fn collect_level<S: Clone, W: Clone>(n: &Arc<Node<S, W>>, limit: usize) -> (r: (Vec<(Vec<S>, W)>, bool))
    requires
        wf(**n),
        clone_exact::<S>(),
        clone_exact::<W>(),
    ensures
        entries_of(**n, r.0@),
        distinct_keys(r.0@),
        r.1 ==> covers(**n, r.0@) && r.0@.len() <= limit,
        !r.1 ==> r.0@.len() > limit,
    decreases **n, 0nat,
{
    let mut out: Vec<(Vec<S>, W)> = Vec::new();
    match &n.empty {
        Some(w) => {
            out.push((Vec::new(), clone_value(w)));
            if out.len() > limit {
                return (out, false);
            }
        },
        None => {},
    }
    proof {
        assert forall|k: Seq<S>|
            #[trigger] lookup(**n, k) is Some && (k.len() == 0 || symbol_index(n.children@, k.last()) < 0)
                implies exists|j: int| 0 <= j < out@.len() && out@[j].0@ == k by {
            assert(k =~= out@[0].0@);
        }
    }
    let len = n.children.len();
    let mut i: usize = 0;
    while i < len
        invariant
            wf(**n),
            clone_exact::<S>(),
            clone_exact::<W>(),
            len == n.children@.len(),
            i <= len,
            out@.len() <= limit,
            entries_of(**n, out@),
            distinct_keys(out@),
            forall|j: int| 0 <= j < out@.len() ==> (#[trigger] out@[j]).0@.len() == 0 || (has_symbol(
                n.children@,
                out@[j].0@.last(),
            ) && symbol_index(n.children@, out@[j].0@.last()) < i),
            forall|k: Seq<S>|
                #[trigger] lookup(**n, k) is Some && (k.len() == 0 || symbol_index(n.children@, k.last()) < i)
                    ==> exists|j: int| 0 <= j < out@.len() && out@[j].0@ == k,
        decreases len - i,
    {
        let budget = limit - out.len();
        let (sub, complete) = node_collect(&n.children[i].child, budget);
        let ghost before = out@;
        let ghost cs = n.children@;
        let mut q: usize = 0;
        while q < sub.len()
            invariant
                wf(**n),
                clone_exact::<S>(),
                clone_exact::<W>(),
                cs == n.children@,
                len == cs.len(),
                i < len,
                q <= sub@.len(),
                out@.len() == before.len() + q,
                out@.len() <= limit,
                forall|j: int| 0 <= j < before.len() ==> #[trigger] out@[j] == before[j],
                forall|j: int| before.len() <= j < out@.len() ==> (#[trigger] out@[j]).0@ == sub@[j - before.len()].0@.push(cs[i as int].symbol),
                forall|j: int| before.len() <= j < out@.len() ==> (#[trigger] out@[j]).1 == sub@[j - before.len()].1,
                entries_of(*cs[i as int].child, sub@),
                distinct_keys(sub@),
                entries_of(**n, before),
                distinct_keys(before),
                forall|j: int| 0 <= j < before.len() ==> (#[trigger] before[j]).0@.len() == 0 || (has_symbol(
                    cs,
                    before[j].0@.last(),
                ) && symbol_index(cs, before[j].0@.last()) < i),
                forall|k: Seq<S>|
                    #[trigger] lookup(**n, k) is Some && (k.len() == 0 || symbol_index(cs, k.last()) < i)
                        ==> exists|j: int| 0 <= j < before.len() && before[j].0@ == k,
            decreases sub@.len() - q,
        {
            let mut stack = clone_stack(&sub[q].0);
            stack.push(clone_value(&n.children[i].symbol));
            let w = clone_value(&sub[q].1);
            let ghost prev = out@;
            out.push((stack, w));
            proof {
                assert forall|j: int| before.len() <= j < out@.len() implies (#[trigger] out@[j]).0@ == sub@[j
                    - before.len()].0@.push(cs[i as int].symbol) && out@[j].1 == sub@[j - before.len()].1 by {
                    if j < prev.len() {
                        assert(out@[j] == prev[j]);
                    }
                }
                assert forall|j: int| 0 <= j < before.len() implies #[trigger] out@[j] == before[j] by {
                    assert(out@[j] == prev[j]);
                }
            }
            q += 1;
            if out.len() > limit {
                proof {
                    assert(entries_of(**n, out@)) by {
                        assert forall|j: int| 0 <= j < out@.len() implies #[trigger] lookup(**n, out@[j].0@) == Some(out@[j].1) by {
                            if j >= before.len() {
                                let p = j - before.len();
                                lemma_lookup_edge(**n, i as int, sub@[p].0@);
                            } else {
                                assert(out@[j] == before[j]);
                            }
                        }
                    }
                    assert(distinct_keys(out@)) by {
                        assert forall|a: int, b: int| 0 <= a < out@.len() && 0 <= b < out@.len() && a != b implies out@[a].0@ != out@[b].0@ by {
                            if a >= before.len() && b >= before.len() {
                                let pa = a - before.len();
                                let pb = b - before.len();
                                assert(out@[a].0@.drop_last() =~= sub@[pa].0@);
                                assert(out@[b].0@.drop_last() =~= sub@[pb].0@);
                            } else if a >= before.len() {
                                assert(out@[b] == before[b]);
                                assert(out@[a].0@.last() == cs[i as int].symbol);
                                if out@[b].0@.len() > 0 {
                                    assert(symbol_index(cs, out@[b].0@.last()) < i);
                                }
                            } else if b >= before.len() {
                                assert(out@[a] == before[a]);
                                assert(out@[b].0@.last() == cs[i as int].symbol);
                                if out@[a].0@.len() > 0 {
                                    assert(symbol_index(cs, out@[a].0@.last()) < i);
                                }
                            } else {
                                assert(out@[a] == before[a]);
                                assert(out@[b] == before[b]);
                            }
                        }
                    }
                }
                return (out, false);
            }
        }
        proof {
            assert(complete) by {
                if !complete {
                    assert(sub@.len() > budget);
                }
            }
        }
        proof {
            assert(entries_of(**n, out@)) by {
                assert forall|j: int| 0 <= j < out@.len() implies #[trigger] lookup(**n, out@[j].0@) == Some(out@[j].1) by {
                    if j >= before.len() {
                        let p = j - before.len();
                        lemma_lookup_edge(**n, i as int, sub@[p].0@);
                    } else {
                        assert(out@[j] == before[j]);
                    }
                }
            }
            assert(distinct_keys(out@)) by {
                assert forall|a: int, b: int| 0 <= a < out@.len() && 0 <= b < out@.len() && a != b implies out@[a].0@ != out@[b].0@ by {
                    if a >= before.len() && b >= before.len() {
                        let pa = a - before.len();
                        let pb = b - before.len();
                        assert(out@[a].0@.drop_last() =~= sub@[pa].0@);
                        assert(out@[b].0@.drop_last() =~= sub@[pb].0@);
                    } else if a >= before.len() {
                        assert(out@[b] == before[b]);
                        assert(out@[a].0@.last() == cs[i as int].symbol);
                        if out@[b].0@.len() > 0 {
                            assert(symbol_index(cs, out@[b].0@.last()) < i);
                        }
                    } else if b >= before.len() {
                        assert(out@[a] == before[a]);
                        assert(out@[b].0@.last() == cs[i as int].symbol);
                        if out@[a].0@.len() > 0 {
                            assert(symbol_index(cs, out@[a].0@.last()) < i);
                        }
                    } else {
                        assert(out@[a] == before[a]);
                        assert(out@[b] == before[b]);
                    }
                }
            }
            assert forall|j: int| 0 <= j < out@.len() implies (#[trigger] out@[j]).0@.len() == 0 || (has_symbol(
                cs,
                out@[j].0@.last(),
            ) && symbol_index(cs, out@[j].0@.last()) < i + 1) by {
                if j >= before.len() {
                    let p = j - before.len();
                    assert(out@[j].0@.last() == cs[i as int].symbol);
                    assert(has_symbol(cs, cs[i as int].symbol));
                } else {
                    assert(out@[j] == before[j]);
                }
            }
            assert forall|k: Seq<S>|
                #[trigger] lookup(**n, k) is Some && (k.len() == 0 || symbol_index(cs, k.last()) < i + 1)
                    implies exists|j: int| 0 <= j < out@.len() && out@[j].0@ == k by {
                if k.len() > 0 && symbol_index(cs, k.last()) == i {
                    lemma_lookup_nonempty(**n, k);
                    lemma_lookup_below_index(cs, i as int, k.drop_last());
                    assert(lookup(*cs[i as int].child, k.drop_last()) is Some);
                    let p = choose|p: int| 0 <= p < sub@.len() && sub@[p].0@ == k.drop_last();
                    let j = before.len() + p;
                    assert(out@[j].0@ =~= k);
                } else {
                    let j = choose|j: int| 0 <= j < before.len() && before[j].0@ == k;
                    assert(out@[j] == before[j]);
                }
            }
        }
        i += 1;
    }
    proof {
        assert forall|k: Seq<S>| #[trigger] lookup(**n, k) is Some implies exists|j: int| 0 <= j < out@.len() && out@[j].0@ == k by {
            if k.len() > 0 {
                lemma_lookup_nonempty(**n, k);
            }
        }
    }
    (out, true)
}


/// Facts about the saturated maximum of the edge depths.
pub proof fn lemma_children_depth<S, W>(cs: Seq<Edge<S, W>>)
    ensures
        forall|i: int| 0 <= i < cs.len() ==> sat_inc((#[trigger] cs[i]).child.depth) <= children_depth(cs),
        cs.len() == 0 ==> children_depth(cs) == 0,
        cs.len() > 0 ==> exists|i: int| 0 <= i < cs.len() && children_depth(cs) == sat_inc((#[trigger] cs[i]).child.depth),
    decreases cs.len(),
{
    if cs.len() > 0 {
        let p = cs.drop_last();
        lemma_children_depth(p);
        assert forall|i: int| 0 <= i < cs.len() implies sat_inc((#[trigger] cs[i]).child.depth) <= children_depth(cs) by {
            if i < cs.len() - 1 {
                assert(cs[i] == p[i]);
            }
        }
        if p.len() > 0 && children_depth(p) >= sat_inc(cs.last().child.depth) {
            let i = choose|i: int| 0 <= i < p.len() && children_depth(p) == sat_inc((#[trigger] p[i]).child.depth);
            assert(cs[i] == p[i]);
        } else {
            assert(children_depth(cs) == sat_inc(cs[cs.len() - 1].child.depth));
        }
    }
}

/// The cached depth is the maximum stack length, saturated at `usize::MAX`.
pub proof fn lemma_depth<S, W>(n: Node<S, W>)
    requires
        wf(n),
    ensures
        forall|k: Seq<S>| #[trigger] lookup(n, k) is Some ==> k.len() <= n.depth || n.depth == usize::MAX,
        is_live(n) ==> exists|k: Seq<S>| #[trigger] lookup(n, k) is Some && k.len() >= n.depth,
        !is_live(n) ==> n.depth == 0,
    decreases n,
{
    let cs = n.children@;
    lemma_children_depth(cs);
    assert forall|k: Seq<S>| #[trigger] lookup(n, k) is Some implies k.len() <= n.depth || n.depth == usize::MAX by {
        if k.len() > 0 {
            lemma_lookup_nonempty(n, k);
            let m = symbol_index(cs, k.last());
            lemma_lookup_below_index(cs, m, k.drop_last());
            let c = *cs[m].child;
            lemma_depth(c);
            assert(lookup(c, k.drop_last()) is Some);
            assert(sat_inc(cs[m].child.depth) <= n.depth);
        }
    }
    if is_live(n) {
        if cs.len() == 0 {
            assert(lookup(n, Seq::<S>::empty()) is Some);
        } else {
            let i = choose|i: int| 0 <= i < cs.len() && children_depth(cs) == sat_inc((#[trigger] cs[i]).child.depth);
            let c = *cs[i].child;
            lemma_depth(c);
            let t = choose|t: Seq<S>| #[trigger] lookup(c, t) is Some && t.len() >= c.depth;
            lemma_lookup_edge(n, i, t);
            assert(lookup(n, t.push(cs[i].symbol)) is Some);
        }
    }
}

/// Build the node of a single bottom-to-top stack with weight `w`.
pub fn node_from_stack<S: Clone, W>(stack: &Vec<S>, w: W) -> (r: Arc<Node<S, W>>)
    requires
        clone_exact::<S>(),
    ensures
        wf(*r),
        is_live(*r),
        forall|k: Seq<S>| #[trigger] lookup(*r, k) == if k == stack@ { Some(w) } else { None::<W> },
{
    let ghost w0 = w;
    let mut n = leaf_node(w);
    let mut i: usize = 0;
    proof {
        assert forall|k: Seq<S>| #[trigger] lookup(*n, k) == if k == stack@.subrange(0, 0) { Some(w0) } else { None::<W> } by {
            if k.len() == 0 {
                assert(k =~= stack@.subrange(0, 0));
            }
        }
    }
    while i < stack.len()
        invariant
            clone_exact::<S>(),
            i <= stack@.len(),
            wf(*n),
            is_live(*n),
            forall|k: Seq<S>| #[trigger] lookup(*n, k) == if k == stack@.subrange(0, i as int) { Some(w0) } else { None::<W> },
        decreases stack@.len() - i,
    {
        let next = node_push(&n, clone_value(&stack[i]));
        proof {
            let pre = stack@.subrange(0, i as int);
            let post = stack@.subrange(0, i + 1);
            assert(post =~= pre.push(stack@[i as int]));
            assert forall|k: Seq<S>| #[trigger] lookup(*next, k) == if k == post { Some(w0) } else { None::<W> } by {
                if k == post {
                    assert(k.drop_last() =~= pre);
                } else if k.len() > 0 && k.last() == stack@[i as int] {
                    if k.drop_last() == pre {
                        assert(k =~= post);
                    }
                }
            }
        }
        n = next;
        i += 1;
    }
    proof {
        assert(stack@.subrange(0, stack@.len() as int) =~= stack@);
    }
    n
}


/// `r` is a possible result of `f` on `o`, where no weight maps to no weight.
pub open spec fn mapped_by<W, V, F: FnMut(&W) -> Option<V>>(f: F, o: Option<W>, r: Option<V>) -> bool {
    match o {
        None => r is None,
        Some(w) => f.ensures((&w,), r),
    }
}

/// Apply `f` to the weight of every stack, dropping the stacks for which it
/// returns `None`.
///
/// A top run of nodes without the empty stack and with a single edge is walked
/// in a loop, so a long linear stack does not deepen the recursion.
pub fn node_filter_map<S: Clone, W, V, F: FnMut(&W) -> Option<V>>(n: &Arc<Node<S, W>>, f: &mut F) -> (r: Arc<
    Node<S, V>,
>)
    requires
        wf(**n),
        clone_exact::<S>(),
        forall|w: W| #[trigger] (*old(f)).requires((&w,)),
    ensures
        *final(f) == *old(f),
        wf(*r),
        forall|k: Seq<S>| #[trigger] mapped_by(*old(f), lookup(**n, k), lookup(*r, k)),
    decreases **n, 1nat,
{
    let mut cur = n.clone();
    let mut path: Vec<S> = Vec::new();
    let ghost mut gn: Seq<Node<S, W>> = seq![arc_node(n)];
    loop
        invariant
            clone_exact::<S>(),
            wf(*cur),
            **n == *cur || decreases_to!(**n => *cur),
            is_chain(gn, path@),
            gn[0] == **n,
            gn.last() == *cur,
            forall|i: int| 0 <= i <= path@.len() ==> wf(#[trigger] gn[i]),
        decreases *cur,
    {
        if !(cur.empty.is_none() && cur.children.len() == 1) {
            break;
        }
        let ghost prev = path@;
        path.push(clone_value(&cur.children[0].symbol));
        let next = cur.children[0].child.clone();
        proof {
            assert(decreases_to!(*cur => *next));
            if arc_node(n) != arc_node(&cur) {
                assert(decreases_to!(**n => *next));
            }
            gn = gn.push(arc_node(&next));
            assert forall|i: int| 0 <= i < path@.len() implies linear_step(gn[i], #[trigger] path@[i], gn[i + 1]) by {
                if i < prev.len() {
                    assert(path@[i] == prev[i]);
                }
            }
            assert forall|i: int| 0 <= i <= path@.len() implies wf(#[trigger] gn[i]) by {
                if i < path@.len() {
                    assert(gn[i] == gn.drop_last()[i]);
                }
            }
        }
        cur = next;
    }
    let mut r = filter_map_level(&cur, f);
    let mut j: usize = path.len();
    while j > 0
        invariant
            clone_exact::<S>(),
            forall|w: W| #[trigger] (*f).requires((&w,)),
            *f == *old(f),
            is_chain(gn, path@),
            j <= path@.len(),
            wf(*r),
            forall|k: Seq<S>| #[trigger] mapped_by(*f, lookup(gn[j as int], k), lookup(*r, k)),
        decreases j,
    {
        j -= 1;
        let next = node_push(&r, clone_value(&path[j]));
        proof {
            let g = gn[j as int];
            assert(linear_step(g, path@[j as int], gn[j + 1]));
            assert forall|k: Seq<S>| #[trigger] mapped_by(*f, lookup(g, k), lookup(*next, k)) by {
                lemma_linear_lookup(g, k);
                if k.len() > 0 && k.last() == path@[j as int] {
                    assert(mapped_by(*f, lookup(gn[j + 1], k.drop_last()), lookup(*r, k.drop_last())));
                }
            }
        }
        r = next;
    }
    r
}

/// Apply `f` to the weight of every stack, one trie level at a time.
fn filter_map_level<S: Clone, W, V, F: FnMut(&W) -> Option<V>>(n: &Arc<Node<S, W>>, f: &mut F) -> (r: Arc<
    Node<S, V>,
>)
    requires
        wf(**n),
        clone_exact::<S>(),
        forall|w: W| #[trigger] (*old(f)).requires((&w,)),
    ensures
        *final(f) == *old(f),
        wf(*r),
        forall|k: Seq<S>| #[trigger] mapped_by(*old(f), lookup(**n, k), lookup(*r, k)),
    decreases **n, 0nat,
{
    let empty = match &n.empty {
        Some(w) => (*f)(w),
        None => None,
    };
    let mut out: Vec<Edge<S, V>> = Vec::new();
    let len = n.children.len();
    let mut i: usize = 0;
    while i < len
        invariant
            wf(**n),
            clone_exact::<S>(),
            forall|w: W| #[trigger] (*f).requires((&w,)),
            *f == *old(f),
            len == n.children@.len(),
            i <= len,
            children_wf(out@),
            forall|q: int|
                0 <= q < out@.len() ==> exists|m: int|
                    0 <= m < i && (#[trigger] out@[q]).symbol == n.children@[m].symbol && forall|t: Seq<S>|
                        #[trigger] mapped_by(*f, lookup(*n.children@[m].child, t), lookup(*out@[q].child, t)),
            forall|m: int|
                0 <= m < i ==> has_symbol(out@, (#[trigger] n.children@[m]).symbol) || forall|t: Seq<S>|
                    #[trigger] mapped_by(*f, lookup(*n.children@[m].child, t), None::<V>),
        decreases len - i,
    {
        let c = node_filter_map(&n.children[i].child, f);
        if node_is_live(&c) {
            let ghost prev = out@;
            proof {
                assert forall|q: int| 0 <= q < prev.len() implies (#[trigger] prev[q]).symbol != n.children@[i as int].symbol by {
                    let m = choose|m: int|
                        0 <= m < i && (#[trigger] prev[q]).symbol == n.children@[m].symbol && forall|t: Seq<S>|
                            #[trigger] mapped_by(*f, lookup(*n.children@[m].child, t), lookup(*prev[q].child, t));
                    assert(m != i);
                }
            }
            out.push(Edge { symbol: clone_value(&n.children[i].symbol), child: c });
            proof {
                assert forall|q: int| 0 <= q < out@.len() implies exists|m: int|
                    0 <= m < i + 1 && (#[trigger] out@[q]).symbol == n.children@[m].symbol && forall|t: Seq<S>|
                        #[trigger] mapped_by(*f, lookup(*n.children@[m].child, t), lookup(*out@[q].child, t)) by {
                    if q < prev.len() {
                        assert(out@[q] == prev[q]);
                        let m = choose|m: int|
                            0 <= m < i && (#[trigger] prev[q]).symbol == n.children@[m].symbol && forall|t: Seq<S>|
                                #[trigger] mapped_by(*f, lookup(*n.children@[m].child, t), lookup(*prev[q].child, t));
                        assert(0 <= m < i + 1);
                    } else {
                        assert(out@[q].symbol == n.children@[i as int].symbol);
                        assert(forall|t: Seq<S>| #[trigger] mapped_by(*f, lookup(*n.children@[i as int].child, t), lookup(*out@[q].child, t)));
                    }
                }
                assert forall|m: int| 0 <= m < i + 1 implies has_symbol(out@, (#[trigger] n.children@[m]).symbol) || forall|t: Seq<S>|
                    #[trigger] mapped_by(*f, lookup(*n.children@[m].child, t), None::<V>) by {
                    if m == i {
                        assert(out@[out@.len() - 1].symbol == n.children@[m].symbol);
                    } else if has_symbol(prev, n.children@[m].symbol) {
                        let q = symbol_index(prev, n.children@[m].symbol);
                        assert(out@[q] == prev[q]);
                    }
                }
            }
        } else {
            proof {
                assert forall|t: Seq<S>| #[trigger] mapped_by(*f, lookup(*n.children@[i as int].child, t), None::<V>) by {
                    lemma_dead_lookup(*c, t);
                    assert(mapped_by(*f, lookup(*n.children@[i as int].child, t), lookup(*c, t)));
                }
            }
        }
        i += 1;
    }
    let ghost out_s = out@;
    let r = make_node(empty, out);
    proof {
        assert forall|k: Seq<S>| #[trigger] mapped_by(*f, lookup(**n, k), lookup(r, k)) by {
            if k.len() > 0 {
                let s = k.last();
                let t = k.drop_last();
                lemma_lookup_nonempty(r, k);
                lemma_lookup_nonempty(**n, k);
                if has_symbol(out_s, s) {
                    let q = symbol_index(out_s, s);
                    let m = choose|m: int|
                        0 <= m < len && (#[trigger] out_s[q]).symbol == n.children@[m].symbol && forall|t: Seq<S>|
                            #[trigger] mapped_by(*f, lookup(*n.children@[m].child, t), lookup(*out_s[q].child, t));
                    lemma_lookup_below_index(out_s, q, t);
                    lemma_lookup_below_index(n.children@, m, t);
                    assert(mapped_by(*f, lookup(*n.children@[m].child, t), lookup(*out_s[q].child, t)));
                } else if has_symbol(n.children@, s) {
                    let m = symbol_index(n.children@, s);
                    lemma_lookup_below_index(n.children@, m, t);
                    assert(mapped_by(*f, lookup(*n.children@[m].child, t), None::<V>));
                }
            }
        }
    }
    Arc::new(r)
}


/// `r` is `f` applied to `o`, where no weight maps to no weight.
pub open spec fn mapped_total<W, V, F: FnMut(&W) -> V>(f: F, o: Option<W>, r: Option<V>) -> bool {
    match o {
        None => r is None,
        Some(w) => r is Some && f.ensures((&w,), r->0),
    }
}

/// Apply `f` to the weight of every stack.
///
/// A top run of nodes without the empty stack and with a single edge is walked
/// in a loop, so a long linear stack does not deepen the recursion.
pub fn node_map<S: Clone, W, V, F: FnMut(&W) -> V>(n: &Arc<Node<S, W>>, f: &mut F) -> (r: Arc<Node<S, V>>)
    requires
        wf(**n),
        clone_exact::<S>(),
        forall|w: W| #[trigger] (*old(f)).requires((&w,)),
    ensures
        *final(f) == *old(f),
        wf(*r),
        is_live(*r) == is_live(**n),
        forall|k: Seq<S>| #[trigger] mapped_total(*old(f), lookup(**n, k), lookup(*r, k)),
    decreases **n, 1nat,
{
    let mut cur = n.clone();
    let mut path: Vec<S> = Vec::new();
    let ghost mut gn: Seq<Node<S, W>> = seq![arc_node(n)];
    loop
        invariant
            clone_exact::<S>(),
            wf(*cur),
            **n == *cur || decreases_to!(**n => *cur),
            is_chain(gn, path@),
            gn[0] == **n,
            gn.last() == *cur,
            forall|i: int| 0 <= i <= path@.len() ==> wf(#[trigger] gn[i]),
        decreases *cur,
    {
        if !(cur.empty.is_none() && cur.children.len() == 1) {
            break;
        }
        let ghost prev = path@;
        path.push(clone_value(&cur.children[0].symbol));
        let next = cur.children[0].child.clone();
        proof {
            assert(decreases_to!(*cur => *next));
            if arc_node(n) != arc_node(&cur) {
                assert(decreases_to!(**n => *next));
            }
            gn = gn.push(arc_node(&next));
            assert forall|i: int| 0 <= i < path@.len() implies linear_step(gn[i], #[trigger] path@[i], gn[i + 1]) by {
                if i < prev.len() {
                    assert(path@[i] == prev[i]);
                }
            }
            assert forall|i: int| 0 <= i <= path@.len() implies wf(#[trigger] gn[i]) by {
                if i < path@.len() {
                    assert(gn[i] == gn.drop_last()[i]);
                }
            }
        }
        cur = next;
    }
    let mut r = map_level(&cur, f);
    let mut j: usize = path.len();
    while j > 0
        invariant
            clone_exact::<S>(),
            forall|w: W| #[trigger] (*f).requires((&w,)),
            *f == *old(f),
            is_chain(gn, path@),
            forall|i: int| 0 <= i <= path@.len() ==> wf(#[trigger] gn[i]),
            j <= path@.len(),
            wf(*r),
            is_live(*r) == is_live(gn[j as int]),
            forall|k: Seq<S>| #[trigger] mapped_total(*f, lookup(gn[j as int], k), lookup(*r, k)),
        decreases j,
    {
        j -= 1;
        let next = node_push(&r, clone_value(&path[j]));
        proof {
            let g = gn[j as int];
            assert(linear_step(g, path@[j as int], gn[j + 1]));
            assert(wf(g));
            assert(is_live(gn[j + 1]));
            assert forall|k: Seq<S>| #[trigger] mapped_total(*f, lookup(g, k), lookup(*next, k)) by {
                lemma_linear_lookup(g, k);
                if k.len() > 0 && k.last() == path@[j as int] {
                    assert(mapped_total(*f, lookup(gn[j + 1], k.drop_last()), lookup(*r, k.drop_last())));
                }
            }
        }
        r = next;
    }
    r
}

/// Apply `f` to the weight of every stack, one trie level at a time.
fn map_level<S: Clone, W, V, F: FnMut(&W) -> V>(n: &Arc<Node<S, W>>, f: &mut F) -> (r: Arc<Node<S, V>>)
    requires
        wf(**n),
        clone_exact::<S>(),
        forall|w: W| #[trigger] (*old(f)).requires((&w,)),
    ensures
        *final(f) == *old(f),
        wf(*r),
        is_live(*r) == is_live(**n),
        forall|k: Seq<S>| #[trigger] mapped_total(*old(f), lookup(**n, k), lookup(*r, k)),
    decreases **n, 0nat,
{
    let empty = match &n.empty {
        Some(w) => Some((*f)(w)),
        None => None,
    };
    let mut out: Vec<Edge<S, V>> = Vec::new();
    let len = n.children.len();
    let mut i: usize = 0;
    while i < len
        invariant
            wf(**n),
            clone_exact::<S>(),
            forall|w: W| #[trigger] (*f).requires((&w,)),
            *f == *old(f),
            len == n.children@.len(),
            i <= len,
            out@.len() == i,
            forall|q: int| 0 <= q < i ==> (#[trigger] out@[q]).symbol == n.children@[q].symbol,
            forall|q: int| 0 <= q < i ==> is_live(*(#[trigger] out@[q]).child),
            forall|q: int| 0 <= q < i ==> wf(*(#[trigger] out@[q]).child),
            forall|q: int, t: Seq<S>|
                0 <= q < i ==> #[trigger] mapped_total(*f, lookup(*n.children@[q].child, t), lookup(*out@[q].child, t)),
        decreases len - i,
    {
        let c = node_map(&n.children[i].child, f);
        out.push(Edge { symbol: clone_value(&n.children[i].symbol), child: c });
        i += 1;
    }
    let ghost out_s = out@;
    let r = make_node(empty, out);
    proof {
        assert forall|k: Seq<S>| #[trigger] mapped_total(*f, lookup(**n, k), lookup(r, k)) by {
            if k.len() > 0 {
                let s = k.last();
                let t = k.drop_last();
                lemma_lookup_nonempty(r, k);
                lemma_lookup_nonempty(**n, k);
                if has_symbol(n.children@, s) {
                    let m = symbol_index(n.children@, s);
                    lemma_lookup_below_index(n.children@, m, t);
                    lemma_lookup_below_index(out_s, m, t);
                } else {
                    if has_symbol(out_s, s) {
                        let q = symbol_index(out_s, s);
                        assert(n.children@[q].symbol == s);
                    }
                }
            }
        }
    }
    Arc::new(r)
}


/// The weights of the empty stack and of the stacks below the first `i` edges
/// are among the weights of `n`.
pub proof fn lemma_level_values_sub<S, W>(n: Node<S, W>, i: int)
    requires
        wf(n),
        0 <= i <= n.children@.len(),
    ensures
        (empty_values(n.empty) + edges_values(n.children@, i)).subset_of(node_values(n)),
{
    let cs = n.children@;
    assert forall|w: W| #[trigger] (empty_values(n.empty) + edges_values(cs, i)).contains(w) implies
        node_values(n).contains(w) by {
        if empty_values(n.empty).contains(w) {
            assert(lookup(n, Seq::<S>::empty()) == Some(w));
        } else {
            let (m, t) = choose|m: int, t: Seq<S>| 0 <= m < i && #[trigger] lookup(*cs[m].child, t) == Some(w);
            lemma_lookup_edge(n, m, t);
            assert(lookup(n, t.push(cs[m].symbol)) == Some(w));
        }
    }
}

/// Taking one more edge adds the weights of its child.
pub proof fn lemma_edges_values_step<S, W>(cs: Seq<Edge<S, W>>, i: int)
    requires
        0 <= i < cs.len(),
    ensures
        edges_values(cs, i + 1) == edges_values(cs, i) + node_values(*cs[i].child),
{
    let child = *cs[i].child;
    assert forall|w: W| #[trigger] edges_values(cs, i + 1).contains(w) implies
        (edges_values(cs, i) + node_values(child)).contains(w) by {
        let (m, t) = choose|m: int, t: Seq<S>| 0 <= m < i + 1 && #[trigger] lookup(*cs[m].child, t) == Some(w);
        if m < i {
            assert(edges_values(cs, i).contains(w));
        } else {
            assert(node_values(child).contains(w));
        }
    }
    assert forall|w: W| #[trigger] (edges_values(cs, i) + node_values(child)).contains(w) implies
        edges_values(cs, i + 1).contains(w) by {
        if node_values(child).contains(w) {
            let t = choose|t: Seq<S>| #[trigger] lookup(child, t) == Some(w);
            assert(lookup(*cs[i].child, t) == Some(w));
        } else {
            let (m, t) = choose|m: int, t: Seq<S>| 0 <= m < i && #[trigger] lookup(*cs[m].child, t) == Some(w);
            assert(lookup(*cs[m].child, t) == Some(w));
        }
    }
    assert(edges_values(cs, i + 1) =~= edges_values(cs, i) + node_values(child));
}

/// All edges taken, the level holds exactly the weights of `n`.
pub proof fn lemma_level_values_all<S, W>(n: Node<S, W>)
    requires
        wf(n),
    ensures
        empty_values(n.empty) + edges_values(n.children@, n.children@.len() as int) == node_values(n),
{
    let cs = n.children@;
    let len = cs.len() as int;
    lemma_level_values_sub(n, len);
    assert forall|w: W| #[trigger] node_values(n).contains(w) implies
        (empty_values(n.empty) + edges_values(cs, len)).contains(w) by {
        let k = choose|k: Seq<S>| #[trigger] lookup(n, k) == Some(w);
        if k.len() == 0 {
            assert(empty_values(n.empty).contains(w));
        } else {
            lemma_lookup_nonempty(n, k);
            let m = symbol_index(cs, k.last());
            lemma_lookup_below_index(cs, m, k.drop_last());
            assert(lookup(*cs[m].child, k.drop_last()) == Some(w));
        }
    }
    assert(empty_values(n.empty) + edges_values(cs, len) =~= node_values(n));
}

/// A live well-formed node carries at least one weight.
pub proof fn lemma_live_values<S, W>(n: Node<S, W>)
    requires
        wf(n),
        is_live(n),
    ensures
        exists|w: W| #[trigger] node_values(n).contains(w),
{
    lemma_live_has_stack(n);
    let k = choose|k: Seq<S>| lookup(n, k) is Some;
    let w = lookup(n, k)->0;
    assert(lookup(n, k) == Some(w));
    assert(node_values(n).contains(w));
}

/// The one weight that every stack of `n` carries, if there is one.
///
/// A top run of nodes without the empty stack and with a single edge is walked
/// in a loop, so a long linear stack does not deepen the recursion.
pub fn node_uniform<S, W: PartialEq + Clone>(n: &Arc<Node<S, W>>) -> (r: Option<W>)
    requires
        wf(**n),
        clone_exact::<W>(),
        vstd::laws_eq::obeys_concrete_eq::<W>(),
    ensures
        match r {
            Some(w) => node_values(**n) == set![w],
            None => forall|w: W| node_values(**n) != set![w],
        },
    decreases **n, 1nat,
{
    let mut cur = n.clone();
    loop
        invariant
            wf(*cur),
            **n == *cur || decreases_to!(**n => *cur),
            node_values(**n) == node_values(*cur),
        decreases *cur,
    {
        if !(cur.empty.is_none() && cur.children.len() == 1) {
            break;
        }
        let next = cur.children[0].child.clone();
        proof {
            assert(decreases_to!(*cur => *next));
            if arc_node(n) != arc_node(&cur) {
                assert(decreases_to!(**n => *next));
            }
            lemma_linear_values(arc_node(&cur));
        }
        cur = next;
    }
    uniform_level(&cur)
}

/// The one weight of the stacks of `n`, one trie level at a time.
fn uniform_level<S, W: PartialEq + Clone>(n: &Arc<Node<S, W>>) -> (r: Option<W>)
    requires
        wf(**n),
        clone_exact::<W>(),
        vstd::laws_eq::obeys_concrete_eq::<W>(),
    ensures
        match r {
            Some(w) => node_values(**n) == set![w],
            None => forall|w: W| node_values(**n) != set![w],
        },
    decreases **n, 0nat,
{
    let ghost nn = arc_node(n);
    let mut acc: Option<W> = match &n.empty {
        Some(w) => Some(clone_value(w)),
        None => None,
    };
    let len = n.children.len();
    let mut i: usize = 0;
    proof {
        assert(edges_values(nn.children@, 0) =~= Set::<W>::empty());
        assert(empty_values(nn.empty) + edges_values(nn.children@, 0) =~= empty_values(nn.empty));
    }
    while i < len
        invariant
            wf(nn),
            nn == **n,
            clone_exact::<W>(),
            vstd::laws_eq::obeys_concrete_eq::<W>(),
            len == nn.children@.len(),
            i <= len,
            match acc {
                Some(w) => empty_values(nn.empty) + edges_values(nn.children@, i as int) == set![w],
                None => empty_values(nn.empty) + edges_values(nn.children@, i as int) == Set::<W>::empty(),
            },
        decreases len - i,
    {
        let c = node_uniform(&n.children[i].child);
        let ghost child = arc_node(&nn.children@[i as int].child);
        let ghost before = empty_values(nn.empty) + edges_values(nn.children@, i as int);
        proof {
            lemma_edges_values_step(nn.children@, i as int);
            lemma_level_values_sub(nn, i + 1);
            assert(empty_values(nn.empty) + edges_values(nn.children@, i + 1) =~= before + node_values(child));
        }
        match c {
            None => {
                proof {
                    lemma_live_values(child);
                    let v = choose|v: W| #[trigger] node_values(child).contains(v);
                    assert forall|w: W| node_values(nn) != set![w] by {
                        if node_values(nn) == set![w] {
                            assert(node_values(nn).contains(v));
                            assert(node_values(child) =~= set![w]);
                        }
                    }
                }
                return None;
            },
            Some(cw) => {
                match acc {
                    None => {
                        proof {
                            assert(before + node_values(child) =~= set![cw]);
                        }
                        acc = Some(cw);
                    },
                    Some(aw) => {
                        if !symbols_equal(&aw, &cw) {
                            proof {
                                assert(before.contains(aw));
                                assert(node_values(child).contains(cw));
                                assert forall|w: W| node_values(nn) != set![w] by {
                                    if node_values(nn) == set![w] {
                                        assert(node_values(nn).contains(aw));
                                        assert(node_values(nn).contains(cw));
                                    }
                                }
                            }
                            return None;
                        }
                        proof {
                            assert(before + node_values(child) =~= set![aw]);
                        }
                        acc = Some(aw);
                    },
                }
            },
        }
        i += 1;
    }
    proof {
        lemma_level_values_all(nn);
        if acc is None {
            assert forall|w: W| node_values(nn) != set![w] by {
                assert(set![w].contains(w));
            }
        }
    }
    acc
}


/// `o`, the weight of a stack of length `len`, kept when the length is at most `max`.
pub open spec fn cut<W>(o: Option<W>, len: int, max: int) -> Option<W> {
    if len <= max {
        o
    } else {
        None
    }
}

/// The stacks of `n` whose length is at most `max`.
pub fn node_truncate<S: Clone, W: Clone>(n: &Arc<Node<S, W>>, max: usize) -> (r: Arc<Node<S, W>>)
    requires
        wf(**n),
        clone_exact::<S>(),
        clone_exact::<W>(),
    ensures
        wf(*r),
        forall|k: Seq<S>| #[trigger] lookup(*r, k) == cut(lookup(**n, k), k.len() as int, max as int),
    decreases **n,
{
    proof {
        lemma_depth(arc_node(n));
    }
    if n.depth <= max && n.depth < usize::MAX {
        return n.clone();
    }
    let empty = match &n.empty {
        Some(w) => Some(clone_value(w)),
        None => None,
    };
    let mut out: Vec<Edge<S, W>> = Vec::new();
    if max > 0 {
        let len = n.children.len();
        let mut i: usize = 0;
        while i < len
            invariant
                wf(**n),
                clone_exact::<S>(),
                clone_exact::<W>(),
                max > 0,
                len == n.children@.len(),
                i <= len,
                children_wf(out@),
                forall|q: int|
                    0 <= q < out@.len() ==> exists|m: int|
                        0 <= m < i && (#[trigger] out@[q]).symbol == n.children@[m].symbol && forall|t: Seq<S>|
                            #[trigger] lookup(*out@[q].child, t) == cut(lookup(*n.children@[m].child, t), t.len() as int, max - 1),
                forall|m: int|
                    0 <= m < i ==> has_symbol(out@, (#[trigger] n.children@[m]).symbol) || forall|t: Seq<S>|
                        #[trigger] cut(lookup(*n.children@[m].child, t), t.len() as int, max - 1) is None,
            decreases len - i,
        {
            let c = node_truncate(&n.children[i].child, max - 1);
            if node_is_live(&c) {
                let ghost prev = out@;
                proof {
                    assert forall|q: int| 0 <= q < prev.len() implies (#[trigger] prev[q]).symbol != n.children@[i as int].symbol by {
                        let m = choose|m: int|
                            0 <= m < i && (#[trigger] prev[q]).symbol == n.children@[m].symbol && forall|t: Seq<S>|
                                #[trigger] lookup(*prev[q].child, t) == cut(lookup(*n.children@[m].child, t), t.len() as int, max - 1);
                        assert(m != i);
                    }
                }
                out.push(Edge { symbol: clone_value(&n.children[i].symbol), child: c });
                proof {
                    assert forall|q: int| 0 <= q < out@.len() implies exists|m: int|
                        0 <= m < i + 1 && (#[trigger] out@[q]).symbol == n.children@[m].symbol && forall|t: Seq<S>|
                            #[trigger] lookup(*out@[q].child, t) == cut(lookup(*n.children@[m].child, t), t.len() as int, max - 1) by {
                        if q < prev.len() {
                            assert(out@[q] == prev[q]);
                            let m = choose|m: int|
                                0 <= m < i && (#[trigger] prev[q]).symbol == n.children@[m].symbol && forall|t: Seq<S>|
                                    #[trigger] lookup(*prev[q].child, t) == cut(lookup(*n.children@[m].child, t), t.len() as int, max - 1);
                            assert(0 <= m < i + 1);
                        } else {
                            assert(out@[q].symbol == n.children@[i as int].symbol);
                        }
                    }
                    assert forall|m: int| 0 <= m < i + 1 implies has_symbol(out@, (#[trigger] n.children@[m]).symbol) || forall|t: Seq<S>|
                        #[trigger] cut(lookup(*n.children@[m].child, t), t.len() as int, max - 1) is None by {
                        if m == i {
                            assert(out@[out@.len() - 1].symbol == n.children@[m].symbol);
                        } else if has_symbol(prev, n.children@[m].symbol) {
                            let q = symbol_index(prev, n.children@[m].symbol);
                            assert(out@[q] == prev[q]);
                        }
                    }
                }
            } else {
                proof {
                    assert forall|t: Seq<S>| #[trigger] cut(lookup(*n.children@[i as int].child, t), t.len() as int, max - 1) is None by {
                        lemma_dead_lookup(*c, t);
                    }
                }
            }
            i += 1;
        }
    }
    let ghost out_s = out@;
    let r = make_node(empty, out);
    proof {
        assert forall|k: Seq<S>| #[trigger] lookup(r, k) == cut(lookup(**n, k), k.len() as int, max as int) by {
            if k.len() > 0 {
                let s = k.last();
                let t = k.drop_last();
                lemma_lookup_nonempty(r, k);
                lemma_lookup_nonempty(**n, k);
                if max == 0 {
                    assert(out_s.len() == 0);
                    assert(!has_symbol(out_s, s));
                } else if has_symbol(out_s, s) {
                    let q = symbol_index(out_s, s);
                    let m = choose|m: int|
                        0 <= m < n.children@.len() && (#[trigger] out_s[q]).symbol == n.children@[m].symbol && forall|t: Seq<S>|
                            #[trigger] lookup(*out_s[q].child, t) == cut(lookup(*n.children@[m].child, t), t.len() as int, max - 1);
                    lemma_lookup_below_index(out_s, q, t);
                    lemma_lookup_below_index(n.children@, m, t);
                    assert(lookup(*out_s[q].child, t) == cut(lookup(*n.children@[m].child, t), t.len() as int, max - 1));
                } else if has_symbol(n.children@, s) {
                    let m = symbol_index(n.children@, s);
                    lemma_lookup_below_index(n.children@, m, t);
                    assert(cut(lookup(*n.children@[m].child, t), t.len() as int, max - 1) is None);
                }
            }
        }
    }
    Arc::new(r)
}

} // verus!
