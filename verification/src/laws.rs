//! Laws of the weighted stack operations, stated over the maps that the
//! operations' contracts use.

use vstd::prelude::*;

use crate::gss::{is_sole_top, is_top, merged, popped_top, popped_weights, pushed, retained_top, weight_at};
use crate::linear_prefix::with_prefix;
use crate::weight::{
    is_join_of, is_opt_join_of, lawful_join, lemma_join_laws, lemma_join_of_single, lemma_opt_join_of_union,
    lemma_opt_join_of_unique, opt_join, spec_join, weight_le, Weight,
};

verus! {

/// Merging is commutative.
pub proof fn law_merge_commutative<S, W: Weight>(a: Map<Seq<S>, W>, b: Map<Seq<S>, W>)
    requires
        lawful_join::<W>(),
    ensures
        merged(a, b) == merged(b, a),
{
    assert forall|k: Seq<S>| #[trigger] merged(a, b).contains_key(k) implies merged(a, b)[k] == merged(b, a)[k] by {
        if a.contains_key(k) && b.contains_key(k) {
            lemma_join_laws(a[k], b[k], b[k]);
        }
    }
    assert(merged(a, b) =~= merged(b, a));
}

/// Merging is associative.
pub proof fn law_merge_associative<S, W: Weight>(a: Map<Seq<S>, W>, b: Map<Seq<S>, W>, c: Map<Seq<S>, W>)
    requires
        lawful_join::<W>(),
    ensures
        merged(merged(a, b), c) == merged(a, merged(b, c)),
{
    assert forall|k: Seq<S>| #[trigger] merged(merged(a, b), c).contains_key(k) implies merged(merged(a, b), c)[k]
        == merged(a, merged(b, c))[k] by {
        if a.contains_key(k) && b.contains_key(k) && c.contains_key(k) {
            lemma_join_laws(a[k], b[k], c[k]);
        }
    }
    assert(merged(merged(a, b), c) =~= merged(a, merged(b, c)));
}

/// Merging a GSS with itself changes nothing.
pub proof fn law_merge_idempotent<S, W: Weight>(a: Map<Seq<S>, W>)
    requires
        lawful_join::<W>(),
    ensures
        merged(a, a) == a,
{
    assert forall|k: Seq<S>| #[trigger] merged(a, a).contains_key(k) implies merged(a, a)[k] == a[k] by {
        lemma_join_laws(a[k], a[k], a[k]);
    }
    assert(merged(a, a) =~= a);
}

/// Pushing distributes over merging.
pub proof fn law_push_distributes_over_merge<S, W: Weight>(a: Map<Seq<S>, W>, b: Map<Seq<S>, W>, x: S)
    requires
        lawful_join::<W>(),
    ensures
        pushed(merged(a, b), x) == merged(pushed(a, x), pushed(b, x)),
{
    assert(pushed(merged(a, b), x) =~= merged(pushed(a, x), pushed(b, x)));
}

/// Pushing `x` and then popping the top `x` gives back every stack.
pub proof fn law_pop_top_after_push<S, W>(m: Map<Seq<S>, W>, x: S)
    ensures
        popped_top(pushed(m, x), x) == m,
{
    assert forall|t: Seq<S>| #[trigger] popped_top(pushed(m, x), x).contains_key(t) <==> m.contains_key(t) by {
        assert(t.push(x).drop_last() =~= t);
    }
    assert forall|t: Seq<S>| #[trigger] m.contains_key(t) implies popped_top(pushed(m, x), x)[t] == m[t] by {
        assert(t.push(x).drop_last() =~= t);
    }
    assert(popped_top(pushed(m, x), x) =~= m);
}

/// Popping the top `x` pops one value from the stacks whose top is `x`.
pub proof fn law_pop_top_is_pop_of_retain_top<S, W: Weight>(m: Map<Seq<S>, W>, x: S, k: Seq<S>)
    requires
        lawful_join::<W>(),
    ensures
        is_opt_join_of(weight_at(popped_top(m, x), k), popped_weights(retained_top(m, x), 1, k)),
{
    let r = retained_top(m, x);
    let vals = popped_weights(r, 1, k);
    if m.contains_key(k.push(x)) {
        let w = m[k.push(x)];
        assert(vals =~= set![w]) by {
            assert forall|v: W| #[trigger] vals.contains(v) implies v == w by {
                let t = choose|t: Seq<S>| t.len() == 1 && r.contains_key(k + t) && #[trigger] r[k + t] == v;
                assert((k + t).last() == x);
                assert(t =~= seq![x]);
                assert(k + t =~= k.push(x));
            }
            let t = seq![x];
            assert(k + t =~= k.push(x));
            assert((k + t).last() == x);
            assert(m.contains_key(k + t));
            assert(r.contains_key(k + t));
            assert(r[k + t] == w);
            assert(t.len() == 1);
            assert(vals.contains(w));
        }
        crate::weight::lemma_join_of_single(w);
    } else {
        assert(vals =~= Set::<W>::empty()) by {
            assert forall|v: W| !(#[trigger] vals.contains(v)) by {
                if vals.contains(v) {
                    let t = choose|t: Seq<S>| t.len() == 1 && r.contains_key(k + t) && #[trigger] r[k + t] == v;
                    assert((k + t).last() == x);
                    assert(t =~= seq![x]);
                    assert(k + t =~= k.push(x));
                }
            }
        }
    }
}

/// Popping nothing changes nothing: the result of `popn(0)` is the GSS itself.
pub proof fn law_popn_zero<S, W: Weight>(m: Map<Seq<S>, W>, r: Map<Seq<S>, W>)
    requires
        lawful_join::<W>(),
        forall|k: Seq<S>| #[trigger] is_opt_join_of(weight_at(r, k), popped_weights(m, 0, k)),
    ensures
        r == m,
{
    assert forall|k: Seq<S>| #[trigger] weight_at(r, k) == weight_at(m, k) by {
        let e = Seq::<S>::empty();
        assert(k + e =~= k);
        let vals = popped_weights(m, 0, k);
        assert(is_opt_join_of(weight_at(r, k), vals));
        if m.contains_key(k) {
            assert(vals =~= set![m[k]]) by {
                assert forall|v: W| #[trigger] vals.contains(v) implies v == m[k] by {
                    let t = choose|t: Seq<S>| t.len() == 0 && m.contains_key(k + t) && #[trigger] m[k + t] == v;
                    assert(t =~= e);
                }
                assert(m[k + e] == m[k]);
                assert(vals.contains(m[k]));
            }
            crate::weight::lemma_join_of_single(m[k]);
            crate::weight::lemma_opt_join_of_unique(weight_at(r, k), Some(m[k]), vals);
        } else {
            assert(vals =~= Set::<W>::empty()) by {
                assert forall|v: W| !(#[trigger] vals.contains(v)) by {
                    if vals.contains(v) {
                        let t = choose|t: Seq<S>| t.len() == 0 && m.contains_key(k + t) && #[trigger] m[k + t] == v;
                        assert(t =~= e);
                    }
                }
            }
        }
    }
    assert forall|k: Seq<S>| #[trigger] r.contains_key(k) <==> m.contains_key(k) by {
        assert(weight_at(r, k) == weight_at(m, k));
    }
    assert forall|k: Seq<S>| #[trigger] r.contains_key(k) implies r[k] == m[k] by {
        assert(weight_at(r, k) == weight_at(m, k));
    }
    assert(r =~= m);
}

/// Popping `a` values and then `b` values pops `a + b` values.
pub proof fn law_popn_popn<S, W: Weight>(
    m: Map<Seq<S>, W>,
    a: nat,
    b: nat,
    r1: Map<Seq<S>, W>,
    r2: Map<Seq<S>, W>,
)
    requires
        lawful_join::<W>(),
        forall|k: Seq<S>| #[trigger] is_opt_join_of(weight_at(r1, k), popped_weights(m, a, k)),
        forall|k: Seq<S>| #[trigger] is_opt_join_of(weight_at(r2, k), popped_weights(r1, b, k)),
    ensures
        forall|k: Seq<S>| #[trigger] is_opt_join_of(weight_at(r2, k), popped_weights(m, a + b, k)),
{
    assert forall|k: Seq<S>| #[trigger] is_opt_join_of(weight_at(r2, k), popped_weights(m, a + b, k)) by {
        let outer = popped_weights(r1, b, k);
        let all = popped_weights(m, a + b, k);
        assert(is_opt_join_of(weight_at(r2, k), outer));
        // Every member of `all` lies below a member of `outer`, and every member
        // of `outer` is the join of members of `all`.
        assert forall|v: W| #[trigger] all.contains(v) implies exists|t: Seq<S>|
            t.len() == b && r1.contains_key(k + t) && popped_weights(m, a, k + t).contains(v) by {
            let tu = choose|tu: Seq<S>| tu.len() == a + b && m.contains_key(k + tu) && #[trigger] m[k + tu] == v;
            let t = tu.subrange(0, b as int);
            let u = tu.subrange(b as int, (a + b) as int);
            assert(k + tu =~= (k + t) + u);
            assert(popped_weights(m, a, k + t).contains(v));
            assert(is_opt_join_of(weight_at(r1, k + t), popped_weights(m, a, k + t)));
        }
        match weight_at(r2, k) {
            Some(y) => {
                assert(is_join_of(y, outer));
                assert forall|u: W| #[trigger] weight_le(y, u) <==> (forall|v: W| all.contains(v) ==> weight_le(v, u)) by {
                    if weight_le(y, u) {
                        assert forall|v: W| all.contains(v) implies weight_le(v, u) by {
                            let t = choose|t: Seq<S>|
                                t.len() == b && r1.contains_key(k + t) && popped_weights(m, a, k + t).contains(v);
                            assert(is_opt_join_of(weight_at(r1, k + t), popped_weights(m, a, k + t)));
                            assert(outer.contains(r1[k + t]));
                            assert(weight_le(r1[k + t], u));
                            assert(is_join_of(r1[k + t], popped_weights(m, a, k + t)));
                            assert(weight_le(r1[k + t], u) ==> weight_le(v, u));
                        }
                    }
                    if forall|v: W| all.contains(v) ==> weight_le(v, u) {
                        assert forall|x: W| outer.contains(x) implies weight_le(x, u) by {
                            let t = choose|t: Seq<S>| t.len() == b && r1.contains_key(k + t) && #[trigger] r1[k + t] == x;
                            assert(is_opt_join_of(weight_at(r1, k + t), popped_weights(m, a, k + t)));
                            assert forall|v: W| popped_weights(m, a, k + t).contains(v) implies weight_le(v, u) by {
                                let s = choose|s: Seq<S>| s.len() == a && m.contains_key((k + t) + s) && #[trigger] m[(k + t) + s] == v;
                                assert((k + t) + s =~= k + (t + s));
                                assert(all.contains(v));
                            }
                        }
                    }
                }
                let x = choose|x: W| outer.contains(x);
                let t = choose|t: Seq<S>| t.len() == b && r1.contains_key(k + t) && #[trigger] r1[k + t] == x;
                assert(is_opt_join_of(weight_at(r1, k + t), popped_weights(m, a, k + t)));
                let v = choose|v: W| popped_weights(m, a, k + t).contains(v);
                let s = choose|s: Seq<S>| s.len() == a && m.contains_key((k + t) + s) && #[trigger] m[(k + t) + s] == v;
                assert((k + t) + s =~= k + (t + s));
                assert(all.contains(v));
            },
            None => {
                assert(outer == Set::<W>::empty());
                assert(all =~= Set::<W>::empty()) by {
                    assert forall|v: W| !(#[trigger] all.contains(v)) by {
                        if all.contains(v) {
                            let t = choose|t: Seq<S>|
                                t.len() == b && r1.contains_key(k + t) && popped_weights(m, a, k + t).contains(v);
                            assert(outer.contains(r1[k + t]));
                        }
                    }
                }
            },
        }
    }
}


/// One sole top `x` means: no empty stack, `x` is a top, and it is the only top.
pub proof fn law_sole_top_is_single_top<S, W>(m: Map<Seq<S>, W>, x: S)
    ensures
        is_sole_top(m, x) <==> (!m.contains_key(Seq::<S>::empty()) && is_top(m, x) && forall|y: S|
            #[trigger] is_top(m, y) ==> y == x),
{
    if is_sole_top(m, x) {
        let k = choose|k: Seq<S>| #[trigger] m.contains_key(k);
        assert(is_top(m, x));
        if m.contains_key(Seq::<S>::empty()) {
            assert(Seq::<S>::empty().len() > 0);
        }
    }
    if !m.contains_key(Seq::<S>::empty()) && is_top(m, x) && forall|y: S| #[trigger] is_top(m, y) ==> y == x {
        let k0 = choose|k: Seq<S>| m.contains_key(k) && k.len() > 0 && k.last() == x;
        assert(m.dom().contains(k0));
        assert forall|k: Seq<S>| #[trigger] m.contains_key(k) implies k.len() > 0 && k.last() == x by {
            if k.len() == 0 {
                assert(k =~= Seq::<S>::empty());
            } else {
                assert(is_top(m, k.last()));
            }
        }
    }
}

/// `u` is above every weight of `vals`.
pub open spec fn is_upper_bound<W: Weight>(u: W, vals: Set<W>) -> bool {
    forall|v: W| vals.contains(v) ==> weight_le(v, u)
}

/// Sets with the same upper bounds, both empty or both not, have the same join.
pub proof fn lemma_same_bounds_same_join<W: Weight>(r: Option<W>, a: Set<W>, b: Set<W>)
    requires
        lawful_join::<W>(),
        is_opt_join_of(r, a),
        forall|u: W| #[trigger] is_upper_bound(u, a) <==> is_upper_bound(u, b),
        (a == Set::<W>::empty()) <==> (b == Set::<W>::empty()),
    ensures
        is_opt_join_of(r, b),
{
    if let Some(w) = r {
        assert(a != Set::<W>::empty()) by {
            let v = choose|v: W| a.contains(v);
            assert(!Set::<W>::empty().contains(v));
        }
        assert(exists|v: W| b.contains(v)) by {
            if !exists|v: W| b.contains(v) {
                assert(b =~= Set::<W>::empty());
            }
        }
        assert forall|u: W| #[trigger] weight_le(w, u) <==> (forall|v: W| b.contains(v) ==> weight_le(v, u)) by {
            assert(weight_le(w, u) <==> (forall|v: W| a.contains(v) ==> weight_le(v, u)));
            assert(is_upper_bound(u, a) <==> is_upper_bound(u, b));
        }
    }
}

/// The joined weight of a merge is the join of the joined weights.
pub proof fn law_joined_weight_of_merge<S, W: Weight>(
    a: Map<Seq<S>, W>,
    b: Map<Seq<S>, W>,
    x: Option<W>,
    y: Option<W>,
)
    requires
        lawful_join::<W>(),
        is_opt_join_of(x, a.values()),
        is_opt_join_of(y, b.values()),
    ensures
        is_opt_join_of(crate::weight::opt_join(x, y), merged(a, b).values()),
{
    crate::weight::lemma_opt_join_of_union(x, a.values(), y, b.values());
    let u1 = a.values() + b.values();
    let u2 = merged(a, b).values();
    assert forall|u: W| #[trigger] is_upper_bound(u, u1) <==> is_upper_bound(u, u2) by {
        if forall|v: W| u1.contains(v) ==> weight_le(v, u) {
            assert forall|v: W| u2.contains(v) implies weight_le(v, u) by {
                let k = choose|k: Seq<S>| merged(a, b).contains_key(k) && merged(a, b)[k] == v;
                if a.contains_key(k) && b.contains_key(k) {
                    crate::weight::lemma_le_join(a[k], b[k], u);
                    assert(u1.contains(a[k]));
                    assert(u1.contains(b[k]));
                } else if a.contains_key(k) {
                    assert(u1.contains(a[k]));
                } else {
                    assert(u1.contains(b[k]));
                }
            }
        }
        if forall|v: W| u2.contains(v) ==> weight_le(v, u) {
            assert forall|v: W| u1.contains(v) implies weight_le(v, u) by {
                if a.values().contains(v) {
                    let k = choose|k: Seq<S>| a.contains_key(k) && a[k] == v;
                    assert(merged(a, b).contains_key(k));
                    assert(u2.contains(merged(a, b)[k]));
                    if b.contains_key(k) {
                        crate::weight::lemma_le_join(a[k], b[k], u);
                    }
                } else {
                    let k = choose|k: Seq<S>| b.contains_key(k) && b[k] == v;
                    assert(merged(a, b).contains_key(k));
                    assert(u2.contains(merged(a, b)[k]));
                    if a.contains_key(k) {
                        crate::weight::lemma_le_join(a[k], b[k], u);
                    }
                }
            }
        }
    }
    assert((u1 == Set::<W>::empty()) <==> (u2 == Set::<W>::empty())) by {
        if u1 != Set::<W>::empty() {
            let v = u1.choose();
            if !(exists|v: W| u1.contains(v)) {
                assert(u1 =~= Set::<W>::empty());
            }
            let v = choose|v: W| u1.contains(v);
            if a.values().contains(v) {
                let k = choose|k: Seq<S>| a.contains_key(k) && a[k] == v;
                assert(merged(a, b).contains_key(k));
                assert(u2.contains(merged(a, b)[k]));
            } else {
                let k = choose|k: Seq<S>| b.contains_key(k) && b[k] == v;
                assert(merged(a, b).contains_key(k));
                assert(u2.contains(merged(a, b)[k]));
            }
        }
        if u2 != Set::<W>::empty() {
            if !(exists|v: W| u2.contains(v)) {
                assert(u2 =~= Set::<W>::empty());
            }
            let v = choose|v: W| u2.contains(v);
            let k = choose|k: Seq<S>| merged(a, b).contains_key(k) && merged(a, b)[k] == v;
            if a.contains_key(k) {
                assert(u1.contains(a[k]));
            } else {
                assert(u1.contains(b[k]));
            }
        }
    }
    lemma_same_bounds_same_join(crate::weight::opt_join(x, y), u1, u2);
}

/// Pushing keeps every weight.
pub proof fn law_push_keeps_weights<S, W>(m: Map<Seq<S>, W>, x: S)
    ensures
        pushed(m, x).values() == m.values(),
{
    assert forall|v: W| #[trigger] m.values().contains(v) implies pushed(m, x).values().contains(v) by {
        let k = choose|k: Seq<S>| m.contains_key(k) && m[k] == v;
        assert(k.push(x).drop_last() =~= k);
        assert(pushed(m, x).contains_key(k.push(x)));
    }
    assert(pushed(m, x).values() =~= m.values());
}


/// The join of a list of weights, folded from the left; `None` for no weights.
pub open spec fn fold_join<W: Weight>(ws: Seq<W>) -> Option<W>
    decreases ws.len(),
{
    if ws.len() == 0 {
        None
    } else {
        opt_join(fold_join(ws.drop_last()), Some(ws.last()))
    }
}

/// The weights that occur in a list.
pub open spec fn items<W>(ws: Seq<W>) -> Set<W> {
    Set::new(|w: W| ws.contains(w))
}

/// A left fold of `join` over a list joins the weights that occur in it.
pub proof fn lemma_fold_join<W: Weight>(ws: Seq<W>)
    requires
        lawful_join::<W>(),
    ensures
        is_opt_join_of(fold_join(ws), items(ws)),
    decreases ws.len(),
{
    if ws.len() == 0 {
        assert(items(ws) =~= Set::<W>::empty());
    } else {
        let dl = ws.drop_last();
        let x = ws.last();
        lemma_fold_join(dl);
        lemma_join_of_single(x);
        lemma_opt_join_of_union(fold_join(dl), items(dl), Some(x), set![x]);
        assert forall|w: W| #[trigger] items(ws).contains(w) == (items(dl) + set![x]).contains(w) by {
            if ws.contains(w) {
                let i = choose|i: int| 0 <= i < ws.len() && ws[i] == w;
                if i < ws.len() - 1 {
                    assert(dl[i] == w);
                }
            }
            if dl.contains(w) {
                let i = choose|i: int| 0 <= i < dl.len() && dl[i] == w;
                assert(ws[i] == w);
            }
            if w == x {
                assert(ws[ws.len() - 1] == w);
            }
        }
        assert(items(ws) =~= items(dl) + set![x]);
    }
}

/// Joining the weights that `weights()` lists, in the order listed, gives
/// `joined_weight()`; so the list is empty exactly when the GSS is.
pub proof fn law_weights_fold_to_joined_weight<S, W: Weight>(m: Map<Seq<S>, W>, ws: Seq<W>, joined: Option<W>)
    requires
        lawful_join::<W>(),
        forall|w: W| #[trigger] ws.contains(w) <==> m.values().contains(w),
        is_opt_join_of(joined, m.values()),
    ensures
        fold_join(ws) == joined,
        ws.len() > 0 <==> exists|k: Seq<S>| m.contains_key(k),
{
    lemma_fold_join(ws);
    assert forall|w: W| #[trigger] items(ws).contains(w) == m.values().contains(w) by {}
    assert(items(ws) =~= m.values());
    lemma_opt_join_of_unique(fold_join(ws), joined, m.values());
    if ws.len() > 0 {
        assert(ws.contains(ws[0]));
        assert(m.values().contains(ws[0]));
        let k = choose|k: Seq<S>| m.contains_key(k) && m[k] == ws[0];
        assert(m.contains_key(k));
    }
    if exists|k: Seq<S>| m.contains_key(k) {
        let k = choose|k: Seq<S>| m.contains_key(k);
        assert(m.values().contains(m[k]));
        assert(ws.contains(m[k]));
    }
}

/// Popping `n` values of a linear prefix from the prefix view is popping `n`
/// values from every stack: the stacks with the prefix shortened by `n` are
/// what `popn(n)` makes of the stacks with the whole prefix.
pub proof fn law_prefix_popn_is_popn<S, W: Weight>(floor: Map<Seq<S>, W>, prefix: Seq<S>, n: nat)
    requires
        n <= prefix.len(),
    ensures
        forall|k: Seq<S>| #[trigger] is_opt_join_of(
            weight_at(with_prefix(floor, prefix.subrange(0, prefix.len() - n)), k),
            popped_weights(with_prefix(floor, prefix), n, k),
        ),
{
    let l = prefix.len() as int;
    let short = prefix.subrange(0, l - n);
    let top = prefix.subrange(l - n, l);
    let m = with_prefix(floor, prefix);
    let ms = with_prefix(floor, short);
    assert forall|k: Seq<S>| #[trigger] is_opt_join_of(weight_at(ms, k), popped_weights(m, n, k)) by {
        let pw = popped_weights(m, n, k);
        if ms.contains_key(k) {
            let u = k.subrange(0, k.len() - short.len());
            assert(k =~= u + short);
            assert(k + top =~= u + prefix);
            assert((u + prefix).subrange((u + prefix).len() - l, (u + prefix).len() as int) =~= prefix);
            assert((u + prefix).subrange(0, (u + prefix).len() - l) =~= u);
            assert(m.contains_key(k + top));
            assert(pw =~= set![ms[k]]) by {
                assert(pw.contains(ms[k])) by {
                    assert(top.len() == n);
                    assert(m[k + top] == floor[u]);
                }
                assert forall|w: W| pw.contains(w) implies w == ms[k] by {
                    let t = choose|t: Seq<S>| t.len() == n && m.contains_key(k + t) && #[trigger] m[k + t] == w;
                    let kt = k + t;
                    let v = kt.subrange(0, kt.len() - l);
                    assert(v =~= u) by {
                        assert forall|i: int| 0 <= i < v.len() implies v[i] == u[i] by {
                            assert(v[i] == kt[i]);
                            assert(kt[i] == k[i]);
                            assert(k[i] == (u + short)[i]);
                        }
                    }
                }
            }
            lemma_join_of_single(ms[k]);
        } else {
            assert(pw =~= Set::<W>::empty()) by {
                assert forall|w: W| !pw.contains(w) by {
                    if pw.contains(w) {
                        let t = choose|t: Seq<S>| t.len() == n && m.contains_key(k + t) && #[trigger] m[k + t] == w;
                        let kt = k + t;
                        let v = kt.subrange(0, kt.len() - l);
                        assert(kt.subrange(kt.len() - l, kt.len() as int) == prefix);
                        assert(kt =~= v + prefix);
                        assert(k =~= kt.subrange(0, k.len() as int));
                        assert(k =~= v + short) by {
                            assert forall|i: int| 0 <= i < k.len() implies k[i] == (v + short)[i] by {
                                assert(k[i] == kt[i]);
                                if i >= v.len() {
                                    assert(kt[i] == prefix[i - v.len()]);
                                    assert(short[i - v.len()] == prefix[i - v.len()]);
                                }
                            }
                        }
                        assert(k.subrange(k.len() - short.len(), k.len() as int) =~= short);
                        assert(k.subrange(0, k.len() - short.len()) =~= v);
                        assert(ms.contains_key(k));
                    }
                }
            }
        }
    }
}

} // verus!
