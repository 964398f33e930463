//! A weighted GSS whose weights are path accumulators combined by [`Merge`].

use vstd::prelude::*;

use crate::gss::{
    is_sole_top, is_top, lists_stacks, merged, merged_all, popped_top, popped_weights, pushed, retained_empty,
    retained_top, weight_at, WeightedGss,
};
use crate::language::{StackLanguageId, StackLanguageInterner};
use crate::linear_prefix::{linear_prefix, one_weight, with_prefix, LinearPrefix};
use vstd::std_specs::cmp::{PartialEqSpec, PartialEqSpecImpl};
use crate::node::clone_stack;
use crate::structure::{listed_lookup, ListedNode};
use crate::values::{clone_exact, clone_value, exact_values, symbols_equal};
use crate::weight::{is_join_of, is_opt_join_of, join_laws, lawful_join, lemma_lawful_join_from, Weight};

verus! {

/// Combines path accumulators when equivalent stack paths meet.
///
/// Implementations should behave like a join operation: associative,
/// commutative, and idempotent.
pub trait Merge: Sized {
    /// Return the join of two accumulators.
    fn merge(&self, other: &Self) -> Self;

    /// Return whether `self` already contains all information in `other`.
    fn subsumes(&self, other: &Self) -> bool {
        false
    }
}

impl Merge for () {
    fn merge(&self, other: &Self) -> (r: Self)
        ensures
            r == (),
    {
    }

    fn subsumes(&self, other: &Self) -> (r: bool)
        ensures
            r,
    {
        true
    }
}

/// `f` describes [`Merge::merge`] and obeys the join laws.
pub open spec fn merge_laws<A: Merge>(f: spec_fn(A, A) -> A) -> bool {
    &&& forall|a: A, b: A, r: A| #[trigger] call_ensures(A::merge, (&a, &b), r) ==> r == f(a, b)
    &&& forall|a: A, b: A, c: A| #[trigger] f(f(a, b), c) == f(a, f(b, c))
    &&& forall|a: A, b: A| #[trigger] f(a, b) == f(b, a)
    &&& forall|a: A| #[trigger] f(a, a) == a
}

/// `A::merge` computes a function that obeys the join laws.
pub open spec fn lawful_merge<A: Merge>() -> bool {
    exists|f: spec_fn(A, A) -> A| #[trigger] merge_laws::<A>(f)
}

/// An accumulator, as the weight of a stack.
#[derive(Debug)]
pub struct Accumulated<A>(pub A);

impl<A: Merge> Weight for Accumulated<A> {
    fn join(&self, other: &Self) -> (r: Self)
        ensures
            call_ensures(A::merge, (&self.0, &other.0), r.0),
    {
        Accumulated(self.0.merge(&other.0))
    }
}

impl<A: Clone> Clone for Accumulated<A> {
    fn clone(&self) -> (r: Self)
        ensures
            call_ensures(A::clone, (&self.0,), r.0),
    {
        Accumulated(self.0.clone())
    }
}

impl<A: PartialEq> PartialEq for Accumulated<A> {
    fn eq(&self, other: &Self) -> (r: bool) {
        self.0 == other.0
    }
}

impl<A: PartialEq> PartialEqSpecImpl for Accumulated<A> {
    open spec fn obeys_eq_spec() -> bool {
        <A as PartialEqSpec>::obeys_eq_spec()
    }

    open spec fn eq_spec(&self, other: &Self) -> bool {
        PartialEqSpec::eq_spec(&self.0, &other.0)
    }
}

/// Accumulators compare as their contents: structural equality on `A` makes
/// it structural on accumulators.
pub proof fn lemma_accumulated_concrete_eq<A: PartialEq>()
    requires
        vstd::laws_eq::obeys_concrete_eq::<A>(),
    ensures
        vstd::laws_eq::obeys_concrete_eq::<Accumulated<A>>(),
{
    reveal(vstd::laws_eq::obeys_concrete_eq);
    assert forall|x: Accumulated<A>, y: Accumulated<A>| PartialEqSpec::eq_spec(&x, &y) <==> (x == y) by {
        assert(PartialEqSpec::eq_spec(&x.0, &y.0) <==> (x.0 == y.0));
    }
}

/// A lawful merge makes accumulators lawful weights.
pub proof fn lemma_accumulated_lawful<A: Merge>()
    requires
        lawful_merge::<A>(),
    ensures
        lawful_join::<Accumulated<A>>(),
{
    let f = choose|f: spec_fn(A, A) -> A| #[trigger] merge_laws::<A>(f);
    let g = |a: Accumulated<A>, b: Accumulated<A>| Accumulated(f(a.0, b.0));
    assert forall|a: Accumulated<A>, b: Accumulated<A>, r: Accumulated<A>| #[trigger] call_ensures(
        Accumulated::<A>::join,
        (&a, &b),
        r,
    ) implies r == g(a, b) by {
        assert(call_ensures(A::merge, (&a.0, &b.0), r.0));
    }
    assert(join_laws::<Accumulated<A>>(g));
    lemma_lawful_join_from(g);
}

/// Clones of accumulators are exact when clones of `A` are.
pub proof fn lemma_accumulated_clone_exact<A: Clone>()
    requires
        clone_exact::<A>(),
    ensures
        clone_exact::<Accumulated<A>>(),
{
    assert forall|a: Accumulated<A>, b: Accumulated<A>| #[trigger] vstd::pervasive::strictly_cloned::<Accumulated<A>>(a, b) implies a == b by {
        assert(vstd::pervasive::strictly_cloned::<A>(a.0, b.0));
    }
}

/// What [`LeveledGSS`] needs of its value and accumulator types: `==` on
/// values is structural equality, clones equal their source, and `merge` is a
/// lawful join.
pub open spec fn leveled_values<T: PartialEq + Clone, A: Merge + Clone>() -> bool {
    &&& vstd::laws_eq::obeys_concrete_eq::<T>()
    &&& clone_exact::<T>()
    &&& clone_exact::<A>()
    &&& lawful_merge::<A>()
}

/// Lawful values and accumulators make a lawful weighted GSS.
pub proof fn lemma_leveled_exact<T: PartialEq + Clone, A: Merge + Clone>()
    requires
        leveled_values::<T, A>(),
    ensures
        exact_values::<T, Accumulated<A>>(),
{
    lemma_accumulated_lawful::<A>();
    lemma_accumulated_clone_exact::<A>();
}

/// The accumulators that the entries of `l` give to stack `k`.
pub open spec fn entry_accs<T, A>(l: Seq<(Vec<T>, A)>, k: Seq<T>) -> Set<Accumulated<A>> {
    Set::new(|w: Accumulated<A>| exists|i: int| 0 <= i < l.len() && l[i].0@ == k && Accumulated(#[trigger] l[i].1) == w)
}

/// Structural statistics of a [`LeveledGSS`]: counts over the shared trie that
/// represents it, not over its stacks.
#[derive(Clone, Copy, Debug, Default, PartialEq, Eq)]
pub struct LeveledGSSSummary {
    /// Number of distinct values visible at the top of the stacks.
    pub top_values_count: usize,
    /// Number of branch nodes above the shared layer (none in a trie).
    pub upperbranch_nodes: usize,
    /// Number of nodes between the two layers (none in a trie).
    pub interface_nodes: usize,
    /// Number of trie nodes.
    pub lower_nodes: usize,
    /// Number of trie nodes that hold the empty stack or do not have exactly one edge.
    pub lower_general_nodes: usize,
    /// Number of trie nodes without the empty stack and with exactly one edge.
    pub lower_segment_nodes: usize,
    /// Total number of trie nodes.
    pub total_unique_nodes: usize,
    /// Total number of trie edges, saturating at `usize::MAX`.
    pub total_edges: usize,
    /// Number of nodes that hold the accumulator of an empty stack.
    pub accumulator_instances: usize,
    /// Maximum stack length, saturating at `u32::MAX`.
    pub max_depth: u32,
}

/// The number of edges of the first `i` listed nodes.
pub open spec fn listed_edges<T, W>(l: Seq<ListedNode<T, W>>, i: int) -> int
    decreases i,
{
    if i <= 0 {
        0
    } else {
        listed_edges(l, i - 1) + l[i - 1].edges@.len()
    }
}

/// The number of the first `i` listed nodes that hold an empty-stack weight.
pub open spec fn listed_accs<T, W>(l: Seq<ListedNode<T, W>>, i: int) -> int
    decreases i,
{
    if i <= 0 {
        0
    } else {
        listed_accs(l, i - 1) + if l[i - 1].empty is Some { 1int } else { 0int }
    }
}

/// The number of the first `i` listed nodes without an empty-stack weight and
/// with exactly one edge.
pub open spec fn listed_linear<T, W>(l: Seq<ListedNode<T, W>>, i: int) -> int
    decreases i,
{
    if i <= 0 {
        0
    } else {
        listed_linear(l, i - 1) + if l[i - 1].empty is None && l[i - 1].edges@.len() == 1 { 1int } else { 0int }
    }
}

/// `m` holds at least one stack.
pub open spec fn holds_a_stack<T, A>(m: Map<Seq<T>, Accumulated<A>>) -> bool {
    exists|t: Seq<T>| m.contains_key(t)
}

/// The entries of `l` are exactly the stacks of `m` with their accumulators, each once.
pub open spec fn lists_accs<T, A>(m: Map<Seq<T>, Accumulated<A>>, l: Seq<(Vec<T>, A)>) -> bool {
    &&& forall|i: int, j: int| 0 <= i < l.len() && 0 <= j < l.len() && i != j ==> l[i].0@ != l[j].0@
    &&& forall|i: int| 0 <= i < l.len() ==> m.contains_key(#[trigger] l[i].0@) && m[l[i].0@] == Accumulated(l[i].1)
    &&& forall|k: Seq<T>| #[trigger] m.contains_key(k) ==> exists|i: int| 0 <= i < l.len() && l[i].0@ == k
}

/// A persistent set of bottom-to-top stacks, each carrying an accumulator;
/// accumulators of stacks that operations make equal are merged.
#[derive(Debug)]
pub struct LeveledGSS<T, A> {
    inner: WeightedGss<T, Accumulated<A>>,
}

impl<T, A> View for LeveledGSS<T, A> {
    type V = Map<Seq<T>, Accumulated<A>>;

    /// The stacks with their accumulators.
    closed spec fn view(&self) -> Map<Seq<T>, Accumulated<A>> {
        self.inner@
    }
}

impl<T: PartialEq + Clone, A: Merge + Clone> LeveledGSS<T, A> {
    /// Construct a GSS containing no stack.
    pub fn empty() -> (g: Self)
        ensures
            g@ == Map::<Seq<T>, Accumulated<A>>::empty(),
    {
        LeveledGSS { inner: WeightedGss::new() }
    }

    /// Construct a GSS containing one bottom-to-top stack.
    pub fn from_single_stack(values: Vec<T>, acc: A) -> (g: Self)
        requires
            leveled_values::<T, A>(),
        ensures
            g@ == map![values@ => Accumulated(acc)],
    {
        proof {
            lemma_leveled_exact::<T, A>();
        }
        LeveledGSS { inner: WeightedGss::from_stack(values, Accumulated(acc)) }
    }

    /// Construct a GSS from bottom-to-top stacks and accumulators; the
    /// accumulators of equal stacks are merged.
    pub fn from_stacks(stacks: &[(Vec<T>, A)]) -> (g: Self)
        requires
            leveled_values::<T, A>(),
        ensures
            forall|k: Seq<T>| #[trigger] g@.contains_key(k) <==> exists|i: int| 0 <= i < stacks@.len() && stacks@[i].0@ == k,
            forall|k: Seq<T>| #[trigger] g@.contains_key(k) ==> is_join_of(g@[k], entry_accs(stacks@, k)),
    {
        proof {
            lemma_leveled_exact::<T, A>();
        }
        let mut entries: Vec<(Vec<T>, Accumulated<A>)> = Vec::new();
        let mut i: usize = 0;
        while i < stacks.len()
            invariant
                leveled_values::<T, A>(),
                i <= stacks@.len(),
                entries@.len() == i,
                forall|j: int| 0 <= j < i ==> (#[trigger] entries@[j]).0@ == stacks@[j].0@ && entries@[j].1 == Accumulated(stacks@[j].1),
            decreases stacks@.len() - i,
        {
            let stack = clone_stack(&stacks[i].0);
            let acc = clone_value(&stacks[i].1);
            entries.push((stack, Accumulated(acc)));
            i += 1;
        }
        let ghost e = entries@;
        let inner = WeightedGss::from_stacks(entries);
        proof {
            assert forall|k: Seq<T>| #[trigger] inner@.contains_key(k) <==> exists|j: int| 0 <= j < stacks@.len() && stacks@[j].0@ == k by {
                if inner@.contains_key(k) {
                    let j = choose|j: int| 0 <= j < e.len() && e[j].0@ == k;
                    assert(stacks@[j].0@ == k);
                }
                if exists|j: int| 0 <= j < stacks@.len() && stacks@[j].0@ == k {
                    let j = choose|j: int| 0 <= j < stacks@.len() && stacks@[j].0@ == k;
                    assert(e[j].0@ == k);
                }
            }
            assert forall|k: Seq<T>| inner@.contains_key(k) implies is_join_of(inner@[k], #[trigger] entry_accs(stacks@, k)) by {
                assert(crate::gss::entry_weights(e, k) =~= entry_accs(stacks@, k)) by {
                    assert forall|w: Accumulated<A>| crate::gss::entry_weights(e, k).contains(w) implies entry_accs(stacks@, k).contains(w) by {
                        let j = choose|j: int| 0 <= j < e.len() && e[j].0@ == k && #[trigger] e[j].1 == w;
                        assert(Accumulated(stacks@[j].1) == w);
                    }
                    assert forall|w: Accumulated<A>| entry_accs(stacks@, k).contains(w) implies crate::gss::entry_weights(e, k).contains(w) by {
                        let j = choose|j: int| 0 <= j < stacks@.len() && stacks@[j].0@ == k && Accumulated(#[trigger] stacks@[j].1) == w;
                        assert(e[j].1 == w);
                    }
                }
            }
        }
        LeveledGSS { inner }
    }

    /// Materialize the stacks, bottom-to-top, with their accumulators; `None`
    /// when there are more than `max_stacks` of them.
    pub fn to_stacks(&self, max_stacks: usize) -> (r: Option<Vec<(Vec<T>, A)>>)
        requires
            leveled_values::<T, A>(),
        ensures
            self@.dom().finite(),
            r is Some <==> self@.dom().len() <= max_stacks,
            r matches Some(v) ==> v@.len() == self@.dom().len() && lists_accs(self@, v@),
    {
        proof {
            lemma_leveled_exact::<T, A>();
        }
        match self.inner.to_stacks(max_stacks) {
            Ok(v) => {
                let mut out: Vec<(Vec<T>, A)> = Vec::new();
                let mut i: usize = 0;
                while i < v.len()
                    invariant
                        leveled_values::<T, A>(),
                        i <= v@.len(),
                        out@.len() == i,
                        forall|j: int| 0 <= j < i ==> (#[trigger] out@[j]).0@ == v@[j].0@ && Accumulated(out@[j].1) == v@[j].1,
                    decreases v@.len() - i,
                {
                    let stack = clone_stack(&v[i].0);
                    let acc = clone_value(&v[i].1.0);
                    out.push((stack, acc));
                    i += 1;
                }
                proof {
                    assert forall|k: Seq<T>| #[trigger] self@.contains_key(k) implies exists|j: int| 0 <= j < out@.len() && out@[j].0@ == k by {
                        let j = choose|j: int| 0 <= j < v@.len() && v@[j].0@ == k;
                        assert(out@[j].0@ == k);
                    }
                    assert forall|j: int| 0 <= j < out@.len() implies self@.contains_key(#[trigger] out@[j].0@) && self@[out@[j].0@] == Accumulated(out@[j].1) by {
                        assert(self@.contains_key(v@[j].0@));
                    }
                }
                Some(out)
            },
            Err(_) => None,
        }
    }

    /// Push `value` onto every stack.
    pub fn push(&self, value: T) -> (g: Self)
        requires
            leveled_values::<T, A>(),
        ensures
            g@ == pushed(self@, value),
    {
        proof {
            lemma_leveled_exact::<T, A>();
        }
        LeveledGSS { inner: self.inner.push(value) }
    }

    /// Pop `n` values from every stack, discarding stacks shorter than `n`
    /// and merging the accumulators of stacks that become equal; a count of
    /// zero or less changes nothing.
    pub fn popn(&self, n: isize) -> (g: Self)
        requires
            leveled_values::<T, A>(),
        ensures
            n <= 0 ==> g@ == self@,
            n > 0 ==> forall|k: Seq<T>| #[trigger] is_opt_join_of(weight_at(g@, k), popped_weights(self@, n as nat, k)),
    {
        proof {
            lemma_leveled_exact::<T, A>();
        }
        if n <= 0 {
            return LeveledGSS { inner: self.inner.clone() };
        }
        LeveledGSS { inner: self.inner.popn(n as usize) }
    }

    /// Pop one value from every non-empty stack; the empty stack disappears.
    pub fn pop(&self) -> (g: Self)
        requires
            leveled_values::<T, A>(),
        ensures
            forall|k: Seq<T>| #[trigger] is_opt_join_of(weight_at(g@, k), popped_weights(self@, 1, k)),
    {
        let g = self.popn(1);
        assert(1isize as nat == 1nat);
        g
    }

    /// Keep the stacks whose top is `value`, then pop that top.
    pub fn pop_top_value(&self, value: &T) -> (g: Self)
        requires
            leveled_values::<T, A>(),
        ensures
            g@ == popped_top(self@, *value),
    {
        proof {
            lemma_leveled_exact::<T, A>();
        }
        LeveledGSS { inner: self.inner.pop_top(value) }
    }

    /// Keep only the stacks whose top is `value`; `None` keeps only the empty stack.
    pub fn isolate(&self, value: Option<T>) -> (g: Self)
        requires
            leveled_values::<T, A>(),
        ensures
            match value {
                Some(v) => g@ == retained_top(self@, v),
                None => g@ == retained_empty(self@),
            },
    {
        proof {
            lemma_leveled_exact::<T, A>();
        }
        match value {
            Some(v) => LeveledGSS { inner: self.inner.retain_top(&v) },
            None => LeveledGSS { inner: self.inner.retain_empty() },
        }
    }

    /// The union of the stacks of `self` and `other`, merging the accumulators
    /// of stacks in both.
    pub fn merge(&self, other: &Self) -> (g: Self)
        requires
            leveled_values::<T, A>(),
        ensures
            g@ == merged(self@, other@),
    {
        proof {
            lemma_leveled_exact::<T, A>();
        }
        LeveledGSS { inner: self.inner.merge(&other.inner) }
    }

    /// Merge every GSS of `gsses`.
    pub fn merge_many(gsses: Vec<Self>) -> (g: Self)
        requires
            leveled_values::<T, A>(),
        ensures
            g@ == merged_all(gsses@.map_values(|v: Self| v@)),
    {
        proof {
            lemma_leveled_exact::<T, A>();
        }
        let ghost views = gsses@.map_values(|v: Self| v@);
        let mut g = Self::empty();
        let mut i: usize = 0;
        while i < gsses.len()
            invariant
                leveled_values::<T, A>(),
                views == gsses@.map_values(|v: Self| v@),
                i <= gsses@.len(),
                g@ == merged_all(views.take(i as int)),
            decreases gsses@.len() - i,
        {
            assert(views.take(i as int + 1).drop_last() =~= views.take(i as int));
            g = g.merge(&gsses[i]);
            i += 1;
        }
        assert(views.take(gsses@.len() as int) =~= views);
        g
    }

    /// Normalize the representation over `levels` levels (`None`: all levels).
    /// The trie that represents a GSS is always canonical, so the result has
    /// the stacks and accumulators of `self`.
    pub fn fuse(&self, levels: Option<isize>) -> (g: Self)
        ensures
            g@ == self@,
    {
        LeveledGSS { inner: self.inner.clone() }
    }

    /// Whether the GSS holds no stack.
    pub fn is_empty(&self) -> (r: bool)
        ensures
            r == (self@ == Map::<Seq<T>, Accumulated<A>>::empty()),
    {
        self.inner.is_empty()
    }

    /// The maximum stack length, saturating at `u32::MAX`.
    pub fn max_depth(&self) -> (d: u32)
        ensures
            self@.dom().finite(),
            forall|k: Seq<T>| #[trigger] self@.contains_key(k) ==> k.len() <= d || d == u32::MAX,
            d < u32::MAX ==> (self@.dom().len() > 0 ==> exists|k: Seq<T>| #[trigger] self@.contains_key(k) && k.len() == d),
            self@ == Map::<Seq<T>, Accumulated<A>>::empty() ==> d == 0,
    {
        let d = self.inner.max_depth();
        if d >= 0xffff_ffffusize {
            u32::MAX
        } else {
            d as u32
        }
    }

    /// The distinct top values of the non-empty stacks.
    pub fn peek(&self) -> (r: Vec<T>)
        requires
            leveled_values::<T, A>(),
        ensures
            r@.no_duplicates(),
            forall|x: T| #[trigger] r@.contains(x) <==> is_top(self@, x),
    {
        proof {
            lemma_leveled_exact::<T, A>();
        }
        self.inner.tops()
    }

    /// The top value when the non-empty stacks have exactly one distinct top,
    /// whether or not the empty stack is also held.
    pub fn single_top_value(&self) -> (r: Option<T>)
        requires
            leveled_values::<T, A>(),
        ensures
            forall|x: T| (r == Some(x)) <==> (#[trigger] is_top(self@, x) && forall|y: T| #[trigger] is_top(self@, y) ==> y == x),
    {
        proof {
            lemma_leveled_exact::<T, A>();
        }
        let tops = self.inner.tops();
        if tops.len() == 1 {
            let x = clone_value(&tops[0]);
            proof {
                assert(tops@.contains(tops@[0]));
                assert(is_top(self@, x));
                assert forall|z: T| #[trigger] is_top(self@, z) implies z == x by {
                    assert(tops@.contains(z));
                }
                assert forall|y: T| (Some(x) == Some(y)) <==> (#[trigger] is_top(self@, y) && forall|z: T| #[trigger] is_top(self@, z) ==> z == y) by {
                    if is_top(self@, y) && forall|z: T| #[trigger] is_top(self@, z) ==> z == y {
                        assert(x == y);
                    }
                }
            }
            Some(x)
        } else {
            proof {
                assert forall|y: T| !(#[trigger] is_top(self@, y) && forall|z: T| #[trigger] is_top(self@, z) ==> z == y) by {
                    if is_top(self@, y) && forall|z: T| #[trigger] is_top(self@, z) ==> z == y {
                        assert(tops@.contains(y));
                        if tops@.len() > 1 {
                            let other = if tops@[0] == y { tops@[1] } else { tops@[0] };
                            assert(tops@.contains(other));
                            assert(is_top(self@, other));
                            assert(tops@[0] != tops@[1]);
                        }
                    }
                }
            }
            None
        }
    }

    /// The top value when every stack is non-empty and has that one top.
    pub fn single_exclusive_top_value(&self) -> (r: Option<T>)
        requires
            leveled_values::<T, A>(),
        ensures
            forall|x: T| (r == Some(x)) <==> #[trigger] is_sole_top(self@, x),
    {
        proof {
            lemma_leveled_exact::<T, A>();
        }
        self.inner.top()
    }

    /// The number of stacks, capped at `limit`.
    pub fn path_count_at_most(&self, limit: usize) -> (n: usize)
        requires
            leveled_values::<T, A>(),
        ensures
            self@.dom().finite(),
            n == if self@.dom().len() <= limit { self@.dom().len() as int } else { limit as int },
    {
        proof {
            lemma_leveled_exact::<T, A>();
        }
        match self.inner.to_stacks(limit) {
            Ok(v) => v.len(),
            Err(_) => limit,
        }
    }

    /// The merge of the accumulators of all stacks; `None` when there is no stack.
    pub fn reduce_acc(&self) -> (r: Option<A>)
        requires
            leveled_values::<T, A>(),
        ensures
            match r {
                None => self@ == Map::<Seq<T>, Accumulated<A>>::empty(),
                Some(a) => is_opt_join_of(Some(Accumulated(a)), self@.values()),
            },
    {
        proof {
            lemma_leveled_exact::<T, A>();
        }
        match self.inner.joined_weight() {
            Some(w) => Some(w.0),
            None => {
                proof {
                    assert forall|k: Seq<T>| !self@.contains_key(k) by {
                        if self@.contains_key(k) {
                            assert(self@.values().contains(self@[k]));
                        }
                    }
                    assert(self@ =~= Map::<Seq<T>, Accumulated<A>>::empty());
                }
                None
            },
        }
    }

    /// Apply `func` to the accumulator of every stack.
    pub fn apply<B: Merge + Clone, F: Fn(&A) -> B>(&self, func: F) -> (g: LeveledGSS<T, B>)
        requires
            leveled_values::<T, A>(),
            forall|a: A| #[trigger] func.requires((&a,)),
        ensures
            g@.dom() == self@.dom(),
            forall|k: Seq<T>| #[trigger] self@.contains_key(k) ==> func.ensures((&self@[k].0,), g@[k].0),
    {
        proof {
            lemma_leveled_exact::<T, A>();
        }
        let fr = &func;
        let f = move |x: &Accumulated<A>| -> (r: Accumulated<B>)
            requires
                fr.requires((&x.0,)),
            ensures
                fr.ensures((&x.0,), r.0),
        { Accumulated(fr(&x.0)) };
        let inner = self.inner.map_weights(f);
        LeveledGSS { inner }
    }

    /// Apply `mutator` to the accumulator of every stack, dropping the stacks
    /// for which it returns `None`.
    pub fn apply_and_prune<B: Merge + Clone, M: Fn(&A) -> Option<B>>(&self, mutator: M) -> (g: LeveledGSS<T, B>)
        requires
            leveled_values::<T, A>(),
            forall|a: A| #[trigger] mutator.requires((&a,)),
        ensures
            forall|k: Seq<T>| #[trigger] g@.contains_key(k) ==> self@.contains_key(k) && mutator.ensures(
                (&self@[k].0,),
                Some(g@[k].0),
            ),
            forall|k: Seq<T>| self@.contains_key(k) && !(#[trigger] g@.contains_key(k)) ==> mutator.ensures(
                (&self@[k].0,),
                None::<B>,
            ),
    {
        proof {
            lemma_leveled_exact::<T, A>();
        }
        let mr = &mutator;
        let f = move |x: &Accumulated<A>| -> (r: Option<Accumulated<B>>)
            requires
                mr.requires((&x.0,)),
            ensures
                match r {
                    Some(b) => mr.ensures((&x.0,), Some(b.0)),
                    None => mr.ensures((&x.0,), None::<B>),
                },
        {
            match mr(&x.0) {
                Some(b) => Some(Accumulated(b)),
                None => None,
            }
        };
        let inner = self.inner.filter_map_weights(f);
        LeveledGSS { inner }
    }

    /// Apply `mutator` to the accumulator of every stack, dropping the stacks
    /// for which it returns `None`; the accumulator type stays the same.
    pub fn apply_and_prune_no_promote<M: Fn(&A) -> Option<A>>(&self, mutator: M) -> (g: Self)
        requires
            leveled_values::<T, A>(),
            forall|a: A| #[trigger] mutator.requires((&a,)),
        ensures
            forall|k: Seq<T>| #[trigger] g@.contains_key(k) ==> self@.contains_key(k) && mutator.ensures(
                (&self@[k].0,),
                Some(g@[k].0),
            ),
            forall|k: Seq<T>| self@.contains_key(k) && !(#[trigger] g@.contains_key(k)) ==> mutator.ensures(
                (&self@[k].0,),
                None::<A>,
            ),
    {
        self.apply_and_prune(mutator)
    }

    /// Apply `mutator` as [`Self::apply_and_prune`] does, then split the
    /// result: for each distinct top `x`, the pair of `x` and the transformed
    /// stacks with top `x`, with `x` popped; and the transformed accumulator of
    /// the empty stack, if it is kept.
    pub fn apply_transform_and_decompose<B: Merge + Clone, M: Fn(&A) -> Option<B>>(&self, mutator: M) -> (r: (
        Vec<(T, LeveledGSS<T, B>)>,
        Vec<B>,
    ))
        requires
            leveled_values::<T, A>(),
            clone_exact::<B>(),
            lawful_merge::<B>(),
            forall|a: A| #[trigger] mutator.requires((&a,)),
        ensures
            forall|i: int, j: int| 0 <= i < j < r.0@.len() ==> (#[trigger] r.0@[i]).0 != (#[trigger] r.0@[j]).0,
            forall|i: int, t: Seq<T>|
                0 <= i < r.0@.len() && #[trigger] r.0@[i].1@.contains_key(t) ==> self@.contains_key(t.push(r.0@[i].0))
                    && mutator.ensures((&self@[t.push(r.0@[i].0)].0,), Some(r.0@[i].1@[t].0)),
            forall|i: int| 0 <= i < r.0@.len() ==> holds_a_stack((#[trigger] r.0@[i]).1@),
            forall|k: Seq<T>|
                #[trigger] self@.contains_key(k) && k.len() > 0 ==> (exists|i: int|
                    0 <= i < r.0@.len() && r.0@[i].0 == k.last() && #[trigger] r.0@[i].1@.contains_key(k.drop_last()))
                    || mutator.ensures((&self@[k].0,), None::<B>),
            r.1@.len() <= 1,
            r.1@.len() == 1 ==> self@.contains_key(Seq::<T>::empty()) && mutator.ensures(
                (&self@[Seq::<T>::empty()].0,),
                Some(r.1@[0]),
            ),
            r.1@.len() == 0 && self@.contains_key(Seq::<T>::empty()) ==> mutator.ensures(
                (&self@[Seq::<T>::empty()].0,),
                None::<B>,
            ),
    {
        proof {
            lemma_leveled_exact::<T, A>();
            lemma_accumulated_lawful::<B>();
            lemma_accumulated_clone_exact::<B>();
        }
        let g = self.apply_and_prune(mutator);
        let ghost gm = g@;
        let branches = g.inner.pop_branches();
        let mut out: Vec<(T, LeveledGSS<T, B>)> = Vec::new();
        let mut i: usize = 0;
        while i < branches.len()
            invariant
                leveled_values::<T, A>(),
                i <= branches@.len(),
                out@.len() == i,
                forall|j: int| 0 <= j < i ==> (#[trigger] out@[j]).0 == branches@[j].0 && out@[j].1@ == branches@[j].1@,
            decreases branches@.len() - i,
        {
            out.push((clone_value(&branches[i].0), LeveledGSS { inner: branches[i].1.clone() }));
            i += 1;
        }
        let mut roots: Vec<B> = Vec::new();
        match g.inner.empty_weight() {
            Some(w) => roots.push(w.0),
            None => {},
        }
        let r = (out, roots);
        proof {
            assert forall|i: int, j: int| 0 <= i < j < r.0@.len() implies (#[trigger] r.0@[i]).0 != (#[trigger] r.0@[j]).0 by {
                assert(branches@[i].0 != branches@[j].0);
            }
            assert forall|i: int, t: Seq<T>|
                0 <= i < r.0@.len() && #[trigger] r.0@[i].1@.contains_key(t) implies self@.contains_key(t.push(r.0@[i].0))
                    && mutator.ensures((&self@[t.push(r.0@[i].0)].0,), Some(r.0@[i].1@[t].0)) by {
                assert(branches@[i].1@ == popped_top(gm, branches@[i].0));
                assert(gm.contains_key(t.push(r.0@[i].0)));
            }
            assert forall|i: int| 0 <= i < r.0@.len() implies holds_a_stack((#[trigger] r.0@[i]).1@) by {
                assert(is_top(gm, branches@[i].0));
                let k = choose|k: Seq<T>| gm.contains_key(k) && k.len() > 0 && k.last() == branches@[i].0;
                assert(k.drop_last().push(k.last()) =~= k);
                assert(branches@[i].1@ == popped_top(gm, branches@[i].0));
                assert(r.0@[i].1@.contains_key(k.drop_last()));
            }
            assert forall|k: Seq<T>| #[trigger] self@.contains_key(k) && k.len() > 0 implies (exists|i: int|
                0 <= i < r.0@.len() && r.0@[i].0 == k.last() && #[trigger] r.0@[i].1@.contains_key(k.drop_last()))
                || mutator.ensures((&self@[k].0,), None::<B>) by {
                if gm.contains_key(k) {
                    assert(is_top(gm, k.last()));
                    let i = choose|i: int| 0 <= i < branches@.len() && (#[trigger] branches@[i]).0 == k.last();
                    assert(k.drop_last().push(k.last()) =~= k);
                    assert(branches@[i].1@ == popped_top(gm, branches@[i].0));
                    assert(r.0@[i].1@.contains_key(k.drop_last()));
                }
            }
        }
        r
    }

    /// Visit every stack top-first with its accumulator and return `true`;
    /// when there are more than `limit` stacks, visit only the first `limit`
    /// stacks found and return `false`.
    pub fn for_each_stack_top_first_bounded<F: FnMut(&[T], &A)>(&self, limit: usize, mut f: F) -> (r: bool)
        requires
            leveled_values::<T, A>(),
            forall|s: &[T], a: &A| #[trigger] f.requires((s, a)),
        ensures
            self@.dom().finite(),
            r == (self@.dom().len() <= limit),
            r ==> forall|k: Seq<T>| #[trigger] self@.contains_key(k) ==> exists|s: &[T], a: &A|
                s@ == k.reverse() && *a == self@[k].0 && call_ensures(f, (s, a), ()),
    {
        proof {
            lemma_leveled_exact::<T, A>();
        }
        let ghost f0 = f;
        match crate::stack_visit::collect_stacks_top_first(&self.inner, limit) {
            Ok(v) => {
                let mut i: usize = 0;
                while i < v.len()
                    invariant
                        i <= v@.len(),
                        f == f0,
                        forall|s: &[T], a: &A| #[trigger] f.requires((s, a)),
                        forall|j: int| 0 <= j < i ==> exists|s: &[T], a: &A|
                            s@ == (#[trigger] v@[j]).0@ && *a == v@[j].1.0 && call_ensures(f, (s, a), ()),
                    decreases v@.len() - i,
                {
                    let s = v[i].0.as_slice();
                    let a = &v[i].1.0;
                    f(s, a);
                    proof {
                        assert(s@ == v@[i as int].0@ && *a == v@[i as int].1.0 && call_ensures(f, (s, a), ()));
                    }
                    i += 1;
                }
                proof {
                    assert forall|k: Seq<T>| #[trigger] self@.contains_key(k) implies exists|s: &[T], a: &A|
                        s@ == k.reverse() && *a == self@[k].0 && call_ensures(f, (s, a), ()) by {
                        let j = choose|j: int| 0 <= j < v@.len() && v@[j].0@ == k.reverse();
                        assert(self@.contains_key(v@[j].0@.reverse()));
                        crate::stack_visit::lemma_reverse_reverse(k);
                        let (s, a) = choose|s: &[T], a: &A| s@ == v@[j].0@ && *a == v@[j].1.0 && call_ensures(f, (s, a), ());
                        assert(s@ == k.reverse() && *a == self@[k].0 && call_ensures(f, (s, a), ()));
                    }
                }
                true
            },
            Err(_) => {
                let (partial, _) = crate::node::node_collect(self.inner.root(), limit);
                let mut i: usize = 0;
                while i < partial.len() && i < limit
                    invariant
                        leveled_values::<T, A>(),
                        f == f0,
                        forall|s: &[T], a: &A| #[trigger] f.requires((s, a)),
                    decreases partial@.len() - i,
                {
                    let top_first = crate::stack_visit::reversed(&partial[i].0);
                    f(top_first.as_slice(), &partial[i].1.0);
                    i += 1;
                }
                false
            },
        }
    }

    /// Visit the length of every stack with its accumulator and return `true`;
    /// when there are more than `limit` stacks, visit only the first `limit`
    /// stacks found and return `false`.
    pub fn for_each_stack_len_bounded<F: FnMut(usize, &A)>(&self, limit: usize, mut f: F) -> (r: bool)
        requires
            leveled_values::<T, A>(),
            forall|n: usize, a: &A| #[trigger] f.requires((n, a)),
        ensures
            self@.dom().finite(),
            r == (self@.dom().len() <= limit),
            r ==> forall|k: Seq<T>| #[trigger] self@.contains_key(k) ==> exists|n: usize, a: &A|
                n == k.len() && *a == self@[k].0 && #[trigger] call_ensures(f, (n, a), ()),
    {
        proof {
            lemma_leveled_exact::<T, A>();
        }
        let ghost f0 = f;
        match self.inner.to_stacks(limit) {
            Ok(v) => {
                let mut i: usize = 0;
                while i < v.len()
                    invariant
                        i <= v@.len(),
                        f == f0,
                        forall|n: usize, a: &A| #[trigger] f.requires((n, a)),
                        forall|j: int| 0 <= j < i ==> exists|n: usize, a: &A|
                            n == (#[trigger] v@[j]).0@.len() && *a == v@[j].1.0 && #[trigger] call_ensures(f, (n, a), ()),
                    decreases v@.len() - i,
                {
                    let a = &v[i].1.0;
                    let n = v[i].0.len();
                    f(n, a);
                    proof {
                        assert(n == v@[i as int].0@.len() && *a == v@[i as int].1.0 && call_ensures(f, (n, a), ()));
                    }
                    i += 1;
                }
                proof {
                    assert forall|k: Seq<T>| #[trigger] self@.contains_key(k) implies exists|n: usize, a: &A|
                        n == k.len() && *a == self@[k].0 && #[trigger] call_ensures(f, (n, a), ()) by {
                        let j = choose|j: int| 0 <= j < v@.len() && v@[j].0@ == k;
                        assert(v@[j].0@ == k);
                        let (n, a) = choose|n: usize, a: &A| n == v@[j].0@.len() && *a == v@[j].1.0 && #[trigger] call_ensures(f, (n, a), ());
                        assert(n == k.len() && *a == self@[k].0 && call_ensures(f, (n, a), ()));
                    }
                }
                true
            },
            Err(_) => {
                let (partial, _) = crate::node::node_collect(self.inner.root(), limit);
                let mut i: usize = 0;
                while i < partial.len() && i < limit
                    invariant
                        f == f0,
                        forall|n: usize, a: &A| #[trigger] f.requires((n, a)),
                    decreases partial@.len() - i,
                {
                    f(partial[i].0.len(), &partial[i].1.0);
                    i += 1;
                }
                false
            },
        }
    }

    /// Structural statistics of the trie that represents this GSS.
    pub fn summary(&self) -> (r: LeveledGSSSummary)
        requires
            leveled_values::<T, A>(),
        ensures
            exists|tops: Seq<T>|
                #![trigger tops.len()]
                tops.no_duplicates() && (forall|x: T| #[trigger] tops.contains(x) <==> is_top(self@, x))
                    && r.top_values_count == tops.len(),
            exists|l: Seq<ListedNode<T, Accumulated<A>>>|
                #![trigger l.len()]
                l.len() > 0 && (forall|k: Seq<T>| #[trigger] listed_lookup(l, l.len() - 1, k) == weight_at(self@, k))
                    && r.total_unique_nodes == l.len() && r.lower_nodes == l.len()
                    && r.total_edges == (if listed_edges(l, l.len() as int) <= usize::MAX { listed_edges(l, l.len() as int) } else { usize::MAX as int })
                    && r.accumulator_instances == listed_accs(l, l.len() as int)
                    && r.lower_segment_nodes == listed_linear(l, l.len() as int)
                    && r.lower_general_nodes == l.len() - listed_linear(l, l.len() as int),
            r.upperbranch_nodes == 0,
            r.interface_nodes == 0,
            forall|k: Seq<T>| #[trigger] self@.contains_key(k) ==> k.len() <= r.max_depth || r.max_depth == u32::MAX,
    {
        proof {
            lemma_leveled_exact::<T, A>();
        }
        let tops = self.inner.tops();
        let listing = self.inner.structure();
        let mut edges: usize = 0;
        let mut accs: usize = 0;
        let mut linear: usize = 0;
        let mut i: usize = 0;
        while i < listing.len()
            invariant
                i <= listing@.len(),
                edges == (if listed_edges(listing@, i as int) <= usize::MAX { listed_edges(listing@, i as int) } else { usize::MAX as int }),
                accs == listed_accs(listing@, i as int),
                linear == listed_linear(listing@, i as int),
                accs <= i,
                linear <= i,
            decreases listing@.len() - i,
        {
            let n = listing[i].edges.len();
            proof {
                assert(listed_edges(listing@, i + 1) == listed_edges(listing@, i as int) + n);
            }
            edges = edges.saturating_add(n);
            if listing[i].empty.is_some() {
                accs += 1;
            }
            if listing[i].empty.is_none() && n == 1 {
                linear += 1;
            }
            i += 1;
        }
        let total = listing.len();
        let r = LeveledGSSSummary {
            top_values_count: tops.len(),
            upperbranch_nodes: 0,
            interface_nodes: 0,
            lower_nodes: total,
            lower_general_nodes: total - linear,
            lower_segment_nodes: linear,
            total_unique_nodes: total,
            total_edges: edges,
            accumulator_instances: accs,
            max_depth: self.max_depth(),
        };
        proof {
            assert(tops@.no_duplicates() && (forall|x: T| #[trigger] tops@.contains(x) <==> is_top(self@, x))
                && r.top_values_count == tops@.len());
            assert(listing@.len() > 0 && (forall|k: Seq<T>| #[trigger] listed_lookup(listing@, listing@.len() - 1, k) == weight_at(self@, k)));
        }
        r
    }
}


/// One top shift `(source, target, replace)` of the stacks of `m`: the stacks
/// whose top is `source`, with `target` pushed above `source`, or pushed in
/// its place when `replace` holds.
pub open spec fn shifted<T, A>(m: Map<Seq<T>, Accumulated<A>>, s: (T, T, bool)) -> Map<Seq<T>, Accumulated<A>> {
    if s.2 {
        pushed(popped_top(m, s.0), s.1)
    } else {
        pushed(retained_top(m, s.0), s.1)
    }
}

/// One remapping `(from, to)` of the stacks of `m`: the stacks whose top is
/// `from`, with `to` pushed above it.
pub open spec fn remapped<T, A>(m: Map<Seq<T>, Accumulated<A>>, p: (T, T)) -> Map<Seq<T>, Accumulated<A>> {
    pushed(retained_top(m, p.0), p.1)
}

impl<T: PartialEq + Clone, A: Merge + Clone> LeveledGSS<T, A> {
    /// The distinct top values of the non-empty stacks, as a vector.
    pub fn peek_values(&self) -> (r: Vec<T>)
        requires
            leveled_values::<T, A>(),
        ensures
            r@.no_duplicates(),
            forall|x: T| #[trigger] r@.contains(x) <==> is_top(self@, x),
    {
        self.peek()
    }

    /// Call `f` with every distinct top value of the non-empty stacks.
    pub fn for_each_top_value<F: FnMut(T)>(&self, mut f: F)
        requires
            leveled_values::<T, A>(),
            forall|x: T| #[trigger] f.requires((x,)),
        ensures
            forall|x: T| #[trigger] is_top(self@, x) ==> call_ensures(f, (x,), ()),
    {
        let ghost f0 = f;
        let tops = self.peek();
        let mut i: usize = 0;
        while i < tops.len()
            invariant
                leveled_values::<T, A>(),
                i <= tops@.len(),
                f == f0,
                forall|x: T| #[trigger] f.requires((x,)),
                forall|j: int| 0 <= j < i ==> call_ensures(f, (#[trigger] tops@[j],), ()),
            decreases tops@.len() - i,
        {
            let x = clone_value(&tops[i]);
            f(x);
            i += 1;
        }
        proof {
            assert forall|x: T| #[trigger] is_top(self@, x) implies call_ensures(f, (x,), ()) by {
                assert(tops@.contains(x));
                let j = choose|j: int| 0 <= j < tops@.len() && tops@[j] == x;
                assert(call_ensures(f, (tops@[j],), ()));
            }
        }
    }

    /// Whether at most one stack is held.
    pub fn is_single_path(&self) -> (r: bool)
        requires
            leveled_values::<T, A>(),
        ensures
            self@.dom().finite(),
            r == (self@.dom().len() <= 1),
    {
        self.path_count_at_most(2) <= 1
    }

    /// The sole stack, bottom-to-top, with its accumulator, when exactly one
    /// stack is held.
    fn sole_stack(&self) -> (r: Option<(Vec<T>, A)>)
        requires
            leveled_values::<T, A>(),
        ensures
            self@.dom().finite(),
            r is Some <==> self@.dom().len() == 1,
            r matches Some(e) ==> self@ == map![e.0@ => Accumulated(e.1)],
    {
        match self.to_stacks(1) {
            Some(mut v) => {
                if v.len() != 1 {
                    return None;
                }
                let e = v.pop().unwrap();
                proof {
                    let k = e.0@;
                    assert(v@.len() == 0);
                    assert(self@.contains_key(k));
                    assert forall|k2: Seq<T>| #[trigger] self@.contains_key(k2) implies k2 == k by {
                        if k2 != k {
                            assert(self@.dom().remove(k).contains(k2));
                            assert(self@.dom().remove(k).len() == 0);
                            self@.dom().remove(k).lemma_len0_is_empty();
                        }
                    }
                    assert(self@ =~= map![k => Accumulated(e.1)]);
                }
                Some(e)
            },
            None => None,
        }
    }

    /// The sole stack, bottom-to-top, with its accumulator, when exactly one
    /// stack is held and its length is at most `max_depth`.
    pub fn try_single_stack_bounded(&self, max_depth: usize) -> (r: Option<(Vec<T>, A)>)
        requires
            leveled_values::<T, A>(),
        ensures
            self@.dom().finite(),
            r is Some <==> (self@.dom().len() == 1 && forall|k: Seq<T>| #[trigger] self@.contains_key(k) ==> k.len() <= max_depth),
            r matches Some(e) ==> self@ == map![e.0@ => Accumulated(e.1)],
    {
        match self.sole_stack() {
            Some(e) => {
                if e.0.len() > max_depth {
                    proof {
                        assert(self@.contains_key(e.0@));
                    }
                    return None;
                }
                Some(e)
            },
            None => None,
        }
    }

    /// Write the sole stack top-first into `out` and return its accumulator;
    /// `None`, with `out` left empty, unless exactly one stack is held.
    pub fn single_path_top_first_and_acc(&self, out: &mut Vec<T>) -> (r: Option<A>)
        requires
            leveled_values::<T, A>(),
        ensures
            self@.dom().finite(),
            r is Some <==> self@.dom().len() == 1,
            r matches Some(a) ==> self@ == map![final(out)@.reverse() => Accumulated(a)],
            r is None ==> final(out)@.len() == 0,
    {
        out.clear();
        match self.sole_stack() {
            Some(e) => {
                let top_first = crate::stack_visit::reversed(&e.0);
                let mut i: usize = 0;
                while i < top_first.len()
                    invariant
                        leveled_values::<T, A>(),
                        i <= top_first@.len(),
                        out@ == top_first@.subrange(0, i as int),
                    decreases top_first@.len() - i,
                {
                    out.push(clone_value(&top_first[i]));
                    i += 1;
                    proof {
                        assert(out@ =~= top_first@.subrange(0, i as int));
                    }
                }
                proof {
                    assert(out@ =~= top_first@);
                    crate::stack_visit::lemma_reverse_reverse(e.0@);
                }
                Some(e.1)
            },
            None => None,
        }
    }

    /// Call `f` with the accumulator of every stack.
    pub fn for_each_acc<F: FnMut(&A)>(&self, mut f: F)
        requires
            leveled_values::<T, A>(),
            forall|a: &A| #[trigger] f.requires((a,)),
        ensures
            forall|k: Seq<T>| #[trigger] self@.contains_key(k) ==> exists|a: &A| *a == self@[k].0 && call_ensures(f, (a,), ()),
    {
        proof {
            lemma_leveled_exact::<T, A>();
        }
        let ghost f0 = f;
        let ws = self.inner.weights();
        let mut i: usize = 0;
        while i < ws.len()
            invariant
                i <= ws@.len(),
                f == f0,
                forall|a: &A| #[trigger] f.requires((a,)),
                forall|j: int| 0 <= j < i ==> exists|a: &A| *a == (#[trigger] ws@[j]).0 && call_ensures(f, (a,), ()),
            decreases ws@.len() - i,
        {
            let a = &ws[i].0;
            f(a);
            proof {
                assert(*a == ws@[i as int].0 && call_ensures(f, (a,), ()));
            }
            i += 1;
        }
        proof {
            assert forall|k: Seq<T>| #[trigger] self@.contains_key(k) implies exists|a: &A| *a == self@[k].0 && call_ensures(f, (a,), ()) by {
                assert(self@.values().contains(self@[k]));
                assert(ws@.contains(self@[k]));
                let j = choose|j: int| 0 <= j < ws@.len() && ws@[j] == self@[k];
                assert(exists|a: &A| *a == (#[trigger] ws@[j]).0 && call_ensures(f, (a,), ()));
            }
        }
    }

    /// Whether `pred` holds of the accumulator of every stack; stops at the
    /// first accumulator for which it does not.
    pub fn all_accs_satisfy<P: Fn(&A) -> bool>(&self, pred: P) -> (r: bool)
        requires
            leveled_values::<T, A>(),
            forall|a: &A| #[trigger] pred.requires((a,)),
        ensures
            r ==> forall|k: Seq<T>| #[trigger] self@.contains_key(k) ==> exists|a: &A| *a == self@[k].0 && call_ensures(pred, (a,), true),
            !r ==> exists|k: Seq<T>, a: &A| #![trigger self@.contains_key(k), call_ensures(pred, (a,), false)] self@.contains_key(k) && *a == self@[k].0 && call_ensures(pred, (a,), false),
    {
        proof {
            lemma_leveled_exact::<T, A>();
        }
        let ws = self.inner.weights();
        let mut i: usize = 0;
        while i < ws.len()
            invariant
                i <= ws@.len(),
                forall|a: &A| #[trigger] pred.requires((a,)),
                forall|w: Accumulated<A>| #[trigger] ws@.contains(w) <==> self@.values().contains(w),
                forall|j: int| 0 <= j < i ==> exists|a: &A| *a == (#[trigger] ws@[j]).0 && call_ensures(pred, (a,), true),
            decreases ws@.len() - i,
        {
            let a = &ws[i].0;
            if !pred(a) {
                proof {
                    assert(ws@.contains(ws@[i as int]));
                    let k = choose|k: Seq<T>| self@.contains_key(k) && self@[k] == ws@[i as int];
                    assert(self@.contains_key(k) && *a == self@[k].0 && call_ensures(pred, (a,), false));
                }
                return false;
            }
            i += 1;
        }
        proof {
            assert forall|k: Seq<T>| #[trigger] self@.contains_key(k) implies exists|a: &A| *a == self@[k].0 && call_ensures(pred, (a,), true) by {
                assert(self@.values().contains(self@[k]));
                assert(ws@.contains(self@[k]));
                let j = choose|j: int| 0 <= j < ws@.len() && ws@[j] == self@[k];
                assert(exists|a: &A| *a == (#[trigger] ws@[j]).0 && call_ensures(pred, (a,), true));
            }
        }
        true
    }

    /// Call `f` with every distinct top value and the stacks below it: the
    /// stacks whose top is that value, with the value popped.
    pub fn for_each_decomposed<F: FnMut(T, Self)>(&self, mut f: F)
        requires
            leveled_values::<T, A>(),
            forall|x: T, g: Self| #[trigger] f.requires((x, g)),
        ensures
            forall|x: T| #[trigger] is_top(self@, x) ==> exists|g: Self| g@ == popped_top(self@, x) && call_ensures(f, (x, g), ()),
    {
        proof {
            lemma_leveled_exact::<T, A>();
        }
        let ghost f0 = f;
        let mut branches = self.inner.pop_branches();
        let ghost all = branches@;
        let mut i: usize = 0;
        let n = branches.len();
        while i < n
            invariant
                i <= n,
                n == all.len(),
                f == f0,
                forall|x: T, g: Self| #[trigger] f.requires((x, g)),
                forall|j: int| 0 <= j < all.len() ==> (#[trigger] all[j]).1@ == popped_top(self@, all[j].0),
                forall|j: int| n - i <= j < n ==> exists|g: Self| g@ == popped_top(self@, (#[trigger] all[j]).0) && call_ensures(f, (all[j].0, g), ()),
                branches@ == all.subrange(0, n - i),
            decreases n - i,
        {
            let (x, inner) = branches.pop().unwrap();
            let ghost j = n - 1 - i;
            proof {
                assert(all.subrange(0, n - i)[j] == all[j]);
            }
            let g = LeveledGSS { inner };
            let ghost gv = g;
            f(x, g);
            proof {
                assert(gv@ == popped_top(self@, all[j].0) && call_ensures(f, (all[j].0, gv), ()));
                assert(branches@ =~= all.subrange(0, n - (i + 1)));
            }
            i += 1;
            proof {
                assert forall|m: int| n - i <= m < n implies exists|g: Self| g@ == popped_top(self@, (#[trigger] all[m]).0) && call_ensures(f, (all[m].0, g), ()) by {
                    if m == j {
                        assert(gv@ == popped_top(self@, all[m].0) && call_ensures(f, (all[m].0, gv), ()));
                    }
                }
            }
        }
        proof {
            assert forall|x: T| #[trigger] is_top(self@, x) implies exists|g: Self| g@ == popped_top(self@, x) && call_ensures(f, (x, g), ()) by {
                let j = choose|j: int| 0 <= j < all.len() && (#[trigger] all[j]).0 == x;
                assert(exists|g: Self| g@ == popped_top(self@, (#[trigger] all[j]).0) && call_ensures(f, (all[j].0, g), ()));
            }
        }
    }

    /// Merge `base` with `value` pushed onto every stack of it into `self`.
    pub fn absorb_push_same_acc(self, value: T, base: &Self) -> (g: Self)
        requires
            leveled_values::<T, A>(),
        ensures
            g@ == merged(self@, pushed(base@, value)),
    {
        let pushed_base = base.push(value);
        self.merge(&pushed_base)
    }

    /// The merge, over the pairs `(from, to)` of `shifts`, of the stacks whose
    /// top is `from` with `to` pushed above it; no pair gives no stack.
    pub fn remap_top_values(&self, shifts: Vec<(T, T)>) -> (g: Self)
        requires
            leveled_values::<T, A>(),
        ensures
            g@ == merged_all(shifts@.map_values(|p: (T, T)| remapped(self@, p))),
    {
        let ghost views = shifts@.map_values(|p: (T, T)| remapped(self@, p));
        let mut g = Self::empty();
        let mut i: usize = 0;
        while i < shifts.len()
            invariant
                leveled_values::<T, A>(),
                views == shifts@.map_values(|p: (T, T)| remapped(self@, p)),
                i <= shifts@.len(),
                g@ == merged_all(views.take(i as int)),
            decreases shifts@.len() - i,
        {
            assert(views.take(i as int + 1).drop_last() =~= views.take(i as int));
            let from = clone_value(&shifts[i].0);
            let to = clone_value(&shifts[i].1);
            let branch = self.isolate(Some(from)).push(to);
            g = g.merge(&branch);
            i += 1;
        }
        assert(views.take(shifts@.len() as int) =~= views);
        g
    }

    /// The merge, over the shifts `(source, target, replace)`, of the stacks
    /// whose top is `source` with `target` pushed above it, or in its place
    /// when `replace` holds; no shift gives no stack.
    pub fn apply_top_pure_shifts(&self, shifts: Vec<(T, T, bool)>) -> (g: Self)
        requires
            leveled_values::<T, A>(),
        ensures
            g@ == merged_all(shifts@.map_values(|s: (T, T, bool)| shifted(self@, s))),
    {
        let ghost views = shifts@.map_values(|s: (T, T, bool)| shifted(self@, s));
        let mut g = Self::empty();
        let mut i: usize = 0;
        while i < shifts.len()
            invariant
                leveled_values::<T, A>(),
                views == shifts@.map_values(|s: (T, T, bool)| shifted(self@, s)),
                i <= shifts@.len(),
                g@ == merged_all(views.take(i as int)),
            decreases shifts@.len() - i,
        {
            assert(views.take(i as int + 1).drop_last() =~= views.take(i as int));
            let from = clone_value(&shifts[i].0);
            let to = clone_value(&shifts[i].1);
            let branch = if shifts[i].2 {
                self.pop_top_value(&from).push(to)
            } else {
                self.isolate(Some(from)).push(to)
            };
            g = g.merge(&branch);
            i += 1;
        }
        assert(views.take(shifts@.len() as int) =~= views);
        g
    }

    /// [`Self::apply_top_pure_shifts`] for exactly one shift; `None` for any
    /// other number of shifts.
    pub fn try_apply_selective_top_pure_shifts(&self, shifts: Vec<(T, T, bool)>) -> (r: Option<Self>)
        requires
            leveled_values::<T, A>(),
        ensures
            r is Some <==> shifts@.len() == 1,
            r matches Some(g) ==> g@ == shifted(self@, shifts@[0]),
    {
        if shifts.len() != 1 {
            return None;
        }
        let from = clone_value(&shifts[0].0);
        let to = clone_value(&shifts[0].1);
        if shifts[0].2 {
            Some(self.pop_top_value(&from).push(to))
        } else {
            Some(self.isolate(Some(from)).push(to))
        }
    }
}

/// Canonical keys for the stack languages of [`LeveledGSS`] values: one
/// interner gives two GSSes the same key exactly when they hold the same
/// stacks, whatever their accumulators and layout.
#[derive(Debug)]
pub struct GssSemanticKeyInterner<T> {
    languages: StackLanguageInterner<T>,
}

impl<T> GssSemanticKeyInterner<T> {
    /// The interner's tables are well-formed.
    pub closed spec fn wf(&self) -> bool {
        self.languages.wf()
    }

    /// `key` was returned by this interner.
    pub closed spec fn issued(&self, key: StackLanguageId) -> bool {
        self.languages.issued(key)
    }

    /// The set of stacks that `key` stands for.
    pub closed spec fn language(&self, key: StackLanguageId) -> Set<Seq<T>> {
        self.languages.language(key)
    }

    /// Construct an interner that has issued no key for a stack.
    pub fn new() -> (r: Self)
        ensures
            r.wf(),
            forall|key: StackLanguageId| #[trigger] r.issued(key) ==> r.language(key) == Set::<Seq<T>>::empty(),
    {
        GssSemanticKeyInterner { languages: StackLanguageInterner::new() }
    }

    /// Two keys of one interner are equal exactly when their languages are.
    pub proof fn law_keys_are_exact(&self, a: StackLanguageId, b: StackLanguageId)
        requires
            self.wf(),
            self.issued(a),
            self.issued(b),
        ensures
            (self.language(a) == self.language(b)) <==> (a == b),
    {
        self.languages.law_ids_are_exact(a, b);
    }
}

impl<T: PartialEq + Clone> GssSemanticKeyInterner<T> {
    /// The key of the set of stacks of `gss`, accumulators erased. Keys issued
    /// before keep their languages.
    pub fn key<A: Merge + Clone>(&mut self, gss: &LeveledGSS<T, A>) -> (key: StackLanguageId)
        requires
            old(self).wf(),
            leveled_values::<T, A>(),
        ensures
            final(self).wf(),
            final(self).issued(key),
            final(self).language(key) == gss@.dom(),
            forall|k: StackLanguageId| #[trigger] old(self).issued(k) ==> final(self).issued(k) && final(self).language(k) == old(self).language(k),
    {
        self.languages.intern(&gss.inner)
    }
}


/// Whether the two stacks hold the same values.
fn same_stack<T: PartialEq>(a: &Vec<T>, b: &Vec<T>) -> (r: bool)
    requires
        vstd::laws_eq::obeys_concrete_eq::<T>(),
    ensures
        r == (a@ == b@),
{
    if a.len() != b.len() {
        return false;
    }
    let mut i: usize = 0;
    while i < a.len()
        invariant
            vstd::laws_eq::obeys_concrete_eq::<T>(),
            a@.len() == b@.len(),
            i <= a@.len(),
            forall|j: int| 0 <= j < i ==> a@[j] == b@[j],
        decreases a@.len() - i,
    {
        if !symbols_equal(&a[i], &b[i]) {
            return false;
        }
        i += 1;
    }
    assert(a@ =~= b@);
    true
}

/// The two entries hold the same stack and the same accumulator.
pub open spec fn same_entry<T, A>(a: (Vec<T>, A), b: (Vec<T>, A)) -> bool {
    a.0@ == b.0@ && a.1 == b.1
}

/// Some entry of `l` holds the stack and the accumulator of `e`.
pub open spec fn lists_entry<T, A>(l: Seq<(Vec<T>, A)>, e: (Vec<T>, A)) -> bool {
    exists|q: int| 0 <= q < l.len() && #[trigger] same_entry(l[q], e)
}

/// Whether `e` is, with its accumulator, an entry of `l`.
fn has_entry<T: PartialEq, A: PartialEq>(l: &Vec<(Vec<T>, A)>, e: &(Vec<T>, A)) -> (r: bool)
    requires
        vstd::laws_eq::obeys_concrete_eq::<T>(),
        vstd::laws_eq::obeys_concrete_eq::<A>(),
    ensures
        r == lists_entry(l@, *e),
{
    let mut j: usize = 0;
    while j < l.len()
        invariant
            vstd::laws_eq::obeys_concrete_eq::<T>(),
            vstd::laws_eq::obeys_concrete_eq::<A>(),
            j <= l@.len(),
            forall|m: int| 0 <= m < j ==> !#[trigger] same_entry(l@[m], *e),
        decreases l@.len() - j,
    {
        if same_stack(&l[j].0, &e.0) && symbols_equal(&l[j].1, &e.1) {
            assert(same_entry(l@[j as int], *e));
            return true;
        }
        j += 1;
    }
    false
}

/// Whether every entry of `l1` is, with its accumulator, an entry of `l2`.
fn entries_within<T: PartialEq, A: PartialEq>(l1: &Vec<(Vec<T>, A)>, l2: &Vec<(Vec<T>, A)>) -> (r: bool)
    requires
        vstd::laws_eq::obeys_concrete_eq::<T>(),
        vstd::laws_eq::obeys_concrete_eq::<A>(),
    ensures
        r <==> forall|p: int| 0 <= p < l1@.len() ==> #[trigger] lists_entry(l2@, l1@[p]),
{
    let mut i: usize = 0;
    while i < l1.len()
        invariant
            vstd::laws_eq::obeys_concrete_eq::<T>(),
            vstd::laws_eq::obeys_concrete_eq::<A>(),
            i <= l1@.len(),
            forall|m: int| 0 <= m < i ==> #[trigger] lists_entry(l2@, l1@[m]),
        decreases l1@.len() - i,
    {
        if !has_entry(l2, &l1[i]) {
            return false;
        }
        i += 1;
    }
    true
}

impl<T: PartialEq + Clone, A: Merge + Clone + PartialEq> LeveledGSS<T, A> {
    /// Whether `self` and `other` hold the same stacks with the same
    /// accumulators, whatever their layout; `None` when either holds more than
    /// `max_stacks` stacks.
    pub fn semantically_eq(&self, other: &Self, max_stacks: usize) -> (r: Option<bool>)
        requires
            leveled_values::<T, A>(),
            vstd::laws_eq::obeys_concrete_eq::<A>(),
        ensures
            self@.dom().finite(),
            other@.dom().finite(),
            r is Some <==> (self@.dom().len() <= max_stacks && other@.dom().len() <= max_stacks),
            r matches Some(b) ==> b == (self@ == other@),
    {
        let _ = other.max_depth();
        let left = match self.to_stacks(max_stacks) {
            Some(v) => v,
            None => return None,
        };
        let right = match other.to_stacks(max_stacks) {
            Some(v) => v,
            None => return None,
        };
        let a = entries_within(&left, &right);
        let b = entries_within(&right, &left);
        proof {
            if a && b {
                assert forall|k: Seq<T>| #[trigger] self@.contains_key(k) implies other@.contains_key(k) && other@[k] == self@[k] by {
                    let i = choose|i: int| 0 <= i < left@.len() && left@[i].0@ == k;
                    assert(lists_entry(right@, left@[i]));
                    let j = choose|j: int| 0 <= j < right@.len() && #[trigger] same_entry(right@[j], left@[i]);
                    assert(other@.contains_key(right@[j].0@) && other@[right@[j].0@] == Accumulated(right@[j].1));
                    assert(self@.contains_key(left@[i].0@) && self@[left@[i].0@] == Accumulated(left@[i].1));
                }
                assert forall|k: Seq<T>| #[trigger] other@.contains_key(k) implies self@.contains_key(k) by {
                    let j = choose|j: int| 0 <= j < right@.len() && right@[j].0@ == k;
                    assert(lists_entry(left@, right@[j]));
                    let i = choose|i: int| 0 <= i < left@.len() && #[trigger] same_entry(left@[i], right@[j]);
                    assert(self@.contains_key(left@[i].0@));
                }
                assert(self@ =~= other@);
            }
            if self@ == other@ {
                assert forall|i: int| 0 <= i < left@.len() implies #[trigger] lists_entry(right@, left@[i]) by {
                    let k = left@[i].0@;
                    assert(self@.contains_key(k) && self@[k] == Accumulated(left@[i].1));
                    assert(other@.contains_key(k));
                    let j = choose|j: int| 0 <= j < right@.len() && right@[j].0@ == k;
                    assert(other@.contains_key(right@[j].0@) && other@[right@[j].0@] == Accumulated(right@[j].1));
                    assert(Accumulated(right@[j].1) == Accumulated(left@[i].1));
                    assert(same_entry(right@[j], left@[i]));
                }
                assert forall|i: int| 0 <= i < right@.len() implies #[trigger] lists_entry(left@, right@[i]) by {
                    let k = right@[i].0@;
                    assert(other@.contains_key(k) && other@[k] == Accumulated(right@[i].1));
                    assert(self@.contains_key(k));
                    let j = choose|j: int| 0 <= j < left@.len() && left@[j].0@ == k;
                    assert(self@.contains_key(left@[j].0@) && self@[left@[j].0@] == Accumulated(left@[j].1));
                    assert(Accumulated(left@[j].1) == Accumulated(right@[i].1));
                    assert(same_entry(left@[j], right@[i]));
                }
            }
        }
        Some(a && b)
    }
}


/// The stacks of `base` with each value sequence of `pushes` pushed on top,
/// merged; `base` itself when there is no sequence.
pub open spec fn pushed_branches<T, A: Merge>(base: Map<Seq<T>, Accumulated<A>>, pushes: Seq<Seq<T>>) -> Map<Seq<T>, Accumulated<A>> {
    if pushes.len() == 0 {
        base
    } else {
        merged_all(pushes.map_values(|p: Seq<T>| with_prefix(base, p)))
    }
}

/// The stacks of `base` with each value of `targets` pushed on top, merged;
/// `base` itself when there is no value.
pub open spec fn pushed_targets<T, A: Merge>(base: Map<Seq<T>, Accumulated<A>>, targets: Seq<T>) -> Map<Seq<T>, Accumulated<A>> {
    if targets.len() == 0 {
        base
    } else {
        merged_all(targets.map_values(|t: T| pushed(base, t)))
    }
}

/// A mutable view of the linear top of a [`LeveledGSS`]: the visible values,
/// bottom-to-top, over an unchanged hidden floor of stacks.
#[derive(Clone, Debug)]
pub struct VirtualStack<T, A> {
    prefix: LinearPrefix<T, Accumulated<A>>,
}

impl<T, A> VirtualStack<T, A> {
    /// The visible values, bottom-to-top.
    pub closed spec fn values(self) -> Seq<T> {
        self.prefix.prefix()
    }

    /// The stacks of the hidden floor, with their accumulators.
    pub closed spec fn floor(self) -> Map<Seq<T>, Accumulated<A>> {
        self.prefix.floor()
    }
}

impl<T: PartialEq + Clone, A: Merge + Clone> VirtualStack<T, A> {
    /// The top visible value; `None` when no value is visible.
    pub fn top(&self) -> (r: Option<&T>)
        ensures
            self.values().len() > 0 ==> r == Some(&self.values().last()),
            self.values().len() == 0 ==> r is None,
    {
        self.prefix.get(0)
    }

    /// The visible value that would be on top after popping `remaining` values.
    pub fn top_after_popping(&self, remaining: usize) -> (r: Option<&T>)
        ensures
            remaining < self.values().len() ==> r == Some(&self.values()[self.values().len() - 1 - remaining]),
            remaining >= self.values().len() ==> r is None,
    {
        self.prefix.get(remaining)
    }

    /// The visible value just below the top.
    pub fn parent_of_top(&self) -> (r: Option<T>)
        requires
            leveled_values::<T, A>(),
        ensures
            1 < self.values().len() ==> r == Some(self.values()[self.values().len() - 2]),
            1 >= self.values().len() ==> r is None,
    {
        match self.prefix.get(1) {
            Some(v) => Some(clone_value(v)),
            None => None,
        }
    }

    /// Pop `remaining` visible values and return how many could not be popped.
    pub fn pop(&mut self, remaining: usize) -> (rest: usize)
        ensures
            remaining <= old(self).values().len() ==> rest == 0 && final(self).values() == old(self).values().subrange(
                0,
                old(self).values().len() - remaining,
            ),
            remaining > old(self).values().len() ==> rest == remaining - old(self).values().len()
                && final(self).values() == Seq::<T>::empty(),
            final(self).floor() == old(self).floor(),
    {
        self.prefix.popn(remaining)
    }

    /// Push a value on top.
    pub fn push(&mut self, value: T)
        ensures
            final(self).values() == old(self).values().push(value),
            final(self).floor() == old(self).floor(),
    {
        self.prefix.push(value);
    }

    /// Replace the top visible value; `false`, changing nothing, when no value
    /// is visible.
    pub fn replace_top(&mut self, value: T) -> (r: bool)
        ensures
            r == (old(self).values().len() > 0),
            r ==> final(self).values() == old(self).values().drop_last().push(value),
            !r ==> final(self).values() == old(self).values(),
            final(self).floor() == old(self).floor(),
    {
        if self.prefix.is_empty() {
            return false;
        }
        self.prefix.popn(1);
        self.prefix.push(value);
        true
    }

    /// The number of visible values.
    pub fn len(&self) -> (n: usize)
        ensures
            n == self.values().len(),
    {
        self.prefix.len()
    }

    /// Whether no value is visible.
    pub fn is_empty(&self) -> (r: bool)
        ensures
            r == (self.values().len() == 0),
    {
        self.prefix.is_empty()
    }

    /// The top value of `self` when `self` shows exactly the values of `base`
    /// with that one value pushed.
    pub fn single_top_extension_of(&self, base: &Self) -> (r: Option<T>)
        requires
            leveled_values::<T, A>(),
        ensures
            r is Some <==> (self.values().len() == base.values().len() + 1 && self.values().drop_last() == base.values()),
            r matches Some(x) ==> x == self.values().last(),
    {
        let n = base.len();
        let len = self.len();
        if len == 0 || len - 1 != n {
            return None;
        }
        let mut depth: usize = 1;
        while depth <= n
            invariant
                leveled_values::<T, A>(),
                self.values().len() == n + 1,
                base.values().len() == n,
                n < usize::MAX,
                1 <= depth <= n + 1,
                forall|m: int| n - (depth - 1) <= m < n ==> self.values()[m] == #[trigger] base.values()[m],
            decreases n + 1 - depth,
        {
            let a = self.top_after_popping(depth).unwrap();
            let b = base.top_after_popping(depth - 1).unwrap();
            if !crate::values::symbols_equal(a, b) {
                proof {
                    assert(self.values().drop_last()[n - depth] != base.values()[n - depth]);
                }
                return None;
            }
            depth += 1;
        }
        proof {
            assert forall|j: int| 0 <= j < n implies self.values().drop_last()[j] == base.values()[j] by {
                assert(self.values()[j] == base.values()[j]);
            }
            assert(self.values().drop_last() =~= base.values());
        }
        match self.top() {
            Some(x) => Some(clone_value(x)),
            None => None,
        }
    }

    /// The GSS of the visible values over the floor.
    pub fn into_gss(self) -> (g: LeveledGSS<T, A>)
        requires
            leveled_values::<T, A>(),
        ensures
            g@ == with_prefix(self.floor(), self.values()),
    {
        proof {
            lemma_leveled_exact::<T, A>();
        }
        LeveledGSS { inner: self.prefix.into_gss() }
    }

    /// The GSS after popping `n` values: within the visible values, the
    /// remaining ones over the floor; beyond them, the floor with the rest
    /// popped from every stack that is long enough.
    pub fn into_gss_after_popping(self, n: usize) -> (g: LeveledGSS<T, A>)
        requires
            leveled_values::<T, A>(),
        ensures
            n <= self.values().len() ==> g@ == with_prefix(self.floor(), self.values().subrange(0, self.values().len() - n)),
            n > self.values().len() ==> forall|k: Seq<T>| #[trigger] is_opt_join_of(
                weight_at(g@, k),
                popped_weights(self.floor(), (n - self.values().len()) as nat, k),
            ),
    {
        proof {
            lemma_leveled_exact::<T, A>();
        }
        let mut me = self;
        let rest = me.pop(n);
        let g = me.into_gss();
        if rest == 0 {
            g
        } else {
            proof {
                lemma_with_prefix_empty_values(me.floor());
            }
            LeveledGSS { inner: g.inner.popn(rest) }
        }
    }

    /// Pop `n` values, then push each value sequence of `pushes` on what is
    /// left and merge the branches; `None` when the pop goes beyond the
    /// visible values or a sequence is empty.
    pub fn into_gss_after_popping_and_pushing_branches(self, n: usize, pushes: &[Vec<T>]) -> (r: Option<LeveledGSS<T, A>>)
        requires
            leveled_values::<T, A>(),
        ensures
            r is None <==> (n > self.values().len() || exists|i: int| 0 <= i < pushes@.len() && #[trigger] pushes@[i]@.len() == 0),
            r matches Some(g) ==> g@ == pushed_branches(
                with_prefix(self.floor(), self.values().subrange(0, self.values().len() - n)),
                pushes@.map_values(|v: Vec<T>| v@),
            ),
    {
        let mut me = self;
        if me.pop(n) != 0 {
            return None;
        }
        let base = me.into_gss();
        let ghost views = pushes@.map_values(|v: Vec<T>| v@);
        if pushes.len() == 0 {
            return Some(base);
        }
        let mut g = LeveledGSS::empty();
        let mut i: usize = 0;
        while i < pushes.len()
            invariant
                leveled_values::<T, A>(),
                views == pushes@.map_values(|v: Vec<T>| v@),
                i <= pushes@.len(),
                forall|j: int| 0 <= j < i ==> #[trigger] pushes@[j]@.len() > 0,
                g@ == merged_all(views.take(i as int).map_values(|p: Seq<T>| with_prefix(base@, p))),
            decreases pushes@.len() - i,
        {
            if pushes[i].len() == 0 {
                return None;
            }
            let mut branch = LeveledGSS { inner: base.inner.clone() };
            let mut j: usize = 0;
            proof {
                lemma_with_prefix_empty_values(base@);
                assert(pushes@[i as int]@.subrange(0, 0) =~= Seq::<T>::empty());
            }
            while j < pushes[i].len()
                invariant
                    leveled_values::<T, A>(),
                    i < pushes@.len(),
                    j <= pushes@[i as int]@.len(),
                    branch@ == with_prefix(base@, pushes@[i as int]@.subrange(0, j as int)),
                decreases pushes@[i as int]@.len() - j,
            {
                let x = clone_value(&pushes[i][j]);
                proof {
                    crate::linear_prefix::lemma_pushed_prefix(branch@, x);
                    crate::linear_prefix::lemma_with_prefix_twice(base@, pushes@[i as int]@.subrange(0, j as int), seq![x]);
                    assert(pushes@[i as int]@.subrange(0, j as int) + seq![x] =~= pushes@[i as int]@.subrange(0, j + 1));
                }
                branch = branch.push(x);
                j += 1;
            }
            proof {
                assert(pushes@[i as int]@.subrange(0, j as int) =~= pushes@[i as int]@);
                assert(views.take(i + 1).map_values(|p: Seq<T>| with_prefix(base@, p)).drop_last()
                    =~= views.take(i as int).map_values(|p: Seq<T>| with_prefix(base@, p)));
            }
            g = g.merge(&branch);
            i += 1;
        }
        proof {
            assert(views.take(pushes@.len() as int) =~= views);
            assert forall|k: int| !(0 <= k < pushes@.len() && #[trigger] pushes@[k]@.len() == 0) by {
                if 0 <= k < pushes@.len() {
                    assert(pushes@[k]@.len() > 0);
                }
            }
        }
        Some(g)
    }

    /// Pop `n` values, then push each value of `targets` on what is left and
    /// merge the branches; `None` when the pop goes beyond the visible values.
    pub fn into_gss_after_popping_and_pushing_single_branches(self, n: usize, targets: &[T]) -> (r: Option<LeveledGSS<T, A>>)
        requires
            leveled_values::<T, A>(),
        ensures
            r is None <==> n > self.values().len(),
            r matches Some(g) ==> g@ == pushed_targets(
                with_prefix(self.floor(), self.values().subrange(0, self.values().len() - n)),
                targets@,
            ),
    {
        let mut me = self;
        if me.pop(n) != 0 {
            return None;
        }
        let base = me.into_gss();
        if targets.len() == 0 {
            return Some(base);
        }
        let ghost views = targets@;
        let mut g = LeveledGSS::empty();
        let mut i: usize = 0;
        while i < targets.len()
            invariant
                leveled_values::<T, A>(),
                views == targets@,
                i <= targets@.len(),
                g@ == merged_all(views.take(i as int).map_values(|t: T| pushed(base@, t))),
            decreases targets@.len() - i,
        {
            proof {
                assert(views.take(i + 1).map_values(|t: T| pushed(base@, t)).drop_last()
                    =~= views.take(i as int).map_values(|t: T| pushed(base@, t)));
            }
            let branch = base.push(clone_value(&targets[i]));
            g = g.merge(&branch);
            i += 1;
        }
        proof {
            assert(views.take(targets@.len() as int) =~= views);
        }
        Some(g)
    }
}

/// `v` shows the longest common top of the stacks of `m`: its visible values
/// are not empty and lie over a floor whose stacks share no top.
pub open spec fn views_linear_top<T, A>(v: VirtualStack<T, A>, m: Map<Seq<T>, Accumulated<A>>) -> bool {
    &&& with_prefix(v.floor(), v.values()) == m
    &&& v.values().len() > 0
    &&& !exists|x: T| #[trigger] is_sole_top(v.floor(), x)
}

/// The effects take the route over the virtual stack `v`: its floor is
/// only the empty stack, or every effect pops no more than its visible values.
pub open spec fn virtual_route<T, A>(v: VirtualStack<T, A>, effects: Seq<(usize, Vec<T>)>) -> bool {
    v.floor().dom() == set![Seq::<T>::empty()] || forall|i: int| 0 <= i < effects.len() ==> (#[trigger] effects[i]).0
        <= v.values().len()
}

/// Two views of the linear top of the same non-empty stacks agree.
pub proof fn lemma_same_linear_top<T, A>(v: VirtualStack<T, A>, w: VirtualStack<T, A>, m: Map<Seq<T>, Accumulated<A>>)
    requires
        views_linear_top(v, m),
        views_linear_top(w, m),
        exists|k: Seq<T>| #[trigger] m.contains_key(k),
    ensures
        v.values() == w.values(),
        v.floor() == w.floor(),
{
    crate::linear_prefix::lemma_linear_top_unique(v.floor(), v.values(), w.floor(), w.values());
}

/// Adding no visible value changes nothing.
proof fn lemma_with_prefix_empty_values<T, A>(m: Map<Seq<T>, Accumulated<A>>)
    ensures
        with_prefix(m, Seq::<T>::empty()) == m,
{
    crate::linear_prefix::lemma_with_prefix_empty(m);
}

impl<T: PartialEq + Clone, A: Merge + Clone + PartialEq> LeveledGSS<T, A> {
    /// View the linear top of the GSS as a virtual stack: offered exactly
    /// when every stack carries one accumulator and all stacks share a top.
    pub fn try_virtual_stack(&self) -> (r: Option<VirtualStack<T, A>>)
        requires
            leveled_values::<T, A>(),
            vstd::laws_eq::obeys_concrete_eq::<A>(),
        ensures
            r is Some <==> (exists|x: T| #[trigger] is_sole_top(self@, x)) && one_weight(self@),
            r matches Some(v) ==> {
                &&& v.values().len() > 0
                &&& with_prefix(v.floor(), v.values()) == self@
                &&& !exists|x: T| #[trigger] is_sole_top(v.floor(), x)
            },
    {
        proof {
            lemma_leveled_exact::<T, A>();
            lemma_accumulated_concrete_eq::<A>();
        }
        match linear_prefix(&self.inner) {
            Some(prefix) => Some(VirtualStack { prefix }),
            None => None,
        }
    }

    /// Pop `pop` values from the linear top, push each value sequence of
    /// `pushes` and merge the branches. `None` when there is no virtual
    /// stack, when the pop goes beyond its visible values, or when a sequence
    /// is empty.
    pub fn apply_shared_pop_push_branches(&self, pop: usize, pushes: &[Vec<T>]) -> (r: Option<Self>)
        requires
            leveled_values::<T, A>(),
            vstd::laws_eq::obeys_concrete_eq::<A>(),
        ensures
            r is Some <==> {
                &&& exists|x: T| #[trigger] is_sole_top(self@, x)
                &&& one_weight(self@)
                &&& exists|v: VirtualStack<T, A>| #[trigger] views_linear_top(v, self@) && pop <= v.values().len()
                &&& forall|i: int| 0 <= i < pushes@.len() ==> #[trigger] pushes@[i]@.len() > 0
            },
            r matches Some(g) ==> exists|v: VirtualStack<T, A>| #[trigger] views_linear_top(v, self@) && g@ == pushed_branches(
                with_prefix(v.floor(), v.values().subrange(0, v.values().len() - pop)),
                pushes@.map_values(|p: Vec<T>| p@),
            ),
    {
        match self.try_virtual_stack() {
            Some(v) => {
                let ghost vv = v;
                let r = v.into_gss_after_popping_and_pushing_branches(pop, pushes);
                proof {
                    assert(views_linear_top(vv, self@));
                    if exists|w: VirtualStack<T, A>| #[trigger] views_linear_top(w, self@) && pop <= w.values().len() {
                        let w = choose|w: VirtualStack<T, A>| #[trigger] views_linear_top(w, self@) && pop <= w.values().len();
                        lemma_same_linear_top(vv, w, self@);
                    }
                }
                r
            },
            None => None,
        }
    }

    /// Pop `pop` values from the linear top, push each value of `targets` and
    /// merge the branches. `None` when there is no virtual stack or the pop
    /// goes beyond its visible values.
    pub fn apply_shared_pop_push_single_branches(&self, pop: usize, targets: &[T]) -> (r: Option<Self>)
        requires
            leveled_values::<T, A>(),
            vstd::laws_eq::obeys_concrete_eq::<A>(),
        ensures
            r is Some <==> {
                &&& exists|x: T| #[trigger] is_sole_top(self@, x)
                &&& one_weight(self@)
                &&& exists|v: VirtualStack<T, A>| #[trigger] views_linear_top(v, self@) && pop <= v.values().len()
            },
            r matches Some(g) ==> exists|v: VirtualStack<T, A>| #[trigger] views_linear_top(v, self@) && g@ == pushed_targets(
                with_prefix(v.floor(), v.values().subrange(0, v.values().len() - pop)),
                targets@,
            ),
    {
        match self.try_virtual_stack() {
            Some(v) => {
                let ghost vv = v;
                let r = v.into_gss_after_popping_and_pushing_single_branches(pop, targets);
                proof {
                    assert(views_linear_top(vv, self@));
                    if exists|w: VirtualStack<T, A>| #[trigger] views_linear_top(w, self@) && pop <= w.values().len() {
                        let w = choose|w: VirtualStack<T, A>| #[trigger] views_linear_top(w, self@) && pop <= w.values().len();
                        lemma_same_linear_top(vv, w, self@);
                    }
                }
                r
            },
            None => None,
        }
    }
}


/// Some stack of `m` carries the accumulator `a`.
pub open spec fn carries<T, A>(m: Map<Seq<T>, Accumulated<A>>, a: A) -> bool {
    exists|k: Seq<T>| #[trigger] m.contains_key(k) && m[k].0 == a
}

impl<T: PartialEq + Clone, A: Merge + Clone + PartialEq> LeveledGSS<T, A> {
    /// Split the GSS by accumulator: for each distinct accumulator, the stacks
    /// that carry it, with the accumulator erased, paired with it.
    pub fn partition_by_accumulator(&self) -> (r: Vec<(LeveledGSS<T, ()>, A)>)
        requires
            leveled_values::<T, A>(),
            vstd::laws_eq::obeys_concrete_eq::<A>(),
        ensures
            forall|i: int, j: int| 0 <= i < j < r@.len() ==> (#[trigger] r@[i]).1 != (#[trigger] r@[j]).1,
            forall|k: Seq<T>| #[trigger] self@.contains_key(k) ==> exists|i: int| 0 <= i < r@.len() && (#[trigger] r@[i]).1 == self@[k].0,
            forall|i: int| 0 <= i < r@.len() ==> #[trigger] carries(self@, r@[i].1),
            forall|i: int, k: Seq<T>| 0 <= i < r@.len() ==> ((#[trigger] r@[i]).0@.contains_key(k) <==> (#[trigger] self@.contains_key(k) && self@[k].0 == r@[i].1)),
            forall|i: int, k: Seq<T>| 0 <= i < r@.len() && #[trigger] r@[i].0@.contains_key(k) ==> r@[i].0@[k] == Accumulated(()),
    {
        proof {
            lemma_leveled_exact::<T, A>();
        }
        let ws = self.inner.weights();
        let mut distinct: Vec<A> = Vec::new();
        let mut i: usize = 0;
        while i < ws.len()
            invariant
                leveled_values::<T, A>(),
                vstd::laws_eq::obeys_concrete_eq::<A>(),
                i <= ws@.len(),
                forall|w: Accumulated<A>| #[trigger] ws@.contains(w) <==> self@.values().contains(w),
                forall|p: int, q: int| 0 <= p < q < distinct@.len() ==> distinct@[p] != distinct@[q],
                forall|p: int| 0 <= p < distinct@.len() ==> #[trigger] self@.values().contains(Accumulated(distinct@[p])),
                forall|j: int| 0 <= j < i ==> distinct@.contains(#[trigger] ws@[j].0),
            decreases ws@.len() - i,
        {
            let a = &ws[i].0;
            let mut j: usize = 0;
            let mut seen = false;
            while j < distinct.len() && !seen
                invariant
                    vstd::laws_eq::obeys_concrete_eq::<A>(),
                    j <= distinct@.len(),
                    seen ==> distinct@.contains(*a),
                    !seen ==> forall|p: int| 0 <= p < j ==> distinct@[p] != *a,
                decreases distinct@.len() - j,
            {
                if symbols_equal(&distinct[j], a) {
                    seen = true;
                }
                j += 1;
            }
            proof {
                assert(ws@.contains(ws@[i as int]));
            }
            let ghost old_d = distinct@;
            if !seen {
                distinct.push(clone_value(a));
                proof {
                    assert(distinct@.last() == *a);
                    assert forall|p: int, q: int| 0 <= p < q < distinct@.len() implies distinct@[p] != distinct@[q] by {
                        if q == distinct@.len() - 1 {
                            assert(old_d[p] != *a);
                        } else {
                            assert(old_d[p] != old_d[q]);
                        }
                    }
                    assert forall|p: int| 0 <= p < distinct@.len() implies #[trigger] self@.values().contains(Accumulated(distinct@[p])) by {
                        if p == distinct@.len() - 1 {
                            assert(Accumulated(distinct@[p]) == ws@[i as int]);
                        } else {
                            assert(self@.values().contains(Accumulated(old_d[p])));
                        }
                    }
                }
            }
            proof {
                assert forall|m: int| 0 <= m < i + 1 implies distinct@.contains(#[trigger] ws@[m].0) by {
                    if m == i {
                        assert(distinct@.contains(*a));
                    } else {
                        assert(old_d.contains(ws@[m].0));
                        let p = choose|p: int| 0 <= p < old_d.len() && old_d[p] == ws@[m].0;
                        assert(distinct@[p] == old_d[p]);
                    }
                }
            }
            i += 1;
        }
        let mut r: Vec<(LeveledGSS<T, ()>, A)> = Vec::new();
        let mut d: usize = 0;
        while d < distinct.len()
            invariant
                leveled_values::<T, A>(),
                vstd::laws_eq::obeys_concrete_eq::<A>(),
                d <= distinct@.len(),
                r@.len() == d,
                forall|j: int| 0 <= j < d ==> (#[trigger] r@[j]).1 == distinct@[j],
                forall|j: int, k: Seq<T>| 0 <= j < d ==> ((#[trigger] r@[j]).0@.contains_key(k) <==> (#[trigger] self@.contains_key(k) && self@[k].0 == r@[j].1)),
                forall|j: int, k: Seq<T>| 0 <= j < d && #[trigger] r@[j].0@.contains_key(k) ==> r@[j].0@[k] == Accumulated(()),
            decreases distinct@.len() - d,
        {
            let keep = clone_value(&distinct[d]);
            let target: &A = &distinct[d];
            let select = move |c: &A| -> (o: Option<()>)
                requires
                    vstd::laws_eq::obeys_concrete_eq::<A>(),
                ensures
                    o == (if *c == *target { Some(()) } else { None::<()> }),
            {
                if symbols_equal(c, target) {
                    Some(())
                } else {
                    None
                }
            };
            let part = self.apply_and_prune(select);
            proof {
                assert forall|k: Seq<T>| #[trigger] part@.contains_key(k) <==> (self@.contains_key(k) && self@[k].0 == keep) by {
                    if self@.contains_key(k) && !part@.contains_key(k) {
                        assert(select.ensures((&self@[k].0,), None::<()>));
                    }
                    if part@.contains_key(k) {
                        assert(select.ensures((&self@[k].0,), Some(part@[k].0)));
                    }
                }
                assert forall|k: Seq<T>| #[trigger] part@.contains_key(k) implies part@[k] == Accumulated(()) by {
                    let u: () = part@[k].0;
                    assert(part@[k] == Accumulated(u));
                }
            }
            r.push((part, keep));
            d += 1;
        }
        proof {
            assert forall|k: Seq<T>| #[trigger] self@.contains_key(k) implies exists|i: int| 0 <= i < r@.len() && (#[trigger] r@[i]).1 == self@[k].0 by {
                assert(self@.values().contains(self@[k]));
                assert(ws@.contains(self@[k]));
                let j = choose|j: int| 0 <= j < ws@.len() && ws@[j] == self@[k];
                assert(distinct@.contains(ws@[j].0));
                let p = choose|p: int| 0 <= p < distinct@.len() && distinct@[p] == ws@[j].0;
                assert(r@[p].1 == self@[k].0);
            }
            assert forall|i: int| 0 <= i < r@.len() implies #[trigger] carries(self@, r@[i].1) by {
                assert(self@.values().contains(Accumulated(distinct@[i])));
                let k = choose|k: Seq<T>| self@.contains_key(k) && self@[k] == Accumulated(distinct@[i]);
                assert(self@.contains_key(k) && self@[k].0 == r@[i].1);
            }
        }
        r
    }
}


/// The stacks of `m` whose length is at most `n`.
pub open spec fn truncated<T, A>(m: Map<Seq<T>, Accumulated<A>>, n: int) -> Map<Seq<T>, Accumulated<A>> {
    m.restrict(Set::new(|k: Seq<T>| k.len() <= n))
}

impl<T: PartialEq + Clone, A: Merge + Clone> LeveledGSS<T, A> {
    /// Keep only the stacks whose length is at most `max_len`; a negative
    /// bound keeps none.
    pub fn truncate(&self, max_len: isize) -> (g: Self)
        requires
            leveled_values::<T, A>(),
        ensures
            g@ == truncated(self@, max_len as int),
    {
        proof {
            lemma_leveled_exact::<T, A>();
        }
        if max_len < 0 {
            let g = Self::empty();
            assert(g@ =~= truncated(self@, max_len as int));
            return g;
        }
        let root = self.inner.root();
        let cut_root = crate::node::node_truncate(root, max_len as usize);
        let g = LeveledGSS { inner: WeightedGss::from_root(cut_root) };
        proof {
            assert(g@ =~= truncated(self@, max_len as int)) by {
                assert forall|k: Seq<T>| #[trigger] g@.contains_key(k) <==> truncated(self@, max_len as int).contains_key(k) by {
                    assert(crate::node::lookup(*cut_root, k) == crate::node::cut(crate::node::lookup(**root, k), k.len() as int, max_len as int));
                }
                assert forall|k: Seq<T>| #[trigger] g@.contains_key(k) implies g@[k] == truncated(self@, max_len as int)[k] by {
                    assert(crate::node::lookup(*cut_root, k) == crate::node::cut(crate::node::lookup(**root, k), k.len() as int, max_len as int));
                }
            }
        }
        g
    }
}


/// Guard `(depth, values)` holds of `stack`: the value `depth` places below
/// its top is one of `values`.
pub open spec fn guard_holds<T>(stack: Seq<T>, g: (usize, Vec<T>)) -> bool {
    g.0 < stack.len() && g.1@.contains(stack[stack.len() - 1 - g.0])
}

/// Effect `(guards, pop, pushes)` applies to `stack`: the stack is long
/// enough for the pop and every guard holds of it.
pub open spec fn effect_applies<T>(stack: Seq<T>, e: (Vec<(usize, Vec<T>)>, usize, Vec<T>)) -> bool {
    &&& e.1 <= stack.len()
    &&& forall|i: int| 0 <= i < e.0@.len() ==> #[trigger] guard_holds(stack, e.0@[i])
}

/// `stack` with `pop` values popped and then `pushes` pushed.
pub open spec fn effect_result<T>(stack: Seq<T>, pop: usize, pushes: Seq<T>) -> Seq<T> {
    stack.subrange(0, stack.len() - pop) + pushes
}

/// The stacks that the effects of `effects` that apply to `stack` make of it.
pub open spec fn effect_results<T>(stack: Seq<T>, effects: Seq<(Vec<(usize, Vec<T>)>, usize, Vec<T>)>) -> Set<Seq<T>> {
    Set::new(|k: Seq<T>| exists|i: int| 0 <= i < effects.len() && effect_applies(stack, #[trigger] effects[i])
        && effect_result(stack, effects[i].1, effects[i].2@) == k)
}

/// Whether `x` is one of `values`.
fn contains_value<T: PartialEq>(values: &Vec<T>, x: &T) -> (r: bool)
    requires
        vstd::laws_eq::obeys_concrete_eq::<T>(),
    ensures
        r == values@.contains(*x),
{
    let mut i: usize = 0;
    while i < values.len()
        invariant
            vstd::laws_eq::obeys_concrete_eq::<T>(),
            i <= values@.len(),
            forall|j: int| 0 <= j < i ==> values@[j] != *x,
        decreases values@.len() - i,
    {
        if symbols_equal(&values[i], x) {
            assert(values@[i as int] == *x);
            return true;
        }
        i += 1;
    }
    false
}

/// Whether every guard of `guards` holds of `stack`.
fn guards_hold<T: PartialEq>(stack: &Vec<T>, guards: &Vec<(usize, Vec<T>)>) -> (r: bool)
    requires
        vstd::laws_eq::obeys_concrete_eq::<T>(),
    ensures
        r == forall|i: int| 0 <= i < guards@.len() ==> #[trigger] guard_holds(stack@, guards@[i]),
{
    let mut i: usize = 0;
    while i < guards.len()
        invariant
            vstd::laws_eq::obeys_concrete_eq::<T>(),
            i <= guards@.len(),
            forall|j: int| 0 <= j < i ==> #[trigger] guard_holds(stack@, guards@[j]),
        decreases guards@.len() - i,
    {
        let depth = guards[i].0;
        if depth >= stack.len() {
            assert(!guard_holds(stack@, guards@[i as int]));
            return false;
        }
        if !contains_value(&guards[i].1, &stack[stack.len() - 1 - depth]) {
            assert(!guard_holds(stack@, guards@[i as int]));
            return false;
        }
        i += 1;
    }
    true
}

/// `stack` with `pop` values popped and then `pushes` pushed.
fn effect_stack<T: Clone>(stack: &Vec<T>, pop: usize, pushes: &Vec<T>) -> (r: Vec<T>)
    requires
        pop <= stack@.len(),
        clone_exact::<T>(),
    ensures
        r@ == effect_result(stack@, pop, pushes@),
{
    let keep = stack.len() - pop;
    let mut r: Vec<T> = Vec::new();
    let mut i: usize = 0;
    while i < keep
        invariant
            clone_exact::<T>(),
            keep <= stack@.len(),
            i <= keep,
            r@ == stack@.subrange(0, i as int),
        decreases keep - i,
    {
        r.push(clone_value(&stack[i]));
        i += 1;
        assert(r@ =~= stack@.subrange(0, i as int));
    }
    let mut j: usize = 0;
    while j < pushes.len()
        invariant
            clone_exact::<T>(),
            j <= pushes@.len(),
            r@ == stack@.subrange(0, keep as int) + pushes@.subrange(0, j as int),
        decreases pushes@.len() - j,
    {
        r.push(clone_value(&pushes[j]));
        j += 1;
        assert(r@ =~= stack@.subrange(0, keep as int) + pushes@.subrange(0, j as int));
    }
    assert(pushes@.subrange(0, pushes@.len() as int) =~= pushes@);
    r
}

impl<T: PartialEq + Clone, A: Merge + Clone> LeveledGSS<T, A> {
    /// Apply guarded pop-and-push effects `(guards, pop, pushes)` to the sole
    /// stack: each effect whose pop fits and whose guards all hold gives the
    /// stack with `pop` values popped and `pushes` pushed, with the sole
    /// stack's accumulator. `None` unless exactly one stack is held, of length
    /// at most `max_materialized_depth`.
    pub fn apply_guarded_stack_effects_to_single_concrete_path(
        &self,
        effects: &[(Vec<(usize, Vec<T>)>, usize, Vec<T>)],
        max_materialized_depth: usize,
    ) -> (r: Option<Self>)
        requires
            leveled_values::<T, A>(),
        ensures
            self@.dom().finite(),
            r is Some <==> (self@.dom().len() == 1 && forall|k: Seq<T>| #[trigger] self@.contains_key(k) ==> k.len() <= max_materialized_depth),
            r matches Some(g) ==> forall|s: Seq<T>| #[trigger] self@.contains_key(s) ==> g@.dom() == effect_results(s, effects@)
                && forall|k: Seq<T>| #[trigger] g@.contains_key(k) ==> g@[k] == self@[s],
    {
        let (stack, acc) = match self.try_single_stack_bounded(max_materialized_depth) {
            Some(e) => e,
            None => return None,
        };
        let ghost s0 = stack@;
        let mut entries: Vec<(Vec<T>, A)> = Vec::new();
        let ghost mut src: Seq<int> = Seq::empty();
        let mut i: usize = 0;
        while i < effects.len()
            invariant
                leveled_values::<T, A>(),
                s0 == stack@,
                i <= effects@.len(),
                src.len() == entries@.len(),
                forall|q: int| 0 <= q < entries@.len() ==> 0 <= #[trigger] src[q] < i && effect_applies(s0, effects@[src[q]])
                    && entries@[q].0@ == effect_result(s0, effects@[src[q]].1, effects@[src[q]].2@),
                forall|q: int| 0 <= q < entries@.len() ==> (#[trigger] entries@[q]).1 == acc,
                forall|j: int| 0 <= j < i && effect_applies(s0, #[trigger] effects@[j]) ==> exists|q: int| 0 <= q < entries@.len() && src[q] == j,
            decreases effects@.len() - i,
        {
            let pop = effects[i].1;
            if pop <= stack.len() && guards_hold(&stack, &effects[i].0) {
                let next = effect_stack(&stack, pop, &effects[i].2);
                let ghost old_src = src;
                entries.push((next, clone_value(&acc)));
                proof {
                    src = src.push(i as int);
                    assert(src[src.len() - 1] == i);
                    assert forall|j: int| 0 <= j < i + 1 && effect_applies(s0, #[trigger] effects@[j]) implies exists|q: int| 0 <= q < entries@.len() && src[q] == j by {
                        if j == i {
                            assert(src[src.len() - 1] == j);
                        } else {
                            let q = choose|q: int| 0 <= q < old_src.len() && old_src[q] == j;
                            assert(src[q] == j);
                        }
                    }
                }
            } else {
                proof {
                    assert(!effect_applies(s0, effects@[i as int]));
                }
            }
            i += 1;
        }
        let g = Self::from_stacks(entries.as_slice());
        proof {
            lemma_leveled_exact::<T, A>();
            let e = entries@;
            assert(self@.contains_key(s0));
            assert forall|k: Seq<T>| #[trigger] g@.dom().contains(k) <==> effect_results(s0, effects@).contains(k) by {
                if g@.contains_key(k) {
                    let q = choose|q: int| 0 <= q < e.len() && e[q].0@ == k;
                    assert(effect_applies(s0, effects@[src[q]]));
                }
                if effect_results(s0, effects@).contains(k) {
                    let j = choose|j: int| 0 <= j < effects@.len() && effect_applies(s0, #[trigger] effects@[j])
                        && effect_result(s0, effects@[j].1, effects@[j].2@) == k;
                    let q = choose|q: int| 0 <= q < e.len() && src[q] == j;
                    assert(e[q].0@ == k);
                }
            }
            assert(g@.dom() =~= effect_results(s0, effects@));
            assert forall|k: Seq<T>| #[trigger] g@.contains_key(k) implies g@[k] == Accumulated(acc) by {
                let q = choose|q: int| 0 <= q < e.len() && e[q].0@ == k;
                assert(entry_accs(e, k) =~= set![Accumulated(acc)]) by {
                    assert forall|w: Accumulated<A>| #[trigger] entry_accs(e, k).contains(w) <==> set![Accumulated(acc)].contains(w) by {
                        if entry_accs(e, k).contains(w) {
                            let p = choose|p: int| 0 <= p < e.len() && e[p].0@ == k && Accumulated(#[trigger] e[p].1) == w;
                            assert(src[p] == src[p]);
                            assert(e[p].1 == acc);
                        }
                        if w == Accumulated(acc) {
                            assert(src[q] == src[q]);
                            assert(e[q].1 == acc);
                            assert(Accumulated(e[q].1) == w);
                        }
                    }
                }
                crate::weight::lemma_join_of_single(Accumulated(acc));
                crate::weight::lemma_join_of_unique(g@[k], Accumulated(acc), set![Accumulated(acc)]);
            }
            assert forall|s: Seq<T>| #[trigger] self@.contains_key(s) implies s == s0 by {
                assert(self@ == map![s0 => Accumulated(acc)]);
            }
        }
        Some(g)
    }
}


/// The merge, over the effects `(pop, pushes)` of `effects` whose pop fits
/// within `values`, of `floor` under `values` with `pop` values popped and
/// `pushes` pushed.
pub open spec fn effects_over_floor<T, A: Merge>(
    floor: Map<Seq<T>, Accumulated<A>>,
    values: Seq<T>,
    effects: Seq<(usize, Vec<T>)>,
) -> Map<Seq<T>, Accumulated<A>>
    decreases effects.len(),
{
    if effects.len() == 0 {
        Map::empty()
    } else {
        let rest = effects_over_floor(floor, values, effects.drop_last());
        let e = effects.last();
        if e.0 <= values.len() {
            merged(rest, with_prefix(floor, effect_result(values, e.0, e.1@)))
        } else {
            rest
        }
    }
}

/// The stacks that the effects `(pop, pushes)` of `effects` whose pop fits
/// make of `stack`.
pub open spec fn plain_effect_results<T>(stack: Seq<T>, effects: Seq<(usize, Vec<T>)>) -> Set<Seq<T>> {
    Set::new(|k: Seq<T>| exists|i: int| 0 <= i < effects.len() && (#[trigger] effects[i]).0 <= stack.len()
        && effect_result(stack, effects[i].0, effects[i].1@) == k)
}

/// `values` pushed, bottom value first, onto every stack of `g`.
fn push_all<T: PartialEq + Clone, A: Merge + Clone>(g: &WeightedGss<T, Accumulated<A>>, values: &Vec<T>) -> (r: WeightedGss<T, Accumulated<A>>)
    requires
        exact_values::<T, Accumulated<A>>(),
    ensures
        r@ == with_prefix(g@, values@),
{
    let mut r = g.clone();
    let mut i: usize = 0;
    proof {
        crate::linear_prefix::lemma_with_prefix_empty(g@);
        assert(values@.subrange(0, 0) =~= Seq::<T>::empty());
    }
    while i < values.len()
        invariant
            exact_values::<T, Accumulated<A>>(),
            i <= values@.len(),
            r@ == with_prefix(g@, values@.subrange(0, i as int)),
        decreases values@.len() - i,
    {
        let x = clone_value(&values[i]);
        proof {
            crate::linear_prefix::lemma_pushed_prefix(r@, x);
            crate::linear_prefix::lemma_with_prefix_twice(g@, values@.subrange(0, i as int), seq![x]);
            assert(values@.subrange(0, i as int) + seq![x] =~= values@.subrange(0, i + 1));
        }
        r = r.push(x);
        i += 1;
    }
    assert(values@.subrange(0, values@.len() as int) =~= values@);
    r
}

impl<T: PartialEq + Clone, A: Merge + Clone + PartialEq> LeveledGSS<T, A> {
    /// Apply pop-and-push effects `(pop, pushes)`. When the GSS has a virtual
    /// stack whose floor is only the empty stack, or whose visible values
    /// cover every pop, the result is the merge, over the effects whose pop
    /// fits within the visible values, of the floor under the popped and
    /// pushed values. Otherwise the effects are applied, as by
    /// [`Self::apply_guarded_stack_effects_to_single_concrete_path`] without
    /// guards, to the sole stack, and the result is `None` unless exactly one
    /// stack of length at most `max_materialized_depth` is held.
    pub fn apply_stack_effects_to_single_concrete_path(&self, effects: &[(usize, Vec<T>)], max_materialized_depth: usize) -> (r: Option<Self>)
        requires
            leveled_values::<T, A>(),
            vstd::laws_eq::obeys_concrete_eq::<A>(),
        ensures
            self@.dom().finite(),
            r matches Some(g) ==> (exists|v: VirtualStack<T, A>| #![trigger v.values()]
                with_prefix(v.floor(), v.values()) == self@ && g@ == effects_over_floor(v.floor(), v.values(), effects@))
                || (forall|s: Seq<T>| #[trigger] self@.contains_key(s) ==> g@.dom() == plain_effect_results(s, effects@)
                    && forall|k: Seq<T>| #[trigger] g@.contains_key(k) ==> g@[k] == self@[s]),
            !((exists|x: T| #[trigger] is_sole_top(self@, x)) && one_weight(self@)) ==> (r is Some <==> (self@.dom().len() == 1
                && forall|k: Seq<T>| #[trigger] self@.contains_key(k) ==> k.len() <= max_materialized_depth)),
            forall|v: VirtualStack<T, A>|
                (#[trigger] views_linear_top(v, self@) && (exists|x: T| #[trigger] is_sole_top(self@, x)) && one_weight(self@)
                    && virtual_route(v, effects@)) ==> match r {
                    Some(g) => g@ == effects_over_floor(v.floor(), v.values(), effects@),
                    None => false,
                },
            ((exists|x: T| #[trigger] is_sole_top(self@, x)) && one_weight(self@)
                && forall|v: VirtualStack<T, A>| #[trigger] views_linear_top(v, self@) ==> !virtual_route(v, effects@)) ==> {
                &&& r is Some <==> (self@.dom().len() == 1 && forall|k: Seq<T>| #[trigger] self@.contains_key(k) ==> k.len()
                    <= max_materialized_depth)
                &&& r matches Some(g) ==> forall|s: Seq<T>| #[trigger] self@.contains_key(s) ==> g@.dom() == plain_effect_results(
                    s,
                    effects@,
                ) && forall|k: Seq<T>| #[trigger] g@.contains_key(k) ==> g@[k] == self@[s]
            },
    {
        proof {
            lemma_leveled_exact::<T, A>();
        }
        let _ = self.max_depth();
        let ghost mut seen: Option<VirtualStack<T, A>> = None;
        match self.try_virtual_stack() {
            Some(v) => {
                proof {
                    seen = Some(v);
                    assert(views_linear_top(v, self@));
                }
                let (values, floor) = v.prefix.parts();
                let mut fits = true;
                let mut j: usize = 0;
                while j < effects.len()
                    invariant
                        j <= effects@.len(),
                        fits == forall|q: int| 0 <= q < j ==> (#[trigger] effects@[q]).0 <= values@.len(),
                    decreases effects@.len() - j,
                {
                    if effects[j].0 > values.len() {
                        fits = false;
                    }
                    j += 1;
                }
                let floor_empty = v.prefix.floor_is_empty();
                proof {
                    assert(v.values() == values@ && v.floor() == floor@);
                    assert(virtual_route(v, effects@) == (fits || floor_empty));
                    assert forall|w: VirtualStack<T, A>| #[trigger] views_linear_top(w, self@) implies w.values() == v.values()
                        && w.floor() == v.floor() by {
                        lemma_same_linear_top(v, w, self@);
                    }
                }
                if fits || floor_empty {
                    let mut out = LeveledGSS::empty();
                    let mut i: usize = 0;
                    while i < effects.len()
                        invariant
                            leveled_values::<T, A>(),
                            exact_values::<T, Accumulated<A>>(),
                            i <= effects@.len(),
                            out@ == effects_over_floor(floor@, values@, effects@.take(i as int)),
                        decreases effects@.len() - i,
                    {
                        proof {
                            assert(effects@.take(i + 1).drop_last() =~= effects@.take(i as int));
                        }
                        let pop = effects[i].0;
                        if pop <= values.len() {
                            let stack = effect_stack(values, pop, &effects[i].1);
                            let branch = LeveledGSS { inner: push_all(floor, &stack) };
                            out = out.merge(&branch);
                        }
                        i += 1;
                    }
                    proof {
                        assert(effects@.take(effects@.len() as int) =~= effects@);
                        assert(v.values() == values@ && v.floor() == floor@);
                    }
                    return Some(out);
                }
            },
            None => {},
        }
        let mut guarded: Vec<(Vec<(usize, Vec<T>)>, usize, Vec<T>)> = Vec::new();
        let mut i: usize = 0;
        while i < effects.len()
            invariant
                leveled_values::<T, A>(),
                i <= effects@.len(),
                guarded@.len() == i,
                forall|j: int| 0 <= j < i ==> (#[trigger] guarded@[j]).0@.len() == 0 && guarded@[j].1 == effects@[j].0 && guarded@[j].2@ == effects@[j].1@,
            decreases effects@.len() - i,
        {
            guarded.push((Vec::new(), effects[i].0, clone_stack(&effects[i].1)));
            i += 1;
        }
        let r = self.apply_guarded_stack_effects_to_single_concrete_path(guarded.as_slice(), max_materialized_depth);
        proof {
            assert forall|s: Seq<T>| effect_results(s, guarded@) == plain_effect_results(s, effects@) by {
                assert forall|k: Seq<T>| #[trigger] effect_results(s, guarded@).contains(k) <==> plain_effect_results(s, effects@).contains(k) by {
                    if effect_results(s, guarded@).contains(k) {
                        let j = choose|j: int| 0 <= j < guarded@.len() && effect_applies(s, #[trigger] guarded@[j])
                            && effect_result(s, guarded@[j].1, guarded@[j].2@) == k;
                        assert(effects@[j].0 <= s.len());
                    }
                    if plain_effect_results(s, effects@).contains(k) {
                        let j = choose|j: int| 0 <= j < effects@.len() && (#[trigger] effects@[j]).0 <= s.len()
                            && effect_result(s, effects@[j].0, effects@[j].1@) == k;
                        assert(guarded@[j].0@.len() == 0);
                        assert(effect_applies(s, guarded@[j]));
                    }
                }
                assert(effect_results(s, guarded@) =~= plain_effect_results(s, effects@));
            }
            if let Some(v0) = seen {
                assert(!virtual_route(v0, effects@));
                assert forall|v: VirtualStack<T, A>| #[trigger] views_linear_top(v, self@)
                    && (exists|x: T| #[trigger] is_sole_top(self@, x)) implies !virtual_route(v, effects@) by {
                    lemma_same_linear_top(v0, v, self@);
                }
            }
        }
        r
    }
}


impl<T: PartialEq + Clone, A: Merge + Clone> LeveledGSS<T, A> {
    /// Whether the two GSSes share one representation; sharing implies that
    /// they hold the same stacks with the same accumulators.
    pub fn ptr_eq(&self, other: &Self) -> (r: bool)
        ensures
            r ==> self@ == other@,
    {
        crate::node::arc_ptr_eq(self.inner.root(), other.inner.root())
    }

    /// [`Self::remap_top_values`], consuming `self`.
    pub fn remap_top_values_owned(self, shifts: Vec<(T, T)>) -> (g: Self)
        requires
            leveled_values::<T, A>(),
        ensures
            g@ == merged_all(shifts@.map_values(|p: (T, T)| remapped(self@, p))),
    {
        self.remap_top_values(shifts)
    }

    /// Merge the stacks of a virtual stack (its visible values over its
    /// floor) into `self`.
    pub fn absorb_vstack_same_acc(self, stack: &VirtualStack<T, A>) -> (g: Self)
        requires
            leveled_values::<T, A>(),
        ensures
            g@ == merged(self@, with_prefix(stack.floor(), stack.values())),
    {
        proof {
            lemma_leveled_exact::<T, A>();
        }
        let (values, floor) = stack.prefix.parts();
        let other = LeveledGSS { inner: push_all(floor, values) };
        self.merge(&other)
    }

    /// [`Self::absorb_vstack_same_acc`], consuming the virtual stack.
    pub fn absorb_vstack_same_acc_owned(self, stack: VirtualStack<T, A>) -> (g: Self)
        requires
            leveled_values::<T, A>(),
        ensures
            g@ == merged(self@, with_prefix(stack.floor(), stack.values())),
    {
        let other = stack.into_gss();
        self.merge(&other)
    }

    /// The stacks below the top when at least two distinct tops share one
    /// representation of the stacks below them and the empty stack is not
    /// held; `None` when the representation does not show such sharing.
    pub fn pop1_common_interface_base(&self) -> (r: Option<Self>)
        requires
            leveled_values::<T, A>(),
        ensures
            r matches Some(g) ==> {
                &&& !self@.contains_key(Seq::<T>::empty())
                &&& forall|x: T| #[trigger] is_top(self@, x) ==> g@ == popped_top(self@, x)
            },
    {
        let root = self.inner.root();
        if root.empty.is_some() || root.children.len() < 2 {
            return None;
        }
        let first = &root.children[0].child;
        let mut i: usize = 1;
        while i < root.children.len()
            invariant
                1 <= i <= root.children@.len(),
                forall|j: int| 0 <= j < i ==> *#[trigger] root.children@[j].child == **first,
                *first == root.children@[0].child,
            decreases root.children@.len() - i,
        {
            if !crate::node::arc_ptr_eq(&root.children[i].child, first) {
                return None;
            }
            i += 1;
        }
        let g = LeveledGSS { inner: WeightedGss::from_root(first.clone()) };
        proof {
            let n = crate::node::arc_node(root);
            assert(self@ == crate::node::node_stacks(n));
            assert(!self@.contains_key(Seq::<T>::empty()));
            assert forall|x: T| #[trigger] is_top(self@, x) implies g@ == popped_top(self@, x) by {
                let k = choose|k: Seq<T>| self@.contains_key(k) && k.len() > 0 && k.last() == x;
                crate::node::lemma_lookup_nonempty(n, k);
                assert(crate::node::has_symbol(n.children@, x));
                let m = crate::node::symbol_index(n.children@, x);
                assert forall|t: Seq<T>| #[trigger] popped_top(self@, x).contains_key(t) <==> g@.contains_key(t) by {
                    crate::node::lemma_lookup_edge(n, m, t);
                    assert(*n.children@[m].child == **first);
                }
                assert forall|t: Seq<T>| #[trigger] g@.contains_key(t) implies popped_top(self@, x)[t] == g@[t] by {
                    crate::node::lemma_lookup_edge(n, m, t);
                    assert(*n.children@[m].child == **first);
                }
                assert(g@ =~= popped_top(self@, x));
            }
        }
        Some(g)
    }
}

} // verus!
