# weighted_gss

Persistent weighted graph-structured stacks, verified with Verus.

A `WeightedGss<S, W>` is a finite map from bottom-to-top stacks of symbols `S`
to weights `W`. Every operation returns a new value and shares structure with
its operands. When an operation makes two stacks coincide, their weights are
joined with `Weight::join`, which must be associative, commutative and
idempotent.

Each public function states what it returns in terms of the map view `gss@`:
`push`, `popn`, `pop`, `merge`, `retain_top`, `pop_top`, `retain_empty`,
`top`, `tops`, `joined_weight`, `to_stacks` and the constructors are specified
exactly, and `src/laws.rs` proves the algebraic laws that relate them (merge
is commutative, associative and idempotent; push distributes over merge;
`popn(a)` then `popn(b)` is `popn(a + b)`; and more).

## Layout

- `src/node.rs`: the shared trie that represents a GSS, with its
  well-formedness and the verified node operations.
- `src/gss.rs`: `WeightedGss`, its view and its public operations.
- `src/weight.rs`: the `Weight` trait and the join lattice used in contracts.
- `src/laws.rs`: the laws of the library, as proof functions.
- `src/leveled.rs`: `LeveledGSS<T, A>`, a GSS whose weights are path
  accumulators combined by the `Merge` trait, with its bounded visitors,
  top shifts, accumulator transforms, structural summary and
  `GssSemanticKeyInterner` (weight-free keys for its stack languages) and
  `VirtualStack` (a mutable view of its linear top).
- `src/linear_prefix.rs`: the mutable linear top-prefix view; it is offered
  only when every stack carries the same weight.
- `src/virtual_stack.rs`: the same view over a floor whose stacks keep their
  own weights, with batched pop-and-push effects.
- `src/language.rs`: exact, weight-free identifiers for stack languages.
- `src/stack_visit.rs`: bounded top-first enumeration of stacks.
- `src/structure.rs`: a node-by-node listing of the trie, for diagnostics.
- `src/stack_vecs/`: two small stack vectors and a double-ended iterator
  over their elements.
- `tests/`: executable tests.
- `app/`: the Python bindings (pyo3), outside verification.

The symbol and weight types must obey `exact_values::<S, W>()`: `==` on
symbols is structural, clones equal their source, and `join` obeys its laws.

## Representation

Both GSS types are represented by one canonical, hash-consing-free trie keyed
from the top of the stacks, with nodes shared through `Arc`. Every contract
speaks of the map from stacks to weights (or accumulators), so operations that
only normalise a layout (`LeveledGSS::fuse`) leave the value unchanged, and
layout-specific fast paths (`try_apply_selective_top_pure_shifts`) are stated
by what they compute. Lookup tables that a hashed map would serve (the
language interner's node table) are vectors searched linearly: their keys are
generic symbols and nodes whose `Hash` and `Eq` the verifier cannot read, so
the contracts are stated over the vectors' contents instead.

`LeveledGSS::try_virtual_stack` offers the linear top as a `VirtualStack`
exactly when every stack carries one accumulator and all stacks share a top;
the pop-and-push batches
built on it are stated over that view.

Not provided: `ptr_key`, which exposes an allocation address, and a
`PartialEq` on `LeveledGSS` (use `semantically_eq` or `ptr_eq`).
