use std::collections::BTreeMap;
use std::hash::{Hash, Hasher};
use weighted_gss::{Weight, WeightedGss};

#[derive(Clone, Copy, Debug, Default, PartialEq, Eq, PartialOrd, Ord)]
struct Bits(u64);

impl Weight for Bits {
    fn join(&self, other: &Self) -> Self {
        Self(self.0 | other.0)
    }
}

#[derive(Clone, Copy, Debug, PartialEq, Eq, PartialOrd, Ord)]
struct BadHash(u8);

impl Hash for BadHash {
    fn hash<H: Hasher>(&self, state: &mut H) {
        0_u8.hash(state);
    }
}

#[test]
fn constant_hash_symbols_preserve_semantics() {
    let entries: Vec<(Vec<BadHash>, Bits)> = (0_u8..64)
        .map(|value| {
            (
                vec![BadHash(value % 4), BadHash(value / 4), BadHash(value % 7)],
                Bits(1_u64 << (value % 32)),
            )
        })
        .collect();
    let gss = WeightedGss::from_stacks(entries.clone())
        .pop()
        .push(BadHash(9))
        .merge(&WeightedGss::from_stack(
            vec![BadHash(1), BadHash(2), BadHash(9)],
            Bits(1 << 40),
        ));

    let mut model = BTreeMap::<Vec<BadHash>, Bits>::new();
    for (mut stack, weight) in entries {
        stack.pop();
        stack.push(BadHash(9));
        model
            .entry(stack)
            .and_modify(|current| *current = current.join(&weight))
            .or_insert(weight);
    }
    model
        .entry(vec![BadHash(1), BadHash(2), BadHash(9)])
        .and_modify(|current| *current = current.join(&Bits(1 << 40)))
        .or_insert(Bits(1 << 40));

    let actual: BTreeMap<_, _> = gss.to_stacks(1_000).unwrap().into_iter().collect();
    assert_eq!(actual, model);
}

#[derive(Clone, Copy, Debug, PartialEq, Eq)]
struct Minimum(u8);

impl Weight for Minimum {
    fn join(&self, other: &Self) -> Self {
        Self(self.0.min(other.0))
    }
}

#[derive(Clone, Copy, Debug, PartialEq, Eq)]
struct Maximum(u8);

impl Weight for Maximum {
    fn join(&self, other: &Self) -> Self {
        Self(self.0.max(other.0))
    }
}

#[test]
fn different_valid_join_algebras_collapse_correctly() {
    let min = WeightedGss::from_stacks(vec![
        (vec![0_u8, 1], Minimum(9)),
        (vec![0_u8, 2], Minimum(3)),
        (vec![0_u8, 3], Minimum(7)),
    ])
    .pop();
    assert_eq!(min.to_stacks(1).unwrap(), vec![(vec![0], Minimum(3))]);

    let max = WeightedGss::from_stacks(vec![
        (vec![0_u8, 1], Maximum(9)),
        (vec![0_u8, 2], Maximum(3)),
        (vec![0_u8, 3], Maximum(7)),
    ])
    .pop();
    assert_eq!(max.to_stacks(1).unwrap(), vec![(vec![0], Maximum(9))]);
}
