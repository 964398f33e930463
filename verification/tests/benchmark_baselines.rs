use std::collections::{BTreeMap, BTreeSet, HashMap, HashSet};
use weighted_gss::{Gss, Weight, WeightedGss};

#[derive(Clone, Copy, Debug, PartialEq, Eq, PartialOrd, Ord, Hash)]
struct Bits(u64);

type Entries = Vec<(Vec<u16>, Bits)>;

impl Weight for Bits {
    fn join(&self, other: &Self) -> Self {
        Self(self.0 | other.0)
    }
}

/// Explicit map from stacks to joined weights.
#[derive(Clone, Debug, Default)]
struct Explicit {
    stacks: HashMap<Vec<u16>, Bits>,
}

impl Explicit {
    fn from_entries(entries: impl IntoIterator<Item = (Vec<u16>, Bits)>) -> Self {
        let mut stacks: HashMap<Vec<u16>, Bits> = HashMap::new();
        for (stack, weight) in entries {
            stacks
                .entry(stack)
                .and_modify(|current| *current = current.join(&weight))
                .or_insert(weight);
        }
        Self { stacks }
    }

    fn merge(&self, other: &Self) -> Self {
        let mut stacks = self.stacks.clone();
        for (stack, weight) in &other.stacks {
            stacks
                .entry(stack.clone())
                .and_modify(|current| *current = current.join(weight))
                .or_insert(*weight);
        }
        Self { stacks }
    }

    fn push(&self, value: u16) -> Self {
        Self::from_entries(self.stacks.iter().map(|(stack, weight)| {
            let mut next = stack.clone();
            next.push(value);
            (next, *weight)
        }))
    }

    fn popn(&self, count: usize) -> Self {
        Self::from_entries(self.stacks.iter().filter_map(|(stack, weight)| {
            let next_len = stack.len().checked_sub(count)?;
            Some((stack[..next_len].to_vec(), *weight))
        }))
    }

    fn retain_top(&self, top: u16) -> Self {
        Self::from_entries(
            self.stacks
                .iter()
                .filter(|(stack, _)| stack.last() == Some(&top))
                .map(|(stack, weight)| (stack.clone(), *weight)),
        )
    }

    fn snapshot(&self) -> Entries {
        self.stacks.iter().map(|(stack, weight)| (stack.clone(), *weight)).collect()
    }
}

/// Stacks grouped by the weight they carry.
#[derive(Clone, Debug, Default)]
struct WeightPartitioned {
    by_weight: HashMap<Bits, HashSet<Vec<u16>>>,
}

impl WeightPartitioned {
    fn from_entries(entries: impl IntoIterator<Item = (Vec<u16>, Bits)>) -> Self {
        let mut out = Self::default();
        for (stack, weight) in entries {
            out.by_weight.entry(weight).or_default().insert(stack);
        }
        out
    }

    fn merge(&self, other: &Self) -> Self {
        let mut out = self.clone();
        for (weight, stacks) in &other.by_weight {
            out.by_weight.entry(*weight).or_default().extend(stacks.iter().cloned());
        }
        out
    }

    fn push(&self, value: u16) -> Self {
        Self {
            by_weight: self
                .by_weight
                .iter()
                .map(|(weight, stacks)| {
                    let transformed = stacks
                        .iter()
                        .map(|stack| {
                            let mut next = stack.clone();
                            next.push(value);
                            next
                        })
                        .collect();
                    (*weight, transformed)
                })
                .collect(),
        }
    }

    fn popn(&self, count: usize) -> Self {
        Self {
            by_weight: self
                .by_weight
                .iter()
                .filter_map(|(weight, stacks)| {
                    let transformed: HashSet<_> = stacks
                        .iter()
                        .filter_map(|stack| {
                            let next_len = stack.len().checked_sub(count)?;
                            Some(stack[..next_len].to_vec())
                        })
                        .collect();
                    if transformed.is_empty() { None } else { Some((*weight, transformed)) }
                })
                .collect(),
        }
    }

    fn retain_top(&self, top: u16) -> Self {
        Self {
            by_weight: self
                .by_weight
                .iter()
                .filter_map(|(weight, stacks)| {
                    let retained: HashSet<_> =
                        stacks.iter().filter(|stack| stack.last() == Some(&top)).cloned().collect();
                    if retained.is_empty() { None } else { Some((*weight, retained)) }
                })
                .collect(),
        }
    }

    fn materialize(&self) -> Entries {
        let mut out = HashMap::<Vec<u16>, Bits>::new();
        for (weight, stacks) in &self.by_weight {
            for stack in stacks {
                out.entry(stack.clone())
                    .and_modify(|current| *current = current.join(weight))
                    .or_insert(*weight);
            }
        }
        out.into_iter().collect()
    }
}

/// Explicit set of unweighted stacks.
#[derive(Clone, Debug, Default)]
struct ExplicitSet {
    stacks: HashSet<Vec<u16>>,
}

impl ExplicitSet {
    fn from_stacks(stacks: impl IntoIterator<Item = Vec<u16>>) -> Self {
        Self { stacks: stacks.into_iter().collect() }
    }

    fn merge(&self, other: &Self) -> Self {
        let mut stacks = self.stacks.clone();
        stacks.extend(other.stacks.iter().cloned());
        Self { stacks }
    }

    fn push(&self, value: u16) -> Self {
        Self::from_stacks(self.stacks.iter().map(|stack| {
            let mut next = stack.clone();
            next.push(value);
            next
        }))
    }

    fn popn(&self, count: usize) -> Self {
        Self::from_stacks(self.stacks.iter().filter_map(|stack| {
            let next_len = stack.len().checked_sub(count)?;
            Some(stack[..next_len].to_vec())
        }))
    }

    fn snapshot(&self) -> Vec<Vec<u16>> {
        self.stacks.iter().cloned().collect()
    }
}

fn linear_stack(depth: usize) -> Vec<u16> {
    (0..depth).map(|value| value as u16).collect()
}

fn homogeneous_stacks(count: usize, depth: usize) -> Vec<Vec<u16>> {
    assert!(depth > 0);
    let floor = linear_stack(depth - 1);
    (0..count)
        .map(|branch| {
            let mut stack = floor.clone();
            stack.push(10_000 + branch as u16);
            stack
        })
        .collect()
}

fn weighted_stacks(count: usize, depth: usize, distinct_weights: usize) -> Entries {
    assert!(distinct_weights > 0 && distinct_weights <= 63);
    homogeneous_stacks(count, depth)
        .into_iter()
        .enumerate()
        .map(|(index, stack)| (stack, Bits(1_u64 << (index % distinct_weights))))
        .collect()
}

fn weighted_gss(entries: &Entries) -> WeightedGss<u16, Bits> {
    WeightedGss::from_stacks(entries.clone())
}

fn canonical(entries: impl IntoIterator<Item = (Vec<u16>, Bits)>) -> BTreeMap<Vec<u16>, Bits> {
    entries.into_iter().collect()
}

#[test]
fn weighted_benchmark_baselines_have_the_same_extensional_result() {
    let left_entries = weighted_stacks(64, 16, 16);
    let mut right_entries = weighted_stacks(64, 16, 16);
    for (index, (stack, weight)) in right_entries.iter_mut().enumerate() {
        stack[0] = stack[0].wrapping_add((index % 3) as u16);
        weight.0 = weight.0.rotate_left(5);
    }

    let gss = weighted_gss(&left_entries)
        .merge(&weighted_gss(&right_entries))
        .push(40_000)
        .pop()
        .retain_top(&left_entries[17].0.last().copied().unwrap());
    let explicit = Explicit::from_entries(left_entries.clone())
        .merge(&Explicit::from_entries(right_entries.clone()))
        .push(40_000)
        .popn(1)
        .retain_top(left_entries[17].0.last().copied().unwrap());
    let partitioned = WeightPartitioned::from_entries(left_entries)
        .merge(&WeightPartitioned::from_entries(right_entries))
        .push(40_000)
        .popn(1)
        .retain_top(gss.top().unwrap());

    let expected = canonical(gss.to_stacks(1_000).unwrap());
    assert_eq!(canonical(explicit.snapshot()), expected);
    assert_eq!(canonical(partitioned.materialize()), expected);
}

#[test]
fn unweighted_benchmark_baseline_matches_gss() {
    let left = homogeneous_stacks(128, 24);
    let mut right = homogeneous_stacks(128, 24);
    for stack in &mut right {
        stack[0] = stack[0].wrapping_add(1);
    }

    let gss = Gss::from_stacks_with_weight(left.clone(), ())
        .merge(&Gss::from_stacks_with_weight(right.clone(), ()))
        .push(50_000)
        .pop();
    let explicit = ExplicitSet::from_stacks(left).merge(&ExplicitSet::from_stacks(right)).push(50_000).popn(1);

    let actual: BTreeSet<_> = gss.to_stacks(1_000).unwrap().into_iter().map(|(stack, ())| stack).collect();
    assert_eq!(explicit.snapshot().into_iter().collect::<BTreeSet<_>>(), actual);
}
