use std::collections::BTreeMap;
use weighted_gss::{collect_stacks_top_first, for_each_stack_top_first, linear_prefix, StackLanguageInterner, Weight, WeightedGss};

#[derive(Clone, Copy, Debug, PartialEq, Eq)]
struct Bits(u8);

impl Weight for Bits {
    fn join(&self, other: &Self) -> Self {
        Self(self.0 | other.0)
    }
}

#[test]
fn bounded_visit_coalesces_duplicate_concrete_stacks() {
    let left = WeightedGss::from_stack(vec![0_u8, 1], Bits(1));
    let right = WeightedGss::from_stack(vec![0_u8, 1], Bits(4));
    let gss = left.merge(&right);

    let mut visited = Vec::new();
    for_each_stack_top_first(&gss, 1, |stack, weight| {
        visited.push((stack.to_vec(), *weight));
    })
    .unwrap();

    assert_eq!(visited, vec![(vec![1, 0], Bits(5))]);
}

#[test]
fn bounded_visit_rejects_large_shared_language_without_expanding_it() {
    let mut gss = WeightedGss::from_stack(Vec::<u8>::new(), Bits(1));
    for level in 0..18_u8 {
        gss = gss.push(level * 2).merge(&gss.push(level * 2 + 1));
    }

    let error = for_each_stack_top_first(&gss, 32, |_, _| {}).unwrap_err();
    assert_eq!(error.limit, 32);
}

#[test]
fn linear_prefix_mutation_preserves_hidden_floor() {
    let floor = WeightedGss::from_stacks_with_weight(vec![vec![0_u8, 1], vec![9_u8, 1]], Bits(1));
    let gss = floor.push(7).push(8);
    let mut prefix = linear_prefix(&gss).expect("linear prefix");

    assert_eq!(prefix.len(), 3);
    assert_eq!(prefix.get(0), Some(&8));
    assert_eq!(prefix.get(2), Some(&1));
    assert!(!prefix.floor_is_empty());
    assert_eq!(prefix.popn(2), 0);
    prefix.push(6);

    let actual: BTreeMap<_, _> = prefix.into_gss().to_stacks(8).unwrap().into_iter().collect();
    let expected = BTreeMap::from([(vec![0, 1, 6], Bits(1)), (vec![9, 1, 6], Bits(1))]);
    assert_eq!(actual, expected);
}

#[test]
fn linear_prefix_reports_pops_beyond_the_prefix() {
    let gss = WeightedGss::from_stack(vec![3_u8, 4, 5], Bits(2));
    let mut prefix = linear_prefix(&gss).expect("one stack is linear");
    assert_eq!(prefix.len(), 3);
    assert!(prefix.floor_is_empty());
    assert_eq!(prefix.get(3), None);
    assert_eq!(prefix.popn(5), 2);
    assert!(prefix.is_empty());
    assert_eq!(prefix.into_gss().to_stacks(2).unwrap(), vec![(vec![], Bits(2))]);
}

#[test]
fn linear_prefix_is_absent_without_a_common_top() {
    let gss = WeightedGss::from_stack(vec![1_u8], Bits(1)).merge(&WeightedGss::from_stack(vec![2_u8], Bits(1)));
    assert!(linear_prefix(&gss).is_none());
    let with_empty = WeightedGss::from_stack(vec![1_u8], Bits(1)).merge(&WeightedGss::from_stack(vec![], Bits(1)));
    assert!(linear_prefix(&with_empty).is_none());
    assert!(linear_prefix(&WeightedGss::<u8, Bits>::new()).is_none());
}

#[test]
fn linear_prefix_round_trip_keeps_every_stack() {
    let gss = WeightedGss::from_stacks(vec![
        (vec![4_u8, 2, 7, 9], Bits(2)),
        (vec![5_u8, 7, 9], Bits(2)),
        (vec![7_u8, 9], Bits(2)),
    ]);
    let prefix = linear_prefix(&gss).expect("common top 7, 9");
    assert_eq!(prefix.len(), 2);
    assert_eq!(prefix.get(0), Some(&9));
    assert_eq!(prefix.get(1), Some(&7));
    let mut actual = prefix.into_gss().to_stacks(8).unwrap();
    actual.sort_by(|a, b| a.0.cmp(&b.0));
    let mut expected = gss.to_stacks(8).unwrap();
    expected.sort_by(|a, b| a.0.cmp(&b.0));
    assert_eq!(actual, expected);
}

#[test]
fn linear_prefix_needs_one_weight_for_every_stack() {
    let mixed = WeightedGss::from_stack(vec![0_u8, 7], Bits(1)).merge(&WeightedGss::from_stack(vec![1_u8, 7], Bits(2)));
    assert!(linear_prefix(&mixed).is_none());
    let same = WeightedGss::from_stack(vec![0_u8, 7], Bits(1)).merge(&WeightedGss::from_stack(vec![1_u8, 7], Bits(1)));
    let prefix = linear_prefix(&same).expect("one weight and a common top");
    assert_eq!(prefix.len(), 1);
    assert_eq!(prefix.get(0), Some(&7));
    let joined = WeightedGss::from_stack(vec![0_u8, 7], Bits(1)).merge(&WeightedGss::from_stack(vec![0_u8, 7], Bits(2)));
    assert!(linear_prefix(&joined).is_some());
}

#[test]
fn language_ids_ignore_weights_and_layout() {
    let left = WeightedGss::from_stacks(vec![(vec![0_u8, 1, 2], Bits(1)), (vec![0_u8, 1, 3], Bits(2))]);
    let right = WeightedGss::from_stack(vec![0_u8, 1, 3], Bits(8))
        .merge(&WeightedGss::from_stack(vec![0_u8, 1, 2], Bits(16)));
    let different = WeightedGss::from_stack(vec![0_u8, 1, 4], Bits(1));

    let mut interner = StackLanguageInterner::new();
    assert_eq!(interner.intern(&left), interner.intern(&right));
    assert_ne!(interner.intern(&left), interner.intern(&different));
}

#[test]
fn language_ids_separate_empty_stack_from_empty_language() {
    let mut interner = StackLanguageInterner::default();
    let nothing = interner.intern(&WeightedGss::<u8, Bits>::new());
    let empty_stack = interner.intern(&WeightedGss::from_stack(Vec::<u8>::new(), Bits(1)));
    let pushed_twice = interner.intern(&WeightedGss::from_stack(vec![1_u8], Bits(1)).push(2));
    let built_once = interner.intern(&WeightedGss::from_stack(vec![1_u8, 2], Bits(4)));
    assert_ne!(nothing, empty_stack);
    assert_eq!(pushed_twice, built_once);
    assert_eq!(nothing, interner.intern(&WeightedGss::from_stack(vec![3_u8], Bits(1)).retain_top(&4)));
}

#[test]
fn collected_stacks_are_top_first_and_complete() {
    let gss = WeightedGss::from_stacks(vec![(vec![1_u8, 2, 3], Bits(1)), (vec![], Bits(2)), (vec![1, 2, 3], Bits(4))]);
    let mut collected = collect_stacks_top_first(&gss, 2).unwrap();
    collected.sort_by(|a, b| a.0.cmp(&b.0));
    assert_eq!(collected, vec![(vec![], Bits(2)), (vec![3, 2, 1], Bits(5))]);
    assert_eq!(collect_stacks_top_first(&gss, 1).unwrap_err().limit, 1);
    let mut calls = 0;
    assert!(for_each_stack_top_first(&gss, 1, |_, _| calls += 1).is_err());
    assert_eq!(calls, 0);
}

#[test]
fn language_interner_handles_deep_segment_chains_without_recursion() {
    let mut gss = WeightedGss::from_stack(Vec::<u32>::new(), Bits(1));
    for symbol in 0..20_000_u32 {
        gss = gss.push(symbol);
    }

    let mut interner = StackLanguageInterner::new();
    let first = interner.intern(&gss);
    assert_eq!(first, interner.intern(&gss));

    // Dropping an artificially deep Arc chain is independently recursive.
    // This test isolates canonicalisation rather than that representation limit.
    std::mem::forget(gss);
    std::mem::forget(interner);
}

#[test]
fn virtual_stack_views_a_common_top_over_a_weighted_floor() {
    let gss = WeightedGss::from_stacks(vec![(vec![1_u8, 5, 6], Bits(1)), (vec![2_u8, 5, 6], Bits(2))]);
    let mut stack = weighted_gss::virtual_stack::VirtualStack::from_gss(&gss).expect("common top 5, 6");
    assert_eq!(stack.prefix_len(), 2);
    assert_eq!(stack.top(), Some(&6));
    assert_eq!(stack.get_from_top(1), Some(&5));
    assert_eq!(stack.get_from_top(2), None);
    assert!(!stack.is_complete());
    stack.push(7);
    assert!(stack.replace_top(8));
    assert_eq!(stack.pop_prefix(1), 0);
    assert_eq!(stack.pop_prefix(4), 2);
    assert!(!stack.replace_top(9));
    let mut floor = stack.into_gss().to_stacks(8).unwrap();
    floor.sort_by(|a, b| a.0.cmp(&b.0));
    assert_eq!(floor, vec![(vec![1], Bits(1)), (vec![2], Bits(2))]);

    let ops = vec![weighted_gss::StackEffect::new(1, vec![7_u8]), weighted_gss::StackEffect::new(3, vec![9_u8])];
    let mut out = weighted_gss::virtual_stack::VirtualStack::from_gss(&gss).unwrap().apply_ops(ops).to_stacks(8).unwrap();
    out.sort_by(|a, b| a.0.cmp(&b.0));
    assert_eq!(out, vec![(vec![1, 5, 7], Bits(1)), (vec![2, 5, 7], Bits(2)), (vec![9], Bits(3))]);

    let complete = weighted_gss::virtual_stack::VirtualStack::from_gss(&WeightedGss::from_stack(vec![4_u8], Bits(1))).unwrap();
    assert!(complete.is_complete());
    assert!(weighted_gss::virtual_stack::VirtualStack::from_gss(&WeightedGss::from_stack(Vec::<u8>::new(), Bits(1))).is_none());
}
