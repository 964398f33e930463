use std::collections::HashMap;

use weighted_gss::{GssSemanticKeyInterner, LeveledGSS, Merge, StackLanguageId};

#[derive(Clone, Debug, PartialEq, Eq, Hash)]
struct TestAcc(u32);

impl Merge for TestAcc {
    fn merge(&self, other: &Self) -> Self {
        Self(self.0.max(other.0))
    }
}

#[test]
fn semantic_equality_compares_stack_accumulator_sets() {
    let left = LeveledGSS::merge_many(vec![
        LeveledGSS::from_single_stack(vec![0_u32, 1, 7], TestAcc(1)),
        LeveledGSS::from_single_stack(vec![0_u32, 1, 9], TestAcc(2)),
    ]);
    let same = LeveledGSS::from_stacks(&[
        (vec![0_u32, 1, 9], TestAcc(2)),
        (vec![0_u32, 1, 7], TestAcc(1)),
    ]);
    let different_acc = LeveledGSS::from_stacks(&[
        (vec![0_u32, 1, 9], TestAcc(3)),
        (vec![0_u32, 1, 7], TestAcc(1)),
    ]);

    assert!(left
        .semantically_eq(&same, 4_096)
        .expect("semantic comparison exceeded explicit stack limit"));
    assert!(same
        .semantically_eq(&left, 4_096)
        .expect("semantic comparison exceeded explicit stack limit"));
    assert!(!left
        .semantically_eq(&different_acc, 4_096)
        .expect("semantic comparison exceeded explicit stack limit"));
}

#[test]
fn to_stacks_returns_none_instead_of_truncating() {
    let gss = LeveledGSS::from_stacks(&[
        (vec![0_u32, 1], TestAcc(1)),
        (vec![0_u32, 2], TestAcc(2)),
        (vec![0_u32, 3], TestAcc(3)),
    ]);

    assert!(gss.to_stacks(2).is_none());
    assert_eq!(gss.to_stacks(3).unwrap().len(), 3);
}

#[test]
fn semantic_key_ignores_segment_general_layout_and_accumulators() {
    let segment = LeveledGSS::from_single_stack(vec![0_u32, 1], TestAcc(1));

    let floor = LeveledGSS::from_single_stack(Vec::<u32>::new(), TestAcc(9));
    let one_segment = LeveledGSS::from_single_stack(vec![0_u32], TestAcc(9));
    let one_general = one_segment.absorb_push_same_acc(0, &floor);
    let segment_over_general = one_general.push(1);
    let two_generals = segment_over_general.absorb_push_same_acc(1, &one_general);

    let segment_stacks = segment
        .to_stacks(1)
        .expect("single Segment stack must fit the explicit limit");
    let general_stacks = two_generals
        .to_stacks(1)
        .expect("single General-chain stack must fit the explicit limit");
    assert_eq!(segment_stacks[0].0, general_stacks[0].0);

    let mut interner = GssSemanticKeyInterner::new();
    assert_eq!(interner.key(&segment), interner.key(&two_generals));

    let different = LeveledGSS::from_single_stack(vec![0_u32, 2], TestAcc(1));
    assert_ne!(interner.key(&segment), interner.key(&different));
}

#[test]
fn semantic_key_exactly_matches_small_stack_languages() {
    let universe = [
        Vec::<u32>::new(),
        vec![0],
        vec![1],
        vec![0, 0],
        vec![0, 1],
        vec![1, 0],
    ];
    let mut interner = GssSemanticKeyInterner::new();
    let mut language_by_key = HashMap::<StackLanguageId, u32>::new();

    for language_bits in 0_u32..(1 << universe.len()) {
        let stacks = universe
            .iter()
            .enumerate()
            .filter(|(index, _)| language_bits & (1 << index) != 0)
            .map(|(index, stack)| (stack.clone(), TestAcc(index as u32)))
            .collect::<Vec<_>>();
        let canonical = LeveledGSS::from_stacks(&stacks);
        let reversed_merge = LeveledGSS::merge_many(
            stacks
                .iter()
                .rev()
                .map(|(stack, acc)| LeveledGSS::from_single_stack(stack.clone(), acc.clone()))
                .collect(),
        );
        let different_accumulators = LeveledGSS::merge_many(
            stacks
                .iter()
                .map(|(stack, _)| LeveledGSS::from_single_stack(stack.clone(), TestAcc(100)))
                .collect(),
        );

        let key = interner.key(&canonical);
        assert_eq!(key, interner.key(&reversed_merge));
        assert_eq!(key, interner.key(&different_accumulators));
        assert_eq!(language_by_key.insert(key, language_bits), None);
    }
}

#[test]
fn bounded_top_first_stack_traversal_matches_to_stacks() {
    let gss = LeveledGSS::from_stacks(&[
        (vec![0_u32, 1, 7], TestAcc(1)),
        (vec![0_u32, 2, 8, 9], TestAcc(2)),
        (vec![0_u32, 2, 8, 10], TestAcc(2)),
    ]);
    let expected = gss
        .to_stacks(4_096)
        .expect("stack enumeration exceeded explicit limit");
    let mut actual = Vec::new();
    assert!(gss.for_each_stack_top_first_bounded(3, |top_first, acc| {
        let mut bottom_first = top_first.to_vec();
        bottom_first.reverse();
        actual.push((bottom_first, acc.clone()));
    }));
    assert_eq!(actual.len(), expected.len());
    for entry in &expected {
        assert!(actual.contains(entry));
    }
    for entry in &actual {
        assert!(expected.contains(entry));
    }

    let mut visited = 0usize;
    assert!(!gss.for_each_stack_top_first_bounded(2, |_, _| {
        visited += 1;
    }));
    assert_eq!(visited, 2);
}

#[test]
fn bounded_stack_length_traversal_matches_concrete_stacks() {
    let gss = LeveledGSS::from_stacks(&[
        (vec![0_u32, 1, 7], TestAcc(1)),
        (vec![0_u32, 2, 8, 9], TestAcc(2)),
        (vec![0_u32, 2, 8, 10], TestAcc(2)),
    ]);
    let mut expected = gss
        .to_stacks(4_096)
        .expect("stack enumeration exceeded explicit limit")
        .into_iter()
        .map(|(stack, acc)| (stack.len(), acc))
        .collect::<Vec<_>>();
    let mut actual = Vec::new();
    assert!(gss.for_each_stack_len_bounded(3, |len, acc| {
        actual.push((len, acc.clone()));
    }));
    expected.sort_unstable_by_key(|(len, acc)| (*len, acc.0));
    actual.sort_unstable_by_key(|(len, acc)| (*len, acc.0));
    assert_eq!(actual, expected);

    let mut visited = 0usize;
    assert!(!gss.for_each_stack_len_bounded(2, |_, _| {
        visited += 1;
    }));
    assert_eq!(visited, 2);
}

#[test]
fn isolate_top_value_preserves_branch_accumulator_correlation() {
    let gss = LeveledGSS::from_stacks(&[
        (vec![0_u32, 10, 20], TestAcc(1)),
        (vec![0_u32, 10, 21], TestAcc(2)),
    ]);

    assert_eq!(
        gss.isolate(Some(20))
            .to_stacks(4_096)
            .expect("stack enumeration exceeded explicit limit"),
        vec![(vec![0_u32, 10, 20], TestAcc(1))],
    );
    assert_eq!(
        gss.isolate(Some(21))
            .to_stacks(4_096)
            .expect("stack enumeration exceeded explicit limit"),
        vec![(vec![0_u32, 10, 21], TestAcc(2))],
    );
}

#[test]
fn branch_pure_shift_preserves_selected_accumulator_correlation() {
    let gss = LeveledGSS::from_stacks(&[
        (vec![0_u32, 10, 20], TestAcc(1)),
        (vec![0_u32, 10, 21], TestAcc(2)),
    ]);

    assert_eq!(
        gss.apply_top_pure_shifts(vec![(20_u32, 40_u32, false)])
            .to_stacks(4_096)
            .expect("stack enumeration exceeded explicit limit"),
        vec![(vec![0_u32, 10, 20, 40], TestAcc(1))],
    );
}

#[test]
fn merging_distinct_accumulator_branches_preserves_path_correlation() {
    let left = LeveledGSS::from_single_stack(vec![0_u32, 10, 20, 40], TestAcc(1));
    let right = LeveledGSS::from_single_stack(vec![0_u32, 46], TestAcc(2));
    let merged = left.merge(&right);
    let stacks = merged
        .to_stacks(4_096)
        .expect("stack enumeration exceeded explicit limit");

    assert_eq!(stacks.len(), 2, "stacks={stacks:#?}");
    assert!(stacks.contains(&(vec![0_u32, 10, 20, 40], TestAcc(1))));
    assert!(stacks.contains(&(vec![0_u32, 46], TestAcc(2))));
}

#[test]
fn absorb_push_preserves_different_interface_accumulator_correlation() {
    let shifted = LeveledGSS::from_single_stack(vec![0_u32, 46], TestAcc(2));
    let base = LeveledGSS::from_single_stack(vec![0_u32, 10, 20], TestAcc(1));
    let absorbed = shifted.absorb_push_same_acc(40, &base);
    let stacks = absorbed
        .to_stacks(4_096)
        .expect("stack enumeration exceeded explicit limit");

    assert_eq!(stacks.len(), 2, "stacks={stacks:#?}");
    assert!(stacks.contains(&(vec![0_u32, 10, 20, 40], TestAcc(1))));
    assert!(stacks.contains(&(vec![0_u32, 46], TestAcc(2))));
}

#[test]
fn absorb_push_preserves_push_when_receiver_is_branch() {
    let shifted = LeveledGSS::from_stacks(&[
        (vec![0_u32, 46], TestAcc(2)),
        (vec![0_u32, 47], TestAcc(3)),
    ]);
    let base = LeveledGSS::from_single_stack(vec![0_u32, 10, 20], TestAcc(1));
    let absorbed = shifted.absorb_push_same_acc(40, &base);
    let stacks = absorbed
        .to_stacks(4_096)
        .expect("stack enumeration exceeded explicit limit");

    assert_eq!(stacks.len(), 3, "stacks={stacks:#?}");
    assert!(stacks.contains(&(vec![0_u32, 10, 20, 40], TestAcc(1))));
    assert!(stacks.contains(&(vec![0_u32, 46], TestAcc(2))));
    assert!(stacks.contains(&(vec![0_u32, 47], TestAcc(3))));
}

#[test]
fn selective_top_pure_shift_extracts_one_shared_prefix_path() {
    let acc = TestAcc(7);
    let gss = LeveledGSS::from_stacks(&[
        (vec![0_u32, 1, 17, 47, 74, 131], acc.clone()),
        (vec![0_u32, 1, 17, 47, 74, 132], acc.clone()),
        (vec![0_u32, 1, 17, 47, 74, 133], acc.clone()),
    ]);

    let shifted = gss
        .try_apply_selective_top_pure_shifts(vec![(131_u32, 96_u32, false)])
        .unwrap();

    assert_eq!(
        shifted
            .to_stacks(4_096)
            .expect("stack enumeration exceeded explicit limit"),
        vec![(vec![0_u32, 1, 17, 47, 74, 131, 96], acc)]
    );
}

#[test]
fn generic_top_pure_shift_matches_selective_shared_prefix_shape() {
    let acc = TestAcc(7);
    let gss = LeveledGSS::from_stacks(&[
        (vec![0_u32, 1, 17, 47, 74, 131], acc.clone()),
        (vec![0_u32, 1, 17, 47, 74, 132], acc.clone()),
        (vec![0_u32, 1, 17, 47, 74, 133], acc.clone()),
    ]);

    let shifted = gss.apply_top_pure_shifts(vec![(131_u32, 96_u32, false)]);

    assert_eq!(
        shifted
            .to_stacks(4_096)
            .expect("stack enumeration exceeded explicit limit"),
        vec![(vec![0_u32, 1, 17, 47, 74, 131, 96], acc)]
    );
}

fn sorted_stacks(gss: &LeveledGSS<u32, TestAcc>) -> Vec<(Vec<u32>, u32)> {
    let mut v: Vec<(Vec<u32>, u32)> = gss
        .to_stacks(4_096)
        .unwrap()
        .into_iter()
        .map(|(stack, acc)| (stack, acc.0))
        .collect();
    v.sort();
    v
}

#[test]
fn replacing_shift_swaps_the_top_value() {
    let gss = LeveledGSS::from_stacks(&[(vec![1_u32, 2], TestAcc(1)), (vec![1_u32, 3], TestAcc(2)), (vec![], TestAcc(5))]);
    let shifted = gss.apply_top_pure_shifts(vec![(2, 9, true), (3, 4, false)]);
    assert_eq!(sorted_stacks(&shifted), vec![(vec![1, 3, 4], 2), (vec![1, 9], 1)]);
    assert!(gss.apply_top_pure_shifts(Vec::new()).is_empty());
    assert!(gss.try_apply_selective_top_pure_shifts(vec![(2, 9, true), (3, 4, false)]).is_none());
    assert!(gss.try_apply_selective_top_pure_shifts(Vec::new()).is_none());
}

#[test]
fn remap_merges_each_selected_top_with_its_target() {
    let gss = LeveledGSS::from_stacks(&[(vec![1_u32, 2], TestAcc(1)), (vec![1_u32, 3], TestAcc(2))]);
    let remapped = gss.remap_top_values(vec![(2, 7), (3, 7), (5, 8)]);
    assert_eq!(sorted_stacks(&remapped), vec![(vec![1, 2, 7], 1), (vec![1, 3, 7], 2)]);
    assert!(gss.remap_top_values(Vec::new()).is_empty());
}

#[test]
fn single_path_queries_see_exactly_one_stack() {
    let single = LeveledGSS::from_single_stack(vec![4_u32, 5, 6], TestAcc(3));
    assert!(single.is_single_path());
    assert_eq!(single.try_single_stack_bounded(3), Some((vec![4, 5, 6], TestAcc(3))));
    assert_eq!(single.try_single_stack_bounded(2), None);
    let mut out = vec![99_u32];
    assert_eq!(single.single_path_top_first_and_acc(&mut out), Some(TestAcc(3)));
    assert_eq!(out, vec![6, 5, 4]);

    let two = LeveledGSS::from_stacks(&[(vec![4_u32], TestAcc(1)), (vec![5_u32], TestAcc(1))]);
    assert!(!two.is_single_path());
    assert_eq!(two.try_single_stack_bounded(10), None);
    let mut out = vec![1_u32, 2];
    assert_eq!(two.single_path_top_first_and_acc(&mut out), None);
    assert!(out.is_empty());

    let none = LeveledGSS::<u32, TestAcc>::empty();
    assert!(none.is_single_path());
    assert_eq!(none.try_single_stack_bounded(10), None);
}

#[test]
fn visitors_see_every_top_accumulator_and_branch() {
    let gss = LeveledGSS::from_stacks(&[
        (vec![1_u32, 2], TestAcc(1)),
        (vec![3_u32, 2], TestAcc(2)),
        (vec![4_u32], TestAcc(3)),
        (vec![], TestAcc(4)),
    ]);

    let mut tops = gss.peek_values();
    tops.sort();
    assert_eq!(tops, vec![2, 4]);
    let mut seen_tops = Vec::new();
    gss.for_each_top_value(|top| seen_tops.push(top));
    seen_tops.sort();
    assert_eq!(seen_tops, vec![2, 4]);

    let mut accs = Vec::new();
    gss.for_each_acc(|acc| accs.push(acc.0));
    accs.sort();
    assert_eq!(accs, vec![1, 2, 3, 4]);
    assert!(gss.all_accs_satisfy(|acc| acc.0 >= 1));
    assert!(!gss.all_accs_satisfy(|acc| acc.0 != 3));

    let mut branches = Vec::new();
    gss.for_each_decomposed(|top, below| branches.push((top, sorted_stacks(&below))));
    branches.sort();
    assert_eq!(
        branches,
        vec![(2, vec![(vec![1], 1), (vec![3], 2)]), (4, vec![(vec![], 3)])]
    );
}

#[test]
fn semantic_comparison_reports_the_limit() {
    let gss = LeveledGSS::from_stacks(&[(vec![1_u32], TestAcc(1)), (vec![2_u32], TestAcc(1))]);
    let other = LeveledGSS::from_stacks(&[(vec![2_u32], TestAcc(1)), (vec![1_u32], TestAcc(1))]);
    assert_eq!(gss.semantically_eq(&other, 1), None);
    assert_eq!(gss.semantically_eq(&other, 2), Some(true));
    let fewer = LeveledGSS::from_single_stack(vec![1_u32], TestAcc(1));
    assert_eq!(gss.semantically_eq(&fewer, 2), Some(false));
}

#[test]
fn apply_shared_pop_push_branches_matches_virtual_stack_branch_builder() {
    let gss = LeveledGSS::from_single_stack(vec![10_u32, 20, 30, 40], TestAcc(1));
    let pushes = [vec![50_u32, 60], vec![70_u32, 80], vec![90_u32, 60]];

    let expected = gss
        .try_virtual_stack()
        .unwrap()
        .into_gss_after_popping_and_pushing_branches(2, &pushes)
        .unwrap();
    let actual = gss.apply_shared_pop_push_branches(2, &pushes).unwrap();

    assert_eq!(actual.semantically_eq(&expected, 4_096), Some(true));
    assert_eq!(
        actual
            .to_stacks(4_096)
            .expect("stack enumeration exceeded explicit limit"),
        expected
            .to_stacks(4_096)
            .expect("stack enumeration exceeded explicit limit")
    );
}

#[test]
fn apply_shared_pop_push_single_branches_deduplicates_targets() {
    let gss = LeveledGSS::from_single_stack(vec![10_u32, 20, 30, 40], TestAcc(1));
    let targets = [60_u32, 70, 60];

    let expected = LeveledGSS::from_stacks(&[
        (vec![10_u32, 20, 60], TestAcc(1)),
        (vec![10_u32, 20, 70], TestAcc(1)),
    ]);
    let actual = gss.apply_shared_pop_push_single_branches(2, &targets).unwrap();

    let actual_stacks = actual
        .to_stacks(4_096)
        .expect("stack enumeration exceeded explicit limit");
    let expected_stacks = expected
        .to_stacks(4_096)
        .expect("stack enumeration exceeded explicit limit");
    assert_eq!(actual_stacks.len(), expected_stacks.len());
    for expected_stack in expected_stacks {
        assert!(actual_stacks.contains(&expected_stack));
    }
}

#[test]
fn partition_by_accumulator_preserves_path_correlation() {
    #[derive(Clone, Debug, PartialEq, Eq, Hash)]
    struct Acc(u8);

    impl Merge for Acc {
        fn merge(&self, other: &Self) -> Self {
            Acc(self.0.max(other.0))
        }
    }

    let gss = LeveledGSS::from_stacks(&[(vec![1, 2], Acc(1)), (vec![1, 3], Acc(2)), (vec![4], Acc(1))]);
    let mut partitions = gss.partition_by_accumulator();
    partitions.sort_by_key(|(_, accumulator)| accumulator.0);

    let mut first = partitions
        .remove(0)
        .0
        .to_stacks(4_096)
        .expect("stack enumeration exceeded explicit limit");
    let mut second = partitions
        .remove(0)
        .0
        .to_stacks(4_096)
        .expect("stack enumeration exceeded explicit limit");
    first.sort();
    second.sort();
    assert_eq!(first, vec![(vec![1, 2], ()), (vec![4], ())]);
    assert_eq!(second, vec![(vec![1, 3], ())]);
}

#[test]
fn virtual_stack_edits_the_linear_top_over_its_floor() {
    let gss = LeveledGSS::from_stacks(&[(vec![1_u32, 5, 6], TestAcc(2)), (vec![2_u32, 5, 6], TestAcc(2))]);
    let mut stack = gss.try_virtual_stack().expect("one accumulator and a common top");
    assert_eq!(stack.len(), 2);
    assert_eq!(stack.top(), Some(&6));
    assert_eq!(stack.top_after_popping(1), Some(&5));
    assert_eq!(stack.top_after_popping(2), None);
    assert_eq!(stack.parent_of_top(), Some(5));
    let base = stack.clone();
    stack.push(7);
    assert_eq!(stack.single_top_extension_of(&base), Some(7));
    assert_eq!(base.single_top_extension_of(&stack), None);
    assert!(stack.replace_top(8));
    assert_eq!(stack.top(), Some(&8));
    assert_eq!(stack.pop(5), 2);
    assert!(stack.is_empty());
    assert!(!stack.replace_top(9));
    let floor = stack.into_gss();
    assert_eq!(sorted_stacks(&floor), vec![(vec![1], 2), (vec![2], 2)]);

    let popped = gss.try_virtual_stack().unwrap().into_gss_after_popping(3);
    assert_eq!(sorted_stacks(&popped), vec![(vec![], 2)]);
    let kept = gss.try_virtual_stack().unwrap().into_gss_after_popping(1);
    assert_eq!(sorted_stacks(&kept), vec![(vec![1, 5], 2), (vec![2, 5], 2)]);

    assert!(gss.try_virtual_stack().unwrap().into_gss_after_popping_and_pushing_branches(3, &[vec![1]]).is_none());
    assert!(gss.try_virtual_stack().unwrap().into_gss_after_popping_and_pushing_branches(1, &[vec![]]).is_none());
    assert!(gss.try_virtual_stack().unwrap().into_gss_after_popping_and_pushing_single_branches(3, &[1]).is_none());

    let mixed = LeveledGSS::from_stacks(&[(vec![1_u32, 6], TestAcc(1)), (vec![2_u32, 6], TestAcc(2))]);
    assert!(mixed.try_virtual_stack().is_none());
    assert!(mixed.apply_shared_pop_push_single_branches(1, &[3]).is_none());
}

#[test]
fn truncation_keeps_short_stacks() {
    let gss = LeveledGSS::from_stacks(&[(vec![], TestAcc(1)), (vec![1_u32], TestAcc(2)), (vec![1_u32, 2, 3], TestAcc(3))]);
    assert_eq!(sorted_stacks(&gss.truncate(1)), vec![(vec![], 1), (vec![1], 2)]);
    assert_eq!(sorted_stacks(&gss.truncate(3)), sorted_stacks(&gss));
    assert_eq!(sorted_stacks(&gss.truncate(0)), vec![(vec![], 1)]);
    assert!(gss.truncate(-1).is_empty());
}

#[test]
fn guarded_effects_apply_to_the_sole_stack() {
    let gss = LeveledGSS::from_single_stack(vec![1_u32, 2, 3], TestAcc(4));
    let effects = vec![
        (vec![(0_usize, vec![3_u32])], 1_usize, vec![9_u32]),
        (vec![(1_usize, vec![7_u32])], 0_usize, vec![8_u32]),
        (vec![(5_usize, vec![1_u32])], 0_usize, vec![8_u32]),
        (Vec::new(), 4_usize, vec![6_u32]),
        (Vec::new(), 3_usize, vec![]),
        (vec![(2_usize, vec![0_u32, 1])], 2_usize, vec![5_u32, 5]),
    ];
    let out = gss.apply_guarded_stack_effects_to_single_concrete_path(&effects, 3).unwrap();
    assert_eq!(sorted_stacks(&out), vec![(vec![], 4), (vec![1, 2, 9], 4), (vec![1, 5, 5], 4)]);
    assert!(gss.apply_guarded_stack_effects_to_single_concrete_path(&effects, 2).is_none());
    let two = LeveledGSS::from_stacks(&[(vec![1_u32], TestAcc(1)), (vec![2_u32], TestAcc(1))]);
    assert!(two.apply_guarded_stack_effects_to_single_concrete_path(&effects, 9).is_none());
}

#[test]
fn unguarded_effects_use_the_linear_top() {
    let gss = LeveledGSS::from_stacks(&[(vec![1_u32, 5, 6], TestAcc(2)), (vec![2_u32, 5, 6], TestAcc(2))]);
    let out = gss
        .apply_stack_effects_to_single_concrete_path(&[(1, vec![7]), (2, vec![])], 0)
        .unwrap();
    assert_eq!(sorted_stacks(&out), vec![(vec![1], 2), (vec![1, 5, 7], 2), (vec![2], 2), (vec![2, 5, 7], 2)]);
    assert!(gss.apply_stack_effects_to_single_concrete_path(&[(3, vec![7])], 9).is_none());

    let single = LeveledGSS::from_single_stack(vec![1_u32, 2], TestAcc(3));
    let out = single
        .apply_stack_effects_to_single_concrete_path(&[(3, vec![7]), (1, vec![4])], 0)
        .unwrap();
    assert_eq!(sorted_stacks(&out), vec![(vec![1, 4], 3)]);
}

#[test]
fn absorbing_and_sharing_queries() {
    let gss = LeveledGSS::from_stacks(&[(vec![1_u32, 5], TestAcc(2)), (vec![2_u32, 5], TestAcc(2))]);
    assert!(gss.ptr_eq(&gss));
    let stack = gss.try_virtual_stack().unwrap();
    let other = LeveledGSS::from_single_stack(vec![9_u32], TestAcc(1));
    let absorbed = other.absorb_vstack_same_acc(&stack);
    assert_eq!(sorted_stacks(&absorbed), vec![(vec![1, 5], 2), (vec![2, 5], 2), (vec![9], 1)]);
    let again = LeveledGSS::from_single_stack(vec![9_u32], TestAcc(1)).absorb_vstack_same_acc_owned(stack);
    assert_eq!(sorted_stacks(&again), sorted_stacks(&absorbed));

    let copy = gss.merge(&LeveledGSS::empty());
    let remapped = copy.remap_top_values_owned(vec![(5, 6)]);
    assert_eq!(sorted_stacks(&remapped), vec![(vec![1, 5, 6], 2), (vec![2, 5, 6], 2)]);

    let base = LeveledGSS::from_single_stack(vec![4_u32], TestAcc(1));
    let shared = base.push(7).merge(&base.push(8));
    let below = shared.pop1_common_interface_base().expect("both tops share one base");
    assert_eq!(sorted_stacks(&below), vec![(vec![4], 1)]);
    assert!(gss.pop1_common_interface_base().is_none());
}
