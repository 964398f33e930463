use weighted_gss::{Weight, WeightedGss};

#[derive(Clone, Copy, Debug, PartialEq, Eq)]
struct Bits(u8);

impl Weight for Bits {
    fn join(&self, other: &Self) -> Self {
        Self(self.0 | other.0)
    }
}

#[test]
fn shared_stack_refs_handle_empty_duplicate_and_prefix_stacks() {
    let gss = WeightedGss::from_stacks(vec![
        (Vec::<u8>::new(), Bits(1)),
        (vec![0], Bits(2)),
        (vec![0, 1], Bits(4)),
        (vec![0, 1], Bits(8)),
    ]);
    let mut stacks = gss.to_stacks(3).unwrap();
    stacks.sort_by(|left, right| left.0.cmp(&right.0));
    assert_eq!(
        stacks,
        vec![
            (Vec::new(), Bits(1)),
            (vec![0], Bits(2)),
            (vec![0, 1], Bits(12)),
        ]
    );
}

#[test]
fn shared_floors_make_join_heavy_pop_collapse_immediate() {
    let gss = WeightedGss::from_stacks(vec![
        (vec![0_u8, 1, 2], Bits(1)),
        (vec![0_u8, 1, 3], Bits(2)),
        (vec![0_u8, 1, 4], Bits(4)),
    ]);
    let popped = gss.pop();
    assert_eq!(popped.to_stacks(1).unwrap(), vec![(vec![0, 1], Bits(7))]);
}

#[test]
fn long_stacks_with_a_common_top_prefix_pop_to_their_bottoms() {
    let depth = 1_000usize;
    let left: Vec<u32> = std::iter::once(0).chain(1..depth as u32).collect();
    let right: Vec<u32> = std::iter::once(1).chain(1..depth as u32).collect();

    let gss = WeightedGss::from_stacks(vec![(left, Bits(1)), (right, Bits(2))]);
    assert_eq!(gss.max_depth(), depth);
    assert_eq!(gss.top(), Some((depth - 1) as u32));

    let popped = gss.popn(depth - 1);
    let mut stacks = popped.to_stacks(2).unwrap();
    stacks.sort_by(|left, right| left.0.cmp(&right.0));
    assert_eq!(stacks, vec![(vec![0], Bits(1)), (vec![1], Bits(2))]);
    assert_eq!(gss.structure().len(), depth + 2);
}

#[test]
fn deep_weighted_common_top_prefix_is_compact_and_iterative() {
    let depth = 20_000usize;
    let mut left = Vec::with_capacity(depth);
    let mut right = Vec::with_capacity(depth);
    left.push(0_u32);
    right.push(1_u32);
    for value in 1..depth as u32 {
        left.push(value);
        right.push(value);
    }

    let gss = WeightedGss::from_stacks(vec![(left, Bits(1)), (right, Bits(2))]);
    assert_eq!(gss.max_depth(), depth);
    assert_eq!(gss.top(), Some((depth - 1) as u32));

    let popped = gss.popn(depth - 1);
    let mut stacks = popped.to_stacks(2).unwrap();
    stacks.sort_by(|left, right| left.0.cmp(&right.0));
    assert_eq!(stacks, vec![(vec![0], Bits(1)), (vec![1], Bits(2))]);
}

#[test]
fn separately_built_deep_weighted_prefixes_merge_iteratively() {
    let depth = 20_000usize;
    let make = |bottom: u32, weight: Bits| {
        let mut stack = Vec::with_capacity(depth);
        stack.push(bottom);
        stack.extend(1..depth as u32);
        WeightedGss::from_stacks(vec![
            (stack.clone(), weight),
            (
                {
                    stack[0] = bottom + 10;
                    stack
                },
                Bits(weight.0 << 1),
            ),
        ])
    };

    let merged = make(0, Bits(1)).merge(&make(100, Bits(4)));
    assert_eq!(merged.max_depth(), depth);
    assert_eq!(merged.top(), Some((depth - 1) as u32));
    assert_eq!(merged.popn(depth - 1).to_stacks(4).unwrap().len(), 4);
}

#[test]
fn deep_single_stack_supports_every_observation() {
    let depth = 20_000u32;
    let stack: Vec<u32> = (0..depth).collect();
    let gss = WeightedGss::from_stack(stack.clone(), Bits(3));

    let listed = gss.to_stacks(1).unwrap();
    assert_eq!(listed.len(), 1);
    assert_eq!(listed[0].0, stack);
    assert_eq!(gss.joined_weight(), Some(Bits(3)));
    assert_eq!(gss.weights(), vec![Bits(3)]);

    let doubled = gss.map_weights(|w: &Bits| Bits(w.0 << 1));
    assert_eq!(doubled.joined_weight(), Some(Bits(6)));
    let kept = gss.filter_map_weights(|w: &Bits| Some(Bits(w.0 & 1)));
    assert_eq!(kept.joined_weight(), Some(Bits(1)));
    assert!(gss.filter_map_weights(|_: &Bits| None::<Bits>).is_empty());

    let merged = gss.merge(&gss).merge(&WeightedGss::from_stack(stack.clone(), Bits(4)));
    assert_eq!(merged.to_stacks(1).unwrap(), vec![(stack, Bits(7))]);
    assert_eq!(merged.popn(depth as usize).to_stacks(1).unwrap(), vec![(vec![], Bits(7))]);
}
