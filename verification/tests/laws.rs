use weighted_gss::{linear_prefix, Weight, WeightedGss};

#[derive(Clone, Copy, Debug, PartialEq, Eq, PartialOrd, Ord)]
struct Mask(u8);

impl Weight for Mask {
    fn join(&self, other: &Self) -> Self {
        Mask(self.0 | other.0)
    }
}

fn stacks(gss: &WeightedGss<u8, Mask>) -> Vec<(Vec<u8>, Mask)> {
    let mut all = gss.to_stacks(1000).unwrap();
    all.sort();
    all
}

fn sample_a() -> WeightedGss<u8, Mask> {
    WeightedGss::from_stacks(vec![(vec![1, 2], Mask(1)), (vec![3], Mask(2)), (vec![], Mask(4))])
}

fn sample_b() -> WeightedGss<u8, Mask> {
    WeightedGss::from_stacks(vec![(vec![1, 2], Mask(8)), (vec![2], Mask(16))])
}

fn sample_c() -> WeightedGss<u8, Mask> {
    WeightedGss::from_stacks(vec![(vec![3], Mask(32)), (vec![5, 2], Mask(64))])
}

#[test]
fn merge_is_commutative_associative_and_idempotent() {
    let (a, b, c) = (sample_a(), sample_b(), sample_c());
    assert_eq!(stacks(&a.merge(&b)), stacks(&b.merge(&a)));
    assert_eq!(stacks(&a.merge(&b).merge(&c)), stacks(&a.merge(&b.merge(&c))));
    assert_eq!(stacks(&a.merge(&a)), stacks(&a));
    assert_eq!(
        stacks(&a.merge(&b)),
        vec![(vec![], Mask(4)), (vec![1, 2], Mask(9)), (vec![2], Mask(16)), (vec![3], Mask(2))]
    );
}

#[test]
fn push_distributes_over_merge() {
    let (a, b) = (sample_a(), sample_b());
    assert_eq!(stacks(&a.merge(&b).push(7)), stacks(&a.push(7).merge(&b.push(7))));
}

#[test]
fn pop_top_undoes_push() {
    let a = sample_a();
    assert_eq!(stacks(&a.push(9).pop_top(&9)), stacks(&a));
    assert!(a.push(9).pop_top(&8).is_empty());
}

#[test]
fn pop_top_is_pop_after_retain_top() {
    let a = sample_a().merge(&sample_c());
    assert_eq!(stacks(&a.pop_top(&2)), stacks(&a.retain_top(&2).pop()));
    assert_eq!(stacks(&a.pop_top(&2)), vec![(vec![1], Mask(1)), (vec![5], Mask(64))]);
}

#[test]
fn popn_composes_and_popn_zero_is_identity() {
    let a = sample_a().merge(&sample_b()).push(6);
    assert_eq!(stacks(&a.popn(0)), stacks(&a));
    assert_eq!(stacks(&a.popn(1).popn(2)), stacks(&a.popn(3)));
    assert_eq!(stacks(&a.popn(2)), vec![(vec![], Mask(2 | 16)), (vec![1], Mask(9))]);
    assert_eq!(stacks(&a.pop()), stacks(&a.popn(1)));
}

#[test]
fn top_is_the_sole_top() {
    assert_eq!(WeightedGss::from_stack(vec![1_u8, 2], Mask(1)).top(), Some(2));
    assert_eq!(sample_b().top(), Some(2));
    assert_eq!(sample_a().top(), None);
    assert_eq!(sample_a().retain_top(&2).top(), Some(2));
    assert_eq!(WeightedGss::<u8, Mask>::new().top(), None);
    let mut tops = sample_a().tops();
    tops.sort();
    assert_eq!(tops, vec![2, 3]);
}

#[test]
fn joined_weight_of_merge_joins_both() {
    let (a, c) = (sample_a(), sample_c());
    let left = a.joined_weight().unwrap();
    let right = c.joined_weight().unwrap();
    assert_eq!(a.merge(&c).joined_weight(), Some(left.join(&right)));
    assert_eq!(a.merge(&c).joined_weight(), Some(Mask(1 | 2 | 4 | 32 | 64)));
    assert_eq!(WeightedGss::<u8, Mask>::new().joined_weight(), None);
}

#[test]
fn push_keeps_the_set_of_weights() {
    let a = sample_a();
    let mut before = a.weights();
    let mut after = a.push(1).weights();
    before.sort();
    before.dedup();
    after.sort();
    after.dedup();
    assert_eq!(before, after);
    assert_eq!(before, vec![Mask(1), Mask(2), Mask(4)]);
}

#[test]
fn map_and_filter_map_act_on_each_stack_weight() {
    let a = sample_a();
    let doubled = a.map_weights(|w: &Mask| Mask(w.0 << 1));
    assert_eq!(stacks(&doubled), vec![(vec![], Mask(8)), (vec![1, 2], Mask(2)), (vec![3], Mask(4))]);
    let kept = a.filter_map_weights(|w: &Mask| if w.0 > 1 { Some(Mask(w.0)) } else { None });
    assert_eq!(stacks(&kept), vec![(vec![], Mask(4)), (vec![3], Mask(2))]);
}

#[test]
fn empty_gss_and_empty_stack_differ() {
    let none = WeightedGss::<u8, Mask>::new();
    let empty_stack = WeightedGss::from_stack(Vec::<u8>::new(), Mask(1));
    assert!(none.is_empty());
    assert!(!none.has_empty_stack());
    assert!(!empty_stack.is_empty());
    assert!(empty_stack.has_empty_stack());
    assert_eq!(stacks(&sample_a().retain_empty()), vec![(vec![], Mask(4))]);
    assert!(empty_stack.pop().is_empty());
}

#[test]
fn constructors_join_coinciding_stacks_and_report_depth() {
    let g = WeightedGss::from_stacks(vec![(vec![1_u8, 2], Mask(1)), (vec![1, 2], Mask(2)), (vec![4, 5, 6], Mask(4))]);
    assert_eq!(stacks(&g), vec![(vec![1, 2], Mask(3)), (vec![4, 5, 6], Mask(4))]);
    assert_eq!(g.max_depth(), 3);
    assert_eq!(WeightedGss::<u8, Mask>::new().max_depth(), 0);
    let h = WeightedGss::from_stacks_with_weight(vec![vec![1_u8], vec![], vec![1]], Mask(2));
    assert_eq!(stacks(&h), vec![(vec![], Mask(2)), (vec![1], Mask(2))]);
}

#[test]
fn to_stacks_reports_the_limit() {
    let g = sample_a();
    assert_eq!(g.to_stacks(3).unwrap().len(), 3);
    assert_eq!(g.to_stacks(2).unwrap_err().limit, 2);
    assert_eq!(WeightedGss::<u8, Mask>::new().to_stacks(0).unwrap(), vec![]);
}

#[test]
fn joining_the_listed_weights_gives_the_joined_weight() {
    let a = sample_a().merge(&sample_c());
    let folded = a.weights().iter().fold(None, |acc: Option<Mask>, w| Some(match acc {
        Some(x) => x.join(w),
        None => *w,
    }));
    assert_eq!(folded, a.joined_weight());
    assert!(WeightedGss::<u8, Mask>::new().weights().is_empty());
}

#[test]
fn popping_a_linear_prefix_pops_every_stack() {
    let floor = WeightedGss::from_stacks(vec![(vec![1_u8], Mask(2)), (vec![2], Mask(2))]);
    let gss = floor.push(3).push(4).push(5);
    for count in 0..6 {
        let mut prefix = linear_prefix(&gss).unwrap();
        let len = prefix.len();
        let rest = prefix.popn(count);
        assert_eq!(rest, count.saturating_sub(len));
        assert_eq!(stacks(&prefix.into_gss()), stacks(&gss.popn(count - rest)));
    }
}

#[test]
fn weight_transforms_may_keep_state() {
    let a = sample_a();
    let mut calls = 0;
    let mapped = a.map_weights(|w: &Mask| {
        calls += 1;
        Mask(w.0)
    });
    assert!(calls >= 3);
    assert_eq!(stacks(&mapped), stacks(&a));
    let mut seen = Vec::new();
    let kept = a.filter_map_weights(|w: &Mask| {
        seen.push(*w);
        if w.0 == 4 { None } else { Some(*w) }
    });
    assert!(!seen.is_empty());
    assert_eq!(stacks(&kept), vec![(vec![1, 2], Mask(1)), (vec![3], Mask(2))]);
}
