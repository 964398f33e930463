use std::collections::hash_map::DefaultHasher;
use std::hash::{Hash, Hasher};
use weighted_gss::{ArcArrayVec, DynIter, RepresentationId, StackEffect, StructuralStats, VecStackVec};

#[test]
fn arc_array_vec_windows_share_without_changing_the_source() {
    let full = ArcArrayVec::from_vec(vec![1_u8, 2, 3, 4]);
    let low = full.take(2);
    assert_eq!(low.as_slice(), &[1, 2]);
    assert_eq!(full.as_slice(), &[1, 2, 3, 4]);
    assert_eq!(full.take(10).as_slice(), &[1, 2, 3, 4]);
    assert_eq!(low.last(), Some(&2));
    assert_eq!(full.len(), 4);
    assert!(!full.is_empty());
    assert!(ArcArrayVec::<u8>::new().is_empty());
    assert_eq!(ArcArrayVec::<u8>::default().last(), None);
    assert_eq!(full.iter().iter().copied().sum::<u8>(), 10);
}

#[test]
fn arc_array_vec_truncate_only_shrinks() {
    let mut v = ArcArrayVec::from_vec(vec![5_u8, 6, 7]);
    v.truncate(9);
    assert_eq!(v.to_vec(), vec![5, 6, 7]);
    v.truncate(1);
    assert_eq!(v.to_vec(), vec![5]);
    assert_eq!(v.len(), 1);
}

#[test]
fn arc_array_vec_append_and_unit() {
    let a = ArcArrayVec::from_vec(vec![1_u8, 2]);
    let b = ArcArrayVec::unit(3_u8);
    assert_eq!(a.append(&b).to_vec(), vec![1, 2, 3]);
    assert_eq!(ArcArrayVec::new().append(&b).to_vec(), vec![3]);
    assert_eq!(a.append(&ArcArrayVec::new()).to_vec(), vec![1, 2]);
}

#[test]
fn arc_array_vec_try_push_needs_sole_ownership() {
    let mut v = ArcArrayVec::from_vec(vec![1_u8, 2]);
    let other = v.clone();
    assert!(!v.try_push(3));
    assert_eq!(v.to_vec(), vec![1, 2]);
    drop(other);
    assert!(v.try_push(3));
    assert_eq!(v.to_vec(), vec![1, 2, 3]);

    let mut low = v.take(1);
    drop(v);
    assert!(low.try_push(9));
    assert_eq!(low.to_vec(), vec![1, 9]);
}

#[test]
fn vec_stack_vec_operations() {
    let mut v = VecStackVec::from_vec(vec![4_u8, 5]);
    assert!(v.try_push(6));
    assert_eq!(v.iter(), &[4, 5, 6]);
    assert_eq!(v.len(), 3);
    assert_eq!(v.last(), Some(&6));
    assert_eq!(v.take(1).iter(), &[4]);
    v.truncate(2);
    assert_eq!(v.iter(), &[4, 5]);
    v.truncate(7);
    assert_eq!(v.iter(), &[4, 5]);
    assert_eq!(v.append(&VecStackVec::unit(9)).iter(), &[4, 5, 9]);
    assert_eq!(VecStackVec::<u8>::default().last(), None);
    assert_eq!(VecStackVec::unit(1_u8), VecStackVec::from_vec(vec![1]));
}

#[test]
fn stack_effect_reports_its_parts() {
    let effect = StackEffect::new(2, vec![7_u8, 8]);
    assert_eq!(effect.pop_count(), 2);
    assert_eq!(effect.pushed(), &vec![7, 8]);
    assert_eq!(effect.clone(), StackEffect::new(2, vec![7, 8]));
    assert_ne!(effect, StackEffect::new(1, vec![7, 8]));
}

#[test]
fn structural_stats_default_is_zero() {
    let stats = StructuralStats::default();
    assert_eq!((stats.nodes, stats.edges, stats.paths, stats.max_depth), (0, 0, 0, 0));
    let copy: StructuralStats = stats;
    assert_eq!(copy, stats);
    let _: Option<RepresentationId> = None;
}

#[test]
fn arc_array_vec_equality_compares_visible_windows() {
    let long = ArcArrayVec::from_vec(vec![1_u8, 2, 3]);
    assert!(long.take(2) == ArcArrayVec::from_vec(vec![1, 2]));
    assert!(long != ArcArrayVec::from_vec(vec![1, 2]));
    assert!(long.take(1) != ArcArrayVec::unit(2));
    assert!(ArcArrayVec::<u8>::new() == long.take(0));
}

#[test]
fn arc_array_vec_hash_follows_the_visible_window() {
    let long = ArcArrayVec::from_vec(vec![1_u8, 2, 3]);
    assert_eq!(digest(&long.take(2)), digest(&ArcArrayVec::from_vec(vec![1, 2])));
}

fn digest(v: &ArcArrayVec<u8>) -> u64 {
    let mut hasher = DefaultHasher::new();
    v.hash(&mut hasher);
    hasher.finish()
}

#[test]
fn dyn_iter_walks_from_both_ends() {
    let values = [1_u8, 2, 3, 4];
    let mut it = DynIter::slice(&values);
    assert_eq!(it.len(), 4);
    assert_eq!(it.size_hint(), (4, Some(4)));
    assert_eq!(it.next(), Some(&1));
    assert_eq!(it.next_back(), Some(&4));
    assert_eq!(it.next_back(), Some(&3));
    assert_eq!(it.len(), 1);
    assert_eq!(it.next(), Some(&2));
    assert_eq!(it.next(), None);
    assert_eq!(it.next_back(), None);
    assert_eq!(it.size_hint(), (0, Some(0)));
}
