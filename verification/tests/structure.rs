use weighted_gss::{ListedNode, Weight, WeightedGss};

#[derive(Clone, Copy, Debug, PartialEq, Eq, PartialOrd, Ord)]
struct Mask(u8);

impl Weight for Mask {
    fn join(&self, other: &Self) -> Self {
        Mask(self.0 | other.0)
    }
}

fn listed_lookup(nodes: &[ListedNode<u8, Mask>], id: usize, stack: &[u8]) -> Option<Mask> {
    match stack.split_last() {
        None => nodes[id].empty,
        Some((top, rest)) => {
            let (_, target) = nodes[id].edges.iter().find(|(symbol, _)| symbol == top)?;
            listed_lookup(nodes, *target, rest)
        }
    }
}

#[test]
fn structure_lists_the_root_last_and_keeps_every_stack() {
    let gss = WeightedGss::from_stacks(vec![(vec![1_u8, 2], Mask(1)), (vec![3, 2], Mask(2)), (vec![], Mask(4))]);
    let listing = gss.structure();
    let root = listing.len() - 1;
    for (i, node) in listing.iter().enumerate() {
        for (_, target) in &node.edges {
            assert!(*target < i);
        }
    }
    for (stack, weight) in gss.to_stacks(10).unwrap() {
        assert_eq!(listed_lookup(&listing, root, &stack), Some(weight));
    }
    assert_eq!(listed_lookup(&listing, root, &[2]), None);
    assert_eq!(listed_lookup(&listing, root, &[1]), None);
}

#[test]
fn structure_of_empty_gss_is_one_empty_node() {
    let listing = WeightedGss::<u8, Mask>::new().structure();
    assert_eq!(listing.len(), 1);
    assert!(listing[0].empty.is_none());
    assert!(listing[0].edges.is_empty());
}

#[test]
fn structure_lists_a_shared_node_once() {
    let floor = WeightedGss::from_stack(vec![1_u8, 2, 3], Mask(1));
    let gss = floor.push(4).merge(&floor.push(5));
    let listing = gss.structure();
    // The floor's four nodes (three symbols and the empty-stack leaf) are
    // shared by both branches; the merged root is the fifth node.
    assert_eq!(listing.len(), 5);
}
