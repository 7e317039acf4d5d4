use lmtht::model::{first_leaf, height_of, is_pbst, range, split, INode, Node, NthGenHashTree, Step};

#[test]
fn height_is_the_rounded_up_logarithm() {
    assert_eq!(0, height_of(0));
    assert_eq!(0, height_of(1));
    assert_eq!(1, height_of(2));
    assert_eq!(2, height_of(3));
    assert_eq!(2, height_of(4));
    assert_eq!(3, height_of(5));
    assert_eq!(3, height_of(8));
    assert_eq!(4, height_of(9));
    assert_eq!(7, height_of(100));
    assert_eq!(63, height_of(1u64 << 63));
    assert_eq!(64, height_of((1u64 << 63) + 1));
    assert_eq!(64, height_of(u64::MAX));
}

#[test]
fn split_gives_the_height_and_the_left_span() {
    assert_eq!((1, 1), split(2));
    assert_eq!((2, 2), split(3));
    assert_eq!((2, 2), split(4));
    assert_eq!((3, 4), split(5));
    assert_eq!((3, 4), split(8));
    assert_eq!((4, 8), split(9));
    assert_eq!((64, 1u64 << 63), split(u64::MAX));
}

#[test]
fn range_starts_at_the_multiple_below() {
    assert_eq!(33, *range(40, 3).start());
    assert_eq!(40, *range(40, 3).end());
    assert_eq!(1, first_leaf(1, 0));
    assert_eq!(7, first_leaf(7, 0));
    assert_eq!(5, first_leaf(7, 2));
    assert_eq!(1, first_leaf(7, 3));
    assert_eq!(5, first_leaf(6, 1));
    assert_eq!(1, first_leaf(4, 2));
    assert_eq!(1, first_leaf(u64::MAX, 64));
    assert_eq!(1, first_leaf(u64::MAX, 200));
    assert_eq!((1u64 << 63) + 1, first_leaf(u64::MAX, 63));
}

#[test]
fn perfect_subtrees_end_at_multiples() {
    assert!(is_pbst(40, 3));
    assert!(!is_pbst(40, 4));
    assert!(is_pbst(7, 0));
    assert!(!is_pbst(7, 1));
    assert!(is_pbst(8, 3));
    assert!(is_pbst(1u64 << 63, 63));
    assert!(!is_pbst(u64::MAX, 64));
    assert!(!is_pbst(5, 64));
    assert!(!is_pbst(5, 255));
}

#[test]
fn root_of_each_generation() {
    assert_eq!(Node::new(0, 0), NthGenHashTree::new(0).root());
    assert_eq!(Node::new(1, 0), NthGenHashTree::new(1).root());
    assert_eq!(Node::new(2, 1), NthGenHashTree::new(2).root());
    assert_eq!(Node::new(3, 2), NthGenHashTree::new(3).root());
    assert_eq!(Node::new(4, 2), NthGenHashTree::new(4).root());
    assert_eq!(Node::new(5, 3), NthGenHashTree::new(5).root());
    assert_eq!(Node::new(100, 7), NthGenHashTree::new(100).root());
    assert_eq!(100, NthGenHashTree::new(100).n());
}

fn inode(i: u64, j: u8, li: u64, lj: u8, rj: u8) -> INode {
    INode { node: Node::new(i, j), left: Node::new(li, lj), right: Node::new(i, rj) }
}

#[test]
fn inodes_of_a_generation_from_the_root_down() {
    assert!(NthGenHashTree::new(0).inodes().is_empty());
    assert!(NthGenHashTree::new(1).inodes().is_empty());
    assert_eq!(vec![inode(2, 1, 1, 0, 0)], NthGenHashTree::new(2).inodes());
    assert_eq!(vec![inode(3, 2, 2, 1, 0)], NthGenHashTree::new(3).inodes());
    assert_eq!(vec![inode(6, 3, 4, 2, 1), inode(6, 1, 5, 0, 0)], NthGenHashTree::new(6).inodes());
    assert_eq!(vec![inode(7, 3, 4, 2, 2), inode(7, 2, 6, 1, 0)], NthGenHashTree::new(7).inodes());
    assert_eq!(
        vec![inode(8, 3, 4, 2, 2), inode(8, 2, 6, 1, 1), inode(8, 1, 7, 0, 0)],
        NthGenHashTree::new(8).inodes()
    );
    assert_eq!(63, NthGenHashTree::new(u64::MAX).inodes().len());
    assert_eq!(64, NthGenHashTree::new(u64::MAX).root().j);
}

#[test]
fn a_power_of_two_brings_as_many_inodes_as_its_logarithm() {
    for k in 1..20u32 {
        let n = 1u64 << k;
        let inodes = NthGenHashTree::new(n).inodes();
        assert_eq!(k as usize, inodes.len());
        // The left child of the new root is the root of the entry before.
        assert_eq!(Node::new(n / 2, (k - 1) as u8), inodes[0].left);
        assert_eq!(NthGenHashTree::new(n - 1).root().i, n - 1);
        assert_eq!(Node::new(n - 1, 0), inodes[inodes.len() - 1].left);
    }
}

fn step(i: u64, j: u8, ni: u64, nj: u8) -> Step {
    Step { step: Node::new(i, j), neighbor: Node::new(ni, nj) }
}

#[test]
fn paths_from_the_root() {
    let tree = NthGenHashTree::new(7);
    let path = tree.path_to(7, 3).unwrap();
    assert_eq!(Node::new(7, 3), path.root);
    assert!(path.steps.is_empty());
    assert_eq!(vec![step(4, 2, 7, 2)], tree.path_to(4, 2).unwrap().steps);
    assert_eq!(
        vec![step(4, 2, 7, 2), step(2, 1, 4, 1), step(2, 0, 1, 0)],
        tree.path_to(2, 0).unwrap().steps
    );
    assert_eq!(vec![step(7, 2, 4, 2), step(7, 0, 6, 1)], tree.path_to(7, 0).unwrap().steps);
    assert_eq!(
        vec![step(7, 2, 4, 2), step(6, 1, 7, 0), step(5, 0, 6, 0)],
        tree.path_to(5, 0).unwrap().steps
    );
}

#[test]
fn nodes_that_a_generation_does_not_have() {
    let tree = NthGenHashTree::new(7);
    assert!(tree.path_to(0, 0).is_none());
    assert!(tree.path_to(8, 0).is_none());
    assert!(tree.path_to(6, 3).is_none());
    assert!(tree.path_to(6, 2).is_none());
    assert!(tree.path_to(7, 1).is_none());
    assert!(tree.path_to(5, 1).is_none());
    assert!(tree.path_to(4, 3).is_none());
    assert!(tree.path_to(7, 64).is_none());
    assert!(NthGenHashTree::new(0).path_to(1, 0).is_none());
    assert!(NthGenHashTree::new(1).path_to(1, 0).unwrap().steps.is_empty());
    assert!(NthGenHashTree::new(1).path_to(1, 1).is_none());
}

#[test]
fn a_generation_holds_its_last_nodes_and_the_perfect_subtrees() {
    for n in 1u64..40 {
        let tree = NthGenHashTree::new(n);
        let own: Vec<u8> = tree.inodes().iter().map(|x| x.node.j).collect();
        for i in 1..=n {
            for j in 0u8..8 {
                let expected = is_pbst(i, j) || (i == n && own.contains(&j));
                assert_eq!(expected, tree.path_to(i, j).is_some(), "n={} i={} j={}", n, i, j);
                let span = i - first_leaf(i, j) + 1;
                let stated = height_of(span) == j && (i == n || is_pbst(i, j));
                assert_eq!(stated, expected, "n={} i={} j={}", n, i, j);
            }
        }
    }
}
