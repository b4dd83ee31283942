use lib::bp_tree::BPTree;
use lib::dfuds_tree::DFUDSTree;
use lib::tree::{leaf, node, Tree};
use lib::util::{get_bitl, left_align};

fn sample_tree() -> Tree {
    let c1 = leaf(1);
    let c2 = node(2, vec![node(3, vec![leaf(4), leaf(5)]), leaf(6)]);
    let c3 = node(7, vec![leaf(8), leaf(9)]);
    let c4 = leaf(10);
    node(0, vec![c1, c2, c3, c4])
}

#[test]
fn bp_tree_subtree_sizes() {
    let t = BPTree::new(&sample_tree());
    let sizes: Vec<u8> = (0..11).map(|i| BPTree::subtree_size(&t, i)).collect();
    assert_eq!(sizes, vec![11, 1, 5, 3, 1, 1, 1, 3, 1, 1, 1]);
}

#[test]
fn bp_tree_nodes() {
    let t = BPTree::new(&sample_tree());
    let pos: Vec<u8> = (0..11).map(|i| BPTree::ith_node(&t, i)).collect();
    assert_eq!(pos, vec![0, 1, 3, 4, 5, 7, 10, 13, 14, 16, 19]);
    let text: String = BPTree::render(&t).into_iter().collect();
    assert_eq!(text, "(()((()())())(()())())");
}

#[test]
fn bp_tree_of_a_leaf() {
    let t = BPTree::new(&leaf(5));
    assert_eq!(BPTree::subtree_size(&t, 0), 1);
    let text: String = BPTree::render(&t).into_iter().collect();
    assert_eq!(text, "()");
}

#[test]
fn dfuds_edges() {
    let t = DFUDSTree::new(&sample_tree());
    let mut edges = Vec::new();
    for i in 0..11u8 {
        let vi = DFUDSTree::ith_node(&t, i + 1);
        let d = DFUDSTree::degree(&t, vi);
        for j in 1..d {
            edges.push((i, DFUDSTree::ith_child(&t, vi, j)));
        }
    }
    assert_eq!(
        edges,
        vec![(0, 1), (0, 2), (0, 7), (0, 10), (2, 3), (2, 6), (3, 4), (3, 5), (7, 8), (7, 9)]
    );
}

#[test]
fn dfuds_nodes_and_degrees() {
    let t = DFUDSTree::new(&sample_tree());
    let pos: Vec<u8> = (1..12).map(|i| DFUDSTree::ith_node(&t, i)).collect();
    assert_eq!(pos, vec![0, 5, 6, 9, 12, 13, 14, 15, 18, 19, 20]);
    let deg: Vec<u8> = pos.iter().map(|&v| DFUDSTree::degree(&t, v)).collect();
    assert_eq!(deg, vec![5, 1, 3, 3, 1, 1, 1, 3, 1, 1, 1]);
    assert_eq!(DFUDSTree::node_id(&t, 6), 2);
    assert_eq!(DFUDSTree::node_id(&t, 1), 1);
    let text: String = DFUDSTree::render(&t).into_iter().collect();
    assert_eq!(text, "((((())(()(())))(())))");
}

#[test]
fn dfuds_of_a_leaf() {
    let t = DFUDSTree::new(&leaf(5));
    assert_eq!(DFUDSTree::ith_node(&t, 1), 0);
    assert_eq!(DFUDSTree::degree(&t, 0), 1);
    let text: String = DFUDSTree::render(&t).into_iter().collect();
    assert_eq!(text, "()");
}

#[test]
fn util_bits() {
    assert_eq!(get_bitl(&0x8000000000000001u64, 0), 1);
    assert_eq!(get_bitl(&0x8000000000000001u64, 1), 0);
    assert_eq!(get_bitl(&0x8000000000000001u64, 63), 1);
    assert_eq!(left_align(0), 0);
    assert_eq!(left_align(1), 0x8000000000000000);
    assert_eq!(left_align(0b1011), 0xb000000000000000);
    assert_eq!(left_align(0xf000000000000000), 0xf000000000000000);
}

#[test]
fn clone_keeps_the_tree() {
    let t = sample_tree();
    let c = t.clone();
    assert_eq!(format!("{:?}", c), format!("{:?}", t));
    let a = BPTree::new(&t);
    let b = BPTree::new(&c);
    let sa: Vec<u8> = (0..11).map(|i| BPTree::subtree_size(&a, i)).collect();
    let sb: Vec<u8> = (0..11).map(|i| BPTree::subtree_size(&b, i)).collect();
    assert_eq!(sa, sb);
}
