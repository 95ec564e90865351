use rust_bart::tree::node::Node;
use rust_bart::tree::split::Split;

#[test]
fn node_test_idx() {
    assert_eq!(Node::leaf(1).depth(), 0);

    let leaf = Node::leaf(4);
    assert_eq!(leaf.is_leaf(), true);
    assert_eq!(leaf.depth(), 2);

    assert_eq!(leaf.is_left(), true);
    assert_eq!(leaf.is_right(), false);

    assert_eq!(leaf.left_idx(), 8);
    assert_eq!(leaf.right_idx(), 9);
    assert_eq!(leaf.parent_idx(), 2);

    let mut internal = Node::internal(7, Split::new_continuous(1, 3));
    assert_eq!(internal.is_internal(), true);
    assert_eq!(internal.depth(), 2);

    assert_eq!(internal.split(), Split::new_continuous(1, 3));
    internal.set_split(Split::new_continuous(2, 5));
    assert_eq!(internal.split(), Split::new_continuous(2, 5));
}

#[test]
fn node_depth_edges() {
    assert_eq!(Node::get_idx_depth(0), 0);
    assert_eq!(Node::get_idx_depth(1), 0);
    assert_eq!(Node::get_idx_depth(2), 1);
    assert_eq!(Node::get_idx_depth(3), 1);
    assert_eq!(Node::get_idx_depth(63), 5);
    assert_eq!(Node::get_idx_depth(64), 6);
    assert_eq!(Node::get_idx_depth(127), 6);
    assert_eq!(Node::get_idx_depth(128), 7);
    assert_eq!(Node::get_idx_depth(255), 7);
}

#[test]
fn node_index_arithmetic() {
    assert_eq!(Node::get_left_idx(127), 254);
    assert_eq!(Node::get_right_idx(127), 255);
    assert_eq!(Node::get_parent_idx(255), 127);
    assert_eq!(Node::get_parent_idx(1), 0);
    assert!(Node::idx_is_left(10));
    assert!(Node::idx_is_right(11));
    let n = Node::leaf(9);
    assert!(n.is_right());
    assert_eq!(n.idx(), 9);
    assert_eq!(n.as_leaf(), Node::leaf(9));
    let s = Split::new_continuous(0, 4);
    let m = n.as_internal(s);
    assert!(m.is_internal());
    assert_eq!(m.idx(), 9);
    assert_eq!(m.split(), s);
}

#[test]
fn node_routes_rows() {
    let x: Vec<Vec<i16>> = vec![vec![1, 13, 10], vec![2, 3, 5]];
    let n = Node::internal(3, Split::new_continuous(0, 4));
    assert_eq!(n.go_left(&x, 0), true);
    assert_eq!(n.go_right(&x, 1), true);
    assert_eq!(n.child_idx(&x, 0), 6);
    assert_eq!(n.child_idx(&x, 2), 7);
    assert_eq!(n.go_left_v(3), true);
    assert_eq!(n.go_right_v(4), true);
    let c = Node::internal(2, Split::new_categorical(1, vec![3, 5]));
    assert_eq!(c.child_idx(&x, 0), 5);
    assert_eq!(c.child_idx(&x, 1), 4);
    assert_eq!(c.child_idx(&x, 2), 4);
}
