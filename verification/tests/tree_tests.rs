use rust_bart::tree::node::Node;
use rust_bart::tree::split::Split;
use rust_bart::tree::tree::Tree;

#[test]
fn test_leaf_idx() {
    let mut tree = Tree::new(10);

    println!(
        "init: \n{:?}, nnog:{}, nleaf:{}",
        tree,
        tree.get_all_nog_idx().len(),
        tree.get_all_leaf_idx().len()
    );
    println!("init: \n{}", tree.is_leaf(1));

    tree.grow_or_change(Node::internal(1, Split::new_continuous(0, 4)));
    println!("grow 1: \n{:?}", tree);
    tree.grow_or_change(Node::internal(2, Split::new_continuous(0, 4)));
    println!("grow 2: \n{:?}", tree);
    tree.grow_or_change(Node::internal(5, Split::new_continuous(0, 4)));
    println!("grow 5: \n{:?}", tree);

    tree.set_mu(10, 3.2f64.to_bits());
    println!("mu: {}\n", f64::from_bits(tree.mu(10)));

    let mut leaf_idx = tree.get_all_leaf_idx();
    leaf_idx.sort();
    assert_eq!(leaf_idx, vec![3, 4, 10, 11]);
    assert_eq!(tree.get_all_nog_idx(), vec![5]);

    tree.grow_or_change(Node::internal(10, Split::new_continuous(0, 4)));
    println!("grow 10: \n{:?}", tree);

    let mut leaf_idx = tree.get_all_leaf_idx();
    leaf_idx.sort();
    assert_eq!(leaf_idx, vec![3, 4, 11, 20, 21]);
    assert_eq!(tree.get_all_nog_idx(), vec![10]);

    tree.grow_or_change(Node::internal(3, Split::new_continuous(0, 4)));
    println!("grow 3: \n{:?}", tree);
    let mut leaf_idx = tree.get_all_leaf_idx();
    leaf_idx.sort();
    assert_eq!(leaf_idx, vec![4, 6, 7, 11, 20, 21]);
    assert_eq!(tree.get_all_nog_idx(), vec![3, 10]);

    tree.prune(Node::leaf(10));
    println!("prune 10: \n{:?}", tree);
    let mut leaf_idx = tree.get_all_leaf_idx();
    leaf_idx.sort();
    assert_eq!(leaf_idx, vec![4, 6, 7, 10, 11]);
    assert_eq!(tree.get_all_nog_idx(), vec![3, 5]);

    tree.grow_or_change(Node::internal(3, Split::new_continuous(0, 6)));
    println!("change 3: \n{:?}", tree);
    let mut leaf_idx = tree.get_all_leaf_idx();
    leaf_idx.sort();
    assert_eq!(leaf_idx, vec![4, 6, 7, 10, 11]);
    assert_eq!(tree.get_all_nog_idx(), vec![3, 5]);
}

fn rows_consistent(tree: &Tree, x: &Vec<Vec<i16>>) -> bool {
    tree.leaf_idx
        .iter()
        .enumerate()
        .all(|(idx, &leaf_idx)| tree.predict(x, idx) == leaf_idx)
}

fn data() -> Vec<Vec<i16>> {
    vec![vec![0, 1, 2, 3, 4, 5, 6, 7], vec![3, 1, 4, 1, 5, 9, 2, 6]]
}

#[test]
fn tree_new_state() {
    let tree = Tree::new(3);
    assert_eq!(tree.leaf_idx, vec![1, 1, 1]);
    assert_eq!(tree.get_all_leaf_idx(), vec![1]);
    assert_eq!(tree.get_all_nog_idx(), Vec::<u8>::new());
    assert_eq!(tree.mu(1), 0);
    assert_eq!(*tree.get_node(1), Node::leaf(1));
    assert!(tree.is_leaf(1));
    assert!(!tree.is_nog(1));
    assert!(!tree.is_leaf(2));
}

#[test]
fn tree_grow_accept_keeps_rows_consistent() {
    let x = data();
    let mut tree = Tree::new(8);
    assert!(rows_consistent(&tree, &x));
    let new = Node::internal(1, Split::new_continuous(0, 4));
    tree.route_grow_leaf_idx(&new, &x);
    assert_eq!(tree.leaf_idx, vec![2, 2, 2, 2, 3, 3, 3, 3]);
    tree.grow_or_change(new);
    tree.settle_leaf_idx_pg(Some(new));
    assert_eq!(tree.leaf_idx, vec![2, 2, 2, 2, 3, 3, 3, 3]);
    assert!(rows_consistent(&tree, &x));

    let new = Node::internal(3, Split::new_continuous(1, 6));
    tree.route_grow_leaf_idx(&new, &x);
    tree.grow_or_change(new);
    tree.settle_leaf_idx_pg(Some(new));
    assert_eq!(tree.leaf_idx, vec![2, 2, 2, 2, 6, 7, 6, 7]);
    assert!(rows_consistent(&tree, &x));
}

#[test]
fn tree_grow_reject_restores_rows() {
    let x = data();
    let mut tree = Tree::new(8);
    let new = Node::internal(1, Split::new_categorical(1, vec![1, 9]));
    tree.route_grow_leaf_idx(&new, &x);
    assert_eq!(tree.leaf_idx, vec![3, 2, 3, 2, 3, 2, 3, 3]);
    tree.settle_leaf_idx_pg(Some(new));
    assert_eq!(tree.leaf_idx, vec![1; 8]);
}

#[test]
fn tree_prune_keeps_rows_consistent() {
    let x = data();
    let mut tree = Tree::new(8);
    let new = Node::internal(1, Split::new_continuous(0, 4));
    tree.route_grow_leaf_idx(&new, &x);
    tree.grow_or_change(new);
    tree.settle_leaf_idx_pg(Some(new));

    // A rejected prune leaves everything alone.
    tree.settle_leaf_idx_pg(Some(Node::leaf(1)));
    assert_eq!(tree.leaf_idx, vec![2, 2, 2, 2, 3, 3, 3, 3]);

    tree.prune(Node::leaf(1));
    tree.settle_leaf_idx_pg(Some(Node::leaf(1)));
    assert_eq!(tree.leaf_idx, vec![1; 8]);
    assert_eq!(tree.get_all_leaf_idx(), vec![1]);
    assert!(rows_consistent(&tree, &x));
}

#[test]
fn tree_change_keeps_rows_consistent() {
    let x = data();
    let mut tree = Tree::new(8);
    let new = Node::internal(1, Split::new_continuous(0, 4));
    tree.route_grow_leaf_idx(&new, &x);
    tree.grow_or_change(new);
    tree.settle_leaf_idx_pg(Some(new));

    // Rejected change: rows come back.
    let change = Node::internal(1, Split::new_continuous(1, 3));
    tree.route_change_leaf_idx(&change, &x);
    assert_eq!(tree.leaf_idx, vec![5, 2, 5, 2, 3, 3, 6, 3]);
    tree.settle_leaf_idx_change(Some(change));
    assert_eq!(tree.leaf_idx, vec![2, 2, 2, 2, 3, 3, 3, 3]);
    assert!(rows_consistent(&tree, &x));

    // Accepted change: rows follow the new split.
    tree.route_change_leaf_idx(&change, &x);
    tree.grow_or_change(change);
    tree.settle_leaf_idx_change(Some(change));
    assert_eq!(tree.leaf_idx, vec![3, 2, 3, 2, 3, 3, 2, 3]);
    assert!(rows_consistent(&tree, &x));
}

#[test]
fn tree_prune_undoes_grow() {
    let mut tree = Tree::new(2);
    tree.grow_or_change(Node::internal(1, Split::new_continuous(0, 4)));
    tree.grow_or_change(Node::internal(3, Split::new_continuous(1, 2)));
    let before = tree.get_all_leaf_idx();
    tree.grow_or_change(Node::internal(6, Split::new_continuous(0, 7)));
    assert_eq!(tree.get_all_leaf_idx(), vec![2, 7, 12, 13]);
    tree.prune(Node::leaf(6));
    assert_eq!(tree.get_all_leaf_idx(), before);
    assert_eq!(*tree.get_node(6), Node::leaf(6));
    assert_eq!(tree.get_all_nog_idx(), vec![3]);
}

#[test]
fn tree_mu_and_nodes() {
    let mut tree = Tree::new(1);
    tree.grow_or_change(Node::internal(1, Split::new_continuous(0, 4)));
    assert_eq!(tree.mu(2), 0);
    assert_eq!(tree.set_mu(2, 7), 0);
    assert_eq!(tree.mu(2), 7);
    assert_eq!(tree.set_mu(2, 9), 7);
    tree.get_mut_node(1).set_split(Split::new_continuous(0, 8));
    assert_eq!(tree.get_node(1).split(), Split::new_continuous(0, 8));
}

#[test]
fn tree_preorder_and_paths() {
    let mut tree = Tree::new(1);
    tree.grow_or_change(Node::internal(1, Split::new_continuous(0, 4)));
    tree.grow_or_change(Node::internal(2, Split::new_continuous(0, 2)));
    tree.grow_or_change(Node::internal(5, Split::new_continuous(1, 2)));
    assert_eq!(tree.leaves_in_preorder(), vec![4, 10, 11, 3]);
    assert_eq!(Tree::id_path(1), vec![(1, false)]);
    assert_eq!(Tree::id_path(11), vec![(1, true), (2, false), (5, false), (11, false)]);
    assert_eq!(Tree::id_path(10), vec![(1, true), (2, false), (5, true), (10, false)]);
}

#[test]
fn tree_predict_rows() {
    let x = data();
    let mut tree = Tree::new(8);
    tree.grow_or_change(Node::internal(1, Split::new_continuous(0, 4)));
    tree.grow_or_change(Node::internal(2, Split::new_categorical(1, vec![1, 3])));
    let leaves: Vec<u8> = (0..8).map(|i| tree.predict(&x, i)).collect();
    assert_eq!(leaves, vec![4, 4, 5, 4, 3, 3, 3, 3]);
}

#[test]
fn tree_predict_mu_reads_the_leaf_value() {
    let x = data();
    let mut tree = Tree::new(8);
    tree.grow_or_change(Node::internal(1, Split::new_continuous(0, 4)));
    tree.set_mu(2, 1.5f64.to_bits());
    tree.set_mu(3, (-2.0f64).to_bits());
    assert_eq!(f64::from_bits(tree.predict_mu(&x, 1)), 1.5);
    assert_eq!(f64::from_bits(tree.predict_mu(&x, 6)), -2.0);
}

#[test]
fn tree_leaf_idx_getter() {
    let x = data();
    let mut tree = Tree::new(8);
    assert_eq!(*tree.leaf_idx(), vec![1; 8]);
    let new = Node::internal(1, Split::new_continuous(0, 4));
    tree.route_grow_leaf_idx(&new, &x);
    assert_eq!(*tree.leaf_idx(), vec![2, 2, 2, 2, 3, 3, 3, 3]);
    assert_eq!(*tree.leaf_idx(), tree.leaf_idx);
}

#[test]
fn tree_predict_reads_only_the_path() {
    let x = data();
    let mut tree = Tree::new(8);
    tree.grow_or_change(Node::internal(1, Split::new_continuous(0, 4)));
    // Node 3 reads a feature that the data lacks; rows that go left never
    // meet it.
    tree.grow_or_change(Node::internal(3, Split::new_continuous(5, 2)));
    for i in 0..4 {
        assert_eq!(tree.predict(&x, i), 2);
    }
}

#[test]
fn tree_predict_walks_through_internal_ancestors() {
    let x = data();
    let mut tree = Tree::new(8);
    tree.grow_or_change(Node::internal(1, Split::new_continuous(0, 4)));
    tree.grow_or_change(Node::internal(2, Split::new_categorical(1, vec![1, 3])));
    for i in 0..8 {
        let leaf = tree.predict(&x, i);
        assert!(tree.is_leaf(leaf));
        let mut below = leaf;
        let mut a = leaf >> 1;
        while a >= 1 {
            let n = tree.get_node(a);
            assert!(n.is_internal());
            assert_eq!(n.child_idx(&x, i), below);
            below = a;
            a >>= 1;
        }
        assert_eq!(below, 1);
        assert_eq!(tree.predict_mu(&x, i), tree.mu(leaf));
    }
}
