use rand::thread_rng;
use rust_bart::sampler::prune_proposer::prune_proposal;
use rust_bart::sampler::tree_mutation_proposer::transition_counts;
use rust_bart::sampler_par::change_proposer::{change_from_draw, change_proposal};
use rust_bart::sampler_par::grow_proposer::{grow_from_draw, grow_proposal};
use rust_bart::tree::node::Node;
use rust_bart::tree::split::Split;
use rust_bart::tree::tree::Tree;

fn small_tree() -> Tree {
    let mut tree = Tree::new(4);
    tree.grow_or_change(Node::internal(1, Split::new_continuous(0, 10)));
    tree.grow_or_change(Node::internal(3, Split::new_continuous(1, 10)));
    tree
}

#[test]
fn prune_proposal_needs_a_nog() {
    let mut rng = thread_rng();
    let tree = Tree::new(4);
    assert_eq!(prune_proposal(&tree, &mut rng), None);
    let tree = small_tree();
    for _ in 0..50 {
        assert_eq!(prune_proposal(&tree, &mut rng), Some(Node::leaf(3)));
    }
}

#[test]
fn grow_proposal_grows_a_leaf() {
    let mut rng = thread_rng();
    let tree = small_tree();
    let init = vec![Split::new_continuous(0, 20), Split::new_categorical(2, vec![0, 1, 2])];
    let mut seen = 0;
    for _ in 0..200 {
        if let Some(n) = grow_proposal(&tree, &init, &mut rng) {
            seen += 1;
            assert!(tree.is_leaf(n.idx()));
            assert!(n.is_internal());
            let s = n.split();
            if s.is_continous() {
                assert_eq!(s.feat_idx, 0);
                let v = s.idx_or_bit();
                if n.idx() == 2 {
                    assert!(1 <= v && v < 10);
                } else {
                    assert!(10 <= v && v < 21);
                }
            } else {
                assert_eq!(s.feat_idx, 2);
                let cats = Split::cats(s.idx_or_bit());
                assert!(!cats.is_empty() && !cats.contains(&2));
            }
        }
    }
    assert!(seen > 0);
}

#[test]
fn change_proposal_changes_a_nog() {
    let mut rng = thread_rng();
    let tree = small_tree();
    let init = vec![Split::new_continuous(1, 20)];
    let mut seen = 0;
    for _ in 0..200 {
        if let Some(n) = change_proposal(&tree, &init, &mut rng) {
            seen += 1;
            assert_eq!(n.idx(), 3);
            assert_ne!(n.split(), Split::new_continuous(1, 10));
            assert!(n.split().idx_or_bit() >= 1 && n.split().idx_or_bit() < 21);
        }
    }
    assert!(seen > 0);
    assert_eq!(change_proposal(&Tree::new(2), &init, &mut rng), None);
}

#[test]
fn transition_counts_grow_and_prune() {
    let tree = small_tree();
    // Leaves 2, 6, 7; the only singly internal node is 3.
    assert_eq!(transition_counts(&tree, Node::internal(2, Split::new_continuous(0, 3))), (3, 2));
    assert_eq!(transition_counts(&tree, Node::leaf(3)), (2, 1));
    let root = Tree::new(1);
    assert_eq!(transition_counts(&root, Node::internal(1, Split::new_continuous(0, 3))), (1, 1));
}

#[test]
fn grow_proposal_certain_when_every_leaf_splits() {
    let mut rng = thread_rng();
    let tree = small_tree();
    // Feature 2 is read by no node, so a categorical split of three levels
    // can be split at every leaf.
    let init = vec![Split::new_categorical(2, vec![0, 1, 2])];
    for _ in 0..100 {
        assert!(grow_proposal(&tree, &init, &mut rng).is_some());
    }
    // A single level can never be split.
    let init = vec![Split::new_categorical(2, vec![0])];
    for _ in 0..100 {
        assert!(grow_proposal(&tree, &init, &mut rng).is_none());
    }
}

#[test]
fn change_proposal_certain_for_another_feature() {
    let mut rng = thread_rng();
    let tree = small_tree();
    // The only singly internal node, 3, splits feature 1.
    let init = vec![Split::new_continuous(2, 20)];
    for _ in 0..100 {
        let n = change_proposal(&tree, &init, &mut rng).unwrap();
        assert_eq!(n.idx(), 3);
        assert_eq!(n.split().feat_idx, 2);
    }
    let init = vec![Split::new_continuous(2, 1)];
    for _ in 0..100 {
        assert!(change_proposal(&tree, &init, &mut rng).is_none());
    }
}

#[test]
fn grow_from_draw_cases() {
    let tree = small_tree();
    let s = Split::new_continuous(2, 5);
    assert_eq!(grow_from_draw(&tree, 2, Some(s)), Some(Node::internal(2, s)));
    assert_eq!(grow_from_draw(&tree, 7, Some(s)), Some(Node::internal(7, s)));
    assert_eq!(grow_from_draw(&tree, 6, None), None);

    // A leaf at depth 7 is never grown.
    let mut deep = Tree::new(4);
    let mut k: u8 = 1;
    while k < 128 {
        deep.grow_or_change(Node::internal(k, Split::new_continuous(0, 10)));
        k *= 2;
    }
    assert!(deep.is_leaf(128));
    assert_eq!(Node::get_idx_depth(128), 7);
    assert_eq!(grow_from_draw(&deep, 128, Some(s)), None);
    assert_eq!(grow_from_draw(&deep, 64 + 1, Some(s)), Some(Node::internal(65, s)));
}

#[test]
fn change_from_draw_cases() {
    let tree = small_tree();
    let old = Split::new_continuous(1, 10);
    let s = Split::new_continuous(1, 4);
    assert_eq!(change_from_draw(&tree, 3, Some(s)), Some(Node::internal(3, s)));
    assert_eq!(change_from_draw(&tree, 3, Some(old)), None);
    assert_eq!(change_from_draw(&tree, 3, None), None);

    // A singly internal node at depth 6 is never changed.
    let mut deep = Tree::new(4);
    let mut k: u8 = 1;
    while k < 128 {
        deep.grow_or_change(Node::internal(k, Split::new_continuous(0, 10)));
        k *= 2;
    }
    assert!(deep.is_nog(64));
    assert_eq!(Node::get_idx_depth(64), 6);
    assert_eq!(change_from_draw(&deep, 64, Some(s)), None);
    let mut shallow = Tree::new(4);
    let mut k: u8 = 1;
    while k < 64 {
        shallow.grow_or_change(Node::internal(k, Split::new_continuous(0, 10)));
        k *= 2;
    }
    assert!(shallow.is_nog(32));
    assert_eq!(change_from_draw(&shallow, 32, Some(s)), Some(Node::internal(32, s)));
}

#[test]
fn proposals_without_starting_splits() {
    let mut rng = thread_rng();
    let tree = small_tree();
    let none: Vec<Split> = Vec::new();
    for _ in 0..20 {
        assert_eq!(grow_proposal(&tree, &none, &mut rng), None);
        assert_eq!(change_proposal(&tree, &none, &mut rng), None);
    }
    assert_eq!(change_proposal(&Tree::new(4), &none, &mut rng), None);
}
