use rand::rngs::ThreadRng;
use vstd::prelude::*;
use crate::random::choose_copied;
use crate::tree::node::{Node, depth_of, lemma_depth_bound};
use crate::tree::split::Split;
use crate::tree::tree::{Tree, is_leaf_at, lemma_wf_at, lemma_wf_root, lemma_has_leaf, lemma_ancestors_internal};

verus! {

/// Proposes to grow a leaf drawn from the tree into an internal node whose
/// split is a sub split, drawn at that leaf, of a split drawn from
/// `init_splits`.  `None` when the drawn leaf is at depth 7, there is no
/// starting split to draw, or the drawn split has no sub split left there.
/// So a proposal is certain when there are starting splits, every leaf is
/// above depth 7 and every starting split can be split at every leaf, and
/// impossible when no leaf is both.
pub fn grow_proposal(tree: &Tree, init_splits: &Vec<Split>, rng: &mut ThreadRng) -> (r: Option<Node>)
    requires
        tree.wf(),
        forall|k: int| 0 <= k < init_splits.len() ==> #[trigger] init_splits@[k].wf(),
    ensures
        r matches Some(n) ==> {
            &&& 0 < n.node_id() < 128
            &&& is_leaf_at(tree.nodes_view(), n.node_id() as int)
            &&& !n.spec_is_leaf()
            &&& n.node_split().wf()
            &&& exists|s: Split|
                #![trigger init_splits@.contains(s)]
                {
                    &&& init_splits@.contains(s)
                    &&& s.splittable(tree.nodes_view(), n.node_id())
                    &&& s.is_sub_split(tree.nodes_view(), n.node_id(), n.node_split())
                }
        },
        init_splits.len() > 0 && (forall|k: u8|
            #[trigger] is_leaf_at(tree.nodes_view(), k as int) ==> k < 128 && forall|s: Split|
                #[trigger] init_splits@.contains(s) ==> s.splittable(tree.nodes_view(), k)) ==> r is Some,
        (forall|k: u8|
            #[trigger] is_leaf_at(tree.nodes_view(), k as int) ==> k >= 128 || forall|s: Split|
                #[trigger] init_splits@.contains(s) ==> !s.splittable(tree.nodes_view(), k)) ==> r is None,
{
    let all_leaf_idx = tree.get_all_leaf_idx();
    if all_leaf_idx.len() == 0 {
        proof {
            lemma_wf_root(tree.nodes_view());
            lemma_has_leaf(tree.nodes_view(), 1);
            let j = choose|j: u8| is_leaf_at(tree.nodes_view(), j as int);
            assert(all_leaf_idx@.contains(j));
        }
        return None;
    }
    let node_idx = match choose_copied(&all_leaf_idx, rng) {
        Some(i) => i,
        None => {
            return None;
        },
    };
    proof {
        assert(is_leaf_at(tree.nodes_view(), node_idx as int));
        lemma_wf_at(tree.nodes_view(), node_idx);
        lemma_ancestors_internal(tree.nodes_view(), node_idx);
        lemma_depth_bound(node_idx as nat);
    }
    if Node::get_idx_depth(node_idx) >= 7 {
        return None;
    }
    proof {
        if init_splits.len() > 0 {
            assert(init_splits@.contains(init_splits@[0]));
        }
    }
    let picked_feat = match choose_copied(init_splits, rng) {
        Some(s) => s,
        None => {
            return None;
        },
    };
    proof {
        let k = choose|k: int| 0 <= k < init_splits.len() && init_splits@[k] == picked_feat;
        assert(init_splits@[k].wf());
    }
    let split = picked_feat.rand_pick_sub_split(tree, node_idx, rng);
    let r = grow_from_draw(tree, node_idx, split);
    proof {
        if let Some(n) = r {
            broadcast use crate::tree::node::Node::lemma_make;

            assert(split is Some && n.node_id() == node_idx);
            assert(init_splits@.contains(picked_feat));
            assert(picked_feat.splittable(tree.nodes_view(), n.node_id()));
        }
    }
    r
}

/// The grow proposal for the drawn leaf `node_idx` and the drawn sub split
/// `sub`: `None` when the leaf is at depth 7 or there was no sub split to
/// draw, else the leaf turned into an internal node with split `sub`.
pub fn grow_from_draw(tree: &Tree, node_idx: u8, sub: Option<Split>) -> (r: Option<Node>)
    requires
        tree.wf(),
        is_leaf_at(tree.nodes_view(), node_idx as int),
    ensures
        r == if depth_of(node_idx as nat) >= 7 || sub is None {
            None::<Node>
        } else {
            Some(Node::make(node_idx, sub->0))
        },
{
    proof {
        lemma_wf_at(tree.nodes_view(), node_idx);
        lemma_depth_bound(node_idx as nat);
    }
    if Node::get_idx_depth(node_idx) >= 7 {
        return None;
    }
    match sub {
        Some(split) => Some(Node::internal(node_idx, split)),
        None => None,
    }
}

} // verus!
