use rand::rngs::ThreadRng;
use vstd::prelude::*;
use crate::random::choose_copied;
use crate::tree::node::{Node, depth_of, lemma_depth_bound};
use crate::tree::split::Split;
use crate::tree::tree::{Tree, is_nog_at, lemma_wf_at, lemma_nog_internal, lemma_ancestors_internal};

verus! {

/// Proposes to change the split of a singly internal node drawn from the
/// tree to a sub split, drawn at that node, of a split drawn from
/// `init_splits`.  `None` when the tree has no singly internal node, the
/// drawn node is at depth 6 or deeper, there is no starting split to draw,
/// the drawn split has no sub split left there, or the sub split is the
/// node's own split.  So a proposal is certain when there are starting
/// splits, the tree has a singly internal node, all of them lie above
/// depth 6, and every starting split can be split at each of them and reads
/// another feature than the node's own split; it is impossible when no
/// singly internal node lies above depth 6 with a starting split that can
/// be split there.
pub fn change_proposal(tree: &Tree, init_splits: &Vec<Split>, rng: &mut ThreadRng) -> (r: Option<Node>)
    requires
        tree.wf(),
        forall|k: int| 0 <= k < init_splits.len() ==> #[trigger] init_splits@[k].wf(),
    ensures
        (forall|p: u8| !#[trigger] is_nog_at(tree.nodes_view(), p as int)) ==> r is None,
        r matches Some(n) ==> {
            &&& 0 < n.node_id() < 64
            &&& is_nog_at(tree.nodes_view(), n.node_id() as int)
            &&& !n.spec_is_leaf()
            &&& n.node_split().wf()
            &&& n.node_split() != tree.nodes_view()[n.node_id()].node_split()
            &&& exists|s: Split|
                #![trigger init_splits@.contains(s)]
                {
                    &&& init_splits@.contains(s)
                    &&& s.splittable(tree.nodes_view(), n.node_id())
                    &&& s.is_sub_split(tree.nodes_view(), n.node_id(), n.node_split())
                }
        },
        init_splits.len() > 0 && (exists|k: u8| #[trigger] is_nog_at(tree.nodes_view(), k as int)) && (forall|k: u8|
            #[trigger] is_nog_at(tree.nodes_view(), k as int) ==> k < 64 && forall|s: Split|
                #[trigger] init_splits@.contains(s) ==> s.splittable(tree.nodes_view(), k) && s.feat()
                    != tree.nodes_view()[k].node_split().feat()) ==> r is Some,
        (forall|k: u8|
            #[trigger] is_nog_at(tree.nodes_view(), k as int) ==> k >= 64 || forall|s: Split|
                #[trigger] init_splits@.contains(s) ==> !s.splittable(tree.nodes_view(), k)) ==> r is None,
{
    let all_nog_idx = tree.get_all_nog_idx();
    if all_nog_idx.len() == 0 {
        proof {
            if exists|k: u8| #[trigger] is_nog_at(tree.nodes_view(), k as int) {
                let j = choose|j: u8| #[trigger] is_nog_at(tree.nodes_view(), j as int);
                assert(all_nog_idx@.contains(j));
            }
        }
        return None;
    }
    let node_idx = match choose_copied(&all_nog_idx, rng) {
        Some(i) => i,
        None => {
            return None;
        },
    };
    proof {
        assert(is_nog_at(tree.nodes_view(), node_idx as int));
        lemma_wf_at(tree.nodes_view(), node_idx);
        lemma_nog_internal(tree.nodes_view(), node_idx);
        lemma_ancestors_internal(tree.nodes_view(), node_idx);
        lemma_depth_bound(node_idx as nat);
    }
    if Node::get_idx_depth(node_idx) >= 6 {
        return None;
    }
    let old_split = tree.get_node(node_idx).split();
    proof {
        if init_splits.len() > 0 {
            assert(init_splits@.contains(init_splits@[0]));
        }
    }
    let picked_feat = match choose_copied(init_splits, rng) {
        Some(s) => s,
        None => {
            return None;
        },
    };
    proof {
        let k = choose|k: int| 0 <= k < init_splits.len() && init_splits@[k] == picked_feat;
        assert(init_splits@[k].wf());
    }
    let split = picked_feat.rand_pick_sub_split(tree, node_idx, rng);
    proof {
        if let Some(sp) = split {
            broadcast use crate::tree::split::Split::lemma_split_ext;

            assert(sp.feat() == picked_feat.feat());
            if picked_feat.feat() != old_split.feat() {
                assert(sp != old_split);
            }
        }
    }
    let r = change_from_draw(tree, node_idx, split);
    proof {
        if let Some(n) = r {
            broadcast use crate::tree::node::Node::lemma_make;

            assert(split is Some && n.node_id() == node_idx);
            assert(init_splits@.contains(picked_feat));
            assert(picked_feat.splittable(tree.nodes_view(), n.node_id()));
        }
    }
    r
}

/// The change proposal for the drawn singly internal node `node_idx` and
/// the drawn sub split `sub`: `None` when the node is at depth 6 or deeper,
/// there was no sub split to draw, or it is the node's own split; else the
/// node with split `sub`.
pub fn change_from_draw(tree: &Tree, node_idx: u8, sub: Option<Split>) -> (r: Option<Node>)
    requires
        tree.wf(),
        is_nog_at(tree.nodes_view(), node_idx as int),
    ensures
        r == if depth_of(node_idx as nat) >= 6 {
            None::<Node>
        } else {
            match sub {
                Some(s) if s != tree.nodes_view()[node_idx].node_split() => Some(Node::make(node_idx, s)),
                _ => None::<Node>,
            }
        },
{
    proof {
        lemma_wf_at(tree.nodes_view(), node_idx);
        lemma_nog_internal(tree.nodes_view(), node_idx);
        lemma_depth_bound(node_idx as nat);
    }
    if Node::get_idx_depth(node_idx) >= 6 {
        return None;
    }
    let old_split = tree.get_node(node_idx).split();
    match sub {
        Some(split) if split != old_split => Some(Node::internal(node_idx, split)),
        _ => None,
    }
}

} // verus!
