use rand::rngs::ThreadRng;
use vstd::prelude::*;
use crate::random::choose_copied;
use crate::tree::node::Node;
use crate::tree::tree::{Tree, is_nog_at, lemma_wf_at};

verus! {

broadcast use crate::tree::node::Node::lemma_make;

/// Proposes to prune a singly internal node drawn from the tree: the leaf
/// that would take its place.  `None` exactly when the tree has no singly
/// internal node (it is a single leaf).
pub fn prune_proposal(tree: &Tree, rng: &mut ThreadRng) -> (r: Option<Node>)
    requires
        tree.wf(),
    ensures
        r is None <==> forall|p: u8| !#[trigger] is_nog_at(tree.nodes_view(), p as int),
        r matches Some(n) ==> {
            &&& 0 < n.node_id() < 128
            &&& is_nog_at(tree.nodes_view(), n.node_id() as int)
            &&& n == Node::leaf_node(n.node_id())
        },
{
    let all_nog_idx = tree.get_all_nog_idx();
    if all_nog_idx.len() == 0 {
        proof {
            assert forall|p: u8| !#[trigger] is_nog_at(tree.nodes_view(), p as int) by {
                if is_nog_at(tree.nodes_view(), p as int) {
                    assert(all_nog_idx@.contains(p));
                }
            }
        }
        return None;
    }
    let node_idx = match choose_copied(&all_nog_idx, rng) {
        Some(i) => i,
        None => {
            return None;
        },
    };
    proof {
        lemma_wf_at(tree.nodes_view(), node_idx);
    }
    Some(prune_from_draw(tree, node_idx))
}

/// The prune proposal for the drawn singly internal node `node_idx`: the
/// leaf that takes its place, so every singly internal node that the draw
/// can give is proposed as itself.
pub fn prune_from_draw(tree: &Tree, node_idx: u8) -> (r: Node)
    requires
        tree.wf(),
        is_nog_at(tree.nodes_view(), node_idx as int),
    ensures
        r == Node::leaf_node(node_idx),
        r.node_id() == node_idx,
{
    proof {
        lemma_wf_at(tree.nodes_view(), node_idx);
    }
    tree.get_node(node_idx).as_leaf()
}

} // verus!
