use vstd::prelude::*;
use crate::tree::node::Node;
use crate::tree::tree::{Tree, is_leaf_at, is_nog_at, strictly_sorted};

verus! {

/// The singly internal nodes of `nodes`.
pub open spec fn nog_set(nodes: Map<u8, Node>) -> Set<u8> {
    Set::new(|p: u8| is_nog_at(nodes, p as int))
}

proof fn lemma_sorted_len(s: Seq<u8>, set: Set<u8>)
    requires
        strictly_sorted(s),
        forall|k: u8| #[trigger] s.contains(k) <==> set.contains(k),
    ensures
        s.len() == set.len(),
        set.finite(),
{
    assert(s.no_duplicates()) by {
        assert forall|i: int, j: int| 0 <= i < s.len() && 0 <= j < s.len() && i != j implies s[i] != s[j] by {
            if i < j {
                assert(s[i] < s[j]);
            } else {
                assert(s[j] < s[i]);
            }
        }
    }
    s.unique_seq_to_set();
    assert(s.to_set() =~= set);
}

/// The numbers of leaves and of singly internal nodes that the acceptance
/// ratio of a grow or prune move weighs: for a grow of leaf `new.idx()`,
/// the leaves now and the singly internal nodes after the grow (one more,
/// unless `new.idx()` already is one); for a prune, the leaves after the
/// prune (one fewer) and the singly internal nodes now.
pub fn transition_counts(tree: &Tree, new: Node) -> (r: (usize, usize))
    requires
        tree.wf(),
        new.node_id() < 128,
    ensures
        r.0 == if is_leaf_at(tree.nodes_view(), new.node_id() as int) {
            tree.mu_view().dom().len() as int
        } else {
            tree.mu_view().dom().len() - 1
        },
        r.1 == if is_leaf_at(tree.nodes_view(), new.node_id() as int) && !is_nog_at(
            tree.nodes_view(),
            new.node_id() as int,
        ) {
            nog_set(tree.nodes_view()).len() + 1int
        } else {
            nog_set(tree.nodes_view()).len() as int
        },
{
    let leaves = tree.get_all_leaf_idx();
    let nogs = tree.get_all_nog_idx();
    proof {
        lemma_sorted_len(leaves@, tree.mu_view().dom());
        lemma_sorted_len(nogs@, nog_set(tree.nodes_view()));
        crate::tree::tree::lemma_wf_root(tree.nodes_view());
        crate::tree::tree::lemma_has_leaf(tree.nodes_view(), 1);
        let j = choose|j: u8| is_leaf_at(tree.nodes_view(), j as int);
        assert(leaves@.contains(j));
        assert(nogs.len() <= 128) by {
            assert forall|k: int| 0 <= k < nogs.len() implies #[trigger] nogs@[k] <= 127 by {
                assert(nogs@.contains(nogs@[k]));
            }
            lemma_sorted_bound(nogs@, 127);
        }
    }
    let is_grow = tree.is_leaf(new.idx());
    if is_grow {
        let num_nogs = if tree.is_nog(new.idx()) {
            nogs.len()
        } else {
            nogs.len() + 1
        };
        (leaves.len(), num_nogs)
    } else {
        (leaves.len() - 1, nogs.len())
    }
}

/// A strictly increasing sequence of values below `b + 1` has at most
/// `b + 1` elements.
proof fn lemma_sorted_bound(s: Seq<u8>, b: int)
    requires
        strictly_sorted(s),
        b >= -1,
        forall|k: int| 0 <= k < s.len() ==> #[trigger] s[k] <= b,
    ensures
        s.len() <= b + 1,
    decreases s.len(),
{
    if s.len() > 0 {
        assert(s[0] <= b);
        let t = s.drop_last();
        assert forall|k: int| 0 <= k < t.len() implies #[trigger] t[k] <= b - 1 by {
            assert(s[k] < s[s.len() - 1]);
        }
        lemma_sorted_bound(t, b - 1);
    }
}

} // verus!
