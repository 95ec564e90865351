use std::collections::HashMap;
use std::collections::hash_map::Entry;
use vstd::prelude::*;
use crate::tree::node::{Node, depth_of};
use crate::tree::split::Split;

verus! {

broadcast use {
    vstd::std_specs::hash::group_hash_axioms,
    crate::tree::node::Node::lemma_make,
    crate::tree::node::Node::lemma_node_ext,
    crate::tree::split::Split::lemma_leaf_split,
    crate::tree::split::Split::lemma_split_ext,
    vstd::seq_lib::lemma_seq_contains_after_push,
};

/// Whether node `k` is present in `nodes` and is a leaf.
pub open spec fn is_leaf_at(nodes: Map<u8, Node>, k: int) -> bool {
    &&& 0 <= k < 256
    &&& nodes.contains_key(k as u8)
    &&& nodes[k as u8].spec_is_leaf()
}

/// Whether node `k` is present and both of its children are leaves: a
/// singly internal node, the only kind that can be pruned.
pub open spec fn is_nog_at(nodes: Map<u8, Node>, k: int) -> bool {
    &&& 0 <= k < 128
    &&& nodes.contains_key(k as u8)
    &&& is_leaf_at(nodes, 2 * k)
    &&& is_leaf_at(nodes, 2 * k + 1)
}

/// The nodes form a full binary tree in heap numbering, rooted at 1:
/// every stored node carries its own index and a valid split, the parent
/// of every node but the root is a stored internal node, and every
/// internal node has both children.
#[verifier::opaque]
pub open spec fn nodes_wf(nodes: Map<u8, Node>) -> bool {
    &&& nodes.contains_key(1)
    &&& forall|k: u8| #[trigger] nodes.contains_key(k) ==> node_ok(nodes, k)
}

/// The leaf values are kept for exactly the leaves of the tree.
pub open spec fn leaves_match(nodes: Map<u8, Node>, mu: Map<u8, u64>) -> bool {
    forall|k: u8| #[trigger] mu.contains_key(k) <==> is_leaf_at(nodes, k as int)
}

/// What `nodes_wf` says of one stored node.
pub proof fn lemma_wf_at(nodes: Map<u8, Node>, k: u8)
    requires
        nodes_wf(nodes),
        nodes.contains_key(k),
    ensures
        nodes.contains_key(1),
        k >= 1,
        nodes[k].node_id() == k,
        nodes[k].node_split().wf(),
        k > 1 ==> nodes.contains_key(k / 2) && !nodes[k / 2].spec_is_leaf(),
        !nodes[k].spec_is_leaf() ==> k < 128 && nodes.contains_key((2 * k) as u8) && nodes.contains_key(
            (2 * k + 1) as u8,
        ),
{
    reveal(nodes_wf);
}

/// Every stored node of a well-formed tree hangs from the root.
pub proof fn lemma_ancestors_internal(nodes: Map<u8, Node>, k: u8)
    requires
        nodes_wf(nodes),
        nodes.contains_key(k),
    ensures
        ancestors_internal(nodes, k),
    decreases k,
{
    lemma_wf_at(nodes, k);
    if k > 1 {
        lemma_ancestors_internal(nodes, k / 2);
    }
}

/// The root is stored in a well-formed tree.
pub proof fn lemma_wf_root(nodes: Map<u8, Node>)
    requires
        nodes_wf(nodes),
    ensures
        nodes.contains_key(1),
{
    reveal(nodes_wf);
}

/// The nodes after `grow_or_change(new)`: a leaf gets the split of `new`
/// and two leaf children; a singly internal node only changes its split.
pub open spec fn grown_nodes(nodes: Map<u8, Node>, new: Node) -> Map<u8, Node> {
    let k = new.node_id();
    if is_leaf_at(nodes, k as int) {
        nodes.insert(k, new).insert((2 * k) as u8, Node::leaf_node((2 * k) as u8)).insert(
            (2 * k + 1) as u8,
            Node::leaf_node((2 * k + 1) as u8),
        )
    } else {
        nodes.insert(k, new)
    }
}

/// The leaf values after `grow_or_change(new)`.
pub open spec fn grown_mu(nodes: Map<u8, Node>, mu: Map<u8, u64>, new: Node) -> Map<u8, u64> {
    let k = new.node_id();
    if is_leaf_at(nodes, k as int) {
        mu.remove(k).insert((2 * k) as u8, 0).insert((2 * k + 1) as u8, 0)
    } else {
        mu
    }
}

/// The nodes after `prune(new)`: the node becomes `new` and its two leaf
/// children go.
pub open spec fn pruned_nodes(nodes: Map<u8, Node>, new: Node) -> Map<u8, Node> {
    let k = new.node_id();
    nodes.insert(k, new).remove((2 * k) as u8).remove((2 * k + 1) as u8)
}

/// The leaf values after `prune(new)`.
pub open spec fn pruned_mu(mu: Map<u8, u64>, new: Node) -> Map<u8, u64> {
    let k = new.node_id();
    mu.insert(k, 0).remove((2 * k) as u8).remove((2 * k + 1) as u8)
}

/// Strictly increasing.
pub open spec fn strictly_sorted(s: Seq<u8>) -> bool {
    forall|a: int, b: int| 0 <= a < b < s.len() ==> s[a] < s[b]
}

/// The child of node `k` with split `s` that row `i` of `x` moves to.
pub open spec fn child_of(k: u8, s: Split, x: Seq<Vec<i16>>, i: int) -> u8 {
    if s.goes_left(s.feat_val(x, i)) {
        (2 * k) as u8
    } else {
        (2 * k + 1) as u8
    }
}

/// The child of node `n` that row `i` of `x` moves to.
pub open spec fn step(n: Node, x: Seq<Vec<i16>>, i: int) -> u8 {
    child_of(n.node_id(), n.node_split(), x, i)
}

/// The leaf that row `i` of `x` reaches from node `k`.
pub open spec fn walk(nodes: Map<u8, Node>, x: Seq<Vec<i16>>, i: int, k: u8) -> u8
    decreases 256 - k,
{
    if k == 0 || k >= 128 || !nodes.contains_key(k) || nodes[k].spec_is_leaf() {
        k
    } else {
        walk(nodes, x, i, child_of(k, nodes[k].node_split(), x, i))
    }
}

/// Every internal node on the way of row `i` of `x` from node `k` down to a
/// leaf can route the row.
pub open spec fn routes_path(nodes: Map<u8, Node>, x: Seq<Vec<i16>>, i: int, k: u8) -> bool
    decreases 256 - k,
{
    if k == 0 || k >= 128 || !nodes.contains_key(k) || nodes[k].spec_is_leaf() {
        true
    } else {
        &&& nodes[k].node_split().can_route(x, i)
        &&& routes_path(nodes, x, i, child_of(k, nodes[k].node_split(), x, i))
    }
}

/// The node `k` levels above node `w`.
pub open spec fn ancestor(w: u8, k: nat) -> u8
    decreases k,
{
    if k == 0 {
        w
    } else {
        ancestor(w, (k - 1) as nat) / 2
    }
}

/// The node `j + 1` levels above `w` is the node `j` levels above the
/// parent of `w`.
pub proof fn lemma_ancestor_shift(w: u8, j: nat)
    ensures
        ancestor(w, j + 1) == ancestor(w / 2, j),
    decreases j,
{
    assert(ancestor(w, j + 1) == ancestor(w, j) / 2);
    if j > 0 {
        lemma_ancestor_shift(w, (j - 1) as nat);
        assert(ancestor(w / 2, j) == ancestor(w / 2, (j - 1) as nat) / 2);
    } else {
        assert(ancestor(w, 0) == w);
        assert(ancestor(w / 2, 0) == w / 2);
    }
}

/// Every proper ancestor of node `k`, up to the root, is a stored internal
/// node.
pub open spec fn ancestors_internal(nodes: Map<u8, Node>, k: u8) -> bool
    decreases k,
{
    k <= 1 || {
        &&& nodes.contains_key(k / 2)
        &&& !nodes[k / 2].spec_is_leaf()
        &&& ancestors_internal(nodes, k / 2)
    }
}

/// Every internal node can route row `i` of `x`.
pub open spec fn routes_row(nodes: Map<u8, Node>, x: Seq<Vec<i16>>, i: int) -> bool {
    forall|k: u8|
        #![trigger nodes.contains_key(k)]
        nodes.contains_key(k) && !nodes[k].spec_is_leaf() ==> nodes[k].node_split().can_route(x, i)
}

/// Every row's pointer names the leaf that the row reaches from the root.
pub open spec fn routes_consistently(nodes: Map<u8, Node>, ptrs: Seq<u8>, x: Seq<Vec<i16>>) -> bool {
    forall|i: int| 0 <= i < ptrs.len() ==> #[trigger] ptrs[i] == walk(nodes, x, i, 1)
}

/// The row pointers after routing the rows of leaf `new.idx()` to the
/// children of `new`.
pub open spec fn grow_routed(ptrs: Seq<u8>, new: Node, x: Seq<Vec<i16>>) -> Seq<u8> {
    Seq::new(
        ptrs.len(),
        |i: int|
            if ptrs[i] == new.node_id() {
                step(new, x, i)
            } else {
                ptrs[i]
            },
    )
}

/// The row pointers after moving the rows of the children of `new.idx()`
/// that `new` sends to the other side onto the matching grandchildren:
/// rows of the left child that go right to `2 * left + 1`, rows of the
/// right child that go left to `2 * right`.
pub open spec fn change_routed(ptrs: Seq<u8>, new: Node, x: Seq<Vec<i16>>) -> Seq<u8> {
    let k = new.node_id();
    let l = 2 * k;
    let r = 2 * k + 1;
    Seq::new(
        ptrs.len(),
        |i: int|
            if ptrs[i] == l && step(new, x, i) == r {
                (2 * l + 1) as u8
            } else if ptrs[i] == r && step(new, x, i) == l {
                (2 * r) as u8
            } else {
                ptrs[i]
            },
    )
}

/// The row pointers after `settle_leaf_idx_pg(node)`: unless there is no
/// node or it is (still) singly internal, the rows of its children come
/// back to it.
pub open spec fn settled_pg(nodes: Map<u8, Node>, ptrs: Seq<u8>, node: Option<Node>) -> Seq<u8> {
    match node {
        None => ptrs,
        Some(n) => {
            let k = n.node_id();
            if is_nog_at(nodes, k as int) {
                ptrs
            } else {
                Seq::new(
                    ptrs.len(),
                    |i: int|
                        if ptrs[i] == 2 * k || ptrs[i] == 2 * k + 1 {
                            k
                        } else {
                            ptrs[i]
                        },
                )
            }
        },
    }
}

/// The row pointers after `settle_leaf_idx_change(node)`: the rows moved
/// onto grandchildren by `change_routed` go to the side that the stored
/// split of `node.idx()` gives them when it is `node` (the change was
/// accepted), and back where they came from otherwise.
pub open spec fn settled_change(nodes: Map<u8, Node>, ptrs: Seq<u8>, node: Option<Node>) -> Seq<u8> {
    match node {
        None => ptrs,
        Some(n) => {
            let k = n.node_id();
            let l = 2 * k;
            let r = 2 * k + 1;
            let accepted = nodes[k] == n;
            Seq::new(
                ptrs.len(),
                |i: int|
                    if ptrs[i] == 2 * l + 1 {
                        if accepted {
                            r as u8
                        } else {
                            l as u8
                        }
                    } else if ptrs[i] == 2 * r {
                        if accepted {
                            l as u8
                        } else {
                            r as u8
                        }
                    } else {
                        ptrs[i]
                    },
            )
        },
    }
}

/// The leaves below node `k`, left to right.
pub open spec fn leaves_under(nodes: Map<u8, Node>, k: u8) -> Seq<u8>
    decreases 256 - k,
{
    if k == 0 || k >= 128 || !nodes.contains_key(k) || nodes[k].spec_is_leaf() {
        seq![k]
    } else {
        leaves_under(nodes, (2 * k) as u8) + leaves_under(nodes, (2 * k + 1) as u8)
    }
}

/// The path from the root to node `k`: each node on it with whether the
/// path goes on to its left child; `last_left` for `k` itself.
pub open spec fn path_to(k: u8, last_left: bool) -> Seq<(u8, bool)>
    decreases k,
{
    if k <= 1 {
        seq![(k, last_left)]
    } else {
        path_to(k / 2, k % 2 == 0).push((k, last_left))
    }
}

/// A regression tree in heap numbering.  `leaf_mu` holds, for each leaf,
/// the bit pattern of its leaf value; `leaf_idx[i]` is the node that row
/// `i` of the data currently belongs to.
#[derive(Clone, Debug)]
pub struct Tree {
    nodes: HashMap<u8, Node>,
    leaf_mu: HashMap<u8, u64>,
    pub leaf_idx: Vec<u8>,
}

impl Tree {
    pub closed spec fn nodes_view(self) -> Map<u8, Node> {
        self.nodes@
    }

    pub closed spec fn mu_view(self) -> Map<u8, u64> {
        self.leaf_mu@
    }

    pub closed spec fn ptrs(self) -> Seq<u8> {
        self.leaf_idx@
    }

    pub open spec fn wf(self) -> bool {
        &&& nodes_wf(self.nodes_view())
        &&& leaves_match(self.nodes_view(), self.mu_view())
    }

    /// A tree of one leaf, the root, with value 0, and all `n` rows in it.
    pub fn new(n: usize) -> (t: Self)
        requires
            n > 0,
        ensures
            t.wf(),
            t.nodes_view() == Map::<u8, Node>::empty().insert(1, Node::leaf_node(1)),
            t.mu_view() == Map::<u8, u64>::empty().insert(1, 0),
            t.ptrs() == Seq::new(n as nat, |i: int| 1u8),
    {
        let leaf_idx = vec![1u8; n];
        let root = Node::leaf(1);
        let mut leaf_mu: HashMap<u8, u64> = HashMap::new();
        leaf_mu.insert(root.idx(), 0);
        let mut nodes: HashMap<u8, Node> = HashMap::new();
        nodes.insert(root.idx(), root);
        let t = Tree { nodes, leaf_mu, leaf_idx };
        proof {
            assert(nodes_wf(t.nodes_view())) by {
                reveal(nodes_wf);
            }
            assert(t.ptrs() =~= Seq::new(n as nat, |i: int| 1u8));
            assert forall|k: u8| #[trigger] t.mu_view().contains_key(k) <==> is_leaf_at(t.nodes_view(), k as int) by {
            }
        }
        t
    }

    /// The node that each row of the data currently belongs to.
    pub fn leaf_idx(&self) -> (r: &Vec<u8>)
        ensures
            r@ == self.ptrs(),
    {
        &self.leaf_idx
    }

    /// The node stored at `idx`.
    pub fn get_node(&self, idx: u8) -> (r: &Node)
        requires
            self.nodes_view().contains_key(idx),
        ensures
            *r == self.nodes_view()[idx],
    {
        self.nodes.get(&idx).unwrap()
    }

    /// The bit pattern of the value of leaf `idx`.
    pub fn mu(&self, idx: u8) -> (r: u64)
        requires
            self.mu_view().contains_key(idx),
        ensures
            r == self.mu_view()[idx],
    {
        *self.leaf_mu.get(&idx).unwrap()
    }

    /// Sets the value of leaf `idx` and returns the old one.
    pub fn set_mu(&mut self, idx: u8, mu: u64) -> (r: u64)
        requires
            old(self).mu_view().contains_key(idx),
        ensures
            r == old(self).mu_view()[idx],
            final(self).mu_view() == old(self).mu_view().insert(idx, mu),
            final(self).nodes_view() == old(self).nodes_view(),
            final(self).ptrs() == old(self).ptrs(),
            old(self).wf() ==> final(self).wf(),
    {
        let old_mu = self.mu(idx);
        self.leaf_mu.insert(idx, mu);
        proof {
            assert forall|k: u8| #[trigger] self.mu_view().contains_key(k) <==> old(self).mu_view().contains_key(k) by {
            }
        }
        old_mu
    }

    fn add_node(&mut self, node: Node)
        ensures
            final(self).nodes_view() == old(self).nodes_view().insert(node.node_id(), node),
            final(self).mu_view() == old(self).mu_view(),
            final(self).ptrs() == old(self).ptrs(),
    {
        self.nodes.insert(node.idx(), node);
    }

    pub fn is_leaf(&self, node_idx: u8) -> (r: bool)
        ensures
            r == is_leaf_at(self.nodes_view(), node_idx as int),
    {
        match self.nodes.get(&node_idx) {
            Some(n) => n.is_leaf(),
            None => false,
        }
    }

    pub fn is_nog(&self, node_idx: u8) -> (r: bool)
        requires
            node_idx < 128,
        ensures
            r == is_nog_at(self.nodes_view(), node_idx as int),
    {
        let left_idx = Node::get_left_idx(node_idx);
        let right_idx = Node::get_right_idx(node_idx);
        self.nodes.contains_key(&node_idx) && self.is_leaf(left_idx) && self.is_leaf(right_idx)
    }

    /// The leaf that row `idx` of `x` falls in.
    pub fn predict(&self, x: &Vec<Vec<i16>>, idx: usize) -> (r: u8)
        requires
            self.wf(),
            routes_path(self.nodes_view(), x@, idx as int, 1),
        ensures
            r == walk(self.nodes_view(), x@, idx as int, 1),
            is_leaf_at(self.nodes_view(), r as int),
            ancestor(r, depth_of(r as nat)) == 1,
            forall|k: nat|
                #![trigger ancestor(r, k)]
                1 <= k <= depth_of(r as nat) ==> {
                    &&& self.nodes_view().contains_key(ancestor(r, k))
                    &&& !self.nodes_view()[ancestor(r, k)].spec_is_leaf()
                    &&& step(self.nodes_view()[ancestor(r, k)], x@, idx as int) == ancestor(r, (k - 1) as nat)
                },
    {
        proof {
            lemma_wf_root(self.nodes_view());
            lemma_walk_reaches_leaf(self.nodes_view(), x@, idx as int, 1);
        }
        let ghost nodes = self.nodes_view();
        proof {
            lemma_wf_at(nodes, 1);
        }
        let mut node = self.get_node(1);
        loop
            invariant
                nodes == self.nodes_view(),
                self.wf(),
                routes_path(nodes, x@, idx as int, node.node_id()),
                nodes.contains_key(node.node_id()),
                *node == nodes[node.node_id()],
                walk(nodes, x@, idx as int, node.node_id()) == walk(nodes, x@, idx as int, 1),
            decreases 256 - node.node_id(),
        {
            let ghost k = node.node_id();
            proof {
                lemma_wf_at(nodes, k);
            }
            if node.is_leaf() {
                proof {
                    lemma_wf_root(nodes);
                    lemma_walk_ancestors_from(nodes, x@, idx as int, 1);
                }
                return node.idx();
            }
            let child_idx = node.child_idx(x, idx);
            proof {
                lemma_wf_at(nodes, child_idx);
            }
            node = self.get_node(child_idx);
        }
    }

    /// The bit pattern of the value of the leaf that row `idx` of `x` falls in.
    pub fn predict_mu(&self, x: &Vec<Vec<i16>>, idx: usize) -> (r: u64)
        requires
            self.wf(),
            routes_path(self.nodes_view(), x@, idx as int, 1),
        ensures
            r == self.mu_view()[walk(self.nodes_view(), x@, idx as int, 1)],
    {
        let leaf = self.predict(x, idx);
        self.mu(leaf)
    }

    /// The leaves of the tree, in increasing order.
    pub fn get_all_leaf_idx(&self) -> (r: Vec<u8>)
        ensures
            strictly_sorted(r@),
            forall|k: u8| #[trigger] r@.contains(k) <==> self.mu_view().contains_key(k),
    {
        let mut ret: Vec<u8> = Vec::new();
        let mut k: u16 = 0;
        while k < 256
            invariant
                k <= 256,
                strictly_sorted(ret@),
                forall|j: int| 0 <= j < ret.len() ==> #[trigger] ret@[j] < k,
                forall|j: u8| #[trigger] ret@.contains(j) <==> (j < k && self.mu_view().contains_key(j)),
            decreases 256 - k,
        {
            let key = k as u8;
            if self.leaf_mu.contains_key(&key) {
                ret.push(key);
            }
            k = k + 1;
        }
        ret
    }

    /// The singly internal nodes (both children leaves), in increasing
    /// order: the parents of the pairs of sibling leaves.
    pub fn get_all_nog_idx(&self) -> (r: Vec<u8>)
        requires
            self.wf(),
        ensures
            strictly_sorted(r@),
            forall|k: u8| #[trigger] r@.contains(k) <==> is_nog_at(self.nodes_view(), k as int),
    {
        let ghost nodes = self.nodes_view();
        let leaf_idxes = self.get_all_leaf_idx();
        proof {
            lemma_wf_root(nodes);
            lemma_has_leaf(nodes, 1);
            let j = choose|j: u8| is_leaf_at(nodes, j as int);
            assert(self.mu_view().contains_key(j));
            assert(leaf_idxes@.contains(j));
        }
        let n = leaf_idxes.len();
        let mut ret: Vec<u8> = Vec::new();
        let mut i: usize = 0;
        while i < n - 1
            invariant
                n == leaf_idxes.len(),
                n >= 1,
                i <= n,
                nodes == self.nodes_view(),
                self.wf(),
                strictly_sorted(leaf_idxes@),
                forall|k: u8| #[trigger] leaf_idxes@.contains(k) <==> is_leaf_at(nodes, k as int),
                strictly_sorted(ret@),
                forall|k: u8| #[trigger] ret@.contains(k) ==> is_nog_at(nodes, k as int),
                forall|j: int|
                    0 <= j < i && #[trigger] leaf_idxes@[j] % 2 == 0 && is_leaf_at(nodes, leaf_idxes@[j] + 1)
                        ==> ret@.contains(leaf_idxes@[j] / 2),
                i < n ==> forall|a: int| 0 <= a < ret.len() ==> 2 * #[trigger] ret@[a] + 1 < leaf_idxes@[i as int],
            decreases n - i,
        {
            let cur = leaf_idxes[i];
            let next = leaf_idxes[i + 1];
            if Node::idx_is_left(cur) && next - cur == 1 {
                let p = Node::get_parent_idx(cur);
                proof {
                    assert(leaf_idxes@.contains(next));
                    assert(leaf_idxes@.contains(cur));
                    lemma_wf_at(nodes, cur);
                    assert(cur > 1);
                    assert(nodes.contains_key(p));
                    assert(is_nog_at(nodes, p as int));
                    let r2 = ret@.push(p);
                    assert forall|j: int|
                        0 <= j < i + 2 && #[trigger] leaf_idxes@[j] % 2 == 0 && is_leaf_at(nodes, leaf_idxes@[j] + 1)
                        implies r2.contains(leaf_idxes@[j] / 2) by {
                        if j == i {
                            assert(r2[ret.len() as int] == p);
                        } else if j < i {
                            let a = choose|a: int| 0 <= a < ret.len() && ret@[a] == leaf_idxes@[j] / 2;
                            assert(r2[a] == leaf_idxes@[j] / 2);
                        }
                    }
                }
                ret.push(p);
                i = i + 2;
            } else {
                proof {
                    if cur % 2 == 0 && is_leaf_at(nodes, cur + 1) {
                        let c1 = (cur + 1) as u8;
                        assert(leaf_idxes@.contains(c1));
                        let m = choose|m: int| 0 <= m < n && leaf_idxes@[m] == c1;
                        if m > i + 1 {
                            assert(leaf_idxes@[i + 1] < leaf_idxes@[m]);
                        }
                        assert(false);
                    }
                }
                i = i + 1;
            }
        }
        proof {
            assert forall|k: u8| is_nog_at(nodes, k as int) implies #[trigger] ret@.contains(k) by {
                let l = (2 * k) as u8;
                assert(leaf_idxes@.contains(l));
                let j = choose|j: int| 0 <= j < n && leaf_idxes@[j] == l;
                if j >= i {
                    let c1 = (2 * k + 1) as u8;
                    assert(leaf_idxes@.contains(c1));
                    let m = choose|m: int| 0 <= m < n && leaf_idxes@[m] == c1;
                    assert(leaf_idxes@[m] > leaf_idxes@[j]);
                    assert(false);
                }
                assert(leaf_idxes@[j] % 2 == 0);
                assert(leaf_idxes@[j] / 2 == k);
            }
        }
        ret
    }

    /// Moves every row of leaf `new.idx()` to the child of `new` that the
    /// split of `new` sends it to (the row bookkeeping of a grow proposal).
    pub fn route_grow_leaf_idx(&mut self, new: &Node, x: &Vec<Vec<i16>>)
        requires
            0 < new.node_id() < 128,
            !new.spec_is_leaf(),
            forall|i: int|
                0 <= i < old(self).ptrs().len() && #[trigger] old(self).ptrs()[i] == new.node_id()
                    ==> new.node_split().can_route(x@, i),
        ensures
            final(self).ptrs() == grow_routed(old(self).ptrs(), *new, x@),
            final(self).nodes_view() == old(self).nodes_view(),
            final(self).mu_view() == old(self).mu_view(),
    {
        let n = self.leaf_idx.len();
        let cur = new.idx();
        let left_idx = new.left_idx();
        let right_idx = new.right_idx();
        let mut i: usize = 0;
        while i < n
            invariant
                n == self.leaf_idx.len(),
                i <= n,
                cur == new.node_id(),
                0 < new.node_id() < 128,
                left_idx == 2 * new.node_id(),
                right_idx == 2 * new.node_id() + 1,
                self.nodes_view() == old(self).nodes_view(),
                self.mu_view() == old(self).mu_view(),
                !new.spec_is_leaf(),
                n == old(self).ptrs().len(),
                forall|j: int|
                    0 <= j < n && #[trigger] old(self).ptrs()[j] == new.node_id() ==> new.node_split().can_route(x@, j),
                forall|j: int| 0 <= j < i ==> #[trigger] self.ptrs()[j] == grow_routed(old(self).ptrs(), *new, x@)[j],
                forall|j: int| i <= j < n ==> #[trigger] self.ptrs()[j] == old(self).ptrs()[j],
            decreases n - i,
        {
            let p = self.leaf_idx[i];
            assert(p == self.ptrs()[i as int]);
            assert(p == old(self).ptrs()[i as int]);
            assert(grow_routed(old(self).ptrs(), *new, x@)[i as int] == if p == cur {
                step(*new, x@, i as int)
            } else {
                p
            });
            if p == cur {
                if new.go_left(x, i) {
                    self.leaf_idx.set(i, left_idx);
                } else {
                    self.leaf_idx.set(i, right_idx);
                }
            }
            i = i + 1;
        }
        assert(self.ptrs() =~= grow_routed(old(self).ptrs(), *new, x@));
    }

    /// Moves the rows of the children of `new.idx()` that the split of
    /// `new` sends to the other side onto the matching grandchildren (the
    /// row bookkeeping of a change proposal).
    pub fn route_change_leaf_idx(&mut self, new: &Node, x: &Vec<Vec<i16>>)
        requires
            0 < new.node_id() < 64,
            !new.spec_is_leaf(),
            forall|i: int|
                0 <= i < old(self).ptrs().len() && (#[trigger] old(self).ptrs()[i] == 2 * new.node_id()
                    || old(self).ptrs()[i] == 2 * new.node_id() + 1) ==> new.node_split().can_route(x@, i),
        ensures
            final(self).ptrs() == change_routed(old(self).ptrs(), *new, x@),
            final(self).nodes_view() == old(self).nodes_view(),
            final(self).mu_view() == old(self).mu_view(),
    {
        let n = self.leaf_idx.len();
        let left_idx = new.left_idx();
        let right_idx = new.right_idx();
        let left_right_idx = Node::get_right_idx(left_idx);
        let right_left_idx = Node::get_left_idx(right_idx);
        let mut i: usize = 0;
        while i < n
            invariant
                n == self.leaf_idx.len(),
                i <= n,
                0 < new.node_id() < 64,
                left_idx == 2 * new.node_id(),
                right_idx == 2 * new.node_id() + 1,
                left_right_idx == 2 * left_idx + 1,
                right_left_idx == 2 * right_idx,
                self.nodes_view() == old(self).nodes_view(),
                self.mu_view() == old(self).mu_view(),
                !new.spec_is_leaf(),
                n == old(self).ptrs().len(),
                forall|j: int|
                    0 <= j < n && (#[trigger] old(self).ptrs()[j] == 2 * new.node_id() || old(self).ptrs()[j] == 2
                        * new.node_id() + 1) ==> new.node_split().can_route(x@, j),
                forall|j: int| 0 <= j < i ==> #[trigger] self.ptrs()[j] == change_routed(old(self).ptrs(), *new, x@)[j],
                forall|j: int| i <= j < n ==> #[trigger] self.ptrs()[j] == old(self).ptrs()[j],
            decreases n - i,
        {
            let p = self.leaf_idx[i];
            assert(p == self.ptrs()[i as int]);
            assert(p == old(self).ptrs()[i as int]);
            if p == left_idx && new.go_right(x, i) {
                self.leaf_idx.set(i, left_right_idx);
            } else if p == right_idx && new.go_left(x, i) {
                self.leaf_idx.set(i, right_left_idx);
            }
            i = i + 1;
        }
        assert(self.ptrs() =~= change_routed(old(self).ptrs(), *new, x@));
    }

    /// The row bookkeeping after a grow or prune step: unless there is no
    /// proposal or its node is singly internal now (a grow was accepted or
    /// a prune rejected), the rows of its children come back to it.
    pub fn settle_leaf_idx_pg(&mut self, node: Option<Node>)
        requires
            node matches Some(n) ==> 0 < n.node_id() < 128,
        ensures
            final(self).ptrs() == settled_pg(old(self).nodes_view(), old(self).ptrs(), node),
            final(self).nodes_view() == old(self).nodes_view(),
            final(self).mu_view() == old(self).mu_view(),
    {
        let new = match node {
            None => {
                return;
            },
            Some(n) => n,
        };
        if self.is_nog(new.idx()) {
            return;
        }
        let cur_idx = new.idx();
        let left_idx = new.left_idx();
        let right_idx = new.right_idx();
        let n = self.leaf_idx.len();
        let ghost target = settled_pg(old(self).nodes_view(), old(self).ptrs(), node);
        let mut i: usize = 0;
        while i < n
            invariant
                n == self.leaf_idx.len(),
                i <= n,
                n == old(self).ptrs().len(),
                target.len() == n,
                cur_idx == new.node_id(),
                left_idx == 2 * cur_idx,
                right_idx == 2 * cur_idx + 1,
                self.nodes_view() == old(self).nodes_view(),
                self.mu_view() == old(self).mu_view(),
                forall|j: int|
                    0 <= j < n ==> #[trigger] target[j] == if old(self).ptrs()[j] == left_idx || old(self).ptrs()[j]
                        == right_idx {
                        cur_idx
                    } else {
                        old(self).ptrs()[j]
                    },
                forall|j: int| 0 <= j < i ==> #[trigger] self.ptrs()[j] == target[j],
                forall|j: int| i <= j < n ==> #[trigger] self.ptrs()[j] == old(self).ptrs()[j],
            decreases n - i,
        {
            let p = self.leaf_idx[i];
            assert(p == self.ptrs()[i as int]);
            assert(p == old(self).ptrs()[i as int]);
            if p == left_idx || p == right_idx {
                self.leaf_idx.set(i, cur_idx);
            }
            i = i + 1;
        }
        assert(self.ptrs() =~= target);
    }

    /// The row bookkeeping after a change step: the rows that
    /// `route_change_leaf_idx` moved onto grandchildren go to the side that
    /// the proposed split gives them if it was accepted (the stored node is
    /// the proposal), and back to where they were otherwise.
    pub fn settle_leaf_idx_change(&mut self, node: Option<Node>)
        requires
            node matches Some(n) ==> 0 < n.node_id() < 64 && old(self).nodes_view().contains_key(n.node_id()),
        ensures
            final(self).ptrs() == settled_change(old(self).nodes_view(), old(self).ptrs(), node),
            final(self).nodes_view() == old(self).nodes_view(),
            final(self).mu_view() == old(self).mu_view(),
    {
        let new = match node {
            None => {
                return;
            },
            Some(n) => n,
        };
        let res = *self.get_node(new.idx());
        let is_accept = res == new;
        let left_idx = new.left_idx();
        let right_idx = new.right_idx();
        let left_right_idx = Node::get_right_idx(left_idx);
        let right_left_idx = Node::get_left_idx(right_idx);
        let n = self.leaf_idx.len();
        let ghost target = settled_change(old(self).nodes_view(), old(self).ptrs(), node);
        let mut i: usize = 0;
        while i < n
            invariant
                n == self.leaf_idx.len(),
                i <= n,
                n == old(self).ptrs().len(),
                target.len() == n,
                0 < new.node_id() < 64,
                left_idx == 2 * new.node_id(),
                right_idx == 2 * new.node_id() + 1,
                left_right_idx == 2 * left_idx + 1,
                right_left_idx == 2 * right_idx,
                is_accept == (old(self).nodes_view()[new.node_id()] == new),
                self.nodes_view() == old(self).nodes_view(),
                self.mu_view() == old(self).mu_view(),
                forall|j: int|
                    0 <= j < n ==> #[trigger] target[j] == if old(self).ptrs()[j] == left_right_idx {
                        if is_accept {
                            right_idx
                        } else {
                            left_idx
                        }
                    } else if old(self).ptrs()[j] == right_left_idx {
                        if is_accept {
                            left_idx
                        } else {
                            right_idx
                        }
                    } else {
                        old(self).ptrs()[j]
                    },
                forall|j: int| 0 <= j < i ==> #[trigger] self.ptrs()[j] == target[j],
                forall|j: int| i <= j < n ==> #[trigger] self.ptrs()[j] == old(self).ptrs()[j],
            decreases n - i,
        {
            let p = self.leaf_idx[i];
            assert(p == self.ptrs()[i as int]);
            assert(p == old(self).ptrs()[i as int]);
            if is_accept && p == left_right_idx {
                self.leaf_idx.set(i, right_idx);
            } else if is_accept && p == right_left_idx {
                self.leaf_idx.set(i, left_idx);
            } else if p == left_right_idx {
                self.leaf_idx.set(i, left_idx);
            } else if p == right_left_idx {
                self.leaf_idx.set(i, right_idx);
            }
            i = i + 1;
        }
        assert(self.ptrs() =~= target);
    }

    /// The node stored at `idx`, to be changed in place.
    pub fn get_mut_node(&mut self, idx: u8) -> (r: &mut Node)
        requires
            old(self).nodes_view().contains_key(idx),
        ensures
            *r == old(self).nodes_view()[idx],
            final(self).nodes_view() == old(self).nodes_view().insert(idx, *final(r)),
            final(self).mu_view() == old(self).mu_view(),
            final(self).ptrs() == old(self).ptrs(),
    {
        match self.nodes.entry(idx) {
            Entry::Occupied(o) => o.into_mut(),
            Entry::Vacant(v) => {
                proof {
                    assert(false);
                }
                v.insert(Node::leaf(1))
            },
        }
    }

    /// The leaves of the tree, left to right (in preorder).
    pub fn leaves_in_preorder(&self) -> (r: Vec<u8>)
        requires
            self.wf(),
        ensures
            r@ == leaves_under(self.nodes_view(), 1),
    {
        let mut ret: Vec<u8> = Vec::new();
        proof {
            lemma_wf_root(self.nodes_view());
        }
        self.collect_leaves(1, &mut ret);
        ret
    }

    fn collect_leaves(&self, k: u8, ret: &mut Vec<u8>)
        requires
            self.wf(),
            self.nodes_view().contains_key(k),
        ensures
            final(ret)@ == old(ret)@ + leaves_under(self.nodes_view(), k),
        decreases 256 - k,
    {
        proof {
            lemma_wf_at(self.nodes_view(), k);
        }
        if self.is_leaf(k) {
            ret.push(k);
            proof {
                assert(old(ret)@ + seq![k] == old(ret)@.push(k));
            }
        } else {
            let ghost before = ret@;
            self.collect_leaves(Node::get_left_idx(k), ret);
            let ghost mid = ret@;
            self.collect_leaves(Node::get_right_idx(k), ret);
            proof {
                assert(ret@ == before + leaves_under(self.nodes_view(), (2 * k) as u8) + leaves_under(
                    self.nodes_view(),
                    (2 * k + 1) as u8,
                ));
                assert(leaves_under(self.nodes_view(), k) == leaves_under(self.nodes_view(), (2 * k) as u8)
                    + leaves_under(self.nodes_view(), (2 * k + 1) as u8));
                assert(ret@ =~= before + leaves_under(self.nodes_view(), k));
            }
        }
    }

    /// The path from the root to `node_idx`: each node on it, root first,
    /// with whether the path goes on to its left child (`false` for
    /// `node_idx` itself).
    pub fn id_path(node_idx: u8) -> (r: Vec<(u8, bool)>)
        ensures
            r@ == path_to(node_idx, false),
    {
        let mut up: Vec<(u8, bool)> = Vec::new();
        up.push((node_idx, false));
        let mut parent_idx: u8 = node_idx;
        while parent_idx > 1
            invariant
                up.len() >= 1,
                path_to(node_idx, false) == path_to(parent_idx, up@[up.len() - 1].1) + up@.reverse().drop_first(),
                up@[up.len() - 1].0 == parent_idx,
            decreases parent_idx,
        {
            let is_left = Node::idx_is_left(parent_idx);
            let ghost old_up = up@;
            parent_idx = Node::get_parent_idx(parent_idx);
            up.push((parent_idx, is_left));
            proof {
                assert(up@.reverse().drop_first() =~= old_up.reverse());
                assert(old_up.reverse() =~= seq![old_up[old_up.len() - 1]] + old_up.reverse().drop_first());
            }
        }
        let mut ret: Vec<(u8, bool)> = Vec::new();
        let mut i: usize = up.len();
        while i > 0
            invariant
                i <= up.len(),
                ret@ == up@.reverse().subrange(0, up.len() - i),
            decreases i,
        {
            i = i - 1;
            ret.push(up[i]);
            proof {
                assert(up@.reverse().subrange(0, up.len() - i) =~= up@.reverse().subrange(0, up.len() - i - 1).push(up@[i as int]));
            }
        }
        proof {
            assert(up@.reverse().subrange(0, up.len() as int) =~= up@.reverse());
            assert(up@.reverse() =~= seq![up@[up.len() - 1]] + up@.reverse().drop_first());
            assert(path_to(parent_idx, up@[up.len() - 1].1) =~= seq![up@[up.len() - 1]]);
        }
        ret
    }

    /// Grows leaf `new.idx()` into the internal node `new` with two leaf
    /// children of value 0, or gives the singly internal node `new.idx()`
    /// the split of `new`.
    pub fn grow_or_change(&mut self, new: Node)
        requires
            0 < new.node_id() < 128,
            is_leaf_at(old(self).nodes_view(), new.node_id() as int) || is_nog_at(
                old(self).nodes_view(),
                new.node_id() as int,
            ),
        ensures
            final(self).nodes_view() == grown_nodes(old(self).nodes_view(), new),
            final(self).mu_view() == grown_mu(old(self).nodes_view(), old(self).mu_view(), new),
            is_leaf_at(old(self).nodes_view(), new.node_id() as int) ==> {
                &&& final(self).mu_view().contains_key((2 * new.node_id()) as u8)
                &&& final(self).mu_view()[(2 * new.node_id()) as u8] == 0
                &&& final(self).mu_view().contains_key((2 * new.node_id() + 1) as u8)
                &&& final(self).mu_view()[(2 * new.node_id() + 1) as u8] == 0
                &&& !final(self).mu_view().contains_key(new.node_id())
                &&& forall|j: u8|
                    j != new.node_id() && j != 2 * new.node_id() && j != 2 * new.node_id() + 1 ==> {
                        &&& (#[trigger] final(self).mu_view().contains_key(j) <==> old(self).mu_view().contains_key(j))
                        &&& final(self).mu_view()[j] == old(self).mu_view()[j]
                    }
            },
            !is_leaf_at(old(self).nodes_view(), new.node_id() as int) ==> final(self).mu_view() == old(self).mu_view(),
            final(self).ptrs() == old(self).ptrs(),
            old(self).wf() && !new.spec_is_leaf() && new.node_split().wf() ==> final(self).wf(),
    {
        let ghost old_nodes = self.nodes_view();
        let left_idx = new.left_idx();
        let right_idx = new.right_idx();
        let left = Node::leaf(left_idx);
        let right = Node::leaf(right_idx);
        if self.is_leaf(new.idx()) {
            self.add_node(new);
            self.add_node(left);
            self.add_node(right);
            self.leaf_mu.remove(&new.idx());
            self.leaf_mu.insert(left_idx, 0);
            self.leaf_mu.insert(right_idx, 0);
        } else {
            self.add_node(new);
        }
        proof {
            if old(self).wf() && !new.spec_is_leaf() && new.node_split().wf() {
                lemma_grow_wf(old_nodes, old(self).mu_view(), new);
            }
        }
    }

    /// Turns the singly internal node `new.idx()` into the leaf `new` with
    /// value 0, removing its two children.
    pub fn prune(&mut self, new: Node)
        requires
            0 < new.node_id() < 128,
            is_nog_at(old(self).nodes_view(), new.node_id() as int),
            new.spec_is_leaf(),
        ensures
            final(self).nodes_view() == pruned_nodes(old(self).nodes_view(), new),
            final(self).mu_view() == pruned_mu(old(self).mu_view(), new),
            final(self).mu_view().contains_key(new.node_id()),
            final(self).mu_view()[new.node_id()] == 0,
            !final(self).mu_view().contains_key((2 * new.node_id()) as u8),
            !final(self).mu_view().contains_key((2 * new.node_id() + 1) as u8),
            forall|j: u8|
                j != new.node_id() && j != 2 * new.node_id() && j != 2 * new.node_id() + 1 ==> {
                    &&& (#[trigger] final(self).mu_view().contains_key(j) <==> old(self).mu_view().contains_key(j))
                    &&& final(self).mu_view()[j] == old(self).mu_view()[j]
                },
            final(self).ptrs() == old(self).ptrs(),
            old(self).wf() ==> final(self).wf(),
    {
        self.add_node(new);
        self.nodes.remove(&new.left_idx());
        self.nodes.remove(&new.right_idx());
        self.leaf_mu.insert(new.idx(), 0);
        self.leaf_mu.remove(&new.left_idx());
        self.leaf_mu.remove(&new.right_idx());
        proof {
            if old(self).wf() {
                lemma_prune_wf(old(self).nodes_view(), old(self).mu_view(), new);
            }
        }
    }
}

/// Growing a leaf gives both new leaves the value 0 and drops the grown
/// leaf's value; every other leaf keeps its value.
pub proof fn lemma_grow_leaf_values(nodes: Map<u8, Node>, mu: Map<u8, u64>, new: Node)
    requires
        0 < new.node_id() < 128,
        is_leaf_at(nodes, new.node_id() as int),
    ensures
        ({
            let k = new.node_id();
            let g = grown_mu(nodes, mu, new);
            &&& g.contains_key((2 * k) as u8) && g[(2 * k) as u8] == 0
            &&& g.contains_key((2 * k + 1) as u8) && g[(2 * k + 1) as u8] == 0
            &&& !g.contains_key(k)
            &&& forall|j: u8|
                j != k && j != 2 * k && j != 2 * k + 1 ==> (#[trigger] g.contains_key(j) <==> mu.contains_key(j))
                    && g[j] == mu[j]
        }),
{
}

/// Pruning a node gives the new leaf the value 0 and drops the values of
/// its two children; every other leaf keeps its value.
pub proof fn lemma_prune_leaf_values(mu: Map<u8, u64>, new: Node)
    requires
        0 < new.node_id() < 128,
    ensures
        ({
            let k = new.node_id();
            let p = pruned_mu(mu, new);
            &&& p.contains_key(k) && p[k] == 0
            &&& !p.contains_key((2 * k) as u8)
            &&& !p.contains_key((2 * k + 1) as u8)
            &&& forall|j: u8|
                j != k && j != 2 * k && j != 2 * k + 1 ==> (#[trigger] p.contains_key(j) <==> mu.contains_key(j))
                    && p[j] == mu[j]
        }),
{
}

/// The walk of row `i` from a stored node `c` passes through the ancestors
/// of the leaf it reaches, from `c` down: each is a stored internal node
/// that sends the row on to the next.
pub proof fn lemma_walk_ancestors_from(nodes: Map<u8, Node>, x: Seq<Vec<i16>>, i: int, c: u8)
    requires
        nodes_wf(nodes),
        nodes.contains_key(c),
    ensures
        depth_of(c as nat) <= depth_of(walk(nodes, x, i, c) as nat),
        ancestor(walk(nodes, x, i, c), (depth_of(walk(nodes, x, i, c) as nat) - depth_of(c as nat)) as nat) == c,
        forall|k: nat|
            #![trigger ancestor(walk(nodes, x, i, c), k)]
            1 <= k <= depth_of(walk(nodes, x, i, c) as nat) - depth_of(c as nat) ==> {
                let a = ancestor(walk(nodes, x, i, c), k);
                &&& nodes.contains_key(a)
                &&& !nodes[a].spec_is_leaf()
                &&& step(nodes[a], x, i) == ancestor(walk(nodes, x, i, c), (k - 1) as nat)
            },
    decreases 256 - c,
{
    lemma_wf_at(nodes, c);
    if !nodes[c].spec_is_leaf() {
        let d = child_of(c, nodes[c].node_split(), x, i);
        assert(d as nat / 2 == c as nat);
        assert(depth_of(d as nat) == depth_of(c as nat) + 1);
        lemma_walk_ancestors_from(nodes, x, i, d);
        let w = walk(nodes, x, i, d);
        assert(walk(nodes, x, i, c) == w);
        let n = (depth_of(w as nat) - depth_of(d as nat)) as nat;
        assert(ancestor(w, n + 1) == c);
        assert forall|k: nat|
            #![trigger ancestor(w, k)]
            1 <= k <= depth_of(w as nat) - depth_of(c as nat) implies {
                let a = ancestor(w, k);
                &&& nodes.contains_key(a)
                &&& !nodes[a].spec_is_leaf()
                &&& step(nodes[a], x, i) == ancestor(w, (k - 1) as nat)
            } by {
            if k == n + 1 {
                assert(ancestor(w, (k - 1) as nat) == d);
            }
        }
    }
}

/// The walk from a stored node ends at a stored leaf.
pub proof fn lemma_walk_reaches_leaf(nodes: Map<u8, Node>, x: Seq<Vec<i16>>, i: int, k: u8)
    requires
        nodes_wf(nodes),
        nodes.contains_key(k),
    ensures
        is_leaf_at(nodes, walk(nodes, x, i, k) as int),
    decreases 256 - k,
{
    lemma_wf_at(nodes, k);
    if !nodes[k].spec_is_leaf() {
        let c = child_of(k, nodes[k].node_split(), x, i);
        lemma_walk_reaches_leaf(nodes, x, i, c);
    }
}

/// A well-formed tree has a leaf: the leftmost descendant of any node.
pub proof fn lemma_has_leaf(nodes: Map<u8, Node>, k: u8)
    requires
        nodes_wf(nodes),
        nodes.contains_key(k),
    ensures
        exists|j: u8| is_leaf_at(nodes, j as int),
    decreases 256 - k,
{
    lemma_wf_at(nodes, k);
    if nodes[k].spec_is_leaf() {
        assert(is_leaf_at(nodes, k as int));
    } else {
        lemma_has_leaf(nodes, (2 * k) as u8);
    }
}

/// The children of a leaf are not stored.
pub proof fn lemma_leaf_no_children(nodes: Map<u8, Node>, n: u8)
    requires
        nodes_wf(nodes),
        0 < n < 128,
        is_leaf_at(nodes, n as int),
    ensures
        !nodes.contains_key((2 * n) as u8),
        !nodes.contains_key((2 * n + 1) as u8),
{
    if nodes.contains_key((2 * n) as u8) {
        lemma_wf_at(nodes, (2 * n) as u8);
        assert(((2 * n) as u8) / 2 == n);
    }
    if nodes.contains_key((2 * n + 1) as u8) {
        lemma_wf_at(nodes, (2 * n + 1) as u8);
        assert(((2 * n + 1) as u8) / 2 == n);
    }
}

/// A singly internal node is internal.
pub proof fn lemma_nog_internal(nodes: Map<u8, Node>, n: u8)
    requires
        nodes_wf(nodes),
        is_nog_at(nodes, n as int),
    ensures
        !nodes[n].spec_is_leaf(),
        !is_leaf_at(nodes, n as int),
{
    lemma_wf_at(nodes, (2 * n) as u8);
    assert(((2 * n) as u8) / 2 == n);
}

/// After growing leaf `new.idx()`, the rows that reached it reach the child
/// that `new` sends them to; the others reach the same leaf as before.
pub proof fn lemma_walk_grow(nodes: Map<u8, Node>, new: Node, x: Seq<Vec<i16>>, i: int, k: u8)
    requires
        nodes_wf(nodes),
        0 < new.node_id() < 128,
        is_leaf_at(nodes, new.node_id() as int),
        !new.spec_is_leaf(),
        nodes.contains_key(k),
    ensures
        walk(grown_nodes(nodes, new), x, i, k) == if walk(nodes, x, i, k) == new.node_id() {
            step(new, x, i)
        } else {
            walk(nodes, x, i, k)
        },
    decreases 256 - k,
{
    let g = grown_nodes(nodes, new);
    let n = new.node_id();
    lemma_leaf_no_children(nodes, n);
    lemma_wf_at(nodes, k);
    if k == n {
        let c = step(new, x, i);
        assert(g[k] == new);
        assert(g.contains_key(c) && g[c].spec_is_leaf());
        assert(walk(g, x, i, c) == c);
        assert(walk(nodes, x, i, k) == k);
    } else if nodes[k].spec_is_leaf() {
        assert(g[k] == nodes[k]);
        assert(walk(g, x, i, k) == k);
    } else {
        assert(g[k] == nodes[k]);
        let c = child_of(k, nodes[k].node_split(), x, i);
        lemma_walk_grow(nodes, new, x, i, c);
    }
}

/// After pruning the singly internal node `new.idx()`, the rows that
/// reached one of its children reach it; the others reach the same leaf.
pub proof fn lemma_walk_prune(nodes: Map<u8, Node>, new: Node, x: Seq<Vec<i16>>, i: int, k: u8)
    requires
        nodes_wf(nodes),
        0 < new.node_id() < 128,
        is_nog_at(nodes, new.node_id() as int),
        new.spec_is_leaf(),
        nodes.contains_key(k),
        k != 2 * new.node_id(),
        k != 2 * new.node_id() + 1,
    ensures
        walk(pruned_nodes(nodes, new), x, i, k) == if walk(nodes, x, i, k) == 2 * new.node_id()
            || walk(nodes, x, i, k) == 2 * new.node_id() + 1 {
            new.node_id()
        } else {
            walk(nodes, x, i, k)
        },
    decreases 256 - k,
{
    let p = pruned_nodes(nodes, new);
    let n = new.node_id();
    lemma_wf_at(nodes, k);
    if k == n {
        lemma_nog_internal(nodes, n);
        assert(p[k] == new);
        assert(walk(p, x, i, k) == k);
        let c = child_of(k, nodes[k].node_split(), x, i);
        assert(nodes[c].spec_is_leaf());
        assert(walk(nodes, x, i, c) == c);
    } else if nodes[k].spec_is_leaf() {
        assert(p[k] == nodes[k]);
        assert(walk(p, x, i, k) == k);
    } else {
        assert(p[k] == nodes[k]);
        let c = child_of(k, nodes[k].node_split(), x, i);
        assert(c / 2 == k);
        lemma_walk_prune(nodes, new, x, i, c);
    }
}

/// After giving the singly internal node `new.idx()` the split of `new`,
/// the rows that reached one of its children reach the child that `new`
/// sends them to; the others reach the same leaf.
pub proof fn lemma_walk_change(nodes: Map<u8, Node>, new: Node, x: Seq<Vec<i16>>, i: int, k: u8)
    requires
        nodes_wf(nodes),
        0 < new.node_id() < 128,
        is_nog_at(nodes, new.node_id() as int),
        !new.spec_is_leaf(),
        nodes.contains_key(k),
        k != 2 * new.node_id(),
        k != 2 * new.node_id() + 1,
    ensures
        walk(grown_nodes(nodes, new), x, i, k) == if walk(nodes, x, i, k) == 2 * new.node_id()
            || walk(nodes, x, i, k) == 2 * new.node_id() + 1 {
            step(new, x, i)
        } else {
            walk(nodes, x, i, k)
        },
    decreases 256 - k,
{
    let g = grown_nodes(nodes, new);
    let n = new.node_id();
    lemma_nog_internal(nodes, n);
    lemma_wf_at(nodes, k);
    assert(g == nodes.insert(n, new));
    if k == n {
        assert(g[k] == new);
        let c = step(new, x, i);
        assert(g[c] == nodes[c]);
        assert(walk(g, x, i, c) == c);
        let c0 = child_of(k, nodes[k].node_split(), x, i);
        assert(nodes[c0].spec_is_leaf());
        assert(walk(nodes, x, i, c0) == c0);
    } else if nodes[k].spec_is_leaf() {
        assert(g[k] == nodes[k]);
        assert(walk(g, x, i, k) == k);
    } else {
        assert(g[k] == nodes[k]);
        let c = child_of(k, nodes[k].node_split(), x, i);
        if c == 2 * n || c == 2 * n + 1 {
            assert(c / 2 == n);
        }
        lemma_walk_change(nodes, new, x, i, c);
    }
}

/// The rows of a new tree all sit in its root, which is where every row
/// falls.
pub proof fn lemma_new_tree_routes(n: nat, x: Seq<Vec<i16>>)
    ensures
        routes_consistently(
            Map::<u8, Node>::empty().insert(1, Node::leaf_node(1)),
            Seq::new(n, |i: int| 1u8),
            x,
        ),
{
    let nodes = Map::<u8, Node>::empty().insert(1, Node::leaf_node(1));
    let ptrs = Seq::new(n, |i: int| 1u8);
    assert forall|i: int| 0 <= i < n implies #[trigger] ptrs[i] == walk(nodes, x, i, 1) by {
        assert(nodes[1].spec_is_leaf());
    }
}

/// A stored leaf is never a grandchild of a singly internal node.
proof fn lemma_leaf_not_grandchild(nodes: Map<u8, Node>, k: u8, w: u8)
    requires
        nodes_wf(nodes),
        0 < k < 64,
        is_nog_at(nodes, k as int),
        nodes.contains_key(w),
    ensures
        w != 4 * k + 1,
        w != 4 * k + 2,
{
    lemma_wf_at(nodes, w);
    if w == 4 * k + 1 {
        assert(w / 2 == 2 * k);
    }
    if w == 4 * k + 2 {
        assert(w / 2 == 2 * k + 1);
    }
}

/// A grow step keeps every row pointing at the leaf it falls in: after the
/// rows of leaf `new.idx()` are routed to the children of `new`, the leaf
/// is grown into `new`, and the rows are settled, each row points at the
/// leaf it reaches in the grown tree.  If the grow is rejected instead
/// (the tree is left alone), settling gives back the pointers as they were.
pub proof fn lemma_grow_step_routes(nodes: Map<u8, Node>, ptrs: Seq<u8>, new: Node, x: Seq<Vec<i16>>)
    requires
        nodes_wf(nodes),
        routes_consistently(nodes, ptrs, x),
        0 < new.node_id() < 128,
        is_leaf_at(nodes, new.node_id() as int),
        !new.spec_is_leaf(),
    ensures
        routes_consistently(
            grown_nodes(nodes, new),
            settled_pg(grown_nodes(nodes, new), grow_routed(ptrs, new, x), Some(new)),
            x,
        ),
        settled_pg(nodes, grow_routed(ptrs, new, x), Some(new)) == ptrs,
{
    let k = new.node_id();
    let g = grown_nodes(nodes, new);
    let routed = grow_routed(ptrs, new, x);
    lemma_wf_root(nodes);
    lemma_leaf_no_children(nodes, k);
    assert(is_nog_at(g, k as int));
    assert(settled_pg(g, routed, Some(new)) == routed);
    assert forall|i: int| 0 <= i < routed.len() implies #[trigger] routed[i] == walk(g, x, i, 1) by {
        lemma_walk_grow(nodes, new, x, i, 1);
    }
    assert(!is_nog_at(nodes, k as int));
    let back = settled_pg(nodes, routed, Some(new));
    assert forall|i: int| 0 <= i < ptrs.len() implies #[trigger] back[i] == ptrs[i] by {
        lemma_walk_reaches_leaf(nodes, x, i, 1);
    }
    assert(back =~= ptrs);
}

/// A prune step keeps every row pointing at the leaf it falls in: after the
/// singly internal node `new.idx()` is pruned into the leaf `new` and the
/// rows are settled, each row points at the leaf it reaches in the pruned
/// tree.  If the prune is rejected, settling changes nothing.
pub proof fn lemma_prune_step_routes(nodes: Map<u8, Node>, ptrs: Seq<u8>, new: Node, x: Seq<Vec<i16>>)
    requires
        nodes_wf(nodes),
        routes_consistently(nodes, ptrs, x),
        0 < new.node_id() < 128,
        is_nog_at(nodes, new.node_id() as int),
        new.spec_is_leaf(),
    ensures
        routes_consistently(pruned_nodes(nodes, new), settled_pg(pruned_nodes(nodes, new), ptrs, Some(new)), x),
        settled_pg(nodes, ptrs, Some(new)) == ptrs,
{
    let k = new.node_id();
    let p = pruned_nodes(nodes, new);
    lemma_wf_root(nodes);
    assert(!is_nog_at(p, k as int));
    let settled = settled_pg(p, ptrs, Some(new));
    assert forall|i: int| 0 <= i < settled.len() implies #[trigger] settled[i] == walk(p, x, i, 1) by {
        lemma_walk_prune(nodes, new, x, i, 1);
    }
}

/// A change step keeps every row pointing at the leaf it falls in: after
/// the rows of the children of `new.idx()` are routed by the split of
/// `new`, the split of the node is changed to that of `new` (accepted) or
/// the tree is left alone (rejected), and the rows are settled against the
/// resulting tree, each row points at the leaf it reaches in that tree.
pub proof fn lemma_change_step_routes(nodes: Map<u8, Node>, ptrs: Seq<u8>, new: Node, x: Seq<Vec<i16>>)
    requires
        nodes_wf(nodes),
        routes_consistently(nodes, ptrs, x),
        0 < new.node_id() < 64,
        is_nog_at(nodes, new.node_id() as int),
        !new.spec_is_leaf(),
    ensures
        routes_consistently(
            grown_nodes(nodes, new),
            settled_change(grown_nodes(nodes, new), change_routed(ptrs, new, x), Some(new)),
            x,
        ),
        routes_consistently(nodes, settled_change(nodes, change_routed(ptrs, new, x), Some(new)), x),
{
    let k = new.node_id();
    let g = grown_nodes(nodes, new);
    let routed = change_routed(ptrs, new, x);
    lemma_wf_root(nodes);
    lemma_nog_internal(nodes, k);
    assert(g == nodes.insert(k, new));
    let acc = settled_change(g, routed, Some(new));
    assert forall|i: int| 0 <= i < acc.len() implies #[trigger] acc[i] == walk(g, x, i, 1) by {
        lemma_walk_reaches_leaf(nodes, x, i, 1);
        lemma_leaf_not_grandchild(nodes, k, ptrs[i]);
        lemma_walk_change(nodes, new, x, i, 1);
    }
    let rej = settled_change(nodes, routed, Some(new));
    if nodes[k] == new {
        assert(g =~= nodes);
        assert(rej == acc);
    } else {
        assert forall|i: int| 0 <= i < rej.len() implies #[trigger] rej[i] == walk(nodes, x, i, 1) by {
            lemma_walk_reaches_leaf(nodes, x, i, 1);
            lemma_leaf_not_grandchild(nodes, k, ptrs[i]);
        }
    }
}

/// Pruning a leaf just grown gives back the tree it was grown from: the
/// same nodes when the leaf was stored as a plain leaf, and the same
/// leaves, whose values are reset to 0.
pub proof fn lemma_prune_undoes_grow(nodes: Map<u8, Node>, mu: Map<u8, u64>, new: Node)
    requires
        nodes_wf(nodes),
        leaves_match(nodes, mu),
        0 < new.node_id() < 128,
        is_leaf_at(nodes, new.node_id() as int),
        !new.spec_is_leaf(),
    ensures
        is_nog_at(grown_nodes(nodes, new), new.node_id() as int),
        nodes[new.node_id()] == Node::leaf_node(new.node_id()) ==> pruned_nodes(
            grown_nodes(nodes, new),
            Node::leaf_node(new.node_id()),
        ) == nodes,
        pruned_mu(grown_mu(nodes, mu, new), Node::leaf_node(new.node_id())) == mu.insert(new.node_id(), 0),
{
    let k = new.node_id();
    lemma_leaf_no_children(nodes, k);
    let g = grown_nodes(nodes, new);
    if nodes[k] == Node::leaf_node(k) {
        assert(pruned_nodes(g, Node::leaf_node(k)) =~= nodes);
    }
    assert(!mu.contains_key((2 * k) as u8));
    assert(!mu.contains_key((2 * k + 1) as u8));
    assert(pruned_mu(grown_mu(nodes, mu, new), Node::leaf_node(k)) =~= mu.insert(k, 0));
}

/// Growing a leaf, or changing the split of a singly internal node, into
/// an internal node with a valid split keeps the tree well formed.
pub proof fn lemma_grow_wf(nodes: Map<u8, Node>, mu: Map<u8, u64>, new: Node)
    requires
        nodes_wf(nodes),
        leaves_match(nodes, mu),
        0 < new.node_id() < 128,
        is_leaf_at(nodes, new.node_id() as int) || is_nog_at(nodes, new.node_id() as int),
        !new.spec_is_leaf(),
        new.node_split().wf(),
    ensures
        nodes_wf(grown_nodes(nodes, new)),
        leaves_match(grown_nodes(nodes, new), grown_mu(nodes, mu, new)),
{
    let n2 = grown_nodes(nodes, new);
    let m2 = grown_mu(nodes, mu, new);
    assert forall|j: u8| #[trigger] n2.contains_key(j) implies node_ok(n2, j) by {
        lemma_grown_at(nodes, new, j);
    }
    assert(nodes_wf(n2)) by {
        reveal(nodes_wf);
    }
    assert forall|j: u8| #[trigger] m2.contains_key(j) <==> is_leaf_at(n2, j as int) by {
        lemma_grown_mu_at(nodes, mu, new, j);
    }
}

proof fn lemma_grown_mu_at(nodes: Map<u8, Node>, mu: Map<u8, u64>, new: Node, j: u8)
    requires
        nodes_wf(nodes),
        leaves_match(nodes, mu),
        0 < new.node_id() < 128,
        is_leaf_at(nodes, new.node_id() as int) || is_nog_at(nodes, new.node_id() as int),
        !new.spec_is_leaf(),
    ensures
        grown_mu(nodes, mu, new).contains_key(j) <==> is_leaf_at(grown_nodes(nodes, new), j as int),
{
    assert(mu.contains_key(j) <==> is_leaf_at(nodes, j as int));
    assert(Split::leaf_split().code() == 0);
}

/// What `nodes_wf` asks of one stored node `j`.
pub open spec fn node_ok(nodes: Map<u8, Node>, j: u8) -> bool {
    &&& j >= 1
    &&& nodes[j].node_id() == j
    &&& nodes[j].node_split().wf()
    &&& j > 1 ==> nodes.contains_key(j / 2) && !nodes[j / 2].spec_is_leaf()
    &&& !nodes[j].spec_is_leaf() ==> j < 128 && nodes.contains_key((2 * j) as u8) && nodes.contains_key(
        (2 * j + 1) as u8,
    )
}

proof fn lemma_grown_at(nodes: Map<u8, Node>, new: Node, j: u8)
    requires
        nodes_wf(nodes),
        0 < new.node_id() < 128,
        is_leaf_at(nodes, new.node_id() as int) || is_nog_at(nodes, new.node_id() as int),
        !new.spec_is_leaf(),
        new.node_split().wf(),
        grown_nodes(nodes, new).contains_key(j),
    ensures
        node_ok(grown_nodes(nodes, new), j),
{
    let k = new.node_id();
    let n2 = grown_nodes(nodes, new);
    lemma_wf_at(nodes, k);
    assert(Split::leaf_split().wf());
    let l = (2 * k) as u8;
    let r = (2 * k + 1) as u8;
    let is_grow = is_leaf_at(nodes, k as int);
    if is_grow {
        lemma_leaf_no_children(nodes, k);
    } else {
        lemma_nog_internal(nodes, k);
    }
    if j == k {
    } else if is_grow && (j == l || j == r) {
        assert(j / 2 == k);
    } else {
        lemma_wf_at(nodes, j);
        if j > 1 && j / 2 != k {
            lemma_wf_at(nodes, j / 2);
        }
    }
}

/// Pruning a singly internal node into a leaf keeps the tree well formed.
pub proof fn lemma_prune_wf(nodes: Map<u8, Node>, mu: Map<u8, u64>, new: Node)
    requires
        nodes_wf(nodes),
        leaves_match(nodes, mu),
        0 < new.node_id() < 128,
        is_nog_at(nodes, new.node_id() as int),
        new.spec_is_leaf(),
    ensures
        nodes_wf(pruned_nodes(nodes, new)),
        leaves_match(pruned_nodes(nodes, new), pruned_mu(mu, new)),
{
    let k = new.node_id();
    let n2 = pruned_nodes(nodes, new);
    let m2 = pruned_mu(mu, new);
    let l = (2 * k) as u8;
    let r = (2 * k + 1) as u8;
    assert(Split::leaf_split().wf());
    assert(new.node_split().wf());
    lemma_wf_at(nodes, k);
    assert forall|j: u8| #[trigger] n2.contains_key(j) implies {
        &&& j >= 1
        &&& n2[j].node_id() == j
        &&& n2[j].node_split().wf()
        &&& j > 1 ==> n2.contains_key(j / 2) && !n2[j / 2].spec_is_leaf()
        &&& !n2[j].spec_is_leaf() ==> j < 128 && n2.contains_key((2 * j) as u8) && n2.contains_key(
            (2 * j + 1) as u8,
        )
    } by {
        if j != k {
            lemma_wf_at(nodes, j);
            if j > 1 {
                lemma_wf_at(nodes, j / 2);
                if j / 2 == l || j / 2 == r {
                    assert(nodes[j / 2].spec_is_leaf());
                }
            }
            if !nodes[j].spec_is_leaf() && ((2 * j) as u8 == l || (2 * j) as u8 == r) {
                assert(j == k);
            }
        }
    }
    assert(nodes_wf(n2)) by {
        reveal(nodes_wf);
    }
    assert forall|j: u8| #[trigger] m2.contains_key(j) <==> is_leaf_at(n2, j as int) by {
        assert(mu.contains_key(j) <==> is_leaf_at(nodes, j as int));
    }
}

} // verus!
