use vstd::prelude::*;
use crate::tree::split::Split;

verus! {

/// floor(log2(idx)), with 0 for 0 and 1: the depth of node `idx` in the
/// heap numbering (root 1, children of k at 2k and 2k + 1).
pub open spec fn depth_of(idx: nat) -> nat
    decreases idx,
{
    if idx <= 1 {
        0
    } else {
        1 + depth_of(idx / 2)
    }
}

/// A node of a tree in heap numbering: its index and its split (the leaf
/// split for a leaf).
#[derive(Clone, Debug, Copy, PartialEq, Eq, Structural)]
pub struct Node {
    idx: u8,
    split: Split,
}

impl Node {
    pub closed spec fn node_id(self) -> u8 {
        self.idx
    }

    pub closed spec fn node_split(self) -> Split {
        self.split
    }

    /// The node that `Node::internal(idx, split)` returns.
    pub closed spec fn make(idx: u8, split: Split) -> Node {
        Node { idx, split }
    }

    pub broadcast proof fn lemma_make(idx: u8, split: Split)
        ensures
            #![trigger Node::make(idx, split)]
            Node::make(idx, split).node_id() == idx,
            Node::make(idx, split).node_split() == split,
    {
    }

    /// Two nodes are equal when their index and split are.
    pub broadcast proof fn lemma_node_ext(a: Node, b: Node)
        ensures
            #![trigger a.node_id(), b.node_id(), a.node_split(), b.node_split()]
            (a.node_id() == b.node_id() && a.node_split() == b.node_split()) <==> a == b,
    {
    }

    /// The node that `Node::leaf(idx)` returns.
    pub open spec fn leaf_node(idx: u8) -> Node {
        Node::make(idx, Split::leaf_split())
    }

    pub open spec fn spec_is_leaf(self) -> bool {
        self.node_split().spec_is_leaf()
    }

    pub fn leaf(idx: u8) -> (r: Self)
        requires
            idx != 0,
        ensures
            r == Node::leaf_node(idx),
            r.node_id() == idx,
            r.node_split() == Split::leaf_split(),
    {
        Node { idx, split: Split::new_leaf() }
    }

    pub fn internal(idx: u8, split: Split) -> (r: Self)
        requires
            idx != 0,
        ensures
            r == Node::make(idx, split),
            r.node_id() == idx,
            r.node_split() == split,
    {
        Node { idx, split }
    }

    pub fn as_leaf(&self) -> (r: Self)
        requires
            self.node_id() != 0,
        ensures
            r == Node::leaf_node(self.node_id()),
    {
        Self::leaf(self.idx())
    }

    pub fn as_internal(&self, split: Split) -> (r: Self)
        requires
            self.node_id() != 0,
        ensures
            r == Node::make(self.node_id(), split),
    {
        Self::internal(self.idx(), split)
    }

    pub fn is_leaf(&self) -> (r: bool)
        ensures
            r == self.spec_is_leaf(),
    {
        self.split.is_leaf()
    }

    pub fn is_internal(&self) -> (r: bool)
        ensures
            r == !self.spec_is_leaf(),
    {
        !self.is_leaf()
    }

    pub fn idx(&self) -> (r: u8)
        ensures
            r == self.node_id(),
    {
        self.idx
    }

    pub fn is_left(&self) -> (r: bool)
        ensures
            r == (self.node_id() % 2 == 0),
    {
        Self::idx_is_left(self.idx())
    }

    pub fn is_right(&self) -> (r: bool)
        ensures
            r == (self.node_id() % 2 == 1),
    {
        Self::idx_is_right(self.idx())
    }

    pub fn left_idx(&self) -> (r: u8)
        requires
            self.node_id() < 128,
        ensures
            r == 2 * self.node_id(),
    {
        Self::get_left_idx(self.idx())
    }

    pub fn right_idx(&self) -> (r: u8)
        requires
            self.node_id() < 128,
        ensures
            r == 2 * self.node_id() + 1,
    {
        Self::get_right_idx(self.idx())
    }

    /// The child that row `idx` of `x` moves to from this internal node.
    pub fn child_idx(&self, x: &Vec<Vec<i16>>, idx: usize) -> (r: u8)
        requires
            !self.spec_is_leaf(),
            self.node_id() < 128,
            self.node_split().can_route(x@, idx as int),
        ensures
            r == if self.node_split().goes_left(self.node_split().feat_val(x@, idx as int)) {
                2 * self.node_id()
            } else {
                2 * self.node_id() + 1
            },
    {
        if self.go_left(x, idx) {
            self.left_idx()
        } else {
            self.right_idx()
        }
    }

    pub fn parent_idx(&self) -> (r: u8)
        ensures
            r == self.node_id() / 2,
    {
        Self::get_parent_idx(self.idx())
    }

    pub fn depth(&self) -> (r: u8)
        ensures
            r == depth_of(self.node_id() as nat),
    {
        Self::get_idx_depth(self.idx())
    }

    /// The split of an internal node.
    pub fn split(&self) -> (r: Split)
        requires
            !self.spec_is_leaf(),
        ensures
            r == self.node_split(),
    {
        self.split
    }

    /// Replaces the split of an internal node.
    pub fn set_split(&mut self, split: Split)
        requires
            !old(self).spec_is_leaf(),
        ensures
            final(self).node_id() == old(self).node_id(),
            final(self).node_split() == split,
    {
        self.split = split;
    }

    pub fn go_left(&self, x: &Vec<Vec<i16>>, idx: usize) -> (r: bool)
        requires
            !self.spec_is_leaf(),
            self.node_split().can_route(x@, idx as int),
        ensures
            r == self.node_split().goes_left(self.node_split().feat_val(x@, idx as int)),
    {
        self.split.go_left(x, idx)
    }

    pub fn go_right(&self, x: &Vec<Vec<i16>>, idx: usize) -> (r: bool)
        requires
            !self.spec_is_leaf(),
            self.node_split().can_route(x@, idx as int),
        ensures
            r == !self.node_split().goes_left(self.node_split().feat_val(x@, idx as int)),
    {
        !self.go_left(x, idx)
    }

    pub fn go_left_v(&self, feat_val: i16) -> (r: bool)
        requires
            !self.spec_is_leaf(),
            self.node_split().accepts(feat_val),
        ensures
            r == self.node_split().goes_left(feat_val),
    {
        self.split.go_left_v(feat_val)
    }

    pub fn go_right_v(&self, feat_val: i16) -> (r: bool)
        requires
            !self.spec_is_leaf(),
            self.node_split().accepts(feat_val),
        ensures
            r == !self.node_split().goes_left(feat_val),
    {
        !self.go_left_v(feat_val)
    }

    /// The depth of node `idx`: floor(log2(idx)), and 0 for 0.
    pub fn get_idx_depth(idx: u8) -> (r: u8)
        ensures
            r == depth_of(idx as nat),
    {
        let mut v: u8 = idx;
        let mut d: u8 = 0;
        proof {
            lemma_depth_bound(idx as nat);
        }
        while v > 1
            invariant
                d + depth_of(v as nat) == depth_of(idx as nat),
                d <= 8 - depth_of(v as nat),
                depth_of(v as nat) <= 7,
            decreases v,
        {
            proof {
                lemma_depth_bound(v as nat);
                lemma_depth_bound((v / 2) as nat);
            }
            v = v / 2;
            d = d + 1;
        }
        d
    }

    pub fn idx_is_left(idx: u8) -> (r: bool)
        ensures
            r == (idx % 2 == 0),
    {
        idx % 2 == 0
    }

    pub fn idx_is_right(idx: u8) -> (r: bool)
        ensures
            r == (idx % 2 == 1),
    {
        idx % 2 == 1
    }

    pub fn get_left_idx(idx: u8) -> (r: u8)
        requires
            idx < 128,
        ensures
            r == 2 * idx,
    {
        idx * 2
    }

    pub fn get_right_idx(idx: u8) -> (r: u8)
        requires
            idx < 128,
        ensures
            r == 2 * idx + 1,
    {
        idx * 2 + 1
    }

    pub fn get_parent_idx(idx: u8) -> (r: u8)
        ensures
            r == idx / 2,
    {
        idx / 2
    }
}

/// Bounds on the depth of a node index, one power of two at a time.
pub proof fn lemma_depth_bound(idx: nat)
    ensures
        idx < 2 ==> depth_of(idx) == 0,
        idx < 4 ==> depth_of(idx) <= 1,
        idx < 8 ==> depth_of(idx) <= 2,
        idx < 16 ==> depth_of(idx) <= 3,
        idx < 32 ==> depth_of(idx) <= 4,
        idx < 64 ==> depth_of(idx) <= 5,
        idx < 128 ==> depth_of(idx) <= 6,
        idx < 256 ==> depth_of(idx) <= 7,
        idx >= 2 ==> depth_of(idx) >= 1,
        idx >= 4 ==> depth_of(idx) >= 2,
        idx >= 8 ==> depth_of(idx) >= 3,
        idx >= 16 ==> depth_of(idx) >= 4,
        idx >= 32 ==> depth_of(idx) >= 5,
        idx >= 64 ==> depth_of(idx) >= 6,
        idx >= 128 ==> depth_of(idx) >= 7,
        idx >= 2 ==> depth_of(idx) == depth_of(idx / 2) + 1,
    decreases idx,
{
    if idx > 1 {
        lemma_depth_bound(idx / 2);
    }
}

} // verus!
