use rand::rngs::ThreadRng;
use vstd::prelude::*;
use vstd::arithmetic::power2::pow2;
use crate::random::gen_range_i16;
use crate::tree::node::{Node, depth_of};
use crate::tree::tree::{Tree, ancestors_internal, ancestor, lemma_ancestor_shift};

verus! {

/// Number of category bits a categorical split can hold; bit `MAX_BITS`
/// itself is the tag that makes every categorical code negative.
pub const MAX_BITS: i16 = 15;

/// Whether category `c` is set in the bit set `bits`.
pub open spec fn has_bit(bits: i16, c: u16) -> bool {
    bits & (1i16 << c) != 0
}

/// The set bits of `bits` among the positions `0..n`, in increasing order.
pub open spec fn bit_positions(bits: i16, n: int) -> Seq<i16>
    decreases n,
{
    if n <= 0 {
        Seq::empty()
    } else {
        let prev = bit_positions(bits, n - 1);
        if has_bit(bits, (n - 1) as u16) {
            prev.push((n - 1) as i16)
        } else {
            prev
        }
    }
}


pub open spec fn min_i16(a: i16, b: i16) -> i16 {
    if a < b {
        a
    } else {
        b
    }
}

pub open spec fn max_i16(a: i16, b: i16) -> i16 {
    if a > b {
        a
    } else {
        b
    }
}

/// The range `[low, high)` of thresholds still open for a continuous split
/// of feature `feat` at node `k`: walking up from `k`, every ancestor split
/// of the same feature lowers `high` to its threshold when `k` lies to its
/// left, and raises `low` to it when `k` lies to its right.
pub open spec fn con_range(nodes: Map<u8, Node>, feat: u16, k: u8, low: i16, high: i16) -> (i16, i16)
    decreases k,
{
    if k <= 1 {
        (low, high)
    } else {
        let s = nodes[k / 2].node_split();
        if s.feat() != feat {
            con_range(nodes, feat, k / 2, low, high)
        } else if k % 2 == 0 {
            con_range(nodes, feat, k / 2, low, min_i16(s.code(), high))
        } else {
            con_range(nodes, feat, k / 2, max_i16(s.code(), low), high)
        }
    }
}

/// The category bits still open for a categorical split of feature `feat`
/// at node `k`: walking up from `k`, every ancestor split of the same
/// feature keeps only its own categories when `k` lies to its left, and
/// only the others (keeping the tag bit) when `k` lies to its right.
pub open spec fn avail_bits(nodes: Map<u8, Node>, feat: u16, k: u8, bit: i16) -> i16
    decreases k,
{
    if k <= 1 {
        bit
    } else {
        let s = nodes[k / 2].node_split();
        if s.feat() != feat {
            avail_bits(nodes, feat, k / 2, bit)
        } else if k % 2 == 0 {
            avail_bits(nodes, feat, k / 2, bit & s.code())
        } else {
            avail_bits(nodes, feat, k / 2, bit & (!s.code() | (1i16 << 15u16)))
        }
    }
}

/// A split of the feature `feat_idx`.  The code `idx_or_bit` is
/// positive for a continuous split (the threshold), zero for a leaf, and
/// negative for a categorical split, whose low `MAX_BITS` bits hold the set
/// of categories that go left.
#[derive(Clone, Debug, Copy, PartialEq, Eq, Structural)]
pub struct Split {
    pub feat_idx: u16,
    idx_or_bit: i16,
}

proof fn lemma_or_bit(b: i16, c: u16, j: u16)
    requires
        0 <= c < 15,
        0 <= j < 15,
    ensures
        has_bit(b | (1i16 << c), j) == (has_bit(b, j) || j == c),
        b < 0 ==> (b | (1i16 << c)) < 0,
{
    assert((b | (1i16 << c)) & (1i16 << j) != 0 <==> (b & (1i16 << j) != 0 || j == c))
        by (bit_vector)
        requires
            0 <= c < 15,
            0 <= j < 15,
    ;
    assert(b < 0 ==> (b | (1i16 << c)) < 0) by (bit_vector)
        requires
            0 <= c < 15,
    ;
}

/// Facts about `bit_positions`: it lists exactly the set bits below `n`,
/// in strictly increasing order.
pub proof fn lemma_bit_positions(bits: i16, n: int)
    requires
        0 <= n <= 16,
    ensures
        forall|k: int| 0 <= k < bit_positions(bits, n).len() ==> 0 <= #[trigger] bit_positions(bits, n)[k] < n,
        forall|k: int, l: int|
            0 <= k < l < bit_positions(bits, n).len() ==> bit_positions(bits, n)[k] < bit_positions(bits, n)[l],
        forall|c: i16| #[trigger] bit_positions(bits, n).contains(c) <==> (0 <= c < n && has_bit(bits, c as u16)),
        bit_positions(bits, n).len() <= n,
    decreases n,
{
    if n > 0 {
        lemma_bit_positions(bits, n - 1);
        let prev = bit_positions(bits, n - 1);
        if has_bit(bits, (n - 1) as u16) {
            let s1 = prev.push((n - 1) as i16);
            assert forall|c: i16| #[trigger] s1.contains(c) <==> (0 <= c < n && has_bit(bits, c as u16)) by {
                if c == n - 1 {
                    assert(s1[prev.len() as int] == c);
                } else if s1.contains(c) {
                    let k = choose|k: int| 0 <= k < s1.len() && s1[k] == c;
                    assert(k < prev.len());
                    assert(prev[k] == c);
                    assert(prev.contains(c));
                } else if 0 <= c < n && has_bit(bits, c as u16) {
                    assert(prev.contains(c));
                    let k = choose|k: int| 0 <= k < prev.len() && prev[k] == c;
                    assert(s1[k] == c);
                }
            }
        }
    }
}


/// Bits at and above `m` are clear in a nonnegative number below `2^m`.
proof fn lemma_high_bits_clear(p: i16, m: u16)
    requires
        0 < p,
        1 <= m <= 14,
        p < (1i16 << m),
    ensures
        forall|j: u16| m <= j < 15 ==> !#[trigger] has_bit(p, j),
{
    assert forall|j: u16| m <= j < 15 implies !#[trigger] has_bit(p, j) by {
        assert(p & (1i16 << j) == 0) by (bit_vector)
            requires
                0 < p,
                1 <= m <= 14,
                p < (1i16 << m),
                m <= j < 15,
        ;
    }
}

/// A positive number has a set bit below 15.
proof fn lemma_nonzero_has_bit(p: i16)
    requires
        0 < p,
    ensures
        exists|j: u16| j < 15 && #[trigger] has_bit(p, j),
{
    assert(has_bit(p, 0) || has_bit(p, 1) || has_bit(p, 2) || has_bit(p, 3) || has_bit(p, 4) || has_bit(p, 5)
        || has_bit(p, 6) || has_bit(p, 7) || has_bit(p, 8) || has_bit(p, 9) || has_bit(p, 10) || has_bit(p, 11)
        || has_bit(p, 12) || has_bit(p, 13) || has_bit(p, 14)) by (bit_vector)
        requires
            0 < p,
    ;
}

/// `1 << m` is `2^m`.
proof fn lemma_shift_pow2(m: u16)
    requires
        m < 15,
    ensures
        (1i16 << m) as int == pow2(m as nat),
    decreases m,
{
    if m == 0 {
        assert((1i16 << 0u16) == 1) by (bit_vector);
        vstd::arithmetic::power2::lemma2_to64();
    } else {
        let p = (m - 1) as u16;
        lemma_shift_pow2(p);
        vstd::arithmetic::power2::lemma_pow2_unfold(m as nat);
        assert((1i16 << m) == 2 * (1i16 << p)) by (bit_vector)
            requires
                1 <= m < 15,
                p == m - 1,
        ;
    }
}

/// The ancestor `j` levels above node `k` is a proper ancestor (below the
/// root's parent) whose split reads feature `feat`.
pub open spec fn feat_ancestor(nodes: Map<u8, Node>, feat: u16, k: u8, j: nat) -> bool {
    &&& 1 <= j <= depth_of(k as nat)
    &&& nodes[ancestor(k, j)].node_split().feat() == feat
}

/// The code of the split of the ancestor `j` levels above node `k`.
pub open spec fn ancestor_code(nodes: Map<u8, Node>, k: u8, j: nat) -> i16 {
    nodes[ancestor(k, j)].node_split().code()
}

/// Node `k` lies below the left child of its ancestor `j` levels up.
pub open spec fn left_of_ancestor(k: u8, j: nat) -> bool {
    ancestor(k, (j - 1) as nat) % 2 == 0
}

/// Masking with a bit set keeps a category when both hold it; masking with
/// the complement of a categorical code (tag kept) keeps it when the code
/// does not hold it.
proof fn lemma_mask_bit(b: i16, s: i16, c: u16)
    requires
        c < 15,
    ensures
        has_bit(b & s, c) == (has_bit(b, c) && has_bit(s, c)),
        has_bit(b & (!s | (1i16 << 15u16)), c) == (has_bit(b, c) && !has_bit(s, c)),
{
    assert(((b & s) & (1i16 << c) != 0) == ((b & (1i16 << c) != 0) && (s & (1i16 << c) != 0))) by (bit_vector)
        requires
            c < 15,
    ;
    assert(((b & (!s | (1i16 << 15u16))) & (1i16 << c) != 0) == ((b & (1i16 << c) != 0) && !(s & (1i16 << c)
        != 0))) by (bit_vector)
        requires
            c < 15,
    ;
}

/// What the ancestors one level further up say of node `k` is what they
/// say of its parent.
proof fn lemma_feat_ancestor_shift(nodes: Map<u8, Node>, feat: u16, k: u8)
    requires
        k > 1,
    ensures
        depth_of(k as nat) == depth_of((k / 2) as nat) + 1,
        ancestor(k, 1) == k / 2,
        ancestor(k, 0) == k,
        forall|j: nat|
            #![trigger feat_ancestor(nodes, feat, k, j + 1)]
            1 <= j ==> {
                &&& feat_ancestor(nodes, feat, k, j + 1) == feat_ancestor(nodes, feat, (k / 2) as u8, j)
                &&& ancestor_code(nodes, k, j + 1) == ancestor_code(nodes, (k / 2) as u8, j)
                &&& left_of_ancestor(k, j + 1) == left_of_ancestor((k / 2) as u8, j)
            },
{
    assert((k as nat) / 2 == (k / 2) as nat);
    assert(ancestor(k, 0) == k);
    assert(ancestor(k, 1) == ancestor(k, 0) / 2);
    assert forall|j: nat| #![trigger feat_ancestor(nodes, feat, k, j + 1)] 1 <= j implies {
        &&& feat_ancestor(nodes, feat, k, j + 1) == feat_ancestor(nodes, feat, (k / 2) as u8, j)
        &&& ancestor_code(nodes, k, j + 1) == ancestor_code(nodes, (k / 2) as u8, j)
        &&& left_of_ancestor(k, j + 1) == left_of_ancestor((k / 2) as u8, j)
    } by {
        lemma_ancestor_shift(k, j);
        lemma_ancestor_shift(k, (j - 1) as nat);
    }
}

/// A category stays in `avail_bits(nodes, feat, k, bit)` exactly when it is
/// in `bit` and, at every ancestor of `k` that splits on `feat`, it is among
/// that split's categories when `k` lies on its left and not among them
/// when `k` lies on its right.
proof fn lemma_avail_bits_law(nodes: Map<u8, Node>, feat: u16, k: u8, bit: i16, c: u16)
    requires
        c < 15,
    ensures
        has_bit(avail_bits(nodes, feat, k, bit), c) <==> {
            &&& has_bit(bit, c)
            &&& forall|j: nat|
                #[trigger] feat_ancestor(nodes, feat, k, j) ==> (has_bit(ancestor_code(nodes, k, j), c)
                    <==> left_of_ancestor(k, j))
        },
    decreases k,
{
    if k > 1 {
        let a = k / 2;
        let s = nodes[a].node_split();
        let b2 = if s.feat() != feat {
            bit
        } else if k % 2 == 0 {
            bit & s.code()
        } else {
            bit & (!s.code() | (1i16 << 15u16))
        };
        lemma_avail_bits_law(nodes, feat, a, b2, c);
        lemma_mask_bit(bit, s.code(), c);
        lemma_feat_ancestor_shift(nodes, feat, k);
        let fk = forall|j: nat|
            #[trigger] feat_ancestor(nodes, feat, k, j) ==> (has_bit(ancestor_code(nodes, k, j), c)
                <==> left_of_ancestor(k, j));
        let fa = forall|j: nat|
            #[trigger] feat_ancestor(nodes, feat, a, j) ==> (has_bit(ancestor_code(nodes, a, j), c)
                <==> left_of_ancestor(a, j));
        let first = feat_ancestor(nodes, feat, k, 1) ==> (has_bit(ancestor_code(nodes, k, 1), c)
            <==> left_of_ancestor(k, 1));
        assert(feat_ancestor(nodes, feat, k, 1) == (s.feat() == feat));
        assert(has_bit(b2, c) == (has_bit(bit, c) && first));
        if fk {
            assert forall|j: nat| #[trigger] feat_ancestor(nodes, feat, a, j) implies (has_bit(
                ancestor_code(nodes, a, j),
                c,
            ) <==> left_of_ancestor(a, j)) by {
                assert(feat_ancestor(nodes, feat, k, j + 1));
            }
        }
        if fa && first {
            assert forall|j: nat| #[trigger] feat_ancestor(nodes, feat, k, j) implies (has_bit(
                ancestor_code(nodes, k, j),
                c,
            ) <==> left_of_ancestor(k, j)) by {
                if j > 1 {
                    let i = (j - 1) as nat;
                    assert(j == i + 1);
                    assert(feat_ancestor(nodes, feat, a, i));
                }
            }
        }
    } else {
        assert(depth_of(k as nat) == 0);
    }
}

/// `con_range(nodes, feat, k, low, high)` starts at `low` or at the
/// threshold of an ancestor of `k` that splits on `feat` and has `k` on its
/// right, whichever is greatest; it ends at `high` or at the threshold of
/// such an ancestor that has `k` on its left, whichever is least.
proof fn lemma_con_range_law(nodes: Map<u8, Node>, feat: u16, k: u8, low: i16, high: i16)
    ensures
        ({
            let r = con_range(nodes, feat, k, low, high);
            &&& low <= r.0
            &&& r.1 <= high
            &&& forall|j: nat|
                #[trigger] feat_ancestor(nodes, feat, k, j) ==> if left_of_ancestor(k, j) {
                    r.1 <= ancestor_code(nodes, k, j)
                } else {
                    ancestor_code(nodes, k, j) <= r.0
                }
            &&& r.0 == low || exists|j: nat|
                #[trigger] feat_ancestor(nodes, feat, k, j) && !left_of_ancestor(k, j) && ancestor_code(nodes, k, j)
                    == r.0
            &&& r.1 == high || exists|j: nat|
                #[trigger] feat_ancestor(nodes, feat, k, j) && left_of_ancestor(k, j) && ancestor_code(nodes, k, j)
                    == r.1
        }),
    decreases k,
{
    if k > 1 {
        let a = k / 2;
        let s = nodes[a].node_split();
        let low2 = if s.feat() == feat && k % 2 == 1 {
            max_i16(s.code(), low)
        } else {
            low
        };
        let high2 = if s.feat() == feat && k % 2 == 0 {
            min_i16(s.code(), high)
        } else {
            high
        };
        lemma_con_range_law(nodes, feat, a, low2, high2);
        lemma_feat_ancestor_shift(nodes, feat, k);
        let r = con_range(nodes, feat, k, low, high);
        assert(r == con_range(nodes, feat, a, low2, high2));
        assert(feat_ancestor(nodes, feat, k, 1) == (s.feat() == feat));
        assert(left_of_ancestor(k, 1) == (k % 2 == 0));
        assert forall|j: nat| #[trigger] feat_ancestor(nodes, feat, k, j) implies if left_of_ancestor(k, j) {
            r.1 <= ancestor_code(nodes, k, j)
        } else {
            ancestor_code(nodes, k, j) <= r.0
        } by {
            if j > 1 {
                let i = (j - 1) as nat;
                assert(j == i + 1);
                assert(feat_ancestor(nodes, feat, a, i));
            }
        }
        if r.0 != low {
            if r.0 != low2 {
                let i = choose|i: nat|
                    #[trigger] feat_ancestor(nodes, feat, a, i) && !left_of_ancestor(a, i) && ancestor_code(nodes, a, i)
                        == r.0;
                assert(feat_ancestor(nodes, feat, k, i + 1));
            } else {
                assert(feat_ancestor(nodes, feat, k, 1));
            }
        }
        if r.1 != high {
            if r.1 != high2 {
                let i = choose|i: nat|
                    #[trigger] feat_ancestor(nodes, feat, a, i) && left_of_ancestor(a, i) && ancestor_code(nodes, a, i)
                        == r.1;
                assert(feat_ancestor(nodes, feat, k, i + 1));
            } else {
                assert(feat_ancestor(nodes, feat, k, 1));
            }
        }
    } else {
        assert(depth_of(k as nat) == 0);
    }
}

/// The open range of a continuous split stays within `[low0, high0]`
/// widened by the thresholds on the way, so it never leaves `[1, i16::MAX)`.
proof fn lemma_con_range_bounds(nodes: Map<u8, Node>, feat: u16, k: u8, low: i16, high: i16)
    requires
        1 <= low,
    ensures
        1 <= con_range(nodes, feat, k, low, high).0,
        con_range(nodes, feat, k, low, high).1 <= high,
    decreases k,
{
    if k > 1 {
        let s = nodes[k / 2].node_split();
        if s.feat() != feat {
            lemma_con_range_bounds(nodes, feat, k / 2, low, high);
        } else if k % 2 == 0 {
            lemma_con_range_bounds(nodes, feat, k / 2, low, min_i16(s.code(), high));
        } else {
            lemma_con_range_bounds(nodes, feat, k / 2, max_i16(s.code(), low), high);
        }
    }
}

impl Split {
    /// The raw code `idx_or_bit` of the split.
    pub closed spec fn code(self) -> i16 {
        self.idx_or_bit
    }

    /// The feature that the split reads.
    pub closed spec fn feat(self) -> u16 {
        self.feat_idx
    }

    /// The split that `new_leaf` returns.
    pub closed spec fn leaf_split() -> Split {
        Split { feat_idx: u16::MAX, idx_or_bit: 0 }
    }

    /// The split that `new_continuous` returns.
    pub closed spec fn continuous_split(feat_idx: u16, split_idx: i16) -> Split {
        Split { feat_idx, idx_or_bit: split_idx }
    }

    /// Two splits are equal when their feature and code are.
    pub broadcast proof fn lemma_split_ext(a: Split, b: Split)
        ensures
            #![trigger a.feat(), b.feat(), a.code(), b.code()]
            (a.feat() == b.feat() && a.code() == b.code()) <==> a == b,
    {
    }

    pub broadcast proof fn lemma_leaf_split()
        ensures
            #![trigger Split::leaf_split()]
            Split::leaf_split().feat() == u16::MAX,
            Split::leaf_split().code() == 0,
    {
    }

    pub broadcast proof fn lemma_continuous_split(feat_idx: u16, split_idx: i16)
        ensures
            #![trigger Split::continuous_split(feat_idx, split_idx)]
            Split::continuous_split(feat_idx, split_idx).feat() == feat_idx,
            Split::continuous_split(feat_idx, split_idx).code() == split_idx,
    {
    }

    /// Every code is valid but `i16::MAX`, which no constructor produces.
    /// The categories open at node `k` for this split are exactly its own
    /// categories that agree with every ancestor of `k` splitting on the
    /// same feature: among that ancestor's categories when `k` lies on its
    /// left, not among them when `k` lies on its right.
    pub proof fn lemma_open_cats_law(self, nodes: Map<u8, Node>, k: u8)
        ensures
            forall|c: i16|
                #[trigger] self.open_cats(nodes, k).contains(c) <==> {
                    &&& 0 <= c < MAX_BITS
                    &&& has_bit(self.code(), c as u16)
                    &&& forall|j: nat|
                        #[trigger] feat_ancestor(nodes, self.feat(), k, j) ==> (has_bit(
                            ancestor_code(nodes, k, j),
                            c as u16,
                        ) <==> left_of_ancestor(k, j))
                },
    {
        lemma_bit_positions(avail_bits(nodes, self.feat(), k, self.code()), 15);
        assert forall|c: i16| #[trigger] self.open_cats(nodes, k).contains(c) <==> {
            &&& 0 <= c < MAX_BITS
            &&& has_bit(self.code(), c as u16)
            &&& forall|j: nat|
                #[trigger] feat_ancestor(nodes, self.feat(), k, j) ==> (has_bit(ancestor_code(nodes, k, j), c as u16)
                    <==> left_of_ancestor(k, j))
        } by {
            if 0 <= c < MAX_BITS {
                lemma_avail_bits_law(nodes, self.feat(), k, self.code(), c as u16);
            }
        }
    }

    /// The thresholds open at node `k` for this split start at 1 or at the
    /// greatest threshold of an ancestor of `k` that splits on the same
    /// feature with `k` on its right, and end (exclusive) at this split's
    /// own threshold plus one or at the least threshold of such an ancestor
    /// with `k` on its left.
    pub proof fn lemma_open_range_law(self, nodes: Map<u8, Node>, k: u8)
        requires
            self.wf(),
        ensures
            ({
                let r = self.open_range(nodes, k);
                &&& 1 <= r.0
                &&& r.1 <= self.code() + 1
                &&& forall|j: nat|
                    #[trigger] feat_ancestor(nodes, self.feat(), k, j) ==> if left_of_ancestor(k, j) {
                        r.1 <= ancestor_code(nodes, k, j)
                    } else {
                        ancestor_code(nodes, k, j) <= r.0
                    }
                &&& r.0 == 1 || exists|j: nat|
                    #[trigger] feat_ancestor(nodes, self.feat(), k, j) && !left_of_ancestor(k, j) && ancestor_code(
                        nodes,
                        k,
                        j,
                    ) == r.0
                &&& r.1 == self.code() + 1 || exists|j: nat|
                    #[trigger] feat_ancestor(nodes, self.feat(), k, j) && left_of_ancestor(k, j) && ancestor_code(
                        nodes,
                        k,
                        j,
                    ) == r.1
            }),
    {
        lemma_con_range_law(nodes, self.feat(), k, 1, (self.code() + 1) as i16);
    }

    pub open spec fn wf(self) -> bool {
        self.code() != i16::MAX
    }

    pub open spec fn spec_is_continuous(self) -> bool {
        self.code() > 0
    }

    pub open spec fn spec_is_leaf(self) -> bool {
        self.code() == 0
    }

    /// Whether category `c` goes left under this (categorical) split.
    pub open spec fn has_cat(self, c: i16) -> bool {
        0 <= c < MAX_BITS && has_bit(self.code(), c as u16)
    }

    /// The side that a feature value `v` takes.
    pub open spec fn goes_left(self, v: i16) -> bool {
        if self.spec_is_continuous() {
            v < self.code()
        } else {
            0 <= v && has_bit(self.code(), v as u16)
        }
    }

    /// Whether `go_left_v` accepts the feature value `v`.
    pub open spec fn accepts(self, v: i16) -> bool {
        if self.spec_is_continuous() {
            v >= 0
        } else {
            0 <= v < MAX_BITS
        }
    }

    /// Whether `go_left` can route row `idx` of the column-major data `x`.
    pub open spec fn can_route(self, x: Seq<Vec<i16>>, idx: int) -> bool {
        &&& (self.feat() as int) < x.len()
        &&& 0 <= idx < x[self.feat() as int]@.len()
        &&& self.accepts(x[self.feat() as int]@[idx])
    }

    /// The feature value that `go_left` reads for row `idx`.
    pub open spec fn feat_val(self, x: Seq<Vec<i16>>, idx: int) -> i16 {
        x[self.feat() as int]@[idx]
    }

    /// A categorical split of `feat_idx` that sends exactly the categories
    /// in `cats` to the left.
    pub fn new_categorical(feat_idx: u16, cats: Vec<i16>) -> (s: Self)
        requires
            cats.len() > 0,
            forall|k: int| 0 <= k < cats.len() ==> 0 <= #[trigger] cats@[k] < MAX_BITS,
        ensures
            s.feat() == feat_idx,
            s.code() < 0,
            s.wf(),
            forall|c: i16| 0 <= c < MAX_BITS ==> (#[trigger] has_bit(s.code(), c as u16) <==> cats@.contains(c)),
    {
        let mut bit: i16 = 1i16 << 15u32;
        assert(bit < 0 && forall|c: u16| c < 15 ==> !#[trigger] has_bit(bit, c)) by {
            assert(bit == 1i16 << 15u32);
            assert((1i16 << 15u32) < 0) by (bit_vector);
            assert forall|c: u16| c < 15 implies !#[trigger] has_bit(1i16 << 15u32, c) by {
                assert(((1i16 << 15u32) & (1i16 << c)) == 0) by (bit_vector)
                    requires
                        c < 15,
                ;
            }
        }
        let mut i: usize = 0;
        while i < cats.len()
            invariant
                i <= cats.len(),
                bit < 0,
                forall|k: int| 0 <= k < cats.len() ==> 0 <= #[trigger] cats@[k] < MAX_BITS,
                forall|c: i16| 0 <= c < 15 ==> (#[trigger] has_bit(bit, c as u16) <==> cats@.subrange(0, i as int).contains(c)),
            decreases cats.len() - i,
        {
            let c = cats[i];
            proof {
                assert forall|j: i16| 0 <= j < 15 implies (#[trigger] has_bit(bit | (1i16 << (c as u16)), j as u16)
                    <==> cats@.subrange(0, i + 1).contains(j)) by {
                    lemma_or_bit(bit, c as u16, j as u16);
                    let s0 = cats@.subrange(0, i as int);
                    let s1 = cats@.subrange(0, i + 1);
                    assert(s1 == s0.push(c));
                    if s1.contains(j) {
                        let k = choose|k: int| 0 <= k < s1.len() && s1[k] == j;
                        if k < s0.len() {
                            assert(s0[k] == j);
                        }
                    }
                    if s0.contains(j) {
                        let k = choose|k: int| 0 <= k < s0.len() && s0[k] == j;
                        assert(s1[k] == j);
                    }
                    if j == c {
                        assert(s1[i as int] == j);
                    }
                }
                lemma_or_bit(bit, c as u16, 0);
            }
            bit = bit | (1i16 << (c as u16));
            i = i + 1;
        }
        assert(cats@.subrange(0, cats.len() as int) == cats@);
        Split { feat_idx, idx_or_bit: bit }
    }

    /// A continuous split of `feat_idx`: values below `split_idx` go left.
    pub fn new_continuous(feat_idx: u16, split_idx: i16) -> (s: Self)
        requires
            0 < split_idx < i16::MAX,
        ensures
            s == Split::continuous_split(feat_idx, split_idx),
            s.feat() == feat_idx,
            s.code() == split_idx,
            s.wf(),
    {
        Split { feat_idx, idx_or_bit: split_idx }
    }

    /// The split of a leaf.
    pub fn new_leaf() -> (s: Self)
        ensures
            s == Split::leaf_split(),
            s.feat() == u16::MAX,
            s.code() == 0,
            s.wf(),
    {
        Split { feat_idx: u16::MAX, idx_or_bit: 0 }
    }

    /// The raw code of the split: the threshold, zero, or the tagged bit set.
    pub fn idx_or_bit(&self) -> (r: i16)
        ensures
            r == self.code(),
    {
        self.idx_or_bit
    }

    /// The feature that the split reads.
    pub fn feature(&self) -> (r: u16)
        ensures
            r == self.feat(),
    {
        self.feat_idx
    }

    pub fn is_continous(&self) -> (r: bool)
        ensures
            r == self.spec_is_continuous(),
    {
        self.idx_or_bit > 0
    }

    pub fn is_categorical(&self) -> (r: bool)
        ensures
            r == !self.spec_is_continuous(),
    {
        !self.is_continous()
    }

    pub fn is_leaf(&self) -> (r: bool)
        ensures
            r == self.spec_is_leaf(),
    {
        self.idx_or_bit == 0
    }

    /// Whether `go_left` can route row `idx` of `x`: the feature and the row
    /// exist, and the value is one that the split reads (nonnegative, and
    /// below `MAX_BITS` for a categorical split).
    pub fn routes(&self, x: &Vec<Vec<i16>>, idx: usize) -> (r: bool)
        ensures
            r == self.can_route(x@, idx as int),
    {
        let feat = self.feat_idx as usize;
        if feat >= x.len() || idx >= x[feat].len() {
            return false;
        }
        let feat_val = x[feat][idx];
        if self.is_continous() {
            feat_val >= 0
        } else {
            feat_val >= 0 && feat_val < MAX_BITS
        }
    }

    /// Whether row `idx` of `x` goes to the left child.
    pub fn go_left(&self, x: &Vec<Vec<i16>>, idx: usize) -> (r: bool)
        requires
            self.can_route(x@, idx as int),
        ensures
            r == self.goes_left(self.feat_val(x@, idx as int)),
    {
        let feat_val = x[self.feat_idx as usize][idx];
        self.go_left_v(feat_val)
    }

    pub fn go_right(&self, x: &Vec<Vec<i16>>, idx: usize) -> (r: bool)
        requires
            self.can_route(x@, idx as int),
        ensures
            r == !self.goes_left(self.feat_val(x@, idx as int)),
    {
        !self.go_left(x, idx)
    }

    /// Whether the feature value `feat_val` goes to the left child.
    pub fn go_left_v(&self, feat_val: i16) -> (r: bool)
        requires
            self.accepts(feat_val),
        ensures
            r == self.goes_left(feat_val),
    {
        if self.is_continous() {
            feat_val < self.idx_or_bit
        } else {
            (self.idx_or_bit & (1i16 << (feat_val as u16))) != 0
        }
    }

    pub fn go_right_v(&self, feat_val: i16) -> (r: bool)
        requires
            self.accepts(feat_val),
        ensures
            r == !self.goes_left(feat_val),
    {
        !self.go_left_v(feat_val)
    }

    /// The thresholds still open at node `k` for this continuous split.
    pub open spec fn open_range(self, nodes: Map<u8, Node>, k: u8) -> (i16, i16) {
        con_range(nodes, self.feat(), k, 1, (self.code() + 1) as i16)
    }

    /// The categories still open at node `k` for this categorical split.
    pub open spec fn open_cats(self, nodes: Map<u8, Node>, k: u8) -> Seq<i16> {
        bit_positions(avail_bits(nodes, self.feat(), k, self.code()), MAX_BITS as int)
    }

    /// Whether a sub split of this split can still be drawn at node `k`:
    /// at least two thresholds, or at least two categories, are open.
    pub open spec fn splittable(self, nodes: Map<u8, Node>, k: u8) -> bool {
        if self.spec_is_continuous() {
            self.open_range(nodes, k).1 - self.open_range(nodes, k).0 > 1
        } else {
            self.open_cats(nodes, k).len() > 1
        }
    }

    /// `s` is a sub split of this split at node `k`: a split of the same
    /// feature with an open threshold, or with a nonempty set of open
    /// categories that leaves out the greatest open one.
    pub open spec fn is_sub_split(self, nodes: Map<u8, Node>, k: u8, s: Split) -> bool {
        &&& s.wf()
        &&& s.feat() == self.feat()
        &&& if self.spec_is_continuous() {
            &&& s.spec_is_continuous()
            &&& self.open_range(nodes, k).0 <= s.code() < self.open_range(nodes, k).1
        } else {
            let open = self.open_cats(nodes, k);
            &&& s.code() < 0
            &&& exists|c: i16| 0 <= c < MAX_BITS && #[trigger] has_bit(s.code(), c as u16)
            &&& forall|c: i16| 0 <= c < MAX_BITS && #[trigger] has_bit(s.code(), c as u16) ==> open.contains(c)
            &&& !has_bit(s.code(), open.last() as u16)
        }
    }

    fn avail_con_range(&self, tree: &Tree, node_idx: u8) -> (r: (i16, i16))
        requires
            self.spec_is_continuous(),
            self.wf(),
            ancestors_internal(tree.nodes_view(), node_idx),
        ensures
            r == self.open_range(tree.nodes_view(), node_idx),
    {
        let ghost nodes = tree.nodes_view();
        let mut low: i16 = 1;
        let mut high: i16 = self.idx_or_bit + 1;
        let mut parent_idx = node_idx;
        while parent_idx > 1
            invariant
                nodes == tree.nodes_view(),
                ancestors_internal(nodes, parent_idx),
                con_range(nodes, self.feat(), parent_idx, low, high) == self.open_range(nodes, node_idx),
            decreases parent_idx,
        {
            let cur_idx = parent_idx;
            parent_idx = Node::get_parent_idx(parent_idx);
            let split = tree.get_node(parent_idx).split();
            if split.feat_idx == self.feat_idx {
                if Node::idx_is_left(cur_idx) {
                    high = if split.idx_or_bit < high {
                        split.idx_or_bit
                    } else {
                        high
                    };
                } else {
                    low = if split.idx_or_bit > low {
                        split.idx_or_bit
                    } else {
                        low
                    };
                }
            }
        }
        (low, high)
    }

    fn avail_cats(self, tree: &Tree, node_idx: u8) -> (r: Vec<i16>)
        requires
            ancestors_internal(tree.nodes_view(), node_idx),
        ensures
            r@ == self.open_cats(tree.nodes_view(), node_idx),
    {
        let ghost nodes = tree.nodes_view();
        let mut bit: i16 = self.idx_or_bit;
        let mut parent_idx = node_idx;
        while parent_idx > 1
            invariant
                nodes == tree.nodes_view(),
                ancestors_internal(nodes, parent_idx),
                avail_bits(nodes, self.feat(), parent_idx, bit) == avail_bits(
                    nodes,
                    self.feat(),
                    node_idx,
                    self.code(),
                ),
            decreases parent_idx,
        {
            let cur_idx = parent_idx;
            parent_idx = Node::get_parent_idx(parent_idx);
            let split = tree.get_node(parent_idx).split();
            if split.feat_idx == self.feat_idx {
                if Node::idx_is_left(cur_idx) {
                    bit = bit & split.idx_or_bit;
                } else {
                    bit = bit & (!split.idx_or_bit | (1i16 << (MAX_BITS as u16)));
                }
            }
        }
        Split::cats(bit)
    }

    /// Whether a sub split of this split can be drawn at node `node_idx`.
    pub fn is_splittable(&self, tree: &Tree, node_idx: u8) -> (r: bool)
        requires
            self.wf(),
            ancestors_internal(tree.nodes_view(), node_idx),
        ensures
            r == self.splittable(tree.nodes_view(), node_idx),
    {
        if self.is_continous() {
            let (low, high) = self.avail_con_range(tree, node_idx);
            (high as i32) - (low as i32) > 1
        } else {
            self.avail_cats(tree, node_idx).len() > 1
        }
    }

    /// The numbers that a sub split of this split is drawn from at node
    /// `k`, as a half-open range: the open thresholds of a continuous split;
    /// for a categorical split with `n` open categories, `1 .. 2^(n - 1)`,
    /// whose set bits pick among the open categories but the last.
    pub open spec fn draw_range(self, nodes: Map<u8, Node>, k: u8) -> (int, int) {
        if self.spec_is_continuous() {
            (self.open_range(nodes, k).0 as int, self.open_range(nodes, k).1 as int)
        } else {
            (1, pow2((self.open_cats(nodes, k).len() - 1) as nat) as int)
        }
    }

    /// `s` is the sub split that the drawn number `d` gives at node `k`: the
    /// continuous split at threshold `d`, or the categorical split of the
    /// open categories at the set bits of `d`.
    pub open spec fn drawn_split(self, nodes: Map<u8, Node>, k: u8, d: i16, s: Split) -> bool {
        if self.spec_is_continuous() {
            s == Split::continuous_split(self.feat(), d)
        } else {
            let open = self.open_cats(nodes, k);
            let picked = bit_positions(d, MAX_BITS as int).map_values(|j: i16| open[j as int]);
            &&& s.feat() == self.feat()
            &&& s.code() < 0
            &&& forall|c: i16| 0 <= c < MAX_BITS ==> (#[trigger] has_bit(s.code(), c as u16) <==> picked.contains(c))
        }
    }

    /// The range that a sub split of this split is drawn from at node
    /// `node_idx`; `None` when fewer than two thresholds or categories are
    /// open there.
    pub fn sub_split_range(&self, tree: &Tree, node_idx: u8) -> (r: Option<(i16, i16)>)
        requires
            self.wf(),
            ancestors_internal(tree.nodes_view(), node_idx),
        ensures
            r is Some <==> self.splittable(tree.nodes_view(), node_idx),
            r matches Some(p) ==> {
                &&& p.0 as int == self.draw_range(tree.nodes_view(), node_idx).0
                &&& p.1 as int == self.draw_range(tree.nodes_view(), node_idx).1
                &&& p.0 < p.1
            },
    {
        if self.is_continous() {
            let (low, high) = self.avail_con_range(tree, node_idx);
            if (high as i32) - (low as i32) <= 1 {
                None
            } else {
                Some((low, high))
            }
        } else {
            let avail_cats = self.avail_cats(tree, node_idx);
            if avail_cats.len() <= 1 {
                None
            } else {
                proof {
                    lemma_bit_positions(avail_bits(tree.nodes_view(), self.feat(), node_idx, self.code()), 15);
                }
                let m = (avail_cats.len() - 1) as u16;
                let num_splits: i16 = 1i16 << m;
                proof {
                    lemma_shift_pow2(m);
                    vstd::arithmetic::power2::lemma2_to64();
                    assert((1i16 << m) > 1) by (bit_vector)
                        requires
                            1 <= m <= 14,
                    ;
                }
                Some((1, num_splits))
            }
        }
    }

    /// The sub split of this split at node `node_idx` that the number `d`,
    /// drawn from `sub_split_range`, gives.
    pub fn sub_split_of_draw(&self, tree: &Tree, node_idx: u8, d: i16) -> (r: Split)
        requires
            self.wf(),
            ancestors_internal(tree.nodes_view(), node_idx),
            self.splittable(tree.nodes_view(), node_idx),
            self.draw_range(tree.nodes_view(), node_idx).0 <= d < self.draw_range(tree.nodes_view(), node_idx).1,
        ensures
            self.drawn_split(tree.nodes_view(), node_idx, d, r),
            self.is_sub_split(tree.nodes_view(), node_idx, r),
    {
        let feat_idx = self.feat_idx;
        if self.is_continous() {
            proof {
                lemma_con_range_bounds(tree.nodes_view(), self.feat(), node_idx, 1, (self.code() + 1) as i16);
            }
            Split::new_continuous(feat_idx, d)
        } else {
            let avail_cats = self.avail_cats(tree, node_idx);
            let ghost open = avail_cats@;
            proof {
                lemma_bit_positions(avail_bits(tree.nodes_view(), self.feat(), node_idx, self.code()), 15);
                lemma_shift_pow2((avail_cats.len() - 1) as u16);
            }
            let picked_cats = Self::select_cats(&avail_cats, d);
            let s = Split::new_categorical(feat_idx, picked_cats);
            proof {
                let c0 = picked_cats@[0];
                assert(picked_cats@.contains(c0));
                assert(has_bit(s.code(), c0 as u16));
                assert forall|c: i16| 0 <= c < MAX_BITS && #[trigger] has_bit(s.code(), c as u16) implies open.contains(c) by {
                    assert(picked_cats@.contains(c));
                }
                let last = open.last();
                assert(0 <= last < MAX_BITS);
                if has_bit(s.code(), last as u16) {
                    assert(picked_cats@.contains(last));
                }
            }
            s
        }
    }

    /// Draws a sub split of this split at node `node_idx` of `tree`: a
    /// number drawn from `sub_split_range`, turned into a split by
    /// `sub_split_of_draw`.  `None` when fewer than two thresholds or
    /// categories are open.
    pub fn rand_pick_sub_split(&self, tree: &Tree, node_idx: u8, rng: &mut ThreadRng) -> (r: Option<Split>)
        requires
            self.wf(),
            ancestors_internal(tree.nodes_view(), node_idx),
        ensures
            r is Some <==> self.splittable(tree.nodes_view(), node_idx),
            r matches Some(s) ==> {
                &&& s.feat() == self.feat()
                &&& s.spec_is_continuous() == self.spec_is_continuous()
                &&& self.is_sub_split(tree.nodes_view(), node_idx, s)
                &&& exists|d: i16|
                    {
                        &&& self.draw_range(tree.nodes_view(), node_idx).0 <= d
                        &&& d < self.draw_range(tree.nodes_view(), node_idx).1
                        &&& #[trigger] self.drawn_split(tree.nodes_view(), node_idx, d, s)
                    }
            },
    {
        match self.sub_split_range(tree, node_idx) {
            None => None,
            Some((low, high)) => {
                let d = gen_range_i16(rng, low, high);
                let s = self.sub_split_of_draw(tree, node_idx, d);
                Some(s)
            },
        }
    }

    /// The categories of `cats` at the set bits of `picked_bit`, in order;
    /// `picked_bit` is a nonzero number below `2^(cats.len() - 1)`.
    pub fn select_cats(cats: &Vec<i16>, picked_bit: i16) -> (r: Vec<i16>)
        requires
            1 < cats.len() <= 15,
            forall|k: int| 0 <= k < cats.len() ==> 0 <= #[trigger] cats@[k] < MAX_BITS,
            forall|a: int, b: int| 0 <= a < b < cats.len() ==> cats@[a] < cats@[b],
            0 < picked_bit,
            picked_bit < (1i16 << ((cats.len() - 1) as u16)),
        ensures
            r@ == bit_positions(picked_bit, MAX_BITS as int).map_values(|j: i16| cats@[j as int]),
            r.len() > 0,
            forall|k: int| 0 <= k < r.len() ==> 0 <= #[trigger] r@[k] < MAX_BITS,
            forall|c: i16| #[trigger] r@.contains(c) ==> cats@.contains(c),
            !r@.contains(cats@.last()),
    {
        let ids = Split::cats(picked_bit);
        let m = (cats.len() - 1) as u16;
        proof {
            lemma_bit_positions(picked_bit, 15);
            lemma_high_bits_clear(picked_bit, m);
            lemma_nonzero_has_bit(picked_bit);
        }
        let ghost pos = bit_positions(picked_bit, MAX_BITS as int);
        proof {
            assert forall|k: int| 0 <= k < pos.len() implies 0 <= #[trigger] pos[k] < m by {
                assert(pos.contains(pos[k]));
                assert(has_bit(picked_bit, pos[k] as u16));
            }
            let j = choose|j: u16| j < 15 && #[trigger] has_bit(picked_bit, j);
            assert(pos.contains(j as i16));
        }
        let mut ret: Vec<i16> = Vec::new();
        let mut i: usize = 0;
        while i < ids.len()
            invariant
                ids@ == pos,
                i <= ids.len(),
                forall|k: int| 0 <= k < pos.len() ==> 0 <= #[trigger] pos[k] < m,
                m == cats.len() - 1,
                ret@ == pos.subrange(0, i as int).map_values(|j: i16| cats@[j as int]),
            decreases ids.len() - i,
        {
            let id = ids[i];
            assert(0 <= id < m);
            ret.push(cats[id as usize]);
            proof {
                assert(pos.subrange(0, i + 1) == pos.subrange(0, i as int).push(id));
            }
            i = i + 1;
        }
        proof {
            assert(pos.subrange(0, pos.len() as int) == pos);
            assert(pos.len() > 0);
            assert forall|k: int| 0 <= k < ret.len() implies 0 <= #[trigger] ret@[k] < MAX_BITS by {
                assert(ret@[k] == cats@[pos[k] as int]);
            }
            assert forall|c: i16| #[trigger] ret@.contains(c) implies cats@.contains(c) by {
                let k = choose|k: int| 0 <= k < ret.len() && ret@[k] == c;
                assert(cats@[pos[k] as int] == c);
            }
            if ret@.contains(cats@.last()) {
                let k = choose|k: int| 0 <= k < ret.len() && ret@[k] == cats@.last();
                assert(cats@[pos[k] as int] == cats@[cats.len() - 1]);
                assert(pos[k] < cats.len() - 1);
            }
        }
        ret
    }

    /// The categories set in `bit`, in increasing order.
    pub fn cats(bit: i16) -> (r: Vec<i16>)
        ensures
            r@ == bit_positions(bit, MAX_BITS as int),
    {
        let mut ret: Vec<i16> = Vec::new();
        let mut ind: i16 = 0;
        while ind < MAX_BITS
            invariant
                0 <= ind <= MAX_BITS,
                ret@ == bit_positions(bit, ind as int),
            decreases MAX_BITS - ind,
        {
            let mask: i16 = 1i16 << (ind as u16);
            assert((mask & bit) == (bit & mask)) by (bit_vector);
            if (mask & bit) != 0 {
                ret.push(ind);
            }
            ind = ind + 1;
        }
        ret
    }
}

} // verus!
