//! The geometry of the hash tree: which nodes the n-th generation holds, how
//! they are connected, and which leaves each of them covers.
//!
//! The tree over the leaves `lo..=hi` is a single leaf when `lo == hi`.
//! Otherwise its left child is the perfect binary tree over the first
//! `left_span` leaves, the largest power of two strictly below the number of
//! leaves, and its right child is the tree over the remaining leaves.

use vstd::prelude::*;
use vstd::arithmetic::power2::*;
use vstd::arithmetic::div_mod::*;
use vstd::bits::*;
use core::ops::RangeInclusive;

verus! {

/// The integer type of a leaf index. Leaves are numbered from 1.
pub type Index = u64;

/// The bit width of [`Index`], which is also the greatest height of a node.
pub const INDEX_SIZE: u8 = 64;

/// The height of the tree over `span` leaves: the least `h` with `span <= 2^h`.
pub open spec fn height(span: nat) -> nat
    decreases span,
{
    if span <= 1 {
        0
    } else {
        1 + height((span + 1) / 2)
    }
}

/// The number of leaves under the left child of the tree over `span` leaves.
pub open spec fn left_span(span: nat) -> nat {
    pow2((height(span) - 1) as nat)
}

/// The number of leaves that `b_{i,j}` covers.
pub open spec fn span_of(i: nat, j: nat) -> nat
    recommends
        i >= 1,
{
    ((i - 1) % (pow2(j) as int) + 1) as nat
}

/// The least leaf index that `b_{i,j}` covers.
pub open spec fn range_start(i: nat, j: nat) -> nat
    recommends
        i >= 1,
{
    (i - (i - 1) % (pow2(j) as int)) as nat
}

/// Whether the subtree rooted at `b_{i,j}` is a perfect binary tree.
pub open spec fn spec_is_pbst(i: nat, j: nat) -> bool {
    i % pow2(j) == 0
}

/// `2^(h-1) < span <= 2^h` for the height `h` of a tree with two leaves or more.
pub proof fn lemma_height_bounds(span: nat)
    requires
        span >= 2,
    ensures
        height(span) >= 1,
        pow2((height(span) - 1) as nat) < span <= pow2(height(span)),
    decreases span,
{
    lemma2_to64();
    let m: nat = (span + 1) / 2;
    if span == 2 {
        assert(height(1) == 0);
        assert(height(2) == 1);
    } else {
        lemma_height_bounds(m);
        let hm = height(m);
        lemma_pow2_unfold(hm);
        lemma_pow2_unfold(hm + 1);
    }
}

/// The height is the only `h` with `2^(h-1) < span <= 2^h`.
pub(crate) proof fn lemma_height_unique(span: nat, h: nat)
    requires
        span >= 2,
        h >= 1,
        pow2((h - 1) as nat) < span <= pow2(h),
    ensures
        height(span) == h,
{
    lemma_height_bounds(span);
    let g = height(span);
    if g < h {
        if g < h - 1 {
            lemma_pow2_strictly_increases(g, (h - 1) as nat);
        }
    } else if g > h {
        if h < g - 1 {
            lemma_pow2_strictly_increases(h, (g - 1) as nat);
        }
    }
}

/// A tree of at most `2^64` leaves is at most 64 high.
pub(crate) proof fn lemma_height_max(span: nat)
    requires
        span <= u64::MAX,
    ensures
        height(span) <= 64,
{
    lemma2_to64();
    if span >= 2 {
        lemma_height_bounds(span);
        if height(span) > 64 {
            lemma_pow2_strictly_increases(64, (height(span) - 1) as nat);
        }
    }
}

/// The height of a tree and the size of its left child, for `span >= 2`.
pub fn split(span: u64) -> (r: (u8, u64))
    requires
        span >= 2,
    ensures
        r.0 as nat == height(span as nat),
        r.1 as nat == left_span(span as nat),
        1 <= r.0 <= 64,
        r.1 < span,
        span <= 2 * r.1,
{
    let mut ls: u64 = 1;
    let mut h: u8 = 1;
    proof {
        lemma2_to64();
    }
    while ls <= (span - 1) / 2
        invariant
            1 <= h <= 64,
            ls as nat == pow2((h - 1) as nat),
            1 <= ls < span,
        decreases span - ls,
    {
        proof {
            lemma_pow2_unfold(h as nat);
            if h == 64 {
                lemma2_to64();
                lemma2_to64_rest();
            }
        }
        ls = ls * 2;
        h = h + 1;
    }
    proof {
        lemma_pow2_unfold(h as nat);
        lemma_height_unique(span as nat, h as nat);
    }
    (h, ls)
}

/// The leaves that `b_{i,j}` covers: from `i - span + 1` up to `i`.
pub fn range(i: Index, j: u8) -> (r: RangeInclusive<Index>)
    requires
        i >= 1,
    ensures
        r@.start as nat == range_start(i as nat, j as nat),
        r@.end == i,
        !r@.exhausted,
        1 <= r@.start <= i,
{
    RangeInclusive::new(first_leaf(i, j), i)
}

/// The least leaf index that `b_{i,j}` covers.
pub fn first_leaf(i: Index, j: u8) -> (r: Index)
    requires
        i >= 1,
    ensures
        r as nat == range_start(i as nat, j as nat),
        1 <= r <= i,
{
    let x: u64 = i - 1;
    if j >= 64 {
        proof {
            lemma2_to64();
            if j > 64 {
                lemma_pow2_strictly_increases(64, j as nat);
            }
            lemma_small_mod(x as nat, pow2(j as nat));
        }
        1
    } else {
        let s: u64 = j as u64;
        let q: u64 = x >> s;
        proof {
            let p = pow2(j as nat) as int;
            lemma_pow2_pos(j as nat);
            lemma_u64_shr_is_div(x, s);
            lemma_fundamental_div_mod(x as int, p);
            assert(q * p == p * (x as int / p)) by (nonlinear_arith)
                requires
                    q == x as int / p,
            ;
            assert(q * p <= x);
            lemma_mod_bound(x as int, p);
            lemma_u64_shl_is_mul(q, s);
        }
        (q << s) + 1
    }
}

/// Whether the subtree rooted at `b_{i,j}` is a perfect binary tree, which is
/// when `i` is a multiple of `2^j`.
pub fn is_pbst(i: Index, j: u8) -> (r: bool)
    ensures
        r == spec_is_pbst(i as nat, j as nat),
{
    if j >= 64 {
        proof {
            lemma2_to64();
            if j > 64 {
                lemma_pow2_strictly_increases(64, j as nat);
            }
            lemma_small_mod(i as nat, pow2(j as nat));
        }
        i == 0
    } else {
        let s: u64 = j as u64;
        let q: u64 = i >> s;
        proof {
            let p = pow2(j as nat) as int;
            lemma_pow2_pos(j as nat);
            lemma_u64_shr_is_div(i, s);
            lemma_fundamental_div_mod(i as int, p);
            assert(q * p == p * (i as int / p)) by (nonlinear_arith)
                requires
                    q == i as int / p,
            ;
            lemma_mod_bound(i as int, p);
            lemma_u64_shl_is_mul(q, s);
        }
        (q << s) == i
    }
}

/// The address `b_{i,j}` of a node: `i` is the greatest leaf index below it,
/// `j` its height.
#[derive(Copy, Clone, Debug, PartialEq, Eq, Structural)]
pub struct Node {
    pub i: Index,
    pub j: u8,
}

impl Node {
    pub fn new(i: Index, j: u8) -> (r: Node)
        ensures
            r == (Node { i, j }),
    {
        Node { i, j }
    }
}

/// An internal node together with its two children.
#[derive(Copy, Clone, Debug, PartialEq, Eq, Structural)]
pub struct INode {
    pub node: Node,
    pub left: Node,
    pub right: Node,
}

/// One move down the tree: the child that is entered and the child that is
/// left aside.
#[derive(Copy, Clone, Debug, PartialEq, Eq, Structural)]
pub struct Step {
    pub step: Node,
    pub neighbor: Node,
}

/// The moves that lead from the root of a generation down to one of its nodes.
#[derive(Clone, Debug, PartialEq, Eq)]
pub struct Path {
    pub root: Node,
    pub steps: Vec<Step>,
}

/// The address of the root of the tree over the leaves `lo..=hi`.
pub open spec fn node_at(lo: nat, hi: nat) -> Node {
    Node { i: hi as u64, j: height((hi + 1 - lo) as nat) as u8 }
}

/// The internal node that roots the tree over `lo..=hi`, for `lo < hi`.
pub open spec fn inode_at(lo: nat, hi: nat) -> INode {
    let ls = left_span((hi + 1 - lo) as nat);
    INode {
        node: node_at(lo, hi),
        left: node_at(lo, (lo + ls - 1) as nat),
        right: node_at(lo + ls, hi),
    }
}

/// The internal nodes on the right edge of the tree over `lo..=hi`, from its
/// root downwards. With `lo == 1` these are the nodes that come into being
/// when leaf `hi` is appended.
pub open spec fn spec_inodes(lo: nat, hi: nat) -> Seq<INode>
    decreases hi - lo,
{
    if lo >= hi {
        Seq::empty()
    } else {
        let ls = left_span((hi + 1 - lo) as nat);
        proof {
            lemma_pow2_pos((height((hi + 1 - lo) as nat) - 1) as nat);
            lemma_height_bounds((hi + 1 - lo) as nat);
        }
        seq![inode_at(lo, hi)] + spec_inodes(lo + ls, hi)
    }
}

/// A step in front of the rest of a path, where there is one.
pub open spec fn step_then(step: Step, rest: Option<Seq<Step>>) -> Option<Seq<Step>> {
    match rest {
        Some(steps) => Some(seq![step] + steps),
        None => None,
    }
}

/// The steps from the root of the tree over `lo..=hi` down to `b_{i,j}`, or
/// `None` where that tree has no such node.
pub open spec fn spec_path(lo: nat, hi: nat, i: nat, j: nat) -> Option<Seq<Step>>
    decreases hi - lo,
{
    let span = (hi + 1 - lo) as nat;
    if i == hi && j == height(span) {
        Some(Seq::empty())
    } else if lo >= hi || i < lo || hi < i {
        None
    } else {
        let ls = left_span(span);
        let node = inode_at(lo, hi);
        proof {
            lemma_pow2_pos((height(span) - 1) as nat);
            lemma_height_bounds(span);
        }
        if i <= lo + ls - 1 {
            step_then(
                Step { step: node.left, neighbor: node.right },
                spec_path(lo, (lo + ls - 1) as nat, i, j),
            )
        } else {
            step_then(Step { step: node.right, neighbor: node.left }, spec_path(lo + ls, hi, i, j))
        }
    }
}

/// The steps from the root of generation `n` down to `b_{i,j}`.
pub open spec fn spec_path_to(n: nat, i: nat, j: nat) -> Option<Seq<Step>> {
    if i < 1 || n < i {
        None
    } else {
        spec_path(1, n, i, j)
    }
}

/// A perfect binary tree of `2^k` leaves is `k` high.
pub(crate) proof fn lemma_height_pow2(k: nat)
    ensures
        height(pow2(k)) == k,
{
    lemma2_to64();
    if k == 0 {
    } else {
        lemma_pow2_pos(k);
        lemma_pow2_strictly_increases((k - 1) as nat, k);
        lemma_pow2_unfold(k);
        lemma_height_unique(pow2(k), k);
    }
}

/// The height of the tree over `span` leaves; a single leaf has height 0.
pub fn height_of(span: u64) -> (h: u8)
    ensures
        h as nat == height(span as nat),
        h <= 64,
{
    if span >= 2 {
        split(span).0
    } else {
        0
    }
}

/// The internal node that roots the tree over `lo..=hi`.
fn inode_of(lo: u64, hi: u64) -> (r: (INode, u64))
    requires
        1 <= lo < hi,
    ensures
        r.0 == inode_at(lo as nat, hi as nat),
        r.1 as nat == left_span((hi + 1 - lo) as nat),
        1 <= r.1 <= hi - lo,
        r.0.node.j >= 1,
        r.0.left.j == r.0.node.j - 1,
        r.0.right.j <= r.0.left.j,
        r.0.node.i == hi,
        r.0.right.i == hi,
        r.0.left.i == lo + r.1 - 1,
{
    let span: u64 = hi - lo + 1;
    let (h, ls) = split(span);
    let rj: u8 = height_of(span - ls);
    proof {
        lemma_height_pow2((h - 1) as nat);
        let rest = (span - ls) as nat;
        if rest >= 2 {
            lemma_height_bounds(rest);
            if height(rest) > h - 1 {
                if height(rest) - 1 > h - 1 {
                    lemma_pow2_strictly_increases((h - 1) as nat, (height(rest) - 1) as nat);
                }
            }
        }
    }
    (
        INode {
            node: Node { i: hi, j: h },
            left: Node { i: lo + ls - 1, j: h - 1 },
            right: Node { i: hi, j: rj },
        },
        ls,
    )
}

/// The shape of the tree after `n` leaves have been appended.
#[derive(Debug, PartialEq, Eq)]
pub struct NthGenHashTree {
    n: Index,
    inodes: Vec<INode>,
}

impl NthGenHashTree {
    #[verifier::type_invariant]
    spec fn inv(&self) -> bool {
        self.inodes@ == spec_inodes(1, self.n as nat)
    }

    /// The number of leaves of this generation.
    pub closed spec fn spec_n(&self) -> nat {
        self.n as nat
    }

    /// The shape of the `n`-th generation.
    pub fn new(n: Index) -> (r: NthGenHashTree)
        ensures
            r.spec_n() == n,
    {
        let mut inodes: Vec<INode> = Vec::new();
        let mut lo: u64 = 1;
        while lo < n
            invariant
                1 <= lo,
                n >= 1 ==> lo <= n,
                spec_inodes(1, n as nat) == inodes@ + spec_inodes(lo as nat, n as nat),
            decreases n - lo,
        {
            let (node, ls) = inode_of(lo, n);
            proof {
                assert(inodes@.push(node) + spec_inodes((lo + ls) as nat, n as nat) =~= inodes@ + (
                seq![node] + spec_inodes((lo + ls) as nat, n as nat)));
            }
            inodes.push(node);
            lo = lo + ls;
        }
        proof {
            assert(inodes@ + spec_inodes(lo as nat, n as nat) =~= inodes@);
        }
        NthGenHashTree { n, inodes }
    }

    /// The number of leaves of this generation.
    pub fn n(&self) -> (r: Index)
        ensures
            r == self.spec_n(),
    {
        self.n
    }

    /// The address of the root: `i` is `n` and `j` the height of the tree.
    pub fn root(&self) -> (r: Node)
        ensures
            r == node_at(1, self.spec_n()),
    {
        Node { i: self.n, j: height_of(self.n) }
    }

    /// The internal nodes that come into being with leaf `n`, from the root
    /// downwards. Each has `n` as its `i`; its right child is the next node
    /// of the list, or the leaf `n` after the last one.
    pub fn inodes(&self) -> (r: Vec<INode>)
        ensures
            r@ == spec_inodes(1, self.spec_n()),
            r@.len() <= INDEX_SIZE,
            forall|k: int|
                0 <= k < r@.len() ==> 1 <= (#[trigger] r@[k]).node.j <= INDEX_SIZE && r@[k].node.i
                    == self.spec_n(),
    {
        proof {
            use_type_invariant(self);
            if self.n >= 1 {
                lemma_height_max(self.n as nat);
                lemma_spine_bounds(1, self.n as nat);
            }
        }
        self.inodes.clone()
    }

    /// The steps from the root down to `b_{i,j}`, or `None` where this
    /// generation has no such node.
    pub fn path_to(&self, i: Index, j: u8) -> (r: Option<Path>)
        ensures
            match spec_path_to(self.spec_n(), i as nat, j as nat) {
                Some(steps) => r matches Some(path) && path.steps@ == steps && path.root == node_at(
                    1,
                    self.spec_n(),
                ),
                None => r is None,
            },
            r matches Some(path) ==> path.steps@.len() <= INDEX_SIZE,
    {
        let n: u64 = self.n;
        if i < 1 || n < i {
            return None;
        }
        let root = self.root();
        proof {
            lemma_height_max(n as nat);
        }
        let mut steps: Vec<Step> = Vec::new();
        let mut lo: u64 = 1;
        let mut hi: u64 = n;
        loop
            invariant
                1 <= lo <= hi <= n,
                steps@.len() + height((hi + 1 - lo) as nat) <= 64,
                n == self.spec_n(),
                root == node_at(1, n as nat),
                spec_path_to(n as nat, i as nat, j as nat) == prefixed(
                    steps@,
                    spec_path(lo as nat, hi as nat, i as nat, j as nat),
                ),
            decreases hi - lo,
        {
            let h: u8 = height_of(hi - lo + 1);
            if i == hi && j == h {
                proof {
                    assert(steps@ + Seq::<Step>::empty() =~= steps@);
                }
                return Some(Path { root, steps });
            }
            if lo >= hi || i < lo || hi < i {
                return None;
            }
            let (node, ls) = inode_of(lo, hi);
            let ghost before = steps@;
            let ghost old_lo = lo as nat;
            let ghost old_hi = hi as nat;
            if i <= lo + ls - 1 {
                steps.push(Step { step: node.left, neighbor: node.right });
                hi = lo + ls - 1;
            } else {
                steps.push(Step { step: node.right, neighbor: node.left });
                lo = lo + ls;
            }
            proof {
                lemma_right_lower(old_lo, old_hi);
                let step = steps@[steps@.len() - 1];
                let rest = spec_path(lo as nat, hi as nat, i as nat, j as nat);
                assert(spec_path(old_lo, old_hi, i as nat, j as nat) == step_then(step, rest));
                if rest is Some {
                    assert(before + (seq![step] + rest->0) =~= steps@ + rest->0);
                }
            }
        }
    }
}

/// The right edge of the tree over `lo..=hi` holds no more inodes than the
/// tree is high, each of them at least 1 and at most that high, and each
/// with `hi` as its index.
pub(crate) proof fn lemma_spine_bounds(lo: nat, hi: nat)
    requires
        1 <= lo <= hi <= u64::MAX,
    ensures
        spec_inodes(lo, hi).len() <= height((hi + 1 - lo) as nat),
        forall|k: int|
            0 <= k < spec_inodes(lo, hi).len() ==> 1 <= (#[trigger] spec_inodes(lo, hi)[k]).node.j
                <= height((hi + 1 - lo) as nat) && spec_inodes(lo, hi)[k].node.i == hi as u64,
    decreases hi - lo,
{
    if lo < hi {
        let span = (hi + 1 - lo) as nat;
        let ls = left_span(span);
        lemma_height_bounds(span);
        lemma_pow2_pos((height(span) - 1) as nat);
        lemma_spine_bounds(lo + ls, hi);
        lemma_right_lower(lo, hi);
        lemma_height_max(span);
        let rest = spec_inodes(lo + ls, hi);
        assert forall|k: int| 0 <= k < spec_inodes(lo, hi).len() implies 1 <= (
        #[trigger] spec_inodes(lo, hi)[k]).node.j <= height(span) && spec_inodes(lo, hi)[k].node.i
            == hi as u64 by {
            if k > 0 {
                assert(spec_inodes(lo, hi)[k] == rest[k - 1]);
            } else {
                assert(spec_inodes(lo, hi)[0] == inode_at(lo, hi));
            }
        }
    }
}

/// The right child of a tree is lower than the tree.
pub(crate) proof fn lemma_right_lower(lo: nat, hi: nat)
    requires
        1 <= lo < hi,
    ensures
        height((hi + 1 - lo - left_span((hi + 1 - lo) as nat)) as nat) < height(
            (hi + 1 - lo) as nat,
        ),
        height(left_span((hi + 1 - lo) as nat)) == height((hi + 1 - lo) as nat) - 1,
{
    let span = (hi + 1 - lo) as nat;
    let h = height(span);
    lemma_height_bounds(span);
    lemma_height_pow2((h - 1) as nat);
    let rest = (span - left_span(span)) as nat;
    lemma_pow2_unfold(h);
    if rest >= 2 {
        lemma_height_bounds(rest);
        if height(rest) > h - 1 {
            if height(rest) - 1 > h - 1 {
                lemma_pow2_strictly_increases((h - 1) as nat, (height(rest) - 1) as nat);
            }
        }
    }
}

/// The steps `done` followed by the rest of a path, where there is one.
pub open spec fn prefixed(done: Seq<Step>, rest: Option<Seq<Step>>) -> Option<Seq<Step>> {
    match rest {
        Some(steps) => Some(done + steps),
        None => None,
    }
}

/// Whether the tree over `lo..=hi` begins where trees of its height begin:
/// `lo - 1` is a multiple of `2^h` for its height `h`.
pub open spec fn on_grid(lo: nat, hi: nat) -> bool {
    (lo - 1) % (pow2(height((hi + 1 - lo) as nat)) as int) == 0
}

/// The sum and the difference of two multiples of `m` are multiples of `m`.
pub(crate) proof fn lemma_divides_sum(x: int, y: int, m: int)
    requires
        m > 0,
        x % m == 0,
        y % m == 0,
    ensures
        (x + y) % m == 0,
        (x - y) % m == 0,
{
    lemma_fundamental_div_mod(x, m);
    lemma_fundamental_div_mod(y, m);
    let qx = x / m;
    let qy = y / m;
    assert(x + y == (qx + qy) * m) by (nonlinear_arith)
        requires
            x == m * qx,
            y == m * qy,
    ;
    assert(x - y == (qx - qy) * m) by (nonlinear_arith)
        requires
            x == m * qx,
            y == m * qy,
    ;
    lemma_mod_multiples_basic(qx + qy, m);
    lemma_mod_multiples_basic(qx - qy, m);
}

/// A lower power of two divides a higher one.
pub(crate) proof fn lemma_pow2_divides(a: nat, b: nat)
    requires
        a <= b,
    ensures
        pow2(a) > 0,
        pow2(b) % pow2(a) == 0,
        a < b ==> pow2(b) >= 2 * pow2(a),
{
    lemma_pow2_pos(a);
    lemma_pow2_adds((b - a) as nat, a);
    lemma_mod_multiples_basic(pow2((b - a) as nat) as int, pow2(a) as int);
    if a < b {
        lemma_pow2_pos((b - a - 1) as nat);
        lemma_pow2_unfold((b - a) as nat);
        assert(pow2((b - a) as nat) * pow2(a) >= 2 * pow2(a)) by (nonlinear_arith)
            requires
                pow2((b - a) as nat) >= 2,
                pow2(a) > 0,
        ;
    }
}

/// A multiple of a power of two is a multiple of every lower one.
pub(crate) proof fn lemma_divides_lower(x: int, a: nat, b: nat)
    requires
        a <= b,
        x % (pow2(b) as int) == 0,
    ensures
        x % (pow2(a) as int) == 0,
{
    lemma_pow2_pos(a);
    lemma_pow2_pos(b);
    lemma_pow2_adds((b - a) as nat, a);
    lemma_fundamental_div_mod(x, pow2(b) as int);
    let q = x / (pow2(b) as int);
    let r = pow2((b - a) as nat) as int;
    let m = pow2(a) as int;
    assert(x == (q * r) * m) by (nonlinear_arith)
        requires
            x == (r * m) * q,
    ;
    lemma_mod_multiples_basic(q * r, m);
}

/// A positive multiple of `m` is at least `m`.
pub(crate) proof fn lemma_positive_multiple(x: int, m: int)
    requires
        m > 0,
        x > 0,
        x % m == 0,
    ensures
        x >= m,
{
    lemma_fundamental_div_mod(x, m);
    let q = x / m;
    assert(q >= 1) by (nonlinear_arith)
        requires
            x == m * q,
            x > 0,
            m > 0,
    ;
    assert(m * q >= m) by (nonlinear_arith)
        requires
            q >= 1,
            m > 0,
    ;
}

/// The children of a tree on the grid are on the grid, the left one is one
/// lower than the tree, and the right one no higher than the left.
pub(crate) proof fn lemma_children_on_grid(lo: nat, hi: nat)
    requires
        1 <= lo < hi,
        on_grid(lo, hi),
    ensures
        ({
            let ls = left_span((hi + 1 - lo) as nat);
            &&& 1 <= ls <= hi - lo
            &&& on_grid(lo, (lo + ls - 1) as nat)
            &&& on_grid(lo + ls, hi)
            &&& height(ls) == height((hi + 1 - lo) as nat) - 1
            &&& height((hi + 1 - lo - ls) as nat) <= height((hi + 1 - lo) as nat) - 1
            &&& ls == pow2(height(ls))
        }),
{
    let span = (hi + 1 - lo) as nat;
    let h = height(span);
    let ls = left_span(span);
    let rest = (span - ls) as nat;
    lemma_height_bounds(span);
    lemma_right_lower(lo, hi);
    lemma_pow2_pos((h - 1) as nat);
    lemma_pow2_pos(h);
    lemma_pow2_pos(height(rest));
    lemma_divides_lower(lo - 1, (h - 1) as nat, h);
    lemma_pow2_divides((h - 1) as nat, (h - 1) as nat);
    lemma_mod_multiples_basic(1, pow2((h - 1) as nat) as int);
    lemma_divides_sum(lo - 1, ls as int, pow2((h - 1) as nat) as int);
    lemma_divides_lower(lo - 1 + ls, height(rest), (h - 1) as nat);
    assert((lo + ls - 1) as int == lo - 1 + ls);
}

/// The least leaf below inode `t` of the right edge of the tree over
/// `lo..=hi`, counted from the root downwards.
pub open spec fn spine_start(lo: nat, hi: nat, t: nat) -> nat
    decreases t,
{
    if t == 0 {
        lo
    } else {
        spine_start(lo + left_span((hi + 1 - lo) as nat), hi, (t - 1) as nat)
    }
}

/// The least leaf below an inode, from the address of its left child.
pub open spec fn start_of(x: INode) -> nat {
    (x.left.i + 1 - pow2(x.left.j as nat)) as nat
}

/// Inode `t` of the right edge of a tree on the grid roots the tree from
/// its `spine_start` on, which is on the grid; the next inode, if there is
/// one, begins behind its left child, and the leaf `hi` else.
pub(crate) proof fn lemma_spine(lo: nat, hi: nat, t: nat)
    requires
        1 <= lo <= hi <= u64::MAX,
        on_grid(lo, hi),
        t < spec_inodes(lo, hi).len(),
    ensures
        ({
            let from = spine_start(lo, hi, t);
            let x = spec_inodes(lo, hi)[t as int];
            &&& lo <= from < hi
            &&& on_grid(from, hi)
            &&& x == inode_at(from, hi)
            &&& start_of(x) == from
            &&& x.node.j == height((hi + 1 - from) as nat)
            &&& from + left_span((hi + 1 - from) as nat) == x.left.i + 1
            &&& t + 1 < spec_inodes(lo, hi).len() ==> spine_start(lo, hi, t + 1) == x.left.i + 1
                && spec_inodes(lo, hi)[t as int + 1].node.j < x.node.j && spec_inodes(
                lo,
                hi,
            )[t as int + 1].node.j == x.right.j
            &&& t + 1 == spec_inodes(lo, hi).len() ==> x.left.i + 1 == hi && x.right.j == 0
        }),
    decreases hi - lo,
{
    let span = (hi + 1 - lo) as nat;
    let ls = left_span(span);
    lemma_children_on_grid(lo, hi);
    lemma_height_max(span);
    lemma_height_max(ls);
    lemma_height_max((span - ls) as nat);
    let rest = spec_inodes(lo + ls, hi);
    assert(spec_inodes(lo, hi) =~= seq![inode_at(lo, hi)] + rest);
    if t == 0 {
        let x = inode_at(lo, hi);
        assert(spec_inodes(lo, hi)[0] == x);
        if rest.len() > 0 {
            lemma_spine(lo + ls, hi, 0);
            assert(spec_inodes(lo, hi)[1] == rest[0]);
            assert(spine_start(lo, hi, 1) == spine_start(lo + ls, hi, 0));
        } else {
            assert(lo + ls >= hi);
            assert(height(1) == 0);
        }
    } else {
        lemma_spine(lo + ls, hi, (t - 1) as nat);
        assert(spec_inodes(lo, hi)[t as int] == rest[t - 1]);
        if t + 1 < spec_inodes(lo, hi).len() {
            assert(spec_inodes(lo, hi)[t as int + 1] == rest[t as int]);
            assert(spine_start(lo, hi, t + 1) == spine_start(lo + ls, hi, t));
        }
    }
}

/// A tree on the grid that ends at `hi` and begins at or behind `lo` is
/// one of the trees of the right edge of the tree over `lo..=hi`, where
/// that is on the grid too.
pub(crate) proof fn lemma_on_spine(lo: nat, hi: nat, a: nat)
    requires
        1 <= lo <= a < hi <= u64::MAX,
        on_grid(lo, hi),
        on_grid(a, hi),
    ensures
        exists|t: nat| t < spec_inodes(lo, hi).len() && #[trigger] spine_start(lo, hi, t) == a,
    decreases hi - lo,
{
    let span = (hi + 1 - lo) as nat;
    let ls = left_span(span);
    let h = height(span);
    lemma_children_on_grid(lo, hi);
    let rest = spec_inodes(lo + ls, hi);
    assert(spec_inodes(lo, hi) =~= seq![inode_at(lo, hi)] + rest);
    if a == lo {
        assert(spine_start(lo, hi, 0) == a);
    } else {
        // The tree from `a` on is lower than the tree from `lo` on, and `a` lies
        // behind the left child of that.
        let sa = (hi + 1 - a) as nat;
        let ha = height(sa);
        lemma_height_bounds(sa);
        lemma_height_bounds(span);
        lemma_pow2_pos(ha);
        lemma_pow2_pos(h);
        if ha >= h {
            lemma_divides_lower(a - 1, h, ha);
            lemma_divides_sum(a - 1, lo - 1, pow2(h) as int);
            lemma_positive_multiple(a - lo, pow2(h) as int);
            assert(false);
        }
        lemma_divides_lower(lo - 1, ha, h);
        lemma_divides_sum(a - 1, lo - 1, pow2(ha) as int);
        if a - lo < ls {
            lemma_pow2_divides(ha, (h - 1) as nat);
            lemma_divides_sum(ls as int, a - lo, pow2(ha) as int);
            lemma_positive_multiple(ls - (a - lo), pow2(ha) as int);
            assert(false);
        }
        lemma_on_spine(lo + ls, hi, a);
        let from = lo + ls;
        let t = choose|t: nat| t < rest.len() && #[trigger] spine_start(from, hi, t) == a;
        assert(spine_start(lo, hi, t + 1) == a);
        assert(t + 1 < spec_inodes(lo, hi).len());
    }
}

/// The heights of the inodes of the right edge of a tree go down: no two of
/// them are as high as each other.
pub(crate) proof fn lemma_spine_heights(lo: nat, hi: nat, s: nat, t: nat)
    requires
        1 <= lo <= hi <= u64::MAX,
        on_grid(lo, hi),
        s < t < spec_inodes(lo, hi).len(),
    ensures
        spec_inodes(lo, hi)[t as int].node.j < spec_inodes(lo, hi)[s as int].node.j,
    decreases t - s,
{
    lemma_spine(lo, hi, s);
    if s + 1 < t {
        lemma_spine_heights(lo, hi, s + 1, t);
    }
}

/// The least leaf below a node of a tree on the grid is the start of the
/// range of its address.
pub(crate) proof fn lemma_grid_start(lo: nat, hi: nat)
    requires
        1 <= lo <= hi,
        on_grid(lo, hi),
    ensures
        range_start(hi, height((hi + 1 - lo) as nat)) == lo,
        span_of(hi, height((hi + 1 - lo) as nat)) == hi + 1 - lo,
{
    let span = (hi + 1 - lo) as nat;
    let h = height(span);
    let p = pow2(h) as int;
    lemma_pow2_pos(h);
    lemma2_to64();
    if span >= 2 {
        lemma_height_bounds(span);
    }
    // hi - 1 == (lo - 1) + (span - 1), where lo - 1 is a multiple of p and span - 1 < p.
    lemma_fundamental_div_mod(lo - 1, p);
    let q = (lo - 1) / p;
    assert(q * p == p * q) by (nonlinear_arith);
    assert(height(1) == 0);
    assert(hi - 1 == q * p + (span - 1));
    lemma_fundamental_div_mod_converse(hi - 1, p, q, span - 1);
}

} // verus!
