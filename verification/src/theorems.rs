//! What holds of every hash tree that was made by appends alone, proved
//! over the definitions that the contracts of the library use.

use vstd::prelude::*;
use vstd::arithmetic::power2::*;
use crate::checksum::spec_checksum;
use crate::entry::{
    body_end, checked_bytes, spec_read_entry, spec_read_entry_without_check, Address, EntryView,
    INodeView, MetaInfoView,
};
use crate::query::{
    first_of_height, spec_get, spec_get_node, spec_inodes_of_entry, spec_read_inode, spec_search,
};
use crate::error::Detail;
use crate::wire::{u32_at, u64_at};
use crate::hash::spec_combine;
use crate::history::{
    admissible, aligned, authentic, branch_of, branches_of, count_of, entry_of, entry_size,
    last_entry_of,
    lemma_children, lemma_leaf, lemma_positions, lemma_root, lemma_upto_len, lemma_upto_prefix,
    node_meta, position_of, spec_values_with_hashes, storage_bytes, storage_upto, stored_inode,
    tree_hash, tree_node, values_in, Values,
};
use crate::model::{
    height, inode_at, left_span, lemma_children_on_grid, lemma_grid_start, lemma_height_bounds,
    lemma_height_max, lemma_height_pow2, on_grid, range_start, span_of, spec_is_pbst, spec_path,
    spec_path_to, Index, Step,
};
use crate::node::{
    fold_branches, fold_level, fold_nodes, spec_leaves, spec_parent, spec_root, NodeView,
    ValueView,
};
use crate::query::lemma_step;
use crate::tree::root_of;

verus! {

/// The leaves of the values `lo..=hi`.
pub open spec fn leaves_in(vs: Values, lo: nat, hi: nat) -> Seq<NodeView> {
    spec_leaves(values_in(vs, lo, hi))
}

/// `nodes` after `t` levels of joining two by two.
pub open spec fn fold_times(nodes: Seq<NodeView>, t: nat) -> Seq<NodeView>
    decreases t,
{
    if t == 0 {
        nodes
    } else {
        fold_times(fold_level(nodes), (t - 1) as nat)
    }
}

/// The node that two nodes join to, the one with the smaller index on the
/// left.
pub open spec fn joined(node: NodeView, branch: NodeView) -> NodeView {
    if node.i < branch.i {
        spec_parent(node, branch)
    } else {
        spec_parent(branch, node)
    }
}

proof fn lemma_fold_single(x: NodeView, t: nat)
    ensures
        fold_times(seq![x], t) == seq![x],
    decreases t,
{
    if t > 0 {
        assert(fold_level(seq![x]) =~= seq![x]);
        lemma_fold_single(x, (t - 1) as nat);
    }
}

proof fn lemma_fold_twice(nodes: Seq<NodeView>, a: nat, b: nat)
    ensures
        fold_times(nodes, a + b) == fold_times(fold_times(nodes, a), b),
    decreases a,
{
    if a > 0 {
        lemma_fold_twice(fold_level(nodes), (a - 1) as nat, b);
    }
}

/// Nodes behind a block of `2^m` nodes are joined apart from the block for
/// `m` levels.
proof fn lemma_fold_split(left: Seq<NodeView>, right: Seq<NodeView>, t: nat, m: nat)
    requires
        left.len() == pow2(m),
        t <= m,
    ensures
        fold_times(left + right, t) == fold_times(left, t) + fold_times(right, t),
        fold_times(left, t).len() == pow2((m - t) as nat),
    decreases t,
{
    if t > 0 {
        lemma_pow2_unfold(m);
        lemma_pow2_pos((m - 1) as nat);
        let whole = left + right;
        assert(fold_level(whole) =~= fold_level(left) + fold_level(right));
        lemma_fold_split(fold_level(left), fold_level(right), (t - 1) as nat, (m - 1) as nat);
    }
}

/// Where `t` levels leave one node of `nodes`, joining them all leaves
/// that node.
proof fn lemma_fold_nodes(nodes: Seq<NodeView>, t: nat)
    requires
        nodes.len() >= 1,
        fold_times(nodes, t).len() == 1,
    ensures
        fold_nodes(nodes) == fold_times(nodes, t)[0],
    decreases t,
{
    if nodes.len() <= 1 {
        assert(nodes =~= seq![nodes[0]]);
        lemma_fold_single(nodes[0], t);
    } else {
        lemma_fold_nodes(fold_level(nodes), (t - 1) as nat);
    }
}

/// The leaves of `lo..=hi` are those of its left part followed by those of
/// its right part.
proof fn lemma_leaves_split(vs: Values, lo: nat, mid: nat, hi: nat)
    requires
        1 <= lo <= mid < hi,
    ensures
        leaves_in(vs, lo, hi) == leaves_in(vs, lo, mid) + leaves_in(vs, mid + 1, hi),
        leaves_in(vs, lo, mid).len() == mid + 1 - lo,
{
    assert(leaves_in(vs, lo, hi) =~= leaves_in(vs, lo, mid) + leaves_in(vs, mid + 1, hi));
}

/// As many levels as the tree over `lo..=hi` is high, or more, leave of
/// its leaves the root of that tree.
proof fn lemma_fold_tree(vs: Values, lo: nat, hi: nat, t: nat)
    requires
        1 <= lo <= hi <= vs.len(),
        hi <= u64::MAX,
        t >= height((hi + 1 - lo) as nat),
    ensures
        fold_times(leaves_in(vs, lo, hi), t) == seq![tree_node(vs, lo, hi)],
    decreases hi - lo,
{
    let span = (hi + 1 - lo) as nat;
    let h = height(span);
    let whole = leaves_in(vs, lo, hi);
    lemma_height_max(span);
    if lo == hi {
        assert(height(1) == 0);
        assert(whole =~= seq![tree_node(vs, lo, hi)]) by {
            reveal(tree_hash);
        }
        lemma_fold_single(tree_node(vs, lo, hi), t);
    } else {
        let ls = left_span(span);
        let mid = (lo + ls - 1) as nat;
        lemma_height_bounds(span);
        lemma_pow2_pos((h - 1) as nat);
        lemma_height_pow2((h - 1) as nat);
        crate::model::lemma_right_lower(lo, hi);
        let left = leaves_in(vs, lo, mid);
        let right = leaves_in(vs, mid + 1, hi);
        lemma_leaves_split(vs, lo, mid, hi);
        lemma_fold_split(left, right, (h - 1) as nat, (h - 1) as nat);
        lemma_fold_tree(vs, lo, mid, (h - 1) as nat);
        lemma_fold_tree(vs, mid + 1, hi, (h - 1) as nat);
        let pair = seq![tree_node(vs, lo, mid), tree_node(vs, mid + 1, hi)];
        assert(fold_times(whole, (h - 1) as nat) =~= pair);
        lemma_fold_twice(whole, (h - 1) as nat, 1);
        assert(fold_times(pair, 1) == fold_level(pair)) by {
            assert(fold_times(fold_level(pair), 0) == fold_level(pair));
        }
        assert(fold_level(pair) =~= seq![tree_node(vs, lo, hi)]) by {
            reveal(tree_hash);
        }
        lemma_fold_twice(whole, h, (t - h) as nat);
        lemma_fold_single(tree_node(vs, lo, hi), (t - h) as nat);
    }
}

/// The values below a node fold to that node: joined two by two, level by
/// level, with an odd last node going up as it is, the leaves of
/// `lo..=hi` leave the root of the tree over `lo..=hi`.
pub proof fn theorem_leaves_fold(vs: Values, lo: nat, hi: nat)
    requires
        1 <= lo <= hi <= vs.len(),
        hi <= u64::MAX,
    ensures
        fold_nodes(leaves_in(vs, lo, hi)) == tree_node(vs, lo, hi),
{
    let t = height((hi + 1 - lo) as nat);
    lemma_fold_tree(vs, lo, hi, t);
    lemma_fold_nodes(leaves_in(vs, lo, hi), t);
}

proof fn lemma_branches_front(node: NodeView, first: NodeView, rest: Seq<NodeView>)
    ensures
        fold_branches(node, seq![first] + rest) == joined(fold_branches(node, rest), first),
    decreases rest.len(),
{
    let all = seq![first] + rest;
    if rest.len() == 0 {
        assert(all.drop_last() =~= Seq::<NodeView>::empty());
        assert(all.last() == first);
        assert(fold_branches(joined(node, first), Seq::<NodeView>::empty()) == joined(node, first));
    } else {
        assert(all.drop_last() =~= seq![first] + rest.drop_last());
        assert(all.last() == rest.last());
        lemma_branches_front(joined(node, rest.last()), first, rest.drop_last());
    }
}

/// Along a path from the root of a tree on the grid the node looked for
/// and the branches fold to that root.
proof fn lemma_path_folds(vs: Values, lo: nat, hi: nat, i: nat, j: nat, steps: Seq<Step>)
    requires
        1 <= lo <= hi <= vs.len(),
        hi <= u64::MAX,
        on_grid(lo, hi),
        spec_path(lo, hi, i, j) == Some(steps),
    ensures
        lo <= range_start(i, j) <= i <= hi,
        fold_branches(tree_node(vs, range_start(i, j), i), branches_of(vs, steps)) == tree_node(
            vs,
            lo,
            hi,
        ),
    decreases hi - lo,
{
    let span = (hi + 1 - lo) as nat;
    if steps.len() == 0 {
        assert(i == hi && j == height(span)) by {
            if !(i == hi && j == height(span)) {
                if lo < hi && lo <= i <= hi {
                    lemma_height_bounds(span);
                    lemma_pow2_pos((height(span) - 1) as nat);
                }
            }
        }
        lemma_grid_start(lo, hi);
        assert(branches_of(vs, steps) =~= Seq::<NodeView>::empty());
    } else {
        assert(lo < hi) by {
            if lo >= hi {
                assert(spec_path(lo, hi, i, j) is None || spec_path(lo, hi, i, j) == Some(
                    Seq::<Step>::empty(),
                ));
            }
        }
        lemma_step(lo, hi, i, j, steps);
        lemma_children_on_grid(lo, hi);
        lemma_height_max(span);
        lemma_height_bounds(span);
        let node = inode_at(lo, hi);
        let ls = left_span(span);
        let mid = (lo + ls - 1) as nat;
        lemma_height_max(ls);
        lemma_height_max((span - ls) as nat);
        let rest = steps.subrange(1, steps.len() as int);
        let target = tree_node(vs, range_start(i, j), i);
        assert(branches_of(vs, steps) =~= seq![branch_of(vs, steps[0].neighbor)] + branches_of(
            vs,
            rest,
        ));
        lemma_branches_front(target, branch_of(vs, steps[0].neighbor), branches_of(vs, rest));
        lemma_grid_start(lo, mid);
        lemma_grid_start(mid + 1, hi);
        assert(tree_hash(vs, lo, hi) == spec_combine(
            tree_hash(vs, lo, mid),
            tree_hash(vs, mid + 1, hi),
        )) by {
            reveal(tree_hash);
        }
        if steps[0].step == node.left {
            lemma_path_folds(vs, lo, mid, i, j, rest);
            assert(branch_of(vs, node.right) == tree_node(vs, mid + 1, hi));
        } else {
            lemma_path_folds(vs, mid + 1, hi, i, j, rest);
            assert(branch_of(vs, node.left) == tree_node(vs, lo, mid));
        }
    }
}

/// The root of the tree of `vs`: the root of its last entry.
pub(crate) proof fn lemma_root_node(vs: Values)
    requires
        admissible(vs),
        vs.len() >= 1,
    ensures
        root_of(entry_of(vs, vs.len())) == tree_node(vs, 1, vs.len()),
        vs.len() <= u64::MAX,
{
    let n = vs.len();
    lemma_positions(vs, n);
    lemma_root(vs, n);
    lemma_leaf(storage_bytes(vs), vs, n, 0);
    if n >= 2 {
        lemma_children(vs, 1, n);
    } else {
        assert(height(1) == 0);
    }
}

/// Whatever node of the tree is asked for, the values and the branches that
/// are handed out fold to the root of the tree: what an authentic tree
/// hands out gives the root hash of the tree.
pub proof fn theorem_proof_verifies(vs: Values, i: Index, j: u8)
    requires
        admissible(vs),
        spec_values_with_hashes(vs, i, j) is Some,
    ensures
        vs.len() >= 1,
        ({
            let found = spec_values_with_hashes(vs, i, j).unwrap();
            spec_root(found.0, found.1) == root_of(entry_of(vs, vs.len()))
        }),
        root_of(entry_of(vs, vs.len())).i == vs.len(),
        root_of(entry_of(vs, vs.len())).j == height(vs.len()),
        root_of(entry_of(vs, vs.len())).hash == tree_hash(vs, 1, vs.len()),
{
    let n = vs.len();
    let steps = spec_path_to(n, i as nat, j as nat)->0;
    lemma_root_node(vs);
    crate::history::lemma_whole_on_grid(n);
    lemma_height_max(n);
    lemma_path_folds(vs, 1, n, i as nat, j as nat, steps);
    theorem_leaves_fold(vs, range_start(i as nat, j as nat), i as nat);
}

/// A node that roots a perfect binary tree covers `2^j` leaves, any other
/// node fewer.
pub proof fn theorem_size(i: nat, j: nat)
    requires
        i >= 1,
    ensures
        i + 1 - range_start(i, j) == span_of(i, j),
        1 <= span_of(i, j) <= pow2(j),
        spec_is_pbst(i, j) <==> span_of(i, j) == pow2(j),
{
    let p = pow2(j) as int;
    lemma_pow2_pos(j);
    vstd::arithmetic::div_mod::lemma_mod_bound(i - 1, p);
    vstd::arithmetic::div_mod::lemma_fundamental_div_mod(i - 1, p);
    vstd::arithmetic::div_mod::lemma_fundamental_div_mod(i as int, p);
    vstd::arithmetic::div_mod::lemma_mod_bound(i as int, p);
    let q = (i - 1) / p;
    let r = (i - 1) % p;
    if r == p - 1 {
        assert(i == p * (q + 1)) by (nonlinear_arith)
            requires
                i - 1 == p * q + r,
                r == p - 1,
        ;
        vstd::arithmetic::div_mod::lemma_mod_multiples_basic(q + 1, p);
        assert(p * (q + 1) == (q + 1) * p) by (nonlinear_arith);
    } else {
        assert(i == q * p + (r + 1)) by (nonlinear_arith)
            requires
                i - 1 == p * q + r,
        ;
        vstd::arithmetic::div_mod::lemma_fundamental_div_mod_converse(i as int, p, q, r + 1);
    }
}

/// The values handed out for `b_{i,j}` are those of its range, from the
/// first index of the range to `i`, one for each index.
pub proof fn theorem_range(vs: Values, i: Index, j: u8)
    requires
        admissible(vs),
        spec_values_with_hashes(vs, i, j) is Some,
    ensures
        ({
            let found = spec_values_with_hashes(vs, i, j).unwrap();
            let values = found.0;
            &&& values.len() == span_of(i as nat, j as nat)
            &&& values.len() >= 1
            &&& values[0].i == range_start(i as nat, j as nat)
            &&& values.last().i == i
            &&& forall|k: int|
                0 <= k < values.len() ==> (#[trigger] values[k]).i == range_start(
                    i as nat,
                    j as nat,
                ) + k && values[k].value == vs[values[k].i - 1]
        }),
{
    theorem_size(i as nat, j as nat);
}

/// The same values appended in the same order give the same bytes.
pub proof fn theorem_determinism(first: Seq<u8>, second: Seq<u8>, vs: Values)
    requires
        authentic(first, vs),
        authentic(second, vs),
    ensures
        first == second,
{
}

/// An authentic storage cut behind any of its entries is the authentic
/// storage of the values up to that entry.
pub proof fn theorem_truncation(vs: Values, k: nat)
    requires
        admissible(vs),
        k <= vs.len(),
    ensures
        position_of(vs, k + 1) <= storage_bytes(vs).len(),
        authentic(storage_bytes(vs).subrange(0, position_of(vs, k + 1) as int), vs.take(k as int)),
    decreases vs.len() - k,
{
    let n = vs.len();
    let head = vs.take(k as int);
    lemma_upto_len(vs, k);
    lemma_upto_len(vs, n);
    lemma_upto_prefix(vs, head, k);
    crate::history::lemma_position_prefix(vs, head, k + 1);
    lemma_prefix_of(vs, k, n);
}

/// The storage of the first `k` entries is the beginning of the storage of
/// the first `m`.
proof fn lemma_prefix_of(vs: Values, k: nat, m: nat)
    requires
        admissible(vs),
        k <= m <= vs.len(),
    ensures
        storage_upto(vs, k).len() <= storage_upto(vs, m).len(),
        storage_upto(vs, m).subrange(0, storage_upto(vs, k).len() as int) == storage_upto(vs, k),
    decreases m - k,
{
    if k == m {
        assert(storage_upto(vs, m).subrange(0, storage_upto(vs, k).len() as int) =~= storage_upto(
            vs,
            k,
        ));
    } else {
        lemma_prefix_of(vs, k, (m - 1) as nat);
        reveal(storage_upto);
        let before = storage_upto(vs, (m - 1) as nat);
        assert(storage_upto(vs, m).subrange(0, storage_upto(vs, k).len() as int)
            =~= before.subrange(0, storage_upto(vs, k).len() as int));
    }
}

/// A storage is the authentic storage of one sequence of values at most.
pub proof fn theorem_history_unique(b: Seq<u8>, vs: Values, ws: Values)
    requires
        authentic(b, vs),
        authentic(b, ws),
    ensures
        vs == ws,
    decreases vs.len(),
{
    let n = vs.len();
    let m = ws.len();
    crate::history::lemma_open_authentic(b, vs);
    crate::history::lemma_open_authentic(b, ws);
    if n == 0 || m == 0 {
        assert(vs =~= ws);
    } else {
        lemma_positions(vs, n);
        lemma_positions(ws, m);
        lemma_leaf(b, vs, n, 0);
        lemma_leaf(b, ws, m, 0);
        crate::history::lemma_entry_shape(vs, n);
        crate::history::lemma_entry_shape(ws, m);
        assert(n == m);
        assert(position_of(vs, n) == position_of(ws, n));
        theorem_truncation(vs, (n - 1) as nat);
        theorem_truncation(ws, (n - 1) as nat);
        theorem_history_unique(
            b.subrange(0, position_of(vs, n) as int),
            vs.take(n - 1),
            ws.take(n - 1),
        );
        assert forall|k: int| 0 <= k < n implies vs[k] == ws[k] by {
            if k < n - 1 {
                assert(vs.take(n - 1)[k] == vs[k]);
                assert(ws.take(n - 1)[k] == ws[k]);
            }
        }
        assert(vs =~= ws);
    }
}

/// Whatever a storage holds, a last entry that opening accepts has the
/// checksum that its trailer records.
pub proof fn theorem_accepted_tail(b: Seq<u8>)
    requires
        crate::tree::spec_open(b) matches Ok(Some(_)),
    ensures
        b.len() >= 16,
        b.len() - 12 - u32_at(b, b.len() - 12) >= 4,
        spec_checksum(b.subrange(b.len() - 12 - u32_at(b, b.len() - 12), b.len() - 8)) == u64_at(
            b,
            b.len() - 8,
        ),
{
}

/// An authentic storage in which any of the eight bytes of the checksum of
/// the last entry was changed fails to open, with
/// `ChecksumVerificationFailed` for that entry.
pub proof fn theorem_checksum_changed(b: Seq<u8>, vs: Values, changed: Seq<u8>)
    requires
        authentic(b, vs),
        vs.len() >= 1,
        changed.len() == b.len(),
        changed.subrange(0, b.len() - 8) == b.subrange(0, b.len() - 8),
        u64_at(changed, b.len() - 8) != u64_at(b, b.len() - 8),
    ensures
        crate::tree::spec_open(changed) == Err::<Option<EntryView>, Detail>(
            Detail::ChecksumVerificationFailed {
                at: position_of(vs, vs.len()) as u64,
                length: (b.len() - position_of(vs, vs.len())) as u64,
                expected: u64_at(changed, b.len() - 8),
                actual: u64_at(b, b.len() - 8),
            },
        ),
{
    let n = vs.len();
    let p = position_of(vs, n) as int;
    let e = entry_of(vs, n);
    let len = b.len() as int;
    lemma_positions(vs, n);
    crate::history::lemma_entry_shape(vs, n);
    crate::history::lemma_layout(vs, n, n);
    crate::history::lemma_header(vs, n);
    crate::entry::lemma_entry_parts(e);
    crate::entry::lemma_roundtrip(b, p, e, 0);
    let w = crate::entry::checked_bytes(e).len() as int;
    assert(p + w == len - 8);
    let here = changed.subrange(p, p + w);
    let there = b.subrange(p, p + w);
    assert forall|k: int| 0 <= k < w implies #[trigger] here[k] == there[k] by {
        assert(changed.subrange(0, len - 8)[p + k] == b.subrange(0, len - 8)[p + k]);
    }
    assert(here =~= there);
    crate::entry::lemma_roundtrip_body(changed, p, e, 0);
    assert(changed[0] == b[0] && changed[1] == b[1] && changed[2] == b[2] && changed[3] == b[3])
        by {
        assert(changed.subrange(0, len - 8)[0] == b.subrange(0, len - 8)[0]);
        assert(changed.subrange(0, len - 8)[1] == b.subrange(0, len - 8)[1]);
        assert(changed.subrange(0, len - 8)[2] == b.subrange(0, len - 8)[2]);
        assert(changed.subrange(0, len - 8)[3] == b.subrange(0, len - 8)[3]);
    }
    assert(1u8 >> 4 == 0u8) by (bit_vector);
}

/// If an authentic storage is changed in front of the trailer of its last
/// entry and still opens, then the changed bytes of that entry have the
/// checksum of the bytes that were there.
pub proof fn theorem_tamper_needs_collision(b: Seq<u8>, vs: Values, changed: Seq<u8>)
    requires
        authentic(b, vs),
        vs.len() >= 1,
        changed.len() == b.len(),
        changed.subrange(b.len() - 12, b.len() as int) == b.subrange(
            b.len() - 12,
            b.len() as int,
        ),
        crate::tree::spec_open(changed) is Ok,
    ensures
        spec_checksum(changed.subrange(position_of(vs, vs.len()) as int, b.len() - 8))
            == spec_checksum(b.subrange(position_of(vs, vs.len()) as int, b.len() - 8)),
{
    let n = vs.len();
    let p = position_of(vs, n) as int;
    let e = entry_of(vs, n);
    let len = b.len() as int;
    lemma_positions(vs, n);
    crate::history::lemma_entry_shape(vs, n);
    crate::history::lemma_layout(vs, n, n);
    crate::entry::lemma_entry_parts(e);
    crate::entry::lemma_roundtrip(b, p, e, 0);
    let tail = b.subrange(len - 12, len);
    assert(b.subrange(len - 12, len - 8) =~= tail.subrange(0, 4));
    assert(changed.subrange(len - 12, len - 8) =~= tail.subrange(0, 4));
    assert(b.subrange(len - 8, len) =~= tail.subrange(4, 12));
    assert(changed.subrange(len - 8, len) =~= tail.subrange(4, 12));
    assert(b.subrange(p, len - 8) == crate::entry::checked_bytes(e));
}

/// Every leaf of a tree has a path from the root.
pub(crate) proof fn lemma_leaf_reached(lo: nat, hi: nat, i: nat)
    requires
        1 <= lo <= i <= hi,
    ensures
        spec_path(lo, hi, i, 0) is Some,
    decreases hi - lo,
{
    let span = (hi + 1 - lo) as nat;
    if lo == hi {
        assert(height(1) == 0);
    } else {
        lemma_height_bounds(span);
        lemma_pow2_pos((height(span) - 1) as nat);
        let ls = left_span(span);
        if i <= lo + ls - 1 {
            lemma_leaf_reached(lo, (lo + ls - 1) as nat, i);
        } else {
            lemma_leaf_reached(lo + ls, hi, i);
        }
    }
}

/// Each value of an authentic tree is handed out alone, with branches that
/// fold to the root of the tree; so is the last one.
pub proof fn theorem_root_consistency(vs: Values, i: Index)
    requires
        admissible(vs),
        1 <= i <= vs.len(),
    ensures
        spec_values_with_hashes(vs, i, 0) is Some,
        ({
            let found = spec_values_with_hashes(vs, i, 0).unwrap();
            &&& found.0 == seq![ValueView { i, value: vs[i - 1] }]
            &&& spec_root(found.0, found.1) == root_of(entry_of(vs, vs.len()))
        }),
{
    lemma_leaf_reached(1, vs.len(), i as nat);
    theorem_proof_verifies(vs, i, 0);
    theorem_range(vs, i, 0);
    let found = spec_values_with_hashes(vs, i, 0).unwrap();
    lemma2_to64();
    assert(found.0 =~= seq![ValueView { i, value: vs[i - 1] }]);
}

/// Whether generation `n` has the node `b_{i,j}`: the leaves that the
/// address covers make a tree of the height `j`, and the node roots a
/// perfect binary tree or is one of the last nodes, those with `n` as
/// their index.
pub open spec fn has_node(n: nat, i: nat, j: nat) -> bool {
    &&& 1 <= i <= n
    &&& height(span_of(i, j)) == j
    &&& (i == n || spec_is_pbst(i, j))
}

/// More leaves make no lower tree.
pub(crate) proof fn lemma_height_mono(a: nat, b: nat)
    requires
        a <= b,
    ensures
        height(a) <= height(b),
    decreases b,
{
    if a >= 2 {
        lemma_height_mono((a + 1) / 2, (b + 1) / 2);
    }
}

/// The node that a path leads to, from the root of a tree on the grid,
/// covers a tree on the grid of the height of its address, and ends where
/// the tree ends or roots a perfect binary tree.
proof fn lemma_path_target(lo: nat, hi: nat, i: nat, j: nat)
    requires
        1 <= lo <= hi <= u64::MAX,
        on_grid(lo, hi),
        spec_path(lo, hi, i, j) is Some,
    ensures
        lo <= range_start(i, j) <= i <= hi,
        height((i + 1 - range_start(i, j)) as nat) == j,
        i == hi || spec_is_pbst(i, j),
    decreases hi - lo,
{
    let span = (hi + 1 - lo) as nat;
    let h = height(span);
    if i == hi && j == h {
        lemma_grid_start(lo, hi);
    } else {
        lemma_height_bounds(span);
        lemma_pow2_pos((h - 1) as nat);
        lemma_children_on_grid(lo, hi);
        let ls = left_span(span);
        let mid = (lo + ls - 1) as nat;
        if i <= mid {
            lemma_path_target(lo, mid, i, j);
            if i == mid {
                // The left child ends at a multiple of its size.
                let tlo = range_start(i, j);
                lemma_height_mono((i + 1 - tlo) as nat, ls);
                crate::model::lemma_divides_lower(lo - 1, (h - 1) as nat, h);
                crate::model::lemma_pow2_divides((h - 1) as nat, (h - 1) as nat);
                crate::model::lemma_divides_sum(
                    lo - 1,
                    ls as int,
                    pow2((h - 1) as nat) as int,
                );
                crate::model::lemma_divides_lower(mid as int, j, (h - 1) as nat);
            }
        } else {
            lemma_path_target(lo + ls, hi, i, j);
        }
    }
}

/// A tree on the grid has a path to each tree on the grid within it that
/// ends where it ends or is perfect.
proof fn lemma_path_exists(lo: nat, hi: nat, from: nat, i: nat, j: nat)
    requires
        1 <= lo <= from <= i <= hi <= u64::MAX,
        on_grid(lo, hi),
        on_grid(from, i),
        j == height((i + 1 - from) as nat),
        i == hi || i + 1 - from == pow2(j),
    ensures
        spec_path(lo, hi, i, j) is Some,
    decreases hi - lo,
{
    let span = (hi + 1 - lo) as nat;
    let h = height(span);
    if i == hi && j == h {
    } else {
        if lo == hi {
            assert(false);
        }
        lemma_height_bounds(span);
        lemma_pow2_pos((h - 1) as nat);
        lemma_pow2_pos(h);
        lemma_pow2_pos(j);
        lemma_children_on_grid(lo, hi);
        let ls = left_span(span);
        let mid = (lo + ls - 1) as nat;
        let size = (i + 1 - from) as nat;
        if i <= mid {
            lemma_path_exists(lo, mid, from, i, j);
        } else {
            // The tree looked for begins behind the left child.
            lemma_height_mono(size, span);
            if j == h {
                // As high as the whole tree: it is the whole tree.
                crate::model::lemma_divides_sum(from - 1, lo - 1, pow2(h) as int);
                if from > lo {
                    crate::model::lemma_positive_multiple(from - lo, pow2(h) as int);
                }
                assert(false);
            }
            crate::model::lemma_divides_lower(lo - 1, j, h);
            crate::model::lemma_pow2_divides(j, (h - 1) as nat);
            crate::model::lemma_divides_sum(lo - 1, ls as int, pow2(j) as int);
            crate::model::lemma_divides_sum(from - 1, mid as int, pow2(j) as int);
            if from <= mid {
                if size >= 2 {
                    lemma_height_bounds(size);
                }
                assert(height(1) == 0);
                lemma2_to64();
                crate::model::lemma_divides_sum(mid as int, from - 1, pow2(j) as int);
                crate::model::lemma_positive_multiple(mid - (from - 1), pow2(j) as int);
                assert(false);
            }
            lemma_path_exists(lo + ls, hi, from, i, j);
        }
    }
}

/// The nodes of a generation: generation `n` has a path to `b_{i,j}` where
/// it has that node, and nowhere else.
pub proof fn theorem_nodes(n: nat, i: nat, j: nat)
    requires
        n <= u64::MAX,
    ensures
        spec_path_to(n, i, j) is Some <==> has_node(n, i, j),
{
    if 1 <= i <= n {
        crate::history::lemma_whole_on_grid(n);
        theorem_size(i, j);
        let from = range_start(i, j);
        let p = pow2(j) as int;
        lemma_pow2_pos(j);
        if spec_path_to(n, i, j) is Some {
            lemma_path_target(1, n, i, j);
        }
        if has_node(n, i, j) {
            // The range of the address begins behind a multiple of `2^j`.
            vstd::arithmetic::div_mod::lemma_fundamental_div_mod(i - 1, p);
            let q = (i - 1) / p;
            assert(p * q == q * p) by (nonlinear_arith);
            vstd::arithmetic::div_mod::lemma_mod_multiples_basic(q, p);
            lemma_path_exists(1, n, from, i, j);
        }
    }
}

/// What holds of every inode of an authentic storage: its right child
/// stands in the same entry and has its index, its left child stands in an
/// earlier entry at a lower position, is one lower than the inode and at
/// least as high as the right child, and its hash value is that of the two
/// hash values of its children joined.
pub proof fn theorem_inode(vs: Values, lo: nat, e: nat)
    requires
        admissible(vs),
        aligned(lo, e),
        e <= vs.len(),
    ensures
        ({
            let s = stored_inode(vs, lo, e);
            let li = s.left.i as nat;
            &&& s.meta.address.i == e
            &&& s.right.i == e
            &&& s.right.position == s.meta.address.position
            &&& s.right.j < s.meta.address.j
            &&& lo <= li < e
            &&& s.left.position < s.meta.address.position
            &&& s.left.j == s.meta.address.j - 1
            &&& s.left.j >= s.right.j
            &&& s.meta.hash == spec_combine(tree_hash(vs, lo, li), tree_hash(vs, li + 1, e))
        }),
{
    lemma_children(vs, lo, e);
    let s = stored_inode(vs, lo, e);
    let li = s.left.i as nat;
    lemma_positions(vs, e);
    lemma_positions(vs, li);
    crate::history::lemma_position_mono(vs, li + 1, e);
    lemma_children_on_grid(lo, e);
    let ls = left_span((e + 1 - lo) as nat);
    assert(li == lo + ls - 1);
    assert(tree_hash(vs, lo, e) == spec_combine(tree_hash(vs, lo, li), tree_hash(vs, li + 1, e)))
        by {
        reveal(tree_hash);
    }
}

/// Whether the entries of `vs` can be found on `c` as on the storage of
/// `vs`: the inodes of each entry are read from its position, and so are the
/// address and the hash value of its leaf.
pub open spec fn readable(c: Seq<u8>, vs: Values) -> bool {
    &&& admissible(vs)
    &&& forall|m: nat|
        1 <= m <= vs.len() ==> {
            &&& #[trigger] spec_inodes_of_entry(c, position_of(vs, m) as int) == Ok::<
                Seq<INodeView>,
                Detail,
            >(entry_of(vs, m).inodes)
            &&& match spec_read_entry_without_check(c, position_of(vs, m) as int, m as u64) {
                Ok(x) => x.enode == entry_of(vs, m).enode,
                Err(_) => false,
            }
        }
}

/// An authentic storage is readable.
pub(crate) proof fn lemma_authentic_readable(b: Seq<u8>, vs: Values)
    requires
        authentic(b, vs),
    ensures
        readable(b, vs),
{
    assert forall|m: nat| 1 <= m <= vs.len() implies {
        &&& #[trigger] spec_inodes_of_entry(b, position_of(vs, m) as int) == Ok::<
            Seq<INodeView>,
            Detail,
        >(entry_of(vs, m).inodes)
        &&& match spec_read_entry_without_check(b, position_of(vs, m) as int, m as u64) {
            Ok(x) => x.enode == entry_of(vs, m).enode,
            Err(_) => false,
        }
    } by {
        lemma_positions(vs, m);
        lemma_leaf(b, vs, m, m as u64);
    }
}

/// Among inodes of which one is `s` and no other is as high as `s`, the
/// first of the height of `s` is `s`.
proof fn lemma_first_is(inodes: Seq<INodeView>, s: INodeView)
    requires
        exists|m: int| 0 <= m < inodes.len() && inodes[m] == s,
        forall|m: int|
            0 <= m < inodes.len() && (#[trigger] inodes[m]).meta.address.j == s.meta.address.j
                ==> inodes[m] == s,
    ensures
        first_of_height(inodes, s.meta.address.j) == Some(s),
    decreases inodes.len(),
{
    let m = choose|m: int| 0 <= m < inodes.len() && inodes[m] == s;
    if inodes[0].meta.address.j != s.meta.address.j {
        let rest = inodes.subrange(1, inodes.len() as int);
        assert(rest[m - 1] == s);
        assert forall|t: int|
            0 <= t < rest.len() && (#[trigger] rest[t]).meta.address.j
                == s.meta.address.j implies rest[t] == s by {
            assert(rest[t] == inodes[t + 1]);
        }
        lemma_first_is(rest, s);
    }
}

/// On a readable storage the inode that roots an aligned tree is read at
/// its address.
proof fn lemma_inode_read(c: Seq<u8>, vs: Values, lo: nat, e: nat)
    requires
        readable(c, vs),
        aligned(lo, e),
        e <= vs.len(),
    ensures
        spec_read_inode(c, node_meta(vs, lo, e).address) == Ok::<INodeView, Detail>(
            stored_inode(vs, lo, e),
        ),
{
    lemma_positions(vs, e);
    lemma_children(vs, lo, e);
    crate::history::lemma_unique(vs, lo, e);
    lemma_first_is(entry_of(vs, e).inodes, stored_inode(vs, lo, e));
    assert(spec_inodes_of_entry(c, position_of(vs, e) as int) == Ok::<Seq<INodeView>, Detail>(
        entry_of(vs, e).inodes,
    ));
}

/// On a readable storage the search from the inode that roots an aligned
/// tree finds the entry of each leaf below it, within as many moves as the
/// tree is high.
proof fn lemma_search_finds(
    c: Seq<u8>,
    vs: Values,
    lo: nat,
    e: nat,
    i: Index,
    hops: nat,
    root: Address,
)
    requires
        readable(c, vs),
        aligned(lo, e),
        e <= vs.len(),
        lo <= i < e,
        hops >= height((e + 1 - lo) as nat),
    ensures
        spec_search(c, stored_inode(vs, lo, e), i, hops, root) == Ok::<Option<u64>, Detail>(
            Some(position_of(vs, i as nat) as u64),
        ),
    decreases hops,
{
    let s = stored_inode(vs, lo, e);
    let li = s.left.i as nat;
    lemma_children(vs, lo, e);
    lemma_positions(vs, e);
    lemma_positions(vs, i as nat);
    if i <= li {
        if i < li {
            crate::query::lemma_leaf_height(lo, li);
            lemma_inode_read(c, vs, lo, li);
            lemma_search_finds(c, vs, lo, li, i, (hops - 1) as nat, root);
        }
    } else {
        crate::query::lemma_leaf_height(li + 1, e);
        lemma_inode_read(c, vs, li + 1, e);
        lemma_search_finds(c, vs, li + 1, e, i, (hops - 1) as nat, root);
    }
}

/// On a readable storage the leaf of each value is found from the last
/// entry, at the position of its entry.
pub(crate) proof fn lemma_leaf_found(c: Seq<u8>, vs: Values, i: Index)
    requires
        readable(c, vs),
        1 <= i <= vs.len(),
    ensures
        spec_get_node(c, last_entry_of(vs), i, 0) == Ok::<Option<MetaInfoView>, Detail>(
            Some(entry_of(vs, i as nat).enode),
        ),
        entry_of(vs, i as nat).enode.address.position == position_of(vs, i as nat),
        spec_get(c, last_entry_of(vs), i) == match spec_read_entry(
            c,
            position_of(vs, i as nat) as int,
            i,
        ) {
            Ok(entry) => Ok::<Option<Seq<u8>>, Detail>(Some(entry.payload)),
            Err(e) => Err::<Option<Seq<u8>>, Detail>(e),
        },
{
    let n = vs.len();
    let last = entry_of(vs, n);
    lemma_positions(vs, n);
    lemma_positions(vs, i as nat);
    lemma_root(vs, n);
    lemma_leaf(storage_bytes(vs), vs, n, 0);
    lemma_leaf(storage_bytes(vs), vs, i as nat, 0);
    lemma_height_max(n);
    assert(spec_inodes_of_entry(c, position_of(vs, i as nat) as int) == Ok::<
        Seq<INodeView>,
        Detail,
    >(entry_of(vs, i as nat).inodes));
    if n >= 2 {
        lemma_children(vs, 1, n);
        if i < n {
            lemma_search_finds(c, vs, 1, n, i, 64, last.inodes.last().meta.address);
        }
    }
}

/// Each value of an authentic tree is what `get` hands out for its index,
/// and nothing is handed out for another index.
pub proof fn theorem_density(b: Seq<u8>, vs: Values, i: Index)
    requires
        authentic(b, vs),
    ensures
        spec_get(b, last_entry_of(vs), i) == Ok::<Option<Seq<u8>>, Detail>(
            if 1 <= i <= vs.len() {
                Some(vs[i - 1])
            } else {
                None
            },
        ),
{
    let n = vs.len();
    if 1 <= i <= n {
        lemma_authentic_readable(b, vs);
        lemma_leaf_found(b, vs, i);
        crate::history::lemma_leaf_checked(b, vs, i as nat, i);
    } else if n >= 1 && i != 0 {
        lemma_positions(vs, n);
        lemma_root(vs, n);
        lemma_leaf(b, vs, n, 0);
        if n >= 2 {
            lemma_children(vs, 1, n);
        }
    }
}

/// The position of the payload of entry `k`.
pub open spec fn payload_start(vs: Values, k: nat) -> nat {
    position_of(vs, k) + 9 + 50 * count_of(k) + 4
}

/// Whether `changed` is `b` with none but bytes of the payload of entry `k`
/// changed.
pub open spec fn payload_changed(b: Seq<u8>, vs: Values, k: nat, changed: Seq<u8>) -> bool {
    &&& changed.len() == b.len()
    &&& forall|x: int|
        0 <= x < b.len() && !(payload_start(vs, k) <= x < payload_start(vs, k) + vs[k - 1].len())
            ==> #[trigger] changed[x] == b[x]
}

/// Entry `k` with the payload that stands in its place in `changed`.
pub open spec fn changed_entry(vs: Values, k: nat, changed: Seq<u8>) -> EntryView {
    EntryView {
        enode: entry_of(vs, k).enode,
        payload: changed.subrange(
            payload_start(vs, k) as int,
            (payload_start(vs, k) + vs[k - 1].len()) as int,
        ),
        inodes: entry_of(vs, k).inodes,
    }
}

/// What a full read of entry `k` gives after a change of its payload: the
/// failure of the check, or the entry with the changed payload where the
/// changed bytes have the checksum of the bytes that were there.
pub open spec fn changed_read(vs: Values, k: nat, changed: Seq<u8>) -> core::result::Result<
    EntryView,
    Detail,
> {
    let was = spec_checksum(checked_bytes(entry_of(vs, k)));
    let is = spec_checksum(checked_bytes(changed_entry(vs, k, changed)));
    if was == is {
        Ok(changed_entry(vs, k, changed))
    } else {
        Err(
            Detail::ChecksumVerificationFailed {
                at: position_of(vs, k) as u64,
                length: entry_size(vs, k) as u64,
                expected: was,
                actual: is,
            },
        )
    }
}

/// An entry whose payload was not changed is read as before.
proof fn lemma_untouched(b: Seq<u8>, vs: Values, k: nat, changed: Seq<u8>, m: nat, expected: Index)
    requires
        authentic(b, vs),
        1 <= k <= vs.len(),
        payload_changed(b, vs, k, changed),
        1 <= m <= vs.len(),
        m != k,
        expected == 0 || expected == m,
    ensures
        spec_inodes_of_entry(changed, position_of(vs, m) as int) == Ok::<Seq<INodeView>, Detail>(
            entry_of(vs, m).inodes,
        ),
        spec_read_entry_without_check(changed, position_of(vs, m) as int, expected) == Ok::<
            EntryView,
            Detail,
        >(entry_of(vs, m)),
        spec_read_entry(changed, position_of(vs, m) as int, expected) == Ok::<EntryView, Detail>(
            entry_of(vs, m),
        ),
        body_end(changed, position_of(vs, m) as int) + 12 == position_of(vs, m + 1),
        u32_at(changed, body_end(changed, position_of(vs, m) as int)) + 12 == entry_size(vs, m),
{
    let n = vs.len();
    let p = position_of(vs, m) as int;
    let q = position_of(vs, m + 1) as int;
    lemma_positions(vs, m);
    lemma_positions(vs, k);
    crate::history::lemma_entry_shape(vs, m);
    crate::history::lemma_entry_shape(vs, k);
    crate::history::lemma_layout(vs, m, n);
    crate::history::lemma_layout(vs, k, n);
    if m < k {
        crate::history::lemma_position_mono(vs, m + 1, k);
    } else {
        crate::history::lemma_position_mono(vs, k + 1, m);
    }
    let here = changed.subrange(p, q);
    let there = b.subrange(p, q);
    assert forall|t: int| 0 <= t < q - p implies #[trigger] here[t] == there[t] by {
        assert(changed[p + t] == b[p + t]);
    }
    assert(here =~= there);
    crate::entry::lemma_roundtrip(changed, p, entry_of(vs, m), expected);
}

/// The bytes of an entry in front of its checksum are those of the entry
/// with another payload of the same length, but for the payload.
proof fn lemma_same_frame(e: EntryView, f: EntryView, t: int)
    requires
        crate::entry::encodable(e),
        crate::entry::encodable(f),
        e.enode == f.enode,
        e.inodes == f.inodes,
        e.payload.len() == f.payload.len(),
        0 <= t < checked_bytes(e).len(),
    ensures
        checked_bytes(e).len() == checked_bytes(f).len(),
        ({
            let q = 9 + 50 * e.inodes.len();
            let n = e.payload.len();
            if q + 4 <= t < q + 4 + n {
                checked_bytes(e)[t] == e.payload[t - q - 4] && checked_bytes(f)[t] == f.payload[t
                    - q - 4]
            } else {
                checked_bytes(e)[t] == checked_bytes(f)[t]
            }
        }),
{
    crate::entry::lemma_entry_parts(e);
    crate::entry::lemma_entry_parts(f);
    let x = checked_bytes(e);
    let y = checked_bytes(f);
    let q = 9 + 50 * (e.inodes.len() as int);
    let n = e.payload.len() as int;
    if t < 8 {
        assert(x[t] == x.subrange(0, 8)[t]);
        assert(y[t] == y.subrange(0, 8)[t]);
    } else if t == 8 {
    } else if t < q {
        assert(x[t] == x.subrange(9, q)[t - 9]);
        assert(y[t] == y.subrange(9, q)[t - 9]);
    } else if t < q + 4 {
        assert(x[t] == x.subrange(q, q + 4)[t - q]);
        assert(y[t] == y.subrange(q, q + 4)[t - q]);
    } else if t < q + 4 + n {
        assert(x[t] == x.subrange(q + 4, q + 4 + n)[t - q - 4]);
        assert(y[t] == y.subrange(q + 4, q + 4 + n)[t - q - 4]);
    } else if t < q + 36 + n {
        assert(x[t] == x.subrange(q + 4 + n, q + 36 + n)[t - q - 4 - n]);
        assert(y[t] == y.subrange(q + 4 + n, q + 36 + n)[t - q - 4 - n]);
    } else {
        assert(x[t] == x.subrange(q + 36 + n, q + 40 + n)[t - q - 36 - n]);
        assert(y[t] == y.subrange(q + 36 + n, q + 40 + n)[t - q - 36 - n]);
    }
}

/// The entry whose payload was changed is read with its inodes and its
/// leaf as before, and its full read gives `changed_read`.
proof fn lemma_touched(b: Seq<u8>, vs: Values, k: nat, changed: Seq<u8>, expected: Index)
    requires
        authentic(b, vs),
        1 <= k <= vs.len(),
        payload_changed(b, vs, k, changed),
        expected == 0 || expected == k,
    ensures
        spec_inodes_of_entry(changed, position_of(vs, k) as int) == Ok::<Seq<INodeView>, Detail>(
            entry_of(vs, k).inodes,
        ),
        spec_read_entry_without_check(changed, position_of(vs, k) as int, expected) == Ok::<
            EntryView,
            Detail,
        >(changed_entry(vs, k, changed)),
        spec_read_entry(changed, position_of(vs, k) as int, expected) == changed_read(
            vs,
            k,
            changed,
        ),
{
    let n = vs.len();
    let p = position_of(vs, k) as int;
    let e = entry_of(vs, k);
    let f = changed_entry(vs, k, changed);
    lemma_positions(vs, k);
    crate::history::lemma_entry_shape(vs, k);
    crate::history::lemma_layout(vs, k, n);
    crate::entry::lemma_entry_parts(e);
    crate::entry::lemma_roundtrip(b, p, e, expected);
    assert(e.payload == vs[k - 1] && e.inodes.len() == count_of(k)) by {
        reveal(entry_of);
        crate::history::lemma_entry_count(vs, k);
    }
    assert(crate::entry::encodable(f));
    assert(crate::entry::placed(f, p));
    crate::entry::lemma_entry_parts(f);
    let w = checked_bytes(e).len() as int;
    let q = 9 + 50 * (e.inodes.len() as int);
    let here = changed.subrange(p, p + w);
    let there = b.subrange(p, p + w);
    assert(there == checked_bytes(e));
    assert forall|t: int| 0 <= t < w implies #[trigger] here[t] == checked_bytes(f)[t] by {
        lemma_same_frame(e, f, t);
        assert(there[t] == b[p + t]);
        if q + 4 <= t < q + 4 + e.payload.len() {
            assert(f.payload[t - q - 4] == changed[payload_start(vs, k) + (t - q - 4)]);
        } else {
            assert(changed[p + t] == b[p + t]);
        }
    }
    assert(here =~= checked_bytes(f));
    crate::entry::lemma_roundtrip_body(changed, p, f, expected);
    // The trailer holds the checksum that was written.
    let end = p + w;
    assert(changed.subrange(end, end + 8) =~= b.subrange(end, end + 8)) by {
        assert forall|t: int| 0 <= t < 8 implies #[trigger] changed.subrange(end, end + 8)[t]
            == b.subrange(end, end + 8)[t] by {
            assert(changed[end + t] == b[end + t]);
        }
    }
}

/// After a change in the payload of an entry that is not the last, the
/// storage still opens, since only its last entry is checked then, and
/// every other value is handed out as before. The `get` of the value whose
/// bytes were changed reads its entry in full and fails with
/// `ChecksumVerificationFailed`, unless the changed bytes have the checksum
/// of the bytes that were there.
pub proof fn theorem_get_detects(b: Seq<u8>, vs: Values, k: nat, changed: Seq<u8>, i: Index)
    requires
        authentic(b, vs),
        1 <= k < vs.len(),
        payload_changed(b, vs, k, changed),
    ensures
        crate::tree::spec_open(changed) == Ok::<Option<EntryView>, Detail>(last_entry_of(vs)),
        spec_get(changed, last_entry_of(vs), k as u64) == match changed_read(vs, k, changed) {
            Ok(entry) => Ok::<Option<Seq<u8>>, Detail>(Some(entry.payload)),
            Err(e) => Err::<Option<Seq<u8>>, Detail>(e),
        },
        1 <= i <= vs.len() && i != k ==> spec_get(changed, last_entry_of(vs), i) == Ok::<
            Option<Seq<u8>>,
            Detail,
        >(Some(vs[i - 1])),
{
    let n = vs.len();
    lemma_positions(vs, k);
    lemma_positions(vs, n);
    assert forall|m: nat| 1 <= m <= vs.len() implies {
        &&& #[trigger] spec_inodes_of_entry(changed, position_of(vs, m) as int) == Ok::<
            Seq<INodeView>,
            Detail,
        >(entry_of(vs, m).inodes)
        &&& match spec_read_entry_without_check(changed, position_of(vs, m) as int, m as u64) {
            Ok(x) => x.enode == entry_of(vs, m).enode,
            Err(_) => false,
        }
    } by {
        lemma_positions(vs, m);
        if m == k {
            lemma_touched(b, vs, k, changed, m as u64);
        } else {
            lemma_untouched(b, vs, k, changed, m, m as u64);
        }
    }
    assert(readable(changed, vs));
    lemma_leaf_found(changed, vs, k as u64);
    lemma_touched(b, vs, k, changed, k as u64);
    if 1 <= i <= n && i != k {
        lemma_leaf_found(changed, vs, i);
        lemma_untouched(b, vs, k, changed, i as nat, i);
        assert(entry_of(vs, i as nat).payload == vs[i - 1]) by {
            reveal(entry_of);
        }
    }
    // The storage opens as before: its header and its last entry are untouched.
    lemma_untouched(b, vs, k, changed, n, 0);
    crate::history::lemma_header(vs, n);
    crate::history::lemma_upto_len(vs, n);
    crate::history::lemma_entry_shape(vs, n);
    assert(changed[0] == b[0] && changed[1] == b[1] && changed[2] == b[2] && changed[3] == b[3]);
    assert(1u8 >> 4 == 0u8) by (bit_vector);
}

} // verus!
