//! The storage that a history of appends gives.
//!
//! A hash tree that has been given the values `v_1, ..., v_n`, in that
//! order and from an empty storage, holds the bytes `storage_bytes` of
//! them: the identifier, the version, and one entry for each value. What
//! such a storage answers to a query is stated over these definitions.

use vstd::prelude::*;
use vstd::arithmetic::power2::*;
use crate::entry::{
    body_bytes, body_end, encodable, entry_bytes, height_below, lemma_body_len, lemma_roundtrip,
    placed, spec_read_entry_without_check, spec_read_inodes, Address, EntryView,
    INodeView, MetaInfoView, MAX_PAYLOAD_SIZE,
};
use crate::error::Detail;
use crate::hash::{digest, spec_combine};
use crate::model::{
    height, inode_at, left_span, lemma_children_on_grid, lemma_grid_start, lemma_height_bounds,
    lemma_height_max, lemma_on_spine, lemma_spine, lemma_spine_bounds, lemma_spine_heights,
    on_grid, range_start, spec_inodes, spec_path_to, spine_start, Index, Step,
};
use crate::node::{NodeView, ValueView};

verus! {

/// The values that have been appended, the first one at index 0.
pub type Values = Seq<Seq<u8>>;

/// The hash value of the tree over the leaves `lo..=hi`: that of the value
/// for a single leaf, and else that of the two children joined.
#[verifier::opaque]
pub open spec fn tree_hash(vs: Values, lo: nat, hi: nat) -> Seq<u8>
    decreases hi - lo,
{
    if lo >= hi {
        digest(vs[hi - 1])
    } else {
        let ls = left_span((hi + 1 - lo) as nat);
        proof {
            lemma_pow2_pos((height((hi + 1 - lo) as nat) - 1) as nat);
            lemma_height_bounds((hi + 1 - lo) as nat);
        }
        spec_combine(tree_hash(vs, lo, (lo + ls - 1) as nat), tree_hash(vs, lo + ls, hi))
    }
}

/// The number of inodes of entry `k`.
pub open spec fn count_of(k: nat) -> nat {
    spec_inodes(1, k).len()
}

/// The number of bytes of entry `k`.
pub open spec fn entry_size(vs: Values, k: nat) -> nat {
    9 + 50 * count_of(k) + 4 + vs[k - 1].len() + 32 + 12
}

/// The position of entry `k` in the storage; for `k` one more than the
/// number of entries, the length of the storage.
#[verifier::opaque]
pub open spec fn position_of(vs: Values, k: nat) -> nat
    decreases k,
{
    if k <= 1 {
        4
    } else {
        position_of(vs, (k - 1) as nat) + entry_size(vs, (k - 1) as nat)
    }
}

/// The inode of entry `e` that roots the tree over `lo..=e`, as the
/// storage holds it.
#[verifier::opaque]
pub open spec fn stored_inode(vs: Values, lo: nat, e: nat) -> INodeView {
    let x = inode_at(lo, e);
    INodeView {
        meta: MetaInfoView {
            address: Address { i: e as u64, j: x.node.j, position: position_of(vs, e) as u64 },
            hash: tree_hash(vs, lo, e),
        },
        left: Address {
            i: x.left.i,
            j: x.left.j,
            position: position_of(vs, x.left.i as nat) as u64,
        },
        right: Address { i: e as u64, j: x.right.j, position: position_of(vs, e) as u64 },
    }
}

/// The least leaf below inode `m` of entry `k`, counted from the root of
/// generation `k` downwards.
pub open spec fn spine_lo(k: nat, m: int) -> nat {
    let x = spec_inodes(1, k)[m];
    (x.left.i + 1 - pow2(x.left.j as nat)) as nat
}

/// Entry `k`: the leaf of `v_k` and the inodes on the right edge of
/// generation `k`, from the lowest up.
#[verifier::opaque]
pub open spec fn entry_of(vs: Values, k: nat) -> EntryView {
    let count = count_of(k);
    EntryView {
        enode: MetaInfoView {
            address: Address { i: k as u64, j: 0, position: position_of(vs, k) as u64 },
            hash: digest(vs[k - 1]),
        },
        payload: vs[k - 1],
        inodes: Seq::new(count, |m: int| stored_inode(vs, spine_lo(k, count - 1 - m), k)),
    }
}

/// The four bytes that a storage begins with.
pub open spec fn header() -> Seq<u8> {
    seq![0x01u8, 0xF3u8, 0x33u8, 0x01u8]
}

/// The bytes of a storage that holds the first `k` entries of `vs`.
#[verifier::opaque]
pub open spec fn storage_upto(vs: Values, k: nat) -> Seq<u8>
    decreases k,
{
    if k == 0 {
        header()
    } else {
        storage_upto(vs, (k - 1) as nat) + entry_bytes(entry_of(vs, k))
    }
}

/// The bytes of the storage that the appends of `vs` give.
pub open spec fn storage_bytes(vs: Values) -> Seq<u8> {
    storage_upto(vs, vs.len())
}

/// Whether `vs` can be appended one after the other: each value is within
/// the limit, and the storage stays within what a position can address.
pub open spec fn admissible(vs: Values) -> bool {
    &&& forall|k: int| 0 <= k < vs.len() ==> (#[trigger] vs[k]).len() <= MAX_PAYLOAD_SIZE
    &&& position_of(vs, vs.len() + 1) <= u64::MAX
}

/// Whether `bytes` are the storage that the appends of `vs` give.
pub open spec fn authentic(bytes: Seq<u8>, vs: Values) -> bool {
    admissible(vs) && bytes == storage_bytes(vs)
}

/// Whether the tree over `lo..=e` has an inode as its root and stands in
/// the tree of generation `e` where trees of its height stand.
pub open spec fn aligned(lo: nat, e: nat) -> bool {
    1 <= lo < e && on_grid(lo, e)
}

/// Whether the tree over `lo..=hi` is a leaf, or is aligned.
pub open spec fn is_node(lo: nat, hi: nat) -> bool {
    (1 <= lo && lo == hi) || aligned(lo, hi)
}

/// The address and the hash value of the root of the tree over `lo..=hi`,
/// as the storage holds them.
pub open spec fn node_meta(vs: Values, lo: nat, hi: nat) -> MetaInfoView {
    MetaInfoView {
        address: Address {
            i: hi as u64,
            j: height((hi + 1 - lo) as nat) as u8,
            position: position_of(vs, hi) as u64,
        },
        hash: tree_hash(vs, lo, hi),
    }
}

/// The root of the tree over the values `lo..=hi`, with its hash value.
pub open spec fn tree_node(vs: Values, lo: nat, hi: nat) -> NodeView {
    NodeView { i: hi as u64, j: height((hi + 1 - lo) as nat) as u8, hash: tree_hash(vs, lo, hi) }
}

/// The values with the indices `lo..=hi`.
pub open spec fn values_in(vs: Values, lo: nat, hi: nat) -> Seq<ValueView> {
    Seq::new((hi + 1 - lo) as nat, |k: int| ValueView { i: (lo + k) as u64, value: vs[lo + k - 1] })
}

/// The node `b_{i,j}` with its hash value.
pub open spec fn branch_of(vs: Values, node: crate::model::Node) -> NodeView {
    NodeView {
        i: node.i,
        j: node.j,
        hash: tree_hash(vs, range_start(node.i as nat, node.j as nat), node.i as nat),
    }
}

/// The nodes that branch off a path, with their hash values.
pub open spec fn branches_of(vs: Values, steps: Seq<Step>) -> Seq<NodeView> {
    Seq::new(steps.len(), |k: int| branch_of(vs, steps[k].neighbor))
}

/// What the tree of `vs` answers when it is asked for `b_{i,j}`: the
/// values that the node covers and the branches of the path to it, or
/// `None` where the tree has no such node.
pub open spec fn spec_values_with_hashes(vs: Values, i: Index, j: u8) -> Option<
    (Seq<ValueView>, Seq<NodeView>),
> {
    match spec_path_to(vs.len(), i as nat, j as nat) {
        Some(steps) => Some(
            (values_in(vs, range_start(i as nat, j as nat), i as nat), branches_of(vs, steps)),
        ),
        None => None,
    }
}

/// The last entry of the storage of `vs`, `None` where there is no value.
pub open spec fn last_entry_of(vs: Values) -> Option<EntryView> {
    if vs.len() == 0 {
        None
    } else {
        Some(entry_of(vs, vs.len()))
    }
}

/// A hash value of a tree has the size of a hash value.
pub(crate) proof fn lemma_hash_len(vs: Values, lo: nat, hi: nat)
    ensures
        tree_hash(vs, lo, hi).len() == 32,
{
    reveal(tree_hash);
}

/// A later entry stands at least 57 bytes behind an earlier one for each
/// entry in between.
pub(crate) proof fn lemma_position_mono(vs: Values, k: nat, m: nat)
    requires
        1 <= k <= m,
    ensures
        4 + 57 * (k - 1) <= position_of(vs, k),
        position_of(vs, k) + 57 * (m - k) <= position_of(vs, m),
    decreases m,
{
    reveal(position_of);
    if k < m {
        lemma_position_mono(vs, k, (m - 1) as nat);
    } else if k > 1 {
        lemma_position_mono(vs, (k - 1) as nat, (k - 1) as nat);
    }
}

/// The position of an entry depends on the values before it alone.
pub(crate) proof fn lemma_position_prefix(vs: Values, ws: Values, k: nat)
    requires
        k <= vs.len() + 1,
        k <= ws.len() + 1,
        forall|m: int| 0 <= m < k - 1 ==> vs[m] == ws[m],
    ensures
        position_of(vs, k) == position_of(ws, k),
    decreases k,
{
    reveal(position_of);
    if k > 1 {
        lemma_position_prefix(vs, ws, (k - 1) as nat);
    }
}

/// The hash value of a tree depends on the values below it alone.
pub(crate) proof fn lemma_hash_prefix(vs: Values, ws: Values, lo: nat, hi: nat)
    requires
        1 <= lo <= hi,
        hi <= vs.len(),
        hi <= ws.len(),
        forall|m: int| 0 <= m < hi ==> vs[m] == ws[m],
    ensures
        tree_hash(vs, lo, hi) == tree_hash(ws, lo, hi),
    decreases hi - lo,
{
    reveal(tree_hash);
    if lo < hi {
        let span = (hi + 1 - lo) as nat;
        let ls = left_span(span);
        lemma_height_bounds(span);
        lemma_pow2_pos((height(span) - 1) as nat);
        lemma_hash_prefix(vs, ws, lo, (lo + ls - 1) as nat);
        lemma_hash_prefix(vs, ws, lo + ls, hi);
    }
}

/// The tree of generation `k` is on the grid.
pub(crate) proof fn lemma_whole_on_grid(k: nat)
    requires
        1 <= k,
    ensures
        on_grid(1, k),
{
    lemma_pow2_pos(height(k));
}

/// Inode `m` of entry `k`, counted from the lowest, roots the tree from
/// its `spine_lo` on.
pub(crate) proof fn lemma_entry_inode(vs: Values, k: nat, m: int)
    requires
        1 <= k <= u64::MAX,
        0 <= m < count_of(k),
    ensures
        ({
            let t = count_of(k) - 1 - m;
            let from = spine_lo(k, t as int);
            let x = spec_inodes(1, k)[t as int];
            &&& entry_of(vs, k).inodes.len() == count_of(k)
            &&& entry_of(vs, k).inodes[m] == stored_inode(vs, from, k)
            &&& from == spine_start(1, k, t as nat)
            &&& x == inode_at(from, k)
            &&& 1 <= from < k
            &&& on_grid(from, k)
            &&& 1 <= x.node.j <= 64
            &&& x.node.j == height((k + 1 - from) as nat)
            &&& stored_inode(vs, from, k).meta.address.j == x.node.j
            &&& stored_inode(vs, from, k).right.j == height_below(entry_of(vs, k).inodes, m)
        }),
{
    reveal(entry_of);
    reveal(stored_inode);
    let c = count_of(k);
    let t = (c - 1 - m) as nat;
    lemma_whole_on_grid(k);
    lemma_spine(1, k, t);
    lemma_spine_bounds(1, k);
    lemma_height_max(k);
    if m > 0 {
        let below = spine_lo(k, t as int + 1);
        lemma_spine(1, k, t + 1);
        assert(entry_of(vs, k).inodes[m - 1] == stored_inode(vs, below, k));
    }
}

/// Entry `k` can be laid out, its addresses are those of the entry at its
/// position, and it takes `entry_size` bytes.
pub(crate) proof fn lemma_entry_shape(vs: Values, k: nat)
    requires
        1 <= k <= vs.len(),
        k <= u64::MAX,
        position_of(vs, k) <= u64::MAX,
        vs[k - 1].len() <= MAX_PAYLOAD_SIZE,
    ensures
        encodable(entry_of(vs, k)),
        placed(entry_of(vs, k), position_of(vs, k) as int),
        entry_of(vs, k).enode.address.i == k,
        entry_of(vs, k).inodes.len() == count_of(k),
        count_of(k) <= 64,
        entry_bytes(entry_of(vs, k)).len() == entry_size(vs, k),
        body_bytes(entry_of(vs, k)).len() + 12 == entry_size(vs, k),
{
    let e = entry_of(vs, k);
    lemma_height_max(k);
    lemma_spine_bounds(1, k);
    lemma_entry_count(vs, k);
    assert forall|m: int| 0 <= m < e.inodes.len() implies 1 <= (
    #[trigger] e.inodes[m]).meta.address.j <= 64 && e.inodes[m].meta.hash.len() == 32
        && e.inodes[m].meta.address.i == e.enode.address.i && e.inodes[m].meta.address.position
        == position_of(vs, k) as u64 && e.inodes[m].right.i == e.enode.address.i
        && e.inodes[m].right.position == position_of(vs, k) as u64 by {
        lemma_entry_inode(vs, k, m);
        let from = spine_lo(k, count_of(k) - 1 - m);
        lemma_hash_len(vs, from, k);
        reveal(stored_inode);
        reveal(entry_of);
    }
    assert forall|m: int| 0 <= m < e.inodes.len() implies #[trigger] height_below(e.inodes, m)
        == e.inodes[m].right.j by {
        lemma_entry_inode(vs, k, m);
    }
    assert(e.enode.address == (Address { i: k as u64, j: 0, position: position_of(vs, k) as u64 })
        && e.payload == vs[k - 1] && e.enode.hash.len() == 32) by {
        reveal(entry_of);
    }
    lemma_body_len(e);
    vstd::bytes::lemma_auto_spec_u64_to_from_le_bytes();
    vstd::bytes::lemma_auto_spec_u32_to_from_le_bytes();
}

/// The storage of the first `k` entries ends where entry `k + 1` begins.
pub(crate) proof fn lemma_upto_len(vs: Values, k: nat)
    requires
        admissible(vs),
        k <= vs.len(),
    ensures
        storage_upto(vs, k).len() == position_of(vs, k + 1),
        position_of(vs, k + 1) <= position_of(vs, vs.len() + 1),
        k < u64::MAX,
    decreases k,
{
    reveal(storage_upto);
    reveal(position_of);
    lemma_position_mono(vs, k + 1, vs.len() + 1);
    lemma_position_mono(vs, k + 1, k + 1);
    if k > 0 {
        lemma_upto_len(vs, (k - 1) as nat);
        lemma_position_mono(vs, k, k + 1);
        lemma_entry_shape(vs, k);
    }
}

/// The positions of the entries of an authentic storage go up and stay
/// within what a position can address.
pub(crate) proof fn lemma_positions(vs: Values, k: nat)
    requires
        admissible(vs),
        1 <= k <= vs.len(),
    ensures
        4 <= position_of(vs, k),
        position_of(vs, k) + 57 <= position_of(vs, k + 1),
        position_of(vs, k + 1) <= position_of(vs, vs.len() + 1) <= u64::MAX,
        storage_bytes(vs).len() == position_of(vs, vs.len() + 1),
        vs.len() < u64::MAX,
{
    lemma_position_mono(vs, k, k + 1);
    lemma_upto_len(vs, k);
    lemma_upto_len(vs, vs.len());
}

/// In an authentic storage the entry of leaf `k` stands at its position.
pub(crate) proof fn lemma_leaf(b: Seq<u8>, vs: Values, k: nat, expected: Index)
    requires
        authentic(b, vs),
        1 <= k <= vs.len(),
        expected == 0 || expected == k,
    ensures
        spec_read_entry_without_check(b, position_of(vs, k) as int, expected) == Ok::<
            EntryView,
            Detail,
        >(entry_of(vs, k)),
        spec_read_inodes(b, position_of(vs, k) as int) == Ok::<(Index, Seq<INodeView>), Detail>(
            (k as u64, entry_of(vs, k).inodes),
        ),
        body_end(b, position_of(vs, k) as int) + 12 == position_of(vs, k + 1),
        entry_of(vs, k).enode == node_meta(vs, k, k),
        entry_of(vs, k).payload == vs[k - 1],
        node_meta(vs, k, k).address.j == 0,
{
    let n = vs.len();
    let p = position_of(vs, k);
    lemma_positions(vs, k);
    lemma_entry_shape(vs, k);
    lemma_layout(vs, k, n);
    lemma_roundtrip(b, p as int, entry_of(vs, k), expected);
    assert(entry_of(vs, k).enode == node_meta(vs, k, k) && entry_of(vs, k).payload == vs[k - 1])
        by {
        reveal(entry_of);
        reveal(tree_hash);
        assert(height(1) == 0);
    }
    assert(height(1) == 0);
}

/// In an authentic storage the entry of leaf `k` passes the check against
/// its trailer, and the next entry stands behind its trailer.
pub(crate) proof fn lemma_leaf_checked(b: Seq<u8>, vs: Values, k: nat, expected: Index)
    requires
        authentic(b, vs),
        1 <= k <= vs.len(),
        expected == 0 || expected == k,
    ensures
        crate::entry::spec_read_entry(b, position_of(vs, k) as int, expected) == Ok::<
            EntryView,
            Detail,
        >(entry_of(vs, k)),
        body_end(b, position_of(vs, k) as int) + 12 == position_of(vs, k + 1),
        entry_of(vs, k).payload == vs[k - 1],
{
    let n = vs.len();
    let p = position_of(vs, k);
    lemma_positions(vs, k);
    lemma_entry_shape(vs, k);
    lemma_layout(vs, k, n);
    lemma_roundtrip(b, p as int, entry_of(vs, k), expected);
    reveal(entry_of);
}

/// The inode that roots an aligned tree over `lo..=e`, as the storage holds
/// it: its children are nodes of the tree in their turn.
pub(crate) proof fn lemma_children(vs: Values, lo: nat, e: nat)
    requires
        admissible(vs),
        aligned(lo, e),
        e <= vs.len(),
    ensures
        ({
            let s = stored_inode(vs, lo, e);
            let x = inode_at(lo, e);
            let li = s.left.i as nat;
            &&& s.meta == node_meta(vs, lo, e)
            &&& s.meta.address.i == e
            &&& s.meta.address.j == height((e + 1 - lo) as nat)
            &&& s.meta.address.position == position_of(vs, e)
            &&& s.left.j == height((li + 1 - lo) as nat)
            &&& s.left.position == position_of(vs, li)
            &&& s.right.j == height((e - li) as nat)
            &&& s.right.position == position_of(vs, e)
            &&& e <= u64::MAX
            &&& lo <= li < e
            &&& 1 <= s.meta.address.j <= 64
            &&& s.left.j + 1 == s.meta.address.j
            &&& s.right.j <= s.left.j
            &&& s.left == node_meta(vs, lo, li).address
            &&& s.right == node_meta(vs, li + 1, e).address
            &&& s.left.i == x.left.i
            &&& s.left.j == x.left.j
            &&& s.right.i == x.right.i
            &&& s.right.j == x.right.j
            &&& is_node(lo, li)
            &&& is_node(li + 1, e)
            &&& (s.left.j == 0 <==> lo == li)
            &&& (s.right.j == 0 <==> li + 1 == e)
        }),
{
    reveal(stored_inode);
    let span = (e + 1 - lo) as nat;
    let ls = left_span(span);
    let li = (lo + ls - 1) as nat;
    lemma_positions(vs, e);
    lemma_children_on_grid(lo, e);
    lemma_position_mono(vs, li, e);
    lemma_height_max(span);
    lemma_height_max(ls);
    lemma_height_max((span - ls) as nat);
    lemma_height_bounds(span);
    lemma2_to64();
    assert(height(1) == 0);
    if ls >= 2 {
        lemma_height_bounds(ls);
    }
    if span - ls >= 2 {
        lemma_height_bounds((span - ls) as nat);
    }
}

/// The inode that roots an aligned tree over `lo..=e` stands in entry `e`
/// and is the only inode of its height there.
pub(crate) proof fn lemma_unique(vs: Values, lo: nat, e: nat)
    requires
        admissible(vs),
        aligned(lo, e),
        e <= vs.len(),
    ensures
        ({
            let s = stored_inode(vs, lo, e);
            let inodes = entry_of(vs, e).inodes;
            &&& exists|m: int| 0 <= m < inodes.len() && inodes[m] == s
            &&& forall|m: int|
                0 <= m < inodes.len() && (#[trigger] inodes[m]).meta.address.j
                    == s.meta.address.j ==> inodes[m] == s
        }),
{
    let s = stored_inode(vs, lo, e);
    let inodes = entry_of(vs, e).inodes;
    let c = count_of(e);
    lemma_positions(vs, e);
    lemma_whole_on_grid(e);
    lemma_entry_count(vs, e);
    lemma_on_spine(1, e, lo);
    let t = choose|t: nat| t < spec_inodes(1, e).len() && #[trigger] spine_start(1, e, t) == lo;
    let m = c - 1 - t;
    lemma_entry_inode(vs, e, m);
    assert(inodes[m] == s);
    assert forall|k: int|
        0 <= k < inodes.len() && (#[trigger] inodes[k]).meta.address.j
            == s.meta.address.j implies inodes[k] == s by {
        lemma_entry_inode(vs, e, k);
        let u = (c - 1 - k) as nat;
        if u < t {
            lemma_spine_heights(1, e, u, t);
        } else if t < u {
            lemma_spine_heights(1, e, t, u);
        }
    }
}

/// The last entry of generation `n` holds the root of the tree over
/// `1..=n` as its last inode, where `n` is 2 or more, and no inode where
/// `n` is 1.
pub(crate) proof fn lemma_root(vs: Values, n: nat)
    requires
        admissible(vs),
        1 <= n <= vs.len(),
    ensures
        n == 1 ==> entry_of(vs, n).inodes.len() == 0,
        n >= 2 ==> aligned(1, n) && entry_of(vs, n).inodes.len() > 0 && entry_of(
            vs,
            n,
        ).inodes.last() == stored_inode(vs, 1, n),
{
    lemma_positions(vs, n);
    lemma_entry_count(vs, n);
    lemma_whole_on_grid(n);
    if n >= 2 {
        let c = count_of(n);
        lemma_height_bounds(n);
        lemma_pow2_pos((height(n) - 1) as nat);
        assert(c > 0);
        lemma_entry_inode(vs, n, c - 1);
        lemma_spine(1, n, 0);
    }
}

/// The least leaf below a node of the tree is the start of its range.
pub(crate) proof fn lemma_range_start(lo: nat, hi: nat)
    requires
        is_node(lo, hi),
    ensures
        range_start(hi, height((hi + 1 - lo) as nat)) == lo,
{
    if lo == hi {
        lemma2_to64();
        assert(height(1) == 0);
    }
    lemma_grid_start(lo, hi);
}

/// The entry that an append of `v` to the storage of `vs` writes: its
/// inode `m`, counted from the lowest, joins a tree of the values before
/// with what the inode below it covers, or with the new leaf for the
/// lowest.
pub(crate) proof fn lemma_planned(vs: Values, v: Seq<u8>, m: int)
    requires
        admissible(vs),
        0 <= m < count_of(vs.len() + 1),
    ensures
        ({
            let e = vs.len() + 1;
            let after = vs.push(v);
            let count = count_of(e);
            let x = spec_inodes(1, e)[count - 1 - m];
            let lo = spine_lo(e, count - 1 - m);
            let li = x.left.i as nat;
            let below = if m == 0 {
                digest(v)
            } else {
                entry_of(after, e).inodes[m - 1].meta.hash
            };
            &&& 1 <= lo <= li <= vs.len()
            &&& is_node(lo, li)
            &&& x.left.j == height((li + 1 - lo) as nat)
            &&& x.node.i == e
            &&& x.right.i == e
            &&& e <= u64::MAX
            &&& position_of(vs, e) <= u64::MAX
            &&& entry_of(after, e).inodes.len() == count
            &&& entry_of(after, e).inodes[m] == (INodeView {
                meta: MetaInfoView {
                    address: Address {
                        i: e as u64,
                        j: x.node.j,
                        position: position_of(vs, e) as u64,
                    },
                    hash: spec_combine(tree_hash(vs, lo, li), below),
                },
                left: node_meta(vs, lo, li).address,
                right: Address { i: e as u64, j: x.right.j, position: position_of(vs, e) as u64 },
            })
        }),
{
    let n = vs.len();
    let e = n + 1;
    let after = vs.push(v);
    let c = count_of(e);
    let t = (c - 1 - m) as nat;
    lemma_upto_len(vs, n);
    lemma_whole_on_grid(e);
    lemma_entry_inode(after, e, m);
    let from = spine_lo(e, t as int);
    let x = spec_inodes(1, e)[t as int];
    lemma_spine(1, e, t);
    lemma_children_on_grid(from, e);
    let li = x.left.i as nat;
    lemma_height_max((e + 1 - from) as nat);
    lemma_height_max((li + 1 - from) as nat);
    lemma_height_bounds((e + 1 - from) as nat);
    assert(height(1) == 0);
    lemma_position_prefix(after, vs, e);
    lemma_position_prefix(after, vs, li);
    lemma_position_mono(vs, li, e);
    lemma_hash_prefix(after, vs, from, li);
    assert(tree_hash(after, from, e) == spec_combine(
        tree_hash(after, from, li),
        tree_hash(after, li + 1, e),
    )) by {
        reveal(tree_hash);
    }
    if m == 0 {
        assert(tree_hash(after, e, e) == digest(v)) by {
            reveal(tree_hash);
        }
    } else {
        lemma_entry_inode(after, e, m - 1);
        reveal(stored_inode);
    }
    reveal(stored_inode);
}

/// The leaf of the entry that an append of `v` to the storage of `vs`
/// writes, and the storage after it.
pub(crate) proof fn lemma_appended(vs: Values, v: Seq<u8>)
    requires
        admissible(vs),
        v.len() <= MAX_PAYLOAD_SIZE,
    ensures
        ({
            let e = vs.len() + 1;
            let after = vs.push(v);
            &&& entry_of(after, e).enode == (MetaInfoView {
                address: Address { i: e as u64, j: 0, position: position_of(vs, e) as u64 },
                hash: digest(v),
            })
            &&& entry_of(after, e).payload == v
            &&& entry_of(after, e).inodes.len() == count_of(e)
            &&& count_of(e) <= 64
            &&& storage_bytes(after) == storage_bytes(vs) + entry_bytes(entry_of(after, e))
            &&& storage_bytes(after).len() == position_of(after, e + 1)
            &&& entry_bytes(entry_of(after, e)).len() == 57 + 50 * count_of(e) + v.len()
        }),
{
    let n = vs.len();
    let e = n + 1;
    let after = vs.push(v);
    lemma_upto_len(vs, n);
    lemma_position_prefix(after, vs, e);
    lemma_entry_shape(after, e);
    lemma_upto_prefix(after, vs, n);
    assert(storage_bytes(after) == storage_upto(after, n) + entry_bytes(entry_of(after, e))) by {
        reveal(storage_upto);
    }
    assert(position_of(after, e + 1) == position_of(after, e) + entry_size(after, e)) by {
        reveal(position_of);
    }
    reveal(entry_of);
}

/// Entry `k` has as many inodes as the right edge of generation `k`.
pub(crate) proof fn lemma_entry_count(vs: Values, k: nat)
    ensures
        entry_of(vs, k).inodes.len() == count_of(k),
{
    reveal(entry_of);
}

/// The bytes of entry `k` stand at its position in the storage of the
/// first `m` entries, for `k` up to `m`.
pub(crate) proof fn lemma_layout(vs: Values, k: nat, m: nat)
    requires
        admissible(vs),
        1 <= k <= m <= vs.len(),
    ensures
        position_of(vs, k + 1) <= storage_upto(vs, m).len(),
        storage_upto(vs, m).subrange(position_of(vs, k) as int, position_of(vs, k + 1) as int)
            == entry_bytes(entry_of(vs, k)),
        position_of(vs, k + 1) == position_of(vs, k) + entry_bytes(entry_of(vs, k)).len(),
    decreases m,
{
    let whole = storage_upto(vs, m);
    let before = storage_upto(vs, (m - 1) as nat);
    let last = entry_bytes(entry_of(vs, m));
    assert(whole == before + last) by {
        reveal(storage_upto);
    }
    lemma_upto_len(vs, m);
    lemma_upto_len(vs, (m - 1) as nat);
    lemma_upto_len(vs, k);
    lemma_upto_len(vs, (k - 1) as nat);
    lemma_position_mono(vs, k + 1, m + 1);
    assert(position_of(vs, k + 1) == position_of(vs, k) + entry_size(vs, k)) by {
        reveal(position_of);
    }
    lemma_position_mono(vs, k, k);
    lemma_entry_shape(vs, k);
    if k == m {
        assert(whole.subrange(position_of(vs, k) as int, position_of(vs, k + 1) as int) =~= last);
    } else {
        lemma_layout(vs, k, (m - 1) as nat);
        assert(whole.subrange(position_of(vs, k) as int, position_of(vs, k + 1) as int)
            =~= before.subrange(position_of(vs, k) as int, position_of(vs, k + 1) as int));
    }
}

/// A storage begins with its header.
pub(crate) proof fn lemma_header(vs: Values, m: nat)
    ensures
        storage_upto(vs, m).len() >= 4,
        storage_upto(vs, m)[0] == 0x01u8,
        storage_upto(vs, m)[1] == 0xF3u8,
        storage_upto(vs, m)[2] == 0x33u8,
        storage_upto(vs, m)[3] == 0x01u8,
    decreases m,
{
    reveal(storage_upto);
    if m > 0 {
        lemma_header(vs, (m - 1) as nat);
    }
}

/// The storage of the first `m` entries depends on the first `m` values
/// alone.
pub(crate) proof fn lemma_upto_prefix(vs: Values, ws: Values, m: nat)
    requires
        m <= vs.len(),
        m <= ws.len(),
        m <= u64::MAX,
        forall|k: int| 0 <= k < m ==> vs[k] == ws[k],
    ensures
        storage_upto(vs, m) == storage_upto(ws, m),
    decreases m,
{
    reveal(storage_upto);
    if m > 0 {
        lemma_upto_prefix(vs, ws, (m - 1) as nat);
        lemma_entry_prefix(vs, ws, m);
    }
}

/// Entry `k` depends on the first `k` values alone.
pub(crate) proof fn lemma_entry_prefix(vs: Values, ws: Values, k: nat)
    requires
        1 <= k <= vs.len(),
        k <= ws.len(),
        k <= u64::MAX,
        forall|m: int| 0 <= m < k ==> vs[m] == ws[m],
    ensures
        entry_of(vs, k) == entry_of(ws, k),
{
    lemma_position_prefix(vs, ws, k);
    lemma_entry_count(vs, k);
    lemma_entry_count(ws, k);
    assert forall|m: int| 0 <= m < count_of(k) implies entry_of(vs, k).inodes[m] == entry_of(
        ws,
        k,
    ).inodes[m] by {
        lemma_entry_inode(vs, k, m);
        lemma_entry_inode(ws, k, m);
        let from = spine_lo(k, count_of(k) - 1 - m);
        lemma_hash_prefix(vs, ws, from, k);
        lemma_children_on_grid(from, k);
        let li = inode_at(from, k).left.i as nat;
        lemma_position_prefix(vs, ws, li);
        reveal(stored_inode);
    }
    assert(entry_of(vs, k).inodes =~= entry_of(ws, k).inodes);
    reveal(entry_of);
}

/// The header alone is the authentic storage of no values.
pub(crate) proof fn lemma_empty_authentic()
    ensures
        authentic(header(), Seq::<Seq<u8>>::empty()),
{
    reveal(storage_upto);
    reveal(position_of);
}

/// Opening an authentic storage gives its last entry.
pub(crate) proof fn lemma_open_authentic(b: Seq<u8>, vs: Values)
    requires
        authentic(b, vs),
    ensures
        crate::tree::spec_open(b) == Ok::<Option<EntryView>, crate::error::Detail>(
            if vs.len() == 0 {
                None
            } else {
                Some(entry_of(vs, vs.len()))
            },
        ),
{
    let n = vs.len();
    if n == 0 {
        reveal(storage_upto);
    } else {
        let p = position_of(vs, n);
        let e = entry_of(vs, n);
        lemma_positions(vs, n);
        lemma_entry_shape(vs, n);
        lemma_layout(vs, n, n);
        lemma_header(vs, n);
        lemma_roundtrip(b, p as int, e, 0);
        assert(1u8 >> 4 == 0u8) by (bit_vector);
    }
}

} // verus!
