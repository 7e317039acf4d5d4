//! Asking a hash tree: the descent from the root to an entry, to a node,
//! and to the values below a node.

use vstd::prelude::*;
use crate::entry::{
    holds_value, inode_views, read_entry, read_entry_without_check, read_inodes, spec_read_entry,
    spec_read_entry_without_check, spec_read_inodes, stands_at, Address, Entry, INode, INodeView,
    MetaInfo,
};
use crate::error::{Detail, Result};
use crate::history::{
    admissible, aligned, authentic, branch_of, branches_of, entry_of, is_node, last_entry_of,
    lemma_children, lemma_leaf, lemma_leaf_checked, lemma_positions, lemma_range_start,
    lemma_root, lemma_unique,
    node_meta, position_of, spec_values_with_hashes, stored_inode, values_in, Values,
};
use crate::model::{height, inode_at, spec_path, spec_path_to, Index, Step, INDEX_SIZE};
use crate::node::{node_views, value_views, Node, NodeView, Value, ValueView, ValuesWithBranches};
use crate::storage::Storage;
use crate::tree::{Cache, RootRef};

verus! {

/// Whether each of `inodes` is from 1 to 64 high.
pub open spec fn heights_ok(inodes: Seq<INode>) -> bool {
    forall|m: int| 0 <= m < inodes.len() ==> 1 <= (#[trigger] inodes[m]).meta.address.j <= INDEX_SIZE
}

/// Whether `inodes` are the inodes of entry `e` of the storage of `vs`.
pub open spec fn inodes_of(vs: Values, e: nat, inodes: Seq<INode>) -> bool {
    inode_views(inodes) == entry_of(vs, e).inodes
}

/// Whether `x` is the inode that roots the aligned tree over `lo..=e`, as
/// the storage of `vs` holds it.
pub open spec fn roots(vs: Values, lo: nat, e: nat, x: INode) -> bool {
    &&& admissible(vs)
    &&& aligned(lo, e)
    &&& e <= vs.len()
    &&& x@ == stored_inode(vs, lo, e)
}

/// Whether `r` is what comes back where `expected` is what the storage
/// holds: on a reliable storage it is `expected`, seen through `view`; on
/// another storage it may as well be any error.
pub open spec fn outcome<T, V>(
    reliable: bool,
    r: Result<T>,
    expected: core::result::Result<V, Detail>,
    view: spec_fn(T) -> V,
) -> bool {
    match r {
        Ok(x) => expected == Ok::<V, Detail>(view(x)),
        Err(e) => !reliable || expected == Err::<V, Detail>(e),
    }
}

/// The first of `inodes` that is `j` high.
pub open spec fn first_of_height(inodes: Seq<INodeView>, j: u8) -> Option<INodeView>
    decreases inodes.len(),
{
    if inodes.len() == 0 {
        None
    } else if inodes[0].meta.address.j == j {
        Some(inodes[0])
    } else {
        first_of_height(inodes.subrange(1, inodes.len() as int), j)
    }
}

/// The inodes of the entry at `p`, or the error that reading them gives.
pub open spec fn spec_inodes_of_entry(b: Seq<u8>, p: int) -> core::result::Result<
    Seq<INodeView>,
    Detail,
> {
    match spec_read_inodes(b, p) {
        Ok(found) => Ok(found.1),
        Err(e) => Err(e),
    }
}

/// The inode at `addr`: the first inode of the height `addr.j` in the entry
/// at `addr.position`. An entry without such an inode is an inconsistency.
pub open spec fn spec_read_inode(b: Seq<u8>, addr: Address) -> core::result::Result<
    INodeView,
    Detail,
> {
    match spec_inodes_of_entry(b, addr.position as int) {
        Ok(inodes) => match first_of_height(inodes, addr.j) {
            Some(x) => Ok(x),
            None => Err(Detail::InternalStateInconsistency { i: addr.i, j: addr.j }),
        },
        Err(e) => Err(e),
    }
}

/// The search for the entry of leaf `i` from the inode `mover` down, with
/// `hops` moves left; `root` is the node that the search began at.
pub open spec fn spec_search(
    b: Seq<u8>,
    mover: INodeView,
    i: Index,
    hops: nat,
    root: Address,
) -> core::result::Result<Option<u64>, Detail>
    decreases hops,
{
    if hops == 0 {
        Err(Detail::InternalStateInconsistency { i: root.i, j: root.j })
    } else if i > mover.left.i && i > mover.meta.address.i {
        Ok(None)
    } else {
        let next = if i <= mover.left.i {
            mover.left
        } else {
            mover.right
        };
        if next.i == i {
            Ok(Some(next.position))
        } else if next.j == 0 {
            Ok(None)
        } else {
            match spec_read_inode(b, next) {
                Ok(x) => spec_search(b, x, i, (hops - 1) as nat, root),
                Err(e) => Err(e),
            }
        }
    }
}

/// The position of the entry of leaf `i` below `root`, or `None` where the
/// search finds none, or the error that it runs into.
pub open spec fn spec_search_entry_position(
    b: Seq<u8>,
    root: INodeView,
    i: Index,
) -> core::result::Result<Option<u64>, Detail> {
    if i == 0 || i > root.meta.address.i {
        Ok(None)
    } else if root.meta.address.i == i {
        Ok(Some(root.meta.address.position))
    } else {
        spec_search(b, root, i, INDEX_SIZE as nat, root.meta.address)
    }
}

/// The position of the entry of leaf `i` in the tree whose last entry is
/// `last`: found from the highest inode of that entry down, or the position
/// of that entry where it is the entry of the only leaf.
pub open spec fn spec_entry_position(
    b: Seq<u8>,
    last: Option<crate::entry::EntryView>,
    i: Index,
) -> core::result::Result<Option<u64>, Detail> {
    match last {
        Some(e) => if e.inodes.len() > 0 {
            spec_search_entry_position(b, e.inodes.last(), i)
        } else if i != 0 && e.enode.address.i == i {
            Ok(Some(e.enode.address.position))
        } else {
            Ok(None)
        },
        None => Ok(None),
    }
}

/// The address and the hash value of `b_{i,j}`: those of the leaf of the
/// entry of leaf `i`, or of the first inode of the height `j` in that entry;
/// `None` where there is no such entry or no such inode.
pub open spec fn spec_get_node(
    b: Seq<u8>,
    last: Option<crate::entry::EntryView>,
    i: Index,
    j: u8,
) -> core::result::Result<Option<crate::entry::MetaInfoView>, Detail> {
    match spec_entry_position(b, last, i) {
        Ok(Some(p)) => if j == 0 {
            match spec_read_entry_without_check(b, p as int, i) {
                Ok(entry) => Ok(Some(entry.enode)),
                Err(e) => Err(e),
            }
        } else {
            match spec_inodes_of_entry(b, p as int) {
                Ok(inodes) => Ok(
                    match first_of_height(inodes, j) {
                        Some(x) => Some(x.meta),
                        None => None,
                    },
                ),
                Err(e) => Err(e),
            }
        },
        Ok(None) => Ok(None),
        Err(e) => Err(e),
    }
}

/// The value with the index `i`: the payload of the entry of leaf `i`, which
/// is read in full and has to pass the check against its trailer; `None`
/// where `i` is 0 or the tree holds no such entry.
pub open spec fn spec_get(
    b: Seq<u8>,
    last: Option<crate::entry::EntryView>,
    i: Index,
) -> core::result::Result<Option<Seq<u8>>, Detail> {
    if i == 0 {
        Ok(None)
    } else {
        match spec_get_node(b, last, i, 0) {
            Ok(Some(node)) => match spec_read_entry(b, node.address.position as int, i) {
                Ok(entry) => Ok(Some(entry.payload)),
                Err(e) => Err(e),
            },
            Ok(None) => Ok(None),
            Err(e) => Err(e),
        }
    }
}

/// The first of `inodes` that has the address `address`.
pub open spec fn first_at(inodes: Seq<INodeView>, address: Address) -> Option<INodeView>
    decreases inodes.len(),
{
    if inodes.len() == 0 {
        None
    } else if inodes[0].meta.address == address {
        Some(inodes[0])
    } else {
        first_at(inodes.subrange(1, inodes.len() as int), address)
    }
}

/// The node at `branch` with its hash value: the first inode of its height
/// among `inodes`, which are those of its entry, or the leaf of the entry at
/// its position for the height 0.
pub open spec fn spec_branch_node(
    b: Seq<u8>,
    branch: Address,
    inodes: Seq<INodeView>,
) -> core::result::Result<NodeView, Detail> {
    if branch.j > 0 {
        match first_of_height(inodes, branch.j) {
            Some(x) => Ok(node_of(x.meta)),
            None => Err(Detail::InternalStateInconsistency { i: branch.i, j: branch.j }),
        }
    } else {
        match spec_read_entry_without_check(b, branch.position as int, branch.i) {
            Ok(e) => Ok(NodeView { i: e.enode.address.i, j: 0, hash: e.enode.hash }),
            Err(e) => Err(e),
        }
    }
}

/// What one step down a path finds, as a mathematical value.
pub struct TurnView {
    pub next: Address,
    pub next_inodes: Seq<INodeView>,
    pub branch: NodeView,
}

/// One step down from `prev`, whose entry holds `inodes`, into the child
/// `step`: the left child where it has the index and the height of `step`,
/// the right child else; the other child is the branch.
pub open spec fn spec_turn(
    b: Seq<u8>,
    prev: INodeView,
    inodes: Seq<INodeView>,
    step: crate::model::Node,
) -> core::result::Result<TurnView, Detail> {
    match spec_inodes_of_entry(b, prev.left.position as int) {
        Ok(left_inodes) => if prev.left.i == step.i && prev.left.j == step.j {
            match spec_branch_node(b, prev.right, inodes) {
                Ok(branch) => Ok(TurnView { next: prev.left, next_inodes: left_inodes, branch }),
                Err(e) => Err(e),
            }
        } else {
            match spec_branch_node(b, prev.left, left_inodes) {
                Ok(branch) => Ok(TurnView { next: prev.right, next_inodes: inodes, branch }),
                Err(e) => Err(e),
            }
        },
        Err(e) => Err(e),
    }
}

/// The inode above the leftmost leaf below `mover`: `mover` itself where
/// its left child is a leaf, and else what is found from its left child on,
/// which has to be lower at each step.
pub open spec fn spec_leftmost(b: Seq<u8>, mover: INodeView) -> core::result::Result<
    INodeView,
    Detail,
>
    decreases mover.left.j,
{
    if mover.left.j == 0 {
        Ok(mover)
    } else {
        match spec_read_inode(b, mover.left) {
            Ok(found) => if found.left.j >= mover.left.j {
                Err(Detail::InternalStateInconsistency { i: mover.left.i, j: mover.left.j })
            } else {
                spec_leftmost(b, found)
            },
            Err(e) => Err(e),
        }
    }
}

/// The values of the entries of the leaves `i..=last`, which stand one
/// behind the other from `position` on. Each entry is read in full and has
/// to pass the check against its trailer.
pub open spec fn spec_values_from(
    b: Seq<u8>,
    position: u64,
    i: Index,
    last: Index,
) -> core::result::Result<Seq<ValueView>, Detail>
    decreases last - i,
{
    match spec_read_entry(b, position as int, i) {
        Ok(entry) => {
            let end = crate::entry::body_end(b, position as int);
            let value = ValueView { i, value: entry.payload };
            if i >= last {
                Ok(seq![value])
            } else {
                match spec_values_from(b, (end + 12) as u64, (i + 1) as u64, last) {
                    Ok(rest) => Ok(seq![value] + rest),
                    Err(e) => Err(e),
                }
            }
        },
        Err(e) => Err(e),
    }
}

/// All the values below `inode`: those of the entries from that of the
/// leftmost leaf below `inode` up to the entry of `inode` itself.
pub open spec fn spec_values_belonging_to(b: Seq<u8>, inode: INodeView) -> core::result::Result<
    Seq<ValueView>,
    Detail,
> {
    match spec_leftmost(b, inode) {
        Ok(mover) => if mover.left.i > inode.meta.address.i {
            Err(
                Detail::InternalStateInconsistency {
                    i: inode.meta.address.i,
                    j: inode.meta.address.j,
                },
            )
        } else {
            spec_values_from(b, mover.left.position, mover.left.i, inode.meta.address.i)
        },
        Err(e) => Err(e),
    }
}

/// The walk down the steps of a path from step `k` on, from `prev`, whose
/// entry holds `inodes`: the values below the node that the path ends at,
/// and the branches of the steps. A step that enters a leaf ends the walk
/// with the value of that leaf, whose entry is read in full and has to pass
/// its check.
pub open spec fn spec_walk(
    b: Seq<u8>,
    prev: INodeView,
    inodes: Seq<INodeView>,
    steps: Seq<Step>,
    k: nat,
) -> core::result::Result<(Seq<ValueView>, Seq<NodeView>), Detail>
    decreases steps.len() - k,
{
    if k >= steps.len() {
        match spec_values_belonging_to(b, prev) {
            Ok(values) => Ok((values, Seq::empty())),
            Err(e) => Err(e),
        }
    } else {
        match spec_turn(b, prev, inodes, steps[k as int].step) {
            Ok(t) => if t.next.j == 0 {
                match spec_read_entry(b, t.next.position as int, t.next.i) {
                    Ok(e) => Ok(
                        (seq![ValueView { i: t.next.i, value: e.payload }], seq![t.branch]),
                    ),
                    Err(e) => Err(e),
                }
            } else {
                match first_at(t.next_inodes, t.next) {
                    Some(x) => match spec_walk(b, x, t.next_inodes, steps, k + 1) {
                        Ok(found) => Ok((found.0, seq![t.branch] + found.1)),
                        Err(e) => Err(e),
                    },
                    None => Err(
                        Detail::InternalStateInconsistency { i: t.next.i, j: t.next.j },
                    ),
                }
            },
            Err(e) => Err(e),
        }
    }
}

/// The branches `done` in front of what the rest of a walk gives.
pub open spec fn walked(
    done: Seq<NodeView>,
    rest: core::result::Result<(Seq<ValueView>, Seq<NodeView>), Detail>,
) -> core::result::Result<Option<(Seq<ValueView>, Seq<NodeView>)>, Detail> {
    match rest {
        Ok(found) => Ok(Some((found.0, done + found.1))),
        Err(e) => Err(e),
    }
}

/// What the tree on `b` with the last entry `last` hands out for
/// `b_{i,j}`: nothing where the generation of `last` has no such node; the
/// only value where the root is a leaf; and else what the walk down the
/// path from the root gives.
pub open spec fn spec_get_values(
    b: Seq<u8>,
    last: Option<crate::entry::EntryView>,
    i: Index,
    j: u8,
) -> core::result::Result<Option<(Seq<ValueView>, Seq<NodeView>)>, Detail> {
    match last {
        Some(e) => match spec_path_to(e.enode.address.i as nat, i as nat, j as nat) {
            Some(steps) => if e.inodes.len() == 0 {
                match spec_read_entry(b, e.enode.address.position as int, i) {
                    Ok(x) => Ok(
                        Some((seq![ValueView { i, value: x.payload }], Seq::empty())),
                    ),
                    Err(e) => Err(e),
                }
            } else {
                walked(Seq::empty(), spec_walk(b, e.inodes.last(), e.inodes, steps, 0))
            },
            None => Ok(None),
        },
        None => Ok(None),
    }
}

/// The mathematical value of what a query hands out, where it hands out
/// anything.
pub open spec fn found_view(found: Option<ValuesWithBranches>) -> Option<
    (Seq<ValueView>, Seq<NodeView>),
> {
    match found {
        Some(x) => Some((value_views(x.values@), node_views(x.branches@))),
        None => None,
    }
}

/// The mathematical value of what one step down a path finds.
pub(crate) open spec fn turn_view(t: Turn) -> TurnView {
    TurnView { next: t.next, next_inodes: inode_views(t.next_inodes@), branch: t.branch@ }
}

/// The values `done` in front of those that are still to come.
pub open spec fn values_so_far(
    done: Seq<ValueView>,
    rest: core::result::Result<Seq<ValueView>, Detail>,
) -> core::result::Result<Seq<ValueView>, Detail> {
    match rest {
        Ok(more) => Ok(done + more),
        Err(e) => Err(e),
    }
}

/// The mathematical value of a value that may be there.
pub open spec fn bytes_view(value: Option<Vec<u8>>) -> Option<Seq<u8>> {
    match value {
        Some(v) => Some(v@),
        None => None,
    }
}

/// The mathematical value of an address and a hash value that may be there.
pub open spec fn meta_view(meta: Option<MetaInfo>) -> Option<crate::entry::MetaInfoView> {
    match meta {
        Some(m) => Some(m@),
        None => None,
    }
}

/// The first of `inodes` that is `j` high.
pub fn find_inode(inodes: &Vec<INode>, j: u8) -> (r: Option<INode>)
    ensures
        first_of_height(inode_views(inodes@), j) == match r {
            Some(x) => Some(x@),
            None => None,
        },
        match r {
            Some(x) => exists|m: int|
                0 <= m < inodes@.len() && inodes@[m] == x && x.meta.address.j == j && forall|
                    k: int,
                |
                    0 <= k < m ==> (#[trigger] inodes@[k]).meta.address.j != j,
            None => forall|m: int|
                0 <= m < inodes@.len() ==> (#[trigger] inodes@[m]).meta.address.j != j,
        },
{
    let ghost views = inode_views(inodes@);
    let mut k: usize = 0;
    proof {
        assert(views.subrange(0, views.len() as int) =~= views);
    }
    while k < inodes.len()
        invariant
            k <= inodes@.len(),
            views == inode_views(inodes@),
            first_of_height(views, j) == first_of_height(
                views.subrange(k as int, views.len() as int),
                j,
            ),
            forall|m: int| 0 <= m < k ==> (#[trigger] inodes@[m]).meta.address.j != j,
        decreases inodes@.len() - k,
    {
        let ghost rest = views.subrange(k as int, views.len() as int);
        proof {
            assert(rest[0] == inodes@[k as int]@);
            assert(rest.subrange(1, rest.len() as int) =~= views.subrange(
                k + 1,
                views.len() as int,
            ));
        }
        if inodes[k].meta.address.j == j {
            return Some(inodes[k]);
        }
        k = k + 1;
    }
    None
}

/// The first of `inodes` that has the address `address`.
pub fn find_address(inodes: &Vec<INode>, address: &Address) -> (r: Option<INode>)
    ensures
        first_at(inode_views(inodes@), *address) == match r {
            Some(x) => Some(x@),
            None => None,
        },
        match r {
            Some(x) => exists|m: int|
                0 <= m < inodes@.len() && inodes@[m] == x && x.meta.address == *address && forall|
                    k: int,
                |
                    0 <= k < m ==> (#[trigger] inodes@[k]).meta.address != *address,
            None => forall|m: int|
                0 <= m < inodes@.len() ==> (#[trigger] inodes@[m]).meta.address != *address,
        },
{
    let ghost views = inode_views(inodes@);
    let mut k: usize = 0;
    proof {
        assert(views.subrange(0, views.len() as int) =~= views);
    }
    while k < inodes.len()
        invariant
            k <= inodes@.len(),
            views == inode_views(inodes@),
            first_at(views, *address) == first_at(
                views.subrange(k as int, views.len() as int),
                *address,
            ),
            forall|m: int| 0 <= m < k ==> (#[trigger] inodes@[m]).meta.address != *address,
        decreases inodes@.len() - k,
    {
        let ghost rest = views.subrange(k as int, views.len() as int);
        proof {
            assert(rest[0] == inodes@[k as int]@);
            assert(rest.subrange(1, rest.len() as int) =~= views.subrange(
                k + 1,
                views.len() as int,
            ));
        }
        if inodes[k].meta.address == *address {
            return Some(inodes[k]);
        }
        k = k + 1;
    }
    None
}

/// An inode of entry `e` that is as high as the aligned tree over `lo..=e`
/// is the inode that roots that tree.
proof fn lemma_found(vs: Values, lo: nat, e: nat, inodes: Seq<INode>, x: INode)
    requires
        admissible(vs),
        aligned(lo, e),
        e <= vs.len(),
        inodes_of(vs, e, inodes),
        exists|m: int| 0 <= m < inodes.len() && inodes[m] == x,
        x.meta.address.j == height((e + 1 - lo) as nat),
    ensures
        roots(vs, lo, e, x),
{
    lemma_unique(vs, lo, e);
    lemma_children(vs, lo, e);
    let m = choose|m: int| 0 <= m < inodes.len() && inodes[m] == x;
    assert(inode_views(inodes)[m] == x@);
}

/// The inode that roots the aligned tree over `lo..=e` is among the inodes
/// of entry `e`.
proof fn lemma_present(vs: Values, lo: nat, e: nat, inodes: Seq<INode>)
    requires
        admissible(vs),
        aligned(lo, e),
        e <= vs.len(),
        inodes_of(vs, e, inodes),
    ensures
        exists|m: int|
            0 <= m < inodes.len() && (#[trigger] inodes[m]).meta.address.j == height(
                (e + 1 - lo) as nat,
            ) && inodes[m].meta.address == node_meta(vs, lo, e).address,
{
    lemma_unique(vs, lo, e);
    lemma_children(vs, lo, e);
    let views = entry_of(vs, e).inodes;
    let m = choose|m: int| 0 <= m < views.len() && views[m] == stored_inode(vs, lo, e);
    assert(inode_views(inodes)[m] == inodes[m]@);
}

/// Reads the inodes of the entry at `position`.
pub(crate) fn inodes_of_entry<S: Storage>(
    storage: &S,
    position: u64,
    Ghost(vs): Ghost<Values>,
    Ghost(e): Ghost<nat>,
) -> (r: Result<Vec<INode>>)
    ensures
        outcome(
            storage.reliable(),
            r,
            spec_inodes_of_entry(storage@, position as int),
            |x: Vec<INode>| inode_views(x@),
        ),
        r matches Ok(inodes) ==> heights_ok(inodes@),
        authentic(storage@, vs) && 1 <= e <= vs.len() && position == position_of(vs, e) ==> match r {
            Ok(inodes) => inodes_of(vs, e, inodes@),
            Err(_) => !storage.reliable(),
        },
{
    proof {
        if authentic(storage@, vs) && 1 <= e <= vs.len() && position == position_of(vs, e) {
            lemma_leaf(storage@, vs, e, 0);
        }
    }
    let (_i, inodes) = read_inodes(storage, position)?;
    Ok(inodes)
}

/// Reads the leaf of the entry at `position`, which has to be the entry of
/// leaf `i`, and returns its address and its hash value. The trailer of the
/// entry is not read.
pub(crate) fn leaf_of_entry<S: Storage>(
    storage: &S,
    position: u64,
    i: Index,
    Ghost(vs): Ghost<Values>,
) -> (r: Result<MetaInfo>)
    ensures
        match r {
            Ok(leaf) => match spec_read_entry_without_check(storage@, position as int, i) {
                Ok(e) => e.enode == leaf@,
                Err(_) => false,
            },
            Err(e) => !storage.reliable() || spec_read_entry_without_check(
                storage@,
                position as int,
                i,
            ) == Err::<crate::entry::EntryView, Detail>(e),
        },
        r matches Ok(leaf) ==> leaf.address.j == 0,
        authentic(storage@, vs) && 1 <= i <= vs.len() && position == position_of(vs, i as nat)
            ==> match r {
            Ok(leaf) => leaf@ == node_meta(vs, i as nat, i as nat),
            Err(_) => !storage.reliable(),
        },
{
    proof {
        if authentic(storage@, vs) && 1 <= i <= vs.len() && position == position_of(vs, i as nat) {
            lemma_leaf(storage@, vs, i as nat, i);
        }
    }
    let entry = read_entry_without_check(storage, position, i)?;
    Ok(entry.enode.meta)
}

/// Reads the entry of leaf `i` at `position` in full, checks it against its
/// trailer, and returns its payload and the position of the entry that
/// follows.
pub(crate) fn value_of_entry<S: Storage>(
    storage: &S,
    position: u64,
    i: Index,
    Ghost(vs): Ghost<Values>,
) -> (r: Result<(Vec<u8>, u64)>)
    ensures
        match r {
            Ok(found) => match spec_read_entry(storage@, position as int, i) {
                Ok(e) => e.payload == found.0@ && found.1 == crate::entry::body_end(
                    storage@,
                    position as int,
                ) + 12,
                Err(_) => false,
            },
            Err(e) => !storage.reliable() || spec_read_entry(storage@, position as int, i)
                == Err::<crate::entry::EntryView, Detail>(e),
        },
        r matches Ok(found) ==> i == 0 || stands_at(storage@, position as int, i, found.0@),
        authentic(storage@, vs) && 1 <= i <= vs.len() && position == position_of(vs, i as nat)
            ==> match r {
            Ok(found) => found.0@ == vs[i - 1] && found.1 == position_of(vs, (i + 1) as nat),
            Err(_) => !storage.reliable(),
        },
{
    proof {
        if authentic(storage@, vs) && 1 <= i <= vs.len() && position == position_of(vs, i as nat) {
            lemma_leaf_checked(storage@, vs, i as nat, i);
        }
    }
    let entry = read_entry(storage, position, i)?;
    let next: u64 = position + crate::entry::body_length(&entry) + 12;
    let Entry { enode, .. } = entry;
    Ok((enode.payload, next))
}

/// Reads the inode at `addr`: the inode of the height `addr.j` in the
/// entry at `addr.position`.
pub(crate) fn read_inode<S: Storage>(
    storage: &S,
    addr: &Address,
    Ghost(vs): Ghost<Values>,
    Ghost(lo): Ghost<nat>,
) -> (r: Result<INode>)
    ensures
        outcome(storage.reliable(), r, spec_read_inode(storage@, *addr), |x: INode| x@),
        r matches Ok(x) ==> x.meta.address.j == addr.j && 1 <= addr.j <= INDEX_SIZE,
        authentic(storage@, vs) && aligned(lo, addr.i as nat) && addr.i <= vs.len() && *addr
            == node_meta(vs, lo, addr.i as nat).address ==> match r {
            Ok(x) => roots(vs, lo, addr.i as nat, x),
            Err(_) => !storage.reliable(),
        },
{
    let ghost good = authentic(storage@, vs) && aligned(lo, addr.i as nat) && addr.i <= vs.len() && *addr
        == node_meta(vs, lo, addr.i as nat).address;
    proof {
        if good {
            lemma_children(vs, lo, addr.i as nat);
        }
    }
    let inodes = inodes_of_entry(storage, addr.position, Ghost(vs), Ghost(addr.i as nat))?;
    proof {
        if good {
            lemma_present(vs, lo, addr.i as nat, inodes@);
        }
    }
    match find_inode(&inodes, addr.j) {
        Some(x) => {
            proof {
                if good {
                    lemma_found(vs, lo, addr.i as nat, inodes@, x);
                }
            }
            Ok(x)
        },
        None => Err(Detail::InternalStateInconsistency { i: addr.i, j: addr.j }),
    }
}

/// Finds the position of the entry of leaf `i` below `root`. From the root
/// down the left child is entered where `i` is at most its index, the
/// right child else; the child that has `i` as its index is in the entry
/// looked for. A leaf with another index than `i` ends the search without
/// a result, and so does an `i` of 0 or above the index of `root`. A
/// descent of more moves than a tree is high is reported as an
/// inconsistency of the storage.
pub(crate) fn search_entry_position<S: Storage>(
    storage: &S,
    root: &INode,
    i: Index,
    Ghost(vs): Ghost<Values>,
) -> (r: Result<Option<u64>>)
    ensures
        outcome(
            storage.reliable(),
            r,
            spec_search_entry_position(storage@, root@, i),
            |x: Option<u64>| x,
        ),
        i == 0 || i > root.meta.address.i ==> r == Ok::<Option<u64>, Detail>(None),
        authentic(storage@, vs) && roots(vs, 1, root.meta.address.i as nat, *root) ==> match r {
            Ok(found) => found == if 1 <= i <= root.meta.address.i {
                Some(position_of(vs, i as nat) as u64)
            } else {
                None
            },
            Err(_) => !storage.reliable(),
        },
{
    let ghost good = authentic(storage@, vs) && roots(vs, 1, root.meta.address.i as nat, *root);
    proof {
        if good {
            lemma_children(vs, 1, root.meta.address.i as nat);
        }
    }
    if i == 0 || i > root.meta.address.i {
        return Ok(None);
    } else if root.meta.address.i == i {
        return Ok(Some(root.meta.address.position));
    }
    let mut mover: INode = *root;
    let ghost mut lo: nat = 1;
    let mut hop: u8 = 0;
    while hop < INDEX_SIZE
        invariant
            hop <= INDEX_SIZE,
            good == (authentic(storage@, vs) && roots(vs, 1, root.meta.address.i as nat, *root)),
            1 <= i < root.meta.address.i,
            spec_search_entry_position(storage@, root@, i) == spec_search(
                storage@,
                mover@,
                i,
                (INDEX_SIZE - hop) as nat,
                root.meta.address,
            ),
            good ==> {
                &&& roots(vs, lo, mover.meta.address.i as nat, mover)
                &&& lo <= i < mover.meta.address.i
                &&& mover.meta.address.j + hop <= 64
            },
        decreases INDEX_SIZE - hop,
    {
        let ghost e = mover.meta.address.i as nat;
        proof {
            if good {
                lemma_children(vs, lo, e);
            }
        }
        let to_left: bool = i <= mover.left.i;
        let next: Address = if to_left {
            mover.left
        } else if i <= mover.meta.address.i {
            mover.right
        } else {
            return Ok(None);
        };
        if next.i == i {
            return Ok(Some(next.position));
        }
        if next.j == 0 {
            return Ok(None);
        }
        let ghost next_lo: nat = if to_left {
            lo
        } else {
            (mover.left.i + 1) as nat
        };
        proof {
            if good {
                lemma_leaf_height(next_lo, next.i as nat);
            }
        }
        mover = read_inode(storage, &next, Ghost(vs), Ghost(next_lo))?;
        proof {
            lo = next_lo;
            if good {
                lemma_children(vs, next_lo, next.i as nat);
            }
        }
        hop = hop + 1;
    }
    proof {
        if good {
            lemma_children(vs, lo, mover.meta.address.i as nat);
        }
    }
    Err(
        Detail::InternalStateInconsistency { i: root.meta.address.i, j: root.meta.address.j },
    )
}

/// The last entry of the storage of `vs` holds the root of the tree as its
/// last inode, or is the entry of the only leaf.
pub(crate) proof fn lemma_cached_root(vs: Values, last: Entry)
    requires
        admissible(vs),
        vs.len() >= 1,
        last@ == entry_of(vs, vs.len()),
    ensures
        vs.len() <= u64::MAX,
        position_of(vs, vs.len()) <= u64::MAX,
        last.enode.meta.address.i == vs.len(),
        last.enode.meta.address.position == position_of(vs, vs.len()),
        last.inodes@.len() > 0 ==> last.inodes@.last().meta.address.i == vs.len(),
        last.enode.meta@ == node_meta(vs, vs.len(), vs.len()),
        last.enode.payload@ == vs[vs.len() - 1],
        inodes_of(vs, vs.len(), last.inodes@),
        last.inodes@.len() > 0 ==> vs.len() >= 2 && roots(vs, 1, vs.len(), last.inodes@.last()),
        last.inodes@.len() == 0 ==> vs.len() == 1,
{
    let n = vs.len();
    lemma_positions(vs, n);
    lemma_root(vs, n);
    lemma_leaf(crate::history::storage_bytes(vs), vs, n, 0);
    assert(inode_views(last.inodes@).len() == last.inodes@.len());
    if last.inodes@.len() > 0 {
        assert(last.inodes@.last()@ == inode_views(last.inodes@).last());
        lemma_children(vs, 1, n);
    }
}

/// What is asked of a tree: the storage and the last entry, as they were
/// when the asking began.
pub struct Query<'a, S: Storage> {
    pub(crate) storage: &'a S,
    pub(crate) gen: &'a Cache,
    pub(crate) values: Ghost<Values>,
}

/// The number of values of the tree whose last entry is `last`.
pub open spec fn spec_n(last: Option<crate::entry::EntryView>) -> Index {
    match last {
        Some(e) => e.enode.address.i,
        None => 0,
    }
}

/// Whether `b` holds an entry of the leaf of `value` with the payload of
/// `value`. Nothing is said of a value with the index 0, which no leaf has.
pub open spec fn held(b: Seq<u8>, value: Value) -> bool {
    value.i == 0 || holds_value(b, value.i, value.value@)
}

/// Whether `b` holds each of `values`.
pub open spec fn all_held(b: Seq<u8>, values: Seq<Value>) -> bool {
    forall|k: int| 0 <= k < values.len() ==> held(b, #[trigger] values[k])
}

/// Whether `found` is the answer `expected`: the same values and the same
/// branches, or none where none is expected.
pub open spec fn answers(
    found: Option<ValuesWithBranches>,
    expected: Option<(Seq<ValueView>, Seq<NodeView>)>,
) -> bool {
    match expected {
        Some(e) => found is Some && value_views(found.unwrap().values@) == e.0 && node_views(
            found.unwrap().branches@,
        ) == e.1,
        None => found is None,
    }
}

/// The node with the address and the hash value `meta`.
pub open spec fn node_of(meta: crate::entry::MetaInfoView) -> NodeView {
    NodeView { i: meta.address.i, j: meta.address.j, hash: meta.hash }
}

/// The node at `branch` with its hash value: an inode of `branch_inodes`,
/// which are the inodes of its entry, or the leaf of the entry at its
/// position.
pub(crate) fn branch_node<S: Storage>(
    storage: &S,
    branch: &Address,
    branch_inodes: &Vec<INode>,
    Ghost(vs): Ghost<Values>,
    Ghost(lo): Ghost<nat>,
) -> (r: Result<Node>)
    requires
        heights_ok(branch_inodes@),
    ensures
        outcome(
            storage.reliable(),
            r,
            spec_branch_node(storage@, *branch, inode_views(branch_inodes@)),
            |x: Node| x@,
        ),
        r matches Ok(node) ==> node.j <= INDEX_SIZE,
        authentic(storage@, vs) && is_node(lo, branch.i as nat) && branch.i <= vs.len() && *branch
            == node_meta(vs, lo, branch.i as nat).address && inodes_of(
            vs,
            branch.i as nat,
            branch_inodes@,
        ) ==> match r {
            Ok(node) => node@ == node_of(node_meta(vs, lo, branch.i as nat)),
            Err(_) => !storage.reliable(),
        },
{
    let ghost good = authentic(storage@, vs) && is_node(lo, branch.i as nat) && branch.i <= vs.len()
        && *branch == node_meta(vs, lo, branch.i as nat).address && inodes_of(
        vs,
        branch.i as nat,
        branch_inodes@,
    );
    if branch.j > 0 {
        proof {
            if good {
                assert(lo != branch.i) by {
                    reveal_with_fuel(height, 2);
                }
                lemma_present(vs, lo, branch.i as nat, branch_inodes@);
            }
        }
        match find_inode(branch_inodes, branch.j) {
            Some(inode) => {
                proof {
                    if good {
                        lemma_found(vs, lo, branch.i as nat, branch_inodes@, inode);
                        lemma_children(vs, lo, branch.i as nat);
                    }
                }
                Ok(Node::new(inode.meta.address.i, inode.meta.address.j, inode.meta.hash))
            },
            None => Err(Detail::InternalStateInconsistency { i: branch.i, j: branch.j }),
        }
    } else {
        proof {
            if good {
                if lo != branch.i {
                    lemma_children(vs, lo, branch.i as nat);
                }
                lemma_positions(vs, branch.i as nat);
            }
        }
        let meta = leaf_of_entry(storage, branch.position, branch.i, Ghost(vs))?;
        Ok(Node::new(meta.address.i, 0, meta.hash))
    }
}

/// What one step down a path finds: the child that is entered, the inodes
/// of its entry, and the child that is left aside.
pub(crate) struct Turn {
    pub next: Address,
    pub next_inodes: Vec<INode>,
    pub branch: Node,
}

/// Takes one step down from `prev`, whose entry holds `inodes`, into the
/// child `step`.
pub(crate) fn turn<S: Storage>(
    storage: &S,
    prev: &INode,
    inodes: Vec<INode>,
    step: crate::model::Node,
    Ghost(vs): Ghost<Values>,
    Ghost(lo): Ghost<nat>,
) -> (r: Result<Turn>)
    requires
        heights_ok(inodes@),
    ensures
        outcome(
            storage.reliable(),
            r,
            spec_turn(storage@, prev@, inode_views(inodes@), step),
            |t: Turn| turn_view(t),
        ),
        r matches Ok(t) ==> heights_ok(t.next_inodes@) && t.branch.j <= INDEX_SIZE,
        authentic(storage@, vs) && roots(vs, lo, prev.meta.address.i as nat, *prev) && inodes_of(
            vs,
            prev.meta.address.i as nat,
            inodes@,
        ) && (step == inode_at(lo, prev.meta.address.i as nat).left || step == inode_at(
            lo,
            prev.meta.address.i as nat,
        ).right) ==> match r {
            Err(_) => !storage.reliable(),
            Ok(t) => {
            let e = prev.meta.address.i as nat;
            let li = prev.left.i as nat;
            let to_left = step == inode_at(lo, e).left;
            let next_lo = if to_left {
                lo
            } else {
                li + 1
            };
            let next_hi = if to_left {
                li
            } else {
                e
            };
            let branch_lo = if to_left {
                li + 1
            } else {
                lo
            };
            let branch_hi = if to_left {
                e
            } else {
                li
            };
            &&& lo <= li < e
            &&& li == inode_at(lo, e).left.i
            &&& t.next == node_meta(vs, next_lo, next_hi).address
            &&& is_node(next_lo, next_hi)
            &&& inodes_of(vs, next_hi, t.next_inodes@)
            &&& t.branch@ == node_of(node_meta(vs, branch_lo, branch_hi))
            &&& is_node(branch_lo, branch_hi)
            },
        },
{
    let ghost e = prev.meta.address.i as nat;
    let ghost good = authentic(storage@, vs) && roots(vs, lo, e, *prev) && inodes_of(vs, e, inodes@) && (
    step == inode_at(lo, e).left || step == inode_at(lo, e).right);
    let ghost li = prev.left.i as nat;
    proof {
        if good {
            lemma_children(vs, lo, e);
            lemma_positions(vs, li);
        }
    }
    // The inodes of the left child are read; those of the right child are at hand.
    let left_inodes = inodes_of_entry(storage, prev.left.position, Ghost(vs), Ghost(li))?;
    let to_left: bool = prev.left.i == step.i && prev.left.j == step.j;
    if to_left {
        let branch = branch_node(storage, &prev.right, &inodes, Ghost(vs), Ghost((li + 1) as nat))?;
        Ok(Turn { next: prev.left, next_inodes: left_inodes, branch })
    } else {
        let branch = branch_node(storage, &prev.left, &left_inodes, Ghost(vs), Ghost(lo))?;
        Ok(Turn { next: prev.right, next_inodes: inodes, branch })
    }
}

impl<'a, S: Storage> Query<'a, S> {
    /// The values of the tree that is asked, where it is authentic.
    pub closed spec fn values(&self) -> Values {
        self.values@
    }

    /// The last entry of the tree that is asked.
    pub closed spec fn last_entry(&self) -> Option<crate::entry::EntryView> {
        self.gen@
    }

    /// The bytes of the storage of the tree that is asked.
    pub closed spec fn bytes(&self) -> Seq<u8> {
        self.storage@
    }

    /// Whether the storage holds what the appends of `values()` give, with
    /// the last entry of that storage in memory.
    pub open spec fn is_authentic(&self) -> bool {
        authentic(self.bytes(), self.values()) && self.last_entry() == last_entry_of(self.values())
    }

    /// Whether the device behind the storage never fails.
    pub closed spec fn reliable(&self) -> bool {
        self.storage.reliable()
    }

    /// An asking of the tree on `storage` whose last entry is `gen`.
    pub(crate) fn new(storage: &'a S, gen: &'a Cache, Ghost(values): Ghost<Values>) -> (r: Self)
        ensures
            r.values() == values,
            r.last_entry() == gen@,
            r.is_authentic() == (authentic(storage@, values) && gen@ == last_entry_of(values)),
            r.bytes() == storage@,
            r.reliable() == storage.reliable(),
    {
        Query { storage, gen, values: Ghost(values) }
    }

    /// The address and the hash value of the node `b_{i,j}`, or `None` where
    /// the tree holds no leaf `i` or the entry of that leaf no inode of the
    /// height `j`.
    pub(crate) fn get_node(
        gen: &Cache,
        storage: &S,
        i: Index,
        j: u8,
        Ghost(vs): Ghost<Values>,
        Ghost(lo): Ghost<nat>,
    ) -> (r: Result<Option<MetaInfo>>)
        ensures
            outcome(
                storage.reliable(),
                r,
                spec_get_node(storage@, gen@, i, j),
                |x: Option<MetaInfo>| meta_view(x),
            ),
            i == 0 || i > spec_n(gen@) ==> r == Ok::<Option<MetaInfo>, Detail>(None),
            authentic(storage@, vs) && gen@ == last_entry_of(vs) ==> match r {
                Ok(found) => {
                    &&& (i == 0 || i > vs.len()) ==> found is None
                    &&& 1 <= i <= vs.len() && is_node(lo, i as nat) && j == height(
                        (i + 1 - lo) as nat,
                    ) ==> found is Some && found.unwrap()@ == node_meta(vs, lo, i as nat)
                },
                Err(_) => !storage.reliable(),
            },
    {
        let ghost good = authentic(storage@, vs) && gen@ == last_entry_of(vs);
        let ghost here = 1 <= i <= vs.len() && is_node(lo, i as nat) && j == height(
            (i + 1 - lo) as nat,
        );
        match Self::get_entry_position(gen, storage, i, Ghost(vs))? {
            Some(position) => {
                proof {
                    if good {
                        lemma_positions(vs, i as nat);
                    }
                }
                if j == 0 {
                    let meta = leaf_of_entry(storage, position, i, Ghost(vs))?;
                    proof {
                        if good && here {
                            if lo != i {
                                lemma_children(vs, lo, i as nat);
                            }
                        }
                    }
                    Ok(Some(meta))
                } else {
                    let inodes = inodes_of_entry(storage, position, Ghost(vs), Ghost(i as nat))?;
                    proof {
                        if good && here {
                            assert(lo != i) by {
                                reveal_with_fuel(height, 2);
                            }
                            lemma_present(vs, lo, i as nat, inodes@);
                        }
                    }
                    match find_inode(&inodes, j) {
                        Some(inode) => {
                            proof {
                                if good && here {
                                    lemma_found(vs, lo, i as nat, inodes@, inode);
                                    lemma_children(vs, lo, i as nat);
                                }
                            }
                            Ok(Some(inode.meta))
                        },
                        None => Ok(None),
                    }
                }
            },
            None => Ok(None),
        }
    }

    /// The position of the entry of leaf `i`, found from the root down, or
    /// `None` where the tree holds no such leaf.
    pub(crate) fn get_entry_position(
        gen: &Cache,
        storage: &S,
        i: Index,
        Ghost(vs): Ghost<Values>,
    ) -> (r: Result<Option<u64>>)
        ensures
            outcome(
                storage.reliable(),
                r,
                spec_entry_position(storage@, gen@, i),
                |x: Option<u64>| x,
            ),
            i == 0 || i > spec_n(gen@) ==> r == Ok::<Option<u64>, Detail>(None),
            authentic(storage@, vs) && gen@ == last_entry_of(vs) ==> match r {
                Ok(found) => found == if 1 <= i <= vs.len() {
                    Some(position_of(vs, i as nat) as u64)
                } else {
                    None
                },
                Err(_) => !storage.reliable(),
            },
    {
        let ghost good = authentic(storage@, vs) && gen@ == last_entry_of(vs);
        match gen.root_ref() {
            RootRef::INode(root) => {
                proof {
                    if good {
                        lemma_cached_root(vs, gen.spec_last_entry()->0);
                    }
                }
                let root: INode = *root;
                search_entry_position(storage, &root, i, Ghost(vs))
            },
            RootRef::ENode(root) => {
                proof {
                    if good {
                        lemma_cached_root(vs, gen.spec_last_entry()->0);
                    }
                }
                if i != 0 && root.meta.address.i == i {
                    Ok(Some(root.meta.address.position))
                } else {
                    Ok(None)
                }
            },
            RootRef::Empty => Ok(None),
        }
    }

    /// The number of values of the tree that is asked.
    pub fn n(&self) -> (r: Index)
        ensures
            r == spec_n(self.last_entry()),
            crate::tree::rooted(self.last_entry()),
            self.is_authentic() ==> r == self.values().len(),
    {
        proof {
            if self.is_authentic() && self.values@.len() > 0 {
                lemma_cached_root(self.values@, self.gen.spec_last_entry()->0);
            }
        }
        self.gen.n()
    }

    /// The value with the index `i`, or `None` where `i` is 0 or above the
    /// number of values. The entry of the value is read in full and checked
    /// against its trailer: a value is handed out only from an entry that
    /// has the checksum that it records.
    pub fn get(&self, i: Index) -> (r: Result<Option<Vec<u8>>>)
        ensures
            self.is_authentic() ==> match r {
                Ok(Some(value)) => 1 <= i <= self.values().len() && value@ == self.values()[i - 1],
                Ok(None) => i == 0 || i > self.values().len(),
                Err(_) => !self.reliable(),
            },
            outcome(
                self.reliable(),
                r,
                spec_get(self.bytes(), self.last_entry(), i),
                |x: Option<Vec<u8>>| bytes_view(x),
            ),
            i == 0 || i > spec_n(self.last_entry()) ==> r == Ok::<Option<Vec<u8>>, Detail>(None),
            r matches Ok(Some(value)) ==> holds_value(self.bytes(), i, value@),
    {
        if i == 0 {
            return Ok(None);
        }
        let ghost vs = self.values@;
        let ghost good = self.is_authentic();
        proof {
            if good && 1 <= i <= vs.len() {
                lemma_positions(vs, i as nat);
                assert(height(1) == 0);
            }
        }
        match Self::get_node(self.gen, self.storage, i, 0, Ghost(vs), Ghost(i as nat))? {
            Some(node) => {
                let (payload, _next) = value_of_entry(
                    self.storage,
                    node.address.position,
                    i,
                    Ghost(vs),
                )?;
                Ok(Some(payload))
            },
            None => Ok(None),
        }
    }

    /// The value with the index `i`, together with the branches that lead
    /// from it to the root.
    pub fn get_with_hashes(&self, i: Index) -> (r: Result<Option<ValuesWithBranches>>)
        ensures
            self.is_authentic() ==> match r {
                Ok(found) => answers(found, spec_values_with_hashes(self.values(), i, 0)),
                Err(_) => !self.reliable(),
            },
            r matches Ok(Some(found)) ==> found.foldable() && all_held(self.bytes(), found.values@),
            spec_path_to(spec_n(self.last_entry()) as nat, i as nat, 0) is None ==> r matches Ok(
                None,
            ),
            outcome(
                self.reliable(),
                r,
                spec_get_values(self.bytes(), self.last_entry(), i, 0),
                |x: Option<ValuesWithBranches>| found_view(x),
            ),
    {
        self.get_values_with_hashes(i, 0)
    }

    /// The values below the node `b_{i,j}`, in the order of their indices,
    /// together with the nodes that branch off the path from the root to
    /// that node, the one next to the root first. `None` where `i` is 0 or
    /// above the number of values, or where the tree has no node `b_{i,j}`.
    /// The entry of each value that is handed out is read in full and
    /// checked against its trailer; of the entries on the way only the
    /// inodes and the hash values are read.
    #[verifier::rlimit(40)]
    pub fn get_values_with_hashes(&self, i: Index, j: u8) -> (r: Result<
        Option<ValuesWithBranches>,
    >)
        ensures
            self.is_authentic() ==> match r {
                Ok(found) => answers(found, spec_values_with_hashes(self.values(), i, j)),
                Err(_) => !self.reliable(),
            },
            r matches Ok(Some(found)) ==> found.foldable() && all_held(self.bytes(), found.values@),
            spec_path_to(spec_n(self.last_entry()) as nat, i as nat, j as nat) is None ==> r
                matches Ok(None),
            outcome(
                self.reliable(),
                r,
                spec_get_values(self.bytes(), self.last_entry(), i, j),
                |x: Option<ValuesWithBranches>| found_view(x),
            ),
    {
        let ghost vs = self.values@;
        let ghost whole = spec_get_values(self.bytes(), self.last_entry(), i, j);
        let ghost good = self.is_authentic();
        let ghost n = vs.len();
        let model = match self.gen.model() {
            Some(model) => model,
            None => {
                return Ok(None);
            },
        };
        let last_entry = match self.gen.last_entry() {
            Some(e) => e,
            None => {
                return Ok(None);
            },
        };
        proof {
            if good {
                lemma_cached_root(vs, *last_entry);
            }
        }
        if i == 0 || i > model.n() {
            return Ok(None);
        }
        let path = match model.path_to(i, j) {
            Some(path) => path,
            None => {
                return Ok(None);
            },
        };
        let ghost steps = path.steps@;
        let root: INode = match self.gen.root_ref() {
            RootRef::INode(inode) => *inode,
            RootRef::ENode(enode) => {
                proof {
                    if good {
                        lemma_leaf_path(1, i as nat, j as nat, steps);
                        lemma_range_start(1, 1);
                        lemma_positions(vs, 1);
                    }
                }
                let (payload, _next) = value_of_entry(
                    self.storage,
                    enode.meta.address.position,
                    i,
                    Ghost(vs),
                )?;
                let mut values: Vec<Value> = Vec::new();
                values.push(Value { i, value: payload });
                let branches: Vec<Node> = Vec::new();
                proof {
                    assert(value_views(values@) =~= seq![values@[0]@]);
                    assert(node_views(branches@) =~= Seq::<NodeView>::empty());
                    if good {
                        assert(value_views(values@) =~= values_in(vs, 1, 1));
                        assert(node_views(branches@) =~= branches_of(vs, steps));
                    }
                }
                return Ok(Some(ValuesWithBranches { values, branches }));
            },
            RootRef::Empty => {
                return Ok(None);
            },
        };
        // Walk down the path and collect the node that branches off at each step.
        let mut prev: INode = root;
        let mut inodes: Vec<INode> = last_entry.inodes.clone();
        let mut branches: Vec<Node> = Vec::with_capacity(INDEX_SIZE as usize);
        let ghost mut lo: nat = 1;
        let mut k: usize = 0;
        proof {
            assert(inodes@ =~= last_entry.inodes@);
            if good {
                assert(node_views(branches@) =~= branches_of(vs, steps).subrange(0, 0));
                assert(steps.subrange(0, steps.len() as int) =~= steps);
            }
        }
        while k < path.steps.len()
            invariant
                k <= steps.len() <= INDEX_SIZE,
                steps == path.steps@,
                branches@.len() == k,
                forall|m: int| 0 <= m < k ==> (#[trigger] branches@[m]).j <= INDEX_SIZE,
                heights_ok(inodes@),
                good == self.is_authentic(),
                vs == self.values@,
                n == vs.len(),
                spec_path_to(spec_n(self.gen@) as nat, i as nat, j as nat) is Some,
                whole == spec_get_values(self.bytes(), self.last_entry(), i, j),
                whole == walked(
                    node_views(branches@),
                    spec_walk(self.bytes(), prev@, inode_views(inodes@), steps, k as nat),
                ),
                good ==> {
                    &&& 1 <= i <= n
                    &&& spec_path_to(n, i as nat, j as nat) == Some(steps)
                    &&& roots(vs, lo, prev.meta.address.i as nat, prev)
                    &&& inodes_of(vs, prev.meta.address.i as nat, inodes@)
                    &&& spec_path(lo, prev.meta.address.i as nat, i as nat, j as nat) == Some(
                        steps.subrange(k as int, steps.len() as int),
                    )
                    &&& node_views(branches@) == branches_of(vs, steps).subrange(0, k as int)
                },
            decreases steps.len() - k,
        {
            let step = path.steps[k].step;
            let ghost e = prev.meta.address.i as nat;
            let ghost rest = steps.subrange(k + 1, steps.len() as int);
            proof {
                if good {
                    lemma_positions(vs, e);
                    lemma_children(vs, lo, e);
                    lemma_step(lo, e, i as nat, j as nat, steps.subrange(
                        k as int,
                        steps.len() as int,
                    ));
                    assert(steps.subrange(k as int, steps.len() as int)[0] == steps[k as int]);
                    assert(steps.subrange(k as int, steps.len() as int).subrange(
                        1,
                        steps.len() - k,
                    ) =~= rest);
                }
            }
            let Turn { next, next_inodes, branch } = turn(
                self.storage,
                &prev,
                inodes,
                step,
                Ghost(vs),
                Ghost(lo),
            )?;
            let ghost next_lo: nat = if step == inode_at(lo, e).left {
                lo
            } else {
                (prev.left.i + 1) as nat
            };
            let ghost before = node_views(branches@);
            branches.push(branch);
            proof {
                assert(node_views(branches@) =~= before + seq![branch@]);
                if good {
                    let neighbor = steps[k as int].neighbor;
                    if step == inode_at(lo, e).left {
                        lemma_range_start((prev.left.i + 1) as nat, e);
                    } else {
                        lemma_range_start(lo, prev.left.i as nat);
                    }
                    assert(branch@ == branch_of(vs, neighbor));
                    assert(node_views(branches@) =~= branches_of(vs, steps).subrange(0, k + 1));
                }
            }
            if next.j == 0 {
                proof {
                    if good {
                        lemma_leaf_height(next_lo, next.i as nat);
                        lemma_leaf_path(next.i as nat, i as nat, j as nat, rest);
                        lemma_range_start(next.i as nat, next.i as nat);
                        lemma_positions(vs, next.i as nat);
                        assert(rest.len() == steps.len() - (k + 1));
                        assert(height(1) == 0);
                        assert(branches_of(vs, steps).subrange(0, k + 1) =~= branches_of(
                            vs,
                            steps,
                        ));
                    }
                }
                let (payload, _next) = value_of_entry(
                    self.storage,
                    next.position,
                    next.i,
                    Ghost(vs),
                )?;
                let mut values: Vec<Value> = Vec::new();
                values.push(Value { i: next.i, value: payload });
                proof {
                    assert(value_views(values@) =~= seq![values@[0]@]);
                    if good {
                        assert(value_views(values@) =~= values_in(vs, i as nat, i as nat));
                    }
                }
                return Ok(Some(ValuesWithBranches::new(values, branches)));
            }
            // Move on to the next node.
            proof {
                if good {
                    lemma_leaf_height(next_lo, next.i as nat);
                    lemma_present(vs, next_lo, next.i as nat, next_inodes@);
                }
            }
            match find_address(&next_inodes, &next) {
                Some(inode) => {
                    proof {
                        if good {
                            lemma_found(vs, next_lo, next.i as nat, next_inodes@, inode);
                        }
                    }
                    proof {
                        let rest = spec_walk(
                            self.bytes(),
                            inode@,
                            inode_views(next_inodes@),
                            steps,
                            (k + 1) as nat,
                        );
                        if rest is Ok {
                            let found = rest->Ok_0;
                            assert(before + (seq![branch@] + found.1) =~= node_views(branches@)
                                + found.1);
                        }
                    }
                    prev = inode;
                    inodes = next_inodes;
                },
                None => {
                    return Err(Detail::InternalStateInconsistency { i: next.i, j: next.j });
                },
            }
            proof {
                lo = next_lo;
            }
            k = k + 1;
        }
        // The values below the node that was looked for.
        proof {
            if good {
                assert(steps.subrange(k as int, steps.len() as int) =~= Seq::<Step>::empty());
                lemma_target(lo, prev.meta.address.i as nat, i as nat, j as nat);
                lemma_children(vs, lo, prev.meta.address.i as nat);
                lemma_range_start(lo, prev.meta.address.i as nat);
                assert(branches_of(vs, steps).subrange(0, k as int) =~= branches_of(vs, steps));
            }
        }
        let values = self.get_values_belonging_to(&prev, Ghost(lo))?;
        Ok(Some(ValuesWithBranches::new(values, branches)))
    }

    /// All the values below `inode`, in the order of their indices: the
    /// entries from that of the leftmost leaf below `inode` up to the entry
    /// of `inode` itself, which follow one another on the storage.
    pub(crate) fn get_values_belonging_to(&self, inode: &INode, Ghost(lo): Ghost<nat>) -> (r: Result<
        Vec<Value>,
    >)
        ensures
            outcome(
                self.reliable(),
                r,
                spec_values_belonging_to(self.bytes(), inode@),
                |x: Vec<Value>| value_views(x@),
            ),
            r matches Ok(values) ==> values@.len() >= 1 && all_held(self.bytes(), values@),
            self.is_authentic() && roots(self.values(), lo, inode.meta.address.i as nat, *inode)
                ==> match r {
                Ok(values) => value_views(values@) == values_in(
                    self.values(),
                    lo,
                    inode.meta.address.i as nat,
                ),
                Err(_) => !self.reliable(),
            },
    {
        let ghost vs = self.values@;
        let ghost hi = inode.meta.address.i as nat;
        let ghost good = self.is_authentic() && roots(vs, lo, hi, *inode);
        // Go down to the leftmost leaf.
        let mut mover: INode = *inode;
        while mover.left.j > 0
            invariant
                spec_leftmost(self.bytes(), inode@) == spec_leftmost(self.bytes(), mover@),
                vs == self.values@,
                hi == inode.meta.address.i,
                good == (self.is_authentic() && roots(vs, lo, hi, *inode)),
                good ==> roots(vs, lo, mover.meta.address.i as nat, mover) && mover.meta.address.i
                    <= hi,
            decreases mover.left.j,
        {
            proof {
                if good {
                    lemma_children(vs, lo, mover.meta.address.i as nat);
                    lemma_leaf_height(lo, mover.left.i as nat);
                }
            }
            let left: Address = mover.left;
            let found = read_inode(self.storage, &left, Ghost(vs), Ghost(lo))?;
            proof {
                if good {
                    lemma_children(vs, lo, left.i as nat);
                }
            }
            if found.left.j >= left.j {
                return Err(Detail::InternalStateInconsistency { i: left.i, j: left.j });
            }
            mover = found;
        }
        proof {
            if good {
                lemma_children(vs, lo, mover.meta.address.i as nat);
                lemma_children(vs, lo, hi);
                lemma_positions(vs, lo);
                assert(value_views(Seq::<Value>::empty()) =~= values_in(vs, lo, (lo - 1) as nat));
            }
        }
        let last: Index = inode.meta.address.i;
        let mut i: Index = mover.left.i;
        let mut position: u64 = mover.left.position;
        let mut values: Vec<Value> = Vec::new();
        let ghost whole = spec_values_belonging_to(self.bytes(), inode@);
        proof {
            assert(value_views(values@) =~= Seq::<ValueView>::empty());
            let rest = spec_values_from(self.bytes(), position, i, last);
            if rest is Ok {
                assert(Seq::<ValueView>::empty() + rest->Ok_0 =~= rest->Ok_0);
            }
        }
        if i > last {
            return Err(
                Detail::InternalStateInconsistency {
                    i: inode.meta.address.i,
                    j: inode.meta.address.j,
                },
            );
        }
        loop
            invariant_except_break
                i <= last,
                whole == values_so_far(
                    value_views(values@),
                    spec_values_from(self.bytes(), position, i, last),
                ),
                good ==> {
                    &&& 1 <= lo <= i <= hi <= vs.len()
                    &&& position == position_of(vs, i as nat)
                    &&& value_views(values@) == values_in(vs, lo, (i - 1) as nat)
                },
            invariant
                last == hi,
                whole == spec_values_belonging_to(self.bytes(), inode@),
                all_held(self.bytes(), values@),
                vs == self.values@,
                hi == inode.meta.address.i,
                good == (self.is_authentic() && roots(vs, lo, hi, *inode)),
            ensures
                values@.len() >= 1,
                whole == Ok::<Seq<ValueView>, Detail>(value_views(values@)),
                all_held(self.bytes(), values@),
                good ==> value_views(values@) == values_in(vs, lo, hi),
            decreases last - i,
        {
            let (value, next) = self.value_at(position, i)?;
            let ghost before = values@;
            values.push(value);
            proof {
                assert(value_views(values@) =~= value_views(before).push(value@));
                let after = spec_values_from(self.bytes(), next, (i + 1) as u64, last);
                if i < last && after is Ok {
                    assert(value_views(before) + (seq![value@] + after->Ok_0) =~= value_views(
                        values@,
                    ) + after->Ok_0);
                }
                if i >= last {
                    assert(value_views(before) + seq![value@] =~= value_views(values@));
                }
                if good {
                    lemma_positions(vs, i as nat);
                    assert(value_views(values@) =~= value_views(before).push(
                        ValueView { i, value: vs[i - 1] },
                    ));
                    assert(values_in(vs, lo, i as nat) =~= values_in(vs, lo, (i - 1) as nat).push(
                        ValueView { i, value: vs[i - 1] },
                    ));
                }
            }
            if i == last {
                break ;
            }
            i = i + 1;
            position = next;
        }
        Ok(values)
    }

    /// The value of the entry at `position`, which has to be the entry of
    /// leaf `i` and to pass its check, and the position of the entry that
    /// follows.
    fn value_at(&self, position: u64, i: Index) -> (r: Result<(Value, u64)>)
        ensures
            match r {
                Ok(found) => match spec_read_entry(self.bytes(), position as int, i) {
                    Ok(e) => found.0@ == (ValueView { i, value: e.payload }) && found.1
                        == crate::entry::body_end(self.bytes(), position as int) + 12,
                    Err(_) => false,
                },
                Err(e) => !self.reliable() || spec_read_entry(self.bytes(), position as int, i)
                    == Err::<crate::entry::EntryView, Detail>(e),
            },
            r matches Ok(found) ==> held(self.bytes(), found.0),
            self.is_authentic() && 1 <= i <= self.values().len() && position == position_of(
                self.values(),
                i as nat,
            ) ==> match r {
                Ok(found) => found.0@ == (ValueView { i, value: self.values()[i - 1] }) && found.1
                    == position_of(self.values(), (i + 1) as nat),
                Err(_) => !self.reliable(),
            },
    {
        let (payload, next) = value_of_entry(self.storage, position, i, Ghost(self.values@))?;
        Ok((Value { i, value: payload }, next))
    }
}

/// A node of height 0 is a leaf, and a leaf has height 0.
pub(crate) proof fn lemma_leaf_height(lo: nat, hi: nat)
    requires
        is_node(lo, hi),
    ensures
        height((hi + 1 - lo) as nat) == 0 <==> lo == hi,
        lo != hi ==> aligned(lo, hi),
{
    reveal_with_fuel(height, 2);
}

/// The first step of a path that is not empty enters the child that holds
/// the node looked for, and the rest of the path leads on from there.
pub(crate) proof fn lemma_step(lo: nat, hi: nat, i: nat, j: nat, steps: Seq<Step>)
    requires
        1 <= lo < hi <= u64::MAX,
        spec_path(lo, hi, i, j) == Some(steps),
        steps.len() > 0,
    ensures
        ({
            let node = inode_at(lo, hi);
            let rest = steps.subrange(1, steps.len() as int);
            if steps[0].step == node.left {
                &&& steps[0] == (Step { step: node.left, neighbor: node.right })
                &&& spec_path(lo, node.left.i as nat, i, j) == Some(rest)
            } else {
                &&& steps[0] == (Step { step: node.right, neighbor: node.left })
                &&& spec_path((node.left.i + 1) as nat, hi, i, j) == Some(rest)
            }
        }),
        lo <= i <= hi,
{
    let span = (hi + 1 - lo) as nat;
    let ls = crate::model::left_span(span);
    let node = inode_at(lo, hi);
    crate::model::lemma_height_bounds(span);
    vstd::arithmetic::power2::lemma_pow2_pos((height(span) - 1) as nat);
    assert(!(i == hi && j == height(span)));
    if i <= lo + ls - 1 {
        let rec = spec_path(lo, (lo + ls - 1) as nat, i, j);
        assert(rec is Some);
        assert(steps =~= seq![Step { step: node.left, neighbor: node.right }] + rec->0);
        assert(steps.subrange(1, steps.len() as int) =~= rec->0);
    } else {
        let rec = spec_path(lo + ls, hi, i, j);
        assert(rec is Some);
        assert(steps =~= seq![Step { step: node.right, neighbor: node.left }] + rec->0);
        assert(steps.subrange(1, steps.len() as int) =~= rec->0);
    }
}

/// The path to a leaf from that leaf is empty.
pub(crate) proof fn lemma_leaf_path(leaf: nat, i: nat, j: nat, steps: Seq<Step>)
    requires
        spec_path(leaf, leaf, i, j) == Some(steps),
    ensures
        steps.len() == 0,
        i == leaf,
        j == 0,
{
}

/// An empty path ends where it begins.
pub(crate) proof fn lemma_target(lo: nat, hi: nat, i: nat, j: nat)
    requires
        1 <= lo <= hi,
        spec_path(lo, hi, i, j) == Some(Seq::<Step>::empty()),
    ensures
        i == hi,
        j == height((hi + 1 - lo) as nat),
{
}

} // verus!
