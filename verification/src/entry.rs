//! The entries of a storage: what an entry holds, how it is laid out in
//! bytes, and how it is read and written.
//!
//! A storage begins with three bytes that identify it and one byte that
//! gives the version of the layout. The entries follow. Each entry is
//!
//! | field                | bytes      |
//! |----------------------|------------|
//! | `i`                  | 8          |
//! | number of inodes     | 1          |
//! | for each inode, from the lowest up: `j - 1`, `left.position`, `left.i`, `left.j`, hash | 1, 8, 8, 1, `HASH_SIZE` |
//! | length of the payload | 4         |
//! | payload              | its length |
//! | hash of the payload  | `HASH_SIZE` |
//! | length of all that precedes | 4   |
//! | checksum of all that precedes | 8 |
//!
//! with every integer in little-endian order.

use vstd::prelude::*;
use vstd::bytes::*;
use vstd::slice::*;
use vstd::array::*;
use crate::checksum::{checksum, spec_checksum};
use crate::error::{Detail, Result};
use crate::hash::HASH_SIZE;
use crate::model::{Index, INDEX_SIZE};
use crate::storage::Storage;
use crate::wire::{get_u32, get_u64, put, put_u32, put_u64, u32_at, u64_at};

verus! {

/// The greatest number of bytes of a value.
pub const MAX_PAYLOAD_SIZE: usize = 0x7FFFFFFF;

/// The three bytes that a storage begins with.
pub const STORAGE_IDENTIFIER: [u8; 3] = [0x01u8, 0xF3u8, 0x33u8];

/// The version of the layout that this library writes.
pub const STORAGE_VERSION: u8 = 1;

/// The number of bytes in front of the inodes of an entry.
pub const HEAD_SIZE: usize = 9;

/// The number of bytes of one inode of an entry.
pub const INODE_SIZE: usize = 50;

/// The number of bytes behind the body of an entry.
pub const TRAILER_SIZE: usize = 12;

/// Whether a storage of the version `version` can be read.
pub fn is_version_compatible(version: u8) -> (r: bool)
    ensures
        r == (version <= STORAGE_VERSION),
{
    version <= STORAGE_VERSION
}

/// Where the node `b_{i,j}` is found: in the entry at `position`.
#[derive(PartialEq, Eq, Copy, Clone, Debug, Structural)]
pub struct Address {
    /// The greatest index of the leaves below the node.
    pub i: Index,
    /// The height of the node; 0 for a leaf.
    pub j: u8,
    /// The position in the storage of the entry that holds the node.
    pub position: u64,
}

impl Address {
    pub fn new(i: Index, j: u8, position: u64) -> (r: Address)
        ensures
            r == (Address { i, j, position }),
    {
        Address { i, j, position }
    }
}

/// An address and a hash value, as a mathematical value.
pub struct MetaInfoView {
    pub address: Address,
    pub hash: Seq<u8>,
}

/// The address of a node and its hash value.
#[derive(PartialEq, Eq, Copy, Clone, Debug)]
pub struct MetaInfo {
    pub address: Address,
    pub hash: crate::hash::Hash,
}

impl View for MetaInfo {
    type V = MetaInfoView;

    open spec fn view(&self) -> MetaInfoView {
        MetaInfoView { address: self.address, hash: self.hash@ }
    }
}

impl MetaInfo {
    pub fn new(address: Address, hash: crate::hash::Hash) -> (r: MetaInfo)
        ensures
            r == (MetaInfo { address, hash }),
    {
        MetaInfo { address, hash }
    }
}

/// An internal node, as a mathematical value.
pub struct INodeView {
    pub meta: MetaInfoView,
    pub left: Address,
    pub right: Address,
}

/// An internal node: its own address and hash value and the addresses of
/// its two children.
#[derive(PartialEq, Eq, Copy, Clone, Debug)]
pub struct INode {
    pub meta: MetaInfo,
    /// The left child, which an earlier entry holds.
    pub left: Address,
    /// The right child, which the same entry holds.
    pub right: Address,
}

impl View for INode {
    type V = INodeView;

    open spec fn view(&self) -> INodeView {
        INodeView { meta: self.meta@, left: self.left, right: self.right }
    }
}

impl INode {
    pub fn new(meta: MetaInfo, left: Address, right: Address) -> (r: INode)
        ensures
            r == (INode { meta, left, right }),
    {
        INode { meta, left, right }
    }
}

/// A leaf: its address, the hash value of its payload, and the payload.
#[derive(PartialEq, Eq, Debug)]
pub struct ENode {
    pub meta: MetaInfo,
    pub payload: Vec<u8>,
}

/// An entry, as a mathematical value.
pub struct EntryView {
    pub enode: MetaInfoView,
    pub payload: Seq<u8>,
    pub inodes: Seq<INodeView>,
}

/// An entry: a leaf and the internal nodes that came into being with it,
/// from the lowest up.
#[derive(PartialEq, Eq, Debug)]
pub struct Entry {
    pub enode: ENode,
    pub inodes: Vec<INode>,
}

/// The mathematical values of `inodes`.
pub open spec fn inode_views(inodes: Seq<INode>) -> Seq<INodeView> {
    Seq::new(inodes.len(), |k: int| inodes[k]@)
}

impl View for Entry {
    type V = EntryView;

    open spec fn view(&self) -> EntryView {
        EntryView {
            enode: self.enode.meta@,
            payload: self.enode.payload@,
            inodes: inode_views(self.inodes@),
        }
    }
}

/// The height that the byte `b` of an inode stands for: its six low bits,
/// and one more.
pub open spec fn height_of_byte(b: u8) -> u8 {
    ((b & 0x3f) + 1) as u8
}

/// The number of inodes of the entry at `p`.
pub open spec fn inode_count_at(b: Seq<u8>, p: int) -> nat {
    b[p + 8] as nat
}

/// The position behind the inodes of the entry at `p`.
pub open spec fn inodes_end(b: Seq<u8>, p: int) -> int {
    p + 9 + 50 * inode_count_at(b, p)
}

/// The inode `k` of the entry at `p`. Its right child is the inode below
/// it, or the leaf of the entry for the lowest one.
#[verifier::opaque]
pub open spec fn inode_at(b: Seq<u8>, p: int, k: int) -> INodeView {
    let base = p + 9 + 50 * k;
    let i = u64_at(b, p);
    INodeView {
        meta: MetaInfoView {
            address: Address { i, j: height_of_byte(b[base]), position: p as u64 },
            hash: b.subrange(base + 18, base + 50),
        },
        left: Address { i: u64_at(b, base + 9), j: b[base + 17], position: u64_at(b, base + 1) },
        right: Address {
            i,
            j: if k == 0 {
                0
            } else {
                height_of_byte(b[base - 50])
            },
            position: p as u64,
        },
    }
}

/// The inodes of the entry at `p`.
pub open spec fn inodes_at(b: Seq<u8>, p: int) -> Seq<INodeView> {
    Seq::new(inode_count_at(b, p), |k: int| inode_at(b, p, k))
}

/// What reading the inodes of the entry at `p` gives: the index of the
/// entry and its inodes, or `DamagedStorage` where the storage ends before
/// them.
pub open spec fn spec_read_inodes(b: Seq<u8>, p: int) -> core::result::Result<
    (Index, Seq<INodeView>),
    Detail,
> {
    if p + 9 > b.len() {
        Err(Detail::DamagedStorage { at: p as u64 })
    } else if inodes_end(b, p) > b.len() {
        Err(Detail::DamagedStorage { at: (p + 9) as u64 })
    } else {
        Ok((u64_at(b, p), inodes_at(b, p)))
    }
}

/// The length of the payload of the entry at `p`: the 31 low bits of the
/// field.
pub open spec fn payload_len_at(b: Seq<u8>, p: int) -> nat {
    (u32_at(b, inodes_end(b, p)) & 0x7FFF_FFFFu32) as nat
}

/// The position behind the body of the entry at `p`, where its trailer
/// begins.
pub open spec fn body_end(b: Seq<u8>, p: int) -> int {
    inodes_end(b, p) + 4 + payload_len_at(b, p) + 32
}

/// The entry at `p`.
pub open spec fn entry_at(b: Seq<u8>, p: int) -> EntryView {
    let q = inodes_end(b, p) + 4;
    let n = payload_len_at(b, p);
    EntryView {
        enode: MetaInfoView {
            address: Address { i: u64_at(b, p), j: 0, position: p as u64 },
            hash: b.subrange(q + n, q + n + 32),
        },
        payload: b.subrange(q, q + n),
        inodes: inodes_at(b, p),
    }
}

/// What reading the body of the entry at `p` gives, for a caller that
/// expects the entry of leaf `i_expected`, or any entry where that is 0.
pub open spec fn spec_read_entry_without_check(
    b: Seq<u8>,
    p: int,
    i_expected: Index,
) -> core::result::Result<EntryView, Detail> {
    match spec_read_inodes(b, p) {
        Err(e) => Err(e),
        Ok(_) => if u64_at(b, p) != i_expected && i_expected != 0 {
            Err(Detail::IncorrectNodeBoundary { at: p as u64 })
        } else if inodes_end(b, p) + 4 > b.len() {
            Err(Detail::DamagedStorage { at: inodes_end(b, p) as u64 })
        } else if body_end(b, p) > b.len() {
            Err(Detail::DamagedStorage { at: (inodes_end(b, p) + 4) as u64 })
        } else {
            Ok(entry_at(b, p))
        },
    }
}

/// Whether the entry of leaf `i` stands at `p` in `b`, passes the check
/// against its trailer, and has the payload `value`.
pub open spec fn stands_at(b: Seq<u8>, p: int, i: Index, value: Seq<u8>) -> bool {
    i != 0 && match spec_read_entry(b, p, i) {
        Ok(e) => e.payload == value,
        Err(_) => false,
    }
}

/// Whether `b` holds an entry of leaf `i` that passes its check and has the
/// payload `value`.
pub open spec fn holds_value(b: Seq<u8>, i: Index, value: Seq<u8>) -> bool {
    exists|p: int| #[trigger] stands_at(b, p, i, value)
}

/// What reading the entry at `p` and checking its trailer gives.
pub open spec fn spec_read_entry(b: Seq<u8>, p: int, i_expected: Index) -> core::result::Result<
    EntryView,
    Detail,
> {
    match spec_read_entry_without_check(b, p, i_expected) {
        Err(e) => Err(e),
        Ok(entry) => {
            let e = body_end(b, p);
            if e + 4 > b.len() {
                Err(Detail::DamagedStorage { at: e as u64 })
            } else if e - p != u32_at(b, e) {
                Err(
                    Detail::IncorrectEntryHeadOffset {
                        expected: u32_at(b, e),
                        actual: (e - p) as u64,
                    },
                )
            } else if e + 12 > b.len() {
                Err(Detail::DamagedStorage { at: (e + 4) as u64 })
            } else if spec_checksum(b.subrange(p, e + 4)) != u64_at(b, e + 4) {
                Err(
                    Detail::ChecksumVerificationFailed {
                        at: p as u64,
                        length: (e - p + 12) as u64,
                        expected: u64_at(b, e + 4),
                        actual: spec_checksum(b.subrange(p, e + 4)),
                    },
                )
            } else {
                Ok(entry)
            }
        },
    }
}

/// Whether `r` is what a storage that is `reliable` or not may answer where
/// `expected` is on the storage.
pub open spec fn inodes_outcome(
    reliable: bool,
    r: Result<(Index, Vec<INode>)>,
    expected: core::result::Result<(Index, Seq<INodeView>), Detail>,
) -> bool {
    match r {
        Ok(found) => expected == Ok::<(Index, Seq<INodeView>), Detail>((found.0, inode_views(found.1@))),
        Err(e) => !reliable || expected == Err::<(Index, Seq<INodeView>), Detail>(e),
    }
}

/// Whether `r` is what a storage that is `reliable` or not may answer where
/// `expected` is on the storage.
pub open spec fn entry_outcome(
    reliable: bool,
    r: Result<Entry>,
    expected: core::result::Result<EntryView, Detail>,
) -> bool {
    match r {
        Ok(found) => expected == Ok::<EntryView, Detail>(found@),
        Err(e) => !reliable || expected == Err::<EntryView, Detail>(e),
    }
}

/// Whether `inodes` have the form of the inodes of the entry of leaf `i` at
/// `position`: there are at most 255 of them, and each belongs to that
/// entry and is from 1 to 64 high.
pub open spec fn well_formed(i: Index, position: u64, inodes: Seq<INode>) -> bool {
    &&& inodes.len() <= 255
    &&& forall|k: int|
        #![trigger inodes[k]]
        0 <= k < inodes.len() ==> {
            &&& inodes[k].meta.address.i == i
            &&& inodes[k].meta.address.position == position
            &&& 1 <= inodes[k].meta.address.j <= INDEX_SIZE
        }
}

/// The hash value that stands at `at` in `buf`.
pub fn get_hash(buf: &[u8], at: usize) -> (r: crate::hash::Hash)
    requires
        at + 32 <= buf@.len(),
    ensures
        r@ == buf@.subrange(at as int, at + 32),
{
    let mut value: [u8; HASH_SIZE] = [0u8; 32];
    let len: usize = buf.len();
    let mut k: usize = 0;
    while k < 32
        invariant
            k <= 32,
            at + 32 <= buf@.len(),
            len == buf@.len(),
            forall|m: int| 0 <= m < k ==> value@[m] == buf@[at + m],
        decreases 32 - k,
    {
        value.set(k, buf[at + k]);
        k = k + 1;
    }
    proof {
        assert(value@ =~= buf@.subrange(at as int, at + 32));
    }
    crate::hash::Hash { value }
}

/// The height that the byte `b` of an inode stands for.
pub fn byte_to_height(b: u8) -> (r: u8)
    ensures
        r == height_of_byte(b),
        1 <= r <= INDEX_SIZE,
{
    let low: u8 = b & (INDEX_SIZE - 1);
    proof {
        assert(b & 63u8 <= 63u8) by (bit_vector);
    }
    low + 1
}

/// Reads the inodes of the entry at `position`, and the index of the entry.
pub fn read_inodes<S: Storage>(storage: &S, position: u64) -> (r: Result<(Index, Vec<INode>)>)
    ensures
        inodes_outcome(storage.reliable(), r, spec_read_inodes(storage@, position as int)),
        r matches Ok(found) ==> well_formed(found.0, position, found.1@) && position + 9 + 50
            * found.1@.len() <= u64::MAX,
{
    proof {
        reveal(inode_at);
    }
    let head = storage.read(position, HEAD_SIZE)?;
    let ghost b = storage@;
    let ghost p = position as int;
    let i: u64 = get_u64(head.as_slice(), 0);
    let count: usize = head[8] as usize;
    proof {
        assert(head@.subrange(0, 8) =~= b.subrange(p, p + 8));
    }
    let block = storage.read(position + HEAD_SIZE as u64, count * INODE_SIZE)?;
    let mut inodes: Vec<INode> = Vec::with_capacity(count);
    let mut right_j: u8 = 0;
    let mut k: usize = 0;
    while k < count
        invariant
            k <= count,
            count == inode_count_at(b, p),
            count <= 255,
            block@ == b.subrange(p + 9, p + 9 + 50 * count),
            p + 9 + 50 * count <= b.len(),
            p == position,
            i == u64_at(b, p),
            inodes@.len() == k,
            right_j == if k == 0 {
                0
            } else {
                height_of_byte(b[p + 9 + 50 * (k - 1)])
            },
            forall|m: int| 0 <= m < k ==> (#[trigger] inodes@[m])@ == inode_at(b, p, m),
            well_formed(i, position, inodes@),
            right_j <= INDEX_SIZE,
        decreases count - k,
    {
        let base: usize = k * INODE_SIZE;
        let j: u8 = byte_to_height(block[base]);
        let left_position: u64 = get_u64(block.as_slice(), base + 1);
        let left_i: u64 = get_u64(block.as_slice(), base + 9);
        let left_j: u8 = block[base + 17];
        let hash = get_hash(block.as_slice(), base + 18);
        proof {
            reveal(inode_at);
            let at = p + 9 + 50 * k;
            assert(block@.subrange(base + 1, base + 9) =~= b.subrange(at + 1, at + 9));
            assert(block@.subrange(base + 9, base + 17) =~= b.subrange(at + 9, at + 17));
            assert(block@.subrange(base + 18, base + 50) =~= b.subrange(at + 18, at + 50));
            assert(block@[base as int] == b[at]);
            assert(block@[base + 17] == b[at + 17]);
        }
        inodes.push(
            INode {
                meta: MetaInfo { address: Address { i, j, position }, hash },
                left: Address { i: left_i, j: left_j, position: left_position },
                right: Address { i, j: right_j, position },
            },
        );
        right_j = j;
        k = k + 1;
    }
    proof {
        assert(inode_views(inodes@) =~= inodes_at(b, p));
    }
    Ok((i, inodes))
}

impl Entry {
    /// Whether this entry has the form of an entry of a storage: its leaf
    /// has height 0, its inodes have the form of those of an entry, and its
    /// payload is within the limit.
    pub open spec fn well_formed(&self) -> bool {
        &&& self.enode.meta.address.j == 0
        &&& self.enode.payload@.len() <= MAX_PAYLOAD_SIZE
        &&& well_formed(
            self.enode.meta.address.i,
            self.enode.meta.address.position,
            self.inodes@,
        )
    }

    /// The number of bytes of the body of this entry: all but its trailer.
    pub open spec fn spec_body_length(&self) -> int {
        9 + 50 * (self.inodes@.len() as int) + 4 + self.enode.payload@.len() + 32
    }
}

/// Reads the body of the entry at `position`: its inodes and its leaf. The
/// index of the entry has to be `i_expected`, unless that is 0.
pub fn read_entry_without_check<S: Storage>(storage: &S, position: u64, i_expected: Index) -> (r:
    Result<Entry>)
    ensures
        entry_outcome(
            storage.reliable(),
            r,
            spec_read_entry_without_check(storage@, position as int, i_expected),
        ),
        r matches Ok(entry) ==> position + entry.spec_body_length() == body_end(
            storage@,
            position as int,
        ) <= storage@.len() && body_end(storage@, position as int) <= u64::MAX,
        r matches Ok(entry) ==> entry.well_formed() && entry.enode.meta.address == (Address {
            i: entry.enode.meta.address.i,
            j: 0,
            position,
        }),
{
    let ghost b = storage@;
    let ghost p = position as int;
    let (i, inodes) = read_inodes(storage, position)?;
    if i != i_expected && i_expected != 0 {
        return Err(Detail::IncorrectNodeBoundary { at: position });
    }
    proof {
        assert(inode_views(inodes@).len() == inodes@.len());
        assert(inodes_at(b, p).len() == inode_count_at(b, p));
    }
    let q: u64 = position + HEAD_SIZE as u64 + (inodes.len() * INODE_SIZE) as u64;
    let field = storage.read(q, 4)?;
    let raw: u32 = get_u32(field.as_slice(), 0);
    let size: u32 = raw & (MAX_PAYLOAD_SIZE as u32);
    proof {
        assert(field@.subrange(0, 4) =~= b.subrange(q as int, q + 4));
        assert(raw & 0x7FFF_FFFFu32 <= 0x7FFF_FFFFu32) by (bit_vector);
    }
    let rest = storage.read(q + 4, size as usize + HASH_SIZE)?;
    let payload = slice_to_vec(slice_subrange(rest.as_slice(), 0, size as usize));
    let hash = get_hash(rest.as_slice(), size as usize);
    proof {
        assert(payload@ =~= b.subrange(q + 4, q + 4 + size));
        assert(hash@ =~= b.subrange(q + 4 + size, q + 4 + size + 32));
    }
    let enode = ENode { meta: MetaInfo { address: Address { i, j: 0, position }, hash }, payload };
    Ok(Entry { enode, inodes })
}

/// Reads the body of the entry at `position` and returns it with the
/// position of the entry that follows.
pub fn read_entry_without_check_to_end<S: Storage>(
    storage: &S,
    position: u64,
    i_expected: Index,
) -> (r: Result<(Entry, u64)>)
    ensures
        match r {
            Ok(found) => {
                &&& spec_read_entry_without_check(storage@, position as int, i_expected) == Ok::<
                    EntryView,
                    Detail,
                >(found.0@)
                &&& found.1 == body_end(storage@, position as int) + 12
                &&& found.0.well_formed()
                &&& found.0.enode.meta.address.position == position
            },
            Err(e) => !storage.reliable() || match spec_read_entry_without_check(
                storage@,
                position as int,
                i_expected,
            ) {
                Ok(_) => body_end(storage@, position as int) + 12 > u64::MAX && e
                    == (Detail::DamagedStorage { at: body_end(storage@, position as int) as u64 }),
                Err(x) => e == x,
            },
        },
{
    let entry = read_entry_without_check(storage, position, i_expected)?;
    let end: u64 = position + body_length(&entry);
    if end > u64::MAX - TRAILER_SIZE as u64 {
        return Err(Detail::DamagedStorage { at: end });
    }
    Ok((entry, end + TRAILER_SIZE as u64))
}

/// An entry that has the form of an entry of a storage can be laid out.
pub(crate) proof fn lemma_well_formed_encodable(entry: &Entry)
    requires
        entry.well_formed(),
    ensures
        encodable(entry@),
{
    assert forall|k: int| 0 <= k < entry@.inodes.len() implies 1 <= (
    #[trigger] entry@.inodes[k]).meta.address.j <= INDEX_SIZE && entry@.inodes[k].meta.hash.len()
        == HASH_SIZE by {
        assert(entry@.inodes[k] == entry.inodes@[k]@);
    }
}

/// The number of bytes of the body of `entry`.
pub fn body_length(entry: &Entry) -> (r: u64)
    requires
        entry.spec_body_length() <= u64::MAX,
    ensures
        r == entry.spec_body_length(),
{
    let inodes: u64 = entry.inodes.len() as u64 * INODE_SIZE as u64;
    HEAD_SIZE as u64 + inodes + 4 + entry.enode.payload.len() as u64 + HASH_SIZE as u64
}

/// Reads the entry at `position` and checks it against its trailer: the
/// length that the trailer records has to be the length of the body that
/// was read, and the checksum that it records has to be the checksum of
/// the bytes in front of it.
pub fn read_entry<S: Storage>(storage: &S, position: u64, i_expected: Index) -> (r: Result<Entry>)
    ensures
        entry_outcome(storage.reliable(), r, spec_read_entry(storage@, position as int, i_expected)),
        r matches Ok(entry) ==> position + entry.spec_body_length() == body_end(
            storage@,
            position as int,
        ) && body_end(storage@, position as int) + 12 <= storage@.len() && body_end(
            storage@,
            position as int,
        ) + 12 <= u64::MAX,
        r matches Ok(entry) ==> entry.well_formed() && entry.enode.meta.address == (Address {
            i: entry.enode.meta.address.i,
            j: 0,
            position,
        }),
{
    let ghost b = storage@;
    let entry = read_entry_without_check(storage, position, i_expected)?;
    let length: u64 = body_length(&entry);
    let end: u64 = position + length;
    let field = storage.read(end, 4)?;
    let trailer_offset: u32 = get_u32(field.as_slice(), 0);
    proof {
        assert(field@.subrange(0, 4) =~= b.subrange(end as int, end + 4));
    }
    if length != trailer_offset as u64 {
        return Err(Detail::IncorrectEntryHeadOffset { expected: trailer_offset, actual: length });
    }
    let field = storage.read(end + 4, 8)?;
    let trailer_checksum: u64 = get_u64(field.as_slice(), 0);
    proof {
        assert(field@.subrange(0, 8) =~= b.subrange(end + 4, end + 12));
    }
    let bytes = storage.read(position, trailer_offset as usize + 4)?;
    let actual: u64 = checksum(bytes.as_slice());
    if actual != trailer_checksum {
        return Err(
            Detail::ChecksumVerificationFailed {
                at: position,
                length: length + TRAILER_SIZE as u64,
                expected: trailer_checksum,
                actual,
            },
        );
    }
    Ok(entry)
}

/// The bytes of one inode of an entry.
pub open spec fn inode_bytes(n: INodeView) -> Seq<u8> {
    seq![((n.meta.address.j - 1) as u8) & 0x3fu8] + spec_u64_to_le_bytes(n.left.position)
        + spec_u64_to_le_bytes(n.left.i) + seq![n.left.j] + n.meta.hash
}

/// The bytes of the inodes of an entry, one after the other.
pub open spec fn inodes_bytes(inodes: Seq<INodeView>) -> Seq<u8>
    decreases inodes.len(),
{
    if inodes.len() == 0 {
        Seq::empty()
    } else {
        inodes_bytes(inodes.drop_last()) + inode_bytes(inodes.last())
    }
}

/// The bytes of the body of an entry: all but its trailer.
pub open spec fn body_bytes(e: EntryView) -> Seq<u8> {
    spec_u64_to_le_bytes(e.enode.address.i) + seq![e.inodes.len() as u8] + inodes_bytes(e.inodes)
        + spec_u32_to_le_bytes(e.payload.len() as u32) + e.payload + e.enode.hash
}

/// The bytes of an entry in front of its checksum.
pub open spec fn checked_bytes(e: EntryView) -> Seq<u8> {
    body_bytes(e) + spec_u32_to_le_bytes(body_bytes(e).len() as u32)
}

/// The bytes of an entry.
pub open spec fn entry_bytes(e: EntryView) -> Seq<u8> {
    checked_bytes(e) + spec_u64_to_le_bytes(spec_checksum(checked_bytes(e)))
}

/// Whether an entry can be laid out in bytes: no more than 255 inodes,
/// each of a height from 1 to 64, a payload within the limit, and hash
/// values of the right size.
pub open spec fn encodable(e: EntryView) -> bool {
    &&& e.inodes.len() <= 255
    &&& e.payload.len() <= MAX_PAYLOAD_SIZE
    &&& e.enode.hash.len() == HASH_SIZE
    &&& forall|k: int|
        0 <= k < e.inodes.len() ==> 1 <= (#[trigger] e.inodes[k]).meta.address.j <= INDEX_SIZE
            && e.inodes[k].meta.hash.len() == HASH_SIZE
}

/// The inodes of an entry take 50 bytes each.
pub(crate) proof fn lemma_inodes_bytes_len(inodes: Seq<INodeView>)
    requires
        forall|k: int| 0 <= k < inodes.len() ==> (#[trigger] inodes[k]).meta.hash.len() == HASH_SIZE,
    ensures
        inodes_bytes(inodes).len() == 50 * inodes.len(),
    decreases inodes.len(),
{
    lemma_auto_spec_u64_to_from_le_bytes();
    if inodes.len() > 0 {
        lemma_inodes_bytes_len(inodes.drop_last());
    }
}

/// The body of an entry that can be laid out takes less than `2^32` bytes.
pub(crate) proof fn lemma_body_len(e: EntryView)
    requires
        encodable(e),
    ensures
        body_bytes(e).len() == 9 + 50 * e.inodes.len() + 4 + e.payload.len() + 32,
        body_bytes(e).len() <= u32::MAX,
{
    lemma_auto_spec_u64_to_from_le_bytes();
    lemma_auto_spec_u32_to_from_le_bytes();
    lemma_inodes_bytes_len(e.inodes);
}

/// Lays `e` out in bytes.
pub fn encode_entry(e: &Entry) -> (r: Vec<u8>)
    requires
        encodable(e@),
    ensures
        r@ == entry_bytes(e@),
{
    let mut out: Vec<u8> = Vec::new();
    put_u64(&mut out, e.enode.meta.address.i);
    out.push(e.inodes.len() as u8);
    let ghost head = out@;
    let ghost views = inode_views(e.inodes@);
    let mut k: usize = 0;
    while k < e.inodes.len()
        invariant
            k <= e.inodes@.len(),
            encodable(e@),
            views == inode_views(e.inodes@),
            out@ == head + inodes_bytes(views.subrange(0, k as int)),
        decreases e.inodes@.len() - k,
    {
        let inode = &e.inodes[k];
        let ghost before = out@;
        assert(inode@ == e@.inodes[k as int]);
        out.push((inode.meta.address.j - 1) & (INDEX_SIZE - 1));
        put_u64(&mut out, inode.left.position);
        put_u64(&mut out, inode.left.i);
        out.push(inode.left.j);
        put(&mut out, inode.meta.hash.value.as_slice());
        k = k + 1;
        proof {
            let done = views.subrange(0, k as int);
            assert(done.drop_last() =~= views.subrange(0, k - 1));
            assert(done.last() == inode@);
            assert(out@ =~= before + inode_bytes(inode@));
            assert(out@ =~= head + inodes_bytes(done));
        }
    }
    proof {
        assert(views.subrange(0, k as int) =~= views);
        lemma_body_len(e@);
    }
    put_u32(&mut out, e.enode.payload.len() as u32);
    put(&mut out, e.enode.payload.as_slice());
    put(&mut out, e.enode.meta.hash.value.as_slice());
    assert(out@ =~= body_bytes(e@));
    let length: u32 = out.len() as u32;
    put_u32(&mut out, length);
    let sum: u64 = checksum(out.as_slice());
    put_u64(&mut out, sum);
    out
}

/// Writes `e` at the end of `storage` and returns the number of bytes
/// written.
pub fn write_entry<S: Storage>(storage: &mut S, e: &Entry) -> (r: Result<usize>)
    requires
        encodable(e@),
    ensures
        final(storage).reliable() == old(storage).reliable(),
        r matches Ok(n) ==> final(storage)@ == old(storage)@ + entry_bytes(e@) && n == entry_bytes(
            e@,
        ).len() && final(storage)@.len() <= u64::MAX,
        r is Err ==> old(storage)@.is_prefix_of(final(storage)@),
        old(storage).reliable() && old(storage)@.len() + entry_bytes(e@).len() <= u64::MAX ==> r
            is Ok,
{
    let bytes = encode_entry(e);
    match storage.write(bytes.as_slice()) {
        Ok(_) => Ok(bytes.len()),
        Err(e) => Err(e),
    }
}

/// Whether the addresses in `e` are those of the entry at `p`: the leaf
/// and every inode have the index of the entry and stand at `p`, and the
/// right child of each inode is the inode below it, or the leaf for the
/// lowest.
pub open spec fn placed(e: EntryView, p: int) -> bool {
    &&& 0 <= p <= u64::MAX
    &&& e.enode.address == (Address { i: e.enode.address.i, j: 0, position: p as u64 })
    &&& forall|k: int|
        #![trigger e.inodes[k]]
        0 <= k < e.inodes.len() ==> {
            &&& e.inodes[k].meta.address.i == e.enode.address.i
            &&& e.inodes[k].meta.address.position == p as u64
            &&& e.inodes[k].right.i == e.enode.address.i
            &&& e.inodes[k].right.position == p as u64
        }
    &&& forall|k: int|
        0 <= k < e.inodes.len() ==> #[trigger] height_below(e.inodes, k) == e.inodes[k].right.j
}

/// The height of the inode below inode `k`, 0 for the lowest.
pub open spec fn height_below(inodes: Seq<INodeView>, k: int) -> u8 {
    if k == 0 {
        0
    } else {
        inodes[k - 1].meta.address.j
    }
}

/// The bytes of inode `k` stand 50 bytes behind those of the inode before.
pub(crate) proof fn lemma_inode_block(inodes: Seq<INodeView>, k: int)
    requires
        forall|m: int| 0 <= m < inodes.len() ==> (#[trigger] inodes[m]).meta.hash.len() == HASH_SIZE,
        0 <= k < inodes.len(),
    ensures
        inodes_bytes(inodes).len() == 50 * inodes.len(),
        inodes_bytes(inodes).subrange(50 * k, 50 * k + 50) == inode_bytes(inodes[k]),
    decreases inodes.len(),
{
    lemma_auto_spec_u64_to_from_le_bytes();
    lemma_inodes_bytes_len(inodes);
    lemma_inodes_bytes_len(inodes.drop_last());
    let last = inodes.len() - 1;
    if k == last {
        assert(inodes_bytes(inodes).subrange(50 * k, 50 * k + 50) =~= inode_bytes(inodes[k]));
    } else {
        lemma_inode_block(inodes.drop_last(), k);
        assert(inodes_bytes(inodes).subrange(50 * k, 50 * k + 50) =~= inodes_bytes(
            inodes.drop_last(),
        ).subrange(50 * k, 50 * k + 50));
    }
}

/// What the 50 bytes of an inode hold.
pub(crate) proof fn lemma_inode_fields(n: INodeView)
    requires
        n.meta.hash.len() == HASH_SIZE,
        1 <= n.meta.address.j <= INDEX_SIZE,
    ensures
        ({
            let x = inode_bytes(n);
            &&& x.len() == 50
            &&& height_of_byte(x[0]) == n.meta.address.j
            &&& spec_u64_from_le_bytes(x.subrange(1, 9)) == n.left.position
            &&& spec_u64_from_le_bytes(x.subrange(9, 17)) == n.left.i
            &&& x[17] == n.left.j
            &&& x.subrange(18, 50) == n.meta.hash
        }),
{
    lemma_auto_spec_u64_to_from_le_bytes();
    let x = inode_bytes(n);
    let j = n.meta.address.j;
    assert(x.subrange(1, 9) =~= spec_u64_to_le_bytes(n.left.position));
    assert(x.subrange(9, 17) =~= spec_u64_to_le_bytes(n.left.i));
    assert(x.subrange(18, 50) =~= n.meta.hash);
    let low: u8 = (j - 1) as u8;
    let b: u8 = low & 0x3fu8;
    assert(x[0] == b);
    assert(low <= 63u8 ==> (low & 0x3fu8) & 0x3fu8 == low) by (bit_vector);
}

/// A part of the bytes of an entry that stand at `p` in `b`.
proof fn lemma_part(b: Seq<u8>, p: int, bytes: Seq<u8>, from: int, to: int)
    requires
        0 <= p,
        p + bytes.len() <= b.len(),
        b.subrange(p, p + bytes.len()) == bytes,
        0 <= from <= to <= bytes.len(),
    ensures
        b.subrange(p + from, p + to) == bytes.subrange(from, to),
{
    assert forall|k: int| 0 <= k < to - from implies b.subrange(p + from, p + to)[k]
        == bytes.subrange(from, to)[k] by {
        assert(b.subrange(p, p + bytes.len())[from + k] == b[p + from + k]);
    }
    assert(b.subrange(p + from, p + to) =~= bytes.subrange(from, to));
}

/// The parts that the bytes of an entry in front of its checksum are made
/// of.
pub(crate) proof fn lemma_entry_parts(e: EntryView)
    requires
        encodable(e),
    ensures
        ({
            let x = checked_bytes(e);
            let c = e.inodes.len() as int;
            let n = e.payload.len() as int;
            let q = 9 + 50 * c;
            &&& x.len() == q + 4 + n + 32 + 4
            &&& entry_bytes(e).len() == x.len() + 8
            &&& body_bytes(e).len() == q + 4 + n + 32
            &&& x.subrange(0, 8) == spec_u64_to_le_bytes(e.enode.address.i)
            &&& x[8] == c as u8
            &&& x.subrange(9, q) == inodes_bytes(e.inodes)
            &&& x.subrange(q, q + 4) == spec_u32_to_le_bytes(n as u32)
            &&& x.subrange(q + 4, q + 4 + n) == e.payload
            &&& x.subrange(q + 4 + n, q + 4 + n + 32) == e.enode.hash
            &&& x.subrange(q + 36 + n, q + 40 + n) == spec_u32_to_le_bytes((q + 36 + n) as u32)
        }),
{
    lemma_auto_spec_u64_to_from_le_bytes();
    lemma_auto_spec_u32_to_from_le_bytes();
    lemma_body_len(e);
    let x = checked_bytes(e);
    let c = e.inodes.len() as int;
    let n = e.payload.len() as int;
    let q = 9 + 50 * c;
    let body = body_bytes(e);
    assert(body.subrange(0, 8) =~= spec_u64_to_le_bytes(e.enode.address.i));
    assert(body[8] == c as u8);
    assert(body.subrange(9, q) =~= inodes_bytes(e.inodes));
    assert(body.subrange(q, q + 4) =~= spec_u32_to_le_bytes(n as u32));
    assert(body.subrange(q + 4, q + 4 + n) =~= e.payload);
    assert(body.subrange(q + 4 + n, q + 4 + n + 32) =~= e.enode.hash);
    assert(x.subrange(0, q + 36 + n) =~= body);
    assert(x.subrange(0, 8) =~= body.subrange(0, 8));
    assert(x.subrange(9, q) =~= body.subrange(9, q));
    assert(x.subrange(q, q + 4) =~= body.subrange(q, q + 4));
    assert(x.subrange(q + 4, q + 4 + n) =~= body.subrange(q + 4, q + 4 + n));
    assert(x.subrange(q + 4 + n, q + 4 + n + 32) =~= body.subrange(q + 4 + n, q + 4 + n + 32));
    assert(x.subrange(q + 36 + n, q + 40 + n) =~= spec_u32_to_le_bytes((q + 36 + n) as u32));
}

/// Where the bytes of an entry stand at `p`, its inodes are read back from
/// there.
pub(crate) proof fn lemma_inodes_roundtrip(b: Seq<u8>, p: int, e: EntryView)
    requires
        encodable(e),
        placed(e, p),
        p + checked_bytes(e).len() <= b.len(),
        b.subrange(p, p + checked_bytes(e).len()) == checked_bytes(e),
    ensures
        u64_at(b, p) == e.enode.address.i,
        inode_count_at(b, p) == e.inodes.len(),
        inodes_at(b, p) == e.inodes,
        spec_read_inodes(b, p) == Ok::<(Index, Seq<INodeView>), Detail>(
            (e.enode.address.i, e.inodes),
        ),
{
    lemma_auto_spec_u64_to_from_le_bytes();
    lemma_entry_parts(e);
    let x = checked_bytes(e);
    let c = e.inodes.len() as int;
    lemma_part(b, p, x, 0, 8);
    lemma_part(b, p, x, 8, 9);
    assert(b[p + 8] == b.subrange(p + 8, p + 9)[0]);
    assert(x[8] == x.subrange(8, 9)[0]);
    assert(u64_at(b, p) == e.enode.address.i);
    assert forall|k: int| 0 <= k < c implies inode_at(b, p, k) == e.inodes[k] by {
        lemma_inode_at(b, p, e, k);
    }
    assert(inodes_at(b, p) =~= e.inodes);
}

/// What is read where the 50 bytes of the inode `n` stand at `at`.
proof fn lemma_block_decodes(b: Seq<u8>, at: int, n: INodeView)
    requires
        n.meta.hash.len() == HASH_SIZE,
        1 <= n.meta.address.j <= INDEX_SIZE,
        0 <= at,
        at + 50 <= b.len(),
        b.subrange(at, at + 50) == inode_bytes(n),
    ensures
        height_of_byte(b[at]) == n.meta.address.j,
        u64_at(b, at + 1) == n.left.position,
        u64_at(b, at + 9) == n.left.i,
        b[at + 17] == n.left.j,
        b.subrange(at + 18, at + 50) == n.meta.hash,
{
    lemma_inode_fields(n);
    let here = b.subrange(at, at + 50);
    assert(b[at] == here[0]);
    assert(b[at + 17] == here[17]);
    assert(b.subrange(at + 1, at + 9) =~= here.subrange(1, 9));
    assert(b.subrange(at + 9, at + 17) =~= here.subrange(9, 17));
    assert(b.subrange(at + 18, at + 50) =~= here.subrange(18, 50));
}

/// Where the bytes of an entry stand at `p`, the bytes of its inode `k`
/// stand at `p + 9 + 50 * k`.
proof fn lemma_block_at(b: Seq<u8>, p: int, e: EntryView, k: int)
    requires
        encodable(e),
        0 <= p,
        p + checked_bytes(e).len() <= b.len(),
        b.subrange(p, p + checked_bytes(e).len()) == checked_bytes(e),
        0 <= k < e.inodes.len(),
    ensures
        p + 9 + 50 * k + 50 <= b.len(),
        b.subrange(p + 9 + 50 * k, p + 9 + 50 * k + 50) == inode_bytes(e.inodes[k]),
{
    lemma_entry_parts(e);
    let x = checked_bytes(e);
    let c = e.inodes.len() as int;
    let base = 9 + 50 * k;
    lemma_inode_block(e.inodes, k);
    assert(x.subrange(base, base + 50) =~= x.subrange(9, 9 + 50 * c).subrange(
        50 * k,
        50 * k + 50,
    ));
    lemma_part(b, p, x, base, base + 50);
}

/// The inode `k` of the entry at `p` is made of what is read at its place.
proof fn lemma_inode_assembled(b: Seq<u8>, p: int, k: int, n: INodeView, below: u8, i: u64)
    requires
        0 <= p <= u64::MAX,
        0 <= k,
        u64_at(b, p) == i,
        n.meta.address == (Address { i, j: n.meta.address.j, position: p as u64 }),
        n.right == (Address { i, j: below, position: p as u64 }),
        height_of_byte(b[p + 9 + 50 * k]) == n.meta.address.j,
        u64_at(b, p + 9 + 50 * k + 1) == n.left.position,
        u64_at(b, p + 9 + 50 * k + 9) == n.left.i,
        b[p + 9 + 50 * k + 17] == n.left.j,
        b.subrange(p + 9 + 50 * k + 18, p + 9 + 50 * k + 50) == n.meta.hash,
        k == 0 ==> below == 0,
        k > 0 ==> height_of_byte(b[p + 9 + 50 * k - 50]) == below,
    ensures
        inode_at(b, p, k) == n,
{
    reveal(inode_at);
}

/// Where the bytes of an entry stand at `p`, its inode `k` is read back
/// from there.
proof fn lemma_inode_at(b: Seq<u8>, p: int, e: EntryView, k: int)
    requires
        encodable(e),
        placed(e, p),
        p + checked_bytes(e).len() <= b.len(),
        b.subrange(p, p + checked_bytes(e).len()) == checked_bytes(e),
        0 <= k < e.inodes.len(),
        u64_at(b, p) == e.enode.address.i,
    ensures
        inode_at(b, p, k) == e.inodes[k],
{
    let base = p + 9 + 50 * k;
    let n = e.inodes[k];
    lemma_block_at(b, p, e, k);
    lemma_block_decodes(b, base, n);
    assert(height_below(e.inodes, k) == n.right.j);
    if k > 0 {
        let below = e.inodes[k - 1];
        lemma_block_at(b, p, e, k - 1);
        lemma_block_decodes(b, base - 50, below);
        lemma_inode_assembled(b, p, k, n, below.meta.address.j, e.enode.address.i);
    } else {
        lemma_inode_assembled(b, p, k, n, 0, e.enode.address.i);
    }
}

/// Where the bytes of an entry in front of its checksum stand at `p`, the
/// body of the entry is read back from there, and its trailer records the
/// length of the body.
pub(crate) proof fn lemma_roundtrip_body(b: Seq<u8>, p: int, e: EntryView, expected: Index)
    requires
        encodable(e),
        placed(e, p),
        p + checked_bytes(e).len() <= b.len(),
        b.subrange(p, p + checked_bytes(e).len()) == checked_bytes(e),
        expected == 0 || expected == e.enode.address.i,
    ensures
        spec_read_inodes(b, p) == Ok::<(Index, Seq<INodeView>), Detail>(
            (e.enode.address.i, e.inodes),
        ),
        spec_read_entry_without_check(b, p, expected) == Ok::<EntryView, Detail>(e),
        body_end(b, p) == p + body_bytes(e).len(),
        checked_bytes(e).len() == body_bytes(e).len() + 4,
        u32_at(b, body_end(b, p)) == body_bytes(e).len(),
        b.subrange(p, body_end(b, p) + 4) == checked_bytes(e),
{
    lemma_auto_spec_u64_to_from_le_bytes();
    lemma_auto_spec_u32_to_from_le_bytes();
    lemma_entry_parts(e);
    lemma_inodes_roundtrip(b, p, e);
    let x = checked_bytes(e);
    let c = e.inodes.len() as int;
    let n = e.payload.len() as int;
    let q = 9 + 50 * c;
    lemma_part(b, p, x, q, q + 4);
    let raw = n as u32;
    assert(raw <= 0x7FFF_FFFFu32 ==> raw & 0x7FFF_FFFFu32 == raw) by (bit_vector);
    assert(payload_len_at(b, p) == n);
    lemma_part(b, p, x, q + 4, q + 4 + n);
    lemma_part(b, p, x, q + 4 + n, q + 36 + n);
    assert(entry_at(b, p) == e);
    lemma_part(b, p, x, q + 36 + n, q + 40 + n);
}

/// Where the bytes of an entry stand at `p`, the entry is read back from
/// there and passes its check.
pub(crate) proof fn lemma_roundtrip(b: Seq<u8>, p: int, e: EntryView, expected: Index)
    requires
        encodable(e),
        placed(e, p),
        p + entry_bytes(e).len() <= b.len(),
        b.subrange(p, p + entry_bytes(e).len()) == entry_bytes(e),
        expected == 0 || expected == e.enode.address.i,
    ensures
        spec_read_inodes(b, p) == Ok::<(Index, Seq<INodeView>), Detail>(
            (e.enode.address.i, e.inodes),
        ),
        spec_read_entry_without_check(b, p, expected) == Ok::<EntryView, Detail>(e),
        spec_read_entry(b, p, expected) == Ok::<EntryView, Detail>(e),
        body_end(b, p) == p + body_bytes(e).len(),
        entry_bytes(e).len() == body_bytes(e).len() + 12,
        u32_at(b, body_end(b, p)) == body_bytes(e).len(),
        u64_at(b, body_end(b, p) + 4) == spec_checksum(checked_bytes(e)),
        b.subrange(p, body_end(b, p) + 4) == checked_bytes(e),
{
    lemma_auto_spec_u64_to_from_le_bytes();
    lemma_entry_parts(e);
    let x = entry_bytes(e);
    let w = checked_bytes(e).len() as int;
    assert(x.subrange(0, w) =~= checked_bytes(e));
    assert(x.subrange(w, w + 8) =~= spec_u64_to_le_bytes(spec_checksum(checked_bytes(e))));
    lemma_part(b, p, x, 0, w);
    lemma_part(b, p, x, w, w + 8);
    lemma_roundtrip_body(b, p, e, expected);
}

} // verus!
