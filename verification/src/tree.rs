//! The hash tree on a storage: opening it, appending to it, and asking it.

use vstd::prelude::*;
use vstd::slice::*;
use crate::entry::{
    body_end, entry_bytes, inode_views, is_version_compatible, read_entry,
    spec_read_entry, write_entry, Address, ENode, Entry, EntryView, INode, INodeView, MetaInfo,
    MetaInfoView,
    MAX_PAYLOAD_SIZE, STORAGE_IDENTIFIER, STORAGE_VERSION, TRAILER_SIZE,
};
use crate::error::{Detail, Result};
use crate::hash::{digest, spec_combine};
use crate::history::{
    authentic, count_of, entry_of, header, last_entry_of, lemma_appended,
    lemma_planned, lemma_positions, position_of, spine_lo, storage_bytes, Values,
};
use crate::model::{height, spec_inodes, Index, NthGenHashTree, INDEX_SIZE};
use crate::history::{tree_hash, tree_node};
use crate::theorems::lemma_root_node;
use crate::query::{outcome, spec_get_node, spec_n, Query};
use crate::node::{Node, NodeView};
use crate::storage::Storage;
use crate::wire::{get_u32, u32_at};

verus! {

/// What opening a storage that holds `b` gives: the last entry, `None` for
/// a storage that is empty or holds the header alone, or the error.
///
/// A storage of one to three bytes, or one that begins with other bytes
/// than the identifier, is no hash tree. A later version than this library
/// knows cannot be read. Behind the header the last twelve bytes are the
/// trailer of the last entry: the entry begins as far in front of the
/// trailer as the trailer says, has to pass its check there, and has to
/// end where the storage ends.
pub open spec fn spec_open(b: Seq<u8>) -> core::result::Result<Option<EntryView>, Detail> {
    let len = b.len() as int;
    if len == 0 {
        Ok(None)
    } else if len < 4 || b[0] != 0x01u8 || b[1] != 0xF3u8 || b[2] != 0x33u8 {
        Err(Detail::FileIsNotContentsOfLMTHTree)
    } else if b[3] > STORAGE_VERSION {
        Err(Detail::IncompatibleVersion(b[3] >> 4, b[3] & 0x0Fu8))
    } else if len == 4 {
        Ok(None)
    } else if len < 16 {
        Err(Detail::DamagedStorage { at: len as u64 })
    } else if len - 12 - u32_at(b, len - 12) < 4 {
        Err(Detail::DamagedStorage { at: (len - 12) as u64 })
    } else {
        let p = len - 12 - u32_at(b, len - 12);
        match spec_read_entry(b, p, 0) {
            Err(e) => Err(e),
            Ok(entry) => if body_end(b, p) + 12 != len {
                Err(Detail::DamagedStorage { at: p as u64 })
            } else {
                Ok(Some(entry))
            },
        }
    }
}

/// The root of the generation whose last entry is `e`: its highest inode,
/// or its leaf where it has no inode.
pub open spec fn root_of(e: EntryView) -> NodeView {
    let meta = if e.inodes.len() > 0 {
        e.inodes.last().meta
    } else {
        e.enode
    };
    NodeView { i: meta.address.i, j: meta.address.j, hash: meta.hash }
}

/// The inodes that an append builds for the first `k` nodes of `plan`,
/// which lists the inodes of the new entry from the root down: from the
/// lowest up, each joins the node on its left, which is looked up on the
/// storage `b`, with what is below it in the new entry, which has the hash
/// value `below`. A node on the left that is not found is an inconsistency.
pub open spec fn spec_join(
    b: Seq<u8>,
    last: Option<EntryView>,
    plan: Seq<crate::model::INode>,
    k: nat,
    position: u64,
    below: Seq<u8>,
) -> core::result::Result<Seq<INodeView>, Detail>
    decreases k,
{
    if k == 0 {
        Ok(Seq::empty())
    } else {
        let n = plan[k - 1];
        match spec_get_node(b, last, n.left.i, n.left.j) {
            Ok(Some(left)) => {
                let hash = spec_combine(left.hash, below);
                let inode = INodeView {
                    meta: MetaInfoView {
                        address: Address { i: n.node.i, j: n.node.j, position },
                        hash,
                    },
                    left: left.address,
                    right: Address { i: n.right.i, j: n.right.j, position },
                };
                match spec_join(b, last, plan, (k - 1) as nat, position, hash) {
                    Ok(rest) => Ok(seq![inode] + rest),
                    Err(e) => Err(e),
                }
            },
            Ok(None) => Err(Detail::InternalStateInconsistency { i: n.left.i, j: n.left.j }),
            Err(e) => Err(e),
        }
    }
}

/// The inodes `done` in front of those that are still to come.
pub open spec fn joined_so_far(
    done: Seq<INodeView>,
    rest: core::result::Result<Seq<INodeView>, Detail>,
) -> core::result::Result<Seq<INodeView>, Detail> {
    match rest {
        Ok(more) => Ok(done + more),
        Err(e) => Err(e),
    }
}

/// The entry that an append of `value` writes to a storage that holds `b`
/// and has `last` as its last entry, or the error that refuses it: the value
/// is too large, the index of the root cannot be counted on, or a node on
/// the left of a new inode is not found.
pub open spec fn spec_append(
    b: Seq<u8>,
    last: Option<EntryView>,
    value: Seq<u8>,
) -> core::result::Result<EntryView, Detail> {
    let position = b.len() as u64;
    let n = match last {
        Some(e) => root_of(e).i,
        None => 0,
    };
    if value.len() > MAX_PAYLOAD_SIZE {
        Err(Detail::TooLargePayload { size: value.len() as usize })
    } else if n == u64::MAX {
        Err(Detail::DamagedStorage { at: position })
    } else {
        let i = (n + 1) as u64;
        let plan = spec_inodes(1, i as nat);
        match spec_join(b, last, plan, plan.len(), position, digest(value)) {
            Ok(inodes) => Ok(
                EntryView {
                    enode: MetaInfoView {
                        address: Address { i, j: 0, position },
                        hash: digest(value),
                    },
                    payload: value,
                    inodes,
                },
            ),
            Err(e) => Err(e),
        }
    }
}

/// Whether the root of the generation whose last entry is `last` has the
/// index of that entry, which is the number of values.
pub open spec fn rooted(last: Option<EntryView>) -> bool {
    last matches Some(e) ==> root_of(e).i == e.enode.address.i
}

/// The highest inode of an entry that has the form of an entry has the
/// index of the entry.
pub(crate) proof fn lemma_rooted(e: Entry)
    requires
        e.well_formed(),
    ensures
        rooted(Some(e@)),
{
    if e.inodes@.len() > 0 {
        assert(e@.inodes.last() == e.inodes@.last()@);
    }
}

/// The last entry of a storage together with the shape of its generation.
#[derive(PartialEq, Eq, Debug)]
pub struct CacheInner {
    last_entry: Entry,
    model: NthGenHashTree,
}

/// What is kept in memory of a storage: its last entry, if it has one.
#[derive(PartialEq, Eq, Debug)]
pub struct Cache(Option<CacheInner>);

/// The root of a generation: an inode, a single leaf, or nothing.
#[derive(Eq, PartialEq, Debug)]
pub enum RootRef<'a> {
    Empty,
    INode(&'a INode),
    ENode(&'a ENode),
}

impl Cache {
    #[verifier::type_invariant]
    spec fn inv(&self) -> bool {
        self.0 matches Some(inner) ==> inner.last_entry.well_formed() && inner.model.spec_n()
            == inner.last_entry.enode.meta.address.i
    }

    /// What is kept has the root that it is counted by.
    proof fn lemma_kept_rooted(&self)
        requires
            self.inv(),
        ensures
            rooted(self@),
    {
        if let Some(inner) = self.0 {
            lemma_rooted(inner.last_entry);
        }
    }

    /// The last entry, as a mathematical value.
    pub open spec fn view(&self) -> Option<EntryView> {
        match self.spec_last_entry() {
            Some(e) => Some(e@),
            None => None,
        }
    }

    /// The last entry itself.
    pub closed spec fn spec_last_entry(&self) -> Option<Entry> {
        match self.0 {
            Some(inner) => Some(inner.last_entry),
            None => None,
        }
    }

    pub fn new(last_entry: Entry, model: NthGenHashTree) -> (r: Cache)
        requires
            last_entry.well_formed(),
            model.spec_n() == last_entry.enode.meta.address.i,
        ensures
            r.spec_last_entry() == Some(last_entry),
            r@ == Some(last_entry@),
    {
        Cache(Some(CacheInner { last_entry, model }))
    }

    pub fn from_entry(last_entry: Option<Entry>) -> (r: Cache)
        requires
            last_entry matches Some(e) ==> e.well_formed(),
        ensures
            r.spec_last_entry() == last_entry,
            r@ == match last_entry {
                Some(e) => Some(e@),
                None => None,
            },
    {
        let inner = if let Some(last_entry) = last_entry {
            let n: Index = last_entry.enode.meta.address.i;
            let model = NthGenHashTree::new(n);
            Some(CacheInner { last_entry, model })
        } else {
            None
        };
        Cache(inner)
    }

    pub fn last_entry(&self) -> (r: Option<&Entry>)
        ensures
            r == match self.spec_last_entry() {
                Some(e) => Some(&e),
                None => None,
            },
            r matches Some(e) ==> e.well_formed(),
    {
        proof {
            use_type_invariant(self);
        }
        if let Some(CacheInner { last_entry, .. }) = &self.0 {
            Some(last_entry)
        } else {
            None
        }
    }

    /// The shape of the generation of the last entry.
    pub fn model(&self) -> (r: Option<&NthGenHashTree>)
        ensures
            r is Some <==> self@ is Some,
            r matches Some(model) ==> model.spec_n() == self@->0.enode.address.i,
    {
        proof {
            use_type_invariant(self);
        }
        if let Some(CacheInner { model, .. }) = &self.0 {
            Some(model)
        } else {
            None
        }
    }

    /// The root of the generation: its highest inode, or its leaf where it
    /// has no inode.
    pub fn root(&self) -> (r: Option<Node>)
        ensures
            match self@ {
                Some(e) => r matches Some(node) && node@ == root_of(e),
                None => r is None,
            },
            rooted(self@),
    {
        match self.last_entry() {
            Some(e) => {
                proof {
                    lemma_rooted(*e);
                }
                let n: usize = e.inodes.len();
                let root: &MetaInfo = if n > 0 {
                    &e.inodes[n - 1].meta
                } else {
                    &e.enode.meta
                };
                proof {
                    if n > 0 {
                        assert(e@.inodes.last() == e.inodes@[n - 1]@);
                    }
                }
                Some(Node::new(root.address.i, root.address.j, root.hash))
            },
            None => None,
        }
    }

    pub fn root_ref(&self) -> (r: RootRef<'_>)
        ensures
            self.spec_last_entry() matches Some(e) ==> e.well_formed(),
            match self.spec_last_entry() {
                Some(e) => if e.inodes@.len() > 0 {
                    r == RootRef::INode(&e.inodes@.last())
                } else {
                    r == RootRef::ENode(&e.enode)
                },
                None => r == RootRef::Empty,
            },
    {
        match self.last_entry() {
            Some(e) => {
                let n: usize = e.inodes.len();
                if n > 0 {
                    RootRef::INode(&e.inodes[n - 1])
                } else {
                    RootRef::ENode(&e.enode)
                }
            },
            None => RootRef::Empty,
        }
    }

    /// The number of values: the index of the last entry, or 0.
    pub fn n(&self) -> (r: Index)
        ensures
            r == match self@ {
                Some(e) => e.enode.address.i,
                None => 0,
            },
            rooted(self@),
    {
        match self.last_entry() {
            Some(e) => {
                proof {
                    lemma_rooted(*e);
                }
                e.enode.meta.address.i
            },
            None => 0,
        }
    }
}

/// A hash tree on the storage `S`.
pub struct LMTHT<S: Storage> {
    storage: S,
    latest_cache: Cache,
    values: Ghost<Values>,
}

impl<S: Storage> LMTHT<S> {
    /// The bytes of the storage.
    pub closed spec fn bytes(&self) -> Seq<u8> {
        self.storage@
    }

    /// The last entry of the storage, which is kept in memory.
    pub closed spec fn last_entry(&self) -> Option<EntryView> {
        self.latest_cache@
    }

    /// Whether the device behind the storage never fails.
    pub closed spec fn reliable(&self) -> bool {
        self.storage.reliable()
    }

    /// The values that this tree has been given, where it is authentic.
    pub closed spec fn values(&self) -> Values {
        self.values@
    }

    /// Whether the storage is what the appends of `values()` give, and the
    /// last entry in memory is the last entry of that storage.
    pub open spec fn is_authentic(&self) -> bool {
        &&& authentic(self.bytes(), self.values())
        &&& self.last_entry() == last_entry_of(self.values())
    }

    /// Opens the hash tree that `storage` holds. An empty storage becomes a
    /// tree without values: the header is written to it.
    pub fn new(storage: S) -> (r: Result<LMTHT<S>>)
        ensures
            match spec_open(storage@) {
                Ok(tail) => {
                    &&& storage.reliable() && storage@.len() <= u64::MAX ==> r is Ok
                    &&& r matches Ok(db) ==> {
                        &&& db.last_entry() == tail
                        &&& db.reliable() == storage.reliable()
                        &&& db.bytes() == if storage@.len() == 0 {
                            header()
                        } else {
                            storage@
                        }
                    }
                },
                Err(e) => r matches Err(x) && (storage.reliable() && storage@.len() <= u64::MAX
                    ==> x == e),
            },
            forall|vs: Values| #[trigger]
                authentic(storage@, vs) ==> match r {
                    Ok(db) => db.is_authentic() && db.values() == vs && db.bytes() == storage@,
                    Err(_) => !storage.reliable(),
                },
            storage@.len() == 0 ==> (r matches Ok(db) ==> db.is_authentic() && db.values()
                == Seq::<Seq<u8>>::empty()),
            r matches Ok(db) ==> rooted(db.last_entry()),
    {
        let mut storage = storage;
        let ghost b = storage@;
        proof {
            assert forall|vs: Values| #[trigger] authentic(b, vs) implies spec_open(b) is Ok && 0
                < b.len() <= u64::MAX by {
                crate::history::lemma_open_authentic(b, vs);
                crate::history::lemma_header(vs, vs.len());
                crate::history::lemma_upto_len(vs, vs.len());
            }
        }
        let length: u64 = storage.length()?;
        if length == 0 {
            let id: [u8; 4] = [
                STORAGE_IDENTIFIER[0],
                STORAGE_IDENTIFIER[1],
                STORAGE_IDENTIFIER[2],
                STORAGE_VERSION,
            ];
            storage.write(id.as_slice())?;
            proof {
                assert(storage@ =~= header());
                crate::history::lemma_empty_authentic();
            }
            return Ok(Self::opened(storage, None));
        }
        if length < 4 {
            return Err(Detail::FileIsNotContentsOfLMTHTree);
        }
        let head = storage.read(0, 4)?;
        if head[0] != STORAGE_IDENTIFIER[0] || head[1] != STORAGE_IDENTIFIER[1] || head[2]
            != STORAGE_IDENTIFIER[2] {
            return Err(Detail::FileIsNotContentsOfLMTHTree);
        }
        if !is_version_compatible(head[3]) {
            return Err(Detail::IncompatibleVersion(head[3] >> 4, head[3] & 0x0F));
        }
        if length == 4 {
            return Ok(Self::opened(storage, None));
        }
        let tail = Self::read_tail(&storage, length)?;
        Ok(Self::opened(storage, Some(tail)))
    }

    /// Reads the last entry of a storage of `length` bytes that holds more
    /// than its header.
    fn read_tail(storage: &S, length: u64) -> (r: Result<Entry>)
        requires
            length == storage@.len(),
            length > 4,
            spec_open(storage@.subrange(0, 4)) == Ok::<Option<EntryView>, Detail>(None),
        ensures
            match spec_open(storage@) {
                Ok(tail) => (storage.reliable() ==> r is Ok) && (r matches Ok(e) ==> tail == Some(
                    e@,
                ) && e.well_formed()),
                Err(e) => r matches Err(x) && (storage.reliable() ==> x == e),
            },
    {
        let ghost b = storage@;
        if length < 4 + TRAILER_SIZE as u64 {
            return Err(Detail::DamagedStorage { at: length });
        }
        let field = storage.read(length - TRAILER_SIZE as u64, 4)?;
        let offset: u32 = get_u32(field.as_slice(), 0);
        proof {
            assert(field@.subrange(0, 4) =~= b.subrange(length - 12, length - 8));
        }
        if length - TRAILER_SIZE as u64 - 4 < offset as u64 {
            return Err(Detail::DamagedStorage { at: length - TRAILER_SIZE as u64 });
        }
        let position: u64 = length - TRAILER_SIZE as u64 - offset as u64;
        let entry = read_entry(storage, position, 0)?;
        if offset as u64 != crate::entry::body_length(&entry) {
            return Err(Detail::DamagedStorage { at: position });
        }
        Ok(entry)
    }

    /// The tree on `storage` whose last entry is `tail`.
    fn opened(storage: S, tail: Option<Entry>) -> (r: LMTHT<S>)
        requires
            tail matches Some(e) ==> e.well_formed(),
            spec_open(storage@) == Ok::<Option<EntryView>, Detail>(
                match tail {
                    Some(e) => Some(e@),
                    None => None,
                },
            ),
        ensures
            r.storage == storage,
            r.latest_cache@ == match tail {
                Some(e) => Some(e@),
                None => None,
            },
            rooted(r.latest_cache@),
            forall|vs: Values| #[trigger]
                authentic(storage@, vs) ==> r.is_authentic() && r.values() == vs,
    {
        proof {
            if tail is Some {
                lemma_rooted(tail->0);
            }
        }
        let ghost bytes = storage@;
        let values: Ghost<Values> = Ghost(choose|vs: Values| authentic(bytes, vs));
        let latest_cache = Cache::from_entry(tail);
        let r = LMTHT { storage, latest_cache, values };
        proof {
            assert forall|vs: Values| #[trigger] authentic(bytes, vs) implies r.is_authentic()
                && r.values() == vs by {
                crate::history::lemma_open_authentic(bytes, values@);
                crate::theorems::theorem_history_unique(bytes, values@, vs);
            }
        }
        r
    }

    /// The root of the tree, or `None` where it holds no value.
    pub fn root(&self) -> (r: Option<Node>)
        ensures
            match self.last_entry() {
                Some(e) => r matches Some(node) && node@ == root_of(e),
                None => r is None,
            },
            r matches Some(node) ==> node.i == spec_n(self.last_entry()),
            self.is_authentic() ==> match r {
                Some(node) => self.values().len() > 0 && node@ == tree_node(
                    self.values(),
                    1,
                    self.values().len(),
                ),
                None => self.values().len() == 0,
            },
    {
        proof {
            if self.is_authentic() && self.values@.len() > 0 {
                lemma_root_node(self.values@);
            }
        }
        self.latest_cache.root()
    }

    /// The number of values that the tree holds.
    pub fn n(&self) -> (r: Index)
        ensures
            r == spec_n(self.last_entry()),
            rooted(self.last_entry()),
            self.is_authentic() ==> r == self.values().len(),
    {
        proof {
            if self.is_authentic() && self.values@.len() > 0 {
                crate::query::lemma_cached_root(
                    self.values@,
                    self.latest_cache.spec_last_entry()->0,
                );
            }
        }
        self.latest_cache.n()
    }

    /// The height of the tree; 0 where it holds no value.
    pub fn height(&self) -> (r: u8)
        ensures
            r == match self.last_entry() {
                Some(e) => root_of(e).j,
                None => 0,
            },
            self.is_authentic() ==> r == height(self.values().len()),
    {
        proof {
            if self.is_authentic() && self.values@.len() > 0 {
                lemma_root_node(self.values@);
                crate::model::lemma_height_max(self.values@.len());
            }
        }
        match self.root() {
            Some(root) => root.j,
            None => 0,
        }
    }

    /// The hash value of the root, or `None` where the tree holds no value.
    pub fn root_hash(&self) -> (r: Option<crate::hash::Hash>)
        ensures
            match self.last_entry() {
                Some(e) => r matches Some(hash) && hash@ == root_of(e).hash,
                None => r is None,
            },
            self.is_authentic() ==> match r {
                Some(hash) => self.values().len() > 0 && hash@ == tree_hash(
                    self.values(),
                    1,
                    self.values().len(),
                ),
                None => self.values().len() == 0,
            },
    {
        proof {
            if self.is_authentic() && self.values@.len() > 0 {
                lemma_root_node(self.values@);
            }
        }
        match self.root() {
            Some(root) => Some(root.hash),
            None => None,
        }
    }

    /// Appends `value` to the tree and returns the new root: `i` is the
    /// number of values that the tree now holds, `j` its height.
    ///
    /// A value of more than `MAX_PAYLOAD_SIZE` bytes is refused. After any
    /// error the last entry in memory is the one before, and the storage
    /// begins with what it held before. On a reliable storage with room for
    /// the entry the append does what `spec_append` says, whatever the
    /// storage holds; on an authentic storage it leaves an authentic storage
    /// with one value more.
    pub fn append(&mut self, value: &[u8]) -> (r: Result<Node>)
        ensures
            final(self).reliable() == old(self).reliable(),
            value@.len() > MAX_PAYLOAD_SIZE ==> r == Err::<Node, Detail>(
                Detail::TooLargePayload { size: value@.len() as usize },
            ) && final(self).bytes() == old(self).bytes(),
            r is Err ==> final(self).last_entry() == old(self).last_entry() && final(self).values()
                == old(self).values() && old(self).bytes().is_prefix_of(final(self).bytes()),
            r matches Ok(node) ==> (final(self).last_entry() matches Some(e) && node@ == root_of(e)
                && e.payload == value@ && final(self).bytes() == old(self).bytes() + entry_bytes(
                e,
            )),
            r is Ok ==> final(self).bytes().len() <= old(self).bytes().len() + value@.len() + 57
                + 50 * 64,
            rooted(old(self).last_entry()),
            rooted(final(self).last_entry()),
            r matches Ok(node) ==> node.i == spec_n(old(self).last_entry()) + 1 && node.i
                == spec_n(final(self).last_entry()),
            old(self).bytes().len() <= u64::MAX ==> match spec_append(
                old(self).bytes(),
                old(self).last_entry(),
                value@,
            ) {
                Ok(entry) => match r {
                    Ok(node) => final(self).last_entry() == Some(entry),
                    Err(_) => !old(self).reliable() || old(self).bytes().len() + entry_bytes(
                        entry,
                    ).len() > u64::MAX,
                },
                Err(e) => r matches Err(x) && (old(self).reliable() ==> x == e
                    && final(self).bytes() == old(self).bytes()),
            },
            old(self).is_authentic() && r is Ok ==> final(self).is_authentic()
                && final(self).values() == old(self).values().push(value@),
            old(self).is_authentic() && old(self).reliable() && value@.len() <= MAX_PAYLOAD_SIZE
                && old(self).bytes().len() + value@.len() + 57 + 50 * 64 <= u64::MAX ==> r is Ok,
    {
        proof {
            use_type_invariant(&self.latest_cache);
            self.latest_cache.lemma_kept_rooted();
        }
        if value.len() > MAX_PAYLOAD_SIZE {
            return Err(Detail::TooLargePayload { size: value.len() });
        }
        let ghost vs = self.values@;
        let ghost after = vs.push(value@);
        let ghost good = self.is_authentic();
        let ghost n = vs.len();
        proof {
            if good {
                lemma_appended(vs, value@);
                if n >= 1 {
                    lemma_positions(vs, n);
                    crate::query::lemma_cached_root(vs, self.latest_cache.spec_last_entry()->0);
                }
                assert(storage_bytes(vs).len() == position_of(vs, n + 1)) by {
                    if n == 0 {
                        reveal(crate::history::storage_upto);
                        reveal(position_of);
                    }
                }
            }
        }
        // The leaf.
        let position: u64 = self.storage.length()?;
        let i: Index = match self.latest_cache.root() {
            Some(node) => {
                if node.i == u64::MAX {
                    return Err(Detail::DamagedStorage { at: position });
                }
                node.i + 1
            },
            None => 1,
        };
        let hash = crate::hash::Hash::hash(value);
        let enode = ENode {
            meta: MetaInfo::new(Address::new(i, 0, position), hash),
            payload: slice_to_vec(value),
        };
        // The inodes, from the lowest up.
        let gen = NthGenHashTree::new(i);
        let plan = gen.inodes();
        let inodes = self.join(&plan, position, i, hash, Ghost(value@))?;
        // The root that is returned.
        let count: usize = inodes.len();
        let (j, root_hash) = if count > 0 {
            (inodes[count - 1].meta.address.j, inodes[count - 1].meta.hash)
        } else {
            (0u8, enode.meta.hash)
        };
        // The entry is written and becomes the last entry.
        let entry = Entry { enode, inodes };
        proof {
            crate::entry::lemma_well_formed_encodable(&entry);
            crate::entry::lemma_entry_parts(entry@);
            assert(entry_bytes(entry@).len() == 57 + 50 * entry@.inodes.len()
                + entry@.payload.len());
            if count > 0 {
                assert(entry@.inodes.last() == entry.inodes@[count - 1]@);
            }
            if good {
                assert(entry@.inodes =~= entry_of(after, n + 1).inodes);
                assert(entry@ == entry_of(after, n + 1));
            }
        }
        match write_entry(&mut self.storage, &entry) {
            Ok(_) => {},
            Err(e) => {
                return Err(e);
            },
        }
        self.latest_cache = Cache::new(entry, gen);
        self.values = Ghost(after);
        proof {
            if good {
                assert(after[n as int] == value@);
                assert forall|k: int| 0 <= k < after.len() implies (#[trigger] after[k]).len()
                    <= MAX_PAYLOAD_SIZE by {
                    if k < n {
                        assert(after[k] == vs[k]);
                    }
                }
            }
        }
        Ok(Node::new(i, j, root_hash))
    }

    /// The inodes of the entry of leaf `i` at `position`, from the lowest
    /// up: each joins the node of an earlier entry on its left, which is
    /// looked up on the storage, with what is below it in the new entry,
    /// which begins with the leaf of the hash value `leaf`.
    fn join(
        &self,
        plan: &Vec<crate::model::INode>,
        position: u64,
        i: Index,
        leaf: crate::hash::Hash,
        Ghost(v): Ghost<Seq<u8>>,
    ) -> (r: Result<Vec<INode>>)
        requires
            plan@.len() <= INDEX_SIZE,
            plan@ == spec_inodes(1, i as nat),
            forall|k: int|
                0 <= k < plan@.len() ==> 1 <= (#[trigger] plan@[k]).node.j <= INDEX_SIZE
                    && plan@[k].node.i == i,
        ensures
            outcome(
                self.reliable(),
                r,
                spec_join(
                    self.bytes(),
                    self.last_entry(),
                    plan@,
                    plan@.len(),
                    position,
                    leaf@,
                ),
                |x: Vec<INode>| inode_views(x@),
            ),
            r matches Ok(inodes) ==> crate::entry::well_formed(i, position, inodes@)
                && inodes@.len() == plan@.len(),
            self.is_authentic() && self.reliable() && i == self.values().len() + 1 && position
                == position_of(self.values(), i as nat) && leaf@ == digest(v) ==> r is Ok,
            self.is_authentic() && i == self.values().len() + 1 && position == position_of(
                self.values(),
                i as nat,
            ) && leaf@ == digest(v) ==> (r matches Ok(inodes) ==> inode_views(inodes@) == entry_of(
                self.values().push(v),
                i as nat,
            ).inodes),
    {
        let ghost vs = self.values@;
        let ghost after = vs.push(v);
        let ghost good = self.is_authentic() && i == vs.len() + 1 && position == position_of(
            vs,
            i as nat,
        ) && leaf@ == digest(v);
        let ghost count = plan@.len();
        proof {
            crate::history::lemma_entry_count(after, i as nat);
        }
        let ghost expected = entry_of(after, i as nat).inodes;
        let mut inodes: Vec<INode> = Vec::with_capacity(INDEX_SIZE as usize);
        let mut right_hash = leaf;
        let mut k: usize = plan.len();
        while k > 0
            invariant
                k <= plan@.len() <= INDEX_SIZE,
                count == plan@.len(),
                inodes@.len() == count - k,
                plan@ == spec_inodes(1, i as nat),
                forall|m: int|
                    0 <= m < plan@.len() ==> 1 <= (#[trigger] plan@[m]).node.j <= INDEX_SIZE
                        && plan@[m].node.i == i,
                crate::entry::well_formed(i, position, inodes@),
                spec_join(
                    self.bytes(),
                    self.last_entry(),
                    plan@,
                    plan@.len(),
                    position,
                    leaf@,
                ) == joined_so_far(
                    inode_views(inodes@),
                    spec_join(
                        self.bytes(),
                        self.last_entry(),
                        plan@,
                        k as nat,
                        position,
                        right_hash@,
                    ),
                ),
                vs == self.values@,
                after == vs.push(v),
                expected == entry_of(after, i as nat).inodes,
                expected.len() == count_of(i as nat),
                good == (self.is_authentic() && i == vs.len() + 1 && position == position_of(
                    vs,
                    i as nat,
                ) && leaf@ == digest(v)),
                good ==> {
                    &&& right_hash@ == if inodes@.len() == 0 {
                        digest(v)
                    } else {
                        expected[inodes@.len() - 1].meta.hash
                    }
                    &&& forall|m: int|
                        0 <= m < inodes@.len() ==> (#[trigger] inodes@[m])@ == expected[m]
                },
            decreases k,
        {
            k = k - 1;
            let n = plan[k];
            let ghost m = (count - 1 - k) as int;
            let ghost lo = spine_lo(i as nat, k as int);
            proof {
                if good {
                    lemma_planned(vs, v, m);
                }
            }
            let found = match Query::<S>::get_node(
                &self.latest_cache,
                &self.storage,
                n.left.i,
                n.left.j,
                Ghost(vs),
                Ghost(lo),
            ) {
                Ok(found) => found,
                Err(e) => {
                    return Err(e);
                },
            };
            match found {
                Some(left) => {
                    let right = Address::new(n.right.i, n.right.j, position);
                    let hash = left.hash.combine(&right_hash);
                    let node = MetaInfo::new(Address::new(n.node.i, n.node.j, position), hash);
                    let inode = INode::new(node, left.address, right);
                    let ghost before = inodes@;
                    inodes.push(inode);
                    right_hash = hash;
                    proof {
                        let rest = spec_join(
                            self.bytes(),
                            self.last_entry(),
                            plan@,
                            k as nat,
                            position,
                            hash@,
                        );
                        assert(inode_views(inodes@) =~= inode_views(before).push(inode@));
                        if rest is Ok {
                            assert(inode_views(before) + (seq![inode@] + rest->Ok_0)
                                =~= inode_views(inodes@) + rest->Ok_0);
                        }
                        if good {
                            assert(inode@ == expected[m]);
                            assert forall|t: int| 0 <= t < inodes@.len() implies (
                            #[trigger] inodes@[t])@ == expected[t] by {
                                if t < m {
                                    assert(inodes@[t] == before[t]);
                                }
                            }
                        }
                    }
                },
                None => {
                    // What is in memory and what is on the storage contradict each other.
                    return Err(Detail::InternalStateInconsistency { i: n.left.i, j: n.left.j });
                },
            }
        }
        proof {
            if good {
                assert(inode_views(inodes@) =~= expected);
            }
        }
        Ok(inodes)
    }

    /// Begins to ask the tree as it stands.
    pub fn query(&self) -> (r: Result<Query<'_, S>>)
        ensures
            r is Ok,
            r matches Ok(q) ==> q.values() == self.values() && q.last_entry() == self.last_entry()
                && q.is_authentic() == self.is_authentic() && q.reliable() == self.reliable()
                && q.bytes() == self.bytes(),
    {
        Ok(Query::new(&self.storage, &self.latest_cache, Ghost(self.values@)))
    }

    /// The storage of this tree.
    pub fn storage(&self) -> (r: &S)
        ensures
            r@ == self.bytes(),
            r.reliable() == self.reliable(),
    {
        &self.storage
    }
}

} // verus!
