//! The two messages in which nodes of a hash tree are exchanged.

use vstd::prelude::*;

verus! {

/// An internal node: the numbers of its two children and its hash value.
#[derive(PartialEq, Clone, Debug)]
pub struct Intermediate {
    pub left_node: u64,
    pub right_node: u64,
    pub hash: Vec<u8>,
}

impl Intermediate {
    /// The message with every field at its default.
    pub fn new() -> (r: Intermediate)
        ensures
            r.left_node == 0,
            r.right_node == 0,
            r.hash@ == Seq::<u8>::empty(),
    {
        Intermediate { left_node: 0, right_node: 0, hash: Vec::new() }
    }

    pub fn get_left_node(&self) -> (r: u64)
        ensures
            r == self.left_node,
    {
        self.left_node
    }

    pub fn clear_left_node(&mut self)
        ensures
            final(self).left_node == 0,
            final(self).right_node == old(self).right_node,
            final(self).hash == old(self).hash,
    {
        self.left_node = 0;
    }

    pub fn set_left_node(&mut self, v: u64)
        ensures
            final(self).left_node == v,
            final(self).right_node == old(self).right_node,
            final(self).hash == old(self).hash,
    {
        self.left_node = v;
    }

    pub fn get_right_node(&self) -> (r: u64)
        ensures
            r == self.right_node,
    {
        self.right_node
    }

    pub fn clear_right_node(&mut self)
        ensures
            final(self).right_node == 0,
            final(self).left_node == old(self).left_node,
            final(self).hash == old(self).hash,
    {
        self.right_node = 0;
    }

    pub fn set_right_node(&mut self, v: u64)
        ensures
            final(self).right_node == v,
            final(self).left_node == old(self).left_node,
            final(self).hash == old(self).hash,
    {
        self.right_node = v;
    }

    pub fn get_hash(&self) -> (r: &[u8])
        ensures
            r@ == self.hash@,
    {
        self.hash.as_slice()
    }

    pub fn clear_hash(&mut self)
        ensures
            final(self).hash@ == Seq::<u8>::empty(),
            final(self).left_node == old(self).left_node,
            final(self).right_node == old(self).right_node,
    {
        self.hash.clear();
    }

    pub fn set_hash(&mut self, v: Vec<u8>)
        ensures
            final(self).hash == v,
            final(self).left_node == old(self).left_node,
            final(self).right_node == old(self).right_node,
    {
        self.hash = v;
    }

    /// The hash value, to be changed in place.
    pub fn mut_hash(&mut self) -> (r: &mut Vec<u8>)
        ensures
            *r == old(self).hash,
            final(self).hash == *final(r),
            final(self).left_node == old(self).left_node,
            final(self).right_node == old(self).right_node,
    {
        &mut self.hash
    }

    /// Takes the hash value out and leaves an empty one.
    pub fn take_hash(&mut self) -> (r: Vec<u8>)
        ensures
            r == old(self).hash,
            final(self).hash@ == Seq::<u8>::empty(),
            final(self).left_node == old(self).left_node,
            final(self).right_node == old(self).right_node,
    {
        let mut taken: Vec<u8> = Vec::new();
        core::mem::swap(&mut self.hash, &mut taken);
        taken
    }
}

/// A leaf: its payload and its hash value.
#[derive(PartialEq, Clone, Debug)]
pub struct Leaf {
    pub payload: Vec<u8>,
    pub hash: Vec<u8>,
}

impl Leaf {
    /// The message with every field at its default.
    pub fn new() -> (r: Leaf)
        ensures
            r.payload@ == Seq::<u8>::empty(),
            r.hash@ == Seq::<u8>::empty(),
    {
        Leaf { payload: Vec::new(), hash: Vec::new() }
    }

    pub fn get_payload(&self) -> (r: &[u8])
        ensures
            r@ == self.payload@,
    {
        self.payload.as_slice()
    }

    pub fn clear_payload(&mut self)
        ensures
            final(self).payload@ == Seq::<u8>::empty(),
            final(self).hash == old(self).hash,
    {
        self.payload.clear();
    }

    pub fn set_payload(&mut self, v: Vec<u8>)
        ensures
            final(self).payload == v,
            final(self).hash == old(self).hash,
    {
        self.payload = v;
    }

    /// The payload, to be changed in place.
    pub fn mut_payload(&mut self) -> (r: &mut Vec<u8>)
        ensures
            *r == old(self).payload,
            final(self).payload == *final(r),
            final(self).hash == old(self).hash,
    {
        &mut self.payload
    }

    /// Takes the payload out and leaves an empty one.
    pub fn take_payload(&mut self) -> (r: Vec<u8>)
        ensures
            r == old(self).payload,
            final(self).payload@ == Seq::<u8>::empty(),
            final(self).hash == old(self).hash,
    {
        let mut taken: Vec<u8> = Vec::new();
        core::mem::swap(&mut self.payload, &mut taken);
        taken
    }

    pub fn get_hash(&self) -> (r: &[u8])
        ensures
            r@ == self.hash@,
    {
        self.hash.as_slice()
    }

    pub fn clear_hash(&mut self)
        ensures
            final(self).hash@ == Seq::<u8>::empty(),
            final(self).payload == old(self).payload,
    {
        self.hash.clear();
    }

    pub fn set_hash(&mut self, v: Vec<u8>)
        ensures
            final(self).hash == v,
            final(self).payload == old(self).payload,
    {
        self.hash = v;
    }

    /// The hash value, to be changed in place.
    pub fn mut_hash(&mut self) -> (r: &mut Vec<u8>)
        ensures
            *r == old(self).hash,
            final(self).hash == *final(r),
            final(self).payload == old(self).payload,
    {
        &mut self.hash
    }

    /// Takes the hash value out and leaves an empty one.
    pub fn take_hash(&mut self) -> (r: Vec<u8>)
        ensures
            r == old(self).hash,
            final(self).hash@ == Seq::<u8>::empty(),
            final(self).payload == old(self).payload,
    {
        let mut taken: Vec<u8> = Vec::new();
        core::mem::swap(&mut self.hash, &mut taken);
        taken
    }
}

} // verus!
