//! The checksum that closes every entry.

use vstd::prelude::*;
use highway::{HighwayHash, HighwayHasher, Key};

verus! {

/// The key under which the checksum of an entry is taken.
pub const CHECKSUM_HW64_KEY: [u64; 4] = [
    0xFA5015F2E22BCFC6u64,
    0xCE5A4ED9A4025C80u64,
    0x16B9731717F6315Eu64,
    0x0F34D06AE93BD8E9u64,
];

/// The 64-bit HighwayHash of `data` under `key`.
pub uninterp spec fn highway_hash64(key: Seq<u64>, data: Seq<u8>) -> u64;

/// `highway::HighwayHash::hash64` on a hasher made with `key`: the 64-bit
/// HighwayHash of `data`, which depends on the key and the data alone.
#[verifier::external_body]
fn highway64(key: [u64; 4], data: &[u8]) -> (r: u64)
    ensures
        r == highway_hash64(key@, data@),
{
    HighwayHasher::new(Key(key)).hash64(data)
}

/// The checksum of the bytes `data` of an entry.
pub open spec fn spec_checksum(data: Seq<u8>) -> u64 {
    highway_hash64(CHECKSUM_HW64_KEY@, data)
}

/// The checksum of the bytes `data` of an entry.
pub fn checksum(data: &[u8]) -> (r: u64)
    ensures
        r == spec_checksum(data@),
{
    highway64(CHECKSUM_HW64_KEY, data)
}

} // verus!
