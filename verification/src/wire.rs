//! Little-endian integers as they stand on the storage.

use vstd::prelude::*;
use vstd::bytes::*;
use vstd::slice::*;
use byteorder::{ByteOrder, LittleEndian};

verus! {

/// `byteorder::LittleEndian::read_u32`: the integer whose little-endian
/// representation is the four bytes of `buf`.
#[verifier::external_body]
pub(crate) fn read_u32(buf: &[u8]) -> (r: u32)
    requires
        buf@.len() == 4,
    ensures
        r == spec_u32_from_le_bytes(buf@),
{
    LittleEndian::read_u32(buf)
}

/// `byteorder::LittleEndian::read_u64`: the integer whose little-endian
/// representation is the eight bytes of `buf`.
#[verifier::external_body]
pub(crate) fn read_u64(buf: &[u8]) -> (r: u64)
    requires
        buf@.len() == 8,
    ensures
        r == spec_u64_from_le_bytes(buf@),
{
    LittleEndian::read_u64(buf)
}

/// `byteorder::LittleEndian::write_u32`: the four bytes that represent `n`
/// in little-endian order.
#[verifier::external_body]
pub(crate) fn write_u32(n: u32) -> (r: [u8; 4])
    ensures
        r@ == spec_u32_to_le_bytes(n),
{
    let mut buf = [0u8; 4];
    LittleEndian::write_u32(&mut buf, n);
    buf
}

/// `byteorder::LittleEndian::write_u64`: the eight bytes that represent `n`
/// in little-endian order.
#[verifier::external_body]
pub(crate) fn write_u64(n: u64) -> (r: [u8; 8])
    ensures
        r@ == spec_u64_to_le_bytes(n),
{
    let mut buf = [0u8; 8];
    LittleEndian::write_u64(&mut buf, n);
    buf
}

/// Appends the bytes of `src` to `dst`.
pub fn put(dst: &mut Vec<u8>, src: &[u8])
    ensures
        final(dst)@ == old(dst)@ + src@,
{
    let mut k: usize = 0;
    while k < src.len()
        invariant
            k <= src@.len(),
            dst@ == old(dst)@ + src@.subrange(0, k as int),
        decreases src@.len() - k,
    {
        dst.push(src[k]);
        k = k + 1;
        proof {
            assert(dst@ =~= old(dst)@ + src@.subrange(0, k as int));
        }
    }
    proof {
        assert(src@.subrange(0, k as int) =~= src@);
    }
}

/// Appends `n` to `dst` as four little-endian bytes.
pub fn put_u32(dst: &mut Vec<u8>, n: u32)
    ensures
        final(dst)@ == old(dst)@ + spec_u32_to_le_bytes(n),
{
    let buf = write_u32(n);
    put(dst, buf.as_slice());
}

/// Appends `n` to `dst` as eight little-endian bytes.
pub fn put_u64(dst: &mut Vec<u8>, n: u64)
    ensures
        final(dst)@ == old(dst)@ + spec_u64_to_le_bytes(n),
{
    let buf = write_u64(n);
    put(dst, buf.as_slice());
}

/// The `u32` that stands at `at` in `bytes`.
pub open spec fn u32_at(bytes: Seq<u8>, at: int) -> u32 {
    spec_u32_from_le_bytes(bytes.subrange(at, at + 4))
}

/// The `u64` that stands at `at` in `bytes`.
pub open spec fn u64_at(bytes: Seq<u8>, at: int) -> u64 {
    spec_u64_from_le_bytes(bytes.subrange(at, at + 8))
}

/// Reads the `u32` that stands at `at` in `buf`.
pub fn get_u32(buf: &[u8], at: usize) -> (r: u32)
    requires
        at + 4 <= buf@.len(),
    ensures
        r == u32_at(buf@, at as int),
{
    let len: usize = buf.len();
    assert(at + 4 <= len);
    read_u32(slice_subrange(buf, at, at + 4))
}

/// Reads the `u64` that stands at `at` in `buf`.
pub fn get_u64(buf: &[u8], at: usize) -> (r: u64)
    requires
        at + 8 <= buf@.len(),
    ensures
        r == u64_at(buf@, at as int),
{
    let len: usize = buf.len();
    assert(at + 8 <= len);
    read_u64(slice_subrange(buf, at, at + 8))
}

} // verus!
