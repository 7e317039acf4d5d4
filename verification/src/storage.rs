//! Where a hash tree is kept: a sequence of bytes that is read at any
//! position and grows at its end.

use vstd::prelude::*;
use vstd::slice::*;
use crate::error::{Detail, Result};
use crate::wire::put;

verus! {

/// A storage for the serialised hash tree. Bytes once written are never
/// changed; new bytes are added only at the end.
pub trait Storage {
    /// The bytes that the storage holds. A storage that is written
    /// outside this library keeps the default, which says nothing of them.
    open spec fn view(&self) -> Seq<u8> {
        arbitrary()
    }

    /// Whether the device behind the storage never fails. A storage that is
    /// not reliable may answer any call with an error.
    open spec fn reliable(&self) -> bool {
        false
    }

    /// The number of bytes that the storage holds.
    fn length(&self) -> (r: Result<u64>)
        ensures
            r matches Ok(n) ==> n == self@.len(),
            self.reliable() && self@.len() <= u64::MAX ==> r is Ok,
    ;

    /// The `length` bytes from `position` on. Where the storage ends before
    /// `position + length` this fails, on a reliable storage with
    /// `DamagedStorage` at `position`.
    fn read(&self, position: u64, length: usize) -> (r: Result<Vec<u8>>)
        ensures
            r matches Ok(bytes) ==> position + length <= self@.len() && position + length
                <= u64::MAX && bytes@ == self@.subrange(position as int, position + length),
            self.reliable() && position + length <= self@.len() ==> r is Ok,
            self.reliable() && position + length > self@.len() ==> r == Err::<Vec<u8>, Detail>(
                Detail::DamagedStorage { at: position },
            ),
    ;

    /// Adds `bytes` at the end. After a failure some of the bytes may have
    /// been added. A storage never grows beyond what a position can
    /// address.
    fn write(&mut self, bytes: &[u8]) -> (r: Result<()>)
        ensures
            final(self).reliable() == old(self).reliable(),
            r is Ok ==> final(self)@ == old(self)@ + bytes@ && final(self)@.len() <= u64::MAX,
            r is Err ==> old(self)@.is_prefix_of(final(self)@),
            old(self).reliable() && old(self)@.len() + bytes@.len() <= u64::MAX ==> r is Ok,
    ;
}

/// Where a seek starts from, and how far it goes.
#[derive(PartialEq, Eq, Copy, Clone, Debug)]
pub enum SeekFrom {
    /// So many bytes after the start.
    Start(u64),
    /// So many bytes after the end, or before it where negative.
    End(i64),
    /// So many bytes after the current position, or before it where negative.
    Current(i64),
}

/// The position that a seek leads to, from `position` in `length` bytes.
pub open spec fn seek_target(pos: SeekFrom, position: int, length: int) -> int {
    match pos {
        SeekFrom::Start(p) => p as int,
        SeekFrom::End(d) => length + d,
        SeekFrom::Current(d) => position + d,
    }
}

/// `count` zero bytes.
pub open spec fn zeros(count: int) -> Seq<u8> {
    Seq::new(
        if count > 0 {
            count as nat
        } else {
            0
        },
        |k: int| 0u8,
    )
}

/// A position in a buffer in memory, opened for reading or for reading and
/// writing.
#[derive(PartialEq, Eq, Copy, Clone, Debug)]
pub struct MemCursor {
    pub writable: bool,
    pub position: usize,
}

impl MemCursor {
    /// A cursor at the start of a buffer.
    pub fn new(writable: bool) -> (r: MemCursor)
        ensures
            r == (MemCursor { writable, position: 0 }),
    {
        MemCursor { writable, position: 0 }
    }

    /// Moves the cursor and returns its new position. A seek from the end
    /// of the buffer to beyond it, through a writable cursor, fills the gap
    /// with zero bytes. A seek to before the start, or to a position that
    /// cannot be addressed, fails and moves nothing.
    pub fn seek(&mut self, buffer: &mut Vec<u8>, pos: SeekFrom) -> (r: Result<u64>)
        ensures
            final(self).writable == old(self).writable,
            ({
                let target = seek_target(pos, old(self).position as int, old(buffer)@.len() as int);
                if 0 <= target <= usize::MAX {
                    &&& r == Ok::<u64, Detail>(target as u64)
                    &&& final(self).position == target
                    &&& final(buffer)@ == if pos is End && old(self).writable {
                        old(buffer)@ + zeros(target - old(buffer)@.len())
                    } else {
                        old(buffer)@
                    }
                } else {
                    &&& r == Err::<u64, Detail>(Detail::DamagedStorage { at: old(self).position as u64 })
                    &&& *final(self) == *old(self)
                    &&& final(buffer)@ == old(buffer)@
                }
            }),
    {
        let length: usize = buffer.len();
        let target: Option<usize> = match pos {
            SeekFrom::Start(p) => if p <= usize::MAX as u64 {
                Some(p as usize)
            } else {
                None
            },
            SeekFrom::End(d) => offset(length, d),
            SeekFrom::Current(d) => offset(self.position, d),
        };
        match target {
            Some(target) => {
                let grows: bool = match pos {
                    SeekFrom::End(_) => self.writable,
                    _ => false,
                };
                if grows {
                    while buffer.len() < target
                        invariant
                            length == old(buffer)@.len(),
                            length <= buffer@.len(),
                            buffer@.len() <= target || buffer@.len() == length,
                            buffer@ == old(buffer)@ + zeros(buffer@.len() - length),
                        decreases target - buffer@.len(),
                    {
                        buffer.push(0u8);
                        proof {
                            assert(buffer@ =~= old(buffer)@ + zeros(buffer@.len() - length));
                        }
                    }
                    proof {
                        assert(buffer@ =~= old(buffer)@ + zeros(target - length));
                    }
                }
                self.position = target;
                Ok(target as u64)
            },
            None => Err(Detail::DamagedStorage { at: self.position as u64 }),
        }
    }

    /// Reads up to `length` bytes from the cursor on, as many as the buffer
    /// holds there, and moves the cursor behind them.
    pub fn read(&mut self, buffer: &Vec<u8>, length: usize) -> (r: Vec<u8>)
        ensures
            final(self).writable == old(self).writable,
            ({
                let start = old(self).position as int;
                let end = if start + length <= buffer@.len() {
                    start + length
                } else if start <= buffer@.len() {
                    buffer@.len() as int
                } else {
                    start
                };
                &&& final(self).position == end
                &&& r@ == if start <= buffer@.len() {
                    buffer@.subrange(start, end)
                } else {
                    Seq::<u8>::empty()
                }
            }),
    {
        let total: usize = buffer.len();
        if self.position > total {
            return Vec::new();
        }
        let available: usize = total - self.position;
        let count: usize = if length < available {
            length
        } else {
            available
        };
        let out = slice_to_vec(slice_subrange(buffer.as_slice(), self.position, self.position + count));
        self.position = self.position + count;
        out
    }

    /// Adds `buf` at the end of the buffer and moves the cursor on by the
    /// number of bytes written. Fails through a cursor that was opened for
    /// reading, and through one that stands behind the end of the buffer at
    /// a position that cannot be moved on by that many bytes; a write that
    /// fails changes nothing.
    pub fn write(&mut self, buffer: &mut Vec<u8>, buf: &[u8]) -> (r: Result<usize>)
        ensures
            final(self).writable == old(self).writable,
            !old(self).writable ==> r == Err::<usize, Detail>(Detail::PermissionDenied)
                && final(buffer)@ == old(buffer)@ && *final(self) == *old(self),
            old(self).writable && old(self).position > old(buffer)@.len() && old(self).position
                + buf@.len() > usize::MAX ==> r == Err::<usize, Detail>(
                Detail::DamagedStorage { at: old(self).position as u64 },
            ) && final(buffer)@ == old(buffer)@ && *final(self) == *old(self),
            old(self).writable && (old(self).position <= old(buffer)@.len() || old(self).position
                + buf@.len() <= usize::MAX) ==> r == Ok::<usize, Detail>(buf@.len() as usize)
                && final(buffer)@ == old(buffer)@ + buf@ && final(self).position
                == old(self).position + buf@.len(),
    {
        if !self.writable {
            return Err(Detail::PermissionDenied);
        }
        let length: usize = buffer.len();
        if self.position > length && buf.len() > usize::MAX - self.position {
            return Err(Detail::DamagedStorage { at: self.position as u64 });
        }
        put(buffer, buf);
        let grown: usize = buffer.len();
        assert(grown == length + buf@.len());
        self.position = self.position + buf.len();
        Ok(buf.len())
    }
}

/// `base + distance`, where that is a position.
fn offset(base: usize, distance: i64) -> (r: Option<usize>)
    ensures
        0 <= base + distance <= usize::MAX ==> r == Some((base + distance) as usize),
        !(0 <= base + distance <= usize::MAX) ==> r is None,
{
    if distance >= 0 {
        let d: u64 = distance as u64;
        if d <= usize::MAX as u64 && d as usize <= usize::MAX - base {
            Some(base + d as usize)
        } else {
            None
        }
    } else {
        let d: u64 = if distance == i64::MIN {
            0x8000_0000_0000_0000u64
        } else {
            (-distance) as u64
        };
        if d <= base as u64 {
            Some(base - d as usize)
        } else {
            None
        }
    }
}

/// A storage in memory. What it holds is lost when it is dropped.
#[derive(Debug)]
pub struct MemStorage {
    buffer: Vec<u8>,
}

impl MemStorage {
    /// An empty storage.
    pub fn new() -> (r: MemStorage)
        ensures
            r@ == Seq::<u8>::empty(),
    {
        MemStorage::with(Vec::with_capacity(4 * 1024))
    }

    /// A storage that holds the bytes of `buffer`.
    pub fn with(buffer: Vec<u8>) -> (r: MemStorage)
        ensures
            r@ == buffer@,
    {
        MemStorage { buffer }
    }

    /// The bytes that this storage holds.
    pub fn buffer(&self) -> (r: &Vec<u8>)
        ensures
            r@ == self@,
    {
        &self.buffer
    }
}

impl Storage for MemStorage {
    closed spec fn view(&self) -> Seq<u8> {
        self.buffer@
    }

    open spec fn reliable(&self) -> bool {
        true
    }

    fn length(&self) -> (r: Result<u64>) {
        Ok(self.buffer.len() as u64)
    }

    fn read(&self, position: u64, length: usize) -> (r: Result<Vec<u8>>) {
        let total: usize = self.buffer.len();
        if position > total as u64 || length > total - position as usize {
            return Err(Detail::DamagedStorage { at: position });
        }
        let mut cursor = MemCursor { writable: false, position: position as usize };
        Ok(cursor.read(&self.buffer, length))
    }

    fn write(&mut self, bytes: &[u8]) -> (r: Result<()>) {
        let mut cursor = MemCursor::new(true);
        let end = cursor.seek(&mut self.buffer, SeekFrom::End(0));
        proof {
            assert(self.buffer@ =~= old(self).buffer@ + zeros(0));
            assert(self.buffer@ =~= old(self).buffer@);
        }
        match cursor.write(&mut self.buffer, bytes) {
            Ok(_) => {
                proof {
                    let length: usize = self.buffer.len();
                    assert(length == self.buffer@.len());
                }
                Ok(())
            },
            Err(e) => Err(e),
        }
    }
}

} // verus!
