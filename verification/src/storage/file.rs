//! Files as runs of bytes that are read and written at a position.

use vstd::prelude::*;
use core::ops::Range;
use crate::files::FileError;

verus! {

/// A file whose bytes can be read and written at any offset. The host
/// implements it for the files of the disk.
///
/// The file is modelled by the bytes that it holds.
pub trait StorageFile {
    /// The bytes of the file.
    spec fn contents(&self) -> Seq<u8>;

    /// Reads bytes from `offset` on into the start of `buf` and returns how
    /// many were read. The rest of `buf` stays as it was.
    fn read_at(&self, buf: &mut [u8], offset: u64) -> (res: Result<usize, FileError>)
        ensures
            final(buf)@.len() == old(buf)@.len(),
            res matches Ok(n) ==> {
                &&& n <= old(buf)@.len()
                &&& forall|k: int|
                    0 <= k < n ==> offset + k < self.contents().len() && (#[trigger] final(buf)@[k])
                        == self.contents()[offset + k]
                &&& forall|k: int|
                    n <= k < old(buf)@.len() ==> (#[trigger] final(buf)@[k]) == old(buf)@[k]
            },
    ;

    /// Writes bytes from the start of `buf` over the bytes of the file from
    /// `offset` on and returns how many were written. The file does not
    /// grow, and no other byte of it changes.
    fn write_at(&mut self, buf: &[u8], offset: u64) -> (res: Result<usize, FileError>)
        ensures
            final(self).contents().len() == old(self).contents().len(),
            res matches Ok(n) ==> {
                &&& n <= buf@.len()
                &&& forall|k: int|
                    0 <= k < n ==> offset + k < old(self).contents().len() && final(
                        self
                    ).contents()[offset + k] == #[trigger] buf@[k]
                &&& forall|j: int|
                    0 <= j < old(self).contents().len() && !(offset <= j < offset + n) ==> (
                    #[trigger] final(self).contents()[j]) == old(self).contents()[j]
            },
    ;
}

/// The smaller of two numbers.
pub open spec fn min_of(a: int, b: int) -> int {
    if a <= b {
        a
    } else {
        b
    }
}

/// The part of a file of `len` bytes that an operation on `buf_len` bytes at
/// `offset` touches: it starts at the offset and ends where the buffer or
/// the file ends, whichever comes first.
pub fn get_buf_range(len: usize, buf_len: usize, offset: u64) -> (range: Range<usize>)
    requires
        offset + buf_len <= usize::MAX,
    ensures
        range.start == offset,
        range.end == min_of(offset + buf_len, len as int),
{
    let start = offset as usize;
    let end = if start + buf_len <= len {
        start + buf_len
    } else {
        len
    };
    start..end
}

/// How many bytes an operation on `buf_len` bytes at `offset` transfers in
/// a file of `len` bytes: as many as the buffer holds, but none beyond the
/// end of the file.
pub open spec fn transfer_len(len: int, buf_len: int, offset: int) -> int {
    if offset >= len {
        0
    } else {
        min_of(buf_len, len - offset)
    }
}

/// How many bytes an operation on `buf_len` bytes at `offset` transfers in
/// a file of `len` bytes.
pub fn get_transfer_len(len: usize, buf_len: usize, offset: u64) -> (n: usize)
    ensures
        n == transfer_len(len as int, buf_len as int, offset as int),
{
    if offset >= len as u64 {
        0
    } else {
        let rest = len - offset as usize;
        if buf_len <= rest {
            buf_len
        } else {
            rest
        }
    }
}

/// A vector of bytes is a file that lives in memory. A read or a write
/// that reaches beyond its end transfers the bytes up to the end.
impl StorageFile for Vec<u8> {
    open spec fn contents(&self) -> Seq<u8> {
        self@
    }

    fn read_at(&self, buf: &mut [u8], offset: u64) -> (res: Result<usize, FileError>)
        ensures
            res == Ok::<usize, FileError>(
                transfer_len(self@.len() as int, old(buf)@.len() as int, offset as int) as usize,
            ),
    {
        let num_read = get_transfer_len(self.len(), buf.len(), offset);
        if num_read == 0 {
            return Ok(0);
        }
        let start = offset as usize;
        let mut i: usize = 0;
        while i < num_read
            invariant
                i <= num_read,
                start == offset,
                start + num_read <= self.len(),
                num_read == transfer_len(self@.len() as int, old(buf)@.len() as int, offset as int),
                buf@.len() == old(buf)@.len(),
                forall|k: int| 0 <= k < i ==> buf@[k] == self@[offset + k],
                forall|k: int| i <= k < buf@.len() ==> buf@[k] == old(buf)@[k],
            decreases num_read - i,
        {
            buf[i] = self[start + i];
            i += 1;
        }
        Ok(num_read)
    }

    fn write_at(&mut self, buf: &[u8], offset: u64) -> (res: Result<usize, FileError>)
        ensures
            res == Ok::<usize, FileError>(
                transfer_len(old(self)@.len() as int, buf@.len() as int, offset as int) as usize,
            ),
    {
        let num_written = get_transfer_len(self.len(), buf.len(), offset);
        if num_written == 0 {
            return Ok(0);
        }
        let start = offset as usize;
        let mut i: usize = 0;
        while i < num_written
            invariant
                i <= num_written,
                start == offset,
                start + num_written <= self.len(),
                num_written == transfer_len(
                    old(self)@.len() as int,
                    buf@.len() as int,
                    offset as int,
                ),
                self@.len() == old(self)@.len(),
                forall|k: int| 0 <= k < i ==> self@[offset + k] == buf@[k],
                forall|k: int|
                    0 <= k < self@.len() && !(offset <= k < offset + i) ==> self@[k] == old(self)@[k],
            decreases num_written - i,
        {
            self.set(start + i, buf[i]);
            i += 1;
        }
        Ok(num_written)
    }
}

} // verus!
