//! The transactional page store: addresses, log indices and the errors that
//! the store hands to its callers.

use vstd::prelude::*;
use crate::files::FileError;

pub mod handlers;
pub mod physical;
pub mod recovery;
pub mod state;
pub mod table;
pub mod wal;


verus! {

/// The address of a page: the segment that holds it and the page's number in
/// that segment. Page number zero is reserved and addresses no page.
#[derive(Debug, Clone, Copy, PartialEq, Eq, Structural, Hash, PartialOrd, Ord)]
pub struct PageAddress {
    pub segment_num: u32,
    pub page_num: u16,
}

impl PageAddress {
    /// An address is well formed when its page number is not the reserved zero.
    pub open spec fn wf(self) -> bool {
        self.page_num != 0
    }

    /// The address of the page `page_num` of the segment `segment_num`.
    pub fn new(segment_num: u32, page_num: u16) -> (address: Self)
        requires
            page_num != 0,
        ensures
            address.segment_num == segment_num,
            address.page_num == page_num,
            address.wf(),
    {
        Self { segment_num, page_num }
    }
}

/// Identifies a page of the store. It has the shape of a [`PageAddress`] and
/// is the name under which the document store speaks of pages.
#[derive(Debug, Clone, Copy, PartialEq, Eq, Structural)]
pub struct PageId {
    pub segment_num: u32,
    pub page_num: u16,
}

impl PageId {
    /// A page id is well formed when its page number is not the reserved zero.
    pub open spec fn wf(self) -> bool {
        self.page_num != 0
    }

    /// The id of the page `page_num` of the segment `segment_num`.
    pub fn new(segment_num: u32, page_num: u16) -> (id: Self)
        requires
            page_num != 0,
        ensures
            id.segment_num == segment_num,
            id.page_num == page_num,
            id.wf(),
    {
        Self { segment_num, page_num }
    }
}

/// The position of an item in the write-ahead log: the generation that holds
/// it and its offset in that generation's file. Offset zero is reserved.
/// Indices are ordered by generation first and by offset second.
#[derive(Debug, Clone, Copy, PartialEq, Eq, Structural, Hash, PartialOrd, Ord)]
pub struct WalIndex {
    pub generation: u64,
    pub offset: u64,
}

impl WalIndex {
    /// An index is well formed when its offset is not the reserved zero.
    pub open spec fn wf(self) -> bool {
        self.offset != 0
    }

    /// The lexicographic order on indices.
    pub open spec fn precedes(self, other: WalIndex) -> bool {
        self.generation < other.generation || (self.generation == other.generation && self.offset
            < other.offset)
    }

    /// `self` comes before `other` or is `other`.
    pub open spec fn precedes_eq(self, other: WalIndex) -> bool {
        self.precedes(other) || self == other
    }

    /// The index of the item at `offset` in the generation `generation`.
    pub fn new(generation: u64, offset: u64) -> (index: Self)
        requires
            offset != 0,
        ensures
            index.generation == generation,
            index.offset == offset,
            index.wf(),
    {
        Self { generation, offset }
    }

    /// Whether this index comes strictly before `other` in the log.
    pub fn is_before(&self, other: &WalIndex) -> (before: bool)
        ensures
            before == self.precedes(*other),
    {
        self.generation < other.generation || (self.generation == other.generation && self.offset
            < other.offset)
    }
}

/// What the log remembers of an open transaction: the generation of its first
/// item and the index of its latest one.
#[derive(Debug, Clone, Copy, PartialEq, Eq, Structural)]
pub struct TransactionState {
    pub first_gen: u64,
    pub last_index: WalIndex,
}

impl TransactionState {
    /// The first generation of a transaction is never later than that of its
    /// latest item.
    pub open spec fn wf(self) -> bool {
        self.first_gen <= self.last_index.generation
    }
}

/// The errors of the page store.
#[derive(Debug, Clone, Copy, PartialEq, Eq, Structural)]
pub enum StorageError {
    /// A file operation failed; the error of the file layer is handed on.
    File(FileError),
    /// The log holds no generation to append to or to read from.
    WalNotInitialized,
}

impl StorageError {
    /// Hands a file error on as a storage error.
    pub fn from_file_error(error: FileError) -> (res: Self)
        ensures
            res == StorageError::File(error),
    {
        StorageError::File(error)
    }

    /// The error in words: those of the file error that is handed on, or
    /// that the log is not initialized.
    pub open spec fn text(self) -> Seq<char> {
        match self {
            StorageError::File(error) => error.text(),
            StorageError::WalNotInitialized => "The WAL is not initialized"@,
        }
    }

    /// The error in words.
    pub fn message(&self) -> (text: String)
        ensures
            text@ == self.text(),
    {
        match self {
            StorageError::File(error) => error.message(),
            StorageError::WalNotInitialized => "The WAL is not initialized".to_owned(),
        }
    }
}


/// `body` with `patch` written over its bytes from `offset` on.
pub open spec fn patched(body: Seq<u8>, offset: int, patch: Seq<u8>) -> Seq<u8> {
    body.take(offset) + patch + body.skip(offset + patch.len())
}

/// A page of the store, which is modelled by the bytes of its body.
pub trait PageBody {
    /// The bytes of the page's body.
    spec fn body(&self) -> Seq<u8>;
}

/// A page that can be read. The page store implements it for the pages
/// that it hands out.
pub trait ReadPage: PageBody {
    /// Fills `buf` with the bytes of the body from `offset` on.
    fn read(&self, offset: usize, buf: &mut [u8]) -> (res: Result<(), StorageError>)
        ensures
            final(buf)@.len() == old(buf)@.len(),
            res is Ok ==> {
                &&& offset + old(buf)@.len() <= self.body().len()
                &&& final(buf)@ == self.body().subrange(offset as int, offset + old(buf)@.len())
            },
    ;
}

/// A page that can be written. The page store implements it for the pages
/// that it hands out.
pub trait WritePage: PageBody {
    /// Writes `buf` over the bytes of the body from `offset` on.
    fn write(&mut self, offset: usize, buf: &[u8]) -> (res: Result<(), StorageError>)
        ensures
            res is Ok ==> {
                &&& offset + buf@.len() <= old(self).body().len()
                &&& final(self).body() == patched(old(self).body(), offset as int, buf@)
            },
    ;
}

/// A page in memory.
#[derive(Debug, PartialEq, Eq)]
pub struct MemPage {
    pub bytes: Vec<u8>,
}

impl MemPage {
    /// A page of `size` bytes that are all zero.
    pub fn zeroed(size: usize) -> (page: Self)
        ensures
            page.body().len() == size,
            forall|i: int| 0 <= i < size ==> page.body()[i] == 0,
    {
        let mut bytes: Vec<u8> = Vec::new();
        while bytes.len() < size
            invariant
                bytes@.len() <= size,
                forall|i: int| 0 <= i < bytes@.len() ==> bytes@[i] == 0,
            decreases size - bytes@.len(),
        {
            bytes.push(0);
        }
        Self { bytes }
    }
}

impl PageBody for MemPage {
    open spec fn body(&self) -> Seq<u8> {
        self.bytes@
    }
}

impl ReadPage for MemPage {
    /// Succeeds exactly when the bytes that are asked for lie in the page.
    fn read(&self, offset: usize, buf: &mut [u8]) -> (res: Result<(), StorageError>)
        ensures
            res is Ok <==> offset + old(buf)@.len() <= self.body().len(),
            res is Err ==> final(buf)@ == old(buf)@,
    {
        let len = buf.len();
        if offset > self.bytes.len() || self.bytes.len() - offset < len {
            return Err(StorageError::File(FileError::UnexpectedEof));
        }
        let size = self.bytes.len();
        let mut i: usize = 0;
        while i < len
            invariant
                i <= len,
                len == buf@.len(),
                size == self.bytes@.len(),
                offset + len <= size,
                forall|k: int| 0 <= k < i ==> buf@[k] == self.bytes@[offset + k],
            decreases len - i,
        {
            buf[i] = self.bytes[offset + i];
            i += 1;
        }
        proof {
            assert(buf@ =~= self.bytes@.subrange(offset as int, offset + len));
        }
        Ok(())
    }
}

impl WritePage for MemPage {
    /// Succeeds exactly when the bytes that are written lie in the page; a
    /// write that fails changes nothing.
    fn write(&mut self, offset: usize, buf: &[u8]) -> (res: Result<(), StorageError>)
        ensures
            res is Ok <==> offset + buf@.len() <= old(self).body().len(),
            res is Err ==> final(self).body() == old(self).body(),
    {
        let len = buf.len();
        if offset > self.bytes.len() || self.bytes.len() - offset < len {
            return Err(StorageError::File(FileError::UnexpectedEof));
        }
        let size = self.bytes.len();
        let mut i: usize = 0;
        while i < len
            invariant
                i <= len,
                len == buf@.len(),
                size == self.bytes@.len(),
                self.bytes@.len() == old(self).bytes@.len(),
                offset + len <= size,
                forall|k: int| 0 <= k < i ==> self.bytes@[offset + k] == buf@[k],
                forall|k: int|
                    0 <= k < self.bytes@.len() && !(offset <= k < offset + i) ==> self.bytes@[k]
                        == old(self).bytes@[k],
            decreases len - i,
        {
            self.bytes.set(offset + i, buf[i]);
            i += 1;
        }
        proof {
            assert(self.bytes@ =~= patched(old(self).bytes@, offset as int, buf@));
        }
        Ok(())
    }
}

} // verus!
