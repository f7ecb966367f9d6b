//! The items of the write-ahead log and what the page store expects of a
//! file that holds one generation of them.

use vstd::prelude::*;
use crate::files::FileError;
use crate::page_store::table::{DirtyPageTable, TransactionTable};
use crate::page_store::{PageAddress, TransactionState, WalIndex};

verus! {

/// What every item of a transaction carries: the transaction's id and the
/// index of the transaction's previous item, if it has one.
#[derive(Debug, Clone, Copy, PartialEq, Eq, Structural)]
pub struct TransactionData {
    pub transaction_id: u64,
    pub prev_transaction_item: Option<WalIndex>,
}

/// A mutation of a page: `to` replaces the bytes at `offset`. `from` holds
/// the bytes that were there; it is absent in a compensation record, which
/// reverts an earlier write.
#[derive(Debug, PartialEq, Eq)]
pub struct WriteData {
    pub transaction_data: TransactionData,
    pub page_address: PageAddress,
    pub offset: u16,
    pub from: Option<Vec<u8>>,
    pub to: Vec<u8>,
}

/// A snapshot of the log's state.
#[derive(Debug, PartialEq, Eq)]
pub struct CheckpointData {
    pub dirty_pages: DirtyPageTable,
    pub transactions: TransactionTable,
}

/// An item of the log.
#[derive(Debug, PartialEq, Eq)]
pub enum Item {
    Write(WriteData),
    Commit(TransactionData),
    Checkpoint(CheckpointData),
}

/// The model of a [`WriteData`].
pub struct WriteDataView {
    pub transaction_data: TransactionData,
    pub page_address: PageAddress,
    pub offset: u16,
    pub from: Option<Seq<u8>>,
    pub to: Seq<u8>,
}

/// The model of a [`CheckpointData`].
pub struct CheckpointDataView {
    pub dirty_pages: Seq<(PageAddress, WalIndex)>,
    pub transactions: Seq<(u64, TransactionState)>,
}

/// The model of an [`Item`].
pub enum ItemView {
    Write(WriteDataView),
    Commit(TransactionData),
    Checkpoint(CheckpointDataView),
}

/// The model of optional bytes.
pub open spec fn bytes_view(bytes: Option<Vec<u8>>) -> Option<Seq<u8>> {
    match bytes {
        Some(b) => Some(b@),
        None => None,
    }
}

impl View for WriteData {
    type V = WriteDataView;

    open spec fn view(&self) -> WriteDataView {
        WriteDataView {
            transaction_data: self.transaction_data,
            page_address: self.page_address,
            offset: self.offset,
            from: bytes_view(self.from),
            to: self.to@,
        }
    }
}

impl View for CheckpointData {
    type V = CheckpointDataView;

    open spec fn view(&self) -> CheckpointDataView {
        CheckpointDataView { dirty_pages: self.dirty_pages@, transactions: self.transactions@ }
    }
}

impl View for Item {
    type V = ItemView;

    open spec fn view(&self) -> ItemView {
        match self {
            Item::Write(data) => ItemView::Write(data@),
            Item::Commit(data) => ItemView::Commit(*data),
            Item::Checkpoint(data) => ItemView::Checkpoint(data@),
        }
    }
}

/// A copy of some bytes.
pub fn copy_bytes(bytes: &[u8]) -> (copy: Vec<u8>)
    ensures
        copy@ == bytes@,
{
    let mut copy: Vec<u8> = Vec::new();
    let mut i: usize = 0;
    while i < bytes.len()
        invariant
            i <= bytes.len(),
            copy@ == bytes@.take(i as int),
        decreases bytes.len() - i,
    {
        copy.push(bytes[i]);
        proof {
            assert(copy@ =~= bytes@.take(i + 1));
        }
        i += 1;
    }
    proof {
        assert(bytes@.take(bytes@.len() as int) == bytes@);
    }
    copy
}

impl WriteData {
    /// A copy of the write.
    pub fn duplicate(&self) -> (copy: Self)
        ensures
            copy@ == self@,
    {
        let from = match &self.from {
            Some(bytes) => Some(copy_bytes(bytes.as_slice())),
            None => None,
        };
        WriteData {
            transaction_data: self.transaction_data,
            page_address: self.page_address,
            offset: self.offset,
            from,
            to: copy_bytes(self.to.as_slice()),
        }
    }
}

impl CheckpointData {
    /// A copy of the checkpoint.
    pub fn duplicate(&self) -> (copy: Self)
        ensures
            copy@ == self@,
    {
        CheckpointData {
            dirty_pages: self.dirty_pages.duplicate(),
            transactions: self.transactions.duplicate(),
        }
    }
}

impl Item {
    /// A copy of the item.
    pub fn duplicate(&self) -> (copy: Self)
        ensures
            copy@ == self@,
    {
        match self {
            Item::Write(data) => Item::Write(data.duplicate()),
            Item::Commit(data) => Item::Commit(*data),
            Item::Checkpoint(data) => Item::Checkpoint(data.duplicate()),
        }
    }
}

/// The models of some items, each with its offset.
pub open spec fn item_views(items: Seq<(u64, Item)>) -> Seq<(u64, ItemView)> {
    Seq::new(items.len(), |i: int| (items[i].0, items[i].1@))
}

/// A file that holds one generation of the log. The host implements it.
///
/// The file is modelled by the items that it holds, in the order in which
/// they were appended, each with its offset, and by how many of them have
/// been flushed.
pub trait WalFileApi: Sized {
    /// The items of the file in the order of their offsets.
    spec fn items(&self) -> Seq<(u64, ItemView)>;

    /// How many items, counted from the start, are known to be durable.
    spec fn flushed_len(&self) -> nat;

    /// The offset at which the next item will be stored.
    spec fn end_offset(&self) -> u64;

    /// The size of the file in bytes.
    spec fn byte_size(&self) -> usize;

    /// The offset that the next appended item gets. It is never zero.
    fn next_offset(&self) -> (offset: u64)
        ensures
            offset == self.end_offset(),
            offset != 0,
    ;

    /// Appends an item and returns its offset.
    fn push_item(&mut self, item: &Item) -> (res: Result<u64, FileError>)
        ensures
            res matches Ok(offset) ==> {
                &&& offset == old(self).end_offset()
                &&& final(self).items() == old(self).items().push((offset, item@))
                &&& final(self).flushed_len() == old(self).flushed_len()
            },
    ;

    /// Makes every item appended so far durable.
    fn flush(&mut self) -> (res: Result<(), FileError>)
        ensures
            final(self).items() == old(self).items(),
            final(self).end_offset() == old(self).end_offset(),
            final(self).byte_size() == old(self).byte_size(),
            res is Ok ==> final(self).flushed_len() == final(self).items().len(),
    ;

    /// The size of the file in bytes.
    fn size(&self) -> (bytes: usize)
        ensures
            bytes == self.byte_size(),
    ;

    /// Reads the items of the file from the first to the last.
    fn iter_items(&mut self) -> (res: Result<Vec<(u64, Item)>, FileError>)
        ensures
            final(self).items() == old(self).items(),
            final(self).end_offset() == old(self).end_offset(),
            final(self).flushed_len() == old(self).flushed_len(),
            final(self).byte_size() == old(self).byte_size(),
            res matches Ok(items) ==> item_views(items@) == old(self).items(),
    ;

    /// Reads the items of the file from the last to the first.
    fn iter_items_reverse(&mut self) -> (res: Result<Vec<(u64, Item)>, FileError>)
        ensures
            final(self).items() == old(self).items(),
            final(self).end_offset() == old(self).end_offset(),
            final(self).flushed_len() == old(self).flushed_len(),
            final(self).byte_size() == old(self).byte_size(),
            res matches Ok(items) ==> item_views(items@) == old(self).items().reverse(),
    ;
}

} // verus!
