//! What the page store expects of a segment file: a container of fixed-size
//! pages, each stored together with the log index of its last write.

use vstd::prelude::*;
use crate::files::FileError;
use crate::page_store::WalIndex;

verus! {

/// The number of bytes in the body of a page.
pub const PAGE_BODY_SIZE: usize = 16384;

/// A segment file. The host implements it.
///
/// The file is modelled by the pages that were written to it: each page
/// number that was ever written maps to the bytes of the page's body and the
/// log index that came with the write.
pub trait SegmentFileApi: Sized {
    /// The pages that the file holds.
    spec fn pages(&self) -> Map<u16, (Seq<u8>, WalIndex)>;

    /// Reads the start of a page's body into `buf` and returns the log index
    /// of the page's last write, or `None` for a page that was never written.
    fn read(&self, page_num: u16, buf: &mut [u8]) -> (res: Result<Option<WalIndex>, FileError>)
        requires
            page_num != 0,
            old(buf)@.len() <= PAGE_BODY_SIZE,
        ensures
            final(buf)@.len() == old(buf)@.len(),
            res matches Ok(Some(index)) ==> {
                &&& self.pages().contains_key(page_num)
                &&& self.pages()[page_num].1 == index
                &&& final(buf)@ == self.pages()[page_num].0.take(old(buf)@.len() as int)
            },
            res matches Ok(None) ==> !self.pages().contains_key(page_num),
    ;

    /// Writes a page's body together with the log index of the write.
    fn write(&mut self, page_num: u16, buf: &[u8], wal_index: WalIndex) -> (res: Result<
        (),
        FileError,
    >)
        requires
            page_num != 0,
            buf@.len() == PAGE_BODY_SIZE,
        ensures
            res is Ok ==> final(self).pages() == old(self).pages().insert(
                page_num,
                (buf@, wal_index),
            ),
    ;
}


/// A write is idempotent: the same page written twice with the same log
/// index leaves the file as one such write leaves it.
pub proof fn lemma_write_idempotent(
    pages: Map<u16, (Seq<u8>, WalIndex)>,
    page_num: u16,
    body: Seq<u8>,
    wal_index: WalIndex,
)
    ensures
        pages.insert(page_num, (body, wal_index)).insert(page_num, (body, wal_index))
            == pages.insert(page_num, (body, wal_index)),
{
    assert(pages.insert(page_num, (body, wal_index)).insert(page_num, (body, wal_index))
        =~= pages.insert(page_num, (body, wal_index)));
}

} // verus!
