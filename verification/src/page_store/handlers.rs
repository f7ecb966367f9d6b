//! Handlers for the partial writes that recovery and rollback produce.

use vstd::prelude::*;
use crate::files::segment::PAGE_BODY_SIZE;
use crate::files::wal::copy_bytes;
use crate::page_store::wal::{PartialWriteHandler, PartialWriteOp, PartialWriteOpView};
use crate::files::FileError;
use crate::page_store::{PageAddress, StorageError, WalIndex};

verus! {

/// A partial write that owns its bytes.
#[derive(Debug, PartialEq, Eq)]
pub struct RecordedWriteOp {
    pub index: WalIndex,
    pub page_address: PageAddress,
    pub offset: u16,
    pub buf: Vec<u8>,
}

impl View for RecordedWriteOp {
    type V = PartialWriteOpView;

    open spec fn view(&self) -> PartialWriteOpView {
        PartialWriteOpView {
            index: self.index,
            page_address: self.page_address,
            offset: self.offset,
            buf: self.buf@,
        }
    }
}

/// The models of some recorded writes.
pub open spec fn recorded_views(ops: Seq<RecordedWriteOp>) -> Seq<PartialWriteOpView> {
    Seq::new(ops.len(), |i: int| ops[i]@)
}

/// A handler that applies nothing and keeps every write that it is handed,
/// in order.
#[derive(Debug)]
pub struct OpRecorder {
    pub ops: Vec<RecordedWriteOp>,
}

impl OpRecorder {
    /// A recorder that has seen no write.
    pub fn new() -> (recorder: Self)
        ensures
            recorder.ops@.len() == 0,
            recorder.applied() == Seq::<PartialWriteOpView>::empty(),
    {
        let recorder = Self { ops: Vec::new() };
        proof {
            assert(recorded_views(recorder.ops@) =~= Seq::empty());
        }
        recorder
    }
}

impl PartialWriteHandler for OpRecorder {
    open spec fn applied(&self) -> Seq<PartialWriteOpView> {
        recorded_views(self.ops@)
    }

    /// Never fails: the write is the last of the recorded ones afterwards.
    fn handle<'a>(&mut self, op: PartialWriteOp<'a>) -> (res: Result<(), StorageError>)
        ensures
            res is Ok,
            final(self).ops@.len() == old(self).ops@.len() + 1,
            final(self).ops@.last()@ == op@,
            final(self).ops@.drop_last() == old(self).ops@,
    {
        self.ops.push(
            RecordedWriteOp {
                index: op.index,
                page_address: op.page_address,
                offset: op.offset,
                buf: copy_bytes(op.buf),
            },
        );
        proof {
            assert(recorded_views(self.ops@) =~= recorded_views(old(self).ops@).push(op@));
        }
        Ok(())
    }
}


/// The bytes of all pages: each byte under the address of its page and its
/// offset in the page.
pub type PageBytes = Map<(PageAddress, int), u8>;

/// Whether the partial write `op` covers the byte at `offset` of the page
/// `page`.
pub open spec fn covers(op: PartialWriteOpView, page: PageAddress, offset: int) -> bool {
    page == op.page_address && op.offset <= offset < op.offset + op.buf.len()
}

/// The bytes of all pages after a partial write was applied to them.
pub open spec fn written(pages: PageBytes, op: PartialWriteOpView) -> PageBytes {
    Map::new(
        |key: (PageAddress, int)| pages.dom().contains(key) || covers(op, key.0, key.1),
        |key: (PageAddress, int)|
            if covers(op, key.0, key.1) {
                op.buf[key.1 - op.offset]
            } else {
                pages[key]
            },
    )
}

/// The bytes of all pages after some partial writes were applied to them
/// one after the other.
pub open spec fn written_all(pages: PageBytes, ops: Seq<PartialWriteOpView>) -> PageBytes
    decreases ops.len(),
{
    if ops.len() == 0 {
        pages
    } else {
        written(written_all(pages, ops.drop_last()), ops.last())
    }
}

/// A compensation restores what its write replaced: where the pages hold
/// the bytes `from` before the write and the write puts as many bytes in
/// their place, the write followed by its compensation leaves the pages as
/// they were.
pub proof fn lemma_compensation_restores(
    pages: PageBytes,
    page: PageAddress,
    offset: u16,
    from: Seq<u8>,
    to: Seq<u8>,
    write_index: WalIndex,
    undo_index: WalIndex,
)
    requires
        from.len() == to.len(),
        forall|k: int|
            #![trigger from[k]]
            0 <= k < from.len() ==> pages.dom().contains((page, offset + k)) && pages[(
                page,
                offset + k,
            )] == from[k],
    ensures
        written(
            written(
                pages,
                PartialWriteOpView { index: write_index, page_address: page, offset, buf: to },
            ),
            PartialWriteOpView { index: undo_index, page_address: page, offset, buf: from },
        ) == pages,
{
    let write = PartialWriteOpView { index: write_index, page_address: page, offset, buf: to };
    let undo = PartialWriteOpView { index: undo_index, page_address: page, offset, buf: from };
    let after = written(written(pages, write), undo);
    assert forall|key: (PageAddress, int)| after.dom().contains(key) <==> pages.dom().contains(
        key,
    ) by {
        if covers(undo, key.0, key.1) || covers(write, key.0, key.1) {
            let k = key.1 - offset;
            let byte = from[k];
            assert(key == (page, offset + k));
        }
    }
    assert forall|key: (PageAddress, int)| after.dom().contains(key) implies after[key]
        == pages[key] by {
        if covers(undo, key.0, key.1) {
            let k = key.1 - offset;
            let byte = from[k];
            assert(key == (page, offset + k));
        }
    }
    assert(after =~= pages);
}

/// A partial write that is applied twice leaves what it leaves when it is
/// applied once: a recovery may apply a write again that has reached the
/// pages before.
pub proof fn lemma_written_twice(pages: PageBytes, op: PartialWriteOpView)
    ensures
        written(written(pages, op), op) == written(pages, op),
{
    assert(written(written(pages, op), op) =~= written(pages, op));
}


/// Whether one of the partial writes covers the byte at `offset` of the
/// page `page`.
pub open spec fn covered(ops: Seq<PartialWriteOpView>, page: PageAddress, offset: int) -> bool {
    exists|i: int| 0 <= i < ops.len() && covers(#[trigger] ops[i], page, offset)
}

/// A byte that later writes cover, or that a write does not touch, is the
/// same with and without that write.
proof fn lemma_write_hidden_at(
    pages: PageBytes,
    before: Seq<PartialWriteOpView>,
    write: PartialWriteOpView,
    after: Seq<PartialWriteOpView>,
)
    ensures
        forall|key: (PageAddress, int)|
            #![trigger written_all(pages, before + seq![write] + after).dom().contains(key)]
            covered(after, key.0, key.1) || !covers(write, key.0, key.1) ==> {
                &&& written_all(pages, before + seq![write] + after).dom().contains(key)
                    <==> written_all(pages, before + after).dom().contains(key)
                &&& written_all(pages, before + seq![write] + after).dom().contains(key)
                    ==> written_all(pages, before + seq![write] + after)[key] == written_all(
                    pages,
                    before + after,
                )[key]
            },
    decreases after.len(),
{
    let with = written_all(pages, before + seq![write] + after);
    let without = written_all(pages, before + after);
    if after.len() == 0 {
        assert(before + seq![write] + after =~= (before + after).push(write));
        assert((before + after).push(write).drop_last() =~= before + after);
    } else {
        let earlier = after.drop_last();
        let last = after.last();
        lemma_write_hidden_at(pages, before, write, earlier);
        assert((before + seq![write] + after).drop_last() =~= before + seq![write] + earlier);
        assert((before + after).drop_last() =~= before + earlier);
        assert forall|key: (PageAddress, int)|
            covered(after, key.0, key.1) || !covers(write, key.0, key.1) implies {
            &&& (#[trigger] with.dom().contains(key)) <==> without.dom().contains(key)
            &&& with.dom().contains(key) ==> with[key] == without[key]
        } by {
            if !covers(last, key.0, key.1) && covered(after, key.0, key.1) {
                let i = choose|i: int|
                    0 <= i < after.len() && covers(#[trigger] after[i], key.0, key.1);
                assert(earlier[i] == after[i]);
                assert(covered(earlier, key.0, key.1));
            }
            if !covers(last, key.0, key.1) {
                let earlier_with = written_all(pages, before + seq![write] + earlier);
                let earlier_without = written_all(pages, before + earlier);
                assert(earlier_with.dom().contains(key) <==> earlier_without.dom().contains(key));
            }
        }
    }
}

/// A write that is taken back leaves no trace: where a later partial write
/// covers the same bytes, as the compensation of a write does, the pages
/// are in the end what they are if the write is never applied. So the
/// writes of unfinished transactions that recovery applies again and then
/// takes back change nothing in what recovery leaves.
pub proof fn lemma_write_taken_back(
    pages: PageBytes,
    before: Seq<PartialWriteOpView>,
    write: PartialWriteOpView,
    after: Seq<PartialWriteOpView>,
    k: int,
)
    requires
        0 <= k < after.len(),
        after[k].page_address == write.page_address,
        after[k].offset == write.offset,
        after[k].buf.len() == write.buf.len(),
    ensures
        written_all(pages, before + seq![write] + after) == written_all(pages, before + after),
{
    let with = written_all(pages, before + seq![write] + after);
    let without = written_all(pages, before + after);
    lemma_write_hidden_at(pages, before, write, after);
    assert forall|key: (PageAddress, int)|
        ((#[trigger] with.dom().contains(key)) <==> without.dom().contains(key)) && (
        with.dom().contains(key) ==> with[key] == without[key]) by {
        if covers(write, key.0, key.1) {
            assert(covers(after[k], key.0, key.1));
            assert(covered(after, key.0, key.1));
        }
    }
    assert(with =~= without);
}


/// The partial writes without those whose indices are in `taken_back`, in
/// their order.
pub open spec fn without_taken_back(
    ops: Seq<PartialWriteOpView>,
    taken_back: Set<WalIndex>,
) -> Seq<PartialWriteOpView>
    decreases ops.len(),
{
    if ops.len() == 0 {
        Seq::empty()
    } else if taken_back.contains(ops.last().index) {
        without_taken_back(ops.drop_last(), taken_back)
    } else {
        without_taken_back(ops.drop_last(), taken_back).push(ops.last())
    }
}

/// One of the partial writes `later` covers exactly the bytes that `write`
/// covers.
pub open spec fn taken_back_by(write: PartialWriteOpView, later: Seq<PartialWriteOpView>) -> bool {
    exists|k: int|
        0 <= k < later.len() && (#[trigger] later[k]).page_address == write.page_address
            && later[k].offset == write.offset && later[k].buf.len() == write.buf.len()
}

/// What a recovery leaves in the pages is what the writes of the finished
/// transactions leave, followed by the compensations: the writes that are
/// taken back may as well never have been applied again.
///
/// `redone` are the writes that are applied again, `compensations` the
/// writes that take some of them back, and `taken_back` the indices of those.
/// This holds as long as each write that is taken back has a compensation
/// over the very bytes that it covers; a write that is not taken back in
/// full stays in the pages.
pub proof fn lemma_recovery_leaves_finished_writes(
    pages: PageBytes,
    redone: Seq<PartialWriteOpView>,
    compensations: Seq<PartialWriteOpView>,
    taken_back: Set<WalIndex>,
)
    requires
        forall|i: int|
            0 <= i < redone.len() && taken_back.contains((#[trigger] redone[i]).index)
                ==> taken_back_by(redone[i], compensations),
    ensures
        written_all(pages, redone + compensations) == written_all(
            pages,
            without_taken_back(redone, taken_back) + compensations,
        ),
    decreases redone.len(),
{
    if redone.len() == 0 {
        assert(redone + compensations =~= without_taken_back(redone, taken_back) + compensations);
    } else {
        let earlier = redone.drop_last();
        let last = redone.last();
        assert(redone[redone.len() - 1] == last);
        assert forall|i: int|
            0 <= i < earlier.len() && taken_back.contains(
                (#[trigger] earlier[i]).index,
            ) implies taken_back_by(earlier[i], compensations) by {
            assert(earlier[i] == redone[i]);
        }
        assert(redone + compensations =~= earlier + seq![last] + compensations);
        if taken_back.contains(last.index) {
            let k = choose|k: int|
                0 <= k < compensations.len() && (#[trigger] compensations[k]).page_address
                    == last.page_address && compensations[k].offset == last.offset
                    && compensations[k].buf.len() == last.buf.len();
            lemma_write_taken_back(pages, earlier, last, compensations, k);
            lemma_recovery_leaves_finished_writes(pages, earlier, compensations, taken_back);
        } else {
            // The last write stays: it is counted among what follows.
            let later = seq![last] + compensations;
            assert forall|i: int|
                0 <= i < earlier.len() && taken_back.contains(
                    (#[trigger] earlier[i]).index,
                ) implies taken_back_by(earlier[i], later) by {
                let k = choose|k: int|
                    0 <= k < compensations.len() && (#[trigger] compensations[k]).page_address
                        == earlier[i].page_address && compensations[k].offset == earlier[i].offset
                        && compensations[k].buf.len() == earlier[i].buf.len();
                assert(later[k + 1] == compensations[k]);
            }
            lemma_recovery_leaves_finished_writes(pages, earlier, later, taken_back);
            assert(earlier + seq![last] + compensations =~= earlier + later);
            assert(without_taken_back(redone, taken_back) + compensations
                =~= without_taken_back(earlier, taken_back) + later);
        }
    }
}

/// The byte at `offset` of the page `address` among some pages that are
/// held in memory: zero where the page is not among them or ends before
/// the offset.
pub open spec fn byte_of(pages: Seq<(PageAddress, Seq<u8>)>, address: PageAddress, offset: int) -> u8
    decreases pages.len(),
{
    if pages.len() == 0 {
        0
    } else if pages.last().0 == address {
        if 0 <= offset < pages.last().1.len() {
            pages.last().1[offset]
        } else {
            0
        }
    } else {
        byte_of(pages.drop_last(), address, offset)
    }
}

/// The models of some pages.
pub open spec fn page_views(pages: Seq<(PageAddress, Vec<u8>)>) -> Seq<(PageAddress, Seq<u8>)> {
    Seq::new(pages.len(), |i: int| (pages[i].0, pages[i].1@))
}

/// Pages in memory that start out as zeros and take the partial writes that
/// they are handed: what a buffer cache does with the writes of a recovery.
pub struct PageTable {
    pages: Vec<(PageAddress, Vec<u8>)>,
    applied: Ghost<Seq<PartialWriteOpView>>,
}

/// No two of the pages have one address, and each has the size of a page
/// body.
spec fn pages_ok(pages: Seq<(PageAddress, Vec<u8>)>) -> bool {
    &&& forall|i: int, j: int| 0 <= i < j < pages.len() ==> pages[i].0 != pages[j].0
    &&& forall|i: int| 0 <= i < pages.len() ==> (#[trigger] pages[i]).1@.len() == PAGE_BODY_SIZE
}

/// The byte of a page that stands at a position among pages with distinct
/// addresses.
proof fn lemma_byte_of_at(pages: Seq<(PageAddress, Seq<u8>)>, position: int, offset: int)
    requires
        0 <= position < pages.len(),
        forall|i: int, j: int| 0 <= i < j < pages.len() ==> pages[i].0 != pages[j].0,
    ensures
        byte_of(pages, pages[position].0, offset) == if 0 <= offset < pages[position].1.len() {
            pages[position].1[offset]
        } else {
            0u8
        },
    decreases pages.len(),
{
    if position < pages.len() - 1 {
        assert(pages[position].0 != pages[pages.len() - 1].0);
        let earlier = pages.drop_last();
        assert forall|i: int, j: int| 0 <= i < j < earlier.len() implies earlier[i].0
            != earlier[j].0 by {
            assert(pages[i].0 != pages[j].0);
        }
        lemma_byte_of_at(earlier, position, offset);
    }
}

/// Every byte of a page that is not among the pages is zero.
proof fn lemma_byte_of_absent(pages: Seq<(PageAddress, Seq<u8>)>, address: PageAddress, offset: int)
    requires
        forall|i: int| 0 <= i < pages.len() ==> (#[trigger] pages[i]).0 != address,
    ensures
        byte_of(pages, address, offset) == 0,
    decreases pages.len(),
{
    if pages.len() > 0 {
        assert(pages[pages.len() - 1].0 != address);
        let earlier = pages.drop_last();
        assert forall|i: int| 0 <= i < earlier.len() implies (#[trigger] earlier[i]).0
            != address by {
            assert(earlier[i] == pages[i]);
        }
        lemma_byte_of_absent(earlier, address, offset);
    }
}

impl PageTable {
    #[verifier::type_invariant]
    spec fn inv(&self) -> bool {
        pages_ok(self.pages@)
    }

    /// The byte at `offset` of the page `address`; zero where nothing was
    /// written.
    pub closed spec fn byte(&self, address: PageAddress, offset: int) -> u8 {
        byte_of(page_views(self.pages@), address, offset)
    }

    /// Pages of zeros.
    pub fn new() -> (table: Self)
        ensures
            forall|address: PageAddress, offset: int| table.byte(address, offset) == 0,
            table.applied() == Seq::<PartialWriteOpView>::empty(),
    {
        let table = Self { pages: Vec::new(), applied: Ghost(Seq::empty()) };
        proof {
            assert(page_views(table.pages@) =~= Seq::empty());
        }
        table
    }

    fn find(&self, address: PageAddress) -> (found: Option<usize>)
        ensures
            match found {
                Some(i) => i < self.pages@.len() && self.pages@[i as int].0 == address,
                None => forall|i: int|
                    0 <= i < self.pages@.len() ==> (#[trigger] self.pages@[i]).0 != address,
            },
    {
        let mut i: usize = 0;
        while i < self.pages.len()
            invariant
                i <= self.pages@.len(),
                forall|k: int| 0 <= k < i ==> (#[trigger] self.pages@[k]).0 != address,
            decreases self.pages@.len() - i,
        {
            if self.pages[i].0 == address {
                return Some(i);
            }
            i += 1;
        }
        None
    }

    /// The bytes of the page `address` from `offset` on, `len` of them.
    pub fn read(&self, address: PageAddress, offset: u16, len: usize) -> (bytes: Vec<u8>)
        requires
            offset + len <= PAGE_BODY_SIZE,
        ensures
            bytes@.len() == len,
            forall|k: int| 0 <= k < len ==> bytes@[k] == self.byte(address, offset + k),
    {
        proof {
            use_type_invariant(self);
        }
        let found = self.find(address);
        let mut bytes: Vec<u8> = Vec::new();
        let mut k: usize = 0;
        while k < len
            invariant
                k <= len,
                offset + len <= PAGE_BODY_SIZE,
                pages_ok(self.pages@),
                bytes@.len() == k,
                match found {
                    Some(i) => i < self.pages@.len() && self.pages@[i as int].0 == address,
                    None => forall|i: int|
                        0 <= i < self.pages@.len() ==> (#[trigger] self.pages@[i]).0 != address,
                },
                forall|j: int| 0 <= j < k ==> bytes@[j] == self.byte(address, offset + j),
            decreases len - k,
        {
            let byte = match found {
                Some(i) => self.pages[i].1[offset as usize + k],
                None => 0,
            };
            proof {
                let views = page_views(self.pages@);
                match found {
                    Some(i) => {
                        assert forall|a: int, b: int| 0 <= a < b < views.len() implies views[a].0
                            != views[b].0 by {
                            assert(self.pages@[a].0 != self.pages@[b].0);
                        }
                        lemma_byte_of_at(views, i as int, offset + k);
                    },
                    None => {
                        assert forall|i: int| 0 <= i < views.len() implies (#[trigger] views[i]).0
                            != address by {
                            assert(self.pages@[i].0 != address);
                        }
                        lemma_byte_of_absent(views, address, offset + k);
                    },
                }
            }
            bytes.push(byte);
            k += 1;
        }
        bytes
    }
}


/// The byte of a page is the same among pages that hold that page alike,
/// whatever their other pages hold.
proof fn lemma_byte_of_same_page(
    first: Seq<(PageAddress, Seq<u8>)>,
    second: Seq<(PageAddress, Seq<u8>)>,
    address: PageAddress,
    offset: int,
)
    requires
        first.len() == second.len(),
        forall|i: int| 0 <= i < first.len() ==> (#[trigger] first[i]).0 == second[i].0,
        forall|i: int|
            0 <= i < first.len() && (#[trigger] first[i]).0 == address ==> first[i].1 == second[i].1,
    ensures
        byte_of(first, address, offset) == byte_of(second, address, offset),
    decreases first.len(),
{
    if first.len() > 0 {
        let last = first.len() - 1;
        assert(first[last].0 == second[last].0);
        if first[last].0 != address {
            assert forall|i: int| 0 <= i < first.drop_last().len() implies (
            #[trigger] first.drop_last()[i]).0 == second.drop_last()[i].0 by {
                assert(first.drop_last()[i] == first[i]);
                assert(second.drop_last()[i] == second[i]);
            }
            assert forall|i: int|
                0 <= i < first.drop_last().len() && (#[trigger] first.drop_last()[i]).0
                    == address implies first.drop_last()[i].1 == second.drop_last()[i].1 by {
                assert(first.drop_last()[i] == first[i]);
                assert(second.drop_last()[i] == second[i]);
            }
            lemma_byte_of_same_page(first.drop_last(), second.drop_last(), address, offset);
        }
    }
}

impl PartialWriteHandler for PageTable {
    closed spec fn applied(&self) -> Seq<PartialWriteOpView> {
        self.applied@
    }

    /// Takes every write that lies within a page. Afterwards the bytes that
    /// the write covers are the write's, and every other byte is what it
    /// was. A write that reaches beyond the end of a page is turned down
    /// and changes nothing.
    fn handle<'a>(&mut self, op: PartialWriteOp<'a>) -> (res: Result<(), StorageError>)
        ensures
            res is Ok <==> op.offset + op.buf@.len() <= PAGE_BODY_SIZE,
            res is Ok ==> forall|address: PageAddress, offset: int|
                #![trigger final(self).byte(address, offset)]
                final(self).byte(address, offset) == if covers(op@, address, offset) {
                    op.buf@[offset - op.offset]
                } else {
                    old(self).byte(address, offset)
                },
            res is Err ==> final(self).applied() == old(self).applied() && forall|
                address: PageAddress,
                offset: int,
            |
                #![trigger final(self).byte(address, offset)]
                final(self).byte(address, offset) == old(self).byte(address, offset),
    {
        proof {
            use_type_invariant(&*self);
        }
        let len = op.buf.len();
        let start = op.offset as usize;
        if len > PAGE_BODY_SIZE || start > PAGE_BODY_SIZE - len {
            return Err(StorageError::File(FileError::UnexpectedEof));
        }
        let found = self.find(op.page_address);
        let mut pages: Vec<(PageAddress, Vec<u8>)> = Vec::new();
        core::mem::swap(&mut self.pages, &mut pages);
        let ghost before = page_views(pages@);
        proof {
            assert forall|a: int, b: int| 0 <= a < b < before.len() implies before[a].0
                != before[b].0 by {
                assert(pages@[a].0 != pages@[b].0);
            }
        }
        let position = match found {
            Some(position) => position,
            None => {
                let mut body: Vec<u8> = Vec::new();
                while body.len() < PAGE_BODY_SIZE
                    invariant
                        body@.len() <= PAGE_BODY_SIZE,
                        forall|i: int| 0 <= i < body@.len() ==> body@[i] == 0,
                    decreases PAGE_BODY_SIZE - body@.len(),
                {
                    body.push(0);
                }
                pages.push((op.page_address, body));
                pages.len() - 1
            },
        };
        let ghost created = page_views(pages@);
        proof {
            assert forall|a: int, b: int| 0 <= a < b < created.len() implies created[a].0
                != created[b].0 by {
                if b < before.len() {
                    assert(created[a] == before[a] && created[b] == before[b]);
                } else {
                    assert(created[a] == before[a]);
                    assert(old(self).pages@[a].0 != op.page_address);
                }
            }
            // A page of zeros changes no byte.
            assert forall|address: PageAddress, offset: int|
                byte_of(created, address, offset) == byte_of(before, address, offset) by {
                if found is None {
                    assert(created.drop_last() =~= before);
                    if address == op.page_address {
                        assert forall|i: int| 0 <= i < before.len() implies (
                        #[trigger] before[i]).0 != address by {
                            assert(old(self).pages@[i].0 != address);
                        }
                        lemma_byte_of_absent(before, address, offset);
                    }
                } else {
                    assert(created =~= before);
                }
            }
        }
        let mut k: usize = 0;
        while k < len
            invariant
                k <= len,
                len == op.buf@.len(),
                start == op.offset,
                start + len <= PAGE_BODY_SIZE,
                position < pages@.len(),
                pages@.len() == created.len(),
                pages_ok(pages@),
                forall|i: int| 0 <= i < pages@.len() ==> (#[trigger] pages@[i]).0 == created[i].0,
                forall|i: int|
                    0 <= i < pages@.len() && i != position ==> (#[trigger] pages@[i]).1@
                        == created[i].1,
                pages@[position as int].0 == op.page_address,
                forall|j: int|
                    0 <= j < PAGE_BODY_SIZE ==> pages@[position as int].1@[j] == if start <= j
                        < start + k {
                        op.buf@[j - start]
                    } else {
                        created[position as int].1[j]
                    },
            decreases len - k,
        {
            pages[position].1[start + k] = op.buf[k];
            k += 1;
        }
        let ghost after = page_views(pages@);
        core::mem::swap(&mut self.pages, &mut pages);
        self.applied = Ghost(self.applied@.push(op@));
        proof {
            assert forall|a: int, b: int| 0 <= a < b < after.len() implies after[a].0
                != after[b].0 by {
                assert(created[a].0 != created[b].0);
            }
            assert forall|address: PageAddress, offset: int|
                #![trigger self.byte(address, offset)]
                self.byte(address, offset) == if covers(op@, address, offset) {
                    op.buf@[offset - op.offset]
                } else {
                    old(self).byte(address, offset)
                } by {
                if address == op.page_address {
                    lemma_byte_of_at(after, position as int, offset);
                    lemma_byte_of_at(created, position as int, offset);
                } else {
                    lemma_byte_of_same_page(after, created, address, offset);
                }
            }
        }
        Ok(())
    }
}

} // verus!
