//! Files that live in memory. They behave as the page store expects of the
//! files of a database and keep nothing once they are dropped.

use vstd::prelude::*;
use crate::files::segment::{SegmentFileApi, PAGE_BODY_SIZE};
use crate::files::wal::{item_views, Item, ItemView, WalFileApi};
use crate::files::{gen_nums_of, DatabaseFolderApi, FileError};
use crate::page_store::table::{
    has_key, index_of, keys_distinct, lemma_index_of_unique, lookup, put, without,
};
use crate::page_store::WalIndex;

verus! {

/// A log file in memory. Its first item lies at the offset that the file was
/// made with, and each further item lies `step` after the one before.
#[derive(Debug)]
pub struct MemWalFile {
    items: Vec<(u64, Item)>,
    next: u64,
    step: u64,
    flushed: usize,
}

impl MemWalFile {
    #[verifier::type_invariant]
    spec fn inv(&self) -> bool {
        self.next != 0 && self.flushed <= self.items@.len()
    }

    /// The distance between the offsets of two items that follow each other.
    pub closed spec fn step(&self) -> u64 {
        self.step
    }

    /// An empty file.
    pub fn new(first_offset: u64, step: u64) -> (file: Self)
        requires
            first_offset != 0,
        ensures
            file@ == empty_wal_file(first_offset, step),
    {
        let file = Self { items: Vec::new(), next: first_offset, step, flushed: 0 };
        proof {
            assert(file.items() =~= Seq::empty());
        }
        file
    }

    /// A file that holds the given items at the given offsets. The next
    /// item will lie at `next_offset`.
    pub fn with_items(items: Vec<(u64, Item)>, next_offset: u64, step: u64) -> (file: Self)
        requires
            next_offset != 0,
        ensures
            file.items() == item_views(items@),
            file.end_offset() == next_offset,
            file.step() == step,
            file.flushed_len() == items@.len(),
    {
        let flushed = items.len();
        Self { items, next: next_offset, step, flushed }
    }

    /// How many items the file holds.
    pub fn len(&self) -> (n: usize)
        ensures
            n == self.items().len(),
    {
        self.items.len()
    }

    /// The item at a position and its offset.
    pub fn item(&self, position: usize) -> (entry: &(u64, Item))
        requires
            position < self.items().len(),
        ensures
            (entry.0, entry.1@) == self.items()[position as int],
    {
        &self.items[position]
    }

    /// How many of the items have been flushed.
    pub fn num_flushed(&self) -> (n: usize)
        ensures
            n == self.flushed_len(),
    {
        self.flushed
    }

    /// A copy of the file.
    pub fn duplicate(&self) -> (copy: Self)
        ensures
            copy@ == self@,
    {
        proof {
            use_type_invariant(self);
        }
        let items = copy_items(&self.items);
        proof {
            assert(items@.len() == item_views(items@).len());
            assert(self.items@.len() == item_views(self.items@).len());
        }
        Self { items, next: self.next, step: self.step, flushed: self.flushed }
    }
}

/// The model of a log file in memory: its items, the offset of the next
/// item, the distance between the offsets of two items, and how many items
/// are flushed.
pub struct MemWalFileView {
    pub items: Seq<(u64, ItemView)>,
    pub end_offset: u64,
    pub step: u64,
    pub flushed_len: nat,
}

impl View for MemWalFile {
    type V = MemWalFileView;

    open spec fn view(&self) -> MemWalFileView {
        MemWalFileView {
            items: self.items(),
            end_offset: self.end_offset(),
            step: self.step(),
            flushed_len: self.flushed_len(),
        }
    }
}

/// The model of a log file without items whose first item will lie at
/// `first_offset`.
pub open spec fn empty_wal_file(first_offset: u64, step: u64) -> MemWalFileView {
    MemWalFileView { items: Seq::empty(), end_offset: first_offset, step, flushed_len: 0 }
}

/// A copy of some items.
pub fn copy_items(items: &Vec<(u64, Item)>) -> (copy: Vec<(u64, Item)>)
    ensures
        item_views(copy@) == item_views(items@),
{
    let mut copy: Vec<(u64, Item)> = Vec::new();
    let mut i: usize = 0;
    while i < items.len()
        invariant
            i <= items.len(),
            copy@.len() == i,
            forall|k: int|
                0 <= k < i ==> (#[trigger] copy@[k]).0 == items@[k].0 && copy@[k].1@
                    == items@[k].1@,
        decreases items.len() - i,
    {
        copy.push((items[i].0, items[i].1.duplicate()));
        i += 1;
    }
    proof {
        assert(item_views(copy@) =~= item_views(items@));
    }
    copy
}

/// A copy of some items in reverse order.
pub fn copy_items_reversed(items: &Vec<(u64, Item)>) -> (copy: Vec<(u64, Item)>)
    ensures
        item_views(copy@) == item_views(items@).reverse(),
{
    let mut copy: Vec<(u64, Item)> = Vec::new();
    let mut i: usize = items.len();
    while i > 0
        invariant
            i <= items.len(),
            copy@.len() == items@.len() - i,
            forall|k: int|
                0 <= k < copy@.len() ==> (#[trigger] copy@[k]).0 == items@[items@.len() - 1 - k].0
                    && copy@[k].1@ == items@[items@.len() - 1 - k].1@,
        decreases i,
    {
        i -= 1;
        copy.push((items[i].0, items[i].1.duplicate()));
    }
    proof {
        assert(item_views(copy@) =~= item_views(items@).reverse());
    }
    copy
}

impl WalFileApi for MemWalFile {
    closed spec fn items(&self) -> Seq<(u64, ItemView)> {
        item_views(self.items@)
    }

    closed spec fn flushed_len(&self) -> nat {
        self.flushed as nat
    }

    closed spec fn end_offset(&self) -> u64 {
        self.next
    }

    closed spec fn byte_size(&self) -> usize {
        if self.next <= usize::MAX {
            self.next as usize
        } else {
            usize::MAX
        }
    }

    fn next_offset(&self) -> (offset: u64) {
        proof {
            use_type_invariant(self);
        }
        self.next
    }

    /// Fails, with nothing changed, exactly when the file cannot grow by
    /// another step or cannot count another item: it is out of space then.
    /// Otherwise the next item will lie one step behind the one that was
    /// appended.
    fn push_item(&mut self, item: &Item) -> (res: Result<u64, FileError>)
        ensures
            res is Err <==> old(self).step() > u64::MAX - old(self).end_offset() || old(
                self
            ).items().len() == usize::MAX,
            res matches Err(error) ==> error == FileError::OutOfSpace && final(self)@ == old(self)@,
            res is Ok ==> final(self).end_offset() == old(self).end_offset() + old(self).step()
                && final(self).step() == old(self).step(),
    {
        proof {
            use_type_invariant(&*self);
        }
        if self.step > u64::MAX - self.next || self.items.len() == usize::MAX {
            return Err(FileError::OutOfSpace);
        }
        let offset = self.next;
        let flushed = self.flushed;
        self.flushed = 0;
        let mut items: Vec<(u64, Item)> = Vec::new();
        core::mem::swap(&mut self.items, &mut items);
        let ghost before = item_views(items@);
        items.push((offset, item.duplicate()));
        proof {
            assert(item_views(items@) =~= before.push((offset, item@)));
        }
        core::mem::swap(&mut self.items, &mut items);
        self.flushed = flushed;
        self.next = offset + self.step;
        Ok(offset)
    }

    /// Never fails: every item is flushed afterwards.
    fn flush(&mut self) -> (res: Result<(), FileError>)
        ensures
            res is Ok,
            final(self).step() == old(self).step(),
    {
        proof {
            use_type_invariant(&*self);
        }
        self.flushed = self.items.len();
        Ok(())
    }

    fn size(&self) -> (bytes: usize) {
        if self.next <= usize::MAX as u64 {
            self.next as usize
        } else {
            usize::MAX
        }
    }

    /// Never fails, and leaves the file as it is.
    fn iter_items(&mut self) -> (res: Result<Vec<(u64, Item)>, FileError>)
        ensures
            res is Ok,
            final(self)@ == old(self)@,
    {
        Ok(copy_items(&self.items))
    }

    /// Never fails, and leaves the file as it is.
    fn iter_items_reverse(&mut self) -> (res: Result<Vec<(u64, Item)>, FileError>)
        ensures
            res is Ok,
            final(self)@ == old(self)@,
    {
        Ok(copy_items_reversed(&self.items))
    }
}


/// The pages that a run of writes leaves behind: of two writes to one page
/// the later one stays.
pub open spec fn pages_of(writes: Seq<(u16, Seq<u8>, WalIndex)>) -> Map<u16, (Seq<u8>, WalIndex)>
    decreases writes.len(),
{
    if writes.len() == 0 {
        Map::empty()
    } else {
        pages_of(writes.drop_last()).insert(writes.last().0, (writes.last().1, writes.last().2))
    }
}

/// The models of some page writes.
pub open spec fn write_views(writes: Seq<(u16, Vec<u8>, WalIndex)>) -> Seq<
    (u16, Seq<u8>, WalIndex),
> {
    Seq::new(writes.len(), |i: int| (writes[i].0, writes[i].1@, writes[i].2))
}

/// A segment file in memory. It remembers every write.
#[derive(Debug)]
pub struct MemSegmentFile {
    writes: Vec<(u16, Vec<u8>, WalIndex)>,
}

impl MemSegmentFile {
    #[verifier::type_invariant]
    spec fn inv(&self) -> bool {
        forall|i: int|
            0 <= i < self.writes@.len() ==> (#[trigger] self.writes@[i]).1@.len() == PAGE_BODY_SIZE
    }

    /// The writes that the file has taken, in their order: each with its
    /// page number, the page's body and the log index.
    pub closed spec fn history(&self) -> Seq<(u16, Seq<u8>, WalIndex)> {
        write_views(self.writes@)
    }

    /// The pages of the file are what its writes have left behind.
    pub proof fn lemma_pages(&self)
        ensures
            self.pages() == pages_of(self.history()),
    {
    }

    /// A segment file without pages.
    pub fn new() -> (file: Self)
        ensures
            file.history() == Seq::<(u16, Seq<u8>, WalIndex)>::empty(),
            file.pages() == Map::<u16, (Seq<u8>, WalIndex)>::empty(),
    {
        let file = Self { writes: Vec::new() };
        proof {
            assert(write_views(file.writes@) =~= Seq::empty());
        }
        file
    }

    /// How many writes the file has taken.
    pub fn num_writes(&self) -> (n: usize)
        ensures
            n == self.history().len(),
    {
        self.writes.len()
    }

    /// A copy of the file.
    pub fn duplicate(&self) -> (copy: Self)
        ensures
            copy.history() == self.history(),
            copy.pages() == self.pages(),
    {
        proof {
            use_type_invariant(self);
        }
        let mut writes: Vec<(u16, Vec<u8>, WalIndex)> = Vec::new();
        let mut i: usize = 0;
        while i < self.writes.len()
            invariant
                i <= self.writes@.len(),
                writes@.len() == i,
                forall|k: int|
                    0 <= k < i ==> (#[trigger] writes@[k]).0 == self.writes@[k].0 && writes@[k].1@
                        == self.writes@[k].1@ && writes@[k].2 == self.writes@[k].2,
            decreases self.writes@.len() - i,
        {
            writes.push(
                (
                    self.writes[i].0,
                    crate::files::wal::copy_bytes(self.writes[i].1.as_slice()),
                    self.writes[i].2,
                ),
            );
            i += 1;
        }
        proof {
            assert(write_views(writes@) =~= write_views(self.writes@));
            assert forall|k: int| 0 <= k < writes@.len() implies (#[trigger] writes@[k]).1@.len()
                == PAGE_BODY_SIZE by {
                assert(self.writes@[k].1@.len() == PAGE_BODY_SIZE);
            }
        }
        Self { writes }
    }
}

impl SegmentFileApi for MemSegmentFile {
    closed spec fn pages(&self) -> Map<u16, (Seq<u8>, WalIndex)> {
        pages_of(write_views(self.writes@))
    }

    /// Never fails: a page that was written gives the start of its body and
    /// the log index of its last write, any other page gives `None`.
    fn read(&self, page_num: u16, buf: &mut [u8]) -> (res: Result<Option<WalIndex>, FileError>)
        ensures
            res is Ok,
            res matches Ok(None) ==> final(buf)@ == old(buf)@,
    {
        proof {
            use_type_invariant(self);
        }
        let ghost views = write_views(self.writes@);
        let mut i: usize = self.writes.len();
        proof {
            assert(views.take(i as int) == views);
        }
        while i > 0
            invariant
                i <= self.writes@.len(),
                views == write_views(self.writes@),
                buf@ == old(buf)@,
                old(buf)@.len() <= PAGE_BODY_SIZE,
                forall|k: int|
                    0 <= k < self.writes@.len() ==> (#[trigger] self.writes@[k]).1@.len()
                        == PAGE_BODY_SIZE,
                pages_of(views).contains_key(page_num) <==> pages_of(
                    views.take(i as int),
                ).contains_key(page_num),
                pages_of(views).contains_key(page_num) ==> pages_of(views)[page_num] == pages_of(
                    views.take(i as int),
                )[page_num],
            decreases i,
        {
            i -= 1;
            proof {
                assert(views.take(i + 1).drop_last() == views.take(i as int));
                assert(views.take(i + 1).last() == views[i as int]);
                assert(views[i as int] == (
                    self.writes@[i as int].0,
                    self.writes@[i as int].1@,
                    self.writes@[i as int].2,
                ));
            }
            if self.writes[i].0 == page_num {
                let body = &self.writes[i].1;
                let mut k: usize = 0;
                while k < buf.len()
                    invariant
                        k <= buf@.len(),
                        buf@.len() == old(buf)@.len(),
                        buf@.len() <= body@.len(),
                        forall|j: int| 0 <= j < k ==> buf@[j] == body@[j],
                    decreases buf@.len() - k,
                {
                    buf[k] = body[k];
                    k += 1;
                }
                proof {
                    assert(buf@ =~= body@.take(buf@.len() as int));
                }
                return Ok(Some(self.writes[i].2));
            }
        }
        proof {
            assert(views.take(0).len() == 0);
        }
        Ok(None)
    }

    /// Never fails: the write is the last of the file's writes afterwards.
    fn write(&mut self, page_num: u16, buf: &[u8], wal_index: WalIndex) -> (res: Result<
        (),
        FileError,
    >)
        ensures
            res is Ok,
            final(self).history() == old(self).history().push((page_num, buf@, wal_index)),
    {
        proof {
            use_type_invariant(&*self);
        }
        let mut writes: Vec<(u16, Vec<u8>, WalIndex)> = Vec::new();
        core::mem::swap(&mut self.writes, &mut writes);
        let ghost before = write_views(writes@);
        writes.push((page_num, crate::files::wal::copy_bytes(buf), wal_index));
        proof {
            let after = write_views(writes@);
            assert(after.drop_last() =~= before);
            assert(after.last() == (page_num, buf@, wal_index));
            assert(after =~= before.push((page_num, buf@, wal_index)));
        }
        core::mem::swap(&mut self.writes, &mut writes);
        Ok(())
    }
}

/// No generation number comes twice among the files.
pub open spec fn gens_distinct<F>(files: Seq<(u64, F)>) -> bool {
    forall|i: int, j: int| 0 <= i < j < files.len() ==> (#[trigger] files[i]).0 != (#[trigger] files[j]).0
}

/// The models of some log files, each under its generation number.
pub open spec fn wal_file_views(files: Seq<(u64, MemWalFile)>) -> Seq<(u64, MemWalFileView)> {
    Seq::new(files.len(), |i: int| (files[i].0, files[i].1@))
}

/// The writes of some segment files, each under its segment number.
pub open spec fn segment_histories(files: Seq<(u32, MemSegmentFile)>) -> Seq<
    (u32, Seq<(u16, Seq<u8>, WalIndex)>),
> {
    Seq::new(files.len(), |i: int| (files[i].0, files[i].1.history()))
}

/// A folder in memory. It keeps a copy of each file that was put into it and
/// of each log file that was created in it; the files that it hands out are
/// copies too, so what is written to them does not come back to the folder.
/// A segment file that was not put into it is opened without pages.
#[derive(Debug)]
pub struct MemFolder {
    wal_files: Vec<(u64, MemWalFile)>,
    segment_files: Vec<(u32, MemSegmentFile)>,
    first_offset: u64,
    step: u64,
}

impl MemFolder {
    #[verifier::type_invariant]
    spec fn inv(&self) -> bool {
        &&& gens_distinct(self.wal_files@)
        &&& forall|i: int, j: int|
            0 <= i < j < self.segment_files@.len() ==> (#[trigger] self.segment_files@[i]).0 != (
            #[trigger] self.segment_files@[j]).0
        &&& self.first_offset != 0
    }

    /// The log files of the folder, each under its generation number, in
    /// the order in which they came into the folder.
    pub closed spec fn wal_files(&self) -> Seq<(u64, MemWalFileView)> {
        wal_file_views(self.wal_files@)
    }

    /// The segment files of the folder, each as the writes that it has
    /// taken under its segment number, in the order in which they came into
    /// the folder.
    pub closed spec fn segment_files(&self) -> Seq<(u32, Seq<(u16, Seq<u8>, WalIndex)>)> {
        segment_histories(self.segment_files@)
    }

    /// The offset of the first item of a log file that is created in the
    /// folder.
    pub closed spec fn first_offset(&self) -> u64 {
        self.first_offset
    }

    /// The distance between the offsets of two items of a log file that is
    /// created in the folder.
    pub closed spec fn step(&self) -> u64 {
        self.step
    }

    /// No generation and no segment has two files, and the generations with
    /// a log file are those of the log files.
    pub open spec fn wf(&self) -> bool {
        &&& keys_distinct(self.wal_files())
        &&& keys_distinct(self.segment_files())
        &&& self.wal_gens() == gen_nums_of(self.wal_files()).to_set()
        &&& self.first_offset() != 0
    }

    /// Every folder is well formed: this call makes that known where it
    /// stands.
    pub fn known_wf(&self)
        ensures
            self.wf(),
    {
        proof {
            use_type_invariant(self);
            assert(gen_nums_of(self.wal_files()) =~= gen_nums_of(self.wal_files@));
        }
    }

    /// A folder without files. A log file that is created in it starts at
    /// `first_offset`, and its items lie `step` apart.
    pub fn new(first_offset: u64, step: u64) -> (folder: Self)
        requires
            first_offset != 0,
        ensures
            folder.wal_files().len() == 0,
            folder.segment_files().len() == 0,
            folder.first_offset() == first_offset,
            folder.step() == step,
            folder.wal_gens() == Set::<u64>::empty(),
    {
        let folder = Self { wal_files: Vec::new(), segment_files: Vec::new(), first_offset, step };
        proof {
            assert(gen_nums_of(folder.wal_files@).to_set() =~= Set::<u64>::empty());
        }
        folder
    }

    fn find(&self, gen_num: u64) -> (found: Option<usize>)
        ensures
            match found {
                Some(i) => i < self.wal_files@.len() && self.wal_files@[i as int].0 == gen_num,
                None => forall|j: int|
                    0 <= j < self.wal_files@.len() ==> (#[trigger] self.wal_files@[j]).0 != gen_num,
            },
            match found {
                Some(i) => has_key(self.wal_files(), gen_num) && index_of(
                    self.wal_files(),
                    gen_num,
                ) == i,
                None => !has_key(self.wal_files(), gen_num),
            },
    {
        proof {
            use_type_invariant(self);
        }
        let mut i: usize = 0;
        while i < self.wal_files.len()
            invariant
                i <= self.wal_files@.len(),
                gens_distinct(self.wal_files@),
                forall|j: int| 0 <= j < i ==> (#[trigger] self.wal_files@[j]).0 != gen_num,
            decreases self.wal_files@.len() - i,
        {
            if self.wal_files[i].0 == gen_num {
                proof {
                    let views = self.wal_files();
                    assert(views[i as int].0 == gen_num);
                    assert forall|a: int, b: int| 0 <= a < b < views.len() implies (
                    #[trigger] views[a]).0 != (#[trigger] views[b]).0 by {
                        assert(self.wal_files@[a].0 != self.wal_files@[b].0);
                    }
                    lemma_index_of_unique(views, i as int);
                }
                return Some(i);
            }
            i += 1;
        }
        proof {
            let views = self.wal_files();
            if has_key(views, gen_num) {
                let j = index_of(views, gen_num);
                assert(self.wal_files@[j].0 == gen_num);
            }
        }
        None
    }

    fn find_segment(&self, segment_num: u32) -> (found: Option<usize>)
        ensures
            match found {
                Some(i) => i < self.segment_files@.len() && self.segment_files@[i as int].0
                    == segment_num,
                None => forall|j: int|
                    0 <= j < self.segment_files@.len() ==> (#[trigger] self.segment_files@[j]).0
                        != segment_num,
            },
            match found {
                Some(i) => has_key(self.segment_files(), segment_num) && index_of(
                    self.segment_files(),
                    segment_num,
                ) == i,
                None => !has_key(self.segment_files(), segment_num),
            },
    {
        proof {
            use_type_invariant(self);
        }
        let mut i: usize = 0;
        while i < self.segment_files.len()
            invariant
                i <= self.segment_files@.len(),
                forall|a: int, b: int|
                    0 <= a < b < self.segment_files@.len() ==> (#[trigger] self.segment_files@[a]).0
                        != (#[trigger] self.segment_files@[b]).0,
                forall|j: int| 0 <= j < i ==> (#[trigger] self.segment_files@[j]).0 != segment_num,
            decreases self.segment_files@.len() - i,
        {
            if self.segment_files[i].0 == segment_num {
                proof {
                    let views = self.segment_files();
                    assert(views[i as int].0 == segment_num);
                    assert forall|a: int, b: int| 0 <= a < b < views.len() implies (
                    #[trigger] views[a]).0 != (#[trigger] views[b]).0 by {
                        assert(self.segment_files@[a].0 != self.segment_files@[b].0);
                    }
                    lemma_index_of_unique(views, i as int);
                }
                return Some(i);
            }
            i += 1;
        }
        proof {
            let views = self.segment_files();
            if has_key(views, segment_num) {
                let j = index_of(views, segment_num);
                assert(self.segment_files@[j].0 == segment_num);
            }
        }
        None
    }

    /// Puts a log file into the folder as the file of the generation
    /// `gen_num`, in place of the one that may be there.
    pub fn put_wal_file(&mut self, gen_num: u64, file: MemWalFile)
        ensures
            final(self).wal_files() == put(old(self).wal_files(), gen_num, file@),
            final(self).segment_files() == old(self).segment_files(),
            final(self).first_offset() == old(self).first_offset(),
            final(self).step() == old(self).step(),
            final(self).wal_gens() == old(self).wal_gens().insert(gen_num),
    {
        proof {
            use_type_invariant(&*self);
        }
        let found = self.find(gen_num);
        let mut files: Vec<(u64, MemWalFile)> = Vec::new();
        core::mem::swap(&mut self.wal_files, &mut files);
        let ghost before = files@;
        match found {
            Some(i) => {
                files.set(i, (gen_num, file));
                proof {
                    assert(gen_nums_of(files@) =~= gen_nums_of(before));
                    lemma_num_is_listed(before, i as int);
                    assert(gen_nums_of(before).to_set() =~= gen_nums_of(before).to_set().insert(
                        gen_num,
                    ));
                    assert(wal_file_views(files@) =~= wal_file_views(before).update(
                        i as int,
                        (gen_num, file@),
                    ));
                }
            },
            None => {
                files.push((gen_num, file));
                proof {
                    lemma_nums_pushed(before, (gen_num, file));
                    assert(wal_file_views(files@) =~= wal_file_views(before).push(
                        (gen_num, file@),
                    ));
                }
            },
        }
        core::mem::swap(&mut self.wal_files, &mut files);
    }

    /// Puts a segment file into the folder as the file of the segment
    /// `segment_num`, in place of the one that may be there.
    pub fn put_segment_file(&mut self, segment_num: u32, file: MemSegmentFile)
        ensures
            final(self).segment_files() == put(
                old(self).segment_files(),
                segment_num,
                file.history(),
            ),
            final(self).wal_files() == old(self).wal_files(),
            final(self).first_offset() == old(self).first_offset(),
            final(self).step() == old(self).step(),
            final(self).wal_gens() == old(self).wal_gens(),
    {
        proof {
            use_type_invariant(&*self);
        }
        let found = self.find_segment(segment_num);
        let mut files: Vec<(u32, MemSegmentFile)> = Vec::new();
        core::mem::swap(&mut self.segment_files, &mut files);
        let ghost before = files@;
        match found {
            Some(i) => {
                files.set(i, (segment_num, file));
                proof {
                    assert(segment_histories(files@) =~= segment_histories(before).update(
                        i as int,
                        (segment_num, file.history()),
                    ));
                }
            },
            None => {
                files.push((segment_num, file));
                proof {
                    assert(segment_histories(files@) =~= segment_histories(before).push(
                        (segment_num, file.history()),
                    ));
                }
            },
        }
        core::mem::swap(&mut self.segment_files, &mut files);
    }

    /// How many log files the folder holds.
    pub fn num_wal_files(&self) -> (n: usize)
        ensures
            n == self.wal_files().len(),
    {
        self.wal_files.len()
    }

    /// Whether the folder holds a log file of the generation.
    pub fn has_wal_file(&self, gen_num: u64) -> (present: bool)
        ensures
            present == has_key(self.wal_files(), gen_num),
            present == self.wal_gens().contains(gen_num),
    {
        let found = self.find(gen_num);
        proof {
            match found {
                Some(i) => {
                    lemma_num_is_listed(self.wal_files@, i as int);
                },
                None => {
                    lemma_num_not_listed(self.wal_files@, gen_num);
                },
            }
        }
        found.is_some()
    }
}

/// The number of a listed file is among the numbers.
proof fn lemma_num_is_listed<F>(files: Seq<(u64, F)>, i: int)
    requires
        0 <= i < files.len(),
    ensures
        gen_nums_of(files).to_set().contains(files[i].0),
{
    assert(gen_nums_of(files)[i] == files[i].0);
    assert(gen_nums_of(files).contains(files[i].0));
}

/// A number that no file has is not among the numbers.
proof fn lemma_num_not_listed<F>(files: Seq<(u64, F)>, gen_num: u64)
    requires
        forall|j: int| 0 <= j < files.len() ==> (#[trigger] files[j]).0 != gen_num,
    ensures
        !gen_nums_of(files).to_set().contains(gen_num),
{
    if gen_nums_of(files).to_set().contains(gen_num) {
        let j = choose|j: int| 0 <= j < files.len() && gen_nums_of(files)[j] == gen_num;
        assert(files[j].0 == gen_num);
    }
}

/// One more file adds its number to the numbers.
proof fn lemma_nums_pushed<F>(files: Seq<(u64, F)>, file: (u64, F))
    ensures
        gen_nums_of(files.push(file)).to_set() == gen_nums_of(files).to_set().insert(file.0),
        gens_distinct(files) && (forall|j: int|
            0 <= j < files.len() ==> (#[trigger] files[j]).0 != file.0) ==> gens_distinct(
            files.push(file),
        ),
{
    let longer = files.push(file);
    assert(gen_nums_of(longer) =~= gen_nums_of(files).push(file.0));
    assert forall|g: u64|
        gen_nums_of(longer).to_set().contains(g) <==> gen_nums_of(files).to_set().insert(
            file.0,
        ).contains(g) by {
        if gen_nums_of(longer).to_set().contains(g) {
            let j = choose|j: int| 0 <= j < longer.len() && gen_nums_of(longer)[j] == g;
            if j < files.len() {
                assert(gen_nums_of(files)[j] == g);
                assert(gen_nums_of(files).contains(g));
            }
        }
        if gen_nums_of(files).to_set().contains(g) {
            let j = choose|j: int| 0 <= j < files.len() && gen_nums_of(files)[j] == g;
            assert(gen_nums_of(longer)[j] == g);
            assert(gen_nums_of(longer).contains(g));
        }
        if g == file.0 {
            assert(gen_nums_of(longer)[files.len() as int] == g);
            assert(gen_nums_of(longer).contains(g));
        }
    }
    assert(gen_nums_of(longer).to_set() =~= gen_nums_of(files).to_set().insert(file.0));
    if gens_distinct(files) && (forall|j: int|
        0 <= j < files.len() ==> (#[trigger] files[j]).0 != file.0) {
        assert forall|i: int, j: int| 0 <= i < j < longer.len() implies (#[trigger] longer[i]).0 != (
        #[trigger] longer[j]).0 by {
            if j < files.len() {
                assert(files[i].0 != files[j].0);
            } else {
                assert(files[i].0 != file.0);
            }
        }
    }
}

/// Without one of its files a folder has lost that file's number and no
/// other.
proof fn lemma_nums_removed<F>(files: Seq<(u64, F)>, i: int)
    requires
        gens_distinct(files),
        0 <= i < files.len(),
    ensures
        gens_distinct(files.remove(i)),
        gen_nums_of(files.remove(i)).to_set() == gen_nums_of(files).to_set().remove(files[i].0),
{
    let shorter = files.remove(i);
    assert forall|a: int, b: int| 0 <= a < b < shorter.len() implies (#[trigger] shorter[a]).0 != (
    #[trigger] shorter[b]).0 by {
        let sa = if a < i { a } else { a + 1 };
        let sb = if b < i { b } else { b + 1 };
        assert(shorter[a] == files[sa]);
        assert(shorter[b] == files[sb]);
        assert(files[sa].0 != files[sb].0);
    }
    assert forall|g: u64|
        gen_nums_of(shorter).to_set().contains(g) <==> gen_nums_of(files).to_set().remove(
            files[i].0,
        ).contains(g) by {
        if gen_nums_of(shorter).to_set().contains(g) {
            let a = choose|a: int| 0 <= a < shorter.len() && gen_nums_of(shorter)[a] == g;
            let sa = if a < i { a } else { a + 1 };
            assert(shorter[a] == files[sa]);
            assert(gen_nums_of(files)[sa] == g);
            assert(gen_nums_of(files).contains(g));
            if sa < i {
                assert(files[sa].0 != files[i].0);
            } else {
                assert(files[i].0 != files[sa].0);
            }
        }
        if gen_nums_of(files).to_set().contains(g) && g != files[i].0 {
            let b = choose|b: int| 0 <= b < files.len() && gen_nums_of(files)[b] == g;
            let a = if b < i { b } else { b - 1 };
            assert(shorter[a] == files[b]);
            assert(gen_nums_of(shorter)[a] == g);
            assert(gen_nums_of(shorter).contains(g));
        }
    }
    assert(gen_nums_of(shorter).to_set() =~= gen_nums_of(files).to_set().remove(files[i].0));
}

impl DatabaseFolderApi for MemFolder {
    type SegmentFile = MemSegmentFile;

    type WalFile = MemWalFile;

    closed spec fn wal_gens(&self) -> Set<u64> {
        gen_nums_of(self.wal_files@).to_set()
    }

    /// Never fails: opens a copy of the file that the folder holds for the
    /// segment, or a file without pages if it holds none. The folder stays
    /// as it is.
    fn open_segment_file(&mut self, segment_num: u32) -> (res: Result<MemSegmentFile, FileError>)
        ensures
            res matches Ok(file) && file.history() == match lookup(
                old(self).segment_files(),
                segment_num,
            ) {
                Some(history) => history,
                None => Seq::empty(),
            },
            final(self).segment_files() == old(self).segment_files(),
            final(self).wal_files() == old(self).wal_files(),
            final(self).first_offset() == old(self).first_offset(),
            final(self).step() == old(self).step(),
    {
        match self.find_segment(segment_num) {
            Some(i) => Ok(self.segment_files[i].1.duplicate()),
            None => Ok(MemSegmentFile::new()),
        }
    }

    /// Never fails: the folder holds no log file afterwards.
    fn clear_wal_files(&mut self) -> (res: Result<(), FileError>)
        ensures
            res is Ok,
            final(self).wal_files().len() == 0,
            final(self).segment_files() == old(self).segment_files(),
            final(self).first_offset() == old(self).first_offset(),
            final(self).step() == old(self).step(),
    {
        proof {
            use_type_invariant(&*self);
        }
        self.wal_files = Vec::new();
        proof {
            assert(gen_nums_of(self.wal_files@).to_set() =~= Set::<u64>::empty());
        }
        Ok(())
    }

    /// Never fails: hands out a copy of each log file, in the folder's
    /// order. The folder stays as it is.
    fn iter_wal_files(&mut self) -> (res: Result<Vec<(u64, MemWalFile)>, FileError>)
        ensures
            res matches Ok(files) && wal_file_views(files@) == old(self).wal_files(),
            final(self).wal_files() == old(self).wal_files(),
            final(self).segment_files() == old(self).segment_files(),
            final(self).first_offset() == old(self).first_offset(),
            final(self).step() == old(self).step(),
    {
        proof {
            use_type_invariant(&*self);
        }
        let mut files: Vec<(u64, MemWalFile)> = Vec::new();
        let mut i: usize = 0;
        while i < self.wal_files.len()
            invariant
                i <= self.wal_files@.len(),
                files@.len() == i,
                forall|k: int|
                    0 <= k < i ==> (#[trigger] files@[k]).0 == self.wal_files@[k].0 && files@[k].1@
                        == self.wal_files@[k].1@,
            decreases self.wal_files@.len() - i,
        {
            files.push((self.wal_files[i].0, self.wal_files[i].1.duplicate()));
            i += 1;
        }
        proof {
            assert(gen_nums_of(files@) =~= gen_nums_of(self.wal_files@));
            assert(wal_file_views(files@) =~= wal_file_views(self.wal_files@));
            assert forall|a: int, b: int|
                0 <= a < gen_nums_of(files@).len() && 0 <= b < gen_nums_of(files@).len() && a
                    != b implies gen_nums_of(files@)[a] != gen_nums_of(files@)[b] by {
                if a < b {
                    assert(self.wal_files@[a].0 != self.wal_files@[b].0);
                } else {
                    assert(self.wal_files@[b].0 != self.wal_files@[a].0);
                }
            }
        }
        Ok(files)
    }

    /// Never fails: opens a copy of the log file that the folder holds for
    /// the generation. If it holds none, an empty file is created, which is
    /// the last of the folder's log files afterwards.
    fn open_wal_file(&mut self, gen_num: u64) -> (res: Result<MemWalFile, FileError>)
        ensures
            res matches Ok(file) && match lookup(old(self).wal_files(), gen_num) {
                Some(held) => file@ == held && final(self).wal_files() == old(self).wal_files(),
                None => file@ == empty_wal_file(old(self).first_offset(), old(self).step())
                    && final(self).wal_files() == old(self).wal_files().push((gen_num, file@)),
            },
            final(self).segment_files() == old(self).segment_files(),
            final(self).first_offset() == old(self).first_offset(),
            final(self).step() == old(self).step(),
    {
        proof {
            use_type_invariant(&*self);
        }
        match self.find(gen_num) {
            Some(i) => {
                proof {
                    lemma_num_is_listed(self.wal_files@, i as int);
                }
                Ok(self.wal_files[i].1.duplicate())
            },
            None => {
                let created = MemWalFile::new(self.first_offset, self.step);
                let handed_out = created.duplicate();
                let mut files: Vec<(u64, MemWalFile)> = Vec::new();
                core::mem::swap(&mut self.wal_files, &mut files);
                proof {
                    lemma_nums_pushed(files@, (gen_num, created));
                    lemma_num_not_listed(files@, gen_num);
                }
                let ghost before = files@;
                files.push((gen_num, created));
                proof {
                    assert(wal_file_views(files@) =~= wal_file_views(before).push(
                        (gen_num, created@),
                    ));
                }
                core::mem::swap(&mut self.wal_files, &mut files);
                Ok(handed_out)
            },
        }
    }

    /// Never fails: the folder holds no log file of the generation
    /// afterwards, and every other file as before.
    fn delete_wal_file(&mut self, gen_num: u64) -> (res: Result<(), FileError>)
        ensures
            res is Ok,
            final(self).wal_files() == without(old(self).wal_files(), gen_num),
            final(self).segment_files() == old(self).segment_files(),
            final(self).first_offset() == old(self).first_offset(),
            final(self).step() == old(self).step(),
    {
        proof {
            use_type_invariant(&*self);
        }
        match self.find(gen_num) {
            Some(i) => {
                let mut files: Vec<(u64, MemWalFile)> = Vec::new();
                core::mem::swap(&mut self.wal_files, &mut files);
                proof {
                    lemma_nums_removed(files@, i as int);
                }
                let ghost before = files@;
                files.remove(i);
                proof {
                    assert(wal_file_views(files@) =~= wal_file_views(before).remove(i as int));
                }
                core::mem::swap(&mut self.wal_files, &mut files);
                Ok(())
            },
            None => {
                proof {
                    lemma_num_not_listed(self.wal_files@, gen_num);
                }
                Ok(())
            },
        }
    }
}

} // verus!
