//! The write-ahead log: an append-only record of writes, commits and
//! checkpoints, kept in generations, one file each.

use vstd::prelude::*;
use vstd::multiset::Multiset;
use core::time::Duration;
use crate::files::wal::{
    copy_bytes, item_views, CheckpointData, CheckpointDataView, Item, ItemView, TransactionData,
    WalFileApi, WriteData, WriteDataView,
};
use crate::files::{gen_nums_of, DatabaseFolderApi};
use crate::page_store::recovery::{
    lemma_redo_ops_prefix, compensations, indexed, last_indices, lemma_compensations_concat,
    lemma_compensations_of_victims, lemma_last_indices_of_open, lemma_reverse_log_same_items,
    lemma_scan_end_concat, lowest_last_index, lowest_of, read_initial_state, redo_op, redo_ops,
    reverse_log, scan_end, scan_generation, seed_state, undo_compensations, undo_views,
};
use crate::page_store::state::{
    empty_state, handled, lemma_replayed_push, lemma_with_item_keys, min_first_gen, replayed, State,
    StateView,
};
use crate::page_store::table::{has_key, index_of, keys_of, lemma_without, lookup, without};
use crate::page_store::{PageAddress, StorageError, TransactionState, WalIndex};

verus! {

/// A generation is rotated out by a checkpoint once its file has grown to
/// this many bytes, unless the configuration says otherwise.
pub const DEFAULT_MAX_WAL_GENERATION_SIZE: usize = 4194304;

/// The seconds between two periodic checkpoints, unless the configuration
/// says otherwise.
pub const DEFAULT_CHECKPOINT_PERIOD_SECS: u64 = 30;

/// `Duration::from_secs` of the standard library makes the duration of a
/// number of seconds. Nothing is claimed of the duration: the log hands it
/// on to the host, which runs the timer.
pub assume_specification[ Duration::from_secs ](secs: u64) -> (duration: Duration)
;

/// The configuration of the log.
#[derive(Debug, PartialEq, Eq)]
pub struct WalConfig {
    /// The size in bytes from which on a generation asks for a checkpoint.
    pub max_generation_size: usize,
    /// The time between two periodic checkpoints.
    pub checkpoint_period: Duration,
}

impl Default for WalConfig {
    fn default() -> (config: Self)
        ensures
            config.max_generation_size == DEFAULT_MAX_WAL_GENERATION_SIZE,
    {
        Self {
            max_generation_size: DEFAULT_MAX_WAL_GENERATION_SIZE,
            checkpoint_period: Duration::from_secs(DEFAULT_CHECKPOINT_PERIOD_SECS),
        }
    }
}

/// A write to a part of a page that recovery or a rollback asks the buffer
/// cache to apply: `buf` replaces the bytes at `offset`.
#[derive(Debug, Clone, PartialEq, Eq)]
pub struct PartialWriteOp<'a> {
    pub index: WalIndex,
    pub page_address: PageAddress,
    pub offset: u16,
    pub buf: &'a [u8],
}

/// The model of a [`PartialWriteOp`].
pub struct PartialWriteOpView {
    pub index: WalIndex,
    pub page_address: PageAddress,
    pub offset: u16,
    pub buf: Seq<u8>,
}

impl<'a> View for PartialWriteOp<'a> {
    type V = PartialWriteOpView;

    open spec fn view(&self) -> PartialWriteOpView {
        PartialWriteOpView {
            index: self.index,
            page_address: self.page_address,
            offset: self.offset,
            buf: self.buf@,
        }
    }
}

/// A write that a transaction asks the log to record: the bytes at `offset`
/// change from `from` to `to`.
#[derive(Debug, Clone, PartialEq, Eq)]
pub struct WriteLog<'a> {
    pub transaction_id: u64,
    pub page_address: PageAddress,
    pub offset: u16,
    pub from: &'a [u8],
    pub to: &'a [u8],
}

/// A compensation: the write that takes an earlier write of a transaction
/// back by storing what was there before.
#[derive(Debug)]
pub struct UndoLog {
    pub transaction_id: u64,
    pub page_address: PageAddress,
    pub offset: u16,
    pub to: Vec<u8>,
}

/// The model of an [`UndoLog`].
pub struct UndoLogView {
    pub transaction_id: u64,
    pub page_address: PageAddress,
    pub offset: u16,
    pub to: Seq<u8>,
}

impl View for UndoLog {
    type V = UndoLogView;

    open spec fn view(&self) -> UndoLogView {
        UndoLogView {
            transaction_id: self.transaction_id,
            page_address: self.page_address,
            offset: self.offset,
            to: self.to@,
        }
    }
}

impl UndoLog {
    /// A copy of the compensation.
    pub fn duplicate(&self) -> (copy: Self)
        ensures
            copy@ == self@,
    {
        UndoLog {
            transaction_id: self.transaction_id,
            page_address: self.page_address,
            offset: self.offset,
            to: copy_bytes(self.to.as_slice()),
        }
    }
}

/// The end of a transaction that the log is asked to record.
#[derive(Debug, Clone, Copy, PartialEq, Eq, Structural)]
pub struct CommitLog {
    pub transaction_id: u64,
}

/// Receives the partial writes that recovery and rollback produce. The
/// buffer cache implements it.
///
/// The handler is modelled by the writes that it has accepted, in order.
pub trait PartialWriteHandler {
    /// The writes that the handler has accepted so far.
    spec fn applied(&self) -> Seq<PartialWriteOpView>;

    /// Applies a write to the page that it addresses.
    fn handle<'a>(&mut self, op: PartialWriteOp<'a>) -> (res: Result<(), StorageError>)
        ensures
            res is Ok ==> final(self).applied() == old(self).applied().push(op@),
    ;
}

/// One generation of the log: its number and the file that holds its items.
pub struct WalGeneration<DF: DatabaseFolderApi> {
    pub gen_num: u64,
    pub file: DF::WalFile,
}

/// The model of a generation.
pub struct GenerationView {
    pub gen_num: u64,
    pub items: Seq<(u64, ItemView)>,
    pub flushed_len: nat,
    pub end_offset: u64,
    pub byte_size: usize,
}

impl<DF: DatabaseFolderApi> View for WalGeneration<DF> {
    type V = GenerationView;

    open spec fn view(&self) -> GenerationView {
        GenerationView {
            gen_num: self.gen_num,
            items: self.file.items(),
            flushed_len: self.file.flushed_len(),
            end_offset: self.file.end_offset(),
            byte_size: self.file.byte_size(),
        }
    }
}

impl<DF: DatabaseFolderApi> WalGeneration<DF> {
    /// The generation `generation_num`, whose items `file` holds.
    pub fn new(generation_num: u64, file: DF::WalFile) -> (generation: Self)
        ensures
            generation.gen_num == generation_num,
            generation.file == file,
    {
        Self { gen_num: generation_num, file }
    }
}

/// The generation numbers are in ascending order, so that the last
/// generation is the current one.
pub open spec fn gens_ascending(gens: Seq<GenerationView>) -> bool {
    forall|i: int, j: int|
        0 <= i < j < gens.len() ==> (#[trigger] gens[i]).gen_num <= (#[trigger] gens[j]).gen_num
}

/// The generations that some log files make up, in the order of the files.
pub open spec fn file_views<DF: DatabaseFolderApi>(files: Seq<(u64, DF::WalFile)>) -> Seq<
    GenerationView,
> {
    Seq::new(files.len(), |i: int| WalGeneration::<DF> { gen_num: files[i].0, file: files[i].1 }@)
}

/// The generations of the log, oldest first.
pub struct GenerationQueue<DF: DatabaseFolderApi> {
    pub generations: Vec<WalGeneration<DF>>,
    pub current_gen_num: u64,
}

impl<DF: DatabaseFolderApi> View for GenerationQueue<DF> {
    type V = Seq<GenerationView>;

    open spec fn view(&self) -> Seq<GenerationView> {
        Seq::new(self.generations@.len(), |i: int| self.generations@[i]@)
    }
}

impl<DF: DatabaseFolderApi> GenerationQueue<DF> {
    /// The generations are in ascending order and the last one is current.
    pub open spec fn wf(&self) -> bool {
        &&& gens_ascending(self@)
        &&& self@.len() > 0 ==> self@.last().gen_num == self.current_gen_num
        &&& self@.len() == 0 ==> self.current_gen_num == 0
    }

    /// A queue without generations.
    pub fn new() -> (queue: Self)
        ensures
            queue@.len() == 0,
            queue.current_gen_num == 0,
            queue.wf(),
    {
        Self { generations: Vec::new(), current_gen_num: 0 }
    }

    /// Makes `gen_num` the current generation.
    pub fn push_generation(&mut self, gen_num: u64, file: DF::WalFile)
        requires
            old(self).wf(),
            old(self).current_gen_num <= gen_num,
        ensures
            final(self).wf(),
            final(self).current_gen_num == gen_num,
            final(self)@ == old(self)@.push(WalGeneration::<DF> { gen_num, file }@),
    {
        self.current_gen_num = gen_num;
        self.generations.push(WalGeneration::new(gen_num, file));
        proof {
            assert(self@ =~= old(self)@.push(WalGeneration::<DF> { gen_num, file }@));
            assert forall|i: int, j: int| 0 <= i < j < self@.len() implies (#[trigger] self@[i]).gen_num
                <= (#[trigger] self@[j]).gen_num by {
                if j < old(self)@.len() {
                    assert(old(self)@[i].gen_num <= old(self)@[j].gen_num);
                } else if old(self)@.len() > 0 {
                    let last = old(self)@.len() - 1;
                    if i < last {
                        assert(old(self)@[i].gen_num <= old(self)@[last].gen_num);
                    }
                }
            }
        }
    }

    /// The queue of the given log files, ordered by their generation
    /// numbers.
    pub fn from_files(files: Vec<(u64, DF::WalFile)>) -> (queue: Self)
        ensures
            queue.wf(),
            queue@.to_multiset() == file_views::<DF>(files@).to_multiset(),
            queue@.len() == files@.len(),
    {
        broadcast use vstd::multiset::group_multiset_axioms;

        let ghost all = file_views::<DF>(files@);
        let mut files = files;
        let mut queue = Self::new();
        proof {
            assert(queue@ =~= Seq::<GenerationView>::empty());
            queue@.to_multiset_ensures();
            assert(queue@.to_multiset() =~= Multiset::<GenerationView>::empty());
            assert(queue@.to_multiset().add(file_views::<DF>(files@).to_multiset())
                =~= all.to_multiset());
        }
        while files.len() > 0
            invariant
                queue.wf(),
                queue@.to_multiset().add(file_views::<DF>(files@).to_multiset())
                    == all.to_multiset(),
                queue@.len() + files@.len() == all.len(),
                forall|i: int|
                    0 <= i < files@.len() ==> queue.current_gen_num <= (#[trigger] files@[i]).0,
            decreases files@.len(),
        {
            let mut lowest: usize = 0;
            let mut k: usize = 1;
            while k < files.len()
                invariant
                    1 <= k <= files@.len(),
                    lowest < files@.len(),
                    forall|j: int| 0 <= j < k ==> files@[lowest as int].0 <= (#[trigger] files@[j]).0,
                decreases files@.len() - k,
            {
                if files[k].0 < files[lowest].0 {
                    lowest = k;
                }
                k += 1;
            }
            let ghost before = files@;
            let ghost views_before = file_views::<DF>(before);
            let ghost queue_before = queue@;
            let (gen_num, file) = files.remove(lowest);
            proof {
                assert(before[lowest as int] == (gen_num, file));
                assert(file_views::<DF>(files@) =~= views_before.remove(lowest as int));
                vstd::seq_lib::to_multiset_remove(views_before, lowest as int);
                views_before.to_multiset_ensures();
                assert(views_before.to_multiset().count(views_before[lowest as int]) > 0);
                assert forall|i: int| 0 <= i < files@.len() implies gen_num <= (
                #[trigger] files@[i]).0 by {
                    if i < lowest {
                        assert(files@[i] == before[i]);
                    } else {
                        assert(files@[i] == before[i + 1]);
                    }
                }
            }
            queue.push_generation(gen_num, file);
            proof {
                let moved = views_before[lowest as int];
                assert(queue@ == queue_before.push(moved));
                vstd::seq_lib::to_multiset_build(queue_before, moved);
                assert(queue@.to_multiset().add(file_views::<DF>(files@).to_multiset())
                    =~= queue_before.to_multiset().add(views_before.to_multiset()));
            }
        }
        proof {
            assert(file_views::<DF>(files@) =~= Seq::<GenerationView>::empty());
            file_views::<DF>(files@).to_multiset_ensures();
            assert(file_views::<DF>(files@).to_multiset() =~= Multiset::<GenerationView>::empty());
            assert(queue@.to_multiset() =~= all.to_multiset());
        }
        queue
    }

    /// The position of the current generation, if there is a generation.
    pub fn current_generation(&self) -> (position: Option<usize>)
        ensures
            match position {
                Some(p) => self@.len() > 0 && p == self@.len() - 1,
                None => self@.len() == 0,
            },
    {
        if self.generations.len() == 0 {
            None
        } else {
            Some(self.generations.len() - 1)
        }
    }
}


/// What an item of the transaction `id` carries when it is logged while the
/// open transactions are `transactions`: the id, and the index of the
/// transaction's latest item if the transaction is open.
pub open spec fn transaction_data_for(
    transactions: Seq<(u64, TransactionState)>,
    id: u64,
) -> TransactionData {
    TransactionData {
        transaction_id: id,
        prev_transaction_item: match lookup(transactions, id) {
            Some(state) => Some(state.last_index),
            None => None,
        },
    }
}

/// Only the current generation differs between `before` and `after`, and it
/// is the same generation.
pub open spec fn same_but_current(before: Seq<GenerationView>, after: Seq<GenerationView>) -> bool {
    &&& after.len() == before.len()
    &&& after.len() > 0 ==> {
        &&& after.drop_last() == before.drop_last()
        &&& after.last().gen_num == before.last().gen_num
    }
}

/// `after` is `before` with `item` appended to the current generation at
/// `offset`, and nothing else changed that the log follows.
pub open spec fn appended_to_current(
    before: Seq<GenerationView>,
    after: Seq<GenerationView>,
    offset: u64,
    item: ItemView,
) -> bool {
    &&& before.len() > 0
    &&& same_but_current(before, after)
    &&& offset == before.last().end_offset
    &&& after.last().items == before.last().items.push((offset, item))
    &&& after.last().flushed_len == before.last().flushed_len
}

/// The item that records the compensation `compensation` when the open
/// transactions are `transactions`.
pub open spec fn compensation_item(
    transactions: Seq<(u64, TransactionState)>,
    compensation: UndoLogView,
) -> ItemView {
    ItemView::Write(
        WriteDataView {
            transaction_data: transaction_data_for(transactions, compensation.transaction_id),
            page_address: compensation.page_address,
            offset: compensation.offset,
            from: None,
            to: compensation.to,
        },
    )
}

/// The item that records the end of the transaction `id` when the open
/// transactions are `transactions`.
pub open spec fn commit_item(transactions: Seq<(u64, TransactionState)>, id: u64) -> ItemView {
    ItemView::Commit(transaction_data_for(transactions, id))
}

/// The partial write that applies a compensation that was logged at `index`.
pub open spec fn compensation_op(index: WalIndex, compensation: UndoLogView) -> PartialWriteOpView {
    PartialWriteOpView {
        index,
        page_address: compensation.page_address,
        offset: compensation.offset,
        buf: compensation.to,
    }
}

/// `tail` is what a rollback of `victims` appends to the generation
/// `generation` when it starts in the state `state` and has found the
/// compensations `compensations`: first one write for each compensation, in
/// their order, then one commit for each victim, in their order. Each item
/// carries the transaction data of the moment at which it is logged.
pub open spec fn rollback_appended(
    state: StateView,
    generation: u64,
    tail: Seq<(u64, ItemView)>,
    compensations: Seq<UndoLogView>,
    victims: Seq<u64>,
) -> bool {
    &&& tail.len() == compensations.len() + victims.len()
    &&& forall|k: int|
        0 <= k < compensations.len() ==> (#[trigger] tail[k]).1 == compensation_item(
            replayed(state, generation, tail.take(k)).transactions,
            compensations[k],
        )
    &&& forall|k: int|
        compensations.len() <= k < tail.len() ==> (#[trigger] tail[k]).1 == commit_item(
            replayed(state, generation, tail.take(k)).transactions,
            victims[k - compensations.len()],
        )
}

/// The partial writes that a rollback hands to the handler: one for each
/// compensation, in their order, each under the index at which the
/// compensation was logged.
pub open spec fn rollback_ops(
    generation: u64,
    tail: Seq<(u64, ItemView)>,
    compensations: Seq<UndoLogView>,
) -> Seq<PartialWriteOpView> {
    Seq::new(
        compensations.len(),
        |k: int| compensation_op(WalIndex { generation, offset: tail[k].0 }, compensations[k]),
    )
}

/// The write-ahead log over the folder `DF`.
pub struct Wal<DF: DatabaseFolderApi> {
    folder: DF,
    generations: GenerationQueue<DF>,
    state: State,
    max_generation_size: usize,
    checkpoint_due: bool,
}

impl<DF: DatabaseFolderApi> Wal<DF> {
    /// The generations of the log, oldest first.
    pub closed spec fn gens(&self) -> Seq<GenerationView> {
        self.generations@
    }

    /// The number of the current generation.
    pub closed spec fn current_gen_num(&self) -> u64 {
        self.generations.current_gen_num
    }

    /// The state that the log keeps in memory.
    pub closed spec fn state(&self) -> StateView {
        self.state@
    }

    /// The generations that have a file in the folder.
    pub closed spec fn folder_gens(&self) -> Set<u64> {
        self.folder.wal_gens()
    }

    /// The size from which on a generation asks for a checkpoint.
    pub closed spec fn max_generation_size(&self) -> usize {
        self.max_generation_size
    }

    /// Whether the current generation has grown so large that a checkpoint
    /// is due.
    pub closed spec fn checkpoint_due(&self) -> bool {
        self.checkpoint_due
    }

    /// The generations are in ascending order and the last one is current.
    pub closed spec fn wf(&self) -> bool {
        self.generations.wf()
    }

    /// In a well-formed log the last generation is the current one.
    pub proof fn lemma_wf(&self)
        requires
            self.wf(),
        ensures
            gens_ascending(self.gens()),
            self.gens().len() > 0 ==> self.gens().last().gen_num == self.current_gen_num(),
            self.gens().len() == 0 ==> self.current_gen_num() == 0,
    {
    }

    /// Whether a checkpoint is due; see [`Wal::checkpoint`].
    pub fn is_checkpoint_due(&self) -> (due: bool)
        ensures
            due == self.checkpoint_due(),
    {
        self.checkpoint_due
    }

    /// What an item of the transaction carries if it is logged now.
    pub fn create_transaction_data(&self, transaction_id: u64) -> (data: TransactionData)
        ensures
            data == transaction_data_for(self.state().transactions, transaction_id),
    {
        let prev_transaction_item = match self.state.transactions.get(transaction_id) {
            Some(state) => Some(state.last_index),
            None => None,
        };
        TransactionData { transaction_id, prev_transaction_item }
    }

    /// The item that records the write `write_log`.
    pub fn create_write_data<'a>(&self, write_log: WriteLog<'a>) -> (data: WriteData)
        ensures
            data@ == (WriteDataView {
                transaction_data: transaction_data_for(
                    self.state().transactions,
                    write_log.transaction_id,
                ),
                page_address: write_log.page_address,
                offset: write_log.offset,
                from: Some(write_log.from@),
                to: write_log.to@,
            }),
    {
        let transaction_data = self.create_transaction_data(write_log.transaction_id);
        WriteData {
            transaction_data,
            page_address: write_log.page_address,
            offset: write_log.offset,
            from: Some(copy_bytes(write_log.from)),
            to: copy_bytes(write_log.to),
        }
    }

    /// The item that records the compensation `undo_log`. It holds no
    /// earlier bytes: a compensation is never taken back itself.
    pub fn create_undo_write_data(&self, undo_log: UndoLog) -> (data: WriteData)
        ensures
            data@ == (WriteDataView {
                transaction_data: transaction_data_for(
                    self.state().transactions,
                    undo_log.transaction_id,
                ),
                page_address: undo_log.page_address,
                offset: undo_log.offset,
                from: None,
                to: undo_log.to@,
            }),
    {
        let transaction_data = self.create_transaction_data(undo_log.transaction_id);
        WriteData {
            transaction_data,
            page_address: undo_log.page_address,
            offset: undo_log.offset,
            from: None,
            to: undo_log.to,
        }
    }

    /// The index that the next item gets that is logged: that of the end of
    /// the current generation.
    pub open spec fn next_index(&self) -> WalIndex {
        WalIndex { generation: self.current_gen_num(), offset: self.gens().last().end_offset }
    }

    /// What logging one item does to the log `before`, giving `self` and the
    /// result `res`.
    ///
    /// Without a generation the log is not initialized and nothing changes.
    /// Otherwise the item is appended to the current generation at that
    /// generation's end offset; the state then follows the item, and a
    /// checkpoint becomes due once the generation's file has reached the
    /// configured size. If the file refuses the item, the state stays as it
    /// was.
    pub open spec fn item_logged(
        &self,
        before: &Self,
        item: ItemView,
        res: Result<WalIndex, StorageError>,
    ) -> bool {
        &&& self.wf()
        &&& self.folder_gens() == before.folder_gens()
        &&& self.max_generation_size() == before.max_generation_size()
        &&& self.current_gen_num() == before.current_gen_num()
        &&& same_but_current(before.gens(), self.gens())
        &&& before.gens().len() == 0 ==> res == Err::<WalIndex, StorageError>(
            StorageError::WalNotInitialized,
        ) && self.gens() == before.gens()
        &&& before.gens().len() > 0 ==> !(res matches Err(StorageError::WalNotInitialized))
        &&& res matches Ok(index) ==> {
            &&& index == (WalIndex {
                generation: before.current_gen_num(),
                offset: before.gens().last().end_offset,
            })
            &&& index.wf()
            &&& appended_to_current(before.gens(), self.gens(), index.offset, item)
            &&& self.state() == handled(before.state(), index, item)
            &&& self.checkpoint_due() == (before.checkpoint_due() || self.gens().last().byte_size
                >= before.max_generation_size())
        }
        &&& res is Err ==> {
            &&& self.state() == before.state()
            &&& self.checkpoint_due() == before.checkpoint_due()
        }
    }

    /// Appends an item to the current generation and then brings the state
    /// up to date with it. If the append fails the state stays as it was.
    /// Notes that a checkpoint is due once the generation's file has reached
    /// the configured size.
    pub fn push_raw_item(&mut self, item: &Item) -> (res: Result<WalIndex, StorageError>)
        requires
            old(self).wf(),
        ensures
            final(self).item_logged(old(self), item@, res),
    {
        let Some(position) = self.generations.current_generation() else {
            return Err(StorageError::WalNotInitialized);
        };
        let offset = self.generations.generations[position].file.next_offset();
        let index = WalIndex { generation: self.generations.current_gen_num, offset };

        let pushed = self.generations.generations[position].file.push_item(item);
        proof {
            assert(self.generations@.drop_last() =~= old(self).generations@.drop_last());
            assert forall|i: int, j: int| 0 <= i < j < self.generations@.len() implies (
            #[trigger] self.generations@[i]).gen_num <= (#[trigger] self.generations@[j]).gen_num by {
                assert(old(self).generations@[i].gen_num <= old(self).generations@[j].gen_num);
            }
        }
        match pushed {
            Err(error) => Err(StorageError::from_file_error(error)),
            Ok(_) => {
                self.state.handle_item(index, item);
                if self.generations.generations[position].file.size() >= self.max_generation_size {
                    self.checkpoint_due = true;
                }
                Ok(index)
            },
        }
    }

    /// Records a write of a transaction. The write is not flushed.
    pub fn log_write<'a>(&mut self, log: WriteLog<'a>) -> (res: Result<WalIndex, StorageError>)
        requires
            old(self).wf(),
        ensures
            final(self).item_logged(
                old(self),
                ItemView::Write(
                    WriteDataView {
                        transaction_data: transaction_data_for(
                            old(self).state().transactions,
                            log.transaction_id,
                        ),
                        page_address: log.page_address,
                        offset: log.offset,
                        from: Some(log.from@),
                        to: log.to@,
                    },
                ),
                res,
            ),
    {
        let write_data = self.create_write_data(log);
        let item = Item::Write(write_data);
        self.push_raw_item(&item)
    }

    /// Flushes the current generation, if there is one.
    pub fn flush_impl(&mut self) -> (res: Result<(), StorageError>)
        requires
            old(self).wf(),
        ensures
            final(self).wf(),
            final(self).flushed(old(self), res),
    {
        match self.generations.current_generation() {
            None => Ok(()),
            Some(position) => {
                let flushed = self.generations.generations[position].file.flush();
                proof {
                    assert(self.generations@.drop_last() =~= old(self).generations@.drop_last());
                    assert forall|i: int, j: int|
                        0 <= i < j < self.generations@.len() implies (
                    #[trigger] self.generations@[i]).gen_num <= (
                    #[trigger] self.generations@[j]).gen_num by {
                        assert(old(self).generations@[i].gen_num <= old(self).generations@[j].gen_num);
                    }
                }
                match flushed {
                    Ok(()) => Ok(()),
                    Err(error) => Err(StorageError::from_file_error(error)),
                }
            },
        }
    }

    /// What flushing does to the log `before`, giving `self` and the result
    /// `res`: no item moves, and on success every item of the current
    /// generation is durable. Without a generation there is nothing to flush.
    pub open spec fn flushed(&self, before: &Self, res: Result<(), StorageError>) -> bool {
        &&& self.state() == before.state()
        &&& self.folder_gens() == before.folder_gens()
        &&& self.max_generation_size() == before.max_generation_size()
        &&& self.current_gen_num() == before.current_gen_num()
        &&& self.checkpoint_due() == before.checkpoint_due()
        &&& same_but_current(before.gens(), self.gens())
        &&& !(res matches Err(StorageError::WalNotInitialized))
        &&& before.gens().len() == 0 ==> res is Ok
        &&& before.gens().len() > 0 ==> {
            &&& self.gens().last().items == before.gens().last().items
            &&& self.gens().last().end_offset == before.gens().last().end_offset
            &&& self.gens().last().byte_size == before.gens().last().byte_size
            &&& res is Ok ==> self.gens().last().flushed_len == self.gens().last().items.len()
        }
    }

    /// Records the end of a transaction and flushes the log, so that the
    /// transaction's items are durable when this returns `Ok`.
    ///
    /// The commit is logged as by [`Wal::push_raw_item`]; then the current
    /// generation is flushed. If the flush fails after the commit was
    /// appended, the error is returned although the state has followed the
    /// commit.
    pub fn log_commit(&mut self, log: CommitLog) -> (res: Result<WalIndex, StorageError>)
        requires
            old(self).wf(),
        ensures
            final(self).wf(),
            final(self).folder_gens() == old(self).folder_gens(),
            final(self).max_generation_size() == old(self).max_generation_size(),
            final(self).current_gen_num() == old(self).current_gen_num(),
            same_but_current(old(self).gens(), final(self).gens()),
            old(self).gens().len() == 0 <==> res matches Err(StorageError::WalNotInitialized),
            old(self).gens().len() == 0 ==> {
                &&& final(self).gens() == old(self).gens()
                &&& final(self).state() == old(self).state()
            },
            res matches Ok(index) ==> {
                &&& index == (WalIndex {
                    generation: old(self).current_gen_num(),
                    offset: old(self).gens().last().end_offset,
                })
                &&& final(self).gens().last().items == old(self).gens().last().items.push(
                    (
                        index.offset,
                        ItemView::Commit(
                            transaction_data_for(
                                old(self).state().transactions,
                                log.transaction_id,
                            ),
                        ),
                    ),
                )
                &&& final(self).gens().last().flushed_len == final(self).gens().last().items.len()
                &&& final(self).state().dirty_pages == old(self).state().dirty_pages
                &&& final(self).state().transactions == without(
                    old(self).state().transactions,
                    log.transaction_id,
                )
            },
            res is Err ==> {
                ||| final(self).state() == old(self).state()
                ||| final(self).state() == (StateView {
                    dirty_pages: old(self).state().dirty_pages,
                    transactions: without(old(self).state().transactions, log.transaction_id),
                })
            },
    {
        let transaction_data = self.create_transaction_data(log.transaction_id);
        let item = Item::Commit(transaction_data);
        let index = match self.push_raw_item(&item) {
            Ok(index) => index,
            Err(error) => {
                return Err(error);
            },
        };
        match self.flush_impl() {
            Ok(()) => Ok(index),
            Err(error) => Err(error),
        }
    }

    /// The buffer cache has written every dirty page to disk: no page is
    /// dirty any more.
    pub fn cache_did_flush(&mut self)
        ensures
            final(self).state().dirty_pages == Seq::<(PageAddress, WalIndex)>::empty(),
            final(self).state().transactions == old(self).state().transactions,
            final(self).gens() == old(self).gens(),
            final(self).folder_gens() == old(self).folder_gens(),
            final(self).max_generation_size() == old(self).max_generation_size(),
            final(self).current_gen_num() == old(self).current_gen_num(),
            final(self).checkpoint_due() == old(self).checkpoint_due(),
            final(self).wf() == old(self).wf(),
    {
        self.state.cache_did_flush();
    }

    /// Appends a checkpoint that holds the state as it is now to the
    /// current generation. The state itself does not change.
    pub fn log_checkpoint(&mut self) -> (res: Result<(), StorageError>)
        requires
            old(self).wf(),
        ensures
            final(self).wf(),
            final(self).state() == old(self).state(),
            final(self).folder_gens() == old(self).folder_gens(),
            final(self).max_generation_size() == old(self).max_generation_size(),
            final(self).current_gen_num() == old(self).current_gen_num(),
            final(self).checkpoint_due() == old(self).checkpoint_due(),
            same_but_current(old(self).gens(), final(self).gens()),
            old(self).gens().len() == 0 <==> res matches Err(StorageError::WalNotInitialized),
            old(self).gens().len() == 0 ==> final(self).gens() == old(self).gens(),
            res is Ok ==> appended_to_current(
                old(self).gens(),
                final(self).gens(),
                old(self).gens().last().end_offset,
                checkpoint_item(old(self).state()),
            ),
    {
        let Some(position) = self.generations.current_generation() else {
            return Err(StorageError::WalNotInitialized);
        };
        let item = Item::Checkpoint(
            CheckpointData {
                dirty_pages: self.state.dirty_pages.duplicate(),
                transactions: self.state.transactions.duplicate(),
            },
        );
        let pushed = self.generations.generations[position].file.push_item(&item);
        proof {
            assert(self.generations@.drop_last() =~= old(self).generations@.drop_last());
            assert forall|i: int, j: int| 0 <= i < j < self.generations@.len() implies (
            #[trigger] self.generations@[i]).gen_num <= (#[trigger] self.generations@[j]).gen_num by {
                assert(old(self).generations@[i].gen_num <= old(self).generations@[j].gen_num);
            }
        }
        match pushed {
            Ok(_) => Ok(()),
            Err(error) => Err(StorageError::from_file_error(error)),
        }
    }

    /// What every operation of the log leaves as it was: the folder's files,
    /// the configured size, the number of the current generation and every
    /// generation but the current one.
    pub open spec fn framed(&self, before: &Self) -> bool {
        &&& self.wf()
        &&& self.folder_gens() == before.folder_gens()
        &&& self.max_generation_size() == before.max_generation_size()
        &&& self.current_gen_num() == before.current_gen_num()
        &&& same_but_current(before.gens(), self.gens())
    }

    /// Records a compensation.
    pub fn log_undo(&mut self, undo_log: &UndoLog) -> (res: Result<WalIndex, StorageError>)
        requires
            old(self).wf(),
        ensures
            final(self).item_logged(
                old(self),
                compensation_item(old(self).state().transactions, undo_log@),
                res,
            ),
    {
        let write_data = self.create_undo_write_data(undo_log.duplicate());
        let item = Item::Write(write_data);
        self.push_raw_item(&item)
    }

    /// Records a compensation and hands it to the handler under the index at
    /// which it was logged.
    ///
    /// Without a generation the log is not initialized: nothing is logged
    /// and the handler is not called. Otherwise the file decides whether the
    /// compensation is logged, and only if it is, the handler is called and
    /// decides the result. So a failure leaves the handler untouched and the
    /// log as a failed append leaves it, or the log as a successful append
    /// leaves it.
    pub fn apply_undo_log<H: PartialWriteHandler>(
        &mut self,
        log: &UndoLog,
        handle: &mut H,
    ) -> (res: Result<WalIndex, StorageError>)
        requires
            old(self).wf(),
        ensures
            final(self).framed(old(self)),
            old(self).gens().len() == 0 ==> {
                &&& res == Err::<WalIndex, StorageError>(StorageError::WalNotInitialized)
                &&& final(self).gens() == old(self).gens()
                &&& final(self).state() == old(self).state()
                &&& final(handle).applied() == old(handle).applied()
            },
            res matches Ok(index) ==> {
                &&& final(self).item_logged(
                    old(self),
                    compensation_item(old(self).state().transactions, log@),
                    Ok(index),
                )
                &&& final(handle).applied() == old(handle).applied().push(
                    compensation_op(index, log@),
                )
            },
            res is Err ==> {
                ||| final(self).item_logged(
                    old(self),
                    compensation_item(old(self).state().transactions, log@),
                    res,
                ) && final(handle).applied() == old(handle).applied()
                ||| final(self).item_logged(
                    old(self),
                    compensation_item(old(self).state().transactions, log@),
                    Ok(old(self).next_index()),
                )
            },
    {
        let index = match self.log_undo(log) {
            Ok(index) => index,
            Err(error) => {
                return Err(error);
            },
        };
        let op = PartialWriteOp {
            page_address: log.page_address,
            offset: log.offset,
            index,
            buf: log.to.as_slice(),
        };
        match handle.handle(op) {
            Ok(()) => Ok(index),
            Err(error) => Err(error),
        }
    }

    /// Reads the log backwards, from the newest generation to the oldest,
    /// and collects the compensations for the writes of `victims` down to
    /// the first item below `lowest`. A log without generations has none and
    /// gives them without fail; otherwise the files that are read decide, and
    /// the error of a file that cannot be read is handed on.
    pub fn collect_compensations(&mut self, victims: &Vec<u64>, lowest: WalIndex) -> (res: Result<
        Vec<UndoLog>,
        StorageError,
    >)
        requires
            old(self).wf(),
        ensures
            final(self).framed(old(self)),
            final(self).gens() == old(self).gens(),
            final(self).state() == old(self).state(),
            final(self).checkpoint_due() == old(self).checkpoint_due(),
            res matches Ok(found) ==> undo_views(found@) == undo_compensations(
                old(self).gens(),
                victims@,
                lowest,
            ),
            old(self).gens().len() == 0 ==> res is Ok,
            res matches Err(error) ==> error is File,
    {
        let mut found: Vec<UndoLog> = Vec::new();
        let ghost gens = self.generations@;
        let ghost mut done: Seq<(WalIndex, ItemView)> = Seq::empty();
        let mut remaining: usize = self.generations.generations.len();
        proof {
            assert(gens.take(remaining as int) == gens);
            assert(done + reverse_log(gens) == reverse_log(gens));
            assert(undo_views(found@) =~= compensations(done, victims@));
        }
        while remaining > 0
            invariant
                remaining <= gens.len(),
                old(self).generations.wf(),
                self.generations@ == gens,
                gens == old(self).generations@,
                self.generations.current_gen_num == old(self).generations.current_gen_num,
                self.state == old(self).state,
                self.folder == old(self).folder,
                self.max_generation_size == old(self).max_generation_size,
                self.checkpoint_due == old(self).checkpoint_due,
                reverse_log(gens) == done + reverse_log(gens.take(remaining as int)),
                scan_end(done, lowest) == done.len(),
                undo_views(found@) == compensations(done, victims@),
            decreases remaining,
        {
            let position = remaining - 1;
            let gen_num = self.generations.generations[position].gen_num;
            let read = self.generations.generations[position].file.iter_items_reverse();
            proof {
                assert(self.generations@ =~= gens);
            }
            let rev_items = match read {
                Ok(items) => items,
                Err(error) => {
                    return Err(StorageError::from_file_error(error));
                },
            };
            let ghost segment = indexed(gen_num, item_views(rev_items@));
            let ghost rest = reverse_log(gens.take(position as int));
            proof {
                assert(gens.take(remaining as int).last() == gens[position as int]);
                assert(gens.take(remaining as int).drop_last() == gens.take(position as int));
                assert(reverse_log(gens.take(remaining as int)) == segment + rest);
            }
            let stopped = scan_generation(&rev_items, gen_num, victims, lowest, &mut found);
            proof {
                let end = scan_end(segment, lowest);
                let log = reverse_log(gens);
                lemma_scan_end_concat(segment, rest, lowest);
                lemma_scan_end_concat(done, segment + rest, lowest);
                lemma_compensations_concat(done, segment.take(end as int), victims@);
                if stopped {
                    assert(log.take(scan_end(log, lowest) as int) =~= done + segment.take(
                        end as int,
                    ));
                } else {
                    assert(segment.take(end as int) == segment);
                    lemma_scan_end_concat(done, segment, lowest);
                    assert(log == (done + segment) + rest);
                }
            }
            if stopped {
                return Ok(found);
            }
            proof {
                done = done + segment;
            }
            remaining = position;
        }
        proof {
            let log = reverse_log(gens);
            assert(gens.take(0).len() == 0);
            assert(log =~= done);
            assert(log.take(log.len() as int) == log);
        }
        Ok(found)
    }

    /// Rolls the transactions `transaction_ids` back.
    ///
    /// Nothing happens if none of them is open. Otherwise the log is read
    /// backwards down to the lowest of their latest indices, and every write
    /// of theirs on the way that holds its earlier bytes gives a
    /// compensation. Each compensation is then logged and handed to
    /// `handle`, in the order in which it was found; at last a commit is
    /// logged for each of the transactions, which closes it. A log without
    /// generations cannot take the commits: it is not initialized, and
    /// nothing changes.
    #[verifier::rlimit(40)]
    pub fn undo_all<H: PartialWriteHandler>(
        &mut self,
        transaction_ids: &Vec<u64>,
        handle: &mut H,
    ) -> (res: Result<(), StorageError>)
        requires
            old(self).wf(),
        ensures
            final(self).framed(old(self)),
            last_indices(old(self).state().transactions, transaction_ids@).len() == 0 ==> {
                &&& res is Ok
                &&& final(self).gens() == old(self).gens()
                &&& final(self).state() == old(self).state()
                &&& final(self).checkpoint_due() == old(self).checkpoint_due()
                &&& final(handle).applied() == old(handle).applied()
            },
            res is Ok && last_indices(old(self).state().transactions, transaction_ids@).len() > 0
                ==> final(self).rolled_back(
                old(self),
                transaction_ids@,
                old(handle).applied(),
                final(handle).applied(),
            ),
            res is Ok && last_indices(old(self).state().transactions, transaction_ids@).len() > 0
                ==> forall|id: u64|
                #![trigger has_key(final(self).state().transactions, id)]
                #![trigger has_key(old(self).state().transactions, id)]
                has_key(final(self).state().transactions, id) <==> (has_key(
                    old(self).state().transactions,
                    id,
                ) && !transaction_ids@.contains(id)),
            old(self).gens().len() == 0 && last_indices(
                old(self).state().transactions,
                transaction_ids@,
            ).len() > 0 ==> {
                &&& res == Err::<(), StorageError>(StorageError::WalNotInitialized)
                &&& final(self).gens() == old(self).gens()
                &&& final(self).state() == old(self).state()
                &&& final(self).checkpoint_due() == old(self).checkpoint_due()
                &&& final(handle).applied() == old(handle).applied()
            },
    {
        let Some(lowest_index) = lowest_last_index(&self.state, transaction_ids) else {
            return Ok(());
        };
        let compensation_items = match self.collect_compensations(transaction_ids, lowest_index) {
            Ok(items) => items,
            Err(error) => {
                return Err(error);
            },
        };
        let ghost found = undo_views(compensation_items@);
        let ghost open_before = self.state@.transactions;
        proof {
            let log = reverse_log(self.gens());
            lemma_compensations_of_victims(
                log.take(scan_end(log, lowest_index) as int),
                transaction_ids@,
            );
        }
        let ghost generation = self.generations.current_gen_num;
        let ghost before = if self.gens().len() > 0 {
            self.gens().last().items
        } else {
            Seq::empty()
        };
        let ghost state = self.state@;
        let ghost mut tail: Seq<(u64, ItemView)> = Seq::empty();

        let mut i: usize = 0;
        proof {
            assert(before + tail == before);
            assert(handle.applied() =~= old(handle).applied() + Seq::new(
                0,
                |k: int|
                    compensation_op(WalIndex { generation, offset: tail[k].0 }, found[k]),
            ));
        }
        while i < compensation_items.len()
            invariant
                i <= compensation_items.len(),
                last_indices(old(self).state().transactions, transaction_ids@).len() > 0,
                found == undo_views(compensation_items@),
                state == old(self).state(),
                old(self).gens().len() == 0 ==> self.checkpoint_due() == old(
                    self
                ).checkpoint_due(),
                open_before == old(self).state().transactions,
                forall|k: int|
                    0 <= k < found.len() ==> transaction_ids@.contains(
                        (#[trigger] found[k]).transaction_id,
                    ),
                forall|id: u64|
                    !transaction_ids@.contains(id) ==> (has_key(self.state().transactions, id)
                        <==> has_key(open_before, id)),
                self.framed(old(self)),
                generation == self.current_gen_num(),
                tail.len() == i,
                old(self).gens().len() > 0 ==> self.gens().last().items == before + tail,
                old(self).gens().len() == 0 ==> i == 0 && self.gens() == old(self).gens(),
                self.state() == replayed(state, generation, tail),
                forall|k: int|
                    0 <= k < i ==> (#[trigger] tail[k]).1 == compensation_item(
                        replayed(state, generation, tail.take(k)).transactions,
                        found[k],
                    ),
                handle.applied() == old(handle).applied() + Seq::new(
                    i as nat,
                    |k: int|
                        compensation_op(WalIndex { generation, offset: tail[k].0 }, found[k]),
                ),
            decreases compensation_items.len() - i,
        {
            self.state.known_wf();
            proof {
                assert(found[i as int] == compensation_items@[i as int]@);
                assert(transaction_ids@.contains(found[i as int].transaction_id));
            }
            let index = match self.apply_undo_log(&compensation_items[i], handle) {
                Ok(index) => index,
                Err(error) => {
                    proof {
                        if old(self).gens().len() == 0 {
                            assert(handle.applied() =~= old(handle).applied());
                        }
                    }
                    return Err(error);
                },
            };
            proof {
                let item = compensation_item(
                    replayed(state, generation, tail).transactions,
                    found[i as int],
                );
                let longer = tail.push((index.offset, item));
                lemma_replayed_push(state, generation, tail, index.offset, item);
                lemma_with_item_keys(
                    replayed(state, generation, tail).transactions,
                    index,
                    found[i as int].transaction_id,
                );
                assert(tail.take(i as int) == tail);
                assert(found[i as int] == compensation_items@[i as int]@);
                assert(longer[i as int] == (index.offset, item));
                assert(self.gens().last().items =~= before + longer);
                assert forall|k: int| 0 <= k < i + 1 implies (#[trigger] longer[k]).1
                    == compensation_item(
                    replayed(state, generation, longer.take(k)).transactions,
                    found[k],
                ) by {
                    assert(longer.take(k) =~= tail.take(k));
                    if k < i {
                        assert(longer[k] == tail[k]);
                    }
                }
                assert(handle.applied() =~= old(handle).applied() + Seq::new(
                    (i + 1) as nat,
                    |k: int|
                        compensation_op(WalIndex { generation, offset: longer[k].0 }, found[k]),
                ));
                tail = longer;
            }
            i += 1;
        }

        let mut j: usize = 0;
        proof {
            assert(tail.take(tail.len() as int) == tail);
        }
        while j < transaction_ids.len()
            invariant
                j <= transaction_ids.len(),
                last_indices(old(self).state().transactions, transaction_ids@).len() > 0,
                found.len() == compensation_items@.len(),
                state == old(self).state(),
                old(self).gens().len() == 0 ==> found.len() == 0 && self.checkpoint_due() == old(
                    self
                ).checkpoint_due(),
                open_before == old(self).state().transactions,
                forall|id: u64|
                    !transaction_ids@.contains(id) ==> (has_key(self.state().transactions, id)
                        <==> has_key(open_before, id)),
                forall|k: int|
                    0 <= k < j ==> !has_key(self.state().transactions, #[trigger] transaction_ids@[k]),
                self.framed(old(self)),
                generation == self.current_gen_num(),
                tail.len() == found.len() + j,
                old(self).gens().len() > 0 ==> self.gens().last().items == before + tail,
                old(self).gens().len() == 0 ==> tail.len() == 0 && self.gens() == old(self).gens(),
                self.state() == replayed(state, generation, tail),
                forall|k: int|
                    0 <= k < found.len() ==> (#[trigger] tail[k]).1 == compensation_item(
                        replayed(state, generation, tail.take(k)).transactions,
                        found[k],
                    ),
                forall|k: int|
                    found.len() <= k < tail.len() ==> (#[trigger] tail[k]).1 == commit_item(
                        replayed(state, generation, tail.take(k)).transactions,
                        transaction_ids@[k - found.len()],
                    ),
                handle.applied() == old(handle).applied() + rollback_ops(generation, tail, found),
            decreases transaction_ids.len() - j,
        {
            let transaction_id = transaction_ids[j];
            let transaction_data = self.create_transaction_data(transaction_id);
            let item = Item::Commit(transaction_data);
            self.state.known_wf();
            let index = match self.push_raw_item(&item) {
                Ok(index) => index,
                Err(error) => {
                    proof {
                        if old(self).gens().len() == 0 {
                            assert(handle.applied() =~= old(handle).applied());
                        }
                    }
                    return Err(error);
                },
            };
            proof {
                lemma_without(replayed(state, generation, tail).transactions, transaction_id);
            }
            self.state.complete_transaction(transaction_id);
            proof {
                let longer = tail.push((index.offset, item@));
                lemma_replayed_push(state, generation, tail, index.offset, item@);
                assert(self.gens().last().items =~= before + longer);
                assert(self.state@.transactions =~= replayed(
                    state,
                    generation,
                    longer,
                ).transactions);
                assert forall|k: int| 0 <= k < found.len() implies (#[trigger] longer[k]).1
                    == compensation_item(
                    replayed(state, generation, longer.take(k)).transactions,
                    found[k],
                ) by {
                    assert(longer.take(k) =~= tail.take(k));
                    assert(longer[k] == tail[k]);
                }
                assert forall|k: int| found.len() <= k < longer.len() implies (
                #[trigger] longer[k]).1 == commit_item(
                    replayed(state, generation, longer.take(k)).transactions,
                    transaction_ids@[k - found.len()],
                ) by {
                    assert(longer.take(k) =~= tail.take(k));
                    if k < tail.len() {
                        assert(longer[k] == tail[k]);
                    } else {
                        assert(tail.take(k) == tail);
                        assert(longer[k] == (index.offset, item@));
                    }
                }
                assert(rollback_ops(generation, longer, found) =~= rollback_ops(
                    generation,
                    tail,
                    found,
                ));
                tail = longer;
            }
            j += 1;
        }
        proof {
            assert(self.gens().last().items.skip(before.len() as int) =~= tail);
        }
        Ok(())
    }

    /// What a rollback of `victims`, of which at least one is open, makes of
    /// the log `before` when it succeeds: `self`, with the handler's accepted
    /// writes going from `applied_before` to `applied_after`.
    ///
    /// The current generation has grown by the items that the rollback
    /// appends (see [`rollback_appended`]); the state has followed each of
    /// them; and the handler has accepted the compensations in the order in
    /// which the backward scan found them.
    pub open spec fn rolled_back(
        &self,
        before: &Self,
        victims: Seq<u64>,
        applied_before: Seq<PartialWriteOpView>,
        applied_after: Seq<PartialWriteOpView>,
    ) -> bool {
        self.rolled_back_from(
            before.gens(),
            before.state(),
            victims,
            applied_before,
            applied_after,
        )
    }

    /// As [`Wal::rolled_back`], with the generations and the state from
    /// which the rollback starts given as such.
    pub open spec fn rolled_back_from(
        &self,
        gens_before: Seq<GenerationView>,
        state_before: StateView,
        victims: Seq<u64>,
        applied_before: Seq<PartialWriteOpView>,
        applied_after: Seq<PartialWriteOpView>,
    ) -> bool {
        let found = undo_compensations(
            gens_before,
            victims,
            lowest_of(last_indices(state_before.transactions, victims)),
        );
        let items_before = gens_before.last().items;
        let items_after = self.gens().last().items;
        let tail = items_after.skip(items_before.len() as int);
        &&& gens_before.len() > 0
        &&& items_after == items_before + tail
        &&& rollback_appended(state_before, self.current_gen_num(), tail, found, victims)
        &&& self.state() == replayed(state_before, self.current_gen_num(), tail)
        &&& applied_after == applied_before + rollback_ops(self.current_gen_num(), tail, found)
    }

    /// Applies a logged write again if its page is dirty and the write does
    /// not come before the page's first unflushed mutation.
    pub fn redo_write<H: PartialWriteHandler>(
        &self,
        index: WalIndex,
        data: &WriteData,
        handle: &mut H,
    ) -> (res: Result<(), StorageError>)
        ensures
            match redo_op(self.state().dirty_pages, index, data@) {
                Some(op) => res is Ok ==> final(handle).applied() == old(handle).applied().push(op),
                None => res is Ok && final(handle).applied() == old(handle).applied(),
            },
    {
        let Some(first_dirty_index) = self.state.dirty_pages.get(data.page_address) else {
            return Ok(());
        };
        if index.is_before(&first_dirty_index) {
            return Ok(());
        }
        handle.handle(
            PartialWriteOp {
                index,
                page_address: data.page_address,
                offset: data.offset,
                buf: data.to.as_slice(),
            },
        )
    }

    /// Applies the writes among `items`, which the generation `gen_num`
    /// holds, again, in their order. Where no write has to be applied again,
    /// the handler is not called and nothing can fail; otherwise the handler
    /// decides, and the first write that it turns down ends the run with its
    /// error.
    pub fn redo<H: PartialWriteHandler>(
        &self,
        items: &Vec<(u64, Item)>,
        gen_num: u64,
        handle: &mut H,
    ) -> (res: Result<(), StorageError>)
        ensures
            res is Ok ==> final(handle).applied() == old(handle).applied() + redo_ops(
                self.state().dirty_pages,
                gen_num,
                item_views(items@),
            ),
            redo_ops(self.state().dirty_pages, gen_num, item_views(items@)).len() == 0 ==> res is Ok,
    {
        let ghost views = item_views(items@);
        let mut i: usize = 0;
        proof {
            assert(handle.applied() =~= old(handle).applied() + redo_ops(
                self.state().dirty_pages,
                gen_num,
                views.take(0),
            ));
        }
        while i < items.len()
            invariant
                i <= items.len(),
                views == item_views(items@),
                handle.applied() == old(handle).applied() + redo_ops(
                    self.state().dirty_pages,
                    gen_num,
                    views.take(i as int),
                ),
            decreases items.len() - i,
        {
            let index = WalIndex { generation: gen_num, offset: items[i].0 };
            proof {
                assert(views.take(i + 1).drop_last() == views.take(i as int));
                assert(views.take(i + 1).last() == views[i as int]);
                assert(views[i as int] == (items@[i as int].0, items@[i as int].1@));
            }
            if let Item::Write(data) = &items[i].1 {
                match self.redo_write(index, data, handle) {
                    Ok(()) => {},
                    Err(error) => {
                        proof {
                            // A write that fails is one that had to be applied.
                            lemma_redo_ops_prefix(
                                self.state().dirty_pages,
                                gen_num,
                                views,
                                i + 1,
                            );
                        }
                        return Err(error);
                    },
                }
            }
            proof {
                let earlier = redo_ops(self.state().dirty_pages, gen_num, views.take(i as int));
                let now = redo_ops(self.state().dirty_pages, gen_num, views.take(i + 1));
                assert(handle.applied() =~= old(handle).applied() + now);
            }
            i += 1;
        }
        proof {
            assert(views.take(views.len() as int) == views);
        }
        Ok(())
    }

    /// Brings the state up to date with `items`, which the generation
    /// `gen_num` holds.
    pub fn recover_state(&mut self, items: &Vec<(u64, Item)>, gen_num: u64)
        ensures
            final(self).state() == replayed(old(self).state(), gen_num, item_views(items@)),
            final(self).gens() == old(self).gens(),
            final(self).folder_gens() == old(self).folder_gens(),
            final(self).max_generation_size() == old(self).max_generation_size(),
            final(self).current_gen_num() == old(self).current_gen_num(),
            final(self).checkpoint_due() == old(self).checkpoint_due(),
            final(self).wf() == old(self).wf(),
    {
        let ghost views = item_views(items@);
        let mut i: usize = 0;
        while i < items.len()
            invariant
                i <= items.len(),
                views == item_views(items@),
                self.state@ == replayed(old(self).state@, gen_num, views.take(i as int)),
                self.generations == old(self).generations,
                self.folder == old(self).folder,
                self.max_generation_size == old(self).max_generation_size,
                self.checkpoint_due == old(self).checkpoint_due,
            decreases items.len() - i,
        {
            proof {
                assert(views.take(i + 1) == views.take(i as int).push(views[i as int]));
                lemma_replayed_push(
                    old(self).state@,
                    gen_num,
                    views.take(i as int),
                    views[i as int].0,
                    views[i as int].1,
                );
            }
            self.state.handle_item(WalIndex { generation: gen_num, offset: items[i].0 }, &items[i].1);
            i += 1;
        }
        proof {
            assert(views.take(views.len() as int) == views);
        }
    }

    /// Rolls one transaction back; see [`Wal::undo_all`]. The current
    /// generation is flushed first.
    ///
    /// For a transaction that is not open this is a flush and nothing more,
    /// with the result of the flush. A log without generations has nothing
    /// to flush and cannot take the commit of a transaction that is open: it
    /// is not initialized, and nothing changes.
    pub fn undo<H: PartialWriteHandler>(&mut self, transaction_id: u64, handle: &mut H) -> (res:
        Result<(), StorageError>)
        requires
            old(self).wf(),
        ensures
            final(self).framed(old(self)),
            lookup(old(self).state().transactions, transaction_id) is None ==> {
                &&& final(self).flushed(old(self), res)
                &&& final(handle).applied() == old(handle).applied()
            },
            old(self).gens().len() == 0 && lookup(
                old(self).state().transactions,
                transaction_id,
            ) is Some ==> {
                &&& res == Err::<(), StorageError>(StorageError::WalNotInitialized)
                &&& final(self).gens() == old(self).gens()
                &&& final(self).state() == old(self).state()
                &&& final(self).checkpoint_due() == old(self).checkpoint_due()
                &&& final(handle).applied() == old(handle).applied()
            },
            res is Ok && lookup(old(self).state().transactions, transaction_id) is Some ==> {
                &&& old(self).gens().len() > 0
                &&& final(self).rolled_back_from(
                    old(self).gens(),
                    old(self).state(),
                    seq![transaction_id],
                    old(handle).applied(),
                    final(handle).applied(),
                )
            },
    {
        match self.flush_impl() {
            Ok(()) => {},
            Err(error) => {
                return Err(error);
            },
        }
        let mut ids: Vec<u64> = Vec::new();
        ids.push(transaction_id);
        proof {
            let transactions = old(self).state().transactions;
            assert(ids@ =~= seq![transaction_id]);
            assert(ids@.drop_last() =~= Seq::<u64>::empty());
            reveal_with_fuel(last_indices, 2);
            assert(last_indices(transactions, ids@.drop_last()).len() == 0);
        }
        let ghost flushed_gens = self.gens();
        let res = self.undo_all(&ids, handle);
        proof {
            let gens = old(self).gens();
            assert forall|i: int| 0 <= i < gens.len() implies (#[trigger] gens[i]).gen_num
                == flushed_gens[i].gen_num && gens[i].items == flushed_gens[i].items by {
                if i < gens.len() - 1 {
                    assert(gens[i] == gens.drop_last()[i]);
                    assert(flushed_gens[i] == flushed_gens.drop_last()[i]);
                } else {
                    assert(gens[i] == gens.last());
                    assert(flushed_gens[i] == flushed_gens.last());
                }
            }
            lemma_reverse_log_same_items(gens, flushed_gens);
        }
        res
    }

    /// What a recovery makes of a log whose generations were `gens_before`
    /// when it succeeds: `self`, with the handler's accepted writes going
    /// from `applied_before` to `applied_after`.
    ///
    /// The state is read from the current generation: it starts from the
    /// first checkpoint there and follows every item of the generation. The
    /// writes of the generation are then applied again where their page is
    /// dirty, in their order, and every transaction that is still open is
    /// rolled back. Afterwards no transaction is open.
    pub open spec fn recovered(
        &self,
        gens_before: Seq<GenerationView>,
        applied_before: Seq<PartialWriteOpView>,
        applied_after: Seq<PartialWriteOpView>,
    ) -> bool {
        let items = gens_before.last().items;
        let generation = self.current_gen_num();
        let state = replayed(seed_state(items), generation, items);
        let redone = redo_ops(state.dirty_pages, generation, items);
        let victims = keys_of(state.transactions);
        &&& gens_before.len() > 0
        &&& self.state().transactions.len() == 0
        &&& if victims.len() == 0 {
            &&& self.state() == state
            &&& self.gens() == gens_before
            &&& applied_after == applied_before + redone
        } else {
            self.rolled_back_from(
                gens_before,
                state,
                victims,
                applied_before + redone,
                applied_after,
            )
        }
    }

    /// Brings the log and the pages back to a consistent state after a
    /// restart; see [`Wal::recovered`]. `handle` receives every write that
    /// has to reach the pages.
    pub fn recover<H: PartialWriteHandler>(&mut self, handle: &mut H) -> (res: Result<
        (),
        StorageError,
    >)
        requires
            old(self).wf(),
        ensures
            final(self).framed(old(self)),
            old(self).gens().len() == 0 ==> {
                &&& res matches Err(StorageError::WalNotInitialized)
                &&& final(self).gens() == old(self).gens()
                &&& final(self).state() == old(self).state()
                &&& final(handle).applied() == old(handle).applied()
            },
            res is Ok ==> final(self).recovered(
                old(self).gens(),
                old(handle).applied(),
                final(handle).applied(),
            ),
    {
        let Some(position) = self.generations.current_generation() else {
            return Err(StorageError::WalNotInitialized);
        };
        let gen_num = self.generations.current_gen_num;
        let read = self.generations.generations[position].file.iter_items();
        proof {
            assert(self.generations@ =~= old(self).generations@);
        }
        let items = match read {
            Ok(items) => items,
            Err(error) => {
                return Err(StorageError::from_file_error(error));
            },
        };
        self.state = read_initial_state(&items);
        self.recover_state(&items, gen_num);
        match self.redo(&items, gen_num, handle) {
            Ok(()) => {},
            Err(error) => {
                return Err(error);
            },
        }
        let all_tids = self.state.transactions.ids();
        let ghost open = self.state().transactions;
        proof {
            assert forall|k: int| 0 <= k < all_tids@.len() implies has_key(
                open,
                #[trigger] all_tids@[k],
            ) by {
                assert(open[k].0 == all_tids@[k]);
            }
            lemma_last_indices_of_open(open, all_tids@);
        }
        let res = self.undo_all(&all_tids, handle);
        proof {
            if res is Ok {
                let closed = self.state().transactions;
                if closed.len() > 0 {
                    let id = closed[0].0;
                    assert(has_key(closed, id));
                    if all_tids@.len() > 0 {
                        assert(has_key(open, id));
                        let i = index_of(open, id);
                        assert(all_tids@[i] == id);
                        assert(all_tids@.contains(id));
                    }
                }
            }
        }
        res
    }

    /// Drops the oldest generations as long as no open transaction needs
    /// them, and deletes their files. The current generation always stays.
    ///
    /// Whatever happens, only generations that came before the first needed
    /// one leave the log, and no file of a generation from the first needed
    /// one on is deleted. Where no generation is to be dropped, no file is
    /// touched and nothing can fail; otherwise the folder decides, and the
    /// error of the first file that it cannot delete is handed on.
    pub fn cleanup_generations(&mut self) -> (res: Result<(), StorageError>)
        requires
            old(self).wf(),
        ensures
            final(self).wf(),
            final(self).state() == old(self).state(),
            final(self).max_generation_size() == old(self).max_generation_size(),
            final(self).current_gen_num() == old(self).current_gen_num(),
            final(self).checkpoint_due() == old(self).checkpoint_due(),
            final(self).gens().len() <= old(self).gens().len(),
            final(self).gens() == old(self).gens().skip(
                old(self).gens().len() - final(self).gens().len(),
            ),
            old(self).gens().len() - final(self).gens().len() <= obsolete_count(
                gen_nums(old(self).gens()),
                min_first_gen(old(self).state().transactions),
                old(self).current_gen_num(),
            ),
            res is Ok ==> old(self).gens().len() - final(self).gens().len() == obsolete_count(
                gen_nums(old(self).gens()),
                min_first_gen(old(self).state().transactions),
                old(self).current_gen_num(),
            ),
            forall|g: u64|
                g >= min_first_gen(old(self).state().transactions) || g == old(self).current_gen_num()
                    ==> (final(self).folder_gens().contains(g) <==> old(self).folder_gens().contains(
                    g,
                )),
            res is Ok ==> forall|i: int|
                0 <= i < old(self).gens().len() - final(self).gens().len() ==> !final(
                    self
                ).folder_gens().contains((#[trigger] old(self).gens()[i]).gen_num),
            obsolete_count(
                gen_nums(old(self).gens()),
                min_first_gen(old(self).state().transactions),
                old(self).current_gen_num(),
            ) == 0 ==> {
                &&& res is Ok
                &&& final(self).gens() == old(self).gens()
                &&& final(self).folder_gens() == old(self).folder_gens()
            },
            res matches Err(error) ==> error is File,
            old(self).gens().len() > 0 ==> final(self).gens().len() > 0 && final(self).gens().last()
                == old(self).gens().last(),
    {
        let first_needed = self.state.first_needed_generation();
        let current = self.generations.current_gen_num;
        let ghost gens = self.generations@;

        let mut delete_gens: Vec<u64> = Vec::new();
        let mut i: usize = 0;
        while i < self.generations.generations.len() && !(self.generations.generations[i].gen_num
            >= first_needed || self.generations.generations[i].gen_num == current)
            invariant
                i <= gens.len(),
                gens == self.generations@,
                self == old(self),
                delete_gens@.len() == i,
                forall|k: int|
                    0 <= k < i ==> obsolete((#[trigger] gens[k]).gen_num, first_needed, current),
                forall|k: int| 0 <= k < i ==> delete_gens@[k] == (#[trigger] gens[k]).gen_num,
            decreases gens.len() - i,
        {
            delete_gens.push(self.generations.generations[i].gen_num);
            i += 1;
        }
        proof {
            let nums = gen_nums(gens);
            assert forall|k: int| 0 <= k < i implies obsolete(
                #[trigger] nums[k],
                first_needed,
                current,
            ) by {
                assert(obsolete(gens[k].gen_num, first_needed, current));
            }
            lemma_obsolete_count(nums, first_needed, current, i as int);
            if gens.len() > 0 {
                assert(!obsolete(gens[gens.len() - 1].gen_num, first_needed, current));
            }
        }

        let mut d: usize = 0;
        proof {
            assert(gens.skip(0) =~= gens);
        }
        while d < delete_gens.len()
            invariant
                d <= delete_gens@.len(),
                delete_gens@.len() == obsolete_count(gen_nums(gens), first_needed, current),
                delete_gens@.len() < gens.len() || gens.len() == 0,
                gens == old(self).generations@,
                old(self).generations.wf(),
                first_needed == min_first_gen(old(self).state().transactions),
                current == old(self).generations.current_gen_num,
                forall|k: int|
                    0 <= k < delete_gens@.len() ==> obsolete(
                        (#[trigger] gens[k]).gen_num,
                        first_needed,
                        current,
                    ),
                forall|k: int|
                    0 <= k < delete_gens@.len() ==> delete_gens@[k] == (#[trigger] gens[k]).gen_num,
                self.generations@ == gens.skip(d as int),
                self.generations.current_gen_num == current,
                self.state == old(self).state,
                self.max_generation_size == old(self).max_generation_size,
                self.checkpoint_due == old(self).checkpoint_due,
                forall|g: u64|
                    g >= first_needed || g == current ==> (self.folder.wal_gens().contains(g)
                        <==> old(self).folder.wal_gens().contains(g)),
                forall|k: int|
                    0 <= k < d ==> !self.folder.wal_gens().contains((#[trigger] gens[k]).gen_num),
                d == 0 ==> self.folder.wal_gens() == old(self).folder.wal_gens(),
            decreases delete_gens@.len() - d,
        {
            let ghost queue_before = self.generations.generations@;
            let ghost views_before = self.generations@;
            proof {
                assert(views_before.len() == queue_before.len());
            }
            self.generations.generations.remove(0);
            proof {
                assert forall|k: int| 0 <= k < self.generations@.len() implies (
                #[trigger] self.generations@[k]) == gens.skip(d + 1)[k] by {
                    assert(self.generations.generations@[k] == queue_before[k + 1]);
                    assert(views_before[k + 1] == gens.skip(d as int)[k + 1]);
                }
                assert(self.generations@ =~= gens.skip(d + 1));
                assert(obsolete(gens[d as int].gen_num, first_needed, current));
                lemma_skip_ascending(gens, d + 1);
            }
            let ghost folder_before = self.folder.wal_gens();
            match self.folder.delete_wal_file(delete_gens[d]) {
                Ok(()) => {},
                Err(error) => {
                    return Err(StorageError::from_file_error(error));
                },
            }
            proof {
                assert forall|k: int| 0 <= k < d + 1 implies !self.folder.wal_gens().contains(
                    (#[trigger] gens[k]).gen_num,
                ) by {
                    if k < d && gens[k].gen_num != delete_gens@[d as int] {
                        assert(!folder_before.contains(gens[k].gen_num));
                    }
                }
            }
            d += 1;
        }
        proof {
            lemma_skip_ascending(gens, d as int);
            if d == 0 {
                assert(gens.skip(0) =~= gens);
            }
        }
        Ok(())
    }

    /// Starts a new generation: flushes the current one, opens the file of
    /// the next, makes it current, drops the generations that no open
    /// transaction needs and at last logs a checkpoint with the state into
    /// the new generation. The state itself does not change.
    ///
    /// Every step but making the generation current goes to a file or to the
    /// folder, which decide whether it succeeds; the error of the first step
    /// that fails is handed on. As long as the next generation is not
    /// current, the log holds the items that it held.
    pub fn checkpoint(&mut self) -> (res: Result<(), StorageError>)
        requires
            old(self).wf(),
            old(self).current_gen_num() < u64::MAX,
        ensures
            final(self).wf(),
            final(self).state() == old(self).state(),
            final(self).max_generation_size() == old(self).max_generation_size(),
            res matches Err(error) ==> error is File,
            final(self).current_gen_num() == old(self).current_gen_num() || final(
                self
            ).current_gen_num() == old(self).current_gen_num() + 1,
            final(self).current_gen_num() == old(self).current_gen_num() ==> {
                &&& res is Err
                &&& final(self).checkpoint_due() == old(self).checkpoint_due()
                &&& same_but_current(old(self).gens(), final(self).gens())
                &&& old(self).gens().len() > 0 ==> final(self).gens().last().items == old(
                    self
                ).gens().last().items
            },
            forall|g: u64|
                g >= min_first_gen(old(self).state().transactions) || g == old(self).current_gen_num()
                    + 1 ==> (old(self).folder_gens().contains(g) ==> final(
                    self
                ).folder_gens().contains(g)),
            res is Ok ==> final(self).checkpointed(old(self)),
    {
        match self.flush_impl() {
            Ok(()) => {},
            Err(error) => {
                return Err(error);
            },
        }
        let ghost flushed = self.gens();
        let gen_num = self.generations.current_gen_num + 1;
        let file = match self.folder.open_wal_file(gen_num) {
            Ok(file) => file,
            Err(error) => {
                return Err(StorageError::from_file_error(error));
            },
        };
        self.generations.push_generation(gen_num, file);
        self.checkpoint_due = false;
        let ghost rotated = self.gens();
        match self.cleanup_generations() {
            Ok(()) => {},
            Err(error) => {
                return Err(error);
            },
        }
        let ghost kept = self.gens();
        let res = self.log_checkpoint();
        proof {
            if res is Ok {
                let first_needed = min_first_gen(old(self).state().transactions);
                let dropped = obsolete_count(gen_nums(rotated), first_needed, gen_num);
                let now = self.gens();
                assert(rotated.drop_last() =~= flushed);
                lemma_same_nums(old(self).gens(), flushed);
                assert(gen_nums(rotated) =~= gen_nums(old(self).gens()).push(gen_num));
                assert(rotated.last().gen_num == gen_num);
                assert(now.last().items.last() == now.last().items[now.last().items.len() - 1]);
                assert(now.len() == old(self).gens().len() + 1 - dropped);
                assert forall|i: int| 0 <= i < now.len() - 1 implies (#[trigger] now[i]).gen_num
                    == old(self).gens()[i + dropped].gen_num && now[i].items == old(self).gens()[i
                    + dropped].items by {
                    assert(now[i] == now.drop_last()[i]);
                    assert(kept[i] == kept.drop_last()[i]);
                    assert(kept[i] == rotated[i + dropped]);
                    assert(rotated[i + dropped] == flushed[i + dropped]);
                    if i + dropped < flushed.len() - 1 {
                        assert(flushed[i + dropped] == flushed.drop_last()[i + dropped]);
                        assert(old(self).gens()[i + dropped] == old(self).gens().drop_last()[i
                            + dropped]);
                    }
                }
                assert(kept.last() == rotated.last());
            }
        }
        res
    }

    /// What a checkpoint makes of the log `before` when it succeeds.
    ///
    /// The next generation is current and ends with a checkpoint that holds
    /// the state; where its file was new, the checkpoint is its only item.
    /// Of the older generations the leading ones that no open transaction
    /// needs are gone; the others are there with their items, in order.
    pub open spec fn checkpointed(&self, before: &Self) -> bool {
        let first_needed = min_first_gen(before.state().transactions);
        let dropped = obsolete_count(
            gen_nums(before.gens()).push((before.current_gen_num() + 1) as u64),
            first_needed,
            (before.current_gen_num() + 1) as u64,
        );
        &&& self.current_gen_num() == before.current_gen_num() + 1
        &&& !self.checkpoint_due()
        &&& self.folder_gens().contains(self.current_gen_num())
        &&& dropped <= before.gens().len()
        &&& self.gens().len() == before.gens().len() + 1 - dropped
        &&& forall|i: int|
            0 <= i < self.gens().len() - 1 ==> (#[trigger] self.gens()[i]).gen_num
                == before.gens()[i + dropped].gen_num && self.gens()[i].items
                == before.gens()[i + dropped].items
        &&& self.gens().last().gen_num == self.current_gen_num()
        &&& self.gens().last().items.len() > 0
        &&& self.gens().last().items.last().1 == checkpoint_item(before.state())
        &&& !before.folder_gens().contains(self.current_gen_num())
            ==> self.gens().last().items.len() == 1
    }

    /// A log over the given generations, with the given state.
    pub fn new(
        folder: DF,
        config: &WalConfig,
        generations: GenerationQueue<DF>,
        state: State,
    ) -> (wal: Self)
        requires
            generations.wf(),
        ensures
            wal.wf(),
            wal.gens() == generations@,
            wal.current_gen_num() == generations.current_gen_num,
            wal.state() == state@,
            wal.folder_gens() == folder.wal_gens(),
            wal.max_generation_size() == config.max_generation_size,
            !wal.checkpoint_due(),
    {
        Self {
            folder,
            generations,
            state,
            max_generation_size: config.max_generation_size,
            checkpoint_due: false,
        }
    }

    /// Creates a new log in the folder: every log file that is there is
    /// deleted, and generation zero starts with a checkpoint of the empty
    /// state.
    pub fn create(folder: DF, config: &WalConfig) -> (res: Result<Self, StorageError>)
        ensures
            res matches Ok(wal) ==> {
                &&& wal.wf()
                &&& wal.current_gen_num() == 0
                &&& wal.state() == empty_state()
                &&& wal.max_generation_size() == config.max_generation_size
                &&& !wal.checkpoint_due()
                &&& wal.folder_gens().contains(0)
                &&& wal.gens().len() == 1
                &&& wal.gens()[0].gen_num == 0
                &&& wal.gens()[0].items.len() == 1
                &&& wal.gens()[0].items[0].1 == checkpoint_item(empty_state())
            },
            !(res matches Err(StorageError::WalNotInitialized)),
    {
        let mut folder = folder;
        match folder.clear_wal_files() {
            Ok(()) => {},
            Err(error) => {
                return Err(StorageError::from_file_error(error));
            },
        }
        let file = match folder.open_wal_file(0) {
            Ok(file) => file,
            Err(error) => {
                return Err(StorageError::from_file_error(error));
            },
        };
        let mut gens: GenerationQueue<DF> = GenerationQueue::new();
        gens.push_generation(0, file);
        let mut wal = Self::new(folder, config, gens, State::default());
        match wal.log_checkpoint() {
            Ok(()) => Ok(wal),
            Err(error) => Err(error),
        }
    }

    /// Opens the log that the folder holds: its generations are the
    /// folder's log files, ordered by their numbers (see
    /// [`GenerationQueue::from_files`]). The state is empty until
    /// [`Wal::recover`] has read it from the log.
    pub fn open(folder: DF, config: &WalConfig) -> (res: Result<Self, StorageError>)
        ensures
            res matches Ok(wal) ==> {
                &&& wal.wf()
                &&& wal.state() == empty_state()
                &&& wal.max_generation_size() == config.max_generation_size
                &&& !wal.checkpoint_due()
                &&& wal.folder_gens() == folder.wal_gens()
                &&& gen_nums(wal.gens()).to_set() == folder.wal_gens()
                &&& gen_nums(wal.gens()).no_duplicates()
            },
            !(res matches Err(StorageError::WalNotInitialized)),
    {
        broadcast use vstd::multiset::group_multiset_axioms;

        let mut folder = folder;
        let wal_files = match folder.iter_wal_files() {
            Ok(files) => files,
            Err(error) => {
                return Err(StorageError::from_file_error(error));
            },
        };
        let ghost listed = file_views::<DF>(wal_files@);
        let ghost listed_nums = gen_nums_of(wal_files@);
        let gens = GenerationQueue::from_files(wal_files);
        proof {
            assert(gen_nums(listed) =~= listed_nums);
            lemma_same_multiset_same_nums(gens@, listed);
        }
        Ok(Self::new(folder, config, gens, State::default()))
    }

    /// The state that the log keeps in memory.
    pub fn current_state(&self) -> (state: &State)
        ensures
            state@ == self.state(),
    {
        &self.state
    }

    /// The folder of the log.
    pub fn folder(&self) -> (folder: &DF)
        ensures
            folder.wal_gens() == self.folder_gens(),
    {
        &self.folder
    }

    /// The number of the current generation.
    pub fn current_generation_num(&self) -> (gen_num: u64)
        ensures
            gen_num == self.current_gen_num(),
    {
        self.generations.current_gen_num
    }

    /// The number of generations that the log holds.
    pub fn num_generations(&self) -> (n: usize)
        ensures
            n == self.gens().len(),
    {
        self.generations.generations.len()
    }

    /// A generation of the log by its position, the oldest being at zero.
    pub fn generation(&self, position: usize) -> (generation: &WalGeneration<DF>)
        requires
            position < self.gens().len(),
        ensures
            generation@ == self.gens()[position as int],
    {
        &self.generations.generations[position]
    }
}

/// The checkpoint that records the state `state`.
pub open spec fn checkpoint_item(state: StateView) -> ItemView {
    ItemView::Checkpoint(
        CheckpointDataView { dirty_pages: state.dirty_pages, transactions: state.transactions },
    )
}

/// A checkpoint that is taken once the cache has flushed its pages, with no
/// write in between, records no dirty page.
pub proof fn lemma_checkpoint_after_flush<DF: DatabaseFolderApi>(
    flushed: &Wal<DF>,
    checkpointed: &Wal<DF>,
)
    requires
        flushed.state().dirty_pages == Seq::<(PageAddress, WalIndex)>::empty(),
        checkpointed.checkpointed(flushed),
    ensures
        checkpointed.gens().last().items.last().1 matches ItemView::Checkpoint(data)
            && data.dirty_pages.len() == 0 && data.transactions == flushed.state().transactions,
{
}


/// The numbers of the generations, in order.
pub open spec fn gen_nums(gens: Seq<GenerationView>) -> Seq<u64> {
    Seq::new(gens.len(), |i: int| gens[i].gen_num)
}

/// A generation is obsolete when it lies before the first generation that an
/// open transaction needs and is not the current one.
pub open spec fn obsolete(gen_num: u64, first_needed: u64, current: u64) -> bool {
    gen_num < first_needed && gen_num != current
}

/// How many generations, counted from the oldest, are obsolete before the
/// first one that is not.
pub open spec fn obsolete_count(nums: Seq<u64>, first_needed: u64, current: u64) -> nat
    decreases nums.len(),
{
    if nums.len() == 0 || !obsolete(nums[0], first_needed, current) {
        0
    } else {
        1 + obsolete_count(nums.skip(1), first_needed, current)
    }
}

/// The obsolete generations end at the first generation that is needed or
/// current, or at the end of the log.
pub proof fn lemma_obsolete_count(nums: Seq<u64>, first_needed: u64, current: u64, n: int)
    requires
        0 <= n <= nums.len(),
        forall|k: int| 0 <= k < n ==> obsolete(#[trigger] nums[k], first_needed, current),
        n < nums.len() ==> !obsolete(nums[n], first_needed, current),
    ensures
        obsolete_count(nums, first_needed, current) == n,
    decreases n,
{
    if n > 0 {
        let rest = nums.skip(1);
        assert(obsolete(nums[0], first_needed, current));
        assert forall|k: int| 0 <= k < n - 1 implies obsolete(
            #[trigger] rest[k],
            first_needed,
            current,
        ) by {
            assert(rest[k] == nums[k + 1]);
        }
        lemma_obsolete_count(rest, first_needed, current, n - 1);
    }
}

/// Generations that differ in the current one's file only have the same
/// numbers.
pub proof fn lemma_same_nums(before: Seq<GenerationView>, after: Seq<GenerationView>)
    requires
        same_but_current(before, after),
    ensures
        gen_nums(before) == gen_nums(after),
{
    assert forall|i: int| 0 <= i < before.len() implies gen_nums(before)[i] == gen_nums(
        after,
    )[i] by {
        if i < before.len() - 1 {
            assert(before[i] == before.drop_last()[i]);
            assert(after[i] == after.drop_last()[i]);
        }
    }
    assert(gen_nums(before) =~= gen_nums(after));
}

/// Generations stay in ascending order when the oldest ones leave.
pub proof fn lemma_skip_ascending(gens: Seq<GenerationView>, n: int)
    requires
        gens_ascending(gens),
        0 <= n <= gens.len(),
    ensures
        gens_ascending(gens.skip(n)),
{
    let rest = gens.skip(n);
    assert forall|i: int, j: int| 0 <= i < j < rest.len() implies (#[trigger] rest[i]).gen_num <= (
    #[trigger] rest[j]).gen_num by {
        assert(gens[i + n].gen_num <= gens[j + n].gen_num);
    }
}


/// Generations that are the same up to their order have the same numbers up
/// to their order: where no number comes twice among the ones, none comes
/// twice among the others.
pub proof fn lemma_same_multiset_same_nums(first: Seq<GenerationView>, second: Seq<GenerationView>)
    requires
        first.to_multiset() == second.to_multiset(),
    ensures
        gen_nums(first).to_set() == gen_nums(second).to_set(),
        gen_nums(second).no_duplicates() ==> gen_nums(first).no_duplicates(),
{
    broadcast use vstd::multiset::group_multiset_axioms;

    first.to_multiset_ensures();
    second.to_multiset_ensures();
    assert forall|n: u64| gen_nums(first).to_set().contains(n) <==> gen_nums(
        second,
    ).to_set().contains(n) by {
        if gen_nums(first).to_set().contains(n) {
            let i = choose|i: int| 0 <= i < first.len() && gen_nums(first)[i] == n;
            assert(first.contains(first[i]));
            assert(second.to_multiset().count(first[i]) > 0);
            assert(second.contains(first[i]));
            let j = choose|j: int| 0 <= j < second.len() && second[j] == first[i];
            assert(gen_nums(second)[j] == n);
        }
        if gen_nums(second).to_set().contains(n) {
            let i = choose|i: int| 0 <= i < second.len() && gen_nums(second)[i] == n;
            assert(second.contains(second[i]));
            assert(first.to_multiset().count(second[i]) > 0);
            assert(first.contains(second[i]));
            let j = choose|j: int| 0 <= j < first.len() && first[j] == second[i];
            assert(gen_nums(first)[j] == n);
        }
    }
    assert(gen_nums(first).to_set() =~= gen_nums(second).to_set());
    if gen_nums(second).no_duplicates() {
        assert forall|i: int, j: int|
            0 <= i < first.len() && 0 <= j < first.len() && i != j implies gen_nums(first)[i]
            != gen_nums(first)[j] by {
            if gen_nums(first)[i] == gen_nums(first)[j] {
                lemma_two_of_a_number(first, second, i, j);
            }
        }
    }
}

/// Where two generations of `first` have one number, `second`, which holds
/// the same generations up to their order, has two of that number too.
proof fn lemma_two_of_a_number(
    first: Seq<GenerationView>,
    second: Seq<GenerationView>,
    i: int,
    j: int,
)
    requires
        first.to_multiset() == second.to_multiset(),
        0 <= i < first.len(),
        0 <= j < first.len(),
        i != j,
        first[i].gen_num == first[j].gen_num,
    ensures
        !gen_nums(second).no_duplicates(),
{
    broadcast use vstd::multiset::group_multiset_axioms;

    first.to_multiset_ensures();
    second.to_multiset_ensures();
    if first[i] == first[j] {
        // One generation stands at two places: it is in `second` twice.
        let (lo, hi) = if i < j { (i, j) } else { (j, i) };
        let shorter = first.remove(hi);
        vstd::seq_lib::to_multiset_remove(first, hi);
        shorter.to_multiset_ensures();
        assert(shorter[lo] == first[lo]);
        assert(shorter.to_multiset().count(first[lo]) > 0);
        assert(first.to_multiset().count(first[lo]) >= 2);
        let a = choose|a: int| 0 <= a < second.len() && second[a] == first[lo];
        assert(second.contains(first[lo]));
        let rest = second.remove(a);
        vstd::seq_lib::to_multiset_remove(second, a);
        rest.to_multiset_ensures();
        assert(rest.to_multiset().count(first[lo]) > 0);
        assert(rest.contains(first[lo]));
        let b = choose|b: int| 0 <= b < rest.len() && rest[b] == first[lo];
        let b2 = if b < a { b } else { b + 1 };
        assert(second[b2] == first[lo]);
        assert(gen_nums(second)[a] == gen_nums(second)[b2]);
    } else {
        assert(second.to_multiset().count(first[i]) > 0);
        assert(second.to_multiset().count(first[j]) > 0);
        assert(second.contains(first[i]));
        assert(second.contains(first[j]));
        let a = choose|a: int| 0 <= a < second.len() && second[a] == first[i];
        let b = choose|b: int| 0 <= b < second.len() && second[b] == first[j];
        assert(gen_nums(second)[a] == gen_nums(second)[b]);
    }
}

} // verus!
