//! What recovery and rollback compute from the items of the log: the state
//! to start from, the writes to apply again and the compensations that take
//! the writes of unfinished transactions back.

use vstd::prelude::*;
use crate::files::wal::{item_views, CheckpointDataView, Item, ItemView, WriteData, WriteDataView};
use crate::page_store::state::{empty_state, State, StateView};
use crate::page_store::table::{has_key, lookup};
use crate::page_store::wal::{GenerationView, PartialWriteOpView, UndoLog, UndoLogView};
use crate::page_store::{PageAddress, TransactionState, WalIndex};

verus! {

/// The first checkpoint among the items, if there is one.
pub open spec fn first_checkpoint(items: Seq<(u64, ItemView)>) -> Option<CheckpointDataView>
    decreases items.len(),
{
    if items.len() == 0 {
        None
    } else {
        match items[0].1 {
            ItemView::Checkpoint(data) => Some(data),
            _ => first_checkpoint(items.skip(1)),
        }
    }
}

/// The state that recovery starts from: that of the first checkpoint among
/// the items, or the empty state where they hold no checkpoint.
pub open spec fn seed_state(items: Seq<(u64, ItemView)>) -> StateView {
    match first_checkpoint(items) {
        Some(data) => StateView { dirty_pages: data.dirty_pages, transactions: data.transactions },
        None => empty_state(),
    }
}

/// Whether an item is a checkpoint.
pub open spec fn is_checkpoint(item: ItemView) -> bool {
    item is Checkpoint
}

/// The first checkpoint is the item before which no checkpoint stands.
pub proof fn lemma_first_checkpoint(items: Seq<(u64, ItemView)>, n: int)
    requires
        0 <= n <= items.len(),
        forall|k: int| 0 <= k < n ==> !is_checkpoint(#[trigger] items[k].1),
        n < items.len() ==> is_checkpoint(items[n].1),
    ensures
        n == items.len() ==> first_checkpoint(items) is None,
        n < items.len() ==> first_checkpoint(items) == Some(items[n].1->Checkpoint_0),
    decreases n,
{
    if n > 0 {
        let rest = items.skip(1);
        assert(!is_checkpoint(items[0].1));
        assert forall|k: int| 0 <= k < n - 1 implies !is_checkpoint(#[trigger] rest[k].1) by {
            assert(rest[k] == items[k + 1]);
        }
        lemma_first_checkpoint(rest, n - 1);
    }
}

/// The write that recovery applies again for a logged write, if any: the
/// page must be dirty, and the write must not come before the page's first
/// unflushed mutation.
pub open spec fn redo_op(
    dirty_pages: Seq<(PageAddress, WalIndex)>,
    index: WalIndex,
    data: WriteDataView,
) -> Option<PartialWriteOpView> {
    match lookup(dirty_pages, data.page_address) {
        Some(first_dirty_index) => if index.precedes(first_dirty_index) {
            None
        } else {
            Some(
                PartialWriteOpView {
                    index,
                    page_address: data.page_address,
                    offset: data.offset,
                    buf: data.to,
                },
            )
        },
        None => None,
    }
}

/// The writes that recovery applies again for the items of a generation, in
/// the order of the items.
pub open spec fn redo_ops(
    dirty_pages: Seq<(PageAddress, WalIndex)>,
    generation: u64,
    items: Seq<(u64, ItemView)>,
) -> Seq<PartialWriteOpView>
    decreases items.len(),
{
    if items.len() == 0 {
        Seq::empty()
    } else {
        let rest = redo_ops(dirty_pages, generation, items.drop_last());
        match items.last().1 {
            ItemView::Write(data) => match redo_op(
                dirty_pages,
                WalIndex { generation, offset: items.last().0 },
                data,
            ) {
                Some(op) => rest.push(op),
                None => rest,
            },
            _ => rest,
        }
    }
}

/// The items of a generation, each with its index in the log.
pub open spec fn indexed(generation: u64, items: Seq<(u64, ItemView)>) -> Seq<(WalIndex, ItemView)> {
    Seq::new(items.len(), |i: int| (WalIndex { generation, offset: items[i].0 }, items[i].1))
}

/// The whole log read backwards: the newest generation first, each
/// generation from its last item to its first.
pub open spec fn reverse_log(gens: Seq<GenerationView>) -> Seq<(WalIndex, ItemView)>
    decreases gens.len(),
{
    if gens.len() == 0 {
        Seq::empty()
    } else {
        indexed(gens.last().gen_num, gens.last().items.reverse()) + reverse_log(gens.drop_last())
    }
}

/// How many entries of a log that is read backwards are read before the
/// first one that lies below `lowest`.
pub open spec fn scan_end(log: Seq<(WalIndex, ItemView)>, lowest: WalIndex) -> nat
    decreases log.len(),
{
    if log.len() == 0 || log[0].0.precedes(lowest) {
        0
    } else {
        1 + scan_end(log.skip(1), lowest)
    }
}

/// The compensation for an item when the transactions `victims` are rolled
/// back: a write of a victim is taken back by writing what it replaced. A
/// write that holds no earlier bytes is a compensation itself and is left
/// alone, as is every other item.
pub open spec fn compensation_of(item: ItemView, victims: Seq<u64>) -> Option<UndoLogView> {
    match item {
        ItemView::Write(data) => if victims.contains(data.transaction_data.transaction_id) {
            match data.from {
                Some(from) => Some(
                    UndoLogView {
                        transaction_id: data.transaction_data.transaction_id,
                        page_address: data.page_address,
                        offset: data.offset,
                        to: from,
                    },
                ),
                None => None,
            }
        } else {
            None
        },
        _ => None,
    }
}

/// The compensations for the entries of a log, in the order of the entries.
pub open spec fn compensations(log: Seq<(WalIndex, ItemView)>, victims: Seq<u64>) -> Seq<
    UndoLogView,
>
    decreases log.len(),
{
    if log.len() == 0 {
        Seq::empty()
    } else {
        let rest = compensations(log.drop_last(), victims);
        match compensation_of(log.last().1, victims) {
            Some(compensation) => rest.push(compensation),
            None => rest,
        }
    }
}

/// The compensations that a rollback of `victims` emits: those for the
/// entries of the log, read backwards, down to the first entry below
/// `lowest`.
pub open spec fn undo_compensations(
    gens: Seq<GenerationView>,
    victims: Seq<u64>,
    lowest: WalIndex,
) -> Seq<UndoLogView> {
    let log = reverse_log(gens);
    compensations(log.take(scan_end(log, lowest) as int), victims)
}

/// The latest indices of those of the transactions `ids` that are open.
pub open spec fn last_indices(transactions: Seq<(u64, TransactionState)>, ids: Seq<u64>) -> Seq<
    WalIndex,
>
    decreases ids.len(),
{
    if ids.len() == 0 {
        Seq::empty()
    } else {
        let rest = last_indices(transactions, ids.drop_last());
        match lookup(transactions, ids.last()) {
            Some(state) => rest.push(state.last_index),
            None => rest,
        }
    }
}

/// The lowest of some indices; of no indices, the largest index there is.
pub open spec fn lowest_of(indices: Seq<WalIndex>) -> WalIndex
    decreases indices.len(),
{
    if indices.len() == 0 {
        WalIndex { generation: u64::MAX, offset: u64::MAX }
    } else {
        let rest = lowest_of(indices.drop_last());
        if indices.last().precedes(rest) {
            indices.last()
        } else {
            rest
        }
    }
}

/// The views of some compensations.
pub open spec fn undo_views(logs: Seq<UndoLog>) -> Seq<UndoLogView> {
    Seq::new(logs.len(), |i: int| logs[i]@)
}

/// A scan never reads more entries than there are.
pub proof fn lemma_scan_end_bound(log: Seq<(WalIndex, ItemView)>, lowest: WalIndex)
    ensures
        scan_end(log, lowest) <= log.len(),
    decreases log.len(),
{
    if log.len() > 0 && !log[0].0.precedes(lowest) {
        lemma_scan_end_bound(log.skip(1), lowest);
    }
}

/// A scan ends at the first entry below `lowest`, or at the end of the log.
pub proof fn lemma_scan_end(log: Seq<(WalIndex, ItemView)>, lowest: WalIndex, n: int)
    requires
        0 <= n <= log.len(),
        forall|k: int| 0 <= k < n ==> !(#[trigger] log[k]).0.precedes(lowest),
        n < log.len() ==> log[n].0.precedes(lowest),
    ensures
        scan_end(log, lowest) == n,
    decreases n,
{
    if n > 0 {
        let rest = log.skip(1);
        assert(!log[0].0.precedes(lowest));
        assert forall|k: int| 0 <= k < n - 1 implies !(#[trigger] rest[k]).0.precedes(lowest) by {
            assert(rest[k] == log[k + 1]);
        }
        lemma_scan_end(rest, lowest, n - 1);
    }
}

/// A scan of two logs in a row ends in the first one, or reads all of it and
/// goes on in the second.
pub proof fn lemma_scan_end_concat(
    first: Seq<(WalIndex, ItemView)>,
    second: Seq<(WalIndex, ItemView)>,
    lowest: WalIndex,
)
    ensures
        scan_end(first + second, lowest) == if scan_end(first, lowest) < first.len() {
            scan_end(first, lowest)
        } else {
            first.len() + scan_end(second, lowest)
        },
    decreases first.len(),
{
    lemma_scan_end_bound(first, lowest);
    if first.len() == 0 {
        assert(first + second == second);
    } else if first[0].0.precedes(lowest) {
        assert((first + second)[0] == first[0]);
    } else {
        assert((first + second)[0] == first[0]);
        assert((first + second).skip(1) == first.skip(1) + second);
        lemma_scan_end_concat(first.skip(1), second, lowest);
        lemma_scan_end_bound(first.skip(1), lowest);
    }
}

/// The compensations for two logs in a row are those for the first followed
/// by those for the second.
pub proof fn lemma_compensations_concat(
    first: Seq<(WalIndex, ItemView)>,
    second: Seq<(WalIndex, ItemView)>,
    victims: Seq<u64>,
)
    ensures
        compensations(first + second, victims) == compensations(first, victims) + compensations(
            second,
            victims,
        ),
    decreases second.len(),
{
    if second.len() == 0 {
        assert(first + second == first);
        assert(compensations(first, victims) + Seq::<UndoLogView>::empty() == compensations(
            first,
            victims,
        ));
    } else {
        assert((first + second).drop_last() == first + second.drop_last());
        assert((first + second).last() == second.last());
        lemma_compensations_concat(first, second.drop_last(), victims);
        let a = compensations(first, victims);
        let b = compensations(second.drop_last(), victims);
        match compensation_of(second.last().1, victims) {
            Some(c) => {
                assert((a + b).push(c) == a + b.push(c));
            },
            None => {},
        }
    }
}


/// Every compensation belongs to one of the victims.
pub proof fn lemma_compensations_of_victims(log: Seq<(WalIndex, ItemView)>, victims: Seq<u64>)
    ensures
        forall|k: int|
            0 <= k < compensations(log, victims).len() ==> victims.contains(
                (#[trigger] compensations(log, victims)[k]).transaction_id,
            ),
    decreases log.len(),
{
    if log.len() > 0 {
        lemma_compensations_of_victims(log.drop_last(), victims);
        let rest = compensations(log.drop_last(), victims);
        let all = compensations(log, victims);
        assert forall|k: int| 0 <= k < all.len() implies victims.contains(
            (#[trigger] all[k]).transaction_id,
        ) by {
            if k < rest.len() {
                assert(all[k] == rest[k]);
            }
        }
    }
}

/// Each of the transactions has a latest index if all of them are open.
pub proof fn lemma_last_indices_of_open(transactions: Seq<(u64, TransactionState)>, ids: Seq<u64>)
    requires
        forall|k: int| 0 <= k < ids.len() ==> has_key(transactions, #[trigger] ids[k]),
    ensures
        last_indices(transactions, ids).len() == ids.len(),
    decreases ids.len(),
{
    if ids.len() > 0 {
        assert forall|k: int| 0 <= k < ids.drop_last().len() implies has_key(
            transactions,
            #[trigger] ids.drop_last()[k],
        ) by {
            assert(ids.drop_last()[k] == ids[k]);
        }
        lemma_last_indices_of_open(transactions, ids.drop_last());
        assert(has_key(transactions, ids[ids.len() - 1]));
    }
}

/// The writes that are applied again for the first items of a generation
/// are among those for all of its items: there are no more of them.
pub proof fn lemma_redo_ops_prefix(
    dirty_pages: Seq<(PageAddress, WalIndex)>,
    generation: u64,
    items: Seq<(u64, ItemView)>,
    n: int,
)
    requires
        0 <= n <= items.len(),
    ensures
        redo_ops(dirty_pages, generation, items.take(n)).len() <= redo_ops(
            dirty_pages,
            generation,
            items,
        ).len(),
    decreases items.len(),
{
    if n == items.len() {
        assert(items.take(n) == items);
    } else {
        assert(items.drop_last().take(n) == items.take(n));
        lemma_redo_ops_prefix(dirty_pages, generation, items.drop_last(), n);
    }
}

/// The offsets of the items grow from each item to the next.
pub open spec fn offsets_increasing(items: Seq<(u64, ItemView)>) -> bool {
    forall|i: int, j: int| 0 <= i < j < items.len() ==> (#[trigger] items[i]).0 < (#[trigger] items[j]).0
}

/// The indices of the writes grow from each write to the next.
pub open spec fn ops_ascending(ops: Seq<PartialWriteOpView>) -> bool {
    forall|i: int, j: int|
        0 <= i < j < ops.len() ==> (#[trigger] ops[i]).index.precedes((#[trigger] ops[j]).index)
}

/// The indices of the entries fall from each entry to the next.
pub open spec fn log_descending(log: Seq<(WalIndex, ItemView)>) -> bool {
    forall|i: int, j: int|
        0 <= i < j < log.len() ==> (#[trigger] log[j]).0.precedes((#[trigger] log[i]).0)
}

/// The numbers of the generations grow from each generation to the next,
/// and so do the offsets of the items of each generation.
pub open spec fn log_ordered(gens: Seq<GenerationView>) -> bool {
    &&& forall|i: int, j: int|
        0 <= i < j < gens.len() ==> (#[trigger] gens[i]).gen_num < (#[trigger] gens[j]).gen_num
    &&& forall|i: int| 0 <= i < gens.len() ==> offsets_increasing((#[trigger] gens[i]).items)
}

/// Recovery applies the writes of a generation again in ascending order of
/// their indices, as long as the offsets in the generation's file ascend.
pub proof fn lemma_redo_ascending(
    dirty_pages: Seq<(PageAddress, WalIndex)>,
    generation: u64,
    items: Seq<(u64, ItemView)>,
)
    requires
        offsets_increasing(items),
    ensures
        ops_ascending(redo_ops(dirty_pages, generation, items)),
        forall|k: int|
            0 <= k < redo_ops(dirty_pages, generation, items).len() ==> {
                let op = #[trigger] redo_ops(dirty_pages, generation, items)[k];
                &&& op.index.generation == generation
                &&& items.len() > 0
                &&& op.index.offset <= items.last().0
            },
    decreases items.len(),
{
    if items.len() > 0 {
        let earlier = items.drop_last();
        assert forall|i: int, j: int| 0 <= i < j < earlier.len() implies (#[trigger] earlier[i]).0
            < (#[trigger] earlier[j]).0 by {
            assert(items[i].0 < items[j].0);
        }
        lemma_redo_ascending(dirty_pages, generation, earlier);
        let rest = redo_ops(dirty_pages, generation, earlier);
        let all = redo_ops(dirty_pages, generation, items);
        if earlier.len() > 0 {
            assert(items[earlier.len() - 1].0 < items[items.len() - 1].0);
        }
        assert forall|k: int| 0 <= k < all.len() implies {
            let op = #[trigger] all[k];
            &&& op.index.generation == generation
            &&& op.index.offset <= items.last().0
        } by {
            if k < rest.len() {
                assert(all[k] == rest[k]);
            }
        }
        assert forall|i: int, j: int| 0 <= i < j < all.len() implies (#[trigger] all[i]).index.precedes(
            (#[trigger] all[j]).index,
        ) by {
            if j < rest.len() {
                assert(all[i] == rest[i] && all[j] == rest[j]);
            } else {
                assert(all[i] == rest[i]);
                assert(all[j].index.offset == items.last().0);
            }
        }
    }
}

/// Read backwards, a log whose generations and offsets ascend descends:
/// a rollback meets the writes in descending order of their indices.
pub proof fn lemma_reverse_log_descending(gens: Seq<GenerationView>)
    requires
        log_ordered(gens),
    ensures
        log_descending(reverse_log(gens)),
        forall|k: int|
            0 <= k < reverse_log(gens).len() ==> gens.len() > 0 && (#[trigger] reverse_log(
                gens,
            )[k]).0.generation <= gens.last().gen_num,
    decreases gens.len(),
{
    if gens.len() > 0 {
        let older = gens.drop_last();
        assert forall|i: int, j: int| 0 <= i < j < older.len() implies (#[trigger] older[i]).gen_num
            < (#[trigger] older[j]).gen_num by {
            assert(gens[i].gen_num < gens[j].gen_num);
        }
        assert forall|i: int| 0 <= i < older.len() implies offsets_increasing(
            (#[trigger] older[i]).items,
        ) by {
            assert(older[i] == gens[i]);
        }
        lemma_reverse_log_descending(older);
        let newest = gens.last();
        assert(newest == gens[gens.len() - 1]);
        let head = indexed(newest.gen_num, newest.items.reverse());
        let tail = reverse_log(older);
        let log = reverse_log(gens);
        if older.len() > 0 {
            assert(older.last() == gens[gens.len() - 2]);
            assert(gens[gens.len() - 2].gen_num < gens[gens.len() - 1].gen_num);
        }
        assert forall|k: int| 0 <= k < log.len() implies (#[trigger] log[k]).0.generation
            <= newest.gen_num by {
            if k < head.len() {
                assert(log[k] == head[k]);
            } else {
                assert(log[k] == tail[k - head.len()]);
            }
        }
        assert forall|i: int, j: int| 0 <= i < j < log.len() implies (#[trigger] log[j]).0.precedes(
            (#[trigger] log[i]).0,
        ) by {
            let n = newest.items.len() as int;
            if j < head.len() {
                assert(log[i] == head[i] && log[j] == head[j]);
                assert(newest.items[n - 1 - j].0 < newest.items[n - 1 - i].0);
            } else if i < head.len() {
                assert(log[i] == head[i]);
                assert(log[j] == tail[j - head.len()]);
            } else {
                assert(log[i] == tail[i - head.len()]);
                assert(log[j] == tail[j - head.len()]);
            }
        }
    }
}

/// The log read backwards depends only on the numbers and the items of the
/// generations.
pub proof fn lemma_reverse_log_same_items(first: Seq<GenerationView>, second: Seq<GenerationView>)
    requires
        first.len() == second.len(),
        forall|i: int|
            0 <= i < first.len() ==> (#[trigger] first[i]).gen_num == second[i].gen_num && first[i].items
                == second[i].items,
    ensures
        reverse_log(first) == reverse_log(second),
    decreases first.len(),
{
    if first.len() > 0 {
        assert forall|i: int| 0 <= i < first.drop_last().len() implies (
        #[trigger] first.drop_last()[i]).gen_num == second.drop_last()[i].gen_num
            && first.drop_last()[i].items == second.drop_last()[i].items by {
            assert(first.drop_last()[i] == first[i]);
            assert(second.drop_last()[i] == second[i]);
        }
        lemma_reverse_log_same_items(first.drop_last(), second.drop_last());
        assert(first.last() == first[first.len() - 1]);
    }
}

/// The state that recovery starts from when the current generation holds
/// `items`: that of the first checkpoint, or the empty state.
pub fn read_initial_state(items: &Vec<(u64, Item)>) -> (state: State)
    ensures
        state@ == seed_state(item_views(items@)),
{
    let ghost views = item_views(items@);
    let mut i: usize = 0;
    while i < items.len()
        invariant
            i <= items.len(),
            views == item_views(items@),
            forall|k: int| 0 <= k < i ==> !is_checkpoint(#[trigger] views[k].1),
        decreases items.len() - i,
    {
        if let Item::Checkpoint(data) = &items[i].1 {
            proof {
                assert(views[i as int].1 == items@[i as int].1@);
                lemma_first_checkpoint(views, i as int);
            }
            return State::new(data.dirty_pages.duplicate(), data.transactions.duplicate());
        }
        proof {
            assert(views[i as int].1 == items@[i as int].1@);
        }
        i += 1;
    }
    proof {
        lemma_first_checkpoint(views, views.len() as int);
    }
    State::default()
}

/// Whether `id` is among `ids`.
pub fn contains_id(ids: &Vec<u64>, id: u64) -> (found: bool)
    ensures
        found == ids@.contains(id),
{
    let mut i: usize = 0;
    while i < ids.len()
        invariant
            i <= ids.len(),
            forall|k: int| 0 <= k < i ==> ids@[k] != id,
        decreases ids.len() - i,
    {
        if ids[i] == id {
            return true;
        }
        i += 1;
    }
    false
}

/// The compensation that takes a write back, unless the write is a
/// compensation itself.
pub fn create_undo_log(write: &WriteData) -> (log: Option<UndoLog>)
    ensures
        match write@.from {
            Some(from) => log matches Some(undo) && undo@ == (UndoLogView {
                transaction_id: write.transaction_data.transaction_id,
                page_address: write.page_address,
                offset: write.offset,
                to: from,
            }),
            None => log is None,
        },
{
    match &write.from {
        Some(from_buf) => Some(
            UndoLog {
                transaction_id: write.transaction_data.transaction_id,
                page_address: write.page_address,
                offset: write.offset,
                to: crate::files::wal::copy_bytes(from_buf.as_slice()),
            },
        ),
        None => None,
    }
}

/// The lowest of the latest indices of those of the transactions `ids` that
/// are open, or `None` if none of them is open.
pub fn lowest_last_index(state: &State, ids: &Vec<u64>) -> (lowest: Option<WalIndex>)
    ensures
        match lowest {
            Some(index) => last_indices(state@.transactions, ids@).len() > 0 && index == lowest_of(
                last_indices(state@.transactions, ids@),
            ),
            None => last_indices(state@.transactions, ids@).len() == 0,
        },
{
    let mut lowest: Option<WalIndex> = None;
    let mut i: usize = 0;
    while i < ids.len()
        invariant
            i <= ids.len(),
            match lowest {
                Some(index) => last_indices(state@.transactions, ids@.take(i as int)).len() > 0
                    && index == lowest_of(last_indices(state@.transactions, ids@.take(i as int))),
                None => last_indices(state@.transactions, ids@.take(i as int)).len() == 0,
            },
        decreases ids.len() - i,
    {
        proof {
            assert(ids@.take(i + 1).drop_last() == ids@.take(i as int));
            assert(ids@.take(i + 1).last() == ids@[i as int]);
        }
        let ghost before = last_indices(state@.transactions, ids@.take(i as int));
        match state.transactions.get(ids[i]) {
            Some(transaction) => {
                proof {
                    assert(before.push(transaction.last_index).drop_last() == before);
                    if before.len() == 0 {
                        assert(lowest_of(before) == (WalIndex {
                            generation: u64::MAX,
                            offset: u64::MAX,
                        }));
                    }
                }
                lowest =
                match lowest {
                    Some(index) => if transaction.last_index.is_before(&index) {
                        Some(transaction.last_index)
                    } else {
                        Some(index)
                    },
                    None => Some(transaction.last_index),
                };
            },
            None => {},
        }
        i += 1;
    }
    proof {
        assert(ids@.take(ids@.len() as int) == ids@);
    }
    lowest
}

/// Reads the items of one generation backwards, as `rev_items` holds them,
/// and adds the compensations for them to `compensations`. Stops at the
/// first item that lies below `lowest` and says whether it did.
pub fn scan_generation(
    rev_items: &Vec<(u64, Item)>,
    gen_num: u64,
    victims: &Vec<u64>,
    lowest: WalIndex,
    found: &mut Vec<UndoLog>,
) -> (stopped: bool)
    ensures
        ({
            let log = indexed(gen_num, item_views(rev_items@));
            let end = scan_end(log, lowest);
            &&& end <= log.len()
            &&& stopped == (end < log.len())
            &&& undo_views(final(found)@) == undo_views(old(found)@) + compensations(
                log.take(end as int),
                victims@,
            )
        }),
{
    let ghost log = indexed(gen_num, item_views(rev_items@));
    let mut i: usize = 0;
    proof {
        assert(log.take(0) == Seq::<(WalIndex, ItemView)>::empty());
        assert(undo_views(found@) + Seq::<UndoLogView>::empty() == undo_views(found@));
    }
    while i < rev_items.len()
        invariant
            i <= rev_items.len(),
            log == indexed(gen_num, item_views(rev_items@)),
            log.len() == rev_items@.len(),
            forall|k: int| 0 <= k < i ==> !(#[trigger] log[k]).0.precedes(lowest),
            undo_views(found@) == undo_views(old(found)@) + compensations(
                log.take(i as int),
                victims@,
            ),
        decreases rev_items.len() - i,
    {
        let index = WalIndex { generation: gen_num, offset: rev_items[i].0 };
        proof {
            assert(log[i as int].0 == index);
            assert(log[i as int].1 == rev_items@[i as int].1@);
        }
        if index.is_before(&lowest) {
            proof {
                lemma_scan_end(log, lowest, i as int);
            }
            return true;
        }
        proof {
            assert(log.take(i + 1).drop_last() == log.take(i as int));
            assert(log.take(i + 1).last() == log[i as int]);
        }
        let ghost before = undo_views(found@);
        if let Item::Write(data) = &rev_items[i].1 {
            if contains_id(victims, data.transaction_data.transaction_id) {
                if let Some(compensation) = create_undo_log(data) {
                    found.push(compensation);
                    proof {
                        assert(undo_views(found@) =~= before.push(compensation@));
                        let a = undo_views(old(found)@);
                        let b = compensations(log.take(i as int), victims@);
                        assert((a + b).push(compensation@) == a + b.push(compensation@));
                    }
                }
            }
        }
        i += 1;
    }
    proof {
        lemma_scan_end(log, lowest, log.len() as int);
        assert(log.take(log.len() as int) == log);
    }
    false
}

} // verus!
