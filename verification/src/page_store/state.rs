//! The in-memory state of the log: which pages are dirty and which
//! transactions are open. Every item that enters the log passes through
//! [`State::handle_item`].

use vstd::prelude::*;
use crate::files::wal::{Item, ItemView, WriteData};
use crate::page_store::table::{
    has_key, index_of, keys_distinct, lemma_put, lemma_put_absent, lemma_without, lookup, put,
    put_absent, without, DirtyPageTable, TransactionTable,
};
use crate::page_store::{PageAddress, TransactionState, WalIndex};

verus! {

/// The model of a [`State`]: its two tables, each in insertion order.
pub struct StateView {
    pub dirty_pages: Seq<(PageAddress, WalIndex)>,
    pub transactions: Seq<(u64, TransactionState)>,
}

/// The state in which no page is dirty and no transaction is open.
pub open spec fn empty_state() -> StateView {
    StateView { dirty_pages: Seq::empty(), transactions: Seq::empty() }
}

/// The transactions after an item of the transaction `id` was logged at
/// `index`: a new transaction starts in the generation of `index`; one that
/// is open keeps its first generation. Either way `index` is its latest item.
pub open spec fn with_item_of(
    transactions: Seq<(u64, TransactionState)>,
    index: WalIndex,
    id: u64,
) -> Seq<(u64, TransactionState)> {
    match lookup(transactions, id) {
        Some(state) => put(
            transactions,
            id,
            TransactionState { first_gen: state.first_gen, last_index: index },
        ),
        None => put(
            transactions,
            id,
            TransactionState { first_gen: index.generation, last_index: index },
        ),
    }
}

/// The state after the item `item` was logged at `index`. A write tracks its
/// transaction and marks its page dirty unless it is dirty already; a commit
/// closes its transaction; a checkpoint changes nothing.
pub open spec fn handled(state: StateView, index: WalIndex, item: ItemView) -> StateView {
    match item {
        ItemView::Write(data) => StateView {
            dirty_pages: put_absent(state.dirty_pages, data.page_address, index),
            transactions: with_item_of(state.transactions, index, data.transaction_data.transaction_id),
        },
        ItemView::Commit(data) => StateView {
            dirty_pages: state.dirty_pages,
            transactions: without(state.transactions, data.transaction_id),
        },
        ItemView::Checkpoint(_) => state,
    }
}

/// The state after the items of the generation `generation` were logged one
/// after the other, each at its offset.
pub open spec fn replayed(state: StateView, generation: u64, items: Seq<(u64, ItemView)>) -> StateView
    decreases items.len(),
{
    if items.len() == 0 {
        state
    } else {
        handled(
            replayed(state, generation, items.drop_last()),
            WalIndex { generation, offset: items.last().0 },
            items.last().1,
        )
    }
}

/// The smallest first generation among the transactions, or the largest
/// number where there is none.
pub open spec fn min_first_gen(transactions: Seq<(u64, TransactionState)>) -> u64
    decreases transactions.len(),
{
    if transactions.len() == 0 {
        u64::MAX
    } else {
        let rest = min_first_gen(transactions.drop_last());
        if transactions.last().1.first_gen < rest {
            transactions.last().1.first_gen
        } else {
            rest
        }
    }
}

/// Every transaction's first generation is no later than its latest item's.
pub open spec fn transactions_ordered(transactions: Seq<(u64, TransactionState)>) -> bool {
    forall|i: int| 0 <= i < transactions.len() ==> (#[trigger] transactions[i]).1.wf()
}

/// Replaying one more item after a run of items.
pub proof fn lemma_replayed_push(
    state: StateView,
    generation: u64,
    items: Seq<(u64, ItemView)>,
    offset: u64,
    item: ItemView,
)
    ensures
        replayed(state, generation, items.push((offset, item))) == handled(
            replayed(state, generation, items),
            WalIndex { generation, offset },
            item,
        ),
{
    assert(items.push((offset, item)).drop_last() == items);
}

/// The smallest first generation is a lower bound of every transaction's
/// first generation, and some transaction has it unless there is none.
pub proof fn lemma_min_first_gen(transactions: Seq<(u64, TransactionState)>)
    ensures
        forall|i: int|
            0 <= i < transactions.len() ==> min_first_gen(transactions) <= (
            #[trigger] transactions[i]).1.first_gen,
        transactions.len() == 0 ==> min_first_gen(transactions) == u64::MAX,
        transactions.len() > 0 ==> exists|i: int|
            0 <= i < transactions.len() && (#[trigger] transactions[i]).1.first_gen
                == min_first_gen(transactions),
    decreases transactions.len(),
{
    if transactions.len() > 0 {
        let rest = transactions.drop_last();
        lemma_min_first_gen(rest);
        assert forall|i: int| 0 <= i < transactions.len() implies min_first_gen(transactions) <= (
        #[trigger] transactions[i]).1.first_gen by {
            if i < rest.len() {
                assert(rest[i] == transactions[i]);
            }
        }
        let last = transactions.len() - 1;
        if transactions.last().1.first_gen < min_first_gen(rest) {
            assert(transactions[last].1.first_gen == min_first_gen(transactions));
        } else if rest.len() > 0 {
            let i = choose|i: int|
                0 <= i < rest.len() && (#[trigger] rest[i]).1.first_gen == min_first_gen(rest);
            assert(rest[i] == transactions[i]);
            assert(transactions[i].1.first_gen == min_first_gen(transactions));
        } else {
            assert(transactions[last].1.first_gen == min_first_gen(transactions));
        }
    }
}

/// Tracking an item keeps every transaction's first generation no later than
/// its latest item, as long as the item is not logged in a generation before
/// the one in which its transaction began.
pub proof fn lemma_with_item_ordered(
    transactions: Seq<(u64, TransactionState)>,
    index: WalIndex,
    id: u64,
)
    requires
        keys_distinct(transactions),
        transactions_ordered(transactions),
        lookup(transactions, id) matches Some(state) ==> state.first_gen <= index.generation,
    ensures
        transactions_ordered(with_item_of(transactions, index, id)),
{
    let after = with_item_of(transactions, index, id);
    assert forall|i: int| 0 <= i < after.len() implies (#[trigger] after[i]).1.wf() by {
        if has_key(transactions, id) {
            let p = index_of(transactions, id);
            if i != p {
                assert(after[i] == transactions[i]);
            }
        } else {
            if i < transactions.len() {
                assert(after[i] == transactions[i]);
            }
        }
    }
}

/// Noting an item keeps the ids distinct and opens no transaction but the
/// item's own.
pub proof fn lemma_with_item_keys(
    transactions: Seq<(u64, TransactionState)>,
    index: WalIndex,
    id: u64,
)
    requires
        keys_distinct(transactions),
    ensures
        keys_distinct(with_item_of(transactions, index, id)),
        forall|other: u64|
            has_key(with_item_of(transactions, index, id), other) <==> (other == id || has_key(
                transactions,
                other,
            )),
        lookup(with_item_of(transactions, index, id), id) matches Some(state)
            && state.last_index == index,
{
    match lookup(transactions, id) {
        Some(state) => {
            lemma_put(
                transactions,
                id,
                TransactionState { first_gen: state.first_gen, last_index: index },
            );
        },
        None => {
            lemma_put(
                transactions,
                id,
                TransactionState { first_gen: index.generation, last_index: index },
            );
        },
    }
}

/// Whatever is logged, no transaction has two entries.
pub proof fn lemma_handled_distinct(state: StateView, index: WalIndex, item: ItemView)
    requires
        keys_distinct(state.dirty_pages),
        keys_distinct(state.transactions),
    ensures
        keys_distinct(handled(state, index, item).dirty_pages),
        keys_distinct(handled(state, index, item).transactions),
{
    match item {
        ItemView::Write(data) => {
            lemma_put_absent(state.dirty_pages, data.page_address, index);
            lemma_with_item_keys(state.transactions, index, data.transaction_data.transaction_id);
        },
        ItemView::Commit(data) => {
            lemma_without(state.transactions, data.transaction_id);
        },
        ItemView::Checkpoint(_) => {},
    }
}

/// A transaction whose commit was logged is open no more: recovery finds
/// nothing of it to roll back.
pub proof fn lemma_commit_closes(
    state: StateView,
    index: WalIndex,
    data: crate::files::wal::TransactionData,
)
    requires
        keys_distinct(state.transactions),
    ensures
        !has_key(handled(state, index, ItemView::Commit(data)).transactions, data.transaction_id),
        handled(state, index, ItemView::Commit(data)).dirty_pages == state.dirty_pages,
{
    lemma_without(state.transactions, data.transaction_id);
}

/// Once the cache has flushed its pages, a state holds no dirty page, and
/// a page becomes dirty again with the first write to it that is logged.
pub proof fn lemma_dirty_after_flush(
    transactions: Seq<(u64, TransactionState)>,
    index: WalIndex,
    data: crate::files::wal::WriteDataView,
)
    ensures
        lookup(
            handled(
                StateView { dirty_pages: Seq::empty(), transactions },
                index,
                ItemView::Write(data),
            ).dirty_pages,
            data.page_address,
        ) == Some(index),
{
    let empty = Seq::<(PageAddress, WalIndex)>::empty();
    lemma_put_absent(empty, data.page_address, index);
}

/// The authoritative in-memory state of the log.
#[derive(Debug, PartialEq, Eq)]
pub struct State {
    pub dirty_pages: DirtyPageTable,
    pub transactions: TransactionTable,
}

impl View for State {
    type V = StateView;

    open spec fn view(&self) -> StateView {
        StateView { dirty_pages: self.dirty_pages@, transactions: self.transactions@ }
    }
}

impl Default for State {
    fn default() -> (state: Self)
        ensures
            state@ == empty_state(),
    {
        State { dirty_pages: DirtyPageTable::new(), transactions: TransactionTable::new() }
    }
}

impl State {
    /// The state with the given dirty pages and open transactions.
    pub fn new(dirty_pages: DirtyPageTable, transactions: TransactionTable) -> (state: Self)
        ensures
            state@.dirty_pages == dirty_pages@,
            state@.transactions == transactions@,
    {
        Self { dirty_pages, transactions }
    }

    /// Neither table holds a key twice.
    pub open spec fn wf(&self) -> bool {
        keys_distinct(self@.dirty_pages) && keys_distinct(self@.transactions)
    }

    /// Every state is well formed: this call makes that known where it stands.
    pub fn known_wf(&self)
        ensures
            self.wf(),
    {
        self.dirty_pages.known_wf();
        self.transactions.known_wf();
    }

    /// Notes that an item of the transaction `transaction_id` was logged at
    /// `index`.
    pub fn track_transaction(&mut self, index: WalIndex, transaction_id: u64)
        ensures
            final(self)@.transactions == with_item_of(old(self)@.transactions, index, transaction_id),
            final(self)@.dirty_pages == old(self)@.dirty_pages,
    {
        match self.transactions.get(transaction_id) {
            None => {
                self.transactions.insert(
                    transaction_id,
                    TransactionState { first_gen: index.generation, last_index: index },
                );
            },
            Some(state) => {
                self.transactions.insert(
                    transaction_id,
                    TransactionState { first_gen: state.first_gen, last_index: index },
                );
            },
        }
    }

    /// Closes the transaction `transaction_id`.
    pub fn complete_transaction(&mut self, transaction_id: u64)
        ensures
            final(self)@.transactions == without(old(self)@.transactions, transaction_id),
            final(self)@.dirty_pages == old(self)@.dirty_pages,
    {
        self.transactions.remove(transaction_id);
    }

    /// Notes a write that was logged at `index`: its transaction is noted
    /// and its page becomes dirty from `index` on, unless it was dirty before.
    pub fn track_write(&mut self, index: WalIndex, data: &WriteData)
        ensures
            final(self)@ == handled(old(self)@, index, ItemView::Write(data@)),
    {
        self.track_transaction(index, data.transaction_data.transaction_id);
        self.dirty_pages.insert_if_absent(data.page_address, index);
    }

    /// Notes that the buffer cache has written every dirty page to disk.
    pub fn cache_did_flush(&mut self)
        ensures
            final(self)@.dirty_pages == Seq::<(PageAddress, WalIndex)>::empty(),
            final(self)@.transactions == old(self)@.transactions,
    {
        self.dirty_pages.clear();
    }

    /// The oldest generation that an open transaction still needs, or the
    /// largest number where no transaction is open.
    pub fn first_needed_generation(&self) -> (generation: u64)
        ensures
            generation == min_first_gen(self@.transactions),
    {
        let mut lowest: u64 = u64::MAX;
        let mut i: usize = 0;
        while i < self.transactions.len()
            invariant
                i <= self.transactions@.len(),
                lowest == min_first_gen(self@.transactions.take(i as int)),
            decreases self.transactions@.len() - i,
        {
            let (_, state) = self.transactions.entry(i);
            proof {
                assert(self@.transactions.take(i + 1).drop_last() == self@.transactions.take(
                    i as int,
                ));
            }
            if state.first_gen < lowest {
                lowest = state.first_gen;
            }
            i += 1;
        }
        proof {
            assert(self@.transactions.take(self@.transactions.len() as int) == self@.transactions);
        }
        lowest
    }

    /// Brings the state up to date with an item that was logged at `index`.
    pub fn handle_item(&mut self, index: WalIndex, item: &Item)
        ensures
            final(self)@ == handled(old(self)@, index, item@),
    {
        match item {
            Item::Write(data) => self.track_write(index, data),
            Item::Commit(data) => self.complete_transaction(data.transaction_id),
            Item::Checkpoint(_) => (),
        }
    }

    /// A copy of the state.
    pub fn duplicate(&self) -> (copy: Self)
        ensures
            copy@ == self@,
    {
        State {
            dirty_pages: self.dirty_pages.duplicate(),
            transactions: self.transactions.duplicate(),
        }
    }
}

} // verus!
