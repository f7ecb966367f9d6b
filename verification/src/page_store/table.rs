//! Small keyed tables that keep their entries in insertion order. The log's
//! state holds two of them: the open transactions and the dirty pages. Each
//! is modelled as a sequence of key-value pairs in which no key occurs twice.

use vstd::prelude::*;
use std::collections::HashMap;
use crate::page_store::{PageAddress, TransactionState, WalIndex};

verus! {

broadcast use vstd::std_specs::hash::group_hash_axioms;

/// No key occurs twice among the entries.
pub open spec fn keys_distinct<K, V>(s: Seq<(K, V)>) -> bool {
    forall|i: int, j: int| 0 <= i < j < s.len() ==> (#[trigger] s[i]).0 != (#[trigger] s[j]).0
}

/// Some entry has the key `k`.
pub open spec fn has_key<K, V>(s: Seq<(K, V)>, k: K) -> bool {
    exists|i: int| 0 <= i < s.len() && (#[trigger] s[i]).0 == k
}

/// The position of an entry with the key `k`, where there is one.
pub open spec fn index_of<K, V>(s: Seq<(K, V)>, k: K) -> int {
    choose|i: int| 0 <= i < s.len() && (#[trigger] s[i]).0 == k
}

/// The value stored under `k`, if any.
pub open spec fn lookup<K, V>(s: Seq<(K, V)>, k: K) -> Option<V> {
    if has_key(s, k) {
        Some(s[index_of(s, k)].1)
    } else {
        None
    }
}

/// The entries with `v` stored under `k`: in place where `k` is present, at
/// the end where it is not.
pub open spec fn put<K, V>(s: Seq<(K, V)>, k: K, v: V) -> Seq<(K, V)> {
    if has_key(s, k) {
        s.update(index_of(s, k), (k, v))
    } else {
        s.push((k, v))
    }
}

/// The entries without the one stored under `k`.
pub open spec fn without<K, V>(s: Seq<(K, V)>, k: K) -> Seq<(K, V)> {
    if has_key(s, k) {
        s.remove(index_of(s, k))
    } else {
        s
    }
}

/// The keys of the entries, in order.
pub open spec fn keys_of<K, V>(s: Seq<(K, V)>) -> Seq<K> {
    Seq::new(s.len(), |i: int| s[i].0)
}

/// In a table without repeated keys the position of a key is the only place
/// where it stands.
pub proof fn lemma_index_of_unique<K, V>(s: Seq<(K, V)>, i: int)
    requires
        keys_distinct(s),
        0 <= i < s.len(),
    ensures
        has_key(s, s[i].0),
        index_of(s, s[i].0) == i,
        lookup(s, s[i].0) == Some(s[i].1),
{
    let k = s[i].0;
    assert(has_key(s, k));
    let j = index_of(s, k);
    if j < i {
        assert(s[j].0 != s[i].0);
    } else if i < j {
        assert(s[i].0 != s[j].0);
    }
}

/// Storing a value keeps the keys distinct, is found again under its key and
/// leaves every other key as it was.
pub proof fn lemma_put<K, V>(s: Seq<(K, V)>, k: K, v: V)
    requires
        keys_distinct(s),
    ensures
        keys_distinct(put(s, k, v)),
        lookup(put(s, k, v), k) == Some(v),
        forall|other: K| other != k ==> lookup(put(s, k, v), other) == lookup(s, other),
        forall|other: K| has_key(put(s, k, v), other) <==> (other == k || has_key(s, other)),
{
    let t = put(s, k, v);
    if has_key(s, k) {
        let p = index_of(s, k);
        assert(t.len() == s.len());
        assert forall|i: int, j: int| 0 <= i < j < t.len() implies (#[trigger] t[i]).0 != (
        #[trigger] t[j]).0 by {
            assert(s[i].0 != s[j].0);
        }
        assert(t[p].0 == k);
        lemma_index_of_unique(t, p);
        assert forall|other: K| has_key(t, other) <==> (other == k || has_key(s, other)) by {
            if has_key(t, other) {
                let i = index_of(t, other);
                assert(t[i].0 == s[i].0);
            }
            if has_key(s, other) {
                let i = index_of(s, other);
                assert(t[i].0 == other);
            }
        }
        assert forall|other: K| other != k implies lookup(t, other) == lookup(s, other) by {
            if has_key(s, other) {
                let i = index_of(s, other);
                assert(t[i].0 == other);
                lemma_index_of_unique(t, i);
            }
        }
    } else {
        let p = s.len() as int;
        assert forall|i: int, j: int| 0 <= i < j < t.len() implies (#[trigger] t[i]).0 != (
        #[trigger] t[j]).0 by {
            if j < s.len() {
                assert(s[i].0 != s[j].0);
            } else {
                assert(t[i] == s[i]);
                if s[i].0 == k {
                    assert(has_key(s, k));
                }
            }
        }
        assert(t[p].0 == k);
        lemma_index_of_unique(t, p);
        assert forall|other: K| has_key(t, other) <==> (other == k || has_key(s, other)) by {
            if has_key(t, other) {
                let i = index_of(t, other);
                if i < s.len() {
                    assert(s[i].0 == other);
                }
            }
            if has_key(s, other) {
                let i = index_of(s, other);
                assert(t[i].0 == other);
            }
        }
        assert forall|other: K| other != k implies lookup(t, other) == lookup(s, other) by {
            if has_key(s, other) {
                let i = index_of(s, other);
                assert(t[i] == s[i]);
                lemma_index_of_unique(t, i);
            }
        }
    }
}

/// Removing a key keeps the keys distinct, leaves the key absent and every
/// other key as it was.
pub proof fn lemma_without<K, V>(s: Seq<(K, V)>, k: K)
    requires
        keys_distinct(s),
    ensures
        keys_distinct(without(s, k)),
        !has_key(without(s, k), k),
        forall|other: K| other != k ==> lookup(without(s, k), other) == lookup(s, other),
        forall|other: K| has_key(without(s, k), other) <==> (other != k && has_key(s, other)),
{
    let t = without(s, k);
    if has_key(s, k) {
        let p = index_of(s, k);
        assert forall|i: int| 0 <= i < t.len() implies #[trigger] t[i] == s[if i < p {
            i
        } else {
            i + 1
        }] by {}
        assert forall|i: int, j: int| 0 <= i < j < t.len() implies (#[trigger] t[i]).0 != (
        #[trigger] t[j]).0 by {
            let si = if i < p { i } else { i + 1 };
            let sj = if j < p { j } else { j + 1 };
            assert(t[i] == s[si]);
            assert(t[j] == s[sj]);
            assert(s[si].0 != s[sj].0);
        }
        if has_key(t, k) {
            let i = index_of(t, k);
            let si = if i < p { i } else { i + 1 };
            assert(t[i] == s[si]);
            lemma_index_of_unique(s, si);
        }
        assert forall|other: K| has_key(t, other) <==> (other != k && has_key(s, other)) by {
            if has_key(t, other) {
                let i = index_of(t, other);
                let si = if i < p { i } else { i + 1 };
                assert(t[i] == s[si]);
                assert(s[si].0 == other);
            }
            if other != k && has_key(s, other) {
                let i = index_of(s, other);
                let ti = if i < p { i } else { i - 1 };
                assert(t[ti] == s[i]);
            }
        }
        assert forall|other: K| other != k implies lookup(t, other) == lookup(s, other) by {
            if has_key(s, other) {
                let i = index_of(s, other);
                let ti = if i < p { i } else { i - 1 };
                assert(t[ti] == s[i]);
                lemma_index_of_unique(t, ti);
            }
        }
    }
}


/// The entries with `v` stored under `k` unless `k` is present already.
pub open spec fn put_absent<K, V>(s: Seq<(K, V)>, k: K, v: V) -> Seq<(K, V)> {
    if has_key(s, k) {
        s
    } else {
        s.push((k, v))
    }
}

/// The entries after each of `more` has been stored in turn.
pub open spec fn put_all<K, V>(s: Seq<(K, V)>, more: Seq<(K, V)>) -> Seq<(K, V)>
    decreases more.len(),
{
    if more.len() == 0 {
        s
    } else {
        put(put_all(s, more.drop_last()), more.last().0, more.last().1)
    }
}

/// The entries after each of `more` has been stored in turn, unless its key
/// was present.
pub open spec fn put_all_absent<K, V>(s: Seq<(K, V)>, more: Seq<(K, V)>) -> Seq<(K, V)>
    decreases more.len(),
{
    if more.len() == 0 {
        s
    } else {
        put_absent(put_all_absent(s, more.drop_last()), more.last().0, more.last().1)
    }
}

/// Storing one more entry after a run of entries.
pub proof fn lemma_put_all_push<K, V>(s: Seq<(K, V)>, more: Seq<(K, V)>, k: K, v: V)
    ensures
        put_all(s, more.push((k, v))) == put(put_all(s, more), k, v),
{
    assert(more.push((k, v)).drop_last() == more);
}

/// Storing one more entry, if absent, after a run of entries.
pub proof fn lemma_put_all_absent_push<K, V>(s: Seq<(K, V)>, more: Seq<(K, V)>, k: K, v: V)
    ensures
        put_all_absent(s, more.push((k, v))) == put_absent(put_all_absent(s, more), k, v),
{
    assert(more.push((k, v)).drop_last() == more);
}

/// Storing a value under an absent key keeps the keys distinct and every
/// value that was there.
pub proof fn lemma_put_absent<K, V>(s: Seq<(K, V)>, k: K, v: V)
    requires
        keys_distinct(s),
    ensures
        keys_distinct(put_absent(s, k, v)),
        has_key(s, k) ==> lookup(put_absent(s, k, v), k) == lookup(s, k),
        !has_key(s, k) ==> lookup(put_absent(s, k, v), k) == Some(v),
        forall|other: K| other != k ==> lookup(put_absent(s, k, v), other) == lookup(s, other),
        forall|other: K| has_key(put_absent(s, k, v), other) <==> (other == k || has_key(s, other)),
{
    if !has_key(s, k) {
        lemma_put(s, k, v);
    }
}

/// The open transactions, each under its id. The states are looked up in
/// a hash map; beside it the ids are kept in the order in which their
/// transactions were opened, which is the order of the table's entries.
#[derive(Debug, PartialEq, Eq)]
pub struct TransactionTable {
    states: HashMap<u64, TransactionState>,
    order: Vec<u64>,
}

impl View for TransactionTable {
    type V = Seq<(u64, TransactionState)>;

    closed spec fn view(&self) -> Seq<(u64, TransactionState)> {
        Seq::new(self.order@.len(), |i: int| (self.order@[i], self.states@[self.order@[i]]))
    }
}

/// The ids in `order` are exactly the keys of `states`, each once.
spec fn ids_match(states: Map<u64, TransactionState>, order: Seq<u64>) -> bool {
    &&& forall|i: int, j: int| 0 <= i < j < order.len() ==> order[i] != order[j]
    &&& forall|i: int| 0 <= i < order.len() ==> states.contains_key(#[trigger] order[i])
    &&& forall|id: u64|
        states.contains_key(id) ==> exists|i: int| 0 <= i < order.len() && #[trigger] order[i] == id
}

impl TransactionTable {
    #[verifier::type_invariant]
    spec fn inv(&self) -> bool {
        ids_match(self.states@, self.order@)
    }

    /// No transaction id occurs twice.
    pub open spec fn wf(&self) -> bool {
        keys_distinct(self@)
    }

    /// Every table is well formed: this call makes that known where it stands.
    pub fn known_wf(&self)
        ensures
            self.wf(),
    {
        proof {
            use_type_invariant(self);
        }
    }

    /// A table without transactions.
    pub fn new() -> (table: Self)
        ensures
            table@ == Seq::<(u64, TransactionState)>::empty(),
            table.wf(),
    {
        let table = Self { states: HashMap::new(), order: Vec::new() };
        proof {
            assert(table@ =~= Seq::<(u64, TransactionState)>::empty());
        }
        table
    }

    /// A table with the given entries, in their order. An entry whose id came
    /// earlier is replaced in place by the later one.
    pub fn from_entries(entries: Vec<(u64, TransactionState)>) -> (table: Self)
        ensures
            table.wf(),
            table@ == put_all(Seq::empty(), entries@),
    {
        let mut table = Self::new();
        let mut i: usize = 0;
        proof {
            reveal_with_fuel(put_all, 1);
        }
        while i < entries.len()
            invariant
                i <= entries.len(),
                table.wf(),
                table@ == put_all(Seq::empty(), entries@.take(i as int)),
            decreases entries.len() - i,
        {
            let (id, state) = entries[i];
            proof {
                lemma_put_all_push(Seq::empty(), entries@.take(i as int), id, state);
                assert(entries@.take(i as int).push((id, state)) == entries@.take(i + 1));
            }
            table.insert(id, state);
            i += 1;
        }
        proof {
            assert(entries@.take(entries.len() as int) == entries@);
        }
        table
    }

    /// The number of entries.
    pub fn len(&self) -> (n: usize)
        ensures
            n == self@.len(),
    {
        self.order.len()
    }

    /// Whether the table holds no entry.
    pub fn is_empty(&self) -> (empty: bool)
        ensures
            empty == (self@.len() == 0),
    {
        self.order.len() == 0
    }

    /// The entry at a position, in insertion order.
    pub fn entry(&self, position: usize) -> (entry: (u64, TransactionState))
        requires
            position < self@.len(),
        ensures
            entry == self@[position as int],
    {
        proof {
            use_type_invariant(self);
        }
        let id = self.order[position];
        let state = self.states.get(&id);
        (id, *state.unwrap())
    }

    /// The state of the transaction `id`, if it is open.
    pub fn get(&self, id: u64) -> (state: Option<TransactionState>)
        ensures
            state == lookup(self@, id),
            self.wf(),
    {
        proof {
            use_type_invariant(self);
        }
        match self.states.get(&id) {
            Some(state) => {
                proof {
                    let i = choose|i: int| 0 <= i < self.order@.len() && self.order@[i] == id;
                    assert(self@[i] == (id, *state));
                    lemma_index_of_unique(self@, i);
                }
                Some(*state)
            },
            None => {
                proof {
                    if has_key(self@, id) {
                        let i = index_of(self@, id);
                        assert(self.order@[i] == id);
                    }
                }
                None
            },
        }
    }

    /// Whether the transaction `id` is open.
    pub fn contains_key(&self, id: u64) -> (present: bool)
        ensures
            present == has_key(self@, id),
    {
        self.get(id).is_some()
    }

    /// Stores `state` under `id`: in place where the id is present, at the
    /// end where it is not.
    pub fn insert(&mut self, id: u64, state: TransactionState)
        ensures
            final(self).wf(),
            final(self)@ == put(old(self)@, id, state),
    {
        proof {
            use_type_invariant(&*self);
        }
        let ghost before = self@;
        let present = self.get(id).is_some();
        let mut taken = Self::new();
        core::mem::swap(self, &mut taken);
        let Self { states, order } = taken;
        let mut states = states;
        let mut order = order;
        let ghost old_states = states@;
        let ghost old_order = order@;
        states.insert(id, state);
        if !present {
            order.push(id);
        }
        proof {
            assert(ids_match(states@, order@)) by {
                assert forall|i: int, j: int| 0 <= i < j < order@.len() implies order@[i]
                    != order@[j] by {
                    if j >= old_order.len() {
                        if order@[i] == id {
                            assert(before[i].0 == id);
                        }
                    }
                }
                assert forall|k: u64| states@.contains_key(k) implies exists|i: int|
                    0 <= i < order@.len() && #[trigger] order@[i] == k by {
                    if k == id {
                        if present {
                            let i = index_of(before, id);
                            assert(order@[i] == id);
                        } else {
                            assert(order@[old_order.len() as int] == id);
                        }
                    } else {
                        let i = choose|i: int| 0 <= i < old_order.len() && old_order[i] == k;
                        assert(order@[i] == k);
                    }
                }
            }
        }
        *self = Self { states, order };
        proof {
            if present {
                let p = index_of(before, id);
                assert(before[p].0 == id);
                assert(self@ =~= before.update(p, (id, state))) by {
                    assert forall|i: int| 0 <= i < self@.len() implies self@[i] == before.update(
                        p,
                        (id, state),
                    )[i] by {
                        if i != p {
                            assert(before[i].0 != before[p].0) by {
                                if i < p {
                                    assert(old_order[i] != old_order[p]);
                                } else {
                                    assert(old_order[p] != old_order[i]);
                                }
                            }
                        }
                    }
                }
            } else {
                assert(self@ =~= before.push((id, state))) by {
                    assert forall|i: int| 0 <= i < self@.len() implies self@[i] == before.push(
                        (id, state),
                    )[i] by {
                        if i < before.len() {
                            if old_order[i] == id {
                                assert(before[i].0 == id);
                            }
                        }
                    }
                }
            }
        }
    }

    /// Removes the transaction `id`, if it is there.
    pub fn remove(&mut self, id: u64)
        ensures
            final(self).wf(),
            final(self)@ == without(old(self)@, id),
    {
        proof {
            use_type_invariant(&*self);
        }
        let ghost before = self@;
        if self.get(id).is_none() {
            return ;
        }
        let mut taken = Self::new();
        core::mem::swap(self, &mut taken);
        let Self { states, order } = taken;
        let mut states = states;
        let mut order = order;
        let ghost old_states = states@;
        let ghost old_order = order@;
        let count = order.len();
        let mut position: usize = 0;
        while order[position] != id
            invariant
                position < count,
                count == order@.len(),
                order@ == old_order,
                exists|i: int| position <= i < order@.len() && #[trigger] order@[i] == id,
            decreases order@.len() - position,
        {
            proof {
                let i = choose|i: int| position <= i < order@.len() && #[trigger] order@[i] == id;
                assert(i != position);
            }
            position += 1;
        }
        states.remove(&id);
        order.remove(position);
        proof {
            let p = position as int;
            assert forall|i: int| 0 <= i < order@.len() implies #[trigger] order@[i] == old_order[if i
                < p {
                i
            } else {
                i + 1
            }] by {}
            assert(ids_match(states@, order@)) by {
                assert forall|i: int, j: int| 0 <= i < j < order@.len() implies order@[i]
                    != order@[j] by {
                    let si = if i < p { i } else { i + 1 };
                    let sj = if j < p { j } else { j + 1 };
                    assert(old_order[si] != old_order[sj]);
                }
                assert forall|i: int| 0 <= i < order@.len() implies states@.contains_key(
                    #[trigger] order@[i],
                ) by {
                    let si = if i < p { i } else { i + 1 };
                    assert(old_states.contains_key(old_order[si]));
                    if si < p {
                        assert(old_order[si] != old_order[p]);
                    } else {
                        assert(old_order[p] != old_order[si]);
                    }
                }
                assert forall|k: u64| states@.contains_key(k) implies exists|i: int|
                    0 <= i < order@.len() && #[trigger] order@[i] == k by {
                    let si = choose|i: int| 0 <= i < old_order.len() && old_order[i] == k;
                    let i = if si < p { si } else { si - 1 };
                    assert(order@[i] == k);
                }
            }
        }
        *self = Self { states, order };
        proof {
            let p = position as int;
            assert(before[p].0 == id);
            lemma_index_of_unique(before, p);
            assert(self@ =~= before.remove(p)) by {
                assert forall|i: int| 0 <= i < self@.len() implies self@[i] == before.remove(
                    p,
                )[i] by {
                    let si = if i < p { i } else { i + 1 };
                    if si < p {
                        assert(old_order[si] != old_order[p]);
                    } else {
                        assert(old_order[p] != old_order[si]);
                    }
                }
            }
        }
    }

    /// The ids of the open transactions, in insertion order.
    pub fn ids(&self) -> (ids: Vec<u64>)
        ensures
            ids@ == keys_of(self@),
    {
        let mut ids: Vec<u64> = Vec::new();
        let mut i: usize = 0;
        while i < self.order.len()
            invariant
                i <= self.order@.len(),
                ids@ == self.order@.take(i as int),
            decreases self.order@.len() - i,
        {
            ids.push(self.order[i]);
            proof {
                assert(ids@ =~= self.order@.take(i + 1));
            }
            i += 1;
        }
        proof {
            assert(self.order@.take(self.order@.len() as int) == self.order@);
            assert(ids@ =~= keys_of(self@));
        }
        ids
    }

    /// A copy of the table.
    pub fn duplicate(&self) -> (copy: Self)
        ensures
            copy@ == self@,
    {
        proof {
            use_type_invariant(self);
        }
        let mut states: HashMap<u64, TransactionState> = HashMap::new();
        let mut order: Vec<u64> = Vec::new();
        let mut i: usize = 0;
        while i < self.order.len()
            invariant
                i <= self.order@.len(),
                ids_match(self.states@, self.order@),
                order@ == self.order@.take(i as int),
                forall|k: int|
                    0 <= k < i ==> states@.contains_key(#[trigger] self.order@[k])
                        && states@[self.order@[k]] == self.states@[self.order@[k]],
                forall|id: u64|
                    states@.contains_key(id) ==> exists|k: int|
                        0 <= k < i && #[trigger] self.order@[k] == id,
            decreases self.order@.len() - i,
        {
            let id = self.order[i];
            let state = *self.states.get(&id).unwrap();
            states.insert(id, state);
            order.push(id);
            proof {
                assert(order@ =~= self.order@.take(i + 1));
                assert forall|k: int| 0 <= k < i + 1 implies states@.contains_key(
                    #[trigger] self.order@[k],
                ) && states@[self.order@[k]] == self.states@[self.order@[k]] by {
                    if k < i {
                        assert(self.order@[k] != self.order@[i as int]);
                    }
                }
                assert forall|key: u64| states@.contains_key(key) implies exists|k: int|
                    0 <= k < i + 1 && #[trigger] self.order@[k] == key by {
                    if key == id {
                        assert(self.order@[i as int] == id);
                    } else {
                        let k = choose|k: int| 0 <= k < i && #[trigger] self.order@[k] == key;
                        assert(self.order@[k] == key);
                    }
                }
            }
            i += 1;
        }
        proof {
            assert(self.order@.take(self.order@.len() as int) == self.order@);
        }
        let copy = Self { states, order };
        proof {
            assert(copy@ =~= self@);
        }
        copy
    }
}

/// The number under which a page address is looked up: the segment number
/// above the sixteen bits of the page number.
pub open spec fn address_key(address: PageAddress) -> u64 {
    (address.segment_num * 65536 + address.page_num) as u64
}

/// Two addresses have one key only if they are one address.
pub proof fn lemma_address_key_injective(a: PageAddress, b: PageAddress)
    ensures
        address_key(a) == address_key(b) ==> a == b,
{
}

/// The number under which a page address is looked up.
pub fn key_of(address: PageAddress) -> (key: u64)
    ensures
        key == address_key(address),
{
    address.segment_num as u64 * 65536 + address.page_num as u64
}

/// The pages that may be newer in the log than on disk, each with the index
/// of its earliest mutation that has not reached the disk. The indices are
/// looked up in a hash map under the keys of the addresses; beside it the
/// addresses are kept in the order in which their pages became dirty, which
/// is the order of the table's entries.
#[derive(Debug, PartialEq, Eq)]
pub struct DirtyPageTable {
    indices: HashMap<u64, WalIndex>,
    order: Vec<PageAddress>,
}

impl View for DirtyPageTable {
    type V = Seq<(PageAddress, WalIndex)>;

    closed spec fn view(&self) -> Seq<(PageAddress, WalIndex)> {
        Seq::new(
            self.order@.len(),
            |i: int| (self.order@[i], self.indices@[address_key(self.order@[i])]),
        )
    }
}

/// The addresses in `order` are exactly those whose keys are the keys of
/// `indices`, each once.
spec fn addresses_match(indices: Map<u64, WalIndex>, order: Seq<PageAddress>) -> bool {
    &&& forall|i: int, j: int| 0 <= i < j < order.len() ==> order[i] != order[j]
    &&& forall|i: int| 0 <= i < order.len() ==> indices.contains_key(address_key(#[trigger] order[i]))
    &&& forall|key: u64|
        indices.contains_key(key) ==> exists|i: int|
            0 <= i < order.len() && address_key(#[trigger] order[i]) == key
}

impl DirtyPageTable {
    #[verifier::type_invariant]
    spec fn inv(&self) -> bool {
        addresses_match(self.indices@, self.order@)
    }

    /// No page address occurs twice.
    pub open spec fn wf(&self) -> bool {
        keys_distinct(self@)
    }

    /// Every table is well formed: this call makes that known where it stands.
    pub fn known_wf(&self)
        ensures
            self.wf(),
    {
        proof {
            use_type_invariant(self);
        }
    }

    /// A table without dirty pages.
    pub fn new() -> (table: Self)
        ensures
            table@ == Seq::<(PageAddress, WalIndex)>::empty(),
            table.wf(),
    {
        let table = Self { indices: HashMap::new(), order: Vec::new() };
        proof {
            assert(table@ =~= Seq::<(PageAddress, WalIndex)>::empty());
        }
        table
    }

    /// A table with the given entries, in their order. Of two entries for one
    /// page the earlier one stays.
    pub fn from_entries(entries: Vec<(PageAddress, WalIndex)>) -> (table: Self)
        ensures
            table.wf(),
            table@ == put_all_absent(Seq::empty(), entries@),
    {
        let mut table = Self::new();
        let mut i: usize = 0;
        proof {
            reveal_with_fuel(put_all_absent, 1);
        }
        while i < entries.len()
            invariant
                i <= entries.len(),
                table.wf(),
                table@ == put_all_absent(Seq::empty(), entries@.take(i as int)),
            decreases entries.len() - i,
        {
            let (address, index) = entries[i];
            proof {
                lemma_put_all_absent_push(Seq::empty(), entries@.take(i as int), address, index);
                assert(entries@.take(i as int).push((address, index)) == entries@.take(i + 1));
            }
            table.insert_if_absent(address, index);
            i += 1;
        }
        proof {
            assert(entries@.take(entries.len() as int) == entries@);
        }
        table
    }

    /// The number of entries.
    pub fn len(&self) -> (n: usize)
        ensures
            n == self@.len(),
    {
        self.order.len()
    }

    /// Whether the table holds no entry.
    pub fn is_empty(&self) -> (empty: bool)
        ensures
            empty == (self@.len() == 0),
    {
        self.order.len() == 0
    }

    /// The entry at a position, in insertion order.
    pub fn entry(&self, position: usize) -> (entry: (PageAddress, WalIndex))
        requires
            position < self@.len(),
        ensures
            entry == self@[position as int],
    {
        proof {
            use_type_invariant(self);
        }
        let address = self.order[position];
        let key = key_of(address);
        let index = self.indices.get(&key);
        (address, *index.unwrap())
    }

    /// The index of the earliest unflushed mutation of the page, if the page
    /// is dirty.
    pub fn get(&self, address: PageAddress) -> (index: Option<WalIndex>)
        ensures
            index == lookup(self@, address),
            self.wf(),
    {
        proof {
            use_type_invariant(self);
        }
        let key = key_of(address);
        match self.indices.get(&key) {
            Some(index) => {
                proof {
                    let i = choose|i: int|
                        0 <= i < self.order@.len() && address_key(#[trigger] self.order@[i]) == key;
                    lemma_address_key_injective(self.order@[i], address);
                    assert(self@[i] == (address, *index));
                    lemma_index_of_unique(self@, i);
                }
                Some(*index)
            },
            None => {
                proof {
                    if has_key(self@, address) {
                        let i = index_of(self@, address);
                        assert(self.order@[i] == address);
                    }
                }
                None
            },
        }
    }

    /// Marks the page dirty from `index` on, unless it is dirty already.
    pub fn insert_if_absent(&mut self, address: PageAddress, index: WalIndex)
        ensures
            final(self).wf(),
            final(self)@ == put_absent(old(self)@, address, index),
    {
        proof {
            use_type_invariant(&*self);
        }
        let ghost before = self@;
        if self.get(address).is_some() {
            return ;
        }
        let key = key_of(address);
        let mut taken = Self::new();
        core::mem::swap(self, &mut taken);
        let Self { indices, order } = taken;
        let mut indices = indices;
        let mut order = order;
        let ghost old_indices = indices@;
        let ghost old_order = order@;
        indices.insert(key, index);
        order.push(address);
        proof {
            assert(addresses_match(indices@, order@)) by {
                assert forall|i: int, j: int| 0 <= i < j < order@.len() implies order@[i]
                    != order@[j] by {
                    if j >= old_order.len() {
                        if order@[i] == address {
                            assert(before[i].0 == address);
                        }
                    }
                }
                assert forall|k: u64| indices@.contains_key(k) implies exists|i: int|
                    0 <= i < order@.len() && address_key(#[trigger] order@[i]) == k by {
                    if k == key {
                        assert(order@[old_order.len() as int] == address);
                    } else {
                        let i = choose|i: int|
                            0 <= i < old_order.len() && address_key(#[trigger] old_order[i]) == k;
                        assert(order@[i] == old_order[i]);
                    }
                }
            }
        }
        *self = Self { indices, order };
        proof {
            assert(self@ =~= before.push((address, index))) by {
                assert forall|i: int| 0 <= i < self@.len() implies self@[i] == before.push(
                    (address, index),
                )[i] by {
                    if i < before.len() {
                        lemma_address_key_injective(old_order[i], address);
                        if old_order[i] == address {
                            assert(before[i].0 == address);
                        }
                    }
                }
            }
        }
    }

    /// Forgets every dirty page.
    pub fn clear(&mut self)
        ensures
            final(self)@ == Seq::<(PageAddress, WalIndex)>::empty(),
            final(self).wf(),
    {
        *self = Self::new();
    }

    /// A copy of the table.
    pub fn duplicate(&self) -> (copy: Self)
        ensures
            copy@ == self@,
    {
        proof {
            use_type_invariant(self);
        }
        let mut indices: HashMap<u64, WalIndex> = HashMap::new();
        let mut order: Vec<PageAddress> = Vec::new();
        let mut i: usize = 0;
        while i < self.order.len()
            invariant
                i <= self.order@.len(),
                addresses_match(self.indices@, self.order@),
                order@ == self.order@.take(i as int),
                forall|k: int|
                    0 <= k < i ==> indices@.contains_key(address_key(#[trigger] self.order@[k]))
                        && indices@[address_key(self.order@[k])] == self.indices@[address_key(
                        self.order@[k],
                    )],
                forall|key: u64|
                    indices@.contains_key(key) ==> exists|k: int|
                        0 <= k < i && address_key(#[trigger] self.order@[k]) == key,
            decreases self.order@.len() - i,
        {
            let address = self.order[i];
            let key = key_of(address);
            let index = *self.indices.get(&key).unwrap();
            indices.insert(key, index);
            order.push(address);
            proof {
                assert(order@ =~= self.order@.take(i + 1));
                assert forall|k: int| 0 <= k < i + 1 implies indices@.contains_key(
                    address_key(#[trigger] self.order@[k]),
                ) && indices@[address_key(self.order@[k])] == self.indices@[address_key(
                    self.order@[k],
                )] by {
                    if k < i {
                        assert(self.order@[k] != self.order@[i as int]);
                        lemma_address_key_injective(self.order@[k], address);
                    }
                }
                assert forall|other: u64| indices@.contains_key(other) implies exists|k: int|
                    0 <= k < i + 1 && address_key(#[trigger] self.order@[k]) == other by {
                    if other == key {
                        assert(self.order@[i as int] == address);
                    } else {
                        let k = choose|k: int|
                            0 <= k < i && address_key(#[trigger] self.order@[k]) == other;
                        assert(address_key(self.order@[k]) == other);
                    }
                }
            }
            i += 1;
        }
        proof {
            assert(self.order@.take(self.order@.len() as int) == self.order@);
        }
        let copy = Self { indices, order };
        proof {
            assert(copy@ =~= self@);
        }
        copy
    }
}

} // verus!
