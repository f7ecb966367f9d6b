//! The replacement policy of the engine's caches. It decides which key
//! leaves a cache next and holds no values itself.
//!
//! Keys pass through three queues. A key that is seen for the first time
//! enters the *fast* queue, a first-in-first-out filter for keys that may be
//! touched only once. A key that leaves the fast queue is remembered in the
//! *graveyard*, which holds keys without values. A key that is touched while
//! the graveyard remembers it has proven its worth and enters the *slow*
//! queue, which is kept in order of last use.

use vstd::prelude::*;
use std::collections::VecDeque;

verus! {

/// The model of a replacer: its queues, each with its front at position
/// zero, and their limits.
pub struct ReplacerView {
    pub fast: Seq<u32>,
    pub slow: Seq<u32>,
    pub graveyard: Seq<u32>,
    pub fast_cap: usize,
    pub graveyard_cap: usize,
}

/// No key is in both sequences.
pub open spec fn disjoint(a: Seq<u32>, b: Seq<u32>) -> bool {
    forall|k: u32| !(a.contains(k) && b.contains(k))
}

/// The position of the key `k` in `s`, where it is there.
pub open spec fn position_of(s: Seq<u32>, k: u32) -> int {
    choose|i: int| 0 <= i < s.len() && s[i] == k
}

impl ReplacerView {
    /// No queue holds a key twice, no key of the fast queue is in another
    /// queue, and the graveyard is within its limit.
    pub open spec fn wf(self) -> bool {
        &&& self.fast.no_duplicates()
        &&& self.slow.no_duplicates()
        &&& self.graveyard.no_duplicates()
        &&& disjoint(self.fast, self.slow)
        &&& disjoint(self.fast, self.graveyard)
        &&& self.graveyard.len() <= self.graveyard_cap
    }

    /// Whether the key is in the cache as far as the replacer knows: it is in
    /// the fast or in the slow queue.
    pub open spec fn resident(self, k: u32) -> bool {
        self.fast.contains(k) || self.slow.contains(k)
    }

    /// How many keys are resident.
    pub open spec fn num_resident(self) -> nat {
        self.fast.len() + self.slow.len()
    }

    /// The replacer after the key `k` was accessed.
    pub open spec fn accessed(self, k: u32) -> ReplacerView {
        if self.fast.contains(k) {
            self
        } else if self.slow.contains(k) {
            ReplacerView {
                slow: seq![k] + self.slow.remove(position_of(self.slow, k)),
                ..self
            }
        } else if self.graveyard.contains(k) {
            ReplacerView { slow: seq![k] + self.slow, ..self }
        } else {
            ReplacerView { fast: seq![k] + self.fast, ..self }
        }
    }

    /// The key that a call to reclaim returns.
    pub open spec fn victim(self) -> Option<u32> {
        if self.fast.len() > self.fast_cap {
            Some(self.fast.last())
        } else if self.slow.len() > 0 {
            Some(self.slow.last())
        } else {
            None
        }
    }

    /// The replacer after a call to reclaim.
    pub open spec fn reclaimed(self) -> ReplacerView {
        if self.fast.len() > self.fast_cap {
            let buried = seq![self.fast.last()] + self.graveyard;
            ReplacerView {
                fast: self.fast.drop_last(),
                graveyard: if buried.len() > self.graveyard_cap {
                    buried.drop_last()
                } else {
                    buried
                },
                ..self
            }
        } else if self.slow.len() > 0 {
            ReplacerView { slow: self.slow.drop_last(), ..self }
        } else {
            self
        }
    }
}

/// A key in front of a sequence that does not hold it repeats no key.
pub proof fn lemma_push_front_no_duplicates(s: Seq<u32>, k: u32)
    requires
        s.no_duplicates(),
        !s.contains(k),
    ensures
        (seq![k] + s).no_duplicates(),
        forall|x: u32| (seq![k] + s).contains(x) <==> (x == k || s.contains(x)),
{
    let t = seq![k] + s;
    assert forall|i: int, j: int| 0 <= i < t.len() && 0 <= j < t.len() && i != j implies t[i]
        != t[j] by {
        if i > 0 && j > 0 {
            assert(s[i - 1] != s[j - 1]);
        } else if i == 0 {
            assert(s.contains(s[j - 1]));
        } else {
            assert(s.contains(s[i - 1]));
        }
    }
    assert forall|x: u32| t.contains(x) <==> (x == k || s.contains(x)) by {
        if t.contains(x) {
            let i = choose|i: int| 0 <= i < t.len() && t[i] == x;
            if i > 0 {
                assert(s[i - 1] == x);
            }
        }
        if s.contains(x) {
            let i = choose|i: int| 0 <= i < s.len() && s[i] == x;
            assert(t[i + 1] == x);
        }
        if x == k {
            assert(t[0] == k);
        }
    }
}

/// Without its key at position `i` a sequence that repeats no key holds
/// every other key that it held, and that key no more.
pub proof fn lemma_remove_no_duplicates(s: Seq<u32>, i: int)
    requires
        s.no_duplicates(),
        0 <= i < s.len(),
    ensures
        s.remove(i).no_duplicates(),
        forall|x: u32| s.remove(i).contains(x) <==> (x != s[i] && s.contains(x)),
{
    let t = s.remove(i);
    assert forall|a: int, b: int| 0 <= a < t.len() && 0 <= b < t.len() && a != b implies t[a]
        != t[b] by {
        let sa = if a < i { a } else { a + 1 };
        let sb = if b < i { b } else { b + 1 };
        assert(t[a] == s[sa] && t[b] == s[sb]);
    }
    assert forall|x: u32| t.contains(x) <==> (x != s[i] && s.contains(x)) by {
        if t.contains(x) {
            let a = choose|a: int| 0 <= a < t.len() && t[a] == x;
            let sa = if a < i { a } else { a + 1 };
            assert(t[a] == s[sa]);
            assert(s.contains(x));
        }
        if x != s[i] && s.contains(x) {
            let b = choose|b: int| 0 <= b < s.len() && s[b] == x;
            let a = if b < i { b } else { b - 1 };
            assert(t[a] == x);
        }
    }
}

/// Without its last key a sequence that repeats no key holds every other
/// key that it held, and that key no more.
pub proof fn lemma_drop_last_no_duplicates(s: Seq<u32>)
    requires
        s.no_duplicates(),
        s.len() > 0,
    ensures
        s.drop_last().no_duplicates(),
        forall|x: u32| s.drop_last().contains(x) <==> (x != s.last() && s.contains(x)),
{
    assert(s.drop_last() =~= s.remove(s.len() - 1));
    lemma_remove_no_duplicates(s, s.len() - 1);
}

/// An access keeps the replacer well formed. It lets the fast queue grow by
/// one key at most, so that a fast queue within its limit is over it by one
/// key at most afterwards; it leaves the graveyard alone and makes the key
/// resident.
pub proof fn lemma_accessed(v: ReplacerView, k: u32)
    requires
        v.wf(),
    ensures
        v.accessed(k).wf(),
        v.accessed(k).fast.len() <= v.fast.len() + 1,
        v.fast.len() <= v.fast_cap ==> v.accessed(k).fast.len() <= v.fast_cap + 1,
        v.accessed(k).graveyard == v.graveyard,
        v.accessed(k).fast_cap == v.fast_cap,
        v.accessed(k).graveyard_cap == v.graveyard_cap,
        forall|x: u32|
            #![trigger v.accessed(k).resident(x)]
            v.accessed(k).resident(x) <==> (x == k || v.resident(x)),
        v.accessed(k).num_resident() == if v.resident(k) {
            v.num_resident()
        } else {
            v.num_resident() + 1
        },
{
    let w = v.accessed(k);
    if v.fast.contains(k) {
    } else if v.slow.contains(k) {
        let p = position_of(v.slow, k);
        lemma_remove_no_duplicates(v.slow, p);
        lemma_push_front_no_duplicates(v.slow.remove(p), k);
        assert forall|x: u32| !(w.fast.contains(x) && w.slow.contains(x)) by {
            if w.fast.contains(x) && w.slow.contains(x) {
                assert(v.fast.contains(x) && v.slow.contains(x));
            }
        }
    } else if v.graveyard.contains(k) {
        lemma_push_front_no_duplicates(v.slow, k);
        assert forall|x: u32| !(w.fast.contains(x) && w.slow.contains(x)) by {
            if w.fast.contains(x) && w.slow.contains(x) {
                assert(v.fast.contains(x) && (x == k || v.slow.contains(x)));
            }
        }
    } else {
        lemma_push_front_no_duplicates(v.fast, k);
        assert forall|x: u32| !(w.fast.contains(x) && w.slow.contains(x)) by {
            if w.fast.contains(x) && w.slow.contains(x) {
                assert(v.slow.contains(x));
                assert(x == k || v.fast.contains(x));
            }
        }
        assert forall|x: u32| !(w.fast.contains(x) && w.graveyard.contains(x)) by {
            if w.fast.contains(x) && w.graveyard.contains(x) {
                assert(x == k || v.fast.contains(x));
            }
        }
    }
}

/// A reclaim keeps the replacer well formed and the graveyard within its
/// limit, and it brings a fast queue that is over its limit by one key back
/// within it. The key that it returns was resident and is resident no more:
/// it is neither in the fast nor in the slow queue, though the graveyard may
/// remember it. No other key changes its residence.
pub proof fn lemma_reclaimed(v: ReplacerView)
    requires
        v.wf(),
    ensures
        v.reclaimed().wf(),
        v.reclaimed().graveyard.len() <= v.graveyard_cap,
        v.reclaimed().fast_cap == v.fast_cap,
        v.reclaimed().graveyard_cap == v.graveyard_cap,
        v.reclaimed().fast.len() <= v.fast.len(),
        v.fast.len() <= v.fast_cap + 1 ==> v.reclaimed().fast.len() <= v.fast_cap,
        match v.victim() {
            Some(k) => {
                &&& v.resident(k)
                &&& !v.reclaimed().fast.contains(k)
                &&& !v.reclaimed().slow.contains(k)
                &&& forall|x: u32|
                    #![trigger v.reclaimed().resident(x)]
                    v.reclaimed().resident(x) <==> (x != k && v.resident(x))
                &&& v.reclaimed().num_resident() == v.num_resident() - 1
            },
            None => v.reclaimed() == v && v.num_resident() <= v.fast_cap,
        },
{
    let w = v.reclaimed();
    if v.fast.len() > v.fast_cap {
        let k = v.fast.last();
        let buried = seq![k] + v.graveyard;
        assert(v.fast.contains(k));
        lemma_drop_last_no_duplicates(v.fast);
        lemma_push_front_no_duplicates(v.graveyard, k);
        if buried.len() > v.graveyard_cap {
            lemma_drop_last_no_duplicates(buried);
        }
        assert forall|x: u32| !(w.fast.contains(x) && w.slow.contains(x)) by {
            if w.fast.contains(x) && w.slow.contains(x) {
                assert(v.fast.contains(x) && v.slow.contains(x));
            }
        }
        assert forall|x: u32| !(w.fast.contains(x) && w.graveyard.contains(x)) by {
            if w.fast.contains(x) && w.graveyard.contains(x) {
                assert(buried.contains(x));
                assert(v.fast.contains(x) && (x == k || v.graveyard.contains(x)));
            }
        }
        assert(!v.slow.contains(k));
    } else if v.slow.len() > 0 {
        let k = v.slow.last();
        assert(v.slow.contains(k));
        lemma_drop_last_no_duplicates(v.slow);
        assert forall|x: u32| !(w.fast.contains(x) && w.slow.contains(x)) by {
            if w.fast.contains(x) && w.slow.contains(x) {
                assert(v.fast.contains(x) && v.slow.contains(x));
            }
        }
        assert(!v.fast.contains(k));
    }
}

/// The replacer of a cache whose keys are numbers.
#[derive(Debug)]
pub struct CacheReplacer {
    slow: VecDeque<u32>,
    fast_cap: usize,
    fast: VecDeque<u32>,
    graveyard_cap: usize,
    graveyard: VecDeque<u32>,
    capacity: usize,
}

impl View for CacheReplacer {
    type V = ReplacerView;

    closed spec fn view(&self) -> ReplacerView {
        ReplacerView {
            fast: self.fast@,
            slow: self.slow@,
            graveyard: self.graveyard@,
            fast_cap: self.fast_cap,
            graveyard_cap: self.graveyard_cap,
        }
    }
}

/// Whether the queue holds the key, and where.
fn find_key(queue: &VecDeque<u32>, key: u32) -> (found: Option<usize>)
    ensures
        match found {
            Some(i) => i < queue@.len() && queue@[i as int] == key,
            None => !queue@.contains(key),
        },
{
    let mut i: usize = 0;
    while i < queue.len()
        invariant
            i <= queue@.len(),
            forall|j: int| 0 <= j < i ==> queue@[j] != key,
        decreases queue@.len() - i,
    {
        if queue[i] == key {
            return Some(i);
        }
        i += 1;
    }
    None
}

impl CacheReplacer {
    /// The number of keys that the cache is meant to hold.
    pub closed spec fn capacity(&self) -> usize {
        self.capacity
    }

    /// A replacer for a cache of `length` keys. The fast queue is reclaimed
    /// from once it holds more than a quarter of them, and the graveyard
    /// remembers up to half of them.
    pub fn new(length: usize) -> (replacer: Self)
        ensures
            replacer@.fast.len() == 0,
            replacer@.slow.len() == 0,
            replacer@.graveyard.len() == 0,
            replacer@.fast_cap == length / 4,
            replacer@.graveyard_cap == length / 2,
            replacer.capacity() == length,
            replacer@.wf(),
    {
        Self {
            slow: VecDeque::new(),
            fast_cap: length / 4,
            fast: VecDeque::new(),
            graveyard_cap: length / 2,
            graveyard: VecDeque::new(),
            capacity: length,
        }
    }

    /// How many keys are resident.
    pub fn num_resident(&self) -> (n: usize)
        requires
            self@.num_resident() <= usize::MAX,
        ensures
            n == self@.num_resident(),
    {
        self.fast.len() + self.slow.len()
    }

    /// Whether the key is resident.
    pub fn is_resident(&self, key: u32) -> (resident: bool)
        ensures
            resident == self@.resident(key),
    {
        find_key(&self.fast, key).is_some() || find_key(&self.slow, key).is_some()
    }

    /// Notes that the key was used.
    ///
    /// A key of the fast queue stays where it is. A key of the slow queue
    /// moves to that queue's front. A key that only the graveyard remembers
    /// enters the slow queue at the front and stays in the graveyard. Any
    /// other key enters the fast queue at the front.
    pub fn access(&mut self, item: u32)
        requires
            old(self)@.wf(),
        ensures
            final(self)@ == old(self)@.accessed(item),
            final(self)@.wf(),
            final(self).capacity() == old(self).capacity(),
    {
        proof {
            lemma_accessed(self@, item);
        }
        if find_key(&self.fast, item).is_some() {
            return ;
        }
        if let Some(index) = find_key(&self.slow, item) {
            proof {
                let p = position_of(self.slow@, item);
                assert(self.slow@.contains(item));
                if p != index {
                    assert(self.slow@[p] != self.slow@[index as int]);
                }
            }
            self.slow.remove(index);
            self.slow.push_front(item);
            return ;
        }
        if find_key(&self.graveyard, item).is_some() {
            self.slow.push_front(item);
            return ;
        }
        self.fast.push_front(item);
    }

    /// Takes the key out that the cache should give up next, if there is
    /// one.
    ///
    /// While the fast queue is over its limit, its oldest key leaves and is
    /// remembered at the front of the graveyard, which forgets its oldest
    /// key if it is over its limit then. Otherwise the key of the slow queue
    /// that was used least recently leaves.
    pub fn reclaim(&mut self) -> (reclaimed: Option<u32>)
        requires
            old(self)@.wf(),
        ensures
            reclaimed == old(self)@.victim(),
            final(self)@ == old(self)@.reclaimed(),
            final(self)@.wf(),
            final(self).capacity() == old(self).capacity(),
    {
        proof {
            lemma_reclaimed(self@);
        }
        if self.fast.len() > self.fast_cap {
            let popped = self.fast.pop_back();
            let reclaimed = popped.unwrap();
            proof {
                assert(self.fast@ =~= old(self).fast@.drop_last());
            }
            self.graveyard.push_front(reclaimed);
            if self.graveyard.len() > self.graveyard_cap {
                let ghost buried = self.graveyard@;
                self.graveyard.pop_back();
                proof {
                    assert(self.graveyard@ =~= buried.drop_last());
                }
            }
            return Some(reclaimed);
        }
        let popped = self.slow.pop_back();
        proof {
            if popped is Some {
                assert(self.slow@ =~= old(self).slow@.drop_last());
            }
        }
        popped
    }

    /// Makes room for the key `item` in a cache that may be full, and notes
    /// that the key was used. Returns the key that leaves the cache for it,
    /// if one has to.
    ///
    /// A key leaves only if the new key is not resident and as many keys are
    /// resident as the cache is meant to hold.
    pub fn evict_replace(&mut self, item: u32) -> (evicted: Option<u32>)
        requires
            old(self)@.wf(),
        ensures
            final(self)@.wf(),
            final(self).capacity() == old(self).capacity(),
            evicted == if old(self)@.resident(item) || old(self)@.num_resident() < old(
                self,
            ).capacity() {
                None
            } else {
                old(self)@.victim()
            },
            final(self)@ == if evicted is Some {
                old(self)@.reclaimed().accessed(item)
            } else {
                old(self)@.accessed(item)
            },
    {
        let full = !self.is_resident(item) && (self.fast.len() >= self.capacity || self.slow.len()
            >= self.capacity - self.fast.len());
        let evicted = if full {
            self.reclaim()
        } else {
            None
        };
        proof {
            lemma_reclaimed(old(self)@);
        }
        self.access(item);
        evicted
    }
}

} // verus!
