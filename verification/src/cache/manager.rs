//! The replacement policy of the page cache.

use vstd::prelude::*;
use crate::segment::PageNumber;
use crate::utils::cache::{lemma_accessed, lemma_reclaimed, CacheReplacer, ReplacerView};

verus! {

/// Decides which page leaves the page cache next; see
/// [`crate::utils::cache`] for the policy.
#[derive(Debug)]
pub struct CacheManager {
    replacer: CacheReplacer,
}

/// Every key of the sequence is a page number, that is, not zero.
pub open spec fn all_page_numbers(keys: Seq<u32>) -> bool {
    forall|i: int| 0 <= i < keys.len() ==> keys[i] != 0
}

impl View for CacheManager {
    type V = ReplacerView;

    closed spec fn view(&self) -> ReplacerView {
        self.replacer@
    }
}

impl CacheManager {
    /// The queues are well formed and hold page numbers only.
    pub open spec fn wf(&self) -> bool {
        &&& self@.wf()
        &&& all_page_numbers(self@.fast)
        &&& all_page_numbers(self@.slow)
    }

    /// A manager for a cache of `length` pages.
    pub fn new(length: usize) -> (manager: Self)
        ensures
            manager@.fast.len() == 0,
            manager@.slow.len() == 0,
            manager@.graveyard.len() == 0,
            manager@.fast_cap == length / 4,
            manager@.graveyard_cap == length / 2,
            manager.wf(),
    {
        Self { replacer: CacheReplacer::new(length) }
    }

    /// Notes that the page was used.
    pub fn access(&mut self, item: PageNumber)
        requires
            old(self).wf(),
        ensures
            final(self)@ == old(self)@.accessed(item.value()),
            final(self).wf(),
            final(self)@.fast.len() <= old(self)@.fast.len() + 1,
            final(self)@.graveyard == old(self)@.graveyard,
    {
        let key = item.get();
        proof {
            lemma_accessed(self@, key);
            let v = self@;
            let w = v.accessed(key);
            assert forall|i: int| 0 <= i < w.fast.len() implies w.fast[i] != 0 by {
                if w.fast != v.fast && i > 0 {
                    assert(w.fast[i] == v.fast[i - 1]);
                }
            }
            assert forall|i: int| 0 <= i < w.slow.len() implies w.slow[i] != 0 by {
                if w.slow != v.slow && i > 0 {
                    assert(v.slow.contains(w.slow[i])) by {
                        if v.slow.contains(key) {
                            let p = crate::utils::cache::position_of(v.slow, key);
                            crate::utils::cache::lemma_remove_no_duplicates(v.slow, p);
                            assert(v.slow.remove(p)[i - 1] == w.slow[i]);
                            assert(v.slow.remove(p).contains(w.slow[i]));
                        } else {
                            assert(v.slow[i - 1] == w.slow[i]);
                        }
                    }
                    let j = choose|j: int| 0 <= j < v.slow.len() && v.slow[j] == w.slow[i];
                    assert(v.slow[j] != 0);
                }
            }
        }
        self.replacer.access(key);
    }

    /// Takes the page out that the cache should give up next, if there is
    /// one. The page is resident no more afterwards.
    pub fn reclaim(&mut self) -> (reclaimed: Option<PageNumber>)
        requires
            old(self).wf(),
        ensures
            match reclaimed {
                Some(page) => old(self)@.victim() == Some(page.value()),
                None => old(self)@.victim() is None,
            },
            final(self)@ == old(self)@.reclaimed(),
            final(self).wf(),
            final(self)@.graveyard.len() <= final(self)@.graveyard_cap,
            reclaimed matches Some(page) ==> !final(self)@.resident(page.value()),
    {
        proof {
            lemma_reclaimed(self@);
            let v = self@;
            let w = v.reclaimed();
            assert(all_page_numbers(w.fast)) by {
                assert forall|i: int| 0 <= i < w.fast.len() implies w.fast[i] != 0 by {
                    assert(w.fast[i] == v.fast[i]);
                }
            }
            assert(all_page_numbers(w.slow)) by {
                assert forall|i: int| 0 <= i < w.slow.len() implies w.slow[i] != 0 by {
                    assert(w.slow[i] == v.slow[i]);
                }
            }
            if v.fast.len() > v.fast_cap {
                assert(v.fast[v.fast.len() - 1] != 0);
            } else if v.slow.len() > 0 {
                assert(v.slow[v.slow.len() - 1] != 0);
            }
        }
        match self.replacer.reclaim() {
            Some(key) => PageNumber::new(key),
            None => None,
        }
    }
}

} // verus!
