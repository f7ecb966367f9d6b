use acorn::cache::manager::CacheManager;
use acorn::segment::PageNumber;
use acorn::utils::cache::CacheReplacer;

#[test]
fn fast_fifo() {
    let mut mgr = CacheManager::new(8);

    // Flood the fast queue
    mgr.access(PageNumber::new(1).unwrap());
    mgr.access(PageNumber::new(2).unwrap());
    mgr.access(PageNumber::new(3).unwrap());
    mgr.access(PageNumber::new(4).unwrap());
    mgr.access(PageNumber::new(5).unwrap());

    // Should immediately reclaim the tail of the fast queue
    assert_eq!(mgr.reclaim(), Some(PageNumber::new(1).unwrap()));
    assert_eq!(mgr.reclaim(), Some(PageNumber::new(2).unwrap()));
    assert_eq!(mgr.reclaim(), Some(PageNumber::new(3).unwrap()));
    assert_eq!(mgr.reclaim(), None);
}

#[test]
fn slow_lru_and_graveyard() {
    let mut mgr = CacheManager::new(8);

    // Flood the fast queue
    mgr.access(PageNumber::new(1).unwrap());
    mgr.access(PageNumber::new(2).unwrap());
    mgr.access(PageNumber::new(3).unwrap());
    mgr.access(PageNumber::new(69).unwrap());
    mgr.access(PageNumber::new(420).unwrap());

    // Reclaim to make sure 1, 2, and 3 are in the graveyard
    mgr.reclaim();
    mgr.reclaim();
    mgr.reclaim();

    // Resurrect 1, 2, and 3 from the graveyard to the slow queue
    mgr.access(PageNumber::new(1).unwrap());
    mgr.access(PageNumber::new(2).unwrap());
    mgr.access(PageNumber::new(3).unwrap());

    // This should influence the order of reclaiming
    mgr.access(PageNumber::new(1).unwrap());
    mgr.access(PageNumber::new(3).unwrap());

    // Should reclaim from slow queue according to LRU
    assert_eq!(mgr.reclaim(), Some(PageNumber::new(2).unwrap()));
    assert_eq!(mgr.reclaim(), Some(PageNumber::new(1).unwrap()));
    assert_eq!(mgr.reclaim(), Some(PageNumber::new(3).unwrap()));
}

#[test]
fn resurrection_lru_with_small_keys() {
    let mut mgr = CacheManager::new(8);
    for key in 1..=5 {
        mgr.access(PageNumber::new(key).unwrap());
    }
    for _ in 0..3 {
        mgr.reclaim();
    }
    for key in [1, 2, 3, 1, 3] {
        mgr.access(PageNumber::new(key).unwrap());
    }
    assert_eq!(mgr.reclaim(), Some(PageNumber::new(2).unwrap()));
    assert_eq!(mgr.reclaim(), Some(PageNumber::new(1).unwrap()));
    assert_eq!(mgr.reclaim(), Some(PageNumber::new(3).unwrap()));
    assert_eq!(mgr.reclaim(), None);
}

#[test]
fn page_number_zero_is_no_page_number() {
    assert_eq!(PageNumber::new(0), None);
    assert_eq!(PageNumber::new(7).unwrap().get(), 7);
}

#[test]
fn access_in_fast_queue_does_not_promote() {
    let mut replacer = CacheReplacer::new(4);
    replacer.access(1);
    replacer.access(2);
    // A second access leaves the order of the fast queue alone.
    replacer.access(1);
    assert_eq!(replacer.reclaim(), Some(1));
    assert_eq!(replacer.reclaim(), None);
    assert!(replacer.is_resident(2));
    assert!(!replacer.is_resident(1));
}

#[test]
fn reclaimed_key_is_not_resident() {
    let mut replacer = CacheReplacer::new(8);
    for key in 0..6 {
        replacer.access(key);
    }
    while let Some(key) = replacer.reclaim() {
        assert!(!replacer.is_resident(key));
    }
    // The fast queue is back within its limit of a quarter of the length.
    assert_eq!(replacer.num_resident(), 2);
}

#[test]
fn graveyard_forgets_beyond_its_limit() {
    // With a length of two the graveyard remembers one key and the fast
    // queue holds none.
    let mut replacer = CacheReplacer::new(2);
    replacer.access(10);
    assert_eq!(replacer.reclaim(), Some(10));
    replacer.access(11);
    assert_eq!(replacer.reclaim(), Some(11));
    // 10 was forgotten when 11 was buried: it enters the fast queue again.
    replacer.access(10);
    assert_eq!(replacer.reclaim(), Some(10));
    // 10 has pushed 11 out of the graveyard in turn, so 10 is resurrected.
    replacer.access(10);
    replacer.access(11);
    assert_eq!(replacer.reclaim(), Some(11));
    assert_eq!(replacer.reclaim(), Some(10));
    assert_eq!(replacer.reclaim(), None);
}

#[test]
fn evict_replace_keeps_the_cache_within_its_length() {
    let mut replacer = CacheReplacer::new(2);
    assert_eq!(replacer.evict_replace(1), None);
    assert_eq!(replacer.evict_replace(2), None);
    // The cache is full: the oldest key of the fast queue leaves.
    assert_eq!(replacer.evict_replace(3), Some(1));
    assert_eq!(replacer.num_resident(), 2);
    // A resident key makes no key leave.
    assert_eq!(replacer.evict_replace(3), None);
    assert_eq!(replacer.num_resident(), 2);
}

#[test]
fn evict_replace_with_length_zero_holds_one_key() {
    let mut replacer = CacheReplacer::new(0);
    assert_eq!(replacer.evict_replace(1), None);
    assert_eq!(replacer.evict_replace(2), Some(1));
    assert_eq!(replacer.num_resident(), 1);
}
