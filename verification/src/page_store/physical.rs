//! The physical storage: it routes reads and writes of pages to the segment
//! files and keeps no more than a configured number of them open.

use vstd::prelude::*;
use std::collections::HashMap;
use crate::files::segment::{PAGE_BODY_SIZE, SegmentFileApi};
use crate::files::{DatabaseFolderApi, FileError};
use crate::page_store::{PageId, StorageError, WalIndex};
use crate::utils::cache::{lemma_accessed, lemma_reclaimed, CacheReplacer, ReplacerView};

verus! {

broadcast use vstd::std_specs::hash::group_hash_axioms;

/// The number of segment files that are kept open at a time unless the
/// configuration says otherwise.
pub const DEFAULT_MAX_NUM_OPEN_SEGMENTS: usize = 128;

/// The configuration of the physical storage.
#[derive(Debug, Clone, Copy, PartialEq, Eq, Structural)]
pub struct PhysicalStorageConfig {
    pub max_num_open_segments: usize,
}

impl Default for PhysicalStorageConfig {
    fn default() -> (config: Self)
        ensures
            config.max_num_open_segments == DEFAULT_MAX_NUM_OPEN_SEGMENTS,
    {
        Self { max_num_open_segments: DEFAULT_MAX_NUM_OPEN_SEGMENTS }
    }
}

/// A read of the start of a page into a buffer.
#[derive(Debug)]
pub struct ReadOp<'a> {
    pub page_id: PageId,
    pub buf: &'a mut [u8],
}

/// A write of a whole page together with the log index that it belongs to.
#[derive(Debug, Clone, PartialEq, Eq)]
pub struct WriteOp<'a> {
    pub wal_index: WalIndex,
    pub page_id: PageId,
    pub buf: &'a [u8],
}

/// The segment that leaves a cache with the replacer `replacer` and room
/// for `capacity` segments when one more segment is stored.
pub open spec fn evicted_for_store(replacer: ReplacerView, capacity: usize) -> Option<u32> {
    if replacer.num_resident() < capacity {
        None
    } else {
        replacer.victim()
    }
}

/// The open segment files, at most as many as configured (and one where
/// none is configured). Which one is closed to make room is left to the
/// replacer.
pub struct DescriptorCache<DF: DatabaseFolderApi> {
    descriptors: HashMap<u32, DF::SegmentFile>,
    replacer: CacheReplacer,
    max_num_open_segments: usize,
}

impl<DF: DatabaseFolderApi> DescriptorCache<DF> {
    /// The open segment files, each under the number of its segment.
    pub closed spec fn segments(&self) -> Map<u32, DF::SegmentFile> {
        self.descriptors@
    }

    /// The replacer that follows the use of the open segments.
    pub closed spec fn replacer(&self) -> ReplacerView {
        self.replacer@
    }

    /// The number of segment files that may be open at a time.
    pub closed spec fn max_num_open_segments(&self) -> usize {
        self.max_num_open_segments
    }

    /// The replacer follows exactly the segments that are open, and no more
    /// of them are open than configured, or one where none is configured.
    pub closed spec fn wf(&self) -> bool {
        &&& self.replacer@.wf()
        &&& self.replacer.capacity() == self.max_num_open_segments
        &&& self.replacer@.fast_cap == self.max_num_open_segments / 4
        &&& forall|segment: u32|
            #![trigger self.descriptors@.contains_key(segment)]
            #![trigger self.replacer@.resident(segment)]
            self.descriptors@.contains_key(segment) <==> self.replacer@.resident(segment)
        &&& self.replacer@.num_resident() <= if self.max_num_open_segments == 0 {
            1
        } else {
            self.max_num_open_segments as int
        }
    }

    /// In a well-formed cache exactly the open segments are resident, and
    /// their number is within the limit.
    pub proof fn lemma_wf(&self)
        requires
            self.wf(),
        ensures
            self.replacer().wf(),
            forall|segment: u32|
                self.segments().contains_key(segment) <==> self.replacer().resident(segment),
            self.max_num_open_segments() > 0 ==> self.replacer().num_resident()
                <= self.max_num_open_segments(),
            self.replacer().num_resident() <= self.max_num_open_segments() + 1,
    {
    }

    /// A cache without open segment files.
    pub fn new(config: &PhysicalStorageConfig) -> (cache: Self)
        ensures
            cache.wf(),
            cache.segments() == Map::<u32, DF::SegmentFile>::empty(),
            cache.max_num_open_segments() == config.max_num_open_segments,
            cache.replacer().num_resident() == 0,
    {
        let descriptors = HashMap::with_capacity(config.max_num_open_segments);
        let replacer = CacheReplacer::new(config.max_num_open_segments);
        Self { descriptors, replacer, max_num_open_segments: config.max_num_open_segments }
    }

    /// The file of the segment, if it is open. The replacer is told of the
    /// use.
    pub fn get_descriptor(&mut self, segment_num: u32) -> (descriptor: Option<&DF::SegmentFile>)
        requires
            old(self).wf(),
        ensures
            final(self).wf(),
            final(self).segments() == old(self).segments(),
            final(self).max_num_open_segments() == old(self).max_num_open_segments(),
            match descriptor {
                Some(file) => {
                    &&& old(self).segments().contains_key(segment_num)
                    &&& *file == old(self).segments()[segment_num]
                    &&& final(self).replacer() == old(self).replacer().accessed(segment_num)
                },
                None => !old(self).segments().contains_key(segment_num) && final(self).replacer()
                    == old(self).replacer(),
            },
    {
        if !self.descriptors.contains_key(&segment_num) {
            return None;
        }
        proof {
            lemma_accessed(self.replacer@, segment_num);
            assert(self.replacer@.resident(segment_num));
        }
        self.replacer.access(segment_num);
        proof {
            assert forall|segment: u32|
                self.descriptors@.contains_key(segment) <==> self.replacer@.resident(segment) by {
                assert(old(self).replacer@.accessed(segment_num).resident(segment) <==> (segment
                    == segment_num || old(self).replacer@.resident(segment)));
            }
        }
        self.descriptors.get(&segment_num)
    }

    /// Keeps the file of a segment that was just opened. If the cache is
    /// full, the segment that the replacer gives up is closed first.
    pub fn store_descriptor(&mut self, segment_num: u32, segment_file: DF::SegmentFile) -> (stored:
        &DF::SegmentFile)
        requires
            old(self).wf(),
            !old(self).segments().contains_key(segment_num),
        ensures
            final(self).wf(),
            final(self).max_num_open_segments() == old(self).max_num_open_segments(),
            *stored == segment_file,
            match evicted_for_store(old(self).replacer(), old(self).max_num_open_segments()) {
                Some(evicted) => {
                    &&& old(self).segments().contains_key(evicted)
                    &&& final(self).segments() == old(self).segments().remove(evicted).insert(
                        segment_num,
                        segment_file,
                    )
                    &&& final(self).replacer() == old(self).replacer().reclaimed().accessed(
                        segment_num,
                    )
                },
                None => {
                    &&& final(self).segments() == old(self).segments().insert(
                        segment_num,
                        segment_file,
                    )
                    &&& final(self).replacer() == old(self).replacer().accessed(segment_num)
                },
            },
    {
        proof {
            lemma_reclaimed(self.replacer@);
            lemma_accessed(self.replacer@, segment_num);
            lemma_accessed(self.replacer@.reclaimed(), segment_num);
        }
        let ghost before = self.replacer@;
        let evicted = self.replacer.evict_replace(segment_num);
        proof {
            assert(!before.resident(segment_num));
            assert(evicted == evicted_for_store(before, self.max_num_open_segments));
        }
        if let Some(evicted) = evicted {
            self.descriptors.remove(&evicted);
        }
        self.descriptors.insert(segment_num, segment_file);
        proof {
            assert forall|segment: u32|
                self.descriptors@.contains_key(segment) <==> self.replacer@.resident(segment) by {
                match evicted {
                    Some(e) => {
                        assert(before.reclaimed().resident(segment) <==> (segment != e
                            && before.resident(segment)));
                        assert(before.reclaimed().accessed(segment_num).resident(segment) <==> (
                        segment == segment_num || before.reclaimed().resident(segment)));
                    },
                    None => {
                        assert(before.accessed(segment_num).resident(segment) <==> (segment
                            == segment_num || before.resident(segment)));
                    },
                }
            }
        }
        self.descriptors.get(&segment_num).unwrap()
    }

    /// Writes a page to the file of a segment that is open.
    pub fn write_descriptor(
        &mut self,
        segment_num: u32,
        page_num: u16,
        buf: &[u8],
        wal_index: WalIndex,
    ) -> (res: Result<(), FileError>)
        requires
            old(self).wf(),
            old(self).segments().contains_key(segment_num),
            page_num != 0,
            buf@.len() == PAGE_BODY_SIZE,
        ensures
            final(self).wf(),
            final(self).max_num_open_segments() == old(self).max_num_open_segments(),
            final(self).replacer() == old(self).replacer(),
            final(self).segments().dom() == old(self).segments().dom(),
            forall|other: u32|
                other != segment_num && old(self).segments().contains_key(other) ==> final(
                    self
                ).segments()[other] == old(self).segments()[other],
            res is Ok ==> final(self).segments()[segment_num].pages() == old(
                self
            ).segments()[segment_num].pages().insert(page_num, (buf@, wal_index)),
    {
        let mut file = self.descriptors.remove(&segment_num).unwrap();
        let res = file.write(page_num, buf, wal_index);
        self.descriptors.insert(segment_num, file);
        proof {
            assert(self.descriptors@.dom() =~= old(self).descriptors@.dom());
        }
        res
    }
}

/// The physical storage over the folder `DF`.
pub struct PhysicalStorage<DF: DatabaseFolderApi> {
    folder: DF,
    descriptor_cache: DescriptorCache<DF>,
}

impl<DF: DatabaseFolderApi> PhysicalStorage<DF> {
    /// The open segment files, each under the number of its segment.
    pub closed spec fn segments(&self) -> Map<u32, DF::SegmentFile> {
        self.descriptor_cache.segments()
    }

    /// The replacer that follows the use of the open segments.
    pub closed spec fn replacer(&self) -> ReplacerView {
        self.descriptor_cache.replacer()
    }

    /// The number of segment files that may be open at a time.
    pub closed spec fn max_num_open_segments(&self) -> usize {
        self.descriptor_cache.max_num_open_segments()
    }

    /// The cache of open segment files is well formed.
    pub closed spec fn wf(&self) -> bool {
        self.descriptor_cache.wf()
    }

    /// In a well-formed storage exactly the open segments are resident, and
    /// their number is within the limit.
    pub proof fn lemma_wf(&self)
        requires
            self.wf(),
        ensures
            self.replacer().wf(),
            forall|segment: u32|
                self.segments().contains_key(segment) <==> self.replacer().resident(segment),
            self.max_num_open_segments() > 0 ==> self.replacer().num_resident()
                <= self.max_num_open_segments(),
            self.replacer().num_resident() <= self.max_num_open_segments() + 1,
    {
        self.descriptor_cache.lemma_wf();
    }

    /// The storage over the segment files of the folder. No file is open yet.
    pub fn new(folder: DF, config: &PhysicalStorageConfig) -> (storage: Self)
        ensures
            storage.wf(),
            storage.segments() == Map::<u32, DF::SegmentFile>::empty(),
            storage.max_num_open_segments() == config.max_num_open_segments,
    {
        Self { folder, descriptor_cache: DescriptorCache::new(config) }
    }

    /// Makes sure that the file of the segment is open, and tells the
    /// replacer of its use. A file that was open stays as it is; for one
    /// that has to be opened another may have to be closed.
    pub fn use_segment(&mut self, segment_num: u32) -> (res: Result<(), StorageError>)
        requires
            old(self).wf(),
        ensures
            final(self).wf(),
            final(self).max_num_open_segments() == old(self).max_num_open_segments(),
            old(self).segments().contains_key(segment_num) ==> {
                &&& res is Ok
                &&& final(self).segments() == old(self).segments()
                &&& final(self).replacer() == old(self).replacer().accessed(segment_num)
            },
            !(res matches Err(StorageError::WalNotInitialized)),
            res is Err ==> final(self).segments() == old(self).segments() && final(self).replacer()
                == old(self).replacer(),
            res is Ok ==> final(self).segments().contains_key(segment_num),
            res is Ok && !old(self).segments().contains_key(segment_num) ==> match evicted_for_store(
                old(self).replacer(),
                old(self).max_num_open_segments(),
            ) {
                Some(evicted) => {
                    &&& final(self).segments().remove(segment_num) == old(self).segments().remove(
                        evicted,
                    )
                    &&& final(self).replacer() == old(self).replacer().reclaimed().accessed(
                        segment_num,
                    )
                },
                None => {
                    &&& final(self).segments().remove(segment_num) == old(self).segments()
                    &&& final(self).replacer() == old(self).replacer().accessed(segment_num)
                },
            },
    {
        if self.descriptor_cache.get_descriptor(segment_num).is_some() {
            return Ok(());
        }
        let segment_file = match self.folder.open_segment_file(segment_num) {
            Ok(file) => file,
            Err(error) => {
                return Err(StorageError::from_file_error(error));
            },
        };
        let ghost evicted = evicted_for_store(
            old(self).replacer(),
            old(self).max_num_open_segments(),
        );
        self.descriptor_cache.store_descriptor(segment_num, segment_file);
        proof {
            let before = old(self).segments();
            let after = self.segments();
            match evicted {
                Some(e) => {
                    assert(after.remove(segment_num) =~= before.remove(e));
                },
                None => {
                    assert(after.remove(segment_num) =~= before);
                },
            }
        }
        Ok(())
    }

    /// Reads the start of a page into the buffer of `op` and returns the log
    /// index of the page's last write, or `None` for a page that was never
    /// written.
    pub fn read<'a>(&mut self, op: ReadOp<'a>) -> (res: Result<Option<WalIndex>, StorageError>)
        requires
            old(self).wf(),
            op.page_id.wf(),
            old(op.buf)@.len() <= PAGE_BODY_SIZE,
        ensures
            final(self).wf(),
            final(self).max_num_open_segments() == old(self).max_num_open_segments(),
            final(op.buf)@.len() == old(op.buf)@.len(),
            !(res matches Err(StorageError::WalNotInitialized)),
            old(self).segments().contains_key(op.page_id.segment_num) ==> final(self).segments()
                == old(self).segments(),
            res is Ok ==> final(self).segments().contains_key(op.page_id.segment_num),
            res matches Ok(Some(index)) ==> {
                let pages = final(self).segments()[op.page_id.segment_num].pages();
                &&& pages.contains_key(op.page_id.page_num)
                &&& pages[op.page_id.page_num].1 == index
                &&& final(op.buf)@ == pages[op.page_id.page_num].0.take(old(op.buf)@.len() as int)
            },
            res matches Ok(None) ==> !final(self).segments()[op.page_id.segment_num].pages().contains_key(
                op.page_id.page_num,
            ),
    {
        match self.use_segment(op.page_id.segment_num) {
            Ok(()) => {},
            Err(error) => {
                return Err(error);
            },
        }
        let segment = self.descriptor_cache.descriptors.get(&op.page_id.segment_num).unwrap();
        match segment.read(op.page_id.page_num, op.buf) {
            Ok(wal_index) => Ok(wal_index),
            Err(error) => Err(StorageError::from_file_error(error)),
        }
    }

    /// Writes a page together with the log index of the write.
    pub fn write<'a>(&mut self, op: WriteOp<'a>) -> (res: Result<(), StorageError>)
        requires
            old(self).wf(),
            op.page_id.wf(),
            op.buf@.len() == PAGE_BODY_SIZE,
        ensures
            final(self).wf(),
            final(self).max_num_open_segments() == old(self).max_num_open_segments(),
            !(res matches Err(StorageError::WalNotInitialized)),
            old(self).segments().contains_key(op.page_id.segment_num) ==> {
                &&& final(self).segments().dom() == old(self).segments().dom()
                &&& forall|other: u32|
                    other != op.page_id.segment_num && old(self).segments().contains_key(other)
                        ==> final(self).segments()[other] == old(self).segments()[other]
                &&& res is Ok ==> final(self).segments()[op.page_id.segment_num].pages() == old(
                    self
                ).segments()[op.page_id.segment_num].pages().insert(
                    op.page_id.page_num,
                    (op.buf@, op.wal_index),
                )
            },
            res is Ok ==> {
                let pages = final(self).segments()[op.page_id.segment_num].pages();
                &&& final(self).segments().contains_key(op.page_id.segment_num)
                &&& pages.contains_key(op.page_id.page_num)
                &&& pages[op.page_id.page_num] == (op.buf@, op.wal_index)
            },
    {
        match self.use_segment(op.page_id.segment_num) {
            Ok(()) => {},
            Err(error) => {
                return Err(error);
            },
        }
        match self.descriptor_cache.write_descriptor(
            op.page_id.segment_num,
            op.page_id.page_num,
            op.buf,
            op.wal_index,
        ) {
            Ok(()) => Ok(()),
            Err(error) => Err(StorageError::from_file_error(error)),
        }
    }

    /// How many segment files are open.
    pub fn num_open_segments(&self) -> (n: usize)
        ensures
            n == self.segments().len(),
    {
        self.descriptor_cache.descriptors.len()
    }
}

} // verus!
