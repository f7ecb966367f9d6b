use acorn::files::memory::{MemFolder, MemSegmentFile};
use acorn::files::segment::{SegmentFileApi, PAGE_BODY_SIZE};
use acorn::page_store::physical::{PhysicalStorage, PhysicalStorageConfig, ReadOp, WriteOp};
use acorn::page_store::{PageId, WalIndex};

fn page_id(segment_num: u32, page_num: u16) -> PageId {
    PageId::new(segment_num, page_num)
}

fn wal_index(generation: u64, offset: u64) -> WalIndex {
    WalIndex::new(generation, offset)
}

#[test]
fn write_to_storage() {
    // given
    let folder = MemFolder::new(1, 1);
    let mut storage = PhysicalStorage::new(folder, &Default::default());

    // when
    storage
        .write(WriteOp {
            page_id: page_id(69, 420),
            buf: &[1; PAGE_BODY_SIZE],
            wal_index: wal_index(69, 420),
        })
        .unwrap();

    // then
    assert_eq!(storage.num_open_segments(), 1);
    let mut buf = vec![0; PAGE_BODY_SIZE];
    let index = storage
        .read(ReadOp {
            page_id: page_id(69, 420),
            buf: &mut buf,
        })
        .unwrap();
    assert_eq!(index, Some(wal_index(69, 420)));
    assert_eq!(buf, vec![1; PAGE_BODY_SIZE]);
}

#[test]
fn read_from_storage() {
    // given
    let mut segment = MemSegmentFile::new();
    let mut body = vec![0; PAGE_BODY_SIZE];
    body[0..3].copy_from_slice(&[1, 2, 3]);
    segment.write(420, &body, wal_index(69, 420)).unwrap();
    let mut folder = MemFolder::new(1, 1);
    folder.put_segment_file(69, segment);
    let mut storage = PhysicalStorage::new(folder, &Default::default());

    // when
    let mut buf = [0; 3];
    let wal_index_read = storage
        .read(ReadOp {
            page_id: page_id(69, 420),
            buf: &mut buf,
        })
        .unwrap();

    // then
    assert_eq!(wal_index_read, Some(wal_index(69, 420)));
    assert_eq!(buf[0..3], [1, 2, 3]);
}

#[test]
fn read_of_a_page_that_was_never_written() {
    let mut storage = PhysicalStorage::new(MemFolder::new(1, 1), &Default::default());
    let mut buf = vec![7; 3];
    assert_eq!(
        storage.read(ReadOp {
            page_id: page_id(1, 1),
            buf: &mut buf,
        }),
        Ok(None)
    );
}

#[test]
fn later_write_replaces_earlier_write() {
    let mut storage = PhysicalStorage::new(MemFolder::new(1, 1), &Default::default());
    for (value, offset) in [(1_u8, 10_u64), (2, 20)] {
        storage
            .write(WriteOp {
                page_id: page_id(3, 4),
                buf: &[value; PAGE_BODY_SIZE],
                wal_index: wal_index(1, offset),
            })
            .unwrap();
    }
    let mut buf = vec![0; 2];
    assert_eq!(
        storage.read(ReadOp {
            page_id: page_id(3, 4),
            buf: &mut buf,
        }),
        Ok(Some(wal_index(1, 20)))
    );
    assert_eq!(buf, vec![2, 2]);
}

#[test]
fn open_segments_stay_within_the_limit() {
    let config = PhysicalStorageConfig {
        max_num_open_segments: 2,
    };
    let mut storage = PhysicalStorage::new(MemFolder::new(1, 1), &config);
    for segment_num in 0..5 {
        storage
            .write(WriteOp {
                page_id: page_id(segment_num, 1),
                buf: &[0; PAGE_BODY_SIZE],
                wal_index: wal_index(1, 1),
            })
            .unwrap();
        assert!(storage.num_open_segments() <= 2);
    }
    assert_eq!(storage.num_open_segments(), 2);
    assert_eq!(PhysicalStorageConfig::default().max_num_open_segments, 128);
}
