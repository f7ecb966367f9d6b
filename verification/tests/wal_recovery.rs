use acorn::files::memory::{MemFolder, MemWalFile};
use acorn::files::wal::{CheckpointData, Item, TransactionData, WriteData};
use acorn::page_store::handlers::{OpRecorder, RecordedWriteOp};
use acorn::page_store::table::{DirtyPageTable, TransactionTable};
use acorn::page_store::wal::{Wal, WalConfig};
use acorn::page_store::{PageAddress, TransactionState, WalIndex};

fn page_address(segment_num: u32, page_num: u16) -> PageAddress {
    PageAddress::new(segment_num, page_num)
}

fn wal_index(generation: u64, offset: u64) -> WalIndex {
    WalIndex::new(generation, offset)
}

fn empty_checkpoint() -> Item {
    Item::Checkpoint(CheckpointData {
        transactions: TransactionTable::new(),
        dirty_pages: DirtyPageTable::new(),
    })
}

#[test]
fn create_wal() {
    let folder = MemFolder::new(69, 10);

    let wal = Wal::create(folder, &WalConfig::default()).unwrap();

    assert_eq!(wal.num_generations(), 1);
    let generation = wal.generation(0);
    assert_eq!(generation.gen_num, 0);
    assert_eq!(generation.file.len(), 1);
    assert_eq!(generation.file.item(0), &(69, empty_checkpoint()));
}

#[test]
fn open_and_recover_wal() {
    // An older generation; has already been flushed to disk.
    let generation_2 = MemWalFile::with_items(
        vec![
            // The initial checkpoint. Not relevant to this test case.
            (10, empty_checkpoint()),
            // This write item was flushed to disk, but has no corresponding
            // commit. It should be reverted.
            (
                20,
                Item::Write(WriteData {
                    transaction_data: TransactionData {
                        transaction_id: 1,
                        prev_transaction_item: None,
                    },
                    page_address: page_address(100, 200),
                    offset: 25,
                    from: Some(vec![2, 2, 2, 2]),
                    to: vec![1, 2, 3, 4],
                }),
            ),
        ],
        30,
        10,
    );

    // The current generation; has likely not yet been flushed to disk.
    let generation_3 = MemWalFile::with_items(
        vec![
            // This write item has a corresponding commit, but wasn't yet
            // flushed to disk; it should be reapplied.
            (
                10,
                Item::Write(WriteData {
                    transaction_data: TransactionData {
                        transaction_id: 2,
                        prev_transaction_item: None,
                    },
                    page_address: page_address(25, 69),
                    offset: 100,
                    from: Some(vec![0, 0, 0, 0]),
                    to: vec![1, 2, 3, 4],
                }),
            ),
            // The checkpoint for gen 3. The preceding fuzzy write item should
            // be handled properly.
            (
                20,
                Item::Checkpoint(CheckpointData {
                    transactions: TransactionTable::from_entries(vec![(
                        1,
                        TransactionState {
                            first_gen: 2,
                            last_index: wal_index(2, 20),
                        },
                    )]),
                    dirty_pages: DirtyPageTable::from_entries(vec![(
                        page_address(100, 200),
                        wal_index(2, 20),
                    )]),
                }),
            ),
            // The commit item for the write item at offset 10.
            (
                30,
                Item::Commit(TransactionData {
                    transaction_id: 2,
                    prev_transaction_item: Some(wal_index(2, 30)),
                }),
            ),
        ],
        40,
        10,
    );

    let mut folder = MemFolder::new(10, 10);
    folder.put_wal_file(3, generation_3);
    folder.put_wal_file(2, generation_2);

    let expected_ops = vec![
        // This reapplies write (3, 10).
        RecordedWriteOp {
            index: wal_index(3, 10),
            page_address: page_address(25, 69),
            offset: 100,
            buf: vec![1, 2, 3, 4],
        },
        // This reverts write (2, 20).
        RecordedWriteOp {
            index: wal_index(3, 40),
            page_address: page_address(100, 200),
            offset: 25,
            buf: vec![2, 2, 2, 2],
        },
    ];

    let mut wal = Wal::open(folder, &WalConfig::default()).unwrap();
    let mut recorder = OpRecorder::new();
    wal.recover(&mut recorder).unwrap();

    // Write operations should appear in the order of expected_ops.
    assert_eq!(recorder.ops, expected_ops);

    // The uncommitted write was reverted by a compensation, and the
    // transaction was closed by a commit.
    let current = wal.generation(1);
    assert_eq!(current.gen_num, 3);
    assert_eq!(current.file.len(), 5);
    assert_eq!(
        current.file.item(3),
        &(
            40,
            Item::Write(WriteData {
                transaction_data: TransactionData {
                    transaction_id: 1,
                    prev_transaction_item: Some(wal_index(2, 20)),
                },
                page_address: page_address(100, 200),
                offset: 25,
                from: None,
                to: vec![2, 2, 2, 2],
            })
        )
    );
    assert_eq!(
        current.file.item(4),
        &(
            50,
            Item::Commit(TransactionData {
                transaction_id: 1,
                prev_transaction_item: Some(wal_index(3, 40)),
            })
        )
    );
    assert!(wal.current_state().transactions.is_empty());
}
