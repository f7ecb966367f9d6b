use acorn::files::memory::{MemFolder, MemWalFile};
use acorn::files::wal::{CheckpointData, Item, TransactionData, WriteData};
use acorn::files::DatabaseFolderApi;
use acorn::page_store::handlers::{OpRecorder, PageTable, RecordedWriteOp};
use acorn::page_store::wal::{PartialWriteHandler, PartialWriteOp};
use acorn::page_store::state::State;
use acorn::page_store::table::{DirtyPageTable, TransactionTable};
use acorn::page_store::wal::{CommitLog, GenerationQueue, UndoLog, Wal, WalConfig, WriteLog};
use acorn::page_store::{PageAddress, StorageError, TransactionState, WalIndex};

fn address(segment_num: u32, page_num: u16) -> PageAddress {
    PageAddress::new(segment_num, page_num)
}

fn index(generation: u64, offset: u64) -> WalIndex {
    WalIndex::new(generation, offset)
}

fn new_wal() -> Wal<MemFolder> {
    Wal::create(MemFolder::new(10, 10), &WalConfig::default()).unwrap()
}

fn write<'a>(transaction_id: u64, page: PageAddress, from: &'a [u8], to: &'a [u8]) -> WriteLog<'a> {
    WriteLog {
        transaction_id,
        page_address: page,
        offset: 7,
        from,
        to,
    }
}

#[test]
fn log_write_appends_and_tracks() {
    let mut wal = new_wal();

    let first = wal.log_write(write(1, address(1, 2), &[0, 0], &[1, 1])).unwrap();
    let second = wal.log_write(write(1, address(1, 2), &[1, 1], &[2, 2])).unwrap();

    // The checkpoint lies at offset 10, the writes behind it.
    assert_eq!(first, index(0, 20));
    assert_eq!(second, index(0, 30));
    let file = &wal.generation(0).file;
    assert_eq!(file.len(), 3);
    assert_eq!(
        file.item(1),
        &(
            20,
            Item::Write(WriteData {
                transaction_data: TransactionData {
                    transaction_id: 1,
                    prev_transaction_item: None,
                },
                page_address: address(1, 2),
                offset: 7,
                from: Some(vec![0, 0]),
                to: vec![1, 1],
            })
        )
    );
    assert_eq!(
        file.item(2),
        &(
            30,
            Item::Write(WriteData {
                transaction_data: TransactionData {
                    transaction_id: 1,
                    prev_transaction_item: Some(index(0, 20)),
                },
                page_address: address(1, 2),
                offset: 7,
                from: Some(vec![1, 1]),
                to: vec![2, 2],
            })
        )
    );

    // The page is dirty from its first write on; the transaction's latest
    // item is the second write.
    let state = wal.current_state();
    assert_eq!(state.dirty_pages.get(address(1, 2)), Some(index(0, 20)));
    assert_eq!(
        state.transactions.get(1),
        Some(TransactionState {
            first_gen: 0,
            last_index: index(0, 30),
        })
    );
    // A write is not flushed.
    assert_eq!(file.num_flushed(), 0);
}

#[test]
fn log_commit_closes_and_flushes() {
    let mut wal = new_wal();
    wal.log_write(write(1, address(1, 2), &[0], &[1])).unwrap();

    let commit = wal.log_commit(CommitLog { transaction_id: 1 }).unwrap();

    assert_eq!(commit, index(0, 30));
    let file = &wal.generation(0).file;
    assert_eq!(
        file.item(2),
        &(
            30,
            Item::Commit(TransactionData {
                transaction_id: 1,
                prev_transaction_item: Some(index(0, 20)),
            })
        )
    );
    assert_eq!(file.num_flushed(), 3);
    assert!(wal.current_state().transactions.is_empty());
    // The page stays dirty until the cache has flushed it.
    assert_eq!(wal.current_state().dirty_pages.len(), 1);
}

#[test]
fn cache_did_flush_then_checkpoint_has_no_dirty_pages() {
    let mut wal = new_wal();
    wal.log_write(write(1, address(1, 2), &[0], &[1])).unwrap();

    wal.cache_did_flush();
    wal.checkpoint().unwrap();

    assert!(wal.current_state().dirty_pages.is_empty());
    let current = wal.generation(wal.num_generations() - 1);
    assert_eq!(current.gen_num, 1);
    assert_eq!(current.file.len(), 1);
    assert_eq!(
        current.file.item(0),
        &(
            10,
            Item::Checkpoint(CheckpointData {
                dirty_pages: DirtyPageTable::new(),
                transactions: TransactionTable::from_entries(vec![(
                    1,
                    TransactionState {
                        first_gen: 0,
                        last_index: index(0, 20),
                    }
                )]),
            })
        )
    );
}

#[test]
fn checkpoint_keeps_generations_of_open_transactions() {
    let mut wal = new_wal();
    wal.log_write(write(1, address(1, 2), &[0], &[1])).unwrap();

    // Transaction 1 began in generation 0: that generation stays.
    wal.checkpoint().unwrap();
    assert_eq!(wal.num_generations(), 2);
    assert!(wal.folder().has_wal_file(0));
    assert!(wal.folder().has_wal_file(1));

    // Once the transaction is closed nothing needs the older generations.
    wal.log_commit(CommitLog { transaction_id: 1 }).unwrap();
    wal.checkpoint().unwrap();
    assert_eq!(wal.num_generations(), 1);
    assert_eq!(wal.generation(0).gen_num, 2);
    assert!(!wal.folder().has_wal_file(0));
    assert!(!wal.folder().has_wal_file(1));
    assert!(wal.folder().has_wal_file(2));
}

#[test]
fn first_needed_generation_is_the_lowest_first_generation() {
    assert_eq!(State::default().first_needed_generation(), u64::MAX);

    let state = State::new(
        DirtyPageTable::new(),
        TransactionTable::from_entries(vec![
            (
                1,
                TransactionState {
                    first_gen: 5,
                    last_index: index(6, 10),
                },
            ),
            (
                2,
                TransactionState {
                    first_gen: 3,
                    last_index: index(3, 10),
                },
            ),
            (
                3,
                TransactionState {
                    first_gen: 4,
                    last_index: index(8, 10),
                },
            ),
        ]),
    );
    assert_eq!(state.first_needed_generation(), 3);
}

#[test]
fn checkpoint_is_due_once_the_generation_is_large() {
    let config = WalConfig {
        max_generation_size: 40,
        checkpoint_period: std::time::Duration::from_millis(1000),
    };
    let mut wal = Wal::create(MemFolder::new(10, 10), &config).unwrap();
    assert!(!wal.is_checkpoint_due());

    // The file ends at 30 after one write and at 40 after two.
    wal.log_write(write(1, address(1, 2), &[0], &[1])).unwrap();
    assert!(!wal.is_checkpoint_due());
    wal.log_write(write(1, address(1, 2), &[1], &[2])).unwrap();
    assert!(wal.is_checkpoint_due());

    wal.checkpoint().unwrap();
    assert!(!wal.is_checkpoint_due());
}

#[test]
fn undo_reverts_down_to_the_lowest_latest_index() {
    let mut wal = new_wal();
    wal.log_write(write(1, address(1, 1), &[0, 0], &[1, 1])).unwrap();
    wal.log_write(write(2, address(2, 2), &[5, 5], &[6, 6])).unwrap();
    wal.log_write(write(1, address(3, 3), &[7, 7], &[8, 8])).unwrap();

    let mut recorder = OpRecorder::new();
    wal.undo(1, &mut recorder).unwrap();

    // The backward scan ends below the transaction's latest index, which is
    // that of its write at offset 40.
    assert_eq!(
        recorder.ops,
        vec![RecordedWriteOp {
            index: index(0, 50),
            page_address: address(3, 3),
            offset: 7,
            buf: vec![7, 7],
        }]
    );
    let file = &wal.generation(0).file;
    assert_eq!(file.len(), 6);
    assert_eq!(
        file.item(4),
        &(
            50,
            Item::Write(WriteData {
                transaction_data: TransactionData {
                    transaction_id: 1,
                    prev_transaction_item: Some(index(0, 40)),
                },
                page_address: address(3, 3),
                offset: 7,
                from: None,
                to: vec![7, 7],
            })
        )
    );
    assert_eq!(
        file.item(5),
        &(
            60,
            Item::Commit(TransactionData {
                transaction_id: 1,
                prev_transaction_item: Some(index(0, 50)),
            })
        )
    );
    // The other transaction is still open.
    assert!(wal.current_state().transactions.contains_key(2));
    assert!(!wal.current_state().transactions.contains_key(1));
}

#[test]
fn recovery_rolls_back_every_open_transaction() {
    let mut wal = new_wal();
    wal.log_write(write(1, address(1, 1), &[0, 0], &[1, 1])).unwrap();
    wal.log_write(write(2, address(2, 2), &[5, 5], &[6, 6])).unwrap();
    wal.log_commit(CommitLog { transaction_id: 2 }).unwrap();
    wal.log_write(write(3, address(3, 3), &[7, 7], &[8, 8])).unwrap();

    let mut recorder = OpRecorder::new();
    wal.recover(&mut recorder).unwrap();

    let op = |offset, page, buf: [u8; 2]| RecordedWriteOp {
        index: index(0, offset),
        page_address: page,
        offset: 7,
        buf: buf.to_vec(),
    };
    assert_eq!(
        recorder.ops,
        vec![
            // Every write of the generation is applied again, in order.
            op(20, address(1, 1), [1, 1]),
            op(30, address(2, 2), [6, 6]),
            op(50, address(3, 3), [8, 8]),
            // The writes of the open transactions are taken back, the
            // latest first.
            op(60, address(3, 3), [7, 7]),
            op(70, address(1, 1), [0, 0]),
        ]
    );
    // Two compensations and two commits were appended.
    assert_eq!(wal.generation(0).file.len(), 9);
    assert!(wal.current_state().transactions.is_empty());

    // Applied to pages of zeros, the writes leave what the committed write
    // alone leaves: the pages of the open transactions hold what was there
    // before.
    let mut pages: std::collections::HashMap<PageAddress, Vec<u8>> =
        std::collections::HashMap::new();
    for op in &recorder.ops {
        let page = pages.entry(op.page_address).or_insert_with(|| vec![0; 16]);
        let start = op.offset as usize;
        page[start..start + op.buf.len()].copy_from_slice(&op.buf);
    }
    let mut committed = vec![0; 16];
    committed[7..9].copy_from_slice(&[6, 6]);
    let mut reverted = vec![0; 16];
    reverted[7..9].copy_from_slice(&[7, 7]);
    assert_eq!(pages[&address(1, 1)], vec![0; 16]);
    assert_eq!(pages[&address(2, 2)], committed);
    assert_eq!(pages[&address(3, 3)], reverted);
}

#[test]
fn undo_of_a_transaction_that_is_not_open_does_nothing() {
    let mut wal = new_wal();
    wal.log_write(write(1, address(1, 1), &[0], &[1])).unwrap();

    let mut recorder = OpRecorder::new();
    wal.undo(9, &mut recorder).unwrap();

    assert!(recorder.ops.is_empty());
    assert_eq!(wal.generation(0).file.len(), 2);
}

#[test]
fn compensations_are_not_taken_back() {
    let mut wal = new_wal();
    wal.log_write(write(1, address(1, 1), &[0], &[1])).unwrap();
    let mut recorder = OpRecorder::new();
    wal.undo(1, &mut recorder).unwrap();
    assert_eq!(recorder.ops.len(), 1);

    // The transaction writes again and is rolled back again: only the new
    // write is taken back, the earlier compensation is left alone.
    wal.log_write(write(1, address(1, 1), &[0], &[2])).unwrap();
    let mut recorder = OpRecorder::new();
    wal.undo(1, &mut recorder).unwrap();
    assert_eq!(
        recorder.ops,
        vec![RecordedWriteOp {
            index: index(0, 60),
            page_address: address(1, 1),
            offset: 7,
            buf: vec![0],
        }]
    );
}

#[test]
fn second_recovery_rolls_nothing_back() {
    let mut wal = new_wal();
    wal.log_write(write(1, address(1, 1), &[0], &[1])).unwrap();

    let mut first = OpRecorder::new();
    wal.recover(&mut first).unwrap();
    // The write is applied again, then taken back.
    assert_eq!(first.ops.len(), 2);
    let len_after_first = wal.generation(0).file.len();

    let mut second = OpRecorder::new();
    wal.recover(&mut second).unwrap();
    // Nothing is open any more, so no item is appended.
    assert_eq!(wal.generation(0).file.len(), len_after_first);
    assert!(wal.current_state().transactions.is_empty());
}

#[test]
fn redo_skips_writes_before_the_first_dirty_index() {
    // The checkpoint says that the page is dirty from offset 30 on: the
    // write at offset 10 has reached the disk, the write at 30 may not
    // have.
    let page = address(4, 4);
    let write_at = |previous: Option<WalIndex>, to: u8| {
        Item::Write(WriteData {
            transaction_data: TransactionData {
                transaction_id: 1,
                prev_transaction_item: previous,
            },
            page_address: page,
            offset: 0,
            from: Some(vec![0]),
            to: vec![to],
        })
    };
    let file = MemWalFile::with_items(
        vec![
            (10, write_at(None, 1)),
            (
                20,
                Item::Checkpoint(CheckpointData {
                    dirty_pages: DirtyPageTable::from_entries(vec![(page, index(5, 30))]),
                    transactions: TransactionTable::new(),
                }),
            ),
            (30, write_at(Some(index(5, 10)), 2)),
            (
                40,
                Item::Commit(TransactionData {
                    transaction_id: 1,
                    prev_transaction_item: Some(index(5, 30)),
                }),
            ),
        ],
        50,
        10,
    );
    let mut folder = MemFolder::new(10, 10);
    folder.put_wal_file(5, file);
    let mut wal = Wal::open(folder, &WalConfig::default()).unwrap();

    let mut recorder = OpRecorder::new();
    wal.recover(&mut recorder).unwrap();

    assert_eq!(
        recorder.ops,
        vec![RecordedWriteOp {
            index: index(5, 30),
            page_address: page,
            offset: 0,
            buf: vec![2],
        }]
    );
}

#[test]
fn wal_without_generations_is_not_initialized() {
    let mut wal = Wal::open(MemFolder::new(10, 10), &WalConfig::default()).unwrap();
    assert_eq!(wal.num_generations(), 0);

    assert_eq!(
        wal.log_write(write(1, address(1, 1), &[0], &[1])),
        Err(StorageError::WalNotInitialized)
    );
    assert_eq!(
        wal.log_commit(CommitLog { transaction_id: 1 }),
        Err(StorageError::WalNotInitialized)
    );
    assert_eq!(wal.log_checkpoint(), Err(StorageError::WalNotInitialized));
    let mut recorder = OpRecorder::new();
    assert_eq!(
        wal.recover(&mut recorder),
        Err(StorageError::WalNotInitialized)
    );
    assert!(wal.current_state().transactions.is_empty());
}

#[test]
fn file_errors_are_handed_on() {
    // The file cannot take an item behind the largest offset.
    let mut folder = MemFolder::new(10, 10);
    folder.put_wal_file(0, MemWalFile::new(u64::MAX, 10));
    let mut wal = Wal::open(folder, &WalConfig::default()).unwrap();

    let res = wal.log_write(write(1, address(1, 1), &[0], &[1]));

    assert_eq!(
        res,
        Err(StorageError::File(acorn::files::FileError::OutOfSpace))
    );
    // The state did not follow the item that was not appended.
    assert!(wal.current_state().transactions.is_empty());
    assert!(wal.current_state().dirty_pages.is_empty());
}

#[test]
fn open_orders_the_generations() {
    let mut folder = MemFolder::new(10, 10);
    for gen_num in [7, 3, 5] {
        folder.put_wal_file(gen_num, MemWalFile::new(10, 10));
    }

    let wal = Wal::open(folder, &WalConfig::default()).unwrap();

    assert_eq!(wal.num_generations(), 3);
    assert_eq!(wal.generation(0).gen_num, 3);
    assert_eq!(wal.generation(1).gen_num, 5);
    assert_eq!(wal.generation(2).gen_num, 7);
}

#[test]
fn generation_queue_from_files() {
    let mut folder = MemFolder::new(10, 10);
    folder.put_wal_file(2, MemWalFile::new(10, 10));
    folder.put_wal_file(1, MemWalFile::new(10, 10));
    let files = folder.iter_wal_files().unwrap();

    let queue: GenerationQueue<MemFolder> = GenerationQueue::from_files(files);

    assert_eq!(queue.current_gen_num, 2);
    assert_eq!(queue.current_generation(), Some(1));
    assert_eq!(queue.generations[0].gen_num, 1);
}

#[test]
fn default_configuration() {
    let config = WalConfig::default();
    assert_eq!(config.max_generation_size, 4 * 1024 * 1024);
    assert_eq!(config.checkpoint_period, std::time::Duration::from_secs(30));
}

#[test]
fn wal_index_order_is_lexicographic() {
    assert!(index(1, 50).is_before(&index(2, 10)));
    assert!(index(2, 10).is_before(&index(2, 11)));
    assert!(!index(2, 10).is_before(&index(2, 10)));
    assert!(!index(3, 1).is_before(&index(2, 99)));
    assert!(index(1, 50) < index(2, 10));
}

#[test]
fn tables_keep_one_entry_for_each_key() {
    let mut transactions = TransactionTable::new();
    let state = |offset| TransactionState {
        first_gen: 0,
        last_index: index(0, offset),
    };
    transactions.insert(1, state(10));
    transactions.insert(2, state(20));
    transactions.insert(1, state(30));
    assert_eq!(transactions.len(), 2);
    assert_eq!(transactions.get(1), Some(state(30)));
    assert_eq!(transactions.ids(), vec![1, 2]);
    transactions.remove(1);
    assert_eq!(transactions.get(1), None);
    assert_eq!(transactions.ids(), vec![2]);

    let mut dirty = DirtyPageTable::new();
    dirty.insert_if_absent(address(1, 1), index(0, 10));
    dirty.insert_if_absent(address(1, 1), index(0, 20));
    assert_eq!(dirty.len(), 1);
    assert_eq!(dirty.get(address(1, 1)), Some(index(0, 10)));
    dirty.clear();
    assert!(dirty.is_empty());
}

#[test]
fn recovery_into_pages_of_zeros() {
    let mut wal = new_wal();
    wal.log_write(write(1, address(1, 1), &[0, 0], &[1, 1])).unwrap();
    wal.log_write(write(2, address(2, 2), &[0, 0], &[6, 6])).unwrap();
    wal.log_commit(CommitLog { transaction_id: 2 }).unwrap();

    let mut pages = PageTable::new();
    wal.recover(&mut pages).unwrap();

    // The committed write is there; the write of the open transaction was
    // applied again and taken back.
    assert_eq!(pages.read(address(2, 2), 6, 4), vec![0, 6, 6, 0]);
    assert_eq!(pages.read(address(1, 1), 6, 4), vec![0, 0, 0, 0]);
    assert_eq!(pages.read(address(9, 9), 0, 2), vec![0, 0]);
}

#[test]
fn page_table_turns_down_writes_beyond_the_page() {
    let mut pages = PageTable::new();
    let size = acorn::files::segment::PAGE_BODY_SIZE;
    let res = pages.handle(PartialWriteOp {
        index: index(0, 10),
        page_address: address(1, 1),
        offset: (size - 1) as u16,
        buf: &[1, 2],
    });
    assert_eq!(
        res,
        Err(StorageError::File(acorn::files::FileError::UnexpectedEof))
    );
    let res = pages.handle(PartialWriteOp {
        index: index(0, 10),
        page_address: address(1, 1),
        offset: (size - 2) as u16,
        buf: &[1, 2],
    });
    assert_eq!(res, Ok(()));
    assert_eq!(pages.read(address(1, 1), (size - 3) as u16, 3), vec![0, 1, 2]);
}

fn wal_without_generations(open_transaction: Option<u64>) -> Wal<MemFolder> {
    let mut transactions = TransactionTable::new();
    if let Some(id) = open_transaction {
        transactions.insert(
            id,
            TransactionState {
                first_gen: 0,
                last_index: index(0, 20),
            },
        );
    }
    Wal::new(
        MemFolder::new(10, 10),
        &WalConfig::default(),
        GenerationQueue::new(),
        State::new(DirtyPageTable::new(), transactions),
    )
}

#[test]
fn undo_on_a_log_without_generations() {
    // A transaction that is not open: nothing to flush, nothing to undo.
    let mut wal = wal_without_generations(None);
    let mut recorder = OpRecorder::new();
    assert_eq!(wal.undo(1, &mut recorder), Ok(()));
    assert!(recorder.ops.is_empty());

    // A transaction that is open cannot be closed: there is no generation
    // to take its commit.
    let mut wal = wal_without_generations(Some(1));
    assert_eq!(
        wal.undo(1, &mut recorder),
        Err(StorageError::WalNotInitialized)
    );
    assert_eq!(
        wal.undo_all(&vec![1], &mut recorder),
        Err(StorageError::WalNotInitialized)
    );
    assert!(recorder.ops.is_empty());
    assert!(wal.current_state().transactions.contains_key(1));
}

#[test]
fn compensations_of_a_log_without_generations() {
    let mut wal = wal_without_generations(Some(1));
    let found = wal.collect_compensations(&vec![1], index(0, 1)).unwrap();
    assert!(found.is_empty());

    let mut recorder = OpRecorder::new();
    let log = UndoLog {
        transaction_id: 1,
        page_address: address(1, 1),
        offset: 0,
        to: vec![1],
    };
    assert_eq!(
        wal.apply_undo_log(&log, &mut recorder),
        Err(StorageError::WalNotInitialized)
    );
    assert!(recorder.ops.is_empty());
}

#[test]
fn apply_undo_log_logs_and_hands_over() {
    let mut wal = new_wal();
    let mut pages = PageTable::new();
    let log = UndoLog {
        transaction_id: 1,
        page_address: address(1, 1),
        offset: 3,
        to: vec![4, 5],
    };

    assert_eq!(wal.apply_undo_log(&log, &mut pages), Ok(index(0, 20)));

    assert_eq!(pages.read(address(1, 1), 2, 4), vec![0, 4, 5, 0]);
    assert_eq!(wal.generation(0).file.len(), 2);

    // A handler that turns the write down ends the call with its error,
    // after the compensation was logged.
    let beyond = UndoLog {
        transaction_id: 1,
        page_address: address(1, 1),
        offset: u16::MAX,
        to: vec![4, 5],
    };
    assert_eq!(
        wal.apply_undo_log(&beyond, &mut pages),
        Err(StorageError::File(acorn::files::FileError::UnexpectedEof))
    );
    assert_eq!(wal.generation(0).file.len(), 3);
}

#[test]
fn cleanup_with_nothing_to_drop() {
    let mut wal = new_wal();
    wal.log_write(write(1, address(1, 2), &[0], &[1])).unwrap();
    wal.checkpoint().unwrap();
    assert_eq!(wal.num_generations(), 2);

    // Generation 0 is needed by the open transaction.
    assert_eq!(wal.cleanup_generations(), Ok(()));
    assert_eq!(wal.num_generations(), 2);
    assert!(wal.folder().has_wal_file(0));

    // Once it is closed, the generation before the current one goes.
    wal.log_commit(CommitLog { transaction_id: 1 }).unwrap();
    assert_eq!(wal.cleanup_generations(), Ok(()));
    assert_eq!(wal.num_generations(), 1);
    assert_eq!(wal.generation(0).gen_num, 1);
    assert!(!wal.folder().has_wal_file(0));
    assert!(wal.folder().has_wal_file(1));
}

#[test]
fn redo_applies_dirty_writes_only() {
    let mut wal = new_wal();
    wal.log_write(write(1, address(1, 1), &[0], &[1])).unwrap();
    let items = vec![
        (
            20,
            Item::Write(WriteData {
                transaction_data: TransactionData {
                    transaction_id: 1,
                    prev_transaction_item: None,
                },
                page_address: address(1, 1),
                offset: 7,
                from: Some(vec![0]),
                to: vec![1],
            }),
        ),
        (
            30,
            Item::Write(WriteData {
                transaction_data: TransactionData {
                    transaction_id: 1,
                    prev_transaction_item: None,
                },
                page_address: address(5, 5),
                offset: 7,
                from: Some(vec![0]),
                to: vec![2],
            }),
        ),
    ];

    let mut recorder = OpRecorder::new();
    assert_eq!(wal.redo(&items, 0, &mut recorder), Ok(()));
    // Only the page (1, 1) is dirty.
    assert_eq!(
        recorder.ops,
        vec![RecordedWriteOp {
            index: index(0, 20),
            page_address: address(1, 1),
            offset: 7,
            buf: vec![1],
        }]
    );

    // Once the cache has flushed, nothing is applied again.
    wal.cache_did_flush();
    let mut recorder = OpRecorder::new();
    assert_eq!(wal.redo(&items, 0, &mut recorder), Ok(()));
    assert!(recorder.ops.is_empty());
}
