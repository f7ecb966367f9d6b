use acorn::doc_store::pages::PageKind;
use acorn::doc_store::{DatabaseError, PageFormatError};
use acorn::files::memory::{MemFolder, MemSegmentFile, MemWalFile};
use acorn::files::segment::{SegmentFileApi, PAGE_BODY_SIZE};
use acorn::files::wal::{Item, TransactionData, WalFileApi};
use acorn::files::{DatabaseFolderApi, FileError};
use acorn::page_store::{StorageError, WalIndex};
use acorn::utils::byte_order::ByteOrder;
use acorn::wal::LoadError;

fn commit(transaction_id: u64) -> Item {
    Item::Commit(TransactionData {
        transaction_id,
        prev_transaction_item: None,
    })
}

#[test]
fn mem_wal_file_appends_one_step_apart() {
    let mut file = MemWalFile::new(8, 5);
    assert_eq!(file.next_offset(), 8);
    assert_eq!(file.push_item(&commit(1)), Ok(8));
    assert_eq!(file.push_item(&commit(2)), Ok(13));
    assert_eq!(file.next_offset(), 18);
    assert_eq!(file.size(), 18);
    assert_eq!(file.len(), 2);
    assert_eq!(file.item(1), &(13, commit(2)));

    // Nothing is flushed before the flush, everything after it.
    assert_eq!(file.num_flushed(), 0);
    assert_eq!(file.flush(), Ok(()));
    assert_eq!(file.num_flushed(), 2);
}

#[test]
fn mem_wal_file_is_out_of_space_at_the_last_offset() {
    let mut file = MemWalFile::new(u64::MAX - 3, 4);
    assert_eq!(file.push_item(&commit(1)), Err(FileError::OutOfSpace));
    assert_eq!(file.len(), 0);
    assert_eq!(file.next_offset(), u64::MAX - 3);

    // A step that still fits is taken.
    let mut file = MemWalFile::new(u64::MAX - 3, 3);
    assert_eq!(file.push_item(&commit(1)), Ok(u64::MAX - 3));
    assert_eq!(file.next_offset(), u64::MAX);
    assert_eq!(file.push_item(&commit(2)), Err(FileError::OutOfSpace));
    assert_eq!(file.len(), 1);
}

#[test]
fn mem_wal_file_is_read_in_both_directions() {
    let mut file = MemWalFile::with_items(vec![(10, commit(1)), (20, commit(2))], 30, 10);
    assert_eq!(
        file.iter_items(),
        Ok(vec![(10, commit(1)), (20, commit(2))])
    );
    assert_eq!(
        file.iter_items_reverse(),
        Ok(vec![(20, commit(2)), (10, commit(1))])
    );
    // Reading leaves the file as it is.
    assert_eq!(file.len(), 2);
    assert_eq!(file.next_offset(), 30);
    assert_eq!(file.num_flushed(), 2);
}

#[test]
fn mem_segment_file_keeps_the_last_write_of_a_page() {
    let mut file = MemSegmentFile::new();
    assert_eq!(file.num_writes(), 0);
    let mut buf = [9; 2];
    assert_eq!(file.read(1, &mut buf), Ok(None));
    assert_eq!(buf, [9, 9]);

    assert_eq!(
        file.write(1, &[1; PAGE_BODY_SIZE], WalIndex::new(1, 10)),
        Ok(())
    );
    assert_eq!(
        file.write(2, &[2; PAGE_BODY_SIZE], WalIndex::new(1, 20)),
        Ok(())
    );
    assert_eq!(
        file.write(1, &[3; PAGE_BODY_SIZE], WalIndex::new(1, 30)),
        Ok(())
    );
    assert_eq!(file.num_writes(), 3);

    assert_eq!(file.read(1, &mut buf), Ok(Some(WalIndex::new(1, 30))));
    assert_eq!(buf, [3, 3]);
    assert_eq!(file.read(2, &mut buf), Ok(Some(WalIndex::new(1, 20))));
    assert_eq!(buf, [2, 2]);
    let mut whole = vec![0; PAGE_BODY_SIZE];
    assert_eq!(file.read(1, &mut whole), Ok(Some(WalIndex::new(1, 30))));
    assert_eq!(whole, vec![3; PAGE_BODY_SIZE]);
    assert_eq!(file.read(7, &mut buf), Ok(None));
}

#[test]
fn mem_folder_opens_creates_and_deletes_log_files() {
    let mut folder = MemFolder::new(10, 10);
    assert_eq!(folder.num_wal_files(), 0);
    folder.put_wal_file(
        4,
        MemWalFile::with_items(vec![(10, commit(1))], 20, 10),
    );

    // A file that is there is opened as it is.
    let mut opened = folder.open_wal_file(4).unwrap();
    assert_eq!(opened.iter_items(), Ok(vec![(10, commit(1))]));
    assert_eq!(opened.next_offset(), 20);
    assert_eq!(folder.num_wal_files(), 1);

    // A file that is not there is created without items.
    let mut created = folder.open_wal_file(5).unwrap();
    assert_eq!(created.iter_items(), Ok(vec![]));
    assert_eq!(created.next_offset(), 10);
    assert_eq!(folder.num_wal_files(), 2);
    assert!(folder.has_wal_file(5));

    // The files are handed out in the folder's order.
    let files = folder.iter_wal_files().unwrap();
    assert_eq!(files.len(), 2);
    assert_eq!(files[0].0, 4);
    assert_eq!(files[0].1.len(), 1);
    assert_eq!(files[1].0, 5);
    assert_eq!(files[1].1.len(), 0);

    // What is appended to a file that was handed out stays out of the folder.
    created.push_item(&commit(9)).unwrap();
    assert_eq!(folder.open_wal_file(5).unwrap().len(), 0);

    assert_eq!(folder.delete_wal_file(4), Ok(()));
    assert!(!folder.has_wal_file(4));
    assert!(folder.has_wal_file(5));
    assert_eq!(folder.delete_wal_file(4), Ok(()));
    assert_eq!(folder.num_wal_files(), 1);

    assert_eq!(folder.clear_wal_files(), Ok(()));
    assert_eq!(folder.num_wal_files(), 0);
    assert!(!folder.has_wal_file(5));
}

#[test]
fn mem_folder_opens_the_segment_file_that_was_put_last() {
    let mut folder = MemFolder::new(10, 10);
    assert_eq!(folder.open_segment_file(3).unwrap().num_writes(), 0);

    let mut first = MemSegmentFile::new();
    first
        .write(1, &[1; PAGE_BODY_SIZE], WalIndex::new(1, 10))
        .unwrap();
    folder.put_segment_file(3, first);
    let mut second = MemSegmentFile::new();
    second
        .write(1, &[2; PAGE_BODY_SIZE], WalIndex::new(1, 20))
        .unwrap();
    second
        .write(2, &[2; PAGE_BODY_SIZE], WalIndex::new(1, 30))
        .unwrap();
    folder.put_segment_file(3, second);

    let opened = folder.open_segment_file(3).unwrap();
    assert_eq!(opened.num_writes(), 2);
    let mut buf = [0; 1];
    assert_eq!(opened.read(1, &mut buf), Ok(Some(WalIndex::new(1, 20))));
    assert_eq!(buf, [2]);
    // Another segment has no file.
    assert_eq!(folder.open_segment_file(4).unwrap().num_writes(), 0);
    // The log files are not touched.
    assert_eq!(folder.num_wal_files(), 0);
}

#[test]
fn errors_in_words() {
    assert_eq!(FileError::UnexpectedEof.message(), "unexpected end of file");
    assert_eq!(FileError::NotFound.message(), "file not found");
    assert_eq!(FileError::PermissionDenied.message(), "permission denied");
    assert_eq!(FileError::OutOfSpace.message(), "no space left in the file");
    assert_eq!(FileError::Other.message(), "file operation failed");

    assert_eq!(
        StorageError::WalNotInitialized.message(),
        "The WAL is not initialized"
    );
    assert_eq!(
        StorageError::File(FileError::NotFound).message(),
        "file not found"
    );

    assert_eq!(
        LoadError::NotAWalFile.message(),
        "This file is not an acorn WAL file"
    );
    assert_eq!(LoadError::Corrupted.message(), "The WAL file is corrupted");
    assert_eq!(
        LoadError::PageSizeMismatch(1, 2).message(),
        "Page size mismatch"
    );
    assert_eq!(
        LoadError::ByteOrderMismatch(ByteOrder::BigEndian).message(),
        "Byte order mismatch"
    );
    assert_eq!(
        LoadError::Io(FileError::OutOfSpace).message(),
        "no space left in the file"
    );

    assert_eq!(
        DatabaseError::Storage(StorageError::WalNotInitialized).message(),
        "The WAL is not initialized"
    );
    assert_eq!(
        DatabaseError::UnknownPageKind(9).message(),
        "Unknown page kind"
    );
    assert_eq!(
        DatabaseError::UnexpectedPageKind {
            expected: PageKind::Records,
            received: PageKind::FreelistMeta,
        }
        .message(),
        "Unexpected page kind"
    );
    assert_eq!(
        DatabaseError::PageFormat(PageFormatError::InvalidPageNumber).message(),
        "Found invalid page number '0'!"
    );
    assert_eq!(
        DatabaseError::PageIndexOutOfBounds.message(),
        "Page index out of bounds"
    );
}
