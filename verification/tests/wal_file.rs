use acorn::files::FileError;
use acorn::index::{PageId, StorageIndex};
use acorn::utils::byte_order::ByteOrder;
use acorn::wal::{check_header, encode_header, InitParams, LoadError, LoadParams, Wal};

const HEADER_SIZE: usize = 10;

fn native_order() -> ByteOrder {
    if u16::from_ne_bytes([1, 0]) == 1 {
        ByteOrder::LittleEndian
    } else {
        ByteOrder::BigEndian
    }
}

fn foreign_order() -> ByteOrder {
    match native_order() {
        ByteOrder::LittleEndian => ByteOrder::BigEndian,
        ByteOrder::BigEndian => ByteOrder::LittleEndian,
    }
}

fn order_byte(order: ByteOrder) -> u8 {
    match order {
        ByteOrder::LittleEndian => 0,
        ByteOrder::BigEndian => 1,
    }
}

#[test]
fn init_wal_file() {
    let mut file = vec![0; HEADER_SIZE];

    Wal::init(&mut file, InitParams { page_size: 1024 }).unwrap();

    let mut expected = Vec::new();
    expected.extend(*b"ACNL");
    expected.extend(10_u16.to_ne_bytes());
    expected.extend(1024_u16.to_ne_bytes());
    expected.push(order_byte(native_order()));
    expected.push(0);
    assert_eq!(file, expected);
}

#[test]
fn load_wal_file() {
    let mut file = Vec::<u8>::new();
    Wal::init(&mut file, InitParams { page_size: 1024 }).unwrap();

    Wal::load(file, LoadParams { page_size: 1024 }).unwrap();
}

#[test]
fn log_writes() {
    let mut file: Vec<u8> = Vec::new();
    Wal::init(&mut file, InitParams { page_size: 8 }).unwrap();

    let mut wal = Wal::load(file, LoadParams { page_size: 8 }).unwrap();
    wal.log_write(PageId::new(0, 10), &[10; 8]);
    wal.log_write(PageId::new(0, 12), &[15; 8]);
    wal.commit().unwrap();

    let data = wal.file_bytes();
    assert_eq!(
        &data[HEADER_SIZE..],
        &[
            &PageId::new(0, 10).as_bytes()[..],
            &[10; 8],
            &PageId::new(0, 12).as_bytes()[..],
            &[15; 8]
        ]
        .concat()
    );
}

#[test]
fn dont_log_uncommitted_writes() {
    let mut file: Vec<u8> = Vec::new();
    Wal::init(&mut file, InitParams { page_size: 8 }).unwrap();

    let mut wal = Wal::load(file, LoadParams { page_size: 8 }).unwrap();
    wal.log_write(PageId::new(0, 10), &[10; 8]);
    wal.log_write(PageId::new(0, 12), &[15; 8]);

    let data = wal.file_bytes();
    assert!(data[HEADER_SIZE..].is_empty());
}

#[test]
fn iter_logs() {
    let mut file: Vec<u8> = Vec::new();
    Wal::init(&mut file, InitParams { page_size: 8 }).unwrap();

    let mut wal = Wal::load(file, LoadParams { page_size: 8 }).unwrap();
    wal.log_write(PageId::new(0, 10), &[10; 8]);
    wal.log_write(PageId::new(0, 12), &[15; 8]);
    wal.commit().unwrap();

    wal.log_write(PageId::new(0, 5), &[25; 8]);
    wal.commit().unwrap();

    let mut iter = wal.iter().unwrap();
    assert_eq!(
        iter.next().unwrap().unwrap(),
        (PageId::new(0, 10), vec![10; 8])
    );
    assert_eq!(
        iter.next().unwrap().unwrap(),
        (PageId::new(0, 12), vec![15; 8])
    );
    assert_eq!(
        iter.next().unwrap().unwrap(),
        (PageId::new(0, 5), vec![25; 8])
    );
    assert!(iter.next().is_none());
}

#[test]
fn cancelled_writes_are_not_committed() {
    let mut file: Vec<u8> = Vec::new();
    Wal::init(&mut file, InitParams { page_size: 4 }).unwrap();
    let mut wal = Wal::load(file, LoadParams { page_size: 4 }).unwrap();

    wal.log_write(PageId::new(1, 1), &[1; 4]);
    wal.cancel();
    wal.log_write(PageId::new(2, 2), &[2; 4]);
    wal.commit().unwrap();

    let mut iter = wal.iter().unwrap();
    assert_eq!(iter.next().unwrap().unwrap(), (PageId::new(2, 2), vec![2; 4]));
    assert!(iter.next().is_none());
}

#[test]
fn clear_empties_the_log() {
    let mut file: Vec<u8> = Vec::new();
    Wal::init(&mut file, InitParams { page_size: 4 }).unwrap();
    let mut wal = Wal::load(file, LoadParams { page_size: 4 }).unwrap();
    wal.log_write(PageId::new(1, 1), &[1; 4]);
    wal.commit().unwrap();
    assert_eq!(wal.file_bytes().len(), HEADER_SIZE + 12);

    wal.clear().unwrap();

    assert_eq!(wal.file_bytes().len(), HEADER_SIZE);
    assert!(wal.iter().unwrap().next().is_none());
}

#[test]
fn torn_tail_of_the_log() {
    let mut file: Vec<u8> = Vec::new();
    Wal::init(&mut file, InitParams { page_size: 4 }).unwrap();
    // A whole entry, a page id with half a page, and nothing more.
    file.extend(PageId::new(1, 1).as_bytes());
    file.extend([1; 4]);
    file.extend(PageId::new(2, 2).as_bytes());
    file.extend([2; 2]);
    let mut wal = Wal::load(file, LoadParams { page_size: 4 }).unwrap();

    // The torn entry ends the log and is no error.
    let mut iter = wal.iter().unwrap();
    assert_eq!(iter.next().unwrap().unwrap(), (PageId::new(1, 1), vec![1; 4]));
    assert_eq!(iter.next(), None);
    assert_eq!(iter.next(), None);
}

#[test]
fn header_validation() {
    let native = native_order();

    // Not the magic bytes of a log file.
    let mut file = encode_header(8, native).to_vec();
    file[3] = b'X';
    assert_eq!(
        Wal::load(file, LoadParams { page_size: 8 }).err(),
        Some(LoadError::NotAWalFile)
    );

    // Another page size than the engine's.
    let file = encode_header(16, native).to_vec();
    assert_eq!(
        Wal::load(file, LoadParams { page_size: 8 }).err(),
        Some(LoadError::PageSizeMismatch(16, 8))
    );

    // A byte order that does not exist.
    let mut file = encode_header(8, native).to_vec();
    file[8] = 2;
    assert_eq!(
        Wal::load(file, LoadParams { page_size: 8 }).err(),
        Some(LoadError::Corrupted)
    );

    // A byte order that is not this machine's.
    let file = encode_header(8, foreign_order()).to_vec();
    assert_eq!(
        Wal::load(file, LoadParams { page_size: 8 }).err(),
        Some(LoadError::ByteOrderMismatch(foreign_order()))
    );

    // A file that is too short for a header.
    assert_eq!(
        Wal::load(vec![65, 67, 78, 76], LoadParams { page_size: 8 }).err(),
        Some(LoadError::Io(FileError::UnexpectedEof))
    );
}

#[test]
fn header_bytes_in_both_orders() {
    assert_eq!(
        encode_header(0x0102, ByteOrder::LittleEndian),
        [65, 67, 78, 76, 10, 0, 2, 1, 0, 0]
    );
    assert_eq!(
        encode_header(0x0102, ByteOrder::BigEndian),
        [65, 67, 78, 76, 0, 10, 1, 2, 1, 0]
    );
    assert_eq!(
        check_header(
            &encode_header(0x0102, ByteOrder::BigEndian),
            0x0102,
            ByteOrder::BigEndian
        ),
        Ok(10)
    );
}

#[test]
fn log_of_less_than_a_page_id_has_ended() {
    let mut file: Vec<u8> = Vec::new();
    Wal::init(&mut file, InitParams { page_size: 4 }).unwrap();
    file.extend([1, 2, 3]);
    let mut wal = Wal::load(file, LoadParams { page_size: 4 }).unwrap();
    assert_eq!(wal.iter().unwrap().next(), None);
}

#[test]
fn native_byte_order_is_the_machines() {
    assert_eq!(ByteOrder::native(), native_order());
    assert_eq!(ByteOrder::from_byte(0), Some(ByteOrder::LittleEndian));
    assert_eq!(ByteOrder::from_byte(1), Some(ByteOrder::BigEndian));
    assert_eq!(ByteOrder::from_byte(2), None);
}

#[test]
fn integers_in_both_orders() {
    assert_eq!(ByteOrder::LittleEndian.encode_u16(0x1234), [0x34, 0x12]);
    assert_eq!(ByteOrder::BigEndian.encode_u16(0x1234), [0x12, 0x34]);
    assert_eq!(ByteOrder::LittleEndian.decode_u16(0x34, 0x12), 0x1234);
    assert_eq!(ByteOrder::BigEndian.decode_u16(0x12, 0x34), 0x1234);
    assert_eq!(
        ByteOrder::LittleEndian.encode_u32(0x12345678),
        [0x78, 0x56, 0x34, 0x12]
    );
    assert_eq!(
        ByteOrder::BigEndian.encode_u32(0x12345678),
        [0x12, 0x34, 0x56, 0x78]
    );
    assert_eq!(
        ByteOrder::LittleEndian.decode_u32([0x78, 0x56, 0x34, 0x12]),
        0x12345678
    );
    assert_eq!(
        ByteOrder::BigEndian.decode_u32([0x12, 0x34, 0x56, 0x78]),
        0x12345678
    );
    assert_eq!(ByteOrder::native().encode_u32(7), 7_u32.to_ne_bytes());
}

#[test]
fn page_id_bytes_and_text() {
    let id = PageId::new(0x01020304, 0x0506);
    assert_eq!(
        id.to_bytes(ByteOrder::LittleEndian),
        [4, 3, 2, 1, 6, 5, 0, 0]
    );
    assert_eq!(id.to_bytes(ByteOrder::BigEndian), [1, 2, 3, 4, 5, 6, 0, 0]);
    let mut native = Vec::new();
    native.extend(0x01020304_u32.to_ne_bytes());
    native.extend(0x0506_u16.to_ne_bytes());
    native.extend([0, 0]);
    assert_eq!(id.as_bytes().to_vec(), native);
    assert_eq!(
        PageId::from_bytes(&[1, 2, 3, 4, 5, 6, 9, 9], ByteOrder::BigEndian),
        id
    );
    assert_eq!(id.to_text(), "01020304:0506");

    let index = StorageIndex::new(id, 0x0a);
    assert_eq!(index.page_id(), id);
    assert_eq!(index.index, 0x0a);
    assert_eq!(index.to_text(), "01020304:0506:000a");

    // Every digit, in lower case, with zeros in front.
    assert_eq!(PageId::new(0x89abcdef, 0x0007).to_text(), "89abcdef:0007");
    assert_eq!(PageId::new(0, 0).to_text(), "00000000:0000");
    assert_eq!(
        StorageIndex::new(PageId::new(0x01234567, 0xffff), 0xbeef).to_text(),
        "01234567:ffff:beef"
    );
    assert_eq!(ByteOrder::of_probe(1), ByteOrder::LittleEndian);
    assert_eq!(ByteOrder::of_probe(256), ByteOrder::BigEndian);
}
