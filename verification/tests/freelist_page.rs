use acorn::format::pages::freelist::FreelistPage;
use acorn::format::Error;
use acorn::segment::PageNumber;
use acorn::utils::byte_order::ByteOrder;

#[test]
fn read_freelist_page() {
    let mut bytes = Vec::new();
    bytes.extend(0_u32.to_ne_bytes());
    bytes.extend(3_u32.to_ne_bytes());
    bytes.extend(1_u32.to_ne_bytes());
    bytes.extend(2_u32.to_ne_bytes());
    bytes.extend(0_u32.to_ne_bytes());
    bytes.extend([0x00, 0x00]);

    let page = FreelistPage::new(&bytes);

    assert_eq!(page.next, None);
    assert_eq!(page.length, 3);
    assert_eq!(page.pages, [PageNumber::new(1), PageNumber::new(2), None])
}

#[test]
fn pages_push_format() {
    let mut bytes = Vec::new();
    bytes.extend(0_u32.to_ne_bytes());
    bytes.extend(0_u32.to_ne_bytes());
    bytes.extend(0_u32.to_ne_bytes());

    let mut page = FreelistPage::new(&bytes);

    assert!(page.push_page(PageNumber::new(69).unwrap()));
    let bytes = page.as_bytes();

    let mut expected = Vec::new();
    expected.extend(0_u32.to_ne_bytes());
    expected.extend(1_u32.to_ne_bytes());
    expected.extend(69_u32.to_ne_bytes());

    assert_eq!(bytes, expected);
}

#[test]
fn pages_push_and_pop() {
    let mut bytes = Vec::new();
    bytes.extend(0_u32.to_ne_bytes());
    bytes.extend(0_u32.to_ne_bytes());
    bytes.extend(0_u32.to_ne_bytes());

    let mut page = FreelistPage::new(&bytes);

    assert!(page.push_page(PageNumber::new(69).unwrap()));
    assert!(!page.push_page(PageNumber::new(420).unwrap()));
    assert_eq!(page.pop_page().unwrap(), PageNumber::new(69));
    assert_eq!(page.pop_page().unwrap(), None);
}

#[test]
fn pop_from_corrupted_page() {
    // The stack claims one page, but its top slot names none.
    let mut bytes = Vec::new();
    bytes.extend(0_u32.to_le_bytes());
    bytes.extend(1_u32.to_le_bytes());
    bytes.extend(0_u32.to_le_bytes());

    let mut page = FreelistPage::from_bytes(&bytes, ByteOrder::LittleEndian);

    assert_eq!(page.pop_page(), Err(Error::Corrupted));
    assert_eq!(page.length, 1);
}

#[test]
fn freelist_page_bytes_in_both_orders() {
    let page = FreelistPage {
        next: PageNumber::new(0x01020304),
        length: 1,
        pages: vec![PageNumber::new(5), None],
    };

    assert_eq!(
        page.to_bytes(ByteOrder::LittleEndian),
        vec![4, 3, 2, 1, 1, 0, 0, 0, 5, 0, 0, 0, 0, 0, 0, 0]
    );
    assert_eq!(
        page.to_bytes(ByteOrder::BigEndian),
        vec![1, 2, 3, 4, 0, 0, 0, 1, 0, 0, 0, 5, 0, 0, 0, 0]
    );
    assert_eq!(
        FreelistPage::from_bytes(&page.to_bytes(ByteOrder::BigEndian), ByteOrder::BigEndian),
        page
    );
}
