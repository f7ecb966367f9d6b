use acorn::doc_store::pages::{
    assert_page_kind, check_page_kind, next_power_of_two, set_page_kind, BlockPage, FreelistPage,
    MetaPage, PageIdRepr, PageKind, NUM_SLOTS,
};
use acorn::doc_store::{DatabaseError, PageFormatError};
use acorn::files::segment::PAGE_BODY_SIZE;
use acorn::files::FileError;
use acorn::page_store::{MemPage, PageId, StorageError};
use acorn::utils::byte_order::ByteOrder;

fn page_id(segment_num: u32, page_num: u16) -> PageId {
    PageId::new(segment_num, page_num)
}

fn blank_page() -> MemPage {
    MemPage::zeroed(PAGE_BODY_SIZE)
}

#[test]
fn page_kinds_and_their_bytes() {
    assert_eq!(PageKind::from(0), Some(PageKind::FreelistMeta));
    assert_eq!(PageKind::from(1), Some(PageKind::FreelistBlock));
    assert_eq!(PageKind::from(2), Some(PageKind::Records));
    assert_eq!(PageKind::from(3), None);
    assert_eq!(PageKind::Records.to_byte(), 2);
}

#[test]
fn page_kind_is_checked() {
    let mut page = blank_page();
    set_page_kind(&mut page, PageKind::FreelistBlock).unwrap();
    assert_eq!(page.bytes[0], 1);

    assert_eq!(assert_page_kind(&page, PageKind::FreelistBlock), Ok(()));
    assert_eq!(
        assert_page_kind(&page, PageKind::Records),
        Err(DatabaseError::UnexpectedPageKind {
            expected: PageKind::Records,
            received: PageKind::FreelistBlock,
        })
    );
    page.bytes[0] = 77;
    assert_eq!(
        assert_page_kind(&page, PageKind::Records),
        Err(DatabaseError::UnknownPageKind(77))
    );
    assert_eq!(check_page_kind(2, PageKind::Records), Ok(()));

    // A page without bytes cannot be read.
    let empty = MemPage { bytes: Vec::new() };
    assert_eq!(
        assert_page_kind(&empty, PageKind::Records),
        Err(DatabaseError::Storage(StorageError::File(
            FileError::UnexpectedEof
        )))
    );
}

#[test]
fn page_id_repr_conversions() {
    let id = page_id(5, 6);
    assert_eq!(PageIdRepr::from_page_id(id).try_into_page_id(), Ok(id));
    assert_eq!(
        PageIdRepr::new_zeroed().try_into_page_id(),
        Err(DatabaseError::PageFormat(
            PageFormatError::InvalidPageNumber
        ))
    );
    assert_eq!(PageIdRepr::from_optional(Some(id)).to_optional(), Some(id));
    assert_eq!(PageIdRepr::from_optional(None).to_optional(), None);
    assert_eq!(
        PageIdRepr::from_page_id(page_id(0x01020304, 0x0506)).to_bytes(ByteOrder::BigEndian),
        [1, 2, 3, 4, 5, 6]
    );
    assert_eq!(
        PageIdRepr::from_bytes(&[4, 3, 2, 1, 6, 5], ByteOrder::LittleEndian),
        PageIdRepr {
            segment_num: 0x01020304,
            page_num: 0x0506
        }
    );
}

#[test]
fn meta_page_roundtrip() {
    let mut meta = MetaPage::new_unchecked(blank_page());
    meta.init(page_id(1, 2)).unwrap();

    assert_eq!(meta.get_freelist_head(), Ok(None));
    assert_eq!(meta.get_next_page_id(), Ok(page_id(1, 2)));

    meta.set_freelist_head(Some(page_id(3, 4))).unwrap();
    meta.set_next_page_id(page_id(5, 6)).unwrap();
    assert_eq!(meta.get_freelist_head(), Ok(Some(page_id(3, 4))));
    assert_eq!(meta.get_next_page_id(), Ok(page_id(5, 6)));

    // The page is marked as a meta page.
    let meta = MetaPage::new(meta.page).ok().unwrap();
    assert_eq!(meta.page.bytes[0], 0);
}

#[test]
fn meta_page_layout() {
    let mut meta = MetaPage::with_order(blank_page(), ByteOrder::BigEndian);
    meta.init(page_id(0x01020304, 0x0506)).unwrap();
    meta.set_freelist_head(Some(page_id(0x0a0b0c0d, 0x0e0f)))
        .unwrap();

    assert_eq!(
        meta.page.bytes[0..13],
        [0, 0x0a, 0x0b, 0x0c, 0x0d, 0x0e, 0x0f, 1, 2, 3, 4, 5, 6]
    );
}

#[test]
fn meta_page_of_the_wrong_kind() {
    let mut page = blank_page();
    set_page_kind(&mut page, PageKind::Records).unwrap();
    assert_eq!(
        MetaPage::new(page).err(),
        Some(DatabaseError::UnexpectedPageKind {
            expected: PageKind::FreelistMeta,
            received: PageKind::Records,
        })
    );
}

#[test]
fn meta_page_without_next_page_is_malformed() {
    let meta = MetaPage::new(blank_page()).ok().unwrap();
    assert_eq!(
        meta.get_next_page_id(),
        Err(DatabaseError::PageFormat(
            PageFormatError::InvalidPageNumber
        ))
    );
}

#[test]
fn doc_freelist_push_and_pop() {
    let mut freelist = FreelistPage::new_unchecked(blank_page());
    freelist.init().unwrap();
    assert_eq!(freelist.get_length(), Ok(0));
    assert_eq!(freelist.get_next_page_id(), Ok(None));
    assert_eq!(freelist.pop_item(), Ok(None));

    freelist.push_item(page_id(1, 10)).unwrap();
    freelist.push_item(page_id(1, 11)).unwrap();
    assert_eq!(freelist.get_length(), Ok(2));
    assert_eq!(freelist.get_item(0), Ok(Some(page_id(1, 10))));
    assert_eq!(freelist.get_item(1), Ok(Some(page_id(1, 11))));
    assert_eq!(freelist.get_item(2), Ok(None));
    assert_eq!(freelist.is_full(), Ok(false));

    assert_eq!(freelist.pop_item(), Ok(Some(page_id(1, 11))));
    assert_eq!(freelist.get_length(), Ok(1));
    assert_eq!(freelist.pop_item(), Ok(Some(page_id(1, 10))));
    assert_eq!(freelist.pop_item(), Ok(None));

    freelist.set_next_page_id(Some(page_id(2, 3))).unwrap();
    assert_eq!(freelist.get_next_page_id(), Ok(Some(page_id(2, 3))));
    let freelist = FreelistPage::new(freelist.page).ok().unwrap();
    assert_eq!(freelist.page.bytes[0], 1);
}

#[test]
fn doc_freelist_layout() {
    let mut freelist = FreelistPage::with_order(blank_page(), ByteOrder::BigEndian);
    freelist.init().unwrap();
    freelist.push_item(page_id(0x01020304, 0x0506)).unwrap();

    assert_eq!(
        freelist.page.bytes[0..15],
        [1, 0, 0, 0, 0, 0, 0, 0, 1, 1, 2, 3, 4, 5, 6]
    );
}

#[test]
fn doc_freelist_pop_skips_empty_slots() {
    let mut freelist = FreelistPage::with_order(blank_page(), ByteOrder::LittleEndian);
    freelist.init().unwrap();
    freelist.push_item(page_id(1, 10)).unwrap();
    freelist.set_item(1, None).unwrap();
    freelist.set_item(2, None).unwrap();
    freelist.set_length(3).unwrap();

    assert_eq!(freelist.pop_item(), Ok(Some(page_id(1, 10))));
    assert_eq!(freelist.get_length(), Ok(0));
}

#[test]
fn doc_freelist_slots_end_with_the_page() {
    assert_eq!(NUM_SLOTS, (PAGE_BODY_SIZE - 9) / 6);
    assert_eq!(FreelistPage::<MemPage>::offset_for_index(0), Some(9));
    assert_eq!(FreelistPage::<MemPage>::offset_for_index(1), Some(15));
    assert_eq!(
        FreelistPage::<MemPage>::offset_for_index(NUM_SLOTS - 1),
        Some(9 + 6 * (NUM_SLOTS - 1))
    );
    assert_eq!(
        FreelistPage::<MemPage>::offset_for_index(PAGE_BODY_SIZE),
        None
    );

    let mut freelist = FreelistPage::new_unchecked(blank_page());
    freelist.init().unwrap();
    assert_eq!(
        freelist.set_item(PAGE_BODY_SIZE, Some(page_id(1, 1))),
        Err(DatabaseError::PageIndexOutOfBounds)
    );
    assert_eq!(freelist.get_item(PAGE_BODY_SIZE), Ok(None));

    // A stack that has reached the end of the page cannot grow.
    freelist.set_length(PAGE_BODY_SIZE / 6 + 1).unwrap();
    assert_eq!(freelist.is_full(), Ok(true));
    assert_eq!(
        freelist.push_item(page_id(1, 1)),
        Err(DatabaseError::PageIndexOutOfBounds)
    );
}

#[test]
fn block_page_wraps_its_page() {
    let block = BlockPage::new_unchecked(blank_page());
    assert_eq!(block.page.bytes.len(), PAGE_BODY_SIZE);
}

#[test]
fn next_power_of_two_is_the_smallest_that_fits() {
    assert_eq!(next_power_of_two(0), 1);
    assert_eq!(next_power_of_two(1), 1);
    assert_eq!(next_power_of_two(2), 2);
    assert_eq!(next_power_of_two(3), 4);
    assert_eq!(next_power_of_two(511), 512);
    assert_eq!(next_power_of_two(512), 512);
    assert_eq!(next_power_of_two(513), 1024);
}

#[test]
fn alloc_tree_size_of_a_page() {
    // 511 leaves under a layer of 512: 1022 nodes, one bit each.
    assert_eq!(
        BlockPage::<MemPage>::get_alloc_tree_size(PAGE_BODY_SIZE - 1, 32),
        128
    );
    // One leaf is its own tree.
    assert_eq!(BlockPage::<MemPage>::get_alloc_tree_size(32, 32), 1);
    assert_eq!(BlockPage::<MemPage>::get_alloc_tree_size(0, 32), 0);
}

#[test]
fn block_position_and_degree() {
    // The low six bits are the degree; blocks of degree three hold 256
    // bytes.
    assert_eq!(BlockPage::<MemPage>::get_block_pos(0x0143), (1, 3));
    assert_eq!(BlockPage::<MemPage>::get_block_pos(0), (0, 0));
    assert_eq!(BlockPage::<MemPage>::get_block_pos(64), (2, 0));
}
