//! The pages of the document store: the meta page, which names the head of
//! the freelist and the next page that was never used, and the freelist
//! pages, which hold the ids of pages that are free.
//!
//! Every page starts with one byte that says of which kind it is.

use vstd::prelude::*;
use crate::doc_store::{DatabaseError, PageFormatError};
use crate::files::segment::PAGE_BODY_SIZE;
use crate::page_store::{patched, PageBody, PageId, ReadPage, WritePage};
use crate::utils::byte_order::{
    lemma_u16_roundtrip, lemma_u32_roundtrip, u16_bytes, u16_of_bytes, u32_bytes, u32_of_bytes,
    ByteOrder,
};

verus! {

/// The kind of a page.
#[derive(Debug, Clone, Copy, PartialEq, Eq, Structural)]
pub enum PageKind {
    FreelistMeta,
    FreelistBlock,
    Records,
}

/// The number of bytes before the content of a page: the byte of its kind.
pub const PAGE_HEADER_SIZE: usize = 1;

/// The number of bytes that a page id takes in a page.
pub const PAGE_ID_REPR_SIZE: usize = 6;

impl PageKind {
    /// The byte that stands for the kind.
    pub open spec fn byte(self) -> u8 {
        match self {
            PageKind::FreelistMeta => 0,
            PageKind::FreelistBlock => 1,
            PageKind::Records => 2,
        }
    }

    /// The kind that a byte stands for, if any.
    pub open spec fn of_byte(value: u8) -> Option<PageKind> {
        if value == 0 {
            Some(PageKind::FreelistMeta)
        } else if value == 1 {
            Some(PageKind::FreelistBlock)
        } else if value == 2 {
            Some(PageKind::Records)
        } else {
            None
        }
    }

    /// The kind that a byte stands for, if any.
    pub fn from(value: u8) -> (kind: Option<Self>)
        ensures
            kind == PageKind::of_byte(value),
    {
        match value {
            0 => Some(PageKind::FreelistMeta),
            1 => Some(PageKind::FreelistBlock),
            2 => Some(PageKind::Records),
            _ => None,
        }
    }

    /// The byte that stands for the kind.
    pub fn to_byte(self) -> (value: u8)
        ensures
            value == self.byte(),
            PageKind::of_byte(value) == Some(self),
    {
        match self {
            PageKind::FreelistMeta => 0,
            PageKind::FreelistBlock => 1,
            PageKind::Records => 2,
        }
    }
}

/// Marks the page as one of the given kind.
pub fn set_page_kind<P: WritePage>(page: &mut P, kind: PageKind) -> (res: Result<
    (),
    DatabaseError,
>)
    ensures
        res is Ok ==> old(page).body().len() > 0 && final(page).body() == old(page).body().update(
            0,
            kind.byte(),
        ),
        res is Err ==> res is Err && (res->Err_0 is Storage),
{
    let byte = [kind.to_byte()];
    match page.write(0, &byte) {
        Ok(()) => {
            proof {
                assert(patched(old(page).body(), 0, byte@) =~= old(page).body().update(
                    0,
                    kind.byte(),
                ));
            }
            Ok(())
        },
        Err(error) => Err(DatabaseError::from_storage_error(error)),
    }
}

/// What the check of a page's kind makes of the byte that was found where
/// the kind `kind` is expected: nothing is wrong if the byte stands for that
/// kind; a byte that stands for no kind is unknown; any other is unexpected.
pub open spec fn checked_page_kind(received: u8, kind: PageKind) -> Result<(), DatabaseError> {
    if received == kind.byte() {
        Ok(())
    } else {
        match PageKind::of_byte(received) {
            None => Err(DatabaseError::UnknownPageKind(received)),
            Some(found) => Err(
                DatabaseError::UnexpectedPageKind { expected: kind, received: found },
            ),
        }
    }
}

/// Checks the byte that was found where the kind `kind` is expected.
pub fn check_page_kind(received: u8, kind: PageKind) -> (res: Result<(), DatabaseError>)
    ensures
        res == checked_page_kind(received, kind),
{
    if received != kind.to_byte() {
        let Some(received) = PageKind::from(received) else {
            return Err(DatabaseError::UnknownPageKind(received));
        };
        return Err(DatabaseError::UnexpectedPageKind { expected: kind, received });
    }
    Ok(())
}

/// Checks that the page is of the given kind. Unless the page cannot be
/// read, the result is that of [`checked_page_kind`] for the page's first
/// byte.
pub fn assert_page_kind<P: ReadPage>(page: &P, kind: PageKind) -> (res: Result<(), DatabaseError>)
    ensures
        res is Ok ==> page.body().len() > 0 && page.body()[0] == kind.byte(),
        !(res is Err && res->Err_0 is Storage) ==> page.body().len() > 0 && res
            == checked_page_kind(page.body()[0], kind),
{
    let mut byte = [0u8; 1];
    match page.read(0, &mut byte) {
        Ok(()) => {},
        Err(error) => {
            return Err(DatabaseError::from_storage_error(error));
        },
    }
    check_page_kind(byte[0], kind)
}

/// A page id as a page holds it: six bytes, of which the page number may
/// be zero, which stands for "no page".
#[derive(Debug, Clone, Copy, PartialEq, Eq, Structural)]
pub struct PageIdRepr {
    pub segment_num: u32,
    pub page_num: u16,
}

/// The six bytes of a page id in a page.
pub open spec fn repr_bytes(repr: PageIdRepr, order: ByteOrder) -> Seq<u8> {
    u32_bytes(repr.segment_num, order) + u16_bytes(repr.page_num, order)
}

/// The page id that six bytes stand for.
pub open spec fn repr_of_bytes(bytes: Seq<u8>, order: ByteOrder) -> PageIdRepr {
    PageIdRepr {
        segment_num: u32_of_bytes(bytes.subrange(0, 4), order),
        page_num: u16_of_bytes(bytes[4], bytes[5], order),
    }
}

/// The page id that the six bytes of `body` from `offset` on stand for.
pub open spec fn repr_at(body: Seq<u8>, offset: int, order: ByteOrder) -> PageIdRepr {
    repr_of_bytes(body.subrange(offset, offset + PAGE_ID_REPR_SIZE), order)
}

/// A page id is read back from its six bytes as it was.
pub proof fn lemma_repr_roundtrip(repr: PageIdRepr, order: ByteOrder)
    ensures
        repr_bytes(repr, order).len() == PAGE_ID_REPR_SIZE,
        repr_of_bytes(repr_bytes(repr, order), order) == repr,
{
    lemma_u32_roundtrip(repr.segment_num, order);
    lemma_u16_roundtrip(repr.page_num, order);
    let bytes = repr_bytes(repr, order);
    assert(bytes.subrange(0, 4) =~= u32_bytes(repr.segment_num, order));
    assert(bytes[4] == u16_bytes(repr.page_num, order)[0]);
    assert(bytes[5] == u16_bytes(repr.page_num, order)[1]);
}

/// What is read from `body` at `offset` after `patch` was written there is
/// the patch.
pub proof fn lemma_patched_read(body: Seq<u8>, offset: int, patch: Seq<u8>)
    requires
        0 <= offset,
        offset + patch.len() <= body.len(),
    ensures
        patched(body, offset, patch).len() == body.len(),
        patched(body, offset, patch).subrange(offset, offset + patch.len()) == patch,
        forall|from: int, to: int|
            0 <= from <= to <= body.len() && (to <= offset || offset + patch.len() <= from)
                ==> #[trigger] patched(body, offset, patch).subrange(from, to) == body.subrange(
                from,
                to,
            ),
{
    let after = patched(body, offset, patch);
    assert(after.subrange(offset, offset + patch.len()) =~= patch);
    assert forall|from: int, to: int|
        0 <= from <= to <= body.len() && (to <= offset || offset + patch.len()
            <= from) implies #[trigger] after.subrange(from, to) == body.subrange(from, to) by {
        assert(after.subrange(from, to) =~= body.subrange(from, to));
    }
}

impl PageIdRepr {
    /// The page id that stands for "no page".
    pub fn new_zeroed() -> (repr: Self)
        ensures
            repr.segment_num == 0,
            repr.page_num == 0,
    {
        Self { segment_num: 0, page_num: 0 }
    }

    /// The page id, which must name a page.
    pub open spec fn spec_try_into(self) -> Result<PageId, DatabaseError> {
        if self.page_num == 0 {
            Err(DatabaseError::PageFormat(PageFormatError::InvalidPageNumber))
        } else {
            Ok(PageId { segment_num: self.segment_num, page_num: self.page_num })
        }
    }

    /// The page id, or nothing if it stands for "no page".
    pub open spec fn spec_to_optional(self) -> Option<PageId> {
        if self.page_num == 0 {
            None
        } else {
            Some(PageId { segment_num: self.segment_num, page_num: self.page_num })
        }
    }

    /// How an optional page id is held in a page.
    pub open spec fn spec_from_optional(value: Option<PageId>) -> PageIdRepr {
        match value {
            Some(id) => PageIdRepr { segment_num: id.segment_num, page_num: id.page_num },
            None => PageIdRepr { segment_num: 0, page_num: 0 },
        }
    }

    /// The page id, which must name a page: a page number of zero is a
    /// format error.
    pub fn try_into_page_id(self) -> (res: Result<PageId, DatabaseError>)
        ensures
            res == self.spec_try_into(),
            res matches Ok(id) ==> id.wf(),
    {
        if self.page_num == 0 {
            return Err(DatabaseError::PageFormat(PageFormatError::InvalidPageNumber));
        }
        Ok(PageId::new(self.segment_num, self.page_num))
    }

    /// How a page id is held in a page.
    pub fn from_page_id(value: PageId) -> (repr: Self)
        ensures
            repr == PageIdRepr::spec_from_optional(Some(value)),
    {
        Self { segment_num: value.segment_num, page_num: value.page_num }
    }

    /// The page id, or nothing if it stands for "no page".
    pub fn to_optional(self) -> (id: Option<PageId>)
        ensures
            id == self.spec_to_optional(),
            id matches Some(page_id) ==> page_id.wf(),
    {
        if self.page_num == 0 {
            None
        } else {
            Some(PageId::new(self.segment_num, self.page_num))
        }
    }

    /// How an optional page id is held in a page.
    pub fn from_optional(value: Option<PageId>) -> (repr: Self)
        ensures
            repr == PageIdRepr::spec_from_optional(value),
            (value matches Some(id) ==> id.wf()) ==> repr.spec_to_optional() == value,
    {
        match value {
            Some(page_id) => Self::from_page_id(page_id),
            None => Self::new_zeroed(),
        }
    }

    /// The six bytes of the page id.
    pub fn to_bytes(self, order: ByteOrder) -> (bytes: [u8; 6])
        ensures
            bytes@ == repr_bytes(self, order),
    {
        let segment = order.encode_u32(self.segment_num);
        let page = order.encode_u16(self.page_num);
        let bytes = [segment[0], segment[1], segment[2], segment[3], page[0], page[1]];
        proof {
            assert(bytes@ =~= repr_bytes(self, order));
        }
        bytes
    }

    /// The page id that six bytes stand for.
    pub fn from_bytes(bytes: &[u8], order: ByteOrder) -> (repr: Self)
        requires
            bytes@.len() == PAGE_ID_REPR_SIZE,
        ensures
            repr == repr_of_bytes(bytes@, order),
    {
        let segment = [bytes[0], bytes[1], bytes[2], bytes[3]];
        proof {
            assert(segment@ =~= bytes@.subrange(0, 4));
        }
        Self {
            segment_num: order.decode_u32(segment),
            page_num: order.decode_u16(bytes[4], bytes[5]),
        }
    }
}

/// Reads the page id that the page holds at `offset`.
pub fn read_repr<P: ReadPage>(page: &P, offset: usize, order: ByteOrder) -> (res: Result<
    PageIdRepr,
    DatabaseError,
>)
    ensures
        res matches Ok(repr) ==> offset + PAGE_ID_REPR_SIZE <= page.body().len() && repr == repr_at(
            page.body(),
            offset as int,
            order,
        ),
        res matches Err(error) ==> error is Storage,
{
    let mut bytes = [0u8; 6];
    match page.read(offset, &mut bytes) {
        Ok(()) => Ok(PageIdRepr::from_bytes(&bytes, order)),
        Err(error) => Err(DatabaseError::from_storage_error(error)),
    }
}

/// Writes a page id into the page at `offset`.
pub fn write_repr<P: WritePage>(page: &mut P, offset: usize, repr: PageIdRepr, order: ByteOrder) -> (res:
    Result<(), DatabaseError>)
    ensures
        res is Ok ==> {
            &&& offset + PAGE_ID_REPR_SIZE <= old(page).body().len()
            &&& final(page).body() == patched(
                old(page).body(),
                offset as int,
                repr_bytes(repr, order),
            )
            &&& repr_at(final(page).body(), offset as int, order) == repr
        },
        res matches Err(error) ==> error is Storage,
{
    let bytes = repr.to_bytes(order);
    proof {
        lemma_repr_roundtrip(repr, order);
    }
    match page.write(offset, &bytes) {
        Ok(()) => {
            proof {
                lemma_patched_read(old(page).body(), offset as int, bytes@);
            }
            Ok(())
        },
        Err(error) => Err(DatabaseError::from_storage_error(error)),
    }
}


/// Whether the result is an error of the page store.
pub open spec fn is_storage_error<T>(res: Result<T, DatabaseError>) -> bool {
    res matches Err(error) && error is Storage
}

/// The meta page of the freelist: behind the byte of its kind it holds the
/// id of the first freelist page, if there is one, and the id of the next
/// page that was never used.
pub struct MetaPage<P> {
    pub page: P,
    pub order: ByteOrder,
}

/// The offset of the head of the freelist in the meta page.
pub const META_FREELIST_HEAD_OFFSET: usize = 1;

/// The offset of the id of the next unused page in the meta page.
pub const META_NEXT_PAGE_ID_OFFSET: usize = 7;

impl<P> MetaPage<P> {
    /// The meta page in `page`, whose integers are in the given byte order.
    /// The page's kind is not checked.
    pub fn with_order(page: P, order: ByteOrder) -> (meta: Self)
        ensures
            meta.page == page,
            meta.order == order,
    {
        Self { page, order }
    }

    /// The meta page in `page`, whose integers are in the byte order of this
    /// machine. The page's kind is not checked.
    pub fn new_unchecked(page: P) -> (meta: Self)
        ensures
            meta.page == page,
    {
        Self { page, order: ByteOrder::native() }
    }
}

impl<P: ReadPage> MetaPage<P> {
    /// The meta page in `page`, which must be marked as a meta page.
    pub fn new(page: P) -> (res: Result<Self, DatabaseError>)
        ensures
            res matches Ok(meta) ==> meta.page == page && page.body().len() > 0 && page.body()[0]
                == PageKind::FreelistMeta.byte(),
            !is_storage_error(res) ==> page.body().len() > 0 && (res is Ok <==> checked_page_kind(
                page.body()[0],
                PageKind::FreelistMeta,
            ) is Ok) && (res matches Err(error) ==> Err::<(), DatabaseError>(error)
                == checked_page_kind(page.body()[0], PageKind::FreelistMeta)),
    {
        match assert_page_kind(&page, PageKind::FreelistMeta) {
            Ok(()) => Ok(Self::new_unchecked(page)),
            Err(error) => Err(error),
        }
    }

    /// The id of the first freelist page, if there is one.
    pub fn get_freelist_head(&self) -> (res: Result<Option<PageId>, DatabaseError>)
        ensures
            res matches Ok(head) ==> {
                &&& META_FREELIST_HEAD_OFFSET + PAGE_ID_REPR_SIZE <= self.page.body().len()
                &&& head == repr_at(
                    self.page.body(),
                    META_FREELIST_HEAD_OFFSET as int,
                    self.order,
                ).spec_to_optional()
            },
            res is Err ==> is_storage_error(res),
    {
        match read_repr(&self.page, META_FREELIST_HEAD_OFFSET, self.order) {
            Ok(repr) => Ok(repr.to_optional()),
            Err(error) => Err(error),
        }
    }

    /// The id of the next page that was never used. The meta page is
    /// malformed if it names none.
    pub fn get_next_page_id(&self) -> (res: Result<PageId, DatabaseError>)
        ensures
            !is_storage_error(res) ==> {
                &&& META_NEXT_PAGE_ID_OFFSET + PAGE_ID_REPR_SIZE <= self.page.body().len()
                &&& res == repr_at(
                    self.page.body(),
                    META_NEXT_PAGE_ID_OFFSET as int,
                    self.order,
                ).spec_try_into()
            },
    {
        match read_repr(&self.page, META_NEXT_PAGE_ID_OFFSET, self.order) {
            Ok(repr) => repr.try_into_page_id(),
            Err(error) => Err(error),
        }
    }
}

impl<P: WritePage> MetaPage<P> {
    /// Makes the page the meta page of an empty freelist.
    pub fn init(&mut self, next_page_id: PageId) -> (res: Result<(), DatabaseError>)
        ensures
            final(self).order == old(self).order,
            res is Ok ==> {
                &&& META_NEXT_PAGE_ID_OFFSET + PAGE_ID_REPR_SIZE <= old(self).page.body().len()
                &&& final(self).page.body() == patched(
                    patched(
                        old(self).page.body().update(0, PageKind::FreelistMeta.byte()),
                        META_FREELIST_HEAD_OFFSET as int,
                        repr_bytes(PageIdRepr::spec_from_optional(None), old(self).order),
                    ),
                    META_NEXT_PAGE_ID_OFFSET as int,
                    repr_bytes(PageIdRepr::spec_from_optional(Some(next_page_id)), old(self).order),
                )
            },
            res is Err ==> is_storage_error(res),
    {
        match set_page_kind(&mut self.page, PageKind::FreelistMeta) {
            Ok(()) => {},
            Err(error) => {
                return Err(error);
            },
        }
        match self.set_freelist_head(None) {
            Ok(()) => {},
            Err(error) => {
                return Err(error);
            },
        }
        match self.set_next_page_id(next_page_id) {
            Ok(()) => {},
            Err(error) => {
                return Err(error);
            },
        }
        proof {
            lemma_patched_read(
                old(self).page.body().update(0, PageKind::FreelistMeta.byte()),
                META_FREELIST_HEAD_OFFSET as int,
                repr_bytes(PageIdRepr::spec_from_optional(None), old(self).order),
            );
            lemma_repr_roundtrip(PageIdRepr::spec_from_optional(None), old(self).order);
        }
        Ok(())
    }

    /// Stores the id of the first freelist page, or that there is none.
    pub fn set_freelist_head(&mut self, value: Option<PageId>) -> (res: Result<(), DatabaseError>)
        ensures
            final(self).order == old(self).order,
            res is Ok ==> {
                &&& META_FREELIST_HEAD_OFFSET + PAGE_ID_REPR_SIZE <= old(self).page.body().len()
                &&& final(self).page.body() == patched(
                    old(self).page.body(),
                    META_FREELIST_HEAD_OFFSET as int,
                    repr_bytes(PageIdRepr::spec_from_optional(value), old(self).order),
                )
                &&& repr_at(
                    final(self).page.body(),
                    META_FREELIST_HEAD_OFFSET as int,
                    old(self).order,
                ) == PageIdRepr::spec_from_optional(value)
            },
            res is Err ==> is_storage_error(res),
    {
        let repr = PageIdRepr::from_optional(value);
        write_repr(&mut self.page, META_FREELIST_HEAD_OFFSET, repr, self.order)
    }

    /// Stores the id of the next page that was never used.
    pub fn set_next_page_id(&mut self, value: PageId) -> (res: Result<(), DatabaseError>)
        ensures
            final(self).order == old(self).order,
            res is Ok ==> {
                &&& META_NEXT_PAGE_ID_OFFSET + PAGE_ID_REPR_SIZE <= old(self).page.body().len()
                &&& final(self).page.body() == patched(
                    old(self).page.body(),
                    META_NEXT_PAGE_ID_OFFSET as int,
                    repr_bytes(PageIdRepr::spec_from_optional(Some(value)), old(self).order),
                )
                &&& repr_at(
                    final(self).page.body(),
                    META_NEXT_PAGE_ID_OFFSET as int,
                    old(self).order,
                ) == PageIdRepr::spec_from_optional(Some(value))
            },
            res is Err ==> is_storage_error(res),
    {
        let repr = PageIdRepr::from_page_id(value);
        write_repr(&mut self.page, META_NEXT_PAGE_ID_OFFSET, repr, self.order)
    }
}

/// A page of the freelist: behind the byte of its kind it holds the id of
/// the next freelist page, if there is one, the length of its stack of free
/// pages, and the stack itself, one page id per slot.
pub struct FreelistPage<P> {
    pub page: P,
    pub order: ByteOrder,
}

/// The offset of the id of the next freelist page in a freelist page.
pub const FREELIST_NEXT_PAGE_ID_OFFSET: usize = 1;

/// The offset of the length of the stack in a freelist page.
pub const FREELIST_LENGTH_OFFSET: usize = 7;

/// The offset of the first slot in a freelist page.
pub const FREELIST_ITEMS_OFFSET: usize = 9;

/// The number of slots of a freelist page.
pub const NUM_SLOTS: usize = 2729;

/// The offset of the slot `index` of a freelist page, if the slot starts
/// within the page.
pub open spec fn slot_offset(index: int) -> Option<int> {
    if FREELIST_ITEMS_OFFSET + index * PAGE_ID_REPR_SIZE >= PAGE_BODY_SIZE {
        None
    } else {
        Some(FREELIST_ITEMS_OFFSET + index * PAGE_ID_REPR_SIZE)
    }
}

/// The length of the stack of the freelist page with the body `body`.
pub open spec fn length_at(body: Seq<u8>, order: ByteOrder) -> int {
    u16_of_bytes(
        body[FREELIST_LENGTH_OFFSET as int],
        body[FREELIST_LENGTH_OFFSET + 1],
        order,
    ) as int
}

/// The page id in the slot `index` of the freelist page with the body
/// `body`, if the slot lies in the page and names a page.
pub open spec fn item_at(body: Seq<u8>, index: int, order: ByteOrder) -> Option<PageId> {
    match slot_offset(index) {
        None => None,
        Some(offset) => repr_at(body, offset, order).spec_to_optional(),
    }
}

/// The body of a freelist page whose stack is given the length `length`.
pub open spec fn with_length(body: Seq<u8>, length: int, order: ByteOrder) -> Seq<u8> {
    patched(body, FREELIST_LENGTH_OFFSET as int, u16_bytes(length as u16, order))
}

/// The number of slots is what fits into a page behind the header of a
/// freelist page.
pub proof fn lemma_num_slots()
    ensures
        NUM_SLOTS == (PAGE_BODY_SIZE - FREELIST_ITEMS_OFFSET) / (PAGE_ID_REPR_SIZE as int),
        forall|index: int| 0 <= index < NUM_SLOTS ==> slot_offset(index) is Some,
        forall|index: int| slot_offset(index) is Some ==> index <= NUM_SLOTS,
{
}

impl<P> FreelistPage<P> {
    /// The freelist page in `page`, whose integers are in the given byte
    /// order. The page's kind is not checked.
    pub fn with_order(page: P, order: ByteOrder) -> (freelist: Self)
        ensures
            freelist.page == page,
            freelist.order == order,
    {
        Self { page, order }
    }

    /// The freelist page in `page`, whose integers are in the byte order of
    /// this machine. The page's kind is not checked.
    pub fn new_unchecked(page: P) -> (freelist: Self)
        ensures
            freelist.page == page,
    {
        Self { page, order: ByteOrder::native() }
    }

    /// The offset of the slot `index`, if the slot starts within the page.
    pub fn offset_for_index(index: usize) -> (offset: Option<usize>)
        ensures
            match offset {
                Some(o) => slot_offset(index as int) == Some(o as int),
                None => slot_offset(index as int) is None,
            },
    {
        if index >= PAGE_BODY_SIZE {
            return None;
        }
        let offset = FREELIST_ITEMS_OFFSET + index * PAGE_ID_REPR_SIZE;
        if offset >= PAGE_BODY_SIZE {
            return None;
        }
        Some(offset)
    }
}

impl<P: ReadPage> FreelistPage<P> {
    /// The freelist page in `page`, which must be marked as a freelist
    /// page.
    pub fn new(page: P) -> (res: Result<Self, DatabaseError>)
        ensures
            res matches Ok(freelist) ==> freelist.page == page && page.body().len() > 0
                && page.body()[0] == PageKind::FreelistBlock.byte(),
            !is_storage_error(res) ==> page.body().len() > 0 && (res is Ok <==> checked_page_kind(
                page.body()[0],
                PageKind::FreelistBlock,
            ) is Ok) && (res matches Err(error) ==> Err::<(), DatabaseError>(error)
                == checked_page_kind(page.body()[0], PageKind::FreelistBlock)),
    {
        match assert_page_kind(&page, PageKind::FreelistBlock) {
            Ok(()) => Ok(Self::new_unchecked(page)),
            Err(error) => Err(error),
        }
    }

    /// The id of the next freelist page, if there is one.
    pub fn get_next_page_id(&self) -> (res: Result<Option<PageId>, DatabaseError>)
        ensures
            res matches Ok(next) ==> {
                &&& FREELIST_NEXT_PAGE_ID_OFFSET + PAGE_ID_REPR_SIZE <= self.page.body().len()
                &&& next == repr_at(
                    self.page.body(),
                    FREELIST_NEXT_PAGE_ID_OFFSET as int,
                    self.order,
                ).spec_to_optional()
            },
            res is Err ==> is_storage_error(res),
    {
        match read_repr(&self.page, FREELIST_NEXT_PAGE_ID_OFFSET, self.order) {
            Ok(repr) => Ok(repr.to_optional()),
            Err(error) => Err(error),
        }
    }

    /// The length of the stack.
    pub fn get_length(&self) -> (res: Result<usize, DatabaseError>)
        ensures
            res matches Ok(length) ==> {
                &&& FREELIST_LENGTH_OFFSET + 2 <= self.page.body().len()
                &&& length == length_at(self.page.body(), self.order)
                &&& length <= u16::MAX
            },
            res is Err ==> is_storage_error(res),
    {
        let mut repr = [0u8; 2];
        match self.page.read(FREELIST_LENGTH_OFFSET, &mut repr) {
            Ok(()) => {},
            Err(error) => {
                return Err(DatabaseError::from_storage_error(error));
            },
        }
        Ok(self.order.decode_u16(repr[0], repr[1]) as usize)
    }

    /// Whether the stack takes every slot.
    pub fn is_full(&self) -> (res: Result<bool, DatabaseError>)
        ensures
            res matches Ok(full) ==> full == (length_at(self.page.body(), self.order)
                >= NUM_SLOTS),
            res is Err ==> is_storage_error(res),
    {
        match self.get_length() {
            Ok(length) => Ok(length >= NUM_SLOTS),
            Err(error) => Err(error),
        }
    }

    /// The page id in the slot `index`, if the slot lies in the page and
    /// names a page.
    pub fn get_item(&self, index: usize) -> (res: Result<Option<PageId>, DatabaseError>)
        ensures
            res matches Ok(item) ==> item == item_at(self.page.body(), index as int, self.order),
            res is Err ==> is_storage_error(res),
    {
        let Some(offset) = Self::offset_for_index(index) else {
            return Ok(None);
        };
        match read_repr(&self.page, offset, self.order) {
            Ok(repr) => Ok(repr.to_optional()),
            Err(error) => Err(error),
        }
    }
}

impl<P: WritePage> FreelistPage<P> {
    /// Makes the page the only page of an empty freelist.
    pub fn init(&mut self) -> (res: Result<(), DatabaseError>)
        ensures
            final(self).order == old(self).order,
            res is Ok ==> {
                &&& FREELIST_LENGTH_OFFSET + 2 <= old(self).page.body().len()
                &&& final(self).page.body() == with_length(
                    patched(
                        old(self).page.body().update(0, PageKind::FreelistBlock.byte()),
                        FREELIST_NEXT_PAGE_ID_OFFSET as int,
                        repr_bytes(PageIdRepr::spec_from_optional(None), old(self).order),
                    ),
                    0,
                    old(self).order,
                )
            },
            res is Err ==> is_storage_error(res),
    {
        match set_page_kind(&mut self.page, PageKind::FreelistBlock) {
            Ok(()) => {},
            Err(error) => {
                return Err(error);
            },
        }
        match self.set_next_page_id(None) {
            Ok(()) => {},
            Err(error) => {
                return Err(error);
            },
        }
        match self.set_length(0) {
            Ok(()) => {},
            Err(error) => {
                return Err(error);
            },
        }
        Ok(())
    }

    /// Stores the id of the next freelist page, or that there is none.
    pub fn set_next_page_id(&mut self, value: Option<PageId>) -> (res: Result<(), DatabaseError>)
        ensures
            final(self).order == old(self).order,
            res is Ok ==> {
                &&& FREELIST_NEXT_PAGE_ID_OFFSET + PAGE_ID_REPR_SIZE <= old(self).page.body().len()
                &&& final(self).page.body() == patched(
                    old(self).page.body(),
                    FREELIST_NEXT_PAGE_ID_OFFSET as int,
                    repr_bytes(PageIdRepr::spec_from_optional(value), old(self).order),
                )
            },
            res is Err ==> is_storage_error(res),
    {
        let repr = PageIdRepr::from_optional(value);
        write_repr(&mut self.page, FREELIST_NEXT_PAGE_ID_OFFSET, repr, self.order)
    }

    /// Stores the length of the stack.
    pub fn set_length(&mut self, value: usize) -> (res: Result<(), DatabaseError>)
        requires
            value <= u16::MAX,
        ensures
            final(self).order == old(self).order,
            res is Ok ==> {
                &&& FREELIST_LENGTH_OFFSET + 2 <= old(self).page.body().len()
                &&& final(self).page.body() == with_length(
                    old(self).page.body(),
                    value as int,
                    old(self).order,
                )
            },
            res is Err ==> is_storage_error(res),
    {
        let repr = self.order.encode_u16(value as u16);
        match self.page.write(FREELIST_LENGTH_OFFSET, &repr) {
            Ok(()) => Ok(()),
            Err(error) => Err(DatabaseError::from_storage_error(error)),
        }
    }

    /// Stores a page id, or that there is none, in the slot `index`. A slot
    /// that starts beyond the page is out of bounds.
    pub fn set_item(&mut self, index: usize, value: Option<PageId>) -> (res: Result<
        (),
        DatabaseError,
    >)
        ensures
            final(self).order == old(self).order,
            slot_offset(index as int) is None ==> res == Err::<(), DatabaseError>(
                DatabaseError::PageIndexOutOfBounds,
            ) && final(self).page.body() == old(self).page.body(),
            slot_offset(index as int) matches Some(offset) ==> {
                &&& res is Err ==> is_storage_error(res)
                &&& res is Ok ==> {
                    &&& offset + PAGE_ID_REPR_SIZE <= old(self).page.body().len()
                    &&& final(self).page.body() == patched(
                        old(self).page.body(),
                        offset,
                        repr_bytes(PageIdRepr::spec_from_optional(value), old(self).order),
                    )
                }
            },
    {
        let repr = PageIdRepr::from_optional(value);
        let Some(offset) = Self::offset_for_index(index) else {
            return Err(DatabaseError::PageIndexOutOfBounds);
        };
        write_repr(&mut self.page, offset, repr, self.order)
    }
}

impl<P: ReadPage + WritePage> FreelistPage<P> {
    /// Puts a page id on the stack: it is stored in the slot behind the
    /// stack, and the stack grows by one. A stack that has reached the end
    /// of the page cannot grow.
    pub fn push_item(&mut self, value: PageId) -> (res: Result<(), DatabaseError>)
        ensures
            final(self).order == old(self).order,
            res is Ok ==> {
                let length = length_at(old(self).page.body(), old(self).order);
                &&& slot_offset(length) is Some
                &&& final(self).page.body() == with_length(
                    patched(
                        old(self).page.body(),
                        slot_offset(length)->Some_0,
                        repr_bytes(PageIdRepr::spec_from_optional(Some(value)), old(self).order),
                    ),
                    length + 1,
                    old(self).order,
                )
            },
            res matches Err(DatabaseError::PageIndexOutOfBounds) ==> slot_offset(
                length_at(old(self).page.body(), old(self).order),
            ) is None && final(self).page.body() == old(self).page.body(),
            res is Err ==> is_storage_error(res) || res == Err::<(), DatabaseError>(
                DatabaseError::PageIndexOutOfBounds,
            ),
    {
        let index = match self.get_length() {
            Ok(index) => index,
            Err(error) => {
                return Err(error);
            },
        };
        match self.set_item(index, Some(value)) {
            Ok(()) => {},
            Err(error) => {
                return Err(error);
            },
        }
        self.set_length(index + 1)
    }

    /// Takes the page id off the top of the stack. Slots that name no page
    /// are skipped. With the page id that is returned, everything above it
    /// leaves the stack; a stack without a page id stays as it is.
    pub fn pop_item(&mut self) -> (res: Result<Option<PageId>, DatabaseError>)
        ensures
            final(self).order == old(self).order,
            res matches Ok(Some(item)) ==> {
                let body = old(self).page.body();
                let order = old(self).order;
                exists|index: int|
                    {
                        &&& 0 <= index < length_at(body, order)
                        &&& item_at(body, index, order) == Some(item)
                        &&& forall|above: int|
                            index < above < length_at(body, order) ==> (#[trigger] item_at(
                                body,
                                above,
                                order,
                            )) is None
                        &&& final(self).page.body() == with_length(body, index, order)
                    }
            },
            res matches Ok(None) ==> {
                &&& final(self).page.body() == old(self).page.body()
                &&& forall|index: int|
                    0 <= index < length_at(old(self).page.body(), old(self).order) ==> (
                    #[trigger] item_at(old(self).page.body(), index, old(self).order)) is None
            },
            res is Err ==> is_storage_error(res),
    {
        let mut index = match self.get_length() {
            Ok(index) => index,
            Err(error) => {
                return Err(error);
            },
        };
        let ghost body = self.page.body();
        let ghost order = self.order;
        while index > 0
            invariant
                index <= length_at(body, order) <= u16::MAX,
                self.page.body() == body,
                self.order == order,
                body == old(self).page.body(),
                order == old(self).order,
                forall|above: int|
                    index <= above < length_at(body, order) ==> (#[trigger] item_at(
                        body,
                        above,
                        order,
                    )) is None,
            decreases index,
        {
            index -= 1;
            let found = match self.get_item(index) {
                Ok(found) => found,
                Err(error) => {
                    return Err(error);
                },
            };
            if let Some(item) = found {
                match self.set_length(index) {
                    Ok(()) => {},
                    Err(error) => {
                        return Err(error);
                    },
                }
                return Ok(Some(item));
            }
        }
        Ok(None)
    }
}

/// Whether the number is a power of two.
pub open spec fn is_power_of_two(n: int) -> bool
    decreases n,
{
    n == 1 || (n > 1 && n % 2 == 0 && is_power_of_two(n / 2))
}

/// The smallest power of two that is not below `n`.
pub fn next_power_of_two(n: usize) -> (power: usize)
    requires
        n <= usize::MAX / 2 + 1,
    ensures
        is_power_of_two(power as int),
        power >= n,
        n <= 1 ==> power == 1,
        n > 1 ==> power < 2 * n,
{
    let mut power: usize = 1;
    while power < n
        invariant
            is_power_of_two(power as int),
            n <= usize::MAX / 2 + 1,
            power >= 1,
            power == 1 || power < 2 * n,
        decreases
                if power < n {
                    n - power
                } else {
                    0
                },
    {
        proof {
            assert(is_power_of_two(2 * power)) by {
                assert((2 * power) / 2 == power);
            }
        }
        power = power * 2;
    }
    power
}

/// The size of a leaf block of a block page, in bytes.
pub const LEAF_BLOCK_SIZE: usize = 32;

/// The bits of a block index that hold the degree of the block.
pub const DEGREE_MASK: u16 = 63;

/// The largest degree whose blocks can be counted: a block of the degree
/// `d` holds `2^d` leaf blocks.
pub const MAX_BLOCK_DEGREE: u16 = 58;

/// A page of records: behind the byte of its kind it holds a tree that
/// says which of its blocks are taken, and the blocks.
pub struct BlockPage<P> {
    pub page: P,
}

impl<P> BlockPage<P> {
    /// The number of bytes of the tree that says which blocks are taken,
    /// for a body of `body_size` bytes in leaf blocks of `leaf_block_size`
    /// bytes: one bit for each node of a binary tree over the leaves, the
    /// layer above the leaves being filled up to a power of two.
    pub fn get_alloc_tree_size(body_size: usize, leaf_block_size: usize) -> (size: usize)
        requires
            leaf_block_size > 0,
            body_size / leaf_block_size <= usize::MAX / 4,
        ensures
            exists|power: int|
                {
                    let leaves = (body_size / leaf_block_size) as int;
                    &&& #[trigger] is_power_of_two(power)
                    &&& power >= leaves
                    &&& (leaves <= 1 ==> power == 1)
                    &&& (leaves > 1 ==> power < 2 * leaves)
                    &&& size == (power + leaves - 1 + 7) / 8
                },
    {
        let preemptive_num_leaves = body_size / leaf_block_size;
        let power = next_power_of_two(preemptive_num_leaves);
        let preemptive_num_nodes = power + preemptive_num_leaves - 1;
        (preemptive_num_nodes + 7) / 8
    }

    /// The block page in `page`. The page's kind is not checked.
    pub fn new_unchecked(page: P) -> (block: Self)
        ensures
            block.page == page,
    {
        Self { page }
    }

    /// The position and the degree of the block with the given index: the
    /// low bits of the index are the degree, and the position counts the
    /// blocks of that degree before the block.
    pub fn get_block_pos(index: u16) -> (pos: (usize, usize))
        requires
            index & DEGREE_MASK <= MAX_BLOCK_DEGREE,
        ensures
            pos.1 == index & DEGREE_MASK,
            pos.0 == (index as u64) / (32u64 << ((index & DEGREE_MASK) as u64)),
    {
        let block_degree = index & DEGREE_MASK;
        let degree = block_degree as u64;
        proof {
            assert(degree <= 58 ==> (32u64 << degree) != 0) by (bit_vector);
        }
        let block_size: u64 = 32u64 << degree;
        let block_pos = index as u64 / block_size;
        (block_pos as usize, block_degree as usize)
    }
}

} // verus!
