//! Identifiers of pages and of records inside pages.

use vstd::prelude::*;
use crate::utils::byte_order::{
    lemma_u16_roundtrip, lemma_u32_roundtrip, u16_bytes, u16_of_bytes, u32_bytes, u32_of_bytes,
    ByteOrder,
};

verus! {

/// Identifies a page by the segment that holds it and its number in that
/// segment.
#[derive(Debug, Clone, Copy, PartialEq, Eq, Structural, Hash)]
pub struct PageId {
    pub segment_num: u32,
    pub page_num: u16,
}

/// The number of bytes that a page id takes in a file.
pub const PAGE_ID_SIZE: usize = 8;

/// The bytes of a page id in a file: the segment number in four bytes, the
/// page number in two, and two bytes of padding that are zero.
pub open spec fn page_id_bytes(id: PageId, order: ByteOrder) -> Seq<u8> {
    u32_bytes(id.segment_num, order) + u16_bytes(id.page_num, order) + seq![0u8, 0u8]
}

/// The page id that the first eight of the given bytes hold. The padding is
/// not looked at.
pub open spec fn page_id_of_bytes(bytes: Seq<u8>, order: ByteOrder) -> PageId {
    PageId {
        segment_num: u32_of_bytes(bytes.subrange(0, 4), order),
        page_num: u16_of_bytes(bytes[4], bytes[5], order),
    }
}

/// A page id is read back from its bytes as it was, whatever follows them.
pub proof fn lemma_page_id_roundtrip(id: PageId, order: ByteOrder, rest: Seq<u8>)
    ensures
        page_id_bytes(id, order).len() == PAGE_ID_SIZE,
        page_id_of_bytes(page_id_bytes(id, order) + rest, order) == id,
{
    lemma_u32_roundtrip(id.segment_num, order);
    lemma_u16_roundtrip(id.page_num, order);
    let bytes = page_id_bytes(id, order) + rest;
    assert(bytes.subrange(0, 4) =~= u32_bytes(id.segment_num, order));
    assert(bytes[4] == u16_bytes(id.page_num, order)[0]);
    assert(bytes[5] == u16_bytes(id.page_num, order)[1]);
}

/// The hexadecimal digit of a number below sixteen, in lower case.
pub open spec fn hex_char(digit: int) -> char {
    seq!['0', '1', '2', '3', '4', '5', '6', '7', '8', '9', 'a', 'b', 'c', 'd', 'e', 'f'][digit]
}

/// The last `width` hexadecimal digits of a number, the most significant
/// first, with zeros in front of a number that has fewer.
pub open spec fn hex_digits(value: int, width: nat) -> Seq<char>
    decreases width,
{
    if width == 0 {
        Seq::empty()
    } else {
        hex_digits(value / 16, (width - 1) as nat).push(hex_char(value % 16))
    }
}

/// A page id in words: the segment number in eight hexadecimal digits, a
/// colon, and the page number in four.
pub open spec fn page_id_text(segment_num: u32, page_num: u16) -> Seq<char> {
    hex_digits(segment_num as int, 8) + seq![':'] + hex_digits(page_num as int, 4)
}

/// A storage index in words: the page id in words, a colon, and the index
/// in four hexadecimal digits.
pub open spec fn storage_index_text(segment_num: u32, page_num: u16, index: u16) -> Seq<char> {
    page_id_text(segment_num, page_num) + seq![':'] + hex_digits(index as int, 4)
}

/// A page id in words.
///
/// Calls `format!` of the standard library with `{:08x}` and `{:04x}`,
/// which print a number in lower-case hexadecimal digits and put zeros in
/// front up to the width: a 32-bit number has eight such digits at most and
/// a 16-bit number four, so the widths are met exactly. The contract claims
/// that the text is made of these digits with the colon between.
#[verifier::external_body]
fn format_page_id(segment_num: u32, page_num: u16) -> (text: String)
    ensures
        text@ == page_id_text(segment_num, page_num),
{
    format!("{:08x}:{:04x}", segment_num, page_num)
}

/// A storage index in words, behind the words of its page id.
///
/// Calls `format!` of the standard library with `{}` for the text that it
/// is given and `{:04x}` for the index, which prints the four lower-case
/// hexadecimal digits of a 16-bit number. The contract claims that the text
/// is the given one, a colon and these digits.
#[verifier::external_body]
fn format_storage_index(page_id: String, index: u16) -> (text: String)
    ensures
        text@ == page_id@ + seq![':'] + hex_digits(index as int, 4),
{
    format!("{}:{:04x}", page_id, index)
}

impl PageId {
    /// The id of the page `page_num` of the segment `segment_num`.
    #[inline]
    pub fn new(segment_num: u32, page_num: u16) -> (id: Self)
        ensures
            id.segment_num == segment_num,
            id.page_num == page_num,
    {
        Self { segment_num, page_num }
    }

    /// The bytes of the page id in the given byte order.
    pub fn to_bytes(&self, order: ByteOrder) -> (bytes: [u8; 8])
        ensures
            bytes@ == page_id_bytes(*self, order),
    {
        let segment = order.encode_u32(self.segment_num);
        let page = order.encode_u16(self.page_num);
        let bytes = [segment[0], segment[1], segment[2], segment[3], page[0], page[1], 0, 0];
        proof {
            assert(bytes@ =~= page_id_bytes(*self, order));
        }
        bytes
    }

    /// The bytes of the page id in the byte order of this machine.
    pub fn as_bytes(&self) -> (bytes: [u8; 8])
        ensures
            bytes@ == page_id_bytes(*self, ByteOrder::LittleEndian) || bytes@ == page_id_bytes(
                *self,
                ByteOrder::BigEndian,
            ),
    {
        self.to_bytes(ByteOrder::native())
    }

    /// The page id that the first eight of the given bytes hold.
    pub fn from_bytes(bytes: &[u8], order: ByteOrder) -> (id: Self)
        requires
            bytes@.len() >= PAGE_ID_SIZE,
        ensures
            id == page_id_of_bytes(bytes@, order),
    {
        let segment = [bytes[0], bytes[1], bytes[2], bytes[3]];
        proof {
            assert(segment@ =~= bytes@.subrange(0, 4));
        }
        Self {
            segment_num: order.decode_u32(segment),
            page_num: order.decode_u16(bytes[4], bytes[5]),
        }
    }

    /// The page id in words.
    pub fn to_text(&self) -> (text: String)
        ensures
            text@ == page_id_text(self.segment_num, self.page_num),
    {
        format_page_id(self.segment_num, self.page_num)
    }
}

/// Identifies a record by the page that holds it and its index in that page.
#[derive(Debug, Clone, Copy, PartialEq, Eq, Structural, Hash)]
pub struct StorageIndex {
    pub segment_num: u32,
    pub page_num: u16,
    pub index: u16,
}

impl StorageIndex {
    /// The index of the record `index` of the page `page_id`.
    #[inline]
    pub fn new(page_id: PageId, index: u16) -> (storage_index: Self)
        ensures
            storage_index.segment_num == page_id.segment_num,
            storage_index.page_num == page_id.page_num,
            storage_index.index == index,
            storage_index.spec_page_id() == page_id,
    {
        Self { segment_num: page_id.segment_num, page_num: page_id.page_num, index }
    }

    /// The id of the page that holds the record.
    pub open spec fn spec_page_id(self) -> PageId {
        PageId { segment_num: self.segment_num, page_num: self.page_num }
    }

    /// The id of the page that holds the record.
    #[inline]
    pub fn page_id(self) -> (id: PageId)
        ensures
            id == self.spec_page_id(),
    {
        PageId::new(self.segment_num, self.page_num)
    }

    /// The storage index in words.
    pub fn to_text(&self) -> (text: String)
        ensures
            text@ == storage_index_text(self.segment_num, self.page_num, self.index),
    {
        format_storage_index(self.page_id().to_text(), self.index)
    }
}

} // verus!
