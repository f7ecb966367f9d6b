//! The freelist page: a stack of the numbers of pages that are free, and
//! the number of the next freelist page.

use vstd::prelude::*;
use crate::format::Error;
use crate::segment::PageNumber;
use crate::utils::byte_order::{u32_bytes, u32_of_bytes, ByteOrder};

verus! {

/// The number of bytes before the slots of a freelist page: the number of
/// the next freelist page and the length of the stack.
pub const HEADER_SIZE: usize = 8;

/// The number of bytes of a slot.
pub const ITEM_SIZE: usize = 4;

/// A freelist page. The first `length` slots hold the stack, with its top
/// at the end.
#[derive(Debug, PartialEq, Eq)]
pub struct FreelistPage {
    pub next: Option<PageNumber>,
    pub length: u32,
    pub pages: Vec<Option<PageNumber>>,
}

/// The number that stands for an optional page number in a file: zero for
/// none.
pub open spec fn slot_value(slot: Option<PageNumber>) -> u32 {
    match slot {
        Some(number) => number.value(),
        None => 0,
    }
}

/// The numbers that stand for some slots in a file.
pub open spec fn slot_values(slots: Seq<Option<PageNumber>>) -> Seq<u32> {
    Seq::new(slots.len(), |i: int| slot_value(slots[i]))
}

/// The bytes of some slots in a file.
pub open spec fn slots_bytes(values: Seq<u32>, order: ByteOrder) -> Seq<u8>
    decreases values.len(),
{
    if values.len() == 0 {
        Seq::empty()
    } else {
        slots_bytes(values.drop_last(), order) + u32_bytes(values.last(), order)
    }
}

/// The number that the four bytes from `offset` on stand for.
pub open spec fn u32_at(bytes: Seq<u8>, offset: int, order: ByteOrder) -> u32 {
    u32_of_bytes(bytes.subrange(offset, offset + 4), order)
}

/// How many slots a page of `len` bytes holds: as many as fit behind the
/// header.
pub open spec fn num_slots(len: int) -> int {
    (len - HEADER_SIZE) / (ITEM_SIZE as int)
}

/// The page `page` is what the bytes `bytes` hold in the given byte order:
/// the next page in the first four bytes, the length of the stack in the
/// next four, and then the slots, as many as fit.
pub open spec fn holds(page: FreelistPage, bytes: Seq<u8>, order: ByteOrder) -> bool {
    &&& slot_value(page.next) == u32_at(bytes, 0, order)
    &&& page.length == u32_at(bytes, 4, order)
    &&& page.pages@.len() == num_slots(bytes.len() as int)
    &&& forall|i: int|
        0 <= i < page.pages@.len() ==> slot_value(#[trigger] page.pages@[i]) == u32_at(
            bytes,
            HEADER_SIZE + i * ITEM_SIZE,
            order,
        )
}

/// The bytes of a freelist page in the given byte order: the next page,
/// the length and the slots.
pub open spec fn page_bytes(page: FreelistPage, order: ByteOrder) -> Seq<u8> {
    u32_bytes(slot_value(page.next), order) + u32_bytes(page.length, order) + slots_bytes(
        slot_values(page.pages@),
        order,
    )
}

impl FreelistPage {
    /// The stack is not longer than the page has slots, and the slots can
    /// be counted in the page's length field.
    pub open spec fn wf(&self) -> bool {
        self.length <= self.pages@.len() <= u32::MAX
    }

    /// The page that the given bytes hold.
    pub fn from_bytes(bytes: &[u8], order: ByteOrder) -> (page: Self)
        requires
            bytes@.len() >= HEADER_SIZE,
        ensures
            holds(page, bytes@, order),
    {
        let next = PageNumber::new(read_u32(bytes, 0, order));
        let length = read_u32(bytes, 4, order);
        let len = bytes.len();
        let count = (len - 8) / 4;
        let mut pages: Vec<Option<PageNumber>> = Vec::new();
        let mut i: usize = 0;
        while i < count
            invariant
                i <= count,
                count == num_slots(bytes@.len() as int),
                len == bytes@.len(),
                8 + count * 4 <= len,
                pages@.len() == i,
                forall|k: int|
                    0 <= k < i ==> slot_value(#[trigger] pages@[k]) == u32_at(
                        bytes@,
                        HEADER_SIZE + k * ITEM_SIZE,
                        order,
                    ),
            decreases count - i,
        {
            pages.push(PageNumber::new(read_u32(bytes, 8 + i * 4, order)));
            i += 1;
        }
        Self { next, length, pages }
    }

    /// The page that the given bytes hold, read in the byte order of this
    /// machine.
    pub fn new(bytes: &[u8]) -> (page: Self)
        requires
            bytes@.len() >= HEADER_SIZE,
        ensures
            holds(page, bytes@, ByteOrder::LittleEndian) || holds(
                page,
                bytes@,
                ByteOrder::BigEndian,
            ),
    {
        Self::from_bytes(bytes, ByteOrder::native())
    }

    /// The bytes of the page: the next page, the length and the slots.
    pub fn to_bytes(&self, order: ByteOrder) -> (bytes: Vec<u8>)
        ensures
            bytes@ == page_bytes(*self, order),
    {
        let mut bytes: Vec<u8> = Vec::new();
        append_u32(&mut bytes, slot_number(self.next), order);
        append_u32(&mut bytes, self.length, order);
        let ghost head = bytes@;
        let ghost values = slot_values(self.pages@);
        let mut i: usize = 0;
        proof {
            assert(slots_bytes(values.take(0), order) =~= Seq::empty());
            assert(bytes@ =~= head + slots_bytes(values.take(0), order));
        }
        while i < self.pages.len()
            invariant
                i <= self.pages@.len(),
                values == slot_values(self.pages@),
                bytes@ == head + slots_bytes(values.take(i as int), order),
            decreases self.pages@.len() - i,
        {
            append_u32(&mut bytes, slot_number(self.pages[i]), order);
            proof {
                assert(values.take(i + 1).drop_last() =~= values.take(i as int));
                assert(values.take(i + 1).last() == slot_value(self.pages@[i as int]));
                assert(bytes@ =~= head + slots_bytes(values.take(i + 1), order));
            }
            i += 1;
        }
        proof {
            assert(values.take(values.len() as int) == values);
        }
        bytes
    }

    /// The bytes of the page in the byte order of this machine.
    pub fn as_bytes(&self) -> (bytes: Vec<u8>)
        ensures
            bytes@ == page_bytes(*self, ByteOrder::LittleEndian) || bytes@ == page_bytes(
                *self,
                ByteOrder::BigEndian,
            ),
    {
        self.to_bytes(ByteOrder::native())
    }

    /// Whether every slot is taken.
    #[inline]
    pub fn is_full(&self) -> (full: bool)
        ensures
            full == (self.length == self.pages@.len()),
    {
        self.length as usize == self.pages.len()
    }

    /// Whether the stack is empty.
    #[inline]
    pub fn is_empty(&self) -> (empty: bool)
        ensures
            empty == (self.length == 0),
    {
        self.length == 0
    }

    /// Puts a page number on the stack, unless the page is full; says
    /// whether it did.
    pub fn push_page(&mut self, page_number: PageNumber) -> (pushed: bool)
        requires
            old(self).wf(),
        ensures
            final(self).wf(),
            final(self).next == old(self).next,
            pushed == (old(self).length < old(self).pages@.len()),
            pushed ==> {
                &&& final(self).length == old(self).length + 1
                &&& final(self).pages@ == old(self).pages@.update(
                    old(self).length as int,
                    Some(page_number),
                )
            },
            !pushed ==> final(self).length == old(self).length && final(self).pages@ == old(self).pages@,
    {
        if self.is_full() {
            return false;
        }
        self.pages.set(self.length as usize, Some(page_number));
        self.length += 1;
        true
    }

    /// Takes the page number off the top of the stack. An empty stack gives
    /// `None`. A top slot that holds no page number is the mark of a
    /// corrupted page, which stays as it is.
    pub fn pop_page(&mut self) -> (popped: Result<Option<PageNumber>, Error>)
        requires
            old(self).wf(),
        ensures
            final(self).wf(),
            final(self).next == old(self).next,
            final(self).pages@ == old(self).pages@,
            popped == if old(self).length == 0 {
                Ok::<Option<PageNumber>, Error>(None)
            } else {
                match old(self).pages@[old(self).length - 1] {
                    Some(page) => Ok(Some(page)),
                    None => Err(Error::Corrupted),
                }
            },
            final(self).length == if popped matches Ok(Some(_)) {
                (old(self).length - 1) as u32
            } else {
                old(self).length
            },
    {
        if self.is_empty() {
            return Ok(None);
        }
        let Some(page) = self.pages[self.length as usize - 1] else {
            return Err(Error::Corrupted);
        };
        self.length -= 1;
        Ok(Some(page))
    }
}

/// The slots take four bytes each, so that a page takes as many bytes as
/// its header and its slots make up.
pub proof fn lemma_page_bytes_len(page: FreelistPage, order: ByteOrder)
    ensures
        page_bytes(page, order).len() == HEADER_SIZE + ITEM_SIZE * page.pages@.len(),
{
    lemma_slots_bytes_len(slot_values(page.pages@), order);
}

proof fn lemma_slots_bytes_len(values: Seq<u32>, order: ByteOrder)
    ensures
        slots_bytes(values, order).len() == 4 * values.len(),
    decreases values.len(),
{
    if values.len() > 0 {
        lemma_slots_bytes_len(values.drop_last(), order);
    }
}

/// The number that stands for an optional page number in a file.
pub fn slot_number(slot: Option<PageNumber>) -> (value: u32)
    ensures
        value == slot_value(slot),
{
    match slot {
        Some(number) => number.get(),
        None => 0,
    }
}

/// The number that the four bytes from `offset` on stand for.
pub fn read_u32(bytes: &[u8], offset: usize, order: ByteOrder) -> (value: u32)
    requires
        offset + 4 <= bytes@.len(),
    ensures
        value == u32_at(bytes@, offset as int, order),
{
    let part = [bytes[offset], bytes[offset + 1], bytes[offset + 2], bytes[offset + 3]];
    proof {
        assert(part@ =~= bytes@.subrange(offset as int, offset + 4));
    }
    order.decode_u32(part)
}

/// Appends the four bytes of a number.
pub fn append_u32(bytes: &mut Vec<u8>, value: u32, order: ByteOrder)
    ensures
        final(bytes)@ == old(bytes)@ + u32_bytes(value, order),
{
    let part = order.encode_u32(value);
    bytes.push(part[0]);
    bytes.push(part[1]);
    bytes.push(part[2]);
    bytes.push(part[3]);
    proof {
        assert(bytes@ =~= old(bytes)@ + u32_bytes(value, order));
    }
}

} // verus!
