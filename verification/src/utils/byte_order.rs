//! The order of the bytes of an integer in a file.

use vstd::prelude::*;

verus! {

/// The order in which the bytes of an integer are stored.
#[derive(Debug, Clone, Copy, PartialEq, Eq, Structural)]
pub enum ByteOrder {
    /// The least significant byte comes first.
    LittleEndian,
    /// The most significant byte comes first.
    BigEndian,
}

/// The two bytes of `value` in the given order.
pub open spec fn u16_bytes(value: u16, order: ByteOrder) -> Seq<u8> {
    let low = (value % 256) as u8;
    let high = (value / 256) as u8;
    match order {
        ByteOrder::LittleEndian => seq![low, high],
        ByteOrder::BigEndian => seq![high, low],
    }
}

/// The integer whose two bytes in the given order are `first` and `second`.
pub open spec fn u16_of_bytes(first: u8, second: u8, order: ByteOrder) -> u16 {
    match order {
        ByteOrder::LittleEndian => (first + second * 256) as u16,
        ByteOrder::BigEndian => (second + first * 256) as u16,
    }
}

/// The four bytes of `value` in the given order.
pub open spec fn u32_bytes(value: u32, order: ByteOrder) -> Seq<u8> {
    let b0 = (value % 256) as u8;
    let b1 = ((value / 256) % 256) as u8;
    let b2 = ((value / 65536) % 256) as u8;
    let b3 = (value / 16777216) as u8;
    match order {
        ByteOrder::LittleEndian => seq![b0, b1, b2, b3],
        ByteOrder::BigEndian => seq![b3, b2, b1, b0],
    }
}

/// The integer whose four bytes in the given order are `bytes`.
pub open spec fn u32_of_bytes(bytes: Seq<u8>, order: ByteOrder) -> u32 {
    match order {
        ByteOrder::LittleEndian => (bytes[0] + bytes[1] * 256 + bytes[2] * 65536 + bytes[3]
            * 16777216) as u32,
        ByteOrder::BigEndian => (bytes[3] + bytes[2] * 256 + bytes[1] * 65536 + bytes[0]
            * 16777216) as u32,
    }
}

/// An integer is read back from its bytes as it was.
pub proof fn lemma_u16_roundtrip(value: u16, order: ByteOrder)
    ensures
        u16_bytes(value, order).len() == 2,
        u16_of_bytes(u16_bytes(value, order)[0], u16_bytes(value, order)[1], order) == value,
{
}

/// An integer is read back from its bytes as it was.
pub proof fn lemma_u32_roundtrip(value: u32, order: ByteOrder)
    ensures
        u32_bytes(value, order).len() == 4,
        u32_of_bytes(u32_bytes(value, order), order) == value,
{
}

/// What this machine makes of the bytes one and zero, read as an integer in
/// its own byte order: one on a little-endian machine, 256 on a big-endian
/// one.
///
/// Calls `u16::from_ne_bytes`, which reads the bytes in the order of the
/// machine. The contract claims only that one of the two orders is at work.
#[verifier::external_body]
fn native_probe() -> (probe: u16)
    ensures
        probe == 1 || probe == 256,
{
    u16::from_ne_bytes([1, 0])
}

impl ByteOrder {
    /// The byte order of a machine that reads the bytes one and zero as
    /// the integer `probe`: little endian where that is one, big endian
    /// where it is anything else.
    pub fn of_probe(probe: u16) -> (order: Self)
        ensures
            order == if probe == 1 {
                ByteOrder::LittleEndian
            } else {
                ByteOrder::BigEndian
            },
    {
        if probe == 1 {
            ByteOrder::LittleEndian
        } else {
            ByteOrder::BigEndian
        }
    }

    /// The byte order of this machine. Which of the two it is depends on
    /// the machine alone; see [`ByteOrder::of_probe`] for how it is told.
    pub fn native() -> (order: Self) {
        Self::of_probe(native_probe())
    }

    /// The byte that stands for the order in a file header.
    pub open spec fn byte(self) -> u8 {
        match self {
            ByteOrder::LittleEndian => 0,
            ByteOrder::BigEndian => 1,
        }
    }

    /// The order that a byte of a file header stands for: zero for little
    /// endian, one for big endian, nothing else.
    pub open spec fn of_byte(byte: u8) -> Option<Self> {
        if byte == 0 {
            Some(ByteOrder::LittleEndian)
        } else if byte == 1 {
            Some(ByteOrder::BigEndian)
        } else {
            None
        }
    }

    /// The order that a byte of a file header stands for.
    pub fn from_byte(byte: u8) -> (order: Option<Self>)
        ensures
            order == ByteOrder::of_byte(byte),
    {
        match byte {
            0 => Some(ByteOrder::LittleEndian),
            1 => Some(ByteOrder::BigEndian),
            _ => None,
        }
    }

    /// The byte that stands for the order in a file header.
    pub fn to_byte(self) -> (byte: u8)
        ensures
            byte == self.byte(),
            ByteOrder::of_byte(byte) == Some(self),
    {
        match self {
            ByteOrder::LittleEndian => 0,
            ByteOrder::BigEndian => 1,
        }
    }

    /// The two bytes of `value` in this order.
    pub fn encode_u16(self, value: u16) -> (bytes: [u8; 2])
        ensures
            bytes@ == u16_bytes(value, self),
    {
        let low = (value % 256) as u8;
        let high = (value / 256) as u8;
        let bytes = match self {
            ByteOrder::LittleEndian => [low, high],
            ByteOrder::BigEndian => [high, low],
        };
        proof {
            assert(bytes@ =~= u16_bytes(value, self));
        }
        bytes
    }

    /// The integer whose two bytes in this order are `first` and `second`.
    pub fn decode_u16(self, first: u8, second: u8) -> (value: u16)
        ensures
            value == u16_of_bytes(first, second, self),
    {
        match self {
            ByteOrder::LittleEndian => first as u16 + second as u16 * 256,
            ByteOrder::BigEndian => second as u16 + first as u16 * 256,
        }
    }

    /// The four bytes of `value` in this order.
    pub fn encode_u32(self, value: u32) -> (bytes: [u8; 4])
        ensures
            bytes@ == u32_bytes(value, self),
    {
        let b0 = (value % 256) as u8;
        let b1 = ((value / 256) % 256) as u8;
        let b2 = ((value / 65536) % 256) as u8;
        let b3 = (value / 16777216) as u8;
        let bytes = match self {
            ByteOrder::LittleEndian => [b0, b1, b2, b3],
            ByteOrder::BigEndian => [b3, b2, b1, b0],
        };
        proof {
            assert(bytes@ =~= u32_bytes(value, self));
        }
        bytes
    }

    /// The integer whose four bytes in this order are `bytes`.
    pub fn decode_u32(self, bytes: [u8; 4]) -> (value: u32)
        ensures
            value == u32_of_bytes(bytes@, self),
    {
        match self {
            ByteOrder::LittleEndian => bytes[0] as u32 + bytes[1] as u32 * 256 + bytes[2] as u32
                * 65536 + bytes[3] as u32 * 16777216,
            ByteOrder::BigEndian => bytes[3] as u32 + bytes[2] as u32 * 256 + bytes[1] as u32
                * 65536 + bytes[0] as u32 * 16777216,
        }
    }
}

} // verus!
