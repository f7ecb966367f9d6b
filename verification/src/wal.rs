//! A plain write-ahead log in one file: a header, then the pages that were
//! committed, each behind its page id. Writes are gathered in memory and
//! reach the file when they are committed.

use vstd::prelude::*;
use crate::files::FileError;
use crate::index::{lemma_page_id_roundtrip, page_id_bytes, page_id_of_bytes, PAGE_ID_SIZE, PageId};
use crate::utils::byte_order::{lemma_u16_roundtrip, u16_bytes, u16_of_bytes, ByteOrder};

verus! {

/// The number of bytes of the header of a log file, which is also the
/// offset at which the log starts in a file that was initialised here.
pub const WAL_HEADER_SIZE: usize = 10;

/// The four bytes that every log file starts with: the letters `ACNL`.
pub open spec fn wal_magic() -> Seq<u8> {
    seq![65u8, 67u8, 78u8, 76u8]
}

/// Why a log file could not be initialised.
#[derive(Debug, Clone, Copy, PartialEq, Eq, Structural)]
pub enum InitError {
    /// The file could not be written.
    Io(FileError),
}

/// Why a log file could not be loaded.
#[derive(Debug, Clone, Copy, PartialEq, Eq, Structural)]
pub enum LoadError {
    /// The file does not start with the magic bytes of a log file.
    NotAWalFile,
    /// The header holds a byte order that does not exist.
    Corrupted,
    /// The pages of the file have another size than the engine's: the size
    /// that was found comes first, the size that was expected second.
    PageSizeMismatch(u16, u16),
    /// The file was written in a byte order that is not this machine's; the
    /// order of the file is given.
    ByteOrderMismatch(ByteOrder),
    /// The file could not be read.
    Io(FileError),
}

impl LoadError {
    /// The error in words. A mismatch is named without the values that do
    /// not match; an unreadable file gives the words of its file error.
    pub open spec fn text(self) -> Seq<char> {
        match self {
            LoadError::NotAWalFile => "This file is not an acorn WAL file"@,
            LoadError::Corrupted => "The WAL file is corrupted"@,
            LoadError::PageSizeMismatch(_, _) => "Page size mismatch"@,
            LoadError::ByteOrderMismatch(_) => "Byte order mismatch"@,
            LoadError::Io(error) => error.text(),
        }
    }

    /// The error in words.
    pub fn message(&self) -> (text: String)
        ensures
            text@ == self.text(),
    {
        match self {
            LoadError::NotAWalFile => "This file is not an acorn WAL file".to_owned(),
            LoadError::Corrupted => "The WAL file is corrupted".to_owned(),
            LoadError::PageSizeMismatch(_, _) => "Page size mismatch".to_owned(),
            LoadError::ByteOrderMismatch(_) => "Byte order mismatch".to_owned(),
            LoadError::Io(error) => error.message(),
        }
    }
}

/// What a log file is initialised with.
#[derive(Debug, Clone, Copy, PartialEq, Eq, Structural)]
pub struct InitParams {
    pub page_size: u16,
}

/// What a log file is expected to hold when it is loaded.
#[derive(Debug, Clone, Copy, PartialEq, Eq, Structural)]
pub struct LoadParams {
    pub page_size: u16,
}

/// The bytes of the header of a log file with pages of `page_size` bytes,
/// written in the given byte order: the magic bytes, the offset at which the
/// log starts, the page size, the byte that stands for the byte order, and
/// one byte of padding that is zero.
pub open spec fn header_bytes(page_size: u16, order: ByteOrder) -> Seq<u8> {
    wal_magic() + u16_bytes(WAL_HEADER_SIZE as u16, order) + u16_bytes(page_size, order)
        + seq![order.byte(), 0u8]
}

/// What loading makes of a file that holds `bytes`, on a machine with the
/// byte order `native` and an engine with pages of `page_size` bytes: the
/// offset at which the log starts, or the reason why the file is turned
/// down. A file that is too short for a header counts as unreadable.
pub open spec fn checked_header(bytes: Seq<u8>, page_size: u16, native: ByteOrder) -> Result<
    u16,
    LoadError,
> {
    if bytes.len() < WAL_HEADER_SIZE {
        Err(LoadError::Io(FileError::UnexpectedEof))
    } else if bytes.subrange(0, 4) != wal_magic() {
        Err(LoadError::NotAWalFile)
    } else {
        match ByteOrder::of_byte(bytes[8]) {
            None => Err(LoadError::Corrupted),
            Some(order) => if order != native {
                Err(LoadError::ByteOrderMismatch(order))
            } else if u16_of_bytes(bytes[6], bytes[7], native) != page_size {
                Err(
                    LoadError::PageSizeMismatch(
                        u16_of_bytes(bytes[6], bytes[7], native),
                        page_size,
                    ),
                )
            } else {
                Ok(u16_of_bytes(bytes[4], bytes[5], native))
            },
        }
    }
}

/// `bytes` with `patch` written over them from the start on; where the
/// patch is longer, the result is too.
pub open spec fn overwritten(bytes: Seq<u8>, patch: Seq<u8>) -> Seq<u8> {
    if patch.len() >= bytes.len() {
        patch
    } else {
        patch + bytes.skip(patch.len() as int)
    }
}

/// A header that was written for a page size and a byte order is accepted
/// for that page size on a machine of that byte order, whatever follows it
/// in the file, and the log starts right behind it.
pub proof fn lemma_header_roundtrip(page_size: u16, order: ByteOrder, rest: Seq<u8>)
    ensures
        header_bytes(page_size, order).len() == WAL_HEADER_SIZE,
        checked_header(header_bytes(page_size, order) + rest, page_size, order) == Ok::<
            u16,
            LoadError,
        >(WAL_HEADER_SIZE as u16),
{
    let header = header_bytes(page_size, order);
    let bytes = header + rest;
    lemma_u16_roundtrip(WAL_HEADER_SIZE as u16, order);
    lemma_u16_roundtrip(page_size, order);
    assert(bytes.subrange(0, 4) =~= wal_magic());
    assert(bytes[4] == u16_bytes(WAL_HEADER_SIZE as u16, order)[0]);
    assert(bytes[5] == u16_bytes(WAL_HEADER_SIZE as u16, order)[1]);
    assert(bytes[6] == u16_bytes(page_size, order)[0]);
    assert(bytes[7] == u16_bytes(page_size, order)[1]);
    assert(bytes[8] == order.byte());
}

/// The bytes of the header of a log file with pages of `page_size` bytes.
pub fn encode_header(page_size: u16, order: ByteOrder) -> (bytes: [u8; 10])
    ensures
        bytes@ == header_bytes(page_size, order),
{
    let log_start = order.encode_u16(WAL_HEADER_SIZE as u16);
    let size = order.encode_u16(page_size);
    let bytes = [65, 67, 78, 76, log_start[0], log_start[1], size[0], size[1], order.to_byte(), 0];
    proof {
        assert(bytes@ =~= header_bytes(page_size, order));
    }
    bytes
}

/// Checks the header of a log file, as [`checked_header`] says.
pub fn check_header(bytes: &[u8], page_size: u16, native: ByteOrder) -> (res: Result<
    u16,
    LoadError,
>)
    ensures
        res == checked_header(bytes@, page_size, native),
{
    if bytes.len() < WAL_HEADER_SIZE {
        return Err(LoadError::Io(FileError::UnexpectedEof));
    }
    proof {
        assert(bytes@.subrange(0, 4) == wal_magic() <==> (bytes@[0] == 65 && bytes@[1] == 67
            && bytes@[2] == 78 && bytes@[3] == 76)) by {
            if bytes@[0] == 65 && bytes@[1] == 67 && bytes@[2] == 78 && bytes@[3] == 76 {
                assert(bytes@.subrange(0, 4) =~= wal_magic());
            } else {
                assert(bytes@.subrange(0, 4)[0] == bytes@[0]);
                assert(bytes@.subrange(0, 4)[1] == bytes@[1]);
                assert(bytes@.subrange(0, 4)[2] == bytes@[2]);
                assert(bytes@.subrange(0, 4)[3] == bytes@[3]);
            }
        }
    }
    if bytes[0] != 65 || bytes[1] != 67 || bytes[2] != 78 || bytes[3] != 76 {
        return Err(LoadError::NotAWalFile);
    }
    let Some(byte_order) = ByteOrder::from_byte(bytes[8]) else {
        return Err(LoadError::Corrupted);
    };
    if byte_order != native {
        return Err(LoadError::ByteOrderMismatch(byte_order));
    }
    let found_page_size = native.decode_u16(bytes[6], bytes[7]);
    if found_page_size != page_size {
        return Err(LoadError::PageSizeMismatch(found_page_size, page_size));
    }
    Ok(native.decode_u16(bytes[4], bytes[5]))
}

/// The bytes of one entry of the log: the page id, then the page.
pub open spec fn record_bytes(page_id: PageId, data: Seq<u8>, order: ByteOrder) -> Seq<u8> {
    page_id_bytes(page_id, order) + data
}

/// The number of bytes of an entry of a log with pages of `page_size`
/// bytes.
pub open spec fn record_size(page_size: u16) -> int {
    PAGE_ID_SIZE + page_size
}

/// The entries that a log holds whose bytes are `bytes`, read from the
/// start for as long as a whole entry is left.
pub open spec fn records(bytes: Seq<u8>, page_size: u16, order: ByteOrder) -> Seq<
    (PageId, Seq<u8>),
>
    decreases bytes.len(),
{
    if bytes.len() < record_size(page_size) {
        Seq::empty()
    } else {
        seq![
            (
                page_id_of_bytes(bytes, order),
                bytes.subrange(PAGE_ID_SIZE as int, record_size(page_size)),
            ),
        ] + records(bytes.skip(record_size(page_size)), page_size, order)
    }
}

/// An entry that is appended to a log of whole entries is read back behind
/// the entries that were there.
pub proof fn lemma_records_append(
    bytes: Seq<u8>,
    page_id: PageId,
    data: Seq<u8>,
    page_size: u16,
    order: ByteOrder,
)
    requires
        (bytes.len() as int) % record_size(page_size) == 0,
        data.len() == page_size,
    ensures
        records(bytes + record_bytes(page_id, data, order), page_size, order) == records(
            bytes,
            page_size,
            order,
        ).push((page_id, data)),
    decreases bytes.len(),
{
    let size = record_size(page_size);
    let record = record_bytes(page_id, data, order);
    let all = bytes + record;
    lemma_page_id_roundtrip(page_id, order, data);
    if bytes.len() == 0 {
        assert(all =~= record);
        assert(record.subrange(PAGE_ID_SIZE as int, size) =~= data);
        assert(record.skip(size).len() == 0);
        assert(records(record.skip(size), page_size, order) =~= Seq::empty());
        assert(records(bytes, page_size, order) =~= Seq::empty());
        assert(records(all, page_size, order) =~= seq![(page_id, data)]);
    } else {
        assert(bytes.len() >= size) by {
            if bytes.len() < size {
                assert((bytes.len() as int) % size == bytes.len()) by (nonlinear_arith)
                    requires
                        0 < bytes.len() < size,
                ;
            }
        }
        assert((bytes.len() - size) % size == 0) by (nonlinear_arith)
            requires
                (bytes.len() as int) % size == 0,
                bytes.len() >= size,
                size > 0,
        ;
        lemma_records_append(bytes.skip(size), page_id, data, page_size, order);
        assert(all.skip(size) =~= bytes.skip(size) + record);
        assert(page_id_of_bytes(all, order) == page_id_of_bytes(bytes, order)) by {
            assert(all.subrange(0, 4) =~= bytes.subrange(0, 4));
        }
        assert(all.subrange(PAGE_ID_SIZE as int, size) =~= bytes.subrange(
            PAGE_ID_SIZE as int,
            size,
        ));
        let head = seq![(page_id_of_bytes(bytes, order), bytes.subrange(PAGE_ID_SIZE as int, size))];
        let rest = records(bytes.skip(size), page_size, order);
        assert((head + rest).push((page_id, data)) =~= head + rest.push((page_id, data)));
    }
}

/// A write-ahead log in a file that lives in memory.
#[derive(Debug)]
pub struct Wal {
    log_start: u64,
    page_size: u16,
    byte_order: ByteOrder,
    buf: Vec<u8>,
    file: Vec<u8>,
}

/// What [`Wal::load`] gives for a file that holds `bytes` on a machine of
/// the byte order `native`: the error of the header check, or a log over
/// the file with nothing pending.
pub open spec fn loaded(
    res: Result<Wal, LoadError>,
    bytes: Seq<u8>,
    page_size: u16,
    native: ByteOrder,
) -> bool {
    match checked_header(bytes, page_size, native) {
        Err(error) => res matches Err(e) && e == error,
        Ok(log_start) => {
            &&& res matches Ok(wal)
            &&& wal.file() == bytes
            &&& wal.pending().len() == 0
            &&& wal.log_start() == log_start
            &&& wal.page_size() == page_size
            &&& wal.byte_order() == native
        },
    }
}

impl Wal {
    /// The bytes of the file.
    pub closed spec fn file(&self) -> Seq<u8> {
        self.file@
    }

    /// The bytes that were logged and are neither committed nor cancelled.
    pub closed spec fn pending(&self) -> Seq<u8> {
        self.buf@
    }

    /// The offset at which the log starts in the file.
    pub closed spec fn log_start(&self) -> u64 {
        self.log_start
    }

    /// The size of the pages of the log.
    pub closed spec fn page_size(&self) -> u16 {
        self.page_size
    }

    /// The byte order in which the log is written.
    pub closed spec fn byte_order(&self) -> ByteOrder {
        self.byte_order
    }

    /// Writes the header of a log file over the start of `file`, in the
    /// given byte order.
    pub fn init_with(file: &mut Vec<u8>, params: InitParams, order: ByteOrder) -> (res: Result<
        (),
        InitError,
    >)
        ensures
            res is Ok,
            final(file)@ == overwritten(old(file)@, header_bytes(params.page_size, order)),
    {
        let header = encode_header(params.page_size, order);
        let mut i: usize = 0;
        while i < WAL_HEADER_SIZE
            invariant
                i <= WAL_HEADER_SIZE,
                header@.len() == WAL_HEADER_SIZE,
                file@.len() == if old(file)@.len() >= i {
                    old(file)@.len()
                } else {
                    i as nat
                },
                forall|k: int| 0 <= k < i ==> file@[k] == header@[k],
                forall|k: int| i <= k < file@.len() ==> file@[k] == old(file)@[k],
            decreases WAL_HEADER_SIZE - i,
        {
            if i < file.len() {
                file.set(i, header[i]);
            } else {
                file.push(header[i]);
            }
            i += 1;
        }
        proof {
            assert(file@ =~= overwritten(old(file)@, header@));
        }
        Ok(())
    }

    /// Writes the header of a log file over the start of `file`, in the
    /// byte order of this machine.
    pub fn init(file: &mut Vec<u8>, params: InitParams) -> (res: Result<(), InitError>)
        ensures
            res is Ok,
            final(file)@ == overwritten(
                old(file)@,
                header_bytes(params.page_size, ByteOrder::LittleEndian),
            ) || final(file)@ == overwritten(
                old(file)@,
                header_bytes(params.page_size, ByteOrder::BigEndian),
            ),
    {
        Self::init_with(file, params, ByteOrder::native())
    }

    /// Opens the log in `file` on a machine of the byte order `native`.
    pub fn load_with(file: Vec<u8>, params: LoadParams, native: ByteOrder) -> (res: Result<
        Self,
        LoadError,
    >)
        ensures
            loaded(res, file@, params.page_size, native),
    {
        match check_header(file.as_slice(), params.page_size, native) {
            Err(error) => Err(error),
            Ok(log_start) => Ok(
                Self {
                    file,
                    buf: Vec::new(),
                    log_start: log_start as u64,
                    page_size: params.page_size,
                    byte_order: native,
                },
            ),
        }
    }

    /// Opens the log in `file`. The file has to be written in the byte
    /// order of this machine.
    pub fn load(file: Vec<u8>, params: LoadParams) -> (res: Result<Self, LoadError>)
        ensures
            loaded(res, file@, params.page_size, ByteOrder::LittleEndian) || loaded(
                res,
                file@,
                params.page_size,
                ByteOrder::BigEndian,
            ),
    {
        Self::load_with(file, params, ByteOrder::native())
    }

    /// Notes that the page `page_id` is to hold `data`. Nothing reaches the
    /// file before [`Wal::commit`].
    pub fn log_write(&mut self, page_id: PageId, data: &[u8])
        ensures
            final(self).pending() == old(self).pending() + record_bytes(
                page_id,
                data@,
                old(self).byte_order(),
            ),
            final(self).file() == old(self).file(),
            final(self).log_start() == old(self).log_start(),
            final(self).page_size() == old(self).page_size(),
            final(self).byte_order() == old(self).byte_order(),
    {
        let id_bytes = page_id.to_bytes(self.byte_order);
        let mut i: usize = 0;
        while i < PAGE_ID_SIZE
            invariant
                i <= PAGE_ID_SIZE,
                id_bytes@.len() == PAGE_ID_SIZE,
                self.buf@ == old(self).buf@ + id_bytes@.take(i as int),
                self.file == old(self).file,
                self.log_start == old(self).log_start,
                self.page_size == old(self).page_size,
                self.byte_order == old(self).byte_order,
            decreases PAGE_ID_SIZE - i,
        {
            self.buf.push(id_bytes[i]);
            proof {
                assert(self.buf@ =~= old(self).buf@ + id_bytes@.take(i + 1));
            }
            i += 1;
        }
        let mut k: usize = 0;
        proof {
            assert(id_bytes@.take(PAGE_ID_SIZE as int) == id_bytes@);
            assert(self.buf@ =~= old(self).buf@ + id_bytes@ + data@.take(0));
        }
        while k < data.len()
            invariant
                k <= data@.len(),
                self.buf@ == old(self).buf@ + id_bytes@ + data@.take(k as int),
                self.file == old(self).file,
                self.log_start == old(self).log_start,
                self.page_size == old(self).page_size,
                self.byte_order == old(self).byte_order,
            decreases data@.len() - k,
        {
            self.buf.push(data[k]);
            proof {
                assert(self.buf@ =~= old(self).buf@ + id_bytes@ + data@.take(k + 1));
            }
            k += 1;
        }
        proof {
            assert(data@.take(data@.len() as int) == data@);
            assert(self.buf@ =~= old(self).buf@ + record_bytes(page_id, data@, self.byte_order));
        }
    }

    /// Appends what was logged to the file.
    pub fn commit(&mut self) -> (res: Result<(), FileError>)
        ensures
            res is Ok,
            final(self).file() == old(self).file() + old(self).pending(),
            final(self).pending().len() == 0,
            final(self).log_start() == old(self).log_start(),
            final(self).page_size() == old(self).page_size(),
            final(self).byte_order() == old(self).byte_order(),
    {
        let mut i: usize = 0;
        proof {
            assert(self.file@ =~= old(self).file@ + self.buf@.take(0));
        }
        while i < self.buf.len()
            invariant
                i <= self.buf@.len(),
                self.buf == old(self).buf,
                self.file@ == old(self).file@ + self.buf@.take(i as int),
                self.log_start == old(self).log_start,
                self.page_size == old(self).page_size,
                self.byte_order == old(self).byte_order,
            decreases self.buf@.len() - i,
        {
            self.file.push(self.buf[i]);
            proof {
                assert(self.file@ =~= old(self).file@ + self.buf@.take(i + 1));
            }
            i += 1;
        }
        proof {
            assert(self.buf@.take(self.buf@.len() as int) == self.buf@);
        }
        self.buf.clear();
        Ok(())
    }

    /// Forgets what was logged since the last commit.
    pub fn cancel(&mut self)
        ensures
            final(self).pending().len() == 0,
            final(self).file() == old(self).file(),
            final(self).log_start() == old(self).log_start(),
            final(self).page_size() == old(self).page_size(),
            final(self).byte_order() == old(self).byte_order(),
    {
        self.buf.clear();
    }

    /// Empties the log: the file ends where the log starts. A file that is
    /// shorter than that is filled up with zeros.
    pub fn clear(&mut self) -> (res: Result<(), FileError>)
        requires
            old(self).log_start() <= usize::MAX,
        ensures
            res is Ok,
            final(self).file().len() == old(self).log_start(),
            forall|k: int|
                0 <= k < final(self).file().len() ==> final(self).file()[k] == if k < old(self).file().len() {
                    old(self).file()[k]
                } else {
                    0u8
                },
            final(self).pending() == old(self).pending(),
            final(self).log_start() == old(self).log_start(),
            final(self).page_size() == old(self).page_size(),
            final(self).byte_order() == old(self).byte_order(),
    {
        let end = self.log_start as usize;
        if self.file.len() >= end {
            self.file.truncate(end);
        } else {
            while self.file.len() < end
                invariant
                    end == old(self).log_start,
                    old(self).file@.len() <= self.file@.len() <= end,
                    forall|k: int|
                        0 <= k < self.file@.len() ==> self.file@[k] == if k < old(self).file@.len() {
                            old(self).file@[k]
                        } else {
                            0u8
                        },
                    self.buf == old(self).buf,
                    self.log_start == old(self).log_start,
                    self.page_size == old(self).page_size,
                    self.byte_order == old(self).byte_order,
                decreases end - self.file@.len(),
            {
                self.file.push(0);
            }
        }
        Ok(())
    }

    /// The bytes of the file.
    pub fn file_bytes(&self) -> (bytes: &Vec<u8>)
        ensures
            bytes@ == self.file(),
    {
        &self.file
    }

    /// Reads the log from its start.
    pub fn iter(&mut self) -> (res: Result<Iter<'_>, FileError>)
        requires
            old(self).log_start() <= usize::MAX,
        ensures
            final(self).file() == old(self).file(),
            final(self).pending() == old(self).pending(),
            res matches Ok(iter) && {
                &&& iter.bytes() == old(self).file()
                &&& iter.position() == old(self).log_start()
                &&& iter.page_size() == old(self).page_size()
                &&& iter.byte_order() == old(self).byte_order()
            },
    {
        Ok(
            Iter {
                page_size: self.page_size,
                byte_order: self.byte_order,
                file: &self.file,
                position: self.log_start as usize,
            },
        )
    }
}

/// Reads the entries of a log one after the other.
#[derive(Debug)]
pub struct Iter<'a> {
    page_size: u16,
    byte_order: ByteOrder,
    file: &'a Vec<u8>,
    position: usize,
}

impl<'a> Iter<'a> {
    /// The bytes of the file that is read.
    pub closed spec fn bytes(&self) -> Seq<u8> {
        self.file@
    }

    /// The offset in the file at which the next entry is read.
    pub closed spec fn position(&self) -> usize {
        self.position
    }

    /// The size of the pages of the log.
    pub closed spec fn page_size(&self) -> u16 {
        self.page_size
    }

    /// The byte order in which the log is written.
    pub closed spec fn byte_order(&self) -> ByteOrder {
        self.byte_order
    }

    /// The bytes that are left to read.
    pub open spec fn rest(&self) -> Seq<u8> {
        if self.position() <= self.bytes().len() {
            self.bytes().skip(self.position() as int)
        } else {
            Seq::empty()
        }
    }

    /// The next entry of the log: the first of the entries that are left.
    /// Where less than a whole entry is left, the log has ended; a torn
    /// entry at the end of the file ends the log like the end of the file
    /// itself and is no error.
    pub fn next(&mut self) -> (entry: Option<Result<(PageId, Vec<u8>), FileError>>)
        ensures
            final(self).bytes() == old(self).bytes(),
            final(self).page_size() == old(self).page_size(),
            final(self).byte_order() == old(self).byte_order(),
            old(self).rest().len() < record_size(old(self).page_size()) ==> entry is None && final(
                self
            ).position() == old(self).position(),
            old(self).rest().len() >= record_size(old(self).page_size()) ==> {
                &&& entry matches Some(Ok(record))
                &&& (record.0, record.1@) == records(
                    old(self).rest(),
                    old(self).page_size(),
                    old(self).byte_order(),
                )[0]
                &&& final(self).rest() == old(self).rest().skip(
                    record_size(old(self).page_size()),
                )
            },
    {
        let len = self.file.len();
        let page_size = self.page_size as usize;
        if self.position > len || len - self.position < PAGE_ID_SIZE || len - self.position
            - PAGE_ID_SIZE < page_size {
            return None;
        }
        let start = self.position;
        let ghost rest = self.rest();
        let id_bytes = [
            self.file[start],
            self.file[start + 1],
            self.file[start + 2],
            self.file[start + 3],
            self.file[start + 4],
            self.file[start + 5],
            self.file[start + 6],
            self.file[start + 7],
        ];
        let page_id = PageId::from_bytes(&id_bytes, self.byte_order);
        proof {
            assert(id_bytes@.subrange(0, 4) =~= rest.subrange(0, 4));
            assert(id_bytes@[4] == rest[4] && id_bytes@[5] == rest[5]);
        }
        let data_start = start + PAGE_ID_SIZE;
        let mut page_buf: Vec<u8> = Vec::new();
        let mut i: usize = 0;
        while i < page_size
            invariant
                i <= page_size,
                len == self.file@.len(),
                data_start + page_size <= len,
                page_buf@.len() == i,
                forall|k: int| 0 <= k < i ==> page_buf@[k] == self.file@[data_start + k],
            decreases page_size - i,
        {
            page_buf.push(self.file[data_start + i]);
            i += 1;
        }
        self.position = data_start + page_size;
        proof {
            assert(page_buf@ =~= rest.subrange(PAGE_ID_SIZE as int, record_size(self.page_size)));
            assert(self.rest() =~= rest.skip(record_size(self.page_size)));
        }
        Some(Ok((page_id, page_buf)))
    }
}

} // verus!
