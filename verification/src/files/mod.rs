//! The files of a database as the page store sees them. The host supplies
//! them; the store only states what it expects of them.

use vstd::prelude::*;
use crate::files::segment::SegmentFileApi;
use crate::files::wal::WalFileApi;

pub mod memory;
pub mod segment;
pub mod wal;

verus! {

/// An error of the file layer, by its kind. The page store never acts on
/// the kind: it hands the error on to its caller.
#[derive(Debug, Clone, Copy, PartialEq, Eq, Structural)]
pub enum FileError {
    /// The file ended before what was to be read from it.
    UnexpectedEof,
    /// There is no such file.
    NotFound,
    /// The file may not be opened, read or written.
    PermissionDenied,
    /// The file cannot grow any more.
    OutOfSpace,
    /// Any other failure.
    Other,
}

impl FileError {
    /// The error in words.
    pub open spec fn text(self) -> Seq<char> {
        match self {
            FileError::UnexpectedEof => "unexpected end of file"@,
            FileError::NotFound => "file not found"@,
            FileError::PermissionDenied => "permission denied"@,
            FileError::OutOfSpace => "no space left in the file"@,
            FileError::Other => "file operation failed"@,
        }
    }

    /// The error in words.
    pub fn message(&self) -> (text: String)
        ensures
            text@ == self.text(),
    {
        match self {
            FileError::UnexpectedEof => "unexpected end of file".to_owned(),
            FileError::NotFound => "file not found".to_owned(),
            FileError::PermissionDenied => "permission denied".to_owned(),
            FileError::OutOfSpace => "no space left in the file".to_owned(),
            FileError::Other => "file operation failed".to_owned(),
        }
    }
}

/// The generation numbers of some log files, in their order.
pub open spec fn gen_nums_of<F>(files: Seq<(u64, F)>) -> Seq<u64> {
    Seq::new(files.len(), |i: int| files[i].0)
}

/// The folder of a database. The host implements it.
///
/// Of the folder itself the page store only follows which generations of the
/// log have a file in it.
pub trait DatabaseFolderApi: Sized {
    type SegmentFile: SegmentFileApi;

    type WalFile: WalFileApi;

    /// The generations of the log that have a file in the folder.
    spec fn wal_gens(&self) -> Set<u64>;

    /// Opens the file of a segment, creating it if there is none.
    fn open_segment_file(&mut self, segment_num: u32) -> (res: Result<Self::SegmentFile, FileError>)
        ensures
            final(self).wal_gens() == old(self).wal_gens(),
    ;

    /// Deletes every log file.
    fn clear_wal_files(&mut self) -> (res: Result<(), FileError>)
        ensures
            res is Ok ==> final(self).wal_gens() == Set::<u64>::empty(),
    ;

    /// Opens every log file of the folder. Each comes with its generation
    /// number, and no generation comes twice.
    fn iter_wal_files(&mut self) -> (res: Result<Vec<(u64, Self::WalFile)>, FileError>)
        ensures
            final(self).wal_gens() == old(self).wal_gens(),
            res matches Ok(files) ==> {
                &&& gen_nums_of(files@).no_duplicates()
                &&& gen_nums_of(files@).to_set() == old(self).wal_gens()
            },
    ;

    /// Opens the log file of a generation, creating it if there is none. A
    /// file that is created holds no item, and no file is deleted.
    fn open_wal_file(&mut self, gen_num: u64) -> (res: Result<Self::WalFile, FileError>)
        ensures
            forall|g: u64|
                g != gen_num ==> (final(self).wal_gens().contains(g) <==> old(self).wal_gens().contains(
                    g,
                )),
            old(self).wal_gens().contains(gen_num) ==> final(self).wal_gens().contains(gen_num),
            res matches Ok(file) ==> {
                &&& final(self).wal_gens().contains(gen_num)
                &&& !old(self).wal_gens().contains(gen_num) ==> file.items().len() == 0
            },
    ;

    /// Deletes the log file of a generation. No other file is touched.
    fn delete_wal_file(&mut self, gen_num: u64) -> (res: Result<(), FileError>)
        ensures
            forall|g: u64|
                g != gen_num ==> (final(self).wal_gens().contains(g) <==> old(self).wal_gens().contains(
                    g,
                )),
            res is Ok ==> !final(self).wal_gens().contains(gen_num),
    ;
}

} // verus!
