//! Plain descriptions of files: lengths, positions, hashes, identifiers and paths.

use vstd::prelude::*;

verus! {

/// A length of a file, or of a part of one, in bytes.
#[derive(Clone, Copy, Debug, PartialEq, Eq, Structural)]
pub struct FileLen(pub u64);

/// An offset into a file, in bytes.
#[derive(Clone, Copy, Debug, PartialEq, Eq, Structural)]
pub struct FilePos(pub u64);

/// A hash of a part of a file.
#[derive(Clone, Copy, Debug, PartialEq, Eq, Structural)]
pub struct FileHash(pub u128);

/// What tells two directory entries of one file from two files: its inode and its device.
#[derive(Clone, Copy, Debug, PartialEq, Eq, Structural)]
pub struct FileId {
    pub inode: u64,
    pub device: u64,
}

/// How the system should cache a part of a file that is about to be read.
#[derive(Clone, Copy, Debug, PartialEq, Eq, Structural)]
pub enum Caching {
    Default,
    Random,
    Sequential,
}

/// A path. Its view is its text, byte for byte.
#[derive(Clone, Debug, PartialEq, Eq)]
pub struct Path {
    pub text: Vec<u8>,
}

/// A file as it was found by a scan. `id_hash` is a hash of its `FileId`.
#[derive(Clone, Debug, PartialEq, Eq)]
pub struct FileInfo {
    pub path: Path,
    pub len: FileLen,
    pub id_hash: u64,
}

/// A file whose length is known from the group it is in.
#[derive(Clone, Debug, PartialEq, Eq)]
pub struct FileInfoNoLen {
    pub path: Path,
    pub id_hash: u64,
}

impl View for Path {
    type V = Seq<u8>;

    open spec fn view(&self) -> Seq<u8> {
        self.text@
    }
}

impl FileLen {
    /// The position that lies this many bytes behind the start of a file.
    pub fn as_pos(self) -> (pos: FilePos)
        ensures
            pos == FilePos(self.0),
    {
        FilePos(self.0)
    }
}

impl FileInfo {
    /// `self` without its length.
    pub open spec fn without_len(self) -> FileInfoNoLen {
        FileInfoNoLen { path: self.path, id_hash: self.id_hash }
    }

    /// Forgets the length of the file.
    pub fn drop_len(self) -> (info: FileInfoNoLen)
        ensures
            info == self.without_len(),
    {
        FileInfoNoLen { path: self.path, id_hash: self.id_hash }
    }
}

/// A path stands for its text. A file without its length has the same path and hash.
pub proof fn path_is_its_text(file: FileInfo)
    ensures
        file.path@ == file.path.text@,
        file.without_len().path == file.path,
        file.without_len().id_hash == file.id_hash,
{
}

} // verus!
