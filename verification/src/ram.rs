//! In-RAM structures of the root filesystem tree: file and directory
//! records as callers see them before anything touches the medium.
//!
//! A directory holds its parent as an inode number resolved through the
//! index on demand, never as an owning back-pointer.

use vstd::prelude::*;
use crate::neutronfs::InodeNumber;

verus! {

/// How a file's bytes are to be presented.
#[derive(Debug, Clone, Copy, PartialEq, Eq, Structural)]
pub enum FileEncoding {
    /// Includes ASCII and the entire unicode set.
    UTF8,
    /// Usually displayed as UTF-8 0-9/A-F.
    Hex,
    /// Bytes of whatever kind of encoding.
    Raw,
}

/// One regular file held in RAM.
#[derive(Debug)]
pub struct FileData {
    pub name: String,
    /// High-level description of the file type, e.g. PNG.
    pub file_type: String,
    pub encoding: FileEncoding,
    pub data: Vec<u8>,
}

/// One directory held in RAM; `parent` is the inode number of the
/// enclosing directory.
#[derive(Debug)]
pub struct DirData {
    pub name: String,
    pub files: Vec<NeFSFile>,
    pub parent: InodeNumber,
}

impl DirData {
    /// A directory named `name` holding `files`, under the directory with
    /// inode number `parent`.
    pub fn new_dir(name: String, files: Vec<NeFSFile>, parent: InodeNumber) -> (res: Self)
        ensures
            res.name == name,
            res.files == files,
            res.parent == parent,
    {
        Self { name, files, parent }
    }

    /// Appends a file to the directory.
    pub fn add_file(&mut self, file: NeFSFile)
        ensures
            final(self).name == old(self).name,
            final(self).parent == old(self).parent,
            final(self).files@ == old(self).files@.push(file),
    {
        self.files.push(file);
    }

    /// Removes the `index`-th entry of the directory.
    pub fn remove_file(&mut self, index: usize)
        requires
            index < old(self).files@.len(),
        ensures
            final(self).name == old(self).name,
            final(self).parent == old(self).parent,
            final(self).files@ == old(self).files@.remove(index as int),
    {
        self.files.remove(index);
    }
}

/// Anything that can sit in a directory.
#[derive(Debug)]
pub enum NeFSFile {
    File(FileData),
    Dir(DirData),
    /// No separation between char/block/socket devices.
    Device,
    Symlink,
    Socket,
    /// Named pipe; anonymous pipes are not files.
    Pipe,
}

impl NeFSFile {
    /// Renames a file or a directory; entries without a name are left
    /// untouched and `false` says so.
    pub fn rename(&mut self, new_name: String) -> (renamed: bool)
        ensures
            *old(self) matches NeFSFile::File(fd) ==> renamed && *final(self) == NeFSFile::File(
                FileData { name: new_name, ..fd },
            ),
            *old(self) matches NeFSFile::Dir(dd) ==> renamed && *final(self) == NeFSFile::Dir(
                DirData { name: new_name, ..dd },
            ),
            !(*old(self) matches NeFSFile::File(_)) && !(*old(self) matches NeFSFile::Dir(_))
                ==> !renamed && *final(self) == *old(self),
    {
        match self {
            NeFSFile::File(fd) => {
                fd.name = new_name;
                true
            },
            NeFSFile::Dir(dd) => {
                dd.name = new_name;
                true
            },
            _ => false,
        }
    }
}

/// A file entry staged for copy-on-write: the shared value is cloned only
/// when a writer takes it.
pub struct NeFSFileCoW(pub NeFSFile);

/// The root of the in-RAM filesystem view.
pub struct RootFS {}

} // verus!
