//! Synthetic file attributes and directory entries.
//!
//! Every node of the mount carries fixed permissions and ownership; only the
//! inode, the kind, and (for the virtual info file) the size vary.

use vstd::prelude::*;

verus! {

/// The kind of a node.
#[derive(Clone, Copy, PartialEq, Eq, Structural, Debug)]
pub enum FileKind {
    Directory,
    Symlink,
    RegularFile,
}

/// A synthetic attribute record.
#[derive(Clone, Copy, PartialEq, Eq, Structural, Debug)]
pub struct FileAttr {
    pub ino: u64,
    pub size: u64,
    pub blocks: u64,
    pub kind: FileKind,
    pub perm: u16,
    pub nlink: u32,
    pub uid: u32,
    pub gid: u32,
    pub rdev: u32,
    pub flags: u32,
    pub blksize: u32,
}

/// The fixed fields every attribute carries: permissions `0755`, one link,
/// owner 1000, block size 512.
pub open spec fn fixed_fields(a: FileAttr) -> bool {
    a.perm == 0o755 && a.nlink == 1 && a.uid == 1000 && a.gid == 1000 && a.rdev == 0 && a.flags
        == 0 && a.blksize == 512
}

/// A directory attribute.
pub fn basic_directory(ino: u64) -> (a: FileAttr)
    ensures
        a.ino == ino,
        a.size == 0,
        a.blocks == 0,
        a.kind == FileKind::Directory,
        fixed_fields(a),
{
    FileAttr {
        ino,
        size: 0,
        blocks: 0,
        kind: FileKind::Directory,
        perm: 0o755,
        nlink: 1,
        uid: 1000,
        gid: 1000,
        rdev: 0,
        flags: 0,
        blksize: 512,
    }
}

/// A symlink attribute.
pub fn basic_link(ino: u64) -> (a: FileAttr)
    ensures
        a.ino == ino,
        a.size == 0,
        a.blocks == 0,
        a.kind == FileKind::Symlink,
        fixed_fields(a),
{
    FileAttr {
        ino,
        size: 0,
        blocks: 0,
        kind: FileKind::Symlink,
        perm: 0o755,
        nlink: 1,
        uid: 1000,
        gid: 1000,
        rdev: 0,
        flags: 0,
        blksize: 512,
    }
}

/// A regular-file attribute of the given size.
pub fn basic_file(ino: u64, size: u64, blocks: u64) -> (a: FileAttr)
    ensures
        a.ino == ino,
        a.size == size,
        a.blocks == blocks,
        a.kind == FileKind::RegularFile,
        fixed_fields(a),
{
    FileAttr {
        ino,
        size,
        blocks,
        kind: FileKind::RegularFile,
        perm: 0o755,
        nlink: 1,
        uid: 1000,
        gid: 1000,
        rdev: 0,
        flags: 0,
        blksize: 512,
    }
}

/// Mathematical value of a directory entry.
pub ghost struct DirEntryV {
    pub ino: int,
    pub kind: FileKind,
    pub name: Seq<char>,
}

/// One row of a directory listing.
pub struct DirEntry {
    pub ino: u64,
    pub kind: FileKind,
    pub name: String,
}

impl View for DirEntry {
    type V = DirEntryV;

    open spec fn view(&self) -> DirEntryV {
        DirEntryV { ino: self.ino as int, kind: self.kind, name: self.name@ }
    }
}

impl DirEntry {
    /// A field-for-field copy.
    pub fn duplicate(&self) -> (r: DirEntry)
        ensures
            r@ == self@,
    {
        DirEntry { ino: self.ino, kind: self.kind, name: self.name.clone() }
    }
}

} // verus!
