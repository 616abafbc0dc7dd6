use vstd::prelude::*;

verus! {

/// A point in time: seconds and nanoseconds since the Unix epoch.
#[derive(Clone, Copy, PartialEq, Eq, Structural, Debug)]
pub struct Stamp {
    pub sec: i64,
    pub nsec: i32,
}

/// One component of an entry's relative path.
///
/// Only plain names take part in directory listings and lookups; anything
/// else (`.`, `..`, a prefix, a root) is carried as `Special` and skipped.
#[derive(Clone, PartialEq, Eq, Debug)]
pub enum PathComp {
    Normal(String),
    Special,
}

/// The type of an entry as recorded in the signature stream.
#[derive(Clone, Copy, PartialEq, Eq, Structural, Debug)]
pub enum EntryKind {
    File,
    Dir,
    HardLink,
    SymLink,
    Fifo,
    Unknown(u8),
}

/// The kind of a filesystem object as reported to the kernel.
#[derive(Clone, Copy, PartialEq, Eq, Structural, Debug)]
pub enum FileKind {
    RegularFile,
    Directory,
    Symlink,
    NamedPipe,
}

/// One record of a snapshot's signature stream: a relative path (as a list
/// of components) plus the stored attributes.
#[derive(Clone, PartialEq, Eq, Debug)]
pub struct SigRecord {
    pub path: Vec<PathComp>,
    pub etype: EntryKind,
    pub mode: Option<u32>,
    pub uid: Option<u32>,
    pub gid: Option<u32>,
    pub mtime: Stamp,
    pub size_hint: Option<(usize, usize)>,
    pub linked_path: Option<Vec<u8>>,
}

/// The attributes of a filesystem object, as replied to `getattr`/`lookup`.
#[derive(Clone, Copy, PartialEq, Eq, Structural, Debug)]
pub struct FileAttrData {
    pub ino: u64,
    pub size: u64,
    pub blocks: u64,
    pub atime: Stamp,
    pub mtime: Stamp,
    pub ctime: Stamp,
    pub crtime: Stamp,
    pub kind: FileKind,
    pub perm: u16,
    pub nlink: u32,
    pub uid: u32,
    pub gid: u32,
    pub rdev: u32,
    pub flags: u32,
}

/// How a stored entry type maps to a filesystem kind: hard links and
/// unknown entries surface as regular files.
pub open spec fn spec_kind_of(et: EntryKind) -> FileKind {
    match et {
        EntryKind::File => FileKind::RegularFile,
        EntryKind::HardLink => FileKind::RegularFile,
        EntryKind::Unknown(_) => FileKind::RegularFile,
        EntryKind::Dir => FileKind::Directory,
        EntryKind::SymLink => FileKind::Symlink,
        EntryKind::Fifo => FileKind::NamedPipe,
    }
}

/// Maps a signature entry type to the filesystem kind reported to the kernel.
pub fn from_entry_type(et: EntryKind) -> (r: FileKind)
    ensures
        r == spec_kind_of(et),
{
    match et {
        EntryKind::File => FileKind::RegularFile,
        EntryKind::HardLink => FileKind::RegularFile,
        EntryKind::Unknown(_) => FileKind::RegularFile,
        EntryKind::Dir => FileKind::Directory,
        EntryKind::SymLink => FileKind::Symlink,
        EntryKind::Fifo => FileKind::NamedPipe,
    }
}

/// The attributes derived from a signature record: the size hint's upper
/// bound (or 0), the lower 16 bits of the stored mode (or `0o777`), the
/// stored owner ids (or 100 each), and the record's mtime in every
/// timestamp field.
pub open spec fn spec_attr_entry(rec: SigRecord, ino: u64) -> FileAttrData {
    FileAttrData {
        ino: ino,
        size: match rec.size_hint {
            Some(sh) => sh.1 as u64,
            None => 0,
        },
        blocks: 0,
        atime: rec.mtime,
        mtime: rec.mtime,
        ctime: rec.mtime,
        crtime: rec.mtime,
        kind: spec_kind_of(rec.etype),
        perm: match rec.mode {
            Some(m) => (m % 0x10000) as u16,
            None => 0o777,
        },
        nlink: 0,
        uid: match rec.uid {
            Some(u) => u,
            None => 100,
        },
        gid: match rec.gid {
            Some(g) => g,
            None => 100,
        },
        rdev: 0,
        flags: 0,
    }
}

/// Builds the reply attributes for a backup entry.
pub fn attr_entry(rec: &SigRecord, ino: u64) -> (r: FileAttrData)
    ensures
        r == spec_attr_entry(*rec, ino),
{
    let size: u64 = match rec.size_hint {
        Some(sh) => sh.1 as u64,
        None => 0,
    };
    let perm: u16 = match rec.mode {
        Some(m) => (m % 0x10000) as u16,
        None => 0o777,
    };
    let uid: u32 = match rec.uid {
        Some(u) => u,
        None => 100,
    };
    let gid: u32 = match rec.gid {
        Some(g) => g,
        None => 100,
    };
    FileAttrData {
        ino: ino,
        size: size,
        blocks: 0,
        atime: rec.mtime,
        mtime: rec.mtime,
        ctime: rec.mtime,
        crtime: rec.mtime,
        kind: from_entry_type(rec.etype),
        perm: perm,
        nlink: 0,
        uid: uid,
        gid: gid,
        rdev: 0,
        flags: 0,
    }
}

} // verus!
