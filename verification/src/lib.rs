//! A read-only view of a duplicity-style backup as a filesystem tree.
//!
//! Each snapshot of the backup appears as a dated top-level directory; under
//! it, the file tree captured at that time, with attributes taken from the
//! backup's signature metadata. The crate owns the hard part of that
//! translation: assigning stable 64-bit inodes to a forward-only stream of
//! signature records, reconstructing parent/child relationships from the
//! flat path list, serving resumable directory listings, and doing so
//! lazily, one tree per snapshot on first traversal. Reading the backup
//! itself, and speaking to the kernel, stay outside; the library works on
//! plain record values and answers with plain reply values.

pub mod dir;
pub mod fs;
pub mod record;
pub mod snapshots;
pub mod tree;

use vstd::prelude::*;

verus! {

/// Errors a filesystem operation can report, mirroring the errno values
/// the kernel expects for a metadata-only mount.
#[derive(Clone, Copy, PartialEq, Eq, Structural, Debug)]
pub enum Errno {
    /// No such file or directory.
    Enoent,
    /// Operation not supported.
    Enosys,
}

} // verus!
