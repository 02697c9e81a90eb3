//! Error kinds surfaced by the filesystem.

use vstd::prelude::*;

verus! {

/// Failures a filesystem operation can report.
#[derive(Clone, Copy, PartialEq, Eq, Structural, Debug)]
pub enum FSError {
    /// A fault reported by the underlying block device.
    IoError,
    /// An on-disk structure failed validation at mount time.
    CorruptedFileSystem,
    /// A caller-supplied argument was out of range.
    InvalidArgument,
    /// The volume has no free cluster left.
    NoSpace,
}

} // verus!
