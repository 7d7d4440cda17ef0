//! The errors of the engine.
use vstd::prelude::*;

verus! {

/// Why a filesystem operation did not complete.
#[derive(Clone, Copy, Debug, PartialEq, Eq, Structural)]
pub enum FsError {
    /// The block device refused a transfer: the block index lies outside the device.
    DeviceIoError,
    /// No free cluster is left in the allocation table, or the file would outgrow
    /// what a 32-bit size field can record.
    OutOfSpace,
    /// No live directory record carries the requested name.
    NotFound,
    /// A directory operation was attempted on a node without the directory attribute.
    NotADirectory,
    /// A live directory record already carries the requested name.
    AlreadyExists,
    /// The volume's addressing structures cannot be trusted: the boot sector failed
    /// validation, or a cluster chain is broken.
    InvalidFilesystem,
    /// Every cache slot is pinned, so no block can be brought in.
    CacheExhausted,
}

} // verus!
