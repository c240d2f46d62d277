//! The errors that the engine reports.

use vstd::prelude::*;
use crate::diskio::DRESULT;

verus! {

/// Why an operation of the engine failed.
#[derive(Clone, Copy, Debug, PartialEq, Eq, Structural)]
pub enum FsError {
    /// A sector could not be read or written.
    IOError,
    /// The medium is write protected.
    WriteProtected,
    /// The drive is not ready, or the volume is not mounted.
    NotReady,
    /// The boot sector, the geometry or a cluster chain is invalid.
    CorruptVolume,
    /// No entry of that name exists.
    NotFound,
    /// An entry of that name exists already.
    AlreadyExists,
    /// A component of the path that is not the last names a file.
    NotADirectory,
    /// The directory still holds entries.
    DirectoryNotEmpty,
    /// The root directory of fixed size has no free slot left.
    DirectoryFull,
    /// The volume has no free cluster left.
    DiskFull,
    /// A path, a position or another argument is invalid.
    InvalidParameter,
    /// The handle is closed or belongs to another volume.
    InvalidHandle,
    /// The drive holds a mounted volume already.
    AlreadyMounted,
}

impl FsError {
    /// The error that stands for a failed request to the storage driver.
    pub open spec fn of_dresult(r: DRESULT) -> FsError {
        match r {
            DRESULT::RES_WRPRT => FsError::WriteProtected,
            DRESULT::RES_NOTRDY => FsError::NotReady,
            DRESULT::RES_PARERR => FsError::InvalidParameter,
            _ => FsError::IOError,
        }
    }

    /// The error is one that a failed request to the storage driver gives.
    pub open spec fn is_device(self) -> bool {
        self == FsError::IOError || self == FsError::WriteProtected || self == FsError::NotReady
            || self == FsError::InvalidParameter
    }

    /// Translates a failed answer of the storage driver.
    pub fn from_dresult(r: DRESULT) -> (e: FsError)
        ensures
            e == FsError::of_dresult(r),
            e.is_device(),
    {
        match r {
            DRESULT::RES_WRPRT => FsError::WriteProtected,
            DRESULT::RES_NOTRDY => FsError::NotReady,
            DRESULT::RES_PARERR => FsError::InvalidParameter,
            _ => FsError::IOError,
        }
    }
}

} // verus!
