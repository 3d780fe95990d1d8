//! Error codes of the filesystem (the `lfs_error` values of littlefs).
use vstd::prelude::*;

verus! {

/// Errors returned by filesystem and block-device operations.
#[derive(Debug, Clone, Copy, PartialEq, Eq, Structural)]
pub enum Error {
    /// No error
    NoError,
    /// Error during device operation (I/O)
    Io,
    /// Corrupted filesystem
    Corrupt,
    /// No directory entry
    Noent,
    /// Entry already exists
    Exist,
    /// Entry is not a directory
    NotDir,
    /// Entry is a directory
    IsDir,
    /// Directory is not empty
    NotEmpty,
    /// Bad file number
    Badf,
    /// File too large
    Fbig,
    /// Invalid parameter
    Inval,
    /// No space left on device
    Nospc,
    /// No more memory available
    Nomem,
    /// No data/attr available
    Noattr,
    /// File name too long
    Nametoolong,
}

/// The littlefs code of an error.
pub open spec fn code_of(e: Error) -> i32 {
    match e {
        Error::NoError => 0,
        Error::Io => -5i32,
        Error::Corrupt => -84i32,
        Error::Noent => -2i32,
        Error::Exist => -17i32,
        Error::NotDir => -20i32,
        Error::IsDir => -21i32,
        Error::NotEmpty => -39i32,
        Error::Badf => -9i32,
        Error::Fbig => -27i32,
        Error::Inval => -22i32,
        Error::Nospc => -28i32,
        Error::Nomem => -12i32,
        Error::Noattr => -61i32,
        Error::Nametoolong => -36i32,
    }
}

impl Error {
    /// The littlefs code of this error.
    pub fn code(&self) -> (r: i32)
        ensures
            r == code_of(*self),
    {
        match self {
            Error::NoError => 0,
            Error::Io => -5,
            Error::Corrupt => -84,
            Error::Noent => -2,
            Error::Exist => -17,
            Error::NotDir => -20,
            Error::IsDir => -21,
            Error::NotEmpty => -39,
            Error::Badf => -9,
            Error::Fbig => -27,
            Error::Inval => -22,
            Error::Nospc => -28,
            Error::Nomem => -12,
            Error::Noattr => -61,
            Error::Nametoolong => -36,
        }
    }
}

/// The littlefs code of a corrupted filesystem.
pub const LFS_ERR_CORRUPT: i32 = -84;

/// The littlefs code of a missing entry.
pub const LFS_ERR_NOENT: i32 = -2;

} // verus!
