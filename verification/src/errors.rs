//! The error type shared by every operation of the crate.

use vstd::prelude::*;

use crate::paths::FsPath;

verus! {

/// Everything that can go wrong while mapping paths or relocating files.
/// Each variant carries the path (or message) that the failure is about;
/// no failure is ever reported by silently overwriting or skipping.
#[derive(Debug)]
pub enum Error {
    /// Bad input detected.
    BadInput(&'static str),
    /// An expected filesystem entry is missing.
    PathDoesNotExist(FsPath),
    /// A destination is occupied by an entry of an unexpected kind; it is
    /// never overwritten.
    ConflictingPath(FsPath),
    /// The storage slot for a dotfile is occupied by something that is not
    /// the stowed dotfile itself.
    DotfilePathAlreadyExists(FsPath),
    /// The live location holds a symlink that points somewhere other than
    /// the expected storage path.
    SymlinkPathAlreadyExists(FsPath),
    /// The path was expected to be a symlink but is not.
    SymlinkPathIsNotASymlink(FsPath),
    /// The named dotfile is not present in storage.
    DotfileNotFound(FsPath),
    /// The path is not rooted under the given prefix.
    PathDoesNotStartWithPrefix(FsPath, FsPath),
    /// A managed path must be relative to its roots.
    DotfilePathMustBeRelative(FsPath),
    /// No registered dotfile set owns the path.
    NoMatchingDotfileConfigured(FsPath),
    /// The symlink destination has no parent directory to create it in.
    InvalidSymlinkDestinationDirectory(FsPath),
    /// The device identity of the path cannot be determined, so a move
    /// cannot choose between rename and copy-then-delete.
    UnableToRetrievePathDeviceInfo(FsPath),
}

impl Error {
    /// A short description of the failure class, for reporting.
    pub fn describe(&self) -> (r: &'static str)
        ensures
            r@.len() > 0,
    {
        match self {
            Error::BadInput(_) => {
                proof { reveal_strlit("bad input detected"); }
                "bad input detected"
            },
            Error::PathDoesNotExist(_) => {
                proof { reveal_strlit("expected path to exist, but it doesn't"); }
                "expected path to exist, but it doesn't"
            },
            Error::ConflictingPath(_) => {
                proof { reveal_strlit("path is occupied by a conflicting entry"); }
                "path is occupied by a conflicting entry"
            },
            Error::DotfilePathAlreadyExists(_) => {
                proof { reveal_strlit("dotfile path already exists"); }
                "dotfile path already exists"
            },
            Error::SymlinkPathAlreadyExists(_) => {
                proof { reveal_strlit("path already exists and doesn't point to the expected dotfile"); }
                "path already exists and doesn't point to the expected dotfile"
            },
            Error::SymlinkPathIsNotASymlink(_) => {
                proof { reveal_strlit("path is not a symlink"); }
                "path is not a symlink"
            },
            Error::DotfileNotFound(_) => {
                proof { reveal_strlit("could not find specified dotfile"); }
                "could not find specified dotfile"
            },
            Error::PathDoesNotStartWithPrefix(_, _) => {
                proof { reveal_strlit("path does not start with prefix"); }
                "path does not start with prefix"
            },
            Error::DotfilePathMustBeRelative(_) => {
                proof { reveal_strlit("dotfile path must be relative"); }
                "dotfile path must be relative"
            },
            Error::NoMatchingDotfileConfigured(_) => {
                proof { reveal_strlit("no configured dotfile found that matches path"); }
                "no configured dotfile found that matches path"
            },
            Error::InvalidSymlinkDestinationDirectory(_) => {
                proof { reveal_strlit("invalid symlink destination directory"); }
                "invalid symlink destination directory"
            },
            Error::UnableToRetrievePathDeviceInfo(_) => {
                proof { reveal_strlit("unable to retrieve path device info"); }
                "unable to retrieve path device info"
            },
        }
    }
}

} // verus!
