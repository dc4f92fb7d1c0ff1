//! `ghmd` manages symlinks to dotfiles: it relocates configuration files out
//! of their original locations into a centralized, hierarchy-preserving
//! storage tree, and replaces the original locations with symbolic links back
//! into that tree.
//!
//! The crate reasons about a filesystem model: paths are sequences of name
//! segments, and the filesystem is a finite map from absolute paths to
//! entries (regular files with byte content, directories, and symbolic
//! links), together with a mount table that assigns device identities to
//! path prefixes.  The stow, deploy and restore operations are specified and
//! verified as transitions on that model; a front end performs the actual
//! system calls, mirroring the verified decisions.

pub mod config;
pub mod errors;
pub mod fs;
pub mod paths;
pub mod views;

pub use crate::config::Config;
pub use crate::config::{DotfilePath, Dotfiles, DotfilesDir, SymlinkDir};
pub use crate::errors::Error;
pub use crate::fs::{FsEntry, FsState};
pub use crate::paths::FsPath;
