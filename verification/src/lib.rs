//! A library for reading MPQ archives.
//!
//! An MPQ archive is a container with a hashed directory of named,
//! sector-compressed, optionally encrypted files. The library locates the
//! archive header inside a byte buffer, decrypts the hash and block
//! directories, resolves names through the open-addressed hash table, and
//! decodes file payloads sector by sector.

use vstd::prelude::*;

pub mod archive;
pub mod chain;
pub mod compression;
pub mod crypt;

verus! {

pub use crate::archive::{Archive, File};
pub use crate::chain::Chain;

/// The errors an archive operation can surface.
#[derive(Clone, Copy, Debug, PartialEq, Eq, Structural)]
pub enum MpqError {
    /// The name is not present in the archive's hash table.
    NotFound,
    /// A magic value is missing or a directory structure is corrupt.
    InvalidData,
    /// The extraction target already exists.
    AlreadyExists,
    /// A feature of the format this reader does not implement.
    Unsupported,
    /// A sector's stored checksum does not match its bytes.
    ChecksumError,
    /// A read reaches past the end of the archive bytes.
    UnexpectedEof,
}

} // verus!
