//! The errors of the archive engine.

use vstd::prelude::*;

verus! {

/// What a checksum that did not match was computed over.
#[derive(Debug, Clone, Copy, PartialEq, Eq, Structural)]
pub enum ChecksumScope {
    /// The unpacked output of a block.
    Block,
    /// One file's share of a block.
    Substream,
    /// The signature header or the start header.
    Header,
}

/// Why an operation on an archive failed.
#[derive(Debug, Clone, PartialEq, Eq)]
pub enum Error {
    /// The input does not start with the archive magic.
    BadSignature,
    /// The format version is not one this engine knows.
    UnsupportedVersion,
    /// The header breaks the grammar at byte `offset`.
    MalformedHeader { offset: u64 },
    /// A block names a codec, by its id, that is not available.
    UnsupportedCodec { id: Vec<u8> },
    /// The archive is encrypted and no password was given.
    PasswordRequired,
    /// The password does not open the archive.
    BadPassword,
    /// A stored checksum differs from the one computed.
    ChecksumMismatch { scope: ChecksumScope, index: u64 },
    /// The input ended inside a structure.
    UnexpectedEof,
    /// The underlying source or sink failed.
    Io { message: String },
    /// The caller's arguments do not fit together.
    InvalidArgument,
}

} // verus!
