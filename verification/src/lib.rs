//! Core of a 7z archive engine: the tagged header grammar in both directions,
//! the bookkeeping of packed streams and blocks, and the assembly of a
//! complete archive in memory.
//!
//! Compression codecs are not part of this crate. A caller runs its coder chain
//! and hands the resulting bytes to the writer, which records sizes and
//! checksums and serialises the archive header. The reader checks the fixed
//! part of an archive and reads headers of the form that the writer gives
//! them; what the writer writes, the reader provably reads back.

use vstd::prelude::*;

pub mod archive;
pub mod bitset;
pub mod checksum;
pub mod error;
pub mod reader;
pub mod writer;

pub use crate::archive::{ArchiveEntry, EncoderConfiguration, EncoderMethod};
pub use crate::error::Error;
pub use crate::writer::ArchiveWriter;

verus! {

/// A writer that can finish its stream without reporting errors.
pub trait AutoFinish: Sized {
    /// Whether the writer is in a state in which it can finish. A writer that
    /// can always finish need not say so.
    open spec fn ready(&self) -> bool {
        true
    }

    /// Finishes the stream and drops whatever error that gives.
    fn finish_ignore_error(self)
        requires
            self.ready(),
    ;
}

} // verus!
