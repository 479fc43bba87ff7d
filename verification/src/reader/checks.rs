//! Checking unpacked and packed bytes against what the header says of them.

use vstd::prelude::*;
use crate::archive::ArchiveEntry;
use crate::checksum::{crc32, crc32_ieee};
use crate::error::{ChecksumScope, Error};
use crate::writer::pack_info::PackInfo;
use crate::writer::unpack_info::BlockInfo;
use crate::writer::{WriterState, file_matches, valid_state};

verus! {

/// What is wrong with `data` as the content of file `index`, if anything: it
/// has not the size of the file, or not the file's checksum where the file has
/// one.
pub open spec fn file_fault(entry: ArchiveEntry, index: u64, data: Seq<u8>) -> Option<Error> {
    if data.len() != entry.size {
        Some(Error::UnexpectedEof)
    } else if entry.has_crc && entry.crc != crc32_ieee(data) {
        Some(Error::ChecksumMismatch { scope: ChecksumScope::Substream, index })
    } else {
        None
    }
}

/// Checks the content of a file against its entry.
pub fn check_file(entry: &ArchiveEntry, index: u64, data: &[u8]) -> (result: Result<(), Error>)
    ensures
        match file_fault(*entry, index, data@) {
            Some(fault) => result == Err::<(), Error>(fault),
            None => result is Ok,
        },
{
    if data.len() as u64 != entry.size {
        return Err(Error::UnexpectedEof);
    }
    if entry.has_crc && entry.crc != crc32(data) as u64 {
        return Err(Error::ChecksumMismatch { scope: ChecksumScope::Substream, index });
    }
    Ok(())
}

/// What is wrong with `unpacked` as what block `index` unpacks to, if
/// anything: it has not the last of the block's sizes, or, for a block of one
/// file, not the block's checksum.
pub open spec fn block_fault(block: BlockInfo, index: u64, unpacked: Seq<u8>) -> Option<Error> {
    if block.sizes@.len() == 0 || unpacked.len() != block.sizes@.last() {
        Some(Error::UnexpectedEof)
    } else if block.num_sub_unpack_streams == 1 && block.sub_stream_crcs@.len() == 0 && block.crc
        != crc32_ieee(unpacked) {
        Some(Error::ChecksumMismatch { scope: ChecksumScope::Block, index })
    } else {
        None
    }
}

/// Checks what a block unpacked to against the block.
pub fn check_block(block: &BlockInfo, index: u64, unpacked: &[u8]) -> (result: Result<(), Error>)
    ensures
        match block_fault(*block, index, unpacked@) {
            Some(fault) => result == Err::<(), Error>(fault),
            None => result is Ok,
        },
{
    if block.sizes.len() == 0 || unpacked.len() as u64 != block.sizes[block.sizes.len() - 1] {
        return Err(Error::UnexpectedEof);
    }
    if block.num_sub_unpack_streams == 1 && block.sub_stream_crcs.len() == 0 && block.crc != crc32(
        unpacked,
    ) {
        return Err(Error::ChecksumMismatch { scope: ChecksumScope::Block, index });
    }
    Ok(())
}

/// What is wrong with `packed` as packed stream `index`, if anything: there
/// is no such stream, it has not the stream's size, or not the stream's
/// checksum where the stream has one. A stored checksum of zero stands for
/// none.
pub open spec fn packed_fault(pack_info: PackInfo, index: u64, packed: Seq<u8>) -> Option<Error> {
    if index >= pack_info.sizes@.len() || index >= pack_info.crcs@.len() {
        Some(Error::InvalidArgument)
    } else if packed.len() != pack_info.sizes@[index as int] {
        Some(Error::UnexpectedEof)
    } else if pack_info.crcs@[index as int] != 0 && pack_info.crcs@[index as int] != crc32_ieee(
        packed,
    ) {
        Some(Error::ChecksumMismatch { scope: ChecksumScope::Block, index })
    } else {
        None
    }
}

/// Checks a packed stream against the pack info.
pub fn check_packed(pack_info: &PackInfo, index: u64, packed: &[u8]) -> (result: Result<
    (),
    Error,
>)
    ensures
        match packed_fault(*pack_info, index, packed@) {
            Some(fault) => result == Err::<(), Error>(fault),
            None => result is Ok,
        },
{
    if index >= pack_info.sizes.len() as u64 || index >= pack_info.crcs.len() as u64 {
        return Err(Error::InvalidArgument);
    }
    let at: usize = index as usize;
    if packed.len() as u64 != pack_info.sizes[at] {
        return Err(Error::UnexpectedEof);
    }
    let stored = pack_info.crcs[at];
    if stored != 0 && stored != crc32(packed) {
        return Err(Error::ChecksumMismatch { scope: ChecksumScope::Block, index });
    }
    Ok(())
}

/// In every state that a writer can reach, the content of each file passes the
/// check against its entry: the entry carries the content's size, and where
/// the file has a stream, its CRC-32.
pub proof fn lemma_written_files_pass(state: WriterState, i: int)
    requires
        valid_state(state),
        0 <= i < state.files.len(),
        i <= u64::MAX,
    ensures
        file_fault(state.files[i], i as u64, state.contents[i]) is None,
{
    assert(file_matches(state.files[i], state.contents[i]));
}

} // verus!
