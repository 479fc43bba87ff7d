//! Opening an archive: checking its fixed part and reading its header.

use vstd::prelude::*;
use crate::archive::K_ENCODED_HEADER;
use crate::error::Error;
use crate::reader::header::{
    Archive,
    parsed_block_description,
    parsed_header,
    read_encoded_header,
    read_header,
    streams_assigned,
};
use crate::reader::roundtrip::{
    lemma_encoded_header_reads_back,
    lemma_written_header_reads_back,
    written_model,
};
use crate::reader::streams::{PackStreams, has_tag, tag_at};
use crate::archive::SIGNATURE_HEADER_SIZE;
use crate::reader::{
    header_fault,
    header_of,
    lemma_finished_archive_reads_back,
    read_header_bytes,
    read_signature_header,
    stored_start_header,
};
use crate::writer::pack_info::PackInfo;
use crate::writer::unpack_info::BlockInfo;
use crate::checksum::crc32_ieee;
use crate::writer::{
    EncodedHeader,
    WriterState,
    block_matches,
    countable,
    header_coders,
    single_block,
    encoded_header_refused,
    final_header,
    final_pack_area,
    finished_archive,
    header_bytes,
    header_is_encoded,
    valid_state,
};

verus! {

/// What opening an archive gives.
#[derive(Debug)]
pub enum Opened {
    /// The archive, read from a plain header.
    Plain(Archive),
    /// The place and the block of an encoded header: the header itself has to
    /// be unpacked from the pack area before it can be read.
    Encoded { pack_info: PackInfo, block: BlockInfo },
}

/// Where the final header of `archive` starts.
pub open spec fn header_start(archive: Seq<u8>) -> u64 {
    (SIGNATURE_HEADER_SIZE + stored_start_header(archive).offset) as u64
}

/// Opens an archive: checks the signature header and the checksum of the
/// final header, and reads the final header, or where it is encoded, its
/// description. A header that does not read is reported as malformed, with
/// the place in the archive where it starts.
pub fn open(archive: &[u8]) -> (result: Result<Opened, Error>)
    ensures
        match header_fault(archive@) {
            Some(fault) => result == Err::<Opened, Error>(fault),
            None => if tag_at(header_of(archive@), 0, K_ENCODED_HEADER) {
                match parsed_block_description(header_of(archive@)) {
                    Some((pack, block)) => {
                        &&& result matches Ok(Opened::Encoded { pack_info, block: found })
                        &&& (PackStreams {
                            pos: (result->Ok_0)->pack_info.pos,
                            sizes: (result->Ok_0)->pack_info.sizes@,
                            crcs: (result->Ok_0)->pack_info.crcs@,
                        }) == pack
                        &&& (result->Ok_0)->block@ == block
                    },
                    None => result == Err::<Opened, Error>(
                        Error::MalformedHeader { offset: header_start(archive@) },
                    ),
                }
            } else {
                match parsed_header(header_of(archive@)) {
                    Some(model) => {
                        &&& result matches Ok(Opened::Plain(found))
                        &&& (result->Ok_0)->Plain_0@ == model
                        &&& streams_assigned((result->Ok_0)->Plain_0.files@, model.blocks)
                    },
                    None => result == Err::<Opened, Error>(
                        Error::MalformedHeader { offset: header_start(archive@) },
                    ),
                }
            },
        },
{
    let header = match read_header_bytes(archive) {
        Ok(header) => header,
        Err(fault) => {
            return Err(fault);
        },
    };
    let len: usize = archive.len();
    let start: u64 = match read_signature_header(archive) {
        Ok(start) => {
            assert(SIGNATURE_HEADER_SIZE + start.offset + start.size <= len);
            SIGNATURE_HEADER_SIZE + start.offset
        },
        Err(fault) => {
            return Err(fault);
        },
    };
    if has_tag(header, 0, K_ENCODED_HEADER) {
        match read_encoded_header(header) {
            Ok((pack_info, block)) => Ok(Opened::Encoded { pack_info, block }),
            Err(_) => Err(Error::MalformedHeader { offset: start }),
        }
    } else {
        match read_header(header) {
            Ok(found) => Ok(Opened::Plain(found)),
            Err(_) => Err(Error::MalformedHeader { offset: start }),
        }
    }
}

/// An archive that the writer finished with a plain header opens, whether no
/// encoded header was offered or the one offered was not short enough: its
/// fixed part passes every check, and its header reads back as the archive
/// that the writer's state describes.
pub proof fn lemma_finished_archive_opens(state: WriterState, encoded: Option<EncodedHeader>)
    requires
        valid_state(state),
        countable(state),
        !header_is_encoded(state, encoded),
        header_bytes(state).len() < 0x1_0000_0000,
    ensures
        header_fault(finished_archive(state, encoded)) is None,
        header_of(finished_archive(state, encoded)) == header_bytes(state),
        parsed_header(header_of(finished_archive(state, encoded))) == Some(written_model(state)),
{
    assert(final_header(state, encoded) == header_bytes(state));
    lemma_finished_archive_reads_back(state, encoded);
    lemma_written_header_reads_back(state);
}

/// What is put behind a byte string is what follows the byte string.
pub proof fn lemma_behind(first: Seq<u8>, second: Seq<u8>)
    ensures
        (first + second).skip(first.len() as int) == second,
{
    assert((first + second).skip(first.len() as int) =~= second);
}

/// An archive that the writer finished with an encoded header opens as well.
/// Its fixed part passes every check. Its final header reads back as the
/// description of one block: the packed header lies at the end of the pack
/// area, where the description says, with the size and the checksum it says,
/// and the block has the header's coder chain, the sizes along it, and the
/// size and the checksum of the plain header. The plain header, once the
/// codecs have unpacked it, reads back as the archive that the writer's state
/// describes.
#[verifier::rlimit(50)]
pub proof fn lemma_finished_archive_opens_encoded(state: WriterState, encoded: EncodedHeader)
    requires
        valid_state(state),
        countable(state),
        !encoded_header_refused(state, Some(encoded)),
        header_is_encoded(state, Some(encoded)),
        header_bytes(state).len() <= u64::MAX,
        final_header(state, Some(encoded)).len() < 0x1_0000_0000,
        final_pack_area(state, Some(encoded)).len() <= u64::MAX,
    ensures
        header_fault(finished_archive(state, Some(encoded))) is None,
        parsed_block_description(header_of(finished_archive(state, Some(encoded)))) == Some(
            (
                PackStreams {
                    pos: (state.output.len() - SIGNATURE_HEADER_SIZE) as u64,
                    sizes: seq![encoded.stream.packed@.len() as u64],
                    crcs: seq![crc32_ieee(encoded.stream.packed@)],
                },
                single_block(
                    header_coders(state, encoded.lzma2@),
                    encoded.stream.stage_sizes@,
                    header_bytes(state),
                ),
            ),
        ),
        final_pack_area(state, Some(encoded)).skip(state.output.len() - SIGNATURE_HEADER_SIZE)
            == encoded.stream.packed@,
        block_matches(
            single_block(
                header_coders(state, encoded.lzma2@),
                encoded.stream.stage_sizes@,
                header_bytes(state),
            ),
            header_bytes(state),
        ),
        parsed_header(header_bytes(state)) == Some(written_model(state)),
{
    lemma_finished_archive_reads_back(state, Some(encoded));
    lemma_encoded_header_reads_back(state, encoded);
    lemma_written_header_reads_back(state);
    lemma_behind(state.output.skip(SIGNATURE_HEADER_SIZE as int), encoded.stream.packed@);
}

} // verus!
