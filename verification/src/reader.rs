//! Reading the fixed part of an archive: the signature header, and through it
//! the place of the final header.

use vstd::prelude::*;
use vstd::slice::slice_subrange;
use crate::archive::{SIGNATURE_HEADER_SIZE, seven_z_signature};
use crate::checksum::{crc32, crc32_ieee};
use crate::error::{ChecksumScope, Error};
use crate::writer::varint::{
    le_bytes,
    le_value,
    lemma_le_bytes_len,
    lemma_le_value_bound,
    lemma_le_value_of_le_bytes,
    lemma_pow256_values,
    pow256,
};
use crate::writer::{
    EncodedHeader,
    WriterState,
    assembled_archive,
    final_header,
    final_pack_area,
    finished_archive,
    signature_header_bytes,
    start_header_bytes,
    valid_state,
};

pub mod bridge;
pub mod checks;
pub mod entries;
pub mod files;
pub mod header;
pub mod open;
pub mod primitives;
pub mod roundtrip;
pub mod shares;
pub mod stream_map;
pub mod streams;
pub mod substreams;

verus! {

/// What the signature header says of the final header.
#[derive(Debug, Clone, Copy, PartialEq, Eq, Structural)]
pub struct StartHeader {
    /// Where the final header starts, counted from the end of the signature
    /// header.
    pub offset: u64,
    /// The length of the final header.
    pub size: u64,
    /// The CRC-32 of the final header.
    pub crc: u32,
}

/// The start header that `bytes` holds at its bytes 12 to 31.
pub open spec fn stored_start_header(bytes: Seq<u8>) -> StartHeader {
    StartHeader {
        offset: le_value(bytes.subrange(12, 20)) as u64,
        size: le_value(bytes.subrange(20, 28)) as u64,
        crc: le_value(bytes.subrange(28, 32)) as u32,
    }
}

/// What is wrong with the signature header at the start of `bytes`, if
/// anything: the first of these that holds. The input is shorter than 32
/// bytes; it does not start with the magic; the major version is not 0; the
/// stored checksum of the start header is not its CRC-32; the header's length
/// needs more than 32 bits.
pub open spec fn signature_fault(bytes: Seq<u8>) -> Option<Error> {
    if bytes.len() < SIGNATURE_HEADER_SIZE {
        Some(Error::UnexpectedEof)
    } else if bytes.subrange(0, 6) != seven_z_signature() {
        Some(Error::BadSignature)
    } else if bytes[6] != 0 {
        Some(Error::UnsupportedVersion)
    } else if le_value(bytes.subrange(8, 12)) != crc32_ieee(bytes.subrange(12, 32)) {
        Some(Error::ChecksumMismatch { scope: ChecksumScope::Header, index: 0 })
    } else if stored_start_header(bytes).size >= 0x1_0000_0000 {
        Some(Error::MalformedHeader { offset: 20 })
    } else {
        None
    }
}

/// What is wrong with the fixed part of `archive`, if anything: a fault of the
/// signature header; or the final header does not lie inside the archive; or
/// its stored checksum is not its CRC-32.
pub open spec fn header_fault(archive: Seq<u8>) -> Option<Error> {
    let start = stored_start_header(archive);
    if signature_fault(archive) is Some {
        signature_fault(archive)
    } else if SIGNATURE_HEADER_SIZE + start.offset + start.size > archive.len() {
        Some(Error::UnexpectedEof)
    } else if start.crc != crc32_ieee(header_of(archive)) {
        Some(Error::ChecksumMismatch { scope: ChecksumScope::Header, index: 1 })
    } else {
        None
    }
}

/// The final header of `archive`, as the signature header places it.
pub open spec fn header_of(archive: Seq<u8>) -> Seq<u8> {
    let start = stored_start_header(archive);
    archive.subrange(
        SIGNATURE_HEADER_SIZE + start.offset,
        SIGNATURE_HEADER_SIZE + start.offset + start.size,
    )
}

/// Reads the little-endian number of `count` bytes at `at`.
fn read_le(bytes: &[u8], at: usize, count: usize) -> (value: u64)
    requires
        count <= 8,
        at + count <= bytes@.len(),
    ensures
        value == le_value(bytes@.subrange(at as int, at + count)),
{
    let ghost field = bytes@.subrange(at as int, at + count);
    let len: usize = bytes.len();
    let mut value: u64 = 0;
    let mut i: usize = count;
    proof {
        assert(field.subrange(count as int, count as int) =~= Seq::<u8>::empty());
    }
    while i > 0
        invariant
            i <= count <= 8,
            at + count <= bytes@.len() == len,
            field == bytes@.subrange(at as int, at + count),
            value == le_value(field.subrange(i as int, count as int)),
        decreases i,
    {
        proof {
            let tail = field.subrange(i as int, count as int);
            let longer = field.subrange(i - 1, count as int);
            assert(longer.skip(1) =~= tail);
            lemma_le_value_bound(longer);
            lemma_le_value_bound(tail);
            lemma_pow256_values();
            assert(pow256(longer.len()) <= pow256(8)) by {
                crate::reader::primitives::lemma_pow256_grows(longer.len(), 8);
            }
        }
        value = value * 256 + bytes[at + (i - 1)] as u64;
        i = i - 1;
    }
    proof {
        assert(field.subrange(0, count as int) =~= field);
    }
    value
}

/// Reads and checks the signature header at the start of `bytes`.
pub fn read_signature_header(bytes: &[u8]) -> (result: Result<StartHeader, Error>)
    ensures
        match result {
            Ok(start) => signature_fault(bytes@) is None && start == stored_start_header(bytes@),
            Err(error) => signature_fault(bytes@) == Some(error),
        },
{
    if bytes.len() < SIGNATURE_HEADER_SIZE as usize {
        return Err(Error::UnexpectedEof);
    }
    let ghost magic = bytes@.subrange(0, 6);
    if bytes[0] != 0x37 || bytes[1] != 0x7A || bytes[2] != 0xBC || bytes[3] != 0xAF || bytes[4]
        != 0x27 || bytes[5] != 0x1C {
        proof {
            assert(magic[0] == bytes@[0] && magic[1] == bytes@[1] && magic[2] == bytes@[2]
                && magic[3] == bytes@[3] && magic[4] == bytes@[4] && magic[5] == bytes@[5]);
        }
        return Err(Error::BadSignature);
    }
    assert(magic =~= seven_z_signature());
    if bytes[6] != 0 {
        return Err(Error::UnsupportedVersion);
    }
    let stored_crc = read_le(bytes, 8, 4);
    let start_crc = crc32(slice_subrange(bytes, 12, 32));
    if stored_crc != start_crc as u64 {
        return Err(Error::ChecksumMismatch { scope: ChecksumScope::Header, index: 0 });
    }
    let offset = read_le(bytes, 12, 8);
    let size = read_le(bytes, 20, 8);
    let crc = read_le(bytes, 28, 4);
    proof {
        lemma_le_value_bound(bytes@.subrange(28, 32));
        lemma_pow256_values();
    }
    if size >= 0x1_0000_0000 {
        return Err(Error::MalformedHeader { offset: 20 });
    }
    Ok(StartHeader { offset, size, crc: crc as u32 })
}

/// Checks the fixed part of `archive` and returns its final header.
pub fn read_header_bytes(archive: &[u8]) -> (result: Result<&[u8], Error>)
    ensures
        match result {
            Ok(header) => header_fault(archive@) is None && header@ == header_of(archive@),
            Err(error) => header_fault(archive@) == Some(error),
        },
{
    let start = match read_signature_header(archive) {
        Ok(start) => start,
        Err(error) => {
            return Err(error);
        },
    };
    let room: u64 = archive.len() as u64 - SIGNATURE_HEADER_SIZE;
    if start.offset > room || start.size > room - start.offset {
        return Err(Error::UnexpectedEof);
    }
    let from: usize = (SIGNATURE_HEADER_SIZE + start.offset) as usize;
    let to: usize = from + start.size as usize;
    let header = slice_subrange(archive, from, to);
    if crc32(header) != start.crc {
        return Err(Error::ChecksumMismatch { scope: ChecksumScope::Header, index: 1 });
    }
    Ok(header)
}

/// A signature header built around a start header passes the checks of the
/// signature header, and gives the start header's fields back.
pub proof fn lemma_signature_header_reads_back(offset: u64, size: u64, crc: u32, rest: Seq<u8>)
    requires
        size < 0x1_0000_0000,
    ensures
        ({
            let start = start_header_bytes(offset, size, crc);
            let archive = signature_header_bytes(start, crc32_ieee(start)) + rest;
            &&& signature_fault(archive) is None
            &&& stored_start_header(archive) == (StartHeader { offset, size, crc })
            &&& archive.subrange(SIGNATURE_HEADER_SIZE as int, archive.len() as int) == rest
        }),
{
    let start = start_header_bytes(offset, size, crc);
    let start_crc = crc32_ieee(start);
    let archive = signature_header_bytes(start, start_crc) + rest;
    lemma_pow256_values();
    lemma_le_bytes_len(offset as nat, 8);
    lemma_le_bytes_len(size as nat, 8);
    lemma_le_bytes_len(crc as nat, 4);
    lemma_le_bytes_len(start_crc as nat, 4);
    lemma_le_value_of_le_bytes(offset as nat, 8);
    lemma_le_value_of_le_bytes(size as nat, 8);
    lemma_le_value_of_le_bytes(crc as nat, 4);
    lemma_le_value_of_le_bytes(start_crc as nat, 4);
    assert(start.len() == 20);
    assert(archive.subrange(0, 6) =~= seven_z_signature());
    assert(archive[6] == 0);
    assert(archive.subrange(8, 12) =~= le_bytes(start_crc as nat, 4));
    assert(archive.subrange(12, 32) =~= start);
    assert(archive.subrange(12, 20) =~= le_bytes(offset as nat, 8));
    assert(archive.subrange(20, 28) =~= le_bytes(size as nat, 8));
    assert(archive.subrange(28, 32) =~= le_bytes(crc as nat, 4));
    assert(archive.subrange(SIGNATURE_HEADER_SIZE as int, archive.len() as int) =~= rest);
}

/// An archive that is assembled around a header shorter than 4 GiB passes
/// every check of the fixed part, and the header that its signature header
/// points to is the one it was assembled around.
pub proof fn lemma_assembled_archive_reads_back(pack_area: Seq<u8>, header: Seq<u8>)
    requires
        header.len() < 0x1_0000_0000,
        pack_area.len() <= u64::MAX,
    ensures
        header_fault(assembled_archive(pack_area, header)) is None,
        header_of(assembled_archive(pack_area, header)) == header,
{
    let archive = assembled_archive(pack_area, header);
    let offset = pack_area.len() as u64;
    let size = header.len() as u64;
    let crc = crc32_ieee(header);
    let start = start_header_bytes(offset, size, crc);
    let signature = signature_header_bytes(start, crc32_ieee(start));
    let body = pack_area + header;
    assert(archive =~= signature + body);
    lemma_signature_header_reads_back(offset, size, crc, body);
    assert(archive.subrange(SIGNATURE_HEADER_SIZE as int, archive.len() as int) == body);
    assert(archive.len() == SIGNATURE_HEADER_SIZE + body.len());
    assert(header_of(archive) =~= body.subrange(pack_area.len() as int, body.len() as int));
    assert(body.subrange(pack_area.len() as int, body.len() as int) =~= header);
}

/// What `finish` gives back passes every check of the fixed part: both stored
/// checksums are the CRC-32 of what they cover, and the header that the
/// signature header points to is the one that was written behind the pack
/// area. This holds of every header shorter than 4 GiB: of a longer one only
/// the low 32 bits of the length are stored.
pub proof fn lemma_finished_archive_reads_back(state: WriterState, encoded: Option<EncodedHeader>)
    requires
        valid_state(state),
        final_header(state, encoded).len() < 0x1_0000_0000,
        final_pack_area(state, encoded).len() <= u64::MAX,
    ensures
        header_fault(finished_archive(state, encoded)) is None,
        header_of(finished_archive(state, encoded)) == final_header(state, encoded),
{
    lemma_assembled_archive_reads_back(
        final_pack_area(state, encoded),
        final_header(state, encoded),
    );
}

} // verus!
