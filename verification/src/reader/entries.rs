//! What a reader has of the files that a writer was given: the entries of the
//! header, with the sizes and the checksums that the blocks hold for them.

use vstd::prelude::*;
use crate::archive::ArchiveEntry;
use crate::reader::bridge::lemma_utf16_text_tells_text;
use crate::reader::checks::file_fault;
use crate::reader::files::{file_model, models_of};
use crate::reader::header::{parsed_block_description, parsed_header, streams_assigned};
use crate::reader::open::{lemma_finished_archive_opens, lemma_finished_archive_opens_encoded};
use crate::reader::{header_fault, header_of};
use crate::reader::primitives::spread;
use crate::reader::roundtrip::{
    lemma_lists_of_normal,
    normal_block,
    normal_blocks,
    normal_file,
    written_model,
};
use crate::reader::shares::{has_share, lemma_contents_are_shares, share_of};
use crate::reader::stream_map::{file_in_block, held_before, streams_before};
use crate::writer::unpack_info::{Block, block_sizes};
use crate::writer::{
    ArchiveWriter,
    EncodedHeader,
    WriterState,
    block_valid,
    countable,
    encoded_header_refused,
    file_crcs,
    file_matches,
    file_sizes,
    final_header,
    final_pack_area,
    finished_archive,
    header_bytes,
    header_is_encoded,
    valid_state,
};

verus! {

/// For each file, whether it has a stream.
pub open spec fn stream_flags(files: Seq<ArchiveEntry>) -> Seq<bool> {
    Seq::new(files.len(), |i: int| files[i].has_stream)
}

/// Handing the sizes and the checksums of the files with a stream back to the
/// files, in order, gives each file with a stream its own.
pub proof fn lemma_spread_file_streams(files: Seq<ArchiveEntry>, flags: Seq<bool>, i: int)
    requires
        flags == stream_flags(files),
        0 <= i < files.len(),
    ensures
        spread(flags, file_sizes(files), 0u64).len() == files.len(),
        spread(flags, file_crcs(files), 0u32).len() == files.len(),
        spread(flags, file_sizes(files), 0u64)[i] == if files[i].has_stream {
            files[i].size
        } else {
            0
        },
        spread(flags, file_crcs(files), 0u32)[i] == if files[i].has_stream {
            #[verifier::truncate]
            (files[i].crc as u32)
        } else {
            0
        },
    decreases files.len(),
{
    let front = files.drop_last();
    let front_flags = flags.drop_last();
    let sizes = file_sizes(files);
    let crcs = file_crcs(files);
    assert(front_flags =~= stream_flags(front));
    assert(flags.last() == files.last().has_stream);
    // what the spreading gives for the files before the last
    let front_sizes = spread(front_flags, file_sizes(front), 0u64);
    let front_crcs = spread(front_flags, file_crcs(front), 0u32);
    if files.len() > 1 {
        let j = if i < files.len() - 1 {
            i
        } else {
            0
        };
        lemma_spread_file_streams(front, front_flags, j);
        assert(front[j] == files[j]);
    } else {
        assert(front_flags.len() == 0);
        assert(front_sizes.len() == 0);
        assert(front_crcs.len() == 0);
    }
    assert(front_sizes.len() == front.len());
    assert(front_crcs.len() == front.len());
    if files.last().has_stream {
        assert(sizes == file_sizes(front).push(files.last().size));
        assert(sizes.drop_last() =~= file_sizes(front));
        assert(crcs.drop_last() =~= file_crcs(front));
        assert(spread(flags, sizes, 0u64) == front_sizes.push(sizes.last()));
        assert(spread(flags, crcs, 0u32) == front_crcs.push(crcs.last()));
    } else {
        assert(sizes == file_sizes(front));
        assert(crcs == file_crcs(front));
        assert(spread(flags, sizes, 0u64) == front_sizes.push(0u64));
        assert(spread(flags, crcs, 0u32) == front_crcs.push(0u32));
    }
}

/// The entries that a reader makes of the header of a writer's state are the
/// entries that were pushed, in their order: each has the name of its entry,
/// its flags, times and attributes as a header holds them, and its size; each
/// one with a stream has the checksum of its content; and the content that
/// was pushed with it passes the check against it.
pub proof fn lemma_entries_read_back(state: WriterState, read: Seq<ArchiveEntry>, i: int)
    requires
        valid_state(state),
        models_of(read) == written_model(state).files,
        streams_assigned(read, written_model(state).blocks),
        0 <= i < state.files.len(),
        i <= u64::MAX,
    ensures
        read.len() == state.files.len(),
        read[i].name@ == state.files[i].name@,
        file_model(read[i]) == normal_file(file_model(state.files[i])),
        read[i].size == state.files[i].size,
        read[i].has_crc == state.files[i].has_crc,
        read[i].has_stream ==> read[i].crc == state.files[i].crc,
        file_fault(read[i], i as u64, state.contents[i]) is None,
{
    let files = state.files;
    assert(models_of(read).len() == read.len());
    assert(written_model(state).files.len() == files.len());
    assert(file_model(read[i]) == models_of(read)[i]);
    assert(written_model(state).files[i] == normal_file(file_model(files[i])));
    lemma_lists_of_normal(state.blocks);
    let flags = stream_flags(read);
    assert(flags =~= stream_flags(files)) by {
        assert forall|j: int| 0 <= j < read.len() implies read[j].has_stream
            == files[j].has_stream by {
            assert(file_model(read[j]) == models_of(read)[j]);
            assert(written_model(state).files[j] == normal_file(file_model(files[j])));
        }
    }
    lemma_spread_file_streams(files, flags, i);
    assert(file_matches(files[i], state.contents[i]));
    lemma_utf16_text_tells_text(read[i].name@, files[i].name@);
}

/// Entries with the same flags have as many files with a stream among their
/// first ones.
pub proof fn lemma_same_streams_before(
    read: Seq<ArchiveEntry>,
    files: Seq<ArchiveEntry>,
    count: int,
)
    requires
        read.len() == files.len(),
        forall|j: int| 0 <= j < files.len() ==> (#[trigger] read[j]).has_stream
            == files[j].has_stream,
        0 <= count <= files.len(),
    ensures
        streams_before(read, count) == streams_before(files, count),
    decreases count,
{
    if count > 0 {
        lemma_same_streams_before(read, files, count - 1);
        assert(read[count - 1].has_stream == files[count - 1].has_stream);
    }
}

/// Valid blocks hold as many files, of the same sizes, in the form in which a
/// header holds them.
pub proof fn lemma_normal_blocks_hold(blocks: Seq<Block>, b: int)
    requires
        forall|i: int| 0 <= i < blocks.len() ==> block_valid(#[trigger] blocks[i]),
        0 <= b <= blocks.len(),
    ensures
        held_before(normal_blocks(blocks), b) == held_before(blocks, b),
        b < blocks.len() ==> block_sizes(normal_blocks(blocks)[b]) == block_sizes(blocks[b])
            && normal_blocks(blocks)[b].sizes == blocks[b].sizes,
{
    let first = blocks.take(b);
    assert forall|i: int| 0 <= i < first.len() implies block_valid(#[trigger] first[i]) by {
        assert(first[i] == blocks[i]);
    }
    lemma_lists_of_normal(first);
    assert(normal_blocks(blocks).take(b) =~= normal_blocks(first));
    if b < blocks.len() {
        assert(block_valid(blocks[b]));
        assert(normal_blocks(blocks)[b] == normal_block(blocks[b]));
    }
}

/// The content that was pushed with a file is where a reader looks for it.
/// Where the entries and the blocks that a reader makes of the header of a
/// writer's state put file `i` into block `b`, the block has a share for the
/// file in what the block unpacks to, and the share is the content that was
/// pushed with the file.
pub proof fn lemma_contents_read_back(state: WriterState, read: Seq<ArchiveEntry>, i: int, b: int)
    requires
        valid_state(state),
        models_of(read) == written_model(state).files,
        file_in_block(read, written_model(state).blocks, i, b),
    ensures
        0 <= i < state.files.len(),
        0 <= b < state.blocks.len(),
        has_share(
            written_model(state).blocks[b],
            streams_before(read, i) - held_before(written_model(state).blocks, b),
            state.unpacked[b].len(),
        ),
        share_of(
            written_model(state).blocks[b],
            streams_before(read, i) - held_before(written_model(state).blocks, b),
            state.unpacked[b],
        ) == state.contents[i],
{
    let files = state.files;
    let blocks = state.blocks;
    assert(models_of(read).len() == read.len());
    assert(written_model(state).files.len() == files.len());
    assert forall|j: int| 0 <= j < files.len() implies (#[trigger] read[j]).has_stream
        == files[j].has_stream by {
        assert(file_model(read[j]) == models_of(read)[j]);
        assert(written_model(state).files[j] == normal_file(file_model(files[j])));
    }
    lemma_same_streams_before(read, files, i);
    lemma_normal_blocks_hold(blocks, b);
    lemma_normal_blocks_hold(blocks, b + 1);
    assert(file_in_block(files, blocks, i, b));
    lemma_contents_are_shares(state, i, b);
    let place = streams_before(files, i) - held_before(blocks, b);
    assert(share_of(normal_blocks(blocks)[b], place, state.unpacked[b]) == share_of(
        blocks[b],
        place,
        state.unpacked[b],
    ));
}

/// The archive that a state finishes as reads back, whichever header it ends
/// with.
#[verifier::rlimit(50)]
proof fn lemma_state_reads_back(
    state: WriterState,
    encoded: Option<EncodedHeader>,
    read: Seq<ArchiveEntry>,
    i: int,
)
    requires
        valid_state(state),
        countable(state),
        !encoded_header_refused(state, encoded),
        header_bytes(state).len() <= u64::MAX,
        final_header(state, encoded).len() < 0x1_0000_0000,
        final_pack_area(state, encoded).len() <= u64::MAX,
        models_of(read) == written_model(state).files,
        streams_assigned(read, written_model(state).blocks),
        0 <= i < state.files.len(),
        i <= u64::MAX,
    ensures
        header_fault(finished_archive(state, encoded)) is None,
        !header_is_encoded(state, encoded) ==> header_of(finished_archive(state, encoded))
            == header_bytes(state),
        header_is_encoded(state, encoded) ==> parsed_block_description(
            header_of(finished_archive(state, encoded)),
        ) is Some,
        parsed_header(header_bytes(state)) == Some(written_model(state)),
        read.len() == state.files.len(),
        read[i].name@ == state.files[i].name@,
        read[i].size == state.files[i].size,
        read[i].has_stream == state.files[i].has_stream,
        read[i].has_stream ==> read[i].crc == state.files[i].crc,
        file_fault(read[i], i as u64, state.contents[i]) is None,
{
    if header_is_encoded(state, encoded) {
        lemma_finished_archive_opens_encoded(state, encoded->0);
    } else {
        assert(final_header(state, encoded) == header_bytes(state));
        lemma_finished_archive_opens(state, encoded);
    }
    lemma_entries_read_back(state, read, i);
}

/// What `finish` hands out reads back, whichever header it ends with. The
/// archive passes every check of its fixed part. Its final header is the
/// plain header, or reads as the description of the block that unpacks to the
/// plain header. The plain header reads back as the archive that the writer
/// describes; and of the entries that a reader makes of it, each has the
/// name and the size of the entry that was pushed, and the content that was
/// pushed with it passes the check against it.
pub proof fn lemma_finish_reads_back(
    writer: ArchiveWriter,
    encoded: Option<EncodedHeader>,
    read: Seq<ArchiveEntry>,
    i: int,
)
    requires
        writer.wf(),
        !encoded_header_refused(writer@, encoded),
        header_bytes(writer@).len() <= u64::MAX,
        final_header(writer@, encoded).len() < 0x1_0000_0000,
        final_pack_area(writer@, encoded).len() <= u64::MAX,
        models_of(read) == written_model(writer@).files,
        streams_assigned(read, written_model(writer@).blocks),
        0 <= i < writer@.files.len(),
        i <= u64::MAX,
    ensures
        header_fault(finished_archive(writer@, encoded)) is None,
        !header_is_encoded(writer@, encoded) ==> header_of(finished_archive(writer@, encoded))
            == header_bytes(writer@),
        header_is_encoded(writer@, encoded) ==> parsed_block_description(
            header_of(finished_archive(writer@, encoded)),
        ) is Some,
        parsed_header(header_bytes(writer@)) == Some(written_model(writer@)),
        read.len() == writer@.files.len(),
        read[i].name@ == writer@.files[i].name@,
        read[i].size == writer@.files[i].size,
        read[i].has_stream == writer@.files[i].has_stream,
        read[i].has_stream ==> read[i].crc == writer@.files[i].crc,
        file_fault(read[i], i as u64, writer@.contents[i]) is None,
{
    let state = writer@;
    writer.lemma_countable();
    lemma_state_reads_back(state, encoded, read, i);
}

} // verus!
