//! Assembling an archive: packed streams, blocks, the header and the signature.
//!
//! The writer keeps the archive in memory. It does not compress: the caller
//! runs the coder chain on an entry's content and hands both the content and
//! the chain's output to the writer, which stores the packed bytes and records
//! sizes and checksums.

use vstd::prelude::*;
use crate::AutoFinish;
use crate::archive::{
    ArchiveEntry,
    Coder,
    EncoderConfiguration,
    EncoderMethod,
    K_ENCODED_HEADER,
    K_END,
    K_HEADER,
    K_MAIN_STREAMS_INFO,
    SIGNATURE_HEADER_SIZE,
    is_text,
    names_are_texts,
    seven_z_signature,
    text_fits,
};
use crate::checksum::{crc32, crc32_ieee};
use crate::error::Error;
use crate::writer::bytes::{push_all, selected, vec_push_le_u32, vec_push_le_u64};
use crate::writer::files_info::{files_info_bytes, write_files_info};
use crate::writer::pack_info::{PackInfo, pack_info_bytes};
use crate::writer::unpack_info::{
    Block,
    UnpackInfo,
    block_crcs,
    block_sizes,
    coders_fit,
    coders_of,
    lemma_configurations_fit,
    stored_crcs,
    stream_sizes,
    substreams_bytes,
    unpack_info_bytes,
};
use crate::writer::varint::{le_bytes, lemma_le_bytes_len};

pub mod bytes;
pub mod files_info;
pub mod pack_info;
pub mod pipeline;
pub mod seq_reader;
pub mod unpack_info;
pub mod varint;

verus! {

/// What a coder chain made of one input.
#[derive(Debug)]
pub struct EncodedStream {
    /// The output of the first-declared coder: the bytes for the pack area.
    pub packed: Vec<u8>,
    /// The number of bytes that each coder but the first put out, in
    /// declaration order.
    pub stage_sizes: Vec<u64>,
}

/// The content of an entry together with what the coder chain made of it.
#[derive(Debug)]
pub struct Content {
    pub data: Vec<u8>,
    pub encoded: EncodedStream,
}

/// The header in encoded form, as the caller's coder chain produced it.
#[derive(Debug)]
pub struct EncodedHeader {
    /// The LZMA2 coder that closes the chain, with its properties.
    pub lzma2: EncoderConfiguration,
    /// What the chain made of the plain header.
    pub stream: EncodedStream,
}

/// The sum of `sizes`.
pub open spec fn total(sizes: Seq<u64>) -> nat
    decreases sizes.len(),
{
    if sizes.len() == 0 {
        0
    } else {
        total(sizes.drop_last()) + sizes.last() as nat
    }
}

/// The sum of the numbers of files in `blocks`.
pub open spec fn total_streams(blocks: Seq<Block>) -> nat
    decreases blocks.len(),
{
    if blocks.len() == 0 {
        0
    } else {
        total_streams(blocks.drop_last()) + blocks.last().num_sub_unpack_streams as nat
    }
}

/// The number of `files` that have a stream.
pub open spec fn stream_count(files: Seq<ArchiveEntry>) -> nat
    decreases files.len(),
{
    if files.len() == 0 {
        0
    } else {
        stream_count(files.drop_last()) + if files.last().has_stream {
            1nat
        } else {
            0nat
        }
    }
}

/// The state of a writer.
pub struct WriterState {
    /// The archive so far: room for the signature header, then the pack area.
    pub output: Seq<u8>,
    /// The file table, in the order of the pushes.
    pub files: Seq<ArchiveEntry>,
    /// The coder chain for the content of the entries to come.
    pub methods: Seq<Coder>,
    /// Where the pack area starts, counted from the end of the signature
    /// header.
    pub pack_pos: u64,
    /// The length of each packed stream.
    pub pack_sizes: Seq<u64>,
    /// The CRC-32 of each packed stream.
    pub pack_crcs: Seq<u32>,
    /// The blocks, one for each packed stream.
    pub blocks: Seq<Block>,
    /// Whether the header is to be encrypted where the content is.
    pub encrypt_header: bool,
    /// What each file holds: the content that was pushed with it, or nothing
    /// for a file without a stream.
    pub contents: Seq<Seq<u8>>,
    /// What each block unpacks to.
    pub unpacked: Seq<Seq<u8>>,
}

/// Packed stream `i` of the pack area.
pub open spec fn packed_stream(state: WriterState, i: int) -> Seq<u8> {
    state.output.subrange(
        SIGNATURE_HEADER_SIZE + total(state.pack_sizes.take(i)),
        SIGNATURE_HEADER_SIZE + total(state.pack_sizes.take(i + 1)),
    )
}

/// A block whose sizes fit its coders and whose shares add up to its content.
pub open spec fn block_valid(block: Block) -> bool {
    &&& block.coders.len() >= 1
    &&& coders_fit(block.coders)
    &&& block.sizes.len() == block.coders.len()
    &&& block.num_sub_unpack_streams >= 1
    &&& block.sub_stream_sizes.len() == block.sub_stream_crcs.len()
    &&& if block.sub_stream_sizes.len() == 0 {
        block.num_sub_unpack_streams == 1
    } else {
        &&& block.num_sub_unpack_streams == block.sub_stream_sizes.len()
        &&& total(block.sub_stream_sizes) == block.sizes.last()
    }
}

/// A file's size and checksum are those of its content, and it has a stream
/// exactly where it has content.
pub open spec fn file_matches(file: ArchiveEntry, content: Seq<u8>) -> bool {
    if file.has_stream {
        &&& content.len() > 0
        &&& file.size == content.len()
        &&& file.has_crc
        &&& file.crc == crc32_ieee(content)
    } else {
        &&& content.len() == 0
        &&& file.size == 0
        &&& !file.has_crc
    }
}

/// A block's checksum and the last of its sizes are those of what it unpacks
/// to.
pub open spec fn block_matches(block: Block, unpacked: Seq<u8>) -> bool {
    &&& block.crc == crc32_ieee(unpacked)
    &&& block.sizes.last() == unpacked.len()
}

/// The sizes of the files with a stream, in the order of the file table.
pub open spec fn file_sizes(files: Seq<ArchiveEntry>) -> Seq<u64>
    decreases files.len(),
{
    if files.len() == 0 {
        Seq::empty()
    } else if files.last().has_stream {
        file_sizes(files.drop_last()).push(files.last().size)
    } else {
        file_sizes(files.drop_last())
    }
}

/// The checksums of the files with a stream, in the order of the file table.
pub open spec fn file_crcs(files: Seq<ArchiveEntry>) -> Seq<u32>
    decreases files.len(),
{
    if files.len() == 0 {
        Seq::empty()
    } else if files.last().has_stream {
        file_crcs(files.drop_last()).push(files.last().crc as u32)
    } else {
        file_crcs(files.drop_last())
    }
}

/// What holds of a writer between calls.
pub open spec fn valid_state(state: WriterState) -> bool {
    &&& state.methods.len() >= 1
    &&& coders_fit(state.methods)
    &&& state.pack_pos == 0
    &&& state.pack_sizes.len() == state.blocks.len()
    &&& state.pack_crcs.len() == state.blocks.len()
    &&& state.output.len() == SIGNATURE_HEADER_SIZE + total(state.pack_sizes)
    &&& forall|i: int|
        0 <= i < state.blocks.len() ==> #[trigger] state.pack_crcs[i] == crc32_ieee(
            packed_stream(state, i),
        )
    &&& forall|i: int| 0 <= i < state.blocks.len() ==> block_valid(#[trigger] state.blocks[i])
    &&& total_streams(state.blocks) == stream_count(state.files)
    &&& stream_sizes(state.blocks) == file_sizes(state.files)
    &&& stored_crcs(state.blocks) == file_crcs(state.files)
    &&& forall|i: int|
        0 <= i < state.files.len() ==> ((#[trigger] state.files[i]).is_directory
            ==> !state.files[i].has_stream)
    &&& names_are_texts(state.files)
    &&& state.contents.len() == state.files.len()
    &&& forall|i: int|
        0 <= i < state.files.len() ==> file_matches(
            #[trigger] state.files[i],
            state.contents[i],
        )
    &&& state.unpacked.len() == state.blocks.len()
    &&& forall|i: int|
        0 <= i < state.blocks.len() ==> block_matches(
            #[trigger] state.blocks[i],
            state.unpacked[i],
        )
    &&& concat(state.unpacked) == concat(state.contents)
}

/// Whether the lists of a state have lengths that the machine can count, as
/// those of every writer have.
pub open spec fn countable(state: WriterState) -> bool {
    &&& state.output.len() <= usize::MAX
    &&& state.files.len() <= usize::MAX
    &&& state.blocks.len() <= usize::MAX
    &&& stored_crcs(state.blocks).len() <= usize::MAX
    &&& forall|i: int|
        0 <= i < state.blocks.len() ==> (#[trigger] state.blocks[i]).coders.len() <= usize::MAX
}

/// There are no more files with a stream than files.
pub proof fn lemma_file_streams_len(files: Seq<ArchiveEntry>)
    ensures
        file_sizes(files).len() <= files.len(),
        file_crcs(files).len() <= files.len(),
    decreases files.len(),
{
    if files.len() > 0 {
        lemma_file_streams_len(files.drop_last());
    }
}

/// The streams-info section of the plain header.
pub open spec fn streams_info_bytes(state: WriterState) -> Seq<u8> {
    (if state.pack_sizes.len() > 0 {
        pack_info_bytes(state.pack_pos, state.pack_sizes, state.pack_crcs) + unpack_info_bytes(
            state.blocks,
        )
    } else {
        Seq::empty()
    }) + substreams_bytes(state.blocks) + seq![K_END]
}

/// The plain header.
pub open spec fn header_bytes(state: WriterState) -> Seq<u8> {
    seq![K_HEADER, K_MAIN_STREAMS_INFO] + streams_info_bytes(state) + files_info_bytes(state.files)
        + seq![K_END]
}

/// Whether pushing `entry` with `content` stores a stream: directories and
/// entries without content, or with empty content, store none.
pub open spec fn stores_stream(entry: ArchiveEntry, content: Option<Content>) -> bool {
    !entry.is_directory && content is Some && content->0.data@.len() > 0
}

/// Whether pushing `entry` with `content` is refused: the name holds a zero
/// character, or the content comes with stage sizes that do not fit the
/// content methods.
pub open spec fn push_refused(state: WriterState, entry: ArchiveEntry, content: Option<Content>)
    -> bool {
    ||| !text_fits(entry.name@)
    ||| stores_stream(entry, content) && content->0.encoded.stage_sizes@.len() + 1
        != state.methods.len()
}

/// The entry as the file table holds it when it has no stream.
pub open spec fn entry_without_stream(entry: ArchiveEntry) -> ArchiveEntry {
    ArchiveEntry { has_stream: false, size: 0, compressed_size: 0, has_crc: false, ..entry }
}

/// The entry as the file table holds it when it is the only file of a block
/// with the content `data`, packed as `packed`.
pub open spec fn entry_with_stream(entry: ArchiveEntry, data: Seq<u8>, packed: Seq<u8>)
    -> ArchiveEntry {
    ArchiveEntry {
        has_stream: true,
        size: data.len() as u64,
        crc: crc32_ieee(data) as u64,
        has_crc: true,
        compressed_crc: crc32_ieee(packed) as u64,
        compressed_size: packed.len() as u64,
        ..entry
    }
}

/// The block that holds one file with the content `data`: the sizes along the
/// chain end with the content's size, and the checksum is the content's.
pub open spec fn single_block(coders: Seq<Coder>, stage_sizes: Seq<u64>, data: Seq<u8>) -> Block {
    Block {
        coders,
        sizes: stage_sizes.push(data.len() as u64),
        crc: crc32_ieee(data),
        num_sub_unpack_streams: 1,
        sub_stream_sizes: Seq::empty(),
        sub_stream_crcs: Seq::empty(),
    }
}

/// The state after a block that unpacks to `unpacked` was added, with the
/// packed stream `packed`.
pub open spec fn with_block(state: WriterState, packed: Seq<u8>, block: Block, unpacked: Seq<u8>)
    -> WriterState {
    WriterState {
        output: state.output + packed,
        pack_sizes: state.pack_sizes.push(packed.len() as u64),
        pack_crcs: state.pack_crcs.push(crc32_ieee(packed)),
        blocks: state.blocks.push(block),
        unpacked: state.unpacked.push(unpacked),
        ..state
    }
}

/// The state after `push_archive_entry` succeeded.
pub open spec fn pushed_entry(state: WriterState, entry: ArchiveEntry, content: Option<Content>)
    -> WriterState {
    if stores_stream(entry, content) {
        let data = content->0.data@;
        let packed = content->0.encoded.packed@;
        let added = with_block(
            state,
            packed,
            single_block(state.methods, content->0.encoded.stage_sizes@, data),
            data,
        );
        WriterState {
            files: state.files.push(entry_with_stream(entry, data, packed)),
            contents: state.contents.push(data),
            ..added
        }
    } else {
        WriterState {
            files: state.files.push(entry_without_stream(entry)),
            contents: state.contents.push(Seq::empty()),
            ..state
        }
    }
}

/// One more size adds itself to the sum.
pub proof fn lemma_total_push(sizes: Seq<u64>, size: u64)
    ensures
        total(sizes.push(size)) == total(sizes) + size,
{
    assert(sizes.push(size).drop_last() =~= sizes);
}

/// The first sizes sum to no more than all of them.
pub proof fn lemma_total_prefix(sizes: Seq<u64>, count: int)
    requires
        0 <= count <= sizes.len(),
    ensures
        total(sizes.take(count)) <= total(sizes),
    decreases sizes.len(),
{
    if count == sizes.len() {
        assert(sizes.take(count) =~= sizes);
    } else {
        lemma_total_prefix(sizes.drop_last(), count);
        assert(sizes.drop_last().take(count) =~= sizes.take(count));
    }
}

/// One more block adds its files to the number of files.
pub proof fn lemma_total_streams_push(blocks: Seq<Block>, block: Block)
    ensures
        total_streams(blocks.push(block)) == total_streams(blocks) + block.num_sub_unpack_streams,
{
    assert(blocks.push(block).drop_last() =~= blocks);
}

/// One more file adds one to the files with a stream if it has a stream.
pub proof fn lemma_stream_count_push(files: Seq<ArchiveEntry>, entry: ArchiveEntry)
    ensures
        stream_count(files.push(entry)) == stream_count(files) + if entry.has_stream {
            1nat
        } else {
            0nat
        },
{
    assert(files.push(entry).drop_last() =~= files);
}

/// One more content comes behind the others.
pub proof fn lemma_concat_push(contents: Seq<Seq<u8>>, content: Seq<u8>)
    ensures
        concat(contents.push(content)) == concat(contents) + content,
{
    assert(contents.push(content).drop_last() =~= contents);
}

/// More contents come behind the others, one after another.
pub proof fn lemma_concat_append(first: Seq<Seq<u8>>, second: Seq<Seq<u8>>)
    ensures
        concat(first + second) == concat(first) + concat(second),
    decreases second.len(),
{
    if second.len() == 0 {
        assert(first + second =~= first);
        assert(concat(first) + concat(second) =~= concat(first));
    } else {
        lemma_concat_append(first, second.drop_last());
        assert((first + second).drop_last() =~= first + second.drop_last());
        assert(concat(first) + (concat(second.drop_last()) + second.last()) =~= concat(first)
            + concat(second.drop_last()) + second.last());
    }
}

/// One more file adds its size and its checksum to those of the files with a
/// stream where it has a stream, else nothing.
pub proof fn lemma_file_streams_push(files: Seq<ArchiveEntry>, entry: ArchiveEntry)
    ensures
        file_sizes(files.push(entry)) == if entry.has_stream {
            file_sizes(files).push(entry.size)
        } else {
            file_sizes(files)
        },
        file_crcs(files.push(entry)) == if entry.has_stream {
            file_crcs(files).push(entry.crc as u32)
        } else {
            file_crcs(files)
        },
{
    assert(files.push(entry).drop_last() =~= files);
}

/// The sizes and checksums of the files with a stream of two lists are those
/// of the one and then those of the other.
pub proof fn lemma_file_streams_concat(first: Seq<ArchiveEntry>, second: Seq<ArchiveEntry>)
    ensures
        file_sizes(first + second) == file_sizes(first) + file_sizes(second),
        file_crcs(first + second) == file_crcs(first) + file_crcs(second),
    decreases second.len(),
{
    if second.len() == 0 {
        assert(first + second =~= first);
        assert(file_sizes(first) + file_sizes(second) =~= file_sizes(first));
        assert(file_crcs(first) + file_crcs(second) =~= file_crcs(first));
    } else {
        lemma_file_streams_concat(first, second.drop_last());
        assert((first + second).drop_last() =~= first + second.drop_last());
        assert((first + second).last() == second.last());
        if second.last().has_stream {
            assert(file_sizes(first + second) =~= file_sizes(first) + file_sizes(second));
            assert(file_crcs(first + second) =~= file_crcs(first) + file_crcs(second));
        }
    }
}

/// One more block adds the sizes and the checksums of its files.
pub proof fn lemma_block_streams_push(blocks: Seq<Block>, block: Block)
    ensures
        stream_sizes(blocks.push(block)) == stream_sizes(blocks) + block_sizes(block),
        stored_crcs(blocks.push(block)) == stored_crcs(blocks) + block_crcs(block),
{
    assert(blocks.push(block).drop_last() =~= blocks);
}

/// Adding a valid block behind the pack area keeps the state valid, as long as
/// the file table grows by as many files with a stream as the block holds, and
/// their contents make up what the block unpacks to.
pub proof fn lemma_with_block_valid(
    state: WriterState,
    packed: Seq<u8>,
    block: Block,
    unpacked: Seq<u8>,
    files: Seq<ArchiveEntry>,
    contents: Seq<Seq<u8>>,
)
    requires
        valid_state(state),
        block_valid(block),
        block_matches(block, unpacked),
        packed.len() <= u64::MAX,
        stream_count(files) == stream_count(state.files) + block.num_sub_unpack_streams,
        forall|i: int|
            0 <= i < files.len() ==> ((#[trigger] files[i]).is_directory ==> !files[i].has_stream),
        names_are_texts(files),
        file_sizes(files) == file_sizes(state.files) + block_sizes(block),
        file_crcs(files) == file_crcs(state.files) + block_crcs(block),
        contents.len() == files.len(),
        forall|i: int| 0 <= i < files.len() ==> file_matches(#[trigger] files[i], contents[i]),
        concat(contents) == concat(state.contents) + unpacked,
    ensures
        valid_state(WriterState { files, contents, ..with_block(state, packed, block, unpacked) }),
{
    let next = WriterState { files, contents, ..with_block(state, packed, block, unpacked) };
    let n = state.blocks.len() as int;
    lemma_total_push(state.pack_sizes, packed.len() as u64);
    lemma_total_streams_push(state.blocks, block);
    lemma_block_streams_push(state.blocks, block);
    lemma_concat_push(state.unpacked, unpacked);
    assert forall|i: int| 0 <= i < next.blocks.len() implies #[trigger] next.pack_crcs[i]
        == crc32_ieee(packed_stream(next, i)) by {
        if i < n {
            assert(next.pack_sizes.take(i) =~= state.pack_sizes.take(i));
            assert(next.pack_sizes.take(i + 1) =~= state.pack_sizes.take(i + 1));
            lemma_total_prefix(state.pack_sizes, i + 1);
            lemma_total_prefix(state.pack_sizes, i);
            lemma_total_prefix(state.pack_sizes.take(i + 1), i);
            assert(state.pack_sizes.take(i + 1).take(i) =~= state.pack_sizes.take(i));
            assert(packed_stream(next, i) =~= packed_stream(state, i));
        } else {
            assert(next.pack_sizes.take(n) =~= state.pack_sizes);
            assert(next.pack_sizes.take(n + 1) =~= next.pack_sizes);
            assert(packed_stream(next, i) =~= packed);
        }
    }
    assert forall|i: int| 0 <= i < next.blocks.len() implies block_valid(
        #[trigger] next.blocks[i],
    ) && block_matches(next.blocks[i], next.unpacked[i]) by {
        if i < n {
            assert(next.blocks[i] == state.blocks[i]);
            assert(block_valid(state.blocks[i]));
            assert(block_matches(state.blocks[i], state.unpacked[i]));
        }
    }
}

/// A push that is not refused keeps the state valid.
pub proof fn lemma_pushed_entry_valid(
    state: WriterState,
    entry: ArchiveEntry,
    content: Option<Content>,
)
    requires
        valid_state(state),
        !push_refused(state, entry, content),
    ensures
        valid_state(pushed_entry(state, entry, content)),
{
    if stores_stream(entry, content) {
        let data = content->0.data@;
        let packed = content->0.encoded.packed@;
        assert(data.len() == content->0.data.len());
        assert(packed.len() == content->0.encoded.packed.len());
        let stored = entry_with_stream(entry, data, packed);
        let block = single_block(state.methods, content->0.encoded.stage_sizes@, data);
        let files = state.files.push(stored);
        lemma_stream_count_push(state.files, stored);
        lemma_file_streams_push(state.files, stored);
        assert(file_sizes(state.files).push(stored.size) =~= file_sizes(state.files) + block_sizes(
            block,
        ));
        assert(file_crcs(state.files).push(stored.crc as u32) =~= file_crcs(state.files)
            + block_crcs(block));
        lemma_concat_push(state.contents, data);
        assert(names_are_texts(files)) by {
            assert forall|i: int| 0 <= i < files.len() implies text_fits(
                #[trigger] files[i].name@,
            ) by {
                if i < state.files.len() {
                    assert(files[i] == state.files[i]);
                }
            }
        }
        lemma_with_block_valid(state, packed, block, data, files, state.contents.push(data));
    } else {
        let stored = entry_without_stream(entry);
        let next = pushed_entry(state, entry, content);
        lemma_stream_count_push(state.files, stored);
        lemma_file_streams_push(state.files, stored);
        lemma_concat_push(state.contents, Seq::empty());
        assert(concat(state.contents) + Seq::<u8>::empty() =~= concat(state.contents));
        assert forall|i: int| 0 <= i < next.blocks.len() implies #[trigger] next.pack_crcs[i]
            == crc32_ieee(packed_stream(next, i)) by {
            assert(packed_stream(next, i) == packed_stream(state, i));
        }
        assert forall|i: int| 0 <= i < next.files.len() implies text_fits(
            #[trigger] next.files[i].name@,
        ) && (next.files[i].is_directory ==> !next.files[i].has_stream) && file_matches(
            next.files[i],
            next.contents[i],
        ) by {
            if i < state.files.len() {
                assert(next.files[i] == state.files[i]);
                assert(next.contents[i] == state.contents[i]);
            }
        }
    }
}

/// The contents as byte strings.
pub open spec fn contents_of(contents: Seq<Vec<u8>>) -> Seq<Seq<u8>> {
    Seq::new(contents.len(), |i: int| contents[i]@)
}

/// The contents one after another: what the coder chain of a solid block reads.
pub open spec fn concat(contents: Seq<Seq<u8>>) -> Seq<u8>
    decreases contents.len(),
{
    if contents.len() == 0 {
        Seq::empty()
    } else {
        concat(contents.drop_last()) + contents.last()
    }
}

/// For each content, whether it takes a share of the block: an empty one takes
/// none.
pub open spec fn share_flags(contents: Seq<Seq<u8>>) -> Seq<bool> {
    Seq::new(contents.len(), |i: int| contents[i].len() > 0)
}

/// The sizes of the shares of a solid block.
pub open spec fn share_sizes(contents: Seq<Seq<u8>>) -> Seq<u64> {
    selected(share_flags(contents), Seq::new(contents.len(), |i: int| contents[i].len() as u64))
}

/// The checksums of the shares of a solid block.
pub open spec fn share_crcs(contents: Seq<Seq<u8>>) -> Seq<u32> {
    selected(share_flags(contents), Seq::new(contents.len(), |i: int| crc32_ieee(contents[i])))
}

/// The entry as the file table holds it when it shares a solid block: with a
/// stream, its size and its checksum where it has content, else without a
/// stream.
pub open spec fn entry_in_solid_block(entry: ArchiveEntry, data: Seq<u8>) -> ArchiveEntry {
    if data.len() > 0 {
        ArchiveEntry {
            has_stream: true,
            size: data.len() as u64,
            crc: crc32_ieee(data) as u64,
            has_crc: true,
            ..entry
        }
    } else {
        entry_without_stream(entry)
    }
}

/// The entries of a solid push as the file table holds them.
pub open spec fn solid_files(entries: Seq<ArchiveEntry>, contents: Seq<Seq<u8>>) -> Seq<
    ArchiveEntry,
> {
    Seq::new(entries.len(), |i: int| entry_in_solid_block(entries[i], contents[i]))
}

/// The block that holds the non-empty ones of `contents`, one share each.
pub open spec fn solid_block(coders: Seq<Coder>, stage_sizes: Seq<u64>, contents: Seq<Seq<u8>>)
    -> Block {
    Block {
        coders,
        sizes: stage_sizes.push(concat(contents).len() as u64),
        crc: crc32_ieee(concat(contents)),
        num_sub_unpack_streams: share_sizes(contents).len() as u64,
        sub_stream_sizes: share_sizes(contents),
        sub_stream_crcs: share_crcs(contents),
    }
}

/// Whether a solid push is refused: the numbers of entries and contents differ,
/// a name holds a zero character, a directory comes with content, or, where
/// there is content at all, the stage sizes do not fit the content methods.
pub open spec fn solid_push_refused(
    state: WriterState,
    entries: Seq<ArchiveEntry>,
    contents: Seq<Seq<u8>>,
    stage_sizes: Seq<u64>,
) -> bool {
    ||| entries.len() != contents.len()
    ||| !names_are_texts(entries)
    ||| exists|i: int| 0 <= i < entries.len() && entries[i].is_directory && contents[i].len() > 0
    ||| concat(contents).len() > 0 && stage_sizes.len() + 1 != state.methods.len()
}

/// The state after `push_archive_entries` succeeded.
pub open spec fn pushed_entries(
    state: WriterState,
    entries: Seq<ArchiveEntry>,
    contents: Seq<Seq<u8>>,
    encoded: EncodedStream,
) -> WriterState {
    let files = state.files + solid_files(entries, contents);
    let logged = state.contents + contents;
    if concat(contents).len() > 0 {
        WriterState {
            files,
            contents: logged,
            ..with_block(
                state,
                encoded.packed@,
                solid_block(state.methods, encoded.stage_sizes@, contents),
                concat(contents),
            )
        }
    } else {
        WriterState { files, contents: logged, ..state }
    }
}

/// The files with a stream of two lists are those of the one and those of the
/// other.
pub proof fn lemma_stream_count_concat(first: Seq<ArchiveEntry>, second: Seq<ArchiveEntry>)
    ensures
        stream_count(first + second) == stream_count(first) + stream_count(second),
    decreases second.len(),
{
    if second.len() == 0 {
        assert(first + second =~= first);
    } else {
        lemma_stream_count_concat(first, second.drop_last());
        assert((first + second).drop_last() =~= first + second.drop_last());
    }
}

/// What one more content adds to the contents seen so far.
pub proof fn lemma_contents_step(contents: Seq<Seq<u8>>, i: int)
    requires
        0 <= i < contents.len(),
    ensures
        concat(contents.take(i + 1)) == concat(contents.take(i)) + contents[i],
        share_sizes(contents.take(i + 1)) == if contents[i].len() > 0 {
            share_sizes(contents.take(i)).push(contents[i].len() as u64)
        } else {
            share_sizes(contents.take(i))
        },
        share_crcs(contents.take(i + 1)) == if contents[i].len() > 0 {
            share_crcs(contents.take(i)).push(crc32_ieee(contents[i]))
        } else {
            share_crcs(contents.take(i))
        },
{
    let next = contents.take(i + 1);
    let seen = contents.take(i);
    assert(next.drop_last() =~= seen);
    assert(share_flags(next).drop_last() =~= share_flags(seen));
    assert(Seq::new(next.len(), |j: int| next[j].len() as u64).drop_last() =~= Seq::new(
        seen.len(),
        |j: int| seen[j].len() as u64,
    ));
    assert(Seq::new(next.len(), |j: int| crc32_ieee(next[j])).drop_last() =~= Seq::new(
        seen.len(),
        |j: int| crc32_ieee(seen[j]),
    ));
}

/// The first AES coder of a chain, if it has one.
pub open spec fn first_aes(coders: Seq<Coder>) -> Option<Coder>
    decreases coders.len(),
{
    if coders.len() == 0 {
        None
    } else if coders[0].id == EncoderMethod::Aes256Sha256.spec_id() {
        Some(coders[0])
    } else {
        first_aes(coders.skip(1))
    }
}

/// The coder chain for the header: the AES coder of the content methods, where
/// the header is to be encrypted and the content is, then LZMA2.
pub open spec fn header_coders(state: WriterState, lzma2: Coder) -> Seq<Coder> {
    if state.encrypt_header && first_aes(state.methods) is Some {
        seq![first_aes(state.methods)->0, lzma2]
    } else {
        seq![lzma2]
    }
}

/// Whether an encoded header is refused: its last coder is not LZMA2, or its
/// stage sizes do not fit the header's coder chain.
pub open spec fn encoded_header_refused(state: WriterState, encoded: Option<EncodedHeader>)
    -> bool {
    encoded is Some && (encoded->0.lzma2@.id != EncoderMethod::Lzma2.spec_id()
        || encoded->0.stream.stage_sizes@.len() + 1 != header_coders(
        state,
        encoded->0.lzma2@,
    ).len())
}

/// Whether the archive gets the encoded header: only where it is more than 20
/// bytes shorter than the plain one.
pub open spec fn header_is_encoded(state: WriterState, encoded: Option<EncodedHeader>) -> bool {
    encoded is Some && encoded->0.stream.packed@.len() + 20 < header_bytes(state).len()
}

/// The description of one block whose packed stream starts `pos` bytes behind
/// the signature header, as it stands in place of an encoded header.
pub open spec fn block_description_bytes(pos: u64, packed_len: u64, packed_crc: u32, block: Block)
    -> Seq<u8> {
    seq![K_ENCODED_HEADER] + pack_info_bytes(pos, seq![packed_len], seq![packed_crc])
        + unpack_info_bytes(seq![block]) + substreams_bytes(seq![block]) + seq![K_END]
}

/// The header that stands for an encoded one: the description of the one
/// block that unpacks to the plain header.
pub open spec fn encoded_header_bytes(state: WriterState, encoded: EncodedHeader) -> Seq<u8> {
    let packed = encoded.stream.packed@;
    block_description_bytes(
        (state.output.len() - SIGNATURE_HEADER_SIZE) as u64,
        packed.len() as u64,
        crc32_ieee(packed),
        single_block(
            header_coders(state, encoded.lzma2@),
            encoded.stream.stage_sizes@,
            header_bytes(state),
        ),
    )
}

/// The header that the archive ends with.
pub open spec fn final_header(state: WriterState, encoded: Option<EncodedHeader>) -> Seq<u8> {
    if header_is_encoded(state, encoded) {
        encoded_header_bytes(state, encoded->0)
    } else {
        header_bytes(state)
    }
}

/// What the pack area gains with the final header: the packed header where
/// the header is encoded, else nothing.
pub open spec fn packed_header(state: WriterState, encoded: Option<EncodedHeader>) -> Seq<u8> {
    if header_is_encoded(state, encoded) {
        encoded->0.stream.packed@
    } else {
        Seq::empty()
    }
}

/// Everything between the signature header and the final header: the pack
/// area, and behind it the packed header where the header is encoded.
pub open spec fn final_pack_area(state: WriterState, encoded: Option<EncodedHeader>) -> Seq<u8> {
    if header_is_encoded(state, encoded) {
        state.output.skip(SIGNATURE_HEADER_SIZE as int) + encoded->0.stream.packed@
    } else {
        state.output.skip(SIGNATURE_HEADER_SIZE as int)
    }
}

/// The start header: where the final header starts, counted from the end of
/// the signature header, its length and its CRC-32.
pub open spec fn start_header_bytes(offset: u64, size: u64, crc: u32) -> Seq<u8> {
    le_bytes(offset as nat, 8) + le_bytes(size as nat, 8) + le_bytes(crc as nat, 4)
}

/// The signature header: the magic, the format version 0.4, the CRC-32 of the
/// start header, and the start header.
pub open spec fn signature_header_bytes(start: Seq<u8>, start_crc: u32) -> Seq<u8> {
    seven_z_signature() + seq![0u8, 4u8] + le_bytes(start_crc as nat, 4) + start
}

/// The archive with `pack_area` behind the signature header and `header` at
/// its end. Only the low 32 bits of the header's length are stored.
pub open spec fn assembled_archive(pack_area: Seq<u8>, header: Seq<u8>) -> Seq<u8> {
    let start = start_header_bytes(
        pack_area.len() as u64,
        (header.len() % 0x1_0000_0000) as u64,
        crc32_ieee(header),
    );
    signature_header_bytes(start, crc32_ieee(start)) + pack_area + header
}

/// The finished archive.
pub open spec fn finished_archive(state: WriterState, encoded: Option<EncodedHeader>) -> Seq<u8> {
    assembled_archive(final_pack_area(state, encoded), final_header(state, encoded))
}

/// The description of the one block of an encoded header: its packed stream of
/// `packed_len` bytes with the checksum `packed_crc` starts `pos` bytes behind
/// the signature header, and it unpacks through `methods` to a stream with the
/// checksum `crc`, of the sizes `sizes` along the chain.
pub fn describe_encoded_header(
    pos: u64,
    packed_len: u64,
    packed_crc: u32,
    methods: Vec<EncoderConfiguration>,
    sizes: Vec<u64>,
    crc: u32,
) -> (header: Vec<u8>)
    requires
        methods@.len() >= 1,
    ensures
        header@ == block_description_bytes(
            pos,
            packed_len,
            packed_crc,
            (Block {
                coders: coders_of(methods@),
                sizes: sizes@,
                crc,
                num_sub_unpack_streams: 1,
                sub_stream_sizes: Seq::empty(),
                sub_stream_crcs: Seq::empty(),
            }),
        ),
{
    let ghost block = Block {
        coders: coders_of(methods@),
        sizes: sizes@,
        crc,
        num_sub_unpack_streams: 1,
        sub_stream_sizes: Seq::empty(),
        sub_stream_crcs: Seq::empty(),
    };
    let mut pack_info = PackInfo::default();
    pack_info.pos = pos;
    pack_info.add_stream(packed_len, packed_crc);
    let mut unpack_info = UnpackInfo::default();
    unpack_info.add(methods, sizes, crc);
    proof {
        assert(unpack_info@ =~= seq![block]);
        assert(pack_info.sizes@ =~= seq![packed_len]);
        assert(pack_info.crcs@ =~= seq![packed_crc]);
        assert(unpack_info@[0].coders.len() >= 1);
    }
    let mut header: Vec<u8> = Vec::new();
    header.push(K_ENCODED_HEADER);
    let ghost head = seq![K_ENCODED_HEADER];
    assert(header@ =~= head);
    pack_info.write_to(&mut header);
    let ghost head = head + pack_info_bytes(pos, seq![packed_len], seq![packed_crc]);
    unpack_info.write_to(&mut header);
    let ghost head = head + unpack_info_bytes(seq![block]);
    unpack_info.write_substreams(&mut header);
    let ghost head = head + substreams_bytes(seq![block]);
    header.push(K_END);
    assert(header@ == head.push(K_END));
    assert(head.push(K_END) =~= head + seq![K_END]);
    header
}

/// The start header for a header of `size` bytes with the checksum `crc` that
/// starts `offset` bytes behind the signature header.
pub fn start_header(offset: u64, size: u64, crc: u32) -> (start: Vec<u8>)
    ensures
        start@ == start_header_bytes(offset, size, crc),
        start@.len() == 20,
{
    let mut start: Vec<u8> = Vec::with_capacity(20);
    vec_push_le_u64(&mut start, offset);
    vec_push_le_u64(&mut start, size);
    vec_push_le_u32(&mut start, crc);
    proof {
        lemma_le_bytes_len(offset as nat, 8);
        lemma_le_bytes_len(size as nat, 8);
        lemma_le_bytes_len(crc as nat, 4);
        assert(start@ =~= start_header_bytes(offset, size, crc));
    }
    start
}

/// The signature header in front of the start header `start`, whose CRC-32 is
/// `start_crc`.
pub fn signature_header(start: &[u8], start_crc: u32) -> (header: Vec<u8>)
    ensures
        header@ == signature_header_bytes(start@, start_crc),
        header@.len() == 12 + start@.len(),
{
    let mut header: Vec<u8> = Vec::with_capacity(SIGNATURE_HEADER_SIZE as usize);
    header.push(0x37);
    header.push(0x7A);
    header.push(0xBC);
    header.push(0xAF);
    header.push(0x27);
    header.push(0x1C);
    header.push(0);
    header.push(4);
    vec_push_le_u32(&mut header, start_crc);
    push_all(&mut header, start);
    proof {
        lemma_le_bytes_len(start_crc as nat, 4);
        assert(header@ =~= signature_header_bytes(start@, start_crc));
    }
    header
}

/// The packed streams lie one behind the other in the pack area: each has the
/// length that is recorded for it.
pub proof fn lemma_packed_stream_len(state: WriterState, i: int)
    requires
        valid_state(state),
        0 <= i < state.blocks.len(),
    ensures
        packed_stream(state, i).len() == state.pack_sizes[i],
{
    lemma_total_prefix(state.pack_sizes, i + 1);
    lemma_total_prefix(state.pack_sizes.take(i + 1), i);
    assert(state.pack_sizes.take(i + 1).take(i) =~= state.pack_sizes.take(i));
    assert(state.pack_sizes.take(i + 1).drop_last() =~= state.pack_sizes.take(i));
}

/// In every state that a writer can reach, each block adds up: the shares of
/// its files sum to the size of what it unpacks to, which is the last of its
/// sizes; its checksum is the CRC-32 of what it unpacks to; and the checksum of
/// its packed stream is the CRC-32 of that stream as it lies in the pack area.
pub proof fn lemma_blocks_add_up(state: WriterState, i: int)
    requires
        valid_state(state),
        0 <= i < state.blocks.len(),
    ensures
        state.blocks[i].sub_stream_sizes.len() > 0 ==> total(state.blocks[i].sub_stream_sizes)
            == state.unpacked[i].len(),
        state.blocks[i].sizes.last() == state.unpacked[i].len(),
        state.blocks[i].crc == crc32_ieee(state.unpacked[i]),
        state.pack_crcs[i] == crc32_ieee(packed_stream(state, i)),
        state.pack_sizes[i] == packed_stream(state, i).len(),
{
    lemma_packed_stream_len(state, i);
    assert(block_valid(state.blocks[i]));
    assert(block_matches(state.blocks[i], state.unpacked[i]));
}

/// In every state that a writer can reach, a file with a stream carries the
/// size and the CRC-32 of its content, and the blocks unpack to the contents of
/// the files, one behind the other.
pub proof fn lemma_files_match_contents(state: WriterState, i: int)
    requires
        valid_state(state),
        0 <= i < state.files.len(),
    ensures
        state.files[i].has_stream ==> state.files[i].has_crc && state.files[i].crc == crc32_ieee(
            state.contents[i],
        ) && state.files[i].size == state.contents[i].len(),
        !state.files[i].has_stream ==> state.contents[i].len() == 0,
        concat(state.unpacked) == concat(state.contents),
        total_streams(state.blocks) == stream_count(state.files),
{
    assert(file_matches(state.files[i], state.contents[i]));
}

/// The length of the description that stands for the encoded header, where
/// the header is encoded, else zero.
pub open spec fn description_len(state: WriterState, encoded: Option<EncodedHeader>) -> nat {
    if header_is_encoded(state, encoded) {
        encoded_header_bytes(state, encoded->0).len()
    } else {
        0
    }
}

/// An encoded header that is not more than 20 bytes shorter than the plain one
/// is not used: the archive ends with the plain header, and nothing is added
/// to the pack area. Whichever header is chosen, it and what the pack area
/// gains are together no longer than the plain header and the description;
/// where the encoded header is used they are more than 20 bytes shorter.
pub proof fn lemma_header_choice(state: WriterState, encoded: Option<EncodedHeader>)
    ensures
        (encoded is None || encoded->0.stream.packed@.len() + 20 >= header_bytes(state).len())
            ==> (final_header(state, encoded) == header_bytes(state) && packed_header(
            state,
            encoded,
        ) == Seq::<u8>::empty() && final_pack_area(state, encoded) == state.output.skip(
            SIGNATURE_HEADER_SIZE as int,
        )),
        final_header(state, encoded).len() + packed_header(state, encoded).len() <= header_bytes(
            state,
        ).len() + description_len(state, encoded),
        header_is_encoded(state, encoded) ==> final_header(state, encoded).len() + packed_header(
            state,
            encoded,
        ).len() + 20 < header_bytes(state).len() + description_len(state, encoded),
        final_pack_area(state, encoded) == state.output.skip(SIGNATURE_HEADER_SIZE as int)
            + packed_header(state, encoded),
{
    assert(state.output.skip(SIGNATURE_HEADER_SIZE as int) + Seq::<u8>::empty()
        =~= state.output.skip(SIGNATURE_HEADER_SIZE as int));
}

/// The state of a new writer: room for the signature header, no entries, LZMA2
/// as the only content method, and an encrypted header wherever the content is
/// encrypted.
pub open spec fn initial_state() -> WriterState {
    WriterState {
        output: Seq::new(SIGNATURE_HEADER_SIZE as nat, |i: int| 0u8),
        files: Seq::empty(),
        methods: seq![(Coder { id: EncoderMethod::Lzma2.spec_id(), properties: Seq::empty() })],
        pack_pos: 0,
        pack_sizes: Seq::empty(),
        pack_crcs: Seq::empty(),
        blocks: Seq::empty(),
        encrypt_header: true,
        contents: Seq::empty(),
        unpacked: Seq::empty(),
    }
}

/// Writes a 7z archive into memory.
pub struct ArchiveWriter {
    output: Vec<u8>,
    files: Vec<ArchiveEntry>,
    content_methods: Vec<EncoderConfiguration>,
    pack_info: PackInfo,
    unpack_info: UnpackInfo,
    encrypt_header: bool,
    contents: Ghost<Seq<Seq<u8>>>,
    unpacked: Ghost<Seq<Seq<u8>>>,
}

impl View for ArchiveWriter {
    type V = WriterState;

    closed spec fn view(&self) -> WriterState {
        WriterState {
            output: self.output@,
            files: self.files@,
            methods: coders_of(self.content_methods@),
            pack_pos: self.pack_info.pos,
            pack_sizes: self.pack_info.sizes@,
            pack_crcs: self.pack_info.crcs@,
            blocks: self.unpack_info@,
            encrypt_header: self.encrypt_header,
            contents: self.contents@,
            unpacked: self.unpacked@,
        }
    }
}

impl ArchiveWriter {
    /// Whether the writer is in a state that its own functions leave it in.
    pub open spec fn wf(&self) -> bool {
        valid_state(self@)
    }

    /// The lists of a writer have lengths that the machine can count.
    pub proof fn lemma_countable(self)
        requires
            self.wf(),
        ensures
            countable(self@),
    {
        let state = self@;
        assert(self.output.len() == self.output@.len());
        assert(self.files.len() == self.files@.len());
        assert(self.unpack_info.blocks.len() == self.unpack_info.blocks@.len());
        lemma_file_streams_len(state.files);
        assert forall|i: int| 0 <= i < state.blocks.len() implies (#[trigger] state.blocks[i])
            .coders.len() <= usize::MAX by {
            let block = self.unpack_info.blocks@[i];
            assert(state.blocks[i] == block@);
            assert(block.methods.len() == block.methods@.len());
        }
    }

    /// A writer that takes over `writer` as its buffer: it keeps the capacity
    /// and drops the content.
    pub fn new(writer: Vec<u8>) -> (archive: Self)
        ensures
            archive.wf(),
            archive@ == initial_state(),
    {
        let mut output = writer;
        output.clear();
        let mut i: u64 = 0;
        while i < SIGNATURE_HEADER_SIZE
            invariant
                i <= SIGNATURE_HEADER_SIZE,
                output@ == Seq::new(i as nat, |i: int| 0u8),
            decreases SIGNATURE_HEADER_SIZE - i,
        {
            output.push(0);
            i = i + 1;
            assert(output@ =~= Seq::new(i as nat, |i: int| 0u8));
        }
        let mut content_methods: Vec<EncoderConfiguration> = Vec::new();
        content_methods.push(EncoderConfiguration::new(EncoderMethod::Lzma2));
        let archive = ArchiveWriter {
            output,
            files: Vec::new(),
            content_methods,
            pack_info: PackInfo::default(),
            unpack_info: UnpackInfo::default(),
            encrypt_header: true,
            contents: Ghost(Seq::empty()),
            unpacked: Ghost(Seq::empty()),
        };
        proof {
            assert(archive@.methods =~= seq![
                (Coder { id: EncoderMethod::Lzma2.spec_id(), properties: Seq::empty() }),
            ]);
            assert(coders_fit(archive@.methods)) by {
                reveal(coders_fit);
            }
            assert(archive@.files =~= Seq::empty());
            assert(archive@.pack_sizes =~= Seq::empty());
            assert(archive@.pack_crcs =~= Seq::empty());
            assert(archive@.blocks =~= Seq::empty());
        }
        archive
    }

    /// A writer with a fresh buffer.
    pub fn create_in_memory() -> (archive: Self)
        ensures
            archive.wf(),
            archive@ == initial_state(),
    {
        Self::new(Vec::new())
    }

    /// The coder chain for the content of the entries to come.
    pub fn content_methods(&self) -> (methods: &Vec<EncoderConfiguration>)
        requires
            self.wf(),
        ensures
            coders_of(methods@) == self@.methods,
            methods@.len() >= 1,
    {
        assert(coders_of(self.content_methods@).len() == self.content_methods@.len());
        &self.content_methods
    }

    /// The file table, in the order of the pushes.
    pub fn files(&self) -> (files: &Vec<ArchiveEntry>)
        ensures
            files@ == self@.files,
    {
        &self.files
    }

    /// A copy of the content methods.
    fn copy_methods(&self) -> (methods: Vec<EncoderConfiguration>)
        ensures
            coders_of(methods@) == self@.methods,
    {
        let mut methods: Vec<EncoderConfiguration> = Vec::new();
        let mut i: usize = 0;
        while i < self.content_methods.len()
            invariant
                i <= self.content_methods@.len(),
                methods@.len() == i,
                forall|j: int| 0 <= j < i ==> methods@[j]@ == self.content_methods@[j]@,
            decreases self.content_methods@.len() - i,
        {
            methods.push(self.content_methods[i].clone());
            i = i + 1;
        }
        assert(coders_of(methods@) =~= coders_of(self.content_methods@));
        methods
    }

    /// Adds `entry` to the file table, in a block of its own where it has
    /// content.
    ///
    /// A directory, an entry without content and an entry with empty content
    /// get no block and no stream. For any other entry, `content.encoded` must
    /// be what the content methods made of `content.data`, with one stage size
    /// for each method but the first: the packed bytes go to the pack area, and
    /// the entry takes its size and checksums from the content. A name with a
    /// zero character in it is refused: it would read back cut short.
    pub fn push_archive_entry(&mut self, entry: ArchiveEntry, content: Option<Content>) -> (result:
        Result<&ArchiveEntry, Error>)
        requires
            old(self).wf(),
        ensures
            final(self).wf(),
            result is Err <==> push_refused(old(self)@, entry, content),
            match result {
                Ok(stored) => {
                    &&& final(self)@ == pushed_entry(old(self)@, entry, content)
                    &&& *stored == final(self)@.files.last()
                },
                Err(error) => error == Error::InvalidArgument && final(self)@ == old(self)@,
            },
    {
        let mut entry = entry;
        let ghost given = entry;
        if !is_text(entry.name.as_str()) {
            return Err(Error::InvalidArgument);
        }
        if !entry.is_directory {
            if let Some(c) = content {
                if c.data.len() > 0 {
                    if c.encoded.stage_sizes.len() != self.content_methods.len() - 1 {
                        return Err(Error::InvalidArgument);
                    }
                    let crc = crc32(c.data.as_slice());
                    let size = c.data.len();
                    let compressed_crc = crc32(c.encoded.packed.as_slice());
                    let compressed_len = c.encoded.packed.len();
                    entry.has_stream = true;
                    entry.size = size as u64;
                    entry.crc = crc as u64;
                    entry.has_crc = true;
                    entry.compressed_crc = compressed_crc as u64;
                    entry.compressed_size = compressed_len as u64;
                    proof {
                        lemma_pushed_entry_valid(old(self)@, given, content);
                        self.contents = Ghost(self.contents@.push(c.data@));
                        self.unpacked = Ghost(self.unpacked@.push(c.data@));
                    }
                    push_all(&mut self.output, c.encoded.packed.as_slice());
                    self.pack_info.add_stream(compressed_len as u64, compressed_crc);
                    let mut sizes = c.encoded.stage_sizes;
                    sizes.push(size as u64);
                    let methods = self.copy_methods();
                    self.unpack_info.add(methods, sizes, crc);
                    self.files.push(entry);
                    assert(self@ == pushed_entry(old(self)@, given, content));
                    return Ok(&self.files[self.files.len() - 1]);
                }
            }
        }
        entry.has_stream = false;
        entry.size = 0;
        entry.compressed_size = 0;
        entry.has_crc = false;
        proof {
            lemma_pushed_entry_valid(old(self)@, given, content);
            self.contents = Ghost(self.contents@.push(Seq::empty()));
        }
        self.files.push(entry);
        assert(self@ == pushed_entry(old(self)@, given, content));
        Ok(&self.files[self.files.len() - 1])
    }

    /// Adds `entries` to the file table, in one solid block.
    ///
    /// `contents` holds the content of each entry, and `encoded` what the
    /// content methods made of all contents one after another. The entries with
    /// content share the block in the order given; an entry with empty content
    /// gets no stream. Where no entry has content no block is made and
    /// `encoded` is not looked at.
    pub fn push_archive_entries(
        &mut self,
        entries: Vec<ArchiveEntry>,
        contents: Vec<Vec<u8>>,
        encoded: EncodedStream,
    ) -> (result: Result<&mut Self, Error>)
        requires
            old(self).wf(),
        ensures
            result is Err <==> solid_push_refused(
                old(self)@,
                entries@,
                contents_of(contents@),
                encoded.stage_sizes@,
            ),
            match result {
                Ok(this) => {
                    &&& this.wf()
                    &&& this@ == pushed_entries(
                        old(self)@,
                        entries@,
                        contents_of(contents@),
                        encoded,
                    )
                    &&& *final(self) == *final(this)
                },
                Err(error) => error == Error::InvalidArgument && final(self).wf()
                    && final(self)@ == old(self)@,
            },
    {
        let ghost given = entries@;
        let ghost cs = contents_of(contents@);
        if entries.len() != contents.len() {
            return Err(Error::InvalidArgument);
        }
        let mut unpacked: Vec<u8> = Vec::new();
        let mut sub_stream_sizes: Vec<u64> = Vec::new();
        let mut sub_stream_crcs: Vec<u32> = Vec::new();
        let mut stored: Vec<ArchiveEntry> = Vec::new();
        let mut i: usize = 0;
        for entry in it: entries
            invariant
                it.seq() == given,
                given.len() == cs.len(),
                cs == contents_of(contents@),
                i == it.index(),
                i <= given.len() <= usize::MAX,
                sub_stream_sizes@.len() == sub_stream_crcs@.len(),
                sub_stream_sizes@.len() > 0 <==> unpacked@.len() > 0,
                forall|j: int| 0 <= j < i ==> !(given[j].is_directory && cs[j].len() > 0),
                names_are_texts(given.take(i as int)),
                unpacked@ == concat(cs.take(i as int)),
                sub_stream_sizes@ == share_sizes(cs.take(i as int)),
                sub_stream_crcs@ == share_crcs(cs.take(i as int)),
                total(sub_stream_sizes@) == unpacked@.len(),
                stored@ == solid_files(given.take(i as int), cs.take(i as int)),
                stream_count(stored@) == sub_stream_sizes@.len(),
                file_sizes(stored@) == sub_stream_sizes@,
                file_crcs(stored@) == sub_stream_crcs@,
                forall|j: int|
                    0 <= j < stored@.len() ==> ((#[trigger] stored@[j]).is_directory
                        ==> !stored@[j].has_stream),
                forall|j: int| 0 <= j < stored@.len() ==> file_matches(#[trigger] stored@[j], cs[j]),
                self.wf(),
                self@ == old(self)@,
        {
            assert(i < given.len());
            let data = &contents[i];
            assert(data@ == cs[i as int]);
            if entry.is_directory && data.len() > 0 {
                return Err(Error::InvalidArgument);
            }
            if !is_text(entry.name.as_str()) {
                assert(!text_fits(given[i as int].name@));
                return Err(Error::InvalidArgument);
            }
            let mut entry = entry;
            proof {
                lemma_contents_step(cs, i as int);
                lemma_total_push(sub_stream_sizes@, data@.len() as u64);
            }
            if data.len() > 0 {
                let crc = crc32(data.as_slice());
                entry.has_stream = true;
                entry.size = data.len() as u64;
                entry.crc = crc as u64;
                entry.has_crc = true;
                sub_stream_sizes.push(data.len() as u64);
                sub_stream_crcs.push(crc);
                push_all(&mut unpacked, data.as_slice());
            } else {
                entry.has_stream = false;
                entry.size = 0;
                entry.compressed_size = 0;
                entry.has_crc = false;
                assert(unpacked@ + data@ =~= unpacked@);
            }
            proof {
                lemma_stream_count_push(stored@, entry);
                lemma_file_streams_push(stored@, entry);
                assert(entry == entry_in_solid_block(given[i as int], cs[i as int]));
                assert(stored@.push(entry) =~= solid_files(
                    given.take(i + 1),
                    cs.take(i + 1),
                ));
            }
            stored.push(entry);
            assert(names_are_texts(given.take(i + 1))) by {
                assert forall|j: int| 0 <= j < i + 1 implies text_fits(
                    #[trigger] given.take(i + 1)[j].name@,
                ) by {
                    if j < i {
                        assert(given.take(i as int)[j] == given.take(i + 1)[j]);
                    }
                }
            }
            i = i + 1;
        }
        let ghost files = old(self)@.files + stored@;
        let ghost logged = old(self)@.contents + cs;
        proof {
            assert(given.take(i as int) =~= given);
            assert(cs.take(i as int) =~= cs);
            lemma_stream_count_concat(old(self)@.files, stored@);
            lemma_file_streams_concat(old(self)@.files, stored@);
            lemma_concat_append(old(self)@.contents, cs);
            assert forall|j: int| 0 <= j < files.len() implies file_matches(
                #[trigger] files[j],
                logged[j],
            ) by {
                if j >= old(self)@.files.len() {
                    assert(files[j] == stored@[j - old(self)@.files.len()]);
                } else {
                    assert(files[j] == old(self)@.files[j]);
                }
            }
            assert forall|j: int| 0 <= j < files.len() implies text_fits(
                #[trigger] files[j].name@,
            ) by {
                if j >= old(self)@.files.len() {
                    let k = j - old(self)@.files.len();
                    assert(files[j] == stored@[k]);
                    assert(stored@[k].name == given[k].name);
                } else {
                    assert(files[j] == old(self)@.files[j]);
                }
            }
        }
        if unpacked.len() > 0 {
            if encoded.stage_sizes.len() != self.content_methods.len() - 1 {
                return Err(Error::InvalidArgument);
            }
            let crc = crc32(unpacked.as_slice());
            let compressed_crc = crc32(encoded.packed.as_slice());
            let compressed_len = encoded.packed.len();
            let num_sub_unpack_streams = sub_stream_sizes.len() as u64;
            let ghost block = solid_block(old(self)@.methods, encoded.stage_sizes@, cs);
            proof {
                assert(block.sizes.last() == unpacked@.len());
                if sub_stream_sizes@.len() == 1 {
                    assert(sub_stream_sizes@.drop_last().len() == 0);
                    assert(total(sub_stream_sizes@) == total(sub_stream_sizes@.drop_last())
                        + sub_stream_sizes@.last());
                    assert(total(sub_stream_sizes@.drop_last()) == 0);
                }
                assert(block_sizes(block) =~= sub_stream_sizes@);
                assert(block_crcs(block) =~= sub_stream_crcs@);
                lemma_with_block_valid(
                    old(self)@,
                    encoded.packed@,
                    block,
                    unpacked@,
                    files,
                    logged,
                );
                self.unpacked = Ghost(self.unpacked@.push(unpacked@));
                self.contents = Ghost(logged);
            }
            push_all(&mut self.output, encoded.packed.as_slice());
            self.pack_info.add_stream(compressed_len as u64, compressed_crc);
            let mut sizes = encoded.stage_sizes;
            sizes.push(unpacked.len() as u64);
            let methods = self.copy_methods();
            self.unpack_info.add_multiple(
                methods,
                sizes,
                crc,
                num_sub_unpack_streams,
                sub_stream_sizes,
                sub_stream_crcs,
            );
            self.files.append(&mut stored);
            assert(self@ == pushed_entries(old(self)@, given, cs, encoded));
        } else {
            proof {
                assert(concat(old(self)@.contents) + unpacked@ =~= concat(old(self)@.contents));
                assert(file_sizes(old(self)@.files) + sub_stream_sizes@ =~= file_sizes(
                    old(self)@.files,
                ));
                assert(file_crcs(old(self)@.files) + sub_stream_crcs@ =~= file_crcs(
                    old(self)@.files,
                ));
                self.contents = Ghost(logged);
            }
            self.files.append(&mut stored);
            assert(self@ == pushed_entries(old(self)@, given, cs, encoded));
        }
        Ok(self)
    }

    /// Sets the coder chain for the content of the entries to come. An empty
    /// chain is refused, and the writer keeps the chain it had.
    pub fn set_content_methods(&mut self, content_methods: Vec<EncoderConfiguration>) -> (result:
        Result<&mut Self, Error>)
        requires
            old(self).wf(),
        ensures
            result is Err <==> content_methods@.len() == 0,
            match result {
                Ok(this) => {
                    &&& this.wf()
                    &&& this@ == (WriterState {
                        methods: coders_of(content_methods@),
                        ..old(self)@
                    })
                    &&& *final(self) == *final(this)
                },
                Err(error) => error == Error::InvalidArgument && final(self).wf()
                    && final(self)@ == old(self)@,
            },
    {
        if content_methods.len() == 0 {
            return Err(Error::InvalidArgument);
        }
        proof {
            lemma_configurations_fit(content_methods@);
        }
        self.content_methods = content_methods;
        proof {
            let before = old(self)@;
            let after = self@;
            assert forall|i: int| 0 <= i < after.blocks.len() implies #[trigger] after.pack_crcs[i]
                == crc32_ieee(packed_stream(after, i)) by {
                assert(packed_stream(after, i) == packed_stream(before, i));
            }
        }
        Ok(self)
    }

    /// Sets whether the header is encrypted where the content methods hold an
    /// AES coder.
    pub fn set_encrypt_header(&mut self, enabled: bool)
        requires
            old(self).wf(),
        ensures
            final(self).wf(),
            final(self)@ == (WriterState { encrypt_header: enabled, ..old(self)@ }),
    {
        self.encrypt_header = enabled;
        proof {
            let before = old(self)@;
            let after = self@;
            assert forall|i: int| 0 <= i < after.blocks.len() implies #[trigger] after.pack_crcs[i]
                == crc32_ieee(packed_stream(after, i)) by {
                assert(packed_stream(after, i) == packed_stream(before, i));
            }
        }
    }

    /// Appends the streams-info section of the plain header to `header`.
    pub fn write_streams_info(&self, header: &mut Vec<u8>)
        requires
            self.wf(),
        ensures
            final(header)@ == old(header)@ + streams_info_bytes(self@),
    {
        if self.pack_info.len() > 0 {
            self.pack_info.write_to(header);
            assert(self.unpack_info.wf()) by {
                assert forall|i: int| 0 <= i < self.unpack_info@.len() implies (
                #[trigger] self.unpack_info@[i]).coders.len() >= 1 by {
                    assert(block_valid(self@.blocks[i]));
                }
            }
            self.unpack_info.write_to(header);
        }
        self.unpack_info.write_substreams(header);
        header.push(K_END);
        assert(header@ =~= old(header)@ + streams_info_bytes(self@));
    }

    /// Appends the plain header to `header`.
    pub fn write_header(&self, header: &mut Vec<u8>)
        requires
            self.wf(),
        ensures
            final(header)@ == old(header)@ + header_bytes(self@),
    {
        header.push(K_HEADER);
        header.push(K_MAIN_STREAMS_INFO);
        self.write_streams_info(header);
        write_files_info(&self.files, header);
        header.push(K_END);
        assert(header@ =~= old(header)@ + header_bytes(self@));
    }

    /// The coder chain that the caller is to encode the header with: the AES
    /// coder of the content methods, where the header is to be encrypted and
    /// the content is, then `lzma2`.
    pub fn header_methods(&self, lzma2: &EncoderConfiguration) -> (methods: Vec<
        EncoderConfiguration,
    >)
        requires
            self.wf(),
        ensures
            coders_of(methods@) == header_coders(self@, lzma2@),
            1 <= methods@.len() <= 2,
    {
        let mut methods: Vec<EncoderConfiguration> = Vec::new();
        if self.encrypt_header {
            let ghost coders = self@.methods;
            let mut i: usize = 0;
            assert(coders.skip(0) =~= coders);
            while i < self.content_methods.len()
                invariant_except_break
                    i <= self.content_methods@.len(),
                    coders == coders_of(self.content_methods@),
                    methods@.len() == 0,
                    first_aes(coders) == first_aes(coders.skip(i as int)),
                ensures
                    match first_aes(coders) {
                        Some(aes) => methods@.len() == 1 && methods@[0]@ == aes,
                        None => methods@.len() == 0,
                    },
                decreases self.content_methods@.len() - i,
            {
                let conf = &self.content_methods[i];
                proof {
                    assert(coders.skip(i as int)[0] == conf@);
                    assert(coders.skip(i as int).skip(1) =~= coders.skip(i + 1));
                }
                if conf.is_method(EncoderMethod::Aes256Sha256) {
                    methods.push(conf.clone());
                    break ;
                }
                i = i + 1;
            }
        }
        methods.push(lzma2.clone());
        assert(coders_of(methods@) =~= header_coders(self@, lzma2@));
        methods
    }

    /// Chooses the final header and appends it to `header`. Where that is the
    /// encoded one, the packed header is appended to `sink`, which stands for
    /// the end of the pack area; else `sink` stays as it is. An encoded header
    /// that is refused leaves both as they are.
    pub fn write_encoded_header(
        &self,
        header: &mut Vec<u8>,
        sink: &mut Vec<u8>,
        encoded: Option<EncodedHeader>,
    ) -> (result: Result<(), Error>)
        requires
            self.wf(),
        ensures
            result is Err <==> encoded_header_refused(self@, encoded),
            match result {
                Ok(_) => {
                    &&& final(header)@ == old(header)@ + final_header(self@, encoded)
                    &&& final(sink)@ == old(sink)@ + packed_header(self@, encoded)
                },
                Err(error) => {
                    &&& error == Error::InvalidArgument
                    &&& final(header)@ == old(header)@
                    &&& final(sink)@ == old(sink)@
                },
            },
    {
        let mut raw_header: Vec<u8> = Vec::new();
        self.write_header(&mut raw_header);
        assert(raw_header@ =~= header_bytes(self@));
        match encoded {
            None => {
                push_all(header, raw_header.as_slice());
                assert(sink@ =~= old(sink)@ + packed_header(self@, encoded));
                Ok(())
            },
            Some(e) => {
                let methods = self.header_methods(&e.lzma2);
                if !e.lzma2.is_method(EncoderMethod::Lzma2) || e.stream.stage_sizes.len()
                    != methods.len() - 1 {
                    return Err(Error::InvalidArgument);
                }
                let size = raw_header.len();
                let compress_size = e.stream.packed.len();
                if size <= 20 || compress_size >= size - 20 {
                    push_all(header, raw_header.as_slice());
                    assert(sink@ =~= old(sink)@ + packed_header(self@, encoded));
                    return Ok(());
                }
                let pos = self.output.len() as u64 - SIGNATURE_HEADER_SIZE;
                let compress_crc = crc32(e.stream.packed.as_slice());
                let crc = crc32(raw_header.as_slice());
                push_all(sink, e.stream.packed.as_slice());
                let mut sizes = e.stream.stage_sizes;
                sizes.push(size as u64);
                let description = describe_encoded_header(
                    pos,
                    compress_size as u64,
                    compress_crc,
                    methods,
                    sizes,
                    crc,
                );
                push_all(header, description.as_slice());
                Ok(())
            },
        }
    }

    /// Finishes the archive and returns it.
    ///
    /// With `encoded_header`, the caller offers the header in encoded form:
    /// what the chain of `header_methods` made of the plain header that
    /// `write_header` gives. The archive takes the encoded form only where it
    /// is more than 20 bytes shorter than the plain one.
    pub fn finish(self, encoded_header: Option<EncodedHeader>) -> (result: Result<Vec<u8>, Error>)
        requires
            self.wf(),
        ensures
            result is Err <==> encoded_header_refused(self@, encoded_header),
            match result {
                Ok(archive) => archive@ == finished_archive(self@, encoded_header),
                Err(error) => error == Error::InvalidArgument,
            },
    {
        let mut header: Vec<u8> = Vec::new();
        let mut packed: Vec<u8> = Vec::new();
        match self.write_encoded_header(&mut header, &mut packed, encoded_header) {
            Ok(_) => {},
            Err(error) => {
                return Err(error);
            },
        }
        let mut output = self.output;
        let ghost area = output@.skip(SIGNATURE_HEADER_SIZE as int);
        output.append(&mut packed);
        let header_pos = output.len() as u64;
        let crc = crc32(header.as_slice());
        let ghost body = output@.skip(SIGNATURE_HEADER_SIZE as int);
        proof {
            assert(header@ =~= final_header(self@, encoded_header));
            assert(body =~= area + packed_header(self@, encoded_header));
            assert(body =~= final_pack_area(self@, encoded_header)) by {
                assert(area + Seq::<u8>::empty() =~= area);
            }
        }
        push_all(&mut output, header.as_slice());
        let header_len = header.len() as u64;
        let stored_len = header_len & 0xFFFF_FFFF;
        assert(stored_len == header_len % 0x1_0000_0000) by (bit_vector)
            requires
                stored_len == header_len & 0xFFFF_FFFF,
        ;
        let start = start_header(header_pos - SIGNATURE_HEADER_SIZE, stored_len, crc);
        let start_crc = crc32(start.as_slice());
        let hh = signature_header(start.as_slice(), start_crc);
        let ghost written = output@;
        let mut i: usize = 0;
        while i < hh.len()
            invariant
                i <= hh@.len() == SIGNATURE_HEADER_SIZE <= written.len(),
                output@ == hh@.take(i as int) + written.skip(i as int),
            decreases hh@.len() - i,
        {
            output.set(i, hh[i]);
            i = i + 1;
            assert(output@ =~= hh@.take(i as int) + written.skip(i as int));
        }
        proof {
            assert(hh@.take(hh@.len() as int) =~= hh@);
            assert(written.skip(SIGNATURE_HEADER_SIZE as int) =~= body + header@);
            assert(output@ =~= assembled_archive(body, header@));
        }
        Ok(output)
    }
}

impl AutoFinish for ArchiveWriter {
    open spec fn ready(&self) -> bool {
        self.wf()
    }

    /// Finishes the archive with the plain header and drops it.
    fn finish_ignore_error(self) {
        let _ = self.finish(None);
    }
}

} // verus!
