//! What the writer writes, the reader reads: the header of every writer state
//! reads back as the archive that the state describes.

use vstd::prelude::*;
use crate::writer::bytes::lemma_assoc;
use crate::archive::{
    ArchiveEntry,
    K_END,
    K_HEADER,
    K_MAIN_STREAMS_INFO,
    names_are_texts,
    text_fits,
};
use crate::reader::bridge::{lemma_files_info_bytes, lemma_selected_agrees, lemma_units_fit};
use crate::reader::files::{
    FileModel,
    columns_of,
    decodable,
    file_canonical,
    file_model,
    files_canonical,
    files_section_bytes,
    models_of,
};
use crate::checksum::crc32_ieee;
use crate::reader::header::{
    HeaderModel,
    header_canonical,
    lemma_parsed_block_description,
    lemma_parsed_header,
    model_bytes,
    parsed_block_description,
    parsed_header,
    stream_files,
    streams_part,
};
use crate::reader::streams::{PackStreams, chain_fits};
use crate::reader::substreams::{block_canonical, blocks_canonical};
use crate::writer::files_info::{property_bytes, utf16_text};
use crate::archive::{Coder, SIGNATURE_HEADER_SIZE};
use crate::writer::unpack_info::{
    Block,
    block_crcs,
    coder_fits,
    coders_fit,
    counts_part,
    crcs_part,
    folders_bytes,
    sizes_part,
    stored_crcs,
    stored_sizes,
    stream_counts,
    stream_sizes,
    substreams_bytes,
    unpack_info_bytes,
    unpack_sizes_bytes,
};
use crate::writer::{
    EncodedHeader,
    WriterState,
    block_valid,
    countable,
    encoded_header_bytes,
    encoded_header_refused,
    first_aes,
    header_bytes,
    header_coders,
    single_block,
    stream_count,
    streams_info_bytes,
    total_streams,
    valid_state,
};

verus! {

/// A block in the form in which a header holds it: a block of one file keeps
/// the checksum that the header stores for it and no shares; a block of
/// several files keeps its shares and no checksum of its own.
pub open spec fn normal_block(block: Block) -> Block {
    if block.num_sub_unpack_streams == 1 {
        Block {
            crc: block_crcs(block)[0],
            sub_stream_sizes: Seq::empty(),
            sub_stream_crcs: Seq::empty(),
            ..block
        }
    } else {
        Block { crc: 0, ..block }
    }
}

/// The blocks in the form in which a header holds them.
pub open spec fn normal_blocks(blocks: Seq<Block>) -> Seq<Block> {
    Seq::new(blocks.len(), |i: int| normal_block(blocks[i]))
}

/// A file in the form in which a header holds it: only a file without a
/// stream can be an anti-item, and a time or attributes that the file does not
/// have are zero.
pub open spec fn normal_file(file: FileModel) -> FileModel {
    FileModel {
        is_anti_item: !file.has_stream && file.is_anti_item,
        creation_date: if file.has_creation_date {
            file.creation_date
        } else {
            0
        },
        access_date: if file.has_access_date {
            file.access_date
        } else {
            0
        },
        last_modified_date: if file.has_last_modified_date {
            file.last_modified_date
        } else {
            0
        },
        windows_attributes: if file.has_windows_attributes {
            file.windows_attributes
        } else {
            0
        },
        ..file
    }
}

/// The files in the form in which a header holds them.
pub open spec fn normal_files(files: Seq<FileModel>) -> Seq<FileModel> {
    Seq::new(files.len(), |i: int| normal_file(files[i]))
}

/// The archive that a writer state describes, as a header holds it.
pub open spec fn written_model(state: WriterState) -> HeaderModel {
    HeaderModel {
        pack: PackStreams {
            pos: state.pack_pos,
            sizes: state.pack_sizes,
            crcs: state.pack_crcs,
        },
        blocks: normal_blocks(state.blocks),
        files: normal_files(models_of(state.files)),
    }
}

/// The unpack-info section does not depend on the form of the blocks.
pub proof fn lemma_unpack_info_of_normal(blocks: Seq<Block>)
    ensures
        folders_bytes(normal_blocks(blocks)) == folders_bytes(blocks),
        unpack_sizes_bytes(normal_blocks(blocks)) == unpack_sizes_bytes(blocks),
        unpack_info_bytes(normal_blocks(blocks)) == unpack_info_bytes(blocks),
    decreases blocks.len(),
{
    if blocks.len() > 0 {
        lemma_unpack_info_of_normal(blocks.drop_last());
        assert(normal_blocks(blocks).drop_last() =~= normal_blocks(blocks.drop_last()));
    }
}

/// What the substreams section lists does not depend on the form of valid
/// blocks.
pub proof fn lemma_lists_of_normal(blocks: Seq<Block>)
    requires
        forall|i: int| 0 <= i < blocks.len() ==> block_valid(#[trigger] blocks[i]),
    ensures
        stream_counts(normal_blocks(blocks)) == stream_counts(blocks),
        stored_sizes(normal_blocks(blocks)) == stored_sizes(blocks),
        stored_crcs(normal_blocks(blocks)) == stored_crcs(blocks),
        stream_sizes(normal_blocks(blocks)) == stream_sizes(blocks),
        total_streams(normal_blocks(blocks)) == total_streams(blocks),
    decreases blocks.len(),
{
    assert(stream_counts(normal_blocks(blocks)) =~= stream_counts(blocks));
    if blocks.len() > 0 {
        assert forall|i: int| 0 <= i < blocks.drop_last().len() implies block_valid(
            #[trigger] blocks.drop_last()[i],
        ) by {
            assert(blocks.drop_last()[i] == blocks[i]);
        }
        lemma_lists_of_normal(blocks.drop_last());
        assert(normal_blocks(blocks).drop_last() =~= normal_blocks(blocks.drop_last()));
        assert(block_valid(blocks[blocks.len() - 1]));
        assert(blocks.last() == blocks[blocks.len() - 1]);
    }
}

/// The substreams section does not depend on the form of valid blocks.
#[verifier::rlimit(50)]
pub proof fn lemma_substreams_of_normal(blocks: Seq<Block>)
    requires
        forall|i: int| 0 <= i < blocks.len() ==> block_valid(#[trigger] blocks[i]),
    ensures
        substreams_bytes(normal_blocks(blocks)) == substreams_bytes(blocks),
{
    let normal = normal_blocks(blocks);
    lemma_lists_of_normal(blocks);
    assert(counts_part(normal) == counts_part(blocks)) by {
        if exists|i: int| 0 <= i < blocks.len() && blocks[i].num_sub_unpack_streams != 1 {
            let i = choose|i: int| 0 <= i < blocks.len() && blocks[i].num_sub_unpack_streams != 1;
            assert(normal[i].num_sub_unpack_streams != 1);
        }
        if exists|i: int| 0 <= i < normal.len() && normal[i].num_sub_unpack_streams != 1 {
            let i = choose|i: int| 0 <= i < normal.len() && normal[i].num_sub_unpack_streams != 1;
            assert(blocks[i].num_sub_unpack_streams != 1);
        }
    }
    assert(sizes_part(normal) == sizes_part(blocks)) by {
        if exists|i: int| 0 <= i < blocks.len() && blocks[i].sub_stream_sizes.len() > 1 {
            let i = choose|i: int| 0 <= i < blocks.len() && blocks[i].sub_stream_sizes.len() > 1;
            assert(block_valid(blocks[i]));
            assert(normal[i].sub_stream_sizes.len() > 1);
        }
        if exists|i: int| 0 <= i < normal.len() && normal[i].sub_stream_sizes.len() > 1 {
            let i = choose|i: int| 0 <= i < normal.len() && normal[i].sub_stream_sizes.len() > 1;
            assert(blocks[i].sub_stream_sizes.len() > 1);
        }
    }
    assert(crcs_part(normal) == crcs_part(blocks));
}

/// Valid blocks in their normal form are canonical, as long as the machine can
/// count their coders.
pub proof fn lemma_normal_blocks_canonical(blocks: Seq<Block>)
    requires
        forall|i: int| 0 <= i < blocks.len() ==> block_valid(#[trigger] blocks[i]),
        forall|i: int| 0 <= i < blocks.len() ==> (#[trigger] blocks[i]).coders.len() <= usize::MAX,
    ensures
        blocks_canonical(normal_blocks(blocks)),
{
    reveal(blocks_canonical);
    let normal = normal_blocks(blocks);
    assert forall|i: int| 0 <= i < normal.len() implies block_canonical(#[trigger] normal[i]) by {
        assert(block_valid(blocks[i]));
        assert(blocks[i].coders.len() <= usize::MAX);
        assert(chain_fits(normal[i]));
    }
}

/// The property sections do not depend on the values of files that lack the
/// property.
pub proof fn lemma_property_bytes_agrees(
    nid: u8,
    defined: Seq<bool>,
    first: Seq<u64>,
    second: Seq<u64>,
    width: nat,
)
    requires
        defined.len() == first.len(),
        defined.len() == second.len(),
        forall|i: int| 0 <= i < defined.len() && defined[i] ==> first[i] == second[i],
    ensures
        property_bytes(nid, defined, first, width) == property_bytes(nid, defined, second, width),
{
    lemma_selected_agrees(defined, first, second);
}

/// The files-info section does not depend on the form of the files.
#[verifier::rlimit(50)]
pub proof fn lemma_files_section_of_normal(files: Seq<FileModel>)
    ensures
        files_section_bytes(normal_files(files)) == files_section_bytes(files),
{
    let normal = normal_files(files);
    let columns = columns_of(files);
    let fixed = columns_of(normal);
    assert(fixed.names =~= columns.names);
    assert(fixed.empty_stream =~= columns.empty_stream);
    assert(fixed.creation.0 =~= columns.creation.0);
    assert(fixed.access.0 =~= columns.access.0);
    assert(fixed.modified.0 =~= columns.modified.0);
    assert(fixed.attributes.0 =~= columns.attributes.0);
    assert(Seq::new(normal.len(), |i: int| !normal[i].is_directory) =~= Seq::new(
        files.len(),
        |i: int| !files[i].is_directory,
    ));
    assert(fixed.empty_file == columns.empty_file);
    lemma_selected_agrees(
        columns.empty_stream,
        Seq::new(normal.len(), |i: int| normal[i].is_anti_item),
        Seq::new(files.len(), |i: int| files[i].is_anti_item),
    );
    assert(fixed.anti == columns.anti);
    lemma_property_bytes_agrees(
        crate::archive::K_C_TIME,
        columns.creation.0,
        fixed.creation.1,
        columns.creation.1,
        8,
    );
    lemma_property_bytes_agrees(
        crate::archive::K_A_TIME,
        columns.access.0,
        fixed.access.1,
        columns.access.1,
        8,
    );
    lemma_property_bytes_agrees(
        crate::archive::K_M_TIME,
        columns.modified.0,
        fixed.modified.1,
        columns.modified.1,
        8,
    );
    lemma_property_bytes_agrees(
        crate::archive::K_WIN_ATTRIBUTES,
        columns.attributes.0,
        fixed.attributes.1,
        columns.attributes.1,
        4,
    );
}

/// Entries whose names hold no zero character, and of which only those without
/// a stream are directories, are canonical files in their normal form.
pub proof fn lemma_normal_files_canonical(entries: Seq<ArchiveEntry>)
    requires
        names_are_texts(entries),
        forall|i: int|
            0 <= i < entries.len() ==> ((#[trigger] entries[i]).is_directory
                ==> !entries[i].has_stream),
    ensures
        files_canonical(normal_files(models_of(entries))),
{
    reveal(files_canonical);
    let files = normal_files(models_of(entries));
    assert forall|i: int| 0 <= i < files.len() implies file_canonical(#[trigger] files[i]) by {
        assert(files[i] == normal_file(file_model(entries[i])));
        assert(text_fits(entries[i].name@));
        lemma_units_fit(entries[i].name@);
        assert(decodable(files[i].name)) by {
            assert(utf16_text(entries[i].name@) == files[i].name);
        }
    }
}

/// The files with a stream are the same in number whatever the form.
pub proof fn lemma_stream_files_of_entries(entries: Seq<ArchiveEntry>)
    ensures
        stream_files(normal_files(models_of(entries))) == stream_count(entries),
    decreases entries.len(),
{
    if entries.len() > 0 {
        lemma_stream_files_of_entries(entries.drop_last());
        assert(normal_files(models_of(entries)).drop_last() =~= normal_files(
            models_of(entries.drop_last()),
        ));
    }
}

/// The header that the writer makes of a state is the header of the archive
/// that the state describes.
#[verifier::rlimit(50)]
pub proof fn lemma_written_header(state: WriterState)
    requires
        valid_state(state),
    ensures
        header_bytes(state) == model_bytes(written_model(state)),
{
    let model = written_model(state);
    lemma_unpack_info_of_normal(state.blocks);
    lemma_substreams_of_normal(state.blocks);
    lemma_files_info_bytes(state.files);
    lemma_files_section_of_normal(models_of(state.files));
    let head = seq![K_HEADER, K_MAIN_STREAMS_INFO];
    let x1 = streams_part(model);
    let x2 = substreams_bytes(state.blocks);
    let x3 = files_section_bytes(model.files);
    let end = seq![K_END];
    assert(streams_info_bytes(state) == x1 + x2 + end);
    assert(header_bytes(state) == head + (x1 + x2 + end) + x3 + end);
    lemma_assoc(head + (x1 + x2 + end), x3, end);
    lemma_assoc(head, x1 + x2 + end, x3 + end);
    lemma_assoc(x1 + x2, end, x3 + end);
    lemma_assoc(x1, x2, end + (x3 + end));
}

/// What the writer writes, the reader reads: the header of a writer state
/// reads back as the archive that the state describes, with every block and
/// file in the form in which a header holds it. It holds of every state that
/// the machine can hold.
pub proof fn lemma_written_header_reads_back(state: WriterState)
    requires
        valid_state(state),
        countable(state),
        header_bytes(state).len() <= u64::MAX,
    ensures
        parsed_header(header_bytes(state)) == Some(written_model(state)),
{
    let model = written_model(state);
    lemma_written_header(state);
    lemma_normal_blocks_canonical(state.blocks);
    lemma_normal_files_canonical(state.files);
    lemma_lists_of_normal(state.blocks);
    lemma_stream_files_of_entries(state.files);
    assert(header_canonical(model));
    lemma_parsed_header(model);
}

/// The first AES coder of a chain that fits, fits.
pub proof fn lemma_first_aes_fits(coders: Seq<Coder>)
    requires
        coders_fit(coders),
        first_aes(coders) is Some,
    ensures
        coder_fits(first_aes(coders)->0),
    decreases coders.len(),
{
    reveal(coders_fit);
    if coders.len() > 0 && coders[0].id != crate::archive::EncoderMethod::Aes256Sha256.spec_id() {
        assert forall|i: int| 0 <= i < coders.skip(1).len() implies coder_fits(
            #[trigger] coders.skip(1)[i],
        ) by {
            assert(coders.skip(1)[i] == coders[i + 1]);
        }
        lemma_first_aes_fits(coders.skip(1));
    }
}

/// The description that `finish` writes in place of an encoded header reads
/// back as the packed header's place, size and checksum, and as the block
/// that unpacks it: the header's coder chain, the sizes along it, and the size
/// and the checksum of the plain header.
#[verifier::rlimit(50)]
pub proof fn lemma_encoded_header_reads_back(state: WriterState, encoded: EncodedHeader)
    requires
        valid_state(state),
        !encoded_header_refused(state, Some(encoded)),
    ensures
        parsed_block_description(encoded_header_bytes(state, encoded)) == Some(
            (
                PackStreams {
                    pos: (state.output.len() - SIGNATURE_HEADER_SIZE) as u64,
                    sizes: seq![encoded.stream.packed@.len() as u64],
                    crcs: seq![crc32_ieee(encoded.stream.packed@)],
                },
                single_block(
                    header_coders(state, encoded.lzma2@),
                    encoded.stream.stage_sizes@,
                    header_bytes(state),
                ),
            ),
        ),
{
    let coders = header_coders(state, encoded.lzma2@);
    let plain = header_bytes(state);
    let stages = encoded.stream.stage_sizes@;
    let block = single_block(coders, stages, plain);
    assert(1 <= coders.len() <= 2);
    encoded.lzma2.lemma_fits();
    assert(coders_fit(coders)) by {
        if state.encrypt_header && first_aes(state.methods) is Some {
            lemma_first_aes_fits(state.methods);
        }
        reveal(coders_fit);
    }
    assert(stages.len() + 1 == coders.len());
    assert(block.coders == coders);
    assert(block.sizes.len() == coders.len());
    assert(chain_fits(block));
    assert(block.num_sub_unpack_streams == 1);
    assert(block.sub_stream_sizes.len() == 0 && block.sub_stream_crcs.len() == 0);
    assert(block_canonical(block));
    lemma_parsed_block_description(
        (state.output.len() - SIGNATURE_HEADER_SIZE) as u64,
        encoded.stream.packed@.len() as u64,
        crc32_ieee(encoded.stream.packed@),
        block,
    );
}

} // verus!
