//! Reading a whole header, and the laws that tie the reader to the writer.

use vstd::prelude::*;
use crate::writer::bytes::lemma_assoc;
use crate::archive::{
    ArchiveEntry,
    Coder,
    EncoderConfiguration,
    K_ENCODED_HEADER,
    K_END,
    K_HEADER,
    K_MAIN_STREAMS_INFO,
    K_PACK_INFO,
};
use crate::error::Error;
use crate::reader::files::{
    FileModel,
    entry_blank,
    files_canonical,
    files_section_bytes,
    lemma_parsed_files_info,
    lemma_parsed_files_info_shape,
    models_of,
    parsed_files_info,
    read_files_info,
};
use crate::reader::streams::{
    PackStreams,
    after,
    chain_fits,
    chains_of,
    chains_view,
    has_tag,
    lemma_after,
    lemma_parsed_pack_info,
    lemma_parsed_pack_info_shape,
    lemma_parsed_unpack_info,
    lemma_parsed_unpack_info_shape,
    lemma_tag,
    parsed_pack_info,
    parsed_unpack_info,
    read_pack_info,
    read_unpack_info,
    sizes_of,
    sizes_view,
    tag_at,
};
use crate::reader::substreams::{
    blocks_canonical,
    blocks_view,
    lemma_canonical_chains_fit,
    lemma_parsed_substreams,
    lemma_parsed_substreams_shape,
    parsed_substreams,
    read_substreams,
};
use crate::reader::bridge::lemma_files_info_bytes;
use crate::reader::primitives::{count_set, spread, spread_values};
use crate::reader::substreams::block_canonical;
use crate::writer::files_info::write_files_info;
use crate::writer::pack_info::{PackInfo, pack_info_bytes};
use crate::writer::{block_description_bytes, total_streams};
use crate::writer::unpack_info::{
    Block,
    BlockInfo,
    UnpackInfo,
    block_crcs,
    block_sizes,
    stored_crcs,
    stream_sizes,
    substreams_bytes,
    unpack_info_bytes,
};
use vstd::slice::slice_subrange;

verus! {

/// An archive as its header describes it.
pub struct HeaderModel {
    pub pack: PackStreams,
    pub blocks: Seq<Block>,
    pub files: Seq<FileModel>,
}

/// The number of `files` that have a stream.
pub open spec fn stream_files(files: Seq<FileModel>) -> nat
    decreases files.len(),
{
    if files.len() == 0 {
        0
    } else {
        stream_files(files.drop_last()) + if files.last().has_stream {
            1nat
        } else {
            0nat
        }
    }
}

/// The form in which a header holds an archive: blocks and files in their
/// canonical forms; one packed stream for each block; the pack area at
/// position zero where there is no block; and as many files with a stream as
/// the blocks hold.
pub open spec fn header_canonical(model: HeaderModel) -> bool {
    &&& blocks_canonical(model.blocks)
    &&& files_canonical(model.files)
    &&& model.pack.sizes.len() == model.blocks.len()
    &&& model.pack.crcs.len() == model.blocks.len()
    &&& model.blocks.len() == 0 ==> model.pack.pos == 0
    &&& model.blocks.len() <= usize::MAX
    &&& model.files.len() <= usize::MAX
    &&& stored_crcs(model.blocks).len() <= usize::MAX
    &&& total_streams(model.blocks) == stream_files(model.files)
}

/// The sections on packed streams and blocks: left out where there is no
/// block.
pub open spec fn streams_part(model: HeaderModel) -> Seq<u8> {
    if model.blocks.len() > 0 {
        pack_info_bytes(model.pack.pos, model.pack.sizes, model.pack.crcs) + unpack_info_bytes(
            model.blocks,
        )
    } else {
        Seq::empty()
    }
}

/// The header of an archive.
pub open spec fn model_bytes(model: HeaderModel) -> Seq<u8> {
    seq![K_HEADER, K_MAIN_STREAMS_INFO] + (streams_part(model) + (substreams_bytes(model.blocks)
        + (seq![K_END] + (files_section_bytes(model.files) + seq![K_END]))))
}

/// The sections on packed streams and blocks, read at position `at`: the
/// packed streams, the coder chains and the sizes along them. Where the
/// sections are there, they must hold at least one block, and one packed
/// stream for each.
pub open spec fn parsed_streams(bytes: Seq<u8>, at: nat) -> Option<
    ((PackStreams, Seq<Seq<Coder>>, Seq<Seq<u64>>), nat),
> {
    if tag_at(bytes, at, K_PACK_INFO) {
        match parsed_pack_info(after(bytes, at)) {
            None => None,
            Some((pack, a)) => match parsed_unpack_info(after(bytes, at + a)) {
                None => None,
                Some((folders, b)) => if folders.0.len() == 0 || pack.sizes.len()
                    != folders.0.len() {
                    None
                } else {
                    Some(((pack, folders.0, folders.1), at + a + b))
                },
            },
        }
    } else {
        Some(
            (
                (
                    PackStreams { pos: 0, sizes: Seq::empty(), crcs: Seq::empty() },
                    Seq::empty(),
                    Seq::empty(),
                ),
                at,
            ),
        )
    }
}

/// A header. It must end where its last section ends, and hold as many files
/// with a stream as its blocks hold.
pub open spec fn parsed_header(bytes: Seq<u8>) -> Option<HeaderModel> {
    if !tag_at(bytes, 0, K_HEADER) || !tag_at(bytes, 1, K_MAIN_STREAMS_INFO) {
        None
    } else {
        match parsed_streams(bytes, 2) {
            None => None,
            Some((streams, at)) => match parsed_substreams(
                after(bytes, at),
                streams.1,
                streams.2,
            ) {
                None => None,
                Some((blocks, c)) => if !tag_at(bytes, at + c, K_END) {
                    None
                } else {
                    match parsed_files_info(after(bytes, at + c + 1)) {
                        None => None,
                        Some((files, d)) => if tag_at(bytes, at + c + 1 + d, K_END) && bytes.len()
                            == at + c + 1 + d + 1 && total_streams(blocks) == stream_files(files) {
                            Some(HeaderModel { pack: streams.0, blocks, files })
                        } else {
                            None
                        },
                    }
                },
            },
        }
    }
}

/// Reading the stream sections that the writer makes gives the streams back.
#[verifier::rlimit(50)]
pub proof fn lemma_parsed_streams(model: HeaderModel, bytes: Seq<u8>, at: nat, rest: Seq<u8>)
    requires
        header_canonical(model),
        at <= bytes.len(),
        after(bytes, at) == streams_part(model) + rest,
        rest.len() > 0,
        rest[0] != K_PACK_INFO,
    ensures
        parsed_streams(bytes, at) == Some(
            (
                (model.pack, chains_of(model.blocks), sizes_of(model.blocks)),
                at + streams_part(model).len(),
            ),
        ),
        after(bytes, at + streams_part(model).len()) == rest,
        at + streams_part(model).len() <= bytes.len(),
{
    let part = streams_part(model);
    lemma_after(bytes, at, part, rest);
    if model.blocks.len() > 0 {
        let pack = pack_info_bytes(model.pack.pos, model.pack.sizes, model.pack.crcs);
        let unpack = unpack_info_bytes(model.blocks);
        lemma_assoc(pack, unpack, rest);
        lemma_canonical_chains_fit(model.blocks);
        lemma_parsed_pack_info(model.pack.pos, model.pack.sizes, model.pack.crcs, unpack + rest);
        assert(pack[0] == K_PACK_INFO);
        assert(after(bytes, at)[0] == bytes[at as int]);
        lemma_after(bytes, at, pack, unpack + rest);
        lemma_parsed_unpack_info(model.blocks, rest);
        assert(model.pack == (PackStreams {
            pos: model.pack.pos,
            sizes: model.pack.sizes,
            crcs: model.pack.crcs,
        }));
    } else {
        assert(part + rest =~= rest);
        assert(after(bytes, at)[0] == bytes[at as int]);
        assert(model.pack.sizes =~= Seq::<u64>::empty());
        assert(model.pack.crcs =~= Seq::<u32>::empty());
        assert(chains_of(model.blocks) =~= Seq::<Seq<Coder>>::empty());
        assert(sizes_of(model.blocks) =~= Seq::<Seq<u64>>::empty());
    }
}

/// Reading the header of a canonical archive gives the archive back.
#[verifier::rlimit(50)]
pub proof fn lemma_parsed_header(model: HeaderModel)
    requires
        header_canonical(model),
        model_bytes(model).len() <= u64::MAX,
    ensures
        parsed_header(model_bytes(model)) == Some(model),
{
    let x1 = streams_part(model);
    let x2 = substreams_bytes(model.blocks);
    let x3 = files_section_bytes(model.files);
    let t4 = x3 + seq![K_END];
    let t3 = seq![K_END] + t4;
    let t2 = x2 + t3;
    let t1 = x1 + t2;
    let bytes = model_bytes(model);
    assert(after(bytes, 0) =~= bytes);
    assert(seq![K_HEADER, K_MAIN_STREAMS_INFO] =~= seq![K_HEADER] + seq![K_MAIN_STREAMS_INFO]);
    lemma_assoc(seq![K_HEADER], seq![K_MAIN_STREAMS_INFO], t1);
    lemma_tag(bytes, 0, K_HEADER, seq![K_MAIN_STREAMS_INFO] + t1);
    lemma_tag(bytes, 1, K_MAIN_STREAMS_INFO, t1);
    assert(t2[0] == x2[0]);
    lemma_parsed_streams(model, bytes, 2, t2);
    let at = 2 + x1.len();
    lemma_parsed_substreams(model.blocks, t3);
    lemma_after(bytes, at, x2, t3);
    let c = x2.len();
    lemma_tag(bytes, at + c, K_END, t4);
    assert(t4.len() <= u64::MAX);
    lemma_parsed_files_info(model.files, seq![K_END]);
    lemma_after(bytes, at + c + 1, x3, seq![K_END]);
    let d = x3.len();
    assert(seq![K_END] =~= seq![K_END] + Seq::<u8>::empty());
    lemma_tag(bytes, at + c + 1 + d, K_END, Seq::<u8>::empty());
    assert(bytes.len() == at + c + 1 + d + 1);
    assert(model == (HeaderModel { pack: model.pack, blocks: model.blocks, files: model.files }));
}

/// What is read as the stream sections has a chain that fits for each block
/// and a packed stream for each, and leaves the pack area at zero where there
/// is no block.
#[verifier::rlimit(50)]
pub proof fn lemma_parsed_streams_shape(bytes: Seq<u8>, at: nat)
    requires
        parsed_streams(bytes, at) is Some,
        at <= bytes.len() <= usize::MAX,
    ensures
        ({
            let streams = (parsed_streams(bytes, at)->0).0;
            &&& streams.1.len() == streams.2.len()
            &&& streams.1.len() <= usize::MAX
            &&& streams.0.sizes.len() == streams.1.len()
            &&& streams.0.crcs.len() == streams.1.len()
            &&& streams.1.len() == 0 ==> streams.0.pos == 0
            &&& forall|i: int|
                0 <= i < streams.1.len() ==> chain_fits(
                    (Block {
                        coders: #[trigger] streams.1[i],
                        sizes: streams.2[i],
                        crc: 0,
                        num_sub_unpack_streams: 0,
                        sub_stream_sizes: Seq::empty(),
                        sub_stream_crcs: Seq::empty(),
                    }),
                )
        }),
        at <= (parsed_streams(bytes, at)->0).1 <= bytes.len(),
{
    if tag_at(bytes, at, K_PACK_INFO) {
        lemma_parsed_pack_info_shape(after(bytes, at));
        let a = (parsed_pack_info(after(bytes, at))->0).1;
        lemma_parsed_unpack_info_shape(after(bytes, at + a));
    }
}

/// What is read as a header is a canonical archive.
#[verifier::rlimit(50)]
pub proof fn lemma_parsed_header_is_canonical(bytes: Seq<u8>)
    requires
        parsed_header(bytes) is Some,
        bytes.len() <= usize::MAX,
    ensures
        header_canonical(parsed_header(bytes)->0),
{
    lemma_parsed_streams_shape(bytes, 2);
    let streams = parsed_streams(bytes, 2)->0;
    lemma_parsed_substreams_shape(after(bytes, streams.1), (streams.0).1, (streams.0).2);
    let blocks = parsed_substreams(after(bytes, streams.1), (streams.0).1, (streams.0).2)->0;
    lemma_parsed_files_info_shape(after(bytes, streams.1 + blocks.1 + 1));
}

/// Reading a header, writing what was read, and reading that again gives what
/// the first reading gave. This holds of every header that the machine can
/// hold and whose rewritten form it can hold.
pub proof fn lemma_header_reads_back(bytes: Seq<u8>)
    requires
        parsed_header(bytes) is Some,
        bytes.len() <= usize::MAX,
        model_bytes(parsed_header(bytes)->0).len() <= u64::MAX,
    ensures
        parsed_header(model_bytes(parsed_header(bytes)->0)) == parsed_header(bytes),
{
    lemma_parsed_header_is_canonical(bytes);
    lemma_parsed_header(parsed_header(bytes)->0);
}

/// An archive as its header describes it.
#[derive(Debug)]
pub struct Archive {
    /// The packed streams.
    pub pack_info: PackInfo,
    /// The blocks.
    pub unpack_info: UnpackInfo,
    /// The files, in the order of the header.
    pub files: Vec<ArchiveEntry>,
}

impl View for Archive {
    type V = HeaderModel;

    open spec fn view(&self) -> HeaderModel {
        HeaderModel {
            pack: PackStreams {
                pos: self.pack_info.pos,
                sizes: self.pack_info.sizes@,
                crcs: self.pack_info.crcs@,
            },
            blocks: self.unpack_info@,
            files: models_of(self.files@),
        }
    }
}

/// Whether each entry with a stream has the size and the checksum that the
/// blocks hold for it, the files taking their streams in order, and each entry
/// without a stream none.
pub open spec fn streams_assigned(entries: Seq<ArchiveEntry>, blocks: Seq<Block>) -> bool {
    let flags = Seq::new(entries.len(), |i: int| entries[i].has_stream);
    let sizes = spread(flags, stream_sizes(blocks), 0u64);
    let crcs = spread(flags, stored_crcs(blocks), 0u32);
    forall|i: int|
        0 <= i < entries.len() ==> {
            &&& (#[trigger] entries[i]).size == sizes[i]
            &&& entries[i].crc == crcs[i]
            &&& entries[i].has_crc == entries[i].has_stream
            &&& entries[i].compressed_size == 0
            &&& entries[i].compressed_crc == 0
        }
}

/// Canonical blocks hold a size and a checksum for each of their files.
pub proof fn lemma_stream_lists(blocks: Seq<Block>)
    requires
        blocks_canonical(blocks),
    ensures
        stream_sizes(blocks).len() == total_streams(blocks),
        stored_crcs(blocks).len() == total_streams(blocks),
    decreases blocks.len(),
{
    if blocks.len() > 0 {
        reveal(blocks_canonical);
        assert(block_canonical(blocks.last()));
        assert(blocks_canonical(blocks.drop_last())) by {
            assert forall|i: int| 0 <= i < blocks.drop_last().len() implies block_canonical(
                #[trigger] blocks.drop_last()[i],
            ) by {
                assert(blocks.drop_last()[i] == blocks[i]);
            }
        }
        lemma_stream_lists(blocks.drop_last());
    }
}

/// The files with a stream are those whose flag is set.
pub proof fn lemma_stream_files(entries: Seq<ArchiveEntry>)
    ensures
        stream_files(models_of(entries)) == count_set(
            Seq::new(entries.len(), |i: int| entries[i].has_stream),
        ),
    decreases entries.len(),
{
    let flags = Seq::new(entries.len(), |i: int| entries[i].has_stream);
    if entries.len() > 0 {
        lemma_stream_files(entries.drop_last());
        assert(models_of(entries).drop_last() =~= models_of(entries.drop_last()));
        assert(flags.drop_last() =~= Seq::new(
            entries.drop_last().len(),
            |i: int| entries.drop_last()[i].has_stream,
        ));
    }
}

impl Archive {
    /// Appends the header of the archive to `header`.
    #[verifier::rlimit(50)]
    pub fn write_header(&self, header: &mut Vec<u8>)
        requires
            self.unpack_info.wf(),
        ensures
            final(header)@ == old(header)@ + model_bytes(self@),
    {
        let ghost start = old(header)@;
        let ghost model = self@;
        header.push(K_HEADER);
        header.push(K_MAIN_STREAMS_INFO);
        let ghost head = seq![K_HEADER, K_MAIN_STREAMS_INFO];
        assert(header@ =~= start + head);
        if self.unpack_info.blocks.len() > 0 {
            let ghost before = header@;
            self.pack_info.write_to(header);
            self.unpack_info.write_to(header);
            proof {
                lemma_assoc(
                    before,
                    pack_info_bytes(model.pack.pos, model.pack.sizes, model.pack.crcs),
                    unpack_info_bytes(model.blocks),
                );
            }
        } else {
            assert(header@ + streams_part(model) =~= header@);
        }
        assert(header@ == start + head + streams_part(model));
        self.unpack_info.write_substreams(header);
        header.push(K_END);
        write_files_info(&self.files, header);
        header.push(K_END);
        proof {
            lemma_files_info_bytes(self.files@);
            let x1 = streams_part(model);
            let x2 = substreams_bytes(model.blocks);
            let x3 = files_section_bytes(model.files);
            let end = seq![K_END];
            assert(header@ =~= start + head + x1 + x2 + end + x3 + end);
            lemma_assoc(start + head + x1 + x2 + end, x3, end);
            lemma_assoc(start + head + x1 + x2, end, x3 + end);
            lemma_assoc(start + head + x1, x2, end + (x3 + end));
            lemma_assoc(start + head, x1, x2 + (end + (x3 + end)));
            lemma_assoc(start, head, x1 + (x2 + (end + (x3 + end))));
        }
    }
}

/// The sizes and the checksums of the files with a stream, block by block.
fn stream_lists(blocks: &Vec<BlockInfo>) -> (lists: (Vec<u64>, Vec<u32>))
    requires
        blocks_canonical(blocks_view(blocks@)),
    ensures
        lists.0@ == stream_sizes(blocks_view(blocks@)),
        lists.1@ == stored_crcs(blocks_view(blocks@)),
{
    let ghost all = blocks_view(blocks@);
    let mut sizes: Vec<u64> = Vec::new();
    let mut crcs: Vec<u32> = Vec::new();
    let mut i: usize = 0;
    while i < blocks.len()
        invariant
            i <= blocks@.len(),
            all == blocks_view(blocks@),
            blocks_canonical(all),
            sizes@ == stream_sizes(all.take(i as int)),
            crcs@ == stored_crcs(all.take(i as int)),
        decreases blocks@.len() - i,
    {
        let block = &blocks[i];
        proof {
            reveal(blocks_canonical);
            assert(all.take(i + 1).drop_last() =~= all.take(i as int));
            assert(all.take(i + 1).last() == block@);
            assert(block_canonical(all[i as int]));
        }
        let ghost sizes_before = sizes@;
        let ghost crcs_before = crcs@;
        if block.num_sub_unpack_streams == 1 {
            sizes.push(block.sizes[block.sizes.len() - 1]);
            crcs.push(block.crc);
        } else {
            let mut k: usize = 0;
            while k < block.sub_stream_sizes.len()
                invariant
                    k <= block.sub_stream_sizes@.len(),
                    block.sub_stream_sizes@.len() == block.sub_stream_crcs@.len(),
                    sizes@ == sizes_before + block.sub_stream_sizes@.take(k as int),
                    crcs@ == crcs_before + block.sub_stream_crcs@.take(k as int),
                decreases block.sub_stream_sizes@.len() - k,
            {
                sizes.push(block.sub_stream_sizes[k]);
                crcs.push(block.sub_stream_crcs[k]);
                k = k + 1;
                assert(sizes@ =~= sizes_before + block.sub_stream_sizes@.take(k as int));
                assert(crcs@ =~= crcs_before + block.sub_stream_crcs@.take(k as int));
            }
            proof {
                assert(block.sub_stream_sizes@.take(block.sub_stream_sizes@.len() as int)
                    =~= block.sub_stream_sizes@);
                assert(block.sub_stream_crcs@.take(block.sub_stream_crcs@.len() as int)
                    =~= block.sub_stream_crcs@);
            }
        }
        assert(sizes@ =~= sizes_before + block_sizes(block@));
        assert(crcs@ =~= crcs_before + block_crcs(block@));
        i = i + 1;
    }
    proof {
        assert(all.take(blocks@.len() as int) =~= all);
    }
    (sizes, crcs)
}

/// Gives each entry with a stream its size and its checksum.
#[verifier::rlimit(50)]
fn assign_streams(entries: Vec<ArchiveEntry>, blocks: &Vec<BlockInfo>) -> (assigned: Vec<
    ArchiveEntry,
>)
    requires
        blocks_canonical(blocks_view(blocks@)),
        total_streams(blocks_view(blocks@)) == stream_files(models_of(entries@)),
        forall|i: int| 0 <= i < entries@.len() ==> entry_blank(#[trigger] entries@[i]),
    ensures
        models_of(assigned@) == models_of(entries@),
        streams_assigned(assigned@, blocks_view(blocks@)),
{
    let ghost given = entries@;
    let ghost flags_spec = Seq::new(given.len(), |i: int| given[i].has_stream);
    let lists = stream_lists(blocks);
    let mut flags: Vec<bool> = Vec::new();
    let mut i: usize = 0;
    while i < entries.len()
        invariant
            i <= entries@.len(),
            given == entries@,
            flags@ == Seq::new(i as nat, |k: int| given[k].has_stream),
        decreases entries@.len() - i,
    {
        flags.push(entries[i].has_stream);
        i = i + 1;
        assert(flags@ =~= Seq::new(i as nat, |k: int| given[k].has_stream));
    }
    proof {
        lemma_stream_lists(blocks_view(blocks@));
        lemma_stream_files(given);
        assert(flags@ =~= flags_spec);
    }
    let sizes = spread_values(&flags, &lists.0, 0);
    let crcs = spread_values(&flags, &lists.1, 0);
    proof {
        crate::reader::primitives::lemma_selected_spread(flags@, lists.0@, 0u64);
        crate::reader::primitives::lemma_selected_spread(flags@, lists.1@, 0u32);
    }
    let count: usize = entries.len();
    let mut assigned: Vec<ArchiveEntry> = Vec::new();
    let mut i: usize = 0;
    for entry in it: entries
        invariant
            it.seq() == given,
            i == it.index(),
            i <= count == given.len(),
            sizes@.len() == count,
            crcs@.len() == count,
            flags@ == flags_spec,
            flags_spec == Seq::new(given.len(), |k: int| given[k].has_stream),
            forall|k: int| 0 <= k < given.len() ==> entry_blank(#[trigger] given[k]),
            assigned@.len() == i,
            forall|k: int|
                0 <= k < i ==> {
                    &&& file_model_same(#[trigger] assigned@[k], given[k])
                    &&& assigned@[k].size == sizes@[k]
                    &&& assigned@[k].crc == crcs@[k]
                    &&& assigned@[k].has_crc == given[k].has_stream
                    &&& assigned@[k].compressed_size == 0
                    &&& assigned@[k].compressed_crc == 0
                },
    {
        assert(i < count);
        let mut entry = entry;
        let ghost before = entry;
        assert(before == given[i as int]);
        entry.size = sizes[i];
        entry.crc = crcs[i] as u64;
        entry.has_crc = entry.has_stream;
        assert(file_model_same(entry, before));
        assigned.push(entry);
        i = i + 1;
    }
    proof {
        assert(models_of(assigned@) =~= models_of(given)) by {
            assert forall|k: int| 0 <= k < given.len() implies models_of(assigned@)[k]
                == models_of(given)[k] by {
                assert(file_model_same(assigned@[k], given[k]));
            }
        }
        let final_flags = Seq::new(assigned@.len(), |k: int| assigned@[k].has_stream);
        assert(final_flags =~= flags_spec) by {
            assert forall|k: int| 0 <= k < given.len() implies final_flags[k] == flags_spec[k] by {
                assert(file_model_same(assigned@[k], given[k]));
            }
        }
    }
    assigned
}

/// Whether two entries describe the same file.
pub open spec fn file_model_same(first: ArchiveEntry, second: ArchiveEntry) -> bool {
    crate::reader::files::file_model(first) == crate::reader::files::file_model(second)
}

/// The number of files that the blocks hold, or `None` where that is more
/// than `limit`.
fn count_streams(blocks: &Vec<BlockInfo>, limit: u64) -> (count: Option<u64>)
    ensures
        match count {
            Some(count) => count == total_streams(blocks_view(blocks@)) && count <= limit,
            None => total_streams(blocks_view(blocks@)) > limit,
        },
{
    let ghost all = blocks_view(blocks@);
    let mut count: u64 = 0;
    let mut i: usize = 0;
    while i < blocks.len()
        invariant
            i <= blocks@.len(),
            all == blocks_view(blocks@),
            count == total_streams(all.take(i as int)),
            count <= limit,
        decreases blocks@.len() - i,
    {
        let own = blocks[i].num_sub_unpack_streams;
        proof {
            assert(all.take(i + 1).drop_last() =~= all.take(i as int));
            assert(all.take(i + 1).last() == blocks@[i as int]@);
            lemma_total_streams_prefix(all, i + 1);
        }
        if own > limit - count {
            return None;
        }
        count = count + own;
        i = i + 1;
    }
    proof {
        assert(all.take(blocks@.len() as int) =~= all);
    }
    Some(count)
}

/// The first blocks hold no more files than all of them.
pub proof fn lemma_total_streams_prefix(blocks: Seq<Block>, count: int)
    requires
        0 <= count <= blocks.len(),
    ensures
        total_streams(blocks.take(count)) <= total_streams(blocks),
    decreases blocks.len(),
{
    if count == blocks.len() {
        assert(blocks.take(count) =~= blocks);
    } else {
        lemma_total_streams_prefix(blocks.drop_last(), count);
        assert(blocks.drop_last().take(count) =~= blocks.take(count));
    }
}

/// The sections on packed streams and blocks at position `at`.
#[verifier::rlimit(50)]
fn read_streams(bytes: &[u8], at: usize) -> (found: Option<
    (PackInfo, Vec<Vec<EncoderConfiguration>>, Vec<Vec<u64>>, usize),
>)
    requires
        at <= bytes@.len(),
    ensures
        match parsed_streams(bytes@, at as nat) {
            Some((streams, next)) => {
                &&& found is Some
                &&& (found->0).0.pos == streams.0.pos
                &&& (found->0).0.sizes@ == streams.0.sizes
                &&& (found->0).0.crcs@ == streams.0.crcs
                &&& chains_view((found->0).1@) == streams.1
                &&& sizes_view((found->0).2@) == streams.2
                &&& (found->0).3 == next
                &&& at <= next <= bytes@.len()
            },
            None => found is None,
        },
{
    if has_tag(bytes, at, K_PACK_INFO) {
        assert(after(bytes@, at as nat) =~= bytes@.skip(at as int));
        let (pack, next) = match read_pack_info(bytes, at) {
            Some(found) => found,
            None => {
                return None;
            },
        };
        assert(after(bytes@, next as nat) =~= bytes@.skip(next as int));
        let (chains, sizes, end) = match read_unpack_info(bytes, next) {
            Some(found) => found,
            None => {
                return None;
            },
        };
        assert(chains_view(chains@).len() == chains@.len());
        if chains.len() == 0 || pack.sizes.len() != chains.len() {
            return None;
        }
        Some((pack, chains, sizes, end))
    } else {
        let pack = PackInfo { crcs: Vec::new(), sizes: Vec::new(), pos: 0 };
        let chains: Vec<Vec<EncoderConfiguration>> = Vec::new();
        let sizes: Vec<Vec<u64>> = Vec::new();
        assert(chains_view(chains@) =~= Seq::<Seq<Coder>>::empty());
        assert(sizes_view(sizes@) =~= Seq::<Seq<u64>>::empty());
        Some((pack, chains, sizes, at))
    }
}

/// Reads a header.
///
/// The header must have the form that the writer gives it: the sections in a
/// fixed order, linear coder chains, a checksum for every file with a stream,
/// and names in UTF-16. Anything else is reported as malformed.
#[verifier::rlimit(50)]
pub fn read_header(bytes: &[u8]) -> (result: Result<Archive, Error>)
    ensures
        match parsed_header(bytes@) {
            Some(model) => {
                &&& result is Ok
                &&& (result->Ok_0)@ == model
                &&& streams_assigned((result->Ok_0).files@, model.blocks)
                &&& (result->Ok_0).unpack_info.wf()
            },
            None => result == Err::<Archive, Error>(Error::MalformedHeader { offset: 0 }),
        },
{
    let len: usize = bytes.len();
    if !has_tag(bytes, 0, K_HEADER) || !has_tag(bytes, 1, K_MAIN_STREAMS_INFO) {
        return Err(Error::MalformedHeader { offset: 0 });
    }
    let (pack_info, chains, sizes, at) = match read_streams(bytes, 2) {
        Some(found) => found,
        None => {
            return Err(Error::MalformedHeader { offset: 0 });
        },
    };
    proof {
        lemma_parsed_streams_shape(bytes@, 2);
    }
    let ghost chains_spec = chains_view(chains@);
    let ghost sizes_spec = sizes_view(sizes@);
    let section = slice_subrange(bytes, at, len);
    assert(section@ =~= after(bytes@, at as nat));
    let (blocks, c) = match read_substreams(section, chains, sizes) {
        Some(found) => found,
        None => {
            return Err(Error::MalformedHeader { offset: 0 });
        },
    };
    proof {
        lemma_parsed_substreams_shape(section@, chains_spec, sizes_spec);
    }
    if !has_tag(bytes, at + c, K_END) {
        return Err(Error::MalformedHeader { offset: 0 });
    }
    let files_at: usize = at + c + 1;
    let section = slice_subrange(bytes, files_at, len);
    assert(section@ =~= after(bytes@, files_at as nat));
    let (entries, d) = match read_files_info(section) {
        Some(found) => found,
        None => {
            return Err(Error::MalformedHeader { offset: 0 });
        },
    };
    if !has_tag(bytes, files_at + d, K_END) || len != files_at + d + 1 {
        return Err(Error::MalformedHeader { offset: 0 });
    }
    let mut with_stream: u64 = 0;
    let mut i: usize = 0;
    while i < entries.len()
        invariant
            i <= entries@.len(),
            with_stream == stream_files(models_of(entries@.take(i as int))),
            with_stream <= i,
        decreases entries@.len() - i,
    {
        proof {
            assert(models_of(entries@.take(i + 1)).drop_last() =~= models_of(
                entries@.take(i as int),
            ));
        }
        if entries[i].has_stream {
            with_stream = with_stream + 1;
        }
        i = i + 1;
    }
    proof {
        assert(entries@.take(entries@.len() as int) =~= entries@);
    }
    match count_streams(&blocks, with_stream) {
        Some(count) => {
            if count != with_stream {
                return Err(Error::MalformedHeader { offset: 0 });
            }
        },
        None => {
            return Err(Error::MalformedHeader { offset: 0 });
        },
    }
    let files = assign_streams(entries, &blocks);
    let unpack_info = UnpackInfo { blocks };
    proof {
        assert(unpack_info@ =~= blocks_view(blocks@));
        assert(unpack_info.wf()) by {
            reveal(blocks_canonical);
            assert forall|i: int| 0 <= i < unpack_info@.len() implies (
            #[trigger] unpack_info@[i]).coders.len() >= 1 by {
                assert(block_canonical(blocks_view(blocks@)[i]));
            }
        }
    }
    Ok(Archive { pack_info, unpack_info, files })
}

/// The description of the one block that an encoded header unpacks from: its
/// packed stream, and the block, which holds one file, the header. The
/// description must end where its last section ends.
pub open spec fn parsed_block_description(bytes: Seq<u8>) -> Option<(PackStreams, Block)> {
    if !tag_at(bytes, 0, K_ENCODED_HEADER) {
        None
    } else {
        match parsed_pack_info(after(bytes, 1)) {
            None => None,
            Some((pack, a)) => match parsed_unpack_info(after(bytes, 1 + a)) {
                None => None,
                Some((folders, b)) => if folders.0.len() != 1 || pack.sizes.len() != 1 {
                    None
                } else {
                    match parsed_substreams(after(bytes, 1 + a + b), folders.0, folders.1) {
                        None => None,
                        Some((blocks, c)) => if tag_at(bytes, 1 + a + b + c, K_END) && bytes.len()
                            == 1 + a + b + c + 1 && blocks[0].num_sub_unpack_streams == 1 {
                            Some((pack, blocks[0]))
                        } else {
                            None
                        },
                    }
                },
            },
        }
    }
}

/// Reading the description that the writer makes of an encoded header gives
/// the packed stream and the block back.
#[verifier::rlimit(50)]
pub proof fn lemma_parsed_block_description(pos: u64, packed_len: u64, packed_crc: u32, block: Block)
    requires
        block_canonical(block),
        block.num_sub_unpack_streams == 1,
    ensures
        parsed_block_description(block_description_bytes(pos, packed_len, packed_crc, block))
            == Some(
            (PackStreams { pos, sizes: seq![packed_len], crcs: seq![packed_crc] }, block),
        ),
{
    let blocks = seq![block];
    let x1 = pack_info_bytes(pos, seq![packed_len], seq![packed_crc]);
    let x2 = unpack_info_bytes(blocks);
    let x3 = substreams_bytes(blocks);
    let end = seq![K_END];
    let bytes = block_description_bytes(pos, packed_len, packed_crc, block);
    assert(blocks_canonical(blocks)) by {
        reveal(blocks_canonical);
    }
    lemma_canonical_chains_fit(blocks);
    assert(stored_crcs(blocks).len() == 1) by {
        reveal_with_fuel(stored_crcs, 3);
        assert(blocks.drop_last() =~= Seq::<Block>::empty());
        assert(blocks.last() == block);
        assert(stored_crcs(blocks.drop_last()) =~= Seq::<u32>::empty());
        assert(stored_crcs(blocks) =~= block_crcs(block));
    }
    let r3 = x3 + end;
    let r2 = x2 + r3;
    let r1 = x1 + r2;
    let a = x1.len();
    let b = x2.len();
    let c = x3.len();
    assert(bytes == seq![K_ENCODED_HEADER] + r1) by {
        lemma_assoc(seq![K_ENCODED_HEADER] + x1 + x2, x3, end);
        lemma_assoc(seq![K_ENCODED_HEADER] + x1, x2, r3);
        lemma_assoc(seq![K_ENCODED_HEADER], x1, r2);
    }
    assert(after(bytes, 0) =~= bytes);
    lemma_tag(bytes, 0, K_ENCODED_HEADER, r1);
    assert(tag_at(bytes, 0, K_ENCODED_HEADER));
    lemma_parsed_pack_info(pos, seq![packed_len], seq![packed_crc], r2);
    assert(parsed_pack_info(after(bytes, 1)) == Some(
        (PackStreams { pos, sizes: seq![packed_len], crcs: seq![packed_crc] }, a),
    ));
    lemma_after(bytes, 1, x1, r2);
    lemma_parsed_unpack_info(blocks, r3);
    assert(parsed_unpack_info(after(bytes, 1 + a)) == Some(
        ((chains_of(blocks), sizes_of(blocks)), b),
    ));
    lemma_after(bytes, 1 + a, x2, r3);
    lemma_parsed_substreams(blocks, end);
    assert(parsed_substreams(after(bytes, 1 + a + b), chains_of(blocks), sizes_of(blocks)) == Some(
        (blocks, c),
    ));
    lemma_after(bytes, 1 + a + b, x3, end);
    assert(end =~= end + Seq::<u8>::empty());
    lemma_tag(bytes, 1 + a + b + c, K_END, Seq::<u8>::empty());
    assert(tag_at(bytes, 1 + a + b + c, K_END));
    assert(bytes.len() == 1 + a + b + c + 1);
    assert(blocks[0] == block);
    assert(chains_of(blocks).len() == 1);
}

/// Reads the description that stands in place of an encoded header: the
/// packed stream that holds the header, and the block that unpacks it.
#[verifier::rlimit(50)]
pub fn read_encoded_header(bytes: &[u8]) -> (result: Result<(PackInfo, BlockInfo), Error>)
    ensures
        match parsed_block_description(bytes@) {
            Some((pack, block)) => {
                &&& result is Ok
                &&& (result->Ok_0).0.pos == pack.pos
                &&& (result->Ok_0).0.sizes@ == pack.sizes
                &&& (result->Ok_0).0.crcs@ == pack.crcs
                &&& (result->Ok_0).1@ == block
                &&& (result->Ok_0).1.methods@.len() >= 1
            },
            None => result == Err::<(PackInfo, BlockInfo), Error>(
                Error::MalformedHeader { offset: 0 },
            ),
        },
{
    let len: usize = bytes.len();
    if !has_tag(bytes, 0, K_ENCODED_HEADER) {
        return Err(Error::MalformedHeader { offset: 0 });
    }
    assert(after(bytes@, 1) =~= bytes@.skip(1));
    let (pack_info, at) = match read_pack_info(bytes, 1) {
        Some(found) => found,
        None => {
            return Err(Error::MalformedHeader { offset: 0 });
        },
    };
    assert(after(bytes@, at as nat) =~= bytes@.skip(at as int));
    let (chains, sizes, at) = match read_unpack_info(bytes, at) {
        Some(found) => found,
        None => {
            return Err(Error::MalformedHeader { offset: 0 });
        },
    };
    assert(chains_view(chains@).len() == chains@.len());
    if chains.len() != 1 || pack_info.sizes.len() != 1 {
        return Err(Error::MalformedHeader { offset: 0 });
    }
    let ghost chains_spec = chains_view(chains@);
    let ghost sizes_spec = sizes_view(sizes@);
    proof {
        let a = (parsed_pack_info(after(bytes@, 1))->0).1;
        lemma_parsed_unpack_info_shape(after(bytes@, 1 + a));
    }
    let section = slice_subrange(bytes, at, len);
    assert(section@ =~= after(bytes@, at as nat));
    let (mut blocks, c) = match read_substreams(section, chains, sizes) {
        Some(found) => found,
        None => {
            return Err(Error::MalformedHeader { offset: 0 });
        },
    };
    proof {
        lemma_parsed_substreams_shape(section@, chains_spec, sizes_spec);
        reveal(blocks_canonical);
        assert(block_canonical(blocks_view(blocks@)[0]));
    }
    if !has_tag(bytes, at + c, K_END) || len != at + c + 1 {
        return Err(Error::MalformedHeader { offset: 0 });
    }
    let block = match blocks.pop() {
        Some(block) => block,
        None => {
            return Err(Error::MalformedHeader { offset: 0 });
        },
    };
    if block.num_sub_unpack_streams != 1 {
        return Err(Error::MalformedHeader { offset: 0 });
    }
    Ok((pack_info, block))
}

} // verus!
