//! The blocks of an archive: each one's coder chain, the sizes along the chain,
//! and the files that share its output.

use vstd::prelude::*;
use crate::archive::{
    Coder,
    EncoderConfiguration,
    MAX_ID_LEN,
    K_CODERS_UNPACK_SIZE,
    K_CRC,
    K_END,
    K_FOLDER,
    K_NUM_UNPACK_STREAM,
    K_SIZE,
    K_SUB_STREAMS_INFO,
    K_UNPACK_INFO,
};
use crate::writer::bytes::{le32_all, lemma_assoc, push_all, write_all_le32};
use crate::writer::varint::{encoded_all, encoded_u64, write_all_encoded, write_encoded_u64};

verus! {

/// A block as the header describes it.
pub struct Block {
    /// The coders in declaration order: data flows from the last to the first
    /// when packing.
    pub coders: Seq<Coder>,
    /// The unpacked size of each coder's output, in declaration order; the last
    /// is the size of the block's content.
    pub sizes: Seq<u64>,
    /// The CRC-32 of the block's content.
    pub crc: u32,
    /// The number of files that share the block.
    pub num_sub_unpack_streams: u64,
    /// The size of each file's share, for a solid block.
    pub sub_stream_sizes: Seq<u64>,
    /// The CRC-32 of each file's share, for a solid block.
    pub sub_stream_crcs: Seq<u32>,
}

/// Whether a coder has an id of one to fifteen bytes, and properties that the
/// machine can count.
pub open spec fn coder_fits(coder: Coder) -> bool {
    1 <= coder.id.len() <= MAX_ID_LEN && coder.properties.len() <= u64::MAX
}

/// Whether every coder fits.
#[verifier::opaque]
pub open spec fn coders_fit(coders: Seq<Coder>) -> bool {
    forall|i: int| 0 <= i < coders.len() ==> coder_fits(#[trigger] coders[i])
}

/// The coders of any configurations fit.
pub proof fn lemma_configurations_fit(methods: Seq<EncoderConfiguration>)
    ensures
        coders_fit(coders_of(methods)),
{
    reveal(coders_fit);
    assert forall|i: int| 0 <= i < methods.len() implies coder_fits(
        #[trigger] coders_of(methods)[i],
    ) by {
        methods[i].lemma_fits();
    }
}

/// In a chain that fits, the first coder fits and so do the others.
pub proof fn lemma_coders_fit_front(coders: Seq<Coder>)
    requires
        coders_fit(coders),
        coders.len() > 0,
    ensures
        coder_fits(coders[0]),
        coders_fit(coders.skip(1)),
{
    reveal(coders_fit);
    assert forall|i: int| 0 <= i < coders.skip(1).len() implies coder_fits(
        #[trigger] coders.skip(1)[i],
    ) by {
        assert(coders.skip(1)[i] == coders[i + 1]);
    }
}

/// A chain fits if its first coder fits and the others do.
pub proof fn lemma_coders_fit_build(first: Coder, others: Seq<Coder>)
    requires
        coder_fits(first),
        coders_fit(others),
    ensures
        coders_fit(seq![first] + others),
{
    reveal(coders_fit);
    let all = seq![first] + others;
    assert forall|i: int| 0 <= i < all.len() implies coder_fits(#[trigger] all[i]) by {
        if i > 0 {
            assert(all[i] == others[i - 1]);
        }
    }
}

/// One coder's descriptor: a flags byte that holds the id's length and, as bit
/// `0x20`, whether properties follow; the id; then the properties behind their
/// encoded length.
pub open spec fn coder_bytes(coder: Coder) -> Seq<u8> {
    if coder.properties.len() == 0 {
        seq![coder.id.len() as u8] + coder.id
    } else {
        seq![(coder.id.len() + 0x20) as u8] + coder.id + encoded_u64(coder.properties.len() as u64)
            + coder.properties
    }
}

/// The descriptors of `coders`, in order.
pub open spec fn coders_bytes(coders: Seq<Coder>) -> Seq<u8>
    decreases coders.len(),
{
    if coders.len() == 0 {
        Seq::empty()
    } else {
        coders_bytes(coders.drop_last()) + coder_bytes(coders.last())
    }
}

/// The bind pairs of a linear chain with `count + 1` coders: the input of coder
/// `i` is the output of coder `i + 1`.
pub open spec fn bind_pairs_bytes(count: nat) -> Seq<u8>
    decreases count,
{
    if count == 0 {
        Seq::empty()
    } else {
        bind_pairs_bytes((count - 1) as nat) + encoded_u64(count as u64) + encoded_u64(
            (count - 1) as u64,
        )
    }
}

/// A block's entry in the folder section: the number of coders, their
/// descriptors, and the bind pairs that chain them.
pub open spec fn folder_bytes(coders: Seq<Coder>) -> Seq<u8> {
    encoded_u64(coders.len() as u64) + coders_bytes(coders) + bind_pairs_bytes(
        (coders.len() - 1) as nat,
    )
}

/// The folder entries of `blocks`, in order.
pub open spec fn folders_bytes(blocks: Seq<Block>) -> Seq<u8>
    decreases blocks.len(),
{
    if blocks.len() == 0 {
        Seq::empty()
    } else {
        folders_bytes(blocks.drop_last()) + folder_bytes(blocks.last().coders)
    }
}

/// The unpacked sizes of all coders of `blocks`, block by block.
pub open spec fn unpack_sizes_bytes(blocks: Seq<Block>) -> Seq<u8>
    decreases blocks.len(),
{
    if blocks.len() == 0 {
        Seq::empty()
    } else {
        unpack_sizes_bytes(blocks.drop_last()) + encoded_all(blocks.last().sizes)
    }
}

/// The unpack-info section. It carries no block checksums: those go to the
/// substreams section.
pub open spec fn unpack_info_bytes(blocks: Seq<Block>) -> Seq<u8> {
    seq![K_UNPACK_INFO, K_FOLDER] + encoded_u64(blocks.len() as u64) + seq![0u8] + folders_bytes(
        blocks,
    ) + seq![K_CODERS_UNPACK_SIZE] + unpack_sizes_bytes(blocks) + seq![K_END]
}

/// The number of files in each block.
pub open spec fn stream_counts(blocks: Seq<Block>) -> Seq<u64> {
    Seq::new(blocks.len(), |i: int| blocks[i].num_sub_unpack_streams)
}

/// The sizes that the substreams section stores: for each block with more than
/// one recorded share, all but the last.
pub open spec fn stored_sizes(blocks: Seq<Block>) -> Seq<u64>
    decreases blocks.len(),
{
    if blocks.len() == 0 {
        Seq::empty()
    } else if blocks.last().sub_stream_sizes.len() > 1 {
        stored_sizes(blocks.drop_last()) + blocks.last().sub_stream_sizes.drop_last()
    } else {
        stored_sizes(blocks.drop_last())
    }
}

/// The checksums that the substreams section stores for one block: every
/// share's for a block of several files; for a block of one file the share's,
/// or the block's own where no share was recorded; none for an empty block.
pub open spec fn block_crcs(block: Block) -> Seq<u32> {
    if block.num_sub_unpack_streams > 1 {
        block.sub_stream_crcs
    } else if block.num_sub_unpack_streams == 1 {
        if block.sub_stream_crcs.len() == 0 {
            seq![block.crc]
        } else {
            seq![block.sub_stream_crcs[0]]
        }
    } else {
        Seq::empty()
    }
}

/// The checksums that the substreams section stores, block by block.
pub open spec fn stored_crcs(blocks: Seq<Block>) -> Seq<u32>
    decreases blocks.len(),
{
    if blocks.len() == 0 {
        Seq::empty()
    } else {
        stored_crcs(blocks.drop_last()) + block_crcs(blocks.last())
    }
}

/// The sizes of the files of a block.
pub open spec fn block_sizes(block: Block) -> Seq<u64> {
    if block.num_sub_unpack_streams == 1 {
        seq![block.sizes.last()]
    } else {
        block.sub_stream_sizes
    }
}

/// The sizes of the files with a stream, block by block.
pub open spec fn stream_sizes(blocks: Seq<Block>) -> Seq<u64>
    decreases blocks.len(),
{
    if blocks.len() == 0 {
        Seq::empty()
    } else {
        stream_sizes(blocks.drop_last()) + block_sizes(blocks.last())
    }
}

/// The part of the substreams section that says how many files each block
/// holds: absent where every block holds one.
pub open spec fn counts_part(blocks: Seq<Block>) -> Seq<u8> {
    if exists|i: int| 0 <= i < blocks.len() && blocks[i].num_sub_unpack_streams != 1 {
        seq![K_NUM_UNPACK_STREAM] + encoded_all(stream_counts(blocks))
    } else {
        Seq::empty()
    }
}

/// The part of the substreams section that holds the sizes of the shares:
/// absent where no block records several shares.
pub open spec fn sizes_part(blocks: Seq<Block>) -> Seq<u8> {
    if exists|i: int| 0 <= i < blocks.len() && blocks[i].sub_stream_sizes.len() > 1 {
        seq![K_SIZE] + encoded_all(stored_sizes(blocks))
    } else {
        Seq::empty()
    }
}

/// The part of the substreams section that holds the checksums, all of them
/// present: absent where there is none.
pub open spec fn crcs_part(blocks: Seq<Block>) -> Seq<u8> {
    if stored_crcs(blocks).len() > 0 {
        seq![K_CRC, 1u8] + le32_all(stored_crcs(blocks))
    } else {
        Seq::empty()
    }
}

/// The substreams section: the files per block, unless every block has one; the
/// sizes, unless no block records several; and all checksums, if there are any.
pub open spec fn substreams_bytes(blocks: Seq<Block>) -> Seq<u8> {
    seq![K_SUB_STREAMS_INFO] + counts_part(blocks) + sizes_part(blocks) + crcs_part(blocks)
        + seq![K_END]
}

/// What is recorded of one block.
#[derive(Debug)]
pub struct BlockInfo {
    pub methods: Vec<EncoderConfiguration>,
    pub sizes: Vec<u64>,
    pub crc: u32,
    pub num_sub_unpack_streams: u64,
    pub sub_stream_sizes: Vec<u64>,
    pub sub_stream_crcs: Vec<u32>,
}

/// The descriptors of a chain of coders.
pub open spec fn coders_of(methods: Seq<EncoderConfiguration>) -> Seq<Coder> {
    Seq::new(methods.len(), |i: int| methods[i]@)
}

impl View for BlockInfo {
    type V = Block;

    open spec fn view(&self) -> Block {
        Block {
            coders: coders_of(self.methods@),
            sizes: self.sizes@,
            crc: self.crc,
            num_sub_unpack_streams: self.num_sub_unpack_streams,
            sub_stream_sizes: self.sub_stream_sizes@,
            sub_stream_crcs: self.sub_stream_crcs@,
        }
    }
}

impl BlockInfo {
    /// Appends the block's folder entry to `header`. `cache` is scratch space:
    /// it ends up holding the coder descriptors.
    pub fn write_to(&self, header: &mut Vec<u8>, cache: &mut Vec<u8>)
        requires
            self.methods@.len() >= 1,
        ensures
            final(header)@ == old(header)@ + folder_bytes(self@.coders),
            final(cache)@ == coders_bytes(self@.coders),
    {
        let ghost coders = self@.coders;
        cache.clear();
        let mut num_coders: usize = 0;
        while num_coders < self.methods.len()
            invariant
                num_coders <= self.methods@.len(),
                coders == coders_of(self.methods@),
                cache@ == coders_bytes(coders.take(num_coders as int)),
            decreases self.methods@.len() - num_coders,
        {
            proof {
                let next = coders.take(num_coders + 1);
                assert(next.drop_last() =~= coders.take(num_coders as int));
                assert(next.last() == self.methods@[num_coders as int]@);
            }
            self.write_single_codec(&self.methods[num_coders], cache);
            num_coders = num_coders + 1;
        }
        proof {
            assert(coders.take(num_coders as int) =~= coders);
        }
        write_encoded_u64(header, num_coders as u64);
        push_all(header, cache.as_slice());
        let ghost start = header@;
        let mut i: usize = 0;
        while i < num_coders - 1
            invariant
                1 <= num_coders,
                i <= num_coders - 1,
                header@ == start + bind_pairs_bytes(i as nat),
            decreases num_coders - 1 - i,
        {
            proof {
                assert(start + bind_pairs_bytes(i as nat) + encoded_u64((i + 1) as u64)
                    + encoded_u64(i as u64) =~= start + bind_pairs_bytes((i + 1) as nat));
            }
            write_encoded_u64(header, i as u64 + 1);
            write_encoded_u64(header, i as u64);
            i = i + 1;
        }
        assert(header@ =~= old(header)@ + folder_bytes(coders));
    }

    /// Appends the descriptor of the coder `mc` to `out`.
    pub fn write_single_codec(&self, mc: &EncoderConfiguration, out: &mut Vec<u8>)
        ensures
            final(out)@ == old(out)@ + coder_bytes(mc@),
    {
        let id = mc.id();
        let props = mc.properties();
        let mut codec_flags: u8 = id.len() as u8;
        if props.len() > 0 {
            assert(codec_flags | 0x20 == codec_flags + 0x20) by (bit_vector)
                requires
                    codec_flags <= 15,
            ;
            codec_flags = codec_flags | 0x20;
        }
        out.push(codec_flags);
        push_all(out, id.as_slice());
        if props.len() > 0 {
            write_encoded_u64(out, props.len() as u64);
            push_all(out, props.as_slice());
        }
        assert(out@ =~= old(out)@ + coder_bytes(mc@));
    }
}

/// The blocks recorded so far.
#[derive(Debug)]
pub struct UnpackInfo {
    pub blocks: Vec<BlockInfo>,
}

impl Default for UnpackInfo {
    fn default() -> (info: Self)
        ensures
            info.blocks@.len() == 0,
    {
        UnpackInfo { blocks: Vec::new() }
    }
}

impl View for UnpackInfo {
    type V = Seq<Block>;

    open spec fn view(&self) -> Seq<Block> {
        Seq::new(self.blocks@.len(), |i: int| self.blocks@[i]@)
    }
}

impl UnpackInfo {
    /// Every block has at least one coder.
    pub open spec fn wf(&self) -> bool {
        forall|i: int| 0 <= i < self@.len() ==> (#[trigger] self@[i]).coders.len() >= 1
    }

    /// Records a block that holds one file.
    pub fn add(&mut self, methods: Vec<EncoderConfiguration>, sizes: Vec<u64>, crc: u32)
        ensures
            final(self)@ == old(self)@.push(
                (Block {
                    coders: coders_of(methods@),
                    sizes: sizes@,
                    crc,
                    num_sub_unpack_streams: 1,
                    sub_stream_sizes: Seq::empty(),
                    sub_stream_crcs: Seq::empty(),
                }),
            ),
    {
        self.blocks.push(
            BlockInfo {
                methods,
                sizes,
                crc,
                num_sub_unpack_streams: 1,
                sub_stream_sizes: Vec::new(),
                sub_stream_crcs: Vec::new(),
            },
        );
        assert(self@ =~= old(self)@.push(self.blocks@.last()@));
    }

    /// Records a solid block with the shares of its files.
    pub fn add_multiple(
        &mut self,
        methods: Vec<EncoderConfiguration>,
        sizes: Vec<u64>,
        crc: u32,
        num_sub_unpack_streams: u64,
        sub_stream_sizes: Vec<u64>,
        sub_stream_crcs: Vec<u32>,
    )
        ensures
            final(self)@ == old(self)@.push(
                (Block {
                    coders: coders_of(methods@),
                    sizes: sizes@,
                    crc,
                    num_sub_unpack_streams,
                    sub_stream_sizes: sub_stream_sizes@,
                    sub_stream_crcs: sub_stream_crcs@,
                }),
            ),
    {
        self.blocks.push(
            BlockInfo {
                methods,
                sizes,
                crc,
                num_sub_unpack_streams,
                sub_stream_sizes,
                sub_stream_crcs,
            },
        );
        assert(self@ =~= old(self)@.push(self.blocks@.last()@));
    }

    /// Appends the substreams section to `header`.
    #[verifier::rlimit(50)]
    pub fn write_substreams(&self, header: &mut Vec<u8>)
        ensures
            final(header)@ == old(header)@ + substreams_bytes(self@),
    {
        let ghost blocks = self@;
        header.push(K_SUB_STREAMS_INFO);
        let mut needs_num_unpack_stream = false;
        let mut needs_sizes = false;
        let mut counts: Vec<u64> = Vec::new();
        let mut sizes: Vec<u64> = Vec::new();
        let mut crcs_to_write: Vec<u32> = Vec::new();
        let mut i: usize = 0;
        while i < self.blocks.len()
            invariant
                i <= self.blocks@.len(),
                blocks == self@,
                needs_num_unpack_stream == (exists|j: int|
                    0 <= j < i && blocks[j].num_sub_unpack_streams != 1),
                needs_sizes == (exists|j: int| 0 <= j < i && blocks[j].sub_stream_sizes.len() > 1),
                counts@ == stream_counts(blocks.take(i as int)),
                sizes@ == stored_sizes(blocks.take(i as int)),
                crcs_to_write@ == stored_crcs(blocks.take(i as int)),
            decreases self.blocks@.len() - i,
        {
            let f = &self.blocks[i];
            let ghost block = blocks[i as int];
            let ghost next = blocks.take(i + 1);
            proof {
                assert(block == f@);
                assert(next.drop_last() =~= blocks.take(i as int));
                assert(next.last() == block);
                assert(stream_counts(blocks.take(i as int)).push(block.num_sub_unpack_streams)
                    =~= stream_counts(next));
            }
            if f.num_sub_unpack_streams != 1 {
                needs_num_unpack_stream = true;
            }
            counts.push(f.num_sub_unpack_streams);
            if f.sub_stream_sizes.len() > 1 {
                needs_sizes = true;
                let ghost before = sizes@;
                let mut k: usize = 0;
                while k < f.sub_stream_sizes.len() - 1
                    invariant
                        f.sub_stream_sizes@.len() > 1,
                        k <= f.sub_stream_sizes@.len() - 1,
                        sizes@ == before + f.sub_stream_sizes@.take(k as int),
                    decreases f.sub_stream_sizes@.len() - 1 - k,
                {
                    proof {
                        assert(before + f.sub_stream_sizes@.take(k as int) + seq![
                            f.sub_stream_sizes@[k as int],
                        ] =~= before + f.sub_stream_sizes@.take(k + 1));
                    }
                    sizes.push(f.sub_stream_sizes[k]);
                    k = k + 1;
                }
                proof {
                    assert(f.sub_stream_sizes@.take(f.sub_stream_sizes@.len() - 1)
                        =~= f.sub_stream_sizes@.drop_last());
                }
            }
            let ghost crcs_before = crcs_to_write@;
            if f.num_sub_unpack_streams > 1 {
                let mut k: usize = 0;
                while k < f.sub_stream_crcs.len()
                    invariant
                        k <= f.sub_stream_crcs@.len(),
                        crcs_to_write@ == crcs_before + f.sub_stream_crcs@.take(k as int),
                    decreases f.sub_stream_crcs@.len() - k,
                {
                    proof {
                        assert(crcs_before + f.sub_stream_crcs@.take(k as int) + seq![
                            f.sub_stream_crcs@[k as int],
                        ] =~= crcs_before + f.sub_stream_crcs@.take(k + 1));
                    }
                    crcs_to_write.push(f.sub_stream_crcs[k]);
                    k = k + 1;
                }
                proof {
                    assert(f.sub_stream_crcs@.take(f.sub_stream_crcs@.len() as int)
                        =~= f.sub_stream_crcs@);
                }
            } else if f.num_sub_unpack_streams == 1 {
                if f.sub_stream_crcs.len() == 0 {
                    crcs_to_write.push(f.crc);
                } else {
                    crcs_to_write.push(f.sub_stream_crcs[0]);
                }
            }
            proof {
                assert(crcs_to_write@ =~= crcs_before + block_crcs(block));
            }
            i = i + 1;
        }
        proof {
            assert(blocks.take(self.blocks@.len() as int) =~= blocks);
        }
        let ghost start = header@;
        if needs_num_unpack_stream {
            header.push(K_NUM_UNPACK_STREAM);
            write_all_encoded(header, &counts);
        }
        assert(header@ =~= start + counts_part(blocks));
        let ghost start = header@;
        if needs_sizes {
            header.push(K_SIZE);
            write_all_encoded(header, &sizes);
        }
        assert(header@ =~= start + sizes_part(blocks));
        let ghost start = header@;
        if crcs_to_write.len() > 0 {
            header.push(K_CRC);
            header.push(1);
            write_all_le32(header, &crcs_to_write);
        }
        assert(header@ =~= start + crcs_part(blocks));
        header.push(K_END);
        proof {
            let head = old(header)@;
            let x0 = seq![K_SUB_STREAMS_INFO];
            let x1 = counts_part(blocks);
            let x2 = sizes_part(blocks);
            let x3 = crcs_part(blocks);
            let x4 = seq![K_END];
            assert(header@ == (head.push(K_SUB_STREAMS_INFO) + x1 + x2 + x3).push(K_END));
            assert(head.push(K_SUB_STREAMS_INFO) =~= head + x0);
            assert((head + x0 + x1 + x2 + x3).push(K_END) =~= head + x0 + x1 + x2 + x3 + x4);
            lemma_assoc(head + x0 + x1 + x2, x3, x4);
            lemma_assoc(head + x0 + x1, x2, x3 + x4);
            lemma_assoc(head + x0, x1, x2 + (x3 + x4));
            lemma_assoc(head, x0, x1 + (x2 + (x3 + x4)));
            lemma_assoc(x0 + x1 + x2, x3, x4);
            lemma_assoc(x0 + x1, x2, x3 + x4);
            lemma_assoc(x0, x1, x2 + (x3 + x4));
        }
    }

    /// Appends the unpack-info section to `header`.
    pub fn write_to(&self, header: &mut Vec<u8>)
        requires
            self.wf(),
        ensures
            final(header)@ == old(header)@ + unpack_info_bytes(self@),
    {
        let ghost blocks = self@;
        header.push(K_UNPACK_INFO);
        header.push(K_FOLDER);
        write_encoded_u64(header, self.blocks.len() as u64);
        header.push(0);
        let ghost start = header@;
        let mut cache: Vec<u8> = Vec::with_capacity(32);
        let mut i: usize = 0;
        while i < self.blocks.len()
            invariant
                i <= self.blocks@.len(),
                blocks == self@,
                self.wf(),
                header@ == start + folders_bytes(blocks.take(i as int)),
            decreases self.blocks@.len() - i,
        {
            proof {
                let next = blocks.take(i + 1);
                assert(next.drop_last() =~= blocks.take(i as int));
                assert(next.last() == self.blocks@[i as int]@);
                assert(blocks[i as int].coders.len() >= 1);
                assert(start + folders_bytes(blocks.take(i as int)) + folder_bytes(
                    blocks[i as int].coders,
                ) =~= start + folders_bytes(next));
            }
            self.blocks[i].write_to(header, &mut cache);
            i = i + 1;
        }
        header.push(K_CODERS_UNPACK_SIZE);
        let ghost middle = header@;
        let mut i: usize = 0;
        while i < self.blocks.len()
            invariant
                i <= self.blocks@.len(),
                blocks == self@,
                header@ == middle + unpack_sizes_bytes(blocks.take(i as int)),
            decreases self.blocks@.len() - i,
        {
            proof {
                let next = blocks.take(i + 1);
                assert(next.drop_last() =~= blocks.take(i as int));
                assert(next.last() == self.blocks@[i as int]@);
                assert(middle + unpack_sizes_bytes(blocks.take(i as int)) + encoded_all(
                    blocks[i as int].sizes,
                ) =~= middle + unpack_sizes_bytes(next));
            }
            write_all_encoded(header, &self.blocks[i].sizes);
            i = i + 1;
        }
        header.push(K_END);
        proof {
            assert(blocks.take(self.blocks@.len() as int) =~= blocks);
            assert(header@ =~= old(header)@ + unpack_info_bytes(blocks));
        }
    }
}

} // verus!
