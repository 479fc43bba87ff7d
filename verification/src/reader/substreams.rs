//! Reading the substreams section: how the files share the blocks.

use vstd::prelude::*;
use crate::writer::bytes::lemma_assoc;
use crate::archive::{
    Coder,
    EncoderConfiguration,
    K_CRC,
    K_END,
    K_NUM_UNPACK_STREAM,
    K_SIZE,
    K_SUB_STREAMS_INFO,
};
use crate::reader::primitives::{
    count_flags,
    count_set,
    lemma_count_set_bound,
    lemma_le32_all_is_le_all,
    lemma_parsed_fixed,
    lemma_parsed_fixed_len,
    lemma_parsed_numbers,
    lemma_parsed_numbers_len,
    narrowed,
    parsed_fixed,
    parsed_numbers,
    parsed_presence,
    read_fixed,
    read_numbers,
    read_presence,
    widened,
};
use crate::reader::streams::{
    after,
    chain_fits,
    chains_fit,
    chains_of,
    chains_view,
    has_tag,
    lemma_after,
    lemma_chains_fit_front,
    lemma_tag,
    sizes_of,
    sizes_view,
    tag_at,
};
use crate::writer::bytes::le32_all;
use crate::writer::{lemma_total_push, total};
use crate::writer::unpack_info::{
    Block,
    BlockInfo,
    block_crcs,
    coders_of,
    counts_part,
    crcs_part,
    sizes_part,
    stored_crcs,
    stored_sizes,
    stream_counts,
    substreams_bytes,
};
use crate::writer::varint::{encoded_all, lemma_pow256_values};

verus! {

/// The number of sizes that are stored for a block of `count` files: all but
/// the last, which follows from the block's size.
pub open spec fn stored_count(count: u64) -> nat {
    if count > 1 {
        (count - 1) as nat
    } else {
        0
    }
}

/// The number of sizes that are stored for blocks with these numbers of files.
pub open spec fn total_stored(counts: Seq<u64>) -> nat
    decreases counts.len(),
{
    if counts.len() == 0 {
        0
    } else {
        stored_count(counts[0]) + total_stored(counts.skip(1))
    }
}

/// The number of files in blocks with these numbers of files.
pub open spec fn total_files(counts: Seq<u64>) -> nat
    decreases counts.len(),
{
    if counts.len() == 0 {
        0
    } else {
        counts[0] as nat + total_files(counts.skip(1))
    }
}

/// One block, put together from its chain, the sizes along the chain, the
/// number of its files, the stored sizes of their shares and their checksums.
/// The last share is what the others leave of the block's size; there is no
/// block where they leave less than nothing.
pub open spec fn rebuilt_block(
    coders: Seq<Coder>,
    sizes: Seq<u64>,
    count: u64,
    extra: Seq<u64>,
    crcs: Seq<u32>,
) -> Option<Block> {
    if sizes.len() == 0 {
        None
    } else if count == 0 {
        Some(
            Block {
                coders,
                sizes,
                crc: 0,
                num_sub_unpack_streams: 0,
                sub_stream_sizes: Seq::empty(),
                sub_stream_crcs: Seq::empty(),
            },
        )
    } else if count == 1 {
        Some(
            Block {
                coders,
                sizes,
                crc: crcs[0],
                num_sub_unpack_streams: 1,
                sub_stream_sizes: Seq::empty(),
                sub_stream_crcs: Seq::empty(),
            },
        )
    } else if total(extra) > sizes.last() {
        None
    } else {
        Some(
            Block {
                coders,
                sizes,
                crc: 0,
                num_sub_unpack_streams: count,
                sub_stream_sizes: extra.push((sizes.last() - total(extra)) as u64),
                sub_stream_crcs: crcs,
            },
        )
    }
}

/// The blocks, put together from what the unpack-info section gives of each
/// and what the substreams section lists for all of them.
pub open spec fn rebuilt(
    chains: Seq<Seq<Coder>>,
    sizes: Seq<Seq<u64>>,
    counts: Seq<u64>,
    extra: Seq<u64>,
    crcs: Seq<u32>,
) -> Option<Seq<Block>>
    decreases chains.len(),
{
    if chains.len() == 0 {
        if extra.len() == 0 && crcs.len() == 0 {
            Some(Seq::empty())
        } else {
            None
        }
    } else if sizes.len() == 0 || counts.len() == 0 {
        None
    } else {
        let n = counts[0] as nat;
        let k = stored_count(counts[0]);
        if extra.len() < k || crcs.len() < n {
            None
        } else {
            match rebuilt_block(
                chains[0],
                sizes[0],
                counts[0],
                extra.take(k as int),
                crcs.take(n as int),
            ) {
                None => None,
                Some(block) => match rebuilt(
                    chains.skip(1),
                    sizes.skip(1),
                    counts.skip(1),
                    extra.skip(k as int),
                    crcs.skip(n as int),
                ) {
                    None => None,
                    Some(others) => Some(seq![block] + others),
                },
            }
        }
    }
}

/// The form in which a header holds a block: a chain that fits; for a block of
/// one file no shares; for a block of several files a share for each, which
/// add up to the block's size; and no checksum of its own unless it is a block
/// of one file.
pub open spec fn block_canonical(block: Block) -> bool {
    &&& chain_fits(block)
    &&& if block.num_sub_unpack_streams == 0 {
        &&& block.crc == 0
        &&& block.sub_stream_sizes.len() == 0
        &&& block.sub_stream_crcs.len() == 0
    } else if block.num_sub_unpack_streams == 1 {
        &&& block.sub_stream_sizes.len() == 0
        &&& block.sub_stream_crcs.len() == 0
    } else {
        &&& block.crc == 0
        &&& block.sub_stream_sizes.len() == block.num_sub_unpack_streams
        &&& block.sub_stream_crcs.len() == block.num_sub_unpack_streams
        &&& total(block.sub_stream_sizes) == block.sizes.last()
    }
}

/// Whether every block is in the form in which a header holds it.
#[verifier::opaque]
pub open spec fn blocks_canonical(blocks: Seq<Block>) -> bool {
    forall|i: int| 0 <= i < blocks.len() ==> block_canonical(#[trigger] blocks[i])
}

/// The sizes that are stored for a block.
pub open spec fn own_sizes(block: Block) -> Seq<u64> {
    if block.sub_stream_sizes.len() > 1 {
        block.sub_stream_sizes.drop_last()
    } else {
        Seq::empty()
    }
}

/// What the substreams section lists starts with what it lists for the first
/// block.
#[verifier::rlimit(50)]
pub proof fn lemma_lists_front(blocks: Seq<Block>)
    requires
        blocks.len() > 0,
    ensures
        stream_counts(blocks) == seq![blocks[0].num_sub_unpack_streams] + stream_counts(
            blocks.skip(1),
        ),
        stored_sizes(blocks) == own_sizes(blocks[0]) + stored_sizes(blocks.skip(1)),
        stored_crcs(blocks) == block_crcs(blocks[0]) + stored_crcs(blocks.skip(1)),
    decreases blocks.len(),
{
    assert(stream_counts(blocks) =~= seq![blocks[0].num_sub_unpack_streams] + stream_counts(
        blocks.skip(1),
    ));
    if blocks.len() == 1 {
        assert(blocks.drop_last() =~= Seq::<Block>::empty());
        assert(blocks.skip(1) =~= Seq::<Block>::empty());
        assert(stored_sizes(blocks) =~= own_sizes(blocks[0]) + stored_sizes(blocks.skip(1)));
        assert(stored_crcs(blocks) =~= block_crcs(blocks[0]) + stored_crcs(blocks.skip(1)));
    } else {
        let front = blocks.drop_last();
        lemma_lists_front(front);
        assert(front.skip(1) =~= blocks.skip(1).drop_last());
        assert(front[0] == blocks[0]);
        assert(blocks.skip(1).last() == blocks.last());
        assert(stored_sizes(blocks) =~= own_sizes(blocks[0]) + stored_sizes(blocks.skip(1)));
        assert(stored_crcs(blocks) =~= block_crcs(blocks[0]) + stored_crcs(blocks.skip(1)));
    }
}

/// Where every block is canonical, the first is and so are the others.
pub proof fn lemma_canonical_front(blocks: Seq<Block>)
    requires
        blocks_canonical(blocks),
        blocks.len() > 0,
    ensures
        block_canonical(blocks[0]),
        blocks_canonical(blocks.skip(1)),
{
    reveal(blocks_canonical);
    assert forall|i: int| 0 <= i < blocks.skip(1).len() implies block_canonical(
        #[trigger] blocks.skip(1)[i],
    ) by {
        assert(blocks.skip(1)[i] == blocks[i + 1]);
    }
}

/// Blocks are canonical if the first is and the others are.
pub proof fn lemma_canonical_build(first: Block, others: Seq<Block>)
    requires
        block_canonical(first),
        blocks_canonical(others),
    ensures
        blocks_canonical(seq![first] + others),
{
    reveal(blocks_canonical);
    let all = seq![first] + others;
    assert forall|i: int| 0 <= i < all.len() implies block_canonical(#[trigger] all[i]) by {
        if i > 0 {
            assert(all[i] == others[i - 1]);
        }
    }
}

/// Canonical blocks have chains that fit.
pub proof fn lemma_canonical_chains_fit(blocks: Seq<Block>)
    requires
        blocks_canonical(blocks),
    ensures
        chains_fit(blocks),
{
    reveal(blocks_canonical);
    reveal(chains_fit);
}

/// A canonical block is put together again from what a header holds of it.
pub proof fn lemma_rebuilt_block(block: Block)
    requires
        block_canonical(block),
    ensures
        own_sizes(block).len() == stored_count(block.num_sub_unpack_streams),
        block_crcs(block).len() == block.num_sub_unpack_streams,
        rebuilt_block(
            block.coders,
            block.sizes,
            block.num_sub_unpack_streams,
            own_sizes(block),
            block_crcs(block),
        ) == Some(block),
{
    if block.num_sub_unpack_streams > 1 {
        let shares = block.sub_stream_sizes;
        assert(total(shares) == total(shares.drop_last()) + shares.last());
        assert(shares.drop_last().push(shares.last()) =~= shares);
    } else {
        assert(block.sub_stream_sizes =~= Seq::<u64>::empty());
        assert(block.sub_stream_crcs =~= Seq::<u32>::empty());
    }
}

/// Canonical blocks are put together again from what a header holds of them.
#[verifier::rlimit(50)]
pub proof fn lemma_rebuilt(blocks: Seq<Block>)
    requires
        blocks_canonical(blocks),
    ensures
        rebuilt(
            chains_of(blocks),
            sizes_of(blocks),
            stream_counts(blocks),
            stored_sizes(blocks),
            stored_crcs(blocks),
        ) == Some(blocks),
        stored_sizes(blocks).len() == total_stored(stream_counts(blocks)),
        stored_crcs(blocks).len() == total_files(stream_counts(blocks)),
    decreases blocks.len(),
{
    if blocks.len() == 0 {
        assert(blocks =~= Seq::<Block>::empty());
    } else {
        let first = blocks[0];
        let others = blocks.skip(1);
        lemma_canonical_front(blocks);
        lemma_canonical_chains_fit(blocks);
        lemma_chains_fit_front(blocks);
        lemma_lists_front(blocks);
        lemma_rebuilt_block(first);
        lemma_rebuilt(others);
        let counts = stream_counts(blocks);
        let extra = stored_sizes(blocks);
        let crcs = stored_crcs(blocks);
        let k = stored_count(counts[0]);
        let n = counts[0] as nat;
        assert(counts.skip(1) =~= stream_counts(others));
        assert(extra.take(k as int) =~= own_sizes(first));
        assert(extra.skip(k as int) =~= stored_sizes(others));
        assert(crcs.take(n as int) =~= block_crcs(first));
        assert(crcs.skip(n as int) =~= stored_crcs(others));
        assert(sizes_of(blocks).skip(1) =~= sizes_of(others));
        assert(sizes_of(blocks)[0] == first.sizes);
        assert(chains_of(blocks)[0] == first.coders);
        assert(seq![first] + others =~= blocks);
    }
}

/// What is put together from a header's lists is canonical, and a header
/// holds of it exactly those lists.
#[verifier::rlimit(50)]
pub proof fn lemma_rebuilt_is_canonical(
    chains: Seq<Seq<Coder>>,
    sizes: Seq<Seq<u64>>,
    counts: Seq<u64>,
    extra: Seq<u64>,
    crcs: Seq<u32>,
)
    requires
        rebuilt(chains, sizes, counts, extra, crcs) is Some,
        chains.len() == sizes.len() == counts.len(),
        forall|i: int|
            0 <= i < chains.len() ==> chain_fits(
                (Block {
                    coders: #[trigger] chains[i],
                    sizes: sizes[i],
                    crc: 0,
                    num_sub_unpack_streams: 0,
                    sub_stream_sizes: Seq::empty(),
                    sub_stream_crcs: Seq::empty(),
                }),
            ),
    ensures
        ({
            let blocks = rebuilt(chains, sizes, counts, extra, crcs)->0;
            &&& blocks_canonical(blocks)
            &&& chains_of(blocks) == chains
            &&& sizes_of(blocks) == sizes
            &&& stream_counts(blocks) == counts
            &&& stored_sizes(blocks) == extra
            &&& stored_crcs(blocks) == crcs
        }),
    decreases chains.len(),
{
    let blocks = rebuilt(chains, sizes, counts, extra, crcs)->0;
    if chains.len() == 0 {
        reveal(blocks_canonical);
        assert(chains_of(blocks) =~= chains);
        assert(sizes_of(blocks) =~= sizes);
        assert(stream_counts(blocks) =~= counts);
        assert(extra =~= Seq::<u64>::empty());
        assert(crcs =~= Seq::<u32>::empty());
    } else {
        let n = counts[0] as nat;
        let k = stored_count(counts[0]);
        let first = rebuilt_block(
            chains[0],
            sizes[0],
            counts[0],
            extra.take(k as int),
            crcs.take(n as int),
        )->0;
        let others = rebuilt(
            chains.skip(1),
            sizes.skip(1),
            counts.skip(1),
            extra.skip(k as int),
            crcs.skip(n as int),
        )->0;
        assert forall|i: int| 0 <= i < chains.skip(1).len() implies chain_fits(
            (Block {
                coders: #[trigger] chains.skip(1)[i],
                sizes: sizes.skip(1)[i],
                crc: 0,
                num_sub_unpack_streams: 0,
                sub_stream_sizes: Seq::empty(),
                sub_stream_crcs: Seq::empty(),
            }),
        ) by {
            assert(chains.skip(1)[i] == chains[i + 1]);
            assert(sizes.skip(1)[i] == sizes[i + 1]);
        }
        lemma_rebuilt_is_canonical(
            chains.skip(1),
            sizes.skip(1),
            counts.skip(1),
            extra.skip(k as int),
            crcs.skip(n as int),
        );
        assert(blocks == seq![first] + others);
        assert(chain_fits(first)) by {
            assert(chains[0] == chains[0]);
        }
        assert(block_canonical(first)) by {
            if counts[0] > 1 {
                let given = extra.take(k as int);
                let last = (sizes[0].last() - total(given)) as u64;
                assert(given.push(last).drop_last() =~= given);
            }
        }
        lemma_canonical_build(first, others);
        lemma_lists_front(blocks);
        assert(blocks.skip(1) =~= others);
        assert(first.coders == chains[0] && first.sizes == sizes[0]);
        assert(first.num_sub_unpack_streams == counts[0]);
        assert(chains_of(blocks) =~= chains) by {
            assert forall|i: int| 0 <= i < chains.len() implies chains_of(blocks)[i]
                == chains[i] by {
                if i > 0 {
                    assert(blocks[i] == others[i - 1]);
                    assert(chains_of(others)[i - 1] == chains.skip(1)[i - 1]);
                }
            }
        }
        assert(sizes_of(blocks) =~= sizes) by {
            assert forall|i: int| 0 <= i < sizes.len() implies sizes_of(blocks)[i] == sizes[i] by {
                if i > 0 {
                    assert(blocks[i] == others[i - 1]);
                    assert(sizes_of(others)[i - 1] == sizes.skip(1)[i - 1]);
                }
            }
        }
        assert(stream_counts(blocks) =~= counts) by {
            assert(counts =~= seq![counts[0]] + counts.skip(1));
        }
        assert(own_sizes(first) =~= extra.take(k as int)) by {
            if counts[0] > 1 {
                let given = extra.take(k as int);
                let last = (sizes[0].last() - total(given)) as u64;
                assert(given.push(last).drop_last() =~= given);
            }
        }
        assert(block_crcs(first) =~= crcs.take(n as int));
        assert(extra =~= extra.take(k as int) + extra.skip(k as int));
        assert(crcs =~= crcs.take(n as int) + crcs.skip(n as int));
    }
}

/// How many files each of `blocks` blocks holds, read at position `at`: one
/// each where the section does not say. With the numbers comes the position
/// behind them.
pub open spec fn parsed_counts(bytes: Seq<u8>, at: nat, blocks: nat) -> Option<(Seq<u64>, nat)> {
    if tag_at(bytes, at, K_NUM_UNPACK_STREAM) {
        match parsed_numbers(after(bytes, at + 1), blocks) {
            None => None,
            Some((counts, taken)) => Some((counts, at + 1 + taken)),
        }
    } else {
        Some((Seq::new(blocks, |i: int| 1u64), at))
    }
}

/// The stored sizes of the shares, read at position `at`. They may be left out
/// only where none is due.
pub open spec fn parsed_extra(bytes: Seq<u8>, at: nat, counts: Seq<u64>) -> Option<
    (Seq<u64>, nat),
> {
    if tag_at(bytes, at, K_SIZE) {
        match parsed_numbers(after(bytes, at + 1), total_stored(counts)) {
            None => None,
            Some((extra, taken)) => Some((extra, at + 1 + taken)),
        }
    } else if total_stored(counts) == 0 {
        Some((Seq::empty(), at))
    } else {
        None
    }
}

/// The checksums of the files, read at position `at`. Every file must have
/// one, so they may be left out only where there is no file.
pub open spec fn parsed_stream_crcs(bytes: Seq<u8>, at: nat, counts: Seq<u64>) -> Option<
    (Seq<u32>, nat),
> {
    if tag_at(bytes, at, K_CRC) {
        match parsed_presence(after(bytes, at + 1), total_files(counts)) {
            None => None,
            Some((flags, a)) => if count_set(flags) != flags.len() {
                None
            } else {
                match parsed_fixed(after(bytes, at + 1 + a), total_files(counts), 4) {
                    None => None,
                    Some((values, b)) => Some((narrowed(values), at + 1 + a + b)),
                }
            },
        }
    } else if total_files(counts) == 0 {
        Some((Seq::empty(), at))
    } else {
        None
    }
}

/// A substreams section for the blocks with the chains `chains` and the sizes
/// `sizes` along them.
pub open spec fn parsed_substreams(bytes: Seq<u8>, chains: Seq<Seq<Coder>>, sizes: Seq<Seq<u64>>)
    -> Option<(Seq<Block>, nat)> {
    if !tag_at(bytes, 0, K_SUB_STREAMS_INFO) {
        None
    } else {
        match parsed_counts(bytes, 1, chains.len()) {
            None => None,
            Some((counts, at1)) => match parsed_extra(bytes, at1, counts) {
                None => None,
                Some((extra, at2)) => match parsed_stream_crcs(bytes, at2, counts) {
                    None => None,
                    Some((crcs, at3)) => if !tag_at(bytes, at3, K_END) {
                        None
                    } else {
                        match rebuilt(chains, sizes, counts, extra, crcs) {
                            None => None,
                            Some(blocks) => Some((blocks, at3 + 1)),
                        }
                    },
                },
            },
        }
    }
}

/// Reading the counts part that the writer makes gives the numbers of files.
pub proof fn lemma_parsed_counts(blocks: Seq<Block>, bytes: Seq<u8>, at: nat, rest: Seq<u8>)
    requires
        at <= bytes.len(),
        after(bytes, at) == counts_part(blocks) + rest,
        rest.len() > 0,
        rest[0] != K_NUM_UNPACK_STREAM,
    ensures
        parsed_counts(bytes, at, blocks.len()) == Some(
            (stream_counts(blocks), at + counts_part(blocks).len()),
        ),
        after(bytes, at + counts_part(blocks).len()) == rest,
        at + counts_part(blocks).len() <= bytes.len(),
{
    let counts = stream_counts(blocks);
    lemma_after(bytes, at, counts_part(blocks), rest);
    if exists|i: int| 0 <= i < blocks.len() && blocks[i].num_sub_unpack_streams != 1 {
        let numbers = encoded_all(counts);
        lemma_assoc(seq![K_NUM_UNPACK_STREAM], numbers, rest);
        lemma_tag(bytes, at, K_NUM_UNPACK_STREAM, numbers + rest);
        lemma_parsed_numbers(counts, rest);
    } else {
        assert(counts_part(blocks) + rest =~= rest);
        assert(after(bytes, at)[0] == bytes[at as int]);
        assert(counts =~= Seq::new(blocks.len(), |i: int| 1u64));
    }
}

/// Reading the sizes part that the writer makes gives the stored sizes.
pub proof fn lemma_parsed_extra(blocks: Seq<Block>, bytes: Seq<u8>, at: nat, rest: Seq<u8>)
    requires
        blocks_canonical(blocks),
        at <= bytes.len(),
        after(bytes, at) == sizes_part(blocks) + rest,
        rest.len() > 0,
        rest[0] != K_SIZE,
    ensures
        parsed_extra(bytes, at, stream_counts(blocks)) == Some(
            (stored_sizes(blocks), at + sizes_part(blocks).len()),
        ),
        after(bytes, at + sizes_part(blocks).len()) == rest,
        at + sizes_part(blocks).len() <= bytes.len(),
{
    let extra = stored_sizes(blocks);
    lemma_rebuilt(blocks);
    lemma_after(bytes, at, sizes_part(blocks), rest);
    if exists|i: int| 0 <= i < blocks.len() && blocks[i].sub_stream_sizes.len() > 1 {
        let numbers = encoded_all(extra);
        lemma_assoc(seq![K_SIZE], numbers, rest);
        lemma_tag(bytes, at, K_SIZE, numbers + rest);
        lemma_parsed_numbers(extra, rest);
    } else {
        assert(sizes_part(blocks) + rest =~= rest);
        assert(after(bytes, at)[0] == bytes[at as int]);
        lemma_no_stored_sizes(blocks);
    }
}

/// Where no block records several shares, no size is stored.
pub proof fn lemma_no_stored_sizes(blocks: Seq<Block>)
    requires
        forall|i: int| 0 <= i < blocks.len() ==> blocks[i].sub_stream_sizes.len() <= 1,
    ensures
        stored_sizes(blocks).len() == 0,
    decreases blocks.len(),
{
    if blocks.len() > 0 {
        assert forall|i: int| 0 <= i < blocks.drop_last().len() implies blocks.drop_last()[
            i
        ].sub_stream_sizes.len() <= 1 by {
            assert(blocks.drop_last()[i] == blocks[i]);
        }
        lemma_no_stored_sizes(blocks.drop_last());
        assert(blocks.last() == blocks[blocks.len() - 1]);
    }
}

/// Reading the checksums part that the writer makes gives the checksums.
#[verifier::rlimit(50)]
pub proof fn lemma_parsed_stream_crcs(blocks: Seq<Block>, bytes: Seq<u8>, at: nat, rest: Seq<u8>)
    requires
        blocks_canonical(blocks),
        stored_crcs(blocks).len() <= usize::MAX,
        at <= bytes.len(),
        after(bytes, at) == crcs_part(blocks) + rest,
        rest.len() > 0,
        rest[0] != K_CRC,
    ensures
        parsed_stream_crcs(bytes, at, stream_counts(blocks)) == Some(
            (stored_crcs(blocks), at + crcs_part(blocks).len()),
        ),
        after(bytes, at + crcs_part(blocks).len()) == rest,
        at + crcs_part(blocks).len() <= bytes.len(),
{
    let crcs = stored_crcs(blocks);
    lemma_rebuilt(blocks);
    lemma_after(bytes, at, crcs_part(blocks), rest);
    if crcs.len() > 0 {
        let values = le32_all(crcs);
        let flags = Seq::new(crcs.len(), |i: int| true);
        assert(seq![K_CRC, 1u8] =~= seq![K_CRC] + seq![1u8]);
        lemma_assoc(seq![K_CRC] + seq![1u8], values, rest);
        lemma_assoc(seq![K_CRC], seq![1u8], values + rest);
        lemma_tag(bytes, at, K_CRC, seq![1u8] + (values + rest));
        assert(parsed_presence(seq![1u8] + (values + rest), crcs.len()) == Some((flags, 1nat)))
            by {
            assert((seq![1u8] + (values + rest))[0] == 1u8);
        }
        lemma_count_set_bound(flags);
        lemma_after(bytes, at + 1, seq![1u8], values + rest);
        lemma_le32_all_is_le_all(crcs);
        lemma_pow256_values();
        lemma_parsed_fixed(widened(crcs), 4, rest);
        assert(narrowed(widened(crcs)) =~= crcs);
        lemma_after(bytes, at + 2, values, rest);
        assert(crcs_part(blocks).len() == 2 + values.len());
    } else {
        assert(crcs_part(blocks) + rest =~= rest);
        assert(after(bytes, at)[0] == bytes[at as int]);
        assert(crcs =~= Seq::<u32>::empty());
    }
}

/// The byte that follows the first `known` parts of the substreams section is
/// the tag of a later part, or the end tag.
pub proof fn lemma_part_starts(blocks: Seq<Block>, rest: Seq<u8>)
    ensures
        ({
            let tail = crcs_part(blocks) + (seq![K_END] + rest);
            &&& tail.len() > 0
            &&& tail[0] != K_NUM_UNPACK_STREAM
            &&& tail[0] != K_SIZE
        }),
        ({
            let tail = sizes_part(blocks) + (crcs_part(blocks) + (seq![K_END] + rest));
            &&& tail.len() > 0
            &&& tail[0] != K_NUM_UNPACK_STREAM
        }),
{
    let end = seq![K_END] + rest;
    assert(end[0] == K_END);
    let crcs = crcs_part(blocks);
    let tail = crcs + end;
    if crcs.len() > 0 {
        assert(tail[0] == crcs[0]);
        assert(crcs[0] == K_CRC);
    } else {
        assert(tail =~= end);
    }
    let sizes = sizes_part(blocks);
    let longer = sizes + tail;
    if sizes.len() > 0 {
        assert(longer[0] == sizes[0]);
        assert(sizes[0] == K_SIZE);
    } else {
        assert(longer =~= tail);
    }
}

/// Reading the substreams section that the writer makes of canonical blocks
/// gives the blocks back.
#[verifier::rlimit(50)]
pub proof fn lemma_parsed_substreams(blocks: Seq<Block>, rest: Seq<u8>)
    requires
        blocks_canonical(blocks),
        stored_crcs(blocks).len() <= usize::MAX,
    ensures
        parsed_substreams(substreams_bytes(blocks) + rest, chains_of(blocks), sizes_of(blocks))
            == Some((blocks, substreams_bytes(blocks).len())),
{
    let x0 = seq![K_SUB_STREAMS_INFO];
    let x1 = counts_part(blocks);
    let x2 = sizes_part(blocks);
    let x3 = crcs_part(blocks);
    let x4 = seq![K_END];
    let r4 = x4 + rest;
    let r3 = x3 + r4;
    let r2 = x2 + r3;
    let r1 = x1 + r2;
    let bytes = substreams_bytes(blocks) + rest;
    assert(bytes == x0 + r1) by {
        lemma_assoc(x0 + x1 + x2 + x3, x4, rest);
        lemma_assoc(x0 + x1 + x2, x3, r4);
        lemma_assoc(x0 + x1, x2, r3);
        lemma_assoc(x0, x1, r2);
    }
    assert(after(bytes, 0) =~= bytes);
    lemma_tag(bytes, 0, K_SUB_STREAMS_INFO, r1);
    lemma_part_starts(blocks, rest);
    lemma_parsed_counts(blocks, bytes, 1, r2);
    let at1 = 1 + x1.len();
    lemma_parsed_extra(blocks, bytes, at1, r3);
    let at2 = at1 + x2.len();
    assert(r4[0] == K_END);
    lemma_parsed_stream_crcs(blocks, bytes, at2, r4);
    let at3 = at2 + x3.len();
    lemma_tag(bytes, at3, K_END, rest);
    lemma_rebuilt(blocks);
    assert(substreams_bytes(blocks).len() == at3 + 1);
}

/// The blocks that a list of block records stands for.
pub open spec fn blocks_view(blocks: Seq<BlockInfo>) -> Seq<Block> {
    Seq::new(blocks.len(), |i: int| blocks[i]@)
}

/// A list of fixed-width numbers takes the width for each number.
pub proof fn lemma_parsed_fixed_taken(bytes: Seq<u8>, count: nat, width: nat)
    requires
        parsed_fixed(bytes, count, width) is Some,
        width >= 1,
    ensures
        count <= (parsed_fixed(bytes, count, width)->0).1 <= bytes.len(),
    decreases count,
{
    if count > 0 {
        lemma_parsed_fixed_taken(after(bytes, width), (count - 1) as nat, width);
    }
}

/// The number of stored sizes and the number of files for `counts`, or `None`
/// for either where it is more than `limit`.
fn count_totals(counts: &Vec<u64>, limit: u64) -> (totals: (Option<u64>, Option<u64>))
    ensures
        match totals.0 {
            Some(stored) => stored == total_stored(counts@) && stored <= limit,
            None => total_stored(counts@) > limit,
        },
        match totals.1 {
            Some(files) => files == total_files(counts@) && files <= limit,
            None => total_files(counts@) > limit,
        },
{
    let mut stored: Option<u64> = Some(0);
    let mut files: Option<u64> = Some(0);
    let mut i: usize = 0;
    assert(counts@.skip(0) =~= counts@);
    while i < counts.len()
        invariant
            i <= counts@.len(),
            match stored {
                Some(sum) => sum + total_stored(counts@.skip(i as int)) == total_stored(counts@)
                    && sum <= limit,
                None => total_stored(counts@) > limit,
            },
            match files {
                Some(sum) => sum + total_files(counts@.skip(i as int)) == total_files(counts@)
                    && sum <= limit,
                None => total_files(counts@) > limit,
            },
        decreases counts@.len() - i,
    {
        let count = counts[i];
        proof {
            let left = counts@.skip(i as int);
            assert(left[0] == count);
            assert(left.skip(1) =~= counts@.skip(i + 1));
        }
        let own: u64 = if count > 1 {
            count - 1
        } else {
            0
        };
        stored = match stored {
            Some(sum) => if own > limit - sum {
                None
            } else {
                Some(sum + own)
            },
            None => None,
        };
        files = match files {
            Some(sum) => if count > limit - sum {
                None
            } else {
                Some(sum + count)
            },
            None => None,
        };
        i = i + 1;
    }
    assert(counts@.skip(counts@.len() as int) =~= Seq::<u64>::empty());
    (stored, files)
}

/// The sum of `sizes`, or `None` where it is more than `limit`.
fn sum_up_to(sizes: &Vec<u64>, from: usize, to: usize, limit: u64) -> (sum: Option<u64>)
    requires
        from <= to <= sizes@.len(),
    ensures
        match sum {
            Some(sum) => sum == total(sizes@.subrange(from as int, to as int)) && sum <= limit,
            None => total(sizes@.subrange(from as int, to as int)) > limit,
        },
{
    let mut sum: u64 = 0;
    let mut i: usize = from;
    assert(sizes@.subrange(from as int, from as int) =~= Seq::<u64>::empty());
    while i < to
        invariant
            from <= i <= to <= sizes@.len(),
            sum == total(sizes@.subrange(from as int, i as int)),
            sum <= limit,
        decreases to - i,
    {
        let size = sizes[i];
        proof {
            lemma_total_push(sizes@.subrange(from as int, i as int), size);
            assert(sizes@.subrange(from as int, i as int).push(size) =~= sizes@.subrange(
                from as int,
                i + 1,
            ));
            lemma_total_subrange(sizes@, from as int, i + 1, to as int);
        }
        if size > limit - sum {
            return None;
        }
        sum = sum + size;
        i = i + 1;
    }
    Some(sum)
}

/// A part of a list sums to no more than a longer part.
pub proof fn lemma_total_subrange(sizes: Seq<u64>, from: int, middle: int, to: int)
    requires
        0 <= from <= middle <= to <= sizes.len(),
    ensures
        total(sizes.subrange(from, middle)) <= total(sizes.subrange(from, to)),
    decreases to - middle,
{
    if middle < to {
        lemma_total_subrange(sizes, from, middle, to - 1);
        lemma_total_push(sizes.subrange(from, to - 1), sizes[to - 1]);
        assert(sizes.subrange(from, to - 1).push(sizes[to - 1]) =~= sizes.subrange(from, to));
    }
}

/// Puts the blocks together from what the two sections give.
#[verifier::rlimit(80)]
pub fn rebuild(
    chains: Vec<Vec<EncoderConfiguration>>,
    sizes: Vec<Vec<u64>>,
    counts: &Vec<u64>,
    extra: &Vec<u64>,
    crcs: &Vec<u32>,
) -> (found: Option<Vec<BlockInfo>>)
    requires
        chains@.len() == sizes@.len() == counts@.len(),
    ensures
        match rebuilt(chains_view(chains@), sizes_view(sizes@), counts@, extra@, crcs@) {
            Some(blocks) => found is Some && blocks_view(found->0@) == blocks,
            None => found is None,
        },
{
    let ghost all_chains = chains_view(chains@);
    let ghost all_sizes = sizes_view(sizes@);
    let ghost goal = rebuilt(all_chains, all_sizes, counts@, extra@, crcs@);
    let blocks_total: usize = chains.len();
    let extra_total: usize = extra.len();
    let crcs_total: usize = crcs.len();
    let mut blocks: Vec<BlockInfo> = Vec::new();
    let mut rows = sizes;
    let mut e: usize = 0;
    let mut c: usize = 0;
    let mut i: usize = 0;
    proof {
        assert(all_chains.skip(0) =~= all_chains);
        assert(all_sizes.skip(0) =~= all_sizes);
        assert(counts@.skip(0) =~= counts@);
        assert(extra@.skip(0) =~= extra@);
        assert(crcs@.skip(0) =~= crcs@);
        assert(blocks_view(blocks@) + Seq::<Block>::empty() =~= Seq::<Block>::empty());
    }
    for chain in it: chains
        invariant
            it.seq().len() == blocks_total == counts@.len() == rows@.len(),
            all_chains == chains_view(it.seq()),
            all_sizes.len() == blocks_total,
            forall|j: int| i <= j < blocks_total ==> rows@[j]@ == #[trigger] all_sizes[j],
            goal == rebuilt(chains_view(chains@), sizes_view(sizes@), counts@, extra@, crcs@),
            i == it.index(),
            i <= blocks_total,
            e <= extra@.len() == extra_total,
            c <= crcs@.len() == crcs_total,
            goal == match rebuilt(
                all_chains.skip(i as int),
                all_sizes.skip(i as int),
                counts@.skip(i as int),
                extra@.skip(e as int),
                crcs@.skip(c as int),
            ) {
                Some(others) => Some(blocks_view(blocks@) + others),
                None => None,
            },
    {
        assert(i < blocks_total);
        let count: u64 = counts[i];
        let own: u64 = if count > 1 {
            count - 1
        } else {
            0
        };
        let ghost left_chains = all_chains.skip(i as int);
        let ghost left_sizes = all_sizes.skip(i as int);
        let ghost left_counts = counts@.skip(i as int);
        let ghost left_extra = extra@.skip(e as int);
        let ghost left_crcs = crcs@.skip(c as int);
        proof {
            assert(left_chains[0] == coders_of(chain@));
            assert(left_sizes[0] == all_sizes[i as int]);
            assert(left_counts[0] == count);
            assert(left_chains.skip(1) =~= all_chains.skip(i + 1));
            assert(left_sizes.skip(1) =~= all_sizes.skip(i + 1));
            assert(left_counts.skip(1) =~= counts@.skip(i + 1));
        }
        if own > (extra_total - e) as u64 || count > (crcs_total - c) as u64 {
            return None;
        }
        let own: usize = own as usize;
        let files: usize = count as usize;
        let mut block_sizes: Vec<u64> = Vec::new();
        core::mem::swap(&mut block_sizes, &mut rows[i]);
        if block_sizes.len() == 0 {
            return None;
        }
        proof {
            assert(left_extra.take(own as int) =~= extra@.subrange(e as int, e + own));
            assert(left_crcs.take(files as int) =~= crcs@.subrange(c as int, c + files));
            assert(left_extra.skip(own as int) =~= extra@.skip(e + own));
            assert(left_crcs.skip(files as int) =~= crcs@.skip(c + files));
        }
        let primary: u64 = block_sizes[block_sizes.len() - 1];
        let block = if count == 0 {
            BlockInfo {
                methods: chain,
                sizes: block_sizes,
                crc: 0,
                num_sub_unpack_streams: 0,
                sub_stream_sizes: Vec::new(),
                sub_stream_crcs: Vec::new(),
            }
        } else if count == 1 {
            BlockInfo {
                methods: chain,
                sizes: block_sizes,
                crc: crcs[c],
                num_sub_unpack_streams: 1,
                sub_stream_sizes: Vec::new(),
                sub_stream_crcs: Vec::new(),
            }
        } else {
            let given = match sum_up_to(extra, e, e + own, primary) {
                Some(given) => given,
                None => {
                    return None;
                },
            };
            let mut shares: Vec<u64> = Vec::new();
            let mut k: usize = 0;
            while k < own
                invariant
                    k <= own,
                    e + own <= extra@.len() == extra_total,
                    shares@ == extra@.subrange(e as int, e + k),
                decreases own - k,
            {
                shares.push(extra[e + k]);
                k = k + 1;
                assert(shares@ =~= extra@.subrange(e as int, e + k));
            }
            shares.push(primary - given);
            let mut own_crcs: Vec<u32> = Vec::new();
            let mut k: usize = 0;
            while k < files
                invariant
                    k <= files,
                    c + files <= crcs@.len() == crcs_total,
                    own_crcs@ == crcs@.subrange(c as int, c + k),
                decreases files - k,
            {
                own_crcs.push(crcs[c + k]);
                k = k + 1;
                assert(own_crcs@ =~= crcs@.subrange(c as int, c + k));
            }
            BlockInfo {
                methods: chain,
                sizes: block_sizes,
                crc: 0,
                num_sub_unpack_streams: count,
                sub_stream_sizes: shares,
                sub_stream_crcs: own_crcs,
            }
        };
        proof {
            assert(rebuilt_block(
                left_chains[0],
                left_sizes[0],
                count,
                left_extra.take(own as int),
                left_crcs.take(files as int),
            ) == Some(block@));
            match rebuilt(
                all_chains.skip(i + 1),
                all_sizes.skip(i + 1),
                counts@.skip(i + 1),
                extra@.skip(e + own),
                crcs@.skip(c + files),
            ) {
                Some(others) => {
                    assert(blocks_view(blocks@) + (seq![block@] + others) =~= blocks_view(
                        blocks@.push(block),
                    ) + others);
                },
                None => {},
            }
        }
        blocks.push(block);
        e = e + own;
        c = c + files;
        i = i + 1;
    }
    proof {
        assert(all_chains.skip(blocks_total as int) =~= Seq::<Seq<Coder>>::empty());
    }
    if e != extra_total || c != crcs_total {
        proof {
            assert(extra@.skip(e as int).len() == extra_total - e);
            assert(crcs@.skip(c as int).len() == crcs_total - c);
        }
        return None;
    }
    proof {
        assert(extra@.skip(e as int).len() == 0);
        assert(crcs@.skip(c as int).len() == 0);
        assert(blocks_view(blocks@) + Seq::<Block>::empty() =~= blocks_view(blocks@));
    }
    Some(blocks)
}

/// How many files each of `blocks` blocks holds, read at position `at`.
pub fn read_counts(section: &[u8], at: usize, blocks: usize) -> (found: Option<(Vec<u64>, usize)>)
    requires
        at <= section@.len(),
    ensures
        match parsed_counts(section@, at as nat, blocks as nat) {
            Some((counts, next)) => found is Some && (found->0).0@ == counts && (found->0).1
                == next && at <= next <= section@.len() && counts.len() == blocks,
            None => found is None,
        },
{
    if has_tag(section, at, K_NUM_UNPACK_STREAM) {
        let (counts, next) = match read_numbers(section, at + 1, blocks as u64) {
            Some(found) => found,
            None => {
                return None;
            },
        };
        proof {
            lemma_parsed_numbers_len(after(section@, (at + 1) as nat), blocks as nat);
        }
        Some((counts, next))
    } else {
        let mut counts: Vec<u64> = Vec::new();
        let mut i: usize = 0;
        while i < blocks
            invariant
                i <= blocks,
                counts@ == Seq::new(i as nat, |k: int| 1u64),
            decreases blocks - i,
        {
            counts.push(1);
            i = i + 1;
            assert(counts@ =~= Seq::new(i as nat, |k: int| 1u64));
        }
        Some((counts, at))
    }
}

/// The stored sizes of the shares, read at position `at`. `stored` is their
/// number, or `None` where that is more than the section has bytes.
pub fn read_extra(section: &[u8], at: usize, counts: &Vec<u64>, stored: Option<u64>) -> (found:
    Option<(Vec<u64>, usize)>)
    requires
        at <= section@.len(),
        match stored {
            Some(stored) => stored == total_stored(counts@),
            None => total_stored(counts@) > section@.len(),
        },
    ensures
        match parsed_extra(section@, at as nat, counts@) {
            Some((extra, next)) => found is Some && (found->0).0@ == extra && (found->0).1 == next
                && at <= next <= section@.len(),
            None => found is None,
        },
{
    if has_tag(section, at, K_SIZE) {
        let stored = match stored {
            Some(stored) => stored,
            None => {
                proof {
                    let rest = after(section@, (at + 1) as nat);
                    if parsed_numbers(rest, total_stored(counts@)) is Some {
                        lemma_parsed_numbers_len(rest, total_stored(counts@));
                    }
                }
                return None;
            },
        };
        match read_numbers(section, at + 1, stored) {
            Some((extra, next)) => Some((extra, next)),
            None => None,
        }
    } else {
        match stored {
            Some(stored) => if stored == 0 {
                Some((Vec::new(), at))
            } else {
                None
            },
            None => None,
        }
    }
}

/// The checksums of the files, read at position `at`. `files` is the number
/// of files, or `None` where that is more than the section has bytes.
#[verifier::rlimit(50)]
pub fn read_stream_crcs(section: &[u8], at: usize, counts: &Vec<u64>, files: Option<u64>) -> (found:
    Option<(Vec<u32>, usize)>)
    requires
        at <= section@.len(),
        match files {
            Some(files) => files == total_files(counts@),
            None => total_files(counts@) > section@.len(),
        },
    ensures
        match parsed_stream_crcs(section@, at as nat, counts@) {
            Some((crcs, next)) => found is Some && (found->0).0@ == crcs && (found->0).1 == next
                && at <= next <= section@.len(),
            None => found is None,
        },
{
    if has_tag(section, at, K_CRC) {
        let ghost rest = after(section@, (at + 1) as nat);
        let files = match files {
            Some(files) => files,
            None => {
                proof {
                    match parsed_presence(rest, total_files(counts@)) {
                        Some((flags, a)) => {
                            let values_at = after(section@, (at + 1 + a) as nat);
                            if parsed_fixed(values_at, total_files(counts@), 4) is Some {
                                lemma_parsed_fixed_taken(values_at, total_files(counts@), 4);
                            }
                        },
                        None => {},
                    }
                }
                return None;
            },
        };
        let (flags, next) = match read_presence(section, at + 1, files) {
            Some(found) => found,
            None => {
                return None;
            },
        };
        if count_flags(&flags) != flags.len() {
            return None;
        }
        let (values, end) = match read_fixed(section, next, files as usize, 4) {
            Some(found) => found,
            None => {
                return None;
            },
        };
        let mut crcs: Vec<u32> = Vec::new();
        let mut i: usize = 0;
        while i < values.len()
            invariant
                i <= values@.len(),
                crcs@ == narrowed(values@.take(i as int)),
            decreases values@.len() - i,
        {
            crcs.push(values[i] as u32);
            i = i + 1;
            assert(crcs@ =~= narrowed(values@.take(i as int)));
        }
        proof {
            assert(values@.take(values@.len() as int) =~= values@);
        }
        Some((crcs, end))
    } else {
        match files {
            Some(files) => if files == 0 {
                Some((Vec::new(), at))
            } else {
                None
            },
            None => None,
        }
    }
}

/// A substreams section at the start of `section`, for the blocks with the
/// chains `chains` and the sizes `sizes` along them.
#[verifier::rlimit(50)]
pub fn read_substreams(
    section: &[u8],
    chains: Vec<Vec<EncoderConfiguration>>,
    sizes: Vec<Vec<u64>>,
) -> (found: Option<(Vec<BlockInfo>, usize)>)
    requires
        chains@.len() == sizes@.len(),
    ensures
        match parsed_substreams(section@, chains_view(chains@), sizes_view(sizes@)) {
            Some((blocks, taken)) => found is Some && blocks_view((found->0).0@) == blocks && (
            found->0).1 == taken && taken <= section@.len(),
            None => found is None,
        },
{
    let len: usize = section.len();
    if !has_tag(section, 0, K_SUB_STREAMS_INFO) {
        return None;
    }
    let (counts, at1) = match read_counts(section, 1, chains.len()) {
        Some(found) => found,
        None => {
            return None;
        },
    };
    let totals = count_totals(&counts, len as u64);
    let (extra, at2) = match read_extra(section, at1, &counts, totals.0) {
        Some(found) => found,
        None => {
            return None;
        },
    };
    let (crcs, at3) = match read_stream_crcs(section, at2, &counts, totals.1) {
        Some(found) => found,
        None => {
            return None;
        },
    };
    if !has_tag(section, at3, K_END) {
        return None;
    }
    match rebuild(chains, sizes, &counts, &extra, &crcs) {
        Some(blocks) => Some((blocks, at3 + 1)),
        None => None,
    }
}

/// The blocks that are read from a substreams section are canonical, and are
/// blocks with the chains and the sizes that the section was read for.
#[verifier::rlimit(50)]
pub proof fn lemma_parsed_substreams_shape(
    bytes: Seq<u8>,
    chains: Seq<Seq<Coder>>,
    sizes: Seq<Seq<u64>>,
)
    requires
        parsed_substreams(bytes, chains, sizes) is Some,
        chains.len() == sizes.len(),
        forall|i: int|
            0 <= i < chains.len() ==> chain_fits(
                (Block {
                    coders: #[trigger] chains[i],
                    sizes: sizes[i],
                    crc: 0,
                    num_sub_unpack_streams: 0,
                    sub_stream_sizes: Seq::empty(),
                    sub_stream_crcs: Seq::empty(),
                }),
            ),
    ensures
        ({
            let blocks = (parsed_substreams(bytes, chains, sizes)->0).0;
            &&& blocks_canonical(blocks)
            &&& chains_of(blocks) == chains
            &&& sizes_of(blocks) == sizes
            &&& blocks.len() == chains.len()
            &&& stored_crcs(blocks).len() <= usize::MAX
        }),
        (parsed_substreams(bytes, chains, sizes)->0).1 <= bytes.len(),
{
    let counts = parsed_counts(bytes, 1, chains.len())->0;
    let extra = parsed_extra(bytes, counts.1, counts.0)->0;
    let crcs = parsed_stream_crcs(bytes, extra.1, counts.0)->0;
    if tag_at(bytes, 1, K_NUM_UNPACK_STREAM) {
        lemma_parsed_numbers_len(after(bytes, 2), chains.len());
    }
    if tag_at(bytes, counts.1, K_SIZE) {
        lemma_parsed_numbers_len(after(bytes, counts.1 + 1), total_stored(counts.0));
    }
    if tag_at(bytes, extra.1, K_CRC) {
        let presence = parsed_presence(after(bytes, extra.1 + 1), total_files(counts.0))->0;
        lemma_parsed_fixed_len(
            after(bytes, extra.1 + 1 + presence.1),
            total_files(counts.0),
            4,
        );
        lemma_parsed_fixed_taken(
            after(bytes, extra.1 + 1 + presence.1),
            total_files(counts.0),
            4,
        );
    }
    lemma_rebuilt_is_canonical(chains, sizes, counts.0, extra.0, crcs.0);
    let blocks = (parsed_substreams(bytes, chains, sizes)->0).0;
    assert(chains_of(blocks).len() == blocks.len());
}

} // verus!
