//! The share of each file in what its block unpacks to: the files of a block
//! lie one behind the other, each with the size that the block records for
//! it.

use vstd::prelude::*;
use crate::archive::ArchiveEntry;
use crate::reader::stream_map::{file_in_block, held_before, streams_before};
use crate::writer::unpack_info::{Block, BlockInfo, block_sizes, stream_sizes};
use crate::writer::{
    WriterState,
    block_matches,
    block_valid,
    concat,
    file_matches,
    file_sizes,
    lemma_block_streams_push,
    lemma_contents_step,
    lemma_file_streams_concat,
    lemma_file_streams_push,
    lemma_total_prefix,
    lemma_total_push,
    lemma_total_streams_push,
    total,
    valid_state,
};

verus! {

/// Where the share of file `place` of a block starts in what the block
/// unpacks to.
pub open spec fn share_start(block: Block, place: int) -> nat {
    total(block_sizes(block).take(place))
}

/// The share of file `place` of a block in `unpacked`, what the block unpacks
/// to.
pub open spec fn share_of(block: Block, place: int, unpacked: Seq<u8>) -> Seq<u8> {
    unpacked.subrange(share_start(block, place) as int, share_start(block, place + 1) as int)
}

/// Whether a block that unpacks to `len` bytes has a share for file `place`.
pub open spec fn has_share(block: Block, place: int, len: nat) -> bool {
    &&& block.sizes.len() >= 1
    &&& 0 <= place < block_sizes(block).len()
    &&& share_start(block, place + 1) <= len
}

/// The sum of the first `count` of `sizes`, where it is no more than `limit`.
fn prefix_total(sizes: &Vec<u64>, count: usize, limit: usize) -> (sum: Option<usize>)
    requires
        count <= sizes@.len(),
    ensures
        match sum {
            Some(sum) => sum == total(sizes@.take(count as int)) && sum <= limit,
            None => total(sizes@.take(count as int)) > limit,
        },
{
    let mut sum: usize = 0;
    let mut i: usize = 0;
    assert(sizes@.take(0) =~= Seq::<u64>::empty());
    while i < count
        invariant
            i <= count <= sizes@.len(),
            sum == total(sizes@.take(i as int)),
            sum <= limit,
        decreases count - i,
    {
        let size = sizes[i];
        proof {
            lemma_total_push(sizes@.take(i as int), size);
            assert(sizes@.take(i as int).push(size) =~= sizes@.take(i + 1));
            lemma_total_prefix(sizes@.take(count as int), i + 1);
            assert(sizes@.take(count as int).take(i + 1) =~= sizes@.take(i + 1));
        }
        if size > (limit - sum) as u64 {
            return None;
        }
        sum = sum + size as usize;
        i = i + 1;
    }
    Some(sum)
}

/// The share of file `place` of `block` in `unpacked`, what the block unpacks
/// to; nothing where the block has no such file or `unpacked` ends before the
/// share does.
pub fn file_share<'a>(block: &BlockInfo, place: usize, unpacked: &'a [u8]) -> (share: Option<
    &'a [u8],
>)
    ensures
        share is Some <==> has_share(block@, place as int, unpacked@.len()),
        share is Some ==> share->0@ == share_of(block@, place as int, unpacked@),
{
    if block.sizes.len() == 0 {
        return None;
    }
    if block.num_sub_unpack_streams == 1 {
        let size = block.sizes[block.sizes.len() - 1];
        let ghost sizes = block_sizes(block@);
        proof {
            assert(sizes =~= seq![size]);
            assert(sizes.take(0) =~= Seq::<u64>::empty());
            assert(sizes.take(1) =~= sizes);
            assert(sizes.drop_last() =~= Seq::<u64>::empty());
            assert(total(sizes) == total(sizes.drop_last()) + size);
        }
        if place != 0 || size > unpacked.len() as u64 {
            return None;
        }
        let share = vstd::slice::slice_subrange(unpacked, 0, size as usize);
        return Some(share);
    }
    let sizes = &block.sub_stream_sizes;
    assert(sizes@ == block_sizes(block@));
    if place >= sizes.len() {
        return None;
    }
    let from = match prefix_total(sizes, place, unpacked.len()) {
        Some(from) => from,
        None => {
            proof {
                lemma_total_prefix(sizes@.take(place + 1), place as int);
                assert(sizes@.take(place + 1).take(place as int) =~= sizes@.take(place as int));
            }
            return None;
        },
    };
    let size = sizes[place];
    proof {
        lemma_total_push(sizes@.take(place as int), size);
        assert(sizes@.take(place as int).push(size) =~= sizes@.take(place + 1));
    }
    if size > (unpacked.len() - from) as u64 {
        return None;
    }
    let share = vstd::slice::slice_subrange(unpacked, from, from + size as usize);
    Some(share)
}

/// Each of the byte strings lies in all of them put together behind the ones
/// before it.
pub proof fn lemma_concat_part(contents: Seq<Seq<u8>>, i: int)
    requires
        0 <= i < contents.len(),
    ensures
        concat(contents.take(i)).len() + contents[i].len() <= concat(contents).len(),
        concat(contents).subrange(
            concat(contents.take(i)).len() as int,
            (concat(contents.take(i)).len() + contents[i].len()) as int,
        ) == contents[i],
    decreases contents.len(),
{
    let front = contents.drop_last();
    if i == contents.len() - 1 {
        assert(contents.take(i) =~= front);
        assert((concat(front) + contents.last()).subrange(
            concat(front).len() as int,
            (concat(front).len() + contents[i].len()) as int,
        ) =~= contents[i]);
    } else {
        lemma_concat_part(front, i);
        assert(front.take(i) =~= contents.take(i));
        assert(front[i] == contents[i]);
        let from = concat(contents.take(i)).len() as int;
        let to = from + contents[i].len();
        assert((concat(front) + contents.last()).subrange(from, to) =~= concat(front).subrange(
            from,
            to,
        ));
    }
}

/// The sum of two lists one behind the other is the sum of their sums.
pub proof fn lemma_total_append(first: Seq<u64>, second: Seq<u64>)
    ensures
        total(first + second) == total(first) + total(second),
    decreases second.len(),
{
    if second.len() == 0 {
        assert(first + second =~= first);
    } else {
        lemma_total_append(first, second.drop_last());
        assert((first + second).drop_last() =~= first + second.drop_last());
    }
}

/// Whether every file has the size of its content, and content exactly where
/// it has a stream.
pub open spec fn files_match(files: Seq<ArchiveEntry>, contents: Seq<Seq<u8>>) -> bool {
    &&& contents.len() == files.len()
    &&& forall|i: int| 0 <= i < files.len() ==> file_matches(#[trigger] files[i], contents[i])
}

/// The contents of the first files are as long together as the sizes of those
/// of them with a stream say, and there are as many of these sizes as files
/// with a stream.
pub proof fn lemma_files_before(files: Seq<ArchiveEntry>, contents: Seq<Seq<u8>>, i: int)
    requires
        files_match(files, contents),
        0 <= i <= files.len(),
    ensures
        concat(contents.take(i)).len() == total(file_sizes(files.take(i))),
        file_sizes(files.take(i)).len() == streams_before(files, i),
        file_sizes(files.take(i)) == file_sizes(files).take(streams_before(files, i) as int),
        i < files.len() && files[i].has_stream ==> streams_before(files, i) < file_sizes(
            files,
        ).len() && file_sizes(files)[streams_before(files, i) as int] == files[i].size,
    decreases i,
{
    assert(files =~= files.take(i) + files.skip(i));
    lemma_file_streams_concat(files.take(i), files.skip(i));
    if i > 0 {
        lemma_files_before(files, contents, i - 1);
        lemma_contents_step(contents, i - 1);
        assert(files.take(i) =~= files.take(i - 1).push(files[i - 1]));
        lemma_file_streams_push(files.take(i - 1), files[i - 1]);
        assert(file_matches(files[i - 1], contents[i - 1]));
        if files[i - 1].has_stream {
            lemma_total_push(file_sizes(files.take(i - 1)), files[i - 1].size);
        }
    } else {
        assert(contents.take(0) =~= Seq::<Seq<u8>>::empty());
        assert(files.take(0) =~= Seq::<ArchiveEntry>::empty());
    }
    assert(file_sizes(files.take(i)) =~= file_sizes(files).take(
        file_sizes(files.take(i)).len() as int,
    ));
    if i < files.len() && files[i].has_stream {
        assert(files.take(i + 1) =~= files.take(i).push(files[i]));
        lemma_file_streams_push(files.take(i), files[i]);
        assert(files =~= files.take(i + 1) + files.skip(i + 1));
        lemma_file_streams_concat(files.take(i + 1), files.skip(i + 1));
    }
}

/// Whether every block is valid and has the size of what it unpacks to.
pub open spec fn blocks_match(blocks: Seq<Block>, unpacked: Seq<Seq<u8>>) -> bool {
    &&& unpacked.len() == blocks.len()
    &&& forall|i: int| 0 <= i < blocks.len() ==> block_valid(#[trigger] blocks[i])
    &&& forall|i: int| 0 <= i < blocks.len() ==> block_matches(#[trigger] blocks[i], unpacked[i])
}

/// A valid block has a size for each of its files, and the sizes sum to the
/// last size of its chain.
pub proof fn lemma_block_sizes(block: Block)
    requires
        block_valid(block),
    ensures
        block_sizes(block).len() == block.num_sub_unpack_streams,
        total(block_sizes(block)) == block.sizes.last(),
{
    let sizes = block_sizes(block);
    if block.num_sub_unpack_streams == 1 {
        if block.sub_stream_sizes.len() == 0 {
            assert(sizes.drop_last() =~= Seq::<u64>::empty());
            assert(total(sizes) == total(sizes.drop_last()) + sizes.last());
        } else {
            assert(block.sub_stream_sizes.len() == 1);
            let shares = block.sub_stream_sizes;
            assert(shares.drop_last() =~= Seq::<u64>::empty());
            assert(total(shares) == total(shares.drop_last()) + shares.last());
            assert(sizes.drop_last() =~= Seq::<u64>::empty());
            assert(total(sizes) == total(sizes.drop_last()) + sizes.last());
        }
    }
}

/// What the first blocks unpack to is as long together as the sizes of their
/// files say, and there are as many of these sizes as the blocks hold files.
pub proof fn lemma_blocks_before(blocks: Seq<Block>, unpacked: Seq<Seq<u8>>, b: int)
    requires
        blocks_match(blocks, unpacked),
        0 <= b <= blocks.len(),
    ensures
        concat(unpacked.take(b)).len() == total(stream_sizes(blocks.take(b))),
        stream_sizes(blocks.take(b)).len() == held_before(blocks, b),
        b < blocks.len() ==> stream_sizes(blocks.take(b + 1)) == stream_sizes(blocks.take(b))
            + block_sizes(blocks[b]),
    decreases b,
{
    if b > 0 {
        lemma_blocks_before(blocks, unpacked, b - 1);
        lemma_contents_step(unpacked, b - 1);
        assert(blocks.take(b) =~= blocks.take(b - 1).push(blocks[b - 1]));
        lemma_block_streams_push(blocks.take(b - 1), blocks[b - 1]);
        lemma_total_streams_push(blocks.take(b - 1), blocks[b - 1]);
        lemma_total_append(stream_sizes(blocks.take(b - 1)), block_sizes(blocks[b - 1]));
        assert(block_valid(blocks[b - 1]));
        assert(block_matches(blocks[b - 1], unpacked[b - 1]));
        lemma_block_sizes(blocks[b - 1]);
    } else {
        assert(unpacked.take(0) =~= Seq::<Seq<u8>>::empty());
        assert(blocks.take(0) =~= Seq::<Block>::empty());
    }
    if b < blocks.len() {
        assert(blocks.take(b + 1) =~= blocks.take(b).push(blocks[b]));
        lemma_block_streams_push(blocks.take(b), blocks[b]);
    }
}

/// The sizes of the files of all blocks begin with those of the first blocks.
pub proof fn lemma_stream_sizes_prefix(blocks: Seq<Block>, b: int)
    requires
        0 <= b <= blocks.len(),
    ensures
        stream_sizes(blocks.take(b)).len() <= stream_sizes(blocks).len(),
        stream_sizes(blocks).take(stream_sizes(blocks.take(b)).len() as int) == stream_sizes(
            blocks.take(b),
        ),
    decreases blocks.len() - b,
{
    if b < blocks.len() {
        lemma_stream_sizes_prefix(blocks, b + 1);
        assert(blocks.take(b + 1) =~= blocks.take(b).push(blocks[b]));
        lemma_block_streams_push(blocks.take(b), blocks[b]);
        let longer = stream_sizes(blocks.take(b + 1));
        let shorter = stream_sizes(blocks.take(b));
        assert(stream_sizes(blocks).take(shorter.len() as int) =~= stream_sizes(blocks).take(
            longer.len() as int,
        ).take(shorter.len() as int));
        assert(longer.take(shorter.len() as int) =~= shorter);
    } else {
        assert(blocks.take(b) =~= blocks);
        assert(stream_sizes(blocks).take(stream_sizes(blocks).len() as int) =~= stream_sizes(
            blocks,
        ));
    }
}

/// In every state that a writer can reach, the content that was pushed with a
/// file is the file's share of what its block unpacks to: it lies behind the
/// shares of the files that the block holds before it, and has the size that
/// the block records for it. So a reader that unpacks the block to what the
/// writer's coders were given finds the content of each file as it was pushed.
pub proof fn lemma_contents_are_shares(state: WriterState, i: int, b: int)
    requires
        valid_state(state),
        file_in_block(state.files, state.blocks, i, b),
    ensures
        has_share(
            state.blocks[b],
            streams_before(state.files, i) - held_before(state.blocks, b),
            state.unpacked[b].len(),
        ),
        share_of(
            state.blocks[b],
            streams_before(state.files, i) - held_before(state.blocks, b),
            state.unpacked[b],
        ) == state.contents[i],
{
    let files = state.files;
    let blocks = state.blocks;
    let block = blocks[b];
    let sizes = block_sizes(block);
    let all = stream_sizes(blocks);
    let s = streams_before(files, i) as int;
    let held = held_before(blocks, b) as int;
    let place = s - held;
    assert(files_match(files, state.contents));
    assert(blocks_match(blocks, state.unpacked));
    assert(block_valid(block));
    assert(block_matches(block, state.unpacked[b]));
    assert(file_matches(files[i], state.contents[i]));
    lemma_files_before(files, state.contents, i);
    lemma_blocks_before(blocks, state.unpacked, b);
    lemma_blocks_before(blocks, state.unpacked, b + 1);
    lemma_stream_sizes_prefix(blocks, b + 1);
    lemma_block_sizes(block);
    let before = stream_sizes(blocks.take(b));
    let with_block = stream_sizes(blocks.take(b + 1));
    assert(with_block == before + sizes);
    assert(0 <= place < sizes.len());
    // the sizes of the files before file `i` are those of the blocks before
    // block `b` and the first of the block's own
    assert(all.take(s) =~= before + sizes.take(place)) by {
        assert(all.take(with_block.len() as int) == with_block);
        assert(all.take(s) =~= all.take(with_block.len() as int).take(s));
    }
    assert(all[s] == sizes[place]) by {
        assert(all.take(with_block.len() as int)[s] == with_block[s]);
    }
    lemma_total_append(before, sizes.take(place));
    lemma_total_push(sizes.take(place), sizes[place]);
    assert(sizes.take(place).push(sizes[place]) =~= sizes.take(place + 1));
    lemma_total_prefix(sizes, place + 1);
    lemma_concat_part(state.contents, i);
    lemma_concat_part(state.unpacked, b);
    let start = concat(state.unpacked.take(b)).len() as int;
    let from = share_start(block, place) as int;
    let to = share_start(block, place + 1) as int;
    assert(concat(state.contents.take(i)).len() == start + from);
    assert(to - from == state.contents[i].len());
    assert(to <= state.unpacked[b].len());
    assert(state.unpacked[b].subrange(from, to) =~= concat(state.unpacked).subrange(
        start + from,
        start + to,
    )) by {
        let whole = concat(state.unpacked);
        let part = whole.subrange(start, start + state.unpacked[b].len());
        assert(part == state.unpacked[b]);
        assert(part.subrange(from, to) =~= whole.subrange(start + from, start + to));
    }
}

} // verus!
