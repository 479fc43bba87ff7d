//! Where the streams of an archive lie: for each block the place of its packed
//! stream, and for each file the block that holds it.

use vstd::prelude::*;
use crate::archive::ArchiveEntry;
use crate::error::Error;
use crate::reader::header::Archive;
use crate::writer::unpack_info::Block;
use crate::writer::{lemma_total_prefix, lemma_total_push, total, total_streams};

verus! {

/// The number of files with a stream among the first `count` entries.
pub open spec fn streams_before(entries: Seq<ArchiveEntry>, count: int) -> nat
    decreases count,
{
    if count <= 0 {
        0
    } else {
        streams_before(entries, count - 1) + if entries[count - 1].has_stream {
            1nat
        } else {
            0nat
        }
    }
}

/// The number of files that the first `count` blocks hold.
pub open spec fn held_before(blocks: Seq<Block>, count: int) -> nat {
    total_streams(blocks.take(count))
}

/// Whether file `i` lies in block `b`: it has a stream, and counting the files
/// with a stream, it comes behind those of the blocks before `b` and not
/// behind those of `b`.
pub open spec fn file_in_block(
    entries: Seq<ArchiveEntry>,
    blocks: Seq<Block>,
    i: int,
    b: int,
) -> bool {
    &&& 0 <= i < entries.len()
    &&& 0 <= b < blocks.len()
    &&& entries[i].has_stream
    &&& held_before(blocks, b) <= streams_before(entries, i) < held_before(blocks, b + 1)
}

/// Where the streams of an archive lie.
#[derive(Debug)]
pub struct StreamMap {
    /// For each block, where its packed stream starts, counted from the start
    /// of the pack area.
    pub pack_offsets: Vec<u64>,
    /// For each file, the block that holds it and its place among the files of
    /// that block; nothing for a file without a stream.
    pub file_blocks: Vec<Option<(usize, u64)>>,
    /// For each block, the index of its first file, or the number of files
    /// where the block holds none.
    pub block_first_file: Vec<usize>,
}

/// Whether file `i` is the first file of block `b` according to `file_blocks`.
pub open spec fn is_first_of(file_blocks: Seq<Option<(usize, u64)>>, i: int, b: int) -> bool {
    file_blocks[i] == Some((b as usize, 0u64))
}

impl StreamMap {
    /// Whether the map is the map of an archive with these packed streams,
    /// blocks and files: every packed stream starts where the ones before
    /// it end, and every file with a stream lies in its block, at its place.
    pub open spec fn maps(
        &self,
        pack_sizes: Seq<u64>,
        blocks: Seq<Block>,
        entries: Seq<ArchiveEntry>,
    ) -> bool {
        &&& self.pack_offsets@.len() == pack_sizes.len()
        &&& forall|b: int|
            0 <= b < pack_sizes.len() ==> #[trigger] self.pack_offsets@[b] == total(
                pack_sizes.take(b),
            )
        &&& self.file_blocks@.len() == entries.len()
        &&& forall|i: int|
            0 <= i < entries.len() ==> match #[trigger] self.file_blocks@[i] {
                Some((b, place)) => file_in_block(entries, blocks, i, b as int) && place
                    == streams_before(entries, i) - held_before(blocks, b as int),
                None => !entries[i].has_stream,
            }
        &&& self.block_first_file@.len() == blocks.len()
        &&& forall|b: int|
            0 <= b < blocks.len() ==> {
                let first = #[trigger] self.block_first_file@[b];
                &&& first <= entries.len()
                &&& first < entries.len() ==> is_first_of(self.file_blocks@, first as int, b)
                &&& forall|i: int| 0 <= i < first ==> !is_first_of(self.file_blocks@, i, b)
            }
    }

    /// The map of `archive`.
    ///
    /// There is no map where the pack area is longer than a `u64` can say, or
    /// where there are more files with a stream than the blocks hold: both
    /// are reported as a malformed header.
    #[verifier::rlimit(50)]
    pub fn build(archive: &Archive) -> (result: Result<StreamMap, Error>)
        ensures
            match result {
                Ok(map) => map.maps(
                    archive.pack_info.sizes@,
                    archive.unpack_info@,
                    archive.files@,
                ),
                Err(error) => error == Error::MalformedHeader { offset: 0 },
            },
            result is Ok <==> total(archive.pack_info.sizes@) <= u64::MAX && streams_before(
                archive.files@,
                archive.files@.len() as int,
            ) <= total_streams(archive.unpack_info@),
    {
        let sizes = &archive.pack_info.sizes;
        let blocks = &archive.unpack_info.blocks;
        let files = &archive.files;
        let ghost all_blocks = archive.unpack_info@;
        let mut pack_offsets: Vec<u64> = Vec::new();
        let mut offset: u64 = 0;
        let mut b: usize = 0;
        proof {
            assert(sizes@.take(0) =~= Seq::<u64>::empty());
        }
        while b < sizes.len()
            invariant
                b <= sizes@.len(),
                sizes@ == archive.pack_info.sizes@,
                offset == total(sizes@.take(b as int)),
                pack_offsets@.len() == b,
                forall|k: int|
                    0 <= k < b ==> #[trigger] pack_offsets@[k] == total(sizes@.take(k)),
            decreases sizes@.len() - b,
        {
            pack_offsets.push(offset);
            proof {
                lemma_total_push(sizes@.take(b as int), sizes@[b as int]);
                assert(sizes@.take(b as int).push(sizes@[b as int]) =~= sizes@.take(b + 1));
                lemma_total_prefix(sizes@, b + 1);
            }
            if sizes[b] > u64::MAX - offset {
                return Err(Error::MalformedHeader { offset: 0 });
            }
            offset = offset + sizes[b];
            b = b + 1;
        }
        proof {
            assert(sizes@.take(sizes@.len() as int) =~= sizes@);
        }
        let mut file_blocks: Vec<Option<(usize, u64)>> = Vec::new();
        let mut block: usize = 0;
        let mut place: u64 = 0;
        let mut i: usize = 0;
        proof {
            assert(all_blocks.take(0) =~= Seq::<Block>::empty());
        }
        while i < files.len()
            invariant
                i <= files@.len(),
                block <= blocks@.len(),
                all_blocks == archive.unpack_info@,
                blocks@ == archive.unpack_info.blocks@,
                files@ == archive.files@,
                all_blocks.len() == blocks@.len(),
                block < blocks@.len() ==> place <= all_blocks[block as int].num_sub_unpack_streams,
                block == blocks@.len() ==> place == 0,
                streams_before(files@, i as int) == held_before(all_blocks, block as int) + place,
                file_blocks@.len() == i,
                forall|k: int|
                    0 <= k < i ==> match #[trigger] file_blocks@[k] {
                        Some((b, place)) => file_in_block(files@, all_blocks, k, b as int) && place
                            == streams_before(files@, k) - held_before(all_blocks, b as int),
                        None => !files@[k].has_stream,
                    },
            decreases files@.len() - i,
        {
            if files[i].has_stream {
                while block < blocks.len() && place == blocks[block].num_sub_unpack_streams
                    invariant
                        block <= blocks@.len(),
                        all_blocks == archive.unpack_info@,
                        blocks@ == archive.unpack_info.blocks@,
                        all_blocks.len() == blocks@.len(),
                        block < blocks@.len() ==> place <= all_blocks[block as int].num_sub_unpack_streams,
                        block == blocks@.len() ==> place == 0,
                        streams_before(files@, i as int) == held_before(all_blocks, block as int)
                            + place,
                    decreases blocks@.len() - block,
                {
                    proof {
                        assert(all_blocks[block as int] == blocks@[block as int]@);
                        assert(all_blocks.take(block + 1).drop_last() =~= all_blocks.take(
                            block as int,
                        ));
                        assert(all_blocks.take(block + 1).last() == all_blocks[block as int]);
                    }
                    block = block + 1;
                    place = 0;
                }
                if block == blocks.len() {
                    proof {
                        assert(all_blocks.take(block as int) =~= all_blocks);
                        lemma_streams_before_grows(files@, i + 1, files@.len() as int);
                    }
                    return Err(Error::MalformedHeader { offset: 0 });
                }
                proof {
                    assert(all_blocks[block as int] == blocks@[block as int]@);
                    assert(all_blocks.take(block + 1).drop_last() =~= all_blocks.take(
                        block as int,
                    ));
                    assert(all_blocks.take(block + 1).last() == all_blocks[block as int]);
                }
                file_blocks.push(Some((block, place)));
                place = place + 1;
            } else {
                file_blocks.push(None);
            }
            i = i + 1;
        }
        proof {
            lemma_held_before_grows(all_blocks, block as int, all_blocks.len() as int);
            if block < blocks@.len() {
                assert(all_blocks.take(block + 1).drop_last() =~= all_blocks.take(block as int));
                assert(all_blocks.take(block + 1).last() == all_blocks[block as int]);
                lemma_held_before_grows(all_blocks, block + 1, all_blocks.len() as int);
            }
            assert(all_blocks.take(all_blocks.len() as int) =~= all_blocks);
        }
        let block_first_file = first_files(&file_blocks, blocks.len());
        Ok(StreamMap { pack_offsets, file_blocks, block_first_file })
    }
}

/// For each of `blocks` blocks, the index of the first file that `file_blocks`
/// places first in it, or the number of files where there is none.
fn first_files(file_blocks: &Vec<Option<(usize, u64)>>, blocks: usize) -> (first: Vec<usize>)
    ensures
        first@.len() == blocks,
        forall|b: int|
            0 <= b < blocks ==> {
                let index = #[trigger] first@[b];
                &&& index <= file_blocks@.len()
                &&& index < file_blocks@.len() ==> is_first_of(file_blocks@, index as int, b)
                &&& forall|i: int| 0 <= i < index ==> !is_first_of(file_blocks@, i, b)
            },
{
    let files: usize = file_blocks.len();
    let mut first: Vec<usize> = Vec::new();
    let mut b: usize = 0;
    while b < blocks
        invariant
            b <= blocks,
            first@.len() == b,
            forall|k: int| 0 <= k < b ==> #[trigger] first@[k] == files,
        decreases blocks - b,
    {
        first.push(files);
        b = b + 1;
    }
    let mut i: usize = 0;
    while i < files
        invariant
            i <= files == file_blocks@.len(),
            first@.len() == blocks,
            forall|b: int|
                0 <= b < blocks ==> {
                    let index = #[trigger] first@[b];
                    &&& index < i ==> is_first_of(file_blocks@, index as int, b)
                    &&& index >= i ==> index == files
                    &&& forall|k: int| 0 <= k < index && k < i ==> !is_first_of(file_blocks@, k, b)
                },
        decreases files - i,
    {
        match file_blocks[i] {
            Some((block, place)) => {
                if place == 0 && block < blocks && first[block] == files {
                    first.set(block, i);
                }
            },
            None => {},
        }
        i = i + 1;
    }
    first
}

/// Among more entries there are no fewer files with a stream.
pub proof fn lemma_streams_before_grows(entries: Seq<ArchiveEntry>, fewer: int, more: int)
    requires
        fewer <= more,
    ensures
        streams_before(entries, fewer) <= streams_before(entries, more),
    decreases more - fewer,
{
    if fewer < more {
        lemma_streams_before_grows(entries, fewer, more - 1);
    }
}

/// More blocks hold no fewer files.
pub proof fn lemma_held_before_grows(blocks: Seq<Block>, fewer: int, more: int)
    requires
        0 <= fewer <= more <= blocks.len(),
    ensures
        held_before(blocks, fewer) <= held_before(blocks, more),
    decreases more - fewer,
{
    if fewer < more {
        lemma_held_before_grows(blocks, fewer, more - 1);
        assert(blocks.take(more).drop_last() =~= blocks.take(more - 1));
    }
}

} // verus!
