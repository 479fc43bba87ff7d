//! The packed streams of an archive: where the pack area starts, and the size
//! and checksum of each stream in it.

use vstd::prelude::*;
use crate::archive::{K_CRC, K_END, K_PACK_INFO, K_SIZE};
use crate::bitset::BitSet;
use crate::writer::bytes::{
    bitset_to_bytes,
    le32_all,
    packed_bits,
    selected,
    vec_push_le_u32,
    write_all_le32,
};
use crate::writer::varint::{encoded_all, encoded_u64, write_all_encoded, write_encoded_u64};

verus! {

/// Which of `crcs` count as present: a stored checksum of zero stands for none.
pub open spec fn defined_flags(crcs: Seq<u32>) -> Seq<bool> {
    Seq::new(crcs.len(), |i: int| crcs[i] != 0)
}

/// A digest section: one byte that says whether every checksum is present; if
/// not, one bit per checksum; then the checksums that are present.
pub open spec fn digests_bytes(crcs: Seq<u32>) -> Seq<u8> {
    let defined = defined_flags(crcs);
    if forall|i: int| 0 <= i < crcs.len() ==> crcs[i] != 0 {
        seq![1u8] + le32_all(crcs)
    } else {
        seq![0u8] + packed_bits(defined) + le32_all(selected(defined, crcs))
    }
}

/// The pack-info section for streams that start at `pos`.
pub open spec fn pack_info_bytes(pos: u64, sizes: Seq<u64>, crcs: Seq<u32>) -> Seq<u8> {
    seq![K_PACK_INFO] + encoded_u64(pos) + encoded_u64(sizes.len() as u64) + seq![K_SIZE]
        + encoded_all(sizes) + seq![K_CRC] + digests_bytes(crcs) + seq![K_END]
}

/// The packed streams recorded so far.
#[derive(Debug)]
pub struct PackInfo {
    /// The CRC-32 of each packed stream; zero stands for none.
    pub crcs: Vec<u32>,
    /// The length of each packed stream.
    pub sizes: Vec<u64>,
    /// Where the first packed stream starts, counted from the end of the
    /// signature header.
    pub pos: u64,
}

impl Default for PackInfo {
    fn default() -> (info: Self)
        ensures
            info.crcs@.len() == 0,
            info.sizes@.len() == 0,
            info.pos == 0,
    {
        PackInfo { crcs: Vec::new(), sizes: Vec::new(), pos: 0 }
    }
}

impl PackInfo {
    /// The section that `write_to` appends.
    pub open spec fn spec_bytes(&self) -> Seq<u8> {
        pack_info_bytes(self.pos, self.sizes@, self.crcs@)
    }

    /// Records one more packed stream.
    pub fn add_stream(&mut self, size: u64, crc: u32)
        ensures
            final(self).sizes@ == old(self).sizes@.push(size),
            final(self).crcs@ == old(self).crcs@.push(crc),
            final(self).pos == old(self).pos,
    {
        self.sizes.push(size);
        self.crcs.push(crc);
    }

    /// The number of packed streams.
    pub fn len(&self) -> (count: usize)
        ensures
            count == self.sizes@.len(),
    {
        self.sizes.len()
    }

    /// Appends the pack-info section to `header`.
    pub fn write_to(&self, header: &mut Vec<u8>)
        ensures
            final(header)@ == old(header)@ + self.spec_bytes(),
    {
        header.push(K_PACK_INFO);
        write_encoded_u64(header, self.pos);
        write_encoded_u64(header, self.len() as u64);
        header.push(K_SIZE);
        write_all_encoded(header, &self.sizes);
        header.push(K_CRC);
        let ghost before = header@;
        write_digests(header, &self.crcs);
        header.push(K_END);
        assert(header@ =~= old(header)@ + self.spec_bytes());
    }
}

/// Appends the digest section for `crcs`.
pub fn write_digests(header: &mut Vec<u8>, crcs: &Vec<u32>)
    ensures
        final(header)@ == old(header)@ + digests_bytes(crcs@),
{
    let ghost defined = defined_flags(crcs@);
    let mut all_defined = true;
    let mut i: usize = 0;
    while i < crcs.len()
        invariant
            i <= crcs@.len(),
            all_defined == (forall|j: int| 0 <= j < i ==> crcs@[j] != 0),
        decreases crcs@.len() - i,
    {
        if crcs[i] == 0 {
            all_defined = false;
        }
        i = i + 1;
    }
    if all_defined {
        header.push(1);
        write_all_le32(header, crcs);
        assert(header@ =~= old(header)@ + digests_bytes(crcs@));
    } else {
        header.push(0);
        let mut bits = BitSet::with_capacity(crcs.len());
        let mut i: usize = 0;
        while i < crcs.len()
            invariant
                i <= crcs@.len(),
                forall|j: nat| bits@.contains(j) == (j < i && crcs@[j as int] != 0),
            decreases crcs@.len() - i,
        {
            if crcs[i] != 0 {
                bits.insert(i);
            }
            i = i + 1;
        }
        assert(bits.flags(crcs@.len()) =~= defined);
        let packed = bitset_to_bytes(&bits, crcs.len());
        let mut packed = packed;
        header.append(&mut packed);
        let ghost start = header@;
        let mut i: usize = 0;
        while i < crcs.len()
            invariant
                i <= crcs@.len(),
                defined == defined_flags(crcs@),
                header@ == start + le32_all(selected(defined.take(i as int), crcs@.take(i as int))),
            decreases crcs@.len() - i,
        {
            proof {
                assert(defined.take(i + 1).drop_last() =~= defined.take(i as int));
                assert(crcs@.take(i + 1).drop_last() =~= crcs@.take(i as int));
                let chosen = selected(defined.take(i as int), crcs@.take(i as int));
                if crcs@[i as int] != 0 {
                    assert(chosen.push(crcs@[i as int]).drop_last() =~= chosen);
                }
            }
            if crcs[i] != 0 {
                vec_push_le_u32(header, crcs[i]);
            }
            i = i + 1;
        }
        proof {
            assert(defined.take(crcs@.len() as int) =~= defined);
            assert(crcs@.take(crcs@.len() as int) =~= crcs@);
            assert(header@ =~= old(header)@ + digests_bytes(crcs@));
        }
    }
}

} // verus!
