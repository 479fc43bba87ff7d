//! Reading the streams information of a header: the packed streams, the
//! blocks with their coders, and the files that share each block.

use vstd::prelude::*;
use crate::archive::{
    Coder,
    EncoderConfiguration,
    K_CODERS_UNPACK_SIZE,
    K_CRC,
    K_END,
    K_FOLDER,
    K_PACK_INFO,
    K_SIZE,
    K_UNPACK_INFO,
    copy_bytes,
};
use crate::reader::primitives::{
    count_set,
    lemma_parsed_digests,
    lemma_parsed_fixed_len,
    lemma_selected_spread,
    parsed_fixed,
    parsed_presence,
    lemma_parsed_numbers,
    lemma_parsed_numbers_len,
    parsed_digests,
    parsed_numbers,
    read_digests,
    read_number,
    read_numbers,
};
use crate::writer::bytes::lemma_assoc;
use crate::writer::pack_info::{PackInfo, digests_bytes, pack_info_bytes};
use crate::writer::unpack_info::{
    Block,
    bind_pairs_bytes,
    coder_bytes,
    coder_fits,
    coders_bytes,
    coders_fit,
    coders_of,
    lemma_coders_fit_build,
    lemma_coders_fit_front,
    folder_bytes,
    folders_bytes,
    unpack_info_bytes,
    unpack_sizes_bytes,
};
use vstd::slice::slice_subrange;
use crate::writer::varint::{decoded_u64, encoded_all, encoded_u64, lemma_decode_encode};

verus! {

/// Whether `bytes` has the tag `nid` at position `at`.
pub open spec fn tag_at(bytes: Seq<u8>, at: nat, nid: u8) -> bool {
    at < bytes.len() && bytes[at as int] == nid
}

/// The `count` bytes from position `from`.
pub open spec fn part(bytes: Seq<u8>, from: nat, count: nat) -> Seq<u8> {
    bytes.subrange(from as int, (from + count) as int)
}

/// What follows the first `count` bytes.
pub open spec fn after(bytes: Seq<u8>, count: nat) -> Seq<u8> {
    bytes.skip(count as int)
}

/// Whether `bytes` has the tag `nid` at position `pos`.
pub fn has_tag(bytes: &[u8], pos: usize, nid: u8) -> (found: bool)
    ensures
        found == tag_at(bytes@, pos as nat, nid),
        found ==> pos < bytes@.len() <= usize::MAX,
{
    pos < bytes.len() && bytes[pos] == nid
}

/// The packed streams of an archive as a pack-info section describes them.
pub struct PackStreams {
    pub pos: u64,
    pub sizes: Seq<u64>,
    pub crcs: Seq<u32>,
}

/// A pack-info section: the position of the pack area, the number of packed
/// streams, their sizes, and their checksums where the section has them.
pub open spec fn parsed_pack_info(bytes: Seq<u8>) -> Option<(PackStreams, nat)> {
    if !tag_at(bytes, 0, K_PACK_INFO) {
        None
    } else {
        match decoded_u64(after(bytes, 1)) {
            None => None,
            Some((pos, a)) => match decoded_u64(after(bytes, 1 + a)) {
                None => None,
                Some((count, b)) => {
                    let sizes_at = 1 + a + b;
                    if !tag_at(bytes, sizes_at, K_SIZE) {
                        None
                    } else {
                        match parsed_numbers(after(bytes, sizes_at + 1), count as nat) {
                            None => None,
                            Some((sizes, c)) => parsed_pack_digests(
                                bytes,
                                sizes_at + 1 + c,
                                pos,
                                sizes,
                            ),
                        }
                    }
                },
            },
        }
    }
}

/// The end of a pack-info section, from position `at`: the checksums of the
/// streams, or none, and the end tag.
pub open spec fn parsed_pack_digests(bytes: Seq<u8>, at: nat, pos: u64, sizes: Seq<u64>) -> Option<
    (PackStreams, nat),
> {
    if tag_at(bytes, at, K_CRC) {
        match parsed_digests(after(bytes, at + 1), sizes.len()) {
            None => None,
            Some((crcs, d)) => if tag_at(bytes, at + 1 + d, K_END) {
                Some((PackStreams { pos, sizes, crcs }, at + 1 + d + 1))
            } else {
                None
            },
        }
    } else if tag_at(bytes, at, K_END) {
        Some((PackStreams { pos, sizes, crcs: Seq::new(sizes.len(), |i: int| 0u32) }, at + 1))
    } else {
        None
    }
}

/// Behind a piece that stands at `at` comes what follows the piece.
pub proof fn lemma_after(bytes: Seq<u8>, at: nat, piece: Seq<u8>, rest: Seq<u8>)
    requires
        at <= bytes.len(),
        after(bytes, at) == piece + rest,
    ensures
        at + piece.len() <= bytes.len(),
        after(bytes, at + piece.len()) == rest,
{
    assert((piece + rest).len() == bytes.len() - at);
    assert(after(bytes, at + piece.len()) =~= (piece + rest).skip(piece.len() as int));
    assert((piece + rest).skip(piece.len() as int) =~= rest);
}

/// A piece that stands at `at` is the part of its length there.
pub proof fn lemma_part(bytes: Seq<u8>, at: nat, piece: Seq<u8>, rest: Seq<u8>)
    requires
        at <= bytes.len(),
        after(bytes, at) == piece + rest,
    ensures
        part(bytes, at, piece.len()) == piece,
{
    assert((piece + rest).len() == bytes.len() - at);
    assert(part(bytes, at, piece.len()) =~= (piece + rest).take(piece.len() as int));
    assert((piece + rest).take(piece.len() as int) =~= piece);
}

/// A tag that stands at `at` is found there, and behind it comes what follows.
pub proof fn lemma_tag(bytes: Seq<u8>, at: nat, nid: u8, rest: Seq<u8>)
    requires
        at <= bytes.len(),
        after(bytes, at) == seq![nid] + rest,
    ensures
        tag_at(bytes, at, nid),
        at + 1 <= bytes.len(),
        after(bytes, at + 1) == rest,
{
    lemma_after(bytes, at, seq![nid], rest);
    assert((seq![nid] + rest)[0] == nid);
    assert(after(bytes, at)[0] == bytes[at as int]);
}

/// Reading the pack-info section that the writer makes gives the streams back.
#[verifier::rlimit(50)]
pub proof fn lemma_parsed_pack_info(pos: u64, sizes: Seq<u64>, crcs: Seq<u32>, rest: Seq<u8>)
    requires
        sizes.len() == crcs.len(),
        sizes.len() <= usize::MAX,
    ensures
        parsed_pack_info(pack_info_bytes(pos, sizes, crcs) + rest) == Some(
            (PackStreams { pos, sizes, crcs }, pack_info_bytes(pos, sizes, crcs).len()),
        ),
{
    let count = sizes.len() as u64;
    let x0 = seq![K_PACK_INFO];
    let x1 = encoded_u64(pos);
    let x2 = encoded_u64(count);
    let x3 = seq![K_SIZE];
    let x4 = encoded_all(sizes);
    let x5 = seq![K_CRC];
    let x6 = digests_bytes(crcs);
    let x7 = seq![K_END];
    let r7 = x7 + rest;
    let r6 = x6 + r7;
    let r5 = x5 + r6;
    let r4 = x4 + r5;
    let r3 = x3 + r4;
    let r2 = x2 + r3;
    let r1 = x1 + r2;
    let bytes = pack_info_bytes(pos, sizes, crcs) + rest;
    assert(bytes == x0 + r1) by {
        lemma_assoc(x0 + x1 + x2 + x3 + x4 + x5 + x6, x7, rest);
        lemma_assoc(x0 + x1 + x2 + x3 + x4 + x5, x6, r7);
        lemma_assoc(x0 + x1 + x2 + x3 + x4, x5, r6);
        lemma_assoc(x0 + x1 + x2 + x3, x4, r5);
        lemma_assoc(x0 + x1 + x2, x3, r4);
        lemma_assoc(x0 + x1, x2, r3);
        lemma_assoc(x0, x1, r2);
    }
    assert(after(bytes, 0) =~= bytes);
    lemma_tag(bytes, 0, K_PACK_INFO, r1);
    lemma_decode_encode(pos, r2);
    lemma_after(bytes, 1, x1, r2);
    let a = x1.len();
    lemma_decode_encode(count, r3);
    lemma_after(bytes, 1 + a, x2, r3);
    let b = x2.len();
    let sizes_at = 1 + a + b;
    lemma_tag(bytes, sizes_at, K_SIZE, r4);
    lemma_parsed_numbers(sizes, r5);
    lemma_after(bytes, sizes_at + 1, x4, r5);
    let at = sizes_at + 1 + x4.len();
    lemma_tag(bytes, at, K_CRC, r6);
    lemma_parsed_digests(crcs, r7);
    lemma_after(bytes, at + 1, x6, r7);
    lemma_tag(bytes, at + 1 + x6.len(), K_END, rest);
    assert(pack_info_bytes(pos, sizes, crcs).len() == at + 1 + x6.len() + 1);
}

/// A pack-info section at position `pos`.
#[verifier::rlimit(50)]
pub fn read_pack_info(bytes: &[u8], pos: usize) -> (found: Option<(PackInfo, usize)>)
    requires
        pos <= bytes@.len(),
    ensures
        match parsed_pack_info(bytes@.skip(pos as int)) {
            Some((streams, taken)) => {
                &&& found is Some
                &&& (found->0).0.pos == streams.pos
                &&& (found->0).0.sizes@ == streams.sizes
                &&& (found->0).0.crcs@ == streams.crcs
                &&& (found->0).1 == pos + taken
                &&& pos + taken <= bytes@.len()
            },
            None => found is None,
        },
{
    let ghost here = bytes@.skip(pos as int);
    let len: usize = bytes.len();
    assert(tag_at(here, 0, K_PACK_INFO) == tag_at(bytes@, pos as nat, K_PACK_INFO));
    if !has_tag(bytes, pos, K_PACK_INFO) {
        return None;
    }
    assert(here.skip(1) =~= bytes@.skip(pos + 1));
    let (pack_pos, at) = match read_number(bytes, pos + 1) {
        Some(found) => found,
        None => {
            return None;
        },
    };
    assert(here.skip(at - pos) =~= bytes@.skip(at as int));
    let (count, at) = match read_number(bytes, at) {
        Some(found) => found,
        None => {
            return None;
        },
    };
    assert(tag_at(here, (at - pos) as nat, K_SIZE) == tag_at(bytes@, at as nat, K_SIZE));
    if !has_tag(bytes, at, K_SIZE) {
        return None;
    }
    assert(here.skip(at - pos + 1) =~= bytes@.skip(at + 1));
    let (sizes, at) = match read_numbers(bytes, at + 1, count) {
        Some(found) => found,
        None => {
            return None;
        },
    };
    assert(tag_at(here, (at - pos) as nat, K_CRC) == tag_at(bytes@, at as nat, K_CRC));
    assert(tag_at(here, (at - pos) as nat, K_END) == tag_at(bytes@, at as nat, K_END));
    if has_tag(bytes, at, K_CRC) {
        assert(here.skip(at - pos + 1) =~= bytes@.skip(at + 1));
        let (crcs, end) = match read_digests(bytes, at + 1, sizes.len() as u64) {
            Some(found) => found,
            None => {
                return None;
            },
        };
        assert(tag_at(here, (end - pos) as nat, K_END) == tag_at(bytes@, end as nat, K_END));
        if !has_tag(bytes, end, K_END) {
            return None;
        }
        Some((PackInfo { crcs, sizes, pos: pack_pos }, end + 1))
    } else if has_tag(bytes, at, K_END) {
        let mut crcs: Vec<u32> = Vec::new();
        let mut i: usize = 0;
        while i < sizes.len()
            invariant
                i <= sizes@.len(),
                crcs@ == Seq::new(i as nat, |k: int| 0u32),
            decreases sizes@.len() - i,
        {
            crcs.push(0);
            i = i + 1;
            assert(crcs@ =~= Seq::new(i as nat, |k: int| 0u32));
        }
        Some((PackInfo { crcs, sizes, pos: pack_pos }, at + 1))
    } else {
        None
    }
}

/// One coder descriptor. A coder with more than one input or output is not
/// read, nor one whose flags have the reserved bit `0x40`; the bit `0x80` is
/// passed over. Properties of no bytes count as none.
pub open spec fn parsed_coder(bytes: Seq<u8>) -> Option<(Coder, nat)> {
    if bytes.len() == 0 {
        None
    } else {
        let flags = bytes[0];
        let id_len = (flags % 16) as nat;
        if id_len == 0 || (flags / 16) % 2 == 1 || (flags / 64) % 2 == 1 || bytes.len() < 1
            + id_len {
            None
        } else {
            let id = part(bytes, 1, id_len);
            if (flags / 32) % 2 == 1 {
                match decoded_u64(after(bytes, 1 + id_len)) {
                    None => None,
                    Some((size, c)) => {
                        let from = 1 + id_len + c;
                        if bytes.len() < from + size {
                            None
                        } else {
                            Some(
                                (
                                    Coder { id, properties: part(bytes, from, size as nat) },
                                    from + size as nat,
                                ),
                            )
                        }
                    },
                }
            } else {
                Some((Coder { id, properties: Seq::empty() }, 1 + id_len))
            }
        }
    }
}

/// Reading the descriptor that the writer makes of a coder gives the coder
/// back.
#[verifier::rlimit(50)]
pub proof fn lemma_parsed_coder(coder: Coder, rest: Seq<u8>)
    requires
        coder_fits(coder),
    ensures
        parsed_coder(coder_bytes(coder) + rest) == Some((coder, coder_bytes(coder).len())),
{
    let bytes = coder_bytes(coder) + rest;
    let n = coder.id.len();
    assert(after(bytes, 0) =~= bytes);
    if coder.properties.len() == 0 {
        let flags = n as u8;
        let r1 = coder.id + rest;
        assert(bytes == seq![flags] + r1) by {
            lemma_assoc(seq![flags], coder.id, rest);
        }
        lemma_tag(bytes, 0, flags, r1);
        lemma_part(bytes, 1, coder.id, rest);
        lemma_after(bytes, 1, coder.id, rest);
        assert(coder.properties =~= Seq::<u8>::empty());
        assert(coder_bytes(coder).len() == 1 + n);
    } else {
        let flags = (n + 0x20) as u8;
        let size = encoded_u64(coder.properties.len() as u64);
        let r3 = coder.properties + rest;
        let r2 = size + r3;
        let r1 = coder.id + r2;
        assert(bytes == seq![flags] + r1) by {
            lemma_assoc(seq![flags] + coder.id + size, coder.properties, rest);
            lemma_assoc(seq![flags] + coder.id, size, r3);
            lemma_assoc(seq![flags], coder.id, r2);
        }
        lemma_tag(bytes, 0, flags, r1);
        lemma_part(bytes, 1, coder.id, r2);
        lemma_after(bytes, 1, coder.id, r2);
        lemma_decode_encode(coder.properties.len() as u64, r3);
        lemma_after(bytes, 1 + n, size, r3);
        let from = 1 + n + size.len();
        lemma_part(bytes, from, coder.properties, rest);
        lemma_after(bytes, from, coder.properties, rest);
        assert(coder_bytes(coder).len() == from + coder.properties.len());
    }
}

/// What is read as a coder has an id of one to fifteen bytes.
pub proof fn lemma_parsed_coder_shape(bytes: Seq<u8>)
    requires
        parsed_coder(bytes) is Some,
    ensures
        coder_fits((parsed_coder(bytes)->0).0),
        2 <= (parsed_coder(bytes)->0).1 <= bytes.len(),
{
}

/// One coder descriptor at position `pos`.
#[verifier::rlimit(50)]
pub fn read_coder(bytes: &[u8], pos: usize) -> (found: Option<(EncoderConfiguration, usize)>)
    requires
        pos <= bytes@.len(),
    ensures
        match parsed_coder(bytes@.skip(pos as int)) {
            Some((coder, taken)) => found is Some && (found->0).0@ == coder && (found->0).1 == pos
                + taken && pos + taken <= bytes@.len(),
            None => found is None,
        },
{
    let ghost here = bytes@.skip(pos as int);
    let len: usize = bytes.len();
    if pos >= len {
        return None;
    }
    let flags: u8 = bytes[pos];
    assert(here[0] == flags);
    let id_len: usize = (flags % 16) as usize;
    if id_len == 0 || (flags / 16) % 2 == 1 || (flags / 64) % 2 == 1 || len - pos < 1 + id_len {
        return None;
    }
    let id = copy_bytes(slice_subrange(bytes, pos + 1, pos + 1 + id_len));
    assert(id@ =~= part(here, 1, id_len as nat));
    if (flags / 32) % 2 == 1 {
        assert(after(here, (1 + id_len) as nat) =~= bytes@.skip(pos + 1 + id_len));
        let (size, from) = match read_number(bytes, pos + 1 + id_len) {
            Some(found) => found,
            None => {
                return None;
            },
        };
        if size > (len - from) as u64 {
            return None;
        }
        let size: usize = size as usize;
        let properties = copy_bytes(slice_subrange(bytes, from, from + size));
        assert(properties@ =~= part(here, (from - pos) as nat, size as nat));
        match EncoderConfiguration::from_id(id, properties) {
            Some(coder) => Some((coder, from + size)),
            None => None,
        }
    } else {
        match EncoderConfiguration::from_id(id, Vec::new()) {
            Some(coder) => Some((coder, pos + 1 + id_len)),
            None => None,
        }
    }
}

/// `count` coder descriptors, one behind the other.
pub open spec fn parsed_coders(bytes: Seq<u8>, count: nat) -> Option<(Seq<Coder>, nat)>
    decreases count,
{
    if count == 0 {
        Some((Seq::empty(), 0))
    } else {
        match parsed_coder(bytes) {
            None => None,
            Some((first, taken)) => match parsed_coders(after(bytes, taken), (count - 1) as nat) {
                None => None,
                Some((others, more)) => Some((seq![first] + others, taken + more)),
            },
        }
    }
}

/// A list of descriptors starts with the descriptor of its first coder.
#[verifier::rlimit(50)]
pub proof fn lemma_coders_bytes_front(coders: Seq<Coder>)
    requires
        coders.len() > 0,
    ensures
        coders_bytes(coders) == coder_bytes(coders[0]) + coders_bytes(coders.skip(1)),
    decreases coders.len(),
{
    if coders.len() == 1 {
        assert(coders.drop_last() =~= Seq::<Coder>::empty());
        assert(coders.skip(1) =~= Seq::<Coder>::empty());
        assert(coders_bytes(coders) =~= coder_bytes(coders[0]) + coders_bytes(coders.skip(1)));
    } else {
        lemma_coders_bytes_front(coders.drop_last());
        assert(coders.drop_last().skip(1) =~= coders.skip(1).drop_last());
        assert(coders.drop_last()[0] == coders[0]);
        assert(coders.skip(1).last() == coders.last());
        lemma_assoc(
            coder_bytes(coders[0]),
            coders_bytes(coders.skip(1).drop_last()),
            coder_bytes(coders.last()),
        );
    }
}

/// Reading the descriptors that the writer makes of a chain gives the chain
/// back.
#[verifier::rlimit(50)]
pub proof fn lemma_parsed_coders(coders: Seq<Coder>, rest: Seq<u8>)
    requires
        coders_fit(coders),
    ensures
        parsed_coders(coders_bytes(coders) + rest, coders.len()) == Some(
            (coders, coders_bytes(coders).len()),
        ),
    decreases coders.len(),
{
    if coders.len() == 0 {
        assert(coders_bytes(coders).len() == 0);
        assert(coders =~= Seq::<Coder>::empty());
    } else {
        let first = coder_bytes(coders[0]);
        let others = coders_bytes(coders.skip(1));
        let bytes = coders_bytes(coders) + rest;
        lemma_coders_bytes_front(coders);
        lemma_assoc(first, others, rest);
        lemma_coders_fit_front(coders);
        lemma_parsed_coder(coders[0], others + rest);
        assert(after(bytes, 0) =~= bytes);
        lemma_after(bytes, 0, first, others + rest);
        lemma_parsed_coders(coders.skip(1), rest);
        assert(seq![coders[0]] + coders.skip(1) =~= coders);
    }
}

/// What is read as a chain has as many coders as were asked for, each with an
/// id of one to fifteen bytes, and takes at least two bytes for each.
#[verifier::rlimit(50)]
pub proof fn lemma_parsed_coders_shape(bytes: Seq<u8>, count: nat)
    requires
        parsed_coders(bytes, count) is Some,
    ensures
        (parsed_coders(bytes, count)->0).0.len() == count,
        coders_fit((parsed_coders(bytes, count)->0).0),
        2 * count <= (parsed_coders(bytes, count)->0).1 <= bytes.len(),
    decreases count,
{
    if count > 0 {
        lemma_parsed_coder_shape(bytes);
        let taken = (parsed_coder(bytes)->0).1;
        lemma_parsed_coders_shape(after(bytes, taken), (count - 1) as nat);
        let first = (parsed_coder(bytes)->0).0;
        let others = (parsed_coders(after(bytes, taken), (count - 1) as nat)->0).0;
        lemma_coders_fit_build(first, others);
    } else {
        reveal(coders_fit);
    }
}

/// `count` coder descriptors at position `pos`.
#[verifier::rlimit(50)]
pub fn read_coders(bytes: &[u8], pos: usize, count: u64) -> (found: Option<
    (Vec<EncoderConfiguration>, usize),
>)
    requires
        pos <= bytes@.len(),
    ensures
        match parsed_coders(bytes@.skip(pos as int), count as nat) {
            Some((coders, taken)) => found is Some && coders_of((found->0).0@) == coders && (
            found->0).1 == pos + taken && pos + taken <= bytes@.len(),
            None => found is None,
        },
{
    let ghost start = bytes@.skip(pos as int);
    let mut coders: Vec<EncoderConfiguration> = Vec::new();
    let mut at: usize = pos;
    let mut left: u64 = count;
    while left > 0
        invariant
            pos <= at <= bytes@.len(),
            start == bytes@.skip(pos as int),
            parsed_coders(start, count as nat) == match parsed_coders(
                bytes@.skip(at as int),
                left as nat,
            ) {
                Some((others, more)) => Some(
                    (coders_of(coders@) + others, (at - pos + more) as nat),
                ),
                None => None,
            },
        decreases left,
    {
        let ghost here = bytes@.skip(at as int);
        match read_coder(bytes, at) {
            None => {
                return None;
            },
            Some((coder, next)) => {
                proof {
                    assert(after(here, (next - at) as nat) =~= bytes@.skip(next as int));
                    match parsed_coders(bytes@.skip(next as int), (left - 1) as nat) {
                        Some((others, more)) => {
                            assert(coders_of(coders@) + (seq![coder@] + others) =~= coders_of(
                                coders@.push(coder),
                            ) + others);
                        },
                        None => {},
                    }
                }
                coders.push(coder);
                at = next;
                left = left - 1;
            },
        }
    }
    proof {
        assert(coders_of(coders@) + Seq::<Coder>::empty() =~= coders_of(coders@));
    }
    Some((coders, at))
}

/// The numbers of the bind pairs of a linear chain with `count + 1` coders:
/// for each coder but the last, the index of its input, which is the next
/// coder's, and the index of its output.
pub open spec fn bind_pair_numbers(count: nat) -> Seq<u64> {
    Seq::new(
        2 * count,
        |k: int|
            if k % 2 == 0 {
                (k / 2 + 1) as u64
            } else {
                (k / 2) as u64
            },
    )
}

/// The bind pairs that the writer makes are the encodings of their numbers.
pub proof fn lemma_bind_pairs_bytes(count: nat)
    ensures
        bind_pairs_bytes(count) == encoded_all(bind_pair_numbers(count)),
    decreases count,
{
    let numbers = bind_pair_numbers(count);
    if count == 0 {
        assert(numbers =~= Seq::<u64>::empty());
    } else {
        lemma_bind_pairs_bytes((count - 1) as nat);
        let before = bind_pair_numbers((count - 1) as nat);
        let middle = numbers.drop_last();
        assert(numbers.len() == 2 * count);
        assert(middle.len() == 2 * count - 1);
        assert(middle.drop_last() =~= before);
        assert(numbers[2 * count - 1] == (count - 1) as u64);
        assert(numbers[2 * count - 2] == count as u64);
        assert(numbers.last() == (count - 1) as u64);
        assert(middle.last() == count as u64);
        assert(encoded_all(numbers) == encoded_all(middle) + encoded_u64(numbers.last()));
        assert(encoded_all(middle) == encoded_all(before) + encoded_u64(middle.last()));
    }
}

/// A folder: the number of coders, the coders, and the bind pairs of a linear
/// chain. A folder without coders is not read, nor one that is chained in
/// another way.
pub open spec fn parsed_folder(bytes: Seq<u8>) -> Option<(Seq<Coder>, nat)> {
    match decoded_u64(bytes) {
        None => None,
        Some((count, a)) => if count == 0 {
            None
        } else {
            match parsed_coders(after(bytes, a), count as nat) {
                None => None,
                Some((coders, b)) => match parsed_numbers(
                    after(bytes, a + b),
                    (2 * (count - 1)) as nat,
                ) {
                    None => None,
                    Some((pairs, c)) => if pairs == bind_pair_numbers((count - 1) as nat) {
                        Some((coders, a + b + c))
                    } else {
                        None
                    },
                },
            }
        },
    }
}

/// Reading the folder that the writer makes of a chain gives the chain back.
#[verifier::rlimit(50)]
pub proof fn lemma_parsed_folder(coders: Seq<Coder>, rest: Seq<u8>)
    requires
        1 <= coders.len() <= usize::MAX,
        coders_fit(coders),
    ensures
        parsed_folder(folder_bytes(coders) + rest) == Some((coders, folder_bytes(coders).len())),
{
    let count = coders.len() as u64;
    let x0 = encoded_u64(count);
    let x1 = coders_bytes(coders);
    let x2 = bind_pairs_bytes((coders.len() - 1) as nat);
    let r2 = x2 + rest;
    let r1 = x1 + r2;
    let bytes = folder_bytes(coders) + rest;
    assert(bytes == x0 + r1) by {
        lemma_assoc(x0 + x1, x2, rest);
        lemma_assoc(x0, x1, r2);
    }
    assert(after(bytes, 0) =~= bytes);
    lemma_decode_encode(count, r1);
    lemma_after(bytes, 0, x0, r1);
    lemma_parsed_coders(coders, r2);
    lemma_after(bytes, x0.len(), x1, r2);
    lemma_bind_pairs_bytes((coders.len() - 1) as nat);
    lemma_parsed_numbers(bind_pair_numbers((coders.len() - 1) as nat), rest);
}

/// A folder at position `pos`.
#[verifier::rlimit(50)]
pub fn read_folder(bytes: &[u8], pos: usize) -> (found: Option<(Vec<EncoderConfiguration>, usize)>)
    requires
        pos <= bytes@.len(),
    ensures
        match parsed_folder(bytes@.skip(pos as int)) {
            Some((coders, taken)) => found is Some && coders_of((found->0).0@) == coders && (
            found->0).1 == pos + taken && pos + taken <= bytes@.len(),
            None => found is None,
        },
{
    let ghost here = bytes@.skip(pos as int);
    let (count, at) = match read_number(bytes, pos) {
        Some(found) => found,
        None => {
            return None;
        },
    };
    if count == 0 {
        return None;
    }
    assert(after(here, (at - pos) as nat) =~= bytes@.skip(at as int));
    let (coders, at) = match read_coders(bytes, at, count) {
        Some(found) => found,
        None => {
            return None;
        },
    };
    proof {
        let a = (decoded_u64(here)->0).1;
        lemma_parsed_coders_shape(after(here, a), count as nat);
    }
    assert(after(here, (at - pos) as nat) =~= bytes@.skip(at as int));
    let (pairs, end) = match read_numbers(bytes, at, 2 * (count - 1)) {
        Some(found) => found,
        None => {
            return None;
        },
    };
    proof {
        lemma_parsed_numbers_len(bytes@.skip(at as int), (2 * (count - 1)) as nat);
    }
    let ghost expected_pairs = bind_pair_numbers((count - 1) as nat);
    assert(parsed_folder(here) == if pairs@ == expected_pairs {
        Some((coders_of(coders@), (end - pos) as nat))
    } else {
        None
    });
    let mut k: usize = 0;
    while k < pairs.len()
        invariant
            k <= pairs@.len() == 2 * (count - 1),
            here == bytes@.skip(pos as int),
            expected_pairs == bind_pair_numbers((count - 1) as nat),
            forall|j: int| 0 <= j < k ==> pairs@[j] == expected_pairs[j],
            parsed_folder(here) == if pairs@ == expected_pairs {
                Some((coders_of(coders@), (end - pos) as nat))
            } else {
                None
            },
            pos <= end <= bytes@.len(),
        decreases pairs@.len() - k,
    {
        let expected: u64 = if k % 2 == 0 {
            (k / 2 + 1) as u64
        } else {
            (k / 2) as u64
        };
        if pairs[k] != expected {
            assert(pairs@[k as int] != expected_pairs[k as int]);
            return None;
        }
        k = k + 1;
    }
    assert(pairs@ =~= expected_pairs);
    Some((coders, end))
}

/// The folders of `count` blocks, one behind the other.
pub open spec fn parsed_folders(bytes: Seq<u8>, count: nat) -> Option<(Seq<Seq<Coder>>, nat)>
    decreases count,
{
    if count == 0 {
        Some((Seq::empty(), 0))
    } else {
        match parsed_folder(bytes) {
            None => None,
            Some((first, taken)) => match parsed_folders(after(bytes, taken), (count - 1) as nat) {
                None => None,
                Some((others, more)) => Some((seq![first] + others, taken + more)),
            },
        }
    }
}

/// The coder chains of `blocks`.
pub open spec fn chains_of(blocks: Seq<Block>) -> Seq<Seq<Coder>> {
    Seq::new(blocks.len(), |i: int| blocks[i].coders)
}

/// The sizes along the coder chains of `blocks`.
pub open spec fn sizes_of(blocks: Seq<Block>) -> Seq<Seq<u64>> {
    Seq::new(blocks.len(), |i: int| blocks[i].sizes)
}

/// The folders of a list of blocks start with the folder of the first block.
#[verifier::rlimit(50)]
pub proof fn lemma_folders_bytes_front(blocks: Seq<Block>)
    requires
        blocks.len() > 0,
    ensures
        folders_bytes(blocks) == folder_bytes(blocks[0].coders) + folders_bytes(blocks.skip(1)),
        unpack_sizes_bytes(blocks) == encoded_all(blocks[0].sizes) + unpack_sizes_bytes(
            blocks.skip(1),
        ),
    decreases blocks.len(),
{
    if blocks.len() == 1 {
        assert(blocks.drop_last() =~= Seq::<Block>::empty());
        assert(blocks.skip(1) =~= Seq::<Block>::empty());
        assert(folders_bytes(blocks) =~= folder_bytes(blocks[0].coders) + folders_bytes(
            blocks.skip(1),
        ));
        assert(unpack_sizes_bytes(blocks) =~= encoded_all(blocks[0].sizes) + unpack_sizes_bytes(
            blocks.skip(1),
        ));
    } else {
        lemma_folders_bytes_front(blocks.drop_last());
        assert(blocks.drop_last().skip(1) =~= blocks.skip(1).drop_last());
        assert(blocks.drop_last()[0] == blocks[0]);
        assert(blocks.skip(1).last() == blocks.last());
        lemma_assoc(
            folder_bytes(blocks[0].coders),
            folders_bytes(blocks.skip(1).drop_last()),
            folder_bytes(blocks.last().coders),
        );
        lemma_assoc(
            encoded_all(blocks[0].sizes),
            unpack_sizes_bytes(blocks.skip(1).drop_last()),
            encoded_all(blocks.last().sizes),
        );
    }
}

/// Whether a block has a chain of at least one coder that fits, and one size
/// for each coder.
pub open spec fn chain_fits(block: Block) -> bool {
    &&& 1 <= block.coders.len() <= usize::MAX
    &&& coders_fit(block.coders)
    &&& block.sizes.len() == block.coders.len()
}

/// Whether the chain of every block fits.
#[verifier::opaque]
pub open spec fn chains_fit(blocks: Seq<Block>) -> bool {
    forall|i: int| 0 <= i < blocks.len() ==> chain_fits(#[trigger] blocks[i])
}

/// Where every chain fits, the first does and so do the others.
pub proof fn lemma_chains_fit_front(blocks: Seq<Block>)
    requires
        chains_fit(blocks),
        blocks.len() > 0,
    ensures
        chain_fits(blocks[0]),
        chains_fit(blocks.skip(1)),
        chains_of(blocks).skip(1) == chains_of(blocks.skip(1)),
        seq![blocks[0].coders] + chains_of(blocks.skip(1)) == chains_of(blocks),
        seq![blocks[0].sizes] + sizes_of(blocks.skip(1)) == sizes_of(blocks),
{
    reveal(chains_fit);
    assert forall|i: int| 0 <= i < blocks.skip(1).len() implies chain_fits(
        #[trigger] blocks.skip(1)[i],
    ) by {
        assert(blocks.skip(1)[i] == blocks[i + 1]);
    }
    assert(chains_of(blocks).skip(1) =~= chains_of(blocks.skip(1)));
    assert(seq![blocks[0].coders] + chains_of(blocks.skip(1)) =~= chains_of(blocks));
    assert(seq![blocks[0].sizes] + sizes_of(blocks.skip(1)) =~= sizes_of(blocks));
}

/// Reading the folders that the writer makes gives the coder chains back.
#[verifier::rlimit(50)]
pub proof fn lemma_parsed_folders(blocks: Seq<Block>, rest: Seq<u8>)
    requires
        chains_fit(blocks),
    ensures
        parsed_folders(folders_bytes(blocks) + rest, blocks.len()) == Some(
            (chains_of(blocks), folders_bytes(blocks).len()),
        ),
    decreases blocks.len(),
{
    if blocks.len() == 0 {
        assert(folders_bytes(blocks).len() == 0);
        assert(chains_of(blocks) =~= Seq::<Seq<Coder>>::empty());
    } else {
        let first = folder_bytes(blocks[0].coders);
        let others = folders_bytes(blocks.skip(1));
        let bytes = folders_bytes(blocks) + rest;
        lemma_folders_bytes_front(blocks);
        lemma_assoc(first, others, rest);
        lemma_chains_fit_front(blocks);
        lemma_parsed_folder(blocks[0].coders, others + rest);
        assert(after(bytes, 0) =~= bytes);
        lemma_after(bytes, 0, first, others + rest);
        lemma_parsed_folders(blocks.skip(1), rest);
    }
}

/// The sizes of the coders' outputs for each of `chains`: as many numbers as
/// the chain has coders.
pub open spec fn parsed_chain_sizes(bytes: Seq<u8>, chains: Seq<Seq<Coder>>) -> Option<
    (Seq<Seq<u64>>, nat),
>
    decreases chains.len(),
{
    if chains.len() == 0 {
        Some((Seq::empty(), 0))
    } else {
        match parsed_numbers(bytes, chains[0].len()) {
            None => None,
            Some((first, taken)) => match parsed_chain_sizes(after(bytes, taken), chains.skip(1)) {
                None => None,
                Some((others, more)) => Some((seq![first] + others, taken + more)),
            },
        }
    }
}

/// Reading the sizes that the writer makes gives the sizes back.
#[verifier::rlimit(50)]
pub proof fn lemma_parsed_chain_sizes(blocks: Seq<Block>, rest: Seq<u8>)
    requires
        chains_fit(blocks),
    ensures
        parsed_chain_sizes(unpack_sizes_bytes(blocks) + rest, chains_of(blocks)) == Some(
            (sizes_of(blocks), unpack_sizes_bytes(blocks).len()),
        ),
    decreases blocks.len(),
{
    if blocks.len() == 0 {
        assert(unpack_sizes_bytes(blocks).len() == 0);
        assert(sizes_of(blocks) =~= Seq::<Seq<u64>>::empty());
    } else {
        let first = encoded_all(blocks[0].sizes);
        let others = unpack_sizes_bytes(blocks.skip(1));
        let bytes = unpack_sizes_bytes(blocks) + rest;
        lemma_folders_bytes_front(blocks);
        lemma_assoc(first, others, rest);
        lemma_chains_fit_front(blocks);
        lemma_parsed_numbers(blocks[0].sizes, others + rest);
        assert(after(bytes, 0) =~= bytes);
        lemma_after(bytes, 0, first, others + rest);
        lemma_parsed_chain_sizes(blocks.skip(1), rest);
        assert(chains_of(blocks)[0] == blocks[0].coders);
    }
}

/// An unpack-info section: the folders of the blocks and the sizes along
/// their chains. A section with folders stored elsewhere or with block
/// checksums is not read.
pub open spec fn parsed_unpack_info(bytes: Seq<u8>) -> Option<
    ((Seq<Seq<Coder>>, Seq<Seq<u64>>), nat),
> {
    if !tag_at(bytes, 0, K_UNPACK_INFO) || !tag_at(bytes, 1, K_FOLDER) {
        None
    } else {
        match decoded_u64(after(bytes, 2)) {
            None => None,
            Some((count, a)) => if !tag_at(bytes, 2 + a, 0) {
                None
            } else {
                match parsed_folders(after(bytes, 2 + a + 1), count as nat) {
                    None => None,
                    Some((chains, b)) => {
                        let sizes_at = 2 + a + 1 + b;
                        if !tag_at(bytes, sizes_at, K_CODERS_UNPACK_SIZE) {
                            None
                        } else {
                            match parsed_chain_sizes(after(bytes, sizes_at + 1), chains) {
                                None => None,
                                Some((sizes, c)) => if tag_at(bytes, sizes_at + 1 + c, K_END) {
                                    Some(((chains, sizes), sizes_at + 1 + c + 1))
                                } else {
                                    None
                                },
                            }
                        }
                    },
                }
            },
        }
    }
}

/// Reading the unpack-info section that the writer makes gives the coder
/// chains and the sizes back.
#[verifier::rlimit(50)]
pub proof fn lemma_parsed_unpack_info(blocks: Seq<Block>, rest: Seq<u8>)
    requires
        blocks.len() <= usize::MAX,
        chains_fit(blocks),
    ensures
        parsed_unpack_info(unpack_info_bytes(blocks) + rest) == Some(
            ((chains_of(blocks), sizes_of(blocks)), unpack_info_bytes(blocks).len()),
        ),
{
    let count = blocks.len() as u64;
    let x0 = seq![K_UNPACK_INFO, K_FOLDER];
    let x1 = encoded_u64(count);
    let x2 = seq![0u8];
    let x3 = folders_bytes(blocks);
    let x4 = seq![K_CODERS_UNPACK_SIZE];
    let x5 = unpack_sizes_bytes(blocks);
    let x6 = seq![K_END];
    let r6 = x6 + rest;
    let r5 = x5 + r6;
    let r4 = x4 + r5;
    let r3 = x3 + r4;
    let r2 = x2 + r3;
    let r1 = x1 + r2;
    let bytes = unpack_info_bytes(blocks) + rest;
    assert(bytes == x0 + r1) by {
        lemma_assoc(x0 + x1 + x2 + x3 + x4 + x5, x6, rest);
        lemma_assoc(x0 + x1 + x2 + x3 + x4, x5, r6);
        lemma_assoc(x0 + x1 + x2 + x3, x4, r5);
        lemma_assoc(x0 + x1 + x2, x3, r4);
        lemma_assoc(x0 + x1, x2, r3);
        lemma_assoc(x0, x1, r2);
    }
    assert(after(bytes, 0) =~= bytes);
    assert(x0 =~= seq![K_UNPACK_INFO] + seq![K_FOLDER]);
    lemma_assoc(seq![K_UNPACK_INFO], seq![K_FOLDER], r1);
    lemma_tag(bytes, 0, K_UNPACK_INFO, seq![K_FOLDER] + r1);
    lemma_tag(bytes, 1, K_FOLDER, r1);
    lemma_decode_encode(count, r2);
    lemma_after(bytes, 2, x1, r2);
    let a = x1.len();
    lemma_tag(bytes, 2 + a, 0u8, r3);
    lemma_parsed_folders(blocks, r4);
    lemma_after(bytes, 2 + a + 1, x3, r4);
    let sizes_at = 2 + a + 1 + x3.len();
    lemma_tag(bytes, sizes_at, K_CODERS_UNPACK_SIZE, r5);
    lemma_parsed_chain_sizes(blocks, r6);
    lemma_after(bytes, sizes_at + 1, x5, r6);
    lemma_tag(bytes, sizes_at + 1 + x5.len(), K_END, rest);
    assert(unpack_info_bytes(blocks).len() == sizes_at + 1 + x5.len() + 1);
}

/// The coder chains that a list of chains of configurations stands for.
pub open spec fn chains_view(chains: Seq<Vec<EncoderConfiguration>>) -> Seq<Seq<Coder>> {
    Seq::new(chains.len(), |i: int| coders_of(chains[i]@))
}

/// The lists of sizes as sequences.
pub open spec fn sizes_view(sizes: Seq<Vec<u64>>) -> Seq<Seq<u64>> {
    Seq::new(sizes.len(), |i: int| sizes[i]@)
}

/// The folders of `count` blocks at position `pos`.
#[verifier::rlimit(50)]
pub fn read_folders(bytes: &[u8], pos: usize, count: u64) -> (found: Option<
    (Vec<Vec<EncoderConfiguration>>, usize),
>)
    requires
        pos <= bytes@.len(),
    ensures
        match parsed_folders(bytes@.skip(pos as int), count as nat) {
            Some((chains, taken)) => found is Some && chains_view((found->0).0@) == chains && (
            found->0).1 == pos + taken && pos + taken <= bytes@.len(),
            None => found is None,
        },
{
    let ghost start = bytes@.skip(pos as int);
    let mut chains: Vec<Vec<EncoderConfiguration>> = Vec::new();
    let mut at: usize = pos;
    let mut left: u64 = count;
    while left > 0
        invariant
            pos <= at <= bytes@.len(),
            start == bytes@.skip(pos as int),
            parsed_folders(start, count as nat) == match parsed_folders(
                bytes@.skip(at as int),
                left as nat,
            ) {
                Some((others, more)) => Some(
                    (chains_view(chains@) + others, (at - pos + more) as nat),
                ),
                None => None,
            },
        decreases left,
    {
        let ghost here = bytes@.skip(at as int);
        match read_folder(bytes, at) {
            None => {
                return None;
            },
            Some((chain, next)) => {
                proof {
                    assert(after(here, (next - at) as nat) =~= bytes@.skip(next as int));
                    match parsed_folders(bytes@.skip(next as int), (left - 1) as nat) {
                        Some((others, more)) => {
                            assert(chains_view(chains@) + (seq![coders_of(chain@)] + others)
                                =~= chains_view(chains@.push(chain)) + others);
                        },
                        None => {},
                    }
                }
                chains.push(chain);
                at = next;
                left = left - 1;
            },
        }
    }
    proof {
        assert(chains_view(chains@) + Seq::<Seq<Coder>>::empty() =~= chains_view(chains@));
    }
    Some((chains, at))
}

/// The sizes along each of `chains`, read at position `pos`.
#[verifier::rlimit(50)]
pub fn read_chain_sizes(bytes: &[u8], pos: usize, chains: &Vec<Vec<EncoderConfiguration>>) -> (found:
    Option<(Vec<Vec<u64>>, usize)>)
    requires
        pos <= bytes@.len(),
    ensures
        match parsed_chain_sizes(bytes@.skip(pos as int), chains_view(chains@)) {
            Some((sizes, taken)) => found is Some && sizes_view((found->0).0@) == sizes && (
            found->0).1 == pos + taken && pos + taken <= bytes@.len(),
            None => found is None,
        },
{
    let ghost start = bytes@.skip(pos as int);
    let ghost all = chains_view(chains@);
    let mut sizes: Vec<Vec<u64>> = Vec::new();
    let mut at: usize = pos;
    let mut i: usize = 0;
    assert(all.skip(0) =~= all);
    while i < chains.len()
        invariant
            i <= chains@.len(),
            pos <= at <= bytes@.len(),
            start == bytes@.skip(pos as int),
            all == chains_view(chains@),
            parsed_chain_sizes(start, all) == match parsed_chain_sizes(
                bytes@.skip(at as int),
                all.skip(i as int),
            ) {
                Some((others, more)) => Some(
                    (sizes_view(sizes@) + others, (at - pos + more) as nat),
                ),
                None => None,
            },
        decreases chains@.len() - i,
    {
        let ghost here = bytes@.skip(at as int);
        let ghost left = all.skip(i as int);
        assert(left[0] == coders_of(chains@[i as int]@));
        assert(left.skip(1) =~= all.skip(i + 1));
        match read_numbers(bytes, at, chains[i].len() as u64) {
            None => {
                return None;
            },
            Some((own, next)) => {
                proof {
                    assert(after(here, (next - at) as nat) =~= bytes@.skip(next as int));
                    match parsed_chain_sizes(bytes@.skip(next as int), all.skip(i + 1)) {
                        Some((others, more)) => {
                            assert(sizes_view(sizes@) + (seq![own@] + others) =~= sizes_view(
                                sizes@.push(own),
                            ) + others);
                        },
                        None => {},
                    }
                }
                sizes.push(own);
                at = next;
                i = i + 1;
            },
        }
    }
    proof {
        assert(all.skip(chains@.len() as int) =~= Seq::<Seq<Coder>>::empty());
        assert(sizes_view(sizes@) + Seq::<Seq<u64>>::empty() =~= sizes_view(sizes@));
    }
    Some((sizes, at))
}

/// An unpack-info section at position `pos`.
#[verifier::rlimit(50)]
pub fn read_unpack_info(bytes: &[u8], pos: usize) -> (found: Option<
    (Vec<Vec<EncoderConfiguration>>, Vec<Vec<u64>>, usize),
>)
    requires
        pos <= bytes@.len(),
    ensures
        match parsed_unpack_info(bytes@.skip(pos as int)) {
            Some((folders, taken)) => {
                &&& found is Some
                &&& chains_view((found->0).0@) == folders.0
                &&& sizes_view((found->0).1@) == folders.1
                &&& (found->0).2 == pos + taken
                &&& pos + taken <= bytes@.len()
            },
            None => found is None,
        },
{
    let ghost here = bytes@.skip(pos as int);
    let len: usize = bytes.len();
    assert(tag_at(here, 0, K_UNPACK_INFO) == tag_at(bytes@, pos as nat, K_UNPACK_INFO));
    if !has_tag(bytes, pos, K_UNPACK_INFO) {
        return None;
    }
    assert(tag_at(here, 1, K_FOLDER) == tag_at(bytes@, (pos + 1) as nat, K_FOLDER));
    if !has_tag(bytes, pos + 1, K_FOLDER) {
        return None;
    }
    assert(after(here, 2) =~= bytes@.skip(pos + 2));
    let (count, at) = match read_number(bytes, pos + 2) {
        Some(found) => found,
        None => {
            return None;
        },
    };
    assert(tag_at(here, (at - pos) as nat, 0) == tag_at(bytes@, at as nat, 0));
    if !has_tag(bytes, at, 0) {
        return None;
    }
    assert(after(here, (at - pos + 1) as nat) =~= bytes@.skip(at + 1));
    let (chains, at) = match read_folders(bytes, at + 1, count) {
        Some(found) => found,
        None => {
            return None;
        },
    };
    assert(tag_at(here, (at - pos) as nat, K_CODERS_UNPACK_SIZE) == tag_at(
        bytes@,
        at as nat,
        K_CODERS_UNPACK_SIZE,
    ));
    if !has_tag(bytes, at, K_CODERS_UNPACK_SIZE) {
        return None;
    }
    assert(after(here, (at - pos + 1) as nat) =~= bytes@.skip(at + 1));
    let (sizes, at) = match read_chain_sizes(bytes, at + 1, &chains) {
        Some(found) => found,
        None => {
            return None;
        },
    };
    assert(tag_at(here, (at - pos) as nat, K_END) == tag_at(bytes@, at as nat, K_END));
    if !has_tag(bytes, at, K_END) {
        return None;
    }
    Some((chains, sizes, at + 1))
}

/// What is read as a pack-info section has a size and a checksum for each
/// stream.
pub proof fn lemma_parsed_pack_info_shape(bytes: Seq<u8>)
    requires
        parsed_pack_info(bytes) is Some,
    ensures
        (parsed_pack_info(bytes)->0).0.sizes.len() == (parsed_pack_info(bytes)->0).0.crcs.len(),
        (parsed_pack_info(bytes)->0).1 <= bytes.len(),
{
    let pos_taken = (decoded_u64(after(bytes, 1))->0).1;
    let count = (decoded_u64(after(bytes, 1 + pos_taken))->0).0;
    let count_taken = (decoded_u64(after(bytes, 1 + pos_taken))->0).1;
    let sizes_at = 1 + pos_taken + count_taken;
    lemma_parsed_numbers_len(after(bytes, sizes_at + 1), count as nat);
    let sizes = (parsed_numbers(after(bytes, sizes_at + 1), count as nat)->0).0;
    let at = sizes_at + 1 + (parsed_numbers(after(bytes, sizes_at + 1), count as nat)->0).1;
    if tag_at(bytes, at, K_CRC) {
        let digests = after(bytes, at + 1);
        let flags = (parsed_presence(digests, sizes.len())->0).0;
        let taken = (parsed_presence(digests, sizes.len())->0).1;
        lemma_parsed_fixed_len(after(digests, taken), count_set(flags), 4);
        let values = (parsed_fixed(after(digests, taken), count_set(flags), 4)->0).0;
        lemma_selected_spread(flags, values, 0u64);
    }
}

/// What is read as a list of folders has as many chains as were asked for,
/// each of at least one coder that fits.
pub proof fn lemma_parsed_folders_shape(bytes: Seq<u8>, count: nat)
    requires
        parsed_folders(bytes, count) is Some,
    ensures
        (parsed_folders(bytes, count)->0).0.len() == count,
        forall|i: int|
            0 <= i < count ==> (#[trigger] (parsed_folders(bytes, count)->0).0[i]).len() >= 1
                && coders_fit((parsed_folders(bytes, count)->0).0[i]) && (parsed_folders(
                bytes,
                count,
            )->0).0[i].len() <= bytes.len(),
        count <= (parsed_folders(bytes, count)->0).1 <= bytes.len(),
    decreases count,
{
    if count > 0 {
        let number = decoded_u64(bytes)->0;
        let coders_at = after(bytes, number.1);
        lemma_parsed_coders_shape(coders_at, number.0 as nat);
        let coders = parsed_coders(coders_at, number.0 as nat)->0;
        let pairs_at = after(bytes, number.1 + coders.1);
        lemma_parsed_numbers_len(pairs_at, (2 * (number.0 - 1)) as nat);
        let taken = (parsed_folder(bytes)->0).1;
        assert(number.1 >= 1);
        assert(taken >= 1 && taken <= bytes.len());
        lemma_parsed_folders_shape(after(bytes, taken), (count - 1) as nat);
        let first = (parsed_folder(bytes)->0).0;
        assert(first == coders.0);
        assert(first.len() >= 1 && coders_fit(first) && first.len() <= bytes.len());
        let others = (parsed_folders(after(bytes, taken), (count - 1) as nat)->0).0;
        let all = seq![first] + others;
        assert forall|i: int| 0 <= i < count implies (#[trigger] all[i]).len() >= 1 && coders_fit(
            all[i],
        ) && all[i].len() <= bytes.len() by {
            if i > 0 {
                assert(all[i] == others[i - 1]);
            }
        }
    }
}

/// What is read as the sizes along the chains has as many sizes for each
/// chain as the chain has coders.
pub proof fn lemma_parsed_chain_sizes_shape(bytes: Seq<u8>, chains: Seq<Seq<Coder>>)
    requires
        parsed_chain_sizes(bytes, chains) is Some,
    ensures
        (parsed_chain_sizes(bytes, chains)->0).0.len() == chains.len(),
        forall|i: int|
            0 <= i < chains.len() ==> (#[trigger] (parsed_chain_sizes(bytes, chains)->0).0[i]).len()
                == chains[i].len(),
        (parsed_chain_sizes(bytes, chains)->0).1 <= bytes.len(),
    decreases chains.len(),
{
    if chains.len() > 0 {
        lemma_parsed_numbers_len(bytes, chains[0].len());
        let taken = (parsed_numbers(bytes, chains[0].len())->0).1;
        lemma_parsed_chain_sizes_shape(after(bytes, taken), chains.skip(1));
        let first = (parsed_numbers(bytes, chains[0].len())->0).0;
        let others = (parsed_chain_sizes(after(bytes, taken), chains.skip(1))->0).0;
        let all = seq![first] + others;
        assert forall|i: int| 0 <= i < chains.len() implies (#[trigger] all[i]).len()
            == chains[i].len() by {
            if i > 0 {
                assert(all[i] == others[i - 1]);
                assert(chains.skip(1)[i - 1] == chains[i]);
            }
        }
    }
}

/// What is read as an unpack-info section has a chain that fits for each
/// block, and a size for each coder.
#[verifier::rlimit(50)]
pub proof fn lemma_parsed_unpack_info_shape(bytes: Seq<u8>)
    requires
        parsed_unpack_info(bytes) is Some,
        bytes.len() <= usize::MAX,
    ensures
        ({
            let folders = (parsed_unpack_info(bytes)->0).0;
            &&& folders.0.len() == folders.1.len()
            &&& folders.0.len() <= usize::MAX
            &&& forall|i: int|
                0 <= i < folders.0.len() ==> chain_fits(
                    (Block {
                        coders: #[trigger] folders.0[i],
                        sizes: folders.1[i],
                        crc: 0,
                        num_sub_unpack_streams: 0,
                        sub_stream_sizes: Seq::empty(),
                        sub_stream_crcs: Seq::empty(),
                    }),
                )
        }),
        (parsed_unpack_info(bytes)->0).1 <= bytes.len(),
{
    let count = decoded_u64(after(bytes, 2))->0;
    let folders_at = 2 + count.1 + 1;
    lemma_parsed_folders_shape(after(bytes, folders_at), count.0 as nat);
    let chains = (parsed_folders(after(bytes, folders_at), count.0 as nat)->0).0;
    let taken = (parsed_folders(after(bytes, folders_at), count.0 as nat)->0).1;
    lemma_parsed_chain_sizes_shape(after(bytes, folders_at + taken + 1), chains);
    let sizes = (parsed_chain_sizes(after(bytes, folders_at + taken + 1), chains)->0).0;
    assert forall|i: int| 0 <= i < chains.len() implies chain_fits(
        (Block {
            coders: #[trigger] chains[i],
            sizes: sizes[i],
            crc: 0,
            num_sub_unpack_streams: 0,
            sub_stream_sizes: Seq::empty(),
            sub_stream_crcs: Seq::empty(),
        }),
    ) by {
        assert(chains[i].len() >= 1 && coders_fit(chains[i]));
        assert(sizes[i].len() == chains[i].len());
    }
}

} // verus!
