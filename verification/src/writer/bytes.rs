//! Fixed-width little-endian integers and bit vectors packed into bytes.

use vstd::prelude::*;
use crate::bitset::BitSet;
use crate::writer::varint::le_bytes;

verus! {

/// The value that a bit contributes to its byte: bit `position` of a byte, counted
/// from the most significant one, or nothing where the flag is unset or past the
/// end of `bits`.
pub open spec fn bit_value(bits: Seq<bool>, index: int, position: int) -> nat {
    if 0 <= index < bits.len() && bits[index] {
        if position == 0 {
            0x80
        } else if position == 1 {
            0x40
        } else if position == 2 {
            0x20
        } else if position == 3 {
            0x10
        } else if position == 4 {
            0x08
        } else if position == 5 {
            0x04
        } else if position == 6 {
            0x02
        } else {
            0x01
        }
    } else {
        0
    }
}

/// Byte `j` of the packed form of `bits`: the flags `8 * j` to `8 * j + 7`, the
/// first of them in the most significant bit.
#[verifier::opaque]
pub open spec fn packed_byte(bits: Seq<bool>, j: int) -> u8 {
    (bit_value(bits, 8 * j, 0) + bit_value(bits, 8 * j + 1, 1) + bit_value(bits, 8 * j + 2, 2)
        + bit_value(bits, 8 * j + 3, 3) + bit_value(bits, 8 * j + 4, 4) + bit_value(
        bits,
        8 * j + 5,
        5,
    ) + bit_value(bits, 8 * j + 6, 6) + bit_value(bits, 8 * j + 7, 7)) as u8
}

/// The flags packed eight to a byte, most significant bit first. The unused low
/// bits of the last byte are zero.
pub open spec fn packed_bits(bits: Seq<bool>) -> Seq<u8> {
    Seq::new((bits.len() + 7) / 8, |j: int| packed_byte(bits, j))
}

/// Appends the eight bytes of `value`, least significant first.
pub fn vec_push_le_u64(buf: &mut Vec<u8>, value: u64)
    ensures
        final(buf)@ == old(buf)@ + le_bytes(value as nat, 8),
{
    push_le(buf, value, 8);
}

/// Appends the four bytes of `value`, least significant first.
pub fn vec_push_le_u32(buf: &mut Vec<u8>, value: u32)
    ensures
        final(buf)@ == old(buf)@ + le_bytes(value as nat, 4),
{
    push_le(buf, value as u64, 4);
}

/// Appends the `count` low bytes of `value`, least significant first.
pub fn push_le(buf: &mut Vec<u8>, value: u64, count: usize)
    ensures
        final(buf)@ == old(buf)@ + le_bytes(value as nat, count as nat),
{
    let mut rest: u64 = value;
    let mut left: usize = count;
    while left > 0
        invariant
            buf@ + le_bytes(rest as nat, left as nat) == old(buf)@ + le_bytes(
                value as nat,
                count as nat,
            ),
        decreases left,
    {
        let low: u8 = (rest & 0xFF) as u8;
        proof {
            assert(rest & 0xFF == rest % 256 && rest >> 8 == rest / 256) by (bit_vector);
            assert(buf@.push(low) + le_bytes((rest >> 8) as nat, (left - 1) as nat) =~= buf@
                + le_bytes(rest as nat, left as nat));
        }
        buf.push(low);
        rest = rest >> 8;
        left = left - 1;
    }
    proof {
        assert(buf@ + le_bytes(rest as nat, 0) =~= buf@);
    }
}

/// Packs the membership flags of the indices below `capacity` into bytes, most
/// significant bit first.
pub fn bitset_to_bytes(bs: &BitSet, capacity: usize) -> (out: Vec<u8>)
    ensures
        out@ == packed_bits(bs.flags(capacity as nat)),
{
    let ghost bits = bs.flags(capacity as nat);
    proof {
        reveal(packed_byte);
    }
    let mut out: Vec<u8> = Vec::new();
    let mut cache: u8 = 0;
    let mut shift: u32 = 7;
    let mut i: usize = 0;
    while i < capacity
        invariant
            i <= capacity,
            bits == bs.flags(capacity as nat),
            shift == 7 - i % 8,
            out@.len() == i / 8,
            forall|j: int| 0 <= j < i / 8 ==> out@[j] == packed_byte(bits, j),
            cache == packed_byte(bits.take(i as int), i as int / 8),
        decreases capacity - i,
    {
        let ghost j = i as int / 8;
        let ghost seen = bits.take(i as int);
        let ghost next = bits.take(i + 1);
        let set = bs.contains(i);
        let weight: u8 = 1u8 << shift;
        proof {
            reveal(packed_byte);
            assert(weight == if shift == 7 {
                0x80u8
            } else if shift == 6 {
                0x40u8
            } else if shift == 5 {
                0x20u8
            } else if shift == 4 {
                0x10u8
            } else if shift == 3 {
                0x08u8
            } else if shift == 2 {
                0x04u8
            } else if shift == 1 {
                0x02u8
            } else {
                0x01u8
            }) by (bit_vector)
                requires
                    shift <= 7,
                    weight == 1u8 << shift,
            ;
            assert(set == bits[i as int]);
            assert forall|index: int, position: int|
                index != i implies #[trigger] bit_value(next, index, position) == bit_value(
                seen,
                index,
                position,
            ) by {}
            assert(bit_value(seen, i as int, 7 - shift) == 0);
            assert(bit_value(next, i as int, 7 - shift) == if set {
                weight as nat
            } else {
                0
            });
            assert(i as int == 8 * j + (7 - shift));
            assert forall|index: int, position: int|
                0 <= index <= i implies #[trigger] bit_value(bits, index, position) == bit_value(
                next,
                index,
                position,
            ) by {}
        }
        if set {
            cache = cache + weight;
        }
        assert(cache == packed_byte(next, j));
        if shift == 0 {
            assert(packed_byte(next, j) == packed_byte(bits, j));
            out.push(cache);
            shift = 7;
            cache = 0;
        } else {
            shift = shift - 1;
        }
        i = i + 1;
    }
    proof {
        assert(bits.take(capacity as int) =~= bits);
    }
    if shift != 7 {
        out.push(cache);
    }
    assert(out@ =~= packed_bits(bits));
    out
}

/// The four-byte little-endian forms of `values`, in order.
pub open spec fn le32_all(values: Seq<u32>) -> Seq<u8>
    decreases values.len(),
{
    if values.len() == 0 {
        Seq::empty()
    } else {
        le32_all(values.drop_last()) + le_bytes(values.last() as nat, 4)
    }
}

/// The items of `values` whose flag is set, in order.
pub open spec fn selected<T>(flags: Seq<bool>, values: Seq<T>) -> Seq<T>
    decreases flags.len(),
{
    if flags.len() == 0 || values.len() == 0 {
        Seq::empty()
    } else if flags.last() {
        selected(flags.drop_last(), values.drop_last()).push(values.last())
    } else {
        selected(flags.drop_last(), values.drop_last())
    }
}

/// Appends `bytes`.
pub fn push_all(buf: &mut Vec<u8>, bytes: &[u8])
    ensures
        final(buf)@ == old(buf)@ + bytes@,
{
    let mut i: usize = 0;
    while i < bytes.len()
        invariant
            i <= bytes@.len(),
            buf@ == old(buf)@ + bytes@.take(i as int),
        decreases bytes@.len() - i,
    {
        proof {
            assert(old(buf)@ + bytes@.take(i as int) + seq![bytes@[i as int]] =~= old(buf)@
                + bytes@.take(i + 1));
        }
        buf.push(bytes[i]);
        i = i + 1;
    }
    proof {
        assert(bytes@.take(bytes@.len() as int) =~= bytes@);
    }
}

/// Appends the four-byte little-endian forms of `values`, in order.
pub fn write_all_le32(header: &mut Vec<u8>, values: &Vec<u32>)
    ensures
        final(header)@ == old(header)@ + le32_all(values@),
{
    let mut i: usize = 0;
    while i < values.len()
        invariant
            i <= values@.len(),
            header@ == old(header)@ + le32_all(values@.take(i as int)),
        decreases values@.len() - i,
    {
        proof {
            let next = values@.take(i + 1);
            assert(next.drop_last() =~= values@.take(i as int));
            assert(next.last() == values@[i as int]);
            assert(old(header)@ + le32_all(values@.take(i as int)) + le_bytes(
                values@[i as int] as nat,
                4,
            ) =~= old(header)@ + le32_all(next));
        }
        vec_push_le_u32(header, values[i]);
        i = i + 1;
    }
    proof {
        assert(values@.take(values@.len() as int) =~= values@);
    }
}

/// Concatenation does not care how it is bracketed.
pub proof fn lemma_assoc(a: Seq<u8>, b: Seq<u8>, c: Seq<u8>)
    ensures
        (a + b) + c == a + (b + c),
{
    assert((a + b) + c =~= a + (b + c));
}

} // verus!
