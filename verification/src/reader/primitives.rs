//! Reading the building blocks of the header: lists of encoded integers, bit
//! vectors, fixed-width numbers and digest sections.
//!
//! What a reader finds at the start of a byte string is given as a value
//! together with the number of bytes it took, or as nothing where the bytes do
//! not hold such a value.

use vstd::prelude::*;
use vstd::slice::slice_subrange;
use crate::writer::bytes::{bit_value, le32_all, packed_bits, packed_byte, selected};
use crate::writer::files_info::{le_all, presence_bytes};
use crate::writer::pack_info::{defined_flags, digests_bytes};
use crate::writer::varint::{
    decoded_u64,
    encoded_all,
    encoded_u64,
    le_bytes,
    le_value,
    lemma_decode_encode,
    lemma_le_bytes_len,
    lemma_le_value_bound,
    lemma_le_value_of_le_bytes,
    lemma_pow256_values,
    pow256,
    read_encoded_u64,
};

verus! {

/// One encoded integer at position `pos`.
pub fn read_number(bytes: &[u8], pos: usize) -> (found: Option<(u64, usize)>)
    requires
        pos <= bytes@.len(),
    ensures
        match decoded_u64(bytes@.skip(pos as int)) {
            Some((value, taken)) => found is Some && (found->0).0 == value && (found->0).1 == pos
                + taken && pos + taken <= bytes@.len(),
            None => found is None,
        },
{
    let rest = slice_subrange(bytes, pos, bytes.len());
    assert(rest@ =~= bytes@.skip(pos as int));
    match read_encoded_u64(rest) {
        Some((value, taken)) => Some((value, pos + taken)),
        None => None,
    }
}

/// `count` encoded integers, one behind the other.
pub open spec fn parsed_numbers(bytes: Seq<u8>, count: nat) -> Option<(Seq<u64>, nat)>
    decreases count,
{
    if count == 0 {
        Some((Seq::empty(), 0))
    } else {
        match decoded_u64(bytes) {
            None => None,
            Some((first, taken)) => match parsed_numbers(
                bytes.skip(taken as int),
                (count - 1) as nat,
            ) {
                None => None,
                Some((others, more)) => Some((seq![first] + others, taken + more)),
            },
        }
    }
}

/// A list of encodings starts with the encoding of its first value.
pub proof fn lemma_encoded_all_front(values: Seq<u64>)
    requires
        values.len() > 0,
    ensures
        encoded_all(values) == encoded_u64(values[0]) + encoded_all(values.skip(1)),
    decreases values.len(),
{
    if values.len() == 1 {
        assert(values.drop_last() =~= Seq::<u64>::empty());
        assert(values.skip(1) =~= Seq::<u64>::empty());
        assert(encoded_all(values) =~= encoded_u64(values[0]) + encoded_all(values.skip(1)));
    } else {
        lemma_encoded_all_front(values.drop_last());
        assert(values.drop_last().skip(1) =~= values.skip(1).drop_last());
        assert(values.drop_last()[0] == values[0]);
        assert(values.skip(1).last() == values.last());
        assert(encoded_all(values) =~= encoded_u64(values[0]) + encoded_all(values.skip(1)));
    }
}

/// Reading a list of encodings gives the values back and takes exactly the
/// encodings' bytes.
pub proof fn lemma_parsed_numbers(values: Seq<u64>, rest: Seq<u8>)
    ensures
        parsed_numbers(encoded_all(values) + rest, values.len()) == Some(
            (values, encoded_all(values).len()),
        ),
    decreases values.len(),
{
    if values.len() == 0 {
        assert(encoded_all(values).len() == 0);
    } else {
        let first = encoded_u64(values[0]);
        let others = encoded_all(values.skip(1));
        lemma_encoded_all_front(values);
        assert(encoded_all(values) + rest =~= first + (others + rest));
        lemma_decode_encode(values[0], others + rest);
        assert((first + (others + rest)).skip(first.len() as int) =~= others + rest);
        lemma_parsed_numbers(values.skip(1), rest);
        assert(seq![values[0]] + values.skip(1) =~= values);
    }
}

/// What a list of numbers takes is at least one byte for each.
pub proof fn lemma_parsed_numbers_len(bytes: Seq<u8>, count: nat)
    requires
        parsed_numbers(bytes, count) is Some,
    ensures
        (parsed_numbers(bytes, count)->0).0.len() == count,
        count <= (parsed_numbers(bytes, count)->0).1 <= bytes.len(),
    decreases count,
{
    if count > 0 {
        let taken = (decoded_u64(bytes)->0).1;
        lemma_parsed_numbers_len(bytes.skip(taken as int), (count - 1) as nat);
    }
}

/// `count` encoded integers at position `pos`.
pub fn read_numbers(bytes: &[u8], pos: usize, count: u64) -> (found: Option<(Vec<u64>, usize)>)
    requires
        pos <= bytes@.len(),
    ensures
        match parsed_numbers(bytes@.skip(pos as int), count as nat) {
            Some((values, taken)) => found is Some && (found->0).0@ == values && (found->0).1
                == pos + taken && pos + taken <= bytes@.len(),
            None => found is None,
        },
{
    let ghost start = bytes@.skip(pos as int);
    let mut values: Vec<u64> = Vec::new();
    let mut at: usize = pos;
    let mut left: u64 = count;
    while left > 0
        invariant
            pos <= at <= bytes@.len(),
            start == bytes@.skip(pos as int),
            left <= count,
            values@.len() == count - left,
            parsed_numbers(start, count as nat) == match parsed_numbers(
                bytes@.skip(at as int),
                left as nat,
            ) {
                Some((others, more)) => Some((values@ + others, (at - pos + more) as nat)),
                None => None,
            },
        decreases left,
    {
        let ghost here = bytes@.skip(at as int);
        match read_number(bytes, at) {
            None => {
                return None;
            },
            Some((value, next)) => {
                proof {
                    assert(here.skip(next - at) =~= bytes@.skip(next as int));
                    match parsed_numbers(bytes@.skip(next as int), (left - 1) as nat) {
                        Some((others, more)) => {
                            assert(values@ + (seq![value] + others) =~= values@.push(value)
                                + others);
                        },
                        None => {},
                    }
                }
                values.push(value);
                at = next;
                left = left - 1;
            },
        }
    }
    proof {
        assert(values@ + Seq::<u64>::empty() =~= values@);
    }
    Some((values, at))
}

/// The value of the bit at `position` of a byte, counted from the most
/// significant one.
pub open spec fn bit_weight(position: int) -> int {
    if position == 0 {
        0x80
    } else if position == 1 {
        0x40
    } else if position == 2 {
        0x20
    } else if position == 3 {
        0x10
    } else if position == 4 {
        0x08
    } else if position == 5 {
        0x04
    } else if position == 6 {
        0x02
    } else {
        0x01
    }
}

/// Bit `index` of a bit vector that is packed into `bytes`, most significant
/// bit first.
pub open spec fn bit_at(bytes: Seq<u8>, index: int) -> bool {
    (bytes[index / 8] as int / bit_weight(index % 8)) % 2 == 1
}

/// A bit vector of `count` bits. No more bits are read than the machine can
/// count.
pub open spec fn parsed_bits(bytes: Seq<u8>, count: nat) -> Option<(Seq<bool>, nat)> {
    let need = (count + 7) / 8;
    if count > usize::MAX || bytes.len() < need {
        None
    } else {
        Some((Seq::new(count, |i: int| bit_at(bytes, i)), need))
    }
}

/// In a sum of distinct bit weights, each bit can be told from the sum.
proof fn lemma_bit_of_sum(b0: u8, b1: u8, b2: u8, b3: u8, b4: u8, b5: u8, b6: u8, b7: u8)
    by (bit_vector)
    requires
        b0 == 0 || b0 == 0x80,
        b1 == 0 || b1 == 0x40,
        b2 == 0 || b2 == 0x20,
        b3 == 0 || b3 == 0x10,
        b4 == 0 || b4 == 0x08,
        b5 == 0 || b5 == 0x04,
        b6 == 0 || b6 == 0x02,
        b7 == 0 || b7 == 0x01,
    ensures
        b0 + b1 + b2 + b3 + b4 + b5 + b6 + b7 < 256,
        (((b0 + b1 + b2 + b3 + b4 + b5 + b6 + b7) / 0x80) % 2 == 1) == (b0 != 0),
        (((b0 + b1 + b2 + b3 + b4 + b5 + b6 + b7) / 0x40) % 2 == 1) == (b1 != 0),
        (((b0 + b1 + b2 + b3 + b4 + b5 + b6 + b7) / 0x20) % 2 == 1) == (b2 != 0),
        (((b0 + b1 + b2 + b3 + b4 + b5 + b6 + b7) / 0x10) % 2 == 1) == (b3 != 0),
        (((b0 + b1 + b2 + b3 + b4 + b5 + b6 + b7) / 0x08) % 2 == 1) == (b4 != 0),
        (((b0 + b1 + b2 + b3 + b4 + b5 + b6 + b7) / 0x04) % 2 == 1) == (b5 != 0),
        (((b0 + b1 + b2 + b3 + b4 + b5 + b6 + b7) / 0x02) % 2 == 1) == (b6 != 0),
        (((b0 + b1 + b2 + b3 + b4 + b5 + b6 + b7) / 0x01) % 2 == 1) == (b7 != 0),
{
}

/// Reading a packed bit vector gives the bits back.
pub proof fn lemma_parsed_bits(bits: Seq<bool>, rest: Seq<u8>)
    requires
        bits.len() <= usize::MAX,
    ensures
        parsed_bits(packed_bits(bits) + rest, bits.len()) == Some(
            (bits, packed_bits(bits).len()),
        ),
{
    let bytes = packed_bits(bits) + rest;
    let found = Seq::new(bits.len(), |i: int| bit_at(bytes, i));
    reveal(packed_byte);
    assert forall|i: int| 0 <= i < bits.len() implies found[i] == bits[i] by {
        let j = i / 8;
        let p = i % 8;
        assert(bytes[j] == packed_byte(bits, j));
        lemma_bit_of_sum(
            bit_value(bits, 8 * j, 0) as u8,
            bit_value(bits, 8 * j + 1, 1) as u8,
            bit_value(bits, 8 * j + 2, 2) as u8,
            bit_value(bits, 8 * j + 3, 3) as u8,
            bit_value(bits, 8 * j + 4, 4) as u8,
            bit_value(bits, 8 * j + 5, 5) as u8,
            bit_value(bits, 8 * j + 6, 6) as u8,
            bit_value(bits, 8 * j + 7, 7) as u8,
        );
        assert(bit_value(bits, i, p) != 0 <==> bits[i]);
    }
    assert(found =~= bits);
}

/// A bit vector of `count` bits at position `pos`.
pub fn read_bits(bytes: &[u8], pos: usize, count: u64) -> (found: Option<(Vec<bool>, usize)>)
    requires
        pos <= bytes@.len(),
    ensures
        match parsed_bits(bytes@.skip(pos as int), count as nat) {
            Some((bits, taken)) => found is Some && (found->0).0@ == bits && (found->0).1 == pos
                + taken && pos + taken <= bytes@.len(),
            None => found is None,
        },
{
    let ghost here = bytes@.skip(pos as int);
    let len: usize = bytes.len();
    let room: usize = len - pos;
    let need: u64 = count / 8 + if count % 8 != 0 {
        1u64
    } else {
        0u64
    };
    assert(need == (count + 7) / 8);
    if need > room as u64 || count > usize::MAX as u64 {
        return None;
    }
    let count: usize = count as usize;
    let mut bits: Vec<bool> = Vec::new();
    let mut i: usize = 0;
    while i < count
        invariant
            i <= count,
            pos + (count + 7) / 8 <= bytes@.len() == len,
            here == bytes@.skip(pos as int),
            bits@ == Seq::new(i as nat, |k: int| bit_at(here, k)),
        decreases count - i,
    {
        let byte: u8 = bytes[pos + i / 8];
        let shift: u8 = (i % 8) as u8;
        let mask: u8 = 0x80u8 >> shift;
        proof {
            assert(here[i as int / 8] == byte);
            assert(byte & mask != 0 <==> (byte / (if shift == 0 {
                0x80u8
            } else if shift == 1 {
                0x40u8
            } else if shift == 2 {
                0x20u8
            } else if shift == 3 {
                0x10u8
            } else if shift == 4 {
                0x08u8
            } else if shift == 5 {
                0x04u8
            } else if shift == 6 {
                0x02u8
            } else {
                0x01u8
            })) % 2 == 1) by (bit_vector)
                requires
                    shift < 8,
                    mask == 0x80u8 >> shift,
            ;
        }
        bits.push(byte & mask != 0);
        i = i + 1;
        assert(bits@ =~= Seq::new(i as nat, |k: int| bit_at(here, k)));
    }
    Some((bits, pos + need as usize))
}

/// `count` numbers of `width` bytes each, least significant byte first.
pub open spec fn parsed_fixed(bytes: Seq<u8>, count: nat, width: nat) -> Option<(Seq<u64>, nat)>
    decreases count,
{
    if count == 0 {
        Some((Seq::empty(), 0))
    } else if bytes.len() < width {
        None
    } else {
        match parsed_fixed(bytes.skip(width as int), (count - 1) as nat, width) {
            None => None,
            Some((others, more)) => Some(
                (seq![le_value(bytes.take(width as int)) as u64] + others, width + more),
            ),
        }
    }
}

/// A list of fixed-width numbers starts with its first number.
pub proof fn lemma_le_all_front(values: Seq<u64>, width: nat)
    requires
        values.len() > 0,
    ensures
        le_all(values, width) == le_bytes(values[0] as nat, width) + le_all(values.skip(1), width),
    decreases values.len(),
{
    if values.len() == 1 {
        assert(values.drop_last() =~= Seq::<u64>::empty());
        assert(values.skip(1) =~= Seq::<u64>::empty());
        assert(le_all(values, width) =~= le_bytes(values[0] as nat, width) + le_all(
            values.skip(1),
            width,
        ));
    } else {
        lemma_le_all_front(values.drop_last(), width);
        assert(values.drop_last().skip(1) =~= values.skip(1).drop_last());
        assert(values.drop_last()[0] == values[0]);
        assert(values.skip(1).last() == values.last());
        assert(le_all(values, width) =~= le_bytes(values[0] as nat, width) + le_all(
            values.skip(1),
            width,
        ));
    }
}

/// Reading a list of fixed-width numbers gives them back, as long as each
/// fits its width.
pub proof fn lemma_parsed_fixed(values: Seq<u64>, width: nat, rest: Seq<u8>)
    requires
        width <= 8,
        forall|i: int| 0 <= i < values.len() ==> (#[trigger] values[i]) < pow256(width),
    ensures
        parsed_fixed(le_all(values, width) + rest, values.len(), width) == Some(
            (values, le_all(values, width).len()),
        ),
        le_all(values, width).len() == values.len() * width,
    decreases values.len(),
{
    if values.len() == 0 {
        assert(le_all(values, width).len() == 0);
        assert(values.len() * width == 0) by (nonlinear_arith)
            requires
                values.len() == 0,
        ;
    } else {
        let first = le_bytes(values[0] as nat, width);
        let others = le_all(values.skip(1), width);
        lemma_le_all_front(values, width);
        lemma_le_bytes_len(values[0] as nat, width);
        let all = le_all(values, width) + rest;
        assert(all =~= first + (others + rest));
        assert(all.take(width as int) =~= first);
        assert(all.skip(width as int) =~= others + rest);
        lemma_le_value_of_le_bytes(values[0] as nat, width);
        assert(values[0] as nat % pow256(width) == values[0]) by {
            lemma_small_mod(values[0] as nat, pow256(width));
        }
        lemma_parsed_fixed(values.skip(1), width, rest);
        assert(seq![values[0]] + values.skip(1) =~= values);
        assert(values.len() * width == width + (values.len() - 1) * width) by (nonlinear_arith);
    }
}

/// A number below the modulus is its own remainder.
proof fn lemma_small_mod(value: nat, modulus: nat)
    by (nonlinear_arith)
    requires
        value < modulus,
    ensures
        value % modulus == value,
{
}

/// The four-byte forms of checksums are the fixed-width forms of the same
/// numbers.
pub proof fn lemma_le32_all_is_le_all(values: Seq<u32>)
    ensures
        le32_all(values) == le_all(Seq::new(values.len(), |i: int| values[i] as u64), 4),
    decreases values.len(),
{
    let wide = Seq::new(values.len(), |i: int| values[i] as u64);
    if values.len() > 0 {
        lemma_le32_all_is_le_all(values.drop_last());
        assert(wide.drop_last() =~= Seq::new(
            values.drop_last().len(),
            |i: int| values.drop_last()[i] as u64,
        ));
    }
}

/// `count` numbers of `width` bytes each at position `pos`.
pub fn read_fixed(bytes: &[u8], pos: usize, count: usize, width: usize) -> (found: Option<
    (Vec<u64>, usize),
>)
    requires
        pos <= bytes@.len(),
        1 <= width <= 8,
    ensures
        match parsed_fixed(bytes@.skip(pos as int), count as nat, width as nat) {
            Some((values, taken)) => found is Some && (found->0).0@ == values && (found->0).1
                == pos + taken && pos + taken <= bytes@.len(),
            None => found is None,
        },
{
    let ghost start = bytes@.skip(pos as int);
    let len: usize = bytes.len();
    let mut values: Vec<u64> = Vec::new();
    let mut at: usize = pos;
    let mut left: usize = count;
    while left > 0
        invariant
            pos <= at <= bytes@.len() == len,
            1 <= width <= 8,
            start == bytes@.skip(pos as int),
            parsed_fixed(start, count as nat, width as nat) == match parsed_fixed(
                bytes@.skip(at as int),
                left as nat,
                width as nat,
            ) {
                Some((others, more)) => Some((values@ + others, (at - pos + more) as nat)),
                None => None,
            },
        decreases left,
    {
        let ghost here = bytes@.skip(at as int);
        if len - at < width {
            return None;
        }
        let mut value: u64 = 0;
        let mut i: usize = width;
        let ghost field = here.take(width as int);
        proof {
            assert(field.subrange(width as int, width as int) =~= Seq::<u8>::empty());
        }
        while i > 0
            invariant
                i <= width <= 8,
                at + width <= bytes@.len() == len,
                here == bytes@.skip(at as int),
                field == here.take(width as int),
                value == le_value(field.subrange(i as int, width as int)),
            decreases i,
        {
            proof {
                let tail = field.subrange(i as int, width as int);
                let longer = field.subrange(i - 1, width as int);
                assert(longer.skip(1) =~= tail);
                lemma_le_value_bound(longer);
                lemma_pow256_values();
                lemma_pow256_grows(longer.len(), 8);
            }
            value = value * 256 + bytes[at + (i - 1)] as u64;
            i = i - 1;
        }
        proof {
            assert(field.subrange(0, width as int) =~= field);
            assert(here.skip(width as int) =~= bytes@.skip(at + width));
            match parsed_fixed(bytes@.skip(at + width), (left - 1) as nat, width as nat) {
                Some((others, more)) => {
                    assert(values@ + (seq![value] + others) =~= values@.push(value) + others);
                },
                None => {},
            }
        }
        values.push(value);
        at = at + width;
        left = left - 1;
    }
    proof {
        assert(values@ + Seq::<u64>::empty() =~= values@);
    }
    Some((values, at))
}

/// A higher power of 256 is no smaller.
pub proof fn lemma_pow256_grows(small: nat, large: nat)
    requires
        small <= large,
    ensures
        pow256(small) <= pow256(large),
    decreases large,
{
    if small < large {
        lemma_pow256_grows(small, (large - 1) as nat);
    }
}

/// The number of set flags.
pub open spec fn count_set(flags: Seq<bool>) -> nat
    decreases flags.len(),
{
    if flags.len() == 0 {
        0
    } else {
        count_set(flags.drop_last()) + if flags.last() {
            1nat
        } else {
            0nat
        }
    }
}

/// One item for each flag: the next of `values` where the flag is set, else
/// `absent`.
pub open spec fn spread<T>(flags: Seq<bool>, values: Seq<T>, absent: T) -> Seq<T>
    decreases flags.len(),
{
    if flags.len() == 0 {
        Seq::empty()
    } else if flags.last() {
        spread(flags.drop_last(), values.drop_last(), absent).push(values.last())
    } else {
        spread(flags.drop_last(), values, absent).push(absent)
    }
}

/// As many items are selected as flags are set.
pub proof fn lemma_selected_len<T>(flags: Seq<bool>, values: Seq<T>)
    requires
        flags.len() == values.len(),
    ensures
        selected(flags, values).len() == count_set(flags),
    decreases flags.len(),
{
    if flags.len() > 0 {
        lemma_selected_len(flags.drop_last(), values.drop_last());
    }
}

/// No more flags are set than there are; all are set where every flag is, and
/// none where no flag is.
pub proof fn lemma_count_set_bound(flags: Seq<bool>)
    ensures
        count_set(flags) <= flags.len(),
        count_set(flags) == flags.len() <==> (forall|i: int| 0 <= i < flags.len() ==> flags[i]),
        count_set(flags) == 0 <==> (forall|i: int| 0 <= i < flags.len() ==> !flags[i]),
    decreases flags.len(),
{
    if flags.len() > 0 {
        let front = flags.drop_last();
        lemma_count_set_bound(front);
        assert forall|i: int| 0 <= i < front.len() implies front[i] == flags[i] by {}
        if forall|i: int| 0 <= i < flags.len() ==> flags[i] {
            assert forall|i: int| 0 <= i < front.len() implies front[i] by {
                assert(flags[i]);
            }
        }
        if forall|i: int| 0 <= i < flags.len() ==> !flags[i] {
            assert forall|i: int| 0 <= i < front.len() implies !front[i] by {
                assert(!flags[i]);
            }
        }
    }
}

/// Spreading the selected items over the flags gives the items back, as long
/// as the items that were not selected are absent ones.
pub proof fn lemma_spread_selected<T>(flags: Seq<bool>, values: Seq<T>, absent: T)
    requires
        flags.len() == values.len(),
        forall|i: int| 0 <= i < flags.len() && !flags[i] ==> values[i] == absent,
    ensures
        spread(flags, selected(flags, values), absent) == values,
    decreases flags.len(),
{
    if flags.len() == 0 {
        assert(values =~= Seq::<T>::empty());
    } else {
        let front = flags.drop_last();
        lemma_spread_selected(front, values.drop_last(), absent);
        let chosen = selected(front, values.drop_last());
        if flags.last() {
            assert(chosen.push(values.last()).drop_last() =~= chosen);
        }
        assert(values.drop_last().push(values.last()) =~= values);
    }
}

/// What spreading gives has one item for each flag, and selecting from it
/// gives the values back.
pub proof fn lemma_selected_spread<T>(flags: Seq<bool>, values: Seq<T>, absent: T)
    requires
        values.len() == count_set(flags),
    ensures
        spread(flags, values, absent).len() == flags.len(),
        selected(flags, spread(flags, values, absent)) == values,
        forall|i: int|
            0 <= i < flags.len() && !flags[i] ==> spread(flags, values, absent)[i] == absent,
    decreases flags.len(),
{
    if flags.len() == 0 {
        assert(values =~= Seq::<T>::empty());
    } else {
        let front = flags.drop_last();
        if flags.last() {
            lemma_selected_spread(front, values.drop_last(), absent);
            let before = spread(front, values.drop_last(), absent);
            let all = before.push(values.last());
            assert(all.drop_last() =~= before);
            assert(values.drop_last().push(values.last()) =~= values);
            assert forall|i: int| 0 <= i < flags.len() && !flags[i] implies all[i] == absent by {
                assert(all[i] == before[i]);
                assert(front[i] == flags[i]);
            }
        } else {
            lemma_selected_spread(front, values, absent);
            let before = spread(front, values, absent);
            let all = before.push(absent);
            assert(all.drop_last() =~= before);
            assert forall|i: int| 0 <= i < flags.len() && !flags[i] implies all[i] == absent by {
                if i < front.len() {
                    assert(all[i] == before[i]);
                    assert(front[i] == flags[i]);
                }
            }
        }
    }
}

/// Selecting with every flag set selects everything.
pub proof fn lemma_selected_all<T>(flags: Seq<bool>, values: Seq<T>)
    requires
        flags.len() == values.len(),
        forall|i: int| 0 <= i < flags.len() ==> flags[i],
    ensures
        selected(flags, values) == values,
    decreases flags.len(),
{
    if flags.len() == 0 {
        assert(values =~= Seq::<T>::empty());
    } else {
        lemma_selected_all(flags.drop_last(), values.drop_last());
        assert(values.drop_last().push(values.last()) =~= values);
    }
}

/// Which of `count` items are present: one byte `1` for all, or a byte `0` and
/// one bit for each.
pub open spec fn parsed_presence(bytes: Seq<u8>, count: nat) -> Option<(Seq<bool>, nat)> {
    if bytes.len() == 0 || count > usize::MAX {
        None
    } else if bytes[0] == 1 {
        Some((Seq::new(count, |i: int| true), 1))
    } else if bytes[0] == 0 {
        match parsed_bits(bytes.skip(1), count) {
            None => None,
            Some((flags, taken)) => Some((flags, 1 + taken)),
        }
    } else {
        None
    }
}

/// Reading what the writer says of presence gives the flags back.
pub proof fn lemma_parsed_presence(flags: Seq<bool>, rest: Seq<u8>)
    requires
        flags.len() <= usize::MAX,
    ensures
        parsed_presence(presence_bytes(flags) + rest, flags.len()) == Some(
            (flags, presence_bytes(flags).len()),
        ),
{
    let presence = presence_bytes(flags);
    let bytes = presence + rest;
    if forall|i: int| 0 <= i < flags.len() ==> flags[i] {
        assert(presence == seq![1u8]);
        assert(bytes[0] == 1u8);
        assert(Seq::new(flags.len(), |i: int| true) =~= flags);
    } else {
        let packed = packed_bits(flags);
        assert(presence == seq![0u8] + packed);
        assert(bytes[0] == 0u8);
        assert(bytes.skip(1) =~= packed + rest);
        lemma_parsed_bits(flags, rest);
        assert(presence.len() == 1 + packed.len());
    }
}

/// Which of `count` items are present, read at position `pos`.
pub fn read_presence(bytes: &[u8], pos: usize, count: u64) -> (found: Option<(Vec<bool>, usize)>)
    requires
        pos <= bytes@.len(),
    ensures
        match parsed_presence(bytes@.skip(pos as int), count as nat) {
            Some((flags, taken)) => found is Some && (found->0).0@ == flags && (found->0).1 == pos
                + taken && pos + taken <= bytes@.len(),
            None => found is None,
        },
{
    let ghost here = bytes@.skip(pos as int);
    if pos >= bytes.len() || count > usize::MAX as u64 {
        return None;
    }
    let first = bytes[pos];
    assert(here[0] == first);
    if first == 1 {
        let mut flags: Vec<bool> = Vec::new();
        let mut i: u64 = 0;
        while i < count
            invariant
                i <= count,
                flags@ == Seq::new(i as nat, |k: int| true),
            decreases count - i,
        {
            flags.push(true);
            i = i + 1;
            assert(flags@ =~= Seq::new(i as nat, |k: int| true));
        }
        Some((flags, pos + 1))
    } else if first == 0 {
        assert(here.skip(1) =~= bytes@.skip(pos + 1));
        read_bits(bytes, pos + 1, count)
    } else {
        None
    }
}

/// The checksums as numbers of four bytes.
pub open spec fn widened(crcs: Seq<u32>) -> Seq<u64> {
    Seq::new(crcs.len(), |i: int| crcs[i] as u64)
}

/// Numbers of four bytes as checksums.
pub open spec fn narrowed(values: Seq<u64>) -> Seq<u32> {
    Seq::new(values.len(), |i: int| values[i] as u32)
}

/// A digest section for `count` items: which checksums are present, then the
/// present ones. An absent checksum reads as zero.
pub open spec fn parsed_digests(bytes: Seq<u8>, count: nat) -> Option<(Seq<u32>, nat)> {
    match parsed_presence(bytes, count) {
        None => None,
        Some((flags, taken)) => match parsed_fixed(bytes.skip(taken as int), count_set(flags), 4) {
            None => None,
            Some((values, more)) => Some((narrowed(spread(flags, values, 0u64)), taken + more)),
        },
    }
}

/// The digest section that the writer makes says which checksums are present
/// and then lists those.
pub proof fn lemma_digests_bytes(crcs: Seq<u32>)
    ensures
        digests_bytes(crcs) == presence_bytes(defined_flags(crcs)) + le32_all(
            selected(defined_flags(crcs), crcs),
        ),
{
    let defined = defined_flags(crcs);
    if forall|i: int| 0 <= i < crcs.len() ==> crcs[i] != 0 {
        assert forall|i: int| 0 <= i < defined.len() implies defined[i] by {}
        lemma_selected_all(defined, crcs);
    } else {
        let i = choose|i: int| 0 <= i < crcs.len() && crcs[i] == 0;
        assert(!defined[i]);
    }
}

/// Reading the digest section that the writer makes gives the checksums back.
pub proof fn lemma_parsed_digests(crcs: Seq<u32>, rest: Seq<u8>)
    requires
        crcs.len() <= usize::MAX,
    ensures
        parsed_digests(digests_bytes(crcs) + rest, crcs.len()) == Some(
            (crcs, digests_bytes(crcs).len()),
        ),
{
    let defined = defined_flags(crcs);
    let chosen = selected(defined, crcs);
    let presence = presence_bytes(defined);
    lemma_digests_bytes(crcs);
    lemma_le32_all_is_le_all(chosen);
    let values = le_all(widened(chosen), 4);
    assert(digests_bytes(crcs) + rest =~= presence + (values + rest));
    lemma_parsed_presence(defined, values + rest);
    assert((presence + (values + rest)).skip(presence.len() as int) =~= values + rest);
    lemma_selected_len(defined, crcs);
    lemma_pow256_values();
    lemma_parsed_fixed(widened(chosen), 4, rest);
    lemma_widened_selected(defined, crcs);
    lemma_spread_selected(defined, widened(crcs), 0u64);
    assert(narrowed(widened(crcs)) =~= crcs);
}

/// Selecting checksums and taking them as numbers comes to the same in either
/// order.
pub proof fn lemma_widened_selected(flags: Seq<bool>, crcs: Seq<u32>)
    requires
        flags.len() == crcs.len(),
    ensures
        widened(selected(flags, crcs)) == selected(flags, widened(crcs)),
    decreases flags.len(),
{
    if flags.len() == 0 {
        assert(widened(selected(flags, crcs)) =~= selected(flags, widened(crcs)));
    } else {
        lemma_widened_selected(flags.drop_last(), crcs.drop_last());
        assert(widened(crcs).drop_last() =~= widened(crcs.drop_last()));
        assert(widened(selected(flags, crcs)) =~= selected(flags, widened(crcs)));
    }
}

/// Fills the gaps of `values` with `absent`: one item for each flag.
pub fn spread_values<T: Copy>(flags: &Vec<bool>, values: &Vec<T>, absent: T) -> (all: Vec<T>)
    requires
        values@.len() == count_set(flags@),
    ensures
        all@ == spread(flags@, values@, absent),
{
    let mut all: Vec<T> = Vec::new();
    let total: usize = values.len();
    let mut used: usize = 0;
    let mut i: usize = 0;
    while i < flags.len()
        invariant
            i <= flags@.len(),
            used == count_set(flags@.take(i as int)),
            used <= values@.len() == count_set(flags@),
            values@.len() == total,
            all@ == spread(flags@.take(i as int), values@.take(used as int), absent),
        decreases flags@.len() - i,
    {
        proof {
            let next = flags@.take(i + 1);
            assert(next.drop_last() =~= flags@.take(i as int));
            assert(next.last() == flags@[i as int]);
            lemma_count_set_prefix(flags@, i + 1);
            if flags@[i as int] {
                assert(count_set(next) == used + 1);
                assert(used < values@.len());
                assert(values@.take(used + 1).drop_last() =~= values@.take(used as int));
            }
        }
        if flags[i] {
            all.push(values[used]);
            used = used + 1;
        } else {
            all.push(absent);
        }
        i = i + 1;
    }
    proof {
        assert(flags@.take(flags@.len() as int) =~= flags@);
        assert(values@.take(used as int) =~= values@);
    }
    all
}

/// Among the first flags no more are set than among all.
pub proof fn lemma_count_set_prefix(flags: Seq<bool>, count: int)
    requires
        0 <= count <= flags.len(),
    ensures
        count_set(flags.take(count)) <= count_set(flags),
    decreases flags.len(),
{
    if count == flags.len() {
        assert(flags.take(count) =~= flags);
    } else {
        lemma_count_set_prefix(flags.drop_last(), count);
        assert(flags.drop_last().take(count) =~= flags.take(count));
    }
}

/// The number of set flags.
pub fn count_flags(flags: &Vec<bool>) -> (count: usize)
    ensures
        count == count_set(flags@),
{
    let mut count: usize = 0;
    let mut i: usize = 0;
    while i < flags.len()
        invariant
            i <= flags@.len(),
            count == count_set(flags@.take(i as int)),
            count <= i,
        decreases flags@.len() - i,
    {
        proof {
            assert(flags@.take(i + 1).drop_last() =~= flags@.take(i as int));
        }
        if flags[i] {
            count = count + 1;
        }
        i = i + 1;
    }
    proof {
        assert(flags@.take(flags@.len() as int) =~= flags@);
    }
    count
}

/// A digest section for `count` items at position `pos`.
pub fn read_digests(bytes: &[u8], pos: usize, count: u64) -> (found: Option<(Vec<u32>, usize)>)
    requires
        pos <= bytes@.len(),
    ensures
        match parsed_digests(bytes@.skip(pos as int), count as nat) {
            Some((crcs, taken)) => found is Some && (found->0).0@ == crcs && (found->0).1 == pos
                + taken && pos + taken <= bytes@.len(),
            None => found is None,
        },
{
    let ghost here = bytes@.skip(pos as int);
    let (flags, at) = match read_presence(bytes, pos, count) {
        Some(found) => found,
        None => {
            return None;
        },
    };
    assert(here.skip(at - pos) =~= bytes@.skip(at as int));
    let present = count_flags(&flags);
    let (values, end) = match read_fixed(bytes, at, present, 4) {
        Some(found) => found,
        None => {
            return None;
        },
    };
    proof {
        lemma_parsed_fixed_len(bytes@.skip(at as int), present as nat, 4);
    }
    let all = spread_values(&flags, &values, 0);
    let mut crcs: Vec<u32> = Vec::new();
    let mut i: usize = 0;
    while i < all.len()
        invariant
            i <= all@.len(),
            crcs@ == narrowed(all@.take(i as int)),
        decreases all@.len() - i,
    {
        crcs.push(all[i] as u32);
        i = i + 1;
        assert(crcs@ =~= narrowed(all@.take(i as int)));
    }
    proof {
        assert(all@.take(all@.len() as int) =~= all@);
    }
    Some((crcs, end))
}

/// A list of fixed-width numbers has as many numbers as were asked for.
pub proof fn lemma_parsed_fixed_len(bytes: Seq<u8>, count: nat, width: nat)
    requires
        parsed_fixed(bytes, count, width) is Some,
    ensures
        (parsed_fixed(bytes, count, width)->0).0.len() == count,
    decreases count,
{
    if count > 0 {
        lemma_parsed_fixed_len(bytes.skip(width as int), (count - 1) as nat, width);
    }
}

} // verus!
