//! The archive format's variable-length integer.
//!
//! The first byte starts with `k` one bits (`k` from 0 to 8), which say how many
//! bytes follow. For `k < 8` a zero bit comes next, and the remaining `7 - k`
//! bits of the first byte are the most significant bits of the value. The `k`
//! following bytes hold the low `8 * k` bits of the value, little-endian.

use vstd::prelude::*;

verus! {

/// `256` to the power `k`.
pub open spec fn pow256(k: nat) -> nat
    decreases k,
{
    if k == 0 {
        1
    } else {
        256 * pow256((k - 1) as nat)
    }
}

/// The first byte's run of `k` leading one bits, as a number.
pub open spec fn length_prefix(k: nat) -> nat {
    if k == 0 {
        0x00
    } else if k == 1 {
        0x80
    } else if k == 2 {
        0xC0
    } else if k == 3 {
        0xE0
    } else if k == 4 {
        0xF0
    } else if k == 5 {
        0xF8
    } else if k == 6 {
        0xFC
    } else if k == 7 {
        0xFE
    } else {
        0xFF
    }
}

/// The number of one bits at the top of `first`.
pub open spec fn leading_ones(first: u8) -> nat {
    if first < 0x80 {
        0
    } else if first < 0xC0 {
        1
    } else if first < 0xE0 {
        2
    } else if first < 0xF0 {
        3
    } else if first < 0xF8 {
        4
    } else if first < 0xFC {
        5
    } else if first < 0xFE {
        6
    } else if first < 0xFF {
        7
    } else {
        8
    }
}

/// The values that fit an encoding with `k` following bytes are those below
/// `capacity(k)`, which is `2` to the power `7 * (k + 1)` for `k < 8`.
pub open spec fn capacity(k: nat) -> nat {
    if k == 0 {
        0x80
    } else if k == 1 {
        0x4000
    } else if k == 2 {
        0x20_0000
    } else if k == 3 {
        0x1000_0000
    } else if k == 4 {
        0x8_0000_0000
    } else if k == 5 {
        0x400_0000_0000
    } else if k == 6 {
        0x2_0000_0000_0000
    } else if k == 7 {
        0x100_0000_0000_0000
    } else {
        0x1_0000_0000_0000_0000
    }
}

/// The number of bytes that follow the first byte in the encoding of `value`:
/// the least `k` whose capacity holds the value.
pub open spec fn extra_bytes(value: u64) -> nat {
    if value < capacity(0) {
        0
    } else if value < capacity(1) {
        1
    } else if value < capacity(2) {
        2
    } else if value < capacity(3) {
        3
    } else if value < capacity(4) {
        4
    } else if value < capacity(5) {
        5
    } else if value < capacity(6) {
        6
    } else if value < capacity(7) {
        7
    } else {
        8
    }
}

/// The `count` least significant bytes of `value`, least significant first.
pub open spec fn le_bytes(value: nat, count: nat) -> Seq<u8>
    decreases count,
{
    if count == 0 {
        Seq::empty()
    } else {
        seq![(value % 256) as u8] + le_bytes(value / 256, (count - 1) as nat)
    }
}

/// The number that `bytes` spell, least significant byte first.
pub open spec fn le_value(bytes: Seq<u8>) -> nat
    decreases bytes.len(),
{
    if bytes.len() == 0 {
        0
    } else {
        bytes[0] as nat + 256 * le_value(bytes.skip(1))
    }
}

/// The encoding of `value`: the shortest one the format has for it.
pub open spec fn encoded_u64(value: u64) -> Seq<u8> {
    let k = extra_bytes(value);
    seq![(length_prefix(k) + value as nat / pow256(k)) as u8] + le_bytes(value as nat, k)
}

/// What a reader finds at the start of `bytes`: the value and the number of
/// bytes it took, or nothing where `bytes` ends too early.
pub open spec fn decoded_u64(bytes: Seq<u8>) -> Option<(u64, nat)> {
    if bytes.len() == 0 {
        None
    } else {
        let k = leading_ones(bytes[0]);
        if bytes.len() < 1 + k {
            None
        } else {
            let high = (bytes[0] as nat - length_prefix(k)) as nat;
            let low = le_value(bytes.subrange(1, 1 + k as int));
            Some(((high * pow256(k) + low) as u64, 1 + k))
        }
    }
}

/// The concatenation of the encodings of `values`, in order.
pub open spec fn encoded_all(values: Seq<u64>) -> Seq<u8>
    decreases values.len(),
{
    if values.len() == 0 {
        Seq::empty()
    } else {
        encoded_all(values.drop_last()) + encoded_u64(values.last())
    }
}

/// The powers of 256 up to the eighth.
pub proof fn lemma_pow256_values()
    ensures
        pow256(0) == 1,
        pow256(1) == 0x100,
        pow256(2) == 0x1_0000,
        pow256(3) == 0x100_0000,
        pow256(4) == 0x1_0000_0000,
        pow256(5) == 0x100_0000_0000,
        pow256(6) == 0x1_0000_0000_0000,
        pow256(7) == 0x100_0000_0000_0000,
        pow256(8) == 0x1_0000_0000_0000_0000,
{
    reveal_with_fuel(pow256, 10);
}

/// As many bytes are written as were asked for.
pub proof fn lemma_le_bytes_len(value: nat, count: nat)
    ensures
        le_bytes(value, count).len() == count,
    decreases count,
{
    if count > 0 {
        lemma_le_bytes_len(value / 256, (count - 1) as nat);
    }
}

/// An encoding is one byte longer than its number of following bytes, so it has
/// between one and nine bytes.
pub proof fn lemma_encoded_len(value: u64)
    ensures
        encoded_u64(value).len() == 1 + extra_bytes(value),
        1 <= encoded_u64(value).len() <= 9,
{
    lemma_le_bytes_len(value as nat, extra_bytes(value));
}

/// Bytes spell a number below 256 to the power of their count.
pub proof fn lemma_le_value_bound(bytes: Seq<u8>)
    ensures
        le_value(bytes) < pow256(bytes.len()),
    decreases bytes.len(),
{
    if bytes.len() > 0 {
        lemma_le_value_bound(bytes.skip(1));
    }
}

/// Reading back `count` little-endian bytes of `value` gives `value` modulo
/// `256` to the power `count`.
pub proof fn lemma_le_value_of_le_bytes(value: nat, count: nat)
    ensures
        le_value(le_bytes(value, count)) == value % pow256(count),
    decreases count,
{
    if count == 0 {
    } else {
        let rest = le_bytes(value / 256, (count - 1) as nat);
        let all = le_bytes(value, count);
        lemma_le_bytes_len(value / 256, (count - 1) as nat);
        lemma_le_value_of_le_bytes(value / 256, (count - 1) as nat);
        assert(all.skip(1) =~= rest);
        assert(all[0] == (value % 256) as u8);
        let p = pow256((count - 1) as nat);
        assert(p > 0) by {
            lemma_pow256_positive((count - 1) as nat);
        }
        lemma_mod_split(value, p);
    }
}

/// Every power of 256 is positive.
pub proof fn lemma_pow256_positive(k: nat)
    ensures
        pow256(k) > 0,
    decreases k,
{
    if k > 0 {
        lemma_pow256_positive((k - 1) as nat);
    }
}

/// The remainder by 256 times a number splits into the low byte and the
/// remainder of the rest.
proof fn lemma_mod_split(value: nat, p: nat)
    by (nonlinear_arith)
    requires
        p > 0,
    ensures
        value % (256 * p) == value % 256 + 256 * ((value / 256) % p),
{
    let q = value / 256;
    let r = value % 256;
    assert(value == 256 * q + r);
    let qq = q / p;
    let qr = q % p;
    assert(q == p * qq + qr);
    assert(value == (256 * p) * qq + (256 * qr + r));
    assert(0 <= 256 * qr + r < 256 * p);
    lemma_div_mod_unique(value as int, (256 * p) as int, qq as int, (256 * qr + r) as int);
}

/// Quotient and remainder are the only pair that puts a number together within
/// the divisor's range.
proof fn lemma_div_mod_unique(x: int, d: int, q: int, r: int)
    by (nonlinear_arith)
    requires
        d > 0,
        0 <= r < d,
        x == d * q + r,
    ensures
        x % d == r,
        x / d == q,
{
    let q0 = x / d;
    let r0 = x % d;
    assert(x == d * q0 + r0);
    assert(0 <= r0 < d);
    assert(d * (q - q0) == r0 - r);
    if q > q0 {
        assert(d * (q - q0) >= d);
    } else if q < q0 {
        assert(d * (q - q0) <= -d);
    }
}

/// Decoding an encoding gives the value back and takes exactly the encoding's
/// bytes, whatever follows them.
pub proof fn lemma_decode_encode(value: u64, rest: Seq<u8>)
    ensures
        decoded_u64(encoded_u64(value) + rest) == Some((value, encoded_u64(value).len())),
{
    let k = extra_bytes(value);
    let enc = encoded_u64(value);
    let all = enc + rest;
    let v = value as nat;
    lemma_pow256_values();
    lemma_encoded_len(value);
    lemma_le_bytes_len(v, k);
    let high = v / pow256(k);
    assert(high * pow256(k) + v % pow256(k) == v && high + length_prefix(k) < 256 && leading_ones(
        (length_prefix(k) + high) as u8,
    ) == k) by {
        lemma_high_part(value);
    }
    assert(all[0] == (length_prefix(k) + high) as u8);
    assert(all.subrange(1, 1 + k as int) =~= le_bytes(v, k));
    lemma_le_value_of_le_bytes(v, k);
}

/// The largest number that the first byte can carry below a prefix of `k` ones,
/// plus one.
pub open spec fn payload_limit(k: nat) -> nat {
    if k == 0 {
        0x80
    } else if k == 1 {
        0x40
    } else if k == 2 {
        0x20
    } else if k == 3 {
        0x10
    } else if k == 4 {
        0x08
    } else if k == 5 {
        0x04
    } else if k == 6 {
        0x02
    } else {
        0x01
    }
}

/// The part of a value that goes into the first byte fits beside the length
/// prefix, and the first byte then shows the encoding's length.
proof fn lemma_high_part(value: u64)
    ensures
        ({
            let k = extra_bytes(value);
            let high = value as nat / pow256(k);
            &&& high * pow256(k) + value as nat % pow256(k) == value
            &&& high < payload_limit(k)
            &&& high + length_prefix(k) < 256
            &&& leading_ones((length_prefix(k) + high) as u8) == k
        }),
{
    let k = extra_bytes(value);
    lemma_pow256_values();
    let v = value as nat;
    if k == 0 {
        assert(v / 1 == v && v % 1 == 0);
    } else if k == 1 {
        assert(v / 0x100 < 0x40 && (v / 0x100) * 0x100 + v % 0x100 == v);
    } else if k == 2 {
        assert(v / 0x1_0000 < 0x20 && (v / 0x1_0000) * 0x1_0000 + v % 0x1_0000 == v);
    } else if k == 3 {
        assert(v / 0x100_0000 < 0x10 && (v / 0x100_0000) * 0x100_0000 + v % 0x100_0000 == v);
    } else if k == 4 {
        assert(v / 0x1_0000_0000 < 0x08 && (v / 0x1_0000_0000) * 0x1_0000_0000 + v
            % 0x1_0000_0000 == v);
    } else if k == 5 {
        assert(v / 0x100_0000_0000 < 0x04 && (v / 0x100_0000_0000) * 0x100_0000_0000 + v
            % 0x100_0000_0000 == v);
    } else if k == 6 {
        assert(v / 0x1_0000_0000_0000 < 0x02 && (v / 0x1_0000_0000_0000) * 0x1_0000_0000_0000 + v
            % 0x1_0000_0000_0000 == v);
    } else if k == 7 {
        assert(v / 0x100_0000_0000_0000 < 0x01 && (v / 0x100_0000_0000_0000)
            * 0x100_0000_0000_0000 + v % 0x100_0000_0000_0000 == v);
    } else {
        assert(v / 0x1_0000_0000_0000_0000 < 0x01 && (v / 0x1_0000_0000_0000_0000)
            * 0x1_0000_0000_0000_0000 + v % 0x1_0000_0000_0000_0000 == v);
    }
}

/// Shifting right by `8 * i` bits divides by `256` to the power `i`.
proof fn lemma_shift_is_div(value: u64, i: u64)
    requires
        i < 8,
    ensures
        value >> (8 * i) == value as nat / pow256(i as nat),
{
    lemma_pow256_values();
    if i == 0 {
        assert(value >> 0u64 == value / 0x1u64) by (bit_vector);
    } else if i == 1 {
        assert(value >> 8u64 == value / 0x100u64) by (bit_vector);
    } else if i == 2 {
        assert(value >> 16u64 == value / 0x1_0000u64) by (bit_vector);
    } else if i == 3 {
        assert(value >> 24u64 == value / 0x100_0000u64) by (bit_vector);
    } else if i == 4 {
        assert(value >> 32u64 == value / 0x1_0000_0000u64) by (bit_vector);
    } else if i == 5 {
        assert(value >> 40u64 == value / 0x100_0000_0000u64) by (bit_vector);
    } else if i == 6 {
        assert(value >> 48u64 == value / 0x1_0000_0000_0000u64) by (bit_vector);
    } else {
        assert(value >> 56u64 == value / 0x100_0000_0000_0000u64) by (bit_vector);
    }
}

/// The bit patterns that the writer's loop builds, as numbers.
proof fn lemma_prefix_bits(i: u64)
    requires
        i <= 8,
    ensures
        0x100u64 - (0x100u64 >> i) == length_prefix(i as nat),
        i < 8 ==> (0x80u64 >> i) == payload_limit(i as nat),
        i < 8 ==> (1u64 << (7 * (i + 1)) as u64) == capacity(i as nat),
{
    assert(0x100u64 - (0x100u64 >> i) == if i == 0 {
        0x00u64
    } else if i == 1 {
        0x80u64
    } else if i == 2 {
        0xC0u64
    } else if i == 3 {
        0xE0u64
    } else if i == 4 {
        0xF0u64
    } else if i == 5 {
        0xF8u64
    } else if i == 6 {
        0xFCu64
    } else if i == 7 {
        0xFEu64
    } else {
        0xFFu64
    }) by (bit_vector)
        requires
            i <= 8,
    ;
    if i < 8 {
        assert((0x80u64 >> i) == if i == 0 {
            0x80u64
        } else if i == 1 {
            0x40u64
        } else if i == 2 {
            0x20u64
        } else if i == 3 {
            0x10u64
        } else if i == 4 {
            0x08u64
        } else if i == 5 {
            0x04u64
        } else if i == 6 {
            0x02u64
        } else {
            0x01u64
        }) by (bit_vector)
            requires
                i < 8,
        ;
        let shift: u64 = (7 * (i + 1)) as u64;
        assert((1u64 << shift) == if i == 0 {
            0x80u64
        } else if i == 1 {
            0x4000u64
        } else if i == 2 {
            0x20_0000u64
        } else if i == 3 {
            0x1000_0000u64
        } else if i == 4 {
            0x8_0000_0000u64
        } else if i == 5 {
            0x400_0000_0000u64
        } else if i == 6 {
            0x2_0000_0000_0000u64
        } else {
            0x100_0000_0000_0000u64
        }) by (bit_vector)
            requires
                i < 8,
                shift == 7 * (i + 1),
        ;
    }
}

/// No encoding of a value is shorter than the one that `encoded_u64` gives:
/// whatever bytes decode to `value` take at least as many bytes.
pub proof fn lemma_encoding_is_shortest(bytes: Seq<u8>, value: u64, taken: nat)
    requires
        decoded_u64(bytes) == Some((value, taken)),
    ensures
        encoded_u64(value).len() <= taken,
{
    let k = leading_ones(bytes[0]);
    lemma_pow256_values();
    lemma_encoded_len(value);
    let low_bytes = bytes.subrange(1, 1 + k as int);
    lemma_le_value_bound(low_bytes);
    let high = (bytes[0] as nat - length_prefix(k)) as nat;
    let low = le_value(low_bytes);
    let p = pow256(k);
    assert(low < p);
    assert(high * p + low < capacity(k)) by {
        lemma_decoded_bound(high, low, k);
    }
}

/// What is read with `k` following bytes is below the capacity of `k`.
proof fn lemma_decoded_bound(high: nat, low: nat, k: nat)
    requires
        k <= 8,
        low < pow256(k),
        high + length_prefix(k) < 256,
        leading_ones((high + length_prefix(k)) as u8) == k,
    ensures
        high * pow256(k) + low < capacity(k),
{
    lemma_pow256_values();
    let p = pow256(k);
    let bound: nat = if k == 0 {
        0x80
    } else if k == 1 {
        0x40
    } else if k == 2 {
        0x20
    } else if k == 3 {
        0x10
    } else if k == 4 {
        0x08
    } else if k == 5 {
        0x04
    } else if k == 6 {
        0x02
    } else {
        0x01
    };
    assert(high < bound);
    assert(high * p + low < bound * p) by (nonlinear_arith)
        requires
            high < bound,
            low < p,
    ;
}

/// Two values with the same encoding are the same value.
pub proof fn lemma_encoding_is_injective(a: u64, b: u64)
    requires
        encoded_u64(a) == encoded_u64(b),
    ensures
        a == b,
{
    lemma_decode_encode(a, Seq::empty());
    lemma_decode_encode(b, Seq::empty());
}

/// Every number a reader can find fits the capacity of its encoding's length,
/// and so fits a `u64`.
pub proof fn lemma_decoded_fits(bytes: Seq<u8>)
    requires
        bytes.len() > 0,
        bytes.len() >= 1 + leading_ones(bytes[0]),
    ensures
        ({
            let k = leading_ones(bytes[0]);
            let high = (bytes[0] as nat - length_prefix(k)) as nat;
            high * pow256(k) + le_value(bytes.subrange(1, 1 + k as int)) < capacity(k)
        }),
{
    let k = leading_ones(bytes[0]);
    let low_bytes = bytes.subrange(1, 1 + k as int);
    lemma_le_value_bound(low_bytes);
    let high = (bytes[0] as nat - length_prefix(k)) as nat;
    lemma_decoded_bound(high, le_value(low_bytes), k);
}

/// Writing a number in little-endian bytes and reading the bytes back are
/// inverse to each other, whatever stands above the bytes' range in the number.
pub proof fn lemma_le_bytes_of_le_value(bytes: Seq<u8>, above: nat)
    ensures
        le_bytes(le_value(bytes) + above * pow256(bytes.len()), bytes.len()) == bytes,
    decreases bytes.len(),
{
    if bytes.len() == 0 {
        assert(le_bytes(le_value(bytes) + above * pow256(0), 0) =~= bytes);
    } else {
        let rest = bytes.skip(1);
        let p = pow256(rest.len());
        let number = le_value(bytes) + above * pow256(bytes.len());
        lemma_le_bytes_of_le_value(rest, above);
        assert(pow256(bytes.len()) == 256 * p);
        assert(above * (256 * p) == 256 * (above * p)) by (nonlinear_arith);
        assert(number == bytes[0] as nat + 256 * (le_value(rest) + above * p));
        assert(number % 256 == bytes[0] as nat && number / 256 == le_value(rest) + above * p);
        assert(le_bytes(number, bytes.len()) =~= bytes);
    }
}

/// Among the byte strings that decode to a value, only its encoding has the
/// encoding's length: the shortest form is unique.
pub proof fn lemma_shortest_form_is_unique(bytes: Seq<u8>, value: u64, taken: nat)
    requires
        decoded_u64(bytes) == Some((value, taken)),
        taken == encoded_u64(value).len(),
    ensures
        bytes.take(taken as int) == encoded_u64(value),
{
    let k = leading_ones(bytes[0]);
    lemma_pow256_values();
    lemma_encoded_len(value);
    assert(k == extra_bytes(value));
    let low_bytes = bytes.subrange(1, 1 + k as int);
    let high = (bytes[0] as nat - length_prefix(k)) as nat;
    let low = le_value(low_bytes);
    let p = pow256(k);
    lemma_le_value_bound(low_bytes);
    lemma_decoded_bound(high, low, k);
    assert(value as nat == high * p + low);
    assert(p * high == high * p) by (nonlinear_arith);
    lemma_div_mod_unique(value as int, p as int, high as int, low as int);
    lemma_le_bytes_of_le_value(low_bytes, high);
    lemma_le_bytes_len(value as nat, k);
    assert(bytes.take(taken as int) =~= encoded_u64(value));
}

/// Appends the encoding of `value` to `header`.
pub fn write_encoded_u64(header: &mut Vec<u8>, value: u64)
    ensures
        final(header)@ == old(header)@ + encoded_u64(value),
{
    let mut first: u64 = 0;
    let mut mask: u64 = 0x80;
    let mut i: u64 = 0;
    proof {
        lemma_prefix_bits(0);
        lemma_pow256_values();
    }
    while i < 8
        invariant_except_break
            i <= 8,
            first == 0x100u64 - (0x100u64 >> i),
            first == length_prefix(i as nat),
            mask == 0x80u64 >> i,
            i <= extra_bytes(value),
            pow256(8) == 0x1_0000_0000_0000_0000,
        ensures
            i == extra_bytes(value),
            first == length_prefix(i as nat) + value as nat / pow256(i as nat),
            first < 256,
        decreases 8 - i,
    {
        let shift: u64 = 7 * (i + 1);
        let limit: u64 = 1u64 << shift;
        proof {
            lemma_prefix_bits(i);
            lemma_prefix_bits((i + 1) as u64);
            lemma_high_part(value);
            lemma_pow256_values();
        }
        if value < limit {
            let high: u64 = value >> (8 * i);
            proof {
                lemma_shift_is_div(value, i);
                assert(first | high == first + high) by (bit_vector)
                    requires
                        i < 8,
                        high < (0x80u64 >> i),
                        first == 0x100u64 - (0x100u64 >> i),
                ;
            }
            first = first | high;
            break ;
        }
        proof {
            assert(first | mask == 0x100u64 - (0x100u64 >> ((i + 1) as u64)) && mask >> 1 == 0x80u64
                >> ((i + 1) as u64)) by (bit_vector)
                requires
                    i < 8,
                    first == 0x100u64 - (0x100u64 >> i),
                    mask == 0x80u64 >> i,
            ;
        }
        first = first | mask;
        mask = mask >> 1;
        i = i + 1;
    }
    header.push(first as u8);
    let ghost start = old(header)@ + seq![first as u8];
    let mut rest: u64 = value;
    while i > 0
        invariant
            i <= 8,
            header@ + le_bytes(rest as nat, i as nat) == start + le_bytes(
                value as nat,
                extra_bytes(value),
            ),
        decreases i,
    {
        let low: u8 = (rest & 0xFF) as u8;
        proof {
            assert(rest & 0xFF == rest % 256 && rest >> 8 == rest / 256) by (bit_vector);
            assert(header@.push(low) + le_bytes((rest >> 8) as nat, (i - 1) as nat) =~= header@
                + le_bytes(rest as nat, i as nat));
        }
        header.push(low);
        rest = rest >> 8;
        i = i - 1;
    }
    proof {
        assert(header@ + le_bytes(rest as nat, 0) =~= header@);
        assert(start + le_bytes(value as nat, extra_bytes(value)) =~= old(header)@ + encoded_u64(
            value,
        ));
    }
}

/// Reads one encoded integer from the start of `bytes`: the value and the
/// number of bytes it took, or `None` where `bytes` ends before the encoding
/// does.
pub fn read_encoded_u64(bytes: &[u8]) -> (found: Option<(u64, usize)>)
    ensures
        match decoded_u64(bytes@) {
            Some((value, taken)) => found == Some((value, taken as usize)) && taken <= bytes@.len(),
            None => found is None,
        },
{
    if bytes.len() == 0 {
        return None;
    }
    let first: u8 = bytes[0];
    let k: usize = if first < 0x80 {
        0
    } else if first < 0xC0 {
        1
    } else if first < 0xE0 {
        2
    } else if first < 0xF0 {
        3
    } else if first < 0xF8 {
        4
    } else if first < 0xFC {
        5
    } else if first < 0xFE {
        6
    } else if first < 0xFF {
        7
    } else {
        8
    };
    if bytes.len() - 1 < k {
        return None;
    }
    let prefix: u8 = if k == 0 {
        0x00
    } else if k == 1 {
        0x80
    } else if k == 2 {
        0xC0
    } else if k == 3 {
        0xE0
    } else if k == 4 {
        0xF0
    } else if k == 5 {
        0xF8
    } else if k == 6 {
        0xFC
    } else if k == 7 {
        0xFE
    } else {
        0xFF
    };
    let ghost low_bytes = bytes@.subrange(1, 1 + k as int);
    let mut value: u64 = (first - prefix) as u64;
    let mut i: usize = k;
    proof {
        lemma_pow256_values();
        lemma_decoded_fits(bytes@);
        assert(low_bytes.subrange(k as int, k as int) =~= Seq::<u8>::empty());
    }
    while i > 0
        invariant
            i <= k <= 8,
            prefix <= first,
            bytes@.len() >= 1 + k,
            low_bytes == bytes@.subrange(1, 1 + k as int),
            value == (first - prefix) * pow256((k - i) as nat) + le_value(
                low_bytes.subrange(i as int, k as int),
            ),
            (first - prefix) * pow256(k as nat) + le_value(low_bytes) < capacity(k as nat),
        decreases i,
    {
        let byte: u8 = bytes[i];
        proof {
            let tail = low_bytes.subrange(i as int, k as int);
            let longer = low_bytes.subrange(i - 1, k as int);
            assert(longer.skip(1) =~= tail);
            assert(longer[0] == byte);
            lemma_step_bound((first - prefix) as nat, low_bytes, (i - 1) as nat, k as nat);
            assert(pow256((k - i + 1) as nat) == 256 * pow256((k - i) as nat));
            assert((first - prefix) * pow256((k - i + 1) as nat) == 256 * ((first - prefix)
                * pow256((k - i) as nat))) by (nonlinear_arith)
                requires
                    pow256((k - i + 1) as nat) == 256 * pow256((k - i) as nat),
            ;
        }
        value = value * 256 + byte as u64;
        i = i - 1;
    }
    proof {
        assert(low_bytes.subrange(0, k as int) =~= low_bytes);
    }
    Some((value, 1 + k))
}

/// While a reader folds in the following bytes from the last to the first, the
/// part it has read so far stays below the final value.
proof fn lemma_step_bound(high: nat, low_bytes: Seq<u8>, from: nat, k: nat)
    requires
        from <= k == low_bytes.len(),
    ensures
        high * pow256((k - from) as nat) + le_value(low_bytes.subrange(from as int, k as int))
            <= high * pow256(k) + le_value(low_bytes),
    decreases from,
{
    if from == 0 {
        assert(low_bytes.subrange(0, k as int) =~= low_bytes);
    } else {
        lemma_step_bound(high, low_bytes, (from - 1) as nat, k);
        let tail = low_bytes.subrange(from as int, k as int);
        let longer = low_bytes.subrange(from - 1, k as int);
        assert(longer.skip(1) =~= tail);
        let p = pow256((k - from) as nat);
        assert(pow256((k - from + 1) as nat) == 256 * p);
        assert(high * (256 * p) == 256 * (high * p)) by (nonlinear_arith);
        assert(high * p <= 256 * (high * p)) by (nonlinear_arith);
    }
}

/// Appends the encodings of `values`, in order.
pub fn write_all_encoded(header: &mut Vec<u8>, values: &Vec<u64>)
    ensures
        final(header)@ == old(header)@ + encoded_all(values@),
{
    let mut i: usize = 0;
    while i < values.len()
        invariant
            i <= values@.len(),
            header@ == old(header)@ + encoded_all(values@.take(i as int)),
        decreases values@.len() - i,
    {
        proof {
            let next = values@.take(i + 1);
            assert(next.drop_last() =~= values@.take(i as int));
            assert(next.last() == values@[i as int]);
            assert(old(header)@ + encoded_all(values@.take(i as int)) + encoded_u64(
                values@[i as int],
            ) =~= old(header)@ + encoded_all(next));
        }
        write_encoded_u64(header, values[i]);
        i = i + 1;
    }
    proof {
        assert(values@.take(values@.len() as int) =~= values@);
    }
}

} // verus!
