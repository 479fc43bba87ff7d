use sevenz_archive::writer::varint::{read_encoded_u64, write_encoded_u64};

fn encode(value: u64) -> Vec<u8> {
    let mut out = Vec::new();
    write_encoded_u64(&mut out, value);
    out
}

#[test]
fn encodes_small_values_in_one_byte() {
    assert_eq!(encode(0), vec![0x00]);
    assert_eq!(encode(1), vec![0x01]);
    assert_eq!(encode(0x7F), vec![0x7F]);
}

#[test]
fn encodes_two_byte_values() {
    assert_eq!(encode(0x80), vec![0x80, 0x80]);
    assert_eq!(encode(0xFF), vec![0x80, 0xFF]);
    assert_eq!(encode(0x100), vec![0x81, 0x00]);
    assert_eq!(encode(0x3FFF), vec![0xBF, 0xFF]);
}

#[test]
fn encodes_three_byte_values() {
    assert_eq!(encode(0x4000), vec![0xC0, 0x00, 0x40]);
    assert_eq!(encode(0x1F_FFFF), vec![0xDF, 0xFF, 0xFF]);
}

#[test]
fn encodes_the_largest_values_in_nine_bytes() {
    assert_eq!(
        encode(u64::MAX),
        vec![0xFF, 0xFF, 0xFF, 0xFF, 0xFF, 0xFF, 0xFF, 0xFF, 0xFF]
    );
    assert_eq!(
        encode(1u64 << 63),
        vec![0xFF, 0x00, 0x00, 0x00, 0x00, 0x00, 0x00, 0x00, 0x80]
    );
    assert_eq!(
        encode(1u64 << 56),
        vec![0xFF, 0x00, 0x00, 0x00, 0x00, 0x00, 0x00, 0x00, 0x01]
    );
    assert_eq!(
        encode((1u64 << 56) - 1),
        vec![0xFE, 0xFF, 0xFF, 0xFF, 0xFF, 0xFF, 0xFF, 0xFF]
    );
}

#[test]
fn appends_behind_what_is_there() {
    let mut out = vec![0xAA];
    write_encoded_u64(&mut out, 300);
    assert_eq!(out, vec![0xAA, 0x81, 0x2C]);
}

#[test]
fn reads_back_every_length() {
    let mut value: u64 = 1;
    for _ in 0..64 {
        for candidate in [value - 1, value, value + 1] {
            let bytes = encode(candidate);
            assert_eq!(read_encoded_u64(&bytes), Some((candidate, bytes.len())));
        }
        value = value.wrapping_mul(2);
        if value == 0 {
            break;
        }
    }
    let bytes = encode(u64::MAX);
    assert_eq!(read_encoded_u64(&bytes), Some((u64::MAX, 9)));
}

#[test]
fn reads_only_the_encoding_and_leaves_the_rest() {
    assert_eq!(read_encoded_u64(&[0x81, 0x2C, 0x55, 0x66]), Some((300, 2)));
}

#[test]
fn reads_nothing_from_truncated_input() {
    assert_eq!(read_encoded_u64(&[]), None);
    assert_eq!(read_encoded_u64(&[0x80]), None);
    assert_eq!(read_encoded_u64(&[0xFF, 1, 2, 3, 4, 5, 6, 7]), None);
}

#[test]
fn reads_an_encoding_that_is_longer_than_needed() {
    assert_eq!(read_encoded_u64(&[0x80, 0x05]), Some((5, 2)));
    assert_eq!(encode(5), vec![0x05]);
}

#[test]
fn encoding_length_grows_at_powers_of_128() {
    let mut limit: u64 = 0x80;
    for extra in 0..8usize {
        assert_eq!(encode(limit - 1).len(), 1 + extra);
        assert_eq!(encode(limit).len(), 2 + extra);
        if extra < 7 {
            limit <<= 7;
        }
    }
}
