use sevenz_archive::bitset::BitSet;
use sevenz_archive::writer::bytes::{
    bitset_to_bytes, push_all, push_le, vec_push_le_u32, vec_push_le_u64, write_all_le32,
};

#[test]
fn bit_set_starts_empty() {
    let set = BitSet::new();
    assert!(!set.contains(0));
    assert!(!set.contains(1000));
    let sized = BitSet::with_capacity(64);
    assert!(!sized.contains(0));
    assert!(!sized.contains(63));
}

#[test]
fn bit_set_insert_reports_whether_the_index_is_new() {
    let mut set = BitSet::new();
    assert!(set.insert(5));
    assert!(!set.insert(5));
    assert!(set.contains(5));
    assert!(!set.contains(4));
    assert!(!set.contains(6));
    assert!(set.insert(0));
    assert!(set.insert(70));
    assert!(set.contains(0) && set.contains(5) && set.contains(70));
    assert!(!set.contains(69));
}

#[test]
fn packs_bits_most_significant_first() {
    let mut set = BitSet::new();
    set.insert(0);
    assert_eq!(bitset_to_bytes(&set, 8), vec![0x80]);
    let mut set = BitSet::new();
    set.insert(7);
    assert_eq!(bitset_to_bytes(&set, 8), vec![0x01]);
    let mut set = BitSet::new();
    set.insert(1);
    set.insert(3);
    set.insert(8);
    assert_eq!(bitset_to_bytes(&set, 9), vec![0x50, 0x80]);
}

#[test]
fn packs_into_the_ceiling_of_an_eighth_of_the_capacity() {
    let set = BitSet::new();
    assert_eq!(bitset_to_bytes(&set, 0), Vec::<u8>::new());
    assert_eq!(bitset_to_bytes(&set, 1), vec![0x00]);
    assert_eq!(bitset_to_bytes(&set, 8), vec![0x00]);
    assert_eq!(bitset_to_bytes(&set, 9), vec![0x00, 0x00]);
    assert_eq!(bitset_to_bytes(&set, 16), vec![0x00, 0x00]);
    assert_eq!(bitset_to_bytes(&set, 17).len(), 3);
}

#[test]
fn leaves_bits_beyond_the_capacity_out() {
    let mut set = BitSet::new();
    set.insert(2);
    set.insert(3);
    set.insert(12);
    assert_eq!(bitset_to_bytes(&set, 3), vec![0x20]);
    assert_eq!(bitset_to_bytes(&set, 4), vec![0x30]);
    assert_eq!(bitset_to_bytes(&set, 12), vec![0x30, 0x00]);
    assert_eq!(bitset_to_bytes(&set, 13), vec![0x30, 0x08]);
}

#[test]
fn packs_a_full_set() {
    let mut set = BitSet::with_capacity(20);
    for i in 0..20 {
        set.insert(i);
    }
    assert_eq!(bitset_to_bytes(&set, 20), vec![0xFF, 0xFF, 0xF0]);
}

#[test]
fn pushes_u64_little_endian() {
    let mut buf = vec![0xEE];
    vec_push_le_u64(&mut buf, 0x0102_0304_0506_0708);
    assert_eq!(buf, vec![0xEE, 8, 7, 6, 5, 4, 3, 2, 1]);
    let mut buf = Vec::new();
    vec_push_le_u64(&mut buf, u64::MAX);
    assert_eq!(buf, vec![0xFF; 8]);
    let mut buf = Vec::new();
    vec_push_le_u64(&mut buf, 0);
    assert_eq!(buf, vec![0; 8]);
}

#[test]
fn pushes_u32_little_endian() {
    let mut buf = Vec::new();
    vec_push_le_u32(&mut buf, 0xCBF4_3926);
    assert_eq!(buf, vec![0x26, 0x39, 0xF4, 0xCB]);
    vec_push_le_u32(&mut buf, 1);
    assert_eq!(buf, vec![0x26, 0x39, 0xF4, 0xCB, 1, 0, 0, 0]);
}

#[test]
fn pushes_the_low_bytes_only() {
    let mut buf = Vec::new();
    push_le(&mut buf, 0x1122_3344_5566_7788, 3);
    assert_eq!(buf, vec![0x88, 0x77, 0x66]);
    push_le(&mut buf, 0x1122_3344_5566_7788, 0);
    assert_eq!(buf.len(), 3);
}

#[test]
fn pushes_slices_and_lists() {
    let mut buf = vec![1];
    push_all(&mut buf, &[2, 3]);
    push_all(&mut buf, &[]);
    assert_eq!(buf, vec![1, 2, 3]);
    write_all_le32(&mut buf, &vec![0x0A0B_0C0D, 2]);
    assert_eq!(buf, vec![1, 2, 3, 0x0D, 0x0C, 0x0B, 0x0A, 2, 0, 0, 0]);
}
