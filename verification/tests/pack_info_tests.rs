use sevenz_archive::writer::pack_info::{write_digests, PackInfo};

#[test]
fn pack_info_starts_empty() {
    let info = PackInfo::default();
    assert_eq!(info.len(), 0);
    assert_eq!(info.pos, 0);
    assert!(info.sizes.is_empty());
    assert!(info.crcs.is_empty());
}

#[test]
fn add_stream_records_size_and_checksum() {
    let mut info = PackInfo::default();
    info.add_stream(10, 0xAABB_CCDD);
    info.add_stream(300, 7);
    assert_eq!(info.len(), 2);
    assert_eq!(info.sizes, vec![10, 300]);
    assert_eq!(info.crcs, vec![0xAABB_CCDD, 7]);
    assert_eq!(info.pos, 0);
}

#[test]
fn writes_an_empty_pack_info() {
    let info = PackInfo::default();
    let mut header = Vec::new();
    info.write_to(&mut header);
    // PackInfo, pos 0, no streams, Size, CRC with all defined, End
    assert_eq!(header, vec![0x06, 0x00, 0x00, 0x09, 0x0A, 0x01, 0x00]);
}

#[test]
fn writes_sizes_and_checksums() {
    let mut info = PackInfo::default();
    info.pos = 5;
    info.add_stream(10, 0xAABB_CCDD);
    info.add_stream(300, 7);
    let mut header = vec![0x99];
    info.write_to(&mut header);
    assert_eq!(
        header,
        vec![
            0x99, 0x06, 0x05, 0x02, 0x09, 0x0A, 0x81, 0x2C, 0x0A, 0x01, 0xDD, 0xCC, 0xBB, 0xAA,
            0x07, 0x00, 0x00, 0x00, 0x00
        ]
    );
}

#[test]
fn a_zero_checksum_counts_as_absent() {
    let mut info = PackInfo::default();
    info.add_stream(1, 0x1111_1111);
    info.add_stream(2, 0);
    info.add_stream(3, 0x3333_3333);
    let mut header = Vec::new();
    info.write_to(&mut header);
    assert_eq!(
        header,
        vec![
            0x06, 0x00, 0x03, 0x09, 0x01, 0x02, 0x03, 0x0A, 0x00, 0xA0, 0x11, 0x11, 0x11, 0x11,
            0x33, 0x33, 0x33, 0x33, 0x00
        ]
    );
}

#[test]
fn digests_with_every_checksum_present() {
    let mut out = Vec::new();
    write_digests(&mut out, &vec![1, 2]);
    assert_eq!(out, vec![0x01, 1, 0, 0, 0, 2, 0, 0, 0]);
}

#[test]
fn digests_without_checksums() {
    let mut out = Vec::new();
    write_digests(&mut out, &vec![]);
    assert_eq!(out, vec![0x01]);
    let mut out = Vec::new();
    write_digests(&mut out, &vec![0, 0]);
    assert_eq!(out, vec![0x00, 0x00]);
}

#[test]
fn digests_mark_the_present_checksums_by_bit() {
    let mut crcs = vec![0u32; 9];
    crcs[0] = 5;
    crcs[8] = 6;
    let mut out = Vec::new();
    write_digests(&mut out, &crcs);
    assert_eq!(out, vec![0x00, 0x80, 0x80, 5, 0, 0, 0, 6, 0, 0, 0]);
}
