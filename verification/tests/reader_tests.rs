use sevenz_archive::error::ChecksumScope;
use sevenz_archive::reader::header::{read_header, Archive};
use sevenz_archive::reader::{read_header_bytes, read_signature_header, StartHeader};
use sevenz_archive::writer::{Content, EncodedStream};
use sevenz_archive::{ArchiveEntry, ArchiveWriter, EncoderConfiguration, EncoderMethod, Error};

fn archive(offset: u64, size: u64, body: &[u8], header: &[u8]) -> Vec<u8> {
    let mut start = Vec::new();
    start.extend_from_slice(&offset.to_le_bytes());
    start.extend_from_slice(&size.to_le_bytes());
    start.extend_from_slice(&crc32fast::hash(header).to_le_bytes());
    let mut bytes = vec![0x37, 0x7A, 0xBC, 0xAF, 0x27, 0x1C, 0x00, 0x04];
    bytes.extend_from_slice(&crc32fast::hash(&start).to_le_bytes());
    bytes.extend_from_slice(&start);
    bytes.extend_from_slice(body);
    bytes.extend_from_slice(header);
    bytes
}

#[test]
fn reads_the_start_header() {
    let bytes = archive(3, 2, &[1, 2, 3], &[8, 9]);
    assert_eq!(
        read_signature_header(&bytes),
        Ok(StartHeader { offset: 3, size: 2, crc: crc32fast::hash(&[8, 9]) })
    );
    assert_eq!(read_header_bytes(&bytes), Ok(&[8u8, 9][..]));
}

#[test]
fn reads_an_empty_header() {
    let bytes = archive(0, 0, &[], &[]);
    assert_eq!(read_signature_header(&bytes), Ok(StartHeader { offset: 0, size: 0, crc: 0 }));
    assert_eq!(read_header_bytes(&bytes), Ok(&[][..]));
}

#[test]
fn ignores_what_follows_the_header() {
    let mut bytes = archive(1, 2, &[7], &[8, 9]);
    bytes.extend_from_slice(&[1, 1, 1]);
    assert_eq!(read_header_bytes(&bytes), Ok(&[8u8, 9][..]));
}

#[test]
fn short_input_is_an_unexpected_end() {
    assert_eq!(read_signature_header(&[]), Err(Error::UnexpectedEof));
    let bytes = archive(0, 0, &[], &[]);
    assert_eq!(read_signature_header(&bytes[..31]), Err(Error::UnexpectedEof));
    assert_eq!(read_header_bytes(&bytes[..31]), Err(Error::UnexpectedEof));
}

#[test]
fn wrong_magic_is_a_bad_signature() {
    for i in 0..6 {
        let mut bytes = archive(0, 0, &[], &[]);
        bytes[i] ^= 1;
        assert_eq!(read_signature_header(&bytes), Err(Error::BadSignature));
        assert_eq!(read_header_bytes(&bytes), Err(Error::BadSignature));
    }
    assert_eq!(read_signature_header(&[0u8; 32]), Err(Error::BadSignature));
}

#[test]
fn other_major_version_is_unsupported() {
    let mut bytes = archive(0, 0, &[], &[]);
    bytes[6] = 1;
    assert_eq!(read_signature_header(&bytes), Err(Error::UnsupportedVersion));
}

#[test]
fn minor_version_is_not_checked() {
    let mut bytes = archive(0, 0, &[], &[]);
    bytes[7] = 3;
    assert!(read_signature_header(&bytes).is_ok());
}

#[test]
fn damaged_start_header_is_a_checksum_mismatch() {
    for i in 8..32 {
        let mut bytes = archive(3, 2, &[1, 2, 3], &[8, 9]);
        bytes[i] ^= 0x10;
        assert_eq!(
            read_signature_header(&bytes),
            Err(Error::ChecksumMismatch { scope: ChecksumScope::Header, index: 0 })
        );
    }
}

#[test]
fn header_length_beyond_32_bits_is_malformed() {
    let bytes = archive(0, 0x1_0000_0000, &[], &[]);
    assert_eq!(read_signature_header(&bytes), Err(Error::MalformedHeader { offset: 20 }));
    let bytes = archive(0, 0xFFFF_FFFF, &[], &[]);
    assert_eq!(
        read_signature_header(&bytes),
        Ok(StartHeader { offset: 0, size: 0xFFFF_FFFF, crc: 0 })
    );
}

#[test]
fn header_outside_the_archive_is_an_unexpected_end() {
    let bytes = archive(3, 3, &[1, 2, 3], &[8, 9]);
    assert_eq!(read_header_bytes(&bytes), Err(Error::UnexpectedEof));
    let bytes = archive(6, 0, &[1, 2, 3], &[8, 9]);
    assert_eq!(read_header_bytes(&bytes), Err(Error::UnexpectedEof));
    let bytes = archive(u64::MAX, 2, &[1, 2, 3], &[8, 9]);
    assert_eq!(read_header_bytes(&bytes), Err(Error::UnexpectedEof));
}

#[test]
fn damaged_header_is_a_checksum_mismatch() {
    let mut bytes = archive(3, 2, &[1, 2, 3], &[8, 9]);
    bytes[36] ^= 1;
    assert_eq!(
        read_header_bytes(&bytes),
        Err(Error::ChecksumMismatch { scope: ChecksumScope::Header, index: 1 })
    );
    let mut bytes = archive(3, 2, &[1, 2, 3], &[8, 9]);
    bytes[33] ^= 1;
    assert_eq!(read_header_bytes(&bytes), Ok(&[8u8, 9][..]));
}

fn stored(data: &[u8]) -> Content {
    Content {
        data: data.to_vec(),
        encoded: EncodedStream { packed: data.to_vec(), stage_sizes: vec![] },
    }
}

fn reread(writer: &ArchiveWriter) -> Archive {
    let mut header = Vec::new();
    writer.write_header(&mut header);
    let archive = read_header(&header).unwrap();
    let mut again = Vec::new();
    archive.write_header(&mut again);
    assert_eq!(again, header);
    archive
}

#[test]
fn reads_the_header_of_an_empty_archive() {
    let writer = ArchiveWriter::create_in_memory();
    let archive = reread(&writer);
    assert!(archive.files.is_empty());
    assert!(archive.unpack_info.blocks.is_empty());
    assert_eq!(archive.pack_info.len(), 0);
    assert_eq!(archive.pack_info.pos, 0);
}

#[test]
fn reads_back_what_the_writer_was_given() {
    let mut writer = ArchiveWriter::create_in_memory();
    writer.set_content_methods(vec![
        EncoderConfiguration::with_properties(EncoderMethod::Lzma2, vec![0x16]),
        EncoderConfiguration::new(EncoderMethod::BcjX86),
    ]).unwrap();
    let mut first = ArchiveEntry::new_file("dir/first.txt".to_string());
    first.has_last_modified_date = true;
    first.last_modified_date = 0x01DA_1234_5678_9ABC;
    first.has_windows_attributes = true;
    first.windows_attributes = 0x20;
    let content = Content {
        data: b"123456789".to_vec(),
        encoded: EncodedStream { packed: vec![1, 2, 3], stage_sizes: vec![9] },
    };
    writer.push_archive_entry(first, Some(content)).unwrap();
    let mut dir = ArchiveEntry::new_directory("dir".to_string());
    dir.has_creation_date = true;
    dir.creation_date = 77;
    writer.push_archive_entry(dir, None).unwrap();
    writer.push_archive_entry(ArchiveEntry::new_file("empty \u{1F600}".to_string()), None).unwrap();
    let mut gone = ArchiveEntry::new_file("gone".to_string());
    gone.is_anti_item = true;
    writer.push_archive_entry(gone, None).unwrap();
    writer
        .push_archive_entries(
            vec![
                ArchiveEntry::new_file("s1".to_string()),
                ArchiveEntry::new_file("s2".to_string()),
                ArchiveEntry::new_file("s3".to_string()),
            ],
            vec![b"aa".to_vec(), vec![], b"bbbb".to_vec()],
            EncodedStream { packed: vec![9; 5], stage_sizes: vec![6] },
        )
        .unwrap();
    let archive = reread(&writer);
    assert_eq!(archive.pack_info.sizes, vec![3, 5]);
    assert_eq!(
        archive.pack_info.crcs,
        vec![crc32fast::hash(&[1, 2, 3]), crc32fast::hash(&[9; 5])]
    );
    assert_eq!(archive.unpack_info.blocks.len(), 2);
    let block = &archive.unpack_info.blocks[0];
    assert_eq!(block.methods.len(), 2);
    assert!(block.methods[0].is_method(EncoderMethod::Lzma2));
    assert_eq!(block.methods[0].properties(), &vec![0x16]);
    assert!(block.methods[1].is_method(EncoderMethod::BcjX86));
    assert_eq!(block.sizes, vec![9, 9]);
    assert_eq!(block.num_sub_unpack_streams, 1);
    assert_eq!(block.crc, 0xCBF4_3926);
    let block = &archive.unpack_info.blocks[1];
    assert_eq!(block.sizes, vec![6, 6]);
    assert_eq!(block.num_sub_unpack_streams, 2);
    assert_eq!(block.sub_stream_sizes, vec![2, 4]);
    assert_eq!(block.sub_stream_crcs, vec![crc32fast::hash(b"aa"), crc32fast::hash(b"bbbb")]);
    let names: Vec<&str> = archive.files.iter().map(|file| file.name.as_str()).collect();
    assert_eq!(names, vec!["dir/first.txt", "dir", "empty \u{1F600}", "gone", "s1", "s2", "s3"]);
    let streams: Vec<bool> = archive.files.iter().map(|file| file.has_stream).collect();
    assert_eq!(streams, vec![true, false, false, false, true, false, true]);
    let sizes: Vec<u64> = archive.files.iter().map(|file| file.size).collect();
    assert_eq!(sizes, vec![9, 0, 0, 0, 2, 0, 4]);
    assert_eq!(archive.files[0].crc, 0xCBF4_3926);
    assert!(archive.files[0].has_crc);
    assert_eq!(archive.files[4].crc, crc32fast::hash(b"aa") as u64);
    assert_eq!(archive.files[6].crc, crc32fast::hash(b"bbbb") as u64);
    assert!(!archive.files[1].has_crc);
    assert!(archive.files[1].is_directory);
    assert!(!archive.files[2].is_directory);
    assert!(!archive.files[3].is_directory);
    assert!(archive.files[3].is_anti_item);
    assert!(!archive.files[2].is_anti_item);
    assert!(archive.files[0].has_last_modified_date);
    assert_eq!(archive.files[0].last_modified_date, 0x01DA_1234_5678_9ABC);
    assert!(!archive.files[1].has_last_modified_date);
    assert_eq!(archive.files[1].last_modified_date, 0);
    assert!(archive.files[1].has_creation_date);
    assert_eq!(archive.files[1].creation_date, 77);
    assert!(archive.files[0].has_windows_attributes);
    assert_eq!(archive.files[0].windows_attributes, 0x20);
    assert!(!archive.files[5].has_windows_attributes);
}

#[test]
fn reads_the_header_of_a_finished_archive() {
    let mut writer = ArchiveWriter::create_in_memory();
    writer.set_content_methods(vec![EncoderConfiguration::new(EncoderMethod::Copy)]).unwrap();
    writer.push_archive_entry(ArchiveEntry::new_file("a".to_string()), Some(stored(b"abc"))).unwrap();
    let bytes = writer.finish(None).unwrap();
    let archive = read_header(read_header_bytes(&bytes).unwrap()).unwrap();
    assert_eq!(archive.files.len(), 1);
    assert_eq!(archive.files[0].name, "a");
    assert_eq!(archive.files[0].size, 3);
    assert_eq!(archive.pack_info.sizes, vec![3]);
}

#[test]
fn normalises_what_it_reads() {
    // EncodedU64 values in longer forms than needed, the files per block given
    // though each block has one, a presence bit vector with every bit set.
    let header: Vec<u8> = vec![
        0x01, 0x04, // Header, MainStreamsInfo
        0x06, 0x80, 0x00, 0x01, 0x09, 0x03, 0x00, // PackInfo without checksums
        0x07, 0x0B, 0x01, 0x00, 0x01, 0x81, 0x00, 0x0C, 0x05, 0x00, // one block, Copy with bit 0x80
        0x08, 0x0D, 0x01, 0x0A, 0x00, 0x80, 0x44, 0x33, 0x22, 0x11, 0x00, // substreams
        0x00, // End of streams info
        0x05, 0x01, 0x11, 0x05, 0x00, b'x', 0x00, 0x00, 0x00, // one file called x
        0x14, 0x0B, 0x00, 0x80, 0x00, 1, 0, 0, 0, 0, 0, 0, 0, // its time, by bit vector
        0x00, 0x00,
    ];
    let archive = read_header(&header).unwrap();
    assert_eq!(archive.pack_info.sizes, vec![3]);
    assert_eq!(archive.pack_info.crcs, vec![0]);
    assert_eq!(archive.unpack_info.blocks[0].crc, 0x1122_3344);
    assert_eq!(archive.files[0].name, "x");
    assert_eq!(archive.files[0].size, 5);
    assert_eq!(archive.files[0].last_modified_date, 1);
    let mut written = Vec::new();
    archive.write_header(&mut written);
    let canonical: Vec<u8> = vec![
        0x01, 0x04, 0x06, 0x00, 0x01, 0x09, 0x03, 0x0A, 0x00, 0x00, 0x00, 0x07, 0x0B, 0x01, 0x00,
        0x01, 0x01, 0x00, 0x0C, 0x05, 0x00, 0x08, 0x0A, 0x01, 0x44, 0x33, 0x22, 0x11, 0x00, 0x00,
        0x05, 0x01, 0x11, 0x05, 0x00, b'x', 0x00, 0x00, 0x00, 0x14, 0x0A, 0x01, 0x00, 1, 0, 0, 0,
        0, 0, 0, 0, 0x00, 0x00,
    ];
    assert_eq!(written, canonical);
    let again = read_header(&written).unwrap();
    let mut rewritten = Vec::new();
    again.write_header(&mut rewritten);
    assert_eq!(rewritten, written);
    assert_eq!(again.files, archive.files);
}

fn malformed(header: &[u8]) {
    assert_eq!(read_header(header).err(), Some(Error::MalformedHeader { offset: 0 }));
}

#[test]
fn refuses_headers_that_are_cut_short_or_go_on() {
    let mut writer = ArchiveWriter::create_in_memory();
    writer.set_content_methods(vec![EncoderConfiguration::new(EncoderMethod::Copy)]).unwrap();
    writer.push_archive_entry(ArchiveEntry::new_file("a".to_string()), Some(stored(b"abc"))).unwrap();
    writer.push_archive_entry(ArchiveEntry::new_directory("d".to_string()), None).unwrap();
    let mut header = Vec::new();
    writer.write_header(&mut header);
    assert!(read_header(&header).is_ok());
    for cut in 0..header.len() {
        malformed(&header[..cut]);
    }
    let mut longer = header.clone();
    longer.push(0);
    malformed(&longer);
}

#[test]
fn refuses_what_is_not_a_header() {
    malformed(&[]);
    malformed(&[0x17, 0x06, 0x00]);
    malformed(&[0x01, 0x05, 0x00, 0x00]);
}

#[test]
fn refuses_files_without_their_streams() {
    // one file with a stream, but no block
    malformed(&[0x01, 0x04, 0x08, 0x00, 0x00, 0x05, 0x01, 0x11, 0x03, 0x00, 0x00, 0x00, 0x00, 0x00]);
    // a file without a stream reads well
    let header = [
        0x01, 0x04, 0x08, 0x00, 0x00, 0x05, 0x01, 0x0E, 0x01, 0x80, 0x11, 0x03, 0x00, 0x00, 0x00,
        0x00, 0x00,
    ];
    let archive = read_header(&header).unwrap();
    assert_eq!(archive.files.len(), 1);
    assert!(archive.files[0].is_directory);
    assert_eq!(archive.files[0].name, "");
}

#[test]
fn refuses_a_reserved_byte_that_is_not_zero() {
    let good = [
        0x01, 0x04, 0x08, 0x00, 0x00, 0x05, 0x01, 0x0E, 0x01, 0x80, 0x11, 0x03, 0x00, 0x00, 0x00,
        0x00, 0x00,
    ];
    assert!(read_header(&good).is_ok());
    let mut bad = good;
    bad[12] = 1;
    malformed(&bad);
}

#[test]
fn refuses_names_that_are_not_utf16() {
    // a lone surrogate
    let header = [
        0x01, 0x04, 0x08, 0x00, 0x00, 0x05, 0x01, 0x0E, 0x01, 0x80, 0x11, 0x05, 0x00, 0x00, 0xD8,
        0x00, 0x00, 0x00, 0x00,
    ];
    malformed(&header);
}

#[test]
fn refuses_sections_with_a_wrong_length() {
    let good = [
        0x01, 0x04, 0x08, 0x00, 0x00, 0x05, 0x01, 0x0E, 0x01, 0x80, 0x11, 0x03, 0x00, 0x00, 0x00,
        0x00, 0x00,
    ];
    let mut bad = good;
    bad[8] = 2;
    malformed(&bad);
    let mut bad = good;
    bad[11] = 4;
    malformed(&bad);
}

#[test]
fn refuses_coders_with_several_inputs() {
    let header = [
        0x01, 0x04, 0x06, 0x00, 0x01, 0x09, 0x03, 0x00, 0x07, 0x0B, 0x01, 0x00, 0x01, 0x11, 0x00,
        0x03, 0x01, 0x0C, 0x05, 0x00, 0x08, 0x0A, 0x01, 1, 2, 3, 4, 0x00, 0x00, 0x05, 0x00, 0x11,
        0x01, 0x00, 0x00, 0x00,
    ];
    malformed(&header);
}

#[test]
fn refuses_shares_that_exceed_their_block() {
    let mut writer = ArchiveWriter::create_in_memory();
    writer.set_content_methods(vec![EncoderConfiguration::new(EncoderMethod::Copy)]).unwrap();
    writer
        .push_archive_entries(
            vec![ArchiveEntry::new_file("a".to_string()), ArchiveEntry::new_file("b".to_string())],
            vec![vec![1, 2], vec![3]],
            EncodedStream { packed: vec![1, 2, 3], stage_sizes: vec![] },
        )
        .unwrap();
    let mut header = Vec::new();
    writer.write_header(&mut header);
    assert!(read_header(&header).is_ok());
    let at = header.windows(3).position(|window| window == [0x0D, 0x02, 0x09]).unwrap();
    assert_eq!(header[at + 3], 2);
    header[at + 3] = 4;
    malformed(&header);
}

#[test]
fn reads_the_description_of_an_encoded_header() {
    let mut writer = ArchiveWriter::create_in_memory();
    writer.set_content_methods(vec![EncoderConfiguration::new(EncoderMethod::Copy)]).unwrap();
    for i in 0..10 {
        writer
            .push_archive_entry(ArchiveEntry::new_file(format!("some/long/path/file{i}.txt")), None)
            .unwrap();
    }
    writer.push_archive_entry(ArchiveEntry::new_file("x".to_string()), Some(stored(b"abc"))).unwrap();
    let mut plain = Vec::new();
    writer.write_header(&mut plain);
    let lzma2 = EncoderConfiguration::with_properties(EncoderMethod::Lzma2, vec![0x16]);
    let packed = vec![0x5A; 40];
    let bytes = writer
        .finish(Some(sevenz_archive::writer::EncodedHeader {
            lzma2: lzma2.clone(),
            stream: EncodedStream { packed: packed.clone(), stage_sizes: vec![] },
        }))
        .unwrap();
    let header = read_header_bytes(&bytes).unwrap();
    assert_eq!(read_header(header).err(), Some(Error::MalformedHeader { offset: 0 }));
    let (pack_info, block) = sevenz_archive::reader::header::read_encoded_header(header).unwrap();
    assert_eq!(pack_info.pos, 3);
    assert_eq!(pack_info.sizes, vec![40]);
    assert_eq!(pack_info.crcs, vec![crc32fast::hash(&packed)]);
    assert_eq!(block.methods, vec![lzma2]);
    assert_eq!(block.sizes, vec![plain.len() as u64]);
    assert_eq!(block.crc, crc32fast::hash(&plain));
    assert_eq!(block.num_sub_unpack_streams, 1);
    let from = 32 + pack_info.pos as usize;
    assert_eq!(&bytes[from..from + 40], &packed[..]);
}

#[test]
fn refuses_a_plain_header_as_a_description() {
    let writer = ArchiveWriter::create_in_memory();
    let mut plain = Vec::new();
    writer.write_header(&mut plain);
    assert_eq!(
        sevenz_archive::reader::header::read_encoded_header(&plain).err(),
        Some(Error::MalformedHeader { offset: 0 })
    );
    assert_eq!(
        sevenz_archive::reader::header::read_encoded_header(&[]).err(),
        Some(Error::MalformedHeader { offset: 0 })
    );
}
