use sevenz_archive::reader::{read_header_bytes, read_signature_header, StartHeader};
use sevenz_archive::writer::pipeline::run_encoder_chain;
use sevenz_archive::writer::{
    describe_encoded_header, signature_header, start_header, Content, EncodedHeader, EncodedStream,
};
use sevenz_archive::{
    ArchiveEntry, ArchiveWriter, AutoFinish, EncoderConfiguration, EncoderMethod, Error,
};

const MAGIC: [u8; 6] = [0x37, 0x7A, 0xBC, 0xAF, 0x27, 0x1C];

fn lzma2() -> EncoderConfiguration {
    EncoderConfiguration::with_properties(EncoderMethod::Lzma2, vec![0x16])
}

fn copy_method() -> EncoderConfiguration {
    EncoderConfiguration::new(EncoderMethod::Copy)
}

/// A content whose coder chain copies: the packed bytes are the content.
fn stored(data: &[u8]) -> Content {
    Content {
        data: data.to_vec(),
        encoded: EncodedStream { packed: data.to_vec(), stage_sizes: vec![] },
    }
}

fn packed_as(data: &[u8], packed: &[u8]) -> Content {
    Content {
        data: data.to_vec(),
        encoded: EncodedStream { packed: packed.to_vec(), stage_sizes: vec![] },
    }
}

fn plain_header(writer: &ArchiveWriter) -> Vec<u8> {
    let mut header = Vec::new();
    writer.write_header(&mut header);
    header
}

/// The archive that has `pack_area` behind the signature header and ends with
/// `header`.
fn archive_of(pack_area: &[u8], header: &[u8]) -> Vec<u8> {
    let mut start = Vec::new();
    start.extend_from_slice(&(pack_area.len() as u64).to_le_bytes());
    start.extend_from_slice(&(header.len() as u64).to_le_bytes());
    start.extend_from_slice(&crc32fast::hash(header).to_le_bytes());
    let mut archive = Vec::new();
    archive.extend_from_slice(&MAGIC);
    archive.extend_from_slice(&[0, 4]);
    archive.extend_from_slice(&crc32fast::hash(&start).to_le_bytes());
    archive.extend_from_slice(&start);
    archive.extend_from_slice(pack_area);
    archive.extend_from_slice(header);
    archive
}

#[test]
fn empty_archive() {
    let writer = ArchiveWriter::create_in_memory();
    let archive = writer.finish(None).unwrap();
    let header = vec![
        0x01, 0x04, 0x08, 0x00, 0x00, 0x05, 0x00, 0x11, 0x01, 0x00, 0x00, 0x00,
    ];
    assert_eq!(archive, archive_of(&[], &header));
    assert_eq!(archive.len(), 44);
    assert_eq!(read_header_bytes(&archive), Ok(&header[..]));
}

#[test]
fn new_reuses_the_buffer_and_drops_its_content() {
    let writer = ArchiveWriter::new(vec![1, 2, 3, 4, 5]);
    let archive = writer.finish(None).unwrap();
    assert_eq!(archive, ArchiveWriter::create_in_memory().finish(None).unwrap());
}

#[test]
fn single_empty_file_has_no_stream_and_no_block() {
    let mut writer = ArchiveWriter::create_in_memory();
    let entry = writer
        .push_archive_entry(ArchiveEntry::new_file("empty.txt".to_string()), Some(stored(b"")))
        .unwrap();
    assert!(!entry.has_stream);
    assert_eq!(entry.size, 0);
    assert!(!entry.has_crc);
    assert_eq!(entry.compressed_size, 0);
    let header = plain_header(&writer);
    let mut expected = vec![0x01, 0x04, 0x08, 0x00, 0x00];
    expected.extend_from_slice(&[0x05, 0x01, 0x0E, 0x01, 0x80, 0x0F, 0x01, 0x80]);
    expected.extend_from_slice(&[0x11, 0x15, 0x00]);
    for unit in "empty.txt".encode_utf16() {
        expected.extend_from_slice(&unit.to_le_bytes());
    }
    expected.extend_from_slice(&[0, 0, 0x00, 0x00]);
    assert_eq!(header, expected);
    let archive = writer.finish(None).unwrap();
    assert_eq!(archive, archive_of(&[], &expected));
}

#[test]
fn file_without_content_has_no_stream() {
    let mut writer = ArchiveWriter::create_in_memory();
    let mut given = ArchiveEntry::new_file("a".to_string());
    given.size = 55;
    given.has_crc = true;
    given.crc = 66;
    given.compressed_size = 77;
    let entry = writer.push_archive_entry(given, None).unwrap();
    assert!(!entry.has_stream);
    assert_eq!(entry.size, 0);
    assert!(!entry.has_crc);
    assert_eq!(entry.compressed_size, 0);
    assert_eq!(entry.name, "a");
}

#[test]
fn directory_ignores_content() {
    let mut writer = ArchiveWriter::create_in_memory();
    let entry = writer
        .push_archive_entry(ArchiveEntry::new_directory("d".to_string()), Some(stored(b"abc")))
        .unwrap();
    assert!(!entry.has_stream);
    assert!(entry.is_directory);
    assert_eq!(entry.size, 0);
    let archive = writer.finish(None).unwrap();
    let header = read_header_bytes(&archive).unwrap();
    assert_eq!(archive.len(), 32 + header.len());
}

#[test]
fn one_file_with_content() {
    let mut writer = ArchiveWriter::create_in_memory();
    writer.set_content_methods(vec![lzma2()]).unwrap();
    let packed = [0xAA, 0xBB, 0xCC];
    let entry = writer
        .push_archive_entry(
            ArchiveEntry::new_file("file1.txt".to_string()),
            Some(packed_as(b"123456789", &packed)),
        )
        .unwrap();
    assert!(entry.has_stream);
    assert_eq!(entry.size, 9);
    assert!(entry.has_crc);
    assert_eq!(entry.crc, 0xCBF4_3926);
    assert_eq!(entry.compressed_size, 3);
    assert_eq!(entry.compressed_crc, crc32fast::hash(&packed) as u64);
    let header = plain_header(&writer);
    let mut expected = vec![0x01, 0x04];
    // pack info: one stream of three bytes
    expected.extend_from_slice(&[0x06, 0x00, 0x01, 0x09, 0x03, 0x0A, 0x01]);
    expected.extend_from_slice(&crc32fast::hash(&packed).to_le_bytes());
    expected.push(0x00);
    // unpack info: one block, LZMA2, nine bytes
    expected.extend_from_slice(&[
        0x07, 0x0B, 0x01, 0x00, 0x01, 0x21, 0x21, 0x01, 0x16, 0x0C, 0x09, 0x00,
    ]);
    // substreams: the checksum of the content
    expected.extend_from_slice(&[0x08, 0x0A, 0x01, 0x26, 0x39, 0xF4, 0xCB, 0x00]);
    expected.push(0x00);
    // files info
    expected.extend_from_slice(&[0x05, 0x01, 0x11, 0x15, 0x00]);
    for unit in "file1.txt".encode_utf16() {
        expected.extend_from_slice(&unit.to_le_bytes());
    }
    expected.extend_from_slice(&[0, 0, 0x00, 0x00]);
    assert_eq!(header, expected);
    let archive = writer.finish(None).unwrap();
    assert_eq!(archive, archive_of(&packed, &expected));
}

#[test]
fn checksum_of_the_content_is_crc32() {
    let mut writer = ArchiveWriter::create_in_memory();
    let entry = writer
        .push_archive_entry(ArchiveEntry::new_file("a".to_string()), Some(stored(b"a")))
        .unwrap();
    assert_eq!(entry.crc, 0xE8B7_BE43);
    assert_eq!(entry.compressed_crc, 0xE8B7_BE43);
    let entry = writer
        .push_archive_entry(ArchiveEntry::new_file("abc".to_string()), Some(stored(b"abc")))
        .unwrap();
    assert_eq!(entry.crc, 0x3524_41C2);
}

#[test]
fn stage_sizes_must_fit_the_methods() {
    let mut writer = ArchiveWriter::create_in_memory();
    let mut content = stored(b"abc");
    content.encoded.stage_sizes = vec![3];
    let result = writer.push_archive_entry(ArchiveEntry::new_file("a".to_string()), Some(content));
    assert_eq!(result.err(), Some(Error::InvalidArgument));
    assert_eq!(writer.finish(None), ArchiveWriter::create_in_memory().finish(None));
}

#[test]
fn stage_sizes_are_not_looked_at_without_content() {
    let mut writer = ArchiveWriter::create_in_memory();
    let mut content = stored(b"");
    content.encoded.stage_sizes = vec![3, 4, 5];
    let result = writer.push_archive_entry(ArchiveEntry::new_file("a".to_string()), Some(content));
    assert!(result.is_ok());
}

#[test]
fn two_coders_record_two_sizes() {
    let mut writer = ArchiveWriter::create_in_memory();
    writer.set_content_methods(vec![lzma2(), EncoderConfiguration::new(EncoderMethod::BcjX86)]).unwrap();
    let content = Content {
        data: vec![7; 100],
        encoded: EncodedStream { packed: vec![1, 2], stage_sizes: vec![100] },
    };
    writer
        .push_archive_entry(ArchiveEntry::new_file("x.exe".to_string()), Some(content))
        .unwrap();
    let header = plain_header(&writer);
    let unpack_info = [
        0x07, 0x0B, 0x01, 0x00, 0x02, 0x21, 0x21, 0x01, 0x16, 0x04, 0x03, 0x03, 0x01, 0x03, 0x01,
        0x00, 0x0C, 0x64, 0x64, 0x00,
    ];
    assert!(header.windows(unpack_info.len()).any(|window| window == unpack_info));
    let one_size_only = writer.push_archive_entry(
        ArchiveEntry::new_file("y.exe".to_string()),
        Some(stored(b"abc")),
    );
    assert_eq!(one_size_only.err(), Some(Error::InvalidArgument));
}

#[test]
fn an_empty_list_of_methods_is_refused() {
    let mut writer = ArchiveWriter::create_in_memory();
    writer.set_content_methods(vec![copy_method()]).unwrap();
    let refused = writer.set_content_methods(vec![]);
    assert_eq!(refused.err(), Some(Error::InvalidArgument));
    assert_eq!(writer.content_methods(), &vec![copy_method()]);
    writer
        .push_archive_entry(ArchiveEntry::new_file("a".to_string()), Some(stored(b"abc")))
        .unwrap();
    let header = plain_header(&writer);
    let folder = [0x07, 0x0B, 0x01, 0x00, 0x01, 0x01, 0x00, 0x0C, 0x03, 0x00];
    assert!(header.windows(folder.len()).any(|window| window == folder));
}

#[test]
fn a_name_with_a_zero_character_is_refused() {
    let mut writer = ArchiveWriter::create_in_memory();
    writer.set_content_methods(vec![copy_method()]).unwrap();
    let with_content = writer
        .push_archive_entry(ArchiveEntry::new_file("a\0b".to_string()), Some(stored(b"abc")));
    assert_eq!(with_content.err(), Some(Error::InvalidArgument));
    let without = writer.push_archive_entry(ArchiveEntry::new_file("\0".to_string()), None);
    assert_eq!(without.err(), Some(Error::InvalidArgument));
    let directory = writer.push_archive_entry(ArchiveEntry::new_directory("d\0".to_string()), None);
    assert_eq!(directory.err(), Some(Error::InvalidArgument));
    assert!(writer.files().is_empty());
    assert_eq!(writer.finish(None), ArchiveWriter::create_in_memory().finish(None));
}

#[test]
fn solid_push_refuses_a_name_with_a_zero_character() {
    let mut writer = ArchiveWriter::create_in_memory();
    writer.set_content_methods(vec![copy_method()]).unwrap();
    let result = writer.push_archive_entries(
        vec![
            ArchiveEntry::new_file("a".to_string()),
            ArchiveEntry::new_file("b\0c".to_string()),
        ],
        vec![vec![1], vec![2]],
        EncodedStream { packed: vec![1, 2], stage_sizes: vec![] },
    );
    assert_eq!(result.err(), Some(Error::InvalidArgument));
    assert!(writer.files().is_empty());
    assert_eq!(
        writer.finish(None),
        {
            let mut fresh = ArchiveWriter::create_in_memory();
            fresh.set_content_methods(vec![copy_method()]).unwrap();
            fresh.finish(None)
        }
    );
}

#[test]
fn a_text_holds_no_zero_character() {
    assert!(sevenz_archive::archive::is_text(""));
    assert!(sevenz_archive::archive::is_text("dir/file.txt"));
    assert!(sevenz_archive::archive::is_text("\u{1}\u{10FFFF}0"));
    assert!(!sevenz_archive::archive::is_text("\0"));
    assert!(!sevenz_archive::archive::is_text("a\0"));
    assert!(!sevenz_archive::archive::is_text("\0a"));
    assert!(!sevenz_archive::archive::is_text("a\0\u{1F600}"));
}

#[test]
fn names_keep_every_other_character() {
    let mut writer = ArchiveWriter::create_in_memory();
    let name = "\u{1}dir/\u{e9}\u{1F600}.txt".to_string();
    let stored = writer.push_archive_entry(ArchiveEntry::new_file(name.clone()), None).unwrap();
    assert_eq!(stored.name, name);
}

#[test]
fn solid_block_of_two_files() {
    let mut writer = ArchiveWriter::create_in_memory();
    writer.set_content_methods(vec![copy_method()]).unwrap();
    let one = b"file one content\n";
    let two = b"file two content\n";
    let mut all = one.to_vec();
    all.extend_from_slice(two);
    writer
        .push_archive_entries(
            vec![
                ArchiveEntry::new_file("file1.txt".to_string()),
                ArchiveEntry::new_file("file2.txt".to_string()),
            ],
            vec![one.to_vec(), two.to_vec()],
            EncodedStream { packed: all.clone(), stage_sizes: vec![] },
        )
        .unwrap();
    let header = plain_header(&writer);
    let mut expected = vec![0x01, 0x04];
    expected.extend_from_slice(&[0x06, 0x00, 0x01, 0x09, 34, 0x0A, 0x01]);
    expected.extend_from_slice(&crc32fast::hash(&all).to_le_bytes());
    expected.push(0x00);
    expected.extend_from_slice(&[0x07, 0x0B, 0x01, 0x00, 0x01, 0x01, 0x00, 0x0C, 34, 0x00]);
    expected.extend_from_slice(&[0x08, 0x0D, 0x02, 0x09, 17, 0x0A, 0x01]);
    expected.extend_from_slice(&crc32fast::hash(one).to_le_bytes());
    expected.extend_from_slice(&crc32fast::hash(two).to_le_bytes());
    expected.extend_from_slice(&[0x00, 0x00]);
    expected.extend_from_slice(&[0x05, 0x02, 0x11, 0x29, 0x00]);
    for name in ["file1.txt", "file2.txt"] {
        for unit in name.encode_utf16() {
            expected.extend_from_slice(&unit.to_le_bytes());
        }
        expected.extend_from_slice(&[0, 0]);
    }
    expected.extend_from_slice(&[0x00, 0x00]);
    assert_eq!(header, expected);
    let archive = writer.finish(None).unwrap();
    assert_eq!(archive, archive_of(&all, &expected));
}

#[test]
fn solid_block_skips_empty_files() {
    let mut writer = ArchiveWriter::create_in_memory();
    writer.set_content_methods(vec![copy_method()]).unwrap();
    writer
        .push_archive_entries(
            vec![
                ArchiveEntry::new_file("a".to_string()),
                ArchiveEntry::new_file("empty".to_string()),
                ArchiveEntry::new_directory("d".to_string()),
                ArchiveEntry::new_file("b".to_string()),
            ],
            vec![b"aa".to_vec(), vec![], vec![], b"bbb".to_vec()],
            EncodedStream { packed: b"aabbb".to_vec(), stage_sizes: vec![] },
        )
        .unwrap();
    let header = plain_header(&writer);
    let mut substreams = vec![0x08, 0x0D, 0x02, 0x09, 0x02, 0x0A, 0x01];
    substreams.extend_from_slice(&crc32fast::hash(b"aa").to_le_bytes());
    substreams.extend_from_slice(&crc32fast::hash(b"bbb").to_le_bytes());
    substreams.push(0x00);
    assert!(header.windows(substreams.len()).any(|window| window == substreams));
    let files = [0x05, 0x04, 0x0E, 0x01, 0x60, 0x0F, 0x01, 0x80, 0x11];
    assert!(header.windows(files.len()).any(|window| window == files));
}

#[test]
fn solid_push_without_content_makes_no_block() {
    let mut writer = ArchiveWriter::create_in_memory();
    writer
        .push_archive_entries(
            vec![
                ArchiveEntry::new_file("a".to_string()),
                ArchiveEntry::new_directory("d".to_string()),
            ],
            vec![vec![], vec![]],
            EncodedStream { packed: vec![1, 2, 3], stage_sizes: vec![9, 9] },
        )
        .unwrap();
    let header = plain_header(&writer);
    assert_eq!(&header[..5], &[0x01, 0x04, 0x08, 0x00, 0x00]);
    let archive = writer.finish(None).unwrap();
    assert_eq!(archive.len(), 32 + header.len());
}

#[test]
fn solid_push_of_nothing() {
    let mut writer = ArchiveWriter::create_in_memory();
    writer
        .push_archive_entries(vec![], vec![], EncodedStream { packed: vec![], stage_sizes: vec![] })
        .unwrap();
    assert_eq!(writer.finish(None), ArchiveWriter::create_in_memory().finish(None));
}

#[test]
fn solid_push_refuses_mismatched_counts() {
    let mut writer = ArchiveWriter::create_in_memory();
    let result = writer.push_archive_entries(
        vec![ArchiveEntry::new_file("a".to_string())],
        vec![],
        EncodedStream { packed: vec![], stage_sizes: vec![] },
    );
    assert_eq!(result.err(), Some(Error::InvalidArgument));
    let result = writer.push_archive_entries(
        vec![],
        vec![vec![1]],
        EncodedStream { packed: vec![1], stage_sizes: vec![] },
    );
    assert_eq!(result.err(), Some(Error::InvalidArgument));
    assert_eq!(writer.finish(None), ArchiveWriter::create_in_memory().finish(None));
}

#[test]
fn solid_push_refuses_a_directory_with_content() {
    let mut writer = ArchiveWriter::create_in_memory();
    let result = writer.push_archive_entries(
        vec![
            ArchiveEntry::new_file("a".to_string()),
            ArchiveEntry::new_directory("d".to_string()),
        ],
        vec![vec![1], vec![2]],
        EncodedStream { packed: vec![1, 2], stage_sizes: vec![] },
    );
    assert_eq!(result.err(), Some(Error::InvalidArgument));
    assert_eq!(writer.finish(None), ArchiveWriter::create_in_memory().finish(None));
}

#[test]
fn solid_push_refuses_stage_sizes_that_do_not_fit() {
    let mut writer = ArchiveWriter::create_in_memory();
    let result = writer.push_archive_entries(
        vec![ArchiveEntry::new_file("a".to_string())],
        vec![vec![1]],
        EncodedStream { packed: vec![1], stage_sizes: vec![1] },
    );
    assert_eq!(result.err(), Some(Error::InvalidArgument));
    assert_eq!(writer.finish(None), ArchiveWriter::create_in_memory().finish(None));
}

#[test]
fn ten_thousand_files_in_one_solid_block() {
    let mut writer = ArchiveWriter::create_in_memory();
    writer.set_content_methods(vec![copy_method()]).unwrap();
    let mut entries = Vec::new();
    let mut contents = Vec::new();
    let mut all = Vec::new();
    for i in 1..=10000 {
        entries.push(ArchiveEntry::new_file(format!("file{i}.txt")));
        let content = format!("file{i} with content").into_bytes();
        all.extend_from_slice(&content);
        contents.push(content);
    }
    writer
        .push_archive_entries(
            entries,
            contents.clone(),
            EncodedStream { packed: all.clone(), stage_sizes: vec![] },
        )
        .unwrap();
    let header = plain_header(&writer);
    // one packed stream, one block, 10 000 files in it
    let mut expected = vec![0x01, 0x04, 0x06, 0x00, 0x01, 0x09];
    let total = all.len() as u64;
    assert!((0x4000..0x20_0000).contains(&total));
    let total_encoded = [0xC0 | (total >> 16) as u8, total as u8, (total >> 8) as u8];
    expected.extend_from_slice(&total_encoded);
    expected.extend_from_slice(&[0x0A, 0x01]);
    expected.extend_from_slice(&crc32fast::hash(&all).to_le_bytes());
    expected.push(0x00);
    expected.extend_from_slice(&[0x07, 0x0B, 0x01, 0x00, 0x01, 0x01, 0x00, 0x0C]);
    expected.extend_from_slice(&total_encoded);
    expected.push(0x00);
    expected.extend_from_slice(&[0x08, 0x0D, 0x80 | (10000u16 >> 8) as u8, 10000u16 as u8, 0x09]);
    for content in &contents[..9999] {
        assert!(content.len() < 0x80);
        expected.push(content.len() as u8);
    }
    expected.extend_from_slice(&[0x0A, 0x01]);
    for content in &contents {
        expected.extend_from_slice(&crc32fast::hash(content).to_le_bytes());
    }
    expected.extend_from_slice(&[0x00, 0x00]);
    assert_eq!(&header[..expected.len()], &expected[..]);
    assert_eq!(&header[expected.len()..expected.len() + 3], &[0x05, 0x80 | 0x27, 0x10]);
    let archive = writer.finish(None).unwrap();
    assert_eq!(read_header_bytes(&archive), Ok(&header[..]));
    assert_eq!(&archive[32..32 + all.len()], &all[..]);
}

#[test]
fn solid_and_single_blocks_mix() {
    let mut writer = ArchiveWriter::create_in_memory();
    writer.set_content_methods(vec![copy_method()]).unwrap();
    let mut entries = Vec::new();
    let mut contents = Vec::new();
    let mut pack_area = Vec::new();
    for i in 1..=100 {
        entries.push(ArchiveEntry::new_file(format!("file{i}.txt")));
        let content = format!("file{i} with content").into_bytes();
        pack_area.extend_from_slice(&content);
        contents.push(content);
    }
    let solid = pack_area.clone();
    writer
        .push_archive_entries(
            entries,
            contents.clone(),
            EncodedStream { packed: solid.clone(), stage_sizes: vec![] },
        )
        .unwrap();
    let mut singles = Vec::new();
    for i in 101..=200 {
        let content = format!("file{i} with content").into_bytes();
        let entry = writer
            .push_archive_entry(ArchiveEntry::new_file(format!("file{i}.txt")), Some(stored(&content)))
            .unwrap();
        assert_eq!(entry.size, content.len() as u64);
        assert_eq!(entry.crc, crc32fast::hash(&content) as u64);
        pack_area.extend_from_slice(&content);
        singles.push(content);
    }
    let header = plain_header(&writer);
    // 101 packed streams and 101 blocks
    assert_eq!(&header[..5], &[0x01, 0x04, 0x06, 0x00, 101]);
    let folders = [0x07, 0x0B, 101, 0x00, 0x01, 0x01, 0x00, 0x01, 0x01, 0x00];
    assert!(header.windows(folders.len()).any(|window| window == folders));
    // the solid block holds 100 files, every other block one
    let mut counts = vec![0x08, 0x0D, 100];
    counts.extend_from_slice(&[1; 100]);
    counts.push(0x09);
    for content in &contents[..99] {
        counts.push(content.len() as u8);
    }
    counts.extend_from_slice(&[0x0A, 0x01]);
    for content in contents.iter().chain(singles.iter()) {
        counts.extend_from_slice(&crc32fast::hash(content).to_le_bytes());
    }
    counts.extend_from_slice(&[0x00, 0x00, 0x05, 0x80, 200]);
    assert!(header.windows(counts.len()).any(|window| window == counts));
    let archive = writer.finish(None).unwrap();
    assert_eq!(archive, archive_of(&pack_area, &header));
}

#[test]
fn entries_keep_the_order_of_the_pushes() {
    let mut writer = ArchiveWriter::create_in_memory();
    writer.set_content_methods(vec![copy_method()]).unwrap();
    writer.push_archive_entry(ArchiveEntry::new_file("c".to_string()), Some(stored(b"1"))).unwrap();
    writer.push_archive_entry(ArchiveEntry::new_directory("a".to_string()), None).unwrap();
    writer
        .push_archive_entries(
            vec![ArchiveEntry::new_file("b".to_string()), ArchiveEntry::new_file("0".to_string())],
            vec![vec![2], vec![3]],
            EncodedStream { packed: vec![2, 3], stage_sizes: vec![] },
        )
        .unwrap();
    let header = plain_header(&writer);
    let names = [0x11, 0x11, 0x00, b'c', 0, 0, 0, b'a', 0, 0, 0, b'b', 0, 0, 0, b'0', 0, 0, 0];
    assert!(header.windows(names.len()).any(|window| window == names));
}

#[test]
fn header_methods_are_lzma2_alone_without_aes() {
    let mut writer = ArchiveWriter::create_in_memory();
    assert_eq!(writer.header_methods(&lzma2()), vec![lzma2()]);
    writer.set_content_methods(vec![copy_method(), lzma2()]).unwrap();
    assert_eq!(writer.header_methods(&lzma2()), vec![lzma2()]);
}

#[test]
fn header_methods_take_the_first_aes_coder_of_the_content() {
    let aes = EncoderConfiguration::with_properties(EncoderMethod::Aes256Sha256, vec![1, 2]);
    let other = EncoderConfiguration::with_properties(EncoderMethod::Aes256Sha256, vec![3]);
    let mut writer = ArchiveWriter::create_in_memory();
    writer.set_content_methods(vec![copy_method(), aes.clone(), other, lzma2()]).unwrap();
    assert_eq!(writer.header_methods(&lzma2()), vec![aes.clone(), lzma2()]);
    writer.set_encrypt_header(false);
    assert_eq!(writer.header_methods(&lzma2()), vec![lzma2()]);
    writer.set_encrypt_header(true);
    assert_eq!(writer.header_methods(&lzma2()), vec![aes, lzma2()]);
}

fn writer_with_long_header() -> ArchiveWriter {
    let mut writer = ArchiveWriter::create_in_memory();
    writer.set_content_methods(vec![copy_method()]).unwrap();
    for i in 0..10 {
        writer
            .push_archive_entry(ArchiveEntry::new_file(format!("some/long/path/file{i}.txt")), None)
            .unwrap();
    }
    writer
        .push_archive_entry(ArchiveEntry::new_file("x".to_string()), Some(stored(b"abc")))
        .unwrap();
    writer
}

#[test]
fn encoded_header_is_used_when_it_saves_more_than_twenty_bytes() {
    let writer = writer_with_long_header();
    let plain = plain_header(&writer);
    let packed = vec![0x5A; plain.len() - 21];
    let archive = writer
        .finish(Some(EncodedHeader {
            lzma2: lzma2(),
            stream: EncodedStream { packed: packed.clone(), stage_sizes: vec![] },
        }))
        .unwrap();
    let mut header = vec![0x17];
    // the packed header lies behind the three bytes of content
    header.extend_from_slice(&[0x06, 0x03, 0x01, 0x09]);
    assert!(packed.len() >= 0x80 && packed.len() < 0x4000);
    header.extend_from_slice(&[0x80 | (packed.len() >> 8) as u8, packed.len() as u8]);
    header.extend_from_slice(&[0x0A, 0x01]);
    header.extend_from_slice(&crc32fast::hash(&packed).to_le_bytes());
    header.push(0x00);
    header.extend_from_slice(&[0x07, 0x0B, 0x01, 0x00, 0x01, 0x21, 0x21, 0x01, 0x16, 0x0C]);
    header.extend_from_slice(&[0x80 | (plain.len() >> 8) as u8, plain.len() as u8]);
    header.push(0x00);
    header.extend_from_slice(&[0x08, 0x0A, 0x01]);
    header.extend_from_slice(&crc32fast::hash(&plain).to_le_bytes());
    header.extend_from_slice(&[0x00, 0x00]);
    let mut pack_area = b"abc".to_vec();
    pack_area.extend_from_slice(&packed);
    assert_eq!(archive, archive_of(&pack_area, &header));
}

#[test]
fn encoded_header_is_dropped_when_it_saves_twenty_bytes_or_less() {
    for saved in [20usize, 19, 0] {
        let writer = writer_with_long_header();
        let plain = plain_header(&writer);
        let packed = vec![0x5A; plain.len() - saved];
        let archive = writer
            .finish(Some(EncodedHeader {
                lzma2: lzma2(),
                stream: EncodedStream { packed, stage_sizes: vec![] },
            }))
            .unwrap();
        assert_eq!(archive, archive_of(b"abc", &plain));
    }
    let writer = writer_with_long_header();
    let plain = plain_header(&writer);
    let archive = writer
        .finish(Some(EncodedHeader {
            lzma2: lzma2(),
            stream: EncodedStream { packed: vec![0x5A; plain.len() + 1000], stage_sizes: vec![] },
        }))
        .unwrap();
    assert_eq!(archive, archive_of(b"abc", &plain));
}

#[test]
fn encoded_header_of_a_short_plain_header_is_dropped() {
    let writer = ArchiveWriter::create_in_memory();
    let plain = plain_header(&writer);
    assert!(plain.len() <= 20);
    let archive = writer
        .finish(Some(EncodedHeader {
            lzma2: lzma2(),
            stream: EncodedStream { packed: vec![], stage_sizes: vec![] },
        }))
        .unwrap();
    assert_eq!(archive, archive_of(&[], &plain));
}

#[test]
fn the_final_header_and_the_sink_never_outgrow_the_plain_header() {
    for packed_len in [0usize, 1, 40, 100, 500] {
        let writer = writer_with_long_header();
        let plain = plain_header(&writer);
        let mut header = vec![0xEE];
        let mut sink = vec![0xDD, 0xCC];
        writer
            .write_encoded_header(
                &mut header,
                &mut sink,
                Some(EncodedHeader {
                    lzma2: lzma2(),
                    stream: EncodedStream { packed: vec![0x5A; packed_len], stage_sizes: vec![] },
                }),
            )
            .unwrap();
        assert_eq!(header[0], 0xEE);
        assert_eq!(&sink[..2], &[0xDD, 0xCC]);
        let out = &header[1..];
        let sunk = &sink[2..];
        if packed_len + 20 >= plain.len() {
            assert_eq!(out, &plain[..]);
            assert!(sunk.is_empty());
        } else {
            assert_eq!(out[0], 0x17);
            assert_eq!(sunk, &vec![0x5A; packed_len][..]);
            assert!(sunk.len() + 20 < plain.len());
        }
        let description = if out[0] == 0x17 { out.len() } else { 0 };
        assert!(out.len() + sunk.len() <= plain.len() + description);
    }
}

#[test]
fn a_plain_final_header_leaves_the_sink_alone() {
    let writer = writer_with_long_header();
    let plain = plain_header(&writer);
    let mut header = Vec::new();
    let mut sink = vec![7];
    writer.write_encoded_header(&mut header, &mut sink, None).unwrap();
    assert_eq!(header, plain);
    assert_eq!(sink, vec![7]);
}

#[test]
fn a_refused_encoded_header_writes_nothing() {
    let writer = writer_with_long_header();
    let mut header = vec![1, 2];
    let mut sink = vec![3];
    let result = writer.write_encoded_header(
        &mut header,
        &mut sink,
        Some(EncodedHeader {
            lzma2: copy_method(),
            stream: EncodedStream { packed: vec![9; 4], stage_sizes: vec![] },
        }),
    );
    assert_eq!(result, Err(Error::InvalidArgument));
    assert_eq!(header, vec![1, 2]);
    assert_eq!(sink, vec![3]);
}

#[test]
fn encoded_header_with_aes_has_two_coders() {
    let aes = EncoderConfiguration::with_properties(EncoderMethod::Aes256Sha256, vec![0x13, 0x00]);
    let mut writer = writer_with_long_header();
    writer.set_content_methods(vec![aes, copy_method()]).unwrap();
    let plain = plain_header(&writer);
    let archive = writer
        .finish(Some(EncodedHeader {
            lzma2: lzma2(),
            stream: EncodedStream { packed: vec![1, 2, 3, 4], stage_sizes: vec![48] },
        }))
        .unwrap();
    let header = read_header_bytes(&archive).unwrap();
    let folder = [
        0x07, 0x0B, 0x01, 0x00, 0x02, 0x24, 0x06, 0xF1, 0x07, 0x01, 0x02, 0x13, 0x00, 0x21, 0x21,
        0x01, 0x16, 0x01, 0x00, 0x0C, 48,
    ];
    assert_eq!(header[0], 0x17);
    assert!(header.windows(folder.len()).any(|window| window == folder));
    assert_eq!(&archive[32..39], &[b'a', b'b', b'c', 1, 2, 3, 4]);
    assert!(plain.len() > 24);
}

#[test]
fn encoded_header_must_end_with_lzma2() {
    let writer = writer_with_long_header();
    let result = writer.finish(Some(EncodedHeader {
        lzma2: copy_method(),
        stream: EncodedStream { packed: vec![], stage_sizes: vec![] },
    }));
    assert_eq!(result, Err(Error::InvalidArgument));
}

#[test]
fn encoded_header_must_have_a_size_for_each_stage() {
    let writer = writer_with_long_header();
    let result = writer.finish(Some(EncodedHeader {
        lzma2: lzma2(),
        stream: EncodedStream { packed: vec![], stage_sizes: vec![5] },
    }));
    assert_eq!(result, Err(Error::InvalidArgument));
    let aes = EncoderConfiguration::with_properties(EncoderMethod::Aes256Sha256, vec![0x13, 0x00]);
    let mut writer = writer_with_long_header();
    writer.set_content_methods(vec![aes]).unwrap();
    let result = writer.finish(Some(EncodedHeader {
        lzma2: lzma2(),
        stream: EncodedStream { packed: vec![], stage_sizes: vec![] },
    }));
    assert_eq!(result, Err(Error::InvalidArgument));
}

#[test]
fn start_header_layout() {
    assert_eq!(
        start_header(0x0102_0304_0506_0708, 0x1112_1314, 0xA1A2_A3A4),
        vec![8, 7, 6, 5, 4, 3, 2, 1, 0x14, 0x13, 0x12, 0x11, 0, 0, 0, 0, 0xA4, 0xA3, 0xA2, 0xA1]
    );
}

#[test]
fn signature_header_layout() {
    let start = [9u8; 20];
    let header = signature_header(&start, 0xA1A2_A3A4);
    let mut expected = vec![0x37, 0x7A, 0xBC, 0xAF, 0x27, 0x1C, 0x00, 0x04, 0xA4, 0xA3, 0xA2, 0xA1];
    expected.extend_from_slice(&start);
    assert_eq!(header, expected);
    assert_eq!(header.len(), 32);
}

#[test]
fn description_of_an_encoded_header() {
    let header = describe_encoded_header(5, 4, 0x0102_0304, vec![lzma2()], vec![100], 0x0A0B_0C0D);
    assert_eq!(
        header,
        vec![
            0x17, 0x06, 0x05, 0x01, 0x09, 0x04, 0x0A, 0x01, 0x04, 0x03, 0x02, 0x01, 0x00, 0x07,
            0x0B, 0x01, 0x00, 0x01, 0x21, 0x21, 0x01, 0x16, 0x0C, 0x64, 0x00, 0x08, 0x0A, 0x01,
            0x0D, 0x0C, 0x0B, 0x0A, 0x00, 0x00
        ]
    );
}

#[test]
fn finished_archive_passes_the_checks_of_its_fixed_part() {
    let mut writer = writer_with_long_header();
    writer
        .push_archive_entries(
            vec![ArchiveEntry::new_file("p".to_string()), ArchiveEntry::new_file("q".to_string())],
            vec![vec![1, 2], vec![3]],
            EncodedStream { packed: vec![1, 2, 3], stage_sizes: vec![] },
        )
        .unwrap();
    let plain = plain_header(&writer);
    let archive = writer.finish(None).unwrap();
    let start = read_signature_header(&archive).unwrap();
    assert_eq!(
        start,
        StartHeader { offset: 6, size: plain.len() as u64, crc: crc32fast::hash(&plain) }
    );
    assert_eq!(&archive[8..12], &crc32fast::hash(&archive[12..32]).to_le_bytes());
    assert_eq!(read_header_bytes(&archive), Ok(&plain[..]));
}

#[test]
fn finish_ignore_error_finishes() {
    let writer = writer_with_long_header();
    writer.finish_ignore_error();
}

#[test]
fn chain_output_can_be_pushed() {
    let methods = vec![copy_method()];
    let data = b"some content".to_vec();
    let copy = |_: &EncoderConfiguration, input: &Vec<u8>| -> Result<Vec<u8>, Error> {
        Ok(input.clone())
    };
    let encoded = run_encoder_chain(&methods, &data, &copy).unwrap();
    let mut writer = ArchiveWriter::create_in_memory();
    writer.set_content_methods(methods).unwrap();
    let entry = writer
        .push_archive_entry(
            ArchiveEntry::new_file("c".to_string()),
            Some(Content { data: data.clone(), encoded }),
        )
        .unwrap();
    assert_eq!(entry.size, 12);
    assert_eq!(entry.compressed_size, 12);
    let archive = writer.finish(None).unwrap();
    assert_eq!(&archive[32..44], &data[..]);
}
