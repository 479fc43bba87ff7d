use sevenz_archive::error::ChecksumScope;
use sevenz_archive::reader::checks::{check_block, check_file, check_packed};
use sevenz_archive::reader::open::{open, Opened};
use sevenz_archive::reader::shares::file_share;
use sevenz_archive::writer::unpack_info::BlockInfo;
use sevenz_archive::reader::stream_map::StreamMap;
use sevenz_archive::writer::{Content, EncodedHeader, EncodedStream};
use sevenz_archive::{ArchiveEntry, ArchiveWriter, EncoderConfiguration, EncoderMethod, Error};

fn stored(data: &[u8]) -> Content {
    Content {
        data: data.to_vec(),
        encoded: EncodedStream { packed: data.to_vec(), stage_sizes: vec![] },
    }
}

fn sample() -> ArchiveWriter {
    let mut writer = ArchiveWriter::create_in_memory();
    writer.set_content_methods(vec![EncoderConfiguration::new(EncoderMethod::Copy)]).unwrap();
    writer
        .push_archive_entry(ArchiveEntry::new_file("one.txt".to_string()), Some(stored(b"first")))
        .unwrap();
    writer.push_archive_entry(ArchiveEntry::new_directory("dir".to_string()), None).unwrap();
    writer
        .push_archive_entries(
            vec![
                ArchiveEntry::new_file("dir/a".to_string()),
                ArchiveEntry::new_file("dir/b".to_string()),
            ],
            vec![b"file one content\n".to_vec(), b"file two content\n".to_vec()],
            EncodedStream {
                packed: b"file one content\nfile two content\n".to_vec(),
                stage_sizes: vec![],
            },
        )
        .unwrap();
    writer
}

#[test]
fn opens_what_the_writer_finished_and_finds_every_file() {
    let bytes = sample().finish(None).unwrap();
    let archive = match open(&bytes).unwrap() {
        Opened::Plain(archive) => archive,
        Opened::Encoded { .. } => panic!("the header is plain"),
    };
    let map = StreamMap::build(&archive).unwrap();
    let contents: [&[u8]; 4] = [b"first", b"", b"file one content\n", b"file two content\n"];
    for (index, entry) in archive.files.iter().enumerate() {
        assert_eq!(entry.size, contents[index].len() as u64);
        assert_eq!(check_file(entry, index as u64, contents[index]), Ok(()));
    }
    assert_eq!(map.file_blocks, vec![Some((0, 0)), None, Some((1, 0)), Some((1, 1))]);
    // with the copy method, a block's packed stream is what the block unpacks to
    for (index, block) in archive.unpack_info.blocks.iter().enumerate() {
        let from = 32 + map.pack_offsets[index] as usize;
        let to = from + archive.pack_info.sizes[index] as usize;
        let packed = &bytes[from..to];
        assert_eq!(check_packed(&archive.pack_info, index as u64, packed), Ok(()));
        assert_eq!(check_block(block, index as u64, packed), Ok(()));
    }
    let solid = &bytes[32 + 5..32 + 5 + 34];
    assert_eq!(&solid[..17], contents[2]);
    assert_eq!(&solid[17..], contents[3]);
    assert_eq!(archive.unpack_info.blocks[1].sub_stream_sizes, vec![17, 17]);
}

#[test]
fn opens_an_archive_with_an_encoded_header() {
    let writer = sample();
    let mut plain = Vec::new();
    writer.write_header(&mut plain);
    let lzma2 = EncoderConfiguration::with_properties(EncoderMethod::Lzma2, vec![0x16]);
    let bytes = writer
        .finish(Some(EncodedHeader {
            lzma2,
            stream: EncodedStream { packed: vec![7; 10], stage_sizes: vec![] },
        }))
        .unwrap();
    match open(&bytes).unwrap() {
        Opened::Encoded { pack_info, block } => {
            assert_eq!(pack_info.pos, 39);
            assert_eq!(pack_info.sizes, vec![10]);
            assert_eq!(check_packed(&pack_info, 0, &bytes[32 + 39..32 + 49]), Ok(()));
            assert_eq!(check_block(&block, 0, &plain), Ok(()));
        }
        Opened::Plain(_) => panic!("the header is encoded"),
    }
}

#[test]
fn opening_reports_the_faults_of_the_fixed_part() {
    let bytes = sample().finish(None).unwrap();
    assert_eq!(open(&bytes[..20]).err(), Some(Error::UnexpectedEof));
    let mut bad = bytes.clone();
    bad[0] = 0;
    assert_eq!(open(&bad).err(), Some(Error::BadSignature));
    let mut bad = bytes.clone();
    bad[6] = 9;
    assert_eq!(open(&bad).err(), Some(Error::UnsupportedVersion));
    let mut bad = bytes.clone();
    bad[13] ^= 1;
    assert_eq!(
        open(&bad).err(),
        Some(Error::ChecksumMismatch { scope: ChecksumScope::Header, index: 0 })
    );
    let mut bad = bytes.clone();
    let last = bad.len() - 1;
    bad[last] ^= 1;
    assert_eq!(
        open(&bad).err(),
        Some(Error::ChecksumMismatch { scope: ChecksumScope::Header, index: 1 })
    );
    assert_eq!(open(&bytes[..bytes.len() - 1]).err(), Some(Error::UnexpectedEof));
}

#[test]
fn opening_reports_a_header_that_does_not_read() {
    let header = [0x01u8, 0x04, 0x09];
    let mut start = Vec::new();
    start.extend_from_slice(&0u64.to_le_bytes());
    start.extend_from_slice(&3u64.to_le_bytes());
    start.extend_from_slice(&crc32fast::hash(&header).to_le_bytes());
    let mut bytes = vec![0x37, 0x7A, 0xBC, 0xAF, 0x27, 0x1C, 0x00, 0x04];
    bytes.extend_from_slice(&crc32fast::hash(&start).to_le_bytes());
    bytes.extend_from_slice(&start);
    bytes.extend_from_slice(&header);
    assert_eq!(open(&bytes).err(), Some(Error::MalformedHeader { offset: 32 }));
    let last = bytes.len() - 3;
    bytes[last] = 0x17;
    let crc = crc32fast::hash(&bytes[32..]);
    bytes[28..32].copy_from_slice(&crc.to_le_bytes());
    let crc = crc32fast::hash(&bytes[12..32]);
    bytes[8..12].copy_from_slice(&crc.to_le_bytes());
    assert_eq!(open(&bytes).err(), Some(Error::MalformedHeader { offset: 32 }));
}

#[test]
fn a_header_that_does_not_read_is_reported_with_its_place() {
    let header = [0x01u8, 0x04, 0x09];
    let body = [1u8, 2, 3, 4, 5];
    let mut start = Vec::new();
    start.extend_from_slice(&5u64.to_le_bytes());
    start.extend_from_slice(&3u64.to_le_bytes());
    start.extend_from_slice(&crc32fast::hash(&header).to_le_bytes());
    let mut bytes = vec![0x37, 0x7A, 0xBC, 0xAF, 0x27, 0x1C, 0x00, 0x04];
    bytes.extend_from_slice(&crc32fast::hash(&start).to_le_bytes());
    bytes.extend_from_slice(&start);
    bytes.extend_from_slice(&body);
    bytes.extend_from_slice(&header);
    assert_eq!(open(&bytes).err(), Some(Error::MalformedHeader { offset: 37 }));
}

#[test]
fn a_file_is_checked_by_size_and_checksum() {
    let mut entry = ArchiveEntry::new_file("f".to_string());
    entry.size = 9;
    entry.has_crc = true;
    entry.crc = 0xCBF4_3926;
    assert_eq!(check_file(&entry, 4, b"123456789"), Ok(()));
    assert_eq!(
        check_file(&entry, 4, b"123456780"),
        Err(Error::ChecksumMismatch { scope: ChecksumScope::Substream, index: 4 })
    );
    assert_eq!(check_file(&entry, 4, b"12345678"), Err(Error::UnexpectedEof));
    assert_eq!(check_file(&entry, 4, b"1234567890"), Err(Error::UnexpectedEof));
    entry.has_crc = false;
    assert_eq!(check_file(&entry, 4, b"123456780"), Ok(()));
    entry.has_crc = true;
    entry.crc = 0x1_CBF4_3926;
    assert_eq!(
        check_file(&entry, 0, b"123456789"),
        Err(Error::ChecksumMismatch { scope: ChecksumScope::Substream, index: 0 })
    );
}

#[test]
fn a_block_is_checked_by_size_and_where_it_has_one_by_checksum() {
    let archive = match open(&sample().finish(None).unwrap()).unwrap() {
        Opened::Plain(archive) => archive,
        Opened::Encoded { .. } => panic!("the header is plain"),
    };
    let single = &archive.unpack_info.blocks[0];
    assert_eq!(check_block(single, 0, b"first"), Ok(()));
    assert_eq!(
        check_block(single, 0, b"fxrst"),
        Err(Error::ChecksumMismatch { scope: ChecksumScope::Block, index: 0 })
    );
    assert_eq!(check_block(single, 0, b"firs"), Err(Error::UnexpectedEof));
    let solid = &archive.unpack_info.blocks[1];
    assert_eq!(check_block(solid, 1, &[0; 34]), Ok(()));
    assert_eq!(check_block(solid, 1, &[0; 33]), Err(Error::UnexpectedEof));
}

#[test]
fn a_packed_stream_is_checked_by_size_and_checksum() {
    let mut writer = ArchiveWriter::create_in_memory();
    writer
        .push_archive_entry(
            ArchiveEntry::new_file("a".to_string()),
            Some(Content {
                data: b"abc".to_vec(),
                encoded: EncodedStream { packed: vec![9, 8], stage_sizes: vec![] },
            }),
        )
        .unwrap();
    let mut archive = match open(&writer.finish(None).unwrap()).unwrap() {
        Opened::Plain(archive) => archive,
        Opened::Encoded { .. } => panic!("the header is plain"),
    };
    assert_eq!(check_packed(&archive.pack_info, 0, &[9, 8]), Ok(()));
    assert_eq!(
        check_packed(&archive.pack_info, 0, &[9, 9]),
        Err(Error::ChecksumMismatch { scope: ChecksumScope::Block, index: 0 })
    );
    assert_eq!(check_packed(&archive.pack_info, 0, &[9]), Err(Error::UnexpectedEof));
    assert_eq!(check_packed(&archive.pack_info, 1, &[9, 8]), Err(Error::InvalidArgument));
    archive.pack_info.crcs[0] = 0;
    assert_eq!(check_packed(&archive.pack_info, 0, &[9, 9]), Ok(()));
}

#[test]
fn each_file_is_found_in_what_its_block_unpacks_to() {
    let bytes = sample().finish(None).unwrap();
    let archive = match open(&bytes).unwrap() {
        Opened::Plain(archive) => archive,
        Opened::Encoded { .. } => panic!("the header is plain"),
    };
    let map = StreamMap::build(&archive).unwrap();
    let contents: [&[u8]; 4] = [b"first", b"", b"file one content\n", b"file two content\n"];
    for (index, entry) in archive.files.iter().enumerate() {
        match map.file_blocks[index] {
            Some((block, place)) => {
                // with the copy method, the packed stream is what the block unpacks to
                let from = 32 + map.pack_offsets[block] as usize;
                let to = from + archive.pack_info.sizes[block] as usize;
                let share =
                    file_share(&archive.unpack_info.blocks[block], place as usize, &bytes[from..to])
                        .unwrap();
                assert_eq!(share, contents[index]);
                assert_eq!(check_file(entry, index as u64, share), Ok(()));
            }
            None => assert!(contents[index].is_empty()),
        }
    }
}

#[test]
fn a_share_needs_its_file_and_its_bytes() {
    let solid = BlockInfo {
        methods: vec![EncoderConfiguration::new(EncoderMethod::Copy)],
        sizes: vec![6],
        crc: 0,
        num_sub_unpack_streams: 3,
        sub_stream_sizes: vec![1, 2, 3],
        sub_stream_crcs: vec![0, 0, 0],
    };
    let unpacked = [10u8, 20, 21, 30, 31, 32];
    assert_eq!(file_share(&solid, 0, &unpacked), Some(&[10u8][..]));
    assert_eq!(file_share(&solid, 1, &unpacked), Some(&[20u8, 21][..]));
    assert_eq!(file_share(&solid, 2, &unpacked), Some(&[30u8, 31, 32][..]));
    assert_eq!(file_share(&solid, 3, &unpacked), None);
    assert_eq!(file_share(&solid, 2, &unpacked[..5]), None);
    assert_eq!(file_share(&solid, 1, &unpacked[..5]), Some(&[20u8, 21][..]));
    assert_eq!(file_share(&solid, 1, &unpacked[..2]), None);
    assert_eq!(file_share(&solid, 1, &[]), None);
    let single = BlockInfo {
        methods: vec![EncoderConfiguration::new(EncoderMethod::Copy)],
        sizes: vec![9, 4],
        crc: 0,
        num_sub_unpack_streams: 1,
        sub_stream_sizes: vec![],
        sub_stream_crcs: vec![],
    };
    assert_eq!(file_share(&single, 0, &unpacked), Some(&[10u8, 20, 21, 30][..]));
    assert_eq!(file_share(&single, 1, &unpacked), None);
    assert_eq!(file_share(&single, 0, &unpacked[..3]), None);
    let without_sizes = BlockInfo { sizes: vec![], ..single };
    assert_eq!(file_share(&without_sizes, 0, &unpacked), None);
}
