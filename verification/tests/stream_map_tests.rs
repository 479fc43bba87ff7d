use sevenz_archive::reader::header::{read_header, Archive};
use sevenz_archive::reader::stream_map::StreamMap;
use sevenz_archive::writer::{Content, EncodedStream};
use sevenz_archive::{ArchiveEntry, ArchiveWriter, EncoderConfiguration, EncoderMethod, Error};

fn stored(data: &[u8]) -> Content {
    Content {
        data: data.to_vec(),
        encoded: EncodedStream { packed: data.to_vec(), stage_sizes: vec![] },
    }
}

fn archive_of(writer: &ArchiveWriter) -> Archive {
    let mut header = Vec::new();
    writer.write_header(&mut header);
    read_header(&header).unwrap()
}

#[test]
fn map_of_an_empty_archive() {
    let map = StreamMap::build(&archive_of(&ArchiveWriter::create_in_memory())).unwrap();
    assert!(map.pack_offsets.is_empty());
    assert!(map.file_blocks.is_empty());
    assert!(map.block_first_file.is_empty());
}

#[test]
fn files_lie_in_their_blocks_in_order() {
    let mut writer = ArchiveWriter::create_in_memory();
    writer.set_content_methods(vec![EncoderConfiguration::new(EncoderMethod::Copy)]).unwrap();
    writer.push_archive_entry(ArchiveEntry::new_directory("d".to_string()), None).unwrap();
    writer.push_archive_entry(ArchiveEntry::new_file("a".to_string()), Some(stored(b"12345"))).unwrap();
    writer.push_archive_entry(ArchiveEntry::new_file("e".to_string()), None).unwrap();
    writer
        .push_archive_entries(
            vec![
                ArchiveEntry::new_file("s1".to_string()),
                ArchiveEntry::new_file("s2".to_string()),
                ArchiveEntry::new_file("s3".to_string()),
                ArchiveEntry::new_file("s4".to_string()),
            ],
            vec![vec![1], vec![], vec![2, 3], vec![4]],
            EncodedStream { packed: vec![1, 2, 3, 4], stage_sizes: vec![] },
        )
        .unwrap();
    writer.push_archive_entry(ArchiveEntry::new_file("b".to_string()), Some(stored(b"67"))).unwrap();
    let map = StreamMap::build(&archive_of(&writer)).unwrap();
    assert_eq!(map.pack_offsets, vec![0, 5, 9]);
    assert_eq!(
        map.file_blocks,
        vec![
            None,
            Some((0, 0)),
            None,
            Some((1, 0)),
            None,
            Some((1, 1)),
            Some((1, 2)),
            Some((2, 0)),
        ]
    );
    assert_eq!(map.block_first_file, vec![1, 3, 7]);
}

#[test]
fn blocks_without_files_are_passed_over() {
    let mut writer = ArchiveWriter::create_in_memory();
    writer.set_content_methods(vec![EncoderConfiguration::new(EncoderMethod::Copy)]).unwrap();
    writer.push_archive_entry(ArchiveEntry::new_file("a".to_string()), Some(stored(b"1"))).unwrap();
    writer.push_archive_entry(ArchiveEntry::new_file("b".to_string()), Some(stored(b"22"))).unwrap();
    let mut archive = archive_of(&writer);
    archive.unpack_info.blocks[0].num_sub_unpack_streams = 0;
    archive.files.remove(0);
    let map = StreamMap::build(&archive).unwrap();
    assert_eq!(map.pack_offsets, vec![0, 1]);
    assert_eq!(map.file_blocks, vec![Some((1, 0))]);
    assert_eq!(map.block_first_file, vec![1, 0]);
}

#[test]
fn more_files_than_streams_is_malformed() {
    let mut writer = ArchiveWriter::create_in_memory();
    writer.set_content_methods(vec![EncoderConfiguration::new(EncoderMethod::Copy)]).unwrap();
    writer.push_archive_entry(ArchiveEntry::new_file("a".to_string()), Some(stored(b"1"))).unwrap();
    let mut archive = archive_of(&writer);
    archive.files.push(ArchiveEntry::new_file("b".to_string()));
    assert_eq!(StreamMap::build(&archive).err(), Some(Error::MalformedHeader { offset: 0 }));
    archive.files[1].has_stream = false;
    assert!(StreamMap::build(&archive).is_ok());
}

#[test]
fn a_pack_area_beyond_u64_is_malformed() {
    let mut writer = ArchiveWriter::create_in_memory();
    writer.set_content_methods(vec![EncoderConfiguration::new(EncoderMethod::Copy)]).unwrap();
    writer.push_archive_entry(ArchiveEntry::new_file("a".to_string()), Some(stored(b"1"))).unwrap();
    writer.push_archive_entry(ArchiveEntry::new_file("b".to_string()), Some(stored(b"2"))).unwrap();
    let mut archive = archive_of(&writer);
    archive.pack_info.sizes = vec![u64::MAX, 1];
    assert_eq!(StreamMap::build(&archive).err(), Some(Error::MalformedHeader { offset: 0 }));
    archive.pack_info.sizes = vec![u64::MAX - 1, 1];
    let map = StreamMap::build(&archive).unwrap();
    assert_eq!(map.pack_offsets, vec![0, u64::MAX - 1]);
}
