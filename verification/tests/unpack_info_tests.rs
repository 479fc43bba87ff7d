use sevenz_archive::writer::unpack_info::{BlockInfo, UnpackInfo};
use sevenz_archive::{EncoderConfiguration, EncoderMethod};

fn lzma2() -> EncoderConfiguration {
    EncoderConfiguration::with_properties(EncoderMethod::Lzma2, vec![0x16])
}

fn block(methods: Vec<EncoderConfiguration>) -> BlockInfo {
    BlockInfo {
        methods,
        sizes: vec![],
        crc: 0,
        num_sub_unpack_streams: 1,
        sub_stream_sizes: vec![],
        sub_stream_crcs: vec![],
    }
}

#[test]
fn add_records_a_block_of_one_file() {
    let mut info = UnpackInfo::default();
    assert!(info.blocks.is_empty());
    info.add(vec![lzma2()], vec![100], 0x1122_3344);
    assert_eq!(info.blocks.len(), 1);
    let block = &info.blocks[0];
    assert_eq!(block.methods, vec![lzma2()]);
    assert_eq!(block.sizes, vec![100]);
    assert_eq!(block.crc, 0x1122_3344);
    assert_eq!(block.num_sub_unpack_streams, 1);
    assert!(block.sub_stream_sizes.is_empty());
    assert!(block.sub_stream_crcs.is_empty());
}

#[test]
fn add_multiple_records_the_shares() {
    let mut info = UnpackInfo::default();
    info.add(vec![lzma2()], vec![1], 1);
    info.add_multiple(vec![lzma2()], vec![18], 9, 3, vec![5, 6, 7], vec![1, 2, 3]);
    assert_eq!(info.blocks.len(), 2);
    let block = &info.blocks[1];
    assert_eq!(block.sizes, vec![18]);
    assert_eq!(block.crc, 9);
    assert_eq!(block.num_sub_unpack_streams, 3);
    assert_eq!(block.sub_stream_sizes, vec![5, 6, 7]);
    assert_eq!(block.sub_stream_crcs, vec![1, 2, 3]);
}

#[test]
fn writes_a_coder_without_properties() {
    let conf = EncoderConfiguration::new(EncoderMethod::BcjX86);
    let mut out = Vec::new();
    block(vec![]).write_single_codec(&conf, &mut out);
    assert_eq!(out, vec![0x04, 0x03, 0x03, 0x01, 0x03]);
}

#[test]
fn writes_a_coder_with_properties() {
    let mut out = vec![0x77];
    block(vec![]).write_single_codec(&lzma2(), &mut out);
    assert_eq!(out, vec![0x77, 0x21, 0x21, 0x01, 0x16]);
    let aes = EncoderConfiguration::with_properties(
        EncoderMethod::Aes256Sha256,
        vec![0x53, 0x07, 1, 2, 3, 4, 5, 6, 7, 8],
    );
    let mut out = Vec::new();
    block(vec![]).write_single_codec(&aes, &mut out);
    assert_eq!(
        out,
        vec![0x24, 0x06, 0xF1, 0x07, 0x01, 0x0A, 0x53, 0x07, 1, 2, 3, 4, 5, 6, 7, 8]
    );
}

#[test]
fn writes_a_folder_of_one_coder() {
    let mut header = Vec::new();
    let mut cache = vec![1, 2, 3];
    block(vec![lzma2()]).write_to(&mut header, &mut cache);
    assert_eq!(header, vec![0x01, 0x21, 0x21, 0x01, 0x16]);
    assert_eq!(cache, vec![0x21, 0x21, 0x01, 0x16]);
}

#[test]
fn chains_the_coders_of_a_folder_by_bind_pairs() {
    let methods = vec![
        lzma2(),
        EncoderConfiguration::new(EncoderMethod::BcjX86),
        EncoderConfiguration::with_properties(EncoderMethod::Delta, vec![3]),
    ];
    let mut header = Vec::new();
    let mut cache = Vec::new();
    block(methods).write_to(&mut header, &mut cache);
    assert_eq!(
        header,
        vec![
            0x03, 0x21, 0x21, 0x01, 0x16, 0x04, 0x03, 0x03, 0x01, 0x03, 0x21, 0x03, 0x01, 0x03,
            0x01, 0x00, 0x02, 0x01
        ]
    );
}

#[test]
fn writes_the_unpack_info_of_one_block() {
    let mut info = UnpackInfo::default();
    info.add(vec![lzma2()], vec![100], 0x1122_3344);
    let mut header = Vec::new();
    info.write_to(&mut header);
    assert_eq!(
        header,
        vec![0x07, 0x0B, 0x01, 0x00, 0x01, 0x21, 0x21, 0x01, 0x16, 0x0C, 0x64, 0x00]
    );
}

#[test]
fn writes_the_sizes_of_every_coder() {
    let mut info = UnpackInfo::default();
    info.add(
        vec![lzma2(), EncoderConfiguration::new(EncoderMethod::BcjX86)],
        vec![90, 300],
        1,
    );
    info.add(vec![EncoderConfiguration::new(EncoderMethod::Copy)], vec![7], 2);
    let mut header = Vec::new();
    info.write_to(&mut header);
    assert_eq!(
        header,
        vec![
            0x07, 0x0B, 0x02, 0x00, 0x02, 0x21, 0x21, 0x01, 0x16, 0x04, 0x03, 0x03, 0x01, 0x03,
            0x01, 0x00, 0x01, 0x01, 0x00, 0x0C, 0x5A, 0x81, 0x2C, 0x07, 0x00
        ]
    );
}

#[test]
fn writes_an_unpack_info_without_blocks() {
    let info = UnpackInfo::default();
    let mut header = Vec::new();
    info.write_to(&mut header);
    assert_eq!(header, vec![0x07, 0x0B, 0x00, 0x00, 0x0C, 0x00]);
}

#[test]
fn substreams_of_no_block() {
    let info = UnpackInfo::default();
    let mut header = Vec::new();
    info.write_substreams(&mut header);
    assert_eq!(header, vec![0x08, 0x00]);
}

#[test]
fn substreams_of_single_file_blocks_store_the_block_checksums() {
    let mut info = UnpackInfo::default();
    info.add(vec![lzma2()], vec![100], 0x1122_3344);
    info.add(vec![lzma2()], vec![5], 0x5566_7788);
    let mut header = Vec::new();
    info.write_substreams(&mut header);
    assert_eq!(
        header,
        vec![0x08, 0x0A, 0x01, 0x44, 0x33, 0x22, 0x11, 0x88, 0x77, 0x66, 0x55, 0x00]
    );
}

#[test]
fn substreams_of_a_solid_block_store_all_but_the_last_size() {
    let mut info = UnpackInfo::default();
    info.add_multiple(vec![lzma2()], vec![18], 9, 3, vec![5, 6, 7], vec![1, 2, 3]);
    let mut header = Vec::new();
    info.write_substreams(&mut header);
    assert_eq!(
        header,
        vec![
            0x08, 0x0D, 0x03, 0x09, 0x05, 0x06, 0x0A, 0x01, 1, 0, 0, 0, 2, 0, 0, 0, 3, 0, 0, 0,
            0x00
        ]
    );
}

#[test]
fn substreams_of_mixed_blocks() {
    let mut info = UnpackInfo::default();
    info.add(vec![lzma2()], vec![100], 0xA1A2_A3A4);
    info.add_multiple(vec![lzma2()], vec![11], 9, 2, vec![5, 6], vec![1, 2]);
    info.add_multiple(vec![lzma2()], vec![4], 8, 1, vec![4], vec![0xB1B2_B3B4]);
    let mut header = Vec::new();
    info.write_substreams(&mut header);
    assert_eq!(
        header,
        vec![
            0x08, 0x0D, 0x01, 0x02, 0x01, 0x09, 0x05, 0x0A, 0x01, 0xA4, 0xA3, 0xA2, 0xA1, 1, 0, 0,
            0, 2, 0, 0, 0, 0xB4, 0xB3, 0xB2, 0xB1, 0x00
        ]
    );
}

#[test]
fn substreams_of_a_block_without_files() {
    let mut info = UnpackInfo::default();
    info.add_multiple(vec![lzma2()], vec![0], 0, 0, vec![], vec![]);
    let mut header = Vec::new();
    info.write_substreams(&mut header);
    assert_eq!(header, vec![0x08, 0x0D, 0x00, 0x00]);
}

#[test]
fn method_ids() {
    assert_eq!(EncoderMethod::Copy.id(), vec![0x00]);
    assert_eq!(EncoderMethod::Delta.id(), vec![0x03]);
    assert_eq!(EncoderMethod::Lzma.id(), vec![0x03, 0x01, 0x01]);
    assert_eq!(EncoderMethod::Lzma2.id(), vec![0x21]);
    assert_eq!(EncoderMethod::BcjX86.id(), vec![0x03, 0x03, 0x01, 0x03]);
    assert_eq!(EncoderMethod::BcjArm64.id(), vec![0x0A]);
    assert_eq!(EncoderMethod::Aes256Sha256.id(), vec![0x06, 0xF1, 0x07, 0x01]);
    assert_eq!(EncoderMethod::Zstd.id(), vec![0x04, 0xF7, 0x11, 0x01]);
}

#[test]
fn a_configuration_keeps_id_and_properties() {
    let conf = EncoderConfiguration::new(EncoderMethod::Lzma2);
    assert_eq!(conf.id(), &vec![0x21]);
    assert!(conf.is_method(EncoderMethod::Lzma2));
    assert!(!conf.is_method(EncoderMethod::Lzma));
    assert!(conf.properties().is_empty());
    let conf = lzma2();
    assert!(conf.is_method(EncoderMethod::Lzma2));
    assert_eq!(conf.properties(), &vec![0x16]);
    let copy = conf.clone();
    assert_eq!(copy, conf);
}

#[test]
fn a_configuration_takes_ids_of_one_to_fifteen_bytes() {
    assert!(EncoderConfiguration::from_id(vec![], vec![]).is_none());
    assert!(EncoderConfiguration::from_id(vec![7; 16], vec![]).is_none());
    let conf = EncoderConfiguration::from_id(vec![7; 15], vec![1]).unwrap();
    assert_eq!(conf.id(), &vec![7; 15]);
    assert_eq!(conf.properties(), &vec![1]);
    let conf = EncoderConfiguration::from_id(vec![0x21], vec![]).unwrap();
    assert_eq!(conf, EncoderConfiguration::new(EncoderMethod::Lzma2));
}

#[test]
fn long_properties_have_an_encoded_length() {
    let conf = EncoderConfiguration::with_properties(EncoderMethod::Lzma, vec![9; 200]);
    let mut out = Vec::new();
    block(vec![]).write_single_codec(&conf, &mut out);
    assert_eq!(&out[..6], &[0x23, 0x03, 0x01, 0x01, 0x80, 200]);
    assert_eq!(out.len(), 206);
}
