use sevenz_archive::writer::pipeline::run_encoder_chain;
use sevenz_archive::writer::seq_reader::SeqReader;
use sevenz_archive::{EncoderConfiguration, EncoderMethod, Error};

/// A stand-in for real coders: each one appends its id to what it reads, and
/// Delta drops the first byte.
fn toy(method: &EncoderConfiguration, input: &Vec<u8>) -> Result<Vec<u8>, Error> {
    let mut out = input.clone();
    if method.is_method(EncoderMethod::Delta) {
        if out.is_empty() {
            return Err(Error::Io { message: "nothing to drop".to_string() });
        }
        out.remove(0);
    } else if method.is_method(EncoderMethod::Ppmd) {
        return Err(Error::UnsupportedCodec { id: method.id().clone() });
    } else {
        out.extend(method.id());
    }
    Ok(out)
}

fn methods(list: &[EncoderMethod]) -> Vec<EncoderConfiguration> {
    list.iter().map(|method| EncoderConfiguration::new(*method)).collect()
}

#[test]
fn one_coder_gives_no_stage_sizes() {
    let stream = run_encoder_chain(&methods(&[EncoderMethod::Lzma2]), &vec![1, 2, 3], &toy).unwrap();
    assert_eq!(stream.packed, vec![1, 2, 3, 0x21]);
    assert_eq!(stream.stage_sizes, Vec::<u64>::new());
}

#[test]
fn input_enters_the_last_coder() {
    let chain = methods(&[EncoderMethod::Lzma2, EncoderMethod::BcjX86]);
    let stream = run_encoder_chain(&chain, &vec![9], &toy).unwrap();
    assert_eq!(stream.packed, vec![9, 0x03, 0x03, 0x01, 0x03, 0x21]);
    assert_eq!(stream.stage_sizes, vec![5]);
}

#[test]
fn stage_sizes_follow_the_declaration_order() {
    let chain = methods(&[
        EncoderMethod::Copy,
        EncoderMethod::Lzma,
        EncoderMethod::Delta,
        EncoderMethod::BcjX86,
    ]);
    let stream = run_encoder_chain(&chain, &vec![7, 7, 7], &toy).unwrap();
    // BCJ makes 7 bytes, Delta 6, LZMA 9, Copy 10
    assert_eq!(stream.stage_sizes, vec![9, 6, 7]);
    assert_eq!(stream.packed, vec![7, 7, 0x03, 0x03, 0x01, 0x03, 0x03, 0x01, 0x01, 0x00]);
}

#[test]
fn empty_input_runs_through() {
    let chain = methods(&[EncoderMethod::Copy, EncoderMethod::Copy]);
    let stream = run_encoder_chain(&chain, &vec![], &toy).unwrap();
    assert_eq!(stream.packed, vec![0x00, 0x00]);
    assert_eq!(stream.stage_sizes, vec![1]);
}

#[test]
fn the_first_failure_ends_the_run() {
    let chain = methods(&[EncoderMethod::Ppmd, EncoderMethod::Delta]);
    assert_eq!(
        run_encoder_chain(&chain, &vec![], &toy).err(),
        Some(Error::Io { message: "nothing to drop".to_string() })
    );
    assert_eq!(
        run_encoder_chain(&chain, &vec![1], &toy).err(),
        Some(Error::UnsupportedCodec { id: vec![0x03, 0x04, 0x01] })
    );
}

#[test]
fn a_failing_coder_has_read_what_the_coders_before_it_gave() {
    // the coder declared last drops the only byte, so the one declared first
    // finds nothing to drop
    let chain = methods(&[EncoderMethod::Delta, EncoderMethod::Delta]);
    assert_eq!(
        run_encoder_chain(&chain, &vec![1], &toy).err(),
        Some(Error::Io { message: "nothing to drop".to_string() })
    );
    assert_eq!(run_encoder_chain(&chain, &vec![1, 2], &toy).unwrap().packed, Vec::<u8>::new());
    // with a coder between them that adds a byte, the first has one to drop
    let chain = methods(&[EncoderMethod::Delta, EncoderMethod::Lzma2, EncoderMethod::Delta]);
    let stream = run_encoder_chain(&chain, &vec![1], &toy).unwrap();
    assert_eq!(stream.packed, Vec::<u8>::new());
    assert_eq!(stream.stage_sizes, vec![1, 0]);
}

#[test]
fn a_sequence_of_readers_moves_on_at_empty_reads() {
    let mut readers: SeqReader<Vec<u8>> = SeqReader::new(vec![vec![1, 2], vec![], vec![3]]);
    assert_eq!(readers.reader_len(), 3);
    assert_eq!(readers.current(), Some(0));
    assert!(readers.after_read(2));
    assert_eq!(readers.current(), Some(0));
    assert!(!readers.after_read(0));
    assert_eq!(readers.current(), Some(1));
    assert!(!readers.after_read(0));
    assert_eq!(readers.current(), Some(2));
    assert!(readers.after_read(1));
    assert!(!readers.after_read(0));
    assert_eq!(readers.current(), None);
    assert_eq!(readers.get(2), &vec![3]);
    assert_eq!(readers.into_readers(), vec![vec![1, 2], vec![], vec![3]]);
}

#[test]
fn a_sequence_without_readers_is_at_its_end() {
    let readers: SeqReader<Vec<u8>> = SeqReader::new(vec![]);
    assert_eq!(readers.reader_len(), 0);
    assert_eq!(readers.current(), None);
}

#[test]
fn reading_a_sequence_gives_the_sources_one_after_another() {
    let sources = vec![b"ab".to_vec(), vec![], b"cde".to_vec(), b"f".to_vec()];
    let mut offsets = vec![0usize; sources.len()];
    let mut readers = SeqReader::new(sources);
    let mut out = Vec::new();
    while let Some(index) = readers.current() {
        let source = readers.get(index);
        let count = (source.len() - offsets[index]).min(2);
        out.extend_from_slice(&source[offsets[index]..offsets[index] + count]);
        offsets[index] += count;
        readers.after_read(count);
    }
    assert_eq!(out, b"abcdef".to_vec());
}
