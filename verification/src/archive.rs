//! The archive model: format constants, file entries and coder descriptors.

use vstd::prelude::*;

verus! {

/// The length of the signature header that starts every archive.
pub const SIGNATURE_HEADER_SIZE: u64 = 32;

/// The magic bytes at the start of an archive.
pub open spec fn seven_z_signature() -> Seq<u8> {
    seq![0x37u8, 0x7Au8, 0xBCu8, 0xAFu8, 0x27u8, 0x1Cu8]
}

pub const K_END: u8 = 0x00;

pub const K_HEADER: u8 = 0x01;

pub const K_ARCHIVE_PROPERTIES: u8 = 0x02;

pub const K_ADDITIONAL_STREAMS_INFO: u8 = 0x03;

pub const K_MAIN_STREAMS_INFO: u8 = 0x04;

pub const K_FILES_INFO: u8 = 0x05;

pub const K_PACK_INFO: u8 = 0x06;

pub const K_UNPACK_INFO: u8 = 0x07;

pub const K_SUB_STREAMS_INFO: u8 = 0x08;

pub const K_SIZE: u8 = 0x09;

pub const K_CRC: u8 = 0x0A;

pub const K_FOLDER: u8 = 0x0B;

pub const K_CODERS_UNPACK_SIZE: u8 = 0x0C;

pub const K_NUM_UNPACK_STREAM: u8 = 0x0D;

pub const K_EMPTY_STREAM: u8 = 0x0E;

pub const K_EMPTY_FILE: u8 = 0x0F;

pub const K_ANTI: u8 = 0x10;

pub const K_NAME: u8 = 0x11;

pub const K_C_TIME: u8 = 0x12;

pub const K_A_TIME: u8 = 0x13;

pub const K_M_TIME: u8 = 0x14;

pub const K_WIN_ATTRIBUTES: u8 = 0x15;

pub const K_ENCODED_HEADER: u8 = 0x17;

pub const K_START_POS: u8 = 0x19;

pub const K_DUMMY: u8 = 0x1A;

/// One file or directory of an archive, with its metadata.
///
/// Times are NT times: the number of 100 ns ticks since 1601-01-01 UTC.
#[derive(Debug, Clone, PartialEq, Eq)]
pub struct ArchiveEntry {
    /// The path inside the archive, with forward slashes.
    pub name: String,
    /// Whether the entry has content in a block.
    pub has_stream: bool,
    pub is_directory: bool,
    /// Whether the entry marks a file to delete on extraction.
    pub is_anti_item: bool,
    pub has_creation_date: bool,
    pub has_last_modified_date: bool,
    pub has_access_date: bool,
    pub creation_date: u64,
    pub last_modified_date: u64,
    pub access_date: u64,
    pub has_windows_attributes: bool,
    pub windows_attributes: u32,
    pub has_crc: bool,
    /// The CRC-32 of the content.
    pub crc: u64,
    /// The CRC-32 of the packed stream, for an entry with a block of its own.
    pub compressed_crc: u64,
    /// The length of the content.
    pub size: u64,
    /// The length of the packed stream, for an entry with a block of its own.
    pub compressed_size: u64,
}

impl ArchiveEntry {
    /// An entry for a file called `name`, with no metadata yet.
    pub fn new_file(name: String) -> (entry: Self)
        ensures
            entry == Self::spec_new(name, false),
    {
        ArchiveEntry {
            name,
            has_stream: true,
            is_directory: false,
            is_anti_item: false,
            has_creation_date: false,
            has_last_modified_date: false,
            has_access_date: false,
            creation_date: 0,
            last_modified_date: 0,
            access_date: 0,
            has_windows_attributes: false,
            windows_attributes: 0,
            has_crc: false,
            crc: 0,
            compressed_crc: 0,
            size: 0,
            compressed_size: 0,
        }
    }

    /// An entry for a directory called `name`, with no metadata yet.
    pub fn new_directory(name: String) -> (entry: Self)
        ensures
            entry == Self::spec_new(name, true),
    {
        ArchiveEntry {
            name,
            has_stream: false,
            is_directory: true,
            is_anti_item: false,
            has_creation_date: false,
            has_last_modified_date: false,
            has_access_date: false,
            creation_date: 0,
            last_modified_date: 0,
            access_date: 0,
            has_windows_attributes: false,
            windows_attributes: 0,
            has_crc: false,
            crc: 0,
            compressed_crc: 0,
            size: 0,
            compressed_size: 0,
        }
    }

    /// A fresh entry: a directory without a stream, or a file that expects one.
    pub open spec fn spec_new(name: String, is_directory: bool) -> Self {
        ArchiveEntry {
            name,
            has_stream: !is_directory,
            is_directory,
            is_anti_item: false,
            has_creation_date: false,
            has_last_modified_date: false,
            has_access_date: false,
            creation_date: 0,
            last_modified_date: 0,
            access_date: 0,
            has_windows_attributes: false,
            windows_attributes: 0,
            has_crc: false,
            crc: 0,
            compressed_crc: 0,
            size: 0,
            compressed_size: 0,
        }
    }
}

/// The codecs and filters that a block's coder can name.
#[derive(Debug, Clone, Copy, PartialEq, Eq, Structural)]
pub enum EncoderMethod {
    Copy,
    Delta,
    BcjX86,
    BcjPpc,
    BcjIa64,
    BcjArm,
    BcjArm64,
    BcjArmThumb,
    BcjSparc,
    BcjRiscv,
    Lzma,
    Lzma2,
    Bzip2,
    Deflate,
    Ppmd,
    Zstd,
    Lz4,
    Brotli,
    Aes256Sha256,
}

impl EncoderMethod {
    /// The method's id, as a block's coder descriptor spells it.
    pub open spec fn spec_id(self) -> Seq<u8> {
        match self {
            EncoderMethod::Copy => seq![0x00u8],
            EncoderMethod::Delta => seq![0x03u8],
            EncoderMethod::BcjX86 => seq![0x03u8, 0x03u8, 0x01u8, 0x03u8],
            EncoderMethod::BcjPpc => seq![0x03u8, 0x03u8, 0x02u8, 0x05u8],
            EncoderMethod::BcjIa64 => seq![0x03u8, 0x03u8, 0x04u8, 0x01u8],
            EncoderMethod::BcjArm => seq![0x03u8, 0x03u8, 0x05u8, 0x01u8],
            EncoderMethod::BcjArm64 => seq![0x0Au8],
            EncoderMethod::BcjArmThumb => seq![0x03u8, 0x03u8, 0x07u8, 0x01u8],
            EncoderMethod::BcjSparc => seq![0x03u8, 0x03u8, 0x08u8, 0x05u8],
            EncoderMethod::BcjRiscv => seq![0x0Bu8],
            EncoderMethod::Lzma => seq![0x03u8, 0x01u8, 0x01u8],
            EncoderMethod::Lzma2 => seq![0x21u8],
            EncoderMethod::Bzip2 => seq![0x04u8, 0x02u8, 0x02u8],
            EncoderMethod::Deflate => seq![0x04u8, 0x01u8, 0x08u8],
            EncoderMethod::Ppmd => seq![0x03u8, 0x04u8, 0x01u8],
            EncoderMethod::Zstd => seq![0x04u8, 0xF7u8, 0x11u8, 0x01u8],
            EncoderMethod::Lz4 => seq![0x04u8, 0xF7u8, 0x11u8, 0x04u8],
            EncoderMethod::Brotli => seq![0x04u8, 0xF7u8, 0x11u8, 0x02u8],
            EncoderMethod::Aes256Sha256 => seq![0x06u8, 0xF1u8, 0x07u8, 0x01u8],
        }
    }

    /// The method's id: between one and four bytes.
    pub fn id(&self) -> (id: Vec<u8>)
        ensures
            id@ == self.spec_id(),
            1 <= id@.len() <= 4,
    {
        let id = match self {
            EncoderMethod::Copy => vec![0x00u8],
            EncoderMethod::Delta => vec![0x03u8],
            EncoderMethod::BcjX86 => vec![0x03u8, 0x03u8, 0x01u8, 0x03u8],
            EncoderMethod::BcjPpc => vec![0x03u8, 0x03u8, 0x02u8, 0x05u8],
            EncoderMethod::BcjIa64 => vec![0x03u8, 0x03u8, 0x04u8, 0x01u8],
            EncoderMethod::BcjArm => vec![0x03u8, 0x03u8, 0x05u8, 0x01u8],
            EncoderMethod::BcjArm64 => vec![0x0Au8],
            EncoderMethod::BcjArmThumb => vec![0x03u8, 0x03u8, 0x07u8, 0x01u8],
            EncoderMethod::BcjSparc => vec![0x03u8, 0x03u8, 0x08u8, 0x05u8],
            EncoderMethod::BcjRiscv => vec![0x0Bu8],
            EncoderMethod::Lzma => vec![0x03u8, 0x01u8, 0x01u8],
            EncoderMethod::Lzma2 => vec![0x21u8],
            EncoderMethod::Bzip2 => vec![0x04u8, 0x02u8, 0x02u8],
            EncoderMethod::Deflate => vec![0x04u8, 0x01u8, 0x08u8],
            EncoderMethod::Ppmd => vec![0x03u8, 0x04u8, 0x01u8],
            EncoderMethod::Zstd => vec![0x04u8, 0xF7u8, 0x11u8, 0x01u8],
            EncoderMethod::Lz4 => vec![0x04u8, 0xF7u8, 0x11u8, 0x04u8],
            EncoderMethod::Brotli => vec![0x04u8, 0xF7u8, 0x11u8, 0x02u8],
            EncoderMethod::Aes256Sha256 => vec![0x06u8, 0xF1u8, 0x07u8, 0x01u8],
        };
        assert(id@ =~= self.spec_id());
        id
    }
}

/// A coder as a block's descriptor names it: the method's id and the properties
/// blob that the codec serialised its options to.
pub struct Coder {
    pub id: Seq<u8>,
    pub properties: Seq<u8>,
}

/// Whether a text holds no zero character. A name is stored with a zero
/// behind it, so only such a text can be a name.
pub open spec fn text_fits(text: Seq<char>) -> bool {
    forall|i: int| 0 <= i < text.len() ==> text[i] as u32 != 0
}

/// Whether no name of the entries holds a zero character.
pub open spec fn names_are_texts(entries: Seq<ArchiveEntry>) -> bool {
    forall|i: int| 0 <= i < entries.len() ==> text_fits(#[trigger] entries[i].name@)
}

/// Whether `c` is the zero character.
fn is_zero(c: char) -> (zero: bool)
    ensures
        zero == (c as u32 == 0),
{
    c as u32 == 0
}

/// Whether `text` holds no zero character.
pub fn is_text(text: &str) -> (fits: bool)
    ensures
        fits == text_fits(text@),
{
    let mut fits = true;
    for c in it: text.chars()
        invariant
            it.seq() == text@,
            fits == text_fits(text@.take(it.index() as int)),
    {
        proof {
            let before = text@.take(it.index() as int);
            let next = text@.take(it.index() + 1);
            assert(next.last() == c);
            assert forall|i: int| 0 <= i < before.len() implies before[i] == next[i] by {}
            if text_fits(next) {
                assert forall|i: int| 0 <= i < before.len() implies before[i] as u32 != 0 by {
                    assert(before[i] == next[i]);
                }
            }
        }
        if is_zero(c) {
            fits = false;
        }
    }
    proof {
        assert(text@.take(text@.len() as int) =~= text@);
    }
    fits
}

/// The longest id that a coder descriptor can carry: its length is written in
/// four bits.
pub const MAX_ID_LEN: usize = 15;

/// One coder of a chain: the id of its method, and the properties that its
/// codec wrote for the options it runs with.
#[derive(Debug, PartialEq, Eq)]
pub struct EncoderConfiguration {
    id: Vec<u8>,
    properties: Vec<u8>,
}

impl View for EncoderConfiguration {
    type V = Coder;

    /// The coder that the configuration describes. A configuration always
    /// has an id within the bounds; a value without one, which only a proof
    /// can speak of, is read as a coder with the id of one zero byte.
    closed spec fn view(&self) -> Coder {
        Coder {
            id: if self.well_formed() {
                self.id@
            } else {
                seq![0u8]
            },
            properties: self.properties@,
        }
    }
}

/// Whether two byte strings are the same.
pub fn same_bytes(left: &[u8], right: &[u8]) -> (same: bool)
    ensures
        same == (left@ == right@),
{
    if left.len() != right.len() {
        return false;
    }
    let mut i: usize = 0;
    while i < left.len()
        invariant
            i <= left@.len() == right@.len(),
            left@.take(i as int) == right@.take(i as int),
        decreases left@.len() - i,
    {
        if left[i] != right[i] {
            return false;
        }
        assert(left@.take(i + 1) =~= left@.take(i as int).push(left@[i as int]));
        assert(right@.take(i + 1) =~= right@.take(i as int).push(right@[i as int]));
        i = i + 1;
    }
    assert(left@ =~= left@.take(left@.len() as int));
    assert(right@ =~= right@.take(right@.len() as int));
    true
}

/// A copy of `bytes`.
pub fn copy_bytes(bytes: &[u8]) -> (copy: Vec<u8>)
    ensures
        copy@ == bytes@,
{
    let mut copy: Vec<u8> = Vec::new();
    let mut i: usize = 0;
    while i < bytes.len()
        invariant
            i <= bytes@.len(),
            copy@ == bytes@.take(i as int),
        decreases bytes@.len() - i,
    {
        copy.push(bytes[i]);
        assert(bytes@.take(i + 1) =~= bytes@.take(i as int).push(bytes@[i as int]));
        i = i + 1;
    }
    assert(bytes@ =~= bytes@.take(bytes@.len() as int));
    copy
}

impl EncoderConfiguration {
    /// The id has between one and `MAX_ID_LEN` bytes.
    #[verifier::type_invariant]
    closed spec fn well_formed(&self) -> bool {
        1 <= self.id@.len() <= MAX_ID_LEN
    }

    /// A coder for `method` without properties.
    pub fn new(method: EncoderMethod) -> (conf: Self)
        ensures
            conf@ == (Coder { id: method.spec_id(), properties: Seq::empty() }),
    {
        EncoderConfiguration { id: method.id(), properties: Vec::new() }
    }

    /// A coder for `method` with the properties blob of its codec.
    pub fn with_properties(method: EncoderMethod, properties: Vec<u8>) -> (conf: Self)
        ensures
            conf@ == (Coder { id: method.spec_id(), properties: properties@ }),
    {
        EncoderConfiguration { id: method.id(), properties }
    }

    /// A coder for the method with the id `id`, or `None` where the id is
    /// empty or longer than `MAX_ID_LEN`.
    pub fn from_id(id: Vec<u8>, properties: Vec<u8>) -> (conf: Option<Self>)
        ensures
            conf is Some <==> 1 <= id@.len() <= MAX_ID_LEN,
            conf is Some ==> conf->0@ == (Coder { id: id@, properties: properties@ }),
    {
        if id.len() == 0 || id.len() > MAX_ID_LEN {
            None
        } else {
            Some(EncoderConfiguration { id, properties })
        }
    }

    /// The id of the coder's method.
    pub fn id(&self) -> (id: &Vec<u8>)
        ensures
            id@ == self@.id,
            1 <= id@.len() <= MAX_ID_LEN,
    {
        proof {
            use_type_invariant(self);
        }
        &self.id
    }

    /// Whether the coder runs `method`.
    pub fn is_method(&self, method: EncoderMethod) -> (same: bool)
        ensures
            same == (self@.id == method.spec_id()),
    {
        proof {
            use_type_invariant(self);
        }
        let id = method.id();
        same_bytes(self.id.as_slice(), id.as_slice())
    }

    /// The coder of a configuration has an id of one to `MAX_ID_LEN` bytes,
    /// and properties that the machine can count.
    pub proof fn lemma_fits(self)
        ensures
            1 <= self@.id.len() <= MAX_ID_LEN,
            self@.properties.len() <= usize::MAX,
    {
        assert(self.properties.len() == self.properties@.len());
    }

    /// The coder's properties blob.
    pub fn properties(&self) -> (properties: &Vec<u8>)
        ensures
            properties@ == self@.properties,
    {
        &self.properties
    }
}

impl Clone for EncoderConfiguration {
    fn clone(&self) -> (copy: Self)
        ensures
            copy@ == self@,
    {
        proof {
            use_type_invariant(self);
        }
        EncoderConfiguration {
            id: copy_bytes(self.id.as_slice()),
            properties: copy_bytes(self.properties.as_slice()),
        }
    }
}

} // verus!
