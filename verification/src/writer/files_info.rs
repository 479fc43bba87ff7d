//! The files-info section: one property section per kind of metadata.

use vstd::prelude::*;
use crate::archive::{
    ArchiveEntry,
    K_ANTI,
    K_A_TIME,
    K_C_TIME,
    K_EMPTY_FILE,
    K_EMPTY_STREAM,
    K_END,
    K_FILES_INFO,
    K_M_TIME,
    K_NAME,
    K_WIN_ATTRIBUTES,
};
use crate::bitset::BitSet;
use crate::writer::bytes::{bitset_to_bytes, lemma_assoc, packed_bits, push_le, selected};
use crate::writer::varint::{encoded_u64, le_bytes, write_encoded_u64};

verus! {

/// A payload behind its length.
pub open spec fn sized(payload: Seq<u8>) -> Seq<u8> {
    encoded_u64(payload.len() as u64) + payload
}

/// A section of one bit per item: absent where no bit is set.
pub open spec fn bits_section_bytes(nid: u8, flags: Seq<bool>) -> Seq<u8> {
    if exists|i: int| 0 <= i < flags.len() && flags[i] {
        seq![nid] + sized(packed_bits(flags))
    } else {
        Seq::empty()
    }
}

/// For each file, whether it has no stream.
pub open spec fn empty_stream_flags(files: Seq<ArchiveEntry>) -> Seq<bool> {
    Seq::new(files.len(), |i: int| !files[i].has_stream)
}

/// The files that have no stream, in order.
pub open spec fn streamless(files: Seq<ArchiveEntry>) -> Seq<ArchiveEntry> {
    selected(empty_stream_flags(files), files)
}

/// For each file without a stream, whether it is an empty file rather than a
/// directory.
pub open spec fn empty_file_flags(files: Seq<ArchiveEntry>) -> Seq<bool> {
    let entries = streamless(files);
    Seq::new(entries.len(), |i: int| !entries[i].is_directory)
}

/// For each file without a stream, whether it is an anti-item.
pub open spec fn anti_flags(files: Seq<ArchiveEntry>) -> Seq<bool> {
    let entries = streamless(files);
    Seq::new(entries.len(), |i: int| entries[i].is_anti_item)
}

/// Appends a section of one bit per flag, unless no flag is set.
pub fn write_bits_section(header: &mut Vec<u8>, nid: u8, flags: &Vec<bool>)
    ensures
        final(header)@ == old(header)@ + bits_section_bytes(nid, flags@),
{
    let mut any = false;
    let mut bits = BitSet::with_capacity(flags.len());
    let mut i: usize = 0;
    while i < flags.len()
        invariant
            i <= flags@.len(),
            any == (exists|j: int| 0 <= j < i && flags@[j]),
            forall|j: nat| bits@.contains(j) == (j < i && flags@[j as int]),
        decreases flags@.len() - i,
    {
        if flags[i] {
            any = true;
            bits.insert(i);
        }
        i = i + 1;
    }
    if any {
        header.push(nid);
        assert(bits.flags(flags@.len()) =~= flags@);
        let mut temp = bitset_to_bytes(&bits, flags.len());
        write_encoded_u64(header, temp.len() as u64);
        header.append(&mut temp);
        assert(header@ =~= old(header)@ + bits_section_bytes(nid, flags@));
    } else {
        assert(header@ =~= old(header)@ + bits_section_bytes(nid, flags@));
    }
}

/// Appends the section that marks the files without a stream, if there are any.
pub fn write_file_empty_streams(files: &Vec<ArchiveEntry>, header: &mut Vec<u8>)
    ensures
        final(header)@ == old(header)@ + bits_section_bytes(
            K_EMPTY_STREAM,
            empty_stream_flags(files@),
        ),
{
    let mut flags: Vec<bool> = Vec::new();
    let mut i: usize = 0;
    while i < files.len()
        invariant
            i <= files@.len(),
            flags@ == empty_stream_flags(files@.take(i as int)),
        decreases files@.len() - i,
    {
        proof {
            assert(empty_stream_flags(files@.take(i as int)).push(!files@[i as int].has_stream)
                =~= empty_stream_flags(files@.take(i + 1)));
        }
        flags.push(!files[i].has_stream);
        i = i + 1;
    }
    proof {
        assert(files@.take(files@.len() as int) =~= files@);
    }
    write_bits_section(header, K_EMPTY_STREAM, &flags);
}

/// Growing the file table by one entry grows the list of streamless files by
/// that entry, if it has no stream.
pub proof fn lemma_streamless_step(files: Seq<ArchiveEntry>, i: int)
    requires
        0 <= i < files.len(),
    ensures
        streamless(files.take(i + 1)) == if files[i].has_stream {
            streamless(files.take(i))
        } else {
            streamless(files.take(i)).push(files[i])
        },
{
    let next = files.take(i + 1);
    assert(next.drop_last() =~= files.take(i));
    assert(empty_stream_flags(next).drop_last() =~= empty_stream_flags(files.take(i)));
}

/// Appends the section that tells empty files from directories among the files
/// without a stream, if there is an empty file.
pub fn write_file_empty_files(files: &Vec<ArchiveEntry>, header: &mut Vec<u8>)
    ensures
        final(header)@ == old(header)@ + bits_section_bytes(K_EMPTY_FILE, empty_file_flags(files@)),
{
    let mut flags: Vec<bool> = Vec::new();
    let mut i: usize = 0;
    while i < files.len()
        invariant
            i <= files@.len(),
            flags@ == empty_file_flags(files@.take(i as int)),
        decreases files@.len() - i,
    {
        proof {
            lemma_streamless_step(files@, i as int);
            if !files@[i as int].has_stream {
                assert(empty_file_flags(files@.take(i as int)).push(!files@[i as int].is_directory)
                    =~= empty_file_flags(files@.take(i + 1)));
            }
        }
        if !files[i].has_stream {
            flags.push(!files[i].is_directory);
        }
        i = i + 1;
    }
    proof {
        assert(files@.take(files@.len() as int) =~= files@);
    }
    write_bits_section(header, K_EMPTY_FILE, &flags);
}

/// Appends the section that marks the anti-items among the files without a
/// stream, if there is one.
pub fn write_file_anti_items(files: &Vec<ArchiveEntry>, header: &mut Vec<u8>)
    ensures
        final(header)@ == old(header)@ + bits_section_bytes(K_ANTI, anti_flags(files@)),
{
    let mut flags: Vec<bool> = Vec::new();
    let mut i: usize = 0;
    while i < files.len()
        invariant
            i <= files@.len(),
            flags@ == anti_flags(files@.take(i as int)),
        decreases files@.len() - i,
    {
        proof {
            lemma_streamless_step(files@, i as int);
            if !files@[i as int].has_stream {
                assert(anti_flags(files@.take(i as int)).push(files@[i as int].is_anti_item)
                    =~= anti_flags(files@.take(i + 1)));
            }
        }
        if !files[i].has_stream {
            flags.push(files[i].is_anti_item);
        }
        i = i + 1;
    }
    proof {
        assert(files@.take(files@.len() as int) =~= files@);
    }
    write_bits_section(header, K_ANTI, &flags);
}

/// The UTF-16 code units of one character: itself, or a surrogate pair for a
/// character beyond the basic plane.
pub open spec fn utf16_units(c: char) -> Seq<u16> {
    let code = c as u32;
    if code < 0x1_0000 {
        seq![code as u16]
    } else {
        seq![
            (0xD800 + (code - 0x1_0000) / 0x400) as u16,
            (0xDC00 + (code - 0x1_0000) % 0x400) as u16,
        ]
    }
}

/// A text in UTF-16 code units.
pub open spec fn utf16_text(text: Seq<char>) -> Seq<u16>
    decreases text.len(),
{
    if text.len() == 0 {
        Seq::empty()
    } else {
        utf16_text(text.drop_last()) + utf16_units(text.last())
    }
}

/// The code units of one character as bytes, each unit low byte first.
pub open spec fn utf16le_char(c: char) -> Seq<u8> {
    let units = utf16_units(c);
    if units.len() == 1 {
        seq![(units[0] % 256) as u8, (units[0] / 256) as u8]
    } else {
        seq![
            (units[0] % 256) as u8,
            (units[0] / 256) as u8,
            (units[1] % 256) as u8,
            (units[1] / 256) as u8,
        ]
    }
}

/// A text in UTF-16LE.
pub open spec fn utf16le(text: Seq<char>) -> Seq<u8>
    decreases text.len(),
{
    if text.len() == 0 {
        Seq::empty()
    } else {
        utf16le(text.drop_last()) + utf16le_char(text.last())
    }
}

/// The names of `files` in UTF-16LE, each closed by a zero code unit.
pub open spec fn all_names(files: Seq<ArchiveEntry>) -> Seq<u8>
    decreases files.len(),
{
    if files.len() == 0 {
        Seq::empty()
    } else {
        all_names(files.drop_last()) + utf16le(files.last().name@) + seq![0u8, 0u8]
    }
}

/// The names section: a zero byte, for names stored in place, then the names.
pub open spec fn names_bytes(files: Seq<ArchiveEntry>) -> Seq<u8> {
    seq![K_NAME] + sized(seq![0u8] + all_names(files))
}

/// Appends one character in UTF-16LE.
pub fn push_utf16le_char(buf: &mut Vec<u8>, c: char)
    ensures
        final(buf)@ == old(buf)@ + utf16le_char(c),
{
    let code: u32 = c as u32;
    if code < 0x1_0000 {
        buf.push((code % 256) as u8);
        buf.push((code / 256) as u8);
    } else {
        let rest: u32 = code - 0x1_0000;
        let high: u32 = 0xD800 + rest / 0x400;
        let low: u32 = 0xDC00 + rest % 0x400;
        buf.push((high % 256) as u8);
        buf.push((high / 256) as u8);
        buf.push((low % 256) as u8);
        buf.push((low / 256) as u8);
    }
    assert(buf@ =~= old(buf)@ + utf16le_char(c));
}

/// Appends `text` in UTF-16LE.
pub fn push_utf16le(buf: &mut Vec<u8>, text: &str)
    ensures
        final(buf)@ == old(buf)@ + utf16le(text@),
{
    for c in it: text.chars()
        invariant
            it.seq() == text@,
            buf@ == old(buf)@ + utf16le(text@.take(it.index() as int)),
    {
        proof {
            let next = text@.take(it.index() + 1);
            assert(next.drop_last() =~= text@.take(it.index() as int));
            assert(next.last() == c);
        }
        push_utf16le_char(buf, c);
    }
    proof {
        assert(text@.take(text@.len() as int) =~= text@);
    }
}

/// Appends the names section.
pub fn write_file_names(files: &Vec<ArchiveEntry>, header: &mut Vec<u8>)
    ensures
        final(header)@ == old(header)@ + names_bytes(files@),
{
    header.push(K_NAME);
    let mut temp: Vec<u8> = Vec::with_capacity(128);
    temp.push(0);
    let mut i: usize = 0;
    while i < files.len()
        invariant
            i <= files@.len(),
            temp@ == seq![0u8] + all_names(files@.take(i as int)),
        decreases files@.len() - i,
    {
        proof {
            let next = files@.take(i + 1);
            assert(next.drop_last() =~= files@.take(i as int));
            assert(next.last() == files@[i as int]);
        }
        let ghost before = temp@;
        push_utf16le(&mut temp, files[i].name.as_str());
        temp.push(0);
        temp.push(0);
        assert(temp@ =~= before + utf16le(files@[i as int].name@) + seq![0u8, 0u8]);
        i = i + 1;
    }
    proof {
        assert(files@.take(files@.len() as int) =~= files@);
    }
    write_encoded_u64(header, temp.len() as u64);
    header.append(&mut temp);
    assert(header@ =~= old(header)@ + names_bytes(files@));
}

/// The `width`-byte little-endian forms of `values`, in order.
pub open spec fn le_all(values: Seq<u64>, width: nat) -> Seq<u8>
    decreases values.len(),
{
    if values.len() == 0 {
        Seq::empty()
    } else {
        le_all(values.drop_last(), width) + le_bytes(values.last() as nat, width)
    }
}

/// How a property section says which files have the property: one byte `1` where
/// all have it, else a byte `0` and one bit per file.
pub open spec fn presence_bytes(defined: Seq<bool>) -> Seq<u8> {
    if forall|i: int| 0 <= i < defined.len() ==> defined[i] {
        seq![1u8]
    } else {
        seq![0u8] + packed_bits(defined)
    }
}

/// A section of one fixed-width number for each file that has the property:
/// absent where no file has it. Behind the presence comes a zero byte, for
/// values stored in place.
pub open spec fn property_bytes(nid: u8, defined: Seq<bool>, values: Seq<u64>, width: nat) -> Seq<
    u8,
> {
    if exists|i: int| 0 <= i < defined.len() && defined[i] {
        seq![nid] + sized(
            presence_bytes(defined) + seq![0u8] + le_all(selected(defined, values), width),
        )
    } else {
        Seq::empty()
    }
}

/// For each file, whether it has a creation time.
pub open spec fn creation_flags(files: Seq<ArchiveEntry>) -> Seq<bool> {
    Seq::new(files.len(), |i: int| files[i].has_creation_date)
}

/// For each file, its creation time.
pub open spec fn creation_dates(files: Seq<ArchiveEntry>) -> Seq<u64> {
    Seq::new(files.len(), |i: int| files[i].creation_date)
}

/// For each file, whether it has an access time.
pub open spec fn access_flags(files: Seq<ArchiveEntry>) -> Seq<bool> {
    Seq::new(files.len(), |i: int| files[i].has_access_date)
}

/// For each file, its access time.
pub open spec fn access_dates(files: Seq<ArchiveEntry>) -> Seq<u64> {
    Seq::new(files.len(), |i: int| files[i].access_date)
}

/// For each file, whether it has a modification time.
pub open spec fn modified_flags(files: Seq<ArchiveEntry>) -> Seq<bool> {
    Seq::new(files.len(), |i: int| files[i].has_last_modified_date)
}

/// For each file, its modification time.
pub open spec fn modified_dates(files: Seq<ArchiveEntry>) -> Seq<u64> {
    Seq::new(files.len(), |i: int| files[i].last_modified_date)
}

/// For each file, whether it has Windows attributes.
pub open spec fn attribute_flags(files: Seq<ArchiveEntry>) -> Seq<bool> {
    Seq::new(files.len(), |i: int| files[i].has_windows_attributes)
}

/// For each file, its Windows attributes.
pub open spec fn attribute_words(files: Seq<ArchiveEntry>) -> Seq<u64> {
    Seq::new(files.len(), |i: int| files[i].windows_attributes as u64)
}

/// Appends a section of `width`-byte numbers, one for each set flag, unless no
/// flag is set.
pub fn write_property_section(
    header: &mut Vec<u8>,
    nid: u8,
    defined: &Vec<bool>,
    values: &Vec<u64>,
    width: usize,
)
    requires
        defined@.len() == values@.len(),
    ensures
        final(header)@ == old(header)@ + property_bytes(nid, defined@, values@, width as nat),
{
    let mut num: usize = 0;
    let mut i: usize = 0;
    while i < defined.len()
        invariant
            i <= defined@.len(),
            num <= i,
            num == 0 <==> (forall|j: int| 0 <= j < i ==> !defined@[j]),
            num == i <==> (forall|j: int| 0 <= j < i ==> defined@[j]),
        decreases defined@.len() - i,
    {
        if defined[i] {
            num = num + 1;
        }
        i = i + 1;
    }
    if num > 0 {
        header.push(nid);
        let mut temp: Vec<u8> = Vec::with_capacity(128);
        if num != defined.len() {
            temp.push(0);
            let mut times = BitSet::with_capacity(defined.len());
            let mut i: usize = 0;
            while i < defined.len()
                invariant
                    i <= defined@.len(),
                    forall|j: nat| times@.contains(j) == (j < i && defined@[j as int]),
                decreases defined@.len() - i,
            {
                if defined[i] {
                    times.insert(i);
                }
                i = i + 1;
            }
            assert(times.flags(defined@.len()) =~= defined@);
            let mut bits = bitset_to_bytes(&times, defined.len());
            temp.append(&mut bits);
        } else {
            temp.push(1);
        }
        temp.push(0);
        assert(temp@ =~= presence_bytes(defined@) + seq![0u8]);
        let ghost start = temp@;
        let mut i: usize = 0;
        while i < defined.len()
            invariant
                i <= defined@.len(),
                defined@.len() == values@.len(),
                temp@ == start + le_all(
                    selected(defined@.take(i as int), values@.take(i as int)),
                    width as nat,
                ),
            decreases defined@.len() - i,
        {
            proof {
                assert(defined@.take(i + 1).drop_last() =~= defined@.take(i as int));
                assert(values@.take(i + 1).drop_last() =~= values@.take(i as int));
                let chosen = selected(defined@.take(i as int), values@.take(i as int));
                if defined@[i as int] {
                    assert(chosen.push(values@[i as int]).drop_last() =~= chosen);
                    assert(start + le_all(chosen, width as nat) + le_bytes(
                        values@[i as int] as nat,
                        width as nat,
                    ) =~= start + le_all(chosen.push(values@[i as int]), width as nat));
                }
            }
            if defined[i] {
                push_le(&mut temp, values[i], width);
            }
            i = i + 1;
        }
        proof {
            assert(defined@.take(defined@.len() as int) =~= defined@);
            assert(values@.take(values@.len() as int) =~= values@);
        }
        write_encoded_u64(header, temp.len() as u64);
        header.append(&mut temp);
        assert(header@ =~= old(header)@ + property_bytes(nid, defined@, values@, width as nat));
    } else {
        assert(header@ =~= old(header)@ + property_bytes(nid, defined@, values@, width as nat));
    }
}

/// Appends the creation times of the files that have one.
pub fn write_file_ctimes(files: &Vec<ArchiveEntry>, header: &mut Vec<u8>)
    ensures
        final(header)@ == old(header)@ + property_bytes(
            K_C_TIME,
            creation_flags(files@),
            creation_dates(files@),
            8,
        ),
{
    let mut defined: Vec<bool> = Vec::new();
    let mut values: Vec<u64> = Vec::new();
    let mut i: usize = 0;
    while i < files.len()
        invariant
            i <= files@.len(),
            defined@ == creation_flags(files@.take(i as int)),
            values@ == creation_dates(files@.take(i as int)),
        decreases files@.len() - i,
    {
        proof {
            assert(creation_flags(files@.take(i as int)).push(files@[i as int].has_creation_date)
                =~= creation_flags(files@.take(i + 1)));
            assert(creation_dates(files@.take(i as int)).push(files@[i as int].creation_date)
                =~= creation_dates(files@.take(i + 1)));
        }
        defined.push(files[i].has_creation_date);
        values.push(files[i].creation_date);
        i = i + 1;
    }
    proof {
        assert(files@.take(files@.len() as int) =~= files@);
    }
    write_property_section(header, K_C_TIME, &defined, &values, 8);
}

/// Appends the access times of the files that have one.
pub fn write_file_atimes(files: &Vec<ArchiveEntry>, header: &mut Vec<u8>)
    ensures
        final(header)@ == old(header)@ + property_bytes(
            K_A_TIME,
            access_flags(files@),
            access_dates(files@),
            8,
        ),
{
    let mut defined: Vec<bool> = Vec::new();
    let mut values: Vec<u64> = Vec::new();
    let mut i: usize = 0;
    while i < files.len()
        invariant
            i <= files@.len(),
            defined@ == access_flags(files@.take(i as int)),
            values@ == access_dates(files@.take(i as int)),
        decreases files@.len() - i,
    {
        proof {
            assert(access_flags(files@.take(i as int)).push(files@[i as int].has_access_date)
                =~= access_flags(files@.take(i + 1)));
            assert(access_dates(files@.take(i as int)).push(files@[i as int].access_date)
                =~= access_dates(files@.take(i + 1)));
        }
        defined.push(files[i].has_access_date);
        values.push(files[i].access_date);
        i = i + 1;
    }
    proof {
        assert(files@.take(files@.len() as int) =~= files@);
    }
    write_property_section(header, K_A_TIME, &defined, &values, 8);
}

/// Appends the modification times of the files that have one.
pub fn write_file_mtimes(files: &Vec<ArchiveEntry>, header: &mut Vec<u8>)
    ensures
        final(header)@ == old(header)@ + property_bytes(
            K_M_TIME,
            modified_flags(files@),
            modified_dates(files@),
            8,
        ),
{
    let mut defined: Vec<bool> = Vec::new();
    let mut values: Vec<u64> = Vec::new();
    let mut i: usize = 0;
    while i < files.len()
        invariant
            i <= files@.len(),
            defined@ == modified_flags(files@.take(i as int)),
            values@ == modified_dates(files@.take(i as int)),
        decreases files@.len() - i,
    {
        proof {
            assert(modified_flags(files@.take(i as int)).push(
                files@[i as int].has_last_modified_date,
            ) =~= modified_flags(files@.take(i + 1)));
            assert(modified_dates(files@.take(i as int)).push(files@[i as int].last_modified_date)
                =~= modified_dates(files@.take(i + 1)));
        }
        defined.push(files[i].has_last_modified_date);
        values.push(files[i].last_modified_date);
        i = i + 1;
    }
    proof {
        assert(files@.take(files@.len() as int) =~= files@);
    }
    write_property_section(header, K_M_TIME, &defined, &values, 8);
}

/// Appends the Windows attributes of the files that have them.
pub fn write_file_windows_attrs(files: &Vec<ArchiveEntry>, header: &mut Vec<u8>)
    ensures
        final(header)@ == old(header)@ + property_bytes(
            K_WIN_ATTRIBUTES,
            attribute_flags(files@),
            attribute_words(files@),
            4,
        ),
{
    let mut defined: Vec<bool> = Vec::new();
    let mut values: Vec<u64> = Vec::new();
    let mut i: usize = 0;
    while i < files.len()
        invariant
            i <= files@.len(),
            defined@ == attribute_flags(files@.take(i as int)),
            values@ == attribute_words(files@.take(i as int)),
        decreases files@.len() - i,
    {
        proof {
            assert(attribute_flags(files@.take(i as int)).push(
                files@[i as int].has_windows_attributes,
            ) =~= attribute_flags(files@.take(i + 1)));
            assert(attribute_words(files@.take(i as int)).push(
                files@[i as int].windows_attributes as u64,
            ) =~= attribute_words(files@.take(i + 1)));
        }
        defined.push(files[i].has_windows_attributes);
        values.push(files[i].windows_attributes as u64);
        i = i + 1;
    }
    proof {
        assert(files@.take(files@.len() as int) =~= files@);
    }
    write_property_section(header, K_WIN_ATTRIBUTES, &defined, &values, 4);
}

/// The files-info section: the number of files, then the property sections in
/// a fixed order.
pub open spec fn files_info_bytes(files: Seq<ArchiveEntry>) -> Seq<u8> {
    seq![K_FILES_INFO] + encoded_u64(files.len() as u64) + bits_section_bytes(
        K_EMPTY_STREAM,
        empty_stream_flags(files),
    ) + bits_section_bytes(K_EMPTY_FILE, empty_file_flags(files)) + bits_section_bytes(
        K_ANTI,
        anti_flags(files),
    ) + names_bytes(files) + property_bytes(
        K_C_TIME,
        creation_flags(files),
        creation_dates(files),
        8,
    ) + property_bytes(K_A_TIME, access_flags(files), access_dates(files), 8) + property_bytes(
        K_M_TIME,
        modified_flags(files),
        modified_dates(files),
        8,
    ) + property_bytes(K_WIN_ATTRIBUTES, attribute_flags(files), attribute_words(files), 4)
        + seq![K_END]
}

/// Appends the files-info section.
pub fn write_files_info(files: &Vec<ArchiveEntry>, header: &mut Vec<u8>)
    ensures
        final(header)@ == old(header)@ + files_info_bytes(files@),
{
    let ghost start = old(header)@;
    header.push(K_FILES_INFO);
    write_encoded_u64(header, files.len() as u64);
    let ghost head = seq![K_FILES_INFO] + encoded_u64(files@.len() as u64);
    assert(header@ == start + head) by {
        lemma_assoc(start, seq![K_FILES_INFO], encoded_u64(files@.len() as u64));
    }
    write_file_empty_streams(files, header);
    let ghost piece = bits_section_bytes(K_EMPTY_STREAM, empty_stream_flags(files@));
    proof {
        lemma_assoc(start, head, piece);
    }
    let ghost head = head + piece;
    write_file_empty_files(files, header);
    let ghost piece = bits_section_bytes(K_EMPTY_FILE, empty_file_flags(files@));
    proof {
        lemma_assoc(start, head, piece);
    }
    let ghost head = head + piece;
    write_file_anti_items(files, header);
    let ghost piece = bits_section_bytes(K_ANTI, anti_flags(files@));
    proof {
        lemma_assoc(start, head, piece);
    }
    let ghost head = head + piece;
    write_file_names(files, header);
    let ghost piece = names_bytes(files@);
    proof {
        lemma_assoc(start, head, piece);
    }
    let ghost head = head + piece;
    write_file_ctimes(files, header);
    let ghost piece = property_bytes(K_C_TIME, creation_flags(files@), creation_dates(files@), 8);
    proof {
        lemma_assoc(start, head, piece);
    }
    let ghost head = head + piece;
    write_file_atimes(files, header);
    let ghost piece = property_bytes(K_A_TIME, access_flags(files@), access_dates(files@), 8);
    proof {
        lemma_assoc(start, head, piece);
    }
    let ghost head = head + piece;
    write_file_mtimes(files, header);
    let ghost piece = property_bytes(K_M_TIME, modified_flags(files@), modified_dates(files@), 8);
    proof {
        lemma_assoc(start, head, piece);
    }
    let ghost head = head + piece;
    write_file_windows_attrs(files, header);
    let ghost piece = property_bytes(
        K_WIN_ATTRIBUTES,
        attribute_flags(files@),
        attribute_words(files@),
        4,
    );
    proof {
        lemma_assoc(start, head, piece);
    }
    let ghost head = head + piece;
    header.push(K_END);
    proof {
        lemma_assoc(start, head, seq![K_END]);
    }
}

} // verus!
