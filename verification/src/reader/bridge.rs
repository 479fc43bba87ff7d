//! The header of a list of file entries, as the writer makes it, is the header
//! of the files that the entries describe.

use vstd::prelude::*;
use crate::writer::bytes::lemma_assoc;
use crate::archive::{
    ArchiveEntry,
    K_ANTI,
    K_A_TIME,
    K_C_TIME,
    K_EMPTY_FILE,
    K_EMPTY_STREAM,
    K_END,
    K_FILES_INFO,
    K_M_TIME,
    K_WIN_ATTRIBUTES,
    text_fits,
};
use crate::reader::files::{
    columns_of,
    files_section_bytes,
    flag_sections_bytes,
    le16_all,
    models_of,
    name_fits,
    name_list_bytes,
    names_section_bytes,
    property_sections_bytes,
};
use crate::writer::bytes::selected;
use crate::writer::files_info::{
    access_dates,
    access_flags,
    all_names,
    anti_flags,
    attribute_flags,
    attribute_words,
    bits_section_bytes,
    creation_dates,
    creation_flags,
    empty_file_flags,
    empty_stream_flags,
    files_info_bytes,
    modified_dates,
    modified_flags,
    names_bytes,
    property_bytes,
    utf16_text,
    utf16_units,
    utf16le,
    utf16le_char,
};
use crate::writer::varint::encoded_u64;

verus! {

/// The bytes of code units one behind the other are the bytes of the first
/// units and then the bytes of the others.
pub proof fn lemma_le16_all_append(first: Seq<u16>, second: Seq<u16>)
    ensures
        le16_all(first + second) == le16_all(first) + le16_all(second),
    decreases first.len(),
{
    if first.len() == 0 {
        assert(first + second =~= second);
        assert(le16_all(first) + le16_all(second) =~= le16_all(second));
    } else {
        lemma_le16_all_append(first.skip(1), second);
        assert((first + second).skip(1) =~= first.skip(1) + second);
        assert((first + second)[0] == first[0]);
        let head = seq![(first[0] % 256) as u8, (first[0] / 256) as u8];
        lemma_assoc(head, le16_all(first.skip(1)), le16_all(second));
    }
}

/// The code units of one character as bytes, and that none of them is zero
/// unless the character is.
pub proof fn lemma_char_units(c: char)
    ensures
        le16_all(utf16_units(c)) == utf16le_char(c),
        c as u32 != 0 ==> name_fits(utf16_units(c)),
        1 <= utf16_units(c).len() <= 2,
{
    let units = utf16_units(c);
    reveal_with_fuel(le16_all, 3);
    if units.len() == 1 {
        assert(units.skip(1) =~= Seq::<u16>::empty());
        assert(le16_all(units) =~= utf16le_char(c));
    } else {
        assert(units.skip(1).skip(1) =~= Seq::<u16>::empty());
        assert(units.skip(1)[0] == units[1]);
        assert(le16_all(units.skip(1)) =~= seq![(units[1] % 256) as u8, (units[1] / 256) as u8]);
        assert(le16_all(units) =~= utf16le_char(c));
    }
}

/// The code units of a character tell the character: a character beyond the
/// basic plane has two units, of which the last is a low surrogate; any other
/// has one, which is none; and two characters with the same units are the
/// same.
pub proof fn lemma_units_tell_char(a: char, b: char)
    ensures
        utf16_units(a).len() == 2 <==> 0xDC00 <= utf16_units(a).last() <= 0xDFFF,
        1 <= utf16_units(a).len() <= 2,
        utf16_units(a) == utf16_units(b) ==> a == b,
{
    let x = a as u32;
    let y = b as u32;
    if utf16_units(a) == utf16_units(b) {
        if x < 0x1_0000 {
            assert(utf16_units(a).len() == 1);
            assert(utf16_units(a)[0] == utf16_units(b)[0]);
        } else {
            assert(utf16_units(a).len() == 2);
            assert(utf16_units(a)[0] == utf16_units(b)[0]);
            assert(utf16_units(a)[1] == utf16_units(b)[1]);
            assert((x - 0x1_0000) / 0x400 == (y - 0x1_0000) / 0x400);
            assert((x - 0x1_0000) % 0x400 == (y - 0x1_0000) % 0x400);
        }
        assert(x == y);
    }
}

/// A text in UTF-16 tells the text: two texts with the same code units are
/// the same.
pub proof fn lemma_utf16_text_tells_text(a: Seq<char>, b: Seq<char>)
    requires
        utf16_text(a) == utf16_text(b),
    ensures
        a == b,
    decreases a.len(),
{
    let units = utf16_text(a);
    if a.len() == 0 {
        if b.len() > 0 {
            lemma_units_tell_char(b.last(), b.last());
        }
        assert(a =~= b);
    } else {
        lemma_units_tell_char(a.last(), a.last());
        if b.len() == 0 {
            assert(utf16_text(b).len() == 0);
        } else {
            lemma_units_tell_char(b.last(), b.last());
            lemma_units_tell_char(a.last(), b.last());
            let ua = utf16_units(a.last());
            let ub = utf16_units(b.last());
            let fa = utf16_text(a.drop_last());
            let fb = utf16_text(b.drop_last());
            assert(units == fa + ua);
            assert(units == fb + ub);
            assert((fa + ua).last() == ua.last());
            assert((fb + ub).last() == ub.last());
            assert(ua.len() == ub.len());
            assert(ua =~= units.skip(units.len() - ua.len()));
            assert(ub =~= units.skip(units.len() - ub.len()));
            assert(fa =~= units.take(units.len() - ua.len()));
            assert(fb =~= units.take(units.len() - ub.len()));
            lemma_utf16_text_tells_text(a.drop_last(), b.drop_last());
            assert(a =~= a.drop_last().push(a.last()));
            assert(b =~= b.drop_last().push(b.last()));
        }
    }
}

/// A text in UTF-16LE is the bytes of its code units.
pub proof fn lemma_utf16le_is_units(text: Seq<char>)
    ensures
        utf16le(text) == le16_all(utf16_text(text)),
    decreases text.len(),
{
    if text.len() > 0 {
        lemma_utf16le_is_units(text.drop_last());
        lemma_le16_all_append(utf16_text(text.drop_last()), utf16_units(text.last()));
        lemma_char_units(text.last());
    }
}

/// The code units of a text without a zero character hold no zero unit.
pub proof fn lemma_units_fit(text: Seq<char>)
    requires
        text_fits(text),
    ensures
        name_fits(utf16_text(text)),
    decreases text.len(),
{
    if text.len() > 0 {
        assert forall|i: int| 0 <= i < text.drop_last().len() implies text.drop_last()[i] as u32
            != 0 by {
            assert(text.drop_last()[i] == text[i]);
        }
        lemma_units_fit(text.drop_last());
        let front = utf16_text(text.drop_last());
        let units = utf16_units(text.last());
        assert(text.last() == text[text.len() - 1]);
        lemma_char_units(text.last());
        assert forall|i: int| 0 <= i < (front + units).len() implies (front + units)[i] != 0 by {
            if i >= front.len() {
                assert((front + units)[i] == units[i - front.len()]);
            }
        }
    }
}

/// The names of the entries in code units.
pub open spec fn names_of(files: Seq<ArchiveEntry>) -> Seq<Seq<u16>> {
    Seq::new(files.len(), |i: int| utf16_text(files[i].name@))
}

/// A list of names starts with its first name.
pub proof fn lemma_name_list_bytes_end(names: Seq<Seq<u16>>)
    requires
        names.len() > 0,
    ensures
        name_list_bytes(names) == name_list_bytes(names.drop_last()) + (le16_all(names.last())
            + seq![0u8, 0u8]),
    decreases names.len(),
{
    if names.len() == 1 {
        assert(names.skip(1) =~= Seq::<Seq<u16>>::empty());
        assert(names.drop_last() =~= Seq::<Seq<u16>>::empty());
        assert(name_list_bytes(names) =~= name_list_bytes(names.drop_last()) + (le16_all(
            names.last(),
        ) + seq![0u8, 0u8]));
    } else {
        lemma_name_list_bytes_end(names.skip(1));
        assert(names.skip(1).drop_last() =~= names.drop_last().skip(1));
        assert(names.skip(1).last() == names.last());
        assert(names.drop_last()[0] == names[0]);
        lemma_assoc(
            le16_all(names[0]) + seq![0u8, 0u8],
            name_list_bytes(names.drop_last().skip(1)),
            le16_all(names.last()) + seq![0u8, 0u8],
        );
    }
}

/// The names that the writer lists are the names of the entries in code
/// units, each closed by a zero unit.
pub proof fn lemma_all_names(files: Seq<ArchiveEntry>)
    ensures
        all_names(files) == name_list_bytes(names_of(files)),
    decreases files.len(),
{
    if files.len() > 0 {
        lemma_all_names(files.drop_last());
        lemma_name_list_bytes_end(names_of(files));
        assert(names_of(files).drop_last() =~= names_of(files.drop_last()));
        lemma_utf16le_is_units(files.last().name@);
        lemma_assoc(
            all_names(files.drop_last()),
            utf16le(files.last().name@),
            seq![0u8, 0u8],
        );
    }
}

/// Selecting from what a function makes of the items selects what it makes of
/// the selected items.
pub proof fn lemma_selected_mapped<A, B>(flags: Seq<bool>, values: Seq<A>, f: spec_fn(A) -> B)
    requires
        flags.len() == values.len(),
    ensures
        selected(flags, Seq::new(values.len(), |i: int| f(values[i]))) == Seq::new(
            selected(flags, values).len(),
            |i: int| f(selected(flags, values)[i]),
        ),
    decreases flags.len(),
{
    let mapped = Seq::new(values.len(), |i: int| f(values[i]));
    let chosen = selected(flags, values);
    let goal = Seq::new(chosen.len(), |i: int| f(chosen[i]));
    if flags.len() == 0 {
        assert(selected(flags, mapped) =~= goal);
    } else {
        lemma_selected_mapped(flags.drop_last(), values.drop_last(), f);
        assert(mapped.drop_last() =~= Seq::new(
            values.drop_last().len(),
            |i: int| f(values.drop_last()[i]),
        ));
        assert(selected(flags, mapped) =~= goal);
    }
}

/// What is selected depends only on the items whose flag is set.
pub proof fn lemma_selected_agrees<T>(flags: Seq<bool>, first: Seq<T>, second: Seq<T>)
    requires
        flags.len() == first.len(),
        flags.len() == second.len(),
        forall|i: int| 0 <= i < flags.len() && flags[i] ==> first[i] == second[i],
    ensures
        selected(flags, first) == selected(flags, second),
    decreases flags.len(),
{
    if flags.len() > 0 {
        lemma_selected_agrees(flags.drop_last(), first.drop_last(), second.drop_last());
    }
}

/// The columns of the entries' files are what the writer's sections hold.
#[verifier::rlimit(50)]
pub proof fn lemma_columns_of_entries(files: Seq<ArchiveEntry>)
    ensures
        ({
            let columns = columns_of(models_of(files));
            &&& columns.names == names_of(files)
            &&& columns.empty_stream == empty_stream_flags(files)
            &&& columns.empty_file == empty_file_flags(files)
            &&& columns.anti == anti_flags(files)
            &&& columns.creation == (creation_flags(files), creation_dates(files))
            &&& columns.access == (access_flags(files), access_dates(files))
            &&& columns.modified == (modified_flags(files), modified_dates(files))
            &&& columns.attributes == (attribute_flags(files), attribute_words(files))
        }),
{
    let models = models_of(files);
    let columns = columns_of(models);
    let flags = empty_stream_flags(files);
    assert(columns.names =~= names_of(files));
    assert(columns.empty_stream =~= flags);
    assert(columns.creation.0 =~= creation_flags(files));
    assert(columns.creation.1 =~= creation_dates(files));
    assert(columns.access.0 =~= access_flags(files));
    assert(columns.access.1 =~= access_dates(files));
    assert(columns.modified.0 =~= modified_flags(files));
    assert(columns.modified.1 =~= modified_dates(files));
    assert(columns.attributes.0 =~= attribute_flags(files));
    assert(columns.attributes.1 =~= attribute_words(files));
    let not_directory = |entry: ArchiveEntry| !entry.is_directory;
    let is_anti = |entry: ArchiveEntry| entry.is_anti_item;
    lemma_selected_mapped(flags, files, not_directory);
    lemma_selected_mapped(flags, files, is_anti);
    assert(Seq::new(files.len(), |i: int| not_directory(files[i])) =~= Seq::new(
        models.len(),
        |i: int| !models[i].is_directory,
    ));
    assert(Seq::new(files.len(), |i: int| is_anti(files[i])) =~= Seq::new(
        models.len(),
        |i: int| models[i].is_anti_item,
    ));
    assert(columns.empty_file =~= empty_file_flags(files));
    assert(columns.anti =~= anti_flags(files));
}

/// The files-info section that the writer makes of entries is the files-info
/// section of the files that the entries describe.
#[verifier::rlimit(50)]
pub proof fn lemma_files_info_bytes(files: Seq<ArchiveEntry>)
    ensures
        files_info_bytes(files) == files_section_bytes(models_of(files)),
{
    let models = models_of(files);
    let columns = columns_of(models);
    lemma_columns_of_entries(files);
    lemma_all_names(files);
    let x0 = seq![K_FILES_INFO];
    let x1 = encoded_u64(files.len() as u64);
    let x2 = bits_section_bytes(K_EMPTY_STREAM, columns.empty_stream);
    let x3 = bits_section_bytes(K_EMPTY_FILE, columns.empty_file);
    let x4 = bits_section_bytes(K_ANTI, columns.anti);
    let x5 = names_section_bytes(columns.names);
    let x6 = property_bytes(K_C_TIME, columns.creation.0, columns.creation.1, 8);
    let x7 = property_bytes(K_A_TIME, columns.access.0, columns.access.1, 8);
    let x8 = property_bytes(K_M_TIME, columns.modified.0, columns.modified.1, 8);
    let x9 = property_bytes(K_WIN_ATTRIBUTES, columns.attributes.0, columns.attributes.1, 4);
    let x10 = seq![K_END];
    assert(names_bytes(files) == x5);
    let flags = x2 + x3 + x4;
    let properties = x6 + x7 + x8 + x9 + x10;
    assert(flags == flag_sections_bytes(columns));
    assert(properties == property_sections_bytes(columns));
    assert(files_info_bytes(files) == x0 + x1 + x2 + x3 + x4 + x5 + x6 + x7 + x8 + x9 + x10);
    lemma_assoc(x0 + x1 + x2 + x3 + x4 + x5 + x6 + x7 + x8, x9, x10);
    lemma_assoc(x0 + x1 + x2 + x3 + x4 + x5 + x6 + x7, x8, x9 + x10);
    lemma_assoc(x0 + x1 + x2 + x3 + x4 + x5 + x6, x7, x8 + (x9 + x10));
    lemma_assoc(x0 + x1 + x2 + x3 + x4 + x5, x6, x7 + (x8 + (x9 + x10)));
    lemma_assoc(x6 + x7 + x8, x9, x10);
    lemma_assoc(x6 + x7, x8, x9 + x10);
    lemma_assoc(x6, x7, x8 + (x9 + x10));
    lemma_assoc(x0 + x1 + x2 + x3 + x4, x5, properties);
    lemma_assoc(x0 + x1 + x2 + x3, x4, x5 + properties);
    lemma_assoc(x0 + x1 + x2, x3, x4 + (x5 + properties));
    lemma_assoc(x0 + x1, x2, x3 + (x4 + (x5 + properties)));
    lemma_assoc(x2 + x3, x4, x5 + properties);
    lemma_assoc(x2, x3, x4 + (x5 + properties));
    lemma_assoc(x0, x1, flags + (x5 + properties));
}

} // verus!
