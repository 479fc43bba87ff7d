use sevenz_archive::writer::files_info::{
    push_utf16le, push_utf16le_char, write_bits_section, write_file_anti_items, write_file_atimes,
    write_file_ctimes, write_file_empty_files, write_file_empty_streams, write_file_mtimes,
    write_file_names, write_file_windows_attrs, write_files_info, write_property_section,
};
use sevenz_archive::ArchiveEntry;

fn file(name: &str) -> ArchiveEntry {
    ArchiveEntry::new_file(name.to_string())
}

fn empty_file(name: &str) -> ArchiveEntry {
    let mut entry = ArchiveEntry::new_file(name.to_string());
    entry.has_stream = false;
    entry
}

fn directory(name: &str) -> ArchiveEntry {
    ArchiveEntry::new_directory(name.to_string())
}

#[test]
fn new_entries() {
    let entry = file("a.txt");
    assert_eq!(entry.name, "a.txt");
    assert!(entry.has_stream);
    assert!(!entry.is_directory);
    assert!(!entry.is_anti_item);
    assert!(!entry.has_crc);
    assert_eq!(entry.size, 0);
    let entry = directory("dir");
    assert_eq!(entry.name, "dir");
    assert!(!entry.has_stream);
    assert!(entry.is_directory);
}

#[test]
fn utf16_of_the_basic_plane() {
    let mut out = Vec::new();
    push_utf16le_char(&mut out, 'a');
    assert_eq!(out, vec![0x61, 0x00]);
    push_utf16le_char(&mut out, '\u{20AC}');
    assert_eq!(out, vec![0x61, 0x00, 0xAC, 0x20]);
    push_utf16le_char(&mut out, '\u{FFFF}');
    assert_eq!(out, vec![0x61, 0x00, 0xAC, 0x20, 0xFF, 0xFF]);
}

#[test]
fn utf16_surrogate_pairs() {
    let mut out = Vec::new();
    push_utf16le_char(&mut out, '\u{10000}');
    assert_eq!(out, vec![0x00, 0xD8, 0x00, 0xDC]);
    let mut out = Vec::new();
    push_utf16le_char(&mut out, '\u{1F600}');
    assert_eq!(out, vec![0x3D, 0xD8, 0x00, 0xDE]);
    let mut out = Vec::new();
    push_utf16le_char(&mut out, '\u{10FFFF}');
    assert_eq!(out, vec![0xFF, 0xDB, 0xFF, 0xDF]);
}

#[test]
fn utf16_of_a_text_matches_the_standard_library() {
    let text = "dir/\u{e9}t\u{e9} \u{1F600}.txt";
    let mut out = vec![9];
    push_utf16le(&mut out, text);
    let mut expected = vec![9];
    for unit in text.encode_utf16() {
        expected.extend_from_slice(&unit.to_le_bytes());
    }
    assert_eq!(out, expected);
}

#[test]
fn names_section() {
    let files = vec![file("a.txt"), directory("d")];
    let mut header = Vec::new();
    write_file_names(&files, &mut header);
    assert_eq!(
        header,
        vec![
            0x11, 0x11, 0x00, b'a', 0, b'.', 0, b't', 0, b'x', 0, b't', 0, 0, 0, b'd', 0, 0, 0
        ]
    );
}

#[test]
fn names_section_without_files() {
    let mut header = Vec::new();
    write_file_names(&vec![], &mut header);
    assert_eq!(header, vec![0x11, 0x01, 0x00]);
}

#[test]
fn bits_section_is_left_out_when_no_bit_is_set() {
    let mut header = vec![1];
    write_bits_section(&mut header, 0x0E, &vec![false, false, false]);
    assert_eq!(header, vec![1]);
    write_bits_section(&mut header, 0x0E, &vec![]);
    assert_eq!(header, vec![1]);
}

#[test]
fn bits_section_packs_one_bit_per_flag() {
    let mut header = Vec::new();
    let mut flags = vec![false; 10];
    flags[1] = true;
    flags[9] = true;
    write_bits_section(&mut header, 0x0E, &flags);
    assert_eq!(header, vec![0x0E, 0x02, 0x40, 0x40]);
}

#[test]
fn empty_streams_section() {
    let files = vec![file("a"), directory("d"), empty_file("e"), file("b")];
    let mut header = Vec::new();
    write_file_empty_streams(&files, &mut header);
    assert_eq!(header, vec![0x0E, 0x01, 0x60]);
    let mut header = Vec::new();
    write_file_empty_streams(&vec![file("a"), file("b")], &mut header);
    assert_eq!(header, Vec::<u8>::new());
}

#[test]
fn empty_files_section_counts_only_files_without_stream() {
    let files = vec![file("a"), directory("d"), empty_file("e"), file("b"), empty_file("f")];
    let mut header = Vec::new();
    write_file_empty_files(&files, &mut header);
    assert_eq!(header, vec![0x0F, 0x01, 0x60]);
}

#[test]
fn empty_files_section_is_left_out_for_directories_only() {
    let files = vec![file("a"), directory("d"), directory("e")];
    let mut header = Vec::new();
    write_file_empty_files(&files, &mut header);
    assert_eq!(header, Vec::<u8>::new());
}

#[test]
fn anti_section_marks_the_anti_items() {
    let mut gone = empty_file("gone");
    gone.is_anti_item = true;
    let files = vec![directory("d"), file("a"), gone, empty_file("e")];
    let mut header = Vec::new();
    write_file_anti_items(&files, &mut header);
    assert_eq!(header, vec![0x10, 0x01, 0x40]);
}

#[test]
fn anti_section_is_left_out_without_anti_items() {
    let files = vec![directory("d"), file("a"), empty_file("e")];
    let mut header = Vec::new();
    write_file_anti_items(&files, &mut header);
    assert_eq!(header, Vec::<u8>::new());
}

#[test]
fn time_section_with_every_time_present() {
    let mut a = file("a");
    a.has_last_modified_date = true;
    a.last_modified_date = 0x01D9_0000_0000_0001;
    let mut b = file("b");
    b.has_last_modified_date = true;
    b.last_modified_date = 2;
    let mut header = Vec::new();
    write_file_mtimes(&vec![a, b], &mut header);
    assert_eq!(
        header,
        vec![
            0x14, 0x12, 0x01, 0x00, 0x01, 0, 0, 0, 0, 0, 0xD9, 0x01, 0x02, 0, 0, 0, 0, 0, 0, 0
        ]
    );
}

#[test]
fn time_section_with_some_times_present() {
    let mut a = file("a");
    a.has_creation_date = true;
    a.creation_date = 0x0102_0304_0506_0708;
    let b = file("b");
    let mut c = file("c");
    c.has_creation_date = true;
    c.creation_date = 9;
    let mut header = Vec::new();
    write_file_ctimes(&vec![a, b, c], &mut header);
    assert_eq!(
        header,
        vec![
            0x12, 0x13, 0x00, 0xA0, 0x00, 8, 7, 6, 5, 4, 3, 2, 1, 9, 0, 0, 0, 0, 0, 0, 0
        ]
    );
}

#[test]
fn time_section_is_left_out_without_times() {
    let mut a = file("a");
    a.access_date = 77;
    let mut header = Vec::new();
    write_file_atimes(&vec![a], &mut header);
    assert_eq!(header, Vec::<u8>::new());
    write_file_atimes(&vec![], &mut header);
    assert_eq!(header, Vec::<u8>::new());
}

#[test]
fn access_time_section() {
    let mut a = file("a");
    a.has_access_date = true;
    a.access_date = 0x10;
    let mut header = Vec::new();
    write_file_atimes(&vec![a], &mut header);
    assert_eq!(header, vec![0x13, 0x0A, 0x01, 0x00, 0x10, 0, 0, 0, 0, 0, 0, 0]);
}

#[test]
fn attributes_section_has_four_bytes_each() {
    let mut a = directory("d");
    a.has_windows_attributes = true;
    a.windows_attributes = 0x10;
    let b = file("b");
    let mut header = Vec::new();
    write_file_windows_attrs(&vec![a, b], &mut header);
    assert_eq!(header, vec![0x15, 0x07, 0x00, 0x80, 0x00, 0x10, 0, 0, 0]);
}

#[test]
fn property_section_of_a_given_width() {
    let mut header = Vec::new();
    write_property_section(&mut header, 0x19, &vec![true, true], &vec![0x0102_0304, 5], 2);
    assert_eq!(header, vec![0x19, 0x06, 0x01, 0x00, 0x04, 0x03, 0x05, 0x00]);
}

#[test]
fn files_info_of_no_files() {
    let mut header = Vec::new();
    write_files_info(&vec![], &mut header);
    assert_eq!(header, vec![0x05, 0x00, 0x11, 0x01, 0x00, 0x00]);
}

#[test]
fn files_info_orders_its_sections() {
    let mut a = file("a");
    a.has_last_modified_date = true;
    a.last_modified_date = 3;
    a.has_windows_attributes = true;
    a.windows_attributes = 0x20;
    let mut d = directory("d");
    d.has_last_modified_date = true;
    d.last_modified_date = 4;
    d.has_windows_attributes = true;
    d.windows_attributes = 0x10;
    let e = empty_file("e");
    let mut header = Vec::new();
    write_files_info(&vec![a, d, e], &mut header);
    let expected: Vec<u8> = vec![
        0x05, 0x03, // three files
        0x0E, 0x01, 0x60, // d and e have no stream
        0x0F, 0x01, 0x40, // of those, e is a file
        0x11, 0x0D, 0x00, b'a', 0, 0, 0, b'd', 0, 0, 0, b'e', 0, 0, 0, // names
        0x14, 0x13, 0x00, 0xC0, 0x00, 3, 0, 0, 0, 0, 0, 0, 0, 4, 0, 0, 0, 0, 0, 0, 0, // mtimes
        0x15, 0x0B, 0x00, 0xC0, 0x00, 0x20, 0, 0, 0, 0x10, 0, 0, 0, // attributes
        0x00,
    ];
    assert_eq!(header, expected);
}
