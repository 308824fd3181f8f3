use unpac::error::PacError;
use unpac::error::Section;
use unpac::pac::parser::parse;
use unpac::pac::parser::parse_entries;
use unpac::pac::parser::parse_entry;
use unpac::pac::parser::parse_header;
use unpac::pac::parser::FileEntry;
use unpac::pac::parser::NamedFile;
use unpac::pac::writer::find_file;
use unpac::pac::PacHeader;
use unpac::pac::PacMeta;
use unpac::pac::PacMetaEntry;
use unpac::pac::HEADER_MAGIC;
use unpac::pac::HEADER_SIZE;

fn named(name: &str, contents: &[u8]) -> NamedFile {
    NamedFile { name: name.to_string(), contents: contents.to_vec() }
}

fn le(n: u32) -> Vec<u8> {
    vec![n as u8, (n >> 8) as u8, (n >> 16) as u8, (n >> 24) as u8]
}

fn single_entry_archive() -> Vec<u8> {
    let mut bytes: Vec<u8> = Vec::new();
    bytes.extend_from_slice(b"FPAC");
    bytes.extend(le(64));
    bytes.extend(le(80));
    bytes.extend(le(1));
    bytes.extend(le(7));
    bytes.extend(le(12));
    bytes.extend(vec![0u8; 8]);
    bytes.extend_from_slice(b"test.bin");
    bytes.extend(vec![0u8; 4]);
    bytes.extend(le(1));
    bytes.extend(le(0));
    bytes.extend(le(3));
    bytes.extend(vec![0u8; 8]);
    bytes.extend(vec![0xAA, 0xBB, 0xCC]);
    bytes.extend(vec![0u8; 13]);
    bytes
}

#[test]
fn header_constants() {
    assert_eq!(HEADER_SIZE, 32);
    assert_eq!(&HEADER_MAGIC, b"FPAC");
}

#[test]
fn header_is_written_as_32_bytes() {
    let header = PacHeader {
        data_start: 0x40,
        total_size: 0x50,
        file_count: 1,
        unknown: 0x01020304,
        string_size: 12,
    };
    let bytes = header.to_bytes();
    assert_eq!(bytes.len(), 32);
    assert_eq!(
        bytes,
        vec![
            0x46, 0x50, 0x41, 0x43, 0x40, 0, 0, 0, 0x50, 0, 0, 0, 1, 0, 0, 0, 4, 3, 2, 1, 12, 0,
            0, 0, 0, 0, 0, 0, 0, 0, 0, 0
        ]
    );
}

#[test]
fn header_reads_back() {
    let header = PacHeader {
        data_start: 0xDEADBEEF,
        total_size: 0xFFFFFFFF,
        file_count: 0x10000,
        unknown: 0,
        string_size: 0x7F80,
    };
    assert_eq!(parse_header(&header.to_bytes()), Ok(header));
}

#[test]
fn header_skips_the_reserved_bytes_unread() {
    let mut bytes = PacHeader {
        data_start: 64,
        total_size: 80,
        file_count: 1,
        unknown: 9,
        string_size: 12,
    }
    .to_bytes();
    for k in 24..32 {
        bytes[k] = 0xEE;
    }
    let header = parse_header(&bytes).unwrap();
    assert_eq!(header.unknown, 9);
    assert_eq!(header.string_size, 12);
}

#[test]
fn header_without_magic_is_refused() {
    let mut bytes = single_entry_archive();
    bytes[0] = 0x47;
    assert_eq!(parse_header(&bytes), Err(PacError::BadMagic));
    assert_eq!(parse(&bytes), Err(PacError::BadMagic));
    assert_eq!(parse_header(&[]), Err(PacError::BadMagic));
    assert_eq!(parse_header(b"FPA"), Err(PacError::BadMagic));
    assert_eq!(parse(b"CAPF\0\0\0\0"), Err(PacError::BadMagic));
}

#[test]
fn header_with_zero_entries_is_refused() {
    let mut bytes = single_entry_archive();
    bytes[12] = 0;
    assert_eq!(parse_header(&bytes), Err(PacError::ZeroEntries));
    assert_eq!(parse(&bytes), Err(PacError::ZeroEntries));
    assert_eq!(parse_header(&bytes[..16]), Err(PacError::ZeroEntries));
}

#[test]
fn truncated_header_is_refused() {
    let bytes = single_entry_archive();
    assert_eq!(parse_header(&bytes[..4]), Err(PacError::Truncated(Section::Header)));
    assert_eq!(parse_header(&bytes[..15]), Err(PacError::Truncated(Section::Header)));
    assert_eq!(parse_header(&bytes[..16]), Err(PacError::Truncated(Section::Header)));
    assert_eq!(parse_header(&bytes[..31]), Err(PacError::Truncated(Section::Header)));
    assert!(parse_header(&bytes[..32]).is_ok());
}

#[test]
fn single_entry_archive_is_laid_out_as_documented() {
    let mut meta = PacMeta::new(7);
    meta.add_file_entry("test.bin".to_string(), 1);
    assert_eq!(meta.string_size(), Some(12));
    assert_eq!(meta.entry_size(), Some(32));
    let bytes = meta.to_bytes(&vec![named("test.bin", &[0xAA, 0xBB, 0xCC])]).unwrap();
    assert_eq!(bytes.len(), 80);
    let header = parse_header(&bytes).unwrap();
    assert_eq!(header.string_size, 12);
    assert_eq!(header.data_start, 0x40);
    assert_eq!(header.total_size, 80);
    assert_eq!(header.file_count, 1);
    assert_eq!(header.unknown, 7);
    assert_eq!(&bytes[64..67], &[0xAA, 0xBB, 0xCC]);
    assert_eq!(&bytes[67..80], &[0u8; 13]);
    assert_eq!(bytes, single_entry_archive());
}

#[test]
fn single_entry_archive_is_read() {
    let parsed = parse(&single_entry_archive()).unwrap();
    assert_eq!(parsed.meta.unknown, 7);
    assert_eq!(
        parsed.meta.file_entries,
        vec![PacMetaEntry { file_name: "test.bin".to_string(), file_id: 1 }]
    );
    assert_eq!(parsed.files, vec![named("test.bin", &[0xAA, 0xBB, 0xCC])]);
}

#[test]
fn build_then_read_sorts_by_id() {
    let mut meta = PacMeta::new(0x2020);
    meta.add_file_entry("a.bin".to_string(), 2);
    meta.add_file_entry("b.bin".to_string(), 1);
    let files = vec![named("a.bin", &[0x01, 0x02]), named("b.bin", &[0x03])];
    let bytes = meta.to_bytes(&files).unwrap();
    let parsed = parse(&bytes).unwrap();
    assert_eq!(parsed.meta.unknown, 0x2020);
    assert_eq!(
        parsed.meta.file_entries,
        vec![
            PacMetaEntry { file_name: "b.bin".to_string(), file_id: 1 },
            PacMetaEntry { file_name: "a.bin".to_string(), file_id: 2 },
        ]
    );
    assert_eq!(parsed.files, vec![named("b.bin", &[0x03]), named("a.bin", &[0x01, 0x02])]);
}

#[test]
fn build_then_read_keeps_every_file() {
    let mut meta = PacMeta::new(1);
    let mut files: Vec<NamedFile> = Vec::new();
    for k in 0u32..40 {
        let name = format!("file_{:02}.dat", k);
        let id = (k * 7) % 40;
        let contents: Vec<u8> = (0..(k as usize * 3)).map(|b| (b + k as usize) as u8).collect();
        meta.add_file_entry(name.clone(), id);
        files.push(NamedFile { name, contents });
    }
    let bytes = meta.to_bytes(&files).unwrap();
    assert_eq!(bytes.len() % 16, 0);
    let parsed = parse(&bytes).unwrap();
    assert_eq!(parsed.meta.file_entries.len(), 40);
    for (k, entry) in parsed.meta.file_entries.iter().enumerate() {
        assert_eq!(entry.file_id, k as u32);
        assert_eq!(parsed.files[k].name, entry.file_name);
        let given = files.iter().find(|f| f.name == entry.file_name).unwrap();
        assert_eq!(parsed.files[k].contents, given.contents);
    }
}

#[test]
fn equal_ids_keep_their_order() {
    let mut meta = PacMeta::new(0);
    meta.add_file_entry("third.x".to_string(), 5);
    meta.add_file_entry("first.x".to_string(), 1);
    meta.add_file_entry("fourth.x".to_string(), 5);
    meta.add_file_entry("second.x".to_string(), 1);
    meta.add_file_entry("zeroth.x".to_string(), 0);
    assert_eq!(meta.sorted_order(), vec![4, 1, 3, 0, 2]);
    let files = vec![
        named("third.x", &[3]),
        named("first.x", &[1]),
        named("fourth.x", &[4]),
        named("second.x", &[2]),
        named("zeroth.x", &[0]),
    ];
    let parsed = parse(&meta.to_bytes(&files).unwrap()).unwrap();
    let names: Vec<&str> = parsed.meta.file_entries.iter().map(|e| e.file_name.as_str()).collect();
    assert_eq!(names, vec!["zeroth.x", "first.x", "second.x", "third.x", "fourth.x"]);
    let contents: Vec<Vec<u8>> = parsed.files.iter().map(|f| f.contents.clone()).collect();
    assert_eq!(contents, vec![vec![0], vec![1], vec![2], vec![3], vec![4]]);
}

#[test]
fn sorted_order_of_nothing_is_empty() {
    assert_eq!(PacMeta::new(0).sorted_order(), Vec::<usize>::new());
}

#[test]
fn contents_are_those_of_the_first_file_of_the_name() {
    let mut meta = PacMeta::new(0);
    meta.add_file_entry("twice.bin".to_string(), 1);
    let files = vec![named("other", &[9]), named("twice.bin", &[1]), named("twice.bin", &[2])];
    assert_eq!(find_file(&files, &"twice.bin".to_string()), Some(1));
    assert_eq!(find_file(&files, &"none".to_string()), None);
    let parsed = parse(&meta.to_bytes(&files).unwrap()).unwrap();
    assert_eq!(parsed.files, vec![named("twice.bin", &[1])]);
}

#[test]
fn offsets_count_the_padding() {
    let mut meta = PacMeta::new(0);
    meta.add_file_entry("one.bin".to_string(), 1);
    meta.add_file_entry("two.bin".to_string(), 2);
    meta.add_file_entry("three.bin".to_string(), 3);
    let files = vec![
        named("one.bin", &[1u8; 17]),
        named("two.bin", &[2u8; 16]),
        named("three.bin", &[]),
    ];
    let bytes = meta.to_bytes(&files).unwrap();
    let header = parse_header(&bytes).unwrap();
    assert_eq!(header.string_size, 12);
    assert_eq!(header.data_start, 32 + 3 * 32);
    assert_eq!(header.total_size, 32 + 96 + 32 + 16);
    let entries = parse_entries(&bytes[32..], 3, 12).unwrap();
    let offsets: Vec<u32> = entries.iter().map(|e| e.offset).collect();
    let sizes: Vec<u32> = entries.iter().map(|e| e.size).collect();
    assert_eq!(offsets, vec![0, 32, 48]);
    assert_eq!(sizes, vec![17, 16, 0]);
}

#[test]
fn stored_offsets_agree_with_the_cursor() {
    let mut meta = PacMeta::new(3);
    let mut files: Vec<NamedFile> = Vec::new();
    for k in 0u32..12 {
        let name = format!("n{}.bin", k);
        meta.add_file_entry(name.clone(), 100 - k);
        files.push(NamedFile { name, contents: vec![k as u8; (k as usize * 5) % 23] });
    }
    let bytes = meta.to_bytes(&files).unwrap();
    let header = parse_header(&bytes).unwrap();
    let entries = parse_entries(&bytes[32..], header.file_count, header.string_size).unwrap();
    let by_cursor = parse(&bytes).unwrap();
    for (k, entry) in entries.iter().enumerate() {
        let from = header.data_start as usize + entry.offset as usize;
        let by_offset = &bytes[from..from + entry.size as usize];
        assert_eq!(by_offset, by_cursor.files[k].contents.as_slice());
        assert_eq!(entry.name, by_cursor.files[k].name);
    }
}

#[test]
fn stored_offsets_are_not_used_to_read() {
    let mut bytes = single_entry_archive();
    bytes[32 + 16] = 0x77;
    bytes[32 + 17] = 0x77;
    let parsed = parse(&bytes).unwrap();
    assert_eq!(parsed.files, vec![named("test.bin", &[0xAA, 0xBB, 0xCC])]);
}

#[test]
fn buffer_shorter_than_data_start_is_refused() {
    let bytes = single_entry_archive();
    assert_eq!(parse(&bytes[..64]).map(|p| p.files.len()), Err(PacError::Truncated(Section::DataSection)));
    let mut late = single_entry_archive();
    late[4] = 0x51;
    assert_eq!(parse(&late), Err(PacError::Truncated(Section::DataSection)));
    let mut beyond = single_entry_archive();
    beyond[7] = 0x10;
    assert_eq!(parse(&beyond), Err(PacError::Truncated(Section::DataSection)));
}

#[test]
fn truncated_data_section_is_refused() {
    let bytes = single_entry_archive();
    assert_eq!(parse(&bytes[..66]), Err(PacError::Truncated(Section::DataSection)));
    assert_eq!(parse(&bytes[..67]), Err(PacError::Truncated(Section::DataSection)));
    assert_eq!(parse(&bytes[..79]), Err(PacError::Truncated(Section::DataSection)));
    assert!(parse(&bytes[..80]).is_ok());
}

#[test]
fn truncated_entry_table_is_refused() {
    let bytes = single_entry_archive();
    assert_eq!(parse(&bytes[..32]), Err(PacError::Truncated(Section::EntryTable)));
    assert_eq!(parse(&bytes[..40]), Err(PacError::Truncated(Section::EntryTable)));
    assert_eq!(parse(&bytes[..50]), Err(PacError::Truncated(Section::EntryTable)));
    assert_eq!(parse(&bytes[..63]), Err(PacError::Truncated(Section::EntryTable)));
    let mut two = single_entry_archive();
    two[12] = 2;
    assert_eq!(parse(&two[..64]), Err(PacError::Truncated(Section::EntryTable)));
}

#[test]
fn name_without_terminator_is_refused() {
    let mut bytes = single_entry_archive();
    for k in 40..44 {
        bytes[k] = b'x';
    }
    assert_eq!(parse(&bytes), Err(PacError::FileEntry(0)));
    assert_eq!(parse_entry(&bytes[32..], 12, 5), Err(PacError::FileEntry(5)));
}

#[test]
fn name_that_is_not_utf8_is_refused() {
    let mut bytes = single_entry_archive();
    bytes[33] = 0xFF;
    assert_eq!(parse(&bytes), Err(PacError::FileEntry(0)));
    let mut meta = PacMeta::new(0);
    meta.add_file_entry("a".to_string(), 1);
    meta.add_file_entry("bcdefgh".to_string(), 2);
    let mut two = meta.to_bytes(&vec![named("a", &[]), named("bcdefgh", &[])]).unwrap();
    two[32 + 32 + 2] = 0xC0;
    assert_eq!(parse(&two), Err(PacError::FileEntry(1)));
}

#[test]
fn name_ends_at_the_first_zero_byte() {
    let mut bytes = single_entry_archive();
    bytes[36] = 0;
    let parsed = parse(&bytes).unwrap();
    assert_eq!(parsed.meta.file_entries[0].file_name, "test");
    assert_eq!(parsed.files[0].name, "test");
}

#[test]
fn names_may_be_any_text() {
    let mut meta = PacMeta::new(0);
    meta.add_file_entry("графика/ひらがな.hip".to_string(), 3);
    meta.add_file_entry("".to_string(), 1);
    let files = vec![named("графика/ひらがな.hip", &[1, 2, 3]), named("", &[4])];
    let parsed = parse(&meta.to_bytes(&files).unwrap()).unwrap();
    assert_eq!(parsed.files, vec![named("", &[4]), named("графика/ひらがな.hip", &[1, 2, 3])]);
}

#[test]
fn entry_record_is_read_with_its_numbers() {
    let entry = PacMetaEntry { file_name: "ab".to_string(), file_id: 0x04030201 };
    let record = entry.to_entry_bytes(0x0A0B0C0D, 0x11223344, 8);
    assert_eq!(
        parse_entry(&record, 8, 0),
        Ok(FileEntry {
            name: "ab".to_string(),
            id: 0x04030201,
            offset: 0x0A0B0C0D,
            size: 0x11223344
        })
    );
}

#[test]
fn entry_record_has_its_numbers_in_little_endian() {
    let entry = PacMetaEntry { file_name: "ab".to_string(), file_id: 0x04030201 };
    let record = entry.to_entry_bytes(0x0A0B0C0D, 0x11223344, 8);
    let mut expected: Vec<u8> = vec![0x61, 0x62, 0, 0, 0, 0, 0, 0];
    expected.extend(vec![0x01, 0x02, 0x03, 0x04]);
    expected.extend(vec![0x0D, 0x0C, 0x0B, 0x0A]);
    expected.extend(vec![0x44, 0x33, 0x22, 0x11]);
    expected.extend(vec![0u8; 12]);
    assert_eq!(record, expected);
}

#[test]
fn entry_record_always_ends_in_padding() {
    let entry = PacMetaEntry { file_name: "abc".to_string(), file_id: 1 };
    let record = entry.to_entry_bytes(0, 0, 4);
    assert_eq!(record.len(), 32);
    assert_eq!(&record[16..], &[0u8; 16]);
    let cut = PacMetaEntry { file_name: "abcdefgh".to_string(), file_id: 1 };
    let short = cut.to_entry_bytes(0, 0, 5);
    assert_eq!(&short[..5], b"abcde");
    assert_eq!(short.len(), 32);
}

#[test]
fn string_size_leaves_room_for_the_terminator() {
    let mut meta = PacMeta::new(0);
    assert_eq!(meta.string_size(), None);
    assert_eq!(meta.entry_size(), None);
    assert_eq!(meta.max_name_len(), 0);
    meta.add_file_entry("".to_string(), 0);
    assert_eq!(meta.string_size(), Some(4));
    meta.add_file_entry("abcd".to_string(), 1);
    assert_eq!(meta.string_size(), Some(8));
    meta.add_file_entry("abcdefg".to_string(), 2);
    assert_eq!(meta.string_size(), Some(8));
    assert_eq!(meta.max_name_len(), 7);
    meta.add_file_entry("é".to_string(), 3);
    assert_eq!(meta.max_name_len(), 7);
    meta.add_file_entry("ééééé".to_string(), 3);
    assert_eq!(meta.max_name_len(), 10);
    assert_eq!(meta.string_size(), Some(12));
    assert_eq!(meta.entry_size(), Some(32 * 5));
}

#[test]
fn entry_size_is_zero_where_records_end_on_a_multiple_of_16() {
    let mut meta = PacMeta::new(0);
    meta.add_file_entry("abc".to_string(), 1);
    meta.add_file_entry("de".to_string(), 2);
    assert_eq!(meta.string_size(), Some(4));
    assert_eq!(meta.entry_size(), Some(0));
    let bytes = meta.to_bytes(&vec![named("abc", &[1]), named("de", &[2])]).unwrap();
    let header = parse_header(&bytes).unwrap();
    assert_eq!(header.data_start, 32);
    assert_eq!(header.total_size, 64);
    assert_eq!(bytes.len(), 32 + 2 * 32 + 32);
    let mut wide = PacMeta::new(0);
    wide.add_file_entry("0123456789abcdef".to_string(), 1);
    assert_eq!(wide.string_size(), Some(20));
    assert_eq!(wide.entry_size(), Some(0));
}

#[test]
fn empty_metadata_is_refused() {
    let meta = PacMeta::new(5);
    assert_eq!(meta.to_bytes(&vec![]), Err(PacError::EmptyMeta));
    assert_eq!(meta.to_bytes(&vec![named("a", &[1])]), Err(PacError::EmptyMeta));
}

#[test]
fn missing_contents_are_refused() {
    let mut meta = PacMeta::new(5);
    meta.add_file_entry("late.bin".to_string(), 9);
    meta.add_file_entry("there.bin".to_string(), 1);
    meta.add_file_entry("early.bin".to_string(), 4);
    let files = vec![named("there.bin", &[1])];
    assert_eq!(meta.to_bytes(&files), Err(PacError::MissingFile(2)));
    assert_eq!(meta.to_bytes(&vec![]), Err(PacError::MissingFile(1)));
}

#[test]
fn archive_beyond_32_bits_is_refused() {
    let mut meta = PacMeta::new(5);
    meta.add_file_entry("a.bin".to_string(), 9);
    assert_eq!(meta.layout(16), Some((8, 32)));
    assert_eq!(meta.layout(0xFFFF_FFFF - 64), Some((8, 32)));
    assert_eq!(meta.layout(0xFFFF_FFFF - 63), None);
    assert_eq!(meta.layout(usize::MAX), None);
}

#[test]
fn errors_describe_themselves() {
    assert_eq!(PacError::BadMagic.message(), "bad magic");
    assert_eq!(PacError::ZeroEntries.message(), "zero entries");
    assert_eq!(PacError::Truncated(Section::Header).message(), "truncated header");
    assert_eq!(PacError::Truncated(Section::EntryTable).message(), "truncated entry table");
    assert_eq!(PacError::Truncated(Section::DataSection).message(), "truncated data section");
    assert_eq!(PacError::FileEntry(3).message(), "could not parse file entry");
    assert_eq!(PacError::EmptyMeta.message(), "empty metadata");
    assert_eq!(PacError::MissingFile(0).message(), "missing file contents");
    assert_eq!(PacError::TooLarge.message(), "archive too large");
}

#[test]
fn reader_hands_back_what_follows_the_table() {
    let bytes = single_entry_archive();
    let (rest, (meta, files)) = unpac::parser::parse(&bytes).unwrap();
    assert_eq!(rest, &bytes[64..]);
    assert_eq!(meta.unknown, 7);
    assert_eq!(files, vec![unpac::parser::NamedFile {
        name: "test.bin".to_string(),
        contents: vec![0xAA, 0xBB, 0xCC],
    }]);
    assert_eq!(unpac::parser::parse(&bytes[..40]).map(|p| p.0.len()), Err(PacError::Truncated(Section::EntryTable)));
}
