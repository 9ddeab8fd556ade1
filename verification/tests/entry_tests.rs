use ddup_bak::archive::codec::{decode_entries, decode_entry, encode_entries_metadata, encode_entry_metadata};
use ddup_bak::archive::entries::{
    find_entry, DirectoryEntry, Entry, EntryMode, FileEntry, SymlinkEntry,
};
use ddup_bak::archive::{ArchiveError, CompressionFormat};
use ddup_bak::stream::ByteReader;

fn file(name: &str, compression: CompressionFormat, size_compressed: Option<u64>) -> Entry {
    Entry::File(Box::new(FileEntry {
        name: name.to_string(),
        mode: EntryMode::new(0o100644),
        owner: (1000, 100),
        mtime: 1_704_067_200,
        compression,
        size_compressed,
        size_real: 100,
        size: 100,
        offset: 8,
    }))
}

fn symlink(name: &str, target: &str, target_dir: bool) -> Entry {
    Entry::Symlink(Box::new(SymlinkEntry {
        name: name.to_string(),
        mode: EntryMode::new(0o120777),
        owner: (0, 0),
        mtime: 5,
        target: target.to_string(),
        target_dir,
    }))
}

fn directory(name: &str, entries: Vec<Entry>) -> Entry {
    Entry::Directory(Box::new(DirectoryEntry {
        name: name.to_string(),
        mode: EntryMode::new(0o040755),
        owner: (1, 2),
        mtime: 300,
        entries,
    }))
}

#[test]
fn entry_mode_getters_read_the_permission_bits() {
    let mode = EntryMode::new(0o754);
    assert_eq!(mode.bits(), 0o754);
    assert_eq!(mode.user(), (true, true, true));
    assert_eq!(mode.group(), (true, false, true));
    assert_eq!(mode.other(), (true, false, false));
    assert_eq!(EntryMode::default().bits(), 0o644);
    assert_eq!(EntryMode::from(0o600u32).bits(), 0o600);
    assert_eq!(u32::from(EntryMode::new(0o640)), 0o640);
}

#[test]
fn entry_mode_setters_clear_their_group_and_set_their_bits() {
    let mut mode = EntryMode::new(0o777);
    mode.set_bits(0o7777);
    assert_eq!(mode.bits(), 0o7777);
    let mut mode = EntryMode::new(0o777);
    mode.set_user(false, false, false);
    assert_eq!(mode.bits(), 0o077);
    let mut mode = EntryMode::new(0);
    mode.set_user(true, true, true);
    assert_eq!(mode.bits(), 0o700);
    let mut mode = EntryMode::new(0o077);
    mode.set_user(true, false, false);
    assert_eq!(mode.bits(), 0o477);
    assert_eq!(mode.user(), (true, false, false));
    let mut mode = EntryMode::new(0o777);
    mode.set_group(false, false, false);
    assert_eq!(mode.bits(), 0o707);
    let mut mode = EntryMode::new(0);
    mode.set_group(true, true, true);
    assert_eq!(mode.bits(), 0o070);
    let mut mode = EntryMode::new(0o700);
    mode.set_group(true, false, true);
    assert_eq!(mode.bits(), 0o750);
    assert_eq!(mode.group(), (true, false, true));
    let mut mode = EntryMode::new(0o777);
    mode.set_other(false, false, false);
    assert_eq!(mode.bits(), 0o770);
    let mut mode = EntryMode::new(0o770);
    mode.set_other(true, false, false);
    assert_eq!(mode.bits(), 0o774);
    assert_eq!(mode.other(), (true, false, false));
    let mut mode = EntryMode::new(0o100000);
    mode.set_other(true, false, true);
    assert_eq!(mode.bits(), 0o100005);
}

#[test]
fn entry_mode_spells_its_permissions() {
    assert_eq!(EntryMode::new(0o755).permissions(), "rwxr-xr-x");
    assert_eq!(EntryMode::new(0o640).permissions(), "rw-r-----");
    assert_eq!(EntryMode::new(0).permissions(), "---------");
    assert_eq!(EntryMode::new(0o100777).permissions(), "rwxrwxrwx");
}

#[test]
fn entry_accessors_give_the_common_fields() {
    let entry = file("a.txt", CompressionFormat::Uncompressed, None);
    assert_eq!(entry.name(), "a.txt");
    assert_eq!(entry.mode().bits(), 0o100644);
    assert_eq!(entry.owner(), (1000, 100));
    assert_eq!(entry.mtime(), 1_704_067_200);
    assert!(entry.has_name(&"a.txt".to_string()));
    assert!(!entry.has_name(&"b.txt".to_string()));
    let link = symlink("l", "t", false);
    assert_eq!(link.name(), "l");
    assert_eq!(link.owner(), (0, 0));
    let dir = directory("d", Vec::new());
    assert_eq!(dir.mtime(), 300);
}

#[test]
fn file_entry_has_the_documented_bytes() {
    let mut out = Vec::new();
    encode_entry_metadata(&mut out, &file("ab", CompressionFormat::Deflate, Some(60))).unwrap();
    let packed: u32 = (0 << 30) | (2 << 26) | 0o100644;
    let mut expected = vec![2, b'a', b'b'];
    expected.extend_from_slice(&packed.to_le_bytes());
    expected.extend_from_slice(&[0xE8, 0x07]); // uid 1000
    expected.push(100); // gid
    expected.extend_from_slice(&[0x80, 0x81, 0xC8, 0xAC, 0x06]); // mtime 1704067200
    expected.push(100); // raw size
    expected.push(60); // compressed size
    expected.push(100); // real size
    expected.push(8); // offset
    assert_eq!(out, expected);
}

#[test]
fn uncompressed_file_has_no_compressed_size_on_the_wire() {
    let mut with = Vec::new();
    encode_entry_metadata(&mut with, &file("ab", CompressionFormat::Gzip, Some(60))).unwrap();
    let mut without = Vec::new();
    encode_entry_metadata(&mut without, &file("ab", CompressionFormat::Uncompressed, None)).unwrap();
    assert_eq!(with.len(), without.len() + 1);
}

#[test]
fn symlink_entry_has_the_documented_bytes() {
    let mut out = Vec::new();
    encode_entry_metadata(&mut out, &symlink("l", "hello.txt", true)).unwrap();
    let packed: u32 = (2 << 30) | 0o120777;
    let mut expected = vec![1, b'l'];
    expected.extend_from_slice(&packed.to_le_bytes());
    expected.extend_from_slice(&[0, 0, 5, 9]);
    expected.extend_from_slice(b"hello.txt");
    expected.push(1);
    assert_eq!(out, expected);
}

#[test]
fn entries_survive_encoding_and_decoding() {
    let tree = directory(
        "root",
        vec![
            file("a.txt", CompressionFormat::Uncompressed, None),
            directory(
                "sub",
                vec![
                    symlink("l", "../a.txt", false),
                    file("b.bin", CompressionFormat::Brotli, Some(77)),
                    directory("empty", Vec::new()),
                ],
            ),
            file("ünïcödé", CompressionFormat::Gzip, Some(0)),
        ],
    );
    let mut out = Vec::new();
    encode_entry_metadata(&mut out, &tree).unwrap();
    out.extend_from_slice(&[1, 2, 3]);
    let mut reader = ByteReader::new(out);
    let decoded = decode_entry(&mut reader).unwrap();
    assert_eq!(decoded, tree);
    assert_eq!(reader.remaining(), 3);
    assert!(decoded.is_well_formed());
}

#[test]
fn a_list_of_entries_survives_encoding_and_decoding() {
    let list = vec![
        file("one", CompressionFormat::Uncompressed, None),
        symlink("two", "one", false),
        directory("three", vec![file("four", CompressionFormat::Deflate, Some(1))]),
    ];
    let mut out = Vec::new();
    encode_entries_metadata(&mut out, &list).unwrap();
    let mut reader = ByteReader::new(out);
    let decoded = decode_entries(&mut reader, 3).unwrap();
    assert_eq!(decoded, list);
    assert_eq!(reader.remaining(), 0);
}

#[test]
fn decoding_truncated_metadata_ends_too_early() {
    let mut out = Vec::new();
    encode_entry_metadata(&mut out, &symlink("link", "target", false)).unwrap();
    let mut reader = ByteReader::new(out[..3].to_vec());
    assert_eq!(decode_entry(&mut reader), Err(ArchiveError::UnexpectedEof));
    let mut reader = ByteReader::new(out[..out.len() - 1].to_vec());
    assert_eq!(decode_entry(&mut reader), Err(ArchiveError::UnexpectedEof));
    let mut empty = ByteReader::new(Vec::new());
    assert_eq!(decode_entry(&mut empty), Err(ArchiveError::UnexpectedEof));
    let mut more = ByteReader::new(out);
    assert_eq!(decode_entries(&mut more, 2), Err(ArchiveError::UnexpectedEof));
}

#[test]
fn decoding_refuses_what_the_format_does_not_know() {
    // an entry that is neither file, directory nor link
    let mut bytes = vec![1, b'x'];
    bytes.extend_from_slice(&(3u32 << 30).to_le_bytes());
    bytes.extend_from_slice(&[0, 0, 0, 0, 0, 0]);
    assert_eq!(decode_entry(&mut ByteReader::new(bytes)), Err(ArchiveError::InvalidData));
    // compression tag 4
    let mut bytes = vec![1, b'x'];
    bytes.extend_from_slice(&(4u32 << 26).to_le_bytes());
    bytes.extend_from_slice(&[0, 0, 0, 0, 0, 0]);
    assert_eq!(decode_entry(&mut ByteReader::new(bytes)), Err(ArchiveError::InvalidData));
    // a name that is not UTF-8
    let mut bytes = vec![2, 0xFF, 0xFE];
    bytes.extend_from_slice(&0u32.to_le_bytes());
    bytes.extend_from_slice(&[0, 0, 0, 0, 0, 0]);
    assert_eq!(decode_entry(&mut ByteReader::new(bytes)), Err(ArchiveError::InvalidData));
    // a name of 256 bytes
    let mut bytes = vec![0x80, 0x02];
    bytes.extend_from_slice(&[b'a'; 256]);
    bytes.extend_from_slice(&0u32.to_le_bytes());
    bytes.extend_from_slice(&[0, 0, 0, 0, 0, 0]);
    assert_eq!(decode_entry(&mut ByteReader::new(bytes)), Err(ArchiveError::InvalidData));
}

#[test]
fn a_name_of_255_bytes_is_decoded() {
    let name = "n".repeat(255);
    let entry = file(&name, CompressionFormat::Uncompressed, None);
    assert!(entry.is_well_formed());
    let mut out = Vec::new();
    encode_entry_metadata(&mut out, &entry).unwrap();
    let decoded = decode_entry(&mut ByteReader::new(out)).unwrap();
    assert_eq!(decoded.name(), name);
}

#[test]
fn well_formedness_is_checked_through_the_tree() {
    assert!(file("ok", CompressionFormat::Uncompressed, None).is_well_formed());
    assert!(!file(&"n".repeat(256), CompressionFormat::Uncompressed, None).is_well_formed());
    assert!(!file("x", CompressionFormat::Uncompressed, Some(1)).is_well_formed());
    assert!(!file("x", CompressionFormat::Deflate, None).is_well_formed());
    let mut big = file("x", CompressionFormat::Uncompressed, None);
    if let Entry::File(inner) = &mut big {
        inner.mode = EntryMode::new(1 << 26);
    }
    assert!(!big.is_well_formed());
    let nested = directory("d", vec![directory("e", vec![symlink(&"s".repeat(300), "t", false)])]);
    assert!(!nested.is_well_formed());
    assert!(directory("d", vec![symlink("s", "t", false)]).is_well_formed());
}

#[test]
fn find_entry_descends_component_by_component() {
    let tree = vec![
        file("a", CompressionFormat::Uncompressed, None),
        directory(
            "world",
            vec![
                directory("user", vec![file("level.dat", CompressionFormat::Uncompressed, None)]),
                file("user.txt", CompressionFormat::Uncompressed, None),
            ],
        ),
        symlink("world", "elsewhere", true),
    ];
    let path = |parts: &[&str]| parts.iter().map(|p| p.to_string()).collect::<Vec<String>>();
    assert_eq!(find_entry(&tree, &path(&["a"])).map(|e| e.name()), Some("a"));
    let found = find_entry(&tree, &path(&["world", "user", "level.dat"])).unwrap();
    assert_eq!(found.name(), "level.dat");
    assert!(matches!(find_entry(&tree, &path(&["world"])), Some(Entry::Directory(_))));
    assert!(find_entry(&tree, &path(&[])).is_none());
    assert!(find_entry(&tree, &path(&["level.dat"])).is_none());
    assert!(find_entry(&tree, &path(&["world", "level.dat"])).is_none());
    assert!(find_entry(&tree, &path(&["a", "b"])).is_none());
    assert!(find_entry(&tree, &path(&["world", "user", "level.dat", "x"])).is_none());
}

#[test]
fn a_copy_of_an_entry_holds_its_children() {
    let tree = directory(
        "root",
        vec![
            file("a.txt", CompressionFormat::Deflate, Some(12)),
            directory("sub", vec![symlink("link", "../a.txt", false)]),
        ],
    );
    let copy = tree.clone();
    assert_eq!(copy, tree);
    match copy {
        Entry::Directory(dir) => {
            assert_eq!(dir.entries.len(), 2);
            assert_eq!(dir.entries[1].name(), "sub");
        }
        _ => panic!("a directory is copied as a directory"),
    }
}

#[test]
fn an_entry_that_does_not_fit_is_not_encoded() {
    let mut out = vec![7u8];
    let long = file(&"n".repeat(256), CompressionFormat::Uncompressed, None);
    assert_eq!(encode_entry_metadata(&mut out, &long), Err(ArchiveError::InvalidEntry));
    assert_eq!(out, vec![7u8]);
    let tree = directory("d", vec![file("ok", CompressionFormat::Uncompressed, None), long]);
    assert_eq!(encode_entry_metadata(&mut out, &tree), Err(ArchiveError::InvalidEntry));
    let list = vec![symlink("l", "t", false), file("f", CompressionFormat::Gzip, None)];
    assert_eq!(encode_entries_metadata(&mut out, &list), Err(ArchiveError::InvalidEntry));
    assert_eq!(out, vec![7u8]);
    let fits = file(&"n".repeat(255), CompressionFormat::Uncompressed, None);
    assert_eq!(encode_entry_metadata(&mut out, &fits), Ok(()));
    assert!(out.len() > 256);
}
