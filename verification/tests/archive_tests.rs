use ddup_bak::archive::entries::{DirectoryEntry, Entry, EntryMode, SymlinkEntry};
use ddup_bak::archive::source::{
    default_compression, SourceDirectory, SourceEntry, SourceFile, SourceSymlink,
};
use ddup_bak::archive::{
    read_frame, Archive, ArchiveError, CompressionFormat, FILE_SIGNATURE, FILE_VERSION,
};

fn source_file(name: &str, content: Vec<u8>, compression: Option<CompressionFormat>) -> SourceEntry {
    SourceEntry::File(Box::new(SourceFile {
        name: name.to_string(),
        mode: EntryMode::new(0o644),
        owner: (1000, 1000),
        mtime: 1_704_067_200,
        content,
        compression,
        real_size: None,
    }))
}

fn names(parts: &[&str]) -> Vec<String> {
    parts.iter().map(|p| p.to_string()).collect()
}

#[test]
fn a_new_archive_is_signature_and_version() {
    let archive = Archive::new();
    assert_eq!(archive.version(), 1);
    assert_eq!(archive.entries_offset(), 8);
    assert!(archive.entries().is_empty());
    assert_eq!(FILE_SIGNATURE, *b"DDUPBAK");
    assert_eq!(FILE_VERSION, 1);
    let bytes = archive.to_bytes().unwrap();
    assert_eq!(&bytes[..7], b"DDUPBAK");
    assert_eq!(bytes[7], 1);
    let len = bytes.len();
    assert_eq!(&bytes[len - 16..len - 8], &0u64.to_le_bytes());
    assert_eq!(&bytes[len - 8..], &8u64.to_le_bytes());
}

#[test]
fn archive_trailer_round_trip() {
    let mut archive = Archive::new();
    let content: Vec<u8> = (0..100u8).collect();
    archive
        .add_entries(&[source_file(
            "data.bin",
            content.clone(),
            Some(CompressionFormat::Uncompressed),
        )])
        .unwrap();
    let bytes = archive.to_bytes().unwrap();
    let len = bytes.len();
    assert_eq!(&bytes[8..108], &content[..]);
    assert_eq!(u64::from_le_bytes(bytes[len - 16..len - 8].try_into().unwrap()), 1);
    assert_eq!(u64::from_le_bytes(bytes[len - 8..].try_into().unwrap()), 8 + 100);
    assert_eq!(read_frame(&bytes), Ok((1, 108)));

    let reopened = Archive::open(&bytes).unwrap();
    assert_eq!(reopened.version(), 1);
    assert_eq!(reopened.entries_offset(), 108);
    assert_eq!(reopened.entries().len(), 1);
    match &reopened.entries()[0] {
        Entry::File(file) => {
            assert_eq!(file.name, "data.bin");
            assert_eq!(file.mode.bits(), 0o644);
            assert_eq!(file.mtime, 1_704_067_200);
            assert_eq!(file.owner, (1000, 1000));
            assert_eq!(file.size, 100);
            assert_eq!(file.size_real, 100);
            assert_eq!(file.size_compressed, None);
            assert_eq!(file.offset, 8);
            assert_eq!(file.compression, CompressionFormat::Uncompressed);
            assert_eq!(reopened.read_entry(file), Ok(content));
        }
        other => panic!("not a file: {:?}", other),
    }
    assert_eq!(reopened.to_bytes().unwrap(), bytes);
}

#[test]
fn opening_what_was_written_gives_the_archive_back() {
    let mut archive = Archive::new();
    let tree = vec![
        source_file("small", b"tiny".to_vec(), None),
        SourceEntry::Directory(Box::new(SourceDirectory {
            name: "dir".to_string(),
            mode: EntryMode::new(0o755),
            owner: (0, 0),
            mtime: 7,
            entries: vec![
                source_file("big", vec![b'z'; 5000], None),
                SourceEntry::Symlink(Box::new(SourceSymlink {
                    name: "link".to_string(),
                    mode: EntryMode::new(0o777),
                    owner: (3, 4),
                    mtime: 9,
                    target: "big".to_string(),
                    target_dir: false,
                })),
                source_file("gz", vec![b'g'; 300], Some(CompressionFormat::Gzip)),
                source_file("br", vec![b'b'; 300], Some(CompressionFormat::Brotli)),
            ],
        })),
    ];
    archive.add_entries(&tree).unwrap();
    let bytes = archive.to_bytes().unwrap();
    let reopened = Archive::open(&bytes).unwrap();
    assert_eq!(reopened.entries(), archive.entries());
    assert_eq!(reopened.entries_offset(), archive.entries_offset());
    assert_eq!(reopened.to_bytes().unwrap(), bytes);

    let small = reopened.find_archive_entry(&names(&["small"])).unwrap();
    let big = reopened.find_archive_entry(&names(&["dir", "big"])).unwrap();
    let gz = reopened.find_archive_entry(&names(&["dir", "gz"])).unwrap();
    let br = reopened.find_archive_entry(&names(&["dir", "br"])).unwrap();
    match (small, big, gz, br) {
        (Entry::File(small), Entry::File(big), Entry::File(gz), Entry::File(br)) => {
            assert_eq!(small.compression, CompressionFormat::Uncompressed);
            assert_eq!(small.offset, 8);
            assert_eq!(small.size_compressed, None);
            assert_eq!(big.compression, CompressionFormat::Deflate);
            assert_eq!(big.offset, 12);
            assert_eq!(big.size, 5000);
            assert!(big.size_compressed.unwrap() < 5000);
            assert_eq!(gz.offset, 12 + big.size_compressed.unwrap());
            assert_eq!(reopened.read_entry(small), Ok(b"tiny".to_vec()));
            assert_eq!(reopened.read_entry(big), Ok(vec![b'z'; 5000]));
            assert_eq!(reopened.read_entry(gz), Ok(vec![b'g'; 300]));
            assert_eq!(reopened.read_entry(br), Ok(vec![b'b'; 300]));
        }
        _ => panic!("not files"),
    }
    assert!(reopened.find_archive_entry(&names(&["dir", "nothing"])).is_none());
    assert!(reopened.find_archive_entry(&names(&["small", "x"])).is_none());
}

#[test]
fn default_compression_is_deflate_above_sixteen_bytes() {
    assert_eq!(default_compression(0), CompressionFormat::Uncompressed);
    assert_eq!(default_compression(16), CompressionFormat::Uncompressed);
    assert_eq!(default_compression(17), CompressionFormat::Deflate);
    assert_eq!(default_compression(u64::MAX), CompressionFormat::Deflate);
}

#[test]
fn appending_keeps_what_is_there() {
    let mut archive = Archive::new();
    archive.add_entries(&[source_file("one", b"1".to_vec(), None)]).unwrap();
    let first = archive.to_bytes().unwrap();
    let mut reopened = Archive::open(&first).unwrap();
    reopened.encode_entry(&source_file("two", b"22".to_vec(), None)).unwrap();
    reopened
        .add_directory(&SourceDirectory {
            name: "ignored".to_string(),
            mode: EntryMode::new(0o755),
            owner: (0, 0),
            mtime: 0,
            entries: vec![source_file("three", b"333".to_vec(), None)],
        })
        .unwrap();
    let entries = reopened.entries();
    assert_eq!(entries.len(), 3);
    assert_eq!(entries[0].name(), "one");
    assert_eq!(entries[1].name(), "two");
    assert_eq!(entries[2].name(), "three");
    assert_eq!(reopened.entries_offset(), 8 + 1 + 2 + 3);
    let second = reopened.to_bytes().unwrap();
    assert_eq!(&second[..9], &first[..9]);
    assert_eq!(&second[9..14], b"22333");
    let entries = Archive::open(&second).unwrap().into_entries();
    assert_eq!(entries.len(), 3);
}

#[test]
fn a_name_of_255_bytes_is_stored_and_a_longer_one_refused() {
    let mut archive = Archive::new();
    let ok = "n".repeat(255);
    assert_eq!(archive.add_entries(&[source_file(&ok, b"x".to_vec(), None)]), Ok(()));
    let before = archive.to_bytes().unwrap();
    let long = "n".repeat(256);
    assert_eq!(
        archive.add_entries(&[
            source_file("fine", b"y".to_vec(), None),
            source_file(&long, b"x".to_vec(), None)
        ]),
        Err(ArchiveError::InvalidEntry)
    );
    assert_eq!(archive.to_bytes().unwrap(), before);
    assert_eq!(
        archive.write_file_entry(
            b"x",
            None,
            long,
            EntryMode::new(0o644),
            0,
            (0, 0),
            CompressionFormat::Uncompressed
        ),
        Err(ArchiveError::InvalidEntry)
    );
    assert_eq!(archive.to_bytes().unwrap(), before);
}

#[test]
fn write_file_entry_records_where_the_payload_lies() {
    let mut archive = Archive::new();
    let first = archive
        .write_file_entry(
            b"0123456789",
            None,
            "a".to_string(),
            EntryMode::new(0o600),
            11,
            (1, 2),
            CompressionFormat::Uncompressed,
        )
        .unwrap();
    assert_eq!(first.offset, 8);
    assert_eq!(first.size, 10);
    assert_eq!(first.size_real, 10);
    assert_eq!(first.size_compressed, None);
    assert_eq!(first.mtime, 11);
    assert_eq!(first.owner, (1, 2));
    let second = archive
        .write_file_entry(
            &[7u8; 1000],
            Some(123),
            "b".to_string(),
            EntryMode::new(0o600),
            0,
            (0, 0),
            CompressionFormat::Deflate,
        )
        .unwrap();
    assert_eq!(second.offset, 18);
    assert_eq!(second.size, 123);
    assert_eq!(second.size_real, 123);
    let stored = second.size_compressed.unwrap();
    assert!(stored < 1000);
    assert_eq!(archive.entries_offset(), 18 + stored);
    assert!(archive.entries().is_empty());
    assert_eq!(archive.read_entry(&first), Ok(b"0123456789".to_vec()));
    assert_eq!(archive.read_entry(&second), Ok(vec![7u8; 123]));
}

#[test]
fn insert_entry_puts_entries_under_their_parent() {
    let mut archive = Archive::new();
    let dir = |name: &str| {
        Entry::Directory(Box::new(DirectoryEntry {
            name: name.to_string(),
            mode: EntryMode::new(0o755),
            owner: (0, 0),
            mtime: 0,
            entries: Vec::new(),
        }))
    };
    let link = |name: &str| {
        Entry::Symlink(Box::new(SymlinkEntry {
            name: name.to_string(),
            mode: EntryMode::new(0o777),
            owner: (0, 0),
            mtime: 0,
            target: "t".to_string(),
            target_dir: false,
        }))
    };
    assert_eq!(archive.insert_entry(&names(&[]), dir("a")), Ok(()));
    assert_eq!(archive.insert_entry(&names(&["a"]), dir("b")), Ok(()));
    assert_eq!(archive.insert_entry(&names(&["a", "b"]), link("c")), Ok(()));
    assert_eq!(archive.insert_entry(&names(&["a"]), link("d")), Ok(()));
    // a parent that is not there: the entry becomes a root entry
    assert_eq!(archive.insert_entry(&names(&["nowhere"]), link("e")), Ok(()));
    // a parent that is no directory
    assert_eq!(
        archive.insert_entry(&names(&["a", "d"]), link("f")),
        Err(ArchiveError::NotADirectory)
    );
    // an entry that does not fit
    assert_eq!(
        archive.insert_entry(&names(&["a"]), link(&"x".repeat(256))),
        Err(ArchiveError::InvalidEntry)
    );
    let entries = archive.entries();
    assert_eq!(entries.len(), 2);
    assert_eq!(entries[1].name(), "e");
    match &entries[0] {
        Entry::Directory(a) => {
            assert_eq!(a.entries.len(), 2);
            assert_eq!(a.entries[1].name(), "d");
            match &a.entries[0] {
                Entry::Directory(b) => {
                    assert_eq!(b.entries.len(), 1);
                    assert_eq!(b.entries[0].name(), "c");
                }
                _ => panic!("b is no directory"),
            }
        }
        _ => panic!("a is no directory"),
    }
    assert!(archive.find_archive_entry(&names(&["a", "b", "c"])).is_some());
}

#[test]
fn a_file_that_is_no_archive_is_refused() {
    assert_eq!(Archive::open(b"").err(), Some(ArchiveError::UnexpectedEof));
    assert_eq!(Archive::open(b"DDUPBAK").err(), Some(ArchiveError::UnexpectedEof));
    assert_eq!(Archive::open(b"DDUPBAK\x01").err(), Some(ArchiveError::UnexpectedEof));
    assert_eq!(
        Archive::open(b"NOTANARCHIVE-NOTANARCHIVE").err(),
        Some(ArchiveError::InvalidSignature)
    );
    let mut bytes = Archive::new().to_bytes().unwrap();
    let len = bytes.len();
    bytes[len - 8..].copy_from_slice(&7u64.to_le_bytes());
    assert_eq!(Archive::open(&bytes).err(), Some(ArchiveError::InvalidData));
    bytes[len - 8..].copy_from_slice(&(len as u64).to_le_bytes());
    assert_eq!(Archive::open(&bytes).err(), Some(ArchiveError::InvalidData));
    assert_eq!(read_frame(&bytes), Err(ArchiveError::InvalidData));
}

#[test]
fn metadata_that_does_not_decompress_is_invalid() {
    let mut archive = Archive::new();
    archive.add_entries(&[source_file("x", b"x".to_vec(), None)]).unwrap();
    let bytes = archive.to_bytes().unwrap();
    assert_eq!(Archive::open_with(&bytes, None).err(), Some(ArchiveError::InvalidData));
    assert_eq!(
        Archive::open_with(&bytes, Some(vec![1, b'x'])).err(),
        Some(ArchiveError::UnexpectedEof)
    );
    let mut broken = bytes.clone();
    let len = broken.len();
    for byte in &mut broken[9..len - 16] {
        *byte = 0xFF;
    }
    assert_eq!(Archive::open(&broken).err(), Some(ArchiveError::InvalidData));
}

#[test]
fn reading_an_entry_never_gives_more_than_its_size() {
    let mut archive = Archive::new();
    let mut entry = archive
        .write_file_entry(
            &[9u8; 50],
            None,
            "f".to_string(),
            EntryMode::new(0o644),
            0,
            (0, 0),
            CompressionFormat::Gzip,
        )
        .unwrap();
    entry.size = 20;
    assert_eq!(archive.read_entry(&entry), Ok(vec![9u8; 20]));
    entry.size = 0;
    assert_eq!(archive.read_entry(&entry), Ok(Vec::new()));
    entry.size = 50;
    entry.size_compressed = None;
    assert_eq!(archive.read_entry(&entry), Err(ArchiveError::InvalidEntry));
    entry.size_compressed = Some(3);
    assert_eq!(archive.read_entry(&entry), Err(ArchiveError::InvalidData));
    entry.compression = CompressionFormat::Uncompressed;
    entry.offset = 1_000_000;
    assert_eq!(archive.read_entry(&entry), Ok(Vec::new()));
}
