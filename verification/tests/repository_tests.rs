use ddup_bak::archive::entries::{Entry, EntryMode};
use ddup_bak::archive::source::SourceEntry;
use ddup_bak::archive::{Archive, ArchiveError, CompressionFormat};
use ddup_bak::chunks::storage::ChunkStorageMemory;
use ddup_bak::chunks::{chunk_hash, ChunkError};
use ddup_bak::repository::{
    archive_name, contains_name, Repository, RepositoryError, WalkedEntry, WalkedKind,
};

const MIB: usize = 1024 * 1024;

fn names(parts: &[&str]) -> Vec<String> {
    parts.iter().map(|p| p.to_string()).collect()
}

fn walked_file(parent: &[&str], name: &str, content: Vec<u8>) -> WalkedEntry {
    WalkedEntry {
        parent: names(parent),
        name: name.to_string(),
        mode: EntryMode::new(0o644),
        owner: (1000, 1000),
        mtime: 1_704_067_200,
        kind: WalkedKind::File { content, compression: None },
    }
}

fn walked_directory(parent: &[&str], name: &str) -> WalkedEntry {
    WalkedEntry {
        parent: names(parent),
        name: name.to_string(),
        mode: EntryMode::new(0o755),
        owner: (1000, 1000),
        mtime: 1_700_000_000,
        kind: WalkedKind::Directory,
    }
}

fn walked_symlink(parent: &[&str], name: &str, target: &str) -> WalkedEntry {
    WalkedEntry {
        parent: names(parent),
        name: name.to_string(),
        mode: EntryMode::new(0o777),
        owner: (1000, 1000),
        mtime: 1_700_000_001,
        kind: WalkedKind::Symlink { target: target.to_string(), target_dir: false },
    }
}

#[test]
fn deduplication_across_two_archives() {
    let mut repository = Repository::new(MIB, 0, ChunkStorageMemory::new());
    let a = vec![0x41u8; 3 * MIB];
    let mut b = a.clone();
    b.extend(vec![0x42u8; MIB]);
    let first = repository
        .create_archive(&"first".to_string(), &[], &[walked_file(&[], "A", a)])
        .unwrap();
    let second = repository
        .create_archive(&"second".to_string(), &names(&["first"]), &[walked_file(&[], "B", b)])
        .unwrap();
    let all_a = chunk_hash(&vec![0x41u8; MIB]);
    let all_b = chunk_hash(&vec![0x42u8; MIB]);
    assert_eq!(repository.chunk_index.storage().len(), 2);
    assert_eq!(repository.chunk_index.references(&all_a), 6);
    assert_eq!(repository.chunk_index.references(&all_b), 1);

    // deletion reclaims only unshared chunks
    let outcomes = repository
        .delete_archive(&"first".to_string(), &names(&["first", "second"]), &first)
        .unwrap();
    assert_eq!(outcomes.len(), 3);
    assert!(outcomes.iter().all(|(_, deleted)| !deleted));
    assert_eq!(repository.chunk_index.references(&all_a), 3);
    assert_eq!(repository.chunk_index.references(&all_b), 1);
    assert_eq!(repository.chunk_index.storage().len(), 2);

    let outcomes = repository
        .delete_archive(&"second".to_string(), &names(&["second"]), &second)
        .unwrap();
    assert_eq!(outcomes.len(), 4);
    assert_eq!(outcomes.iter().filter(|(_, deleted)| *deleted).count(), 2);
    assert_eq!(repository.chunk_index.references(&all_a), 0);
    assert_eq!(repository.chunk_index.storage().len(), 0);
}

#[test]
fn restore_fidelity() {
    let mut repository = Repository::new(1024, 0, ChunkStorageMemory::new());
    let walk = vec![
        walked_file(&[], "hello.txt", b"hello\n".to_vec()),
        walked_symlink(&[], "link", "hello.txt"),
    ];
    let archive = repository.create_archive(&"backup".to_string(), &[], &walk).unwrap();
    let bytes = archive.to_bytes().unwrap();
    let reopened = Archive::open(&bytes).unwrap();
    let restored = repository
        .restore_archive(&"backup".to_string(), &names(&["backup"]), &reopened)
        .unwrap();
    assert_eq!(restored.len(), 2);
    match &restored[0] {
        SourceEntry::File(file) => {
            assert_eq!(file.name, "hello.txt");
            assert_eq!(file.content, b"hello\n".to_vec());
            assert_eq!(file.mode.bits(), 0o644);
            assert_eq!(file.mtime, 1_704_067_200);
            assert_eq!(file.owner, (1000, 1000));
            assert_eq!(file.real_size, Some(6));
        }
        other => panic!("not a file: {:?}", other),
    }
    match &restored[1] {
        SourceEntry::Symlink(link) => {
            assert_eq!(link.name, "link");
            assert_eq!(link.target, "hello.txt");
            assert!(!link.target_dir);
            assert_eq!(link.mode.bits(), 0o777);
        }
        other => panic!("not a link: {:?}", other),
    }
}

#[test]
fn creating_the_same_archive_twice_is_refused() {
    let mut repository = Repository::new(16, 0, ChunkStorageMemory::new());
    let walk = vec![walked_file(&[], "f", vec![1; 40])];
    let first = repository.create_archive(&"daily".to_string(), &[], &walk).unwrap();
    let hash = chunk_hash(&[1u8; 16]);
    assert_eq!(repository.chunk_index.references(&hash), 2);
    let blobs = repository.chunk_index.storage().len();
    let again = repository.create_archive(&"daily".to_string(), &names(&["daily"]), &walk);
    assert_eq!(again.err(), Some(RepositoryError::AlreadyExists));
    assert_eq!(repository.chunk_index.references(&hash), 2);
    assert_eq!(repository.chunk_index.storage().len(), blobs);
    assert_eq!(first.entries().len(), 1);
    assert!(contains_name(&names(&["a", "daily"]), &"daily".to_string()));
    assert!(!contains_name(&names(&["a", "daily"]), &"dail".to_string()));
}

#[test]
fn a_tree_is_stored_under_its_directories_and_read_back() {
    let mut repository = Repository::new(64, 0, ChunkStorageMemory::new());
    let big: Vec<u8> = (0..1000u32).map(|i| (i * 31 % 256) as u8).collect();
    let walk = vec![
        walked_directory(&[], "world"),
        walked_directory(&["world"], "user"),
        walked_file(&["world", "user"], "level.dat", big.clone()),
        walked_file(&["world"], "empty", Vec::new()),
        walked_symlink(&["world"], "latest", "user/level.dat"),
        WalkedEntry {
            kind: WalkedKind::File {
                content: b"plain".to_vec(),
                compression: Some(CompressionFormat::Uncompressed),
            },
            ..walked_file(&[], "top.txt", Vec::new())
        },
    ];
    let archive = repository.create_archive(&"tree".to_string(), &[], &walk).unwrap();
    let archive = Archive::open(&archive.to_bytes().unwrap()).unwrap();
    assert_eq!(archive.entries().len(), 2);
    let level = archive.find_archive_entry(&names(&["world", "user", "level.dat"])).unwrap();
    match level {
        Entry::File(file) => {
            assert_eq!(file.size_real, 1000);
            assert_eq!(file.compression, CompressionFormat::Deflate);
            // sixteen chunks: sixteen identifiers of one byte each, and the zero
            assert_eq!(file.size, 17);
        }
        _ => panic!("not a file"),
    }
    assert_eq!(repository.read_entry_content(&archive, level), Ok(big.clone()));
    let empty = archive.find_archive_entry(&names(&["world", "empty"])).unwrap();
    assert_eq!(repository.read_entry_content(&archive, empty), Ok(Vec::new()));
    let top = archive.find_archive_entry(&names(&["top.txt"])).unwrap();
    assert_eq!(repository.read_entry_content(&archive, top), Ok(b"plain".to_vec()));
    match top {
        Entry::File(file) => {
            assert_eq!(file.offset + file.size, archive.entries_offset());
            // the content repeats after four chunks: five chunks are before this one
            assert_eq!(archive.read_entry(file), Ok(vec![6, 0]));
        }
        _ => panic!("not a file"),
    }
    let world = archive.find_archive_entry(&names(&["world"])).unwrap();
    assert_eq!(
        repository.read_entry_content(&archive, world),
        Err(RepositoryError::NotAFile)
    );
    assert_eq!(
        repository.entry_reader(&archive, world).err(),
        Some(RepositoryError::NotAFile)
    );
    let mut reader = repository.entry_reader(&archive, level).unwrap();
    let mut out = Vec::new();
    assert_eq!(reader.read(&repository.chunk_index, &mut out, 2000), Ok(1000));
    assert_eq!(out, big);

    let restored = repository
        .restore_entries(&"tree".to_string(), &names(&["tree"]), &archive, archive.entries())
        .unwrap();
    match &restored[0] {
        SourceEntry::Directory(world) => {
            assert_eq!(world.name, "world");
            assert_eq!(world.mode.bits(), 0o755);
            assert_eq!(world.entries.len(), 3);
            match &world.entries[0] {
                SourceEntry::Directory(user) => match &user.entries[0] {
                    SourceEntry::File(level) => assert_eq!(level.content, big),
                    _ => panic!("not a file"),
                },
                _ => panic!("not a directory"),
            }
        }
        _ => panic!("not a directory"),
    }
    assert_eq!(
        repository
            .restore_archive(&"other".to_string(), &names(&["tree"]), &archive)
            .err(),
        Some(RepositoryError::NotFound)
    );
}

#[test]
fn deleting_gives_up_as_many_references_as_the_archive_lists() {
    let mut repository = Repository::new(4, 0, ChunkStorageMemory::new());
    let one = repository
        .create_archive(
            &"one".to_string(),
            &[],
            &[
                walked_directory(&[], "d"),
                walked_file(&["d"], "x", b"aaaabbbbaaaa".to_vec()),
                walked_file(&[], "y", b"aaaacccc".to_vec()),
            ],
        )
        .unwrap();
    let two = repository
        .create_archive(&"two".to_string(), &names(&["one"]), &[walked_file(&[], "z", b"aaaa".to_vec())])
        .unwrap();
    let a = chunk_hash(b"aaaa");
    let b = chunk_hash(b"bbbb");
    let c = chunk_hash(b"cccc");
    assert_eq!(repository.chunk_index.references(&a), 4);
    assert_eq!(repository.chunk_index.references(&b), 1);
    assert_eq!(repository.chunk_index.references(&c), 1);
    assert_eq!(
        repository.delete_archive(&"gone".to_string(), &names(&["one", "two"]), &one).err(),
        Some(RepositoryError::NotFound)
    );
    assert_eq!(repository.chunk_index.references(&a), 4);
    let outcomes =
        repository.delete_archive(&"one".to_string(), &names(&["one", "two"]), &one).unwrap();
    assert_eq!(outcomes.len(), 5);
    assert_eq!(repository.chunk_index.references(&a), 1);
    assert_eq!(repository.chunk_index.references(&b), 0);
    assert_eq!(repository.chunk_index.references(&c), 0);
    assert_eq!(repository.chunk_index.get_chunk_id(&b), None);
    assert_eq!(repository.chunk_index.storage().len(), 1);
    let z = two.find_archive_entry(&names(&["z"])).unwrap();
    assert_eq!(repository.read_entry_content(&two, z), Ok(b"aaaa".to_vec()));
    let x = one.find_archive_entry(&names(&["d", "x"])).unwrap();
    assert_eq!(
        repository.read_entry_content(&one, x),
        Err(RepositoryError::Chunk(ChunkError::NotFound))
    );
    assert_eq!(repository.clean(), Ok(Vec::new()));
}

#[test]
fn an_entry_that_does_not_fit_ends_the_work() {
    let mut repository = Repository::new(4, 0, ChunkStorageMemory::new());
    let long = "n".repeat(256);
    let result = repository.create_archive(
        &"bad".to_string(),
        &[],
        &[walked_file(&[], "ok", b"data".to_vec()), walked_file(&[], &long, b"more".to_vec())],
    );
    assert_eq!(result.err(), Some(RepositoryError::Archive(ArchiveError::InvalidEntry)));
    assert_eq!(repository.chunk_index.references(&chunk_hash(b"more")), 0);
    let ok = "n".repeat(255);
    assert!(repository
        .create_archive(&"good".to_string(), &[], &[walked_file(&[], &ok, b"more".to_vec())])
        .is_ok());
    let under_file = repository.create_archive(
        &"worse".to_string(),
        &[],
        &[walked_file(&[], "f", b"data".to_vec()), walked_file(&["f"], "g", b"zzzz".to_vec())],
    );
    assert_eq!(under_file.err(), Some(RepositoryError::Archive(ArchiveError::NotADirectory)));
    assert_eq!(repository.chunk_index.references(&chunk_hash(b"zzzz")), 0);
}

#[test]
fn a_repository_survives_saving_and_opening() {
    let mut repository = Repository::new(8, 2, ChunkStorageMemory::new());
    assert!(repository.save_on_drop);
    repository.set_save_on_drop(false);
    assert!(!repository.save_on_drop);
    repository
        .create_archive(&"a".to_string(), &[], &[walked_file(&[], "f", vec![5; 100])])
        .unwrap();
    let saved = repository.save().unwrap();
    let reopened = Repository::open(&saved, ChunkStorageMemory::new()).unwrap();
    assert!(reopened.save_on_drop);
    assert_eq!(reopened.chunk_index.chunk_size(), 8);
    assert_eq!(reopened.chunk_index.max_chunk_count(), 2);
    // thirteen chunks of 8 bytes are too many: the size is doubled to 64
    assert_eq!(reopened.chunk_index.references(&chunk_hash(&[5u8; 64])), 1);
    assert_eq!(reopened.chunk_index.references(&chunk_hash(&[5u8; 36])), 1);
    assert_eq!(reopened.chunk_index.references(&chunk_hash(&[5u8; 100])), 0);
    assert_eq!(
        Repository::open(b"nothing", ChunkStorageMemory::new()).err(),
        Some(RepositoryError::Chunk(ChunkError::InvalidData))
    );
    assert_eq!(
        Repository::<ChunkStorageMemory>::archive_path("nightly"),
        ".ddup-bak/archives/nightly.ddup"
    );
}

#[test]
fn archives_are_the_files_that_end_in_ddup() {
    assert_eq!(archive_name("nightly.ddup"), Some("nightly".to_string()));
    assert_eq!(archive_name(".ddup"), Some(String::new()));
    assert_eq!(archive_name("a.ddup.ddup"), Some("a.ddup".to_string()));
    assert_eq!(archive_name("süß.ddup"), Some("süß".to_string()));
    assert_eq!(archive_name("nightly.ddu"), None);
    assert_eq!(archive_name("nightly.ddup "), None);
    assert_eq!(archive_name("ddup"), None);
    assert_eq!(archive_name(""), None);
    assert_eq!(archive_name("index.lock"), None);
    assert_eq!(
        Repository::<ChunkStorageMemory>::list_archives(&names(&[
            "b.ddup", "notes.txt", "a.ddup", ".ddup", "c.DDUP"
        ])),
        names(&["b", "a", ""])
    );
}

#[test]
fn a_chunk_size_of_zero_stores_no_file() {
    let mut repository = Repository::new(0, 0, ChunkStorageMemory::new());
    let links = repository.create_archive(
        &"links".to_string(),
        &[],
        &[walked_directory(&[], "d"), walked_symlink(&["d"], "l", "t")],
    );
    assert!(links.is_ok());
    let files = repository.create_archive(
        &"files".to_string(),
        &[],
        &[walked_directory(&[], "d"), walked_file(&["d"], "f", b"x".to_vec())],
    );
    assert_eq!(files.err(), Some(RepositoryError::Chunk(ChunkError::InvalidChunkSize)));
    assert_eq!(repository.chunk_index.storage().len(), 0);
}

#[test]
fn an_archive_without_chunks_is_restored_and_deleted_without_the_store() {
    let mut repository = Repository::new(16, 0, ChunkStorageMemory::new());
    let kept = repository
        .create_archive(&"kept".to_string(), &[], &[walked_file(&[], "f", vec![1; 40])])
        .unwrap();
    let before = repository.save().unwrap();
    let plain = repository
        .create_archive(
            &"plain".to_string(),
            &names(&["kept"]),
            &[
                walked_directory(&[], "d"),
                walked_symlink(&["d"], "l", "t"),
                walked_file(&["d"], "empty", Vec::new()),
            ],
        )
        .unwrap();
    let existing = names(&["kept", "plain"]);
    let restored = repository.restore_archive(&"plain".to_string(), &existing, &plain).unwrap();
    assert_eq!(restored.len(), 1);
    match &restored[0] {
        SourceEntry::Directory(dir) => {
            assert_eq!(dir.entries.len(), 2);
            match &dir.entries[1] {
                SourceEntry::File(file) => assert!(file.content.is_empty()),
                _ => panic!("the second child is the empty file"),
            }
        }
        _ => panic!("the root entry is the directory"),
    }
    let outcomes = repository.delete_archive(&"plain".to_string(), &existing, &plain).unwrap();
    assert!(outcomes.is_empty());
    assert_eq!(repository.save().unwrap(), before);
    assert_eq!(repository.chunk_index.storage().len(), 2);
    assert!(repository.restore_archive(&"kept".to_string(), &existing, &kept).is_ok());
}

#[test]
fn a_chunk_that_is_gone_fails_the_restore_with_its_error() {
    let mut repository = Repository::new(16, 0, ChunkStorageMemory::new());
    let archive = repository
        .create_archive(
            &"a".to_string(),
            &[],
            &[walked_symlink(&[], "l", "t"), walked_file(&[], "f", vec![7; 20])],
        )
        .unwrap();
    let existing = names(&["a"]);
    repository.delete_archive(&"a".to_string(), &existing, &archive).unwrap();
    assert_eq!(
        repository.restore_archive(&"a".to_string(), &existing, &archive).err(),
        Some(RepositoryError::Chunk(ChunkError::NotFound))
    );
    assert!(repository.recursive_restore_archive(&archive, &archive.entries()[0]).is_ok());
    assert_eq!(repository.clean().unwrap(), Vec::<u64>::new());
}
