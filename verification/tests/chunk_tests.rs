use ddup_bak::archive::CompressionFormat;
use ddup_bak::chunks::file::{decode_index, encode_index, IndexData};
use ddup_bak::chunks::hasher::{RandomizingHasher, RandomizingHasherBuilder};
use ddup_bak::chunks::plan::{chunk_boundaries, plan_chunks};
use ddup_bak::chunks::reader::{decode_chunk_ids, encode_chunk_ids, read_chunks, EntryReader};
use ddup_bak::chunks::storage::{
    path_from_chunk, same_hash, ChunkStorage, ChunkStorageMemory, StorageError,
};
use ddup_bak::chunks::{
    assemble_chunks, chunk_hash, decode_blob, encode_blob, ChunkError, ChunkHash, ChunkIndex,
};
use ddup_bak::compression::compress;
use std::hash::{BuildHasher, Hasher};

const MIB: usize = 1024 * 1024;

fn hex(hash: &ChunkHash) -> String {
    hash.iter().map(|b| format!("{:02x}", b)).collect()
}

#[test]
fn the_digest_is_blake2b_of_32_bytes() {
    assert_eq!(
        hex(&chunk_hash(b"")),
        "0e5751c026e543b2e8ab2eb06099daa1d1e5df47778f7787faab45cdf12fe3a8"
    );
    assert_eq!(
        hex(&chunk_hash(b"abc")),
        "bddd813c634239723171ef3fee98579b94964e3bb1cb3e427262c8c068d52319"
    );
    assert_ne!(chunk_hash(b"a"), chunk_hash(b"b"));
}

#[test]
fn blobs_lie_two_directories_deep() {
    let mut hash: ChunkHash = [0; 32];
    for (i, byte) in hash.iter_mut().enumerate() {
        *byte = (i as u8).wrapping_mul(17).wrapping_add(0xA0);
    }
    let text = hex(&hash);
    assert_eq!(
        path_from_chunk(&hash),
        format!("{}/{}/{}.chunk", &text[0..2], &text[2..4], &text[4..])
    );
    assert_eq!(
        path_from_chunk(&[0u8; 32]),
        format!("00/00/{}.chunk", "0".repeat(60))
    );
    assert_eq!(
        path_from_chunk(&[0xFFu8; 32]),
        format!("ff/ff/{}.chunk", "f".repeat(60))
    );
}

#[test]
fn the_memory_store_is_a_map() {
    let mut store = ChunkStorageMemory::new();
    let one = chunk_hash(b"one");
    let two = chunk_hash(b"two");
    assert!(same_hash(&one, &one));
    assert!(!same_hash(&one, &two));
    assert_eq!(store.read_chunk_content(&one), Err(StorageError::NotFound));
    assert_eq!(store.delete_chunk_content(&one), Err(StorageError::NotFound));
    assert_eq!(store.write_chunk_content(&one, vec![1]), Ok(()));
    assert_eq!(store.write_chunk_content(&two, vec![2, 2]), Ok(()));
    assert_eq!(store.read_chunk_content(&one), Ok(vec![1]));
    assert_eq!(store.write_chunk_content(&one, vec![3]), Ok(()));
    assert_eq!(store.read_chunk_content(&one), Ok(vec![3]));
    assert_eq!(store.read_chunk_content(&two), Ok(vec![2, 2]));
    assert_eq!(store.len(), 2);
    assert_eq!(store.delete_chunk_content(&one), Ok(()));
    assert_eq!(store.read_chunk_content(&one), Err(StorageError::NotFound));
    assert_eq!(store.read_chunk_content(&two), Ok(vec![2, 2]));
    assert_eq!(store.len(), 1);
}

#[test]
fn a_blob_is_a_tag_and_the_stored_chunk() {
    let data = vec![b'q'; 2000];
    let plain = encode_blob(CompressionFormat::Uncompressed, &data).unwrap();
    assert_eq!(plain[0], 0);
    assert_eq!(&plain[1..], &data[..]);
    for (format, tag) in [
        (CompressionFormat::Gzip, 1u8),
        (CompressionFormat::Deflate, 2),
        (CompressionFormat::Brotli, 3),
    ] {
        let blob = encode_blob(format, &data).unwrap();
        assert_eq!(blob[0], tag);
        assert!(blob.len() < data.len());
        assert_eq!(decode_blob(&blob), Ok(data.clone()));
    }
    assert_eq!(decode_blob(&plain), Ok(data));
    assert_eq!(decode_blob(&[]), Err(ChunkError::UnexpectedEof));
    assert_eq!(decode_blob(&[4, 1, 2]), Err(ChunkError::InvalidData));
    assert_eq!(decode_blob(&[2, 0xFF, 0xFF, 0xFF]), Err(ChunkError::InvalidData));
    assert_eq!(decode_blob(&[0]), Ok(Vec::new()));
}

#[test]
fn the_plan_halves_the_count_and_doubles_the_size() {
    assert_eq!(plan_chunks(0, 100, 0), (0, 100));
    assert_eq!(plan_chunks(1, 100, 0), (1, 100));
    assert_eq!(plan_chunks(100, 100, 0), (1, 100));
    assert_eq!(plan_chunks(101, 100, 0), (2, 100));
    assert_eq!(plan_chunks(1000, 100, 0), (10, 100));
    assert_eq!(plan_chunks(1000, 100, 10), (10, 100));
    assert_eq!(plan_chunks(1000, 100, 9), (5, 200));
    assert_eq!(plan_chunks(1000, 100, 3), (3, 400));
    assert_eq!(plan_chunks(1000, 100, 1), (1, 1600));
    assert_eq!(plan_chunks(1001, 100, 4), (3, 400));
    assert_eq!(plan_chunks(9, 4, 2), (2, 8));
    assert_eq!(plan_chunks(3 * MIB, MIB, 0), (3, MIB));
    assert_eq!(plan_chunks(usize::MAX, 1, 0), (usize::MAX, 1));
}

#[test]
fn the_boundaries_cover_the_file() {
    assert_eq!(chunk_boundaries(0, 100, 0), Vec::new());
    assert_eq!(chunk_boundaries(250, 100, 3), vec![(0, 0, 100), (1, 100, 200), (2, 200, 250)]);
    assert_eq!(chunk_boundaries(300, 100, 3), vec![(0, 0, 100), (1, 100, 200), (2, 200, 300)]);
    assert_eq!(chunk_boundaries(1000, 400, 2), vec![(0, 0, 400), (1, 400, 1000)]);
    assert_eq!(chunk_boundaries(50, 100, 1), vec![(0, 0, 50)]);
    assert_eq!(
        chunk_boundaries(usize::MAX, usize::MAX, 2),
        vec![(0, 0, usize::MAX), (1, usize::MAX, usize::MAX)]
    );
}

#[test]
fn results_are_put_in_the_order_of_the_file() {
    let h = |n: u8| [n; 32];
    let results = vec![(2, 30, h(3)), (0, 10, h(1)), (1, 20, h(2))];
    assert_eq!(
        assemble_chunks(&results, 3),
        Some((vec![10, 20, 30], vec![h(1), h(2), h(3)]))
    );
    assert_eq!(assemble_chunks(&results, 2), None);
    assert_eq!(assemble_chunks(&results, 4), None);
    let missing = vec![(2, 30, h(3)), (0, 10, h(1)), (0, 20, h(2))];
    assert_eq!(assemble_chunks(&missing, 3), None);
    assert_eq!(assemble_chunks(&[], 0), Some((Vec::new(), Vec::new())));
}

#[test]
fn empty_files_produce_zero_chunks() {
    let mut index = ChunkIndex::new(1024, 0, ChunkStorageMemory::new());
    assert_eq!(index.chunk_file(&[], CompressionFormat::Deflate), Ok(Vec::new()));
    assert_eq!(index.storage().len(), 0);
    assert_eq!(encode_chunk_ids(&[]), vec![0]);
    assert_eq!(decode_chunk_ids(vec![0]), Vec::<u64>::new());
    assert_eq!(decode_chunk_ids(Vec::new()), Vec::<u64>::new());
}

#[test]
fn a_multiple_of_the_chunk_size_gives_that_many_chunks() {
    let mut index = ChunkIndex::new(1000, 0, ChunkStorageMemory::new());
    let data: Vec<u8> = (0..7000u32).map(|i| (i / 1000) as u8).collect();
    let ids = index.chunk_file(&data, CompressionFormat::Uncompressed).unwrap();
    assert_eq!(ids, vec![1, 2, 3, 4, 5, 6, 7]);
    assert_eq!(index.storage().len(), 7);
    let mut longer = data.clone();
    longer.push(9);
    let mut other = ChunkIndex::new(1000, 0, ChunkStorageMemory::new());
    assert_eq!(other.chunk_file(&longer, CompressionFormat::Uncompressed).unwrap().len(), 8);
}

#[test]
fn chunks_read_back_as_the_file() {
    for format in [
        CompressionFormat::Uncompressed,
        CompressionFormat::Gzip,
        CompressionFormat::Deflate,
        CompressionFormat::Brotli,
    ] {
        let mut index = ChunkIndex::new(300, 0, ChunkStorageMemory::new());
        let data: Vec<u8> = (0..1000u32).map(|i| (i * 7 % 251) as u8).collect();
        let ids = index.chunk_file(&data, format).unwrap();
        assert_eq!(ids.len(), 4);
        let mut joined = Vec::new();
        for id in &ids {
            joined.extend(index.read_chunk_id_content(*id).unwrap());
        }
        assert_eq!(joined, data);
        assert_eq!(read_chunks(&index, &ids), Ok(data.clone()));
        assert_eq!(index.read_chunk_id_content(ids[3]).unwrap().len(), 100);
    }
}

#[test]
fn idempotent_chunking() {
    let mut index = ChunkIndex::new(256, 0, ChunkStorageMemory::new());
    let data: Vec<u8> = (0..2000u32).map(|i| (i % 256) as u8 ^ (i / 256) as u8).collect();
    let first = index.chunk_file(&data, CompressionFormat::Deflate).unwrap();
    let blobs = index.storage().len();
    let saved = index.save().unwrap();
    let second = index.chunk_file(&data, CompressionFormat::Deflate).unwrap();
    assert_eq!(first, second);
    assert_eq!(index.storage().len(), blobs);
    for id in &first {
        assert!(index.read_chunk_id_content(*id).is_ok());
    }
    let reopened = ChunkIndex::open(&saved, ChunkStorageMemory::new()).unwrap();
    let now = ChunkIndex::open(&index.save().unwrap(), ChunkStorageMemory::new()).unwrap();
    for id in &first {
        let hash = chunk_hash(&index.read_chunk_id_content(*id).unwrap());
        assert_eq!(reopened.get_chunk_id(&hash), Some(*id));
        assert_eq!(now.references(&hash), 2 * reopened.references(&hash));
    }
}

#[test]
fn deduplication_across_two_files() {
    let mut index = ChunkIndex::new(MIB, 0, ChunkStorageMemory::new());
    let a = vec![0x41u8; 3 * MIB];
    let mut b = a.clone();
    b.extend(vec![0x42u8; MIB]);
    let first = index.chunk_file(&a, CompressionFormat::Deflate).unwrap();
    assert_eq!(first, vec![1, 1, 1]);
    let second = index.chunk_file(&b, CompressionFormat::Deflate).unwrap();
    assert_eq!(second, vec![1, 1, 1, 2]);
    assert_eq!(index.storage().len(), 2);
    let all_a = chunk_hash(&vec![0x41u8; MIB]);
    let all_b = chunk_hash(&vec![0x42u8; MIB]);
    assert_eq!(index.references(&all_a), 6);
    assert_eq!(index.references(&all_b), 1);
    assert_eq!(index.get_chunk_id(&all_a), Some(1));
    assert_eq!(index.get_chunk_id(&all_b), Some(2));

    // giving up the references of the first file reclaims nothing
    let outcomes = index.dereference_chunks(&first);
    assert_eq!(outcomes, vec![(1, false), (1, false), (1, false)]);
    assert_eq!(index.references(&all_a), 3);
    assert_eq!(index.references(&all_b), 1);
    assert_eq!(index.storage().len(), 2);
}

#[test]
fn dereferencing_counts_down_and_reclaims() {
    let mut index = ChunkIndex::new(4, 0, ChunkStorageMemory::new());
    let ids = index.chunk_file(b"aaaabbbbaaaa", CompressionFormat::Uncompressed).unwrap();
    assert_eq!(ids, vec![1, 2, 1]);
    assert_eq!(index.dereference_chunk_id(77, true), None);
    assert_eq!(index.dereference_chunk_id(1, true), Some(false));
    assert_eq!(index.references(&chunk_hash(b"aaaa")), 1);
    assert_eq!(index.dereference_chunk_id(1, true), Some(true));
    assert_eq!(index.references(&chunk_hash(b"aaaa")), 0);
    assert_eq!(index.get_chunk_id(&chunk_hash(b"aaaa")), None);
    assert_eq!(index.read_chunk_id_content(1), Err(ChunkError::NotFound));
    assert_eq!(index.storage().len(), 1);
    assert_eq!(index.dereference_chunk_id(1, true), None);
    // without cleaning the chunk stays, without references
    assert_eq!(index.dereference_chunk_id(2, false), Some(false));
    assert_eq!(index.references(&chunk_hash(b"bbbb")), 0);
    assert_eq!(index.get_chunk_id(&chunk_hash(b"bbbb")), Some(2));
    assert_eq!(index.dereference_chunk_id(2, false), Some(false));
    assert_eq!(index.storage().len(), 1);
    // the identifier that was given back is handed out again
    let again = index.chunk_file(b"cccc", CompressionFormat::Uncompressed).unwrap();
    assert_eq!(again, vec![1]);
    assert_eq!(index.next_id(), Some(3));
    assert_eq!(index.next_id(), Some(4));
}

#[test]
fn clean_sweeps_what_has_no_references() {
    let mut index = ChunkIndex::new(4, 0, ChunkStorageMemory::new());
    let ids = index.chunk_file(b"aaaabbbbccccdddd", CompressionFormat::Gzip).unwrap();
    assert_eq!(ids, vec![1, 2, 3, 4]);
    assert_eq!(index.dereference_chunk_id(2, false), Some(false));
    assert_eq!(index.dereference_chunk_id(4, false), Some(false));
    assert_eq!(index.storage().len(), 4);
    let mut removed = index.clean().unwrap();
    removed.sort();
    assert_eq!(removed, vec![2, 4]);
    assert_eq!(index.storage().len(), 2);
    assert_eq!(index.get_chunk_id(&chunk_hash(b"bbbb")), None);
    assert_eq!(index.get_chunk_id(&chunk_hash(b"dddd")), None);
    assert_eq!(index.references(&chunk_hash(b"aaaa")), 1);
    assert_eq!(index.read_chunk_id_content(3), Ok(b"cccc".to_vec()));
    assert_eq!(
        index.storage().read_chunk_content(&chunk_hash(b"bbbb")),
        Err(StorageError::NotFound)
    );
    assert_eq!(index.clean(), Ok(Vec::new()));
    let mut next = vec![index.next_id().unwrap(), index.next_id().unwrap()];
    next.sort();
    assert_eq!(next, vec![2, 4]);
    assert_eq!(index.next_id(), Some(5));
}

#[test]
fn add_chunk_stores_once_what_is_referenced() {
    let mut index = ChunkIndex::new(10, 0, ChunkStorageMemory::new());
    let hash = chunk_hash(b"data");
    assert_eq!(index.add_chunk(&hash, b"data", CompressionFormat::Uncompressed), Ok(1));
    assert_eq!(index.references(&hash), 0);
    assert_eq!(index.get_chunk_id(&hash), Some(1));
    assert_eq!(index.storage().read_chunk_content(&hash), Ok(vec![0, b'd', b'a', b't', b'a']));
    // not referenced yet: stored again, under the compression that is asked for now
    assert_eq!(index.add_chunk(&hash, b"data", CompressionFormat::Deflate), Ok(1));
    assert_eq!(index.storage().read_chunk_content(&hash).unwrap()[0], 2);
    index.reference_chunks(&[1], &[hash]);
    assert_eq!(index.references(&hash), 1);
    assert_eq!(index.add_chunk(&hash, b"data", CompressionFormat::Uncompressed), Ok(1));
    assert_eq!(index.storage().read_chunk_content(&hash).unwrap()[0], 2);
    assert_eq!(index.read_chunk_id_content(1), Ok(b"data".to_vec()));
    assert_eq!(index.chunk_size(), 10);
    assert_eq!(index.max_chunk_count(), 0);
}

#[test]
fn a_chunk_size_of_zero_cuts_nothing() {
    let mut index = ChunkIndex::new(0, 0, ChunkStorageMemory::new());
    assert_eq!(
        index.chunk_file(b"abc", CompressionFormat::Uncompressed),
        Err(ChunkError::InvalidChunkSize)
    );
}

#[test]
fn the_limit_on_the_number_of_chunks_is_kept() {
    let mut index = ChunkIndex::new(100, 3, ChunkStorageMemory::new());
    let data: Vec<u8> = (0..1000u32).map(|i| (i % 250) as u8).collect();
    let ids = index.chunk_file(&data, CompressionFormat::Uncompressed).unwrap();
    assert_eq!(ids.len(), 3);
    assert_eq!(index.read_chunk_id_content(ids[0]).unwrap(), data[..400].to_vec());
    assert_eq!(index.read_chunk_id_content(ids[1]).unwrap(), data[400..800].to_vec());
    assert_eq!(index.read_chunk_id_content(ids[2]).unwrap(), data[800..].to_vec());
}

#[test]
fn chunks_have_the_doubled_size_and_the_last_takes_what_is_left() {
    let mut index = ChunkIndex::new(4, 2, ChunkStorageMemory::new());
    let ids = index.chunk_file(b"abcdefghi", CompressionFormat::Uncompressed).unwrap();
    assert_eq!(ids, vec![1, 2]);
    assert_eq!(index.read_chunk_id_content(1), Ok(b"abcdefgh".to_vec()));
    assert_eq!(index.read_chunk_id_content(2), Ok(b"i".to_vec()));
}

#[test]
fn the_index_file_has_the_documented_layout() {
    let data = IndexData {
        deleted: vec![5, 300],
        chunk_size: 1024,
        max_chunk_count: 7,
        next_id: 9,
        entries: vec![(1, [0xAA; 32], 3), (200, [0xBB; 32], 0)],
    };
    let bytes = encode_index(&data);
    let mut expected = Vec::new();
    expected.extend_from_slice(&2u64.to_le_bytes());
    expected.extend_from_slice(&1024u32.to_le_bytes());
    expected.extend_from_slice(&7u32.to_le_bytes());
    expected.extend_from_slice(&2u64.to_le_bytes());
    expected.extend_from_slice(&9u64.to_le_bytes());
    expected.extend_from_slice(&[5, 0xAC, 0x02]);
    expected.extend_from_slice(&[0xAA; 32]);
    expected.extend_from_slice(&[1, 3]);
    expected.extend_from_slice(&[0xBB; 32]);
    expected.extend_from_slice(&[0xC8, 0x01, 0]);
    assert_eq!(bytes, expected);
    assert_eq!(decode_index(bytes.clone()), Ok(data));
    assert_eq!(decode_index(bytes[..31].to_vec()), Err(ChunkError::UnexpectedEof));
    assert_eq!(decode_index(bytes[..33].to_vec()), Err(ChunkError::UnexpectedEof));
    assert_eq!(decode_index(bytes[..40].to_vec()), Err(ChunkError::UnexpectedEof));
    let mut trailing = bytes;
    trailing.extend_from_slice(&[1, 2, 3]);
    assert!(decode_index(trailing).is_ok());
}

#[test]
fn an_index_survives_saving_and_opening() {
    let mut index = ChunkIndex::new(8, 5, ChunkStorageMemory::new());
    let ids = index.chunk_file(b"0123456789abcdefghij", CompressionFormat::Deflate).unwrap();
    assert_eq!(ids, vec![1, 2, 3]);
    index.chunk_file(b"01234567", CompressionFormat::Deflate).unwrap();
    assert_eq!(index.dereference_chunk_id(3, true), Some(true));
    let saved = index.save().unwrap();
    let mut reopened = ChunkIndex::open(&saved, ChunkStorageMemory::new()).unwrap();
    assert_eq!(reopened.chunk_size(), 8);
    assert_eq!(reopened.max_chunk_count(), 5);
    assert_eq!(reopened.references(&chunk_hash(b"01234567")), 2);
    assert_eq!(reopened.references(&chunk_hash(b"89abcdef")), 1);
    assert_eq!(reopened.references(&chunk_hash(b"ghij")), 0);
    assert_eq!(reopened.get_chunk_id(&chunk_hash(b"89abcdef")), Some(2));
    assert_eq!(reopened.get_chunk_id(&chunk_hash(b"ghij")), None);
    assert_eq!(reopened.next_id(), Some(3));
    assert_eq!(reopened.next_id(), Some(4));
    assert!(matches!(
        ChunkIndex::open(b"no index", ChunkStorageMemory::new()),
        Err(ChunkError::InvalidData)
    ));
    assert!(matches!(
        ChunkIndex::open_with(Some(vec![0; 10]), ChunkStorageMemory::new()),
        Err(ChunkError::UnexpectedEof)
    ));
    let too_big = ChunkIndex::new(usize::MAX, 0, ChunkStorageMemory::new());
    assert_eq!(too_big.save(), Err(ChunkError::InvalidChunkSize));
}

#[test]
fn chunk_identifiers_are_listed_up_to_the_zero() {
    assert_eq!(encode_chunk_ids(&[1, 300, 2]), vec![1, 0xAC, 0x02, 2, 0]);
    assert_eq!(decode_chunk_ids(vec![1, 0xAC, 0x02, 2, 0]), vec![1, 300, 2]);
    assert_eq!(decode_chunk_ids(vec![1, 0xAC, 0x02, 2]), vec![1, 300, 2]);
    assert_eq!(decode_chunk_ids(vec![1, 0, 2]), vec![1]);
    assert_eq!(decode_chunk_ids(vec![1, 0x80]), vec![1]);
}

#[test]
fn the_entry_reader_hands_out_the_content_piece_by_piece() {
    let mut index = ChunkIndex::new(10, 0, ChunkStorageMemory::new());
    let data: Vec<u8> = (0..95u8).collect();
    let ids = index.chunk_file(&data, CompressionFormat::Gzip).unwrap();
    let mut reader = EntryReader::new(encode_chunk_ids(&ids));
    let mut out = Vec::new();
    assert_eq!(reader.read(&index, &mut out, 0), Ok(0));
    assert_eq!(reader.read(&index, &mut out, 7), Ok(7));
    assert_eq!(out, data[..7].to_vec());
    assert_eq!(reader.read(&index, &mut out, 30), Ok(30));
    assert_eq!(out, data[..37].to_vec());
    assert_eq!(reader.read(&index, &mut out, 1000), Ok(58));
    assert_eq!(out, data);
    assert_eq!(reader.read(&index, &mut out, 1000), Ok(0));
    assert_eq!(out, data);

    let mut missing = EntryReader::new(encode_chunk_ids(&[ids[0], 999]));
    let mut out = Vec::new();
    assert_eq!(missing.read(&index, &mut out, 5), Ok(5));
    assert_eq!(missing.read(&index, &mut out, 50), Err(ChunkError::NotFound));
    assert_eq!(read_chunks(&index, &[ids[0], 999]), Err(ChunkError::NotFound));
}

#[test]
fn the_hasher_mixes_keys_of_eight_and_of_32_bytes() {
    let builder = RandomizingHasherBuilder;
    let plain = |bytes: &[u8]| {
        let mut hasher = std::collections::hash_map::DefaultHasher::new();
        hasher.write(bytes);
        hasher.finish()
    };
    let mixed = |bytes: &[u8]| {
        let mut hasher: RandomizingHasher = builder.build_hasher();
        hasher.write(bytes);
        hasher.finish()
    };
    let id = 42u64.to_le_bytes();
    let scrambled = 42u64.wrapping_mul(0x9E3779B97F4A7C15).to_le_bytes();
    assert_eq!(mixed(&id), plain(&scrambled));
    assert_ne!(mixed(&id), plain(&id));
    let key: Vec<u8> = (0..32u8).collect();
    let permuted: Vec<u8> = (0..32usize).map(|i| key[(i * 13) % 32]).collect();
    assert_eq!(mixed(&key), plain(&permuted));
    assert_eq!(mixed(b"other"), plain(b"other"));
    assert_eq!(mixed(&key), mixed(&key));
}

/// A store that keeps blobs in memory and fails when it is told to.
struct FaultyStorage {
    inner: ChunkStorageMemory,
    fail_writes: bool,
    fail_deletes: bool,
}

impl ChunkStorage for FaultyStorage {
    fn read_chunk_content(&self, chunk: &ChunkHash) -> Result<Vec<u8>, StorageError> {
        self.inner.read_chunk_content(chunk)
    }

    fn write_chunk_content(&mut self, chunk: &ChunkHash, content: Vec<u8>) -> Result<(), StorageError> {
        if self.fail_writes {
            Err(StorageError::Failed)
        } else {
            self.inner.write_chunk_content(chunk, content)
        }
    }

    fn delete_chunk_content(&mut self, chunk: &ChunkHash) -> Result<(), StorageError> {
        if self.fail_deletes {
            Err(StorageError::Failed)
        } else {
            self.inner.delete_chunk_content(chunk)
        }
    }
}

#[test]
fn a_store_that_fails_to_write_fails_the_chunking() {
    let storage = FaultyStorage {
        inner: ChunkStorageMemory::new(),
        fail_writes: true,
        fail_deletes: false,
    };
    let mut index = ChunkIndex::new(4, 0, storage);
    assert_eq!(
        index.chunk_file(b"aaaabbbb", CompressionFormat::Uncompressed),
        Err(ChunkError::Storage(StorageError::Failed))
    );
    // no reference was counted, but the digest is known
    assert_eq!(index.references(&chunk_hash(b"aaaa")), 0);
    assert_eq!(index.get_chunk_id(&chunk_hash(b"aaaa")), Some(1));
    assert_eq!(index.get_chunk_id(&chunk_hash(b"bbbb")), None);
    assert_eq!(
        index.add_chunk(&chunk_hash(b"cccc"), b"cccc", CompressionFormat::Gzip),
        Err(ChunkError::Storage(StorageError::Failed))
    );
    assert_eq!(
        index.read_chunk_id_content(1),
        Err(ChunkError::NotFound)
    );
}

#[test]
fn a_store_that_fails_to_delete_keeps_the_identifier_back() {
    let storage = FaultyStorage {
        inner: ChunkStorageMemory::new(),
        fail_writes: false,
        fail_deletes: true,
    };
    let mut index = ChunkIndex::new(4, 0, storage);
    assert_eq!(index.chunk_file(b"aaaabbbb", CompressionFormat::Uncompressed), Ok(vec![1, 2]));
    // the chunk is taken out of the index, but its identifier is not given back
    assert_eq!(index.dereference_chunk_id(1, true), None);
    assert_eq!(index.get_chunk_id(&chunk_hash(b"aaaa")), None);
    assert_eq!(index.dereference_chunk_id(2, false), Some(false));
    assert_eq!(index.clean(), Err(ChunkError::Storage(StorageError::Failed)));
    assert_eq!(index.get_chunk_id(&chunk_hash(b"bbbb")), Some(2));
    assert_eq!(index.next_id(), Some(3));
    assert_eq!(
        index.storage().read_chunk_content(&chunk_hash(b"aaaa")),
        Ok(vec![0, b'a', b'a', b'a', b'a'])
    );
}

#[test]
fn an_index_without_identifiers_left_adds_no_chunk() {
    let data = IndexData {
        deleted: vec![7],
        chunk_size: 4,
        max_chunk_count: 0,
        next_id: u64::MAX,
        entries: Vec::new(),
    };
    let file = compress(CompressionFormat::Deflate, &encode_index(&data)).unwrap();
    let mut index = ChunkIndex::open(&file, ChunkStorageMemory::new()).unwrap();
    assert_eq!(
        index.chunk_file(b"aaaabbbb", CompressionFormat::Uncompressed),
        Err(ChunkError::Exhausted)
    );
    // the one identifier that was given back went to the first chunk
    assert_eq!(index.get_chunk_id(&chunk_hash(b"aaaa")), Some(7));
    assert_eq!(index.references(&chunk_hash(b"aaaa")), 0);
    assert_eq!(index.next_id(), None);
    assert_eq!(
        index.add_chunk(&chunk_hash(b"aaaa"), b"aaaa", CompressionFormat::Uncompressed),
        Ok(7)
    );
}

#[test]
fn a_blob_that_is_gone_is_not_found_in_the_store() {
    let mut index = ChunkIndex::new(4, 0, ChunkStorageMemory::new());
    let saved = {
        index.chunk_file(b"aaaa", CompressionFormat::Uncompressed).unwrap();
        index.save().unwrap()
    };
    let reopened = ChunkIndex::open(&saved, ChunkStorageMemory::new()).unwrap();
    assert_eq!(
        reopened.read_chunk_id_content(1),
        Err(ChunkError::Storage(StorageError::NotFound))
    );
    assert_eq!(index.read_chunk_id_content(1), Ok(b"aaaa".to_vec()));
}

#[test]
fn chunks_of_a_given_size_and_number_are_stored_in_the_order_of_the_data() {
    let mut index = ChunkIndex::new(1000, 0, ChunkStorageMemory::new());
    let data: Vec<u8> = (0..250u32).map(|i| (i / 100) as u8).collect();
    let ids = index.chunk_file_parallel(&data, CompressionFormat::Gzip, 100, 3).unwrap();
    assert_eq!(ids, vec![1, 2, 3]);
    assert_eq!(index.read_chunk_id_content(1), Ok(vec![0u8; 100]));
    assert_eq!(index.read_chunk_id_content(2), Ok(vec![1u8; 100]));
    assert_eq!(index.read_chunk_id_content(3), Ok(vec![2u8; 50]));
    assert_eq!(index.references(&chunk_hash(&vec![2u8; 50])), 1);

    // the last of the chunks takes what is left
    let ids = index.chunk_file_parallel(&data, CompressionFormat::Gzip, 100, 2).unwrap();
    assert_eq!(ids, vec![1, 4]);
    assert_eq!(index.read_chunk_id_content(4).unwrap(), data[100..].to_vec());

    // no chunk, nothing stored
    let blobs = index.storage().len();
    assert_eq!(index.chunk_file_parallel(&data, CompressionFormat::Gzip, 100, 0), Ok(Vec::new()));
    assert_eq!(index.storage().len(), blobs);
}

#[test]
fn chunking_by_the_plan_is_chunking_by_its_size_and_number() {
    let data: Vec<u8> = (0..5000u32).map(|i| (i % 251) as u8).collect();
    let mut planned = ChunkIndex::new(512, 4, ChunkStorageMemory::new());
    let mut given = ChunkIndex::new(512, 4, ChunkStorageMemory::new());
    let (count, size) = plan_chunks(data.len(), 512, 4);
    assert_eq!((count, size), (3, 2048));
    let one = planned.chunk_file(&data, CompressionFormat::Brotli).unwrap();
    let other = given.chunk_file_parallel(&data, CompressionFormat::Brotli, size, count).unwrap();
    assert_eq!(one, other);
    assert_eq!(planned.save(), given.save());
    assert_eq!(read_chunks(&given, &other), Ok(data));
}

#[test]
fn the_memory_store_counts_each_digest_once() {
    let mut store = ChunkStorageMemory::new();
    assert_eq!(store.len(), 0);
    let one = chunk_hash(b"one");
    assert_eq!(store.write_chunk_content(&one, vec![1]), Ok(()));
    assert_eq!(store.len(), 1);
    assert_eq!(store.write_chunk_content(&one, vec![1, 1]), Ok(()));
    assert_eq!(store.len(), 1);
    assert_eq!(store.delete_chunk_content(&chunk_hash(b"two")), Err(StorageError::NotFound));
    assert_eq!(store.len(), 1);
    assert_eq!(store.read_chunk_content(&one), Ok(vec![1, 1]));
    assert_eq!(store.delete_chunk_content(&one), Ok(()));
    assert_eq!(store.len(), 0);
}

#[test]
fn reading_no_chunk_or_an_unknown_first_chunk_asks_nothing_of_the_store() {
    let storage = FaultyStorage {
        inner: ChunkStorageMemory::new(),
        fail_writes: true,
        fail_deletes: true,
    };
    let index = ChunkIndex::new(10, 0, storage);
    assert_eq!(read_chunks(&index, &[]), Ok(Vec::new()));
    assert_eq!(read_chunks(&index, &[7, 8]), Err(ChunkError::NotFound));
    let mut reader = EntryReader::new(encode_chunk_ids(&[]));
    let mut out = vec![9u8];
    assert_eq!(reader.read(&index, &mut out, 100), Ok(0));
    assert_eq!(out, vec![9u8]);
}

#[test]
fn a_read_that_fails_keeps_what_was_handed_out() {
    let mut index = ChunkIndex::new(10, 0, ChunkStorageMemory::new());
    let data: Vec<u8> = (0..10u8).collect();
    let ids = index.chunk_file(&data, CompressionFormat::Deflate).unwrap();
    let mut reader = EntryReader::new(encode_chunk_ids(&[ids[0], 999]));
    let mut out = vec![0xFFu8];
    assert_eq!(reader.read(&index, &mut out, 4), Ok(4));
    // six bytes are buffered: asking for no more than those needs no chunk
    assert_eq!(reader.read(&index, &mut out, 6), Ok(6));
    assert_eq!(out[1..].to_vec(), data);
    assert_eq!(reader.read(&index, &mut out, 1), Err(ChunkError::NotFound));
    assert_eq!(out[1..].to_vec(), data);
}
