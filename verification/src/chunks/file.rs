//! The chunk index as a file: a header of 32 bytes, the identifiers that
//! were given back, and one record for every chunk.

use super::{ChunkError, ChunkHash};
use crate::stream::ByteReader;
use crate::varint::{
    decode_u64, encode_u64, lemma_decode_encode, varint_bytes, varint_len, varint_value,
};
use vstd::bytes::{
    spec_u32_from_le_bytes, spec_u32_to_le_bytes, spec_u64_from_le_bytes, spec_u64_to_le_bytes,
    u32_from_le_bytes, u32_to_le_bytes, u64_from_le_bytes, u64_to_le_bytes,
};
use vstd::prelude::*;

verus! {

/// The length of the header.
pub const INDEX_HEADER_LENGTH: usize = 32;

/// What an index file holds.
pub struct IndexFile {
    pub deleted: Seq<u64>,
    pub chunk_size: u32,
    pub max_chunk_count: u32,
    pub next_id: u64,
    /// For every chunk its identifier, its digest and the number of
    /// references to it.
    pub entries: Seq<(u64, Seq<u8>, u64)>,
}

/// The varints of `ids`, one after the other.
pub open spec fn ids_bytes(ids: Seq<u64>) -> Seq<u8>
    decreases ids.len(),
{
    if ids.len() == 0 {
        Seq::empty()
    } else {
        varint_bytes(ids[0] as nat) + ids_bytes(ids.skip(1))
    }
}

/// The record of a chunk: its digest, then identifier and number of
/// references as varints.
pub open spec fn record_bytes(entry: (u64, Seq<u8>, u64)) -> Seq<u8> {
    entry.1 + varint_bytes(entry.0 as nat) + varint_bytes(entry.2 as nat)
}

/// The records of `entries`, one after the other.
pub open spec fn records_bytes(entries: Seq<(u64, Seq<u8>, u64)>) -> Seq<u8>
    decreases entries.len(),
{
    if entries.len() == 0 {
        Seq::empty()
    } else {
        record_bytes(entries[0]) + records_bytes(entries.skip(1))
    }
}

/// The header of an index file: the number of identifiers that were given
/// back, the size and the largest number of chunks, the number of chunks and
/// the counter, all in little-endian order.
pub open spec fn header_bytes(file: IndexFile) -> Seq<u8> {
    spec_u64_to_le_bytes(file.deleted.len() as u64) + spec_u32_to_le_bytes(file.chunk_size)
        + spec_u32_to_le_bytes(file.max_chunk_count) + spec_u64_to_le_bytes(
        file.entries.len() as u64,
    ) + spec_u64_to_le_bytes(file.next_id)
}

/// An index file as bytes, before compression.
pub open spec fn index_bytes(file: IndexFile) -> Seq<u8> {
    header_bytes(file) + ids_bytes(file.deleted) + records_bytes(file.entries)
}

/// Reads `count` identifiers from the front of `s`. Each of them takes a
/// byte at least, so data that ends before the last of them ends too early.
pub open spec fn parse_ids(s: Seq<u8>, count: nat) -> Result<(Seq<u64>, Seq<u8>), ChunkError>
    decreases count,
{
    if count == 0 {
        Ok((Seq::empty(), s))
    } else if s.len() == 0 {
        Err(ChunkError::UnexpectedEof)
    } else {
        match parse_ids(s.skip(varint_len(s) as int), (count - 1) as nat) {
            Err(e) => Err(e),
            Ok((ids, rest)) => Ok(
                (seq![(varint_value(s) % 0x1_0000_0000_0000_0000) as u64] + ids, rest),
            ),
        }
    }
}

/// Reads `count` records from the front of `s`. Data that ends in the digest
/// of a record ends too early; a number that the data ends in is the number
/// read so far.
pub open spec fn parse_records(s: Seq<u8>, count: nat) -> Result<
    (Seq<(u64, Seq<u8>, u64)>, Seq<u8>),
    ChunkError,
>
    decreases count,
{
    if count == 0 {
        Ok((Seq::empty(), s))
    } else if s.len() < 32 {
        Err(ChunkError::UnexpectedEof)
    } else {
        let s1 = s.skip(32);
        let s2 = s1.skip(varint_len(s1) as int);
        match parse_records(s2.skip(varint_len(s2) as int), (count - 1) as nat) {
            Err(e) => Err(e),
            Ok((entries, rest)) => Ok(
                (
                    seq![
                        (
                            (varint_value(s1) % 0x1_0000_0000_0000_0000) as u64,
                            s.take(32),
                            (varint_value(s2) % 0x1_0000_0000_0000_0000) as u64,
                        ),
                    ] + entries,
                    rest,
                ),
            ),
        }
    }
}

/// Reads an index file. Bytes that follow the last record are ignored.
pub open spec fn parse_index(s: Seq<u8>) -> Result<IndexFile, ChunkError> {
    if s.len() < INDEX_HEADER_LENGTH {
        Err(ChunkError::UnexpectedEof)
    } else {
        let deleted_count = spec_u64_from_le_bytes(s.subrange(0, 8));
        let chunk_size = spec_u32_from_le_bytes(s.subrange(8, 12));
        let max_chunk_count = spec_u32_from_le_bytes(s.subrange(12, 16));
        let chunk_count = spec_u64_from_le_bytes(s.subrange(16, 24));
        let next_id = spec_u64_from_le_bytes(s.subrange(24, 32));
        match parse_ids(s.skip(32), deleted_count as nat) {
            Err(e) => Err(e),
            Ok((deleted, rest)) => match parse_records(rest, chunk_count as nat) {
                Err(e) => Err(e),
                Ok((entries, _)) => Ok(
                    IndexFile { deleted, chunk_size, max_chunk_count, next_id, entries },
                ),
            },
        }
    }
}

/// The identifiers that were written are the identifiers that are read.
pub proof fn lemma_parse_ids_bytes(ids: Seq<u64>, rest: Seq<u8>)
    ensures
        parse_ids(ids_bytes(ids) + rest, ids.len()) == Ok::<(Seq<u64>, Seq<u8>), ChunkError>(
            (ids, rest),
        ),
    decreases ids.len(),
{
    if ids.len() == 0 {
        assert(ids_bytes(ids) + rest =~= rest);
        assert(ids =~= Seq::<u64>::empty());
    } else {
        let s = ids_bytes(ids) + rest;
        let tail = ids_bytes(ids.skip(1)) + rest;
        assert(s =~= varint_bytes(ids[0] as nat) + tail);
        lemma_decode_encode(ids[0] as nat, tail);
        crate::varint::lemma_encoding_length(ids[0] as nat);
        lemma_parse_ids_bytes(ids.skip(1), rest);
        assert(seq![ids[0]] + ids.skip(1) =~= ids);
    }
}

/// The records that were written are the records that are read.
#[verifier::rlimit(50)]
pub proof fn lemma_parse_records_bytes(entries: Seq<(u64, Seq<u8>, u64)>, rest: Seq<u8>)
    requires
        forall|i: int| 0 <= i < entries.len() ==> (#[trigger] entries[i]).1.len() == 32,
    ensures
        parse_records(records_bytes(entries) + rest, entries.len()) == Ok::<
            (Seq<(u64, Seq<u8>, u64)>, Seq<u8>),
            ChunkError,
        >((entries, rest)),
    decreases entries.len(),
{
    if entries.len() == 0 {
        assert(records_bytes(entries) + rest =~= rest);
        assert(entries =~= Seq::<(u64, Seq<u8>, u64)>::empty());
    } else {
        let first = entries[0];
        let s = records_bytes(entries) + rest;
        let tail = records_bytes(entries.skip(1)) + rest;
        let t2 = varint_bytes(first.2 as nat) + tail;
        let t1 = varint_bytes(first.0 as nat) + t2;
        assert(s =~= first.1 + t1);
        assert(s.take(32) =~= first.1);
        assert(s.skip(32) =~= t1);
        lemma_decode_encode(first.0 as nat, t2);
        lemma_decode_encode(first.2 as nat, tail);
        assert forall|i: int| 0 <= i < entries.skip(1).len() implies (#[trigger] entries.skip(
            1,
        )[i]).1.len() == 32 by {
            assert(entries.skip(1)[i] == entries[i + 1]);
        }
        lemma_parse_records_bytes(entries.skip(1), rest);
        assert(seq![first] + entries.skip(1) =~= entries);
    }
}

/// An index file that was written is read as it was written.
#[verifier::rlimit(50)]
pub proof fn lemma_parse_index_bytes(file: IndexFile)
    requires
        file.deleted.len() <= u64::MAX,
        file.entries.len() <= u64::MAX,
        forall|i: int| 0 <= i < file.entries.len() ==> (#[trigger] file.entries[i]).1.len() == 32,
    ensures
        parse_index(index_bytes(file)) == Ok::<IndexFile, ChunkError>(file),
{
    let s = index_bytes(file);
    let a = spec_u64_to_le_bytes(file.deleted.len() as u64);
    let b = spec_u32_to_le_bytes(file.chunk_size);
    let c = spec_u32_to_le_bytes(file.max_chunk_count);
    let d = spec_u64_to_le_bytes(file.entries.len() as u64);
    let e = spec_u64_to_le_bytes(file.next_id);
    let body = ids_bytes(file.deleted) + records_bytes(file.entries);
    vstd::bytes::lemma_auto_spec_u64_to_from_le_bytes();
    vstd::bytes::lemma_auto_spec_u32_to_from_le_bytes();
    assert(s =~= a + b + c + d + e + body);
    assert(s.subrange(0, 8) =~= a);
    assert(s.subrange(8, 12) =~= b);
    assert(s.subrange(12, 16) =~= c);
    assert(s.subrange(16, 24) =~= d);
    assert(s.subrange(24, 32) =~= e);
    assert(s.skip(32) =~= body);
    lemma_parse_ids_bytes(file.deleted, records_bytes(file.entries));
    assert(records_bytes(file.entries) + Seq::<u8>::empty() =~= records_bytes(file.entries));
    lemma_parse_records_bytes(file.entries, Seq::<u8>::empty());
}

/// The map from identifiers to chunks that a list of records makes; of two
/// records with one identifier the later counts.
pub open spec fn built_chunks(entries: Seq<(u64, Seq<u8>, u64)>) -> Map<u64, (Seq<u8>, u64)>
    decreases entries.len(),
{
    if entries.len() == 0 {
        Map::empty()
    } else {
        built_chunks(entries.drop_last()).insert(
            entries.last().0,
            (entries.last().1, entries.last().2),
        )
    }
}

/// The map from digests to identifiers that a list of records makes; of two
/// records with one digest the later counts.
pub open spec fn built_hashes(entries: Seq<(u64, Seq<u8>, u64)>) -> Map<Seq<u8>, u64>
    decreases entries.len(),
{
    if entries.len() == 0 {
        Map::empty()
    } else {
        built_hashes(entries.drop_last()).insert(entries.last().1, entries.last().0)
    }
}

/// An index file in memory.
#[derive(Debug, PartialEq, Eq)]
pub struct IndexData {
    pub deleted: Vec<u64>,
    pub chunk_size: u32,
    pub max_chunk_count: u32,
    pub next_id: u64,
    pub entries: Vec<(u64, ChunkHash, u64)>,
}

/// The records that a list of chunks makes.
pub open spec fn entry_views(entries: Seq<(u64, ChunkHash, u64)>) -> Seq<(u64, Seq<u8>, u64)> {
    Seq::new(entries.len(), |i: int| (entries[i].0, entries[i].1@, entries[i].2))
}

impl View for IndexData {
    type V = IndexFile;

    open spec fn view(&self) -> IndexFile {
        IndexFile {
            deleted: self.deleted@,
            chunk_size: self.chunk_size,
            max_chunk_count: self.max_chunk_count,
            next_id: self.next_id,
            entries: entry_views(self.entries@),
        }
    }
}

fn append(out: &mut Vec<u8>, bytes: &[u8])
    ensures
        final(out)@ == old(out)@ + bytes@,
{
    let ghost before = out@;
    let mut i: usize = 0;
    while i < bytes.len()
        invariant
            i <= bytes.len(),
            out@ == before + bytes@.take(i as int),
        decreases bytes.len() - i,
    {
        out.push(bytes[i]);
        i = i + 1;
        assert(out@ =~= before + bytes@.take(i as int));
    }
    assert(bytes@.take(bytes.len() as int) =~= bytes@);
}

/// Writes an index file, before compression.
pub fn encode_index(data: &IndexData) -> (bytes: Vec<u8>)
    ensures
        bytes@ == index_bytes(data@),
{
    let mut out: Vec<u8> = Vec::new();
    append(&mut out, u64_to_le_bytes(data.deleted.len() as u64).as_slice());
    append(&mut out, u32_to_le_bytes(data.chunk_size).as_slice());
    append(&mut out, u32_to_le_bytes(data.max_chunk_count).as_slice());
    append(&mut out, u64_to_le_bytes(data.entries.len() as u64).as_slice());
    append(&mut out, u64_to_le_bytes(data.next_id).as_slice());
    assert(out@ =~= header_bytes(data@));
    let ghost ids = data.deleted@;
    let ghost header = out@;
    let mut i: usize = 0;
    assert(ids.skip(0) =~= ids);
    while i < data.deleted.len()
        invariant
            i <= data.deleted@.len(),
            ids == data.deleted@,
            out@ + ids_bytes(ids.skip(i as int)) == header + ids_bytes(ids),
        decreases data.deleted@.len() - i,
    {
        let ghost prior = out@;
        append(&mut out, encode_u64(data.deleted[i]).as_slice());
        proof {
            assert(ids.skip(i as int).skip(1) =~= ids.skip(i + 1));
            assert(out@ + ids_bytes(ids.skip(i + 1)) =~= prior + ids_bytes(ids.skip(i as int)));
        }
        i = i + 1;
    }
    assert(ids_bytes(ids.skip(i as int)) =~= Seq::<u8>::empty());
    assert(out@ =~= header + ids_bytes(ids));
    let ghost entries = entry_views(data.entries@);
    let ghost front = out@;
    let mut j: usize = 0;
    assert(entries.skip(0) =~= entries);
    while j < data.entries.len()
        invariant
            j <= data.entries@.len(),
            entries == entry_views(data.entries@),
            out@ + records_bytes(entries.skip(j as int)) == front + records_bytes(entries),
        decreases data.entries@.len() - j,
    {
        let ghost prior = out@;
        let (id, hash, count) = data.entries[j];
        append(&mut out, hash.as_slice());
        append(&mut out, encode_u64(id).as_slice());
        append(&mut out, encode_u64(count).as_slice());
        proof {
            assert(entries.skip(j as int).skip(1) =~= entries.skip(j + 1));
            assert(entries.skip(j as int)[0] == (id, hash@, count));
            assert(out@ + records_bytes(entries.skip(j + 1)) =~= prior + records_bytes(
                entries.skip(j as int),
            ));
        }
        j = j + 1;
    }
    assert(records_bytes(entries.skip(j as int)) =~= Seq::<u8>::empty());
    assert(out@ =~= index_bytes(data@));
    out
}

/// Reads an index file, after decompression.
#[verifier::rlimit(50)]
pub fn decode_index(bytes: Vec<u8>) -> (result: Result<IndexData, ChunkError>)
    ensures
        match parse_index(bytes@) {
            Ok(file) => result is Ok && result.unwrap()@ == file,
            Err(e) => result is Err && result->Err_0 == e,
        },
{
    if bytes.len() < INDEX_HEADER_LENGTH {
        return Err(ChunkError::UnexpectedEof);
    }
    let ghost s = bytes@;
    let deleted_count = u64_from_le_bytes(vstd::slice::slice_subrange(bytes.as_slice(), 0, 8));
    let chunk_size = u32_from_le_bytes(vstd::slice::slice_subrange(bytes.as_slice(), 8, 12));
    let max_chunk_count = u32_from_le_bytes(vstd::slice::slice_subrange(bytes.as_slice(), 12, 16));
    let chunk_count = u64_from_le_bytes(vstd::slice::slice_subrange(bytes.as_slice(), 16, 24));
    let next_id = u64_from_le_bytes(vstd::slice::slice_subrange(bytes.as_slice(), 24, 32));
    let mut stream = ByteReader::new(bytes);
    match stream.read_exact(32) {
        Some(_) => {},
        None => {
            return Err(ChunkError::UnexpectedEof);
        },
    }
    let ghost body = stream@;
    let ghost expected = parse_index(s);
    proof {
        assert(s.take(32).len() == 32);
        assert(body == s.skip(32));
    }
    let mut deleted: Vec<u64> = Vec::new();
    let mut i: u64 = 0;
    assert(deleted@ + Seq::<u64>::empty() =~= Seq::<u64>::empty());
    while i < deleted_count
        invariant
            i <= deleted_count,
            expected == parse_index(bytes@),
            expected == match parse_ids(body, deleted_count as nat) {
                Err(e) => Err::<IndexFile, ChunkError>(e),
                Ok((ids, rest)) => match parse_records(rest, chunk_count as nat) {
                    Err(e) => Err::<IndexFile, ChunkError>(e),
                    Ok((records, _)) => Ok::<IndexFile, ChunkError>(
                        IndexFile {
                            deleted: ids,
                            chunk_size,
                            max_chunk_count,
                            next_id,
                            entries: records,
                        },
                    ),
                },
            },
            match parse_ids(stream@, (deleted_count - i) as nat) {
                Ok((more, rest)) => parse_ids(body, deleted_count as nat) == Ok::<
                    (Seq<u64>, Seq<u8>),
                    ChunkError,
                >((deleted@ + more, rest)),
                Err(e) => parse_ids(body, deleted_count as nat) == Err::<
                    (Seq<u64>, Seq<u8>),
                    ChunkError,
                >(e),
            },
        decreases deleted_count - i,
    {
        if stream.remaining() == 0 {
            return Err(ChunkError::UnexpectedEof);
        }
        let ghost before = deleted@;
        let id = decode_u64(&mut stream);
        deleted.push(id);
        i = i + 1;
        proof {
            let tail = parse_ids(stream@, (deleted_count - i) as nat);
            if tail is Ok {
                assert(deleted@ + tail.unwrap().0 =~= before + (seq![id] + tail.unwrap().0));
            }
        }
    }
    assert(deleted@ + Seq::<u64>::empty() =~= deleted@);
    let ghost records = stream@;
    let mut entries: Vec<(u64, ChunkHash, u64)> = Vec::new();
    let mut j: u64 = 0;
    assert(entry_views(entries@) + Seq::<(u64, Seq<u8>, u64)>::empty() =~= Seq::<
        (u64, Seq<u8>, u64),
    >::empty());
    while j < chunk_count
        invariant
            j <= chunk_count,
            expected == parse_index(bytes@),
            expected == match parse_records(records, chunk_count as nat) {
                Err(e) => Err::<IndexFile, ChunkError>(e),
                Ok((all, _)) => Ok::<IndexFile, ChunkError>(
                    IndexFile {
                        deleted: deleted@,
                        chunk_size,
                        max_chunk_count,
                        next_id,
                        entries: all,
                    },
                ),
            },
            match parse_records(stream@, (chunk_count - j) as nat) {
                Ok((more, rest)) => parse_records(records, chunk_count as nat) == Ok::<
                    (Seq<(u64, Seq<u8>, u64)>, Seq<u8>),
                    ChunkError,
                >((entry_views(entries@) + more, rest)),
                Err(e) => parse_records(records, chunk_count as nat) == Err::<
                    (Seq<(u64, Seq<u8>, u64)>, Seq<u8>),
                    ChunkError,
                >(e),
            },
        decreases chunk_count - j,
    {
        let ghost before = entries@;
        let digest = match stream.read_exact(32) {
            Some(digest) => digest,
            None => {
                return Err(ChunkError::UnexpectedEof);
            },
        };
        let mut hash: ChunkHash = [0;32];
        let mut k: usize = 0;
        while k < 32
            invariant
                k <= 32,
                digest@.len() == 32,
                forall|m: int| 0 <= m < k ==> hash@[m] == digest@[m],
            decreases 32 - k,
        {
            hash[k] = digest[k];
            k = k + 1;
        }
        assert(hash@ =~= digest@);
        let id = decode_u64(&mut stream);
        let count = decode_u64(&mut stream);
        entries.push((id, hash, count));
        j = j + 1;
        proof {
            let tail = parse_records(stream@, (chunk_count - j) as nat);
            if tail is Ok {
                assert(entry_views(entries@) + tail.unwrap().0 =~= entry_views(before) + (seq![
                    (id, hash@, count),
                ] + tail.unwrap().0));
            }
        }
    }
    assert(entry_views(entries@) + Seq::<(u64, Seq<u8>, u64)>::empty() =~= entry_views(entries@));
    Ok(IndexData { deleted, chunk_size, max_chunk_count, next_id, entries })
}

} // verus!
