//! Reading the content of a file back out of its chunks.

use super::storage::ChunkStorage;
use super::{blob_content, ChunkError, ChunkIndex, ChunkIndexView};
use crate::stream::ByteReader;
use crate::varint::{
    decode_u64, encode_u64, lemma_decode_encode, lemma_encoding_length, lemma_varint_len_bound,
    varint_bytes, varint_len, varint_value,
};
use vstd::prelude::*;

verus! {

/// The identifier that the varint at the front of `stream` spells.
pub open spec fn front_id(stream: Seq<u8>) -> u64 {
    (varint_value(stream) % 0x1_0000_0000_0000_0000) as u64
}

/// The chunk identifiers that a payload lists: its varints up to the first
/// that is zero, or up to its end.
pub open spec fn chunk_ids(stream: Seq<u8>) -> Seq<u64>
    decreases stream.len(),
    via chunk_ids_decreases
{
    if stream.len() == 0 || front_id(stream) == 0 {
        Seq::empty()
    } else {
        seq![front_id(stream)] + chunk_ids(stream.skip(varint_len(stream) as int))
    }
}

#[via_fn]
proof fn chunk_ids_decreases(stream: Seq<u8>) {
    lemma_varint_len_bound(stream);
}

/// The payload that lists `ids`: a varint for each of them, and a zero at
/// the end.
pub open spec fn id_stream(ids: Seq<u64>) -> Seq<u8>
    decreases ids.len(),
{
    if ids.len() == 0 {
        seq![0u8]
    } else {
        varint_bytes(ids[0] as nat) + id_stream(ids.skip(1))
    }
}

/// The payload of a file without chunks is the zero that ends it, and lists
/// no identifier.
pub proof fn lemma_empty_stream()
    ensures
        id_stream(Seq::<u64>::empty()) == seq![0u8],
        chunk_ids(seq![0u8]) == Seq::<u64>::empty(),
        chunk_ids(Seq::<u8>::empty()) == Seq::<u64>::empty(),
{
    assert(varint_value(seq![0u8]) == 0);
}

/// A payload that was made of identifiers has a byte at least.
pub proof fn lemma_id_stream_length(ids: Seq<u64>)
    ensures
        id_stream(ids).len() >= 1,
    decreases ids.len(),
{
    if ids.len() > 0 {
        lemma_id_stream_length(ids.skip(1));
    }
}

/// A payload that was made of identifiers, none of them zero, lists those
/// identifiers.
pub proof fn lemma_chunk_ids_of_stream(ids: Seq<u64>)
    requires
        forall|i: int| 0 <= i < ids.len() ==> #[trigger] ids[i] != 0,
    ensures
        chunk_ids(id_stream(ids)) == ids,
    decreases ids.len(),
{
    if ids.len() == 0 {
        assert(varint_value(seq![0u8]) == 0);
        assert(ids =~= Seq::<u64>::empty());
    } else {
        let tail = id_stream(ids.skip(1));
        lemma_decode_encode(ids[0] as nat, tail);
        lemma_encoding_length(ids[0] as nat);
        assert forall|i: int| 0 <= i < ids.skip(1).len() implies #[trigger] ids.skip(1)[i]
            != 0 by {
            assert(ids.skip(1)[i] == ids[i + 1]);
        }
        lemma_chunk_ids_of_stream(ids.skip(1));
        assert(seq![ids[0]] + ids.skip(1) =~= ids);
    }
}

/// What reading the chunk `id` gives where the store gives its blob.
pub open spec fn chunk_content(index: ChunkIndexView, id: u64) -> Result<Seq<u8>, ChunkError> {
    if !index.chunks.contains_key(id) {
        Err(ChunkError::NotFound)
    } else if !index.blobs.contains_key(index.chunks[id].0) {
        Err(ChunkError::Storage(super::storage::StorageError::NotFound))
    } else {
        blob_content(index.blobs[index.chunks[id].0])
    }
}

/// The chunks `ids`, one after the other, where each of them can be read.
pub open spec fn chunks_content(index: ChunkIndexView, ids: Seq<u64>) -> Option<Seq<u8>>
    decreases ids.len(),
{
    if ids.len() == 0 {
        Some(Seq::empty())
    } else {
        match (chunk_content(index, ids[0]), chunks_content(index, ids.skip(1))) {
            (Ok(first), Some(others)) => Some(first + others),
            _ => None,
        }
    }
}

/// The error of the first of the chunks `ids` that cannot be read where the
/// store gives its blob, if there is such a chunk.
pub open spec fn first_failure(index: ChunkIndexView, ids: Seq<u64>) -> Option<ChunkError>
    decreases ids.len(),
{
    if ids.len() == 0 {
        None
    } else {
        match chunk_content(index, ids[0]) {
            Err(e) => Some(e),
            Ok(_) => first_failure(index, ids.skip(1)),
        }
    }
}

/// The chunks of a list can all be read exactly where none of them fails.
pub proof fn lemma_no_failure(index: ChunkIndexView, ids: Seq<u64>)
    ensures
        chunks_content(index, ids) is Some == first_failure(index, ids) is None,
    decreases ids.len(),
{
    if ids.len() > 0 {
        lemma_no_failure(index, ids.skip(1));
    }
}

/// The content of a list of chunks with one more at its end is the content
/// of the list and then that of the one.
pub proof fn lemma_chunks_content_push(index: ChunkIndexView, ids: Seq<u64>, id: u64)
    ensures
        chunks_content(index, ids.push(id)) == match (
            chunks_content(index, ids),
            chunk_content(index, id),
        ) {
            (Some(others), Ok(last)) => Some(others + last),
            _ => None,
        },
    decreases ids.len(),
{
    let longer = ids.push(id);
    assert(longer.len() == ids.len() + 1);
    if ids.len() == 0 {
        assert(longer.skip(1) =~= Seq::<u64>::empty());
        assert(longer[0] == id);
        assert(chunks_content(index, longer.skip(1)) == Some(Seq::<u8>::empty()));
        assert(chunks_content(index, ids) == Some(Seq::<u8>::empty()));
        if chunk_content(index, id) is Ok {
            let last = chunk_content(index, id).unwrap();
            assert(last + Seq::<u8>::empty() =~= Seq::<u8>::empty() + last);
        }
    } else {
        assert(longer.skip(1) =~= ids.skip(1).push(id));
        assert(longer[0] == ids[0]);
        lemma_chunks_content_push(index, ids.skip(1), id);
        if chunk_content(index, ids[0]) is Ok && chunks_content(index, ids.skip(1)) is Some
            && chunk_content(index, id) is Ok {
            let first = chunk_content(index, ids[0]).unwrap();
            let others = chunks_content(index, ids.skip(1)).unwrap();
            let last = chunk_content(index, id).unwrap();
            assert(first + (others + last) =~= (first + others) + last);
        }
    }
}

/// Where every chunk of a file is found under its digest in a sound index
/// and its blob reads back as the chunk, the chunks of the file read back as
/// the file.
#[verifier::rlimit(50)]
pub proof fn lemma_reads_back(
    index: ChunkIndexView,
    data: Seq<u8>,
    count: nat,
    size: nat,
    ids: Seq<u64>,
    upto: nat,
)
    requires
        index.well_formed(),
        ids.len() == count,
        upto <= count,
        forall|i: int|
            0 <= i < count ==> index.hashes.contains_key(
                #[trigger] super::piece_hashes(data, count, size)[i],
            ) && index.hashes[super::piece_hashes(data, count, size)[i]] == ids[i]
                && index.chunks.contains_key(ids[i]) && index.blobs.contains_key(
                super::piece_hashes(data, count, size)[i],
            ) && blob_content(index.blobs[super::piece_hashes(data, count, size)[i]]) == Ok::<
                Seq<u8>,
                ChunkError,
            >(super::piece_of(data, count, size, i)),
    ensures
        chunks_content(index, ids.take(upto as int)) == Some(
            super::plan::pieces_joined(data, count, size, upto),
        ),
    decreases upto,
{
    let hashes = super::piece_hashes(data, count, size);
    if upto == 0 {
        assert(ids.take(0) =~= Seq::<u64>::empty());
    } else {
        let last = (upto - 1) as int;
        lemma_reads_back(index, data, count, size, ids, (upto - 1) as nat);
        assert(ids.take(upto as int) =~= ids.take(last).push(ids[last]));
        lemma_chunks_content_push(index, ids.take(last), ids[last]);
        assert(index.hashes.contains_key(hashes[last]));
        let id = ids[last];
        assert(index.hashes[index.chunks[id].0] == id);
        assert(index.chunks[id].0 == hashes[last]);
        assert(chunk_content(index, id) == Ok::<Seq<u8>, ChunkError>(
            super::piece_of(data, count, size, last),
        ));
    }
}

/// Writes the payload that lists `ids`.
pub fn encode_chunk_ids(ids: &[u64]) -> (stream: Vec<u8>)
    ensures
        stream@ == id_stream(ids@),
{
    let mut out: Vec<u8> = Vec::new();
    let mut i: usize = 0;
    assert(ids@.skip(0) =~= ids@);
    while i < ids.len()
        invariant
            i <= ids@.len(),
            out@ + id_stream(ids@.skip(i as int)) == id_stream(ids@),
        decreases ids@.len() - i,
    {
        let ghost prior = out@;
        let mut bytes = encode_u64(ids[i]);
        let ghost added = bytes@;
        out.append(&mut bytes);
        proof {
            assert(ids@.skip(i as int).skip(1) =~= ids@.skip(i + 1));
            assert(out@ + id_stream(ids@.skip(i + 1)) =~= prior + (added + id_stream(
                ids@.skip(i + 1),
            )));
        }
        i = i + 1;
    }
    let ghost prior = out@;
    out.push(0);
    assert(out@ =~= prior + seq![0u8]);
    out
}

/// Reads the chunk identifiers that a payload lists.
pub fn decode_chunk_ids(stream: Vec<u8>) -> (ids: Vec<u64>)
    ensures
        ids@ == chunk_ids(stream@),
{
    let ghost whole = stream@;
    let mut reader = ByteReader::new(stream);
    let mut ids: Vec<u64> = Vec::new();
    assert(ids@ + chunk_ids(whole) =~= chunk_ids(whole));
    loop
        invariant_except_break
            ids@ + chunk_ids(reader@) == chunk_ids(whole),
        ensures
            ids@ == chunk_ids(whole),
        decreases reader@.len(),
    {
        let ghost rest = reader@;
        let ghost before = ids@;
        if reader.remaining() == 0 {
            assert(before + Seq::<u64>::empty() =~= before);
            break ;
        }
        let id = decode_u64(&mut reader);
        proof {
            lemma_varint_len_bound(rest);
            assert(varint_len(rest) >= 1);
        }
        if id == 0 {
            assert(before + Seq::<u64>::empty() =~= before);
            break ;
        }
        ids.push(id);
        proof {
            assert(ids@ + chunk_ids(reader@) =~= before + (seq![id] + chunk_ids(reader@)));
        }
    }
    ids
}

/// Reads the chunks `ids`, one after the other.
///
/// The first chunk that cannot be read decides the error: the error of the
/// store where the store fails, else what `first_failure` says. Where the
/// result is the content of all of them, it is what `chunks_content` says.
/// No chunk, or a first identifier that is not known, asks nothing of the
/// store: the one gives no content, the other is not found.
pub fn read_chunks<S: ChunkStorage>(index: &ChunkIndex<S>, ids: &[u64]) -> (result: Result<
    Vec<u8>,
    ChunkError,
>)
    ensures
        result is Ok ==> chunks_content(index@, ids@) == Some(result.unwrap()@),
        chunks_content(index@, ids@) is None ==> result is Err,
        result is Err ==> result->Err_0 is Storage || first_failure(index@, ids@) == Some(
            result->Err_0,
        ),
        ids@.len() == 0 ==> result is Ok,
        ids@.len() > 0 && !index@.chunks.contains_key(ids@[0]) ==> result == Err::<
            Vec<u8>,
            ChunkError,
        >(ChunkError::NotFound),
{
    let mut out: Vec<u8> = Vec::new();
    let mut i: usize = 0;
    proof {
        assert(ids@.skip(0) =~= ids@);
        if chunks_content(index@, ids@) is Some {
            assert(out@ + chunks_content(index@, ids@).unwrap() =~= chunks_content(
                index@,
                ids@,
            ).unwrap());
        }
    }
    while i < ids.len()
        invariant
            i <= ids@.len(),
            match chunks_content(index@, ids@.skip(i as int)) {
                Some(rest) => chunks_content(index@, ids@) == Some(out@ + rest),
                None => chunks_content(index@, ids@) is None,
            },
            first_failure(index@, ids@) == first_failure(index@, ids@.skip(i as int)),
            i > 0 ==> index@.chunks.contains_key(ids@[0]),
        decreases ids@.len() - i,
    {
        let ghost before = out@;
        proof {
            assert(ids@.skip(i as int)[0] == ids@[i as int]);
            assert(ids@.skip(i as int).skip(1) =~= ids@.skip(i + 1));
        }
        let mut content = match index.read_chunk_id_content(ids[i]) {
            Ok(content) => content,
            Err(e) => {
                assert(e is Storage || chunk_content(index@, ids@[i as int]) == Err::<
                    Seq<u8>,
                    ChunkError,
                >(e));
                return Err(e);
            },
        };
        assert(chunk_content(index@, ids@[i as int]) is Ok);
        let ghost added = content@;
        out.append(&mut content);
        i = i + 1;
        proof {
            let tail = chunks_content(index@, ids@.skip(i as int));
            if tail is Some {
                assert(out@ + tail.unwrap() =~= before + (added + tail.unwrap()));
            }
        }
    }
    proof {
        assert(ids@.skip(i as int) =~= Seq::<u64>::empty());
        assert(out@ + Seq::<u8>::empty() =~= out@);
    }
    Ok(out)
}

/// A reader that gives the content of a file piece by piece: it goes
/// through the chunk identifiers of a payload and hands out the content of
/// the chunks in order.
pub struct EntryReader {
    ids: ByteReader,
    finished: bool,
    buffer: Vec<u8>,
    buffer_pos: usize,
}

impl EntryReader {
    /// The bytes that are read from a chunk and not handed out yet.
    pub closed spec fn pending(&self) -> Seq<u8> {
        if self.buffer_pos <= self.buffer@.len() {
            self.buffer@.skip(self.buffer_pos as int)
        } else {
            Seq::empty()
        }
    }

    /// The chunk identifiers that are still to be read.
    pub closed spec fn upcoming(&self) -> Seq<u64> {
        if self.finished {
            Seq::empty()
        } else {
            chunk_ids(self.ids@)
        }
    }

    /// What is still to be handed out, where every chunk can be read.
    pub open spec fn remaining(&self, index: ChunkIndexView) -> Option<Seq<u8>> {
        match chunks_content(index, self.upcoming()) {
            Some(content) => Some(self.pending() + content),
            None => None,
        }
    }

    /// How far the reader is from the end of its payload.
    pub closed spec fn distance(&self) -> nat {
        if self.finished {
            0
        } else {
            self.ids@.len() + 1
        }
    }

    /// A reader at the beginning of the file whose payload is `payload`.
    pub fn new(payload: Vec<u8>) -> (reader: Self)
        ensures
            reader.pending() == Seq::<u8>::empty(),
            reader.upcoming() == chunk_ids(payload@),
    {
        let reader = EntryReader {
            ids: ByteReader::new(payload),
            finished: false,
            buffer: Vec::new(),
            buffer_pos: 0,
        };
        assert(reader.pending() =~= Seq::<u8>::empty());
        reader
    }

    /// Whether nothing is buffered and the payload has been gone through.
    fn at_end(&self) -> (end: bool)
        ensures
            end ==> self.pending().len() == 0 && self.upcoming().len() == 0,
            end == (self.pending().len() == 0 && self.distance() == 0),
    {
        self.buffer_pos >= self.buffer.len() && self.finished
    }

    /// Reads the next chunk into the buffer, where the buffer has been
    /// handed out and a chunk is left.
    pub fn fill_buffer<S: ChunkStorage>(&mut self, index: &ChunkIndex<S>) -> (result: Result<
        (),
        ChunkError,
    >)
        ensures
            old(self).pending().len() > 0 || old(self).distance() == 0 ==> result is Ok && *final(self) == *old(self),
            old(self).pending().len() == 0 && old(self).distance() > 0 ==> final(self).distance()
                < old(self).distance(),
            result is Ok && old(self).pending().len() == 0 && old(self).upcoming().len() == 0
                ==> final(self).pending().len() == 0 && final(self).upcoming().len() == 0,
            result is Ok && old(self).pending().len() == 0 && old(self).upcoming().len() > 0
                ==> chunk_content(index@, old(self).upcoming()[0]) == Ok::<Seq<u8>, ChunkError>(
                final(self).pending(),
            ) && final(self).upcoming() == old(self).upcoming().skip(1),
            result is Err ==> old(self).pending().len() == 0 && old(self).upcoming().len() > 0
                && (result->Err_0 is Storage || chunk_content(index@, old(self).upcoming()[0])
                == Err::<Seq<u8>, ChunkError>(result->Err_0)),
    {
        if self.finished {
            return Ok(());
        }
        if self.buffer_pos < self.buffer.len() {
            return Ok(());
        }
        if self.ids.remaining() == 0 {
            self.finished = true;
            return Ok(());
        }
        let ghost rest = self.ids@;
        let chunk_id = decode_u64(&mut self.ids);
        proof {
            lemma_varint_len_bound(rest);
            assert(varint_len(rest) >= 1);
        }
        if chunk_id == 0 {
            self.finished = true;
            return Ok(());
        }
        proof {
            assert((seq![chunk_id] + chunk_ids(self.ids@)).skip(1) =~= chunk_ids(self.ids@));
        }
        match index.read_chunk_id_content(chunk_id) {
            Ok(content) => {
                self.buffer = content;
                self.buffer_pos = 0;
                assert(self.pending() =~= self.buffer@);
                Ok(())
            },
            Err(e) => {
                self.finished = true;
                Err(e)
            },
        }
    }

    /// Hands out up to `max` bytes of the content at the end of `out`;
    /// gives how many.
    ///
    /// Fewer than `max` bytes are handed out only at the end of the content.
    /// Where every chunk that is left can be read, the bytes are the next
    /// bytes of what is left.
    ///
    /// The bytes that are buffered come first, and a chunk is read only when
    /// they are used up: a call that asks for no more than is buffered, or
    /// that finds no chunk left, succeeds. A call fails with the error of the
    /// store, or else with that of the first chunk that cannot be read; what
    /// was handed out before stays at the end of `out`.
    #[verifier::rlimit(50)]
    pub fn read<S: ChunkStorage>(&mut self, index: &ChunkIndex<S>, out: &mut Vec<u8>, max: usize) -> (result:
        Result<usize, ChunkError>)
        ensures
            final(out)@.len() >= old(out)@.len(),
            final(out)@.take(old(out)@.len() as int) == old(out)@,
            result is Ok ==> result.unwrap() <= max && final(out)@.len() == old(out)@.len()
                + result.unwrap(),
            old(self).pending().len() >= max ==> result == Ok::<usize, ChunkError>(max)
                && final(out)@ == old(out)@ + old(self).pending().take(max as int)
                && final(self).pending() == old(self).pending().skip(max as int)
                && final(self).upcoming() == old(self).upcoming(),
            old(self).upcoming().len() == 0 ==> result is Ok,
            result is Err ==> old(self).pending().len() < max && (result->Err_0 is Storage
                || first_failure(index@, old(self).upcoming()) == Some(result->Err_0)),
            result is Ok && old(self).remaining(index@) is Some ==> final(out)@ == old(out)@
                + old(self).remaining(index@).unwrap().take(result.unwrap() as int) && final(self).remaining(index@) == Some(
                old(self).remaining(index@).unwrap().skip(result.unwrap() as int),
            ) && (result.unwrap() < max ==> old(self).remaining(index@).unwrap().len()
                == result.unwrap()),
    {
        let ghost start = out@;
        let ghost whole = self.remaining(index@);
        let ghost buffered = self.pending();
        let ghost mut fresh = true;
        let mut copied: usize = 0;
        proof {
            assert(start + Seq::<u8>::empty() =~= start);
            assert(start.take(start.len() as int) =~= start);
            assert(buffered.take(0) =~= Seq::<u8>::empty());
            assert(buffered.skip(0) =~= buffered);
            if whole is Some {
                assert(whole.unwrap().take(0) =~= Seq::<u8>::empty());
                assert(whole.unwrap().skip(0) =~= whole.unwrap());
            }
        }
        while copied < max
            invariant_except_break
                copied <= max,
            invariant
                copied <= max,
                out@.len() == start.len() + copied,
                out@.take(start.len() as int) == start,
                whole is Some ==> copied <= whole.unwrap().len() && out@ == start
                    + whole.unwrap().take(copied as int) && self.remaining(index@) == Some(
                    whole.unwrap().skip(copied as int),
                ),
                start == old(out)@,
                buffered == old(self).pending(),
                fresh ==> copied <= buffered.len() && out@ == start + buffered.take(copied as int)
                    && self.pending() == buffered.skip(copied as int) && self.upcoming() == old(
                    self,
                ).upcoming(),
                !fresh ==> buffered.len() < max,
                old(self).upcoming().len() == 0 ==> self.upcoming().len() == 0,
                first_failure(index@, self.upcoming()) == first_failure(
                    index@,
                    old(self).upcoming(),
                ),
            ensures
                copied < max ==> self.pending().len() == 0 && self.upcoming().len() == 0,
            decreases max - copied, self.distance(),
        {
            if self.buffer_pos >= self.buffer.len() {
                if self.at_end() {
                    break ;
                }
                let ghost before = *self;
                proof {
                    if fresh {
                        assert(buffered.len() == copied);
                    }
                    fresh = false;
                }
                match self.fill_buffer(index) {
                    Ok(()) => {},
                    Err(e) => {
                        return Err(e);
                    },
                }
                proof {
                    if before.upcoming().len() > 0 {
                        assert(chunk_content(index@, before.upcoming()[0]) is Ok);
                    }
                    if whole is Some {
                        let ids = before.upcoming();
                        if ids.len() > 0 {
                            assert(chunks_content(index@, ids) is Some);
                            assert(self.pending() + chunks_content(index@, ids.skip(1)).unwrap()
                                =~= before.pending() + chunks_content(index@, ids).unwrap());
                        } else {
                            assert(self.pending() =~= before.pending());
                            assert(self.upcoming() =~= before.upcoming());
                        }
                    }
                }
                continue ;
            }
            let byte = self.buffer[self.buffer_pos];
            let ghost before = *self;
            let ghost prior = out@;
            self.buffer_pos = self.buffer_pos + 1;
            out.push(byte);
            copied = copied + 1;
            proof {
                assert(self.pending() =~= before.pending().skip(1));
                assert(before.pending()[0] == byte);
                assert(out@.take(start.len() as int) =~= start);
                assert(self.upcoming() == before.upcoming());
                if fresh {
                    assert(buffered.skip(copied - 1)[0] == byte);
                    assert(out@ =~= start + buffered.take(copied as int));
                    assert(self.pending() =~= buffered.skip(copied as int));
                }
                if whole is Some {
                    let all = whole.unwrap();
                    let tail = chunks_content(index@, before.upcoming()).unwrap();
                    let rest = all.skip(copied - 1);
                    assert(before.remaining(index@) == Some(rest));
                    assert(rest == before.pending() + tail);
                    assert(rest.len() > 0);
                    assert(rest[0] == byte);
                    assert(all[copied - 1] == byte);
                    assert(prior == start + all.take(copied - 1));
                    assert(out@ =~= start + all.take(copied as int));
                    assert(self.pending() + tail =~= rest.skip(1));
                    assert(rest.skip(1) =~= all.skip(copied as int));
                }
            }
        }
        proof {
            if whole is Some && copied < max {
                assert(self.remaining(index@).unwrap() =~= Seq::<u8>::empty());
            }
        }
        Ok(copied)
    }
}

} // verus!
