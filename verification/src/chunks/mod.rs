//! The content-addressed chunk store and its index.

use crate::archive::CompressionFormat;
use crate::compression::{compress, compressed, decompress, decompressed, deflate_decoded};
use blake2::Digest;
use file::{
    built_chunks, built_hashes, decode_index, encode_index, entry_views,
    lemma_parse_index_bytes, parse_index, IndexData, IndexFile,
};
use maps::{
    hash_map_contents, hash_map_get, hash_map_insert, hash_map_new, hash_map_remove,
    id_map_contents, id_map_entries, id_map_get, id_map_insert, id_map_new, id_map_remove,
    HashIndex, IdMap,
};
use plan::{chunk_boundaries, chunk_plan, lemma_piece_bounds, piece, plan_chunks};
use std::collections::VecDeque;
use storage::{others_kept, ChunkStorage, StorageError};
use vstd::prelude::*;
use vstd::slice::slice_subrange;

pub mod file;
pub mod hasher;
pub mod lock;
pub mod maps;
pub mod plan;
pub mod reader;
pub mod storage;

verus! {

/// The BLAKE2b-256 digest of a chunk.
pub type ChunkHash = [u8; 32];

/// Why the chunk index could not do what was asked.
#[derive(Debug, Clone, Copy, PartialEq, Eq, Structural)]
pub enum ChunkError {
    /// No chunk has the identifier.
    NotFound,
    /// The store failed.
    Storage(StorageError),
    /// A blob or an index file holds what the format has no meaning for.
    InvalidData,
    /// A blob or an index file ends too early.
    UnexpectedEof,
    /// The encoder of a compression format reported an error.
    CompressionFailed,
    /// The size of a chunk is zero, or more than the index file has room
    /// for.
    InvalidChunkSize,
    /// Every identifier has been handed out.
    Exhausted,
}

/// The BLAKE2b digest of 32 bytes of `data`.
pub uninterp spec fn blake2b_256(data: Seq<u8>) -> Seq<u8>;

/// Calls `blake2::Blake2b::<U32>::digest`, which hashes the data that it is
/// given. Believed, not proved: the digest is a function of the data.
#[verifier::external_body]
pub(crate) fn hash_chunk(data: &[u8]) -> (hash: ChunkHash)
    ensures
        hash@ == blake2b_256(data@),
{
    blake2::Blake2b::<blake2::digest::consts::U32>::digest(data).into()
}

/// The digest of a chunk.
pub fn chunk_hash(data: &[u8]) -> (hash: ChunkHash)
    ensures
        hash@ == blake2b_256(data@),
{
    hash_chunk(data)
}

/// Whether `index` is where the first of `results` for the chunk `place`
/// stands.
pub open spec fn is_first_result(results: Seq<(usize, u64, ChunkHash)>, place: int, index: int)
    -> bool {
    &&& 0 <= index < results.len()
    &&& results[index].0 == place
    &&& forall|j: int| 0 <= j < index ==> (#[trigger] results[j]).0 != place
}

/// Whether `results` holds a result for the chunk `place`.
pub open spec fn has_result(results: Seq<(usize, u64, ChunkHash)>, place: int) -> bool {
    exists|k: int| is_first_result(results, place, k)
}

/// Puts the results of chunking the pieces of a file, which may have come
/// in any order, into the order of the file: for each of the `expected`
/// pieces the identifier and the digest of the first result that bears its
/// number.
///
/// Results that are not as many as the pieces, or that lack a piece, are
/// refused.
#[verifier::rlimit(50)]
pub fn assemble_chunks(results: &[(usize, u64, ChunkHash)], expected: usize) -> (assembled: Option<
    (Vec<u64>, Vec<ChunkHash>),
>)
    ensures
        assembled is Some == (results@.len() == expected && forall|place: int|
            0 <= place < expected ==> #[trigger] has_result(results@, place)),
        assembled is Some ==> assembled.unwrap().0@.len() == expected
            && assembled.unwrap().1@.len() == expected && forall|place: int, k: int|
            0 <= place < expected && #[trigger] is_first_result(results@, place, k)
                ==> assembled.unwrap().0@[place] == results@[k].1 && assembled.unwrap().1@[place]
                == results@[k].2,
{
    if results.len() != expected {
        return None;
    }
    let mut ids: Vec<u64> = Vec::new();
    let mut hashes: Vec<ChunkHash> = Vec::new();
    let mut place: usize = 0;
    while place < expected
        invariant
            place <= expected,
            results@.len() == expected,
            ids@.len() == place,
            hashes@.len() == place,
            forall|p: int| 0 <= p < place ==> #[trigger] has_result(results@, p),
            forall|p: int, k: int|
                0 <= p < place && #[trigger] is_first_result(results@, p, k) ==> ids@[p]
                    == results@[k].1 && hashes@[p] == results@[k].2,
        decreases expected - place,
    {
        let mut k: usize = 0;
        let mut found: Option<usize> = None;
        while k < results.len()
            invariant_except_break
                found is None,
            invariant
                k <= results@.len(),
                forall|j: int| 0 <= j < k ==> (#[trigger] results@[j]).0 != place,
            ensures
                found is Some ==> is_first_result(results@, place as int, found.unwrap() as int),
                found is None ==> forall|j: int|
                    0 <= j < results@.len() ==> (#[trigger] results@[j]).0 != place,
            decreases results@.len() - k,
        {
            if results[k].0 == place {
                found = Some(k);
                break ;
            }
            k = k + 1;
        }
        match found {
            None => {
                proof {
                    assert forall|w: int| !is_first_result(results@, place as int, w) by {
                        if is_first_result(results@, place as int, w) {
                            assert(results@[w].0 != place);
                        }
                    }
                    assert(!has_result(results@, place as int));
                }
                return None;
            },
            Some(index) => {
                let ghost done_ids = ids@;
                let ghost done_hashes = hashes@;
                ids.push(results[index].1);
                hashes.push(results[index].2);
                proof {
                    assert(has_result(results@, place as int));
                    assert forall|p: int, w: int|
                        0 <= p < place + 1 && #[trigger] is_first_result(
                            results@,
                            p,
                            w,
                        ) implies ids@[p] == results@[w].1 && hashes@[p] == results@[w].2 by {
                        if p == place {
                            if w < index {
                                assert(results@[w].0 != place);
                            } else if index < w {
                                assert(results@[index as int].0 != place);
                            }
                        } else {
                            assert(ids@[p] == done_ids[p]);
                            assert(hashes@[p] == done_hashes[p]);
                        }
                    }
                }
            },
        }
        place = place + 1;
    }
    Some((ids, hashes))
}

/// What the index is: its counter and queue of identifiers, its two maps,
/// the size and number of chunks that it aims at, and the blobs of its
/// store.
pub struct ChunkIndexView {
    /// The identifier that is handed out next when the queue is empty.
    pub next_id: u64,
    /// The identifiers that were given back, oldest first.
    pub deleted: Seq<u64>,
    /// For each identifier the digest of its chunk and the number of
    /// references to it.
    pub chunks: Map<u64, (Seq<u8>, u64)>,
    /// For each digest the identifier of its chunk.
    pub hashes: Map<Seq<u8>, u64>,
    pub chunk_size: usize,
    pub max_chunk_count: usize,
    /// The blobs that the store holds.
    pub blobs: Map<Seq<u8>, Seq<u8>>,
}

impl ChunkIndexView {
    /// The number of references to the chunk `id`; none to a chunk that is
    /// not known.
    pub open spec fn refcount(self, id: u64) -> u64 {
        if self.chunks.contains_key(id) {
            self.chunks[id].1
        } else {
            0
        }
    }

    /// Whether the chunk of digest `hash` is known and referenced.
    pub open spec fn referenced(self, hash: Seq<u8>) -> bool {
        self.hashes.contains_key(hash) && self.refcount(self.hashes[hash]) > 0
    }

    /// Whether there is an identifier to hand out: one that was given back,
    /// or a counter that has not reached its end.
    pub open spec fn can_allocate(self) -> bool {
        self.deleted.len() > 0 || self.next_id < u64::MAX
    }

    /// The identifier that is handed out next: the oldest that was given
    /// back, or the counter.
    pub open spec fn next_identifier(self) -> u64 {
        if self.deleted.len() > 0 {
            self.deleted[0]
        } else {
            self.next_id
        }
    }

    /// The index after an identifier was handed out.
    pub open spec fn after_allocation(self) -> ChunkIndexView {
        if self.deleted.len() > 0 {
            ChunkIndexView { deleted: self.deleted.skip(1), ..self }
        } else if self.next_id < u64::MAX {
            ChunkIndexView { next_id: (self.next_id + 1) as u64, ..self }
        } else {
            self
        }
    }

    /// Whether the chunk of digest `hash` has an identifier or can get one.
    pub open spec fn can_identify(self, hash: Seq<u8>) -> bool {
        self.hashes.contains_key(hash) || self.can_allocate()
    }

    /// The identifier of the chunk of digest `hash`: the one it has, or the
    /// one that is handed out next.
    pub open spec fn identifier_for(self, hash: Seq<u8>) -> u64 {
        if self.hashes.contains_key(hash) {
            self.hashes[hash]
        } else {
            self.next_identifier()
        }
    }

    /// The index after the chunk of digest `hash` was given its identifier.
    pub open spec fn with_identifier_for(self, hash: Seq<u8>) -> ChunkIndexView {
        if self.hashes.contains_key(hash) || !self.can_allocate() {
            self
        } else {
            ChunkIndexView {
                hashes: self.hashes.insert(hash, self.next_identifier()),
                ..self.after_allocation()
            }
        }
    }

    /// Whether `id` is an identifier that is in nobody's hands: below the
    /// counter, and not given back.
    pub open spec fn in_use(self, id: u64) -> bool {
        1 <= id < self.next_id && !self.deleted.contains(id)
    }

    /// Whether the index is sound.
    ///
    /// Identifiers begin at 1. The identifiers that were given back are below
    /// the counter, each of them once. Every chunk has an identifier that is
    /// in use and is found under its digest; every digest leads to an
    /// identifier that is in use, and no two digests to the same. A chunk
    /// that is referenced has its blob in the store.
    pub open spec fn well_formed(self) -> bool {
        &&& self.next_id >= 1
        &&& forall|i: int| 0 <= i < self.deleted.len() ==> 1 <= #[trigger] self.deleted[i] < self.next_id
        &&& self.deleted.no_duplicates()
        &&& forall|id: u64| #[trigger]
            self.chunks.contains_key(id) ==> self.in_use(id) && self.hashes.contains_key(
                self.chunks[id].0,
            ) && self.hashes[self.chunks[id].0] == id
        &&& forall|hash: Seq<u8>| #[trigger]
            self.hashes.contains_key(hash) ==> self.in_use(self.hashes[hash])
        &&& forall|one: Seq<u8>, other: Seq<u8>|
            self.hashes.contains_key(one) && self.hashes.contains_key(other) && #[trigger] self.hashes[one]
                == #[trigger] self.hashes[other] ==> one == other
        &&& forall|id: u64| #[trigger]
            self.chunks.contains_key(id) && self.chunks[id].1 > 0 ==> self.blobs.contains_key(
                self.chunks[id].0,
            )
    }
}

/// Giving a digest its identifier keeps a sound index sound, and the
/// identifier is one that no chunk has.
#[verifier::rlimit(50)]
pub proof fn lemma_identified(index: ChunkIndexView, hash: Seq<u8>)
    requires
        index.well_formed(),
        index.can_identify(hash),
    ensures
        index.with_identifier_for(hash).well_formed(),
        index.with_identifier_for(hash).hashes.contains_key(hash),
        index.with_identifier_for(hash).hashes[hash] == index.identifier_for(hash),
        !index.hashes.contains_key(hash) ==> !index.chunks.contains_key(
            index.identifier_for(hash),
        ),
{
    let after = index.with_identifier_for(hash);
    if !index.hashes.contains_key(hash) {
        let id = index.next_identifier();
        if index.deleted.len() > 0 {
            assert(index.deleted.contains(id));
            assert(after.deleted == index.deleted.skip(1));
            assert forall|i: int| 0 <= i < after.deleted.len() implies 1 <= #[trigger] after.deleted[i]
                < after.next_id by {
                assert(after.deleted[i] == index.deleted[i + 1]);
            }
            assert(after.deleted.no_duplicates()) by {
                assert forall|i: int, j: int|
                    0 <= i < after.deleted.len() && 0 <= j < after.deleted.len() && i
                        != j implies after.deleted[i] != after.deleted[j] by {
                    assert(after.deleted[i] == index.deleted[i + 1]);
                    assert(after.deleted[j] == index.deleted[j + 1]);
                }
            }
            assert(!after.deleted.contains(id)) by {
                if after.deleted.contains(id) {
                    let k = choose|k: int| 0 <= k < after.deleted.len() && after.deleted[k] == id;
                    assert(index.deleted[k + 1] == index.deleted[0]);
                }
            }
            assert forall|other: u64| !index.deleted.contains(other) implies !after.deleted.contains(
                other,
            ) by {
                if after.deleted.contains(other) {
                    let k = choose|k: int|
                        0 <= k < after.deleted.len() && after.deleted[k] == other;
                    assert(index.deleted[k + 1] == other);
                }
            }
        } else {
            assert(after.deleted == index.deleted);
        }
        assert(after.in_use(id));
        assert forall|other: u64| index.in_use(other) implies after.in_use(other) && other
            != id by {
        }
        assert forall|h: Seq<u8>| #[trigger] after.hashes.contains_key(h) implies after.in_use(
            after.hashes[h],
        ) by {
            if h != hash {
                assert(index.hashes.contains_key(h));
            }
        }
        assert forall|one: Seq<u8>, other: Seq<u8>|
            after.hashes.contains_key(one) && after.hashes.contains_key(other)
                && #[trigger] after.hashes[one] == #[trigger] after.hashes[other] implies one
                == other by {
            if one != hash {
                assert(index.hashes.contains_key(one));
            }
            if other != hash {
                assert(index.hashes.contains_key(other));
            }
        }
        assert forall|c: u64| #[trigger] after.chunks.contains_key(c) implies after.in_use(c)
            && after.hashes.contains_key(after.chunks[c].0) && after.hashes[after.chunks[c].0]
            == c by {
            assert(index.chunks.contains_key(c));
            assert(index.chunks[c].0 != hash);
        }
    }
}

/// One more than `count`, or the largest count where that is too much.
pub open spec fn one_more(count: u64) -> u64 {
    if count < u64::MAX {
        (count + 1) as u64
    } else {
        u64::MAX
    }
}

/// The chunks after a reference to the chunk `id` of digest `hash` was
/// counted: one reference more for a chunk that is known, the first for one
/// that is not.
pub open spec fn with_reference(chunks: Map<u64, (Seq<u8>, u64)>, id: u64, hash: Seq<u8>) -> Map<
    u64,
    (Seq<u8>, u64),
> {
    if chunks.contains_key(id) {
        chunks.insert(id, (chunks[id].0, one_more(chunks[id].1)))
    } else {
        chunks.insert(id, (hash, 1))
    }
}

/// The chunks after a reference was counted for each of `ids`, in order.
pub open spec fn with_references(
    chunks: Map<u64, (Seq<u8>, u64)>,
    ids: Seq<u64>,
    hashes: Seq<Seq<u8>>,
) -> Map<u64, (Seq<u8>, u64)>
    decreases ids.len(),
{
    if ids.len() == 0 {
        chunks
    } else {
        with_reference(
            with_references(chunks, ids.drop_last(), hashes.drop_last()),
            ids.last(),
            hashes.last(),
        )
    }
}

/// How often `id` occurs in `ids`.
pub open spec fn occurrences(ids: Seq<u64>, id: u64) -> nat
    decreases ids.len(),
{
    if ids.len() == 0 {
        0
    } else {
        occurrences(ids.drop_last(), id) + if ids.last() == id {
            1nat
        } else {
            0nat
        }
    }
}

/// The number of references to `id` in `chunks`; none to a chunk that is not
/// there.
pub open spec fn references_in(chunks: Map<u64, (Seq<u8>, u64)>, id: u64) -> u64 {
    if chunks.contains_key(id) {
        chunks[id].1
    } else {
        0
    }
}

/// After references were counted for `ids`, every chunk has as many
/// references more as it occurs in `ids` (up to the largest count), every
/// chunk that was there has kept its digest, and no chunk has gone.
pub proof fn lemma_references_counted(
    chunks: Map<u64, (Seq<u8>, u64)>,
    ids: Seq<u64>,
    hashes: Seq<Seq<u8>>,
    id: u64,
)
    requires
        ids.len() == hashes.len(),
    ensures
        references_in(with_references(chunks, ids, hashes), id) == if references_in(chunks, id)
            + occurrences(ids, id) <= u64::MAX {
            (references_in(chunks, id) + occurrences(ids, id)) as u64
        } else {
            u64::MAX
        },
        chunks.contains_key(id) ==> with_references(chunks, ids, hashes).contains_key(id)
            && with_references(chunks, ids, hashes)[id].0 == chunks[id].0,
        with_references(chunks, ids, hashes).contains_key(id) <==> chunks.contains_key(id)
            || occurrences(ids, id) > 0,
    decreases ids.len(),
{
    if ids.len() > 0 {
        lemma_references_counted(chunks, ids.drop_last(), hashes.drop_last(), id);
    }
}

/// An identifier that occurs in a list occurs there at least once.
pub proof fn lemma_occurs(ids: Seq<u64>, index: int)
    requires
        0 <= index < ids.len(),
    ensures
        occurrences(ids, ids[index]) > 0,
    decreases ids.len(),
{
    if index < ids.len() - 1 {
        lemma_occurs(ids.drop_last(), index);
    }
}

/// Counting references to chunks that are found under their digests, and
/// whose blobs are in the store, keeps a sound index sound.
#[verifier::rlimit(50)]
pub proof fn lemma_references_well_formed(index: ChunkIndexView, ids: Seq<u64>, hashes: Seq<Seq<u8>>)
    requires
        index.well_formed(),
        ids.len() == hashes.len(),
        forall|k: int|
            0 <= k < ids.len() ==> index.hashes.contains_key(#[trigger] hashes[k])
                && index.hashes[hashes[k]] == ids[k] && index.blobs.contains_key(hashes[k]),
    ensures
        (ChunkIndexView { chunks: with_references(index.chunks, ids, hashes), ..index }).well_formed(),
    decreases ids.len(),
{
    if ids.len() > 0 {
        let shorter = ChunkIndexView {
            chunks: with_references(index.chunks, ids.drop_last(), hashes.drop_last()),
            ..index
        };
        assert forall|k: int| 0 <= k < ids.drop_last().len() implies index.hashes.contains_key(
            #[trigger] hashes.drop_last()[k],
        ) && index.hashes[hashes.drop_last()[k]] == ids.drop_last()[k]
            && index.blobs.contains_key(hashes.drop_last()[k]) by {
            assert(hashes.drop_last()[k] == hashes[k]);
        }
        lemma_references_well_formed(index, ids.drop_last(), hashes.drop_last());
        let id = ids.last();
        let hash = hashes.last();
        assert(index.hashes.contains_key(hashes[ids.len() - 1]));
        let after = ChunkIndexView { chunks: with_reference(shorter.chunks, id, hash), ..index };
        assert(shorter.in_use(id));
        assert forall|c: u64| #[trigger] after.chunks.contains_key(c) implies after.in_use(c)
            && after.hashes.contains_key(after.chunks[c].0) && after.hashes[after.chunks[c].0]
            == c by {
            if c != id {
                assert(shorter.chunks.contains_key(c));
            } else if shorter.chunks.contains_key(id) {
                assert(after.chunks[c].0 == shorter.chunks[c].0);
            }
        }
        assert forall|c: u64| #[trigger]
            after.chunks.contains_key(c) && after.chunks[c].1 > 0 implies after.blobs.contains_key(
            after.chunks[c].0,
        ) by {
            if c != id {
                assert(shorter.chunks.contains_key(c));
            } else if shorter.chunks.contains_key(id) {
                assert(shorter.hashes[shorter.chunks[id].0] == id);
                assert(shorter.chunks[id].0 == hash);
            }
        }
    }
}

/// One less than `count`, and nothing less than nothing.
pub open spec fn one_less(count: u64) -> u64 {
    if count > 0 {
        (count - 1) as u64
    } else {
        0
    }
}

/// The chunks after a reference to the chunk `id` was given up: one
/// reference less for a chunk that is known, and where none is left and
/// `clean` is set the chunk is gone.
pub open spec fn with_dereference(chunks: Map<u64, (Seq<u8>, u64)>, id: u64, clean: bool) -> Map<
    u64,
    (Seq<u8>, u64),
> {
    if !chunks.contains_key(id) {
        chunks
    } else if one_less(chunks[id].1) == 0 && clean {
        chunks.remove(id)
    } else {
        chunks.insert(id, (chunks[id].0, one_less(chunks[id].1)))
    }
}

/// The chunks after a reference was given up for each of `ids`, in order,
/// chunks without references being taken away.
pub open spec fn with_dereferences(chunks: Map<u64, (Seq<u8>, u64)>, ids: Seq<u64>) -> Map<
    u64,
    (Seq<u8>, u64),
>
    decreases ids.len(),
{
    if ids.len() == 0 {
        chunks
    } else {
        with_dereference(with_dereferences(chunks, ids.drop_last()), ids.last(), true)
    }
}

/// The digests that are known after a reference was given up for each of
/// `ids`, in order: the digest of every chunk that was taken away is gone.
pub open spec fn hashes_after_dereferences(
    chunks: Map<u64, (Seq<u8>, u64)>,
    hashes: Map<Seq<u8>, u64>,
    ids: Seq<u64>,
) -> Map<Seq<u8>, u64>
    decreases ids.len(),
{
    if ids.len() == 0 {
        hashes
    } else {
        let before = with_dereferences(chunks, ids.drop_last());
        let known = hashes_after_dereferences(chunks, hashes, ids.drop_last());
        if before.contains_key(ids.last()) && one_less(before[ids.last()].1) == 0 {
            known.remove(before[ids.last()].0)
        } else {
            known
        }
    }
}

/// The identifiers that were given back: those of `outcomes` whose chunk
/// was taken away and whose blob was deleted, in order.
pub open spec fn reclaimed(outcomes: Seq<(u64, bool)>) -> Seq<u64>
    decreases outcomes.len(),
{
    if outcomes.len() == 0 {
        Seq::empty()
    } else if outcomes.last().1 {
        reclaimed(outcomes.drop_last()).push(outcomes.last().0)
    } else {
        reclaimed(outcomes.drop_last())
    }
}

/// Whether every chunk of `before` that has the digest `hash` is still
/// among `after`.
pub open spec fn digest_kept(
    before: Map<u64, (Seq<u8>, u64)>,
    after: Map<u64, (Seq<u8>, u64)>,
    hash: Seq<u8>,
) -> bool {
    forall|id: u64| #[trigger]
        before.contains_key(id) && before[id].0 == hash ==> after.contains_key(id)
}

/// What giving up references has done besides counting, where `outcomes`
/// says of each identifier that was known whether its chunk was taken away
/// and its blob deleted: the identifiers of those chunks are given back, in
/// order; no chunk has come or changed its digest; a digest that has lost no
/// chunk has its identifier and its blob as before; the digest of a chunk
/// that is gone is not known any more.
pub open spec fn released(before: ChunkIndexView, after: ChunkIndexView, outcomes: Seq<(u64, bool)>)
    -> bool {
    &&& after.deleted == before.deleted + reclaimed(outcomes)
    &&& after.next_id == before.next_id
    &&& forall|id: u64| #[trigger]
        after.chunks.contains_key(id) ==> before.chunks.contains_key(id) && after.chunks[id].0
            == before.chunks[id].0
    &&& forall|h: Seq<u8>|
        digest_kept(before.chunks, after.chunks, h) ==> #[trigger] same_at(before, after, h)
    &&& forall|h: Seq<u8>| #[trigger]
        after.hashes.contains_key(h) ==> before.hashes.contains_key(h) && after.hashes[h]
            == before.hashes[h]
    &&& forall|id: u64| #[trigger]
        before.chunks.contains_key(id) && !after.chunks.contains_key(id)
            ==> !after.hashes.contains_key(before.chunks[id].0)
    &&& forall|k: int|
        0 <= k < outcomes.len() ==> before.chunks.contains_key((#[trigger] outcomes[k]).0) && (
        outcomes[k].1 ==> !after.chunks.contains_key(outcomes[k].0))
}

/// The identifiers that are given back by one list of outcomes and then
/// another are those of the two lists joined.
pub proof fn lemma_reclaimed_joined(first: Seq<(u64, bool)>, second: Seq<(u64, bool)>)
    ensures
        reclaimed(first + second) == reclaimed(first) + reclaimed(second),
    decreases second.len(),
{
    if second.len() == 0 {
        assert(first + second =~= first);
        assert(reclaimed(first) + reclaimed(second) =~= reclaimed(first));
    } else {
        lemma_reclaimed_joined(first, second.drop_last());
        assert((first + second).drop_last() =~= first + second.drop_last());
        assert((first + second).last() == second.last());
        if second.last().1 {
            assert((reclaimed(first) + reclaimed(second.drop_last())).push(second.last().0)
                =~= reclaimed(first) + reclaimed(second.drop_last()).push(second.last().0));
        }
    }
}

/// Giving up no reference changes nothing.
pub proof fn lemma_released_nothing(index: ChunkIndexView)
    ensures
        released(index, index, Seq::empty()),
{
    assert(index.deleted + reclaimed(Seq::<(u64, bool)>::empty()) =~= index.deleted);
}

/// Outcomes that take no chunk away give no identifier back.
pub proof fn lemma_nothing_reclaimed(outcomes: Seq<(u64, bool)>)
    requires
        forall|k: int| 0 <= k < outcomes.len() ==> !(#[trigger] outcomes[k]).1,
    ensures
        reclaimed(outcomes) == Seq::<u64>::empty(),
    decreases outcomes.len(),
{
    if outcomes.len() > 0 {
        assert forall|k: int| 0 <= k < outcomes.drop_last().len() implies !(
        #[trigger] outcomes.drop_last()[k]).1 by {
            assert(outcomes.drop_last()[k] == outcomes[k]);
        }
        lemma_nothing_reclaimed(outcomes.drop_last());
        assert(!outcomes[outcomes.len() - 1].1);
    }
}

/// Giving up references that leave every chunk in the index deletes no
/// blob: no identifier is given back, and every digest has its identifier
/// and its blob as before.
pub proof fn lemma_released_shared(
    before: ChunkIndexView,
    after: ChunkIndexView,
    outcomes: Seq<(u64, bool)>,
)
    requires
        released(before, after, outcomes),
        forall|id: u64| #[trigger] before.chunks.contains_key(id) ==> after.chunks.contains_key(id),
    ensures
        after.deleted == before.deleted,
        forall|h: Seq<u8>| #[trigger] same_at(before, after, h),
{
    lemma_nothing_reclaimed(outcomes);
    assert(before.deleted + Seq::<u64>::empty() =~= before.deleted);
    assert forall|h: Seq<u8>| #[trigger] same_at(before, after, h) by {
        assert(digest_kept(before.chunks, after.chunks, h));
    }
}

/// Giving up references and then more is giving up all of them.
pub proof fn lemma_released_joined(
    before: ChunkIndexView,
    middle: ChunkIndexView,
    after: ChunkIndexView,
    first: Seq<(u64, bool)>,
    second: Seq<(u64, bool)>,
)
    requires
        released(before, middle, first),
        released(middle, after, second),
    ensures
        released(before, after, first + second),
{
    lemma_reclaimed_joined(first, second);
    assert(after.deleted =~= before.deleted + reclaimed(first + second));
    assert forall|h: Seq<u8>| digest_kept(before.chunks, after.chunks, h) implies #[trigger] same_at(
        before,
        after,
        h,
    ) by {
        assert(digest_kept(before.chunks, middle.chunks, h)) by {
            assert forall|id: u64| #[trigger]
                before.chunks.contains_key(id) && before.chunks[id].0
                    == h implies middle.chunks.contains_key(id) by {
                assert(after.chunks.contains_key(id));
            }
        }
        assert(digest_kept(middle.chunks, after.chunks, h)) by {
            assert forall|id: u64| #[trigger]
                middle.chunks.contains_key(id) && middle.chunks[id].0
                    == h implies after.chunks.contains_key(id) by {
                assert(before.chunks.contains_key(id));
            }
        }
        assert(same_at(before, middle, h));
        assert(same_at(middle, after, h));
    }
    assert forall|id: u64| #[trigger]
        before.chunks.contains_key(id) && !after.chunks.contains_key(
            id,
        ) implies !after.hashes.contains_key(before.chunks[id].0) by {
        if middle.chunks.contains_key(id) {
            assert(middle.chunks[id].0 == before.chunks[id].0);
        } else {
            assert(!middle.hashes.contains_key(before.chunks[id].0));
        }
    }
    assert forall|k: int| 0 <= k < (first + second).len() implies before.chunks.contains_key(
        (#[trigger] (first + second)[k]).0,
    ) && ((first + second)[k].1 ==> !after.chunks.contains_key((first + second)[k].0)) by {
        if k < first.len() {
            assert((first + second)[k] == first[k]);
        } else {
            assert((first + second)[k] == second[k - first.len()]);
        }
    }
}

/// After a reference was given up for each of `ids`, every chunk has as many
/// references less as it occurs in `ids`, and none where it occurs more
/// often than it was referenced; and exactly the chunks with references left
/// are still there.
pub proof fn lemma_dereferences_counted(chunks: Map<u64, (Seq<u8>, u64)>, ids: Seq<u64>, id: u64)
    ensures
        references_in(with_dereferences(chunks, ids), id) == if references_in(chunks, id)
            >= occurrences(ids, id) {
            (references_in(chunks, id) - occurrences(ids, id)) as u64
        } else {
            0
        },
        occurrences(ids, id) == 0 ==> with_dereferences(chunks, ids).contains_key(id)
            == chunks.contains_key(id),
        occurrences(ids, id) > 0 ==> with_dereferences(chunks, ids).contains_key(id) == (
        references_in(chunks, id) > occurrences(ids, id)),
        with_dereferences(chunks, ids).contains_key(id) ==> chunks.contains_key(id)
            && with_dereferences(chunks, ids)[id].0 == chunks[id].0,
    decreases ids.len(),
{
    if ids.len() > 0 {
        lemma_dereferences_counted(chunks, ids.drop_last(), id);
    }
}

/// Taking a chunk without references out of a sound index, with its digest,
/// and giving its identifier back, leaves a sound index, whatever became of
/// its blob as long as the other blobs were kept.
#[verifier::rlimit(50)]
pub proof fn lemma_removed_well_formed(
    before: ChunkIndexView,
    after: ChunkIndexView,
    id: u64,
    queued: bool,
)
    requires
        before.well_formed(),
        before.chunks.contains_key(id),
        after.chunks == before.chunks.remove(id),
        after.hashes == before.hashes.remove(before.chunks[id].0),
        after.next_id == before.next_id,
        after.deleted == if queued {
            before.deleted.push(id)
        } else {
            before.deleted
        },
        others_kept(before.blobs, after.blobs, before.chunks[id].0),
    ensures
        after.well_formed(),
{
    let hash = before.chunks[id].0;
    assert(before.in_use(id));
    assert forall|i: int| 0 <= i < after.deleted.len() implies 1 <= #[trigger] after.deleted[i]
        < after.next_id by {
        if i < before.deleted.len() {
            assert(after.deleted[i] == before.deleted[i]);
        }
    }
    assert(after.deleted.no_duplicates()) by {
        assert forall|i: int, j: int|
            0 <= i < after.deleted.len() && 0 <= j < after.deleted.len() && i
                != j implies after.deleted[i] != after.deleted[j] by {
            if i < before.deleted.len() && j < before.deleted.len() {
                assert(after.deleted[i] == before.deleted[i]);
                assert(after.deleted[j] == before.deleted[j]);
            } else if i < before.deleted.len() {
                assert(before.deleted.contains(before.deleted[i]));
            } else if j < before.deleted.len() {
                assert(before.deleted.contains(before.deleted[j]));
            }
        }
    }
    assert forall|other: u64| other != id && before.in_use(other) implies after.in_use(other) by {
        if after.deleted.contains(other) {
            let k = choose|k: int| 0 <= k < after.deleted.len() && after.deleted[k] == other;
            if k < before.deleted.len() {
                assert(before.deleted[k] == other);
                assert(before.deleted.contains(other));
            }
        }
    }
    assert forall|c: u64| #[trigger] after.chunks.contains_key(c) implies after.in_use(c)
        && after.hashes.contains_key(after.chunks[c].0) && after.hashes[after.chunks[c].0]
        == c by {
        assert(before.chunks.contains_key(c));
        assert(before.hashes[before.chunks[c].0] == c);
    }
    assert forall|h: Seq<u8>| #[trigger] after.hashes.contains_key(h) implies after.in_use(
        after.hashes[h],
    ) by {
        assert(before.hashes.contains_key(h));
        assert(before.hashes.contains_key(hash));
        assert(before.hashes[hash] == id);
    }
    assert forall|c: u64| #[trigger]
        after.chunks.contains_key(c) && after.chunks[c].1 > 0 implies after.blobs.contains_key(
        after.chunks[c].0,
    ) by {
        assert(before.chunks.contains_key(c));
        assert(before.hashes[before.chunks[c].0] == c);
        assert(before.blobs.contains_key(before.chunks[c].0));
    }
}

/// Whether `id` is the identifier of one of the first `limit` of `entries`
/// that is without references.
pub open spec fn swept(entries: Seq<(u64, ChunkHash, u64)>, limit: int, id: u64) -> bool {
    exists|k: int| 0 <= k < limit && (#[trigger] entries[k]).0 == id && entries[k].2 == 0
}

/// Whether `hash` is the digest of one of the first `limit` of `entries`
/// that is without references.
pub open spec fn hash_swept(entries: Seq<(u64, ChunkHash, u64)>, limit: int, hash: Seq<u8>) -> bool {
    exists|k: int| 0 <= k < limit && (#[trigger] entries[k]).1@ == hash && entries[k].2 == 0
}

/// Whether `entries` lists what `chunks` holds, every chunk once.
pub open spec fn lists(entries: Seq<(u64, ChunkHash, u64)>, chunks: Map<u64, (Seq<u8>, u64)>) -> bool {
    &&& forall|i: int|
        0 <= i < entries.len() ==> chunks.contains_key((#[trigger] entries[i]).0) && chunks[entries[i].0]
            == (entries[i].1@, entries[i].2)
    &&& forall|id: u64|
        chunks.contains_key(id) ==> exists|i: int|
            0 <= i < entries.len() && (#[trigger] entries[i]).0 == id
    &&& forall|i: int, j: int|
        0 <= i < j < entries.len() ==> (#[trigger] entries[i]).0 != (#[trigger] entries[j]).0
}

/// Whether `hash` is the digest of a chunk without references.
pub open spec fn unreferenced(chunks: Map<u64, (Seq<u8>, u64)>, hash: Seq<u8>) -> bool {
    exists|id: u64| #[trigger] chunks.contains_key(id) && chunks[id].1 == 0 && chunks[id].0 == hash
}

/// What was swept of a list of chunks is a chunk without references.
pub proof fn lemma_swept(
    entries: Seq<(u64, ChunkHash, u64)>,
    chunks: Map<u64, (Seq<u8>, u64)>,
    limit: int,
)
    requires
        lists(entries, chunks),
        0 <= limit <= entries.len(),
    ensures
        forall|id: u64| #[trigger]
            swept(entries, limit, id) ==> chunks.contains_key(id) && chunks[id].1 == 0,
        forall|h: Seq<u8>| #[trigger] hash_swept(entries, limit, h) ==> unreferenced(chunks, h),
{
    assert forall|id: u64| #[trigger] swept(entries, limit, id) implies chunks.contains_key(id)
        && chunks[id].1 == 0 by {
        let k = choose|k: int| 0 <= k < limit && (#[trigger] entries[k]).0 == id && entries[k].2 == 0;
        assert(chunks[entries[k].0] == (entries[k].1@, entries[k].2));
    }
    assert forall|h: Seq<u8>| #[trigger] hash_swept(entries, limit, h) implies unreferenced(
        chunks,
        h,
    ) by {
        let k = choose|k: int| 0 <= k < limit && (#[trigger] entries[k]).1@ == h && entries[k].2 == 0;
        assert(chunks.contains_key(entries[k].0));
        assert(chunks[entries[k].0] == (entries[k].1@, entries[k].2));
    }
}

/// Every chunk without references is swept once the whole list is.
pub proof fn lemma_swept_all(
    entries: Seq<(u64, ChunkHash, u64)>,
    chunks: Map<u64, (Seq<u8>, u64)>,
    id: u64,
)
    requires
        lists(entries, chunks),
        chunks.contains_key(id),
        chunks[id].1 == 0,
    ensures
        swept(entries, entries.len() as int, id),
        hash_swept(entries, entries.len() as int, chunks[id].0),
{
    let k = choose|k: int| 0 <= k < entries.len() && (#[trigger] entries[k]).0 == id;
    assert(chunks[entries[k].0] == (entries[k].1@, entries[k].2));
}

/// Whether `after` is `before` without the chunks of the first `limit` of
/// `entries` that are without references: those chunks, their digests and
/// their blobs are gone, their identifiers are given back in the order of
/// `entries`, and everything else is as it was.
pub open spec fn swept_to(
    before: ChunkIndexView,
    after: ChunkIndexView,
    entries: Seq<(u64, ChunkHash, u64)>,
    limit: int,
    removed: Seq<u64>,
) -> bool {
    &&& after.next_id == before.next_id
    &&& after.chunk_size == before.chunk_size
    &&& after.max_chunk_count == before.max_chunk_count
    &&& after.deleted == before.deleted + removed
    &&& forall|id: u64|
        (#[trigger] after.chunks.contains_key(id)) == (before.chunks.contains_key(id) && !swept(
            entries,
            limit,
            id,
        ))
    &&& forall|id: u64| #[trigger]
        after.chunks.contains_key(id) ==> after.chunks[id] == before.chunks[id]
    &&& forall|k: int| 0 <= k < removed.len() ==> swept(entries, limit, #[trigger] removed[k])
    &&& forall|id: u64| swept(entries, limit, id) ==> #[trigger] removed.contains(id)
    &&& forall|h: Seq<u8>|
        hash_swept(entries, limit, h) ==> !(#[trigger] after.hashes.contains_key(h))
            && !after.blobs.contains_key(h)
    &&& forall|h: Seq<u8>| !hash_swept(entries, limit, h) ==> #[trigger] same_at(before, after, h)
}

/// What an index file makes of bytes that were decompressed, or could not
/// be.
pub open spec fn opened_index(plain: Option<Seq<u8>>) -> Result<IndexFile, ChunkError> {
    match plain {
        None => Err(ChunkError::InvalidData),
        Some(bytes) => parse_index(bytes),
    }
}

/// The index that an index file describes, over a store that holds `blobs`.
pub open spec fn index_of(file: IndexFile, blobs: Map<Seq<u8>, Seq<u8>>) -> ChunkIndexView {
    ChunkIndexView {
        next_id: file.next_id,
        deleted: file.deleted,
        chunks: built_chunks(file.entries),
        hashes: built_hashes(file.entries),
        chunk_size: file.chunk_size as usize,
        max_chunk_count: file.max_chunk_count as usize,
        blobs,
    }
}

/// The records of a list of chunks make the map that the list was taken
/// from, and lead from every digest to one of the chunks that have it.
#[verifier::rlimit(50)]
pub proof fn lemma_built(
    entries: Seq<(u64, ChunkHash, u64)>,
    chunks: Map<u64, (Seq<u8>, u64)>,
    limit: int,
)
    requires
        lists(entries, chunks),
        0 <= limit <= entries.len(),
    ensures
        forall|id: u64|
            (#[trigger] built_chunks(entry_views(entries).take(limit)).contains_key(id)) == (
            exists|k: int| 0 <= k < limit && (#[trigger] entries[k]).0 == id),
        forall|id: u64| #[trigger]
            built_chunks(entry_views(entries).take(limit)).contains_key(id) ==> built_chunks(
                entry_views(entries).take(limit),
            )[id] == chunks[id],
        forall|h: Seq<u8>| #[trigger]
            built_hashes(entry_views(entries).take(limit)).contains_key(h) ==> exists|k: int|
                0 <= k < limit && (#[trigger] entries[k]).1@ == h && built_hashes(
                    entry_views(entries).take(limit),
                )[h] == entries[k].0,
        forall|k: int|
            0 <= k < limit ==> built_hashes(entry_views(entries).take(limit)).contains_key(
                (#[trigger] entries[k]).1@,
            ),
    decreases limit,
{
    let views = entry_views(entries);
    if limit > 0 {
        lemma_built(entries, chunks, limit - 1);
        let shorter = views.take(limit - 1);
        let now = views.take(limit);
        assert(now.drop_last() =~= shorter);
        assert(now.last() == (entries[limit - 1].0, entries[limit - 1].1@, entries[limit - 1].2));
        assert forall|id: u64|
            (#[trigger] built_chunks(now).contains_key(id)) == (exists|k: int|
                0 <= k < limit && (#[trigger] entries[k]).0 == id) by {
            if built_chunks(now).contains_key(id) {
                if id != entries[limit - 1].0 {
                    assert(built_chunks(shorter).contains_key(id));
                    let k = choose|k: int| 0 <= k < limit - 1 && (#[trigger] entries[k]).0 == id;
                    assert(0 <= k < limit && entries[k].0 == id);
                } else {
                    assert(entries[limit - 1].0 == id);
                }
            }
            if exists|k: int| 0 <= k < limit && (#[trigger] entries[k]).0 == id {
                let k = choose|k: int| 0 <= k < limit && (#[trigger] entries[k]).0 == id;
                if k < limit - 1 {
                    assert(built_chunks(shorter).contains_key(id));
                }
            }
        }
        assert forall|id: u64| #[trigger] built_chunks(now).contains_key(id) implies built_chunks(
            now,
        )[id] == chunks[id] by {
            if id == entries[limit - 1].0 {
                assert(chunks[entries[limit - 1].0] == (entries[limit - 1].1@, entries[limit - 1].2));
            } else {
                assert(built_chunks(shorter).contains_key(id));
            }
        }
        assert forall|h: Seq<u8>| #[trigger] built_hashes(now).contains_key(h) implies exists|
            k: int,
        |
            0 <= k < limit && (#[trigger] entries[k]).1@ == h && built_hashes(now)[h]
                == entries[k].0 by {
            if h == entries[limit - 1].1@ {
                assert(entries[limit - 1].1@ == h && built_hashes(now)[h] == entries[limit - 1].0);
            } else {
                assert(built_hashes(shorter).contains_key(h));
                let k = choose|k: int|
                    0 <= k < limit - 1 && (#[trigger] entries[k]).1@ == h && built_hashes(
                        shorter,
                    )[h] == entries[k].0;
                assert(0 <= k < limit && entries[k].1@ == h && built_hashes(now)[h]
                    == entries[k].0);
            }
        }
        assert forall|k: int| 0 <= k < limit implies built_hashes(now).contains_key(
            (#[trigger] entries[k]).1@,
        ) by {
            if k < limit - 1 {
                assert(built_hashes(shorter).contains_key(entries[k].1@));
            }
        }
    } else {
        assert(views.take(0) =~= Seq::<(u64, Seq<u8>, u64)>::empty());
    }
}

/// The digests of the `count` chunks of `data`.
pub open spec fn piece_hashes(data: Seq<u8>, count: nat, size: nat) -> Seq<Seq<u8>> {
    Seq::new(count, |i: int| blake2b_256(piece(data, i as nat, count, size)))
}

/// The blob of a chunk: the tag of its compression, then the chunk under
/// that compression.
pub open spec fn blob_of(format: CompressionFormat, data: Seq<u8>) -> Option<Seq<u8>> {
    match compressed(format, data) {
        Some(stored) => Some(seq![format.tag()] + stored),
        None => None,
    }
}

/// The chunk that a blob holds. A blob without a byte ends too early; a tag
/// above three, or bytes that do not decompress, are invalid.
pub open spec fn blob_content(blob: Seq<u8>) -> Result<Seq<u8>, ChunkError> {
    if blob.len() == 0 {
        Err(ChunkError::UnexpectedEof)
    } else {
        match CompressionFormat::of_tag(blob[0]) {
            None => Err(ChunkError::InvalidData),
            Some(format) => match decompressed(format, blob.skip(1)) {
                None => Err(ChunkError::InvalidData),
                Some(data) => Ok(data),
            },
        }
    }
}

/// Makes the blob of a chunk. What comes out holds the chunk.
pub fn encode_blob(format: CompressionFormat, data: &[u8]) -> (blob: Option<Vec<u8>>)
    ensures
        blob.is_some() == blob_of(format, data@).is_some(),
        blob.is_some() ==> blob.unwrap()@ == blob_of(format, data@).unwrap(),
        blob.is_some() ==> blob_content(blob.unwrap()@) == Ok::<Seq<u8>, ChunkError>(data@),
{
    let mut stored = match compress(format, data) {
        Some(stored) => stored,
        None => {
            return None;
        },
    };
    let mut blob: Vec<u8> = Vec::new();
    blob.push(format.encode());
    let ghost body = stored@;
    blob.append(&mut stored);
    assert(blob@ =~= seq![format.tag()] + body);
    assert(blob@.skip(1) =~= body);
    Some(blob)
}

/// Reads the chunk that a blob holds.
pub fn decode_blob(blob: &[u8]) -> (result: Result<Vec<u8>, ChunkError>)
    ensures
        match blob_content(blob@) {
            Ok(data) => result is Ok && result.unwrap()@ == data,
            Err(e) => result is Err && result->Err_0 == e,
        },
{
    if blob.len() == 0 {
        return Err(ChunkError::UnexpectedEof);
    }
    let tag = blob[0];
    if tag > 3 {
        return Err(ChunkError::InvalidData);
    }
    let format = CompressionFormat::decode(tag);
    let body = slice_subrange(blob, 1, blob.len());
    assert(body@ =~= blob@.skip(1));
    match decompress(format, body) {
        Some(data) => Ok(data),
        None => Err(ChunkError::InvalidData),
    }
}

/// The views of a list of digests, in order.
pub open spec fn hash_views(hashes: Seq<ChunkHash>) -> Seq<Seq<u8>> {
    Seq::new(hashes.len(), |i: int| hashes[i]@)
}

/// Chunk `index` of the `count` chunks of `data`.
pub open spec fn piece_of(data: Seq<u8>, count: nat, size: nat, index: int) -> Seq<u8> {
    piece(data, index as nat, count, size)
}

/// Whether `blobs` holds, under the digest of chunk `index` of `data`, a
/// blob that reads back as a chunk of `data` with that digest, one of those
/// from `index` up to `limit`.
pub open spec fn stored_as_piece(
    blobs: Map<Seq<u8>, Seq<u8>>,
    data: Seq<u8>,
    count: nat,
    size: nat,
    index: int,
    limit: int,
) -> bool {
    let hash = blake2b_256(piece_of(data, count, size, index));
    blobs.contains_key(hash) && exists|j: int|
        index <= j < limit && blake2b_256(#[trigger] piece_of(data, count, size, j)) == hash
            && blob_content(blobs[hash]) == Ok::<Seq<u8>, ChunkError>(
            piece_of(data, count, size, j),
        )
}

/// Whether `hash` is one of the first `limit` of `hashes`.
pub open spec fn among(hashes: Seq<Seq<u8>>, limit: int, hash: Seq<u8>) -> bool {
    exists|k: int| 0 <= k < limit && #[trigger] hashes[k] == hash
}

/// Whether the chunks of the first `limit` of `hashes` are all referenced.
pub open spec fn all_referenced(index: ChunkIndexView, hashes: Seq<Seq<u8>>, limit: int) -> bool {
    forall|k: int| 0 <= k < limit ==> index.referenced(#[trigger] hashes[k])
}

/// Whether `after` knows of the digest `hash` what `before` knows: the same
/// identifier or none, the same blob or none.
pub open spec fn same_at(before: ChunkIndexView, after: ChunkIndexView, hash: Seq<u8>) -> bool {
    &&& after.hashes.contains_key(hash) == before.hashes.contains_key(hash)
    &&& after.hashes.contains_key(hash) ==> after.hashes[hash] == before.hashes[hash]
    &&& after.blobs.contains_key(hash) == before.blobs.contains_key(hash)
    &&& after.blobs.contains_key(hash) ==> after.blobs[hash] == before.blobs[hash]
}

/// The index after each of `hashes` was given its identifier, in order.
pub open spec fn identified_all(index: ChunkIndexView, hashes: Seq<Seq<u8>>) -> ChunkIndexView
    decreases hashes.len(),
{
    if hashes.len() == 0 {
        index
    } else {
        identified_all(index, hashes.drop_last()).with_identifier_for(hashes.last())
    }
}

/// The identifiers that `index` has for `hashes`, in order.
pub open spec fn assigned_ids(index: ChunkIndexView, hashes: Seq<Seq<u8>>) -> Seq<u64> {
    Seq::new(hashes.len(), |i: int| index.hashes[hashes[i]])
}

/// Digests that are known are given no identifier.
pub proof fn lemma_already_identified(index: ChunkIndexView, hashes: Seq<Seq<u8>>)
    requires
        forall|i: int| 0 <= i < hashes.len() ==> index.hashes.contains_key(#[trigger] hashes[i]),
    ensures
        identified_all(index, hashes) == index,
    decreases hashes.len(),
{
    if hashes.len() > 0 {
        assert forall|i: int| 0 <= i < hashes.drop_last().len() implies index.hashes.contains_key(
            #[trigger] hashes.drop_last()[i],
        ) by {
            assert(hashes.drop_last()[i] == hashes[i]);
        }
        lemma_already_identified(index, hashes.drop_last());
        assert(index.hashes.contains_key(hashes[hashes.len() - 1]));
    }
}

/// Giving digests their identifiers leaves every digest that is known with
/// the identifier that it has.
pub proof fn lemma_identified_keeps(index: ChunkIndexView, hashes: Seq<Seq<u8>>, hash: Seq<u8>)
    requires
        index.hashes.contains_key(hash),
    ensures
        identified_all(index, hashes).hashes.contains_key(hash),
        identified_all(index, hashes).hashes[hash] == index.hashes[hash],
    decreases hashes.len(),
{
    if hashes.len() > 0 {
        lemma_identified_keeps(index, hashes.drop_last(), hash);
    }
}

/// Storing again what is stored hands out no identifier and finds the same
/// identifiers: in an index in which the chunks of digests `hashes` have the
/// identifiers `ids` and are referenced, as they are after they were stored,
/// every one of them is referenced, none of them is given an identifier,
/// and the identifiers that they have are `ids`.
pub proof fn lemma_stored_again(index: ChunkIndexView, hashes: Seq<Seq<u8>>, ids: Seq<u64>)
    requires
        ids.len() == hashes.len(),
        forall|i: int|
            0 <= i < hashes.len() ==> index.hashes.contains_key(#[trigger] hashes[i])
                && index.hashes[hashes[i]] == ids[i] && index.refcount(ids[i]) > 0,
    ensures
        all_referenced(index, hashes, hashes.len() as int),
        identified_all(index, hashes) == index,
        assigned_ids(identified_all(index, hashes), hashes) == ids,
{
    lemma_already_identified(index, hashes);
    assert(assigned_ids(index, hashes) =~= ids);
}

/// Whether the chunk of the digest at `place` in `hashes` can get no
/// identifier once the chunks of the digests before it have theirs.
pub open spec fn exhausted_at(index: ChunkIndexView, hashes: Seq<Seq<u8>>, place: int) -> bool {
    0 <= place < hashes.len() && !identified_all(index, hashes.take(place)).can_identify(
        hashes[place],
    )
}

/// Whether chunk `place` of the `count` chunks of `data` has no blob under
/// `compression`: the encoder fails on it.
pub open spec fn unencodable_at(
    data: Seq<u8>,
    count: nat,
    size: nat,
    compression: CompressionFormat,
    place: int,
) -> bool {
    0 <= place < count && blob_of(compression, piece_of(data, count, size, place)) is None
}

/// Whether two indexes hand out the same identifiers and know the same
/// digests.
pub open spec fn same_identifiers(one: ChunkIndexView, other: ChunkIndexView) -> bool {
    one.hashes == other.hashes && one.next_id == other.next_id && one.deleted == other.deleted
}

/// Whether no two chunks that matter for storing `data` as `count` chunks
/// of `size` bytes share a digest: chunks of `data` with one digest are the
/// same, and a chunk of `data` that is referenced already has a blob that
/// reads back as that chunk.
pub open spec fn collision_free_in(index: ChunkIndexView, data: Seq<u8>, count: nat, size: nat)
    -> bool {
    let hashes = piece_hashes(data, count, size);
    &&& forall|i: int, j: int|
        0 <= i < count && 0 <= j < count && #[trigger] hashes[i] == #[trigger] hashes[j]
            ==> piece_of(data, count, size, i) == piece_of(data, count, size, j)
    &&& forall|i: int|
        0 <= i < count && index.referenced(#[trigger] hashes[i]) ==> index.blobs.contains_key(
            hashes[i],
        ) && blob_content(index.blobs[hashes[i]]) == Ok::<Seq<u8>, ChunkError>(
            piece_of(data, count, size, i),
        )
}

/// Whether no two chunks that matter for storing `data` share a digest,
/// with the chunks that `index` cuts `data` into.
pub open spec fn collision_free(index: ChunkIndexView, data: Seq<u8>) -> bool {
    collision_free_in(index, data, file_plan(index, data).0, file_plan(index, data).1)
}

/// The number and the size of the chunks that `index` cuts `data` into.
pub open spec fn file_plan(index: ChunkIndexView, data: Seq<u8>) -> (nat, nat) {
    chunk_plan(data.len(), index.chunk_size as nat, index.max_chunk_count as nat)
}

/// The digests of the chunks that `index` cuts `data` into.
pub open spec fn file_hashes(index: ChunkIndexView, data: Seq<u8>) -> Seq<Seq<u8>> {
    piece_hashes(data, file_plan(index, data).0, file_plan(index, data).1)
}

/// Whether the store of `after` holds, for chunk `i` of `data`, a blob that
/// reads back as a chunk of `data` with the digest of chunk `i`, that chunk
/// or a later one.
pub open spec fn reads_back(before: ChunkIndexView, after: ChunkIndexView, data: Seq<u8>, i: int)
    -> bool {
    stored_as_piece(
        after.blobs,
        data,
        file_plan(before, data).0,
        file_plan(before, data).1,
        i,
        file_plan(before, data).0 as int,
    )
}

/// Whether `file` holds what `index` holds: the identifiers that were given
/// back, the counter, size and largest number of chunks, and the chunks; and
/// whether the digest of every chunk leads to an identifier in it, in a
/// sound index to the one that the digest has.
pub open spec fn saved(index: ChunkIndexView, file: IndexFile) -> bool {
    &&& file.deleted == index.deleted
    &&& file.next_id == index.next_id
    &&& file.chunk_size == index.chunk_size
    &&& file.max_chunk_count == index.max_chunk_count
    &&& built_chunks(file.entries) == index.chunks
    &&& forall|id: u64| #[trigger]
        index.chunks.contains_key(id) ==> built_hashes(file.entries).contains_key(
            index.chunks[id].0,
        )
    &&& index.well_formed() ==> forall|h: Seq<u8>| #[trigger]
        built_hashes(file.entries).contains_key(h) ==> index.hashes.contains_key(h)
            && built_hashes(file.entries)[h] == index.hashes[h]
}

/// A result that holds bytes, seen as a result that holds their sequence.
pub open spec fn bytes_view(result: Result<Vec<u8>, ChunkError>) -> Result<Seq<u8>, ChunkError> {
    match result {
        Ok(bytes) => Ok(bytes@),
        Err(e) => Err(e),
    }
}

/// Whether `result` is what writing `file`, a file that holds `index`, comes
/// to: the bytes that the DEFLATE encoder makes of the file, or the failure
/// of the encoder.
pub open spec fn written_as(
    index: ChunkIndexView,
    file: IndexFile,
    result: Result<Seq<u8>, ChunkError>,
) -> bool {
    saved(index, file) && result == match compressed(
        CompressionFormat::Deflate,
        file::index_bytes(file),
    ) {
        Some(bytes) => Ok::<Seq<u8>, ChunkError>(bytes),
        None => Err::<Seq<u8>, ChunkError>(ChunkError::CompressionFailed),
    }
}

/// Whether every chunk of `chunks` is referenced.
pub open spec fn none_unreferenced(chunks: Map<u64, (Seq<u8>, u64)>) -> bool {
    forall|id: u64| #[trigger] chunks.contains_key(id) ==> chunks[id].1 > 0
}

/// The chunk index: which chunks there are, what identifies them, and how
/// often each is referenced.
pub struct ChunkIndex<S: ChunkStorage> {
    storage: S,
    next_id: u64,
    deleted_chunks: VecDeque<u64>,
    chunks: IdMap,
    chunk_hashes: HashIndex,
    chunk_size: usize,
    max_chunk_count: usize,
}

impl<S: ChunkStorage> View for ChunkIndex<S> {
    type V = ChunkIndexView;

    closed spec fn view(&self) -> ChunkIndexView {
        ChunkIndexView {
            next_id: self.next_id,
            deleted: self.deleted_chunks@,
            chunks: id_map_contents(self.chunks),
            hashes: hash_map_contents(self.chunk_hashes),
            chunk_size: self.chunk_size,
            max_chunk_count: self.max_chunk_count,
            blobs: self.storage.blobs(),
        }
    }
}

impl<S: ChunkStorage> ChunkIndex<S> {
    /// A fresh index over `storage`: no chunks, no identifiers given back,
    /// the first identifier to hand out is 1.
    pub fn new(chunk_size: usize, max_chunk_count: usize, storage: S) -> (index: Self)
        ensures
            index@ == (ChunkIndexView {
                next_id: 1,
                deleted: Seq::empty(),
                chunks: Map::empty(),
                hashes: Map::empty(),
                chunk_size,
                max_chunk_count,
                blobs: storage.blobs(),
            }),
            index@.well_formed(),
    {
        let index = ChunkIndex {
            storage,
            next_id: 1,
            deleted_chunks: VecDeque::new(),
            chunks: id_map_new(10_000, 1024),
            chunk_hashes: hash_map_new(10_000, 1024),
            chunk_size,
            max_chunk_count,
        };
        assert(index@.chunks =~= Map::empty());
        assert(index@.hashes =~= Map::empty());
        index
    }

    /// Opens the index that an index file holds, over `storage`.
    ///
    /// The file is handed to the DEFLATE decoder; what comes of it decides
    /// as `open_with` says.
    pub fn open(bytes: &[u8], storage: S) -> (result: Result<Self, ChunkError>)
        ensures
            match opened_index(deflate_decoded(bytes@)) {
                Ok(file) => result is Ok && result.unwrap()@ == index_of(file, storage.blobs()),
                Err(e) => result is Err && result->Err_0 == e,
            },
    {
        let plain = decompress(CompressionFormat::Deflate, bytes);
        Self::open_with(plain, storage)
    }

    /// Opens the index that an index file holds, over `storage`, given what
    /// the file decompresses to (`None` where it does not decompress).
    ///
    /// The chunks are those of the records of the file, and every digest
    /// leads to the identifier of its record. Nothing is looked up in the
    /// store.
    #[verifier::rlimit(50)]
    pub fn open_with(plain: Option<Vec<u8>>, storage: S) -> (result: Result<Self, ChunkError>)
        ensures
            match opened_index(crate::archive::optional_bytes(plain)) {
                Ok(file) => result is Ok && result.unwrap()@ == index_of(file, storage.blobs()),
                Err(e) => result is Err && result->Err_0 == e,
            },
    {
        let bytes = match plain {
            Some(bytes) => bytes,
            None => {
                return Err(ChunkError::InvalidData);
            },
        };
        let data = match decode_index(bytes) {
            Ok(data) => data,
            Err(e) => {
                return Err(e);
            },
        };
        let mut deleted_chunks: VecDeque<u64> = VecDeque::new();
        let mut i: usize = 0;
        while i < data.deleted.len()
            invariant
                i <= data.deleted@.len(),
                deleted_chunks@ == data.deleted@.take(i as int),
            decreases data.deleted@.len() - i,
        {
            deleted_chunks.push_back(data.deleted[i]);
            i = i + 1;
            assert(deleted_chunks@ =~= data.deleted@.take(i as int));
        }
        assert(data.deleted@.take(i as int) =~= data.deleted@);
        let mut chunks = id_map_new(10_000, 1024);
        let mut chunk_hashes = hash_map_new(10_000, 1024);
        let ghost records = entry_views(data.entries@);
        let mut j: usize = 0;
        assert(records.take(0) =~= Seq::<(u64, Seq<u8>, u64)>::empty());
        assert(id_map_contents(chunks) =~= built_chunks(records.take(0)));
        assert(hash_map_contents(chunk_hashes) =~= built_hashes(records.take(0)));
        while j < data.entries.len()
            invariant
                j <= data.entries@.len(),
                records == entry_views(data.entries@),
                id_map_contents(chunks) == built_chunks(records.take(j as int)),
                hash_map_contents(chunk_hashes) == built_hashes(records.take(j as int)),
            decreases data.entries@.len() - j,
        {
            let (id, hash, count) = data.entries[j];
            id_map_insert(&mut chunks, id, hash, count);
            hash_map_insert(&mut chunk_hashes, hash, id);
            j = j + 1;
            proof {
                assert(records.take(j as int).drop_last() =~= records.take(j - 1));
                assert(records.take(j as int).last() == (id, hash@, count));
            }
        }
        assert(records.take(j as int) =~= records);
        Ok(
            ChunkIndex {
                storage,
                next_id: data.next_id,
                deleted_chunks,
                chunks,
                chunk_hashes,
                chunk_size: data.chunk_size as usize,
                max_chunk_count: data.max_chunk_count as usize,
            },
        )
    }

    /// Writes the index as an index file: header, identifiers that were
    /// given back and one record for every chunk, in no order that can be
    /// relied on, all of it under DEFLATE.
    ///
    /// A size or a largest number of chunks that the header has no room for
    /// is refused, and nothing else is but a file that the encoder fails
    /// on. Opening what comes out gives the identifiers, the counter
    /// and the chunks back, and leads from the digest of every chunk to an
    /// identifier; in a sound index to the one that the digest has.
    #[verifier::rlimit(50)]
    pub fn save(&self) -> (result: Result<Vec<u8>, ChunkError>)
        ensures
            self@.chunk_size > u32::MAX || self@.max_chunk_count > u32::MAX ==> result == Err::<
                Vec<u8>,
                ChunkError,
            >(ChunkError::InvalidChunkSize),
            result is Err ==> result->Err_0 == ChunkError::InvalidChunkSize || result->Err_0
                == ChunkError::CompressionFailed,
            result is Ok ==> opened_index(deflate_decoded(result.unwrap()@)) is Ok && saved(
                self@,
                opened_index(deflate_decoded(result.unwrap()@)).unwrap(),
            ),
            self@.chunk_size <= u32::MAX && self@.max_chunk_count <= u32::MAX ==> exists|
                file: IndexFile,
            |
                written_as(
                    self@,
                    file,
                    bytes_view(result),
                ),
    {
        if self.chunk_size > u32::MAX as usize || self.max_chunk_count > u32::MAX as usize {
            return Err(ChunkError::InvalidChunkSize);
        }
        let mut deleted: Vec<u64> = Vec::new();
        let mut i: usize = 0;
        while i < self.deleted_chunks.len()
            invariant
                i <= self.deleted_chunks@.len(),
                deleted@ == self.deleted_chunks@.take(i as int),
            decreases self.deleted_chunks@.len() - i,
        {
            deleted.push(self.deleted_chunks[i]);
            i = i + 1;
            assert(deleted@ =~= self.deleted_chunks@.take(i as int));
        }
        assert(self.deleted_chunks@.take(i as int) =~= self.deleted_chunks@);
        let entries = id_map_entries(&self.chunks);
        let data = IndexData {
            deleted,
            chunk_size: self.chunk_size as u32,
            max_chunk_count: self.max_chunk_count as u32,
            next_id: self.next_id,
            entries,
        };
        let plain = encode_index(&data);
        proof {
            assert forall|k: int| 0 <= k < data@.entries.len() implies (#[trigger] data@.entries[k]).1.len()
                == 32 by {
                assert(data@.entries[k].1 == data.entries@[k].1@);
            }
            assert(data.entries.len() <= usize::MAX);
            assert(data@.entries.len() == data.entries@.len());
            lemma_parse_index_bytes(data@);
            lemma_built(data.entries@, self@.chunks, data.entries@.len() as int);
            let records = entry_views(data.entries@);
            assert(records.take(records.len() as int) =~= records);
            assert(built_chunks(records) =~= self@.chunks) by {
                assert forall|id: u64| built_chunks(records).contains_key(id)
                    == self@.chunks.contains_key(id) by {
                    if self@.chunks.contains_key(id) {
                        let k = choose|k: int|
                            0 <= k < data.entries@.len() && (#[trigger] data.entries@[k]).0 == id;
                        assert(built_chunks(records).contains_key(id));
                    }
                }
            }
            assert forall|id: u64| #[trigger] self@.chunks.contains_key(id) implies built_hashes(
                records,
            ).contains_key(self@.chunks[id].0) by {
                let k = choose|k: int|
                    0 <= k < data.entries@.len() && (#[trigger] data.entries@[k]).0 == id;
                assert(self@.chunks[data.entries@[k].0] == (data.entries@[k].1@, data.entries@[k].2));
                assert(built_hashes(records).contains_key(data.entries@[k].1@));
            }
            if self@.well_formed() {
                assert forall|h: Seq<u8>| #[trigger]
                    built_hashes(records).contains_key(h) implies self@.hashes.contains_key(h)
                    && built_hashes(records)[h] == self@.hashes[h] by {
                    let k = choose|k: int|
                        0 <= k < data.entries@.len() && (#[trigger] data.entries@[k]).1@ == h
                            && built_hashes(records)[h] == data.entries@[k].0;
                    assert(self@.chunks.contains_key(data.entries@[k].0));
                    assert(self@.chunks[data.entries@[k].0] == (
                        data.entries@[k].1@,
                        data.entries@[k].2,
                    ));
                }
            }
        }
        let result = match compress(CompressionFormat::Deflate, plain.as_slice()) {
            Some(bytes) => Ok(bytes),
            None => Err(ChunkError::CompressionFailed),
        };
        proof {
            assert(saved(self@, data@));
            assert(written_as(
                self@,
                data@,
                bytes_view(result),
            ));
        }
        result
    }

    /// The store of the index.
    pub fn storage(&self) -> (storage: &S)
        ensures
            storage.blobs() == self@.blobs,
    {
        &self.storage
    }

    /// The size of chunk that the index aims at.
    pub fn chunk_size(&self) -> (size: usize)
        ensures
            size == self@.chunk_size,
    {
        self.chunk_size
    }

    /// The number of chunks per file that the index aims at; zero for no
    /// limit.
    pub fn max_chunk_count(&self) -> (count: usize)
        ensures
            count == self@.max_chunk_count,
    {
        self.max_chunk_count
    }

    /// The number of references to the chunk of digest `chunk`; none where
    /// the digest is not known.
    pub fn references(&self, chunk: &ChunkHash) -> (count: u64)
        ensures
            count == if self@.hashes.contains_key(chunk@) {
                self@.refcount(self@.hashes[chunk@])
            } else {
                0
            },
    {
        match hash_map_get(&self.chunk_hashes, chunk) {
            Some(id) => match id_map_get(&self.chunks, id) {
                Some((_, count)) => count,
                None => 0,
            },
            None => 0,
        }
    }

    /// The identifier of the chunk of digest `chunk`, where it is known.
    pub fn get_chunk_id(&self, chunk: &ChunkHash) -> (id: Option<u64>)
        ensures
            id is Some == self@.hashes.contains_key(chunk@),
            id is Some ==> id.unwrap() == self@.hashes[chunk@],
    {
        hash_map_get(&self.chunk_hashes, chunk)
    }

    /// Hands out an identifier: the oldest that was given back, or the
    /// counter, which then moves on. None is left when nothing was given
    /// back and the counter has reached its end.
    pub fn next_id(&mut self) -> (id: Option<u64>)
        ensures
            id is Some == old(self)@.can_allocate(),
            id is Some ==> id.unwrap() == old(self)@.next_identifier(),
            final(self)@ == old(self)@.after_allocation(),
    {
        match self.deleted_chunks.pop_front() {
            Some(id) => {
                assert(self.deleted_chunks@ =~= old(self).deleted_chunks@.skip(1));
                Some(id)
            },
            None => {
                if self.next_id == u64::MAX {
                    return None;
                }
                let id = self.next_id;
                self.next_id = self.next_id + 1;
                Some(id)
            },
        }
    }

    /// Makes the chunk of digest `chunk` known and stores its blob, unless
    /// the chunk is referenced already; gives its identifier.
    ///
    /// A digest that is known keeps its identifier; one that is not gets the
    /// next, and the call fails where none is left. The number of references
    /// is left as it is. Where the chunk is referenced nothing is stored and
    /// the call succeeds. Otherwise the blob of `data` under `compression` is
    /// written to the store, and the store decides whether the call succeeds;
    /// the digest stays known either way.
    #[verifier::rlimit(50)]
    pub fn add_chunk(&mut self, chunk: &ChunkHash, data: &[u8], compression: CompressionFormat) -> (result:
        Result<u64, ChunkError>)
        ensures
            final(self)@.hashes == old(self)@.with_identifier_for(chunk@).hashes,
            final(self)@.next_id == old(self)@.with_identifier_for(chunk@).next_id,
            final(self)@.deleted == old(self)@.with_identifier_for(chunk@).deleted,
            final(self)@.chunks == old(self)@.chunks,
            final(self)@.chunk_size == old(self)@.chunk_size,
            final(self)@.max_chunk_count == old(self)@.max_chunk_count,
            old(self)@.well_formed() ==> final(self)@.well_formed(),
            result is Ok ==> result.unwrap() == old(self)@.identifier_for(chunk@) && old(self)@.can_identify(chunk@),
            !old(self)@.can_identify(chunk@) ==> result == Err::<u64, ChunkError>(
                ChunkError::Exhausted,
            ) && final(self)@ == old(self)@,
            old(self)@.can_identify(chunk@) && old(self)@.refcount(
                old(self)@.identifier_for(chunk@),
            ) > 0 ==> result is Ok && final(self)@.blobs == old(self)@.blobs,
            old(self)@.can_identify(chunk@) && old(self)@.refcount(
                old(self)@.identifier_for(chunk@),
            ) == 0 ==> match blob_of(compression, data@) {
                None => result == Err::<u64, ChunkError>(ChunkError::CompressionFailed) && final(self)@.blobs
                    == old(self)@.blobs,
                Some(blob) => (result is Ok ==> final(self)@.blobs == old(self)@.blobs.insert(
                    chunk@,
                    blob,
                ) && blob_content(blob) == Ok::<Seq<u8>, ChunkError>(data@)) && (result is Err
                    ==> result->Err_0 is Storage && others_kept(
                    old(self)@.blobs,
                    final(self)@.blobs,
                    chunk@,
                )),
            },
    {
        let id = match hash_map_get(&self.chunk_hashes, chunk) {
            Some(id) => id,
            None => {
                let id = match self.next_id() {
                    Some(id) => id,
                    None => {
                        return Err(ChunkError::Exhausted);
                    },
                };
                hash_map_insert(&mut self.chunk_hashes, *chunk, id);
                id
            },
        };
        let ghost identified = self@;
        proof {
            assert(identified == (ChunkIndexView {
                blobs: old(self)@.blobs,
                ..old(self)@.with_identifier_for(chunk@)
            }));
            if old(self)@.well_formed() {
                lemma_identified(old(self)@, chunk@);
            }
        }
        let has_references = match id_map_get(&self.chunks, id) {
            Some((_, count)) => count > 0,
            None => false,
        };
        if has_references {
            return Ok(id);
        }
        let blob = match encode_blob(compression, data) {
            Some(blob) => blob,
            None => {
                return Err(ChunkError::CompressionFailed);
            },
        };
        let outcome = self.storage.write_chunk_content(chunk, blob);
        proof {
            if old(self)@.well_formed() {
                let after = self@;
                assert forall|c: u64| #[trigger]
                    after.chunks.contains_key(c) && after.chunks[c].1 > 0 implies after.blobs.contains_key(
                    after.chunks[c].0,
                ) by {
                    assert(identified.blobs.contains_key(identified.chunks[c].0));
                    if identified.chunks[c].0 == chunk@ {
                        assert(identified.hashes[chunk@] == c);
                    }
                }
            }
        }
        match outcome {
            Ok(()) => Ok(id),
            Err(e) => Err(ChunkError::Storage(e)),
        }
    }

    /// Counts a reference to each of `ids`, in order; a chunk that is not
    /// known yet becomes known with the digest that stands for it in
    /// `hashes`.
    pub fn reference_chunks(&mut self, ids: &[u64], hashes: &[ChunkHash])
        requires
            ids@.len() == hashes@.len(),
        ensures
            final(self)@ == (ChunkIndexView {
                chunks: with_references(old(self)@.chunks, ids@, hash_views(hashes@)),
                ..old(self)@
            }),
    {
        let ghost views = hash_views(hashes@);
        let mut i: usize = 0;
        assert(ids@.take(0) =~= Seq::<u64>::empty());
        while i < ids.len()
            invariant
                i <= ids@.len(),
                ids@.len() == hashes@.len(),
                views == hash_views(hashes@),
                self@ == (ChunkIndexView {
                    chunks: with_references(
                        old(self)@.chunks,
                        ids@.take(i as int),
                        views.take(i as int),
                    ),
                    ..old(self)@
                }),
            decreases ids@.len() - i,
        {
            let id = ids[i];
            let (hash, count) = match id_map_get(&self.chunks, id) {
                Some((hash, count)) => (hash, if count < u64::MAX {
                    count + 1
                } else {
                    u64::MAX
                }),
                None => (hashes[i], 1),
            };
            id_map_insert(&mut self.chunks, id, hash, count);
            i = i + 1;
            proof {
                assert(ids@.take(i as int).drop_last() =~= ids@.take(i - 1));
                assert(views.take(i as int).drop_last() =~= views.take(i - 1));
                assert(views.take(i as int).last() == hashes@[i - 1]@);
            }
        }
        proof {
            assert(ids@.take(ids@.len() as int) =~= ids@);
            assert(views.take(ids@.len() as int) =~= views);
        }
    }

    /// Cuts `data` into chunks, makes each of them known, stores the blobs
    /// of those that are not referenced yet, and then counts a reference to
    /// each; gives the identifiers of the chunks in the order of the data.
    ///
    /// The chunks are those of `chunk_plan`. An index whose chunk size is
    /// zero cuts nothing. Where every chunk is referenced already, nothing
    /// is stored, no identifier is handed out, and the call succeeds; after
    /// a call that succeeded every chunk of `data` is referenced, so that
    /// storing the same data again changes the numbers of references and
    /// nothing else. A chunk that was not referenced reads back from the
    /// store as the chunk of `data` that was stored last under its digest
    /// (the chunk itself, unless two chunks of `data` share a digest). No
    /// reference is counted by a call that fails.
    ///
    /// The call fails where the chunk size of the index is zero, where a
    /// chunk can get no identifier because none is left, where the encoder
    /// fails on a chunk that is not referenced yet, and where the store
    /// fails to write; for no other reason.
    pub fn chunk_file(&mut self, data: &[u8], compression: CompressionFormat) -> (result: Result<
        Vec<u64>,
        ChunkError,
    >)
        ensures
            final(self)@.chunk_size == old(self)@.chunk_size,
            final(self)@.max_chunk_count == old(self)@.max_chunk_count,
            old(self)@.well_formed() ==> final(self)@.well_formed(),
            old(self)@.chunk_size == 0 ==> result == Err::<Vec<u64>, ChunkError>(
                ChunkError::InvalidChunkSize,
            ) && final(self)@ == old(self)@,
            result is Ok ==> result.unwrap()@.len() == file_hashes(old(self)@, data@).len(),
            result is Ok ==> final(self)@.chunks == with_references(
                old(self)@.chunks,
                result.unwrap()@,
                file_hashes(old(self)@, data@),
            ),
            result is Ok ==> same_identifiers(
                final(self)@,
                identified_all(old(self)@, file_hashes(old(self)@, data@)),
            ),
            result is Ok ==> forall|i: int|
                0 <= i < result.unwrap()@.len() ==> final(self)@.hashes.contains_key(
                    #[trigger] file_hashes(old(self)@, data@)[i],
                ) && final(self)@.hashes[file_hashes(old(self)@, data@)[i]] == result.unwrap()@[i]
                    && final(self)@.refcount(result.unwrap()@[i]) > 0,
            result is Ok && old(self)@.well_formed() ==> forall|i: int|
                0 <= i < result.unwrap()@.len() && !old(self)@.referenced(
                    #[trigger] file_hashes(old(self)@, data@)[i],
                ) ==> reads_back(old(self)@, final(self)@, data@, i),
            result is Err ==> final(self)@.chunks == old(self)@.chunks && (result->Err_0
                is Storage || result->Err_0 == ChunkError::CompressionFailed || result->Err_0
                == ChunkError::Exhausted || result->Err_0 == ChunkError::InvalidChunkSize),
            result is Err && result->Err_0 == ChunkError::InvalidChunkSize ==> old(self)@.chunk_size
                == 0,
            result is Ok ==> forall|h: Seq<u8>| #[trigger]
                old(self)@.referenced(h) ==> final(self)@.referenced(h),
            result is Err && result->Err_0 == ChunkError::Exhausted ==> exists|k: int|
                exhausted_at(old(self)@, file_hashes(old(self)@, data@), k),
            old(self)@.chunk_size > 0 && (exists|k: int| exhausted_at(old(self)@, file_hashes(old(self)@, data@), k))
                ==> result is Err,
            result is Err && result->Err_0 == ChunkError::CompressionFailed ==> exists|k: int|
                unencodable_at(
                    data@,
                    file_plan(old(self)@, data@).0,
                    file_plan(old(self)@, data@).1,
                    compression,
                    k,
                ),
            old(self)@.chunk_size > 0 && all_referenced(
                old(self)@,
                file_hashes(old(self)@, data@),
                file_hashes(old(self)@, data@).len() as int,
            ) ==> result is Ok && final(self)@ == (ChunkIndexView {
                chunks: final(self)@.chunks,
                ..old(self)@
            }),
            forall|h: Seq<u8>|
                !among(
                    file_hashes(old(self)@, data@),
                    file_hashes(old(self)@, data@).len() as int,
                    h,
                ) ==> #[trigger] same_at(old(self)@, final(self)@, h),
            forall|h: Seq<u8>| #[trigger]
                old(self)@.referenced(h) && old(self)@.blobs.contains_key(h) ==> final(self)@.blobs.contains_key(h) && final(self)@.blobs[h] == old(self)@.blobs[h],
            result is Ok && old(self)@.well_formed() && collision_free(old(self)@, data@)
                ==> reader::chunks_content(final(self)@, result.unwrap()@) == Some(data@),
    {
        if self.chunk_size == 0 {
            return Err(ChunkError::InvalidChunkSize);
        }
        let (count, size) = plan_chunks(data.len(), self.chunk_size, self.max_chunk_count);
        proof {
            plan::lemma_all_pieces_joined(
                data@,
                self@.chunk_size as nat,
                self@.max_chunk_count as nat,
            );
            assert(file_plan(self@, data@) == (count as nat, size as nat));
            assert(file_hashes(self@, data@) == piece_hashes(data@, count as nat, size as nat));
        }
        self.chunk_file_parallel(data, compression, size, count)
    }

    /// Stores `data` as `chunk_count` chunks of `chunk_size` bytes, the last
    /// of which takes what is left: makes each chunk known, stores the blobs
    /// of those that are not referenced yet, puts the results into the order
    /// of the data, and then counts a reference to each chunk; gives the
    /// identifiers in that order.
    ///
    /// Each chunk is worked on by its number and its boundaries alone, and
    /// the results are put in order by those numbers; references are counted
    /// only when every chunk is done. Where every chunk is referenced
    /// already, nothing is stored, no identifier is handed out, and the call
    /// succeeds. A chunk that was not referenced reads back
    /// from the store as the chunk of `data` that was stored last under its
    /// digest. No reference is counted by a call that fails.
    ///
    /// The call fails where a chunk can get no identifier because none is
    /// left, where the encoder fails on a chunk that is not referenced yet,
    /// and where the store fails to write; for no other reason.
    #[verifier::rlimit(50)]
    pub fn chunk_file_parallel(
        &mut self,
        data: &[u8],
        compression: CompressionFormat,
        chunk_size: usize,
        chunk_count: usize,
    ) -> (result: Result<Vec<u64>, ChunkError>)
        ensures
            final(self)@.chunk_size == old(self)@.chunk_size,
            final(self)@.max_chunk_count == old(self)@.max_chunk_count,
            old(self)@.well_formed() ==> final(self)@.well_formed(),
            result is Ok ==> result.unwrap()@.len() == chunk_count,
            result is Ok ==> final(self)@.chunks == with_references(
                old(self)@.chunks,
                result.unwrap()@,
                piece_hashes(data@, chunk_count as nat, chunk_size as nat),
            ),
            result is Ok ==> same_identifiers(final(self)@, identified_all(old(self)@, piece_hashes(data@, chunk_count as nat, chunk_size as nat))),
            result is Ok ==> forall|h: Seq<u8>| #[trigger]
                old(self)@.referenced(h) ==> final(self)@.referenced(h),
            result is Ok ==> forall|i: int|
                0 <= i < chunk_count ==> final(self)@.hashes.contains_key(#[trigger] piece_hashes(data@, chunk_count as nat, chunk_size as nat)[i])
                    && final(self)@.hashes[piece_hashes(data@, chunk_count as nat, chunk_size as nat)[i]] == result.unwrap()@[i] && final(self)@.refcount(
                    result.unwrap()@[i],
                ) > 0,
            result is Ok && old(self)@.well_formed() ==> forall|i: int|
                0 <= i < chunk_count && !old(self)@.referenced(#[trigger] piece_hashes(data@, chunk_count as nat, chunk_size as nat)[i])
                    ==> stored_as_piece(
                    final(self)@.blobs,
                    data@,
                    chunk_count as nat,
                    chunk_size as nat,
                    i,
                    chunk_count as int,
                ),
            result is Err ==> final(self)@.chunks == old(self)@.chunks && (result->Err_0
                is Storage || result->Err_0 == ChunkError::CompressionFailed || result->Err_0
                == ChunkError::Exhausted),
            result is Err && result->Err_0 == ChunkError::Exhausted ==> exists|k: int|
                exhausted_at(old(self)@, piece_hashes(data@, chunk_count as nat, chunk_size as nat), k),
            (exists|k: int| exhausted_at(old(self)@, piece_hashes(data@, chunk_count as nat, chunk_size as nat), k)) ==> result is Err,
            result is Err && result->Err_0 == ChunkError::CompressionFailed ==> exists|k: int|
                unencodable_at(data@, chunk_count as nat, chunk_size as nat, compression, k),
            all_referenced(old(self)@, piece_hashes(data@, chunk_count as nat, chunk_size as nat), chunk_count as int) ==> result is Ok && final(self)@ == (
            ChunkIndexView { chunks: final(self)@.chunks, ..old(self)@ }),
            forall|h: Seq<u8>|
                !among(piece_hashes(data@, chunk_count as nat, chunk_size as nat), chunk_count as int, h) ==> #[trigger] same_at(
                    old(self)@,
                    final(self)@,
                    h,
                ),
            forall|h: Seq<u8>| #[trigger]
                old(self)@.referenced(h) && old(self)@.blobs.contains_key(h) ==> final(self)@.blobs.contains_key(h) && final(self)@.blobs[h] == old(self)@.blobs[h],
            result is Ok && old(self)@.well_formed() && collision_free_in(
                old(self)@,
                data@,
                chunk_count as nat,
                chunk_size as nat,
            ) ==> reader::chunks_content(final(self)@, result.unwrap()@) == Some(
                plan::pieces_joined(
                    data@,
                    chunk_count as nat,
                    chunk_size as nat,
                    chunk_count as nat,
                ),
            ),
    {
        let count = chunk_count;
        let size = chunk_size;
        let boundaries = chunk_boundaries(data.len(), size, count);
        let ghost hs = piece_hashes(data@, count as nat, size as nat);
        let mut results: Vec<(usize, u64, ChunkHash)> = Vec::new();
        let mut i: usize = 0;
        assert(hs.take(0) =~= Seq::<Seq<u8>>::empty());
        while i < count
            invariant
                i <= count,
                boundaries@.len() == count,
                forall|k: int|
                    0 <= k < count ==> (#[trigger] boundaries@[k]).0 == k && boundaries@[k].1
                        == plan::piece_start(
                        k as nat,
                        size as nat,
                        data@.len(),
                    ) && boundaries@[k].2 == plan::piece_end(
                        k as nat,
                        count as nat,
                        size as nat,
                        data@.len(),
                    ),
                hs == piece_hashes(data@, count as nat, size as nat),
                count == chunk_count,
                size == chunk_size,
                forall|h: Seq<u8>| #[trigger]
                    old(self)@.blobs.contains_key(h) ==> self@.blobs.contains_key(h),
                results@.len() == i,
                forall|k: int|
                    0 <= k < i ==> (#[trigger] results@[k]).0 == k && results@[k].2@ == hs[k],
                self@.chunks == old(self)@.chunks,
                self@.chunk_size == old(self)@.chunk_size,
                self@.max_chunk_count == old(self)@.max_chunk_count,
                old(self)@.well_formed() ==> self@.well_formed(),
                forall|k: int|
                    0 <= k < i ==> self@.hashes.contains_key(#[trigger] hs[k]) && self@.hashes[hs[k]]
                        == results@[k].1,
                forall|h: Seq<u8>| #[trigger]
                    old(self)@.hashes.contains_key(h) ==> self@.hashes.contains_key(h)
                        && self@.hashes[h] == old(self)@.hashes[h],
                same_identifiers(self@, identified_all(old(self)@, hs.take(i as int))),
                forall|k: int| 0 <= k < i ==> !exhausted_at(old(self)@, hs, k),
                hs.len() == count,
                forall|h: Seq<u8>| !among(hs, i as int, h) ==> #[trigger] same_at(old(self)@, self@, h),
                forall|h: Seq<u8>| #[trigger]
                    old(self)@.referenced(h) && old(self)@.blobs.contains_key(h)
                        ==> self@.blobs.contains_key(h) && self@.blobs[h] == old(self)@.blobs[h],
                all_referenced(old(self)@, hs, i as int) ==> self@ == old(self)@,
                old(self)@.well_formed() ==> forall|k: int|
                    0 <= k < i && !old(self)@.hashes.contains_key(#[trigger] hs[k]) ==> !old(self)@.chunks.contains_key(results@[k].1),
                old(self)@.well_formed() ==> forall|k: int|
                    0 <= k < i && !old(self)@.referenced(#[trigger] hs[k]) ==> stored_as_piece(
                        self@.blobs,
                        data@,
                        count as nat,
                        size as nat,
                        k,
                        i as int,
                    ),
            decreases count - i,
        {
            let (place, start, end) = boundaries[i];
            proof {
                lemma_piece_bounds(i as nat, count as nat, size as nat, data@.len());
            }
            let content = slice_subrange(data, start, end);
            let hash = hash_chunk(content);
            let ghost before = self@;
            assert(hash@ == hs[i as int]);
            assert(content@ == piece_of(data@, count as nat, size as nat, i as int));
            let outcome = self.add_chunk(&hash, content, compression);
            proof {
                assert(before.can_identify(hash@) == identified_all(
                    old(self)@,
                    hs.take(i as int),
                ).can_identify(hs[i as int]));
                if outcome is Ok {
                    assert(!exhausted_at(old(self)@, hs, i as int));
                } else {
                    if outcome->Err_0 == ChunkError::Exhausted {
                        assert(exhausted_at(old(self)@, hs, i as int));
                    }
                    if outcome->Err_0 == ChunkError::CompressionFailed {
                        assert(unencodable_at(
                            data@,
                            count as nat,
                            size as nat,
                            compression,
                            i as int,
                        ));
                    }
                }
            }
            proof {
                if old(self)@.well_formed() && before.can_identify(hash@) {
                    lemma_identified(before, hash@);
                }
            }
            proof {
                let now = self@;
                assert forall|h: Seq<u8>| !among(hs, i + 1, h) implies #[trigger] same_at(
                    old(self)@,
                    now,
                    h,
                ) by {
                    assert(hs[i as int] != h);
                    if among(hs, i as int, h) {
                        let k = choose|k: int| 0 <= k < i && #[trigger] hs[k] == h;
                        assert(0 <= k < i + 1 && hs[k] == h);
                    }
                    assert(same_at(old(self)@, before, h));
                }
                assert forall|h: Seq<u8>| #[trigger]
                    old(self)@.referenced(h) && old(self)@.blobs.contains_key(
                        h,
                    ) implies now.blobs.contains_key(h) && now.blobs[h] == old(self)@.blobs[h] by {
                    assert(before.blobs.contains_key(h));
                    assert(before.blobs[h] == old(self)@.blobs[h]);
                    assert(old(self)@.hashes.contains_key(h));
                    assert(before.hashes.contains_key(h));
                    if h == hash@ {
                        assert(before.hashes[h] == old(self)@.hashes[h]);
                        assert(before.can_identify(hash@));
                        assert(before.refcount(before.identifier_for(hash@)) > 0);
                        assert(now.blobs == before.blobs);
                    } else if !before.can_identify(hash@) {
                        assert(now == before);
                    } else if before.refcount(before.identifier_for(hash@)) > 0 {
                        assert(now.blobs == before.blobs);
                    } else if outcome is Err {
                        if blob_of(compression, content@) is Some {
                            assert(others_kept(before.blobs, now.blobs, hash@));
                            assert(now.blobs.contains_key(h) == before.blobs.contains_key(h));
                        }
                    }
                }
                if all_referenced(old(self)@, hs, i + 1) {
                    assert(all_referenced(old(self)@, hs, i as int));
                    assert(before == old(self)@);
                    assert(old(self)@.referenced(hs[i as int]));
                    assert(outcome is Ok);
                    assert(now == old(self)@);
                }
            }
            let id = match outcome {
                Ok(id) => id,
                Err(e) => {
                    proof {
                        let now = self@;
                        assert forall|h: Seq<u8>| !among(hs, count as int, h) implies #[trigger] same_at(
                            old(self)@,
                            now,
                            h,
                        ) by {
                            if among(hs, i + 1, h) {
                                let k = choose|k: int| 0 <= k < i + 1 && #[trigger] hs[k] == h;
                                assert(0 <= k < count && hs[k] == h);
                            }
                        }
                        if all_referenced(old(self)@, hs, count as int) {
                            assert(all_referenced(old(self)@, hs, i + 1));
                        }
                    }
                    return Err(e);
                },
            };
            results.push((place, id, hash));
            i = i + 1;
            proof {
                let now = self@;
                assert(hs.take(i as int).drop_last() =~= hs.take(i - 1));
                assert(hs.take(i as int).last() == hash@);
                assert forall|k: int| 0 <= k < i implies now.hashes.contains_key(#[trigger] hs[k])
                    && now.hashes[hs[k]] == results@[k].1 by {
                    if k < i - 1 {
                        assert(before.hashes.contains_key(hs[k]));
                    }
                }
                if old(self)@.well_formed() {
                    assert forall|k: int|
                        0 <= k < i && !old(self)@.referenced(
                            #[trigger] hs[k],
                        ) implies stored_as_piece(
                        now.blobs,
                        data@,
                        count as nat,
                        size as nat,
                        k,
                        i as int,
                    ) by {
                        if hs[k] == hash@ {
                            // the chunk was not referenced before the call, and so
                            // not when its turn came: its blob was written now
                            if old(self)@.hashes.contains_key(hash@) {
                                assert(before.hashes[hash@] == old(self)@.hashes[hash@]);
                            } else if before.hashes.contains_key(hash@) {
                                if !among(hs, i - 1, hash@) {
                                    assert(same_at(old(self)@, before, hash@));
                                }
                                let first = choose|first: int|
                                    0 <= first < i - 1 && #[trigger] hs[first] == hash@;
                                assert(before.hashes[hash@] == results@[first].1);
                                assert(!old(self)@.chunks.contains_key(results@[first].1));
                            }
                            assert(before.refcount(before.identifier_for(hash@)) == 0);
                            assert(piece_of(data@, count as nat, size as nat, i - 1) == content@);
                        } else {
                            assert(k < i - 1);
                            assert(stored_as_piece(
                                before.blobs,
                                data@,
                                count as nat,
                                size as nat,
                                k,
                                i - 1,
                            ));
                        }
                    }
                }
            }
        }
        let ghost added = self@;
        proof {
            assert forall|place: int| 0 <= place < count implies #[trigger] has_result(
                results@,
                place,
            ) by {
                assert(is_first_result(results@, place, place));
            }
        }
        let (ids, hashes) = assemble_chunks(results.as_slice(), count).unwrap();
        proof {
            assert forall|k: int| 0 <= k < count implies (#[trigger] results@[k]).1 == ids@[k]
                && results@[k].2 == hashes@[k] by {
                assert(is_first_result(results@, k, k));
            }
        }
        self.reference_chunks(ids.as_slice(), hashes.as_slice());
        proof {
            assert forall|k: int| 0 <= k < count implies hash_views(hashes@)[k] == hs[k] by {
                assert(hashes@[k] == results@[k].2);
            }
            assert(hash_views(hashes@) =~= hs);
            assert(hs.take(count as int) =~= hs);
            let now = self@;
            assert forall|k: int| 0 <= k < count implies now.hashes.contains_key(#[trigger] hs[k])
                && now.hashes[hs[k]] == ids@[k] && now.refcount(ids@[k]) > 0 by {
                lemma_occurs(ids@, k);
                lemma_references_counted(added.chunks, ids@, hs, ids@[k]);
            }
            if old(self)@.well_formed() {
                assert forall|k: int| 0 <= k < ids@.len() implies added.hashes.contains_key(
                    #[trigger] hs[k],
                ) && added.hashes[hs[k]] == ids@[k] && added.blobs.contains_key(hs[k]) by {
                    if old(self)@.referenced(hs[k]) {
                        let c = old(self)@.hashes[hs[k]];
                        assert(old(self)@.chunks.contains_key(c));
                        assert(old(self)@.hashes[old(self)@.chunks[c].0] == c);
                        assert(old(self)@.chunks[c].0 == hs[k]);
                        assert(old(self)@.blobs.contains_key(hs[k]));
                    } else {
                        assert(stored_as_piece(
                            added.blobs,
                            data@,
                            count as nat,
                            size as nat,
                            k,
                            count as int,
                        ));
                    }
                }
                lemma_references_well_formed(added, ids@, hs);
            }
            assert forall|h: Seq<u8>| !among(hs, count as int, h) implies #[trigger] same_at(
                old(self)@,
                now,
                h,
            ) by {
                assert(same_at(old(self)@, added, h));
            }
            if all_referenced(old(self)@, hs, count as int) {
                assert(added == old(self)@);
            }
            let before = old(self)@;
            assert(now.chunks == with_references(before.chunks, ids@, hs));
            assert forall|h: Seq<u8>| #[trigger] before.referenced(h) implies now.referenced(h) by {
                lemma_identified_keeps(before, hs, h);
                lemma_references_counted(before.chunks, ids@, hs, before.hashes[h]);
            }
            if before.well_formed() && collision_free_in(before, data@, count as nat, size as nat) {
                assert forall|k: int| 0 <= k < count implies now.hashes.contains_key(
                    #[trigger] piece_hashes(data@, count as nat, size as nat)[k],
                ) && now.hashes[piece_hashes(data@, count as nat, size as nat)[k]] == ids@[k]
                    && now.chunks.contains_key(ids@[k]) && now.blobs.contains_key(
                    piece_hashes(data@, count as nat, size as nat)[k],
                ) && blob_content(now.blobs[piece_hashes(data@, count as nat, size as nat)[k]])
                    == Ok::<Seq<u8>, ChunkError>(
                    piece_of(data@, count as nat, size as nat, k),
                ) by {
                    assert(now.hashes.contains_key(hs[k]) && now.refcount(ids@[k]) > 0);
                    if before.referenced(hs[k]) {
                        assert(before.blobs.contains_key(hs[k]));
                        assert(added.blobs[hs[k]] == before.blobs[hs[k]]);
                    } else {
                        assert(stored_as_piece(
                            added.blobs,
                            data@,
                            count as nat,
                            size as nat,
                            k,
                            count as int,
                        ));
                        let j = choose|j: int|
                            k <= j < count && blake2b_256(
                                #[trigger] piece_of(data@, count as nat, size as nat, j),
                            ) == hs[k] && blob_content(added.blobs[hs[k]]) == Ok::<
                                Seq<u8>,
                                ChunkError,
                            >(piece_of(data@, count as nat, size as nat, j));
                        assert(hs[j] == hs[k]);
                    }
                }
                reader::lemma_reads_back(
                    now,
                    data@,
                    count as nat,
                    size as nat,
                    ids@,
                    count as nat,
                );
                assert(ids@.take(count as int) =~= ids@);
            }
            assert(now.chunks == with_references(before.chunks, ids@, hs));
            if before.well_formed() {
                assert forall|k: int|
                    0 <= k < count && !before.referenced(#[trigger] hs[k]) implies stored_as_piece(
                    now.blobs,
                    data@,
                    count as nat,
                    size as nat,
                    k,
                    count as int,
                ) by {
                    assert(stored_as_piece(
                        added.blobs,
                        data@,
                        count as nat,
                        size as nat,
                        k,
                        count as int,
                    ));
                }
            }
        }
        Ok(ids)
    }

    /// Gives up a reference to the chunk `chunk_id`.
    ///
    /// An identifier that is not known gives `None` and changes nothing. A
    /// chunk that is known has one reference less afterwards, and none less
    /// than none. Where no reference is left and `clean` is set, the chunk
    /// and its digest are taken out of the index and the store is asked to
    /// delete the blob: where it does, the identifier is given back and the
    /// result is `Some(true)`; where it fails, the identifier is not given
    /// back and the result is `None`. In every other case the result is
    /// `Some(false)`.
    #[verifier::rlimit(50)]
    pub fn dereference_chunk_id(&mut self, chunk_id: u64, clean: bool) -> (result: Option<bool>)
        ensures
            final(self)@.chunks == with_dereference(old(self)@.chunks, chunk_id, clean),
            final(self)@.next_id == old(self)@.next_id,
            final(self)@.chunk_size == old(self)@.chunk_size,
            final(self)@.max_chunk_count == old(self)@.max_chunk_count,
            old(self)@.well_formed() ==> final(self)@.well_formed(),
            !old(self)@.chunks.contains_key(chunk_id) ==> result is None && final(self)@ == old(self)@,
            old(self)@.chunks.contains_key(chunk_id) && !(one_less(old(self)@.chunks[chunk_id].1)
                == 0 && clean) ==> result == Some(false) && final(self)@ == (ChunkIndexView {
                chunks: final(self)@.chunks,
                ..old(self)@
            }),
            old(self)@.chunks.contains_key(chunk_id) && one_less(old(self)@.chunks[chunk_id].1)
                == 0 && clean ==> final(self)@.hashes == old(self)@.hashes.remove(
                old(self)@.chunks[chunk_id].0,
            ) && ((result == Some(true) && final(self)@.blobs == old(self)@.blobs.remove(
                old(self)@.chunks[chunk_id].0,
            ) && final(self)@.deleted == old(self)@.deleted.push(chunk_id)) || (result is None
                && final(self)@.deleted == old(self)@.deleted && others_kept(
                old(self)@.blobs,
                final(self)@.blobs,
                old(self)@.chunks[chunk_id].0,
            ))),
    {
        let (chunk, count) = match id_map_get(&self.chunks, chunk_id) {
            Some(entry) => entry,
            None => {
                return None;
            },
        };
        let left: u64 = if count > 0 {
            count - 1
        } else {
            0
        };
        if left == 0 && clean {
            id_map_remove(&mut self.chunks, chunk_id);
            hash_map_remove(&mut self.chunk_hashes, &chunk);
            match self.storage.delete_chunk_content(&chunk) {
                Ok(()) => {
                    self.deleted_chunks.push_back(chunk_id);
                    proof {
                        if old(self)@.well_formed() {
                            assert(others_kept(old(self)@.blobs, self@.blobs, chunk@));
                            lemma_removed_well_formed(old(self)@, self@, chunk_id, true);
                        }
                    }
                    Some(true)
                },
                Err(_) => {
                    proof {
                        if old(self)@.well_formed() {
                            lemma_removed_well_formed(old(self)@, self@, chunk_id, false);
                        }
                    }
                    None
                },
            }
        } else {
            id_map_insert(&mut self.chunks, chunk_id, chunk, left);
            proof {
                if old(self)@.well_formed() {
                    let before = old(self)@;
                    let after = self@;
                    assert forall|c: u64| #[trigger] after.chunks.contains_key(c) implies after.in_use(
                        c,
                    ) && after.hashes.contains_key(after.chunks[c].0)
                        && after.hashes[after.chunks[c].0] == c by {
                        assert(before.chunks.contains_key(c));
                    }
                    assert forall|c: u64| #[trigger]
                        after.chunks.contains_key(c) && after.chunks[c].1
                            > 0 implies after.blobs.contains_key(after.chunks[c].0) by {
                        assert(before.chunks.contains_key(c));
                        assert(before.chunks[c].1 > 0);
                    }
                }
            }
            Some(false)
        }
    }

    /// Gives up a reference to each of `ids`, in order, taking away every
    /// chunk that is left without references; gives for each identifier that
    /// was known whether its chunk was taken away and its blob deleted.
    ///
    /// The identifiers of the chunks that were taken away and whose blobs
    /// were deleted are given back, in order. A digest that has lost no
    /// chunk keeps its identifier and its blob; the digest of a chunk that
    /// is gone is not known any more.
    pub fn dereference_chunks(&mut self, ids: &[u64]) -> (outcomes: Vec<(u64, bool)>)
        ensures
            final(self)@.chunks == with_dereferences(old(self)@.chunks, ids@),
            final(self)@.hashes == hashes_after_dereferences(
                old(self)@.chunks,
                old(self)@.hashes,
                ids@,
            ),
            final(self)@.next_id == old(self)@.next_id,
            final(self)@.chunk_size == old(self)@.chunk_size,
            final(self)@.max_chunk_count == old(self)@.max_chunk_count,
            old(self)@.well_formed() ==> final(self)@.well_formed(),
            released(old(self)@, final(self)@, outcomes@),
            outcomes@.len() <= ids@.len(),
            ids@.len() == 0 ==> final(self)@ == old(self)@,
    {
        let mut outcomes: Vec<(u64, bool)> = Vec::new();
        let mut i: usize = 0;
        assert(ids@.take(0) =~= Seq::<u64>::empty());
        assert(old(self)@.deleted + reclaimed(outcomes@) =~= old(self)@.deleted);
        while i < ids.len()
            invariant
                i <= ids@.len(),
                released(old(self)@, self@, outcomes@),
                outcomes@.len() <= i,
                i == 0 ==> self@ == old(self)@,
                self@.chunks == with_dereferences(old(self)@.chunks, ids@.take(i as int)),
                self@.hashes == hashes_after_dereferences(
                    old(self)@.chunks,
                    old(self)@.hashes,
                    ids@.take(i as int),
                ),
                self@.next_id == old(self)@.next_id,
                self@.chunk_size == old(self)@.chunk_size,
                self@.max_chunk_count == old(self)@.max_chunk_count,
                old(self)@.well_formed() ==> self@.well_formed(),
            decreases ids@.len() - i,
        {
            let id = ids[i];
            let ghost before = self@;
            let ghost prior = outcomes@;
            let outcome = self.dereference_chunk_id(id, true);
            match outcome {
                Some(deleted) => {
                    outcomes.push((id, deleted));
                },
                None => {},
            }
            proof {
                let after = self@;
                let step = outcomes@.skip(prior.len() as int);
                assert(prior + step =~= outcomes@);
                if outcome is Some {
                    assert(step =~= seq![(id, outcome.unwrap())]);
                    assert(step.drop_last() =~= Seq::<(u64, bool)>::empty());
                    assert(reclaimed(step.drop_last()) =~= Seq::<u64>::empty());
                    if outcome.unwrap() {
                        assert(reclaimed(step) =~= seq![id]);
                    } else {
                        assert(reclaimed(step) =~= Seq::<u64>::empty());
                    }
                } else {
                    assert(step =~= Seq::<(u64, bool)>::empty());
                }
                assert(after.deleted =~= before.deleted + reclaimed(step));
                assert forall|h: Seq<u8>|
                    digest_kept(before.chunks, after.chunks, h) implies #[trigger] same_at(
                    before,
                    after,
                    h,
                ) by {
                    if before.chunks.contains_key(id) && !after.chunks.contains_key(id) {
                        assert(before.chunks[id].0 != h);
                    }
                }
                assert(released(before, after, step));
                lemma_released_joined(old(self)@, before, after, prior, step);
            }
            i = i + 1;
            proof {
                assert(ids@.take(i as int).drop_last() =~= ids@.take(i - 1));
            }
        }
        proof {
            assert(ids@.take(ids@.len() as int) =~= ids@);
        }
        outcomes
    }

    /// Takes every chunk without references out of the index, deletes its
    /// blob and gives its identifier back; gives the identifiers that were
    /// given back, in the order in which that was done.
    ///
    /// The chunks are gone through in no order that can be relied on. The
    /// store is asked to delete each blob before the chunk is taken out; the
    /// first failure of the store ends the sweep with what was done so far.
    /// Where every chunk is referenced the store is not asked, and nothing
    /// changes.
    #[verifier::rlimit(50)]
    #[verifier::spinoff_prover]
    pub fn clean(&mut self) -> (result: Result<Vec<u64>, ChunkError>)
        ensures
            old(self)@.well_formed() ==> final(self)@.well_formed(),
            result is Err ==> result->Err_0 is Storage,
            final(self)@.next_id == old(self)@.next_id,
            final(self)@.chunk_size == old(self)@.chunk_size,
            final(self)@.max_chunk_count == old(self)@.max_chunk_count,
            forall|id: u64| #[trigger]
                old(self)@.chunks.contains_key(id) && old(self)@.chunks[id].1 > 0 ==> final(self)@.chunks.contains_key(id) && final(self)@.chunks[id] == old(self)@.chunks[id],
            forall|id: u64| #[trigger]
                final(self)@.chunks.contains_key(id) ==> old(self)@.chunks.contains_key(id)
                    && final(self)@.chunks[id] == old(self)@.chunks[id],
            forall|h: Seq<u8>|
                !unreferenced(old(self)@.chunks, h) ==> #[trigger] same_at(
                    old(self)@,
                    final(self)@,
                    h,
                ),
            result is Ok ==> final(self)@.deleted == old(self)@.deleted + result.unwrap()@,
            result is Ok ==> forall|id: u64|
                (old(self)@.chunks.contains_key(id) && old(self)@.chunks[id].1 == 0)
                    == #[trigger] result.unwrap()@.contains(id),
            result is Ok ==> forall|id: u64| #[trigger]
                old(self)@.chunks.contains_key(id) && old(self)@.chunks[id].1 == 0 ==> !final(self)@.chunks.contains_key(id) && !final(self)@.blobs.contains_key(
                    old(self)@.chunks[id].0,
                ) && !final(self)@.hashes.contains_key(old(self)@.chunks[id].0),
            none_unreferenced(old(self)@.chunks) ==> result is Ok && result.unwrap()@.len() == 0
                && final(self)@ == old(self)@,
    {
        let all = id_map_entries(&self.chunks);
        let ghost entries = all@;
        let mut removed: Vec<u64> = Vec::new();
        let mut i: usize = 0;
        proof {
            assert(old(self)@.deleted + removed@ =~= old(self)@.deleted);
        }
        while i < all.len()
            invariant
                i <= all@.len(),
                entries == all@,
                lists(entries, old(self)@.chunks),
                swept_to(old(self)@, self@, entries, i as int, removed@),
                old(self)@.well_formed() ==> self@.well_formed(),
                none_unreferenced(old(self)@.chunks) ==> removed@.len() == 0 && self@ == old(
                    self,
                )@,
            decreases all@.len() - i,
        {
            let (id, hash, count) = all[i];
            let ghost before = self@;
            let ghost prior = removed@;
            proof {
                assert(old(self)@.chunks.contains_key(entries[i as int].0));
                assert(old(self)@.chunks[entries[i as int].0].1 == count);
            }
            if count == 0 {
                assert(!none_unreferenced(old(self)@.chunks));
                match self.storage.delete_chunk_content(&hash) {
                    Ok(()) => {},
                    Err(e) => {
                        proof {
                            let after = self@;
                            lemma_swept(entries, old(self)@.chunks, i as int);
                            assert(entries[i as int] == (id, hash, count));
                            assert(old(self)@.chunks[entries[i as int].0] == (hash@, count));
                            assert(unreferenced(old(self)@.chunks, hash@));
                            assert forall|h: Seq<u8>|
                                !unreferenced(old(self)@.chunks, h) implies #[trigger] same_at(
                                old(self)@,
                                after,
                                h,
                            ) by {
                                assert(!hash_swept(entries, i as int, h));
                                assert(same_at(old(self)@, before, h));
                                assert(h != hash@);
                            }
                            assert forall|c: u64| #[trigger]
                                after.chunks.contains_key(c) implies old(self)@.chunks.contains_key(c) && after.chunks[c] == old(self)@.chunks[c] by {
                                assert(before.chunks.contains_key(c));
                            }
                            assert forall|c: u64| #[trigger]
                                old(self)@.chunks.contains_key(c) && old(self)@.chunks[c].1
                                    > 0 implies after.chunks.contains_key(c) && after.chunks[c]
                                == old(self)@.chunks[c] by {
                                assert(!swept(entries, i as int, c));
                                assert(before.chunks.contains_key(c));
                            }
                            if old(self)@.well_formed() {
                                assert(before.chunks.contains_key(id)) by {
                                    if swept(entries, i as int, id) {
                                        let k = choose|k: int|
                                            0 <= k < i && (#[trigger] entries[k]).0 == id
                                                && entries[k].2 == 0;
                                        assert(entries[k].0 != entries[i as int].0);
                                    }
                                }
                                assert(before.hashes[hash@] == id);
                                assert forall|c: u64| #[trigger]
                                    after.chunks.contains_key(c) && after.chunks[c].1
                                        > 0 implies after.blobs.contains_key(after.chunks[c].0) by {
                                    assert(before.blobs.contains_key(before.chunks[c].0));
                                    assert(before.hashes[before.chunks[c].0] == c);
                                    assert(c != id);
                                }
                            }
                        }
                        return Err(ChunkError::Storage(e));
                    },
                }
                hash_map_remove(&mut self.chunk_hashes, &hash);
                id_map_remove(&mut self.chunks, id);
                self.deleted_chunks.push_back(id);
                removed.push(id);
            }
            i = i + 1;
            proof {
                let after = self@;
                assert(entries[i - 1] == (id, hash, count));
                assert(before.chunks.contains_key(id)) by {
                    if swept(entries, i - 1, id) {
                        let k = choose|k: int|
                            0 <= k < i - 1 && (#[trigger] entries[k]).0 == id && entries[k].2 == 0;
                        assert(entries[k].0 != entries[i - 1].0);
                    }
                }
                assert forall|c: u64| swept(entries, i as int, c) == (swept(entries, i - 1, c) || (c
                    == id && count == 0)) by {
                    if swept(entries, i as int, c) {
                        let k = choose|k: int|
                            0 <= k < i && (#[trigger] entries[k]).0 == c && entries[k].2 == 0;
                        if k < i - 1 {
                            assert(swept(entries, i - 1, c));
                        }
                    }
                    if swept(entries, i - 1, c) {
                        let k = choose|k: int|
                            0 <= k < i - 1 && (#[trigger] entries[k]).0 == c && entries[k].2 == 0;
                        assert(0 <= k < i && entries[k].0 == c && entries[k].2 == 0);
                    }
                }
                assert forall|h: Seq<u8>| hash_swept(entries, i as int, h) == (hash_swept(
                    entries,
                    i - 1,
                    h,
                ) || (h == hash@ && count == 0)) by {
                    if hash_swept(entries, i as int, h) {
                        let k = choose|k: int|
                            0 <= k < i && (#[trigger] entries[k]).1@ == h && entries[k].2 == 0;
                        if k < i - 1 {
                            assert(hash_swept(entries, i - 1, h));
                        }
                    }
                    if hash_swept(entries, i - 1, h) {
                        let k = choose|k: int|
                            0 <= k < i - 1 && (#[trigger] entries[k]).1@ == h && entries[k].2 == 0;
                        assert(0 <= k < i && entries[k].1@ == h && entries[k].2 == 0);
                    }
                }
                if count == 0 {
                    assert(after.deleted =~= old(self)@.deleted + removed@);
                    assert forall|k: int| 0 <= k < removed@.len() implies swept(
                        entries,
                        i as int,
                        #[trigger] removed@[k],
                    ) by {
                        if k < prior.len() {
                            assert(removed@[k] == prior[k]);
                            assert(swept(entries, i - 1, prior[k]));
                        }
                    }
                    assert forall|c: u64| swept(entries, i as int, c) implies #[trigger] removed@.contains(
                        c,
                    ) by {
                        if c == id {
                            assert(removed@[prior.len() as int] == id);
                        } else {
                            assert(prior.contains(c));
                            let k = choose|k: int| 0 <= k < prior.len() && prior[k] == c;
                            assert(removed@[k] == c);
                        }
                    }
                    assert forall|h: Seq<u8>|
                        hash_swept(entries, i as int, h) implies !(
                    #[trigger] after.hashes.contains_key(h)) && !after.blobs.contains_key(h) by {
                        if h != hash@ {
                            assert(!before.hashes.contains_key(h));
                        }
                    }
                    assert forall|h: Seq<u8>|
                        !hash_swept(entries, i as int, h) implies #[trigger] same_at(
                        old(self)@,
                        after,
                        h,
                    ) by {
                        assert(same_at(old(self)@, before, h));
                    }
                    if old(self)@.well_formed() {
                        assert(before.chunks[id].0 == hash@);
                        lemma_removed_well_formed(before, after, id, true);
                    }
                } else {
                    assert forall|h: Seq<u8>|
                        !hash_swept(entries, i as int, h) implies #[trigger] same_at(
                        old(self)@,
                        after,
                        h,
                    ) by {
                        assert(same_at(old(self)@, before, h));
                    }
                    assert forall|h: Seq<u8>|
                        hash_swept(entries, i as int, h) implies !(
                    #[trigger] after.hashes.contains_key(h)) && !after.blobs.contains_key(h) by {
                        assert(!before.hashes.contains_key(h));
                    }
                }
            }
        }
        proof {
            let after = self@;
            lemma_swept(entries, old(self)@.chunks, i as int);
            assert forall|h: Seq<u8>|
                !unreferenced(old(self)@.chunks, h) implies #[trigger] same_at(
                old(self)@,
                after,
                h,
            ) by {
                assert(!hash_swept(entries, i as int, h));
            }
            assert forall|id: u64| #[trigger]
                old(self)@.chunks.contains_key(id) && old(self)@.chunks[id].1 == 0 implies !after.chunks.contains_key(
                id,
            ) && !after.blobs.contains_key(old(self)@.chunks[id].0) && !after.hashes.contains_key(
                old(self)@.chunks[id].0,
            ) by {
                lemma_swept_all(entries, old(self)@.chunks, id);
                assert(i == entries.len());
                assert(swept(entries, i as int, id));
                assert(hash_swept(entries, i as int, old(self)@.chunks[id].0));
                assert(after.chunks.contains_key(id) == (old(self)@.chunks.contains_key(id)
                    && !swept(entries, i as int, id)));
                assert(!after.hashes.contains_key(old(self)@.chunks[id].0));
            }
            assert forall|id: u64|
                (old(self)@.chunks.contains_key(id) && old(self)@.chunks[id].1 == 0)
                    == #[trigger] removed@.contains(id) by {
                if removed@.contains(id) {
                    let k = choose|k: int| 0 <= k < removed@.len() && removed@[k] == id;
                    assert(swept(entries, i as int, removed@[k]));
                }
                if old(self)@.chunks.contains_key(id) && old(self)@.chunks[id].1 == 0 {
                    lemma_swept_all(entries, old(self)@.chunks, id);
                }
            }
        }
        Ok(removed)
    }

    /// Reads the chunk `chunk_id` out of the store.
    ///
    /// An identifier that is not known is not found. Otherwise the store is
    /// asked for the blob of the chunk; where it gives one, the result is
    /// what `decode_blob` makes of it.
    pub fn read_chunk_id_content(&self, chunk_id: u64) -> (result: Result<Vec<u8>, ChunkError>)
        ensures
            !self@.chunks.contains_key(chunk_id) ==> result == Err::<Vec<u8>, ChunkError>(
                ChunkError::NotFound,
            ),
            self@.chunks.contains_key(chunk_id) ==> (result is Err && result->Err_0 is Storage)
                || (self@.blobs.contains_key(self@.chunks[chunk_id].0) && match blob_content(
                self@.blobs[self@.chunks[chunk_id].0],
            ) {
                Ok(data) => result is Ok && result.unwrap()@ == data,
                Err(e) => result is Err && result->Err_0 == e,
            }),
    {
        let (chunk, _) = match id_map_get(&self.chunks, chunk_id) {
            Some(entry) => entry,
            None => {
                return Err(ChunkError::NotFound);
            },
        };
        let blob = match self.storage.read_chunk_content(&chunk) {
            Ok(blob) => blob,
            Err(e) => {
                return Err(ChunkError::Storage(e));
            },
        };
        decode_blob(blob.as_slice())
    }
}

} // verus!
