//! Where chunk blobs are kept.

use super::ChunkHash;
use vstd::prelude::*;

verus! {

/// Why a store could not do what was asked.
#[derive(Debug, Clone, Copy, PartialEq, Eq, Structural)]
pub enum StorageError {
    /// The store holds no blob for the digest.
    NotFound,
    /// The store failed for a reason of its own.
    Failed,
}

/// A content-addressed store of blobs, keyed by the digest of a chunk.
///
/// A store is seen as a map from digests to blobs. An operation that
/// succeeds has done to the map what its name says; one that fails has left
/// the blobs of all other digests alone.
pub trait ChunkStorage {
    /// The blobs that the store holds. A store that says nothing of its
    /// blobs is taken to hold an unknown map.
    open spec fn blobs(&self) -> Map<Seq<u8>, Seq<u8>> {
        unknown_blobs()
    }

    fn read_chunk_content(&self, chunk: &ChunkHash) -> (result: Result<Vec<u8>, StorageError>)
        ensures
            result is Ok ==> self.blobs().contains_key(chunk@) && result.unwrap()@
                == self.blobs()[chunk@],
    ;

    fn write_chunk_content(&mut self, chunk: &ChunkHash, content: Vec<u8>) -> (result: Result<
        (),
        StorageError,
    >)
        ensures
            result is Ok ==> final(self).blobs() == old(self).blobs().insert(chunk@, content@),
            result is Err ==> others_kept(old(self).blobs(), final(self).blobs(), chunk@),
    ;

    fn delete_chunk_content(&mut self, chunk: &ChunkHash) -> (result: Result<(), StorageError>)
        ensures
            result is Ok ==> final(self).blobs() == old(self).blobs().remove(chunk@),
            result is Err ==> others_kept(old(self).blobs(), final(self).blobs(), chunk@),
    ;
}

/// The blobs of a store that says nothing of them.
pub open spec fn unknown_blobs() -> Map<Seq<u8>, Seq<u8>> {
    arbitrary()
}

/// Whether `after` holds for every digest but `chunk` what `before` holds.
pub open spec fn others_kept(
    before: Map<Seq<u8>, Seq<u8>>,
    after: Map<Seq<u8>, Seq<u8>>,
    chunk: Seq<u8>,
) -> bool {
    forall|other: Seq<u8>|
        other != chunk ==> (#[trigger] after.contains_key(other) == before.contains_key(other)) && (
        before.contains_key(other) ==> after[other] == before[other])
}

/// The two lower-case hexadecimal digits of every byte, in order.
pub open spec fn hex_text(bytes: Seq<u8>) -> Seq<char>
    decreases bytes.len(),
{
    if bytes.len() == 0 {
        Seq::empty()
    } else {
        hex_text(bytes.drop_last()).push(hex_digit_of(bytes.last() / 16)).push(
            hex_digit_of(bytes.last() % 16),
        )
    }
}

/// The lower-case hexadecimal digit of a number below 16.
pub open spec fn hex_digit_of(nibble: u8) -> char {
    if nibble < 10 {
        ('0' as u8 + nibble) as char
    } else {
        ('a' as u8 + (nibble - 10) as u8) as char
    }
}

/// The path of the blob of `chunk` below the root of a store on disk: two
/// levels of directories named by the first and the second byte, then a
/// file named by the other thirty.
pub open spec fn chunk_path(chunk: Seq<u8>) -> Seq<char> {
    hex_text(chunk.subrange(0, 1)) + seq!['/'] + hex_text(chunk.subrange(1, 2)) + seq!['/']
        + hex_text(chunk.subrange(2, 32)) + seq!['.', 'c', 'h', 'u', 'n', 'k']
}

fn hex_digit(nibble: u8) -> (digit: &'static str)
    requires
        nibble < 16,
    ensures
        digit@ == seq![hex_digit_of(nibble)],
{
    proof {
        reveal_strlit("0");
        reveal_strlit("1");
        reveal_strlit("2");
        reveal_strlit("3");
        reveal_strlit("4");
        reveal_strlit("5");
        reveal_strlit("6");
        reveal_strlit("7");
        reveal_strlit("8");
        reveal_strlit("9");
        reveal_strlit("a");
        reveal_strlit("b");
        reveal_strlit("c");
        reveal_strlit("d");
        reveal_strlit("e");
        reveal_strlit("f");
    }
    let digit = match nibble {
        0 => "0",
        1 => "1",
        2 => "2",
        3 => "3",
        4 => "4",
        5 => "5",
        6 => "6",
        7 => "7",
        8 => "8",
        9 => "9",
        10 => "a",
        11 => "b",
        12 => "c",
        13 => "d",
        14 => "e",
        _ => "f",
    };
    assert(digit@ =~= seq![hex_digit_of(nibble)]);
    digit
}

fn append_hex(text: &mut String, chunk: &ChunkHash, from: usize, to: usize)
    requires
        from <= to <= 32,
    ensures
        final(text)@ == old(text)@ + hex_text(chunk@.subrange(from as int, to as int)),
{
    let ghost start = text@;
    let mut i: usize = from;
    assert(chunk@.subrange(from as int, from as int) =~= Seq::<u8>::empty());
    assert(start + hex_text(Seq::<u8>::empty()) =~= start);
    while i < to
        invariant
            from <= i <= to <= 32,
            text@ == start + hex_text(chunk@.subrange(from as int, i as int)),
        decreases to - i,
    {
        let byte = chunk[i];
        let ghost prior = chunk@.subrange(from as int, i as int);
        text.append(hex_digit(byte / 16));
        text.append(hex_digit(byte % 16));
        i = i + 1;
        proof {
            let now = chunk@.subrange(from as int, i as int);
            assert(now.drop_last() =~= prior);
            assert(now.last() == byte);
            assert(text@ =~= start + hex_text(now));
        }
    }
}

/// The path of the blob of `chunk` below the root of a store on disk.
pub fn path_from_chunk(chunk: &ChunkHash) -> (path: String)
    ensures
        path@ == chunk_path(chunk@),
{
    proof {
        reveal_strlit("/");
        reveal_strlit(".chunk");
    }
    let mut path = String::new();
    append_hex(&mut path, chunk, 0, 1);
    path.append("/");
    append_hex(&mut path, chunk, 1, 2);
    path.append("/");
    append_hex(&mut path, chunk, 2, 32);
    path.append(".chunk");
    assert(path@ =~= chunk_path(chunk@));
    path
}

/// Whether two digests are the same.
pub fn same_hash(left: &ChunkHash, right: &ChunkHash) -> (same: bool)
    ensures
        same == (left@ == right@),
{
    let mut i: usize = 0;
    while i < 32
        invariant
            i <= 32,
            forall|j: int| 0 <= j < i ==> left@[j] == right@[j],
        decreases 32 - i,
    {
        if left[i] != right[i] {
            return false;
        }
        i = i + 1;
    }
    assert(left@ =~= right@);
    true
}

/// A store that keeps its blobs in memory.
pub struct ChunkStorageMemory {
    entries: Vec<(ChunkHash, Vec<u8>)>,
}

/// Whether `index` is where the first of `entries` with the digest `chunk`
/// stands.
pub open spec fn is_first_blob(entries: Seq<(ChunkHash, Vec<u8>)>, chunk: Seq<u8>, index: int)
    -> bool {
    &&& 0 <= index < entries.len()
    &&& entries[index].0@ == chunk
    &&& forall|j: int| 0 <= j < index ==> (#[trigger] entries[j]).0@ != chunk
}

/// The blobs that a list of digests and blobs holds; the first of several
/// entries with one digest counts.
pub open spec fn blobs_of(entries: Seq<(ChunkHash, Vec<u8>)>) -> Map<Seq<u8>, Seq<u8>> {
    Map::new(
        |chunk: Seq<u8>| exists|i: int| is_first_blob(entries, chunk, i),
        |chunk: Seq<u8>| entries[choose|i: int| is_first_blob(entries, chunk, i)].1@,
    )
}

proof fn lemma_first_blob(entries: Seq<(ChunkHash, Vec<u8>)>, chunk: Seq<u8>, index: int)
    requires
        is_first_blob(entries, chunk, index),
    ensures
        blobs_of(entries).contains_key(chunk),
        blobs_of(entries)[chunk] == entries[index].1@,
{
    let chosen = choose|i: int| is_first_blob(entries, chunk, i);
    if chosen < index {
        assert(entries[chosen].0@ != chunk);
    } else if index < chosen {
        assert(entries[index].0@ != chunk);
    }
}

proof fn lemma_no_blob(entries: Seq<(ChunkHash, Vec<u8>)>, chunk: Seq<u8>)
    requires
        forall|j: int| 0 <= j < entries.len() ==> (#[trigger] entries[j]).0@ != chunk,
    ensures
        !blobs_of(entries).contains_key(chunk),
{
}

/// Every digest that is held has a first entry.
proof fn lemma_some_blob(entries: Seq<(ChunkHash, Vec<u8>)>, chunk: Seq<u8>, index: int)
    requires
        0 <= index < entries.len(),
        entries[index].0@ == chunk,
    ensures
        exists|i: int| is_first_blob(entries, chunk, i) && i <= index,
    decreases index,
{
    if exists|j: int| 0 <= j < index && (#[trigger] entries[j]).0@ == chunk {
        let j = choose|j: int| 0 <= j < index && (#[trigger] entries[j]).0@ == chunk;
        lemma_some_blob(entries, chunk, j);
    } else {
        assert(is_first_blob(entries, chunk, index));
    }
}

/// Whether no two of `entries` have one digest.
pub open spec fn distinct_digests(entries: Seq<(ChunkHash, Vec<u8>)>) -> bool {
    forall|i: int, j: int|
        0 <= i < j < entries.len() ==> (#[trigger] entries[i]).0@ != (#[trigger] entries[j]).0@
}

impl ChunkStorageMemory {
    /// Every digest is held once.
    #[verifier::type_invariant]
    spec fn distinct(&self) -> bool {
        distinct_digests(self.entries@)
    }

    /// A store without blobs.
    pub fn new() -> (store: Self)
        ensures
            store.blobs() == Map::<Seq<u8>, Seq<u8>>::empty(),
            store.count() == 0,
    {
        let store = ChunkStorageMemory { entries: Vec::new() };
        assert(store.blobs() =~= Map::<Seq<u8>, Seq<u8>>::empty());
        store
    }

    /// How many blobs the store keeps: one for each digest that it holds.
    pub closed spec fn count(&self) -> nat {
        self.entries@.len()
    }

    /// Takes the blobs out of the store and leaves an empty store behind.
    fn take_entries(&mut self) -> (entries: Vec<(ChunkHash, Vec<u8>)>)
        ensures
            entries == old(self).entries,
            distinct_digests(entries@),
    {
        proof {
            use_type_invariant(&*self);
        }
        let mut taken = ChunkStorageMemory::new();
        core::mem::swap(self, &mut taken);
        let ChunkStorageMemory { entries } = taken;
        entries
    }

    /// The number of blobs that the store keeps.
    pub fn len(&self) -> (count: usize)
        ensures
            count == self.count(),
    {
        self.entries.len()
    }

    fn position(&self, chunk: &ChunkHash) -> (index: Option<usize>)
        ensures
            index is Some ==> is_first_blob(self.entries@, chunk@, index.unwrap() as int),
            index is None ==> forall|j: int|
                0 <= j < self.entries@.len() ==> (#[trigger] self.entries@[j]).0@ != chunk@,
    {
        let mut i: usize = 0;
        while i < self.entries.len()
            invariant
                i <= self.entries.len(),
                forall|j: int| 0 <= j < i ==> (#[trigger] self.entries@[j]).0@ != chunk@,
            decreases self.entries.len() - i,
        {
            if same_hash(&self.entries[i].0, chunk) {
                return Some(i);
            }
            i = i + 1;
        }
        None
    }
}

impl ChunkStorage for ChunkStorageMemory {
    closed spec fn blobs(&self) -> Map<Seq<u8>, Seq<u8>> {
        blobs_of(self.entries@)
    }

    /// Gives the blob that is held for the digest; a digest without a blob
    /// is not found. The store itself never fails.
    fn read_chunk_content(&self, chunk: &ChunkHash) -> (result: Result<Vec<u8>, StorageError>)
        ensures
            result is Ok == self.blobs().contains_key(chunk@),
            result is Err ==> result->Err_0 == StorageError::NotFound,
    {
        match self.position(chunk) {
            Some(index) => {
                proof {
                    lemma_first_blob(self.entries@, chunk@, index as int);
                }
                Ok(crate::compression::copy_bytes(self.entries[index].1.as_slice()))
            },
            None => {
                proof {
                    lemma_no_blob(self.entries@, chunk@);
                }
                Err(StorageError::NotFound)
            },
        }
    }

    /// Holds `content` for the digest from now on, in place of the blob that
    /// was held for it. Writing to memory always succeeds.
    #[verifier::rlimit(50)]
    fn write_chunk_content(&mut self, chunk: &ChunkHash, content: Vec<u8>) -> (result: Result<
        (),
        StorageError,
    >)
        ensures
            result is Ok,
            final(self).count() == old(self).count() + if old(self).blobs().contains_key(chunk@) {
                0nat
            } else {
                1nat
            },
    {
        let ghost before = self.entries@;
        let ghost blob = content@;
        let position = self.position(chunk);
        let mut entries = self.take_entries();
        match position {
            Some(index) => {
                entries.set(index, (*chunk, content));
                proof {
                    let after = entries@;
                    lemma_first_blob(before, chunk@, index as int);
                    assert forall|i: int, j: int| 0 <= i < j < after.len() implies (
                    #[trigger] after[i]).0@ != (#[trigger] after[j]).0@ by {
                        assert(after[i].0@ == before[i].0@);
                        assert(after[j].0@ == before[j].0@);
                    }
                    assert forall|other: Seq<u8>, i: int|
                        is_first_blob(before, other, i) == is_first_blob(after, other, i) by {
                        if is_first_blob(before, other, i) {
                            assert forall|j: int| 0 <= j < i implies (#[trigger] after[j]).0@
                                != other by {
                                assert(before[j].0@ != other);
                            }
                        }
                        if is_first_blob(after, other, i) {
                            assert forall|j: int| 0 <= j < i implies (#[trigger] before[j]).0@
                                != other by {
                                assert(after[j].0@ != other);
                            }
                        }
                    }
                    lemma_first_blob(after, chunk@, index as int);
                    assert forall|other: Seq<u8>| #[trigger]
                        blobs_of(before).contains_key(other) && other != chunk@ implies blobs_of(
                        after,
                    )[other] == blobs_of(before)[other] by {
                        let i = choose|i: int| is_first_blob(before, other, i);
                        lemma_first_blob(before, other, i);
                        lemma_first_blob(after, other, i);
                    }
                    assert(blobs_of(after) =~= blobs_of(before).insert(chunk@, blob));
                }
            },
            None => {
                entries.push((*chunk, content));
                proof {
                    let after = entries@;
                    let last = before.len() as int;
                    lemma_no_blob(before, chunk@);
                    assert forall|i: int, j: int| 0 <= i < j < after.len() implies (
                    #[trigger] after[i]).0@ != (#[trigger] after[j]).0@ by {
                        assert(after[i] == before[i]);
                        if j < last {
                            assert(after[j] == before[j]);
                        }
                    }
                    assert(is_first_blob(after, chunk@, last));
                    lemma_first_blob(after, chunk@, last);
                    assert forall|other: Seq<u8>, i: int| other != chunk@ implies is_first_blob(
                        before,
                        other,
                        i,
                    ) == is_first_blob(after, other, i) by {
                        if is_first_blob(before, other, i) {
                            assert forall|j: int| 0 <= j < i implies (#[trigger] after[j]).0@
                                != other by {
                                assert(before[j].0@ != other);
                            }
                        }
                        if is_first_blob(after, other, i) {
                            assert forall|j: int| 0 <= j < i implies (#[trigger] before[j]).0@
                                != other by {
                                assert(after[j].0@ != other);
                            }
                        }
                    }
                    assert forall|other: Seq<u8>| #[trigger]
                        blobs_of(before).contains_key(other) && other != chunk@ implies blobs_of(
                        after,
                    )[other] == blobs_of(before)[other] by {
                        let i = choose|i: int| is_first_blob(before, other, i);
                        lemma_first_blob(before, other, i);
                        lemma_first_blob(after, other, i);
                    }
                    assert(blobs_of(after) =~= blobs_of(before).insert(chunk@, blob));
                }
            },
        }
        *self = ChunkStorageMemory { entries };
        Ok(())
    }

    /// Lets go of the blob that is held for the digest; a digest without a
    /// blob is not found, and the store stays as it is.
    fn delete_chunk_content(&mut self, chunk: &ChunkHash) -> (result: Result<(), StorageError>)
        ensures
            result is Ok == old(self).blobs().contains_key(chunk@),
            result is Ok ==> final(self).count() == old(self).count() - 1,
            result is Err ==> result->Err_0 == StorageError::NotFound && *final(self) == *old(self),
    {
        let ghost before = self.entries@;
        let index = match self.position(chunk) {
            Some(index) => index,
            None => {
                proof {
                    lemma_no_blob(self.entries@, chunk@);
                }
                return Err(StorageError::NotFound);
            },
        };
        let mut entries = self.take_entries();
        entries.remove(index);
        proof {
            let after = entries@;
            lemma_first_blob(before, chunk@, index as int);
            assert(after =~= before.remove(index as int));
            assert forall|j: int| 0 <= j < after.len() implies (#[trigger] after[j]).0@
                != chunk@ by {
                if j < index {
                    assert(after[j] == before[j]);
                } else {
                    assert(after[j] == before[j + 1]);
                }
            }
            assert forall|i: int, j: int| 0 <= i < j < after.len() implies (#[trigger] after[i]).0@
                != (#[trigger] after[j]).0@ by {
                let p = if i < index { i } else { i + 1 };
                let q = if j < index { j } else { j + 1 };
                assert(after[i] == before[p]);
                assert(after[j] == before[q]);
            }
            lemma_no_blob(after, chunk@);
            assert forall|other: Seq<u8>| other != chunk@ implies (#[trigger] blobs_of(
                after,
            ).contains_key(other) == blobs_of(before).contains_key(other)) && (blobs_of(
                before,
            ).contains_key(other) ==> blobs_of(after)[other] == blobs_of(before)[other]) by {
                lemma_removed(before, index as int, other);
            }
            assert(blobs_of(after) =~= blobs_of(before).remove(chunk@));
        }
        *self = ChunkStorageMemory { entries };
        Ok(())
    }
}

/// A list from which an entry of one digest was taken holds for every other
/// digest what it held.
#[verifier::rlimit(50)]
proof fn lemma_removed(entries: Seq<(ChunkHash, Vec<u8>)>, index: int, other: Seq<u8>)
    requires
        0 <= index < entries.len(),
        entries[index].0@ != other,
    ensures
        blobs_of(entries.remove(index)).contains_key(other) == blobs_of(entries).contains_key(
            other,
        ),
        blobs_of(entries).contains_key(other) ==> blobs_of(entries.remove(index))[other]
            == blobs_of(entries)[other],
{
    let after = entries.remove(index);
    if blobs_of(entries).contains_key(other) {
        let p = choose|p: int| is_first_blob(entries, other, p);
        lemma_first_blob(entries, other, p);
        let q = if p < index {
            p
        } else {
            p - 1
        };
        assert(after[q] == entries[p]);
        assert forall|j: int| 0 <= j < q implies (#[trigger] after[j]).0@ != other by {
            if j < index {
                assert(after[j] == entries[j]);
            } else {
                assert(after[j] == entries[j + 1]);
            }
        }
        assert(is_first_blob(after, other, q));
        lemma_first_blob(after, other, q);
    }
    if blobs_of(after).contains_key(other) {
        let q = choose|q: int| is_first_blob(after, other, q);
        let p = if q < index {
            q
        } else {
            q + 1
        };
        assert(after[q] == entries[p]);
        lemma_some_blob(entries, other, p);
    }
}

} // verus!
