//! What is stored reads back: the conditions under which the files of a
//! walk are read back from the archive and the chunk index as they were.
//!
//! A chunk is found under its digest, so two different chunks with one
//! digest cannot both be kept. The laws here hold where that does not
//! happen among the chunks that are at stake: the chunks of the files of the
//! walk and the chunks that the store holds already.

use crate::archive::entries::{first_named, pushed_under, with_children, EntryView};
use crate::archive::source::SourceView;
use crate::archive::{inserted, ArchiveError};
use crate::chunks::reader::{
    chunk_ids, chunks_content, id_stream, lemma_chunk_ids_of_stream, lemma_no_failure,
};
use crate::chunks::{
    among, blake2b_256, blob_content, collision_free, file_hashes, file_plan,
    lemma_references_counted, occurrences, piece_of, reads_back, same_at, with_references,
    ChunkError, ChunkIndexView,
};
use crate::repository::{
    payload_readable, restore_failure, restore_failure_list, restored, restored_list,
    walked_compression, walked_file_ids, walked_file_view, WalkedEntry,
};
use vstd::prelude::*;

verus! {

/// Whether `blob` holds a chunk of the digest `hash`.
pub open spec fn blob_holds(blob: Seq<u8>, hash: Seq<u8>) -> bool {
    match blob_content(blob) {
        Ok(content) => blake2b_256(content) == hash,
        Err(_) => false,
    }
}

/// Whether the store holds, under the digest of every chunk that is
/// referenced, a blob of a chunk of that digest.
pub open spec fn store_sound(index: ChunkIndexView) -> bool {
    forall|h: Seq<u8>| #[trigger]
        index.referenced(h) ==> index.blobs.contains_key(h) && blob_holds(index.blobs[h], h)
}

/// Whether `content` is chunk `piece` of the file at `place` in `entries`,
/// cut as `index` cuts it.
pub open spec fn piece_at_stake(
    index: ChunkIndexView,
    entries: Seq<WalkedEntry>,
    place: int,
    piece: int,
    content: Seq<u8>,
) -> bool {
    &&& 0 <= place < entries.len()
    &&& entries[place].kind is File
    &&& 0 <= piece < file_plan(index, entries[place].kind->File_content@).0
    &&& piece_of(
        entries[place].kind->File_content@,
        file_plan(index, entries[place].kind->File_content@).0,
        file_plan(index, entries[place].kind->File_content@).1,
        piece,
    ) == content
}

/// Whether `content` is the chunk that the store of `index` holds under the
/// digest `hash` of a chunk that is referenced.
pub open spec fn stored_at_stake(index: ChunkIndexView, hash: Seq<u8>, content: Seq<u8>) -> bool {
    index.referenced(hash) && index.blobs.contains_key(hash) && blob_content(index.blobs[hash])
        == Ok::<Seq<u8>, ChunkError>(content)
}

/// Whether `content` is a chunk of a file of `entries` or a chunk that the
/// store of `index` holds for a chunk that is referenced.
pub open spec fn at_stake(index: ChunkIndexView, entries: Seq<WalkedEntry>, content: Seq<u8>)
    -> bool {
    (exists|place: int, piece: int| piece_at_stake(index, entries, place, piece, content)) || (
    exists|hash: Seq<u8>| stored_at_stake(index, hash, content))
}

/// Whether no two different chunks that are at stake have one digest.
pub open spec fn no_collision(index: ChunkIndexView, entries: Seq<WalkedEntry>) -> bool {
    forall|one: Seq<u8>, other: Seq<u8>|
        #![trigger at_stake(index, entries, one), at_stake(index, entries, other)]
        at_stake(index, entries, one) && at_stake(index, entries, other) && blake2b_256(one)
            == blake2b_256(other) ==> one == other
}

/// Whether the store of `now` holds, under the digest of every chunk that
/// is referenced, a blob of a chunk of that digest, one of those that are
/// at stake in `first` and `entries`.
pub open spec fn stake_sound(first: ChunkIndexView, entries: Seq<WalkedEntry>, now: ChunkIndexView)
    -> bool {
    forall|h: Seq<u8>| #[trigger]
        now.referenced(h) ==> now.blobs.contains_key(h) && blob_holds(now.blobs[h], h) && at_stake(
            first,
            entries,
            blob_content(now.blobs[h])->Ok_0,
        )
}

/// Whether the chunks of the file at `place` in `entries` are referenced in
/// `now` and read back as the content of the file.
pub open spec fn file_readable(
    now: ChunkIndexView,
    start: ChunkIndexView,
    entries: Seq<WalkedEntry>,
    place: int,
) -> bool {
    &&& chunks_content(now, walked_file_ids(start, entries, place)) == Some(
        entries[place].kind->File_content@,
    )
    &&& forall|j: int|
        0 <= j < walked_file_ids(start, entries, place).len() ==> now.refcount(
            #[trigger] walked_file_ids(start, entries, place)[j],
        ) > 0
}

/// In a sound store the chunks that it holds are at stake.
pub proof fn lemma_sound_at_start(index: ChunkIndexView, entries: Seq<WalkedEntry>)
    requires
        store_sound(index),
    ensures
        stake_sound(index, entries, index),
{
    assert forall|h: Seq<u8>| #[trigger] index.referenced(h) implies index.blobs.contains_key(h)
        && blob_holds(index.blobs[h], h) && at_stake(
        index,
        entries,
        blob_content(index.blobs[h])->Ok_0,
    ) by {
        assert(stored_at_stake(index, h, blob_content(index.blobs[h])->Ok_0));
    }
}

/// Where no two chunks at stake share a digest, none do that matter for
/// storing a file of the walk.
pub proof fn lemma_collision_free_at(
    first: ChunkIndexView,
    entries: Seq<WalkedEntry>,
    now: ChunkIndexView,
    place: int,
)
    requires
        0 <= place < entries.len(),
        entries[place].kind is File,
        no_collision(first, entries),
        stake_sound(first, entries, now),
        now.chunk_size == first.chunk_size,
        now.max_chunk_count == first.max_chunk_count,
    ensures
        collision_free(now, entries[place].kind->File_content@),
{
    let content = entries[place].kind->File_content@;
    let count = file_plan(now, content).0;
    let size = file_plan(now, content).1;
    let hashes = file_hashes(now, content);
    assert(file_plan(first, content) == file_plan(now, content));
    assert forall|i: int, j: int|
        0 <= i < count && 0 <= j < count && #[trigger] hashes[i] == #[trigger] hashes[j] implies piece_of(
        content,
        count,
        size,
        i,
    ) == piece_of(content, count, size, j) by {
        let one = piece_of(content, count, size, i);
        let other = piece_of(content, count, size, j);
        assert(piece_at_stake(first, entries, place, i, one));
        assert(piece_at_stake(first, entries, place, j, other));
        assert(at_stake(first, entries, one) && at_stake(first, entries, other));
        assert(hashes[i] == blake2b_256(one));
        assert(hashes[j] == blake2b_256(other));
    }
    assert forall|i: int| 0 <= i < count && now.referenced(#[trigger] hashes[i]) implies now.blobs.contains_key(
        hashes[i],
    ) && blob_content(now.blobs[hashes[i]]) == Ok::<Seq<u8>, ChunkError>(
        piece_of(content, count, size, i),
    ) by {
        let one = piece_of(content, count, size, i);
        let held = blob_content(now.blobs[hashes[i]])->Ok_0;
        assert(piece_at_stake(first, entries, place, i, one));
        assert(at_stake(first, entries, one) && at_stake(first, entries, held));
        assert(hashes[i] == blake2b_256(one));
        assert(blake2b_256(held) == hashes[i]);
    }
}

/// An identifier that is counted in a list stands somewhere in it.
pub proof fn lemma_occurs_somewhere(ids: Seq<u64>, id: u64) -> (index: int)
    requires
        occurrences(ids, id) > 0,
    ensures
        0 <= index < ids.len(),
        ids[index] == id,
    decreases ids.len(),
{
    if ids.last() == id {
        ids.len() - 1
    } else {
        lemma_occurs_somewhere(ids.drop_last(), id)
    }
}

/// Storing a file of the walk keeps the store sound over the chunks at
/// stake: a chunk that was referenced keeps its blob, and a chunk that is
/// referenced only now has the blob of a chunk of the file.
#[verifier::rlimit(50)]
pub proof fn lemma_stake_kept(
    first: ChunkIndexView,
    entries: Seq<WalkedEntry>,
    before: ChunkIndexView,
    after: ChunkIndexView,
    place: int,
    ids: Seq<u64>,
)
    requires
        0 <= place < entries.len(),
        entries[place].kind is File,
        stake_sound(first, entries, before),
        after.well_formed(),
        before.chunk_size == first.chunk_size,
        before.max_chunk_count == first.max_chunk_count,
        ids.len() == file_hashes(before, entries[place].kind->File_content@).len(),
        after.chunks == with_references(
            before.chunks,
            ids,
            file_hashes(before, entries[place].kind->File_content@),
        ),
        forall|i: int|
            0 <= i < ids.len() ==> after.hashes.contains_key(
                #[trigger] file_hashes(before, entries[place].kind->File_content@)[i],
            ) && after.hashes[file_hashes(before, entries[place].kind->File_content@)[i]] == ids[i],
        forall|h: Seq<u8>| #[trigger]
            before.referenced(h) && before.blobs.contains_key(h) ==> after.blobs.contains_key(h)
                && after.blobs[h] == before.blobs[h],
        forall|h: Seq<u8>|
            !among(
                file_hashes(before, entries[place].kind->File_content@),
                file_hashes(before, entries[place].kind->File_content@).len() as int,
                h,
            ) ==> #[trigger] same_at(before, after, h),
        forall|i: int|
            0 <= i < ids.len() && !before.referenced(
                #[trigger] file_hashes(before, entries[place].kind->File_content@)[i],
            ) ==> reads_back(before, after, entries[place].kind->File_content@, i),
    ensures
        stake_sound(first, entries, after),
{
    let content = entries[place].kind->File_content@;
    let hashes = file_hashes(before, content);
    let count = file_plan(before, content).0;
    let size = file_plan(before, content).1;
    assert(file_plan(first, content) == file_plan(before, content));
    assert forall|h: Seq<u8>| #[trigger] after.referenced(h) implies after.blobs.contains_key(h)
        && blob_holds(after.blobs[h], h) && at_stake(
        first,
        entries,
        blob_content(after.blobs[h])->Ok_0,
    ) by {
        if before.referenced(h) {
            assert(before.blobs.contains_key(h));
            assert(after.blobs[h] == before.blobs[h]);
        } else {
            let id = after.hashes[h];
            if !among(hashes, hashes.len() as int, h) {
                assert(same_at(before, after, h));
                lemma_references_counted(before.chunks, ids, hashes, id);
                assert(occurrences(ids, id) > 0);
                let j = lemma_occurs_somewhere(ids, id);
                assert(after.hashes.contains_key(hashes[j]) && after.hashes[hashes[j]] == id);
                assert(hashes[j] == h);
                assert(false);
            }
            let i = choose|i: int| 0 <= i < hashes.len() && #[trigger] hashes[i] == h;
            assert(reads_back(before, after, content, i));
            let j = choose|j: int|
                i <= j < count && blake2b_256(#[trigger] piece_of(content, count, size, j))
                    == blake2b_256(piece_of(content, count, size, i)) && blob_content(
                    after.blobs[blake2b_256(piece_of(content, count, size, i))],
                ) == Ok::<Seq<u8>, ChunkError>(piece_of(content, count, size, j));
            assert(hashes[i] == blake2b_256(piece_of(content, count, size, i)));
            assert(piece_at_stake(first, entries, place, j, piece_of(content, count, size, j)));
        }
    }
}

/// Chunks that are referenced in a sound index read the same in an index
/// that has kept them, their digests and the blobs of the chunks that were
/// referenced.
pub proof fn lemma_chunks_content_kept(before: ChunkIndexView, after: ChunkIndexView, ids: Seq<u64>)
    requires
        before.well_formed(),
        forall|j: int| 0 <= j < ids.len() ==> before.refcount(#[trigger] ids[j]) > 0,
        forall|id: u64| #[trigger]
            before.chunks.contains_key(id) ==> after.chunks.contains_key(id) && after.chunks[id].0
                == before.chunks[id].0,
        forall|h: Seq<u8>| #[trigger]
            before.referenced(h) && before.blobs.contains_key(h) ==> after.blobs.contains_key(h)
                && after.blobs[h] == before.blobs[h],
    ensures
        chunks_content(after, ids) == chunks_content(before, ids),
    decreases ids.len(),
{
    if ids.len() > 0 {
        let id = ids[0];
        assert(before.refcount(id) > 0);
        assert(before.chunks.contains_key(id));
        let h = before.chunks[id].0;
        assert(before.hashes.contains_key(h) && before.hashes[h] == id);
        assert(before.referenced(h));
        assert(before.blobs.contains_key(h));
        assert forall|j: int| 0 <= j < ids.skip(1).len() implies before.refcount(
            #[trigger] ids.skip(1)[j],
        ) > 0 by {
            assert(ids.skip(1)[j] == ids[j + 1]);
        }
        lemma_chunks_content_kept(before, after, ids.skip(1));
    }
}

/// A file whose chunks read back keeps doing so when references to other
/// chunks are counted and the blobs of the chunks that were referenced are
/// kept.
pub proof fn lemma_file_readable_kept(
    before: ChunkIndexView,
    after: ChunkIndexView,
    start: ChunkIndexView,
    entries: Seq<WalkedEntry>,
    place: int,
    ids: Seq<u64>,
    hashes: Seq<Seq<u8>>,
)
    requires
        before.well_formed(),
        file_readable(before, start, entries, place),
        ids.len() == hashes.len(),
        after.chunks == with_references(before.chunks, ids, hashes),
        forall|h: Seq<u8>| #[trigger]
            before.referenced(h) && before.blobs.contains_key(h) ==> after.blobs.contains_key(h)
                && after.blobs[h] == before.blobs[h],
    ensures
        file_readable(after, start, entries, place),
{
    let kept = walked_file_ids(start, entries, place);
    assert forall|id: u64| #[trigger] before.chunks.contains_key(id) implies after.chunks.contains_key(
        id,
    ) && after.chunks[id].0 == before.chunks[id].0 by {
        lemma_references_counted(before.chunks, ids, hashes, id);
    }
    lemma_chunks_content_kept(before, after, kept);
    assert forall|j: int| 0 <= j < kept.len() implies after.refcount(#[trigger] kept[j]) > 0 by {
        assert(before.refcount(kept[j]) > 0);
        lemma_references_counted(before.chunks, ids, hashes, kept[j]);
    }
}

/// A file of the walk is restored as it was: where its payload reads back
/// from the archive and its chunks read back from a sound index, the entry
/// that the file has become is restored as a file with the content, the
/// name, the mode, the owner and the time of the walked file.
pub proof fn lemma_walk_file_restored(
    now: ChunkIndexView,
    payload: Seq<u8>,
    start: ChunkIndexView,
    entries: Seq<WalkedEntry>,
    place: int,
)
    requires
        0 <= place < entries.len(),
        entries[place].kind is File,
        now.well_formed(),
        payload_readable(start, entries, place, payload),
        file_readable(now, start, entries, place),
    ensures
        restored(now, payload, walked_file_view(start, entries, place)) == Some(
            SourceView::File {
                name: entries[place].name@,
                mode: entries[place].mode.0,
                owner: entries[place].owner,
                mtime: entries[place].mtime,
                content: entries[place].kind->File_content@,
                compression: Some(walked_compression(entries[place].kind->File_compression)),
                real_size: Some(entries[place].kind->File_content@.len() as u64),
            },
        ),
{
    let ids = walked_file_ids(start, entries, place);
    assert forall|j: int| 0 <= j < ids.len() implies #[trigger] ids[j] != 0 by {
        assert(now.refcount(ids[j]) > 0);
        assert(now.chunks.contains_key(ids[j]));
        assert(now.in_use(ids[j]));
    }
    lemma_chunk_ids_of_stream(ids);
    let view = walked_file_view(start, entries, place);
    assert(crate::archive::entry_content(
        payload,
        view->File_compression,
        view->File_size_compressed,
        view->File_size,
        view->File_offset,
    ) == Ok::<Seq<u8>, ArchiveError>(id_stream(ids)));
    assert(chunk_ids(id_stream(ids)) == ids);
}

/// Whether `entry` is the entry that the file at `place` among the first
/// `upto` of `walk` has become.
pub open spec fn is_walked_file(
    start: ChunkIndexView,
    walk: Seq<WalkedEntry>,
    upto: int,
    place: int,
    entry: EntryView,
) -> bool {
    &&& 0 <= place < upto
    &&& place < walk.len()
    &&& walk[place].kind is File
    &&& entry == walked_file_view(start, walk, place)
}

/// Whether every file in `entry`, its children included, is the entry that
/// a file among the first `upto` of `walk` has become.
pub open spec fn from_walk(
    start: ChunkIndexView,
    walk: Seq<WalkedEntry>,
    upto: int,
    entry: EntryView,
) -> bool
    decreases entry,
{
    match entry {
        EntryView::File { .. } => exists|place: int| is_walked_file(start, walk, upto, place, entry),
        EntryView::Directory { entries, .. } => forall|i: int|
            0 <= i < entries.len() ==> from_walk(start, walk, upto, #[trigger] entries[i]),
        EntryView::Symlink { .. } => true,
    }
}

/// Whether every file in `entries` is of the first `upto` of `walk`.
pub open spec fn all_from_walk(
    start: ChunkIndexView,
    walk: Seq<WalkedEntry>,
    upto: int,
    entries: Seq<EntryView>,
) -> bool {
    forall|i: int| 0 <= i < entries.len() ==> from_walk(start, walk, upto, #[trigger] entries[i])
}

/// What is of the first of a walk is of the first and one more.
pub proof fn lemma_from_walk_longer(
    start: ChunkIndexView,
    walk: Seq<WalkedEntry>,
    upto: int,
    entry: EntryView,
)
    requires
        from_walk(start, walk, upto, entry),
    ensures
        from_walk(start, walk, upto + 1, entry),
    decreases entry,
{
    match entry {
        EntryView::File { .. } => {
            let place = choose|place: int| is_walked_file(start, walk, upto, place, entry);
            assert(is_walked_file(start, walk, upto + 1, place, entry));
        },
        EntryView::Directory { entries, .. } => {
            assert forall|i: int| 0 <= i < entries.len() implies from_walk(
                start,
                walk,
                upto + 1,
                #[trigger] entries[i],
            ) by {
                lemma_from_walk_longer(start, walk, upto, entries[i]);
            }
        },
        EntryView::Symlink { .. } => {},
    }
}

/// Putting an entry of the walk under a directory of a tree of the walk
/// gives a tree of the walk.
pub proof fn lemma_pushed_from_walk(
    start: ChunkIndexView,
    walk: Seq<WalkedEntry>,
    upto: int,
    entries: Seq<EntryView>,
    parts: Seq<Seq<char>>,
    entry: EntryView,
)
    requires
        all_from_walk(start, walk, upto, entries),
        from_walk(start, walk, upto, entry),
    ensures
        all_from_walk(start, walk, upto, pushed_under(entries, parts, entry)),
    decreases parts.len(),
{
    if parts.len() > 0 {
        match first_named(entries, parts[0]) {
            None => {},
            Some(i) => {
                assert(0 <= i < entries.len());
                match entries[i] {
                    EntryView::Directory { entries: children, .. } => {
                        assert(from_walk(start, walk, upto, entries[i]));
                        assert(all_from_walk(start, walk, upto, children));
                        lemma_pushed_from_walk(start, walk, upto, children, parts.skip(1), entry);
                        let grown = pushed_under(children, parts.skip(1), entry);
                        let replaced = with_children(entries[i], grown);
                        assert(from_walk(start, walk, upto, replaced));
                        let after = entries.update(i, replaced);
                        assert forall|j: int| 0 <= j < after.len() implies from_walk(
                            start,
                            walk,
                            upto,
                            #[trigger] after[j],
                        ) by {
                            if j != i {
                                assert(after[j] == entries[j]);
                            }
                        }
                    },
                    _ => {},
                }
            },
        }
    } else {
        let after = entries.push(entry);
        assert forall|j: int| 0 <= j < after.len() implies from_walk(
            start,
            walk,
            upto,
            #[trigger] after[j],
        ) by {
            if j < entries.len() {
                assert(after[j] == entries[j]);
            }
        }
    }
}

/// Taking an entry of the walk into a tree of the walk gives a tree of the
/// walk.
pub proof fn lemma_inserted_from_walk(
    start: ChunkIndexView,
    walk: Seq<WalkedEntry>,
    upto: int,
    entries: Seq<EntryView>,
    parent: Seq<Seq<char>>,
    entry: EntryView,
)
    requires
        all_from_walk(start, walk, upto, entries),
        from_walk(start, walk, upto, entry),
        inserted(entries, parent, entry) is Ok,
    ensures
        all_from_walk(start, walk, upto, inserted(entries, parent, entry)->Ok_0),
{
    lemma_pushed_from_walk(start, walk, upto, entries, parent, entry);
    lemma_pushed_from_walk(start, walk, upto, entries, Seq::empty(), entry);
}

/// An entry of a tree of the walk is restored, where the payload and the
/// chunks of every file of the walk read back.
pub proof fn lemma_entry_restored(
    now: ChunkIndexView,
    payload: Seq<u8>,
    start: ChunkIndexView,
    walk: Seq<WalkedEntry>,
    entry: EntryView,
)
    requires
        now.well_formed(),
        from_walk(start, walk, walk.len() as int, entry),
        forall|k: int|
            0 <= k < walk.len() && walk[k].kind is File ==> #[trigger] payload_readable(
                start,
                walk,
                k,
                payload,
            ),
        forall|k: int|
            0 <= k < walk.len() && walk[k].kind is File ==> #[trigger] file_readable(
                now,
                start,
                walk,
                k,
            ),
    ensures
        restored(now, payload, entry) is Some,
    decreases entry,
{
    match entry {
        EntryView::File { .. } => {
            let place = choose|place: int|
                is_walked_file(start, walk, walk.len() as int, place, entry);
            assert(payload_readable(start, walk, place, payload));
            assert(file_readable(now, start, walk, place));
            lemma_walk_file_restored(now, payload, start, walk, place);
        },
        EntryView::Directory { entries, .. } => {
            lemma_walk_restored(now, payload, start, walk, entries);
        },
        EntryView::Symlink { .. } => {},
    }
}

/// What was made of a walk is restored: every entry of a tree of the walk
/// is read back, where the payload and the chunks of every file of the walk
/// read back, so that reading the tree back fails only where the store
/// does; and every file that is read back is a file of the walk, which
/// `lemma_walk_file_restored` says is as it was.
pub proof fn lemma_walk_restored(
    now: ChunkIndexView,
    payload: Seq<u8>,
    start: ChunkIndexView,
    walk: Seq<WalkedEntry>,
    entries: Seq<EntryView>,
)
    requires
        now.well_formed(),
        all_from_walk(start, walk, walk.len() as int, entries),
        forall|k: int|
            0 <= k < walk.len() && walk[k].kind is File ==> #[trigger] payload_readable(
                start,
                walk,
                k,
                payload,
            ),
        forall|k: int|
            0 <= k < walk.len() && walk[k].kind is File ==> #[trigger] file_readable(
                now,
                start,
                walk,
                k,
            ),
    ensures
        restored_list(now, payload, entries) is Some,
        restore_failure_list(now, payload, entries) is None,
    decreases entries,
{
    lemma_restored_or_failed_list(now, payload, entries);
    if entries.len() > 0 {
        assert forall|i: int| 0 <= i < entries.drop_last().len() implies from_walk(
            start,
            walk,
            walk.len() as int,
            #[trigger] entries.drop_last()[i],
        ) by {
            assert(entries.drop_last()[i] == entries[i]);
        }
        lemma_walk_restored(now, payload, start, walk, entries.drop_last());
        assert(from_walk(start, walk, walk.len() as int, entries[entries.len() - 1]));
        lemma_entry_restored(now, payload, start, walk, entries.last());
    }
}

/// An entry is read back exactly where nothing of it fails, the store
/// giving every blob that it holds.
pub proof fn lemma_restored_or_failed(index: ChunkIndexView, payload: Seq<u8>, entry: EntryView)
    ensures
        restored(index, payload, entry) is Some == restore_failure(index, payload, entry) is None,
    decreases entry,
{
    match entry {
        EntryView::File { compression, size_compressed, size, offset, .. } => {
            match crate::archive::entry_content(payload, compression, size_compressed, size, offset) {
                Ok(stream) => {
                    lemma_no_failure(index, chunk_ids(stream));
                },
                Err(_) => {},
            }
        },
        EntryView::Directory { entries, .. } => {
            lemma_restored_or_failed_list(index, payload, entries);
        },
        EntryView::Symlink { .. } => {},
    }
}

/// The entries of a list are read back exactly where none of them fails.
pub proof fn lemma_restored_or_failed_list(
    index: ChunkIndexView,
    payload: Seq<u8>,
    entries: Seq<EntryView>,
)
    ensures
        restored_list(index, payload, entries) is Some == restore_failure_list(
            index,
            payload,
            entries,
        ) is None,
    decreases entries,
{
    if entries.len() > 0 {
        lemma_restored_or_failed_list(index, payload, entries.drop_last());
        lemma_restored_or_failed(index, payload, entries.last());
    }
}

} // verus!
