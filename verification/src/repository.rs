//! Archives and chunk index together: storing a tree in an archive by way
//! of the chunk index, reading it back, and giving its chunks up.

use crate::archive::codec::MODE_MASK;
use crate::archive::entries::{
    entries_view, fits, found, lemma_directory_view, names_view, DirectoryEntry, Entry, EntryMode,
    EntryView, SymlinkEntry,
};
use crate::archive::source::{SourceDirectory, SourceEntry, SourceFile, SourceSymlink};
use crate::archive::{entry_content, Archive, ArchiveError, ArchiveView, CompressionFormat};
use crate::chunks::reader::{
    chunk_ids, chunks_content, decode_chunk_ids, encode_chunk_ids, first_failure, id_stream,
    lemma_chunk_ids_of_stream, read_chunks, EntryReader,
};
use crate::chunks::storage::ChunkStorage;
use crate::chunks::{
    assigned_ids, collision_free, file_hashes, lemma_released_joined, lemma_released_nothing,
    released, with_dereferences, with_references, ChunkError, ChunkIndex, ChunkIndexView,
};
use crate::fidelity::{
    all_from_walk, file_readable, from_walk, is_walked_file, lemma_collision_free_at,
    lemma_file_readable_kept, lemma_from_walk_longer, lemma_inserted_from_walk,
    lemma_sound_at_start, lemma_stake_kept, no_collision, stake_sound, store_sound,
};
use vstd::prelude::*;
use vstd::utf8::encode_utf8;

verus! {

/// Why the repository could not do what was asked.
#[derive(Debug, Clone, Copy, PartialEq, Eq, Structural)]
pub enum RepositoryError {
    /// There is an archive of the name already.
    AlreadyExists,
    /// There is no archive of the name.
    NotFound,
    /// The entry is not a file.
    NotAFile,
    /// The archive failed.
    Archive(ArchiveError),
    /// The chunk index failed.
    Chunk(ChunkError),
}

/// What an entry that was walked is, besides its name and metadata.
#[derive(Debug, PartialEq, Eq)]
pub enum WalkedKind {
    /// A regular file with its content. Without a compression the content
    /// is stored under DEFLATE.
    File { content: Vec<u8>, compression: Option<CompressionFormat> },
    Directory,
    Symlink { target: String, target_dir: bool },
}

/// An entry as the walk of a directory tree yields it: where it lies below
/// the root of the walk, and what it is.
#[derive(Debug, PartialEq, Eq)]
pub struct WalkedEntry {
    /// The names of the directories from the root of the walk down to the
    /// one that holds the entry.
    pub parent: Vec<String>,
    pub name: String,
    pub mode: EntryMode,
    pub owner: (u32, u32),
    /// Seconds since the UNIX epoch.
    pub mtime: u64,
    pub kind: WalkedKind,
}

/// Whether one of `names` is `name`.
pub open spec fn has_name(names: Seq<String>, name: Seq<char>) -> bool {
    exists|i: int| 0 <= i < names.len() && (#[trigger] names[i])@ == name
}

/// Whether one of `names` is `name`.
pub fn contains_name(names: &[String], name: &String) -> (found: bool)
    ensures
        found == has_name(names@, name@),
{
    let mut i: usize = 0;
    while i < names.len()
        invariant
            i <= names@.len(),
            forall|k: int| 0 <= k < i ==> (#[trigger] names@[k])@ != name@,
        decreases names@.len() - i,
    {
        if names[i] == *name {
            return true;
        }
        i = i + 1;
    }
    false
}

/// The chunk identifiers that the payload of an entry lists, and those of
/// its children, in the order of a depth-first walk. A file whose payload
/// cannot be read lists none.
pub open spec fn entry_ids(payload: Seq<u8>, entry: EntryView) -> Seq<u64>
    decreases entry,
{
    match entry {
        EntryView::File { compression, size_compressed, size, offset, .. } => match entry_content(
            payload,
            compression,
            size_compressed,
            size,
            offset,
        ) {
            Ok(stream) => chunk_ids(stream),
            Err(_) => Seq::empty(),
        },
        EntryView::Directory { entries, .. } => entries_ids(payload, entries),
        EntryView::Symlink { .. } => Seq::empty(),
    }
}

/// The chunk identifiers of a list of entries, one entry after the other.
pub open spec fn entries_ids(payload: Seq<u8>, entries: Seq<EntryView>) -> Seq<u64>
    decreases entries,
{
    if entries.len() == 0 {
        Seq::empty()
    } else {
        entries_ids(payload, entries.drop_last()) + entry_ids(payload, entries.last())
    }
}

/// Giving up the references of one list after those of another is giving up
/// those of the two lists joined.
pub proof fn lemma_dereferences_joined(
    chunks: Map<u64, (Seq<u8>, u64)>,
    first: Seq<u64>,
    second: Seq<u64>,
)
    ensures
        with_dereferences(with_dereferences(chunks, first), second) == with_dereferences(
            chunks,
            first + second,
        ),
    decreases second.len(),
{
    if second.len() == 0 {
        assert(first + second =~= first);
    } else {
        lemma_dereferences_joined(chunks, first, second.drop_last());
        assert((first + second).drop_last() =~= first + second.drop_last());
    }
}

/// The compression that the content of a walked file is stored under:
/// the one that was asked for, or DEFLATE.
pub open spec fn walked_compression(asked: Option<CompressionFormat>) -> CompressionFormat {
    match asked {
        Some(format) => format,
        None => CompressionFormat::Deflate,
    }
}

/// The entry that a walked entry becomes in an archive whose payloads end
/// at `offset`, where a file has the chunk identifiers `ids`: a file lists
/// its chunks in its payload and records the length of that list as its
/// raw size and the length of its content as its real size.
pub open spec fn walked_view(entry: WalkedEntry, ids: Seq<u64>, offset: nat) -> EntryView {
    match entry.kind {
        WalkedKind::File { content, compression } => EntryView::File {
            name: entry.name@,
            mode: entry.mode.0,
            owner: entry.owner,
            mtime: entry.mtime,
            compression: walked_compression(compression),
            size_compressed: if walked_compression(compression)
                != CompressionFormat::Uncompressed {
                Some(
                    crate::compression::compressed(
                        walked_compression(compression),
                        id_stream(ids),
                    ).unwrap().len() as u64,
                )
            } else {
                None
            },
            size_real: content@.len() as u64,
            size: id_stream(ids).len() as u64,
            offset: offset as u64,
        },
        WalkedKind::Directory => EntryView::Directory {
            name: entry.name@,
            mode: entry.mode.0,
            owner: entry.owner,
            mtime: entry.mtime,
            entries: Seq::empty(),
        },
        WalkedKind::Symlink { target, target_dir } => EntryView::Symlink {
            name: entry.name@,
            mode: entry.mode.0,
            owner: entry.owner,
            mtime: entry.mtime,
            target: target@,
            target_dir,
        },
    }
}

/// What recording a walked file with the chunk identifiers `ids` has done:
/// the archive holds the payload that lists the identifiers behind the
/// payloads that were there, and the entry of the file under its parent; and
/// the payload reads back as that list.
pub open spec fn recorded(before: ArchiveView, after: ArchiveView, entry: WalkedEntry, ids: Seq<u64>)
    -> bool {
    let format = walked_compression(entry.kind->File_compression);
    let stored = crate::compression::compressed(format, id_stream(ids));
    &&& stored is Some
    &&& after.version == before.version
    &&& after.payload == before.payload + stored.unwrap()
    &&& crate::archive::inserted(
        before.entries,
        names_view(entry.parent@),
        walked_view(entry, ids, before.payload.len()),
    ) == Ok::<Seq<EntryView>, ArchiveError>(after.entries)
    &&& entry_content(
        after.payload,
        format,
        walked_view(entry, ids, before.payload.len())->File_size_compressed,
        id_stream(ids).len() as u64,
        before.payload.len() as u64,
    ) == Ok::<Seq<u8>, ArchiveError>(id_stream(ids))
}

/// What storing a walked file has done: its chunks are referenced in the
/// index; the archive holds the payload that lists their identifiers behind
/// the payloads that were there, and the entry of the file under its parent;
/// and in a sound index without collisions the payload reads back as that
/// list and the chunks read back as the content.
pub open spec fn stored_walked_file(
    index_before: ChunkIndexView,
    index_after: ChunkIndexView,
    before: ArchiveView,
    after: ArchiveView,
    entry: WalkedEntry,
) -> bool {
    let content = entry.kind->File_content@;
    let format = walked_compression(entry.kind->File_compression);
    let hashes = file_hashes(index_before, content);
    let ids = assigned_ids(index_after, hashes);
    &&& index_after.chunks == with_references(index_before.chunks, ids, hashes)
    &&& recorded(before, after, entry, ids)
    &&& index_before.well_formed() && collision_free(index_before, content) ==> chunk_ids(
        id_stream(ids),
    ) == ids && chunks_content(index_after, ids) == Some(content)
}

/// A file that was stored reads back as it was: in a sound index without
/// collisions, the entry that storing a walked file has made is restored,
/// from the archive and the index as they are after the storing, as a file
/// with the content, the name, the mode, the owner and the time of the
/// walked file.
pub proof fn lemma_stored_file_restored(
    index_before: ChunkIndexView,
    index_after: ChunkIndexView,
    before: ArchiveView,
    after: ArchiveView,
    entry: WalkedEntry,
)
    requires
        entry.kind is File,
        index_before.well_formed(),
        collision_free(index_before, entry.kind->File_content@),
        stored_walked_file(index_before, index_after, before, after, entry),
    ensures
        restored(
            index_after,
            after.payload,
            walked_view(
                entry,
                assigned_ids(index_after, file_hashes(index_before, entry.kind->File_content@)),
                before.payload.len(),
            ),
        ) == Some(
            crate::archive::source::SourceView::File {
                name: entry.name@,
                mode: entry.mode.0,
                owner: entry.owner,
                mtime: entry.mtime,
                content: entry.kind->File_content@,
                compression: Some(walked_compression(entry.kind->File_compression)),
                real_size: Some(entry.kind->File_content@.len() as u64),
            },
        ),
{
    let content = entry.kind->File_content@;
    let ids = assigned_ids(index_after, file_hashes(index_before, content));
    assert(recorded(before, after, entry, ids));
    assert(chunk_ids(id_stream(ids)) == ids);
    assert(chunks_content(index_after, ids) == Some(content));
}

/// The index without what its store holds: identifiers, digests and
/// references.
pub open spec fn ledger(index: ChunkIndexView) -> ChunkIndexView {
    ChunkIndexView { blobs: Map::empty(), ..index }
}

/// Giving digests their identifiers does not look at the store, and leaves
/// the chunks, the store and the sizes alone.
pub proof fn lemma_identified_all_ledger(index: ChunkIndexView, hashes: Seq<Seq<u8>>)
    ensures
        ledger(crate::chunks::identified_all(index, hashes)) == crate::chunks::identified_all(
            ledger(index),
            hashes,
        ),
        crate::chunks::identified_all(index, hashes).chunks == index.chunks,
        crate::chunks::identified_all(index, hashes).blobs == index.blobs,
        crate::chunks::identified_all(index, hashes).chunk_size == index.chunk_size,
        crate::chunks::identified_all(index, hashes).max_chunk_count == index.max_chunk_count,
    decreases hashes.len(),
{
    if hashes.len() > 0 {
        lemma_identified_all_ledger(index, hashes.drop_last());
    }
}

/// The identifiers that the chunks of a walked file get in `index`.
pub open spec fn walked_ids(index: ChunkIndexView, entry: WalkedEntry) -> Seq<u64> {
    if entry.kind is File {
        assigned_ids(
            crate::chunks::identified_all(index, file_hashes(index, entry.kind->File_content@)),
            file_hashes(index, entry.kind->File_content@),
        )
    } else {
        Seq::empty()
    }
}

/// The index after a walked entry was stored: the chunks of a file have
/// their identifiers and a reference more each; anything else leaves the
/// index as it is.
pub open spec fn index_after_walked(index: ChunkIndexView, entry: WalkedEntry) -> ChunkIndexView {
    if entry.kind is File {
        ChunkIndexView {
            chunks: with_references(
                index.chunks,
                walked_ids(index, entry),
                file_hashes(index, entry.kind->File_content@),
            ),
            ..crate::chunks::identified_all(index, file_hashes(index, entry.kind->File_content@))
        }
    } else {
        index
    }
}

/// The archive after a walked entry was stored: the payload of a file is
/// behind the payloads that were there, and the entry is under its parent.
pub open spec fn archive_after_walked(index: ChunkIndexView, archive: ArchiveView, entry: WalkedEntry)
    -> ArchiveView {
    ArchiveView {
        version: archive.version,
        payload: if entry.kind is File {
            archive.payload + crate::compression::compressed(
                walked_compression(entry.kind->File_compression),
                id_stream(walked_ids(index, entry)),
            ).unwrap()
        } else {
            archive.payload
        },
        entries: crate::archive::inserted(
            archive.entries,
            names_view(entry.parent@),
            walked_view(entry, walked_ids(index, entry), archive.payload.len()),
        ).unwrap(),
    }
}

/// Whether the name and the mode of a walked entry fit the format.
pub open spec fn entry_fits(entry: WalkedEntry) -> bool {
    encode_utf8(entry.name@).len() <= 255 && entry.mode.0 <= MODE_MASK
}

/// Why the archive does not take the payload of a walked file whose chunks
/// are stored: the encoder fails on the list of its chunk identifiers, or
/// the payloads would be longer than an offset can say.
pub open spec fn payload_refusal(index: ChunkIndexView, archive: ArchiveView, entry: WalkedEntry)
    -> Option<ArchiveError> {
    match crate::compression::compressed(
        walked_compression(entry.kind->File_compression),
        id_stream(walked_ids(index, entry)),
    ) {
        None => Some(ArchiveError::CompressionFailed),
        Some(stored) => if archive.payload.len() + stored.len() > u64::MAX {
            Some(ArchiveError::TooLarge)
        } else {
            None
        },
    }
}

/// Whether `error` is one that storing the chunks of a walked file in
/// `index` can end with: a failure of the store; a chunk size of zero; a
/// chunk that can get no identifier; a chunk that the encoder fails on.
pub open spec fn chunking_refusal(index: ChunkIndexView, entry: WalkedEntry, error: ChunkError)
    -> bool {
    let content = entry.kind->File_content@;
    let format = walked_compression(entry.kind->File_compression);
    ||| error is Storage
    ||| error == ChunkError::InvalidChunkSize && index.chunk_size == 0
    ||| error == ChunkError::Exhausted && exists|k: int|
        crate::chunks::exhausted_at(index, file_hashes(index, content), k)
    ||| error == ChunkError::CompressionFailed && exists|k: int|
        crate::chunks::unencodable_at(
            content,
            crate::chunks::file_plan(index, content).0,
            crate::chunks::file_plan(index, content).1,
            format,
            k,
        )
}

/// Whether `error` is one that storing a walked entry can end with, in an
/// index and an archive as they are before: an entry that does not fit, a
/// parent that is not a directory, and for a file what the chunk index or
/// the archive refuses.
pub open spec fn refusal(
    index: ChunkIndexView,
    archive: ArchiveView,
    entry: WalkedEntry,
    error: RepositoryError,
) -> bool {
    if !entry_fits(entry) {
        error == RepositoryError::Archive(ArchiveError::InvalidEntry)
    } else if blocked(archive.entries, names_view(entry.parent@)) {
        error == RepositoryError::Archive(ArchiveError::NotADirectory)
    } else {
        entry.kind is File && match error {
            RepositoryError::Chunk(e) => chunking_refusal(index, entry, e),
            RepositoryError::Archive(e) => payload_refusal(index, archive, entry) == Some(e),
            _ => false,
        }
    }
}

/// Whether storing a walked entry succeeds whatever the store does: the
/// entry fits and its parent is no obstacle; and where it is a file, all its
/// chunks are referenced already and the archive takes its payload.
pub open spec fn accepted(index: ChunkIndexView, archive: ArchiveView, entry: WalkedEntry) -> bool {
    &&& entry_fits(entry)
    &&& !blocked(archive.entries, names_view(entry.parent@))
    &&& entry.kind is File ==> {
        &&& index.chunk_size > 0
        &&& crate::chunks::all_referenced(
            index,
            file_hashes(index, entry.kind->File_content@),
            file_hashes(index, entry.kind->File_content@).len() as int,
        )
        &&& payload_refusal(index, archive, entry) is None
    }
}

/// The chunk identifiers of the file at `place` in `entries`, as it gets
/// them when the entries before it are stored.
pub open spec fn walked_file_ids(index: ChunkIndexView, entries: Seq<WalkedEntry>, place: int)
    -> Seq<u64> {
    walked_ids(walked_all(index, new_archive(), entries.take(place)).0, entries[place])
}

/// The entry that the file at `place` in `entries` becomes in the archive.
pub open spec fn walked_file_view(index: ChunkIndexView, entries: Seq<WalkedEntry>, place: int)
    -> EntryView {
    walked_view(
        entries[place],
        walked_file_ids(index, entries, place),
        walked_all(index, new_archive(), entries.take(place)).1.payload.len(),
    )
}

/// Whether the payload of the file at `place` in `entries` lies within
/// `payload` and reads back as the list of the chunk identifiers of the
/// file.
pub open spec fn payload_readable(
    index: ChunkIndexView,
    entries: Seq<WalkedEntry>,
    place: int,
    payload: Seq<u8>,
) -> bool {
    let view = walked_file_view(index, entries, place);
    &&& view->File_offset + crate::archive::stored_length(
        view->File_compression,
        view->File_size_compressed,
        view->File_size,
    ) <= payload.len()
    &&& entry_content(
        payload,
        view->File_compression,
        view->File_size_compressed,
        view->File_size,
        view->File_offset,
    ) == Ok::<Seq<u8>, ArchiveError>(id_stream(walked_file_ids(index, entries, place)))
}

/// A payload that reads back keeps doing so when more payloads follow.
pub proof fn lemma_payload_readable_kept(
    index: ChunkIndexView,
    entries: Seq<WalkedEntry>,
    place: int,
    payload: Seq<u8>,
    more: Seq<u8>,
)
    requires
        payload_readable(index, entries, place, payload),
    ensures
        payload_readable(index, entries, place, payload + more),
{
    let view = walked_file_view(index, entries, place);
    crate::archive::lemma_entry_content_kept(
        payload,
        more,
        view->File_compression,
        view->File_size_compressed,
        view->File_size,
        view->File_offset,
    );
}

/// Whether `hash` is the digest of a chunk of the file at `place` in
/// `entries`, cut as `index` cuts it.
pub open spec fn file_digest_at(
    index: ChunkIndexView,
    entries: Seq<WalkedEntry>,
    place: int,
    hash: Seq<u8>,
) -> bool {
    &&& 0 <= place < entries.len()
    &&& entries[place].kind is File
    &&& crate::chunks::among(
        file_hashes(index, entries[place].kind->File_content@),
        file_hashes(index, entries[place].kind->File_content@).len() as int,
        hash,
    )
}

/// Whether chunk `piece` of the file at `place` in `entries` is not
/// referenced when the entries before that file are stored.
pub open spec fn new_chunk_at(
    index: ChunkIndexView,
    entries: Seq<WalkedEntry>,
    place: int,
    piece: int,
) -> bool {
    &&& 0 <= place < entries.len()
    &&& entries[place].kind is File
    &&& 0 <= piece < file_hashes(index, entries[place].kind->File_content@).len()
    &&& !walked_all(index, new_archive(), entries.take(place)).0.referenced(
        file_hashes(index, entries[place].kind->File_content@)[piece],
    )
}

/// Whether `hash` is the digest of a chunk of a file of `entries`.
pub open spec fn walk_digest(index: ChunkIndexView, entries: Seq<WalkedEntry>, hash: Seq<u8>)
    -> bool {
    exists|place: int| file_digest_at(index, entries, place, hash)
}

/// The chunks of the index after a walked entry was refused with `error`:
/// where the archive refused the payload of a file, the references that
/// were counted for its chunks are given up again; in every other case the
/// chunks are as they were.
pub open spec fn chunks_after_refusal(
    index: ChunkIndexView,
    archive: ArchiveView,
    entry: WalkedEntry,
    error: RepositoryError,
) -> Map<u64, (Seq<u8>, u64)> {
    if entry_fits(entry) && !blocked(archive.entries, names_view(entry.parent@)) && entry.kind
        is File && error is Archive {
        with_dereferences(
            with_references(
                index.chunks,
                walked_ids(index, entry),
                file_hashes(index, entry.kind->File_content@),
            ),
            walked_ids(index, entry),
        )
    } else {
        index.chunks
    }
}

/// Whether the walk over `entries` ends at the entry `place` with `error`
/// and leaves `chunks` in the index: the entries before it are stored, it
/// is refused with that error, and the chunks are what that leaves.
pub open spec fn refused_at(
    index: ChunkIndexView,
    entries: Seq<WalkedEntry>,
    place: int,
    error: RepositoryError,
    chunks: Map<u64, (Seq<u8>, u64)>,
) -> bool {
    &&& 0 <= place < entries.len()
    &&& refusal(
        walked_all(index, new_archive(), entries.take(place)).0,
        walked_all(index, new_archive(), entries.take(place)).1,
        entries[place],
        error,
    )
    &&& chunks == chunks_after_refusal(
        walked_all(index, new_archive(), entries.take(place)).0,
        walked_all(index, new_archive(), entries.take(place)).1,
        entries[place],
        error,
    )
}

/// Whether the entry `place` of a walk is accepted when the entries before
/// it are stored.
pub open spec fn accepted_at(index: ChunkIndexView, entries: Seq<WalkedEntry>, place: int) -> bool {
    accepted(
        walked_all(index, new_archive(), entries.take(place)).0,
        walked_all(index, new_archive(), entries.take(place)).1,
        entries[place],
    )
}

/// Index and archive after each of `entries` was stored, in order.
pub open spec fn walked_all(index: ChunkIndexView, archive: ArchiveView, entries: Seq<WalkedEntry>)
    -> (ChunkIndexView, ArchiveView)
    decreases entries.len(),
{
    if entries.len() == 0 {
        (index, archive)
    } else {
        let before = walked_all(index, archive, entries.drop_last());
        (
            index_after_walked(before.0, entries.last()),
            archive_after_walked(before.0, before.1, entries.last()),
        )
    }
}

/// The archive that `Archive::new` makes.
pub open spec fn new_archive() -> ArchiveView {
    ArchiveView {
        version: crate::archive::FILE_VERSION,
        payload: crate::archive::FILE_SIGNATURE@.push(crate::archive::FILE_VERSION),
        entries: Seq::empty(),
    }
}

/// Whether the path `parent` leads to something in `entries` that is not a
/// directory.
pub open spec fn blocked(entries: Seq<EntryView>, parent: Seq<Seq<char>>) -> bool {
    found(entries, parent) is Some && !(found(entries, parent).unwrap() is Directory)
}

/// What an entry of an archive is when it is read back: a file with the
/// content of its chunks, a directory with what its children are, a link as
/// it is. Nothing where a payload or a chunk cannot be read.
pub open spec fn restored(index: ChunkIndexView, payload: Seq<u8>, entry: EntryView) -> Option<
    crate::archive::source::SourceView,
>
    decreases entry,
{
    match entry {
        EntryView::File {
            name,
            mode,
            owner,
            mtime,
            compression,
            size_compressed,
            size_real,
            size,
            offset,
        } => match entry_content(payload, compression, size_compressed, size, offset) {
            Err(_) => None,
            Ok(stream) => match chunks_content(index, chunk_ids(stream)) {
                None => None,
                Some(content) => Some(
                    crate::archive::source::SourceView::File {
                        name,
                        mode,
                        owner,
                        mtime,
                        content,
                        compression: Some(compression),
                        real_size: Some(size_real),
                    },
                ),
            },
        },
        EntryView::Directory { name, mode, owner, mtime, entries } => match restored_list(
            index,
            payload,
            entries,
        ) {
            None => None,
            Some(children) => Some(
                crate::archive::source::SourceView::Directory {
                    name,
                    mode,
                    owner,
                    mtime,
                    entries: children,
                },
            ),
        },
        EntryView::Symlink { name, mode, owner, mtime, target, target_dir } => Some(
            crate::archive::source::SourceView::Symlink {
                name,
                mode,
                owner,
                mtime,
                target,
                target_dir,
            },
        ),
    }
}

/// What the entries of a list are when they are read back, in order.
pub open spec fn restored_list(index: ChunkIndexView, payload: Seq<u8>, entries: Seq<EntryView>)
    -> Option<Seq<crate::archive::source::SourceView>>
    decreases entries,
{
    if entries.len() == 0 {
        Some(Seq::empty())
    } else {
        match (
            restored_list(index, payload, entries.drop_last()),
            restored(index, payload, entries.last()),
        ) {
            (Some(others), Some(last)) => Some(others.push(last)),
            _ => None,
        }
    }
}

/// What saving the repository gave, seen as what saving its chunk index
/// gave: the bytes, or the error of the chunk index (saving gives no error
/// of another kind; one would count as invalid data).
pub open spec fn saved_bytes(result: Result<Vec<u8>, RepositoryError>) -> Result<
    Seq<u8>,
    ChunkError,
> {
    match result {
        Ok(bytes) => Ok(bytes@),
        Err(RepositoryError::Chunk(e)) => Err(e),
        Err(_) => Err(ChunkError::InvalidData),
    }
}

/// Whether an error is a failure of the store.
pub open spec fn store_failed(error: RepositoryError) -> bool {
    error is Chunk && error->Chunk_0 is Storage
}

/// The error of the first thing of `entry` that cannot be read where the
/// store gives every blob that it holds: the payload of a file, or the first
/// of its chunks that cannot be read. Children are gone through in order.
pub open spec fn restore_failure(index: ChunkIndexView, payload: Seq<u8>, entry: EntryView)
    -> Option<RepositoryError>
    decreases entry,
{
    match entry {
        EntryView::File { compression, size_compressed, size, offset, .. } => match entry_content(
            payload,
            compression,
            size_compressed,
            size,
            offset,
        ) {
            Err(e) => Some(RepositoryError::Archive(e)),
            Ok(stream) => match first_failure(index, chunk_ids(stream)) {
                Some(e) => Some(RepositoryError::Chunk(e)),
                None => None,
            },
        },
        EntryView::Directory { entries, .. } => restore_failure_list(index, payload, entries),
        EntryView::Symlink { .. } => None,
    }
}

/// The error of the first of `entries` that cannot be read, as
/// `restore_failure` says for each.
pub open spec fn restore_failure_list(
    index: ChunkIndexView,
    payload: Seq<u8>,
    entries: Seq<EntryView>,
) -> Option<RepositoryError>
    decreases entries,
{
    if entries.len() == 0 {
        None
    } else {
        match restore_failure_list(index, payload, entries.drop_last()) {
            Some(e) => Some(e),
            None => restore_failure(index, payload, entries.last()),
        }
    }
}

/// Whether reading `entry` back asks nothing of the store: it holds no file
/// but such as have a payload that cannot be read or that lists no chunk.
pub open spec fn asks_nothing(payload: Seq<u8>, entry: EntryView) -> bool
    decreases entry,
{
    match entry {
        EntryView::File { compression, size_compressed, size, offset, .. } => match entry_content(
            payload,
            compression,
            size_compressed,
            size,
            offset,
        ) {
            Err(_) => true,
            Ok(stream) => chunk_ids(stream).len() == 0,
        },
        EntryView::Directory { entries, .. } => forall|i: int|
            0 <= i < entries.len() ==> asks_nothing(payload, #[trigger] entries[i]),
        EntryView::Symlink { .. } => true,
    }
}

/// Whether reading each of `entries` back asks nothing of the store.
pub open spec fn all_ask_nothing(payload: Seq<u8>, entries: Seq<EntryView>) -> bool {
    forall|i: int| 0 <= i < entries.len() ==> asks_nothing(payload, #[trigger] entries[i])
}

/// Whether `result` is what `failure` asks for: the error where there is
/// one, success where there is none.
pub open spec fn follows<T>(result: Result<T, RepositoryError>, failure: Option<RepositoryError>)
    -> bool {
    match failure {
        Some(e) => result is Err && result->Err_0 == e,
        None => result is Ok,
    }
}

/// What fails among the first of a list of entries fails in the list.
pub proof fn lemma_failure_prefix(
    index: ChunkIndexView,
    payload: Seq<u8>,
    entries: Seq<EntryView>,
    upto: int,
)
    requires
        0 <= upto <= entries.len(),
        restore_failure_list(index, payload, entries.take(upto)) is Some,
    ensures
        restore_failure_list(index, payload, entries) == restore_failure_list(
            index,
            payload,
            entries.take(upto),
        ),
    decreases entries.len(),
{
    if upto == entries.len() {
        assert(entries.take(upto) =~= entries);
    } else {
        assert(entries.drop_last().take(upto) =~= entries.take(upto));
        lemma_failure_prefix(index, payload, entries.drop_last(), upto);
    }
}

/// The five bytes that the name of an archive file ends with: `.ddup`.
pub open spec fn archive_suffix() -> Seq<u8> {
    seq![0x2Eu8, 0x64u8, 0x64u8, 0x75u8, 0x70u8]
}

/// The name of the archive that a file of the name `file_name` holds: the
/// name without `.ddup` at its end, and none for a name that ends otherwise.
pub open spec fn archive_name_of(file_name: Seq<char>) -> Option<Seq<char>> {
    let bytes = encode_utf8(file_name);
    if bytes.len() >= 5 && bytes.skip(bytes.len() - 5) == archive_suffix() {
        Some(vstd::utf8::decode_utf8(bytes.take(bytes.len() - 5)))
    } else {
        None
    }
}

/// The names of the archives that files of the names `file_names` hold, in
/// order.
pub open spec fn archive_names_of(file_names: Seq<String>) -> Seq<Seq<char>>
    decreases file_names.len(),
{
    if file_names.len() == 0 {
        Seq::empty()
    } else {
        match archive_name_of(file_names.last()@) {
            Some(name) => archive_names_of(file_names.drop_last()).push(name),
            None => archive_names_of(file_names.drop_last()),
        }
    }
}

/// The name of the archive that a file of the name `file_name` holds.
pub fn archive_name(file_name: &str) -> (name: Option<String>)
    ensures
        name is Some == archive_name_of(file_name@) is Some,
        name is Some ==> name.unwrap()@ == archive_name_of(file_name@).unwrap(),
{
    let bytes = file_name.as_bytes();
    let len = bytes.len();
    if len < 5 {
        return None;
    }
    let split = len - 5;
    if bytes[split] != 0x2E || bytes[split + 1] != 0x64 || bytes[split + 2] != 0x64 || bytes[split
        + 3] != 0x75 || bytes[split + 4] != 0x70 {
        assert(bytes@.skip(split as int)[0] == bytes@[split as int]);
        assert(bytes@.skip(split as int)[1] == bytes@[split + 1]);
        assert(bytes@.skip(split as int)[2] == bytes@[split + 2]);
        assert(bytes@.skip(split as int)[3] == bytes@[split + 3]);
        assert(bytes@.skip(split as int)[4] == bytes@[split + 4]);
        return None;
    }
    assert(bytes@.skip(split as int) =~= archive_suffix());
    let stem = crate::compression::copy_bytes(vstd::slice::slice_subrange(bytes, 0, split));
    proof {
        assert(stem@ =~= bytes@.take(split as int));
        vstd::utf8::encode_utf8_valid_utf8(file_name@);
        assert(!vstd::utf8::is_continuation_byte(0x2Eu8)) by {
            assert(0x2Eu8 & 0xC0 != 0x80) by (bit_vector);
        }
        vstd::utf8::is_char_boundary_iff_not_is_continuation_byte(bytes@, split as int);
        vstd::utf8::valid_utf8_split(bytes@, split as int);
        assert(bytes@.subrange(0, split as int) =~= bytes@.take(split as int));
    }
    crate::stream::string_from_utf8(stem)
}

/// The path of the archive `name` below the root of a repository.
pub open spec fn archive_path_of(name: Seq<char>) -> Seq<char> {
    ".ddup-bak/archives/"@ + name + ".ddup"@
}

/// A repository: the chunk index, and whether it is to be saved when it is
/// let go.
pub struct Repository<S: ChunkStorage> {
    pub chunk_index: ChunkIndex<S>,
    pub save_on_drop: bool,
}

impl<S: ChunkStorage> Repository<S> {
    /// A repository with a fresh chunk index over `storage`.
    pub fn new(chunk_size: usize, max_chunk_count: usize, storage: S) -> (repository: Self)
        ensures
            repository.save_on_drop,
            repository.chunk_index@.well_formed(),
            repository.chunk_index@ == (ChunkIndexView {
                next_id: 1,
                deleted: Seq::empty(),
                chunks: Map::empty(),
                hashes: Map::empty(),
                chunk_size,
                max_chunk_count,
                blobs: storage.blobs(),
            }),
    {
        Repository {
            chunk_index: ChunkIndex::new(chunk_size, max_chunk_count, storage),
            save_on_drop: true,
        }
    }

    /// The repository whose chunk index the index file `index_file` holds.
    pub fn open(index_file: &[u8], storage: S) -> (result: Result<Self, RepositoryError>)
        ensures
            match crate::chunks::opened_index(
                crate::compression::deflate_decoded(index_file@),
            ) {
                Ok(file) => result is Ok && result.unwrap().save_on_drop
                    && result.unwrap().chunk_index@ == crate::chunks::index_of(
                    file,
                    storage.blobs(),
                ),
                Err(e) => result is Err && result->Err_0 == RepositoryError::Chunk(e),
            },
    {
        match ChunkIndex::open(index_file, storage) {
            Ok(chunk_index) => Ok(Repository { chunk_index, save_on_drop: true }),
            Err(e) => Err(RepositoryError::Chunk(e)),
        }
    }

    /// The chunk index as an index file, as `ChunkIndex::save` writes it.
    ///
    /// A size or a largest number of chunks above `u32::MAX` is refused;
    /// otherwise the result is what the encoder makes of a file that holds
    /// the index.
    pub fn save(&self) -> (result: Result<Vec<u8>, RepositoryError>)
        ensures
            result is Err ==> result->Err_0 == RepositoryError::Chunk(ChunkError::InvalidChunkSize)
                || result->Err_0 == RepositoryError::Chunk(ChunkError::CompressionFailed),
            self.chunk_index@.chunk_size > u32::MAX || self.chunk_index@.max_chunk_count
                > u32::MAX ==> result is Err && result->Err_0 == RepositoryError::Chunk(
                ChunkError::InvalidChunkSize,
            ),
            self.chunk_index@.chunk_size <= u32::MAX && self.chunk_index@.max_chunk_count
                <= u32::MAX ==> exists|file: crate::chunks::file::IndexFile|
                crate::chunks::written_as(self.chunk_index@, file, saved_bytes(result)),
            result is Ok ==> crate::chunks::opened_index(
                crate::compression::deflate_decoded(result.unwrap()@),
            ) is Ok && crate::chunks::saved(
                self.chunk_index@,
                crate::chunks::opened_index(
                    crate::compression::deflate_decoded(result.unwrap()@),
                ).unwrap(),
            ),
    {
        let saved = self.chunk_index.save();
        let result = match saved {
            Ok(bytes) => Ok(bytes),
            Err(e) => Err(RepositoryError::Chunk(e)),
        };
        proof {
            assert(saved_bytes(result) == crate::chunks::bytes_view(saved));
        }
        result
    }

    /// The path of the archive `name` below the root of the repository.
    pub fn archive_path(name: &str) -> (path: String)
        ensures
            path@ == archive_path_of(name@),
    {
        let mut path = String::new();
        path.append(".ddup-bak/archives/");
        path.append(name);
        path.append(".ddup");
        assert(path@ =~= archive_path_of(name@));
        path
    }

    /// Lists the archives that files of the names `file_names` hold: the
    /// names that end in `.ddup`, without that ending, in order.
    pub fn list_archives(file_names: &[String]) -> (names: Vec<String>)
        ensures
            names_view(names@) == archive_names_of(file_names@),
    {
        let mut names: Vec<String> = Vec::new();
        let mut i: usize = 0;
        assert(file_names@.take(0) =~= Seq::<String>::empty());
        assert(names_view(names@) =~= Seq::<Seq<char>>::empty());
        while i < file_names.len()
            invariant
                i <= file_names@.len(),
                names_view(names@) == archive_names_of(file_names@.take(i as int)),
            decreases file_names@.len() - i,
        {
            let ghost done = names@;
            match archive_name(file_names[i].as_str()) {
                Some(name) => {
                    names.push(name);
                    assert(names_view(names@) =~= names_view(done).push(name@));
                },
                None => {},
            }
            i = i + 1;
            proof {
                assert(file_names@.take(i as int).drop_last() =~= file_names@.take(i - 1));
                assert(file_names@.take(i as int).last() == file_names@[i - 1]);
            }
        }
        assert(file_names@.take(i as int) =~= file_names@);
        names
    }

    /// Sets the save_on_drop flag.
    /// If set to true, the repository is to be saved when it is let go.
    pub fn set_save_on_drop(&mut self, save_on_drop: bool)
        ensures
            final(self).save_on_drop == save_on_drop,
            final(self).chunk_index == old(self).chunk_index,
    {
        self.save_on_drop = save_on_drop;
    }

    /// Takes every chunk without references out of the index, as
    /// `ChunkIndex::clean` does.
    pub fn clean(&mut self) -> (result: Result<Vec<u64>, RepositoryError>)
        ensures
            final(self).save_on_drop == old(self).save_on_drop,
            old(self).chunk_index@.well_formed() ==> final(self).chunk_index@.well_formed(),
            result is Err ==> result->Err_0 is Chunk && result->Err_0->Chunk_0 is Storage,
            result is Ok ==> final(self).chunk_index@.deleted == old(self).chunk_index@.deleted
                + result.unwrap()@,
            result is Ok ==> forall|id: u64| #[trigger]
                old(self).chunk_index@.chunks.contains_key(id) && old(self).chunk_index@.chunks[id].1 == 0 ==> !final(self).chunk_index@.chunks.contains_key(
                    id,
                ) && !final(self).chunk_index@.blobs.contains_key(
                    old(self).chunk_index@.chunks[id].0,
                ),
            forall|id: u64| #[trigger]
                old(self).chunk_index@.chunks.contains_key(id) && old(self).chunk_index@.chunks[id].1 > 0 ==> final(self).chunk_index@.chunks.contains_key(
                    id,
                ) && final(self).chunk_index@.chunks[id] == old(self).chunk_index@.chunks[id],
            result is Ok ==> forall|id: u64|
                (old(self).chunk_index@.chunks.contains_key(id) && old(self).chunk_index@.chunks[id].1 == 0) == #[trigger] result.unwrap()@.contains(id),
            crate::chunks::none_unreferenced(old(self).chunk_index@.chunks) ==> result is Ok
                && result.unwrap()@.len() == 0 && final(self).chunk_index@ == old(self).chunk_index@,
    {
        match self.chunk_index.clean() {
            Ok(removed) => Ok(removed),
            Err(e) => Err(RepositoryError::Chunk(e)),
        }
    }

    /// A reader over the content of a file entry of `archive`.
    ///
    /// Anything but a file has no content. The reader goes through the chunk
    /// identifiers that the payload of the entry lists.
    pub fn entry_reader(&self, archive: &Archive, entry: &Entry) -> (result: Result<
        EntryReader,
        RepositoryError,
    >)
        ensures
            !(entry is File) ==> result is Err && result->Err_0 == RepositoryError::NotAFile,
            entry is File ==> match entry_content(
                archive@.payload,
                entry->File_0.compression,
                entry->File_0.size_compressed,
                entry->File_0.size,
                entry->File_0.offset,
            ) {
                Ok(stream) => result is Ok && result.unwrap().pending() == Seq::<u8>::empty()
                    && result.unwrap().upcoming() == chunk_ids(stream),
                Err(e) => result is Err && result->Err_0 == RepositoryError::Archive(e),
            },
    {
        match entry {
            Entry::File(file) => match archive.read_entry(file) {
                Ok(stream) => Ok(EntryReader::new(stream)),
                Err(e) => Err(RepositoryError::Archive(e)),
            },
            _ => Err(RepositoryError::NotAFile),
        }
    }

    /// Reads the content of a file entry of `archive` out of the chunks that
    /// its payload lists.
    ///
    /// Anything but a file has no content; a payload that cannot be read is
    /// an error of the archive; the first chunk that cannot be read is an
    /// error of the chunk index. Where there is a result it is the content
    /// of the chunks, one after the other.
    pub fn read_entry_content(&self, archive: &Archive, entry: &Entry) -> (result: Result<
        Vec<u8>,
        RepositoryError,
    >)
        ensures
            !(entry is File) ==> result is Err && result->Err_0 == RepositoryError::NotAFile,
            entry is File ==> match entry_content(
                archive@.payload,
                entry->File_0.compression,
                entry->File_0.size_compressed,
                entry->File_0.size,
                entry->File_0.offset,
            ) {
                Ok(stream) => (result is Ok ==> chunks_content(
                    self.chunk_index@,
                    chunk_ids(stream),
                ) == Some(result.unwrap()@)) && (result is Err ==> result->Err_0 is Chunk) && (
                chunks_content(self.chunk_index@, chunk_ids(stream)) is None ==> result is Err),
                Err(e) => result is Err && result->Err_0 == RepositoryError::Archive(e),
            },
            result is Ok ==> restore_failure(self.chunk_index@, archive@.payload, entry@) is None,
            result is Err && entry is File ==> store_failed(result->Err_0) || restore_failure(
                self.chunk_index@,
                archive@.payload,
                entry@,
            ) == Some(result->Err_0),
            entry is File && asks_nothing(archive@.payload, entry@) ==> follows(
                result,
                restore_failure(self.chunk_index@, archive@.payload, entry@),
            ),
    {
        match entry {
            Entry::File(file) => {
                let stream = match archive.read_entry(file) {
                    Ok(stream) => stream,
                    Err(e) => {
                        return Err(RepositoryError::Archive(e));
                    },
                };
                let ids = decode_chunk_ids(stream);
                proof {
                    crate::chunks::reader::lemma_no_failure(self.chunk_index@, ids@);
                }
                match read_chunks(&self.chunk_index, ids.as_slice()) {
                    Ok(content) => Ok(content),
                    Err(e) => Err(RepositoryError::Chunk(e)),
                }
            },
            _ => Err(RepositoryError::NotAFile),
        }
    }

    /// Puts a walked file whose chunks have the identifiers `ids` into
    /// `archive`: the payload that lists the identifiers, stored under the
    /// compression of the file, and the entry of the file under its parent,
    /// or among the root entries where the parent is not in the archive.
    ///
    /// Anything but a file is refused, and so is a name or a mode that does
    /// not fit the format and a parent that is not a directory. On failure
    /// the archive is left as it was.
    #[verifier::rlimit(50)]
    pub fn record_file(archive: &mut Archive, entry: &WalkedEntry, ids: &[u64]) -> (result: Result<
        (),
        ArchiveError,
    >)
        ensures
            final(archive)@.well_formed(),
            result is Err ==> final(archive)@ == old(archive)@,
            !(entry.kind is File && encode_utf8(entry.name@).len() <= 255 && entry.mode.0
                <= MODE_MASK) ==> result is Err && result->Err_0 == ArchiveError::InvalidEntry,
            entry.kind is File && encode_utf8(entry.name@).len() <= 255 && entry.mode.0
                <= MODE_MASK && blocked(old(archive)@.entries, names_view(entry.parent@))
                ==> result is Err && result->Err_0 == ArchiveError::NotADirectory,
            entry.kind is File && encode_utf8(entry.name@).len() <= 255 && entry.mode.0
                <= MODE_MASK && !blocked(old(archive)@.entries, names_view(entry.parent@))
                ==> match crate::compression::compressed(
                walked_compression(entry.kind->File_compression),
                id_stream(ids@),
            ) {
                None => result is Err && result->Err_0 == ArchiveError::CompressionFailed,
                Some(stored) => if old(archive)@.payload.len() + stored.len() > u64::MAX {
                    result is Err && result->Err_0 == ArchiveError::TooLarge
                } else {
                    result is Ok && recorded(old(archive)@, final(archive)@, *entry, ids@)
                },
            },
    {
        let parent_blocked = match archive.find_archive_entry(entry.parent.as_slice()) {
            Some(target) => match target {
                Entry::Directory(_) => false,
                _ => true,
            },
            None => false,
        };
        let (content_len, format) = match &entry.kind {
            WalkedKind::File { content, compression } => (
                content.len(),
                match compression {
                    Some(format) => *format,
                    None => CompressionFormat::Deflate,
                },
            ),
            _ => {
                return Err(ArchiveError::InvalidEntry);
            },
        };
        if !fits(entry.name.as_str(), entry.mode) {
            return Err(ArchiveError::InvalidEntry);
        }
        if parent_blocked {
            return Err(ArchiveError::NotADirectory);
        }
        let ghost before = archive@;
        let stream = encode_chunk_ids(ids);
        let mut file = match archive.write_file_entry(
            stream.as_slice(),
            None,
            entry.name.clone(),
            entry.mode,
            entry.mtime,
            entry.owner,
            format,
        ) {
            Ok(file) => file,
            Err(e) => {
                return Err(e);
            },
        };
        file.size_real = content_len as u64;
        let stored_entry = Entry::File(file);
        proof {
            assert(stored_entry@.well_formed());
        }
        match archive.insert_entry(entry.parent.as_slice(), stored_entry) {
            Ok(()) => {},
            Err(e) => {
                return Err(e);
            },
        }
        proof {
            let stored = crate::compression::compressed(format, stream@).unwrap();
            let offset = before.payload.len();
            crate::chunks::reader::lemma_id_stream_length(ids@);
            assert(archive@.payload == before.payload + stored);
            assert(crate::archive::payload_region(
                archive@.payload,
                offset as u64,
                stored.len() as u64,
            ) =~= stored);
            assert(stored_entry@ == walked_view(*entry, ids@, offset));
            assert(stream.len() <= usize::MAX);
            assert(offset + stored.len() <= u64::MAX);
            assert(crate::compression::decompressed(format, stored) == Some(stream@));
            if format == CompressionFormat::Uncompressed {
                assert(stored == stream@);
            } else {
                assert(stored_entry@->File_size_compressed == Some(stored.len() as u64));
            }
            assert(entry_content(
                archive@.payload,
                format,
                stored_entry@->File_size_compressed,
                stream@.len() as u64,
                offset as u64,
            ) == Ok::<Seq<u8>, ArchiveError>(stream@));
        }
        Ok(())
    }

    /// Puts one entry of a walk into `archive`: a file by way of the chunk
    /// index, a directory without children, a link as it is.
    ///
    /// An entry whose name or mode does not fit the format is refused, and
    /// so is one whose parent is in the archive and is not a directory;
    /// nothing changes then. The entry is put under its parent, or among the
    /// root entries where the parent is not in the archive.
    ///
    /// The content of a file is cut into chunks by `ChunkIndex::chunk_file`;
    /// the payload of the file lists their identifiers and is stored under
    /// the compression of the file. Where the chunk index fails no reference
    /// is counted; where the archive cannot store the payload the references
    /// that were counted are given up again. In a sound index without
    /// collisions, what was stored reads back as the content.
    ///
    /// A file fails for the reasons of `ChunkIndex::chunk_file`, and where
    /// the encoder fails on the list of its chunk identifiers or the
    /// payloads grow past what an offset can say; a file whose chunks are
    /// all referenced already asks nothing of the store. Storing a file
    /// leaves the blobs of other digests, and those of referenced chunks,
    /// as they are.
    #[verifier::rlimit(50)]
    pub fn recursive_create_archive(
        chunk_index: &mut ChunkIndex<S>,
        archive: &mut Archive,
        entry: &WalkedEntry,
    ) -> (result: Result<(), RepositoryError>)
        ensures
            final(archive)@.well_formed(),
            final(archive)@.version == old(archive)@.version,
            old(chunk_index)@.well_formed() ==> final(chunk_index)@.well_formed(),
            final(chunk_index)@.chunk_size == old(chunk_index)@.chunk_size,
            final(chunk_index)@.max_chunk_count == old(chunk_index)@.max_chunk_count,
            !(encode_utf8(entry.name@).len() <= 255 && entry.mode.0 <= MODE_MASK) ==> result
                is Err && result->Err_0 == RepositoryError::Archive(ArchiveError::InvalidEntry)
                && final(archive)@ == old(archive)@ && final(chunk_index)@ == old(chunk_index)@,
            encode_utf8(entry.name@).len() <= 255 && entry.mode.0 <= MODE_MASK && blocked(
                old(archive)@.entries,
                names_view(entry.parent@),
            ) ==> result is Err && result->Err_0 == RepositoryError::Archive(
                ArchiveError::NotADirectory,
            ) && final(archive)@ == old(archive)@ && final(chunk_index)@ == old(chunk_index)@,
            encode_utf8(entry.name@).len() <= 255 && entry.mode.0 <= MODE_MASK && !blocked(
                old(archive)@.entries,
                names_view(entry.parent@),
            ) && !(entry.kind is File) ==> result is Ok && final(chunk_index)@ == old(chunk_index)@ && final(archive)@.payload == old(archive)@.payload && crate::archive::inserted(
                old(archive)@.entries,
                names_view(entry.parent@),
                walked_view(*entry, Seq::empty(), 0),
            ) == Ok::<Seq<EntryView>, ArchiveError>(final(archive)@.entries),
            entry.kind is File && result is Ok ==> stored_walked_file(
                old(chunk_index)@,
                final(chunk_index)@,
                old(archive)@,
                final(archive)@,
                *entry,
            ),
            entry.kind is File && result is Err ==> final(archive)@ == old(archive)@ && (
            result->Err_0 is Chunk ==> final(chunk_index)@.chunks == old(chunk_index)@.chunks),
            result is Err ==> result->Err_0 is Archive || result->Err_0 is Chunk,
            result is Ok ==> ledger(final(chunk_index)@) == index_after_walked(
                ledger(old(chunk_index)@),
                *entry,
            ) && final(archive)@ == archive_after_walked(
                ledger(old(chunk_index)@),
                old(archive)@,
                *entry,
            ),
            result is Err ==> refusal(
                ledger(old(chunk_index)@),
                old(archive)@,
                *entry,
                result->Err_0,
            ),
            entry.kind is File && result is Ok ==> forall|h: Seq<u8>|
                !crate::chunks::among(
                    file_hashes(old(chunk_index)@, entry.kind->File_content@),
                    file_hashes(old(chunk_index)@, entry.kind->File_content@).len() as int,
                    h,
                ) ==> #[trigger] crate::chunks::same_at(old(chunk_index)@, final(chunk_index)@, h),
            entry.kind is File && result is Ok ==> forall|h: Seq<u8>| #[trigger]
                old(chunk_index)@.referenced(h) && old(chunk_index)@.blobs.contains_key(h)
                    ==> final(chunk_index)@.blobs.contains_key(h) && final(chunk_index)@.blobs[h]
                    == old(chunk_index)@.blobs[h],
            result is Ok ==> forall|h: Seq<u8>| #[trigger]
                old(chunk_index)@.referenced(h) ==> final(chunk_index)@.referenced(h),
            entry.kind is File && result is Ok ==> recorded(
                old(archive)@,
                final(archive)@,
                *entry,
                walked_ids(ledger(old(chunk_index)@), *entry),
            ),
            !(entry.kind is File) && result is Ok ==> final(archive)@.payload == old(archive)@.payload,
            entry.kind is File && result is Ok ==> walked_ids(ledger(old(chunk_index)@), *entry)
                == assigned_ids(
                final(chunk_index)@,
                file_hashes(old(chunk_index)@, entry.kind->File_content@),
            ),
            entry.kind is File && result is Ok ==> forall|i: int|
                0 <= i < file_hashes(old(chunk_index)@, entry.kind->File_content@).len()
                    ==> final(chunk_index)@.referenced(
                    #[trigger] file_hashes(old(chunk_index)@, entry.kind->File_content@)[i],
                ),
            entry.kind is File && result is Ok && old(chunk_index)@.well_formed() ==> forall|
                i: int,
            |
                0 <= i < file_hashes(old(chunk_index)@, entry.kind->File_content@).len() && !old(chunk_index)@.referenced(
                    #[trigger] file_hashes(old(chunk_index)@, entry.kind->File_content@)[i],
                ) ==> crate::chunks::reads_back(
                    old(chunk_index)@,
                    final(chunk_index)@,
                    entry.kind->File_content@,
                    i,
                ),
            accepted(ledger(old(chunk_index)@), old(archive)@, *entry) ==> result is Ok,
            entry_fits(*entry) && !blocked(old(archive)@.entries, names_view(entry.parent@))
                && entry.kind is File && old(chunk_index)@.chunk_size == 0 ==> result is Err
                && result->Err_0 == RepositoryError::Chunk(ChunkError::InvalidChunkSize),
            entry.kind is File && result is Ok ==> payload_refusal(
                ledger(old(chunk_index)@),
                old(archive)@,
                *entry,
            ) is None,
            result is Err ==> final(archive)@ == old(archive)@ && final(chunk_index)@.chunks
                == chunks_after_refusal(
                ledger(old(chunk_index)@),
                old(archive)@,
                *entry,
                result->Err_0,
            ),
    {
        let parent_blocked = match archive.find_archive_entry(entry.parent.as_slice()) {
            Some(target) => match target {
                Entry::Directory(_) => false,
                _ => true,
            },
            None => false,
        };
        if !fits(entry.name.as_str(), entry.mode) {
            return Err(RepositoryError::Archive(ArchiveError::InvalidEntry));
        }
        if parent_blocked {
            return Err(RepositoryError::Archive(ArchiveError::NotADirectory));
        }
        let ghost before = archive@;
        match &entry.kind {
            WalkedKind::File { content, compression } => {
                let format = match compression {
                    Some(format) => *format,
                    None => CompressionFormat::Deflate,
                };
                let ghost index_before = chunk_index@;
                proof {
                    let hashes = file_hashes(index_before, content@);
                    assert(file_hashes(ledger(index_before), content@) == hashes);
                    assert forall|k: int|
                        crate::chunks::exhausted_at(index_before, hashes, k)
                            == crate::chunks::exhausted_at(ledger(index_before), hashes, k) by {
                        if 0 <= k < hashes.len() {
                            lemma_identified_all_ledger(index_before, hashes.take(k));
                        }
                    }
                    assert(crate::chunks::all_referenced(
                        ledger(index_before),
                        hashes,
                        hashes.len() as int,
                    ) ==> crate::chunks::all_referenced(index_before, hashes, hashes.len() as int));
                }
                let ids = match chunk_index.chunk_file(content.as_slice(), format) {
                    Ok(ids) => ids,
                    Err(e) => {
                        proof {
                            let hashes = file_hashes(index_before, content@);
                            if e == ChunkError::Exhausted {
                                let k = choose|k: int|
                                    crate::chunks::exhausted_at(index_before, hashes, k);
                                assert(crate::chunks::exhausted_at(ledger(index_before), hashes, k));
                            }
                            assert(chunking_refusal(ledger(index_before), *entry, e));
                        }
                        return Err(RepositoryError::Chunk(e));
                    },
                };
                let ghost index_after = chunk_index@;
                proof {
                    let hashes = file_hashes(index_before, content@);
                    assert(ids@ =~= assigned_ids(index_after, hashes));
                    lemma_identified_all_ledger(index_before, hashes);
                    lemma_identified_all_ledger(ledger(index_before), hashes);
                    assert(walked_ids(ledger(index_before), *entry) =~= ids@);
                }
                match Self::record_file(archive, entry, ids.as_slice()) {
                    Ok(()) => {},
                    Err(e) => {
                        chunk_index.dereference_chunks(ids.as_slice());
                        return Err(RepositoryError::Archive(e));
                    },
                }
                proof {
                    let hashes = file_hashes(index_before, content@);
                    assert(ids@ =~= assigned_ids(index_after, hashes));
                    lemma_identified_all_ledger(index_before, hashes);
                    lemma_identified_all_ledger(ledger(index_before), hashes);
                    assert(file_hashes(ledger(index_before), content@) == hashes);
                    assert(walked_ids(ledger(index_before), *entry) =~= ids@);
                    assert(ledger(index_after) == index_after_walked(
                        ledger(index_before),
                        *entry,
                    ));
                    assert(archive@ == archive_after_walked(ledger(index_before), before, *entry));
                    if index_before.well_formed() {
                        assert forall|i: int| 0 <= i < ids@.len() implies #[trigger] ids@[i]
                            != 0 by {
                            let h = file_hashes(index_before, content@)[i];
                            assert(index_after.hashes.contains_key(h));
                            assert(index_after.in_use(index_after.hashes[h]));
                        }
                        lemma_chunk_ids_of_stream(ids@);
                    }
                }
                Ok(())
            },
            WalkedKind::Directory => {
                let directory = Entry::Directory(
                    Box::new(
                        DirectoryEntry {
                            name: entry.name.clone(),
                            mode: entry.mode,
                            owner: entry.owner,
                            mtime: entry.mtime,
                            entries: Vec::new(),
                        },
                    ),
                );
                proof {
                    lemma_directory_view(directory);
                    assert(directory@->Directory_entries =~= Seq::<EntryView>::empty());
                    assert(directory@.well_formed());
                }
                match archive.insert_entry(entry.parent.as_slice(), directory) {
                    Ok(()) => Ok(()),
                    Err(e) => Err(RepositoryError::Archive(e)),
                }
            },
            WalkedKind::Symlink { target, target_dir } => {
                let target_len = target.as_str().as_bytes().len();
                let link = Entry::Symlink(
                    Box::new(
                        SymlinkEntry {
                            name: entry.name.clone(),
                            mode: entry.mode,
                            owner: entry.owner,
                            mtime: entry.mtime,
                            target: target.clone(),
                            target_dir: *target_dir,
                        },
                    ),
                );
                assert(link@.well_formed());
                match archive.insert_entry(entry.parent.as_slice(), link) {
                    Ok(()) => Ok(()),
                    Err(e) => Err(RepositoryError::Archive(e)),
                }
            },
        }
    }

    /// Makes the archive `name` of the entries of a walk, in the order of
    /// the walk, as `recursive_create_archive` does for each of them; the
    /// first entry that fails ends the work with its error.
    ///
    /// A name that is among `existing` is refused, and nothing changes: an
    /// archive is made once. Any other failure is that of the first entry
    /// that is refused, with the entries before it stored; a walk whose
    /// entries are all accepted whatever the store does succeeds. Digests
    /// that belong to no file of the walk keep their identifiers and blobs.
    ///
    /// Every file in the archive is a file of the walk, and its payload
    /// reads back as the list of its chunk identifiers. Where the index is
    /// sound, the store holds the chunks that it says it holds, and no two
    /// chunks at stake share a digest, the chunks of every file read back as
    /// its content: what was made is restored as it was (see the laws of
    /// `fidelity`).
    #[verifier::rlimit(50)]
    pub fn create_archive(&mut self, name: &String, existing: &[String], entries: &[WalkedEntry]) -> (result:
        Result<Archive, RepositoryError>)
        ensures
            final(self).save_on_drop == old(self).save_on_drop,
            old(self).chunk_index@.well_formed() ==> final(self).chunk_index@.well_formed(),
            final(self).chunk_index@.chunk_size == old(self).chunk_index@.chunk_size,
            final(self).chunk_index@.max_chunk_count == old(self).chunk_index@.max_chunk_count,
            has_name(existing@, name@) ==> result is Err && result->Err_0
                == RepositoryError::AlreadyExists && final(self).chunk_index@ == old(self).chunk_index@,
            result is Err ==> result->Err_0 == RepositoryError::AlreadyExists || result->Err_0
                is Archive || result->Err_0 is Chunk,
            !has_name(existing@, name@) ==> result is Err ==> result->Err_0
                != RepositoryError::AlreadyExists,
            result is Ok ==> result.unwrap()@.well_formed() && result.unwrap()@.version
                == crate::archive::FILE_VERSION,
            result is Ok ==> (ledger(final(self).chunk_index@), result.unwrap()@) == walked_all(
                ledger(old(self).chunk_index@),
                new_archive(),
                entries@,
            ),
            !has_name(existing@, name@) && entries@.len() == 0 ==> result is Ok
                && result.unwrap()@.entries.len() == 0 && final(self).chunk_index@ == old(self).chunk_index@,
            !has_name(existing@, name@) && result is Err ==> exists|k: int|
                refused_at(
                    ledger(old(self).chunk_index@),
                    entries@,
                    k,
                    result->Err_0,
                    final(self).chunk_index@.chunks,
                ),
            result is Ok ==> forall|h: Seq<u8>|
                !walk_digest(old(self).chunk_index@, entries@, h) ==> #[trigger] crate::chunks::same_at(
                    old(self).chunk_index@,
                    final(self).chunk_index@,
                    h,
                ),
            result is Ok ==> forall|h: Seq<u8>| #[trigger]
                old(self).chunk_index@.referenced(h) && old(self).chunk_index@.blobs.contains_key(h)
                    ==> final(self).chunk_index@.blobs.contains_key(h) && final(self).chunk_index@.blobs[h] == old(self).chunk_index@.blobs[h],
            result is Ok ==> forall|k: int|
                0 <= k < entries@.len() && entries@[k].kind is File ==> #[trigger] payload_readable(
                    ledger(old(self).chunk_index@),
                    entries@,
                    k,
                    result.unwrap()@.payload,
                ),
            result is Ok ==> all_from_walk(
                ledger(old(self).chunk_index@),
                entries@,
                entries@.len() as int,
                result.unwrap()@.entries,
            ),
            result is Ok && old(self).chunk_index@.well_formed() && store_sound(
                old(self).chunk_index@,
            ) && no_collision(old(self).chunk_index@, entries@) ==> stake_sound(
                old(self).chunk_index@,
                entries@,
                final(self).chunk_index@,
            ) && forall|k: int|
                0 <= k < entries@.len() && entries@[k].kind is File ==> #[trigger] file_readable(
                    final(self).chunk_index@,
                    ledger(old(self).chunk_index@),
                    entries@,
                    k,
                ),
            result is Ok && old(self).chunk_index@.well_formed() ==> forall|k: int, i: int| #[trigger]
                new_chunk_at(ledger(old(self).chunk_index@), entries@, k, i)
                    ==> crate::chunks::reads_back(
                    old(self).chunk_index@,
                    final(self).chunk_index@,
                    entries@[k].kind->File_content@,
                    i,
                ),
            !has_name(existing@, name@) && (forall|k: int|
                0 <= k < entries@.len() ==> #[trigger] accepted_at(
                    ledger(old(self).chunk_index@),
                    entries@,
                    k,
                )) ==> result is Ok,
    {
        if contains_name(existing, name) {
            return Err(RepositoryError::AlreadyExists);
        }
        let mut archive = Archive::new();
        let mut i: usize = 0;
        proof {
            if store_sound(self.chunk_index@) {
                lemma_sound_at_start(self.chunk_index@, entries@);
            }
            assert(entries@.take(0) =~= Seq::<WalkedEntry>::empty());
            assert(archive@.entries =~= Seq::<EntryView>::empty());
            assert(archive@ == new_archive());
        }
        while i < entries.len()
            invariant
                i <= entries@.len(),
                (ledger(self.chunk_index@), archive@) == walked_all(
                    ledger(old(self).chunk_index@),
                    new_archive(),
                    entries@.take(i as int),
                ),
                self.save_on_drop == old(self).save_on_drop,
                archive@.well_formed(),
                archive@.version == crate::archive::FILE_VERSION,
                old(self).chunk_index@.well_formed() ==> self.chunk_index@.well_formed(),
                self.chunk_index@.chunk_size == old(self).chunk_index@.chunk_size,
                self.chunk_index@.max_chunk_count == old(self).chunk_index@.max_chunk_count,
                !has_name(existing@, name@),
                i == 0 ==> self.chunk_index@ == old(self).chunk_index@ && archive@.entries.len()
                    == 0,
                forall|h: Seq<u8>|
                    !walk_digest(old(self).chunk_index@, entries@.take(i as int), h)
                        ==> #[trigger] crate::chunks::same_at(
                        old(self).chunk_index@,
                        self.chunk_index@,
                        h,
                    ),
                forall|k: int|
                    0 <= k < i && entries@[k].kind is File ==> #[trigger] payload_readable(
                        ledger(old(self).chunk_index@),
                        entries@,
                        k,
                        archive@.payload,
                    ),
                all_from_walk(ledger(old(self).chunk_index@), entries@, i as int, archive@.entries),
                old(self).chunk_index@.well_formed() && store_sound(old(self).chunk_index@)
                    && no_collision(old(self).chunk_index@, entries@) ==> stake_sound(
                    old(self).chunk_index@,
                    entries@,
                    self.chunk_index@,
                ) && forall|k: int|
                    0 <= k < i && entries@[k].kind is File ==> #[trigger] file_readable(
                        self.chunk_index@,
                        ledger(old(self).chunk_index@),
                        entries@,
                        k,
                    ),
                forall|h: Seq<u8>| #[trigger]
                    old(self).chunk_index@.referenced(h) ==> self.chunk_index@.referenced(h),
                forall|h: Seq<u8>| #[trigger]
                    old(self).chunk_index@.referenced(h) && old(self).chunk_index@.blobs.contains_key(
                        h,
                    ) ==> self.chunk_index@.blobs.contains_key(h) && self.chunk_index@.blobs[h]
                        == old(self).chunk_index@.blobs[h],
                old(self).chunk_index@.well_formed() ==> forall|k: int, j: int| #[trigger]
                    new_chunk_at(ledger(old(self).chunk_index@), entries@, k, j) && k < i
                        ==> crate::chunks::reads_back(
                        old(self).chunk_index@,
                        self.chunk_index@,
                        entries@[k].kind->File_content@,
                        j,
                    ) && self.chunk_index@.referenced(
                        file_hashes(old(self).chunk_index@, entries@[k].kind->File_content@)[j],
                    ),
            decreases entries@.len() - i,
        {
            let ghost start = ledger(old(self).chunk_index@);
            let ghost middle = self.chunk_index@;
            let ghost payload_before = archive@.payload;
            let ghost roots_before = archive@.entries;
            match Self::recursive_create_archive(&mut self.chunk_index, &mut archive, &entries[i]) {
                Ok(()) => {},
                Err(e) => {
                    proof {
                        assert(refused_at(start, entries@, i as int, e, self.chunk_index@.chunks));
                        assert(!accepted_at(start, entries@, i as int));
                    }
                    return Err(e);
                },
            }
            i = i + 1;
            proof {
                assert(entries@.take(i as int).drop_last() =~= entries@.take(i - 1));
                assert(entries@.take(i as int).last() == entries@[i - 1]);
                let first = old(self).chunk_index@;
                let now = self.chunk_index@;
                assert forall|h: Seq<u8>|
                    !walk_digest(first, entries@.take(i as int), h) implies #[trigger] crate::chunks::same_at(
                    first,
                    now,
                    h,
                ) by {
                    let shorter = entries@.take(i - 1);
                    if walk_digest(first, shorter, h) {
                        let k = choose|k: int| file_digest_at(first, shorter, k, h);
                        assert(entries@.take(i as int)[k] == shorter[k]);
                        assert(file_digest_at(first, entries@.take(i as int), k, h));
                    }
                    assert(crate::chunks::same_at(first, middle, h));
                    let entry = entries@[i - 1];
                    if entry.kind is File {
                        assert(file_hashes(middle, entry.kind->File_content@) == file_hashes(
                            first,
                            entry.kind->File_content@,
                        ));
                        if crate::chunks::among(
                            file_hashes(first, entry.kind->File_content@),
                            file_hashes(first, entry.kind->File_content@).len() as int,
                            h,
                        ) {
                            assert(entries@.take(i as int)[i - 1] == entry);
                            assert(file_digest_at(first, entries@.take(i as int), i - 1, h));
                        }
                    }
                    assert(crate::chunks::same_at(middle, now, h));
                }
                let stored_entry = walked_view(
                    entries@[i - 1],
                    walked_ids(ledger(middle), entries@[i - 1]),
                    payload_before.len(),
                );
                assert(crate::archive::inserted(
                    roots_before,
                    names_view(entries@[i - 1].parent@),
                    stored_entry,
                ) == Ok::<Seq<EntryView>, ArchiveError>(archive@.entries)) by {
                    if entries@[i - 1].kind is File {
                        assert(recorded(
                            walked_all(start, new_archive(), entries@.take(i - 1)).1,
                            archive@,
                            entries@[i - 1],
                            walked_ids(ledger(middle), entries@[i - 1]),
                        ));
                    }
                }
                assert(from_walk(start, entries@, i as int, stored_entry)) by {
                    if entries@[i - 1].kind is File {
                        assert(stored_entry == walked_file_view(start, entries@, i - 1));
                        assert(is_walked_file(start, entries@, i as int, i - 1, stored_entry));
                    } else if entries@[i - 1].kind is Directory {
                        assert(stored_entry->Directory_entries.len() == 0);
                    }
                }
                assert forall|j: int| 0 <= j < roots_before.len() implies from_walk(
                    start,
                    entries@,
                    i as int,
                    #[trigger] roots_before[j],
                ) by {
                    lemma_from_walk_longer(start, entries@, i - 1, roots_before[j]);
                }
                lemma_inserted_from_walk(
                    start,
                    entries@,
                    i as int,
                    roots_before,
                    names_view(entries@[i - 1].parent@),
                    stored_entry,
                );
                let payload_now = archive@.payload;
                let more = payload_now.skip(payload_before.len() as int);
                assert(payload_before + more =~= payload_now) by {
                    if entries@[i - 1].kind is File {
                        assert(recorded(
                            walked_all(start, new_archive(), entries@.take(i - 1)).1,
                            archive@,
                            entries@[i - 1],
                            walked_ids(ledger(middle), entries@[i - 1]),
                        ));
                    }
                }
                assert forall|k: int|
                    0 <= k < i && entries@[k].kind is File implies #[trigger] payload_readable(
                    start,
                    entries@,
                    k,
                    payload_now,
                ) by {
                    if k < i - 1 {
                        lemma_payload_readable_kept(start, entries@, k, payload_before, more);
                    } else {
                        assert(entries@.take(k) =~= entries@.take(i - 1));
                        assert(recorded(
                            walked_all(start, new_archive(), entries@.take(i - 1)).1,
                            archive@,
                            entries@[i - 1],
                            walked_ids(ledger(middle), entries@[i - 1]),
                        ));
                    }
                }
                if first.well_formed() && store_sound(first) && no_collision(first, entries@) {
                    let entry = entries@[i - 1];
                    if entry.kind is File {
                        let content = entry.kind->File_content@;
                        let hashes = file_hashes(middle, content);
                        let ids = walked_ids(ledger(middle), entry);
                        lemma_collision_free_at(first, entries@, middle, i - 1);
                        assert(stored_walked_file(
                            middle,
                            now,
                            walked_all(start, new_archive(), entries@.take(i - 1)).1,
                            archive@,
                            entry,
                        ));
                        assert(now.chunks == with_references(middle.chunks, ids, hashes));
                        assert(chunks_content(now, ids) == Some(content));
                        assert forall|j: int| 0 <= j < ids.len() implies now.hashes.contains_key(
                            #[trigger] hashes[j],
                        ) && now.hashes[hashes[j]] == ids[j] && now.refcount(ids[j]) > 0 by {
                            assert(now.referenced(hashes[j]));
                        }
                        lemma_stake_kept(first, entries@, middle, now, i - 1, ids);
                        assert forall|k: int|
                            0 <= k < i && entries@[k].kind is File implies #[trigger] file_readable(
                            now,
                            start,
                            entries@,
                            k,
                        ) by {
                            if k < i - 1 {
                                lemma_file_readable_kept(middle, now, start, entries@, k, ids, hashes);
                            } else {
                                assert(entries@.take(k) =~= entries@.take(i - 1));
                                assert(walked_file_ids(start, entries@, k) == ids);
                                assert forall|j: int| 0 <= j < ids.len() implies now.refcount(
                                    #[trigger] ids[j],
                                ) > 0 by {
                                    assert(now.hashes.contains_key(hashes[j]));
                                }
                            }
                        }
                    } else {
                        assert(now == middle);
                    }
                }
                if first.well_formed() {
                    assert forall|k: int, j: int| #[trigger]
                        new_chunk_at(ledger(first), entries@, k, j) && k < i implies crate::chunks::reads_back(
                        first,
                        now,
                        entries@[k].kind->File_content@,
                        j,
                    ) && now.referenced(
                        file_hashes(first, entries@[k].kind->File_content@)[j],
                    ) by {
                        let content = entries@[k].kind->File_content@;
                        let h = file_hashes(first, content)[j];
                        assert(file_hashes(ledger(first), content) == file_hashes(first, content));
                        assert(file_hashes(middle, content) == file_hashes(first, content));
                        assert(crate::chunks::file_plan(middle, content)
                            == crate::chunks::file_plan(first, content));
                        if k < i - 1 {
                            assert(crate::chunks::reads_back(first, middle, content, j));
                            assert(middle.referenced(h));
                            assert(middle.blobs.contains_key(h));
                            assert(now.blobs[h] == middle.blobs[h]);
                        } else {
                            assert(entries@.take(k) =~= entries@.take(i - 1));
                            assert(!ledger(middle).referenced(h));
                            assert(!middle.referenced(h));
                            assert(crate::chunks::reads_back(middle, now, content, j));
                        }
                    }
                }
            }
        }
        proof {
            assert(entries@.take(i as int) =~= entries@);
        }
        Ok(archive)
    }

    /// Reads `entry` of `archive` back, its children included: a file with
    /// the content of its chunks, a directory with its children, a link as
    /// it is.
    ///
    /// The first thing that cannot be read decides the error: a failure of
    /// the store, or else what `restore_failure` says. A link, an empty
    /// file and a directory of such are read back without the store, and so
    /// always.
    pub fn recursive_restore_archive(&self, archive: &Archive, entry: &Entry) -> (result: Result<
        SourceEntry,
        RepositoryError,
    >)
        ensures
            result is Ok ==> restored(self.chunk_index@, archive@.payload, entry@) == Some(
                result.unwrap()@,
            ),
            restored(self.chunk_index@, archive@.payload, entry@) is None ==> result is Err,
            result is Err ==> result->Err_0 is Archive || result->Err_0 is Chunk,
            result is Ok ==> restore_failure(self.chunk_index@, archive@.payload, entry@) is None,
            result is Err ==> store_failed(result->Err_0) || restore_failure(
                self.chunk_index@,
                archive@.payload,
                entry@,
            ) == Some(result->Err_0),
            asks_nothing(archive@.payload, entry@) ==> follows(
                result,
                restore_failure(self.chunk_index@, archive@.payload, entry@),
            ),
        decreases entry,
    {
        match entry {
            Entry::File(file) => {
                let content = match self.read_entry_content(archive, entry) {
                    Ok(content) => content,
                    Err(e) => {
                        return Err(e);
                    },
                };
                Ok(
                    SourceEntry::File(
                        Box::new(
                            SourceFile {
                                name: file.name.clone(),
                                mode: file.mode,
                                owner: file.owner,
                                mtime: file.mtime,
                                content,
                                compression: Some(file.compression),
                                real_size: Some(file.size_real),
                            },
                        ),
                    ),
                )
            },
            Entry::Directory(dir) => {
                proof {
                    lemma_directory_view(*entry);
                }
                let ghost children = entries_view(dir.entries@);
                let mut restored_children: Vec<SourceEntry> = Vec::new();
                let mut i: usize = 0;
                assert(children.take(0) =~= Seq::<EntryView>::empty());
                assert(crate::archive::source::sources_view(restored_children@) =~= Seq::<
                    crate::archive::source::SourceView,
                >::empty());
                while i < dir.entries.len()
                    invariant
                        i <= dir.entries@.len(),
                        decreases_to!(entry => dir.entries),
                        children == entries_view(dir.entries@),
                        entry@ is Directory,
                        entry@->Directory_entries == children,
                        restored_list(self.chunk_index@, archive@.payload, children.take(i as int))
                            == Some(crate::archive::source::sources_view(restored_children@)),
                        restore_failure_list(
                            self.chunk_index@,
                            archive@.payload,
                            children.take(i as int),
                        ) is None,
                    decreases dir.entries@.len() - i,
                {
                    let ghost done = restored_children@;
                    proof {
                        assert(children.take(i + 1).drop_last() =~= children.take(i as int));
                        assert(children.take(i + 1).last() == dir.entries@[i as int]@);
                        assert(children[i as int] == dir.entries@[i as int]@);
                    }
                    let child = match self.recursive_restore_archive(archive, &dir.entries[i]) {
                        Ok(child) => child,
                        Err(e) => {
                            proof {
                                if !store_failed(e) || asks_nothing(archive@.payload, entry@) {
                                    lemma_failure_prefix(
                                        self.chunk_index@,
                                        archive@.payload,
                                        children,
                                        i + 1,
                                    );
                                }
                            }
                            return Err(e);
                        },
                    };
                    restored_children.push(child);
                    i = i + 1;
                    proof {
                        assert(crate::archive::source::sources_view(restored_children@)
                            =~= crate::archive::source::sources_view(done).push(child@));
                    }
                }
                assert(children.take(i as int) =~= children);
                let restored_entry = SourceEntry::Directory(
                    Box::new(
                        SourceDirectory {
                            name: dir.name.clone(),
                            mode: dir.mode,
                            owner: dir.owner,
                            mtime: dir.mtime,
                            entries: restored_children,
                        },
                    ),
                );
                proof {
                    crate::archive::source::lemma_source_directory_view(restored_entry);
                }
                Ok(restored_entry)
            },
            Entry::Symlink(link) => Ok(
                SourceEntry::Symlink(
                    Box::new(
                        SourceSymlink {
                            name: link.name.clone(),
                            mode: link.mode,
                            owner: link.owner,
                            mtime: link.mtime,
                            target: link.target.clone(),
                            target_dir: link.target_dir,
                        },
                    ),
                ),
            ),
        }
    }

    /// Reads `entries` of the archive `name` back, as
    /// `recursive_restore_archive` does for each of them.
    ///
    /// An archive whose name is not among `existing` is not found.
    pub fn restore_entries(
        &self,
        name: &String,
        existing: &[String],
        archive: &Archive,
        entries: &[Entry],
    ) -> (result: Result<Vec<SourceEntry>, RepositoryError>)
        ensures
            !has_name(existing@, name@) ==> result is Err && result->Err_0
                == RepositoryError::NotFound,
            has_name(existing@, name@) && result is Ok ==> restored_list(
                self.chunk_index@,
                archive@.payload,
                entries_view(entries@),
            ) == Some(crate::archive::source::sources_view(result.unwrap()@)),
            has_name(existing@, name@) && restored_list(
                self.chunk_index@,
                archive@.payload,
                entries_view(entries@),
            ) is None ==> result is Err && (result->Err_0 is Archive || result->Err_0 is Chunk),
            has_name(existing@, name@) && result is Err ==> result->Err_0 is Archive
                || result->Err_0 is Chunk,
            has_name(existing@, name@) && result is Ok ==> restore_failure_list(
                self.chunk_index@,
                archive@.payload,
                entries_view(entries@),
            ) is None,
            has_name(existing@, name@) && result is Err ==> store_failed(result->Err_0)
                || restore_failure_list(
                self.chunk_index@,
                archive@.payload,
                entries_view(entries@),
            ) == Some(result->Err_0),
            has_name(existing@, name@) && all_ask_nothing(
                archive@.payload,
                entries_view(entries@),
            ) ==> follows(
                result,
                restore_failure_list(
                    self.chunk_index@,
                    archive@.payload,
                    entries_view(entries@),
                ),
            ),
    {
        if !contains_name(existing, name) {
            return Err(RepositoryError::NotFound);
        }
        let ghost all = entries_view(entries@);
        let mut out: Vec<SourceEntry> = Vec::new();
        let mut i: usize = 0;
        assert(all.take(0) =~= Seq::<EntryView>::empty());
        assert(crate::archive::source::sources_view(out@) =~= Seq::<
            crate::archive::source::SourceView,
        >::empty());
        while i < entries.len()
            invariant
                i <= entries@.len(),
                all == entries_view(entries@),
                has_name(existing@, name@),
                restored_list(self.chunk_index@, archive@.payload, all.take(i as int)) == Some(
                    crate::archive::source::sources_view(out@),
                ),
                restore_failure_list(self.chunk_index@, archive@.payload, all.take(i as int))
                    is None,
            decreases entries@.len() - i,
        {
            let ghost done = out@;
            proof {
                assert(all.take(i + 1).drop_last() =~= all.take(i as int));
                assert(all.take(i + 1).last() == entries@[i as int]@);
                assert(all[i as int] == entries@[i as int]@);
            }
            let restored_entry = match self.recursive_restore_archive(archive, &entries[i]) {
                Ok(restored_entry) => restored_entry,
                Err(e) => {
                    proof {
                        if !store_failed(e) || all_ask_nothing(archive@.payload, all) {
                            lemma_failure_prefix(
                                self.chunk_index@,
                                archive@.payload,
                                all,
                                i + 1,
                            );
                        }
                    }
                    return Err(e);
                },
            };
            out.push(restored_entry);
            i = i + 1;
            proof {
                assert(crate::archive::source::sources_view(out@)
                    =~= crate::archive::source::sources_view(done).push(restored_entry@));
            }
        }
        assert(all.take(i as int) =~= all);
        Ok(out)
    }

    /// Reads the archive `name` back: all its root entries, as
    /// `restore_entries` does.
    pub fn restore_archive(&self, name: &String, existing: &[String], archive: &Archive) -> (result:
        Result<Vec<SourceEntry>, RepositoryError>)
        ensures
            !has_name(existing@, name@) ==> result is Err && result->Err_0
                == RepositoryError::NotFound,
            has_name(existing@, name@) && result is Ok ==> restored_list(
                self.chunk_index@,
                archive@.payload,
                archive@.entries,
            ) == Some(crate::archive::source::sources_view(result.unwrap()@)),
            has_name(existing@, name@) && restored_list(
                self.chunk_index@,
                archive@.payload,
                archive@.entries,
            ) is None ==> result is Err && (result->Err_0 is Archive || result->Err_0 is Chunk),
            has_name(existing@, name@) && result is Ok ==> restore_failure_list(
                self.chunk_index@,
                archive@.payload,
                archive@.entries,
            ) is None,
            has_name(existing@, name@) && result is Err ==> store_failed(result->Err_0)
                || restore_failure_list(self.chunk_index@, archive@.payload, archive@.entries)
                == Some(result->Err_0),
            has_name(existing@, name@) && all_ask_nothing(archive@.payload, archive@.entries)
                ==> follows(
                result,
                restore_failure_list(self.chunk_index@, archive@.payload, archive@.entries),
            ),
    {
        self.restore_entries(name, existing, archive, archive.entries())
    }

    /// Gives up the references that `entry` of `archive` holds, and those
    /// of its children, taking away every chunk that is left without
    /// references; adds to `outcomes`, for each identifier that was known,
    /// whether its chunk was taken away and its blob deleted.
    ///
    /// The identifiers of the chunks that were taken away and whose blobs
    /// were deleted are given back; a digest that has lost no chunk keeps
    /// its identifier and its blob. An entry that lists no chunk changes
    /// nothing.
    pub fn recursive_delete_archive(
        &mut self,
        archive: &Archive,
        entry: &Entry,
        outcomes: &mut Vec<(u64, bool)>,
    )
        ensures
            final(self).save_on_drop == old(self).save_on_drop,
            final(self).chunk_index@.chunks == with_dereferences(
                old(self).chunk_index@.chunks,
                entry_ids(archive@.payload, entry@),
            ),
            final(self).chunk_index@.next_id == old(self).chunk_index@.next_id,
            final(self).chunk_index@.chunk_size == old(self).chunk_index@.chunk_size,
            final(self).chunk_index@.max_chunk_count == old(self).chunk_index@.max_chunk_count,
            old(self).chunk_index@.well_formed() ==> final(self).chunk_index@.well_formed(),
            old(outcomes)@.len() <= final(outcomes)@.len(),
            final(outcomes)@.take(old(outcomes)@.len() as int) == old(outcomes)@,
            released(
                old(self).chunk_index@,
                final(self).chunk_index@,
                final(outcomes)@.skip(old(outcomes)@.len() as int),
            ),
            entry_ids(archive@.payload, entry@).len() == 0 ==> final(self).chunk_index@ == old(self).chunk_index@ && final(outcomes)@ == old(outcomes)@,
        decreases entry,
    {
        let ghost start = outcomes@;
        proof {
            lemma_released_nothing(self.chunk_index@);
            assert(outcomes@.skip(start.len() as int) =~= Seq::<(u64, bool)>::empty());
            assert(outcomes@.take(start.len() as int) =~= start);
        }
        match entry {
            Entry::File(file) => {
                match archive.read_entry(file) {
                    Ok(stream) => {
                        let ids = decode_chunk_ids(stream);
                        let mut more = self.chunk_index.dereference_chunks(ids.as_slice());
                        let ghost added = more@;
                        outcomes.append(&mut more);
                        proof {
                            assert(outcomes@.skip(start.len() as int) =~= added);
                            assert(outcomes@.take(start.len() as int) =~= start);
                            if ids@.len() == 0 {
                                assert(outcomes@ =~= start);
                            }
                        }
                    },
                    Err(_) => {},
                }
            },
            Entry::Directory(dir) => {
                proof {
                    lemma_directory_view(*entry);
                }
                let ghost children = entries_view(dir.entries@);
                let mut i: usize = 0;
                assert(children.take(0) =~= Seq::<EntryView>::empty());
                while i < dir.entries.len()
                    invariant
                        i <= dir.entries@.len(),
                        decreases_to!(entry => dir.entries),
                        children == entries_view(dir.entries@),
                        self.save_on_drop == old(self).save_on_drop,
                        self.chunk_index@.chunks == with_dereferences(
                            old(self).chunk_index@.chunks,
                            entries_ids(archive@.payload, children.take(i as int)),
                        ),
                        self.chunk_index@.next_id == old(self).chunk_index@.next_id,
                        self.chunk_index@.chunk_size == old(self).chunk_index@.chunk_size,
                        self.chunk_index@.max_chunk_count == old(self).chunk_index@.max_chunk_count,
                        old(self).chunk_index@.well_formed() ==> self.chunk_index@.well_formed(),
                        start == old(outcomes)@,
                        start.len() <= outcomes@.len(),
                        outcomes@.take(start.len() as int) == start,
                        released(
                            old(self).chunk_index@,
                            self.chunk_index@,
                            outcomes@.skip(start.len() as int),
                        ),
                        entries_ids(archive@.payload, children.take(i as int)).len() == 0
                            ==> self.chunk_index@ == old(self).chunk_index@ && outcomes@ == start,
                    decreases dir.entries@.len() - i,
                {
                    let ghost middle = self.chunk_index@;
                    let ghost prior = outcomes@;
                    self.recursive_delete_archive(archive, &dir.entries[i], outcomes);
                    i = i + 1;
                    proof {
                        assert(children.take(i as int).drop_last() =~= children.take(i - 1));
                        assert(children.take(i as int).last() == dir.entries@[i - 1]@);
                        lemma_dereferences_joined(
                            old(self).chunk_index@.chunks,
                            entries_ids(archive@.payload, children.take(i - 1)),
                            entry_ids(archive@.payload, dir.entries@[i - 1]@),
                        );
                        lemma_released_joined(
                            old(self).chunk_index@,
                            middle,
                            self.chunk_index@,
                            prior.skip(start.len() as int),
                            outcomes@.skip(prior.len() as int),
                        );
                        assert(prior.skip(start.len() as int) + outcomes@.skip(prior.len() as int)
                            =~= outcomes@.skip(start.len() as int)) by {
                            assert(outcomes@.take(prior.len() as int) == prior);
                            assert forall|k: int| 0 <= k < prior.len() implies outcomes@[k]
                                == prior[k] by {
                                assert(outcomes@.take(prior.len() as int)[k] == outcomes@[k]);
                            }
                        }
                        assert(outcomes@.take(start.len() as int) =~= start) by {
                            assert forall|k: int| 0 <= k < start.len() implies outcomes@[k]
                                == start[k] by {
                                assert(outcomes@.take(prior.len() as int)[k] == outcomes@[k]);
                                assert(prior.take(start.len() as int)[k] == prior[k]);
                            }
                        }
                    }
                }
                assert(children.take(i as int) =~= children);
            },
            Entry::Symlink(_) => {},
        }
    }

    /// Gives up the references that the archive `name` holds, as
    /// `recursive_delete_archive` does for each of its entries; gives for
    /// each identifier that was known whether its chunk was taken away and
    /// its blob deleted.
    ///
    /// An archive whose name is not among `existing` is not found, and
    /// nothing changes. Otherwise every chunk has as many references less
    /// afterwards as the payloads of the archive list it (see
    /// `lemma_dereferences_counted`). The identifiers of the chunks that
    /// were taken away and whose blobs were deleted are given back; a digest
    /// that has lost no chunk keeps its identifier and its blob. An archive
    /// that lists no chunk changes nothing.
    pub fn delete_archive(&mut self, name: &String, existing: &[String], archive: &Archive) -> (result:
        Result<Vec<(u64, bool)>, RepositoryError>)
        ensures
            final(self).save_on_drop == old(self).save_on_drop,
            !has_name(existing@, name@) ==> result is Err && result->Err_0
                == RepositoryError::NotFound && final(self).chunk_index@ == old(self).chunk_index@,
            has_name(existing@, name@) ==> result is Ok && final(self).chunk_index@.chunks
                == with_dereferences(
                old(self).chunk_index@.chunks,
                entries_ids(archive@.payload, archive@.entries),
            ),
            final(self).chunk_index@.next_id == old(self).chunk_index@.next_id,
            final(self).chunk_index@.chunk_size == old(self).chunk_index@.chunk_size,
            final(self).chunk_index@.max_chunk_count == old(self).chunk_index@.max_chunk_count,
            old(self).chunk_index@.well_formed() ==> final(self).chunk_index@.well_formed(),
            result is Ok ==> released(
                old(self).chunk_index@,
                final(self).chunk_index@,
                result.unwrap()@,
            ),
            result is Ok && entries_ids(archive@.payload, archive@.entries).len() == 0
                ==> final(self).chunk_index@ == old(self).chunk_index@ && result.unwrap()@.len()
                == 0,
    {
        if !contains_name(existing, name) {
            return Err(RepositoryError::NotFound);
        }
        let entries = archive.entries();
        let ghost all = entries_view(entries@);
        let mut outcomes: Vec<(u64, bool)> = Vec::new();
        let mut i: usize = 0;
        assert(all.take(0) =~= Seq::<EntryView>::empty());
        proof {
            lemma_released_nothing(self.chunk_index@);
        }
        while i < entries.len()
            invariant
                i <= entries@.len(),
                all == entries_view(entries@),
                all == archive@.entries,
                self.save_on_drop == old(self).save_on_drop,
                self.chunk_index@.chunks == with_dereferences(
                    old(self).chunk_index@.chunks,
                    entries_ids(archive@.payload, all.take(i as int)),
                ),
                self.chunk_index@.next_id == old(self).chunk_index@.next_id,
                self.chunk_index@.chunk_size == old(self).chunk_index@.chunk_size,
                self.chunk_index@.max_chunk_count == old(self).chunk_index@.max_chunk_count,
                old(self).chunk_index@.well_formed() ==> self.chunk_index@.well_formed(),
                released(old(self).chunk_index@, self.chunk_index@, outcomes@),
                entries_ids(archive@.payload, all.take(i as int)).len() == 0
                    ==> self.chunk_index@ == old(self).chunk_index@ && outcomes@.len() == 0,
            decreases entries@.len() - i,
        {
            let ghost middle = self.chunk_index@;
            let ghost prior = outcomes@;
            self.recursive_delete_archive(archive, &entries[i], &mut outcomes);
            i = i + 1;
            proof {
                assert(all.take(i as int).drop_last() =~= all.take(i - 1));
                assert(all.take(i as int).last() == entries@[i - 1]@);
                lemma_dereferences_joined(
                    old(self).chunk_index@.chunks,
                    entries_ids(archive@.payload, all.take(i - 1)),
                    entry_ids(archive@.payload, entries@[i - 1]@),
                );
                lemma_released_joined(
                    old(self).chunk_index@,
                    middle,
                    self.chunk_index@,
                    prior,
                    outcomes@.skip(prior.len() as int),
                );
                assert(prior + outcomes@.skip(prior.len() as int) =~= outcomes@) by {
                    assert forall|k: int| 0 <= k < prior.len() implies outcomes@[k] == prior[k] by {
                        assert(outcomes@.take(prior.len() as int)[k] == outcomes@[k]);
                    }
                }
            }
        }
        assert(all.take(i as int) =~= all);
        Ok(outcomes)
    }
}

} // verus!
