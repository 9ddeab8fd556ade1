//! What is handed to an archive to be stored: a tree of files with their
//! contents, directories and symbolic links.

use super::codec::MODE_MASK;
use super::entries::{
    entries_view, fits, lemma_directory_view, DirectoryEntry, Entry, EntryMode, EntryView,
    FileEntry, SymlinkEntry,
};
use super::{ArchiveError, CompressionFormat};
use crate::compression::{compress, compressed};
use vstd::prelude::*;
use vstd::utf8::encode_utf8;

verus! {

/// A file to be stored, with its content.
#[derive(Debug, PartialEq, Eq)]
pub struct SourceFile {
    pub name: String,
    pub mode: EntryMode,
    pub owner: (u32, u32),
    /// Seconds since the UNIX epoch.
    pub mtime: u64,
    pub content: Vec<u8>,
    /// The compression to store the content under; `None` leaves the choice
    /// to `default_compression`.
    pub compression: Option<CompressionFormat>,
    /// The size to record as the real size; `None` records the length of
    /// the content.
    pub real_size: Option<u64>,
}

/// A directory to be stored, with what it holds.
#[derive(Debug, PartialEq, Eq)]
pub struct SourceDirectory {
    pub name: String,
    pub mode: EntryMode,
    pub owner: (u32, u32),
    pub mtime: u64,
    pub entries: Vec<SourceEntry>,
}

/// A symbolic link to be stored.
#[derive(Debug, PartialEq, Eq)]
pub struct SourceSymlink {
    pub name: String,
    pub mode: EntryMode,
    pub owner: (u32, u32),
    pub mtime: u64,
    pub target: String,
    pub target_dir: bool,
}

#[derive(Debug, PartialEq, Eq)]
pub enum SourceEntry {
    File(Box<SourceFile>),
    Directory(Box<SourceDirectory>),
    Symlink(Box<SourceSymlink>),
}

/// What a source entry is, apart from how it is held in memory.
pub enum SourceView {
    File {
        name: Seq<char>,
        mode: u32,
        owner: (u32, u32),
        mtime: u64,
        content: Seq<u8>,
        compression: Option<CompressionFormat>,
        real_size: Option<u64>,
    },
    Directory { name: Seq<char>, mode: u32, owner: (u32, u32), mtime: u64, entries: Seq<SourceView> },
    Symlink {
        name: Seq<char>,
        mode: u32,
        owner: (u32, u32),
        mtime: u64,
        target: Seq<char>,
        target_dir: bool,
    },
}

impl SourceView {
    pub open spec fn name(self) -> Seq<char> {
        match self {
            SourceView::File { name, .. } => name,
            SourceView::Directory { name, .. } => name,
            SourceView::Symlink { name, .. } => name,
        }
    }

    pub open spec fn mode(self) -> u32 {
        match self {
            SourceView::File { mode, .. } => mode,
            SourceView::Directory { mode, .. } => mode,
            SourceView::Symlink { mode, .. } => mode,
        }
    }
}

impl View for SourceEntry {
    type V = SourceView;

    open spec fn view(&self) -> SourceView
        decreases self,
    {
        match self {
            SourceEntry::File(file) => SourceView::File {
                name: file.name@,
                mode: file.mode.0,
                owner: file.owner,
                mtime: file.mtime,
                content: file.content@,
                compression: file.compression,
                real_size: file.real_size,
            },
            SourceEntry::Directory(dir) => SourceView::Directory {
                name: dir.name@,
                mode: dir.mode.0,
                owner: dir.owner,
                mtime: dir.mtime,
                entries: Seq::new(
                    dir.entries.len() as nat,
                    |i: int|
                        if 0 <= i < dir.entries.len() {
                            dir.entries[i]@
                        } else {
                            arbitrary()
                        },
                ),
            },
            SourceEntry::Symlink(link) => SourceView::Symlink {
                name: link.name@,
                mode: link.mode.0,
                owner: link.owner,
                mtime: link.mtime,
                target: link.target@,
                target_dir: link.target_dir,
            },
        }
    }
}

/// The views of a list of source entries, in order.
pub open spec fn sources_view(sources: Seq<SourceEntry>) -> Seq<SourceView> {
    Seq::new(sources.len(), |i: int| sources[i]@)
}

/// The children of a source directory are seen through `sources_view`.
pub proof fn lemma_source_directory_view(source: SourceEntry)
    requires
        source is Directory,
    ensures
        source@ == (SourceView::Directory {
            name: source->Directory_0.name@,
            mode: source->Directory_0.mode.0,
            owner: source->Directory_0.owner,
            mtime: source->Directory_0.mtime,
            entries: sources_view(source->Directory_0.entries@),
        }),
{
    reveal_with_fuel(<SourceEntry as View>::view, 2);
    assert(source@->Directory_entries =~= sources_view(source->Directory_0.entries@));
}

/// The compression of a file for which none was asked: DEFLATE for more
/// than 16 bytes, none for less.
pub open spec fn default_compression_of(size: nat) -> CompressionFormat {
    if size > 16 {
        CompressionFormat::Deflate
    } else {
        CompressionFormat::Uncompressed
    }
}

pub fn default_compression(size: u64) -> (format: CompressionFormat)
    ensures
        format == default_compression_of(size as nat),
{
    if size > 16 {
        CompressionFormat::Deflate
    } else {
        CompressionFormat::Uncompressed
    }
}

/// The compression that a file is stored under.
pub open spec fn chosen_compression(asked: Option<CompressionFormat>, size: nat)
    -> CompressionFormat {
    match asked {
        Some(format) => format,
        None => default_compression_of(size),
    }
}

/// The file entry that comes of storing `content` at `offset`, and the bytes
/// that are stored.
///
/// A name of more than 255 bytes or a mode of more than 26 bits is refused.
/// The raw size is the length of the content; the compressed size is the
/// length of what is stored, where the content is compressed.
pub open spec fn stored_file(
    name: Seq<char>,
    mode: u32,
    owner: (u32, u32),
    mtime: u64,
    content: Seq<u8>,
    format: CompressionFormat,
    real_size: Option<u64>,
    offset: nat,
) -> Result<(EntryView, Seq<u8>), ArchiveError> {
    if encode_utf8(name).len() > 255 || mode > MODE_MASK {
        Err(ArchiveError::InvalidEntry)
    } else {
        match compressed(format, content) {
            None => Err(ArchiveError::CompressionFailed),
            Some(bytes) => if offset + bytes.len() > u64::MAX {
                Err(ArchiveError::TooLarge)
            } else {
                Ok(
                    (
                        EntryView::File {
                            name,
                            mode,
                            owner,
                            mtime,
                            compression: format,
                            size_compressed: if format != CompressionFormat::Uncompressed {
                                Some(bytes.len() as u64)
                            } else {
                                None
                            },
                            size_real: match real_size {
                                Some(n) => n,
                                None => content.len() as u64,
                            },
                            size: content.len() as u64,
                            offset: offset as u64,
                        },
                        bytes,
                    ),
                )
            },
        }
    }
}

/// The entry that comes of storing `source` with its payloads from `offset`
/// on, and the payload bytes, in the order of a depth-first walk. The first
/// entry of that walk that cannot be stored decides the error.
pub open spec fn stored(source: SourceView, offset: nat) -> Result<
    (EntryView, Seq<u8>),
    ArchiveError,
>
    decreases source,
{
    match source {
        SourceView::File { name, mode, owner, mtime, content, compression, real_size } => stored_file(
            name,
            mode,
            owner,
            mtime,
            content,
            chosen_compression(compression, content.len()),
            real_size,
            offset,
        ),
        SourceView::Directory { name, mode, owner, mtime, entries } => if encode_utf8(name).len()
            > 255 || mode > MODE_MASK {
            Err(ArchiveError::InvalidEntry)
        } else {
            match stored_list(entries, offset) {
                Err(e) => Err(e),
                Ok((children, bytes)) => Ok(
                    (EntryView::Directory { name, mode, owner, mtime, entries: children }, bytes),
                ),
            }
        },
        SourceView::Symlink { name, mode, owner, mtime, target, target_dir } => if encode_utf8(
            name,
        ).len() > 255 || mode > MODE_MASK {
            Err(ArchiveError::InvalidEntry)
        } else {
            Ok(
                (
                    EntryView::Symlink { name, mode, owner, mtime, target, target_dir },
                    Seq::empty(),
                ),
            )
        },
    }
}

/// The entries that come of storing `sources` one after the other, and
/// their payload bytes.
pub open spec fn stored_list(sources: Seq<SourceView>, offset: nat) -> Result<
    (Seq<EntryView>, Seq<u8>),
    ArchiveError,
>
    decreases sources,
{
    if sources.len() == 0 {
        Ok((Seq::empty(), Seq::empty()))
    } else {
        match stored(sources[0], offset) {
            Err(e) => Err(e),
            Ok((entry, bytes)) => match stored_list(sources.skip(1), offset + bytes.len()) {
                Err(e) => Err(e),
                Ok((entries, more)) => Ok((seq![entry] + entries, bytes + more)),
            },
        }
    }
}

/// Stores `content` at the end of `buffer`, which begins at `base` in the
/// archive, and gives the file entry for it.
///
/// On failure `buffer` is left as it was.
#[verifier::rlimit(50)]
pub fn store_file(
    buffer: &mut Vec<u8>,
    base: u64,
    name: String,
    mode: EntryMode,
    owner: (u32, u32),
    mtime: u64,
    content: &[u8],
    format: CompressionFormat,
    real_size: Option<u64>,
) -> (result: Result<Box<FileEntry>, ArchiveError>)
    ensures
        match stored_file(
            name@,
            mode.0,
            owner,
            mtime,
            content@,
            format,
            real_size,
            (base + old(buffer)@.len()) as nat,
        ) {
            Ok((entry, bytes)) => result is Ok && Entry::File(result.unwrap())@ == entry
                && entry.well_formed() && final(buffer)@ == old(buffer)@ + bytes
                && crate::compression::decompressed(format, bytes) == Some(content@),
            Err(e) => result is Err && result->Err_0 == e && final(buffer)@ == old(buffer)@,
        },
{
    if !fits(name.as_str(), mode) {
        return Err(ArchiveError::InvalidEntry);
    }
    let mut bytes = match compress(format, content) {
        Some(bytes) => bytes,
        None => {
            return Err(ArchiveError::CompressionFailed);
        },
    };
    let stored_len = bytes.len() as u64;
    let start = match base.checked_add(buffer.len() as u64) {
        Some(start) => start,
        None => {
            return Err(ArchiveError::TooLarge);
        },
    };
    if stored_len > u64::MAX - start {
        return Err(ArchiveError::TooLarge);
    }
    buffer.append(&mut bytes);
    let size = content.len() as u64;
    Ok(
        Box::new(
            FileEntry {
                name,
                mode,
                owner,
                mtime,
                compression: format,
                size_compressed: match format {
                    CompressionFormat::Uncompressed => None,
                    _ => Some(stored_len),
                },
                size_real: match real_size {
                    Some(n) => n,
                    None => size,
                },
                size,
                offset: start,
            },
        ),
    )
}

/// The views of a list with one more entry at its end.
pub proof fn lemma_entries_view_push(entries: Seq<Entry>, entry: Entry)
    ensures
        entries_view(entries.push(entry)) == entries_view(entries) + seq![entry@],
{
    assert(entries_view(entries.push(entry)) =~= entries_view(entries) + seq![entry@]);
}

/// Stores `source`, its children included, at the end of `buffer`, which
/// begins at `base` in the archive, and gives the entry for it.
///
/// On failure `buffer` may hold the payloads that were stored before the
/// entry that failed.
#[verifier::rlimit(50)]
pub fn store_entry(buffer: &mut Vec<u8>, base: u64, source: &SourceEntry) -> (result: Result<
    Entry,
    ArchiveError,
>)
    ensures
        match stored(source@, (base + old(buffer)@.len()) as nat) {
            Ok((entry, bytes)) => result is Ok && result.unwrap()@ == entry
                && entry.well_formed() && final(buffer)@ == old(buffer)@ + bytes,
            Err(e) => result is Err && result->Err_0 == e,
        },
    decreases source,
{
    match source {
        SourceEntry::File(file) => {
            let format = match file.compression {
                Some(format) => format,
                None => default_compression(file.content.len() as u64),
            };
            match store_file(
                buffer,
                base,
                file.name.clone(),
                file.mode,
                file.owner,
                file.mtime,
                file.content.as_slice(),
                format,
                file.real_size,
            ) {
                Ok(entry) => Ok(Entry::File(entry)),
                Err(e) => Err(e),
            }
        },
        SourceEntry::Directory(dir) => {
            proof {
                lemma_source_directory_view(*source);
            }
            if !fits(dir.name.as_str(), dir.mode) {
                return Err(ArchiveError::InvalidEntry);
            }
            let ghost all = sources_view(dir.entries@);
            let ghost start = old(buffer)@;
            let ghost offset = (base + old(buffer)@.len()) as nat;
            let ghost mut appended: Seq<u8> = Seq::empty();
            let mut children: Vec<Entry> = Vec::new();
            let mut i: usize = 0;
            proof {
                assert(all.skip(0) =~= all);
                assert(start + appended =~= start);
                let whole = stored_list(all, offset);
                if whole is Ok {
                    assert(entries_view(children@) + whole.unwrap().0 =~= whole.unwrap().0);
                    assert(appended + whole.unwrap().1 =~= whole.unwrap().1);
                }
            }
            while i < dir.entries.len()
                invariant
                    i <= dir.entries.len(),
                    decreases_to!(source => dir.entries),
                    all == sources_view(dir.entries@),
                    source@ is Directory,
                    source@->Directory_entries == all,
                    encode_utf8(source@.name()).len() <= 255,
                    source@.mode() <= MODE_MASK,
                    start == old(buffer)@,
                    buffer@ == start + appended,
                    offset == base + start.len(),
                    children@.len() == i,
                    super::entries::all_well_formed(entries_view(children@)),
                    match stored_list(all.skip(i as int), offset + appended.len()) {
                        Ok((more, bytes)) => stored_list(all, offset) == Ok::<
                            (Seq<EntryView>, Seq<u8>),
                            ArchiveError,
                        >((entries_view(children@) + more, appended + bytes)),
                        Err(e) => stored_list(all, offset) == Err::<
                            (Seq<EntryView>, Seq<u8>),
                            ArchiveError,
                        >(e),
                    },
                decreases dir.entries.len() - i,
            {
                let ghost done = children@;
                let ghost before = appended;
                proof {
                    assert(all.skip(i as int)[0] == dir.entries@[i as int]@);
                    assert(all.skip(i as int).skip(1) =~= all.skip(i + 1));
                }
                let child = match store_entry(buffer, base, &dir.entries[i]) {
                    Ok(child) => child,
                    Err(e) => {
                        proof {
                            let here = (offset + before.len()) as nat;
                            assert(all.skip(i as int).len() > 0);
                            assert(stored(all.skip(i as int)[0], here) is Err);
                            assert(stored_list(all.skip(i as int), here) is Err);
                        }
                        return Err(e);
                    },
                };
                children.push(child);
                i = i + 1;
                proof {
                    let (_, bytes) = stored(all[i - 1], offset + before.len()).unwrap();
                    appended = before + bytes;
                    assert(buffer@ =~= start + appended);
                    lemma_entries_view_push(done, child);
                    let tail = stored_list(all.skip(i as int), offset + appended.len());
                    if tail is Ok {
                        assert(entries_view(children@) + tail.unwrap().0 =~= entries_view(done)
                            + (seq![child@] + tail.unwrap().0));
                        assert(appended + tail.unwrap().1 =~= before + (bytes + tail.unwrap().1));
                    }
                    assert forall|j: int| 0 <= j < children@.len() implies (
                    #[trigger] entries_view(children@)[j]).well_formed() by {
                        if j < done.len() {
                            assert(entries_view(children@)[j] == entries_view(done)[j]);
                        }
                    }
                }
            }
            proof {
                assert(all.skip(i as int) =~= Seq::<SourceView>::empty());
                assert(entries_view(children@) + Seq::<EntryView>::empty() =~= entries_view(
                    children@,
                ));
                assert(appended + Seq::<u8>::empty() =~= appended);
            }
            let entry = Entry::Directory(
                Box::new(
                    DirectoryEntry {
                        name: dir.name.clone(),
                        mode: dir.mode,
                        owner: dir.owner,
                        mtime: dir.mtime,
                        entries: children,
                    },
                ),
            );
            proof {
                lemma_directory_view(entry);
            }
            Ok(entry)
        },
        SourceEntry::Symlink(link) => {
            if !fits(link.name.as_str(), link.mode) {
                return Err(ArchiveError::InvalidEntry);
            }
            let target_len = link.target.as_str().as_bytes().len();
            assert(buffer@ + Seq::<u8>::empty() =~= buffer@);
            Ok(
                Entry::Symlink(
                    Box::new(
                        SymlinkEntry {
                            name: link.name.clone(),
                            mode: link.mode,
                            owner: link.owner,
                            mtime: link.mtime,
                            target: link.target.clone(),
                            target_dir: link.target_dir,
                        },
                    ),
                ),
            )
        },
    }
}

/// Stores each of `sources`, in order, at the end of `buffer`, which begins
/// at `base` in the archive, and gives the entries for them.
///
/// On failure `buffer` may hold the payloads that were stored before the
/// entry that failed.
#[verifier::rlimit(50)]
pub fn store_entries(buffer: &mut Vec<u8>, base: u64, sources: &[SourceEntry]) -> (result: Result<
    Vec<Entry>,
    ArchiveError,
>)
    ensures
        match stored_list(sources_view(sources@), (base + old(buffer)@.len()) as nat) {
            Ok((entries, bytes)) => result is Ok && entries_view(result.unwrap()@) == entries
                && super::entries::all_well_formed(entries) && final(buffer)@ == old(buffer)@
                + bytes,
            Err(e) => result is Err && result->Err_0 == e,
        },
{
    let ghost all = sources_view(sources@);
    let ghost start = old(buffer)@;
    let ghost offset = (base + old(buffer)@.len()) as nat;
    let ghost mut appended: Seq<u8> = Seq::empty();
    let mut entries: Vec<Entry> = Vec::new();
    let mut i: usize = 0;
    proof {
        assert(all.skip(0) =~= all);
        assert(start + appended =~= start);
        let whole = stored_list(all, offset);
        if whole is Ok {
            assert(entries_view(entries@) + whole.unwrap().0 =~= whole.unwrap().0);
            assert(appended + whole.unwrap().1 =~= whole.unwrap().1);
        }
    }
    while i < sources.len()
        invariant
            i <= sources.len(),
            all == sources_view(sources@),
            start == old(buffer)@,
            buffer@ == start + appended,
            offset == base + start.len(),
            entries@.len() == i,
            super::entries::all_well_formed(entries_view(entries@)),
            match stored_list(all.skip(i as int), offset + appended.len()) {
                Ok((more, bytes)) => stored_list(all, offset) == Ok::<
                    (Seq<EntryView>, Seq<u8>),
                    ArchiveError,
                >((entries_view(entries@) + more, appended + bytes)),
                Err(e) => stored_list(all, offset) == Err::<
                    (Seq<EntryView>, Seq<u8>),
                    ArchiveError,
                >(e),
            },
        decreases sources.len() - i,
    {
        let ghost done = entries@;
        let ghost before = appended;
        proof {
            assert(all.skip(i as int)[0] == sources@[i as int]@);
            assert(all.skip(i as int).skip(1) =~= all.skip(i + 1));
        }
        let entry = match store_entry(buffer, base, &sources[i]) {
            Ok(entry) => entry,
            Err(e) => {
                proof {
                    let here = (offset + before.len()) as nat;
                    assert(all.skip(i as int).len() > 0);
                    assert(stored(all.skip(i as int)[0], here) is Err);
                    assert(stored_list(all.skip(i as int), here) is Err);
                }
                return Err(e);
            },
        };
        entries.push(entry);
        i = i + 1;
        proof {
            let (_, bytes) = stored(all[i - 1], offset + before.len()).unwrap();
            appended = before + bytes;
            assert(buffer@ =~= start + appended);
            lemma_entries_view_push(done, entry);
            let tail = stored_list(all.skip(i as int), offset + appended.len());
            if tail is Ok {
                assert(entries_view(entries@) + tail.unwrap().0 =~= entries_view(done) + (
                seq![entry@] + tail.unwrap().0));
                assert(appended + tail.unwrap().1 =~= before + (bytes + tail.unwrap().1));
            }
            assert forall|j: int| 0 <= j < entries@.len() implies (#[trigger] entries_view(
                entries@,
            )[j]).well_formed() by {
                if j < done.len() {
                    assert(entries_view(entries@)[j] == entries_view(done)[j]);
                }
            }
        }
    }
    proof {
        assert(all.skip(i as int) =~= Seq::<SourceView>::empty());
        assert(entries_view(entries@) + Seq::<EntryView>::empty() =~= entries_view(entries@));
        assert(appended + Seq::<u8>::empty() =~= appended);
    }
    Ok(entries)
}

} // verus!
