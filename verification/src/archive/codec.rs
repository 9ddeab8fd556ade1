//! The metadata tree as bytes: a depth-first, pre-order list of entries.

use super::entries::{
    all_well_formed, entries_view, lemma_directory_view, Entry, EntryView,
};
use super::entries::{DirectoryEntry, EntryMode, FileEntry, SymlinkEntry};
use super::{ArchiveError, CompressionFormat};
use crate::stream::{string_from_utf8, ByteReader};
use crate::varint::{
    decode_u32, decode_u64, encode_u32, encode_u64, lemma_decode_encode, lemma_varint_len_bound,
    varint_bytes, varint_len, varint_value,
};
use vstd::bytes::{spec_u32_from_le_bytes, spec_u32_to_le_bytes, u32_from_le_bytes, u32_to_le_bytes};
use vstd::prelude::*;
use vstd::utf8::{decode_utf8, encode_utf8, valid_utf8};

verus! {

/// The tag of a file in the packed field.
pub const KIND_FILE: u32 = 0;

/// The tag of a directory in the packed field.
pub const KIND_DIRECTORY: u32 = 1;

/// The tag of a symbolic link in the packed field.
pub const KIND_SYMLINK: u32 = 2;

/// The bits of a mode that the packed field has room for.
pub const MODE_MASK: u32 = 0x03FF_FFFF;

/// The packed field of an entry: its kind in bits 31..30, the compression tag
/// in bits 29..26, the mode in bits 25..0.
pub open spec fn packed_field(kind: u32, tag: u8, mode: u32) -> u32 {
    (kind << 30) | ((tag as u32) << 26) | (mode & MODE_MASK)
}

/// What every entry starts with: the length of its name and the name, the
/// packed field in little-endian order, owner and modification time.
pub open spec fn head_bytes(
    name: Seq<char>,
    kind: u32,
    tag: u8,
    mode: u32,
    owner: (u32, u32),
    mtime: u64,
) -> Seq<u8> {
    varint_bytes(encode_utf8(name).len()) + encode_utf8(name) + spec_u32_to_le_bytes(
        packed_field(kind, tag, mode),
    ) + varint_bytes(owner.0 as nat) + varint_bytes(owner.1 as nat) + varint_bytes(mtime as nat)
}

/// What follows the head of a file: its raw size, its compressed size where
/// it is compressed, its real size and the offset of its payload.
pub open spec fn file_tail_bytes(
    compression: CompressionFormat,
    size_compressed: Option<u64>,
    size_real: u64,
    size: u64,
    offset: u64,
) -> Seq<u8> {
    varint_bytes(size as nat) + (if compression != CompressionFormat::Uncompressed {
        varint_bytes(
            (match size_compressed {
                Some(n) => n,
                None => 0,
            }) as nat,
        )
    } else {
        Seq::empty()
    }) + varint_bytes(size_real as nat) + varint_bytes(offset as nat)
}

/// The bytes of one entry, its children included.
pub open spec fn entry_bytes(entry: EntryView) -> Seq<u8>
    decreases entry,
{
    match entry {
        EntryView::File {
            name,
            mode,
            owner,
            mtime,
            compression,
            size_compressed,
            size_real,
            size,
            offset,
        } => head_bytes(name, KIND_FILE, compression.tag(), mode, owner, mtime) + file_tail_bytes(
            compression,
            size_compressed,
            size_real,
            size,
            offset,
        ),
        EntryView::Directory { name, mode, owner, mtime, entries } => head_bytes(
            name,
            KIND_DIRECTORY,
            0,
            mode,
            owner,
            mtime,
        ) + varint_bytes(entries.len()) + entries_bytes(entries),
        EntryView::Symlink { name, mode, owner, mtime, target, target_dir } => head_bytes(
            name,
            KIND_SYMLINK,
            0,
            mode,
            owner,
            mtime,
        ) + varint_bytes(encode_utf8(target).len()) + encode_utf8(target) + seq![
            if target_dir {
                1u8
            } else {
                0u8
            },
        ],
    }
}

/// The bytes of a list of entries, one after the other.
pub open spec fn entries_bytes(entries: Seq<EntryView>) -> Seq<u8>
    decreases entries,
{
    if entries.len() == 0 {
        Seq::empty()
    } else {
        entry_bytes(entries[0]) + entries_bytes(entries.skip(1))
    }
}

fn append(out: &mut Vec<u8>, bytes: &[u8])
    ensures
        final(out)@ == old(out)@ + bytes@,
{
    let ghost before = out@;
    let mut i: usize = 0;
    while i < bytes.len()
        invariant
            i <= bytes.len(),
            out@ == before + bytes@.take(i as int),
        decreases bytes.len() - i,
    {
        out.push(bytes[i]);
        i = i + 1;
        assert(out@ =~= before + bytes@.take(i as int));
    }
    assert(bytes@.take(bytes.len() as int) =~= bytes@);
}

fn encode_head(
    out: &mut Vec<u8>,
    name: &str,
    kind: u32,
    tag: u8,
    mode: u32,
    owner: (u32, u32),
    mtime: u64,
)
    requires
        kind <= 3,
        tag <= 15,
    ensures
        final(out)@ == old(out)@ + head_bytes(name@, kind, tag, mode, owner, mtime),
{
    let name_bytes = name.as_bytes();
    append(out, encode_u64(name_bytes.len() as u64).as_slice());
    append(out, name_bytes);
    let packed: u32 = (kind << 30) | ((tag as u32) << 26) | (mode & MODE_MASK);
    append(out, u32_to_le_bytes(packed).as_slice());
    append(out, encode_u32(owner.0).as_slice());
    append(out, encode_u32(owner.1).as_slice());
    append(out, encode_u64(mtime).as_slice());
    assert(final(out)@ =~= old(out)@ + head_bytes(name@, kind, tag, mode, owner, mtime));
}

/// Appends the bytes of an entry that fits the format, its children
/// included, to `out`.
pub(crate) fn write_entry(out: &mut Vec<u8>, entry: &Entry)
    requires
        entry@.well_formed(),
    ensures
        final(out)@ == old(out)@ + entry_bytes(entry@),
    decreases entry,
{
    let ghost before = out@;
    match entry {
        Entry::File(file) => {
            encode_head(
                out,
                file.name.as_str(),
                KIND_FILE,
                file.compression.encode(),
                file.mode.bits(),
                file.owner,
                file.mtime,
            );
            append(out, encode_u64(file.size).as_slice());
            match file.compression {
                CompressionFormat::Uncompressed => {},
                _ => {
                    let stored: u64 = match file.size_compressed {
                        Some(n) => n,
                        None => 0,
                    };
                    append(out, encode_u64(stored).as_slice());
                },
            }
            append(out, encode_u64(file.size_real).as_slice());
            append(out, encode_u64(file.offset).as_slice());
            assert(out@ =~= before + entry_bytes(entry@));
        },
        Entry::Directory(dir) => {
            encode_head(
                out,
                dir.name.as_str(),
                KIND_DIRECTORY,
                0,
                dir.mode.bits(),
                dir.owner,
                dir.mtime,
            );
            append(out, encode_u64(dir.entries.len() as u64).as_slice());
            let ghost start = out@;
            let ghost children = entries_view(dir.entries@);
            proof {
                lemma_directory_view(*entry);
                assert(children.skip(0) =~= children);
            }
            let mut i: usize = 0;
            while i < dir.entries.len()
                invariant
                    i <= dir.entries.len(),
                    decreases_to!(entry => dir.entries),
                    children == entries_view(dir.entries@),
                    all_well_formed(children),
                    out@ + entries_bytes(children.skip(i as int)) == start + entries_bytes(
                        children,
                    ),
                decreases dir.entries.len() - i,
            {
                let ghost prior = out@;
                assert(children[i as int] == dir.entries@[i as int]@);
                write_entry(out, &dir.entries[i]);
                proof {
                    assert(children.skip(i as int).skip(1) =~= children.skip(i + 1));
                    assert(children.skip(i as int)[0] == dir.entries@[i as int]@);
                    assert(out@ + entries_bytes(children.skip(i + 1)) =~= prior + entries_bytes(
                        children.skip(i as int),
                    ));
                }
                i = i + 1;
            }
            assert(entries_bytes(children.skip(i as int)) =~= Seq::<u8>::empty());
            assert(out@ =~= before + entry_bytes(entry@));
        },
        Entry::Symlink(link) => {
            encode_head(
                out,
                link.name.as_str(),
                KIND_SYMLINK,
                0,
                link.mode.bits(),
                link.owner,
                link.mtime,
            );
            let target_bytes = link.target.as_str().as_bytes();
            append(out, encode_u64(target_bytes.len() as u64).as_slice());
            append(out, target_bytes);
            out.push(
                if link.target_dir {
                    1
                } else {
                    0
                },
            );
            assert(out@ =~= before + entry_bytes(entry@));
        },
    }
}

/// Appends the bytes of each of `entries`, which fit the format, in order,
/// to `out`.
pub(crate) fn write_entries(out: &mut Vec<u8>, entries: &[Entry])
    requires
        all_well_formed(entries_view(entries@)),
    ensures
        final(out)@ == old(out)@ + entries_bytes(entries_view(entries@)),
{
    let ghost start = out@;
    let ghost all = entries_view(entries@);
    assert(all.skip(0) =~= all);
    let mut i: usize = 0;
    while i < entries.len()
        invariant
            i <= entries.len(),
            all == entries_view(entries@),
            all_well_formed(all),
            out@ + entries_bytes(all.skip(i as int)) == start + entries_bytes(all),
        decreases entries.len() - i,
    {
        let ghost prior = out@;
        assert(all[i as int] == entries@[i as int]@);
        write_entry(out, &entries[i]);
        proof {
            assert(all.skip(i as int).skip(1) =~= all.skip(i + 1));
            assert(all.skip(i as int)[0] == entries@[i as int]@);
            assert(out@ + entries_bytes(all.skip(i + 1)) =~= prior + entries_bytes(
                all.skip(i as int),
            ));
        }
        i = i + 1;
    }
    assert(entries_bytes(all.skip(i as int)) =~= Seq::<u8>::empty());
    assert(out@ =~= start + entries_bytes(all));
}

/// Appends the bytes of `entry`, its children included, to `out`.
///
/// An entry that does not fit the format, or that has a child that does
/// not, is refused and nothing is appended: its name is longer than 255
/// bytes, its mode has more than 26 bits, or it is a file whose compressed
/// size does not go with its compression.
pub fn encode_entry_metadata(out: &mut Vec<u8>, entry: &Entry) -> (result: Result<
    (),
    ArchiveError,
>)
    ensures
        entry@.well_formed() ==> result is Ok && final(out)@ == old(out)@ + entry_bytes(entry@),
        !entry@.well_formed() ==> result is Err && result->Err_0 == ArchiveError::InvalidEntry
            && final(out)@ == old(out)@,
{
    if !entry.is_well_formed() {
        return Err(ArchiveError::InvalidEntry);
    }
    write_entry(out, entry);
    Ok(())
}

/// Appends the bytes of each of `entries`, in order, to `out`.
///
/// Where one of them does not fit the format, as `encode_entry_metadata`
/// says, the list is refused and nothing is appended.
pub fn encode_entries_metadata(out: &mut Vec<u8>, entries: &[Entry]) -> (result: Result<
    (),
    ArchiveError,
>)
    ensures
        all_well_formed(entries_view(entries@)) ==> result is Ok && final(out)@ == old(out)@
            + entries_bytes(entries_view(entries@)),
        !all_well_formed(entries_view(entries@)) ==> result is Err && result->Err_0
            == ArchiveError::InvalidEntry && final(out)@ == old(out)@,
{
    let ghost all = entries_view(entries@);
    let mut i: usize = 0;
    while i < entries.len()
        invariant
            i <= entries.len(),
            all == entries_view(entries@),
            out@ == old(out)@,
            forall|j: int| 0 <= j < i ==> (#[trigger] all[j]).well_formed(),
        decreases entries.len() - i,
    {
        if !entries[i].is_well_formed() {
            assert(!all[i as int].well_formed());
            return Err(ArchiveError::InvalidEntry);
        }
        assert(all[i as int] == entries@[i as int]@);
        i = i + 1;
    }
    write_entries(out, entries);
    Ok(())
}

/// The longest name that an entry may have, in bytes.
pub const MAX_NAME_LENGTH: u32 = 255;

/// The number of 32 bits that the varint at the front of `s` spells.
pub open spec fn varint_u32(s: Seq<u8>) -> u32 {
    (varint_value(s) % 0x1_0000_0000) as u32
}

/// The number of 64 bits that the varint at the front of `s` spells.
pub open spec fn varint_u64(s: Seq<u8>) -> u64 {
    (varint_value(s) % 0x1_0000_0000_0000_0000) as u64
}

/// What follows the varint at the front of `s`.
pub open spec fn after_varint(s: Seq<u8>) -> Seq<u8> {
    s.skip(varint_len(s) as int)
}

/// The fields that every entry starts with, and the first number after them:
/// the raw size of a file, the number of children of a directory, the length
/// of the target of a symbolic link.
pub struct Head {
    pub name: Seq<char>,
    pub kind: u32,
    pub compression: CompressionFormat,
    pub mode: u32,
    pub owner: (u32, u32),
    pub mtime: u64,
    pub size: u64,
}

/// Reads the head of an entry from the front of `s`; gives the head and
/// what follows it.
///
/// A name of more than 255 bytes, a name that is not UTF-8, a compression
/// tag above three and the kind three are invalid; a name or a packed field
/// that the data is too short for is an unexpected end.
pub open spec fn parse_head(s: Seq<u8>) -> Result<(Head, Seq<u8>), ArchiveError> {
    parse_named(varint_u32(s), after_varint(s))
}

/// Reads a name of `name_len` bytes from the front of `s`, and after it the
/// rest of a head.
pub open spec fn parse_named(name_len: u32, s: Seq<u8>) -> Result<(Head, Seq<u8>), ArchiveError> {
    if name_len > MAX_NAME_LENGTH {
        Err(ArchiveError::InvalidData)
    } else if s.len() < name_len {
        Err(ArchiveError::UnexpectedEof)
    } else if !valid_utf8(s.take(name_len as int)) {
        Err(ArchiveError::InvalidData)
    } else if s.len() < name_len + 4 {
        Err(ArchiveError::UnexpectedEof)
    } else {
        parse_fields(
            decode_utf8(s.take(name_len as int)),
            spec_u32_from_le_bytes(s.skip(name_len as int).take(4)),
            s.skip(name_len as int).skip(4),
        )
    }
}

/// Takes the packed field of an entry apart and reads the four numbers that
/// follow it from the front of `s`: owner, group, modification time, and the
/// number that belongs to the kind.
pub open spec fn parse_fields(name: Seq<char>, packed: u32, s: Seq<u8>) -> Result<
    (Head, Seq<u8>),
    ArchiveError,
> {
    let kind = packed >> 30;
    let tag = ((packed >> 26) & 0xF) as u8;
    if tag > 3 || kind > 2 {
        Err(ArchiveError::InvalidData)
    } else {
        let s1 = after_varint(s);
        let s2 = after_varint(s1);
        let s3 = after_varint(s2);
        Ok(
            (
                Head {
                    name,
                    kind,
                    compression: CompressionFormat::of_tag(tag).unwrap(),
                    mode: packed & MODE_MASK,
                    owner: (varint_u32(s), varint_u32(s1)),
                    mtime: varint_u64(s2),
                    size: varint_u64(s3),
                },
                after_varint(s3),
            ),
        )
    }
}

/// Reads one entry, its children included, from the front of `s`; gives the
/// entry and what follows it.
///
/// A number that the data ends in is the number read so far. A target of a
/// symbolic link that is not UTF-8 is invalid.
pub open spec fn parse_entry(s: Seq<u8>) -> Result<(EntryView, Seq<u8>), ArchiveError>
    decreases s.len(), 0nat,
{
    match parse_head(s) {
        Err(e) => Err(e),
        Ok((head, rest)) => if head.kind == KIND_FILE {
            let compressed = head.compression != CompressionFormat::Uncompressed;
            let r1 = if compressed {
                after_varint(rest)
            } else {
                rest
            };
            let r2 = after_varint(r1);
            Ok(
                (
                    EntryView::File {
                        name: head.name,
                        mode: head.mode,
                        owner: head.owner,
                        mtime: head.mtime,
                        compression: head.compression,
                        size_compressed: if compressed {
                            Some(varint_u64(rest))
                        } else {
                            None
                        },
                        size_real: varint_u64(r1),
                        size: head.size,
                        offset: varint_u64(r2),
                    },
                    after_varint(r2),
                ),
            )
        } else if head.kind == KIND_DIRECTORY {
            // A head has at least four bytes, so `rest` is always the shorter:
            // the test makes the definition well-founded.
            if rest.len() >= s.len() {
                Err(ArchiveError::InvalidData)
            } else {
                match parse_entries(rest, head.size as nat) {
                    Err(e) => Err(e),
                    Ok((entries, r)) => Ok(
                        (
                            EntryView::Directory {
                                name: head.name,
                                mode: head.mode,
                                owner: head.owner,
                                mtime: head.mtime,
                                entries,
                            },
                            r,
                        ),
                    ),
                }
            }
        } else {
            if rest.len() < head.size {
                Err(ArchiveError::UnexpectedEof)
            } else if !valid_utf8(rest.take(head.size as int)) {
                Err(ArchiveError::InvalidData)
            } else if rest.len() < head.size + 1 {
                Err(ArchiveError::UnexpectedEof)
            } else {
                Ok(
                    (
                        EntryView::Symlink {
                            name: head.name,
                            mode: head.mode,
                            owner: head.owner,
                            mtime: head.mtime,
                            target: decode_utf8(rest.take(head.size as int)),
                            target_dir: rest[head.size as int] != 0,
                        },
                        rest.skip(head.size + 1),
                    ),
                )
            }
        },
    }
}

/// Reads `count` entries, one after the other, from the front of `s`.
pub open spec fn parse_entries(s: Seq<u8>, count: nat) -> Result<
    (Seq<EntryView>, Seq<u8>),
    ArchiveError,
>
    decreases s.len(), count + 1,
{
    if count == 0 {
        Ok((Seq::empty(), s))
    } else {
        match parse_entry(s) {
            Err(e) => Err(e),
            Ok((entry, rest)) =>
            // An entry has at least four bytes, so `rest` is always the
            // shorter: the test makes the definition well-founded.
            if rest.len() >= s.len() {
                Err(ArchiveError::InvalidData)
            } else {
                match parse_entries(rest, (count - 1) as nat) {
                    Err(e) => Err(e),
                    Ok((entries, r)) => Ok((seq![entry] + entries, r)),
                }
            },
        }
    }
}

struct RawHead {
    name: String,
    kind: u32,
    compression: CompressionFormat,
    mode: u32,
    owner: (u32, u32),
    mtime: u64,
    size: u64,
}

impl RawHead {
    spec fn head(&self) -> Head {
        Head {
            name: self.name@,
            kind: self.kind,
            compression: self.compression,
            mode: self.mode,
            owner: self.owner,
            mtime: self.mtime,
            size: self.size,
        }
    }
}

#[verifier::rlimit(50)]
fn decode_head(stream: &mut ByteReader) -> (result: Result<RawHead, ArchiveError>)
    ensures
        match parse_head(old(stream)@) {
            Ok((head, rest)) => result is Ok && result.unwrap().head() == head && final(stream)@
                == rest,
            Err(e) => result is Err && result->Err_0 == e,
        },
{
    let name_len = decode_u32(stream);
    if name_len > MAX_NAME_LENGTH {
        return Err(ArchiveError::InvalidData);
    }
    let name_bytes = match stream.read_exact(name_len as usize) {
        Some(bytes) => bytes,
        None => {
            return Err(ArchiveError::UnexpectedEof);
        },
    };
    let name = match string_from_utf8(name_bytes) {
        Some(name) => name,
        None => {
            return Err(ArchiveError::InvalidData);
        },
    };
    let packed_bytes = match stream.read_exact(4) {
        Some(bytes) => bytes,
        None => {
            return Err(ArchiveError::UnexpectedEof);
        },
    };
    let packed = u32_from_le_bytes(packed_bytes.as_slice());
    let kind: u32 = packed >> 30;
    let tag: u8 = ((packed >> 26) & 0xF) as u8;
    if tag > 3 || kind > 2 {
        return Err(ArchiveError::InvalidData);
    }
    let compression = CompressionFormat::decode(tag);
    let uid = decode_u32(stream);
    let gid = decode_u32(stream);
    let mtime = decode_u64(stream);
    let size = decode_u64(stream);
    Ok(RawHead { name, kind, compression, mode: packed & MODE_MASK, owner: (uid, gid), mtime, size })
}

/// Reads one entry, its children included, from the front of `stream`.
///
/// On success the stream stands behind the entry. On failure nothing is said
/// of where it stands.
#[verifier::rlimit(50)]
pub fn decode_entry(stream: &mut ByteReader) -> (result: Result<Entry, ArchiveError>)
    ensures
        match parse_entry(old(stream)@) {
            Ok((entry, rest)) => result is Ok && result.unwrap()@ == entry && final(stream)@
                == rest,
            Err(e) => result is Err && result->Err_0 == e,
        },
    decreases old(stream)@.len(), 0nat,
{
    let ghost start = stream@;
    let head = match decode_head(stream) {
        Ok(head) => head,
        Err(e) => {
            return Err(e);
        },
    };
    proof {
        lemma_head_consumes(start);
    }
    if head.kind == KIND_FILE {
        let size_compressed = match head.compression {
            CompressionFormat::Uncompressed => None,
            _ => Some(decode_u64(stream)),
        };
        let size_real = decode_u64(stream);
        let offset = decode_u64(stream);
        Ok(
            Entry::File(
                Box::new(
                    FileEntry {
                        name: head.name,
                        mode: EntryMode::new(head.mode),
                        owner: head.owner,
                        mtime: head.mtime,
                        compression: head.compression,
                        size_compressed,
                        size_real,
                        size: head.size,
                        offset,
                    },
                ),
            ),
        )
    } else if head.kind == KIND_DIRECTORY {
        let entries = match decode_entries(stream, head.size) {
            Ok(entries) => entries,
            Err(e) => {
                return Err(e);
            },
        };
        let entry = Entry::Directory(
            Box::new(
                DirectoryEntry {
                    name: head.name,
                    mode: EntryMode::new(head.mode),
                    owner: head.owner,
                    mtime: head.mtime,
                    entries,
                },
            ),
        );
        proof {
            lemma_directory_view(entry);
        }
        Ok(entry)
    } else {
        if head.size > stream.remaining() as u64 {
            return Err(ArchiveError::UnexpectedEof);
        }
        let target_bytes = match stream.read_exact(head.size as usize) {
            Some(bytes) => bytes,
            None => {
                return Err(ArchiveError::UnexpectedEof);
            },
        };
        let target = match string_from_utf8(target_bytes) {
            Some(target) => target,
            None => {
                return Err(ArchiveError::InvalidData);
            },
        };
        let flag = match stream.read_u8() {
            Some(flag) => flag,
            None => {
                return Err(ArchiveError::UnexpectedEof);
            },
        };
        assert(stream@ =~= parse_head(start).unwrap().1.skip(head.size + 1));
        Ok(
            Entry::Symlink(
                Box::new(
                    SymlinkEntry {
                        name: head.name,
                        mode: EntryMode::new(head.mode),
                        owner: head.owner,
                        mtime: head.mtime,
                        target,
                        target_dir: flag != 0,
                    },
                ),
            ),
        )
    }
}

/// Reads `count` entries, one after the other, from the front of `stream`.
///
/// On success the stream stands behind the last of them. On failure nothing
/// is said of where it stands.
#[verifier::rlimit(50)]
pub fn decode_entries(stream: &mut ByteReader, count: u64) -> (result: Result<
    Vec<Entry>,
    ArchiveError,
>)
    ensures
        match parse_entries(old(stream)@, count as nat) {
            Ok((entries, rest)) => result is Ok && entries_view(result.unwrap()@) == entries
                && final(stream)@ == rest,
            Err(e) => result is Err && result->Err_0 == e,
        },
    decreases old(stream)@.len(), count + 1,
{
    let ghost start = stream@;
    let mut entries: Vec<Entry> = Vec::new();
    let mut i: u64 = 0;
    assert(entries_view(entries@) + Seq::<EntryView>::empty() =~= Seq::<EntryView>::empty());
    while i < count
        invariant
            i <= count,
            stream@.len() <= start.len(),
            i > 0 ==> stream@.len() < start.len(),
            start == old(stream)@,
            match parse_entries(stream@, (count - i) as nat) {
                Ok((more, rest)) => parse_entries(start, count as nat) == Ok::<
                    (Seq<EntryView>, Seq<u8>),
                    ArchiveError,
                >((entries_view(entries@) + more, rest)),
                Err(e) => parse_entries(start, count as nat) == Err::<
                    (Seq<EntryView>, Seq<u8>),
                    ArchiveError,
                >(e),
            },
        decreases count - i,
    {
        let ghost here = stream@;
        let ghost before = entries@;
        proof {
            lemma_entry_consumes(here);
        }
        let entry = match decode_entry(stream) {
            Ok(entry) => entry,
            Err(e) => {
                return Err(e);
            },
        };
        entries.push(entry);
        i = i + 1;
        proof {
            let tail = parse_entries(stream@, (count - i) as nat);
            if tail is Ok {
                assert(entries_view(entries@) + tail.unwrap().0 =~= entries_view(before) + (
                seq![entry@] + tail.unwrap().0));
            }
        }
    }
    assert(entries_view(entries@) + Seq::<EntryView>::empty() =~= entries_view(entries@));
    Ok(entries)
}

/// A head takes at least four bytes.
pub proof fn lemma_head_consumes(s: Seq<u8>)
    ensures
        parse_head(s) is Ok ==> parse_head(s).unwrap().1.len() + 4 <= s.len(),
{
    lemma_after_varint_shorter(s);
    let name_len = varint_u32(s);
    let s2 = after_varint(s).skip(name_len as int).skip(4);
    let packed = spec_u32_from_le_bytes(after_varint(s).skip(name_len as int).take(4));
    lemma_after_varint_shorter(s2);
    lemma_after_varint_shorter(after_varint(s2));
    lemma_after_varint_shorter(after_varint(after_varint(s2)));
    lemma_after_varint_shorter(after_varint(after_varint(after_varint(s2))));
}

/// What follows a varint is no longer than what it is in.
pub proof fn lemma_after_varint_shorter(s: Seq<u8>)
    ensures
        after_varint(s).len() <= s.len(),
        after_varint(s).len() == s.len() - varint_len(s),
{
    lemma_varint_len_bound(s);
}

/// An entry takes at least four bytes, and so the tests on lengths in
/// `parse_entry` and `parse_entries` never fail.
pub proof fn lemma_entry_consumes(s: Seq<u8>)
    ensures
        parse_entry(s) is Ok ==> parse_entry(s).unwrap().1.len() + 4 <= s.len(),
    decreases s.len(), 0nat,
{
    lemma_head_consumes(s);
    if parse_head(s) is Ok {
        let (head, rest) = parse_head(s).unwrap();
        if head.kind == KIND_DIRECTORY {
            lemma_entries_consume(rest, head.size as nat);
        } else if head.kind == KIND_FILE {
            lemma_after_varint_shorter(rest);
            let r1 = if head.compression != CompressionFormat::Uncompressed {
                after_varint(rest)
            } else {
                rest
            };
            lemma_after_varint_shorter(r1);
            lemma_after_varint_shorter(after_varint(r1));
        }
    }
}

/// A list of entries takes at least four bytes for each of them.
pub proof fn lemma_entries_consume(s: Seq<u8>, count: nat)
    ensures
        parse_entries(s, count) is Ok ==> parse_entries(s, count).unwrap().1.len() <= s.len()
            && parse_entries(s, count).unwrap().0.len() == count,
    decreases s.len(), count + 1,
{
    if count > 0 {
        lemma_entry_consumes(s);
        if parse_entry(s) is Ok {
            let (entry, rest) = parse_entry(s).unwrap();
            lemma_entries_consume(rest, (count - 1) as nat);
        }
    }
}

/// A varint at the front of some bytes is read as the number that was
/// written, and what follows it is left.
proof fn lemma_varint_front(n: nat, rest: Seq<u8>)
    ensures
        n <= u32::MAX ==> varint_u32(varint_bytes(n) + rest) == n,
        n <= u64::MAX ==> varint_u64(varint_bytes(n) + rest) == n,
        after_varint(varint_bytes(n) + rest) == rest,
{
    lemma_decode_encode(n, rest);
}

/// The three parts of a packed field come out of it as they went in.
proof fn lemma_packed_field(kind: u32, tag: u8, mode: u32)
    requires
        kind <= 2,
        tag <= 3,
        mode <= MODE_MASK,
    ensures
        packed_field(kind, tag, mode) >> 30 == kind,
        ((packed_field(kind, tag, mode) >> 26) & 0xF) as u8 == tag,
        packed_field(kind, tag, mode) & MODE_MASK == mode,
{
    let packed: u32 = (kind << 30) | ((tag as u32) << 26) | (mode & 0x03FF_FFFFu32);
    assert(packed >> 30 == kind && ((packed >> 26) & 0xF) as u8 == tag && packed & 0x03FF_FFFFu32
        == mode) by (bit_vector)
        requires
            kind <= 2,
            tag <= 3,
            mode <= 0x03FF_FFFFu32,
            packed == (kind << 30) | ((tag as u32) << 26) | (mode & 0x03FF_FFFFu32),
    ;
}

/// The packed field and the four numbers that were written are the ones
/// that are read.
proof fn lemma_parse_fields_bytes(
    name: Seq<char>,
    kind: u32,
    compression: CompressionFormat,
    mode: u32,
    owner: (u32, u32),
    mtime: u64,
    size: u64,
    rest: Seq<u8>,
)
    requires
        kind <= 2,
        mode <= MODE_MASK,
    ensures
        parse_fields(
            name,
            packed_field(kind, compression.tag(), mode),
            varint_bytes(owner.0 as nat) + (varint_bytes(owner.1 as nat) + (varint_bytes(
                mtime as nat,
            ) + (varint_bytes(size as nat) + rest))),
        ) == Ok::<(Head, Seq<u8>), ArchiveError>(
            (Head { name, kind, compression, mode, owner, mtime, size }, rest),
        ),
{
    let tag = compression.tag();
    let t4 = varint_bytes(size as nat) + rest;
    let t3 = varint_bytes(mtime as nat) + t4;
    let t2 = varint_bytes(owner.1 as nat) + t3;
    lemma_packed_field(kind, tag, mode);
    assert(CompressionFormat::of_tag(tag) == Some(compression));
    lemma_varint_front(owner.0 as nat, t2);
    lemma_varint_front(owner.1 as nat, t3);
    lemma_varint_front(mtime as nat, t4);
    lemma_varint_front(size as nat, rest);
}

/// A name that was written, with the packed field after it, is read as it
/// was written.
#[verifier::rlimit(50)]
proof fn lemma_parse_named_bytes(name: Seq<char>, packed: u32, rest: Seq<u8>)
    requires
        encode_utf8(name).len() <= 255,
    ensures
        parse_named(
            encode_utf8(name).len() as u32,
            encode_utf8(name) + (spec_u32_to_le_bytes(packed) + rest),
        ) == parse_fields(name, packed, rest),
{
    let name_bytes = encode_utf8(name);
    let field = spec_u32_to_le_bytes(packed);
    let t0 = field + rest;
    let tn = name_bytes + t0;
    let n = name_bytes.len() as int;
    assert(field.len() == 4 && spec_u32_from_le_bytes(field) == packed) by {
        vstd::bytes::lemma_auto_spec_u32_to_from_le_bytes();
    }
    assert(tn.len() >= n + 4);
    assert(tn.take(n) == name_bytes) by {
        assert(tn.take(n) =~= name_bytes);
    }
    assert(tn.skip(n) == t0) by {
        assert(tn.skip(n) =~= t0);
    }
    assert(t0.take(4) == field) by {
        assert(t0.take(4) =~= field);
    }
    assert(t0.skip(4) == rest) by {
        assert(t0.skip(4) =~= rest);
    }
    assert(valid_utf8(name_bytes) && decode_utf8(name_bytes) == name) by {
        vstd::utf8::encode_utf8_valid_utf8(name);
        vstd::utf8::encode_utf8_decode_utf8(name);
    }
}

/// How the bytes of a head and of the number after it are grouped for
/// reading.
proof fn lemma_head_shape(
    name: Seq<char>,
    kind: u32,
    tag: u8,
    mode: u32,
    owner: (u32, u32),
    mtime: u64,
    size: nat,
    rest: Seq<u8>,
)
    ensures
        head_bytes(name, kind, tag, mode, owner, mtime) + varint_bytes(size) + rest
            == varint_bytes(encode_utf8(name).len()) + (encode_utf8(name) + (spec_u32_to_le_bytes(
            packed_field(kind, tag, mode),
        ) + (varint_bytes(owner.0 as nat) + (varint_bytes(owner.1 as nat) + (varint_bytes(
            mtime as nat,
        ) + (varint_bytes(size) + rest)))))),
{
    let a = varint_bytes(encode_utf8(name).len());
    let b = encode_utf8(name);
    let c = spec_u32_to_le_bytes(packed_field(kind, tag, mode));
    let d = varint_bytes(owner.0 as nat);
    let e = varint_bytes(owner.1 as nat);
    let f = varint_bytes(mtime as nat);
    let g = varint_bytes(size);
    assert(a + b + c + d + e + f + g + rest =~= a + (b + (c + (d + (e + (f + (g + rest)))))));
}

/// The head that was written, with the number that follows it, is the head
/// that is read.
#[verifier::rlimit(50)]
proof fn lemma_parse_head_bytes(
    name: Seq<char>,
    kind: u32,
    compression: CompressionFormat,
    mode: u32,
    owner: (u32, u32),
    mtime: u64,
    size: u64,
    rest: Seq<u8>,
)
    requires
        encode_utf8(name).len() <= 255,
        kind <= 2,
        mode <= MODE_MASK,
    ensures
        parse_head(
            head_bytes(name, kind, compression.tag(), mode, owner, mtime) + varint_bytes(
                size as nat,
            ) + rest,
        ) == Ok::<(Head, Seq<u8>), ArchiveError>(
            (Head { name, kind, compression, mode, owner, mtime, size }, rest),
        ),
{
    let tag = compression.tag();
    let packed = packed_field(kind, tag, mode);
    let name_bytes = encode_utf8(name);
    let t1 = varint_bytes(owner.0 as nat) + (varint_bytes(owner.1 as nat) + (varint_bytes(
        mtime as nat,
    ) + (varint_bytes(size as nat) + rest)));
    let tn = name_bytes + (spec_u32_to_le_bytes(packed) + t1);
    lemma_head_shape(name, kind, tag, mode, owner, mtime, size as nat, rest);
    lemma_varint_front(name_bytes.len(), tn);
    lemma_parse_named_bytes(name, packed, t1);
    lemma_parse_fields_bytes(name, kind, compression, mode, owner, mtime, size, rest);
}

/// What follows the head and the raw size of a file, and then `rest`.
pub open spec fn file_rest(entry: EntryView, rest: Seq<u8>) -> Seq<u8> {
    let after_sizes = varint_bytes(entry->File_size_real as nat) + (varint_bytes(
        entry->File_offset as nat,
    ) + rest);
    if entry->File_compression != CompressionFormat::Uncompressed {
        varint_bytes(entry->File_size_compressed.unwrap() as nat) + after_sizes
    } else {
        after_sizes
    }
}

/// How the bytes of a file are grouped for reading.
proof fn lemma_file_shape(entry: EntryView, rest: Seq<u8>)
    requires
        entry is File,
        entry.well_formed(),
    ensures
        entry_bytes(entry) + rest == head_bytes(
            entry->File_name,
            KIND_FILE,
            entry->File_compression.tag(),
            entry->File_mode,
            entry->File_owner,
            entry->File_mtime,
        ) + varint_bytes(entry->File_size as nat) + file_rest(entry, rest),
{
    let head = head_bytes(
        entry->File_name,
        KIND_FILE,
        entry->File_compression.tag(),
        entry->File_mode,
        entry->File_owner,
        entry->File_mtime,
    );
    let size = varint_bytes(entry->File_size as nat);
    let actual = varint_bytes(entry->File_size_real as nat);
    let offset = varint_bytes(entry->File_offset as nat);
    if entry->File_compression != CompressionFormat::Uncompressed {
        let stored = varint_bytes(entry->File_size_compressed.unwrap() as nat);
        assert(head + (size + stored + actual + offset) + rest =~= head + size + (stored + (actual
            + (offset + rest))));
    } else {
        assert(head + (size + Seq::<u8>::empty() + actual + offset) + rest =~= head + size + (
        actual + (offset + rest)));
    }
}

/// Reading what was written for a well-formed file gives the file back and
/// leaves what follows.
#[verifier::rlimit(50)]
proof fn lemma_parse_file_bytes(entry: EntryView, rest: Seq<u8>)
    requires
        entry.well_formed(),
        entry is File,
    ensures
        parse_entry(entry_bytes(entry) + rest) == Ok::<(EntryView, Seq<u8>), ArchiveError>(
            (entry, rest),
        ),
{
    let compression = entry->File_compression;
    let t2 = varint_bytes(entry->File_offset as nat) + rest;
    let t1 = varint_bytes(entry->File_size_real as nat) + t2;
    let t0 = file_rest(entry, rest);
    lemma_file_shape(entry, rest);
    lemma_parse_head_bytes(
        entry->File_name,
        KIND_FILE,
        compression,
        entry->File_mode,
        entry->File_owner,
        entry->File_mtime,
        entry->File_size,
        t0,
    );
    if compression != CompressionFormat::Uncompressed {
        lemma_varint_front(entry->File_size_compressed.unwrap() as nat, t1);
    }
    lemma_varint_front(entry->File_size_real as nat, t2);
    lemma_varint_front(entry->File_offset as nat, rest);
}

/// How the bytes of a symbolic link are grouped for reading.
proof fn lemma_symlink_shape(entry: EntryView, rest: Seq<u8>)
    requires
        entry is Symlink,
    ensures
        entry_bytes(entry) + rest == head_bytes(
            entry->Symlink_name,
            KIND_SYMLINK,
            0,
            entry->Symlink_mode,
            entry->Symlink_owner,
            entry->Symlink_mtime,
        ) + varint_bytes(encode_utf8(entry->Symlink_target).len()) + (encode_utf8(
            entry->Symlink_target,
        ) + seq![
            if entry->Symlink_target_dir {
                1u8
            } else {
                0u8
            },
        ] + rest),
{
    let head = head_bytes(
        entry->Symlink_name,
        KIND_SYMLINK,
        0,
        entry->Symlink_mode,
        entry->Symlink_owner,
        entry->Symlink_mtime,
    );
    let length = varint_bytes(encode_utf8(entry->Symlink_target).len());
    let target = encode_utf8(entry->Symlink_target);
    let flag = seq![
        if entry->Symlink_target_dir {
            1u8
        } else {
            0u8
        },
    ];
    assert(head + length + target + flag + rest =~= head + length + (target + flag + rest));
}

/// Reading what was written for a well-formed symbolic link gives the link
/// back and leaves what follows.
#[verifier::rlimit(50)]
proof fn lemma_parse_symlink_bytes(entry: EntryView, rest: Seq<u8>)
    requires
        entry.well_formed(),
        entry is Symlink,
    ensures
        parse_entry(entry_bytes(entry) + rest) == Ok::<(EntryView, Seq<u8>), ArchiveError>(
            (entry, rest),
        ),
{
    let target = entry->Symlink_target;
    let target_bytes = encode_utf8(target);
    let flag = seq![
        if entry->Symlink_target_dir {
            1u8
        } else {
            0u8
        },
    ];
    let t0 = target_bytes + flag + rest;
    lemma_symlink_shape(entry, rest);
    lemma_parse_head_bytes(
        entry->Symlink_name,
        KIND_SYMLINK,
        CompressionFormat::Uncompressed,
        entry->Symlink_mode,
        entry->Symlink_owner,
        entry->Symlink_mtime,
        target_bytes.len() as u64,
        t0,
    );
    assert(t0.take(target_bytes.len() as int) == target_bytes) by {
        assert(t0.take(target_bytes.len() as int) =~= target_bytes);
    }
    assert(t0.skip(target_bytes.len() as int + 1) == rest) by {
        assert(t0.skip(target_bytes.len() as int + 1) =~= rest);
    }
    assert(t0[target_bytes.len() as int] == flag[0]);
    assert(valid_utf8(target_bytes) && decode_utf8(target_bytes) == target) by {
        vstd::utf8::encode_utf8_valid_utf8(target);
        vstd::utf8::encode_utf8_decode_utf8(target);
    }
}

/// How the bytes of a directory are grouped for reading.
proof fn lemma_directory_shape(entry: EntryView, rest: Seq<u8>)
    requires
        entry is Directory,
    ensures
        entry_bytes(entry) + rest == head_bytes(
            entry->Directory_name,
            KIND_DIRECTORY,
            0,
            entry->Directory_mode,
            entry->Directory_owner,
            entry->Directory_mtime,
        ) + varint_bytes(entry->Directory_entries.len()) + (entries_bytes(
            entry->Directory_entries,
        ) + rest),
{
    let head = head_bytes(
        entry->Directory_name,
        KIND_DIRECTORY,
        0,
        entry->Directory_mode,
        entry->Directory_owner,
        entry->Directory_mtime,
    );
    let count = varint_bytes(entry->Directory_entries.len());
    let children = entries_bytes(entry->Directory_entries);
    assert(head + count + children + rest =~= head + count + (children + rest));
}

/// Reading what was written for a well-formed entry gives the entry back and
/// leaves what follows.
#[verifier::rlimit(50)]
pub proof fn lemma_parse_entry_bytes(entry: EntryView, rest: Seq<u8>)
    requires
        entry.well_formed(),
    ensures
        parse_entry(entry_bytes(entry) + rest) == Ok::<(EntryView, Seq<u8>), ArchiveError>(
            (entry, rest),
        ),
    decreases entry,
{
    match entry {
        EntryView::File { .. } => {
            lemma_parse_file_bytes(entry, rest);
        },
        EntryView::Directory { name, mode, owner, mtime, entries } => {
            let s = entry_bytes(entry) + rest;
            let t0 = entries_bytes(entries) + rest;
            lemma_directory_shape(entry, rest);
            lemma_parse_head_bytes(
                name,
                KIND_DIRECTORY,
                CompressionFormat::Uncompressed,
                mode,
                owner,
                mtime,
                entries.len() as u64,
                t0,
            );
            lemma_head_consumes(s);
            lemma_parse_entries_bytes(entries, rest);
        },
        EntryView::Symlink { .. } => {
            lemma_parse_symlink_bytes(entry, rest);
        },
    }
}

/// Reading what was written for a list of well-formed entries gives the list
/// back and leaves what follows.
#[verifier::rlimit(50)]
pub proof fn lemma_parse_entries_bytes(entries: Seq<EntryView>, rest: Seq<u8>)
    requires
        all_well_formed(entries),
    ensures
        parse_entries(entries_bytes(entries) + rest, entries.len()) == Ok::<
            (Seq<EntryView>, Seq<u8>),
            ArchiveError,
        >((entries, rest)),
    decreases entries,
{
    if entries.len() == 0 {
        assert(entries_bytes(entries) + rest =~= rest);
        assert(entries =~= Seq::<EntryView>::empty());
    } else {
        let first = entries[0];
        let others = entries.skip(1);
        let t0 = entries_bytes(others) + rest;
        let s = entries_bytes(entries) + rest;
        assert(s =~= entry_bytes(first) + t0);
        assert(first.well_formed());
        lemma_parse_entry_bytes(first, t0);
        lemma_entry_consumes(s);
        assert forall|i: int| 0 <= i < others.len() implies (#[trigger] others[i]).well_formed() by {
            assert(others[i] == entries[i + 1]);
        }
        lemma_parse_entries_bytes(others, rest);
        assert(seq![first] + others =~= entries);
    }
}

/// A head that was read has a name of at most 255 bytes and a mode of at
/// most 26 bits.
proof fn lemma_parsed_head_fits(s: Seq<u8>)
    requires
        parse_head(s) is Ok,
    ensures
        encode_utf8(parse_head(s).unwrap().0.name).len() <= 255,
        parse_head(s).unwrap().0.mode <= MODE_MASK,
        parse_head(s).unwrap().0.kind <= 2,
{
    let name_len = varint_u32(s);
    let s1 = after_varint(s);
    if valid_utf8(s1.take(name_len as int)) {
        vstd::utf8::decode_utf8_encode_utf8(s1.take(name_len as int));
    }
    let packed = spec_u32_from_le_bytes(s1.skip(name_len as int).take(4));
    assert(packed & 0x03FF_FFFFu32 <= 0x03FF_FFFFu32) by (bit_vector);
    assert(packed >> 30 <= 3) by (bit_vector);
}

/// Every entry that was read is well formed.
pub proof fn lemma_parsed_entry_well_formed(s: Seq<u8>)
    requires
        parse_entry(s) is Ok,
    ensures
        parse_entry(s).unwrap().0.well_formed(),
    decreases s.len(), 0nat,
{
    lemma_parsed_head_fits(s);
    lemma_head_consumes(s);
    let (head, rest) = parse_head(s).unwrap();
    if head.kind == KIND_FILE {
    } else if head.kind == KIND_DIRECTORY {
        lemma_parsed_entries_well_formed(rest, head.size as nat);
        lemma_entries_consume(rest, head.size as nat);
    } else {
        vstd::utf8::decode_utf8_encode_utf8(rest.take(head.size as int));
    }
}

/// Every entry of a list that was read is well formed.
pub proof fn lemma_parsed_entries_well_formed(s: Seq<u8>, count: nat)
    requires
        parse_entries(s, count) is Ok,
    ensures
        all_well_formed(parse_entries(s, count).unwrap().0),
    decreases s.len(), count + 1,
{
    if count > 0 {
        lemma_parsed_entry_well_formed(s);
        lemma_entry_consumes(s);
        let (entry, rest) = parse_entry(s).unwrap();
        lemma_parsed_entries_well_formed(rest, (count - 1) as nat);
        let (others, _) = parse_entries(rest, (count - 1) as nat).unwrap();
        let all = seq![entry] + others;
        assert forall|i: int| 0 <= i < all.len() implies (#[trigger] all[i]).well_formed() by {
            if i > 0 {
                assert(all[i] == others[i - 1]);
            }
        }
    }
}

} // verus!
