//! The archive container: a signature, payload regions, and a compressed
//! metadata tree at the end.

use crate::compression::{compress, decompress, deflate_decoded, deflate_encoded};
use crate::stream::ByteReader;
use codec::{
    decode_entries, entries_bytes, lemma_entries_consume, write_entries,
    lemma_parse_entries_bytes, lemma_parsed_entries_well_formed, parse_entries,
};
use entries::{
    all_well_formed, entries_view, find_entry, found, leads_to_directory, names_view, push_under,
    pushed_under, Entry, EntryMode, EntryView, FileEntry,
};
use source::{
    sources_view, store_entries, store_file, stored, stored_file, stored_list, SourceDirectory,
    SourceEntry,
};
use vstd::bytes::{
    spec_u64_from_le_bytes, spec_u64_to_le_bytes, u64_from_le_bytes, u64_to_le_bytes,
};
use vstd::prelude::*;
use vstd::slice::slice_subrange;

pub mod codec;
pub mod entries;
pub mod source;

verus! {

/// The seven bytes that every archive begins with: `DDUPBAK`.
pub const FILE_SIGNATURE: [u8; 7] = [0x44, 0x44, 0x55, 0x50, 0x42, 0x41, 0x4B];

/// The version of the format that this library writes.
pub const FILE_VERSION: u8 = 1;

/// The length of what precedes the payloads: signature and version.
pub const HEADER_LENGTH: usize = 8;

/// The length of what follows the metadata: the number of root entries and
/// the offset of the metadata, eight bytes each.
pub const TRAILER_LENGTH: usize = 16;

/// How a payload is stored. One byte tags the format in chunk blobs and in
/// archive metadata.
#[derive(Debug, Clone, Copy, PartialEq, Eq, Hash, Structural)]
pub enum CompressionFormat {
    Uncompressed,
    Gzip,
    Deflate,
    Brotli,
}

/// Why an archive could not be read or written.
#[derive(Debug, Clone, Copy, PartialEq, Eq, Structural)]
pub enum ArchiveError {
    /// The data ends before a field is complete.
    UnexpectedEof,
    /// The data does not begin with the signature.
    InvalidSignature,
    /// A field holds a value that the format has no meaning for.
    InvalidData,
    /// An entry does not fit the format: a name of more than 255 bytes, a
    /// mode of more than 26 bits, or a compressed size that does not go with
    /// the compression.
    InvalidEntry,
    /// The encoder of a compression format reported an error.
    CompressionFailed,
    /// The archive would grow beyond what an offset of 64 bits can address.
    TooLarge,
    /// An entry was to be put under something that is not a directory.
    NotADirectory,
}

impl CompressionFormat {
    /// The tag that stands for the format.
    pub open spec fn tag(self) -> u8 {
        match self {
            CompressionFormat::Uncompressed => 0,
            CompressionFormat::Gzip => 1,
            CompressionFormat::Deflate => 2,
            CompressionFormat::Brotli => 3,
        }
    }

    pub fn encode(&self) -> (value: u8)
        ensures
            value == self.tag(),
    {
        match self {
            CompressionFormat::Uncompressed => 0,
            CompressionFormat::Gzip => 1,
            CompressionFormat::Deflate => 2,
            CompressionFormat::Brotli => 3,
        }
    }

    /// The format that a tag stands for; tags above three stand for none.
    pub open spec fn of_tag(value: u8) -> Option<Self> {
        if value == 0 {
            Some(CompressionFormat::Uncompressed)
        } else if value == 1 {
            Some(CompressionFormat::Gzip)
        } else if value == 2 {
            Some(CompressionFormat::Deflate)
        } else if value == 3 {
            Some(CompressionFormat::Brotli)
        } else {
            None
        }
    }

    /// The format that `value` stands for. Only the four tags name a format.
    pub fn decode(value: u8) -> (format: Self)
        requires
            value <= 3,
        ensures
            format.tag() == value,
            Self::of_tag(value) == Some(format),
    {
        match value {
            0 => CompressionFormat::Uncompressed,
            1 => CompressionFormat::Gzip,
            2 => CompressionFormat::Deflate,
            _ => CompressionFormat::Brotli,
        }
    }
}

/// What an archive is: the version, the bytes up to the metadata (signature,
/// version and payloads), and the root entries.
pub struct ArchiveView {
    pub version: u8,
    pub payload: Seq<u8>,
    pub entries: Seq<EntryView>,
}

impl ArchiveView {
    /// Whether this is an archive that can be written and read back: it
    /// begins with signature and version, and its entries fit the format.
    pub open spec fn well_formed(self) -> bool {
        &&& HEADER_LENGTH <= self.payload.len() <= u64::MAX
        &&& self.payload.take(7) == FILE_SIGNATURE@
        &&& self.payload[7] == self.version
        &&& self.entries.len() <= u64::MAX
        &&& all_well_formed(self.entries)
    }

    /// The offset at which the metadata begins.
    pub open spec fn entries_offset(self) -> nat {
        self.payload.len()
    }

    /// The archive as a file, with `metadata` for the compressed metadata
    /// tree: the payload, the metadata, the number of root entries and the
    /// offset of the metadata, both in little-endian order.
    pub open spec fn file_bytes(self, metadata: Seq<u8>) -> Seq<u8> {
        self.payload + metadata + spec_u64_to_le_bytes(self.entries.len() as u64)
            + spec_u64_to_le_bytes(self.payload.len() as u64)
    }
}

/// The number of root entries and the offset of the metadata, as the frame
/// of a file gives them.
///
/// A file of fewer than 16 bytes ends too early; one that does not begin with
/// the signature is refused; the offset must lie between the header and the
/// last 16 bytes.
pub open spec fn frame(bytes: Seq<u8>) -> Result<(u64, u64), ArchiveError> {
    if bytes.len() < HEADER_LENGTH {
        Err(ArchiveError::UnexpectedEof)
    } else if bytes.take(7) != FILE_SIGNATURE@ {
        Err(ArchiveError::InvalidSignature)
    } else if bytes.len() < TRAILER_LENGTH {
        Err(ArchiveError::UnexpectedEof)
    } else {
        let count = spec_u64_from_le_bytes(bytes.subrange(bytes.len() - 16, bytes.len() - 8));
        let offset = spec_u64_from_le_bytes(bytes.subrange(bytes.len() - 8, bytes.len() as int));
        if offset < HEADER_LENGTH || offset > bytes.len() - 16 {
            Err(ArchiveError::InvalidData)
        } else {
            Ok((count, offset))
        }
    }
}

/// The compressed metadata of a file whose frame is valid.
pub open spec fn metadata_region(bytes: Seq<u8>) -> Seq<u8> {
    bytes.subrange(frame(bytes).unwrap().1 as int, bytes.len() - 16)
}

/// The archive that a file holds, where `metadata` is what its metadata
/// region decompresses to (`None` where it does not decompress).
///
/// A file without root entries needs no metadata. Bytes that follow the last
/// entry in the metadata are ignored.
pub open spec fn opened(bytes: Seq<u8>, metadata: Option<Seq<u8>>) -> Result<
    ArchiveView,
    ArchiveError,
> {
    match frame(bytes) {
        Err(e) => Err(e),
        Ok((count, offset)) => if count == 0 {
            Ok(
                ArchiveView {
                    version: bytes[7],
                    payload: bytes.take(offset as int),
                    entries: Seq::empty(),
                },
            )
        } else {
            match metadata {
                None => Err(ArchiveError::InvalidData),
                Some(tree) => match parse_entries(tree, count as nat) {
                    Err(e) => Err(e),
                    Ok((entries, _)) => Ok(
                        ArchiveView {
                            version: bytes[7],
                            payload: bytes.take(offset as int),
                            entries,
                        },
                    ),
                },
            }
        },
    }
}

/// A file that was written from a well-formed archive has the frame of that
/// archive, holds the metadata where the frame says, and opens as that
/// archive once the metadata decompresses to the bytes of its entries.
#[verifier::rlimit(50)]
pub proof fn lemma_open_file_bytes(archive: ArchiveView, metadata: Seq<u8>)
    requires
        archive.well_formed(),
    ensures
        frame(archive.file_bytes(metadata)) == Ok::<(u64, u64), ArchiveError>(
            (archive.entries.len() as u64, archive.payload.len() as u64),
        ),
        metadata_region(archive.file_bytes(metadata)) == metadata,
        opened(archive.file_bytes(metadata), Some(entries_bytes(archive.entries))) == Ok::<
            ArchiveView,
            ArchiveError,
        >(archive),
{
    let count = archive.entries.len() as u64;
    let offset = archive.payload.len() as u64;
    let bytes = archive.file_bytes(metadata);
    vstd::bytes::lemma_auto_spec_u64_to_from_le_bytes();
    let n = bytes.len() as int;
    assert(n == archive.payload.len() + metadata.len() + 16);
    assert(bytes.take(7) =~= archive.payload.take(7));
    assert(bytes.subrange(n - 16, n - 8) =~= spec_u64_to_le_bytes(count));
    assert(bytes.subrange(n - 8, n) =~= spec_u64_to_le_bytes(offset));
    assert(bytes.subrange(offset as int, n - 16) =~= metadata);
    assert(bytes.take(offset as int) =~= archive.payload);
    assert(bytes[7] == archive.payload[7]);
    if count == 0 {
        assert(archive.entries =~= Seq::<EntryView>::empty());
    } else {
        let tree = entries_bytes(archive.entries);
        assert(tree + Seq::<u8>::empty() =~= tree);
        lemma_parse_entries_bytes(archive.entries, Seq::<u8>::empty());
    }
}

/// Reads the frame of a file: the number of root entries and the offset of
/// the metadata.
pub fn read_frame(bytes: &[u8]) -> (result: Result<(u64, u64), ArchiveError>)
    ensures
        result == frame(bytes@),
{
    let len = bytes.len();
    if len < HEADER_LENGTH {
        return Err(ArchiveError::UnexpectedEof);
    }
    let mut i: usize = 0;
    while i < 7
        invariant
            i <= 7,
            bytes@.len() >= 8,
            bytes@.take(i as int) == FILE_SIGNATURE@.take(i as int),
        decreases 7 - i,
    {
        if bytes[i] != FILE_SIGNATURE[i] {
            assert(bytes@.take(7)[i as int] != FILE_SIGNATURE@[i as int]);
            return Err(ArchiveError::InvalidSignature);
        }
        i = i + 1;
        assert(bytes@.take(i as int) =~= bytes@.take(i - 1).push(bytes@[i - 1]));
        assert(FILE_SIGNATURE@.take(i as int) =~= FILE_SIGNATURE@.take(i - 1).push(
            FILE_SIGNATURE@[i - 1],
        ));
    }
    assert(FILE_SIGNATURE@.take(7) =~= FILE_SIGNATURE@);
    if len < TRAILER_LENGTH {
        return Err(ArchiveError::UnexpectedEof);
    }
    let count = u64_from_le_bytes(slice_subrange(bytes, len - 16, len - 8));
    let offset = u64_from_le_bytes(slice_subrange(bytes, len - 8, len));
    if offset < HEADER_LENGTH as u64 || offset > (len - 16) as u64 {
        return Err(ArchiveError::InvalidData);
    }
    Ok((count, offset))
}

/// The view of bytes that may be missing.
pub open spec fn optional_bytes(bytes: Option<Vec<u8>>) -> Option<Seq<u8>> {
    match bytes {
        Some(bytes) => Some(bytes@),
        None => None,
    }
}

/// The bytes of `data` from `offset` on, `length` of them or as many as
/// there are.
pub open spec fn payload_region(data: Seq<u8>, offset: u64, length: u64) -> Seq<u8> {
    data.subrange(
        if offset <= data.len() {
            offset as int
        } else {
            data.len() as int
        },
        if offset + length <= data.len() {
            offset + length
        } else {
            data.len() as int
        },
    )
}

/// What reading a file entry gives, where `data` holds the payloads: the
/// stored bytes as they are, or what they decompress to, and never more than
/// the raw size of the entry says.
///
/// A compressed entry without a compressed size cannot be read; stored bytes
/// that do not decompress are invalid.
pub open spec fn entry_content(
    data: Seq<u8>,
    compression: CompressionFormat,
    size_compressed: Option<u64>,
    size: u64,
    offset: u64,
) -> Result<Seq<u8>, ArchiveError> {
    if size == 0 {
        Ok(Seq::empty())
    } else if compression == CompressionFormat::Uncompressed {
        Ok(payload_region(data, offset, size))
    } else {
        match size_compressed {
            None => Err(ArchiveError::InvalidEntry),
            Some(stored) => match crate::compression::decompressed(
                compression,
                payload_region(data, offset, stored),
            ) {
                None => Err(ArchiveError::InvalidData),
                Some(content) => Ok(
                    if content.len() > size {
                        content.take(size as int)
                    } else {
                        content
                    },
                ),
            },
        }
    }
}

/// What putting `entry` under the directory that `parent` leads to gives.
///
/// An entry that does not fit the format is refused. Where `parent` leads
/// nowhere the entry becomes a root entry; where it leads to something that
/// is not a directory the entry is refused.
pub open spec fn inserted(entries: Seq<EntryView>, parent: Seq<Seq<char>>, entry: EntryView)
    -> Result<Seq<EntryView>, ArchiveError> {
    if !entry.well_formed() {
        Err(ArchiveError::InvalidEntry)
    } else {
        match found(entries, parent) {
            None => Ok(entries.push(entry)),
            Some(target) => if target is Directory {
                Ok(pushed_under(entries, parent, entry))
            } else {
                Err(ArchiveError::NotADirectory)
            },
        }
    }
}

/// How many bytes the payload of a file entry takes in the archive: its raw
/// size where it is not compressed, else its compressed size.
pub open spec fn stored_length(
    compression: CompressionFormat,
    size_compressed: Option<u64>,
    size: u64,
) -> u64 {
    if compression == CompressionFormat::Uncompressed {
        size
    } else {
        match size_compressed {
            Some(stored) => stored,
            None => 0,
        }
    }
}

/// A payload that lies within `data` reads the same when more payloads
/// follow.
pub proof fn lemma_entry_content_kept(
    data: Seq<u8>,
    more: Seq<u8>,
    compression: CompressionFormat,
    size_compressed: Option<u64>,
    size: u64,
    offset: u64,
)
    requires
        offset + stored_length(compression, size_compressed, size) <= data.len(),
    ensures
        entry_content(data + more, compression, size_compressed, size, offset) == entry_content(
            data,
            compression,
            size_compressed,
            size,
            offset,
        ),
{
    let length = stored_length(compression, size_compressed, size);
    assert(payload_region(data + more, offset, length) =~= payload_region(data, offset, length));
}

/// Reads the content of a file entry out of `data`, which holds the
/// payloads from the beginning of the archive on.
pub fn read_content(
    data: &[u8],
    compression: CompressionFormat,
    size_compressed: Option<u64>,
    size: u64,
    offset: u64,
) -> (result: Result<Vec<u8>, ArchiveError>)
    ensures
        match entry_content(data@, compression, size_compressed, size, offset) {
            Ok(content) => result is Ok && result.unwrap()@ == content,
            Err(e) => result is Err && result->Err_0 == e,
        },
{
    if size == 0 {
        return Ok(Vec::new());
    }
    let length = match compression {
        CompressionFormat::Uncompressed => size,
        _ => match size_compressed {
            Some(stored) => stored,
            None => {
                return Err(ArchiveError::InvalidEntry);
            },
        },
    };
    let len = data.len();
    let start: usize = if offset <= len as u64 {
        offset as usize
    } else {
        len
    };
    let end: usize = if length <= (len - start) as u64 {
        start + length as usize
    } else {
        len
    };
    let region = slice_subrange(data, start, end);
    assert(region@ =~= payload_region(data@, offset, length));
    match compression {
        CompressionFormat::Uncompressed => Ok(crate::compression::copy_bytes(region)),
        _ => match decompress(compression, region) {
            None => Err(ArchiveError::InvalidData),
            Some(mut content) => {
                let ghost whole = content@;
                if content.len() as u64 > size {
                    content.truncate(size as usize);
                    assert(content@ =~= whole.take(size as int));
                }
                Ok(content)
            },
        },
    }
}

/// An archive in memory.
pub struct Archive {
    version: u8,
    data: Vec<u8>,
    entries: Vec<Entry>,
}

impl View for Archive {
    type V = ArchiveView;

    closed spec fn view(&self) -> ArchiveView {
        ArchiveView {
            version: self.version,
            payload: self.data@,
            entries: entries_view(self.entries@),
        }
    }
}

impl Archive {
    #[verifier::type_invariant]
    spec fn inv(&self) -> bool {
        self@.well_formed()
    }

    /// Creates a new archive: signature and version, no payload, no entries.
    pub fn new() -> (archive: Self)
        ensures
            archive@.well_formed(),
            archive@.version == FILE_VERSION,
            archive@.payload == FILE_SIGNATURE@.push(FILE_VERSION),
            archive@.entries.len() == 0,
    {
        let mut data: Vec<u8> = Vec::new();
        let mut i: usize = 0;
        while i < 7
            invariant
                i <= 7,
                data@ == FILE_SIGNATURE@.take(i as int),
            decreases 7 - i,
        {
            data.push(FILE_SIGNATURE[i]);
            i = i + 1;
            assert(data@ =~= FILE_SIGNATURE@.take(i as int));
        }
        assert(FILE_SIGNATURE@.take(7) =~= FILE_SIGNATURE@);
        data.push(FILE_VERSION);
        assert(data@.take(7) =~= FILE_SIGNATURE@);
        Archive { version: FILE_VERSION, data, entries: Vec::new() }
    }

    /// Opens the archive that a file holds.
    ///
    /// The metadata region of the file is handed to the DEFLATE decoder;
    /// what comes of it decides as `open_with` says.
    pub fn open(bytes: &[u8]) -> (result: Result<Self, ArchiveError>)
        ensures
            match opened(bytes@, deflate_decoded(metadata_region(bytes@))) {
                Ok(view) => result is Ok && result.unwrap()@ == view && view.well_formed(),
                Err(e) => result is Err && result->Err_0 == e,
            },
    {
        let (count, offset) = match read_frame(bytes) {
            Ok(pair) => pair,
            Err(e) => {
                return Err(e);
            },
        };
        let metadata = if count == 0 {
            None
        } else {
            let region = slice_subrange(bytes, offset as usize, bytes.len() - 16);
            decompress(CompressionFormat::Deflate, region)
        };
        Self::open_with(bytes, metadata)
    }

    /// Opens the archive that a file holds, given what its metadata region
    /// decompresses to (`None` where it does not decompress, or where the
    /// file has no root entries and the region was not looked at).
    #[verifier::rlimit(50)]
    pub fn open_with(bytes: &[u8], metadata: Option<Vec<u8>>) -> (result: Result<
        Self,
        ArchiveError,
    >)
        ensures
            match opened(bytes@, optional_bytes(metadata)) {
                Ok(view) => result is Ok && result.unwrap()@ == view && view.well_formed(),
                Err(e) => result is Err && result->Err_0 == e,
            },
    {
        let (count, offset) = match read_frame(bytes) {
            Ok(pair) => pair,
            Err(e) => {
                return Err(e);
            },
        };
        let version = bytes[7];
        let entries = if count == 0 {
            Vec::new()
        } else {
            let tree = match metadata {
                Some(tree) => tree,
                None => {
                    return Err(ArchiveError::InvalidData);
                },
            };
            let ghost tree_bytes = tree@;
            let mut stream = ByteReader::new(tree);
            match decode_entries(&mut stream, count) {
                Ok(entries) => {
                    proof {
                        lemma_parsed_entries_well_formed(tree_bytes, count as nat);
                        lemma_entries_consume(tree_bytes, count as nat);
                    }
                    entries
                },
                Err(e) => {
                    return Err(e);
                },
            }
        };
        let data = crate::compression::copy_bytes(slice_subrange(bytes, 0, offset as usize));
        assert(data@ =~= bytes@.take(offset as int));
        assert(data@.take(7) =~= bytes@.take(7));
        if count == 0 {
            assert(entries_view(entries@) =~= Seq::<EntryView>::empty());
        }
        Ok(Archive { version, data, entries })
    }

    /// The archive as a file: the payload, the metadata tree under DEFLATE,
    /// the number of root entries and the offset of the metadata.
    ///
    /// Opening what comes out gives this archive back.
    #[verifier::rlimit(50)]
    pub fn to_bytes(&self) -> (result: Result<Vec<u8>, ArchiveError>)
        ensures
            self@.well_formed(),
            match deflate_encoded(entries_bytes(self@.entries)) {
                Some(metadata) => result is Ok && result.unwrap()@ == self@.file_bytes(metadata)
                    && opened(
                    result.unwrap()@,
                    deflate_decoded(metadata_region(result.unwrap()@)),
                ) == Ok::<ArchiveView, ArchiveError>(self@),
                None => result is Err && result->Err_0 == ArchiveError::CompressionFailed,
            },
    {
        proof {
            use_type_invariant(self);
        }
        let mut tree: Vec<u8> = Vec::new();
        write_entries(&mut tree, self.entries.as_slice());
        assert(tree@ =~= entries_bytes(self@.entries));
        let metadata = match compress(CompressionFormat::Deflate, tree.as_slice()) {
            Some(metadata) => metadata,
            None => {
                return Err(ArchiveError::CompressionFailed);
            },
        };
        let mut out = crate::compression::copy_bytes(self.data.as_slice());
        let count = u64_to_le_bytes(self.entries.len() as u64);
        let offset = u64_to_le_bytes(self.data.len() as u64);
        let ghost m = metadata@;
        let mut metadata = metadata;
        out.append(&mut metadata);
        let mut count = count;
        out.append(&mut count);
        let mut offset = offset;
        out.append(&mut offset);
        proof {
            assert(out@ =~= self@.file_bytes(m));
            lemma_open_file_bytes(self@, m);
        }
        Ok(out)
    }

    /// Takes the parts out of the archive and leaves a new archive behind.
    fn take_parts(&mut self) -> (parts: (u8, Vec<u8>, Vec<Entry>))
        ensures
            parts.0 == old(self).version,
            parts.1 == old(self).data,
            parts.2 == old(self).entries,
            old(self)@.well_formed(),
    {
        proof {
            use_type_invariant(&*self);
        }
        let mut taken = Archive::new();
        core::mem::swap(self, &mut taken);
        let Archive { version, data, entries } = taken;
        (version, data, entries)
    }

    /// Stores `sources` in the archive: their payloads behind the payloads
    /// that are there, their entries behind the root entries that are there.
    ///
    /// Either all of them are stored or the archive is left as it was.
    #[verifier::rlimit(50)]
    pub fn add_entries(&mut self, sources: &[SourceEntry]) -> (result: Result<(), ArchiveError>)
        ensures
            final(self)@.well_formed(),
            match stored_list(sources_view(sources@), old(self)@.payload.len()) {
                Ok((entries, bytes)) => result is Ok && final(self)@ == (ArchiveView {
                    version: old(self)@.version,
                    payload: old(self)@.payload + bytes,
                    entries: old(self)@.entries + entries,
                }),
                Err(e) => result is Err && result->Err_0 == e && final(self)@ == old(self)@,
            },
    {
        proof {
            use_type_invariant(&*self);
        }
        let mut buffer: Vec<u8> = Vec::new();
        let base = self.data.len() as u64;
        let mut entries = match store_entries(&mut buffer, base, sources) {
            Ok(entries) => entries,
            Err(e) => {
                return Err(e);
            },
        };
        let ghost added = entries_view(entries@);
        let ghost bytes = buffer@;
        let (version, mut data, mut roots) = self.take_parts();
        let ghost before = roots@;
        data.append(&mut buffer);
        roots.append(&mut entries);
        proof {
            assert(data@.take(7) =~= old(self).data@.take(7));
            assert(entries_view(roots@) =~= entries_view(before) + added);
            assert(Seq::<u8>::empty() + bytes =~= bytes);
            assert(roots.len() <= usize::MAX);
            assert forall|j: int| 0 <= j < roots@.len() implies (#[trigger] entries_view(
                roots@,
            )[j]).well_formed() by {
                if j < before.len() {
                    assert(entries_view(roots@)[j] == entries_view(before)[j]);
                } else {
                    assert(entries_view(roots@)[j] == added[j - before.len()]);
                }
            }
        }
        assert(data.len() <= usize::MAX);
        assert(HEADER_LENGTH <= data@.len() <= u64::MAX);
        assert(data@.take(7) == FILE_SIGNATURE@);
        assert(data@[7] == version);
        assert(roots@.len() <= u64::MAX);
        assert(all_well_formed(entries_view(roots@)));
        *self = Archive { version, data, entries: roots };
        Ok(())
    }

    /// Stores what `directory` holds, but not the directory itself, as
    /// `add_entries` does.
    pub fn add_directory(&mut self, directory: &SourceDirectory) -> (result: Result<
        (),
        ArchiveError,
    >)
        ensures
            final(self)@.well_formed(),
            match stored_list(sources_view(directory.entries@), old(self)@.payload.len()) {
                Ok((entries, bytes)) => result is Ok && final(self)@ == (ArchiveView {
                    version: old(self)@.version,
                    payload: old(self)@.payload + bytes,
                    entries: old(self)@.entries + entries,
                }),
                Err(e) => result is Err && result->Err_0 == e && final(self)@ == old(self)@,
            },
    {
        self.add_entries(directory.entries.as_slice())
    }

    /// Stores `source`, its children included, as the last root entry.
    ///
    /// Either all of it is stored or the archive is left as it was.
    pub fn encode_entry(&mut self, source: &SourceEntry) -> (result: Result<(), ArchiveError>)
        ensures
            final(self)@.well_formed(),
            match stored(source@, old(self)@.payload.len()) {
                Ok((entry, bytes)) => result is Ok && final(self)@ == (ArchiveView {
                    version: old(self)@.version,
                    payload: old(self)@.payload + bytes,
                    entries: old(self)@.entries.push(entry),
                }),
                Err(e) => result is Err && result->Err_0 == e && final(self)@ == old(self)@,
            },
    {
        proof {
            use_type_invariant(&*self);
        }
        let mut buffer: Vec<u8> = Vec::new();
        let base = self.data.len() as u64;
        let entry = match source::store_entry(&mut buffer, base, source) {
            Ok(entry) => entry,
            Err(e) => {
                return Err(e);
            },
        };
        let ghost bytes = buffer@;
        let (version, mut data, mut roots) = self.take_parts();
        let ghost before = roots@;
        data.append(&mut buffer);
        roots.push(entry);
        proof {
            assert(data@.take(7) =~= old(self).data@.take(7));
            assert(entries_view(roots@) =~= entries_view(before).push(entry@));
            assert(Seq::<u8>::empty() + bytes =~= bytes);
            assert(roots.len() <= usize::MAX);
            assert forall|j: int| 0 <= j < roots@.len() implies (#[trigger] entries_view(
                roots@,
            )[j]).well_formed() by {
                if j < before.len() {
                    assert(entries_view(roots@)[j] == entries_view(before)[j]);
                }
            }
        }
        assert(data.len() <= usize::MAX);
        assert(HEADER_LENGTH <= data@.len() <= u64::MAX);
        assert(data@.take(7) == FILE_SIGNATURE@);
        assert(data@[7] == version);
        assert(roots@.len() <= u64::MAX);
        assert(all_well_formed(entries_view(roots@)));
        *self = Archive { version, data, entries: roots };
        Ok(())
    }

    /// Stores `content` as a payload under `compression` and gives the file
    /// entry for it; the entry is not put into the tree.
    ///
    /// The entry records where the payload begins, how long it is as stored
    /// where it is compressed, and `raw_size` (or, without one, the length of
    /// `content`) as raw and as real size. On failure the archive is left as
    /// it was.
    pub fn write_file_entry(
        &mut self,
        content: &[u8],
        raw_size: Option<u64>,
        name: String,
        mode: EntryMode,
        mtime: u64,
        owner: (u32, u32),
        compression: CompressionFormat,
    ) -> (result: Result<Box<FileEntry>, ArchiveError>)
        ensures
            final(self)@.well_formed(),
            final(self)@.version == old(self)@.version,
            final(self)@.entries == old(self)@.entries,
            match stored_file(
                name@,
                mode.0,
                owner,
                mtime,
                content@,
                compression,
                raw_size,
                old(self)@.payload.len(),
            ) {
                Ok((entry, bytes)) => result is Ok && final(self)@.payload == old(self)@.payload
                    + bytes && crate::compression::decompressed(compression, bytes) == Some(
                    content@,
                ) && Entry::File(result.unwrap())@ == (EntryView::File {
                    name: name@,
                    mode: mode.0,
                    owner,
                    mtime,
                    compression,
                    size_compressed: entry->File_size_compressed,
                    size_real: entry->File_size_real,
                    size: entry->File_size_real,
                    offset: entry->File_offset,
                }) && Entry::File(result.unwrap())@.well_formed(),
                Err(e) => result is Err && result->Err_0 == e && final(self)@ == old(self)@,
            },
    {
        proof {
            use_type_invariant(&*self);
        }
        let mut buffer: Vec<u8> = Vec::new();
        let base = self.data.len() as u64;
        let mut entry = match store_file(
            &mut buffer,
            base,
            name,
            mode,
            owner,
            mtime,
            content,
            compression,
            raw_size,
        ) {
            Ok(entry) => entry,
            Err(e) => {
                return Err(e);
            },
        };
        let ghost bytes = buffer@;
        let (version, mut data, roots) = self.take_parts();
        data.append(&mut buffer);
        assert(data@.take(7) =~= old(self).data@.take(7));
        assert(Seq::<u8>::empty() + bytes =~= bytes);
        *self = Archive { version, data, entries: roots };
        entry.size = entry.size_real;
        Ok(entry)
    }

    /// Finds an entry in the archive by the components of its path.
    /// Returns `None` if the entry is not found.
    /// Example: `["world", "user", "level.dat"]` names the entry
    /// `world/user/level.dat`.
    pub fn find_archive_entry(&self, entry_name: &[String]) -> (result: Option<&Entry>)
        ensures
            self@.well_formed(),
            match found(self@.entries, names_view(entry_name@)) {
                Some(entry) => result is Some && result.unwrap()@ == entry,
                None => result is None,
            },
    {
        proof {
            use_type_invariant(self);
        }
        find_entry(self.entries.as_slice(), entry_name)
    }

    /// Puts `entry` into the tree: as the last child of the directory that
    /// `parent` leads to, or as the last root entry where `parent` leads
    /// nowhere.
    ///
    /// On failure the archive is left as it was.
    #[verifier::rlimit(50)]
    pub fn insert_entry(&mut self, parent: &[String], entry: Entry) -> (result: Result<
        (),
        ArchiveError,
    >)
        ensures
            final(self)@.well_formed(),
            final(self)@.version == old(self)@.version,
            final(self)@.payload == old(self)@.payload,
            match inserted(old(self)@.entries, names_view(parent@), entry@) {
                Ok(entries) => result is Ok && final(self)@.entries == entries,
                Err(e) => result is Err && result->Err_0 == e && final(self)@ == old(self)@,
            },
    {
        proof {
            use_type_invariant(&*self);
        }
        if !entry.is_well_formed() {
            return Err(ArchiveError::InvalidEntry);
        }
        let ghost names = names_view(parent@);
        let ghost before = entries_view(self.entries@);
        let under = match find_entry(self.entries.as_slice(), parent) {
            None => false,
            Some(target) => match target {
                Entry::Directory(_) => true,
                _ => {
                    return Err(ArchiveError::NotADirectory);
                },
            },
        };
        proof {
            assert(names.skip(0) =~= names);
        }
        let (version, data, mut roots) = self.take_parts();
        if under {
            push_under(&mut roots, parent, 0, entry);
        } else {
            proof {
                assert(leads_to_directory(before, names.skip(parent@.len() as int)));
                assert(pushed_under(before, names.skip(parent@.len() as int), entry@)
                    == before.push(entry@));
            }
            push_under(&mut roots, parent, parent.len(), entry);
        }
        assert(roots.len() <= usize::MAX);
        assert(data.len() <= usize::MAX);
        assert(HEADER_LENGTH <= data@.len() <= u64::MAX);
        assert(data@.take(7) == FILE_SIGNATURE@);
        assert(data@[7] == version);
        assert(roots@.len() <= u64::MAX);
        assert(all_well_formed(entries_view(roots@)));
        *self = Archive { version, data, entries: roots };
        Ok(())
    }

    /// Reads the content of a file entry out of the payloads: the stored
    /// bytes, decompressed where they are compressed, and never more than the
    /// raw size of the entry says.
    pub fn read_entry(&self, entry: &FileEntry) -> (result: Result<Vec<u8>, ArchiveError>)
        ensures
            match entry_content(
                self@.payload,
                entry.compression,
                entry.size_compressed,
                entry.size,
                entry.offset,
            ) {
                Ok(content) => result is Ok && result.unwrap()@ == content,
                Err(e) => result is Err && result->Err_0 == e,
            },
    {
        read_content(
            self.data.as_slice(),
            entry.compression,
            entry.size_compressed,
            entry.size,
            entry.offset,
        )
    }

    /// The version of the format that the archive was written in.
    pub fn version(&self) -> (version: u8)
        ensures
            version == self@.version,
    {
        self.version
    }

    /// The offset at which the metadata begins when the archive is written.
    pub fn entries_offset(&self) -> (offset: u64)
        ensures
            offset == self@.entries_offset(),
            self@.well_formed(),
    {
        proof {
            use_type_invariant(self);
        }
        self.data.len() as u64
    }

    /// Returns the entries in the archive.
    pub fn entries(&self) -> (entries: &[Entry])
        ensures
            entries_view(entries@) == self@.entries,
            self@.well_formed(),
    {
        proof {
            use_type_invariant(self);
        }
        self.entries.as_slice()
    }

    /// Consumes the archive and returns the entries.
    pub fn into_entries(self) -> (entries: Vec<Entry>)
        ensures
            entries_view(entries@) == self@.entries,
            self@.well_formed(),
    {
        proof {
            use_type_invariant(&self);
        }
        self.entries
    }
}

} // verus!
