//! The nodes of an archive's metadata tree.

use super::CompressionFormat;
use vstd::prelude::*;
use vstd::utf8::encode_utf8;

verus! {

/// POSIX mode bits of an entry.
#[derive(Debug, Clone, Copy, PartialEq, Eq)]
pub struct EntryMode(pub u32);

impl EntryMode {
    pub fn new(mode: u32) -> (result: Self)
        ensures
            result.0 == mode,
    {
        Self(mode)
    }

    /// Returns the mode bits.
    pub fn bits(&self) -> (bits: u32)
        ensures
            bits == self.0,
    {
        self.0
    }

    /// Sets the mode bits.
    pub fn set_bits(&mut self, mode: u32)
        ensures
            final(self).0 == mode,
    {
        self.0 = mode;
    }

    /// Returns the user permissions (read, write, execute).
    pub fn user(&self) -> (flags: (bool, bool, bool))
        ensures
            flags.0 == (self.0 & 0o400 != 0),
            flags.1 == (self.0 & 0o200 != 0),
            flags.2 == (self.0 & 0o100 != 0),
    {
        (self.0 & 0o400 != 0, self.0 & 0o200 != 0, self.0 & 0o100 != 0)
    }

    /// Sets the user permissions (read, write, execute): the three bits of
    /// `0o700` are cleared, then `read` sets `0o400`, `write` sets `0o200` and
    /// `execute` sets `0o100`. The other bits of the mode stay.
    pub fn set_user(&mut self, read: bool, write: bool, execute: bool)
        ensures
            final(self).0 == (old(self).0 & !0o700u32) | (flag(read) << 8 | flag(write) << 7
                | flag(execute) << 6),
            (final(self).0 & 0o400 != 0) == read,
            (final(self).0 & 0o200 != 0) == write,
            (final(self).0 & 0o100 != 0) == execute,
            final(self).0 & !0o700u32 == old(self).0 & !0o700u32,
    {
        let before: u32 = self.0;
        let r: u32 = flag_bit(read);
        let w: u32 = flag_bit(write);
        let x: u32 = flag_bit(execute);
        self.0 = (before & !0o700u32) | (r << 8 | w << 7 | x << 6);
        let after: u32 = self.0;
        assert((after & 0o400 != 0) == (r == 1) && (after & 0o200 != 0) == (w == 1) && (after
            & 0o100 != 0) == (x == 1) && after & !0o700u32 == before & !0o700u32) by (bit_vector)
            requires
                after == (before & !0o700u32) | (r << 8 | w << 7 | x << 6),
                r == 0 || r == 1,
                w == 0 || w == 1,
                x == 0 || x == 1,
        ;
    }

    /// Returns the group permissions (read, write, execute).
    pub fn group(&self) -> (flags: (bool, bool, bool))
        ensures
            flags.0 == (self.0 & 0o040 != 0),
            flags.1 == (self.0 & 0o020 != 0),
            flags.2 == (self.0 & 0o010 != 0),
    {
        (self.0 & 0o040 != 0, self.0 & 0o020 != 0, self.0 & 0o010 != 0)
    }

    /// Sets the group permissions (read, write, execute): the three bits of
    /// `0o070` are cleared, then `read` sets `0o040`, `write` sets `0o020` and
    /// `execute` sets `0o010`. The other bits of the mode stay.
    pub fn set_group(&mut self, read: bool, write: bool, execute: bool)
        ensures
            final(self).0 == (old(self).0 & !0o070u32) | (flag(read) << 5 | flag(write) << 4
                | flag(execute) << 3),
            (final(self).0 & 0o040 != 0) == read,
            (final(self).0 & 0o020 != 0) == write,
            (final(self).0 & 0o010 != 0) == execute,
            final(self).0 & !0o070u32 == old(self).0 & !0o070u32,
    {
        let before: u32 = self.0;
        let r: u32 = flag_bit(read);
        let w: u32 = flag_bit(write);
        let x: u32 = flag_bit(execute);
        self.0 = (before & !0o070u32) | (r << 5 | w << 4 | x << 3);
        let after: u32 = self.0;
        assert((after & 0o040 != 0) == (r == 1) && (after & 0o020 != 0) == (w == 1) && (after
            & 0o010 != 0) == (x == 1) && after & !0o070u32 == before & !0o070u32) by (bit_vector)
            requires
                after == (before & !0o070u32) | (r << 5 | w << 4 | x << 3),
                r == 0 || r == 1,
                w == 0 || w == 1,
                x == 0 || x == 1,
        ;
    }

    /// Returns the other permissions (read, write, execute).
    pub fn other(&self) -> (flags: (bool, bool, bool))
        ensures
            flags.0 == (self.0 & 0o004 != 0),
            flags.1 == (self.0 & 0o002 != 0),
            flags.2 == (self.0 & 0o001 != 0),
    {
        (self.0 & 0o004 != 0, self.0 & 0o002 != 0, self.0 & 0o001 != 0)
    }

    /// Sets the other permissions (read, write, execute): the three bits of
    /// `0o007` are cleared, then `read` sets `0o004`, `write` sets `0o002` and
    /// `execute` sets `0o001`. The other bits of the mode stay.
    pub fn set_other(&mut self, read: bool, write: bool, execute: bool)
        ensures
            final(self).0 == (old(self).0 & !0o007u32) | (flag(read) << 2 | flag(write) << 1
                | flag(execute) << 0),
            (final(self).0 & 0o004 != 0) == read,
            (final(self).0 & 0o002 != 0) == write,
            (final(self).0 & 0o001 != 0) == execute,
            final(self).0 & !0o007u32 == old(self).0 & !0o007u32,
    {
        let before: u32 = self.0;
        let r: u32 = flag_bit(read);
        let w: u32 = flag_bit(write);
        let x: u32 = flag_bit(execute);
        self.0 = (before & !0o007u32) | (r << 2 | w << 1 | x << 0);
        let after: u32 = self.0;
        assert((after & 0o004 != 0) == (r == 1) && (after & 0o002 != 0) == (w == 1) && (after
            & 0o001 != 0) == (x == 1) && after & !0o007u32 == before & !0o007u32) by (bit_vector)
            requires
                after == (before & !0o007u32) | (r << 2 | w << 1 | x << 0),
                r == 0 || r == 1,
                w == 0 || w == 1,
                x == 0 || x == 1,
        ;
    }
}

/// The nine letters that spell the permissions of `bits`: read, write and
/// execute for the user, the group and everyone else, a hyphen for what is
/// not permitted.
pub open spec fn permission_letters(bits: u32) -> Seq<char> {
    seq![
        letter(bits, 0o400, 'r'),
        letter(bits, 0o200, 'w'),
        letter(bits, 0o100, 'x'),
        letter(bits, 0o040, 'r'),
        letter(bits, 0o020, 'w'),
        letter(bits, 0o010, 'x'),
        letter(bits, 0o004, 'r'),
        letter(bits, 0o002, 'w'),
        letter(bits, 0o001, 'x'),
    ]
}

/// `set` where `bits` has a bit of `mask`, and a hyphen where it has none.
pub open spec fn letter(bits: u32, mask: u32, set: char) -> char {
    if bits & mask != 0 {
        set
    } else {
        '-'
    }
}

impl EntryMode {
    /// The permissions as nine letters, such as `rwxr-xr-x`.
    pub fn permissions(&self) -> (text: String)
        ensures
            text@ == permission_letters(self.0),
    {
        proof {
            reveal_strlit("r");
            reveal_strlit("w");
            reveal_strlit("x");
            reveal_strlit("-");
        }
        let mut text = String::new();
        let bits = self.0;
        text.append(if bits & 0o400 != 0 { "r" } else { "-" });
        text.append(if bits & 0o200 != 0 { "w" } else { "-" });
        text.append(if bits & 0o100 != 0 { "x" } else { "-" });
        text.append(if bits & 0o040 != 0 { "r" } else { "-" });
        text.append(if bits & 0o020 != 0 { "w" } else { "-" });
        text.append(if bits & 0o010 != 0 { "x" } else { "-" });
        text.append(if bits & 0o004 != 0 { "r" } else { "-" });
        text.append(if bits & 0o002 != 0 { "w" } else { "-" });
        text.append(if bits & 0o001 != 0 { "x" } else { "-" });
        assert(text@ =~= permission_letters(self.0));
        text
    }
}

/// One for a flag that is set, zero for one that is not.
pub open spec fn flag(set: bool) -> u32 {
    if set {
        1
    } else {
        0
    }
}

fn flag_bit(set: bool) -> (bit: u32)
    ensures
        bit == flag(set),
{
    if set {
        1
    } else {
        0
    }
}

impl Default for EntryMode {
    /// Read and write for the user, read for everyone else.
    fn default() -> (result: Self)
        ensures
            result.0 == 0o644,
    {
        Self(0o644)
    }
}

impl From<u32> for EntryMode {
    fn from(mode: u32) -> (result: Self) {
        Self(mode)
    }
}

impl vstd::std_specs::convert::FromSpecImpl<u32> for EntryMode {
    open spec fn obeys_from_spec() -> bool {
        true
    }

    open spec fn from_spec(mode: u32) -> Self {
        EntryMode(mode)
    }
}

impl From<EntryMode> for u32 {
    fn from(mode: EntryMode) -> (result: Self) {
        mode.0
    }
}

impl vstd::std_specs::convert::FromSpecImpl<EntryMode> for u32 {
    open spec fn obeys_from_spec() -> bool {
        true
    }

    open spec fn from_spec(mode: EntryMode) -> Self {
        mode.0
    }
}

#[derive(Debug, PartialEq, Eq)]
pub struct FileEntry {
    pub name: String,
    pub mode: EntryMode,
    pub owner: (u32, u32),
    /// Seconds since the UNIX epoch.
    pub mtime: u64,
    pub compression: CompressionFormat,
    pub size_compressed: Option<u64>,
    pub size_real: u64,
    pub size: u64,
    /// Where the payload begins in the archive.
    pub offset: u64,
}

#[derive(Debug, PartialEq, Eq)]
pub struct DirectoryEntry {
    pub name: String,
    pub mode: EntryMode,
    pub owner: (u32, u32),
    pub mtime: u64,
    pub entries: Vec<Entry>,
}

#[derive(Debug, PartialEq, Eq)]
pub struct SymlinkEntry {
    pub name: String,
    pub mode: EntryMode,
    pub owner: (u32, u32),
    pub mtime: u64,
    pub target: String,
    pub target_dir: bool,
}

#[derive(Debug, PartialEq, Eq)]
pub enum Entry {
    File(Box<FileEntry>),
    Directory(Box<DirectoryEntry>),
    Symlink(Box<SymlinkEntry>),
}

/// What an entry is, apart from how it is held in memory.
pub enum EntryView {
    File {
        name: Seq<char>,
        mode: u32,
        owner: (u32, u32),
        mtime: u64,
        compression: CompressionFormat,
        size_compressed: Option<u64>,
        size_real: u64,
        size: u64,
        offset: u64,
    },
    Directory { name: Seq<char>, mode: u32, owner: (u32, u32), mtime: u64, entries: Seq<EntryView> },
    Symlink {
        name: Seq<char>,
        mode: u32,
        owner: (u32, u32),
        mtime: u64,
        target: Seq<char>,
        target_dir: bool,
    },
}

impl EntryView {
    pub open spec fn name(self) -> Seq<char> {
        match self {
            EntryView::File { name, .. } => name,
            EntryView::Directory { name, .. } => name,
            EntryView::Symlink { name, .. } => name,
        }
    }

    pub open spec fn mode(self) -> u32 {
        match self {
            EntryView::File { mode, .. } => mode,
            EntryView::Directory { mode, .. } => mode,
            EntryView::Symlink { mode, .. } => mode,
        }
    }

    pub open spec fn owner(self) -> (u32, u32) {
        match self {
            EntryView::File { owner, .. } => owner,
            EntryView::Directory { owner, .. } => owner,
            EntryView::Symlink { owner, .. } => owner,
        }
    }

    pub open spec fn mtime(self) -> u64 {
        match self {
            EntryView::File { mtime, .. } => mtime,
            EntryView::Directory { mtime, .. } => mtime,
            EntryView::Symlink { mtime, .. } => mtime,
        }
    }

    /// Whether the entry fits the format, so that it can be written and read
    /// back unchanged: its name has at most 255 bytes and its mode at most 26
    /// bits; a file has a compressed size exactly when it is compressed; the
    /// children of a directory fit as well.
    pub open spec fn well_formed(self) -> bool
        decreases self,
    {
        &&& encode_utf8(self.name()).len() <= 255
        &&& self.mode() <= 0x03FF_FFFF
        &&& match self {
            EntryView::File { compression, size_compressed, .. } => size_compressed.is_some() == (
            compression != CompressionFormat::Uncompressed),
            EntryView::Directory { entries, .. } => entries.len() <= u64::MAX && forall|i: int|
                0 <= i < entries.len() ==> (#[trigger] entries[i]).well_formed(),
            EntryView::Symlink { target, .. } => encode_utf8(target).len() <= u64::MAX,
        }
    }
}

/// Whether every entry of a list fits the format.
pub open spec fn all_well_formed(entries: Seq<EntryView>) -> bool {
    forall|i: int| 0 <= i < entries.len() ==> (#[trigger] entries[i]).well_formed()
}

impl Entry {
    /// Returns the name of the entry.
    /// This is the name of the file or directory, not the full path.
    /// For example, if the entry is under `path/to/file.txt`, this will return `file.txt`.
    pub fn name(&self) -> (name: &str)
        ensures
            name@ == self@.name(),
    {
        match self {
            Entry::File(entry) => entry.name.as_str(),
            Entry::Directory(entry) => entry.name.as_str(),
            Entry::Symlink(entry) => entry.name.as_str(),
        }
    }

    /// Whether the entry has the name `name`.
    pub fn has_name(&self, name: &String) -> (same: bool)
        ensures
            same == (self@.name() == name@),
    {
        match self {
            Entry::File(entry) => entry.name == *name,
            Entry::Directory(entry) => entry.name == *name,
            Entry::Symlink(entry) => entry.name == *name,
        }
    }

    /// Whether the entry fits the format, its children included.
    pub fn is_well_formed(&self) -> (ok: bool)
        ensures
            ok == self@.well_formed(),
        decreases self,
    {
        match self {
            Entry::File(file) => {
                let compressed = match file.compression {
                    CompressionFormat::Uncompressed => false,
                    _ => true,
                };
                fits(file.name.as_str(), file.mode) && file.size_compressed.is_some() == compressed
            },
            Entry::Directory(dir) => {
                proof {
                    lemma_directory_view(*self);
                }
                if !fits(dir.name.as_str(), dir.mode) {
                    return false;
                }
                let ghost views = entries_view(dir.entries@);
                let mut i: usize = 0;
                while i < dir.entries.len()
                    invariant
                        i <= dir.entries.len(),
                        decreases_to!(self => dir.entries),
                        views == entries_view(dir.entries@),
                        self@ is Directory,
                        self@->Directory_entries == views,
                        forall|j: int| 0 <= j < i ==> (#[trigger] views[j]).well_formed(),
                    decreases dir.entries.len() - i,
                {
                    if !dir.entries[i].is_well_formed() {
                        assert(!views[i as int].well_formed());
                        return false;
                    }
                    i = i + 1;
                }
                true
            },
            Entry::Symlink(link) => {
                // a target that is held in memory has a length that fits
                let target_len = link.target.as_str().as_bytes().len();
                fits(link.name.as_str(), link.mode)
            },
        }
    }

    /// Returns the mode of the entry.
    /// This also contains the file permissions of the entry.
    pub fn mode(&self) -> (mode: EntryMode)
        ensures
            mode.0 == self@.mode(),
    {
        match self {
            Entry::File(entry) => entry.mode,
            Entry::Directory(entry) => entry.mode,
            Entry::Symlink(entry) => entry.mode,
        }
    }

    /// Returns the owner of the entry.
    /// This is the user ID and group ID of the entry.
    pub fn owner(&self) -> (owner: (u32, u32))
        ensures
            owner == self@.owner(),
    {
        match self {
            Entry::File(entry) => entry.owner,
            Entry::Directory(entry) => entry.owner,
            Entry::Symlink(entry) => entry.owner,
        }
    }

    /// Returns the modification time of the entry, in seconds since the
    /// UNIX epoch.
    pub fn mtime(&self) -> (mtime: u64)
        ensures
            mtime == self@.mtime(),
    {
        match self {
            Entry::File(entry) => entry.mtime,
            Entry::Directory(entry) => entry.mtime,
            Entry::Symlink(entry) => entry.mtime,
        }
    }
}

/// Whether `name` and `mode` fit the format.
pub fn fits(name: &str, mode: EntryMode) -> (ok: bool)
    ensures
        ok == (encode_utf8(name@).len() <= 255 && mode.0 <= 0x03FF_FFFF),
{
    name.as_bytes().len() <= 255 && mode.bits() <= 0x03FF_FFFF
}

/// `directory` with `children` for its children; anything but a directory is
/// left as it is.
pub open spec fn with_children(directory: EntryView, children: Seq<EntryView>) -> EntryView {
    match directory {
        EntryView::Directory { name, mode, owner, mtime, .. } => EntryView::Directory {
            name,
            mode,
            owner,
            mtime,
            entries: children,
        },
        other => other,
    }
}

/// `entries` with `entry` as the last child of the directory that `parts`
/// leads to; with no components, as the last of `entries` themselves.
pub open spec fn pushed_under(
    entries: Seq<EntryView>,
    parts: Seq<Seq<char>>,
    entry: EntryView,
) -> Seq<EntryView>
    decreases parts.len(),
{
    if parts.len() == 0 {
        entries.push(entry)
    } else {
        match first_named(entries, parts[0]) {
            None => entries,
            Some(i) => match entries[i] {
                EntryView::Directory { entries: children, .. } => entries.update(
                    i,
                    with_children(entries[i], pushed_under(children, parts.skip(1), entry)),
                ),
                _ => entries,
            },
        }
    }
}

/// Whether `parts` leads to a directory, or nowhere because it is empty.
pub open spec fn leads_to_directory(entries: Seq<EntryView>, parts: Seq<Seq<char>>) -> bool {
    parts.len() == 0 || (found(entries, parts) is Some && found(entries, parts).unwrap()
        is Directory)
}

/// Puts `entry` at the end of the children of the directory that the
/// components of `parts` from `depth` on lead to.
#[verifier::rlimit(50)]
pub fn push_under(entries: &mut Vec<Entry>, parts: &[String], depth: usize, entry: Entry)
    requires
        depth <= parts.len(),
        leads_to_directory(entries_view(old(entries)@), names_view(parts@).skip(depth as int)),
    ensures
        entries_view(final(entries)@) == pushed_under(
            entries_view(old(entries)@),
            names_view(parts@).skip(depth as int),
            entry@,
        ),
        all_well_formed(entries_view(old(entries)@)) && entry@.well_formed() ==> all_well_formed(
            entries_view(final(entries)@),
        ),
        final(entries)@.len() >= old(entries)@.len(),
    decreases parts.len() - depth,
{
    let ghost names = names_view(parts@).skip(depth as int);
    let ghost before = entries_view(entries@);
    if depth == parts.len() {
        let ghost prior = entries@;
        entries.push(entry);
        proof {
            assert(entries_view(entries@) =~= before.push(entry@));
            if all_well_formed(before) && entry@.well_formed() {
                assert forall|j: int| 0 <= j < entries@.len() implies (#[trigger] entries_view(
                    entries@,
                )[j]).well_formed() by {
                    if j < prior.len() {
                        assert(entries_view(entries@)[j] == before[j]);
                    }
                }
            }
        }
        return ;
    }
    proof {
        assert(names[0] == parts@[depth as int]@);
        assert(names.skip(1) =~= names_view(parts@).skip(depth + 1));
    }
    let index = match position_of(entries.as_slice(), &parts[depth]) {
        Some(index) => index,
        None => {
            return ;
        },
    };
    let ghost target = entries@[index as int];
    proof {
        assert(before[index as int] == target@);
        assert(names.len() == parts@.len() - depth);
        assert(found(before, names) is Some);
        let first = first_named(before, names[0]);
        assert(first is Some);
        assert(is_first_named(before, names[0], first.unwrap()));
        assert(first == Some(index as int));
        if names.len() == 1 {
            assert(found(before, names) == Some(target@));
        } else {
            assert(target@ is Directory);
        }
        assert(target@ is Directory);
        assert(target is Directory);
        lemma_directory_view(target);
        if names.len() > 1 {
            assert(found(before, names) == found(target@->Directory_entries, names.skip(1)));
        }
        assert(leads_to_directory(target@->Directory_entries, names.skip(1)));
    }
    match &mut entries[index] {
        Entry::Directory(dir) => {
            push_under(&mut dir.entries, parts, depth + 1, entry);
        },
        _ => {},
    }
    proof {
        let after = entries@[index as int];
        lemma_directory_view(after);
        let children = pushed_under(target@->Directory_entries, names.skip(1), entry@);
        assert(after@ == with_children(target@, children));
        assert(entries_view(entries@) =~= before.update(index as int, after@));
        if all_well_formed(before) && entry@.well_formed() {
            assert(before[index as int].well_formed());
            assert(after@.well_formed());
            assert forall|j: int| 0 <= j < entries@.len() implies (#[trigger] entries_view(
                entries@,
            )[j]).well_formed() by {
                if j != index {
                    assert(entries_view(entries@)[j] == before[j]);
                }
            }
        }
    }
}

/// Whether `index` is where the first of `entries` with the name `name`
/// stands.
pub open spec fn is_first_named(entries: Seq<EntryView>, name: Seq<char>, index: int) -> bool {
    &&& 0 <= index < entries.len()
    &&& entries[index].name() == name
    &&& forall|j: int| 0 <= j < index ==> (#[trigger] entries[j]).name() != name
}

/// Where the first of `entries` with the name `name` stands, if there is one.
pub open spec fn first_named(entries: Seq<EntryView>, name: Seq<char>) -> Option<int> {
    if exists|i: int| is_first_named(entries, name, i) {
        Some(choose|i: int| is_first_named(entries, name, i))
    } else {
        None
    }
}

/// There is one first entry of a name at most.
pub proof fn lemma_first_named(entries: Seq<EntryView>, name: Seq<char>, index: int)
    requires
        is_first_named(entries, name, index),
    ensures
        first_named(entries, name) == Some(index),
{
    let chosen = choose|i: int| is_first_named(entries, name, i);
    if chosen < index {
        assert(entries[chosen].name() != name);
    } else if index < chosen {
        assert(entries[index].name() != name);
    }
}

/// The entry that a path leads to: the first entry with the name of the
/// first component, and from there on through the children of directories,
/// component by component. No path without components leads anywhere, and no
/// path leads through something that is not a directory.
pub open spec fn found(entries: Seq<EntryView>, parts: Seq<Seq<char>>) -> Option<EntryView>
    decreases parts.len(),
{
    if parts.len() == 0 {
        None
    } else {
        match first_named(entries, parts[0]) {
            None => None,
            Some(i) => if parts.len() == 1 {
                Some(entries[i])
            } else {
                match entries[i] {
                    EntryView::Directory { entries: children, .. } => found(
                        children,
                        parts.skip(1),
                    ),
                    _ => None,
                }
            },
        }
    }
}

/// The views of a list of names, in order.
pub open spec fn names_view(names: Seq<String>) -> Seq<Seq<char>> {
    Seq::new(names.len(), |i: int| names[i]@)
}

/// Where the first of `entries` with the name `name` stands.
pub fn position_of(entries: &[Entry], name: &String) -> (index: Option<usize>)
    ensures
        index is Some ==> index.unwrap() < entries@.len() && first_named(
            entries_view(entries@),
            name@,
        ) == Some(index.unwrap() as int),
        index is None ==> first_named(entries_view(entries@), name@) is None,
{
    let ghost views = entries_view(entries@);
    let mut i: usize = 0;
    while i < entries.len()
        invariant
            i <= entries.len(),
            views == entries_view(entries@),
            forall|j: int| 0 <= j < i ==> (#[trigger] views[j]).name() != name@,
        decreases entries.len() - i,
    {
        if entries[i].has_name(name) {
            proof {
                lemma_first_named(views, name@, i as int);
            }
            return Some(i);
        }
        i = i + 1;
    }
    None
}

/// Finds the entry that `parts` leads to from `entries`.
pub fn find_entry<'a>(entries: &'a [Entry], parts: &[String]) -> (result: Option<&'a Entry>)
    ensures
        match found(entries_view(entries@), names_view(parts@)) {
            Some(entry) => result is Some && result.unwrap()@ == entry,
            None => result is None,
        },
{
    if parts.len() == 0 {
        return None;
    }
    let ghost names = names_view(parts@);
    let mut current: &'a [Entry] = entries;
    let mut depth: usize = 0;
    assert(names.skip(0) =~= names);
    loop
        invariant
            depth < parts.len(),
            names == names_view(parts@),
            found(entries_view(entries@), names) == found(
                entries_view(current@),
                names.skip(depth as int),
            ),
        decreases parts.len() - depth,
    {
        let ghost rest = names.skip(depth as int);
        assert(rest[0] == parts@[depth as int]@);
        assert(rest.skip(1) =~= names.skip(depth + 1));
        let index = match position_of(current, &parts[depth]) {
            Some(index) => index,
            None => {
                return None;
            },
        };
        if depth == parts.len() - 1 {
            return Some(&current[index]);
        }
        match &current[index] {
            Entry::Directory(dir) => {
                proof {
                    lemma_directory_view(current[index as int]);
                }
                current = dir.entries.as_slice();
                depth = depth + 1;
            },
            _ => {
                return None;
            },
        }
    }
}

impl Clone for Entry {
    /// A copy of the entry, its children included.
    fn clone(&self) -> (copy: Self)
        ensures
            copy@ == self@,
        decreases self,
    {
        match self {
            Entry::File(file) => Entry::File(
                Box::new(
                    FileEntry {
                        name: file.name.clone(),
                        mode: file.mode,
                        owner: file.owner,
                        mtime: file.mtime,
                        compression: file.compression,
                        size_compressed: file.size_compressed,
                        size_real: file.size_real,
                        size: file.size,
                        offset: file.offset,
                    },
                ),
            ),
            Entry::Directory(dir) => {
                let mut children: Vec<Entry> = Vec::new();
                let mut i: usize = 0;
                while i < dir.entries.len()
                    invariant
                        i <= dir.entries.len(),
                        decreases_to!(self => dir.entries),
                        children@.len() == i,
                        forall|j: int| 0 <= j < i ==> (#[trigger] children@[j])@ == dir.entries@[j]@,
                    decreases dir.entries.len() - i,
                {
                    children.push(dir.entries[i].clone());
                    i = i + 1;
                }
                let copy = Entry::Directory(
                    Box::new(
                        DirectoryEntry {
                            name: dir.name.clone(),
                            mode: dir.mode,
                            owner: dir.owner,
                            mtime: dir.mtime,
                            entries: children,
                        },
                    ),
                );
                proof {
                    lemma_directory_view(*self);
                    lemma_directory_view(copy);
                    assert(entries_view(children@) =~= entries_view(dir.entries@));
                }
                copy
            },
            Entry::Symlink(link) => Entry::Symlink(
                Box::new(
                    SymlinkEntry {
                        name: link.name.clone(),
                        mode: link.mode,
                        owner: link.owner,
                        mtime: link.mtime,
                        target: link.target.clone(),
                        target_dir: link.target_dir,
                    },
                ),
            ),
        }
    }
}

/// The views of a list of entries, in order.
pub open spec fn entries_view(entries: Seq<Entry>) -> Seq<EntryView> {
    Seq::new(entries.len(), |i: int| entries[i]@)
}

/// The children of a directory are seen through `entries_view`.
pub proof fn lemma_directory_view(entry: Entry)
    requires
        entry is Directory,
    ensures
        entry@ == (EntryView::Directory {
            name: entry->Directory_0.name@,
            mode: entry->Directory_0.mode.0,
            owner: entry->Directory_0.owner,
            mtime: entry->Directory_0.mtime,
            entries: entries_view(entry->Directory_0.entries@),
        }),
{
    reveal_with_fuel(<Entry as View>::view, 2);
    assert(entry@->Directory_entries =~= entries_view(entry->Directory_0.entries@));
}

impl View for Entry {
    type V = EntryView;

    open spec fn view(&self) -> EntryView
        decreases self,
    {
        match self {
            Entry::File(file) => EntryView::File {
                name: file.name@,
                mode: file.mode.0,
                owner: file.owner,
                mtime: file.mtime,
                compression: file.compression,
                size_compressed: file.size_compressed,
                size_real: file.size_real,
                size: file.size,
                offset: file.offset,
            },
            Entry::Directory(dir) => EntryView::Directory {
                name: dir.name@,
                mode: dir.mode.0,
                owner: dir.owner,
                mtime: dir.mtime,
                entries: Seq::new(
                    dir.entries.len() as nat,
                    |i: int|
                        if 0 <= i < dir.entries.len() {
                            dir.entries[i]@
                        } else {
                            arbitrary()
                        },
                ),
            },
            Entry::Symlink(link) => EntryView::Symlink {
                name: link.name@,
                mode: link.mode.0,
                owner: link.owner,
                mtime: link.mtime,
                target: link.target@,
                target_dir: link.target_dir,
            },
        }
    }
}

} // verus!
