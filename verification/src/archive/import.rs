//! Import

use {
    super::{EntryKind, ARCHIVE_VERSION, MAGIC},
    crate::{
        stats::Stats,
        util::{
            find_byte,
            path::{component_is, components_are, cur_dir, parent_dir, relative_components, relative_path_components},
            var_int, OsStrRange,
        },
    },
    vstd::bytes::{spec_u32_from_le_bytes, spec_u64_from_le_bytes, u32_from_le_bytes, u64_from_le_bytes},
    vstd::prelude::*,
};

verus! {

/// Import error
#[derive(PartialEq, Eq, Structural, Clone, Copy, Debug)]
pub enum ImportError {
    /// The archive ended before what was being read
    UnexpectedEof,
    /// The archive does not start with the magic
    WrongMagic { found: MagicBytes },
    /// The archive has a version that is not the latest
    WrongVersion { found: u32 },
    /// An entry has a kind byte that stands for no kind
    UnknownKind { kind: u8 },
    /// A directory's entries take more bytes than a seek can skip
    EntriesOffsetTooLarge { offset: u64 },
    /// Stats of the archive that overflow when added, or a directory's or a
    /// group's file count that leaves fewer files than it has entries
    InvalidStats,
    /// A path to seek holds `..`, which is not supported, at this component
    ParentDirUnsupported { component: usize },
    /// No entry has the name of this component of a path to seek
    EntryNotFound { component: usize },
    /// The entry before this component of a path to seek is not a directory
    NotADirectory { component: usize },
    /// An absolute path to seek does not lie within the path of the entry it is sought from
    PathNotWithinTree,
}

/// A component of a relative path to seek
#[derive(PartialEq, Eq, Clone, Debug)]
pub enum PathComponent {
    /// `.`
    CurDir,
    /// `..`
    ParentDir,
    /// A name
    Normal(Vec<u8>),
}

/// The four bytes at the start of an archive
#[derive(PartialEq, Eq, Structural, Clone, Copy, Debug)]
pub struct MagicBytes(pub u8, pub u8, pub u8, pub u8);

/// An entry, as read from an archive
#[derive(PartialEq, Eq, Structural, Clone, Copy, Debug)]
pub struct DirEntry {
    /// Position just after the entry's header: where a directory's entries start
    pub import_pos: u64,
    pub kind: DirEntryKind,
}

#[derive(PartialEq, Eq, Structural, Clone, Copy, Debug)]
pub enum DirEntryKind {
    Dir(DirHeader),
    File(File),
    Symlink(Symlink),
}

#[derive(PartialEq, Eq, Structural, Clone, Copy, Debug)]
pub struct DirHeader {
    pub entries_offset: u64,
    pub entries_len: u64,
}

#[derive(PartialEq, Eq, Structural, Clone, Copy, Debug)]
pub struct DirFooter {
    pub stats: Stats,
}

#[derive(PartialEq, Eq, Structural, Clone, Copy, Debug)]
pub struct File {
    pub size: u64,
    pub blocks: u64,
}

#[derive(PartialEq, Eq, Structural, Clone, Copy, Debug)]
pub struct Symlink {
    pub size: u64,
    pub blocks: u64,
}

impl DirEntry {
    /// Whether this entry has any children: it is a directory with entries
    pub open spec fn spec_has_children(self) -> bool {
        self.kind matches DirEntryKind::Dir(dir) && dir.entries_len != 0
    }

    /// Returns if this entry has any children
    pub fn has_children(&self) -> (b: bool)
        ensures
            b == self.spec_has_children(),
    {
        match self.kind {
            DirEntryKind::Dir(dir) => dir.entries_len != 0,
            _ => false,
        }
    }
}

impl DirEntryKind {
    /// Whether this is a directory
    pub fn is_dir(&self) -> (b: bool)
        ensures
            b == (self is Dir),
    {
        matches!(self, DirEntryKind::Dir(_))
    }
}

// Reading the format, as functions of the archive's bytes and a position.
// Each gives what it read and the position just after it.

/// Reads a byte
pub open spec fn spec_read_u8(data: Seq<u8>, pos: nat) -> Result<(u8, nat), ImportError> {
    if pos < data.len() {
        Ok((data[pos as int], pos + 1))
    } else {
        Err(ImportError::UnexpectedEof)
    }
}

/// Reads a fixed-length `u64`
pub open spec fn spec_read_u64_fixed(data: Seq<u8>, pos: nat) -> Result<(u64, nat), ImportError> {
    if pos + 8 <= data.len() {
        Ok((spec_u64_from_le_bytes(data.subrange(pos as int, pos + 8int)), pos + 8))
    } else {
        Err(ImportError::UnexpectedEof)
    }
}

/// Reads a variable-length `u64`
pub open spec fn spec_read_u64(data: Seq<u8>, pos: nat) -> Result<(u64, nat), ImportError> {
    if pos <= data.len() {
        match var_int::decoding(data.skip(pos as int)) {
            Some((v, len)) => Ok((v as u64, pos + len)),
            None => Err(ImportError::UnexpectedEof),
        }
    } else {
        Err(ImportError::UnexpectedEof)
    }
}

/// Reads two variable-length `u64`s
pub open spec fn spec_read_u64_pair(data: Seq<u8>, pos: nat) -> Result<(u64, u64, nat), ImportError> {
    match spec_read_u64(data, pos) {
        Err(e) => Err(e),
        Ok((a, p)) => match spec_read_u64(data, p) {
            Err(e) => Err(e),
            Ok((b, q)) => Ok((a, b, q)),
        },
    }
}

/// Reads a directory header
pub open spec fn spec_read_dir_header(data: Seq<u8>, pos: nat) -> Result<(DirHeader, nat), ImportError> {
    match spec_read_u64_fixed(data, pos) {
        Err(e) => Err(e),
        Ok((entries_offset, p)) => match spec_read_u64_fixed(data, p) {
            Err(e) => Err(e),
            Ok((entries_len, q)) => Ok((DirHeader { entries_offset, entries_len }, q)),
        },
    }
}

/// Reads a directory footer
pub open spec fn spec_read_dir_footer(data: Seq<u8>, pos: nat) -> Result<(DirFooter, nat), ImportError> {
    match spec_read_u64_pair(data, pos) {
        Err(e) => Err(e),
        Ok((size, blocks, p)) => match spec_read_u64(data, p) {
            Err(e) => Err(e),
            Ok((files, q)) => Ok((DirFooter { stats: Stats { files, size, blocks } }, q)),
        },
    }
}

/// Position of the first nul byte at or after `from`
pub open spec fn find_nul(data: Seq<u8>, from: int) -> Option<int>
    decreases data.len() - from,
{
    if from < 0 || from >= data.len() {
        None
    } else if data[from] == 0 {
        Some(from)
    } else {
        find_nul(data, from + 1)
    }
}

/// The bytes of a name that reading it at `pos` appends to the name buffer:
/// those up to its nul byte, or, if there is none, all that remain.
pub open spec fn spec_name_read(data: Seq<u8>, pos: nat) -> Seq<u8> {
    match find_nul(data, pos as int) {
        Some(nul) => data.subrange(pos as int, nul),
        None => if pos <= data.len() {
            data.skip(pos as int)
        } else {
            Seq::empty()
        },
    }
}

/// Reads an entry: gives the entry, the position of its name's nul byte and its end.
pub open spec fn spec_read_entry(data: Seq<u8>, pos: nat) -> Result<(DirEntry, nat, nat), ImportError> {
    match find_nul(data, pos as int) {
        None => Err(ImportError::UnexpectedEof),
        Some(nul) => match spec_read_u8(data, (nul + 1) as nat) {
            Err(e) => Err(e),
            Ok((byte, p)) => match EntryKind::spec_from_repr(byte) {
                None => Err(ImportError::UnknownKind { kind: byte }),
                Some(EntryKind::Dir) => match spec_read_dir_header(data, p) {
                    Err(e) => Err(e),
                    Ok((dir, q)) => Ok(
                        (DirEntry { import_pos: q as u64, kind: DirEntryKind::Dir(dir) }, nul as nat, q),
                    ),
                },
                Some(EntryKind::File) => match spec_read_u64_pair(data, p) {
                    Err(e) => Err(e),
                    Ok((size, blocks, q)) => Ok(
                        (
                            DirEntry {
                                import_pos: q as u64,
                                kind: DirEntryKind::File(File { size, blocks }),
                            },
                            nul as nat,
                            q,
                        ),
                    ),
                },
                Some(EntryKind::Symlink) => match spec_read_u64_pair(data, p) {
                    Err(e) => Err(e),
                    Ok((size, blocks, q)) => Ok(
                        (
                            DirEntry {
                                import_pos: q as u64,
                                kind: DirEntryKind::Symlink(Symlink { size, blocks }),
                            },
                            nul as nat,
                            q,
                        ),
                    ),
                },
            },
        },
    }
}

/// Skips over a directory's entries from `pos`: the position of its footer,
/// where a position past the end stands at the end.
pub open spec fn spec_skip_dir_entries(data: Seq<u8>, pos: nat, dir: DirHeader) -> Result<nat, ImportError> {
    if dir.entries_offset > i64::MAX {
        Err(ImportError::EntriesOffsetTooLarge { offset: dir.entries_offset })
    } else {
        Ok(clamp_pos(data, pos + dir.entries_offset))
    }
}

/// A position, or the end of the data if it lies past it
pub open spec fn clamp_pos(data: Seq<u8>, pos: int) -> nat {
    if pos <= data.len() {
        pos as nat
    } else {
        data.len()
    }
}

/// The stats of an entry: for a directory, those of its footer, read after
/// skipping its entries from `pos`; otherwise the entry itself, as one file.
pub open spec fn spec_read_entry_stats(data: Seq<u8>, pos: nat, entry: DirEntry) -> Result<(Stats, nat), ImportError> {
    match entry.kind {
        DirEntryKind::Dir(dir) => match spec_skip_dir_entries(data, pos, dir) {
            Err(e) => Err(e),
            Ok(p) => match spec_read_dir_footer(data, p) {
                Err(e) => Err(e),
                Ok((footer, q)) => Ok((footer.stats, q)),
            },
        },
        DirEntryKind::File(file) => Ok((Stats { files: 1, size: file.size, blocks: file.blocks }, pos)),
        DirEntryKind::Symlink(symlink) => Ok(
            (Stats { files: 1, size: symlink.size, blocks: symlink.blocks }, pos),
        ),
    }
}

pub(crate) proof fn lemma_find_nul(data: Seq<u8>, from: int, to: int)
    requires
        0 <= from <= to <= data.len(),
        forall|j: int| from <= j < to ==> data[j] != 0,
    ensures
        (to < data.len() && data[to] == 0) ==> find_nul(data, from) == Some(to),
        to == data.len() ==> find_nul(data, from) is None,
    decreases to - from,
{
    if from < to {
        lemma_find_nul(data, from + 1, to);
    }
}

/// Reads a `u8`
pub fn read_u8(input: &[u8], pos: usize) -> (res: Result<(u8, usize), ImportError>)
    ensures
        match spec_read_u8(input@, pos as nat) {
            Ok((v, end)) => res == Ok::<(u8, usize), ImportError>((v, end as usize)) && end <= input@.len(),
            Err(e) => res == Err::<(u8, usize), ImportError>(e),
        },
{
    if pos < input.len() {
        Ok((input[pos], pos + 1))
    } else {
        Err(ImportError::UnexpectedEof)
    }
}

/// Reads a fixed-length `u64`
pub fn read_u64_fixed(input: &[u8], pos: usize) -> (res: Result<(u64, usize), ImportError>)
    ensures
        match spec_read_u64_fixed(input@, pos as nat) {
            Ok((v, end)) => res == Ok::<(u64, usize), ImportError>((v, end as usize)) && end <= input@.len(),
            Err(e) => res == Err::<(u64, usize), ImportError>(e),
        },
{
    if pos <= input.len() && input.len() - pos >= 8 {
        let bytes = &input[pos..pos + 8];
        let n = u64_from_le_bytes(bytes);
        Ok((n, pos + 8))
    } else {
        Err(ImportError::UnexpectedEof)
    }
}

/// Reads a variable-length `u64`
pub fn read_u64(input: &[u8], pos: usize) -> (res: Result<(u64, usize), ImportError>)
    ensures
        match spec_read_u64(input@, pos as nat) {
            Ok((v, end)) => res == Ok::<(u64, usize), ImportError>((v, end as usize)) && end <= input@.len(),
            Err(e) => res == Err::<(u64, usize), ImportError>(e),
        },
{
    if pos > input.len() {
        return Err(ImportError::UnexpectedEof);
    }
    let rest = &input[pos..input.len()];
    assert(rest@ == input@.skip(pos as int));
    proof {
        var_int::lemma_decoding_fits(rest@);
    }
    match var_int::decode(rest) {
        Some((n, len)) => Ok((n, pos + len)),
        None => Err(ImportError::UnexpectedEof),
    }
}

/// Reads a directory header
pub fn read_dir_header(input: &[u8], pos: usize) -> (res: Result<(DirHeader, usize), ImportError>)
    ensures
        match spec_read_dir_header(input@, pos as nat) {
            Ok((v, end)) => res == Ok::<(DirHeader, usize), ImportError>((v, end as usize)) && end <= input@.len(),
            Err(e) => res == Err::<(DirHeader, usize), ImportError>(e),
        },
{
    assert(input@.len() == input.len());
    let (entries_offset, pos) = self::read_u64_fixed(input, pos)?;
    let (entries_len, pos) = self::read_u64_fixed(input, pos)?;
    Ok((DirHeader { entries_offset, entries_len }, pos))
}

/// Reads a directory footer
pub fn read_dir_footer(input: &[u8], pos: usize) -> (res: Result<(DirFooter, usize), ImportError>)
    ensures
        match spec_read_dir_footer(input@, pos as nat) {
            Ok((v, end)) => res == Ok::<(DirFooter, usize), ImportError>((v, end as usize)) && end <= input@.len(),
            Err(e) => res == Err::<(DirFooter, usize), ImportError>(e),
        },
{
    assert(input@.len() == input.len());
    let (size, pos) = self::read_u64(input, pos)?;
    let (blocks, pos) = self::read_u64(input, pos)?;
    let (files, pos) = self::read_u64(input, pos)?;
    let stats = Stats { files, size, blocks };
    Ok((DirFooter { stats }, pos))
}

/// Reads a file
pub fn read_file(input: &[u8], pos: usize) -> (res: Result<(File, usize), ImportError>)
    ensures
        match spec_read_u64_pair(input@, pos as nat) {
            Ok((size, blocks, end)) => res == Ok::<(File, usize), ImportError>((File { size, blocks }, end as usize)) && end <= input@.len(),
            Err(e) => res == Err::<(File, usize), ImportError>(e),
        },
{
    assert(input@.len() == input.len());
    let (size, pos) = self::read_u64(input, pos)?;
    let (blocks, pos) = self::read_u64(input, pos)?;
    Ok((File { size, blocks }, pos))
}

/// Reads a symlink
pub fn read_symlink(input: &[u8], pos: usize) -> (res: Result<(Symlink, usize), ImportError>)
    ensures
        match spec_read_u64_pair(input@, pos as nat) {
            Ok((size, blocks, end)) => res == Ok::<(Symlink, usize), ImportError>((Symlink { size, blocks }, end as usize)) && end <= input@.len(),
            Err(e) => res == Err::<(Symlink, usize), ImportError>(e),
        },
{
    assert(input@.len() == input.len());
    let (size, pos) = self::read_u64(input, pos)?;
    let (blocks, pos) = self::read_u64(input, pos)?;
    Ok((Symlink { size, blocks }, pos))
}

/// Reads a name, appending it to `s`.
///
/// Returns the range of `s` that was appended and the position after the
/// name's nul byte. If the archive ends before the nul byte, what remains of it
/// is still appended.
pub fn read_os_str(input: &[u8], pos: usize, s: &mut Vec<u8>) -> (res: Result<(OsStrRange, usize), ImportError>)
    ensures
        final(s)@ == old(s)@ + spec_name_read(input@, pos as nat),
        match find_nul(input@, pos as int) {
            Some(nul) => res == Ok::<(OsStrRange, usize), ImportError>(
                (OsStrRange { start: old(s)@.len() as usize, end: final(s)@.len() as usize }, (nul + 1) as usize),
            ) && pos <= nul < input@.len(),
            None => res == Err::<(OsStrRange, usize), ImportError>(ImportError::UnexpectedEof),
        },
{
    let start_idx = s.len();
    if pos > input.len() {
        assert(find_nul(input@, pos as int) is None);
        assert(s@ =~= old(s)@ + spec_name_read(input@, pos as nat));
        return Err(ImportError::UnexpectedEof);
    }
    let rest = &input[pos..input.len()];
    match find_byte(0, rest) {
        Some(idx) => {
            proof {
                assert(rest@ == input@.subrange(pos as int, input@.len() as int));
                assert forall|j: int| pos <= j < pos + idx implies input@[j] != 0 by {
                    assert(rest@[j - pos] != 0);
                }
                assert(input@[pos + idx] == rest@[idx as int]);
                lemma_find_nul(input@, pos as int, pos + idx);
            }
            s.extend_from_slice(&rest[0..idx]);
            assert(s@ =~= old(s)@ + spec_name_read(input@, pos as nat));
            let end_idx = s.len();
            Ok((OsStrRange { start: start_idx, end: end_idx }, pos + idx + 1))
        },
        None => {
            proof {
                assert(rest@ == input@.subrange(pos as int, input@.len() as int));
                assert forall|j: int| pos <= j < input@.len() implies input@[j] != 0 by {
                    assert(rest@[j - pos] != 0);
                }
                lemma_find_nul(input@, pos as int, input@.len() as int);
            }
            s.extend_from_slice(rest);
            assert(s@ =~= old(s)@ + spec_name_read(input@, pos as nat));
            Err(ImportError::UnexpectedEof)
        },
    }
}

/// Reads an entry, appending its name to `name`.
///
/// Returns the entry, the range of `name` that was appended, and the position after the entry's header.
pub fn read_entry(input: &[u8], pos: usize, name: &mut Vec<u8>) -> (res: Result<(DirEntry, OsStrRange, usize), ImportError>)
    ensures
        final(name)@ == old(name)@ + spec_name_read(input@, pos as nat),
        match spec_read_entry(input@, pos as nat) {
            Ok((entry, _nul, end)) => res == Ok::<(DirEntry, OsStrRange, usize), ImportError>(
                (entry, OsStrRange { start: old(name)@.len() as usize, end: final(name)@.len() as usize }, end as usize),
            ) && end <= input@.len(),
            Err(e) => res == Err::<(DirEntry, OsStrRange, usize), ImportError>(e),
        },
{
    assert(input@.len() == input.len());
    let (name_range, pos) = self::read_os_str(input, pos, name)?;
    let (kind, pos) = self::read_u8(input, pos)?;
    let kind = match EntryKind::from_repr(kind) {
        Some(kind) => kind,
        None => return Err(ImportError::UnknownKind { kind }),
    };
    let (kind, pos) = match kind {
        EntryKind::Dir => {
            let (dir, pos) = self::read_dir_header(input, pos)?;
            (DirEntryKind::Dir(dir), pos)
        },
        EntryKind::File => {
            let (file, pos) = self::read_file(input, pos)?;
            (DirEntryKind::File(file), pos)
        },
        EntryKind::Symlink => {
            let (symlink, pos) = self::read_symlink(input, pos)?;
            (DirEntryKind::Symlink(symlink), pos)
        },
    };
    Ok((DirEntry { import_pos: pos as u64, kind }, name_range, pos))
}

/// Reads the archive header: gives the position after it
pub open spec fn spec_read_archive_header(data: Seq<u8>) -> Result<nat, ImportError> {
    if data.len() < 4 {
        Err(ImportError::UnexpectedEof)
    } else if data.subrange(0, 4) != MAGIC@ {
        Err(ImportError::WrongMagic { found: MagicBytes(data[0], data[1], data[2], data[3]) })
    } else if data.len() < 8 {
        Err(ImportError::UnexpectedEof)
    } else if spec_u32_from_le_bytes(data.subrange(4, 8)) != ARCHIVE_VERSION {
        Err(ImportError::WrongVersion { found: spec_u32_from_le_bytes(data.subrange(4, 8)) })
    } else {
        Ok(8)
    }
}

/// Reads the archive header
pub fn read_archive_header(input: &[u8]) -> (res: Result<usize, ImportError>)
    ensures
        match spec_read_archive_header(input@) {
            Ok(end) => res == Ok::<usize, ImportError>(end as usize),
            Err(e) => res == Err::<usize, ImportError>(e),
        },
{
    if input.len() < 4 {
        return Err(ImportError::UnexpectedEof);
    }
    let magic = MAGIC;
    let found = &input[0..4];
    if !crate::util::bytes_eq(found, &magic) {
        return Err(ImportError::WrongMagic { found: MagicBytes(input[0], input[1], input[2], input[3]) });
    }
    if input.len() < 8 {
        return Err(ImportError::UnexpectedEof);
    }
    let version = u32_from_le_bytes(&input[4..8]);
    if version != ARCHIVE_VERSION {
        return Err(ImportError::WrongVersion { found: version });
    }
    Ok(8)
}

/// Finds the entry named `name` among the `count` entries at `pos`, skipping
/// over the others: gives it and the position after its header, or `None` if
/// no entry has that name.
pub open spec fn spec_find_entry(data: Seq<u8>, pos: nat, count: nat, name: Seq<u8>) -> Result<Option<(DirEntry, nat)>, ImportError>
    decreases count,
{
    if count == 0 {
        Ok(None)
    } else {
        match spec_read_entry(data, pos) {
            Err(e) => Err(e),
            Ok((entry, nul, end)) => if data.subrange(pos as int, nul as int) == name {
                Ok(Some((entry, end)))
            } else {
                match entry.kind {
                    DirEntryKind::Dir(dir) => match spec_read_entry_stats(data, end, entry) {
                        Err(e) => Err(e),
                        Ok((_, next)) => spec_find_entry(data, next, (count - 1) as nat, name),
                    },
                    _ => spec_find_entry(data, end, (count - 1) as nat, name),
                }
            },
        }
    }
}

/// Seeks the components of a path from the `i`-th on, starting at `entry`,
/// whose path is `entry_path`, with the archive at `pos`: gives the entry that
/// the path leads to, its path, and the position after its header.
pub open spec fn spec_seek_path(
    data: Seq<u8>,
    pos: nat,
    entry: DirEntry,
    entry_path: Seq<u8>,
    path: Seq<PathComponent>,
    i: nat,
) -> Result<(DirEntry, Seq<u8>, nat), ImportError>
    decreases path.len() - i,
{
    if i >= path.len() {
        Ok((entry, entry_path, pos))
    } else {
        match path[i as int] {
            PathComponent::CurDir => spec_seek_path(data, pos, entry, entry_path, path, i + 1),
            PathComponent::ParentDir => Err(ImportError::ParentDirUnsupported { component: i as usize }),
            PathComponent::Normal(name) => match entry.kind {
                DirEntryKind::Dir(dir) => match spec_find_entry(data, pos, dir.entries_len as nat, name@) {
                    Err(e) => Err(e),
                    Ok(None) => Err(ImportError::EntryNotFound { component: i as usize }),
                    Ok(Some((child, next))) => spec_seek_path(
                        data,
                        next,
                        child,
                        crate::util::pushed_path(entry_path, name@),
                        path,
                        i + 1,
                    ),
                },
                _ => Err(ImportError::NotADirectory { component: i as usize }),
            },
        }
    }
}

/// Seeks from `entry`, whose path is `entry_path`, with the importer at
/// `pos`, along the components `segs` of a path, as their bytes, from the
/// `i`-th: what `spec_seek_path` gives for the components these bytes stand for.
pub open spec fn spec_seek_segments(
    data: Seq<u8>,
    pos: nat,
    entry: DirEntry,
    entry_path: Seq<u8>,
    segs: Seq<Seq<u8>>,
    i: nat,
) -> Result<(DirEntry, Seq<u8>, nat), ImportError>
    decreases segs.len() - i,
{
    if i >= segs.len() {
        Ok((entry, entry_path, pos))
    } else if segs[i as int] == cur_dir() {
        spec_seek_segments(data, pos, entry, entry_path, segs, i + 1)
    } else if segs[i as int] == parent_dir() {
        Err(ImportError::ParentDirUnsupported { component: i as usize })
    } else {
        match entry.kind {
            DirEntryKind::Dir(dir) => match spec_find_entry(data, pos, dir.entries_len as nat, segs[i as int]) {
                Err(e) => Err(e),
                Ok(None) => Err(ImportError::EntryNotFound { component: i as usize }),
                Ok(Some((child, next))) => spec_seek_segments(
                    data,
                    next,
                    child,
                    crate::util::pushed_path(entry_path, segs[i as int]),
                    segs,
                    i + 1,
                ),
            },
            _ => Err(ImportError::NotADirectory { component: i as usize }),
        }
    }
}

/// Seeking along components is seeking along the bytes they stand for.
pub proof fn lemma_seek_components_segments(
    data: Seq<u8>,
    pos: nat,
    entry: DirEntry,
    entry_path: Seq<u8>,
    components: Seq<PathComponent>,
    segs: Seq<Seq<u8>>,
    i: nat,
)
    requires
        components_are(components, segs),
    ensures
        spec_seek_path(data, pos, entry, entry_path, components, i) == spec_seek_segments(
            data,
            pos,
            entry,
            entry_path,
            segs,
            i,
        ),
    decreases segs.len() - i,
{
    if i < segs.len() {
        assert(component_is(components[i as int], segs[i as int]));
        match components[i as int] {
            PathComponent::Normal(name) => {
                if let DirEntryKind::Dir(dir) = entry.kind {
                    if let Ok(Some((child, next))) = spec_find_entry(data, pos, dir.entries_len as nat, name@) {
                        lemma_seek_components_segments(
                            data,
                            next,
                            child,
                            crate::util::pushed_path(entry_path, name@),
                            components,
                            segs,
                            i + 1,
                        );
                    }
                }
            },
            _ => {
                lemma_seek_components_segments(data, pos, entry, entry_path, components, segs, i + 1);
            },
        }
    }
}

/// Importer
///
/// Reads an archive held in memory.
#[derive(Debug)]
pub struct Importer {
    /// Input
    input: Vec<u8>,
    /// Position of the next read
    pos: usize,
}

impl Importer {
    /// The archive's bytes
    pub closed spec fn data(&self) -> Seq<u8> {
        self.input@
    }

    /// Position of the next read
    pub closed spec fn pos(&self) -> nat {
        self.pos as nat
    }

    /// Whether the position lies within the archive
    pub closed spec fn wf(&self) -> bool {
        self.pos <= self.input@.len() && self.input@.len() <= usize::MAX
    }

    /// The archive of a consistent importer has a length that fits a `usize`
    pub proof fn lemma_wf_len(&self)
        requires
            self.wf(),
        ensures
            self.data().len() <= usize::MAX,
            self.pos() <= self.data().len(),
    {
    }

    /// Creates a new importer that imports from an archive: reads its header.
    pub fn new(input: Vec<u8>) -> (res: Result<Self, ImportError>)
        ensures
            match spec_read_archive_header(input@) {
                Ok(end) => res matches Ok(importer) && importer.data() == input@ && importer.pos() == end
                    && importer.wf(),
                Err(e) => res == Err::<Importer, ImportError>(e),
            },
    {
        assert(input@.len() == input.len());
        let pos = self::read_archive_header(input.as_slice())?;
        Ok(Importer { input, pos })
    }

    /// Seeks to an entry: to the position after its header, or the end of the
    /// archive if that lies past it.
    pub fn seek_entry(&mut self, entry: &DirEntry)
        ensures
            final(self).data() == old(self).data(),
            final(self).pos() == clamp_pos(old(self).data(), entry.import_pos as int),
            final(self).wf(),
    {
        let len = self.input.len();
        if entry.import_pos <= len as u64 {
            self.pos = entry.import_pos as usize;
        } else {
            self.pos = len;
        }
    }

    /// Skips over a directory's entries
    pub fn skip_dir_entries(&mut self, dir: DirHeader) -> (res: Result<(), ImportError>)
        requires
            old(self).wf(),
        ensures
            final(self).data() == old(self).data(),
            final(self).wf(),
            match spec_skip_dir_entries(old(self).data(), old(self).pos(), dir) {
                Ok(pos) => res is Ok && final(self).pos() == pos,
                Err(e) => res == Err::<(), ImportError>(e) && final(self).pos() == old(self).pos(),
            },
    {
        if dir.entries_offset > i64::MAX as u64 {
            return Err(ImportError::EntriesOffsetTooLarge { offset: dir.entries_offset });
        }
        let len = self.input.len();
        if dir.entries_offset <= (len - self.pos) as u64 {
            self.pos = self.pos + dir.entries_offset as usize;
        } else {
            self.pos = len;
        }
        Ok(())
    }

    /// Reads an entry.
    ///
    /// Appends the entry name to `name` and returns the appended
    /// range of the name.
    pub fn read_entry(&mut self, name: &mut Vec<u8>) -> (res: Result<(DirEntry, OsStrRange), ImportError>)
        requires
            old(self).wf(),
        ensures
            final(self).data() == old(self).data(),
            final(self).wf(),
            final(name)@ == old(name)@ + spec_name_read(old(self).data(), old(self).pos()),
            match spec_read_entry(old(self).data(), old(self).pos()) {
                Ok((entry, _nul, end)) => res == Ok::<(DirEntry, OsStrRange), ImportError>(
                    (entry, OsStrRange { start: old(name)@.len() as usize, end: final(name)@.len() as usize }),
                ) && final(self).pos() == end,
                Err(e) => res == Err::<(DirEntry, OsStrRange), ImportError>(e),
            },
    {
        assert(self.input@.len() == self.input.len());
        let (entry, name_range, pos) = self::read_entry(self.input.as_slice(), self.pos, name)?;
        self.pos = pos;
        Ok((entry, name_range))
    }

    /// Reads an entry's data, returning its total stats
    pub fn read_entry_stats(&mut self, entry: DirEntry) -> (res: Result<Stats, ImportError>)
        requires
            old(self).wf(),
        ensures
            final(self).data() == old(self).data(),
            final(self).wf(),
            match spec_read_entry_stats(old(self).data(), old(self).pos(), entry) {
                Ok((stats, end)) => res == Ok::<Stats, ImportError>(stats) && final(self).pos() == end,
                Err(e) => res == Err::<Stats, ImportError>(e),
            },
    {
        match entry.kind {
            DirEntryKind::Dir(dir) => {
                self.skip_dir_entries(dir)?;
                let footer = self.read_dir_footer()?;
                Ok(footer.stats)
            },
            DirEntryKind::File(file) => Ok(Stats { files: 1, size: file.size, blocks: file.blocks }),
            DirEntryKind::Symlink(symlink) => Ok(
                Stats { files: 1, size: symlink.size, blocks: symlink.blocks },
            ),
        }
    }

    /// Reads a directory footer
    pub fn read_dir_footer(&mut self) -> (res: Result<DirFooter, ImportError>)
        requires
            old(self).wf(),
        ensures
            final(self).data() == old(self).data(),
            final(self).wf(),
            match spec_read_dir_footer(old(self).data(), old(self).pos()) {
                Ok((footer, end)) => res == Ok::<DirFooter, ImportError>(footer) && final(self).pos() == end,
                Err(e) => res == Err::<DirFooter, ImportError>(e),
            },
    {
        assert(self.input@.len() == self.input.len());
        let (footer, pos) = self::read_dir_footer(self.input.as_slice(), self.pos)?;
        self.pos = pos;
        Ok(footer)
    }

    /// Finds the entry named `name` among the next `count` entries, skipping over the others
    fn find_entry(&mut self, count: u64, name: &[u8]) -> (res: Result<Option<DirEntry>, ImportError>)
        requires
            old(self).wf(),
        ensures
            final(self).data() == old(self).data(),
            final(self).wf(),
            match spec_find_entry(old(self).data(), old(self).pos(), count as nat, name@) {
                Ok(Some((entry, end))) => res == Ok::<Option<DirEntry>, ImportError>(Some(entry))
                    && final(self).pos() == end,
                Ok(None) => res == Ok::<Option<DirEntry>, ImportError>(None),
                Err(e) => res == Err::<Option<DirEntry>, ImportError>(e),
            },
    {
        let mut cur_name: Vec<u8> = Vec::new();
        let mut remaining = count;
        let ghost data = self.input@;
        let ghost goal = spec_find_entry(data, self.pos(), count as nat, name@);
        while remaining > 0
            invariant
                self.wf(),
                self.data() == data,
                data == old(self).data(),
                goal == spec_find_entry(old(self).data(), old(self).pos(), count as nat, name@),
                goal == spec_find_entry(
                    data,
                    self.pos(),
                    remaining as nat,
                    name@,
                ),
            decreases remaining,
        {
            let ghost pos = self.pos();
            cur_name.clear();
            let (entry, _) = self.read_entry(&mut cur_name)?;
            let ghost end = self.pos();
            proof {
                if let Ok((e, nul, end)) = spec_read_entry(data, pos) {
                    lemma_read_entry_name(data, pos);
                    assert(cur_name@ =~= data.subrange(pos as int, nul as int));
                }
            }
            if crate::util::bytes_eq(cur_name.as_slice(), name) {
                return Ok(Some(entry));
            }
            if let DirEntryKind::Dir(_) = entry.kind {
                self.read_entry_stats(entry)?;
            }
            remaining -= 1;
        }
        Ok(None)
    }

    /// Seeks this importer to a path within relative to an entry.
    ///
    /// The path may be either relative or absolute (if the path matches the root path of this import).
    /// An absolute path that does not lie within `entry_path` is refused with
    /// `PathNotWithinTree`, and nothing is read.
    ///
    /// The importer must stand just after `entry_import`'s header. Returns the
    /// entry that the path leads to and its path, `entry_path` extended with the
    /// path's names; the importer then stands just after that entry's header.
    /// Errors on a component give its index among the components relative to `entry_path`.
    pub fn seek_path(
        &mut self,
        entry_import: DirEntry,
        entry_path: Vec<u8>,
        path: &[u8],
    ) -> (res: Result<(DirEntry, Vec<u8>), ImportError>)
        requires
            old(self).wf(),
        ensures
            final(self).data() == old(self).data(),
            final(self).wf(),
            match relative_components(entry_path@, path@) {
                None => res == Err::<(DirEntry, Vec<u8>), ImportError>(ImportError::PathNotWithinTree)
                    && final(self).pos() == old(self).pos(),
                Some(segs) => match spec_seek_segments(old(self).data(), old(self).pos(), entry_import, entry_path@, segs, 0) {
                    Ok((entry, found_path, end)) => res matches Ok((e, p)) && e == entry && p@ == found_path
                        && final(self).pos() == end,
                    Err(e) => res matches Err(err) && err == e,
                },
            },
    {
        let components = match relative_path_components(entry_path.as_slice(), path) {
            Some(components) => components,
            None => return Err(ImportError::PathNotWithinTree),
        };
        proof {
            let segs = relative_components(entry_path@, path@).unwrap();
            lemma_seek_components_segments(self.data(), self.pos(), entry_import, entry_path@, components@, segs, 0);
        }
        self.seek_components(entry_import, entry_path, components.as_slice())
    }

    /// Seeks this importer to a path relative to an entry, given by its components.
    ///
    /// The importer must stand just after `entry_import`'s header. Returns the
    /// entry that the path leads to and its path, `entry_path` extended with the
    /// path's names; the importer then stands just after that entry's header.
    pub fn seek_components(
        &mut self,
        entry_import: DirEntry,
        entry_path: Vec<u8>,
        path: &[PathComponent],
    ) -> (res: Result<(DirEntry, Vec<u8>), ImportError>)
        requires
            old(self).wf(),
        ensures
            final(self).data() == old(self).data(),
            final(self).wf(),
            match spec_seek_path(old(self).data(), old(self).pos(), entry_import, entry_path@, path@, 0) {
                Ok((entry, found_path, end)) => res matches Ok((e, p)) && e == entry && p@ == found_path
                    && final(self).pos() == end,
                Err(e) => res matches Err(err) && err == e,
            },
    {
        let ghost data = self.input@;
        let ghost goal = spec_seek_path(data, self.pos(), entry_import, entry_path@, path@, 0);
        let mut cur_entry = entry_import;
        let mut cur_path = entry_path;
        let mut i: usize = 0;
        while i < path.len()
            invariant
                self.wf(),
                self.data() == data,
                data == old(self).data(),
                i <= path@.len(),
                goal == spec_seek_path(old(self).data(), old(self).pos(), entry_import, entry_path@, path@, 0),
                goal == spec_seek_path(data, self.pos(), cur_entry, cur_path@, path@, i as nat),
            decreases path@.len() - i,
        {
            match &path[i] {
                PathComponent::CurDir => {},
                PathComponent::ParentDir => {
                    return Err(ImportError::ParentDirUnsupported { component: i });
                },
                PathComponent::Normal(name) => match cur_entry.kind {
                    DirEntryKind::Dir(dir) => {
                        match self.find_entry(dir.entries_len, name.as_slice())? {
                            Some(entry) => {
                                cur_entry = entry;
                                crate::util::push_path(&mut cur_path, name.as_slice());
                            },
                            None => {
                                return Err(ImportError::EntryNotFound { component: i });
                            },
                        }
                    },
                    _ => {
                        return Err(ImportError::NotADirectory { component: i });
                    },
                },
            }
            i += 1;
        }
        Ok((cur_entry, cur_path))
    }
}

/// Reading an entry moves forward, and the entry starts where the reading stops.
pub proof fn lemma_read_entry_advances(data: Seq<u8>, pos: nat)
    requires
        data.len() <= u64::MAX,
    ensures
        spec_read_entry(data, pos) matches Ok((entry, nul, end)) ==> pos <= nul && nul + 2 <= end
            <= data.len() && entry.import_pos == end,
{
    lemma_find_nul_range(data, pos as int);
    if let Some(nul) = find_nul(data, pos as int) {
        let p = (nul + 2) as nat;
        if p <= data.len() {
            lemma_read_u64_bound(data, p);
            if let Ok((_, q)) = spec_read_u64(data, p) {
                lemma_read_u64_bound(data, q);
            }
        }
    }
}

/// Reading a variable-length `u64` moves forward within the data.
pub proof fn lemma_read_u64_bound(data: Seq<u8>, pos: nat)
    ensures
        spec_read_u64(data, pos) matches Ok((_, end)) ==> pos < end <= data.len(),
{
    if pos <= data.len() {
        var_int::lemma_decoding_fits(data.skip(pos as int));
    }
}

/// Reading an entry's stats moves forward within the data.
pub proof fn lemma_read_entry_stats_advances(data: Seq<u8>, pos: nat, entry: DirEntry)
    requires
        pos <= data.len(),
    ensures
        spec_read_entry_stats(data, pos, entry) matches Ok((_, end)) ==> pos <= end <= data.len(),
{
    if let DirEntryKind::Dir(dir) = entry.kind {
        if let Ok(p) = spec_skip_dir_entries(data, pos, dir) {
            lemma_read_u64_bound(data, p);
            if let Ok((_, q)) = spec_read_u64(data, p) {
                lemma_read_u64_bound(data, q);
                if let Ok((_, r)) = spec_read_u64(data, q) {
                    lemma_read_u64_bound(data, r);
                }
            }
        }
    }
}

/// The name that reading an entry appends is its bytes up to the nul byte.
proof fn lemma_read_entry_name(data: Seq<u8>, pos: nat)
    requires
        spec_read_entry(data, pos) is Ok,
    ensures
        spec_read_entry(data, pos) matches Ok((_, nul, _)) && find_nul(data, pos as int) == Some(nul as int)
            && spec_name_read(data, pos) == data.subrange(pos as int, nul as int),
{
    lemma_find_nul_range(data, pos as int);
}

/// A nul byte that `find_nul` finds lies at or after where it starts.
pub(crate) proof fn lemma_find_nul_range(data: Seq<u8>, from: int)
    ensures
        find_nul(data, from) matches Some(i) ==> 0 <= from <= i < data.len() && data[i] == 0,
    decreases data.len() - from,
{
    if 0 <= from < data.len() && data[from] != 0 {
        lemma_find_nul_range(data, from + 1);
    }
}

} // verus!
