//! Analyze entry

use {
    crate::{
        archive::import::{spec_name_read, spec_read_entry, spec_read_entry_stats, DirEntry, ImportError, Importer},
        stats::Stats,
        util::OsStrRange,
    },
    vstd::prelude::*,
};

verus! {

/// Directory entry.
#[derive(PartialEq, Eq, Structural, Clone, Copy, Debug)]
pub enum Entry {
    /// A directory entry from the import
    Import(ImportEntry),
    /// A group of directory entries
    Group(GroupEntry),
}

/// Import entry
#[derive(PartialEq, Eq, Structural, Clone, Copy, Debug)]
pub struct ImportEntry {
    pub name_range: OsStrRange,
    pub stats: Stats,
    pub import: DirEntry,
}

/// Group of entries
#[derive(PartialEq, Eq, Structural, Clone, Copy, Debug)]
pub struct GroupEntry {
    /// Number of entries in this group
    pub len: u64,
    /// Total stats
    pub stats: Stats,
}

impl Entry {
    /// The stats of this entry
    pub open spec fn spec_stats(self) -> Stats {
        match self {
            Entry::Import(entry) => entry.stats,
            Entry::Group(entry) => entry.stats,
        }
    }

    /// Whether this entry is a group or a directory
    pub open spec fn spec_is_group_or_dir(self) -> bool {
        match self {
            Entry::Import(entry) => entry.import.kind is Dir,
            Entry::Group(_) => true,
        }
    }

    /// Gets the stats of this entry
    pub fn stats(&self) -> (stats: Stats)
        ensures
            stats == self.spec_stats(),
    {
        match self {
            Entry::Import(entry) => entry.stats,
            Entry::Group(entry) => entry.stats,
        }
    }

    /// Returns if this entry is a group or a directory
    pub fn is_group_or_dir(&self) -> (b: bool)
        ensures
            b == self.spec_is_group_or_dir(),
    {
        match self {
            Entry::Import(entry) => entry.import.kind.is_dir(),
            Entry::Group(_) => true,
        }
    }

    /// Returns if this entry is from the import
    pub fn is_import(&self) -> (b: bool)
        ensures
            b == (self is Import),
    {
        matches!(self, Entry::Import(_))
    }

    /// Returns if this entry is a group
    pub fn is_group(&self) -> (b: bool)
        ensures
            b == (self is Group),
    {
        matches!(self, Entry::Group(_))
    }
}

/// Reads an entry from an import: its name, appended to `names`, and its stats.
pub fn read_from_import(importer: &mut Importer, names: &mut Vec<u8>) -> (res: Result<ImportEntry, ImportError>)
    requires
        old(importer).wf(),
    ensures
        final(importer).data() == old(importer).data(),
        final(importer).wf(),
        final(names)@ == old(names)@ + spec_name_read(old(importer).data(), old(importer).pos()),
        match spec_read_entry(old(importer).data(), old(importer).pos()) {
            Err(e) => res == Err::<ImportEntry, ImportError>(e),
            Ok((import, _nul, end)) => match spec_read_entry_stats(old(importer).data(), end, import) {
                Err(e) => res == Err::<ImportEntry, ImportError>(e),
                Ok((stats, after)) => res == Ok::<ImportEntry, ImportError>(
                    ImportEntry {
                        name_range: OsStrRange { start: old(names)@.len() as usize, end: final(names)@.len() as usize },
                        stats,
                        import,
                    },
                ) && final(importer).pos() == after,
            },
        },
{
    let (import, name_range) = importer.read_entry(names)?;
    let stats = importer.read_entry_stats(import)?;
    Ok(ImportEntry { name_range, stats, import })
}

} // verus!
