//! Archive
//!
//! An archive is the magic `zduA`, a little-endian `u32` version, and then
//! one entry, the root. An entry is its name followed by a nul byte, a kind
//! byte, and then, by kind:
//! - a directory: a header of two little-endian `u64`s (the number of bytes
//!   that its entries take, and the number of its entries), its entries, and a
//!   footer of three variable-length integers (total size, blocks and files);
//! - a file or a symlink: two variable-length integers, its size and blocks.

pub mod export;
pub mod import;
pub mod roundtrip;

use crate::util::var_int::encoding;
use vstd::bytes::{spec_u32_to_le_bytes, spec_u64_to_le_bytes};
use vstd::prelude::*;

verus! {

/// Entry kind
#[derive(PartialEq, Eq, Structural, Clone, Copy, Debug)]
pub enum EntryKind {
    Dir,
    File,
    Symlink,
}

impl EntryKind {
    /// The byte that stands for this kind in an archive
    pub open spec fn spec_repr(self) -> u8 {
        match self {
            EntryKind::Dir => 0,
            EntryKind::File => 1,
            EntryKind::Symlink => 2,
        }
    }

    /// The byte that stands for this kind in an archive
    pub fn repr(self) -> (byte: u8)
        ensures
            byte == self.spec_repr(),
    {
        match self {
            EntryKind::Dir => 0,
            EntryKind::File => 1,
            EntryKind::Symlink => 2,
        }
    }

    /// The kind that a byte stands for, if any
    pub open spec fn spec_from_repr(byte: u8) -> Option<EntryKind> {
        if byte == 0 {
            Some(EntryKind::Dir)
        } else if byte == 1 {
            Some(EntryKind::File)
        } else if byte == 2 {
            Some(EntryKind::Symlink)
        } else {
            None
        }
    }

    /// The kind that a byte stands for, if any
    pub fn from_repr(byte: u8) -> (kind: Option<EntryKind>)
        ensures
            kind == EntryKind::spec_from_repr(byte),
    {
        match byte {
            0 => Some(EntryKind::Dir),
            1 => Some(EntryKind::File),
            2 => Some(EntryKind::Symlink),
            _ => None,
        }
    }

    /// Whether this is a directory
    pub fn is_dir(self) -> (b: bool)
        ensures
            b == (self == EntryKind::Dir),
    {
        matches!(self, EntryKind::Dir)
    }
}

/// A kind's byte reads back as that kind, and a byte that reads as a kind is that kind's byte.
pub proof fn lemma_entry_kind_repr_roundtrip(kind: EntryKind, byte: u8)
    ensures
        EntryKind::spec_from_repr(kind.spec_repr()) == Some(kind),
        EntryKind::spec_from_repr(byte) == Some(kind) ==> kind.spec_repr() == byte,
{
}

/// Magic
pub const MAGIC: [u8; 4] = [0x7a, 0x64, 0x75, 0x41];

/// Latest archive version
pub const ARCHIVE_VERSION: u32 = 0;

/// Directory header size
pub const DIR_HEADER_SIZE: u16 = 16;

/// The archive header: the magic and the version
pub open spec fn archive_header_bytes() -> Seq<u8> {
    MAGIC@ + spec_u32_to_le_bytes(ARCHIVE_VERSION)
}

/// A name as an archive stores it: its bytes and a nul byte
pub open spec fn os_str_bytes(name: Seq<u8>) -> Seq<u8> {
    name.push(0)
}

/// A directory header
pub open spec fn dir_header_bytes(entries_offset: u64, entries_len: u64) -> Seq<u8> {
    spec_u64_to_le_bytes(entries_offset) + spec_u64_to_le_bytes(entries_len)
}

/// A directory footer, with the total size, blocks and files
pub open spec fn dir_footer_bytes(size: u64, blocks: u64, files: u64) -> Seq<u8> {
    encoding(size) + encoding(blocks) + encoding(files)
}

/// The data of a file or a symlink
pub open spec fn file_bytes(size: u64, blocks: u64) -> Seq<u8> {
    encoding(size) + encoding(blocks)
}

/// Whether a name can be stored: it holds no nul byte
pub open spec fn is_storable_name(name: Seq<u8>) -> bool {
    forall|i: int| 0 <= i < name.len() ==> name[i] != 0
}

} // verus!
