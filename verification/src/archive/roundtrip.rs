//! What the exporter writes, the importer reads back

use {
    super::{
        archive_header_bytes, dir_footer_bytes, dir_header_bytes, file_bytes, is_storable_name,
        os_str_bytes, EntryKind,
        import::{
            find_nul, lemma_find_nul, spec_name_read, spec_read_archive_header, spec_read_dir_footer,
            spec_read_dir_header, spec_read_entry, spec_read_entry_stats, spec_read_u64,
            spec_read_u64_fixed, spec_read_u64_pair, spec_read_u8, DirEntry, DirEntryKind, DirFooter,
            DirHeader, File, ImportError, Symlink,
        },
    },
    crate::{stats::Stats, util::var_int},
    vstd::bytes::{spec_u32_to_le_bytes, spec_u64_to_le_bytes},
    vstd::prelude::*,
};

verus! {

/// A variable-length `u64` reads back as itself, wherever it stands.
pub proof fn lemma_read_u64_roundtrip(prefix: Seq<u8>, n: u64, rest: Seq<u8>)
    ensures
        spec_read_u64(prefix + var_int::encoding(n) + rest, prefix.len()) == Ok::<(u64, nat), ImportError>(
            (n, prefix.len() + var_int::encoding(n).len()),
        ),
{
    let data = prefix + var_int::encoding(n) + rest;
    assert(data.skip(prefix.len() as int) =~= var_int::encoding(n) + rest);
    var_int::lemma_decode_encode(n, rest);
}

/// A fixed-length `u64` reads back as itself, wherever it stands.
pub proof fn lemma_read_u64_fixed_roundtrip(prefix: Seq<u8>, n: u64, rest: Seq<u8>)
    ensures
        spec_read_u64_fixed(prefix + spec_u64_to_le_bytes(n) + rest, prefix.len()) == Ok::<(u64, nat), ImportError>(
            (n, prefix.len() + 8),
        ),
{
    vstd::bytes::lemma_auto_spec_u64_to_from_le_bytes();
    let data = prefix + spec_u64_to_le_bytes(n) + rest;
    assert(data.subrange(prefix.len() as int, prefix.len() + 8int) =~= spec_u64_to_le_bytes(n));
}

/// The data of a file or symlink reads back as its size and blocks.
pub proof fn lemma_read_file_roundtrip(prefix: Seq<u8>, size: u64, blocks: u64, rest: Seq<u8>)
    ensures
        spec_read_u64_pair(prefix + file_bytes(size, blocks) + rest, prefix.len()) == Ok::<(u64, u64, nat), ImportError>(
            (size, blocks, prefix.len() + file_bytes(size, blocks).len()),
        ),
{
    let data = prefix + file_bytes(size, blocks) + rest;
    lemma_read_u64_roundtrip(prefix, size, var_int::encoding(blocks) + rest);
    assert(prefix + var_int::encoding(size) + (var_int::encoding(blocks) + rest) =~= data);
    lemma_read_u64_roundtrip(prefix + var_int::encoding(size), blocks, rest);
    assert(prefix + var_int::encoding(size) + var_int::encoding(blocks) + rest =~= data);
}

/// A directory header reads back as its fields.
pub proof fn lemma_read_dir_header_roundtrip(prefix: Seq<u8>, entries_offset: u64, entries_len: u64, rest: Seq<u8>)
    ensures
        spec_read_dir_header(prefix + dir_header_bytes(entries_offset, entries_len) + rest, prefix.len())
            == Ok::<(DirHeader, nat), ImportError>(
            (DirHeader { entries_offset, entries_len }, prefix.len() + 16),
        ),
{
    vstd::bytes::lemma_auto_spec_u64_to_from_le_bytes();
    let data = prefix + dir_header_bytes(entries_offset, entries_len) + rest;
    lemma_read_u64_fixed_roundtrip(prefix, entries_offset, spec_u64_to_le_bytes(entries_len) + rest);
    assert(prefix + spec_u64_to_le_bytes(entries_offset) + (spec_u64_to_le_bytes(entries_len) + rest) =~= data);
    lemma_read_u64_fixed_roundtrip(prefix + spec_u64_to_le_bytes(entries_offset), entries_len, rest);
    assert(prefix + spec_u64_to_le_bytes(entries_offset) + spec_u64_to_le_bytes(entries_len) + rest =~= data);
}

/// A directory footer reads back as the stats it was written with.
pub proof fn lemma_read_dir_footer_roundtrip(prefix: Seq<u8>, stats: Stats, rest: Seq<u8>)
    ensures
        spec_read_dir_footer(prefix + dir_footer_bytes(stats.size, stats.blocks, stats.files) + rest, prefix.len())
            == Ok::<(DirFooter, nat), ImportError>(
            (DirFooter { stats }, prefix.len() + dir_footer_bytes(stats.size, stats.blocks, stats.files).len()),
        ),
{
    let data = prefix + dir_footer_bytes(stats.size, stats.blocks, stats.files) + rest;
    lemma_read_file_roundtrip(prefix, stats.size, stats.blocks, var_int::encoding(stats.files) + rest);
    assert(prefix + file_bytes(stats.size, stats.blocks) + (var_int::encoding(stats.files) + rest) =~= data);
    lemma_read_u64_roundtrip(prefix + file_bytes(stats.size, stats.blocks), stats.files, rest);
    assert(prefix + file_bytes(stats.size, stats.blocks) + var_int::encoding(stats.files) + rest =~= data);
}

/// The archive header reads back, whatever follows it.
pub proof fn lemma_read_archive_header_roundtrip(rest: Seq<u8>)
    ensures
        spec_read_archive_header(archive_header_bytes() + rest) == Ok::<nat, ImportError>(8),
{
    vstd::bytes::lemma_auto_spec_u32_to_from_le_bytes();
    let data = archive_header_bytes() + rest;
    assert(spec_u32_to_le_bytes(0u32).len() == 4);
    assert(data.subrange(0, 4) =~= super::MAGIC@);
    assert(data.subrange(4, 8) =~= spec_u32_to_le_bytes(0u32));
}

/// The bytes of an entry whose name and kind were written at `prefix.len()`,
/// followed by `data`
pub open spec fn entry_bytes(prefix: Seq<u8>, name: Seq<u8>, kind: EntryKind, data: Seq<u8>) -> Seq<u8> {
    prefix + os_str_bytes(name) + seq![kind.spec_repr()] + data
}

proof fn lemma_entry_name(prefix: Seq<u8>, name: Seq<u8>, kind: EntryKind, data: Seq<u8>)
    requires
        is_storable_name(name),
    ensures
        ({
            let all = entry_bytes(prefix, name, kind, data);
            let nul = prefix.len() + name.len();
            &&& find_nul(all, prefix.len() as int) == Some(nul as int)
            &&& spec_read_u8(all, nul + 1) == Ok::<(u8, nat), ImportError>((kind.spec_repr(), nul + 2))
            &&& all.subrange(prefix.len() as int, nul as int) == name
            &&& all.skip(nul + 2int) == data
        }),
{
    let all = entry_bytes(prefix, name, kind, data);
    let nul = prefix.len() + name.len();
    assert forall|j: int| prefix.len() <= j < nul implies all[j] != 0 by {
        assert(all[j] == name[j - prefix.len()]);
    }
    assert(all[nul as int] == 0);
    lemma_find_nul(all, prefix.len() as int, nul as int);
    assert(all.subrange(prefix.len() as int, nul as int) =~= name);
    assert(all.skip(nul + 2int) =~= data);
}

/// A file entry reads back as its name, size and blocks.
pub proof fn lemma_read_file_entry_roundtrip(prefix: Seq<u8>, name: Seq<u8>, size: u64, blocks: u64, rest: Seq<u8>)
    requires
        is_storable_name(name),
    ensures
        ({
            let all = entry_bytes(prefix, name, EntryKind::File, file_bytes(size, blocks) + rest);
            let nul = prefix.len() + name.len();
            let end = nul + 2 + file_bytes(size, blocks).len();
            &&& spec_read_entry(all, prefix.len()) == Ok::<(DirEntry, nat, nat), ImportError>(
                (DirEntry { import_pos: end as u64, kind: DirEntryKind::File(File { size, blocks }) }, nul, end),
            )
            &&& spec_name_read(all, prefix.len()) == name
        }),
{
    let all = entry_bytes(prefix, name, EntryKind::File, file_bytes(size, blocks) + rest);
    let nul = prefix.len() + name.len();
    lemma_entry_name(prefix, name, EntryKind::File, file_bytes(size, blocks) + rest);
    let head = prefix + os_str_bytes(name) + seq![EntryKind::File.spec_repr()];
    assert(head.len() == nul + 2);
    assert(head + file_bytes(size, blocks) + rest =~= all);
    lemma_read_file_roundtrip(head, size, blocks, rest);
}

/// A symlink entry reads back as its name, size and blocks.
pub proof fn lemma_read_symlink_entry_roundtrip(prefix: Seq<u8>, name: Seq<u8>, size: u64, blocks: u64, rest: Seq<u8>)
    requires
        is_storable_name(name),
    ensures
        ({
            let all = entry_bytes(prefix, name, EntryKind::Symlink, file_bytes(size, blocks) + rest);
            let nul = prefix.len() + name.len();
            let end = nul + 2 + file_bytes(size, blocks).len();
            &&& spec_read_entry(all, prefix.len()) == Ok::<(DirEntry, nat, nat), ImportError>(
                (DirEntry { import_pos: end as u64, kind: DirEntryKind::Symlink(Symlink { size, blocks }) }, nul, end),
            )
            &&& spec_name_read(all, prefix.len()) == name
        }),
{
    let all = entry_bytes(prefix, name, EntryKind::Symlink, file_bytes(size, blocks) + rest);
    let nul = prefix.len() + name.len();
    lemma_entry_name(prefix, name, EntryKind::Symlink, file_bytes(size, blocks) + rest);
    let head = prefix + os_str_bytes(name) + seq![EntryKind::Symlink.spec_repr()];
    assert(head.len() == nul + 2);
    assert(head + file_bytes(size, blocks) + rest =~= all);
    lemma_read_file_roundtrip(head, size, blocks, rest);
}

/// A directory entry, as a finished `DirExporter` leaves it, reads back: its
/// name, its header with the number of bytes that its entries take and their
/// number, and, after skipping its entries, the stats of its footer.
pub proof fn lemma_read_dir_entry_roundtrip(
    prefix: Seq<u8>,
    name: Seq<u8>,
    entries: Seq<u8>,
    entries_len: u64,
    stats: Stats,
    rest: Seq<u8>,
)
    requires
        is_storable_name(name),
        entries.len() <= i64::MAX,
    ensures
        ({
            let footer = dir_footer_bytes(stats.size, stats.blocks, stats.files);
            let all = entry_bytes(
                prefix,
                name,
                EntryKind::Dir,
                dir_header_bytes(entries.len() as u64, entries_len) + entries + footer + rest,
            );
            let nul = prefix.len() + name.len();
            let start = nul + 2 + 16;
            let entry = DirEntry {
                import_pos: start as u64,
                kind: DirEntryKind::Dir(DirHeader { entries_offset: entries.len() as u64, entries_len }),
            };
            &&& spec_read_entry(all, prefix.len()) == Ok::<(DirEntry, nat, nat), ImportError>((entry, nul, start))
            &&& spec_name_read(all, prefix.len()) == name
            &&& spec_read_entry_stats(all, start, entry) == Ok::<(Stats, nat), ImportError>(
                (stats, start + entries.len() + footer.len()),
            )
        }),
{
    let footer = dir_footer_bytes(stats.size, stats.blocks, stats.files);
    let header = dir_header_bytes(entries.len() as u64, entries_len);
    let all = entry_bytes(prefix, name, EntryKind::Dir, header + entries + footer + rest);
    let nul = prefix.len() + name.len();
    lemma_entry_name(prefix, name, EntryKind::Dir, header + entries + footer + rest);
    let head = prefix + os_str_bytes(name) + seq![EntryKind::Dir.spec_repr()];
    assert(head.len() == nul + 2);
    assert(head + header + (entries + footer + rest) =~= all);
    lemma_read_dir_header_roundtrip(head, entries.len() as u64, entries_len, entries + footer + rest);
    let before_footer = head + header + entries;
    assert(before_footer + footer + rest =~= all);
    vstd::bytes::lemma_auto_spec_u64_to_from_le_bytes();
    assert(before_footer.len() == nul + 2 + 16 + entries.len());
    lemma_read_dir_footer_roundtrip(before_footer, stats, rest);
}

} // verus!
