//! Export

use {
    super::{
        archive_header_bytes, dir_footer_bytes, dir_header_bytes, file_bytes, os_str_bytes,
        EntryKind, ARCHIVE_VERSION, DIR_HEADER_SIZE, MAGIC,
    },
    crate::{
        stats::{stats_add_fits, stats_sum, Stats},
        util::var_int::{self, encoding},
    },
    vstd::bytes::{spec_u64_to_le_bytes, u32_to_le_bytes, u64_to_le_bytes},
    vstd::prelude::*,
};

verus! {

/// The data of an entry that the exporter writes: what a scan reads from its metadata
#[derive(PartialEq, Eq, Structural, Clone, Copy, Debug)]
pub struct Metadata {
    pub size: u64,
    pub blocks: u64,
}

/// Exporter.
///
/// Holds the archive written so far; the caller stores it where it wants once finished.
#[derive(Debug)]
pub struct Exporter {
    /// Output
    output: Vec<u8>,
    /// Last entry's position
    last_entry_pos: usize,
}

impl View for Exporter {
    type V = Seq<u8>;

    closed spec fn view(&self) -> Seq<u8> {
        self.output@
    }
}

impl Exporter {
    /// Position of the last entry that was started
    pub closed spec fn last_entry_pos(&self) -> nat {
        self.last_entry_pos as nat
    }

    /// Whether the exporter is consistent: the last entry lies within what was written
    pub closed spec fn wf(&self) -> bool {
        self.last_entry_pos <= self.output@.len()
    }

    /// The last entry of a consistent exporter starts within what was written
    pub proof fn lemma_wf(&self)
        requires
            self.wf(),
        ensures
            self.last_entry_pos() <= self@.len(),
    {
    }

    /// Creates a new exporter.
    ///
    /// Writes the header already
    pub fn new() -> (exporter: Self)
        ensures
            exporter@ == archive_header_bytes(),
            exporter.last_entry_pos() == 0,
            exporter.wf(),
    {
        let mut output = Vec::new();
        self::write_archive_header(&mut output);
        Exporter { output, last_entry_pos: 0 }
    }

    /// The number of bytes written so far
    pub fn position(&self) -> (pos: usize)
        ensures
            pos == self@.len(),
    {
        self.output.len()
    }

    /// Finishes writing the export, returning the archive
    pub fn finish(self) -> (archive: Vec<u8>)
        ensures
            archive@ == self@,
    {
        self.output
    }

    /// Starts writing an entry from its metadata: writes its name
    pub fn write_entry_from_metadata(&mut self, name: &[u8], metadata: Metadata) -> (entry:
        DirEntryExporter)
        ensures
            final(self)@ == old(self)@ + os_str_bytes(name@),
            final(self).last_entry_pos() == old(self)@.len(),
            final(self).wf(),
            entry.metadata == metadata,
    {
        self.last_entry_pos = self.output.len();
        self::write_entry_header(&mut self.output, name);
        DirEntryExporter { metadata }
    }

    /// Undoes the previously written entry, dropping everything written since it started
    pub fn undo_last_entry(&mut self)
        requires
            old(self).wf(),
        ensures
            final(self)@ == old(self)@.take(old(self).last_entry_pos() as int),
            final(self).last_entry_pos() == old(self).last_entry_pos(),
            final(self).wf(),
    {
        self.output.truncate(self.last_entry_pos);
    }
}

/// Directory entry exporter: an entry whose name was written, but not its data
#[derive(Debug)]
pub struct DirEntryExporter {
    pub metadata: Metadata,
}

impl DirEntryExporter {
    /// Starts writing a directory: its kind, and room for its header
    pub fn write_dir(self, exporter: &mut Exporter) -> (dir: DirExporter)
        ensures
            final(exporter)@ == old(exporter)@.push(EntryKind::Dir.spec_repr()) + Seq::new(
                DIR_HEADER_SIZE as nat,
                |_i: int| 0u8,
            ),
            final(exporter).last_entry_pos() == old(exporter).last_entry_pos(),
            old(exporter).wf() ==> final(exporter).wf(),
            dir.metadata == self.metadata,
            dir.header_pos == old(exporter)@.len() + 1,
    {
        self::write_u8(&mut exporter.output, EntryKind::Dir.repr());
        let header_pos = exporter.output.len();
        let ghost before = exporter.output@;
        let ghost lep = exporter.last_entry_pos;
        let mut i: u16 = 0;
        while i < DIR_HEADER_SIZE
            invariant
                i <= DIR_HEADER_SIZE,
                exporter.last_entry_pos == lep,
                exporter.output@ == before + Seq::new(i as nat, |_i: int| 0u8),
            decreases DIR_HEADER_SIZE - i,
        {
            exporter.output.push(0);
            i += 1;
            assert(exporter.output@ =~= before + Seq::new(i as nat, |_i: int| 0u8));
        }
        DirExporter { metadata: self.metadata, header_pos }
    }

    /// Writes a file
    pub fn write_file(self, exporter: &mut Exporter)
        ensures
            final(exporter)@ == old(exporter)@.push(EntryKind::File.spec_repr()) + file_bytes(
                self.metadata.size,
                self.metadata.blocks,
            ),
            final(exporter).last_entry_pos() == old(exporter).last_entry_pos(),
            old(exporter).wf() ==> final(exporter).wf(),
    {
        self::write_u8(&mut exporter.output, EntryKind::File.repr());
        self::write_file(&mut exporter.output, self.metadata.size, self.metadata.blocks);
    }

    /// Writes a symlink
    pub fn write_symlink(self, exporter: &mut Exporter)
        ensures
            final(exporter)@ == old(exporter)@.push(EntryKind::Symlink.spec_repr()) + file_bytes(
                self.metadata.size,
                self.metadata.blocks,
            ),
            final(exporter).last_entry_pos() == old(exporter).last_entry_pos(),
            old(exporter).wf() ==> final(exporter).wf(),
    {
        self::write_u8(&mut exporter.output, EntryKind::Symlink.repr());
        self::write_symlink(&mut exporter.output, self.metadata.size, self.metadata.blocks);
    }
}

/// Directory exporter: a directory whose entries are being written
#[derive(Debug)]
pub struct DirExporter {
    pub metadata: Metadata,
    /// Header position
    pub header_pos: usize,
}

/// The stats of a directory: itself, as one file, and its entries
pub open spec fn dir_total_stats(metadata: Metadata, children_stats: Stats) -> Stats {
    stats_sum(Stats { files: 1, size: metadata.size, blocks: metadata.blocks }, children_stats)
}

/// Whether the stats of a directory fit
pub open spec fn dir_total_stats_fit(metadata: Metadata, children_stats: Stats) -> bool {
    stats_add_fits(Stats { files: 1, size: metadata.size, blocks: metadata.blocks }, children_stats)
}

impl DirExporter {
    /// Finishes writing this directory: writes its footer, with the stats of
    /// the directory and its `len` entries, and fills in its header.
    pub fn finish(self, exporter: &mut Exporter, len: u64, children_stats: Stats)
        requires
            self.header_pos + DIR_HEADER_SIZE <= old(exporter)@.len(),
            dir_total_stats_fit(self.metadata, children_stats),
        ensures
            ({
                let old_bytes = old(exporter)@;
                let entries_start = self.header_pos + DIR_HEADER_SIZE;
                let total = dir_total_stats(self.metadata, children_stats);
                final(exporter)@ == old_bytes.take(self.header_pos as int) + dir_header_bytes(
                    (old_bytes.len() - entries_start) as u64,
                    len,
                ) + old_bytes.skip(entries_start) + dir_footer_bytes(
                    total.size,
                    total.blocks,
                    total.files,
                )
            }),
            final(exporter).last_entry_pos() == old(exporter).last_entry_pos(),
            old(exporter).wf() ==> final(exporter).wf(),
    {
        let entries_end_pos = exporter.output.len();
        let entry_stats = Stats { files: 1, size: self.metadata.size, blocks: self.metadata.blocks };
        let total_stats = entry_stats.add(children_stats);
        let ghost before = exporter.output@;
        self::write_dir_footer(&mut exporter.output, total_stats);

        let entries_start_pos = self.header_pos + DIR_HEADER_SIZE as usize;
        let entries_offset = (entries_end_pos - entries_start_pos) as u64;

        let mut header = Vec::new();
        self::write_dir_header(&mut header, entries_offset, len);
        let ghost after_footer = exporter.output@;
        let ghost lep = exporter.last_entry_pos;
        let out_len = exporter.output.len();
        let mut i: usize = 0;
        while i < header.len()
            invariant
                exporter.last_entry_pos == lep,
                exporter.output@.len() == out_len,
                self.header_pos + DIR_HEADER_SIZE <= exporter.output@.len(),
                header@.len() == DIR_HEADER_SIZE,
                i <= header@.len(),
                self.header_pos + DIR_HEADER_SIZE <= before.len(),
                after_footer.len() == exporter.output@.len(),
                forall|j: int|
                    0 <= j < exporter.output@.len() ==> #[trigger] exporter.output@[j] == if self.header_pos
                        <= j < self.header_pos + i {
                        header@[j - self.header_pos]
                    } else {
                        after_footer[j]
                    },
            decreases header@.len() - i,
        {
            exporter.output.set(self.header_pos + i, header[i]);
            i += 1;
        }
        proof {
            let total = dir_total_stats(self.metadata, children_stats);
            assert(exporter.output@ =~= before.take(self.header_pos as int) + dir_header_bytes(
                entries_offset,
                len,
            ) + before.skip(entries_start_pos as int) + dir_footer_bytes(
                total.size,
                total.blocks,
                total.files,
            ));
        }
    }
}

/// Writes the archive header
pub fn write_archive_header(writer: &mut Vec<u8>)
    ensures
        final(writer)@ == old(writer)@ + archive_header_bytes(),
{
    let magic = MAGIC;
    writer.extend_from_slice(&magic);
    let version = u32_to_le_bytes(ARCHIVE_VERSION);
    writer.extend_from_slice(version.as_slice());
}

/// Writes an entry header: its name
pub fn write_entry_header(writer: &mut Vec<u8>, name: &[u8])
    ensures
        final(writer)@ == old(writer)@ + os_str_bytes(name@),
{
    self::write_os_str(writer, name);
}

/// Writes a directory header
pub fn write_dir_header(writer: &mut Vec<u8>, entries_offset: u64, entries_len: u64)
    ensures
        final(writer)@ == old(writer)@ + dir_header_bytes(entries_offset, entries_len),
        final(writer)@.len() == old(writer)@.len() + DIR_HEADER_SIZE,
{
    proof {
        vstd::bytes::lemma_auto_spec_u64_to_from_le_bytes();
    }
    self::write_u64_fixed(writer, entries_offset);
    self::write_u64_fixed(writer, entries_len);
    assert(writer@ =~= old(writer)@ + dir_header_bytes(entries_offset, entries_len));
}

/// Writes a directory footer
pub fn write_dir_footer(writer: &mut Vec<u8>, total_stats: Stats)
    ensures
        final(writer)@ == old(writer)@ + dir_footer_bytes(
            total_stats.size,
            total_stats.blocks,
            total_stats.files,
        ),
{
    self::write_u64(writer, total_stats.size);
    self::write_u64(writer, total_stats.blocks);
    self::write_u64(writer, total_stats.files);
    assert(writer@ =~= old(writer)@ + dir_footer_bytes(
        total_stats.size,
        total_stats.blocks,
        total_stats.files,
    ));
}

/// Writes a file
pub fn write_file(writer: &mut Vec<u8>, size: u64, blocks: u64)
    ensures
        final(writer)@ == old(writer)@ + file_bytes(size, blocks),
{
    self::write_u64(writer, size);
    self::write_u64(writer, blocks);
    assert(writer@ =~= old(writer)@ + file_bytes(size, blocks));
}

/// Writes a symlink
pub fn write_symlink(writer: &mut Vec<u8>, size: u64, blocks: u64)
    ensures
        final(writer)@ == old(writer)@ + file_bytes(size, blocks),
{
    self::write_u64(writer, size);
    self::write_u64(writer, blocks);
    assert(writer@ =~= old(writer)@ + file_bytes(size, blocks));
}

/// Writes a variable-length `u64`
pub fn write_u64(writer: &mut Vec<u8>, n: u64)
    ensures
        final(writer)@ == old(writer)@ + encoding(n),
{
    var_int::encode(writer, n);
}

/// Writes a fixed-length `u64`
pub fn write_u64_fixed(writer: &mut Vec<u8>, n: u64)
    ensures
        final(writer)@ == old(writer)@ + spec_u64_to_le_bytes(n),
{
    let bytes = u64_to_le_bytes(n);
    writer.extend_from_slice(bytes.as_slice());
}

/// Writes a `u8`
pub fn write_u8(writer: &mut Vec<u8>, n: u8)
    ensures
        final(writer)@ == old(writer)@.push(n),
{
    writer.push(n);
}

/// Writes a name: its bytes and a nul byte
pub fn write_os_str(writer: &mut Vec<u8>, s: &[u8])
    ensures
        final(writer)@ == old(writer)@ + os_str_bytes(s@),
{
    writer.extend_from_slice(s);
    writer.push(0);
    assert(writer@ =~= old(writer)@ + os_str_bytes(s@));
}

} // verus!
