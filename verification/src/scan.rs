//! Scan: what to do with each entry that a scan of the filesystem meets

use {
    crate::{
        archive::{
            archive_header_bytes, dir_footer_bytes, dir_header_bytes,
            export::{dir_total_stats, dir_total_stats_fit, DirEntryExporter, DirExporter, Exporter, Metadata},
            file_bytes,
            import::{spec_name_read, spec_read_entry, spec_read_entry_stats, DirEntry, DirEntryKind, DirHeader, ImportError},
            is_storable_name, os_str_bytes,
            roundtrip::{entry_bytes, lemma_read_dir_entry_roundtrip},
            EntryKind, DIR_HEADER_SIZE,
        },
        stats::{stats_add_fits, stats_sum, zero_stats, Stats},
    },
    std::collections::{HashMap, HashSet},
    vstd::prelude::*,
};

verus! {

broadcast use vstd::std_specs::hash::group_hash_axioms;

/// The type of a file, as its metadata tells
#[derive(PartialEq, Eq, Structural, Clone, Copy, Debug)]
pub enum FileType {
    Dir,
    File,
    Symlink,
    Other,
}

/// What a scan reads of an entry before deciding what to do with it
#[derive(PartialEq, Eq, Structural, Clone, Copy, Debug)]
pub struct EntryFacts {
    /// Whether its path is in the ignore list
    pub ignored: bool,
    /// Its device
    pub dev: u64,
    /// Its inode
    pub ino: u64,
    /// Its number of hard links
    pub nlink: u64,
    pub file_type: FileType,
}

/// Why a scan leaves an entry out
#[derive(PartialEq, Eq, Structural, Clone, Copy, Debug)]
pub enum Skip {
    /// Its path is in the ignore list
    Ignored,
    /// It lies in another filesystem than the root
    OtherFilesystem,
    /// It is a directory that was already scanned: a symlink loop
    SymlinkLoop,
    /// It is a hard link to a file that was already scanned
    Hardlink,
    /// Its file type is none that an archive holds
    UnknownType,
}

/// Scan arguments
#[derive(Debug)]
pub struct Args {
    /// Root device, if we should filter by filesystem
    pub root_dev: Option<u64>,
    /// Follow symlinks
    pub follow_symlinks: bool,
    /// Inodes with hardlinks seen by device+inode
    pub hardlink_inodes_seen: HashMap<u64, HashSet<u64>>,
    /// Current depth
    pub depth: usize,
}

/// Whether an entry lies in another filesystem than the root, if the scan keeps to it
pub open spec fn on_other_filesystem(root_dev: Option<u64>, facts: EntryFacts) -> bool {
    root_dev matches Some(root_dev) && facts.dev != root_dev
}

/// What a scan that saw the entries with hard links `seen` does with an
/// entry: leaves it out, in this order, if its path is ignored, if it lies in
/// another filesystem than the root, if it has hard links and was seen
/// already (a directory so is a symlink loop), or if its file type is none
/// that an archive holds; otherwise writes it, with its kind.
pub open spec fn classification(root_dev: Option<u64>, seen: Set<(u64, u64)>, facts: EntryFacts) -> Result<EntryKind, Skip> {
    if facts.ignored {
        Err(Skip::Ignored)
    } else if on_other_filesystem(root_dev, facts) {
        Err(Skip::OtherFilesystem)
    } else if facts.nlink > 1 && seen.contains((facts.dev, facts.ino)) {
        if facts.file_type == FileType::Dir {
            Err(Skip::SymlinkLoop)
        } else {
            Err(Skip::Hardlink)
        }
    } else {
        match facts.file_type {
            FileType::Dir => Ok(EntryKind::Dir),
            FileType::File => Ok(EntryKind::File),
            FileType::Symlink => Ok(EntryKind::Symlink),
            FileType::Other => Err(Skip::UnknownType),
        }
    }
}

/// The entries with hard links that a scan has seen once it met an entry:
/// one with hard links that is neither ignored nor in another filesystem is recorded.
pub open spec fn seen_after(root_dev: Option<u64>, seen: Set<(u64, u64)>, facts: EntryFacts) -> Set<(u64, u64)> {
    if !facts.ignored && !on_other_filesystem(root_dev, facts) && facts.nlink > 1 {
        seen.insert((facts.dev, facts.ino))
    } else {
        seen
    }
}

/// A step of a scan, as far as the entries with hard links it has seen go:
/// meeting an entry (`Scanner::entry`), or listing a directory, failing to,
/// or closing one (`Scanner::listed`, `listing_failed`, `close_dir`)
pub enum ScanStep {
    Entry(EntryFacts),
    Listed,
    ListingFailed,
    ClosedDir,
}

/// The entries with hard links that a scan has seen after a step: only
/// meeting an entry records one, as the contracts of `Scanner`'s methods say.
pub open spec fn seen_after_step(root_dev: Option<u64>, seen: Set<(u64, u64)>, step: ScanStep) -> Set<(u64, u64)> {
    match step {
        ScanStep::Entry(facts) => seen_after(root_dev, seen, facts),
        _ => seen,
    }
}

/// The entries with hard links that a scan has seen once it took the steps
/// `steps` in turn, having seen `seen` before them
pub open spec fn seen_through(root_dev: Option<u64>, seen: Set<(u64, u64)>, steps: Seq<ScanStep>) -> Set<(u64, u64)>
    decreases steps.len(),
{
    if steps.len() == 0 {
        seen
    } else {
        seen_after_step(root_dev, seen_through(root_dev, seen, steps.drop_last()), steps.last())
    }
}

/// What a scan has seen only grows, whatever steps it takes.
pub proof fn lemma_seen_through_grows(root_dev: Option<u64>, seen: Set<(u64, u64)>, steps: Seq<ScanStep>, i: int, j: int)
    requires
        0 <= i <= j <= steps.len(),
    ensures
        seen_through(root_dev, seen, steps.take(i)).subset_of(seen_through(root_dev, seen, steps.take(j))),
    decreases j - i,
{
    if i < j {
        lemma_seen_through_grows(root_dev, seen, steps, i, j - 1);
        assert(steps.take(j).drop_last() =~= steps.take(j - 1));
    }
}

/// An inode with several hard links is written at most once in a scan, over
/// any run of its steps: once the scan met an entry with hard links and wrote
/// it (its classification is a kind), any later entry with the same device and
/// inode and hard links is left out (`Scanner::entry` gives `Skipped` and
/// writes nothing), whatever steps come between.
pub proof fn lemma_hardlinked_inode_written_once(
    root_dev: Option<u64>,
    seen: Set<(u64, u64)>,
    steps: Seq<ScanStep>,
    i: int,
    j: int,
    first: EntryFacts,
    later: EntryFacts,
)
    requires
        0 <= i < j < steps.len(),
        steps[i] == ScanStep::Entry(first),
        steps[j] == ScanStep::Entry(later),
        first.nlink > 1,
        later.nlink > 1,
        first.dev == later.dev,
        first.ino == later.ino,
        classification(root_dev, seen_through(root_dev, seen, steps.take(i)), first) is Ok,
    ensures
        classification(root_dev, seen_through(root_dev, seen, steps.take(j)), later) is Err,
{
    assert(steps.take(i + 1).drop_last() =~= steps.take(i));
    assert(seen_through(root_dev, seen, steps.take(i + 1)).contains((first.dev, first.ino)));
    lemma_seen_through_grows(root_dev, seen, steps, i + 1, j);
}

/// The same law over the scanners of a run: `scanners[k + 1]` is `scanners[k]`
/// after step `k`, as the contracts of `Scanner`'s methods state it. Once the
/// `i`-th step met an entry with hard links that was written, `Scanner::entry`
/// leaves out any later entry with the same device and inode and hard links.
pub proof fn lemma_scanner_writes_hardlinked_inode_once(
    scanners: Seq<Scanner>,
    steps: Seq<ScanStep>,
    i: int,
    j: int,
    first: EntryFacts,
    later: EntryFacts,
)
    requires
        scanners.len() == steps.len() + 1,
        forall|k: int| 0 <= k < steps.len() ==> #[trigger] scanners[k + 1].scan_args().root_dev == scanners[k].scan_args().root_dev
            && scanners[k + 1].scan_args().seen() == seen_after_step(
            scanners[k].scan_args().root_dev,
            scanners[k].scan_args().seen(),
            steps[k],
        ),
        0 <= i < j < steps.len(),
        steps[i] == ScanStep::Entry(first),
        steps[j] == ScanStep::Entry(later),
        first.nlink > 1,
        later.nlink > 1,
        first.dev == later.dev,
        first.ino == later.ino,
        classification(scanners[i].scan_args().root_dev, scanners[i].scan_args().seen(), first) is Ok,
    ensures
        classification(scanners[j].scan_args().root_dev, scanners[j].scan_args().seen(), later) is Err,
{
    let root_dev = scanners[0].scan_args().root_dev;
    let seen = scanners[0].scan_args().seen();
    assert forall|k: int| 0 <= k <= steps.len() implies #[trigger] scanners[k].scan_args().root_dev == root_dev
        && scanners[k].scan_args().seen() == seen_through(root_dev, seen, steps.take(k)) by {
        lemma_scanners_follow_steps(scanners, steps, k);
    }
    lemma_hardlinked_inode_written_once(root_dev, seen, steps, i, j, first, later);
}

/// The scanners of a run have seen what the steps before them record.
proof fn lemma_scanners_follow_steps(scanners: Seq<Scanner>, steps: Seq<ScanStep>, k: int)
    requires
        scanners.len() == steps.len() + 1,
        forall|k: int| 0 <= k < steps.len() ==> #[trigger] scanners[k + 1].scan_args().root_dev == scanners[k].scan_args().root_dev
            && scanners[k + 1].scan_args().seen() == seen_after_step(
            scanners[k].scan_args().root_dev,
            scanners[k].scan_args().seen(),
            steps[k],
        ),
        0 <= k <= steps.len(),
    ensures
        scanners[k].scan_args().root_dev == scanners[0].scan_args().root_dev,
        scanners[k].scan_args().seen() == seen_through(scanners[0].scan_args().root_dev, scanners[0].scan_args().seen(), steps.take(k)),
    decreases k,
{
    if k == 0 {
        assert(steps.take(0) =~= Seq::<ScanStep>::empty());
    } else {
        lemma_scanners_follow_steps(scanners, steps, k - 1);
        assert(steps.take(k).drop_last() =~= steps.take(k - 1));
        assert(scanners[(k - 1) + 1].scan_args().seen() == seen_after_step(
            scanners[k - 1].scan_args().root_dev,
            scanners[k - 1].scan_args().seen(),
            steps[k - 1],
        ));
    }
}

impl Args {
    /// The device and inode pairs of the entries with hard links seen so far
    pub open spec fn seen(&self) -> Set<(u64, u64)> {
        Set::new(
            |p: (u64, u64)|
                self.hardlink_inodes_seen@.contains_key(p.0) && self.hardlink_inodes_seen@[p.0]@.contains(p.1),
        )
    }

    /// Creates the arguments of a scan, with no entry seen yet
    pub fn new(root_dev: Option<u64>, follow_symlinks: bool) -> (args: Self)
        ensures
            args.root_dev == root_dev,
            args.follow_symlinks == follow_symlinks,
            args.depth == 0,
            args.seen() == Set::<(u64, u64)>::empty(),
    {
        let args = Args { root_dev, follow_symlinks, hardlink_inodes_seen: HashMap::new(), depth: 0 };
        assert(args.seen() =~= Set::<(u64, u64)>::empty());
        args
    }

    /// Records that an entry was seen: returns whether it was not seen before.
    fn insert_seen(&mut self, dev: u64, ino: u64) -> (inserted: bool)
        ensures
            final(self).seen() == old(self).seen().insert((dev, ino)),
            inserted == !old(self).seen().contains((dev, ino)),
            final(self).root_dev == old(self).root_dev,
            final(self).follow_symlinks == old(self).follow_symlinks,
            final(self).depth == old(self).depth,
    {
        let ghost old_map = self.hardlink_inodes_seen@;
        let mut inodes = match self.hardlink_inodes_seen.remove(&dev) {
            Some(inodes) => inodes,
            None => HashSet::new(),
        };
        let ghost old_inodes = inodes@;
        let inserted = inodes.insert(ino);
        self.hardlink_inodes_seen.insert(dev, inodes);
        assert(self.seen() =~= old(self).seen().insert((dev, ino)));
        inserted
    }

    /// What a scan does with an entry: leaves it out, or writes it, with its kind.
    ///
    /// An entry is left out, in this order, if its path is ignored, if it lies
    /// in another filesystem than the root, if it has hard links and its device
    /// and inode were seen already, or if its file type is none that an archive
    /// holds. Entries with hard links that are not left out for the first two
    /// reasons are recorded as seen.
    pub fn classify(&mut self, facts: EntryFacts) -> (res: Result<EntryKind, Skip>)
        ensures
            final(self).root_dev == old(self).root_dev,
            final(self).follow_symlinks == old(self).follow_symlinks,
            final(self).depth == old(self).depth,
            final(self).seen() == seen_after(old(self).root_dev, old(self).seen(), facts),
            res == classification(old(self).root_dev, old(self).seen(), facts),
    {
        if facts.ignored {
            return Err(Skip::Ignored);
        }
        if let Some(root_dev) = self.root_dev {
            if facts.dev != root_dev {
                return Err(Skip::OtherFilesystem);
            }
        }
        if facts.nlink > 1 && !self.insert_seen(facts.dev, facts.ino) {
            return match facts.file_type {
                FileType::Dir => Err(Skip::SymlinkLoop),
                _ => Err(Skip::Hardlink),
            };
        }
        match facts.file_type {
            FileType::Dir => Ok(EntryKind::Dir),
            FileType::File => Ok(EntryKind::File),
            FileType::Symlink => Ok(EntryKind::Symlink),
            FileType::Other => Err(Skip::UnknownType),
        }
    }
}

/// A directory whose entries are being scanned
#[derive(Debug)]
pub struct OpenDir {
    pub dir: DirExporter,
    /// The stats of its entries written so far
    pub entries_stats: Stats,
    /// The number of its entries written so far
    pub written_entries: u64,
}

/// A directory being scanned, as values: where its header lies, its own
/// metadata, and the stats and number of its entries written so far
pub type OpenDirView = (nat, Metadata, Stats, u64);

/// The values of a directory being scanned
pub open spec fn open_dir_view(dir: OpenDir) -> OpenDirView {
    (dir.dir.header_pos as nat, dir.dir.metadata, dir.entries_stats, dir.written_entries)
}

/// What a scan asks for next, once it met an entry
#[derive(PartialEq, Eq, Structural, Clone, Copy, Debug)]
pub enum Step {
    /// The entry is left out
    Skipped(Skip),
    /// The entry was written, with these stats
    Written(Stats),
    /// The entry is a directory whose name was written: its entries must be listed next
    ListDir,
}

/// The stats of an entry, or of the entries of a directory, do not fit
#[derive(PartialEq, Eq, Structural, Clone, Copy, Debug)]
pub struct StatsOverflow;

/// The stats of an entry itself, as one file
pub open spec fn own_stats(metadata: Metadata) -> Stats {
    Stats { files: 1, size: metadata.size, blocks: metadata.blocks }
}

/// Where the stats of a written entry go: to the innermost directory being
/// scanned, which counts it as written; at the root, they are the scan's
/// result. `None` if they do not fit.
pub open spec fn recorded(dirs: Seq<OpenDirView>, root: Option<Stats>, stats: Stats) -> Option<(Seq<OpenDirView>, Option<Stats>)> {
    if dirs.len() == 0 {
        Some((dirs, Some(stats)))
    } else {
        let (header_pos, metadata, entries_stats, written) = dirs.last();
        if stats_add_fits(entries_stats, stats) && written < u64::MAX {
            Some(
                (
                    dirs.drop_last().push((header_pos, metadata, stats_sum(entries_stats, stats), (written + 1) as u64)),
                    root,
                ),
            )
        } else {
            None
        }
    }
}

/// The archive once the directory whose header lies at `header_pos` is
/// finished: its header filled in with the length of its entries and their
/// number, and its footer written with its total stats.
pub open spec fn finished_dir(bytes: Seq<u8>, header_pos: nat, written: u64, total: Stats) -> Seq<u8> {
    let entries_start = header_pos + DIR_HEADER_SIZE;
    bytes.take(header_pos as int) + dir_header_bytes((bytes.len() - entries_start) as u64, written) + bytes.skip(
        entries_start,
    ) + dir_footer_bytes(total.size, total.blocks, total.files)
}

/// A directory whose entries cannot be listed leaves no trace: undoing its
/// entry, which starts where the archive ended before its name was written,
/// gives back the archive as it was.
pub proof fn lemma_unlistable_dir_leaves_no_trace(before: Seq<u8>, name: Seq<u8>)
    ensures
        (before + os_str_bytes(name)).take(before.len() as int) == before,
{
    assert((before + os_str_bytes(name)).take(before.len() as int) =~= before);
}

/// A directory that the scanner finishes reads back: its name is written, then
/// `listed` starts it and its entries follow; once `close_dir` finishes it, the
/// importer reads its name, its header with the length and the number of its
/// entries, and, past its entries, the stats that closing it returned.
pub proof fn lemma_finished_dir_reads_back(
    before: Seq<u8>,
    name: Seq<u8>,
    entries: Seq<u8>,
    written: u64,
    total: Stats,
    rest: Seq<u8>,
)
    requires
        is_storable_name(name),
        entries.len() <= i64::MAX,
    ensures
        ({
            let header_pos = before.len() + name.len() + 2;
            let opened = before + os_str_bytes(name) + seq![EntryKind::Dir.spec_repr()] + Seq::new(
                DIR_HEADER_SIZE as nat,
                |_i: int| 0u8,
            ) + entries;
            let all = finished_dir(opened, header_pos, written, total) + rest;
            let start = (header_pos + DIR_HEADER_SIZE) as nat;
            let entry = DirEntry {
                import_pos: start as u64,
                kind: DirEntryKind::Dir(DirHeader { entries_offset: entries.len() as u64, entries_len: written }),
            };
            &&& spec_read_entry(all, before.len()) == Ok::<(DirEntry, nat, nat), ImportError>(
                (entry, before.len() + name.len(), start),
            )
            &&& spec_name_read(all, before.len()) == name
            &&& spec_read_entry_stats(all, start, entry) == Ok::<(Stats, nat), ImportError>(
                (total, start + entries.len() + dir_footer_bytes(total.size, total.blocks, total.files).len()),
            )
        }),
{
    let header_pos = before.len() + name.len() + 2;
    let zeros = Seq::new(DIR_HEADER_SIZE as nat, |_i: int| 0u8);
    let head = before + os_str_bytes(name) + seq![EntryKind::Dir.spec_repr()];
    let opened = head + zeros + entries;
    let footer = dir_footer_bytes(total.size, total.blocks, total.files);
    assert(head.len() == header_pos);
    assert(opened.take(header_pos as int) =~= head);
    assert(opened.skip(header_pos + DIR_HEADER_SIZE) =~= entries);
    assert(opened.len() - (header_pos + DIR_HEADER_SIZE) == entries.len());
    assert(finished_dir(opened, header_pos, written, total) + rest =~= entry_bytes(
        before,
        name,
        EntryKind::Dir,
        dir_header_bytes(entries.len() as u64, written) + entries + footer + rest,
    ));
    lemma_read_dir_entry_roundtrip(before, name, entries, written, total, rest);
}

/// A scan in progress: the archive it writes, and the directories whose
/// entries are being scanned.
///
/// The caller walks the filesystem: it tells the scan of each entry it meets,
/// lists the entries of each directory the scan asks for, and closes each
/// directory once its entries were told.
#[derive(Debug)]
pub struct Scanner {
    args: Args,
    exporter: Exporter,
    /// The directories whose entries are being scanned, the innermost last
    open_dirs: Vec<OpenDir>,
    /// The directory whose name was just written, whose entries are being listed
    listing: Option<DirEntryExporter>,
    /// The stats of the root entry, once written
    root_stats: Option<Stats>,
}

impl Scanner {
    /// What the scan was started with, and the entries with hard links it saw
    pub closed spec fn scan_args(&self) -> Args {
        self.args
    }

    /// What the scan was started with, and the entries with hard links it saw
    pub fn args(&self) -> (args: &Args)
        ensures
            *args == self.scan_args(),
    {
        &self.args
    }

    /// The archive written so far
    pub closed spec fn bytes(&self) -> Seq<u8> {
        self.exporter@
    }

    /// The directories whose entries are being scanned, the innermost last
    pub closed spec fn dirs(&self) -> Seq<OpenDirView> {
        self.open_dirs@.map_values(|d: OpenDir| open_dir_view(d))
    }

    /// The metadata of the directory whose entries are being listed, if any
    pub closed spec fn listing(&self) -> Option<Metadata> {
        match self.listing {
            Some(entry) => Some(entry.metadata),
            None => None,
        }
    }

    /// Where the last entry that was started begins
    pub closed spec fn listing_start(&self) -> nat {
        self.exporter.last_entry_pos()
    }

    /// The stats of the root entry, once written
    pub closed spec fn result(&self) -> Option<Stats> {
        self.root_stats
    }

    /// Whether the scan is consistent: its depth is the number of directories
    /// being scanned, and their headers lie within the archive, before the
    /// entry being listed, if any.
    pub closed spec fn wf(&self) -> bool {
        &&& self.exporter.wf()
        &&& self.args.depth == self.open_dirs@.len()
        &&& forall|i: int|
            0 <= i < self.open_dirs@.len() ==> #[trigger] self.open_dirs@[i].dir.header_pos + DIR_HEADER_SIZE
                <= self.exporter@.len()
        &&& self.listing is Some ==> forall|i: int|
            0 <= i < self.open_dirs@.len() ==> #[trigger] self.open_dirs@[i].dir.header_pos + DIR_HEADER_SIZE
                <= self.exporter.last_entry_pos()
    }

    /// Whether the entries of the directory whose name was just written are being listed
    pub fn is_listing(&self) -> (listing: bool)
        ensures
            listing == self.listing() is Some,
    {
        self.listing.is_some()
    }

    /// The number of directories being scanned
    pub fn depth(&self) -> (depth: usize)
        ensures
            depth == self.dirs().len(),
    {
        self.open_dirs.len()
    }

    /// Starts a scan: nothing written but the archive's header
    pub fn new(root_dev: Option<u64>, follow_symlinks: bool) -> (scanner: Self)
        ensures
            scanner.wf(),
            scanner.bytes() == archive_header_bytes(),
            scanner.dirs() == Seq::<OpenDirView>::empty(),
            scanner.listing() is None,
            scanner.result() is None,
            scanner.scan_args().root_dev == root_dev,
            scanner.scan_args().follow_symlinks == follow_symlinks,
            scanner.scan_args().seen() == Set::<(u64, u64)>::empty(),
    {
        let scanner = Scanner {
            args: Args::new(root_dev, follow_symlinks),
            exporter: Exporter::new(),
            open_dirs: Vec::new(),
            listing: None,
            root_stats: None,
        };
        assert(scanner.dirs() =~= Seq::<OpenDirView>::empty());
        scanner
    }

    /// Records the stats of a written entry where they go
    fn record(&mut self, stats: Stats) -> (res: Result<(), StatsOverflow>)
        requires
            old(self).wf(),
        ensures
            final(self).wf(),
            final(self).bytes() == old(self).bytes(),
            final(self).listing() == old(self).listing(),
            final(self).listing_start() == old(self).listing_start(),
            final(self).scan_args() == old(self).scan_args(),
            match recorded(old(self).dirs(), old(self).result(), stats) {
                Some((dirs, result)) => res is Ok && final(self).dirs() == dirs && final(self).result() == result,
                None => res is Err && final(self).dirs() == old(self).dirs() && final(self).result() == old(self).result(),
            },
    {
        let ghost old_dirs = self.open_dirs@;
        match self.open_dirs.pop() {
            None => {
                self.root_stats = Some(stats);
                Ok(())
            },
            Some(mut top) => {
                proof {
                    assert(self.open_dirs@ =~= old_dirs.drop_last());
                    assert(old(self).dirs().drop_last() =~= self.dirs());
                }
                let fits = match top.entries_stats.checked_add(stats) {
                    Some(sum) => if top.written_entries < u64::MAX {
                        top.entries_stats = sum;
                        top.written_entries = top.written_entries + 1;
                        true
                    } else {
                        false
                    },
                    None => false,
                };
                self.open_dirs.push(top);
                proof {
                    assert(self.open_dirs@ =~= old_dirs.drop_last().push(top));
                    assert(self.dirs() =~= old(self).dirs().drop_last().push(open_dir_view(top)));
                    if !fits {
                        assert(self.dirs() =~= old(self).dirs());
                    }
                    assert forall|i: int| 0 <= i < self.open_dirs@.len() implies #[trigger] self.open_dirs@[i].dir.header_pos
                        + DIR_HEADER_SIZE <= self.exporter@.len() by {
                        assert(self.open_dirs@[i].dir.header_pos == old_dirs[i].dir.header_pos);
                    }
                }
                if fits {
                    Ok(())
                } else {
                    Err(StatsOverflow)
                }
            },
        }
    }

    /// Whether the stats of a written entry can be recorded
    fn can_record(&self, stats: Stats) -> (fits: bool)
        ensures
            fits == recorded(self.dirs(), self.result(), stats) is Some,
    {
        let len = self.open_dirs.len();
        if len == 0 {
            return true;
        }
        let top = &self.open_dirs[len - 1];
        assert(self.dirs().last() == open_dir_view(*top));
        top.entries_stats.checked_add(stats).is_some() && top.written_entries < u64::MAX
    }

    /// Scans an entry that the walk met, named `name`, with `facts` and
    /// `metadata` read from the filesystem: leaves it out, as `classify`
    /// decides, or writes it. A file or symlink is written whole, and its
    /// stats are recorded; a directory's name is written, and its entries must
    /// be listed next.
    ///
    /// Fails, leaving the archive as it was, if the stats of a file or symlink
    /// do not fit where they go.
    pub fn entry(&mut self, facts: EntryFacts, name: &[u8], metadata: Metadata) -> (res: Result<Step, StatsOverflow>)
        requires
            old(self).wf(),
            old(self).listing() is None,
        ensures
            final(self).wf(),
            final(self).scan_args().root_dev == old(self).scan_args().root_dev,
            final(self).scan_args().follow_symlinks == old(self).scan_args().follow_symlinks,
            final(self).scan_args().seen() == seen_after_step(old(self).scan_args().root_dev, old(self).scan_args().seen(), ScanStep::Entry(facts)),
            match classification(old(self).scan_args().root_dev, old(self).scan_args().seen(), facts) {
                Err(skip) => {
                    &&& res == Ok::<Step, StatsOverflow>(Step::Skipped(skip))
                    &&& final(self).bytes() == old(self).bytes()
                    &&& final(self).dirs() == old(self).dirs()
                    &&& final(self).listing() is None
                    &&& final(self).result() == old(self).result()
                },
                Ok(EntryKind::Dir) => {
                    &&& res == Ok::<Step, StatsOverflow>(Step::ListDir)
                    &&& final(self).bytes() == old(self).bytes() + os_str_bytes(name@)
                    &&& final(self).listing() == Some(metadata)
                    &&& final(self).listing_start() == old(self).bytes().len()
                    &&& final(self).dirs() == old(self).dirs()
                    &&& final(self).result() == old(self).result()
                },
                Ok(kind) => match recorded(old(self).dirs(), old(self).result(), own_stats(metadata)) {
                    Some((dirs, result)) => {
                        &&& res == Ok::<Step, StatsOverflow>(Step::Written(own_stats(metadata)))
                        &&& final(self).bytes() == (old(self).bytes() + os_str_bytes(name@)).push(kind.spec_repr())
                            + file_bytes(metadata.size, metadata.blocks)
                        &&& final(self).dirs() == dirs
                        &&& final(self).listing() is None
                        &&& final(self).result() == result
                    },
                    None => {
                        &&& res == Err::<Step, StatsOverflow>(StatsOverflow)
                        &&& final(self).bytes() == old(self).bytes()
                        &&& final(self).dirs() == old(self).dirs()
                        &&& final(self).listing() is None
                        &&& final(self).result() == old(self).result()
                    },
                },
            },
    {
        let ghost old_dirs = self.open_dirs@;
        let kind = match self.args.classify(facts) {
            Ok(kind) => kind,
            Err(skip) => return Ok(Step::Skipped(skip)),
        };
        proof {
            assert forall|i: int| 0 <= i < self.open_dirs@.len() implies #[trigger] self.open_dirs@[i].dir.header_pos
                + DIR_HEADER_SIZE <= self.exporter@.len() by {
                assert(self.open_dirs@[i] == old_dirs[i]);
            }
        }
        let stats = Stats { files: 1, size: metadata.size, blocks: metadata.blocks };
        match kind {
            EntryKind::Dir => {
                let entry = self.exporter.write_entry_from_metadata(name, metadata);
                self.listing = Some(entry);
                Ok(Step::ListDir)
            },
            EntryKind::File => {
                if !self.can_record(stats) {
                    return Err(StatsOverflow);
                }
                self.exporter.write_entry_from_metadata(name, metadata).write_file(&mut self.exporter);
                let recorded = self.record(stats);
                assert(recorded is Ok);
                Ok(Step::Written(stats))
            },
            EntryKind::Symlink => {
                if !self.can_record(stats) {
                    return Err(StatsOverflow);
                }
                self.exporter.write_entry_from_metadata(name, metadata).write_symlink(&mut self.exporter);
                let recorded = self.record(stats);
                assert(recorded is Ok);
                Ok(Step::Written(stats))
            },
        }
    }

    /// The entries of the directory whose name was just written could be
    /// listed: starts writing it, and scans its entries next.
    pub fn listed(&mut self)
        requires
            old(self).wf(),
            old(self).listing() is Some,
        ensures
            final(self).wf(),
            final(self).scan_args().root_dev == old(self).scan_args().root_dev,
            final(self).scan_args().follow_symlinks == old(self).scan_args().follow_symlinks,
            final(self).scan_args().seen() == seen_after_step(old(self).scan_args().root_dev, old(self).scan_args().seen(), ScanStep::Listed),
            final(self).bytes() == old(self).bytes().push(EntryKind::Dir.spec_repr()) + Seq::new(
                DIR_HEADER_SIZE as nat,
                |_i: int| 0u8,
            ),
            final(self).dirs() == old(self).dirs().push(
                (old(self).bytes().len() + 1, old(self).listing().unwrap(), zero_stats(), 0u64),
            ),
            final(self).listing() is None,
            final(self).result() == old(self).result(),
    {
        let ghost old_dirs = self.open_dirs@;
        let entry = self.listing.take().unwrap();
        let dir = entry.write_dir(&mut self.exporter);
        let open = OpenDir { dir, entries_stats: Stats { files: 0, size: 0, blocks: 0 }, written_entries: 0 };
        self.open_dirs.push(open);
        self.args.depth = self.open_dirs.len();
        proof {
            assert(self.dirs() =~= old(self).dirs().push(open_dir_view(open)));
            assert forall|i: int| 0 <= i < self.open_dirs@.len() implies #[trigger] self.open_dirs@[i].dir.header_pos
                + DIR_HEADER_SIZE <= self.exporter@.len() by {
                if i < old_dirs.len() {
                    assert(self.open_dirs@[i] == old_dirs[i]);
                }
            }
        }
    }

    /// The entries of the directory whose name was just written could not be
    /// listed: undoes its entry, as if it was never met.
    pub fn listing_failed(&mut self)
        requires
            old(self).wf(),
            old(self).listing() is Some,
        ensures
            final(self).wf(),
            final(self).scan_args() == old(self).scan_args(),
            final(self).scan_args().seen() == seen_after_step(old(self).scan_args().root_dev, old(self).scan_args().seen(), ScanStep::ListingFailed),
            final(self).bytes() == old(self).bytes().take(old(self).listing_start() as int),
            final(self).dirs() == old(self).dirs(),
            final(self).listing() is None,
            final(self).result() == old(self).result(),
    {
        self.listing = None;
        self.exporter.undo_last_entry();
        proof {
            assert(self.open_dirs@ == old(self).open_dirs@);
            old(self).exporter.lemma_wf();
            assert(self.exporter@.len() == old(self).exporter.last_entry_pos());
            assert forall|i: int| 0 <= i < self.open_dirs@.len() implies #[trigger] self.open_dirs@[i].dir.header_pos
                + DIR_HEADER_SIZE <= self.exporter@.len() by {
                assert(old(self).open_dirs@[i].dir.header_pos + DIR_HEADER_SIZE <= old(self).exporter.last_entry_pos());
            }
        }
    }

    /// All entries of the innermost directory being scanned were met: finishes
    /// writing it, with its own stats and those of its written entries, and
    /// records them where they go. Returns them.
    ///
    /// Fails, leaving everything as it was, if they do not fit.
    pub fn close_dir(&mut self) -> (res: Result<Stats, StatsOverflow>)
        requires
            old(self).wf(),
            old(self).listing() is None,
            old(self).dirs().len() > 0,
        ensures
            final(self).wf(),
            final(self).scan_args().root_dev == old(self).scan_args().root_dev,
            final(self).scan_args().follow_symlinks == old(self).scan_args().follow_symlinks,
            final(self).scan_args().seen() == seen_after_step(old(self).scan_args().root_dev, old(self).scan_args().seen(), ScanStep::ClosedDir),
            final(self).listing() is None,
            ({
                let (header_pos, metadata, entries_stats, written) = old(self).dirs().last();
                let total = dir_total_stats(metadata, entries_stats);
                if dir_total_stats_fit(metadata, entries_stats) && recorded(
                    old(self).dirs().drop_last(),
                    old(self).result(),
                    total,
                ) is Some {
                    &&& res == Ok::<Stats, StatsOverflow>(total)
                    &&& final(self).bytes() == finished_dir(old(self).bytes(), header_pos, written, total)
                    &&& (final(self).dirs(), final(self).result()) == recorded(
                        old(self).dirs().drop_last(),
                        old(self).result(),
                        total,
                    ).unwrap()
                } else {
                    &&& res == Err::<Stats, StatsOverflow>(StatsOverflow)
                    &&& final(self).bytes() == old(self).bytes()
                    &&& final(self).dirs() == old(self).dirs()
                    &&& final(self).result() == old(self).result()
                }
            }),
    {
        let ghost old_dirs = self.open_dirs@;
        let open = self.open_dirs.pop().unwrap();
        proof {
            assert(self.open_dirs@ =~= old_dirs.drop_last());
            assert(old(self).dirs().drop_last() =~= self.dirs());
            assert(old(self).dirs().last() == open_dir_view(open));
            assert(open == old_dirs[old_dirs.len() - 1]);
        }
        let own = Stats { files: 1, size: open.dir.metadata.size, blocks: open.dir.metadata.blocks };
        let total = match own.checked_add(open.entries_stats) {
            Some(total) => total,
            None => {
                self.open_dirs.push(open);
                assert(self.open_dirs@ =~= old_dirs);
                return Err(StatsOverflow);
            },
        };
        if !self.can_record(total) {
            self.open_dirs.push(open);
            assert(self.open_dirs@ =~= old_dirs);
            return Err(StatsOverflow);
        }
        let written = open.written_entries;
        let entries_stats = open.entries_stats;
        self.args.depth = self.open_dirs.len();
        proof {
            assert forall|i: int| 0 <= i < self.open_dirs@.len() implies #[trigger] self.open_dirs@[i].dir.header_pos
                + DIR_HEADER_SIZE <= self.exporter@.len() by {
                assert(self.open_dirs@[i] == old_dirs[i]);
            }
        }
        let ghost before_len = self.exporter@.len();
        open.dir.finish(&mut self.exporter, written, entries_stats);
        proof {
            vstd::bytes::lemma_auto_spec_u64_to_from_le_bytes();
            assert(self.exporter@.len() >= before_len);
            assert forall|i: int| 0 <= i < self.open_dirs@.len() implies #[trigger] self.open_dirs@[i].dir.header_pos
                + DIR_HEADER_SIZE <= self.exporter@.len() by {
                assert(self.open_dirs@[i] == old_dirs[i]);
            }
        }
        let recorded = self.record(total);
        assert(recorded is Ok);
        Ok(total)
    }

    /// Finishes the scan: gives the archive and the stats of the root entry, if it was written
    pub fn finish(self) -> (res: (Vec<u8>, Option<Stats>))
        ensures
            res.0@ == self.bytes(),
            res.1 == self.result(),
    {
        (self.exporter.finish(), self.root_stats)
    }
}

} // verus!
