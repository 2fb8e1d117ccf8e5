//! Analyzes an import

pub mod entry;
pub mod sort;

use {
    self::{
        entry::{read_from_import, Entry, GroupEntry, ImportEntry},
        sort::SortOrder,
    },
    crate::{
        archive::import::{
            clamp_pos, spec_name_read, spec_read_dir_footer, spec_read_entry, spec_read_entry_stats, spec_skip_dir_entries,
            DirEntry, DirEntryKind, ImportError, Importer,
        },
        stats::{disk_bytes, disk_usage, Stats},
        tree_display::{tree_prefix, TreeDisplay},
        util::{binary_size_text, fmt_size, sort::{is_stable_sort_of, stable_sorted}, OsStrRange},
    },
    vstd::prelude::*,
};

verus! {

/// How to analyze
#[derive(PartialEq, Eq, Structural, Clone, Copy, Debug)]
pub struct Config {
    pub max_depth: Option<usize>,
    pub max_files_per_dir: Option<usize>,
    pub sort_order: SortOrder,
}

/// What a line shows as the name of its entry
#[derive(PartialEq, Eq, Clone, Debug)]
pub enum EntryLabel {
    /// The name of an entry of the import
    Name(Vec<u8>),
    /// A group of this many entries
    Group { len: u64 },
}

/// A line of the analysis: one entry of the tree
#[derive(PartialEq, Eq, Clone, Debug)]
pub struct AnalyzeLine {
    /// The branches of the tree before the entry
    pub prefix: String,
    pub label: EntryLabel,
    /// The entry's total stats
    pub stats: Stats,
    /// Its size, formatted
    pub size: String,
    /// Its size on disk, formatted
    pub disk_size: String,
    /// The number of files within the entry, if it is shown
    pub files: Option<u64>,
}

/// Whether the tree stands at the maximum depth
pub open spec fn is_at_max_depth(max_depth: Option<usize>, depth: nat) -> bool {
    match max_depth {
        Some(max_depth) => depth >= max_depth,
        None => false,
    }
}

/// The number of files that a line shows for an entry: for a directory, those
/// within it, without itself; for a group, those within its entries, if any.
pub open spec fn displayed_files(entry: Entry) -> Option<int> {
    match entry {
        Entry::Import(entry) => if entry.import.kind is Dir {
            Some(entry.stats.files - 1)
        } else {
            None
        },
        Entry::Group(group) => if group.stats.files == group.len {
            None
        } else {
            Some(group.stats.files - group.len)
        },
    }
}

/// Whether the line of an entry shows that its children follow
pub open spec fn shows_children(entry: Entry, at_max_depth: bool) -> bool {
    match entry {
        Entry::Import(entry) => entry.import.spec_has_children() && !at_max_depth,
        Entry::Group(_) => false,
    }
}

/// Whether `line` is the line of `entry`, with names in `names`, at the tree's depths `tree`
pub open spec fn is_entry_line(
    line: AnalyzeLine,
    entry: Entry,
    names: Seq<u8>,
    tree: Seq<usize>,
    max_depth: Option<usize>,
) -> bool {
    &&& line.prefix@ == tree_prefix(tree, shows_children(entry, is_at_max_depth(max_depth, tree.len())))
    &&& line.stats == entry.spec_stats()
    &&& line.size@ == binary_size_text(entry.spec_stats().size)
    &&& line.disk_size@ == binary_size_text(disk_bytes(entry.spec_stats().blocks))
    &&& match entry {
        Entry::Import(entry) => line.label matches EntryLabel::Name(name) && name@ == names.subrange(
            entry.name_range.start as int,
            entry.name_range.end as int,
        ),
        Entry::Group(group) => line.label matches EntryLabel::Group { len } && len == group.len,
    }
    &&& match displayed_files(entry) {
        Some(files) => line.files == Some(files as u64),
        None => line.files is None,
    }
}

/// Whether the name of an entry lies within a buffer of `len` bytes
pub open spec fn name_fits(entry: Entry, len: nat) -> bool {
    entry matches Entry::Import(entry) ==> entry.name_range.fits(len)
}

/// Displays an entry: makes its line.
///
/// Fails if its stats count fewer files than it holds entries.
pub fn display_entry(entry: &Entry, names: &Vec<u8>, tree: &TreeDisplay, max_depth: Option<usize>) -> (res: Result<AnalyzeLine, ImportError>)
    requires
        name_fits(*entry, names@.len()),
    ensures
        match displayed_files(*entry) {
            Some(files) if files < 0 => res == Err::<AnalyzeLine, ImportError>(ImportError::InvalidStats),
            _ => res matches Ok(line) && is_entry_line(line, *entry, names@, tree@, max_depth),
        },
{
    let is_at_max_depth = match max_depth {
        Some(max_depth) => tree.depth() >= max_depth,
        None => false,
    };
    let has_children = match entry {
        Entry::Import(entry) => entry.import.has_children(),
        Entry::Group(_) => false,
    };

    let files = match entry {
        Entry::Import(entry) => if entry.import.kind.is_dir() {
            if entry.stats.files == 0 {
                return Err(ImportError::InvalidStats);
            }
            Some(entry.stats.files - 1)
        } else {
            None
        },
        Entry::Group(group) => if group.stats.files == group.len {
            None
        } else {
            if group.stats.files < group.len {
                return Err(ImportError::InvalidStats);
            }
            Some(group.stats.files - group.len)
        },
    };

    let mut prefix = String::new();
    tree.write_prefix(&mut prefix, has_children && !is_at_max_depth);

    let label = match entry {
        Entry::Import(entry) => {
            let mut name = Vec::new();
            name.extend_from_slice(entry.name_range.index(names.as_slice()));
            assert(name@ =~= names@.subrange(entry.name_range.start as int, entry.name_range.end as int));
            EntryLabel::Name(name)
        },
        Entry::Group(group) => EntryLabel::Group { len: group.len },
    };

    let stats = entry.stats();
    let size = fmt_size(stats.size);
    let disk_size = fmt_size(disk_usage(stats.blocks));
    Ok(AnalyzeLine { prefix, label, stats, size, disk_size, files })
}

/// The sum of the stats of entries, field by field
pub open spec fn stats_total(entries: Seq<Entry>) -> (int, int, int)
    decreases entries.len(),
{
    if entries.len() == 0 {
        (0, 0, 0)
    } else {
        let (files, size, blocks) = stats_total(entries.drop_last());
        let stats = entries.last().spec_stats();
        (files + stats.files, size + stats.size, blocks + stats.blocks)
    }
}

/// The group that stands for the entries after the first `max` ones, if the
/// sum of their stats fits
pub open spec fn group_of(entries: Seq<Entry>, max: int) -> Option<Entry> {
    let rest = entries.skip(max);
    let (files, size, blocks) = stats_total(rest);
    if files <= u64::MAX && size <= u64::MAX && blocks <= u64::MAX {
        Some(
            Entry::Group(
                GroupEntry {
                    len: rest.len() as u64,
                    stats: Stats { files: files as u64, size: size as u64, blocks: blocks as u64 },
                },
            ),
        )
    } else {
        None
    }
}

/// Whether `entries` is sorted by `sort_order` reversed
pub open spec fn sorted_reversed(sort_order: SortOrder, entries: Seq<Entry>) -> bool {
    forall|a: int, b: int| 0 <= a < b < entries.len() ==> #[trigger] sort_order.spec_le_reversed(entries[a], entries[b])
}

/// The first of the positions from `from` up to `max` whose entry does not
/// rank above `group` in `sort_order`, or `max` if there is none
pub open spec fn first_not_ranked_above(sort_order: SortOrder, entries: Seq<Entry>, group: Entry, from: int, max: int) -> int
    decreases max - from,
{
    if from >= max {
        max
    } else if !(sort_order.rank(entries[from]) > sort_order.rank(group)) {
        from
    } else {
        first_not_ranked_above(sort_order, entries, group, from + 1, max)
    }
}

/// The entries of a directory, sorted, once grouped: if there are more than
/// `max_files_per_dir`, the first `max_files_per_dir` with the group of the
/// others among them, before the first that does not rank above it (as a
/// binary search may land there among entries of its rank); `None` if the sum
/// of the others' stats does not fit.
pub open spec fn grouped(sort_order: SortOrder, entries: Seq<Entry>, max_files_per_dir: Option<usize>) -> Option<Seq<Entry>> {
    match max_files_per_dir {
        Some(max) if entries.len() > max => match group_of(entries, max as int) {
            Some(group) => Some(
                entries.take(max as int).insert(first_not_ranked_above(sort_order, entries, group, 0, max as int), group),
            ),
            None => None,
        },
        _ => Some(entries),
    }
}

/// The first position whose entry does not rank above the group is the one
/// before which all rank above it.
proof fn lemma_first_not_ranked_above(sort_order: SortOrder, entries: Seq<Entry>, group: Entry, from: int, p: int, max: int)
    requires
        from <= p <= max,
        forall|k: int| from <= k < p ==> sort_order.rank(#[trigger] entries[k]) > sort_order.rank(group),
        p < max ==> sort_order.rank(entries[p]) <= sort_order.rank(group),
    ensures
        first_not_ranked_above(sort_order, entries, group, from, max) == p,
    decreases p - from,
{
    if from < p {
        assert(sort_order.rank(entries[from]) > sort_order.rank(group));
        lemma_first_not_ranked_above(sort_order, entries, group, from + 1, p, max);
    }
}

/// Groups the entries of a directory, sorted by `sort_order` reversed: if there
/// are more than `max_files_per_dir`, those after the first `max_files_per_dir`
/// give way to one group entry with their number and the sum of their stats,
/// placed among the first ones where the order puts it.
pub fn group_entries(sort_order: SortOrder, entries: &mut Vec<Entry>, max_files_per_dir: Option<usize>) -> (res: Result<(), ImportError>)
    requires
        sorted_reversed(sort_order, old(entries)@),
    ensures
        match grouped(sort_order, old(entries)@, max_files_per_dir) {
            Some(grouped) => res is Ok && final(entries)@ == grouped,
            None => res == Err::<(), ImportError>(ImportError::InvalidStats),
        },
        match max_files_per_dir {
            Some(max) if old(entries)@.len() > max => match group_of(old(entries)@, max as int) {
                Some(group) => {
                    let p = first_not_ranked_above(sort_order, old(entries)@, group, 0, max as int);
                    &&& 0 <= p <= max
                    &&& forall|k: int| 0 <= k < p ==> sort_order.rank(#[trigger] old(entries)@[k]) > sort_order.rank(group)
                    &&& forall|k: int| p <= k < max ==> sort_order.rank(#[trigger] old(entries)@[k]) <= sort_order.rank(group)
                },
                None => true,
            },
            _ => true,
        },
{
    let max = match max_files_per_dir {
        Some(max) => max,
        None => return Ok(()),
    };
    if entries.len() <= max {
        return Ok(());
    }
    let ghost old_entries = entries@;

    // Sum the stats of the entries that do not fit
    let len = entries.len();
    let mut stats = Stats { files: 0, size: 0, blocks: 0 };
    let mut i = max;
    while i < len
        invariant
            len == entries@.len(),
            entries@ == old_entries,
            old_entries == old(entries)@,
            max_files_per_dir == Some(max),
            max <= i <= len,
            ({
                let (files, size, blocks) = stats_total(old_entries.subrange(max as int, i as int));
                files == stats.files && size == stats.size && blocks == stats.blocks
            }),
        decreases len - i,
    {
        let ghost before = old_entries.subrange(max as int, i as int);
        assert(old_entries.subrange(max as int, i + 1).drop_last() =~= before);
        let entry_stats = entries[i].stats();
        assert(old_entries.subrange(max as int, i + 1).last() == old_entries[i as int]);
        match stats.checked_add(entry_stats) {
            Some(sum) => stats = sum,
            None => {
                proof {
                    let rest = old_entries.skip(max as int);
                    let k = (i + 1 - max) as nat;
                    lemma_stats_total_monotone(rest, k);
                    assert(rest.take(k as int) =~= old_entries.subrange(max as int, i + 1));
                    let (f1, s1, b1) = stats_total(old_entries.subrange(max as int, i + 1));
                    assert(f1 > u64::MAX || s1 > u64::MAX || b1 > u64::MAX);
                    assert(group_of(old_entries, max as int) is None);
                }
                return Err(ImportError::InvalidStats);
            },
        }
        i += 1;
    }
    assert(old_entries.subrange(max as int, len as int) =~= old_entries.skip(max as int));
    let group = Entry::Group(GroupEntry { len: (len - max) as u64, stats });
    entries.truncate(max);

    // Find where the group goes among the first entries
    let mut lo: usize = 0;
    let mut hi: usize = max;
    while lo < hi
        invariant
            entries@ == old_entries.take(max as int),
            max < old_entries.len(),
            sorted_reversed(sort_order, old_entries),
            0 <= lo <= hi <= max,
            forall|k: int| 0 <= k < lo ==> sort_order.rank(#[trigger] old_entries[k]) > sort_order.rank(group),
            forall|k: int| hi <= k < max ==> sort_order.rank(#[trigger] old_entries[k]) <= sort_order.rank(group),
        decreases hi - lo,
    {
        let mid = lo + (hi - lo) / 2;
        if sort_order.ranks_above(&entries[mid], &group) {
            proof {
                assert forall|k: int| 0 <= k < mid + 1 implies sort_order.rank(#[trigger] old_entries[k]) > sort_order.rank(group) by {
                    if k < mid {
                        assert(sort_order.spec_le_reversed(old_entries[k], old_entries[mid as int]));
                        sort_order.lemma_le_reversed_rank(old_entries[k], old_entries[mid as int]);
                    }
                }
            }
            lo = mid + 1;
        } else {
            proof {
                assert forall|k: int| mid <= k < max implies sort_order.rank(#[trigger] old_entries[k]) <= sort_order.rank(group) by {
                    if k > mid {
                        assert(sort_order.spec_le_reversed(old_entries[mid as int], old_entries[k]));
                        sort_order.lemma_le_reversed_rank(old_entries[mid as int], old_entries[k]);
                    }
                }
            }
            hi = mid;
        }
    }
    proof {
        lemma_first_not_ranked_above(sort_order, old_entries, group, 0, lo as int, max as int);
    }
    entries.insert(lo, group);
    assert(entries@ == old_entries.take(max as int).insert(lo as int, group));
    Ok(())
}

/// The sum of a prefix's stats is at most that of the whole.
proof fn lemma_stats_total_monotone(entries: Seq<Entry>, k: nat)
    requires
        k <= entries.len(),
    ensures
        ({
            let (f1, s1, b1) = stats_total(entries.take(k as int));
            let (f2, s2, b2) = stats_total(entries);
            f1 <= f2 && s1 <= s2 && b1 <= b2
        }),
    decreases entries.len(),
{
    if k < entries.len() {
        lemma_stats_total_monotone(entries.drop_last(), k);
        assert(entries.drop_last().take(k as int) =~= entries.take(k as int));
    } else {
        assert(entries.take(k as int) =~= entries);
    }
}

/// Whether an entry of the import that is a directory ends within the archive,
/// after a position: a directory's entries start after it
pub open spec fn starts_after(entry: Entry, pos: nat, len: nat) -> bool {
    entry matches Entry::Import(entry) ==> pos < entry.import.import_pos <= len
}

/// Whether, if `entry` is a directory of the import, the archive stands where its entries start
pub open spec fn stands_at_entries(entry: Entry, data: Seq<u8>, pos: nat) -> bool {
    match entry {
        Entry::Import(entry) => entry.import.kind is Dir ==> pos == clamp_pos(data, entry.import.import_pos as int),
        Entry::Group(_) => true,
    }
}

/// How far the entries of a directory lie from the end of the archive
pub open spec fn visit_measure(entry: Entry, len: nat) -> nat {
    match entry {
        Entry::Import(entry) => (len - clamp_pos_nat(entry.import.import_pos as int, len) + 1) as nat,
        Entry::Group(_) => 0,
    }
}

/// A position, or `len` if it lies past it
pub open spec fn clamp_pos_nat(pos: int, len: nat) -> nat {
    if 0 <= pos <= len {
        pos as nat
    } else {
        len
    }
}

/// The context of a line of the analysis: its entry, the buffer of names, and
/// the tree's depths
pub type LineContext = (Entry, Seq<u8>, Seq<usize>);

/// Whether `lines` are the lines of `contexts`, one for one
pub open spec fn are_lines_of(lines: Seq<AnalyzeLine>, contexts: Seq<LineContext>, max_depth: Option<usize>) -> bool {
    &&& lines.len() == contexts.len()
    &&& forall|i: int|
        0 <= i < lines.len() ==> #[trigger] is_entry_line(lines[i], contexts[i].0, contexts[i].1, contexts[i].2, max_depth)
}

/// The line of an entry alone, or the error that displaying it gives
pub open spec fn own_line(entry: Entry, names: Seq<u8>, tree: Seq<usize>) -> Result<Seq<LineContext>, ImportError> {
    match displayed_files(entry) {
        Some(files) if files < 0 => Err(ImportError::InvalidStats),
        _ => Ok(seq![(entry, names, tree)]),
    }
}

/// Reads the next `count` entries of a directory, from `pos`: each with its
/// name appended to `names`, and its stats. Gives the entries and the names.
pub open spec fn spec_read_children(data: Seq<u8>, pos: nat, count: nat, names: Seq<u8>) -> Result<(Seq<Entry>, Seq<u8>), ImportError>
    decreases count,
{
    if count == 0 {
        Ok((Seq::empty(), names))
    } else {
        match spec_read_entry(data, pos) {
            Err(e) => Err(e),
            Ok((import, _nul, end)) => match spec_read_entry_stats(data, end, import) {
                Err(e) => Err(e),
                Ok((stats, after)) => {
                    let name = spec_name_read(data, pos);
                    let child = Entry::Import(
                        ImportEntry {
                            name_range: OsStrRange { start: names.len() as usize, end: (names.len() + name.len()) as usize },
                            stats,
                            import,
                        },
                    );
                    match spec_read_children(data, after, (count - 1) as nat, names + name) {
                        Err(e) => Err(e),
                        Ok((rest, all_names)) => Ok((seq![child] + rest, all_names)),
                    }
                },
            },
        }
    }
}

/// `read` put before the entries of a reading
pub open spec fn after_read(read: Seq<Entry>, res: Result<(Seq<Entry>, Seq<u8>), ImportError>) -> Result<
    (Seq<Entry>, Seq<u8>),
    ImportError,
> {
    match res {
        Ok((rest, names)) => Ok((read + rest, names)),
        Err(e) => Err(e),
    }
}

/// The lines of the analysis of `entry`, with names in `names`, at the tree's
/// depths `tree`, as contexts, or the error that stops it: for a directory,
/// unless at the maximum depth, its entries are read from where its header
/// ends, sorted by the sort order reversed, grouped, and visited from the last
/// one to the first; its own line comes last.
pub open spec fn spec_visit(data: Seq<u8>, entry: Entry, names: Seq<u8>, tree: Seq<usize>, config: Config) -> Result<
    Seq<LineContext>,
    ImportError,
>
    decreases visit_measure(entry, data.len()) as int, 1int, 0int,
{
    match entry {
        Entry::Import(import_entry) => match import_entry.import.kind {
            DirEntryKind::Dir(dir) => {
                let pos = clamp_pos(data, import_entry.import.import_pos as int);
                if is_at_max_depth(config.max_depth, tree.len()) {
                    match spec_skip_dir_entries(data, pos, dir) {
                        Err(e) => Err(e),
                        Ok(footer_pos) => match spec_read_dir_footer(data, footer_pos) {
                            Err(e) => Err(e),
                            Ok(_) => own_line(entry, names, tree),
                        },
                    }
                } else {
                    match spec_read_children(data, pos, dir.entries_len as nat, names) {
                        Err(e) => Err(e),
                        Ok((read, children_names)) => match grouped(
                            config.sort_order,
                            stable_sorted(read, config.sort_order.le_reversed()),
                            config.max_files_per_dir,
                        ) {
                            None => Err(ImportError::InvalidStats),
                            Some(children) => match spec_visit_children(
                                data,
                                children,
                                0,
                                children_names,
                                tree,
                                config,
                                visit_measure(entry, data.len()),
                            ) {
                                Err(e) => Err(e),
                                Ok(children_lines) => match own_line(entry, names, tree) {
                                    Err(e) => Err(e),
                                    Ok(line) => Ok(children_lines + line),
                                },
                            },
                        },
                    }
                }
            },
            _ => own_line(entry, names, tree),
        },
        Entry::Group(_) => own_line(entry, names, tree),
    }
}

/// The lines of the analysis of the children of a directory, from the last
/// one down to the `k`-th, each one level deeper in the tree, numbered from the
/// last one; children lie within the archive before `bound`.
pub open spec fn spec_visit_children(
    data: Seq<u8>,
    children: Seq<Entry>,
    k: int,
    names: Seq<u8>,
    tree: Seq<usize>,
    config: Config,
    bound: nat,
) -> Result<Seq<LineContext>, ImportError>
    decreases bound as int, 0int, children.len() - k,
{
    if k < 0 || k >= children.len() {
        Ok(Seq::empty())
    } else {
        match spec_visit_children(data, children, k + 1, names, tree, config, bound) {
            Err(e) => Err(e),
            Ok(later) => {
                let child = children[k];
                if visit_measure(child, data.len()) < bound {
                    match spec_visit(data, child, names, tree.push((children.len() - k - 1) as usize), config) {
                        Err(e) => Err(e),
                        Ok(lines) => Ok(later + lines),
                    }
                } else {
                    // A directory's entries lie after it within the archive
                    Err(ImportError::InvalidStats)
                }
            },
        }
    }
}

/// Once the analysis of one child fails, that of all the children fails so.
proof fn lemma_visit_children_err(
    data: Seq<u8>,
    children: Seq<Entry>,
    j: int,
    k: int,
    names: Seq<u8>,
    tree: Seq<usize>,
    config: Config,
    bound: nat,
)
    requires
        0 <= j <= k,
        spec_visit_children(data, children, k, names, tree, config, bound) is Err,
    ensures
        spec_visit_children(data, children, j, names, tree, config, bound) == spec_visit_children(
            data,
            children,
            k,
            names,
            tree,
            config,
            bound,
        ),
    decreases k - j,
{
    if j < k {
        lemma_visit_children_err(data, children, j + 1, k, names, tree, config, bound);
    }
}

/// Lines put one after the other are the lines of their contexts one after the other.
proof fn lemma_are_lines_of_append(
    lines1: Seq<AnalyzeLine>,
    contexts1: Seq<LineContext>,
    lines2: Seq<AnalyzeLine>,
    contexts2: Seq<LineContext>,
    max_depth: Option<usize>,
)
    requires
        are_lines_of(lines1, contexts1, max_depth),
        are_lines_of(lines2, contexts2, max_depth),
    ensures
        are_lines_of(lines1 + lines2, contexts1 + contexts2, max_depth),
{
    let lines = lines1 + lines2;
    let contexts = contexts1 + contexts2;
    assert forall|i: int| 0 <= i < lines.len() implies #[trigger] is_entry_line(
        lines[i],
        contexts[i].0,
        contexts[i].1,
        contexts[i].2,
        max_depth,
    ) by {
        if i < lines1.len() {
            assert(lines[i] == lines1[i] && contexts[i] == contexts1[i]);
        } else {
            assert(lines[i] == lines2[i - lines1.len()] && contexts[i] == contexts2[i - lines1.len()]);
        }
    }
}

/// The analysis of an entry ends with the entry's own line, after those of
/// all that lies within it.
pub proof fn lemma_visit_ends_with_entry(data: Seq<u8>, entry: Entry, names: Seq<u8>, tree: Seq<usize>, config: Config)
    requires
        spec_visit(data, entry, names, tree, config) is Ok,
    ensures
        spec_visit(data, entry, names, tree, config) matches Ok(contexts) && contexts.len() >= 1 && contexts.last() == (
            entry,
            names,
            tree,
        ),
{
}

/// Visits an entry recursively: first the lines of its children (sorted,
/// grouped and in turn visited, unless at the maximum depth), then its own line.
///
/// Returns the stats of the entry (recursively)
fn visit(
    entry: Entry,
    importer: &mut Importer,
    tree: &mut TreeDisplay,
    names: &mut Vec<u8>,
    lines: &mut Vec<AnalyzeLine>,
    config: Config,
) -> (res: Result<Stats, ImportError>)
    requires
        old(importer).wf(),
        name_fits(entry, old(names)@.len()),
        stands_at_entries(entry, old(importer).data(), old(importer).pos()),
    ensures
        final(importer).data() == old(importer).data(),
        final(importer).wf(),
        match spec_visit(old(importer).data(), entry, old(names)@, old(tree)@, config) {
            Ok(contexts) => {
                &&& res == Ok::<Stats, ImportError>(entry.spec_stats())
                &&& final(names)@ == old(names)@
                &&& final(tree)@ == old(tree)@
                &&& final(lines)@.len() == old(lines)@.len() + contexts.len()
                &&& final(lines)@.take(old(lines)@.len() as int) == old(lines)@
                &&& are_lines_of(final(lines)@.skip(old(lines)@.len() as int), contexts, config.max_depth)
            },
            Err(e) => res == Err::<Stats, ImportError>(e),
        },
    decreases visit_measure(entry, old(importer).data().len()),
{
    let ghost data = importer.data();
    let ghost len = data.len();
    let ghost start_names = names@;
    let ghost start_tree = tree@;
    let ghost start_lines = lines@;
    let ghost mut children_lines: Seq<LineContext> = Seq::empty();
    let is_at_max_depth = match config.max_depth {
        Some(max_depth) => tree.depth() >= max_depth,
        None => false,
    };

    if let Entry::Import(import_entry) = entry {
        if let DirEntryKind::Dir(dir) = import_entry.import.kind {
            if is_at_max_depth {
                importer.skip_dir_entries(dir)?;
                importer.read_dir_footer()?;
            } else {
                let ghost dir_pos = importer.pos();
                proof {
                    importer.lemma_wf_len();
                }
                let ghost goal = spec_read_children(data, dir_pos, dir.entries_len as nat, start_names);
                let names_start = names.len();
                let mut children: Vec<Entry> = Vec::new();
                let mut remaining = dir.entries_len;
                assert(after_read(children@, goal) == goal) by {
                    if let Ok((r, n)) = goal {
                        assert(children@ + r =~= r);
                    }
                }
                while remaining > 0
                    invariant
                        importer.wf(),
                        importer.data() == data,
                        data == old(importer).data(),
                        len == data.len(),
                        dir_pos <= importer.pos(),
                        names_start == start_names.len(),
                        names@.len() >= names_start,
                        names@.take(names_start as int) == start_names,
                        entry == Entry::Import(import_entry),
                        import_entry.import.kind == DirEntryKind::Dir(dir),
                        !self::is_at_max_depth(config.max_depth, start_tree.len()),
                        dir_pos == clamp_pos(data, import_entry.import.import_pos as int),
                        start_names == old(names)@,
                        start_tree == old(tree)@,
                        tree@ == start_tree,
                        goal == spec_read_children(data, dir_pos, dir.entries_len as nat, start_names),
                        goal == after_read(children@, spec_read_children(data, importer.pos(), remaining as nat, names@)),
                        forall|k: int| 0 <= k < children@.len() ==> #[trigger] children@[k] is Import
                            && name_fits(children@[k], names@.len()) && starts_after(children@[k], dir_pos, len),
                    decreases remaining,
                {
                    let ghost pos = importer.pos();
                    proof {
                        importer.lemma_wf_len();
                        crate::archive::import::lemma_read_entry_advances(data, pos);
                        if let Ok((import, _nul, end)) = crate::archive::import::spec_read_entry(data, pos) {
                            crate::archive::import::lemma_read_entry_stats_advances(data, end, import);
                        }
                    }
                    let ghost names_before = names@;
                    let ghost children_before = children@;
                    assert(names@.len() == names.len());
                    let child = match read_from_import(importer, names) {
                        Ok(child) => child,
                        Err(e) => {
                            assert(spec_read_children(data, pos, remaining as nat, names_before) == Err::<
                                (Seq<Entry>, Seq<u8>),
                                ImportError,
                            >(e));
                            return Err(e);
                        },
                    };
                    assert(names@.len() == names.len());
                    children.push(Entry::Import(child));
                    proof {
                        let rest = spec_read_children(data, importer.pos(), (remaining - 1) as nat, names@);
                        assert(spec_read_children(data, pos, remaining as nat, names_before) == after_read(
                            seq![Entry::Import(child)],
                            rest,
                        ));
                        assert(after_read(children_before, after_read(seq![Entry::Import(child)], rest)) == after_read(
                            children@,
                            rest,
                        )) by {
                            if let Ok((r, n)) = rest {
                                assert(children_before + (seq![Entry::Import(child)] + r) =~= children@ + r);
                            }
                        }
                    }
                    remaining -= 1;
                    assert(names@.take(names_start as int) =~= start_names);
                    proof {
                        assert(names@.len() >= names_before.len());
                        assert(child.import.import_pos > pos);
                        assert(starts_after(Entry::Import(child), dir_pos, len));
                        assert(name_fits(Entry::Import(child), names@.len()));
                        assert forall|k: int| 0 <= k < children@.len() implies #[trigger] children@[k] is Import
                            && name_fits(children@[k], names@.len()) && starts_after(children@[k], dir_pos, len) by {
                            if k < children_before.len() {
                                assert(children@[k] == children_before[k]);
                            }
                        }
                    }
                }
                let ghost read = children@;
                let ghost children_names = names@;
                assert(read + Seq::<Entry>::empty() =~= read);
                assert(goal == Ok::<(Seq<Entry>, Seq<u8>), ImportError>((read, children_names)));

                config.sort_order.sort_entries_reversed(children.as_mut_slice());
                let ghost sorted = children@;
                proof {
                    let perm = choose|perm: Seq<int>|
                        #[trigger] is_stable_sort_of(sorted, read, perm, config.sort_order.le_reversed());
                    assert forall|k: int| 0 <= k < sorted.len() implies name_fits(#[trigger] sorted[k], children_names.len())
                        && starts_after(sorted[k], dir_pos, len) by {
                        assert(sorted[k] == read[perm[k]]);
                    }
                    assert forall|a: int, b: int| 0 <= a < b < sorted.len() implies #[trigger] config.sort_order.spec_le_reversed(
                        sorted[a],
                        sorted[b],
                    ) by {
                        assert(crate::util::sort::goes_before(config.sort_order.le_reversed(), sorted[a], perm[a], sorted[b], perm[b]));
                    }
                }
                group_entries(config.sort_order, &mut children, config.max_files_per_dir)?;
                proof {
                    assert forall|k: int| 0 <= k < children@.len() implies name_fits(#[trigger] children@[k], children_names.len())
                        && starts_after(children@[k], dir_pos, len) by {
                        if let Some(max) = config.max_files_per_dir {
                            if sorted.len() > max {
                                let group = group_of(sorted, max as int).unwrap();
                                let p = first_not_ranked_above(config.sort_order, sorted, group, 0, max as int);
                                assert(children@ == sorted.take(max as int).insert(p, group));
                                if k < p {
                                    assert(children@[k] == sorted[k]);
                                } else if k > p {
                                    assert(children@[k] == sorted[k - 1]);
                                }
                            }
                        }
                    }
                }

                let ghost bound = visit_measure(entry, len);
                let count = children.len();
                let mut k = count;
                let ghost mut done: Seq<LineContext> = Seq::empty();
                assert(lines@.skip(start_lines.len() as int) =~= Seq::<AnalyzeLine>::empty());
                while k > 0
                    invariant
                        importer.wf(),
                        importer.data() == data,
                        len == data.len(),
                        k <= count,
                        count == children@.len(),
                        names@ == children_names,
                        tree@ == start_tree,
                        lines@.len() == start_lines.len() + done.len(),
                        lines@.take(start_lines.len() as int) == start_lines,
                        are_lines_of(lines@.skip(start_lines.len() as int), done, config.max_depth),
                        spec_visit_children(data, children@, k as int, children_names, start_tree, config, bound) == Ok::<
                            Seq<LineContext>,
                            ImportError,
                        >(done),
                        bound == len - dir_pos + 1,
                        bound == visit_measure(entry, len),
                        entry == Entry::Import(import_entry),
                        import_entry.import.kind == DirEntryKind::Dir(dir),
                        !self::is_at_max_depth(config.max_depth, start_tree.len()),
                        dir_pos == clamp_pos(data, import_entry.import.import_pos as int),
                        start_names == old(names)@,
                        start_tree == old(tree)@,
                        goal == spec_read_children(data, dir_pos, dir.entries_len as nat, start_names),
                        goal == Ok::<(Seq<Entry>, Seq<u8>), ImportError>((read, children_names)),
                        grouped(config.sort_order, stable_sorted(read, config.sort_order.le_reversed()), config.max_files_per_dir)
                            == Some(children@),
                        data == old(importer).data(),
                        dir_pos <= len,
                        forall|j: int| 0 <= j < children@.len() ==> name_fits(#[trigger] children@[j], children_names.len())
                            && starts_after(children@[j], dir_pos, len),
                    decreases k,
                {
                    k -= 1;
                    tree.enter(count - k - 1);
                    let child = children[k];
                    if let Entry::Import(child_entry) = child {
                        if child_entry.import.kind.is_dir() {
                            importer.seek_entry(&child_entry.import);
                        }
                    }
                    let ghost before_lines = lines@;
                    let ghost child_tree = tree@;
                    assert(visit_measure(child, len) < bound);
                    assert(child_tree == start_tree.push((children@.len() - k - 1) as usize));
                    if let Err(e) = visit(child, importer, tree, names, lines, config) {
                        proof {
                            lemma_visit_children_err(data, children@, 0, k as int, children_names, start_tree, config, bound);
                        }
                        return Err(e);
                    }
                    proof {
                        let child_lines = spec_visit(data, child, children_names, child_tree, config).unwrap();
                        assert(spec_visit_children(data, children@, k as int, children_names, start_tree, config, bound) == Ok::<
                            Seq<LineContext>,
                            ImportError,
                        >(done + child_lines));
                        assert(lines@.skip(start_lines.len() as int) =~= before_lines.skip(start_lines.len() as int)
                            + lines@.skip(before_lines.len() as int));
                        lemma_are_lines_of_append(
                            before_lines.skip(start_lines.len() as int),
                            done,
                            lines@.skip(before_lines.len() as int),
                            child_lines,
                            config.max_depth,
                        );
                        assert(lines@.take(start_lines.len() as int) =~= start_lines) by {
                            assert(lines@.take(before_lines.len() as int) == before_lines);
                            assert(before_lines.take(start_lines.len() as int) == start_lines);
                        }
                        done = done + child_lines;
                    }
                    tree.leave();
                    assert(tree@ =~= start_tree);
                }
                names.truncate(names_start);
                assert(names@ =~= start_names);
                proof {
                    children_lines = done;
                }
            }
        }
    }

    let ghost before_lines = lines@;
    let line = display_entry(&entry, names, tree, config.max_depth)?;
    lines.push(line);
    proof {
        assert(lines@.take(start_lines.len() as int) =~= start_lines);
        assert(lines@.skip(start_lines.len() as int) =~= before_lines.skip(start_lines.len() as int) + seq![line]);
        assert(are_lines_of(seq![line], seq![(entry, start_names, start_tree)], config.max_depth));
        lemma_are_lines_of_append(
            before_lines.skip(start_lines.len() as int),
            children_lines,
            seq![line],
            seq![(entry, start_names, start_tree)],
            config.max_depth,
        );
        assert(Seq::<LineContext>::empty() + seq![(entry, start_names, start_tree)] =~= seq![(entry, start_names, start_tree)]);
    }
    Ok(entry.stats())
}

/// Analyzes an import: makes the lines of the tree of `entry`, whose name is
/// `entry_name`, with the importer just after the entry's header.
///
/// The lines go from the deepest entries up to the entry itself, which comes last.
pub fn analyze(importer: &mut Importer, entry: DirEntry, entry_name: Vec<u8>, config: Config) -> (res: Result<Vec<AnalyzeLine>, ImportError>)
    requires
        old(importer).wf(),
    ensures
        final(importer).data() == old(importer).data(),
        final(importer).wf(),
        match spec_read_entry_stats(old(importer).data(), old(importer).pos(), entry) {
            Err(e) => res == Err::<Vec<AnalyzeLine>, ImportError>(e),
            Ok((stats, _)) => match spec_visit(
                old(importer).data(),
                root_entry(entry_name@, stats, entry),
                entry_name@,
                Seq::empty(),
                config,
            ) {
                Ok(contexts) => res matches Ok(lines) && are_lines_of(lines@, contexts, config.max_depth),
                Err(e) => res == Err::<Vec<AnalyzeLine>, ImportError>(e),
            },
        },
{
    let mut names = entry_name;
    let name_range = OsStrRange { start: 0, end: names.len() };
    let stats = importer.read_entry_stats(entry)?;
    let root = Entry::Import(ImportEntry { name_range, stats, import: entry });
    importer.seek_entry(&entry);

    let mut tree = TreeDisplay::new();
    let mut lines = Vec::new();
    visit(root, importer, &mut tree, &mut names, &mut lines, config)?;
    assert(lines@.skip(0) =~= lines@);
    Ok(lines)
}

/// The entry that an analysis starts from: named by the whole of `name`
pub open spec fn root_entry(name: Seq<u8>, stats: Stats, entry: DirEntry) -> Entry {
    Entry::Import(ImportEntry { name_range: OsStrRange { start: 0, end: name.len() as usize }, stats, import: entry })
}

} // verus!
