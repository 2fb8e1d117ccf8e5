//! Compare two imports

use {
    crate::{
        analyze::{clamp_pos_nat, is_at_max_depth},
        archive::import::{
            clamp_pos, lemma_read_entry_advances, lemma_read_entry_stats_advances, spec_name_read, spec_read_dir_footer,
            spec_read_entry, spec_read_entry_stats, DirEntry, DirEntryKind, DirHeader, ImportError, Importer,
        },
        stats::{disk_bytes, disk_usage, stats_add_fits, stats_diff_add_fits, stats_diff_sum, stats_sum, zero_stats, Stats, StatsDiff},
        tree_display::{tree_prefix, TreeDisplay},
        util::{
            binary_size_text, bytes_eq, bytes_le, bytes_le_exec, common_os_str_prefix, fmt_size, common_os_str_suffix, prefix_split_len,
            suffix_split_len, lemma_bytes_le_total,
            sort::{is_stable_sort_of, lemma_is_stable_sorted, stable_sort, stable_sorted},
            OsStrRange,
        },
    },
    vstd::prelude::*,
};

verus! {

/// How to compare
#[derive(PartialEq, Eq, Structural, Clone, Copy, Debug)]
pub struct Config {
    pub max_depth: Option<usize>,
    pub show_unchanged: bool,
}

/// An entry of either import
#[derive(PartialEq, Eq, Structural, Clone, Copy, Debug)]
pub struct Entry {
    pub name_range: OsStrRange,
    pub stats: Stats,
    pub import: DirEntry,
}

/// How a statistic changed
#[derive(PartialEq, Eq, Structural, Clone, Copy, Debug)]
pub enum SizeChange {
    /// It grew by this much
    Grew(u64),
    Unchanged,
    /// It shrank by this much
    Shrank(u64),
}

/// How a line shows the names of an entry on both sides
#[derive(PartialEq, Eq, Clone, Debug)]
pub enum NameDisplay {
    /// Both sides have this name
    Same(Vec<u8>),
    /// The names share a prefix and a suffix, and differ between them
    Differ { prefix: Vec<u8>, lhs: Vec<u8>, rhs: Vec<u8>, suffix: Vec<u8> },
}

/// What a line of the comparison shows
#[derive(PartialEq, Eq, Clone, Debug)]
pub enum Change {
    /// An entry on both sides, with how its size and its size on disk changed, formatted
    Changed {
        name: NameDisplay,
        size: SizeChange,
        blocks: SizeChange,
        size_text: String,
        blocks_text: String,
        files_added: u64,
        files_removed: u64,
    },
    /// An entry only on the left side, with its size and its size on disk, formatted
    Removed { name: Vec<u8>, stats: Stats, size_text: String, disk_text: String },
    /// An entry only on the right side, with its size and its size on disk, formatted
    Added { name: Vec<u8>, stats: Stats, size_text: String, disk_text: String },
}

/// A line of the comparison
#[derive(PartialEq, Eq, Clone, Debug)]
pub struct CompareLine {
    /// The branches of the tree before the entry
    pub prefix: String,
    pub change: Change,
}

/// What changed of an entry
#[derive(PartialEq, Eq, Structural, Clone, Copy, Debug)]
pub enum Changes {
    Changed { lhs_entry_name: OsStrRange, rhs_entry_name: OsStrRange, diff: StatsDiff },
    Added { rhs_entry_name: OsStrRange, stats: Stats },
    Removed { lhs_entry_name: OsStrRange, stats: Stats },
}

/// How a statistic that was `removed` on one side and `added` on the other changed
pub open spec fn size_change(removed: u64, added: u64) -> SizeChange {
    if removed < added {
        SizeChange::Grew((added - removed) as u64)
    } else if removed == added {
        SizeChange::Unchanged
    } else {
        SizeChange::Shrank((removed - added) as u64)
    }
}

/// The text of how a size changed: the amount, formatted, with `+` before it
/// if it grew and `-` if it shrank; of blocks, the amount is in bytes on disk.
pub open spec fn change_text(change: SizeChange, blocks: bool) -> Seq<char> {
    let amount = |n: u64|
        if blocks {
            disk_bytes(n)
        } else {
            n
        };
    match change {
        SizeChange::Grew(n) => "+"@ + binary_size_text(amount(n)),
        SizeChange::Unchanged => binary_size_text(amount(0)),
        SizeChange::Shrank(n) => "-"@ + binary_size_text(amount(n)),
    }
}

/// The text of how an amount changed shows the direction and the size of the
/// change, of size and of blocks alike: if it fell, `-` and then the
/// difference formatted; if it rose, `+` and then the difference formatted;
/// if it stayed, zero formatted, with no sign. Of blocks, the difference is
/// formatted as bytes on disk, 512 to a block.
pub proof fn lemma_change_text_shows_direction(removed: u64, added: u64, blocks: bool)
    ensures
        ({
            let text = change_text(size_change(removed, added), blocks);
            let diff: int = if removed > added {
                removed - added
            } else {
                added - removed
            };
            let shown: int = if blocks {
                (512 * diff) % 0x1_0000_0000_0000_0000
            } else {
                diff
            };
            &&& removed > added ==> text.len() >= 1 && text[0] == '-' && text.skip(1) == binary_size_text(
                shown as u64,
            )
            &&& removed < added ==> text.len() >= 1 && text[0] == '+' && text.skip(1) == binary_size_text(
                shown as u64,
            )
            &&& removed == added ==> text == binary_size_text(0)
        }),
{
    reveal_strlit("-");
    reveal_strlit("+");
    let text = change_text(size_change(removed, added), blocks);
    if removed > added {
        assert(text.skip(1) =~= text.subrange(1, text.len() as int));
        assert(("-"@ + binary_size_text(if blocks { disk_bytes((removed - added) as u64) } else { (removed - added) as u64 })).skip(1)
            =~= binary_size_text(if blocks { disk_bytes((removed - added) as u64) } else { (removed - added) as u64 }));
    } else if removed < added {
        assert(("+"@ + binary_size_text(if blocks { disk_bytes((added - removed) as u64) } else { (added - removed) as u64 })).skip(1)
            =~= binary_size_text(if blocks { disk_bytes((added - removed) as u64) } else { (added - removed) as u64 }));
    }
}

/// Whether `display` shows the names `lhs` and `rhs`: one name if they are
/// equal; otherwise their common prefix, what differs of each after it and
/// before their common suffix, and that suffix.
pub open spec fn shows_names(display: NameDisplay, lhs: Seq<u8>, rhs: Seq<u8>) -> bool {
    if lhs == rhs {
        display matches NameDisplay::Same(name) && name@ == lhs
    } else {
        let p = prefix_split_len(lhs, rhs) as int;
        let lhs_rest = lhs.skip(p);
        let rhs_rest = rhs.skip(p);
        let q = suffix_split_len(lhs_rest, rhs_rest) as int;
        display matches NameDisplay::Differ { prefix, lhs: l, rhs: r, suffix } && prefix@ == lhs.take(p) && l@
            == lhs_rest.take(lhs_rest.len() - q) && r@ == rhs_rest.take(rhs_rest.len() - q) && suffix@
            == lhs_rest.skip(lhs_rest.len() - q)
    }
}

/// The names of `changes` lie within a buffer of `len` bytes
pub open spec fn changes_fit(changes: Changes, len: nat) -> bool {
    match changes {
        Changes::Changed { lhs_entry_name, rhs_entry_name, .. } => lhs_entry_name.fits(len) && rhs_entry_name.fits(len),
        Changes::Added { rhs_entry_name, .. } => rhs_entry_name.fits(len),
        Changes::Removed { lhs_entry_name, .. } => lhs_entry_name.fits(len),
    }
}

/// No change at all
pub open spec fn zero_diff() -> StatsDiff {
    StatsDiff { add: Stats { files: 0, size: 0, blocks: 0 }, remove: Stats { files: 0, size: 0, blocks: 0 } }
}

/// Whether the changes of an entry are shown: not below the maximum depth, and,
/// for an entry on both sides whose size did not change, only if anything was
/// added or removed, unchanged entries are shown, or it is the root.
pub open spec fn changes_shown(changes: Changes, depth: nat, config: Config) -> bool {
    &&& !(config.max_depth matches Some(max_depth) && depth > max_depth)
    &&& match changes {
        Changes::Changed { diff, .. } => diff.remove.size == diff.add.size ==> (diff != zero_diff()
            || config.show_unchanged || depth == 0),
        _ => true,
    }
}

/// Whether `line` shows `changes`, with names in `names`, at the tree's depths `tree`
pub open spec fn is_changes_line(line: CompareLine, changes: Changes, has_children: bool, names: Seq<u8>, tree: Seq<usize>) -> bool {
    &&& line.prefix@ == tree_prefix(tree, has_children)
    &&& match changes {
        Changes::Changed { lhs_entry_name, rhs_entry_name, diff } => line.change matches Change::Changed {
            name,
            size,
            blocks,
            files_added,
            files_removed,
            size_text,
            blocks_text,
        } && shows_names(
            name,
            names.subrange(lhs_entry_name.start as int, lhs_entry_name.end as int),
            names.subrange(rhs_entry_name.start as int, rhs_entry_name.end as int),
        ) && size == size_change(diff.remove.size, diff.add.size) && blocks == size_change(
            diff.remove.blocks,
            diff.add.blocks,
        ) && size_text@ == change_text(size, false) && blocks_text@ == change_text(blocks, true) && files_added
            == diff.add.files && files_removed == diff.remove.files,
        Changes::Removed { lhs_entry_name, stats } => line.change matches Change::Removed {
            name,
            stats: s,
            size_text,
            disk_text,
        } && name@ == names.subrange(lhs_entry_name.start as int, lhs_entry_name.end as int) && s == stats
            && size_text@ == binary_size_text(stats.size) && disk_text@ == binary_size_text(disk_bytes(stats.blocks)),
        Changes::Added { rhs_entry_name, stats } => line.change matches Change::Added {
            name,
            stats: s,
            size_text,
            disk_text,
        } && name@ == names.subrange(rhs_entry_name.start as int, rhs_entry_name.end as int) && s == stats
            && size_text@ == binary_size_text(stats.size) && disk_text@ == binary_size_text(disk_bytes(stats.blocks)),
    }
}

fn size_change_exec(removed: u64, added: u64) -> (change: SizeChange)
    ensures
        change == size_change(removed, added),
{
    if removed < added {
        SizeChange::Grew(added - removed)
    } else if removed == added {
        SizeChange::Unchanged
    } else {
        SizeChange::Shrank(removed - added)
    }
}

/// Formats how a size changed
fn change_text_exec(change: SizeChange, blocks: bool) -> (text: String)
    ensures
        text@ == change_text(change, blocks),
{
    let amount = |n: u64| -> (amount: u64)
        ensures
            amount == if blocks {
                disk_bytes(n)
            } else {
                n
            },
        {
            if blocks {
                disk_usage(n)
            } else {
                n
            }
        };
    let mut text = String::new();
    match change {
        SizeChange::Grew(n) => {
            text.append("+");
            text.append(fmt_size(amount(n)).as_str());
        },
        SizeChange::Unchanged => {
            text.append(fmt_size(amount(0)).as_str());
        },
        SizeChange::Shrank(n) => {
            text.append("-");
            text.append(fmt_size(amount(n)).as_str());
        },
    }
    proof {
        reveal_strlit("+");
        reveal_strlit("-");
    }
    assert(text@ =~= change_text(change, blocks));
    text
}

fn copy_bytes(bytes: &[u8]) -> (copy: Vec<u8>)
    ensures
        copy@ == bytes@,
{
    let mut copy = Vec::new();
    copy.extend_from_slice(bytes);
    assert(copy@ =~= bytes@);
    copy
}

/// Shows the names of an entry on both sides
pub fn name_display(lhs: &[u8], rhs: &[u8]) -> (display: NameDisplay)
    ensures
        shows_names(display, lhs@, rhs@),
{
    if bytes_eq(lhs, rhs) {
        return NameDisplay::Same(copy_bytes(lhs));
    }
    let (common_prefix, lhs_rest, rhs_rest) = common_os_str_prefix(lhs, rhs);
    let (lhs_part, rhs_part, common_suffix) = common_os_str_suffix(lhs_rest, rhs_rest);
    NameDisplay::Differ {
        prefix: copy_bytes(common_prefix),
        lhs: copy_bytes(lhs_part),
        rhs: copy_bytes(rhs_part),
        suffix: copy_bytes(common_suffix),
    }
}

/// Shows the changes of an entry: its line, or `None` if it is not shown.
pub fn entry_changes(
    changes: &Changes,
    has_children: bool,
    names: &Vec<u8>,
    tree: &TreeDisplay,
    config: Config,
) -> (line: Option<CompareLine>)
    requires
        changes_fit(*changes, names@.len()),
    ensures
        match line {
            Some(line) => changes_shown(*changes, tree@.len(), config) && is_changes_line(
                line,
                *changes,
                has_children,
                names@,
                tree@,
            ),
            None => !changes_shown(*changes, tree@.len(), config),
        },
{
    if let Some(max_depth) = config.max_depth {
        if tree.depth() > max_depth {
            return None;
        }
    }

    match changes {
        Changes::Changed { lhs_entry_name, rhs_entry_name, diff } => {
            if diff.remove.size == diff.add.size {
                let zero = Stats { files: 0, size: 0, blocks: 0 };
                let is_default = diff.add == zero && diff.remove == zero;
                if !(!is_default || config.show_unchanged || tree.depth() == 0) {
                    return None;
                }
            }
            let size = size_change_exec(diff.remove.size, diff.add.size);
            let blocks = size_change_exec(diff.remove.blocks, diff.add.blocks);
            let mut prefix = String::new();
            tree.write_prefix(&mut prefix, has_children);
            let name = name_display(lhs_entry_name.index(names.as_slice()), rhs_entry_name.index(names.as_slice()));
            let size_text = change_text_exec(size, false);
            let blocks_text = change_text_exec(blocks, true);
            Some(
                CompareLine {
                    prefix,
                    change: Change::Changed {
                        name,
                        size,
                        blocks,
                        size_text,
                        blocks_text,
                        files_added: diff.add.files,
                        files_removed: diff.remove.files,
                    },
                },
            )
        },
        Changes::Removed { lhs_entry_name, stats } => {
            let mut prefix = String::new();
            tree.write_prefix(&mut prefix, has_children);
            let name = copy_bytes(lhs_entry_name.index(names.as_slice()));
            let size_text = fmt_size(stats.size);
            let disk_text = fmt_size(disk_usage(stats.blocks));
            Some(CompareLine { prefix, change: Change::Removed { name, stats: *stats, size_text, disk_text } })
        },
        Changes::Added { rhs_entry_name, stats } => {
            let mut prefix = String::new();
            tree.write_prefix(&mut prefix, has_children);
            let name = copy_bytes(rhs_entry_name.index(names.as_slice()));
            let size_text = fmt_size(stats.size);
            let disk_text = fmt_size(disk_usage(stats.blocks));
            Some(CompareLine { prefix, change: Change::Added { name, stats: *stats, size_text, disk_text } })
        },
    }
}

/// Whether the entries `entries` of a directory, with names in a buffer of
/// `len` bytes, start after `pos` within an archive of `data_len` bytes
pub open spec fn entries_after(entries: Seq<Entry>, len: nat, pos: nat, data_len: nat) -> bool {
    forall|k: int| 0 <= k < entries.len() ==> #[trigger] entries[k].name_range.fits(len) && pos < entries[k].import.import_pos <= data_len
}

/// Reads the next `count` entries of a directory, from `pos`: each with its
/// name appended to `names`, and its stats. Gives the entries, the names and
/// where the reading ends.
pub open spec fn spec_read_entries(data: Seq<u8>, pos: nat, count: nat, names: Seq<u8>) -> Result<
    (Seq<Entry>, Seq<u8>, nat),
    ImportError,
>
    decreases count,
{
    if count == 0 {
        Ok((Seq::empty(), names, pos))
    } else {
        match spec_read_entry(data, pos) {
            Err(e) => Err(e),
            Ok((import, _nul, end)) => match spec_read_entry_stats(data, end, import) {
                Err(e) => Err(e),
                Ok((stats, after)) => {
                    let name = spec_name_read(data, pos);
                    let entry = Entry {
                        name_range: OsStrRange { start: names.len() as usize, end: (names.len() + name.len()) as usize },
                        stats,
                        import,
                    };
                    match spec_read_entries(data, after, (count - 1) as nat, names + name) {
                        Err(e) => Err(e),
                        Ok((rest, all_names, q)) => Ok((seq![entry] + rest, all_names, q)),
                    }
                },
            },
        }
    }
}

/// The total stats of `entries`, added up in order, or `None` once a field
/// overflows
pub open spec fn entries_total(entries: Seq<Entry>) -> Option<Stats>
    decreases entries.len(),
{
    if entries.len() == 0 {
        Some(zero_stats())
    } else {
        match entries_total(entries.drop_last()) {
            None => None,
            Some(total) => if stats_add_fits(total, entries.last().stats) {
                Some(stats_sum(total, entries.last().stats))
            } else {
                None
            },
        }
    }
}

/// Reads the entries of a directory, from `pos`, and then its footer. Gives the
/// entries, the names with theirs appended, the total stats of the entries, and
/// where the reading ends. A total that overflows is `InvalidStats`.
pub open spec fn spec_read_dir(data: Seq<u8>, pos: nat, dir: DirHeader, names: Seq<u8>) -> Result<
    (Seq<Entry>, Seq<u8>, Stats, nat),
    ImportError,
> {
    match spec_read_entries(data, pos, dir.entries_len as nat, names) {
        Err(e) => Err(e),
        Ok((read, all_names, end)) => match spec_read_dir_footer(data, end) {
            Err(e) => Err(e),
            Ok((_footer, q)) => match entries_total(read) {
                Some(total) => Ok((read, all_names, total, q)),
                None => Err(ImportError::InvalidStats),
            },
        },
    }
}

/// `read` put before the entries of a reading
pub open spec fn after_read(read: Seq<Entry>, res: Result<(Seq<Entry>, Seq<u8>, nat), ImportError>) -> Result<
    (Seq<Entry>, Seq<u8>, nat),
    ImportError,
> {
    match res {
        Ok((rest, names, end)) => Ok((read + rest, names, end)),
        Err(e) => Err(e),
    }
}

impl Entry {
    /// Reads all entries in a directory, appending them to `entries` and their names to `names`.
    ///
    /// Returns the total stats of the entries and the range of entries read
    pub fn read_dir(
        importer: &mut Importer,
        dir: DirHeader,
        entries: &mut Vec<Self>,
        names: &mut Vec<u8>,
    ) -> (res: Result<(Stats, core::ops::Range<usize>), ImportError>)
        requires
            old(importer).wf(),
        ensures
            final(importer).data() == old(importer).data(),
            final(importer).wf(),
            match spec_read_dir(old(importer).data(), old(importer).pos(), dir, old(names)@) {
                Ok((read, all_names, stats, end)) => {
                    &&& res matches Ok((s, range)) && s == stats && range.start == old(entries)@.len() && range.end
                        == final(entries)@.len()
                    &&& final(entries)@ == old(entries)@ + read
                    &&& final(names)@ == all_names
                    &&& final(importer).pos() == end
                },
                Err(e) => res == Err::<(Stats, core::ops::Range<usize>), ImportError>(e),
            },
            res is Ok ==> {
                &&& final(names)@.len() >= old(names)@.len()
                &&& final(names)@.take(old(names)@.len() as int) == old(names)@
                &&& entries_after(final(entries)@.skip(old(entries)@.len() as int), final(names)@.len(), old(importer).pos(), old(importer).data().len())
            },
    {
        let ghost data = importer.data();
        let ghost start_pos = importer.pos();
        let ghost start_entries = entries@;
        let ghost start_names = names@;
        let ghost goal = spec_read_entries(data, start_pos, dir.entries_len as nat, start_names);
        let entries_start_idx = entries.len();
        let mut remaining = dir.entries_len;
        assert(after_read(entries@.skip(entries_start_idx as int), goal) == goal) by {
            assert(entries@.skip(entries_start_idx as int) =~= Seq::<Entry>::empty());
            if let Ok((r, n, q)) = goal {
                assert(Seq::<Entry>::empty() + r =~= r);
            }
        }
        while remaining > 0
            invariant
                importer.wf(),
                importer.data() == data,
                data == old(importer).data(),
                start_pos == old(importer).pos(),
                start_pos <= importer.pos(),
                entries_start_idx == start_entries.len(),
                start_entries == old(entries)@,
                start_names == old(names)@,
                entries@.len() >= entries_start_idx,
                entries@.take(entries_start_idx as int) == start_entries,
                names@.len() >= start_names.len(),
                names@.take(start_names.len() as int) == start_names,
                entries_after(entries@.skip(entries_start_idx as int), names@.len(), start_pos, data.len()),
                goal == spec_read_entries(data, start_pos, dir.entries_len as nat, start_names),
                goal == after_read(
                    entries@.skip(entries_start_idx as int),
                    spec_read_entries(data, importer.pos(), remaining as nat, names@),
                ),
            decreases remaining,
        {
            let ghost pos = importer.pos();
            let ghost entries_before = entries@;
            let ghost names_before = names@;
            proof {
                importer.lemma_wf_len();
                lemma_read_entry_advances(data, pos);
                if let Ok((import, _nul, end)) = spec_read_entry(data, pos) {
                    lemma_read_entry_stats_advances(data, end, import);
                }
            }
            assert(names@.len() == names.len());
            let (import, name_range) = match importer.read_entry(names) {
                Ok(read) => read,
                Err(e) => {
                    assert(spec_read_entries(data, pos, remaining as nat, names_before) is Err);
                    return Err(e);
                },
            };
            let stats = match importer.read_entry_stats(import) {
                Ok(stats) => stats,
                Err(e) => {
                    assert(spec_read_entries(data, pos, remaining as nat, names_before) is Err);
                    return Err(e);
                },
            };
            assert(names@.len() == names.len());
            let entry = Entry { name_range, stats, import };
            entries.push(entry);
            remaining -= 1;
            proof {
                assert(names@.take(start_names.len() as int) =~= start_names);
                assert(entries@.take(entries_start_idx as int) =~= start_entries);
                let added = entries@.skip(entries_start_idx as int);
                let added_before = entries_before.skip(entries_start_idx as int);
                assert(added =~= added_before.push(entry));
                assert forall|k: int| 0 <= k < added.len() implies #[trigger] added[k].name_range.fits(names@.len())
                    && start_pos < added[k].import.import_pos <= data.len() by {
                    if k < added.len() - 1 {
                        assert(added[k] == added_before[k]);
                        assert(added_before[k].name_range.fits(names_before.len()));
                    } else {
                        assert(import.import_pos > pos);
                    }
                }
                let rest = spec_read_entries(data, importer.pos(), remaining as nat, names@);
                assert(spec_read_entries(data, pos, (remaining + 1) as nat, names_before) == after_read(seq![entry], rest));
                assert(after_read(added_before, after_read(seq![entry], rest)) == after_read(added, rest)) by {
                    if let Ok((r, n, q)) = rest {
                        assert(added_before + (seq![entry] + r) =~= added + r);
                    }
                }
            }
        }
        let range = entries_start_idx..entries.len();
        proof {
            let added = entries@.skip(entries_start_idx as int);
            assert(added + Seq::<Entry>::empty() =~= added);
            assert(entries@ =~= start_entries + added);
        }
        importer.read_dir_footer()?;
        let ghost added = entries@.skip(entries_start_idx as int);
        let ghost outcome = match entries_total(added) {
            Some(t) => Ok((added, names@, t, importer.pos())),
            None => Err(ImportError::InvalidStats),
        };
        assert(spec_read_dir(old(importer).data(), old(importer).pos(), dir, old(names)@) == outcome);
        let mut total = Stats { files: 0, size: 0, blocks: 0 };
        let mut idx = entries_start_idx;
        while idx < entries.len()
            invariant
                entries_start_idx <= idx <= entries.len(),
                added == entries@.skip(entries_start_idx as int),
                importer.wf(),
                importer.data() == old(importer).data(),
                spec_read_dir(old(importer).data(), old(importer).pos(), dir, old(names)@) == outcome,
                outcome == (match entries_total(added) {
                    Some(t) => Ok((added, names@, t, importer.pos())),
                    None => Err(ImportError::InvalidStats),
                }),
                entries_total(added.take(idx - entries_start_idx)) == Some(total),
            decreases entries.len() - idx,
        {
            let ghost done = added.take(idx - entries_start_idx);
            assert(added.take(idx + 1 - entries_start_idx).drop_last() =~= done);
            assert(added[idx - entries_start_idx] == entries@[idx as int]);
            total = match total.checked_add(entries[idx].stats) {
                Some(sum) => sum,
                None => {
                    proof {
                        lemma_entries_total_none(added, (idx + 1 - entries_start_idx) as nat);
                        assert(added.take(added.len() as int) =~= added);
                    }
                    return Err(ImportError::InvalidStats);
                },
            };
            idx += 1;
        }
        assert(added.take(idx - entries_start_idx) =~= added);
        Ok((total, range))
    }
}

/// A total that overflows on a prefix overflows on the whole
pub proof fn lemma_entries_total_none(entries: Seq<Entry>, len: nat)
    requires
        len <= entries.len(),
        entries_total(entries.take(len as int)) is None,
    ensures
        entries_total(entries) is None,
    decreases entries.len() - len,
{
    if len < entries.len() {
        assert(entries.take(len + 1 as int).drop_last() =~= entries.take(len as int));
        lemma_entries_total_none(entries, len + 1);
    } else {
        assert(entries.take(len as int) =~= entries);
    }
}

/// How far the entries of a directory lie from the end of the archive
pub open spec fn entry_measure(entry: Entry, len: nat) -> nat {
    (len - clamp_pos_nat(entry.import.import_pos as int, len) + 1) as nat
}

/// The name of an entry, within `names`
pub open spec fn entry_name(names: Seq<u8>, entry: Entry) -> Seq<u8> {
    names.subrange(entry.name_range.start as int, entry.name_range.end as int)
}

/// The order of entries by name
pub open spec fn name_le(names: Seq<u8>) -> spec_fn(Entry, Entry) -> bool {
    |lhs: Entry, rhs: Entry| bytes_le(entry_name(names, lhs), entry_name(names, rhs))
}

/// Sorts entries by name, stably
fn sort_by_name(entries: &mut Vec<Entry>, names: &Vec<u8>)
    requires
        forall|k: int| 0 <= k < old(entries)@.len() ==> (#[trigger] old(entries)@[k]).name_range.fits(names@.len()),
    ensures
        exists|perm: Seq<int>| #[trigger] is_stable_sort_of(final(entries)@, old(entries)@, perm, name_le(names@)),
        final(entries)@ == stable_sorted(old(entries)@, name_le(names@)),
{
    let ghost le = name_le(names@);
    proof {
        assert forall|a: Entry, b: Entry| #[trigger] le(a, b) || le(b, a) by {
            lemma_bytes_le_total(entry_name(names@, a), entry_name(names@, b), entry_name(names@, b));
        }
        assert forall|a: Entry, b: Entry, c: Entry| #[trigger] le(a, b) && #[trigger] le(b, c) implies le(a, c) by {
            lemma_bytes_le_total(entry_name(names@, a), entry_name(names@, b), entry_name(names@, c));
        }
    }
    let cmp_names = |lhs: &Entry, rhs: &Entry| -> (b: bool)
        requires
            lhs.name_range.fits(names@.len()),
            rhs.name_range.fits(names@.len()),
        ensures
            b == name_le(names@)(*lhs, *rhs),
        {
            bytes_le_exec(lhs.name_range.index(names.as_slice()), rhs.name_range.index(names.as_slice()))
        };
    let (sorted, Ghost(perm)) = stable_sort(entries.as_slice(), &cmp_names, Ghost(le));
    proof {
        lemma_is_stable_sorted(sorted@, entries@, perm, le);
    }
    *entries = sorted;
}

/// Whether the line of an entry on both sides, at `depth`, shows that its
/// children follow: both have children, and the depth is below the maximum
pub open spec fn shows_children(lhs: DirEntry, rhs: DirEntry, max_depth: Option<usize>, depth: nat) -> bool {
    lhs.spec_has_children() && rhs.spec_has_children() && !is_at_max_depth(max_depth, depth)
}

/// The context of a line of the comparison: what changed, whether the line
/// shows that children follow, the buffer of names, and the tree's depths
pub type CompareContext = (Changes, bool, Seq<u8>, Seq<usize>);

/// Whether `lines` are the lines of `contexts`, one for one
pub open spec fn are_compare_lines_of(lines: Seq<CompareLine>, contexts: Seq<CompareContext>) -> bool {
    &&& lines.len() == contexts.len()
    &&& forall|i: int|
        0 <= i < lines.len() ==> #[trigger] is_changes_line(lines[i], contexts[i].0, contexts[i].1, contexts[i].2, contexts[i].3)
}

/// The next number of a line within a directory, once a line was or was not shown
pub open spec fn next_line_idx(idx: usize, shown: bool) -> usize {
    if shown && idx < usize::MAX {
        (idx + 1) as usize
    } else {
        idx
    }
}

/// The comparison of an entry on both sides, with names in `names`, at the
/// tree's depths `tree`: if both are directories, first the comparison of
/// their entries; then its own line, if it is shown. Gives the lines as
/// contexts, what was added and removed within it, and whether its line was
/// shown; or the error that stops it.
pub open spec fn spec_compare_entry(
    lhs_data: Seq<u8>,
    rhs_data: Seq<u8>,
    lhs: Entry,
    rhs: Entry,
    names: Seq<u8>,
    tree: Seq<usize>,
    config: Config,
) -> Result<(Seq<CompareContext>, StatsDiff, bool), ImportError>
    decreases (entry_measure(lhs, lhs_data.len()) + entry_measure(rhs, rhs_data.len())) as int, 2int, 0int,
{
    let inner = match (lhs.import.kind, rhs.import.kind) {
        (DirEntryKind::Dir(lhs_dir), DirEntryKind::Dir(rhs_dir)) => spec_compare_dirs(
            lhs_data,
            clamp_pos(lhs_data, lhs.import.import_pos as int),
            rhs_data,
            clamp_pos(rhs_data, rhs.import.import_pos as int),
            lhs_dir,
            rhs_dir,
            names,
            tree,
            config,
            entry_measure(lhs, lhs_data.len()) + entry_measure(rhs, rhs_data.len()),
        ),
        _ => Ok((Seq::empty(), zero_diff())),
    };
    match inner {
        Err(e) => Err(e),
        Ok((lines, diff)) => {
            let changes = Changes::Changed { lhs_entry_name: lhs.name_range, rhs_entry_name: rhs.name_range, diff };
            if changes_shown(changes, tree.len(), config) {
                Ok(
                    (
                        lines + seq![(changes, shows_children(lhs.import, rhs.import, config.max_depth, tree.len()), names, tree)],
                        diff,
                        true,
                    ),
                )
            } else {
                Ok((lines, diff, false))
            }
        },
    }
}

/// The comparison of the entries of two directories, read from `lhs_pos` and
/// `rhs_pos`: both read, then both sorted by name, then compared in turn.
/// Gives the lines as contexts and what was added and removed within them.
pub open spec fn spec_compare_dirs(
    lhs_data: Seq<u8>,
    lhs_pos: nat,
    rhs_data: Seq<u8>,
    rhs_pos: nat,
    lhs_dir: DirHeader,
    rhs_dir: DirHeader,
    names: Seq<u8>,
    tree: Seq<usize>,
    config: Config,
    bound: nat,
) -> Result<(Seq<CompareContext>, StatsDiff), ImportError>
    decreases bound as int, 1int, 0int,
{
    match spec_read_dir(lhs_data, lhs_pos, lhs_dir, names) {
        Err(e) => Err(e),
        Ok((lhs_read, lhs_names, _, _)) => match spec_read_dir(rhs_data, rhs_pos, rhs_dir, lhs_names) {
            Err(e) => Err(e),
            Ok((rhs_read, all_names, _, _)) => spec_merge(
                lhs_data,
                rhs_data,
                stable_sorted(lhs_read, name_le(all_names)),
                stable_sorted(rhs_read, name_le(all_names)),
                0,
                0,
                0,
                zero_diff(),
                all_names,
                tree,
                config,
                bound,
            ),
        },
    }
}

/// The comparison of the entries of two directories, sorted by name, from the
/// `i`-th on the left and the `j`-th on the right: an entry with the same name
/// on both sides is compared in turn; one only on the left is removed, one
/// only on the right is added. `idx` numbers the next line shown, `acc` is what
/// was added and removed so far, and entries lie within the archives before `bound`.
pub open spec fn spec_merge(
    lhs_data: Seq<u8>,
    rhs_data: Seq<u8>,
    lhs: Seq<Entry>,
    rhs: Seq<Entry>,
    i: int,
    j: int,
    idx: usize,
    acc: StatsDiff,
    names: Seq<u8>,
    tree: Seq<usize>,
    config: Config,
    bound: nat,
) -> Result<(Seq<CompareContext>, StatsDiff), ImportError>
    decreases bound as int, 0int, lhs.len() + rhs.len() - i - j,
{
    let entry_tree = tree.push(idx);
    if i < 0 || j < 0 || i > lhs.len() || j > rhs.len() || (i == lhs.len() && j == rhs.len()) {
        Ok((Seq::empty(), acc))
    } else if i < lhs.len() && j < rhs.len() && entry_name(names, lhs[i]) == entry_name(names, rhs[j]) {
        if entry_measure(lhs[i], lhs_data.len()) + entry_measure(rhs[j], rhs_data.len()) < bound {
            match spec_compare_entry(lhs_data, rhs_data, lhs[i], rhs[j], names, entry_tree, config) {
                Err(e) => Err(e),
                Ok((lines, diff, shown)) => if stats_diff_add_fits(acc, diff) {
                    match spec_merge(
                        lhs_data,
                        rhs_data,
                        lhs,
                        rhs,
                        i + 1,
                        j + 1,
                        next_line_idx(idx, shown),
                        stats_diff_sum(acc, diff),
                        names,
                        tree,
                        config,
                        bound,
                    ) {
                        Err(e) => Err(e),
                        Ok((rest, total)) => Ok((lines + rest, total)),
                    }
                } else {
                    Err(ImportError::InvalidStats)
                },
            }
        } else {
            // A directory's entries lie after it within the archive
            Err(ImportError::InvalidStats)
        }
    } else if i < lhs.len() && (j == rhs.len() || bytes_le(entry_name(names, lhs[i]), entry_name(names, rhs[j]))) {
        let entry = lhs[i];
        if stats_add_fits(acc.remove, entry.stats) {
            let changes = Changes::Removed { lhs_entry_name: entry.name_range, stats: entry.stats };
            let shown = changes_shown(changes, entry_tree.len(), config);
            let line = if shown {
                seq![(changes, false, names, entry_tree)]
            } else {
                Seq::empty()
            };
            match spec_merge(
                lhs_data,
                rhs_data,
                lhs,
                rhs,
                i + 1,
                j,
                next_line_idx(idx, shown),
                StatsDiff { add: acc.add, remove: stats_sum(acc.remove, entry.stats) },
                names,
                tree,
                config,
                bound,
            ) {
                Err(e) => Err(e),
                Ok((rest, total)) => Ok((line + rest, total)),
            }
        } else {
            Err(ImportError::InvalidStats)
        }
    } else {
        let entry = rhs[j];
        if stats_add_fits(acc.add, entry.stats) {
            let changes = Changes::Added { rhs_entry_name: entry.name_range, stats: entry.stats };
            let shown = changes_shown(changes, entry_tree.len(), config);
            let line = if shown {
                seq![(changes, false, names, entry_tree)]
            } else {
                Seq::empty()
            };
            match spec_merge(
                lhs_data,
                rhs_data,
                lhs,
                rhs,
                i,
                j + 1,
                next_line_idx(idx, shown),
                StatsDiff { add: stats_sum(acc.add, entry.stats), remove: acc.remove },
                names,
                tree,
                config,
                bound,
            ) {
                Err(e) => Err(e),
                Ok((rest, total)) => Ok((line + rest, total)),
            }
        } else {
            Err(ImportError::InvalidStats)
        }
    }
}

/// `lines` put before the lines of a comparison
pub open spec fn after_merged(lines: Seq<CompareContext>, res: Result<(Seq<CompareContext>, StatsDiff), ImportError>) -> Result<
    (Seq<CompareContext>, StatsDiff),
    ImportError,
> {
    match res {
        Ok((rest, total)) => Ok((lines + rest, total)),
        Err(e) => Err(e),
    }
}

/// Lines put one after the other are the lines of their contexts one after the other.
proof fn lemma_are_compare_lines_of_append(
    lines1: Seq<CompareLine>,
    contexts1: Seq<CompareContext>,
    lines2: Seq<CompareLine>,
    contexts2: Seq<CompareContext>,
)
    requires
        are_compare_lines_of(lines1, contexts1),
        are_compare_lines_of(lines2, contexts2),
    ensures
        are_compare_lines_of(lines1 + lines2, contexts1 + contexts2),
{
    let lines = lines1 + lines2;
    let contexts = contexts1 + contexts2;
    assert forall|i: int| 0 <= i < lines.len() implies #[trigger] is_changes_line(
        lines[i],
        contexts[i].0,
        contexts[i].1,
        contexts[i].2,
        contexts[i].3,
    ) by {
        if i < lines1.len() {
            assert(lines[i] == lines1[i] && contexts[i] == contexts1[i]);
        } else {
            assert(lines[i] == lines2[i - lines1.len()] && contexts[i] == contexts2[i - lines1.len()]);
        }
    }
}

/// The comparison of two entries at the root of the tree always shows their
/// line, last, whatever changed.
pub proof fn lemma_compare_shows_root(
    lhs_data: Seq<u8>,
    rhs_data: Seq<u8>,
    lhs: Entry,
    rhs: Entry,
    names: Seq<u8>,
    config: Config,
)
    requires
        spec_compare_entry(lhs_data, rhs_data, lhs, rhs, names, Seq::empty(), config) is Ok,
    ensures
        spec_compare_entry(lhs_data, rhs_data, lhs, rhs, names, Seq::empty(), config) matches Ok((contexts, diff, shown))
            && shown && contexts.len() >= 1 && contexts.last() == (
            Changes::Changed { lhs_entry_name: lhs.name_range, rhs_entry_name: rhs.name_range, diff },
            shows_children(lhs.import, rhs.import, config.max_depth, 0),
            names,
            Seq::<usize>::empty(),
        ),
{
}

/// Compares an entry on both sides: first the lines of the entries of both
/// directories, if both are, then its own line, if it is shown.
///
/// Returns what was added and removed within it, and whether its line was shown.
fn entry(
    lhs: Entry,
    rhs: Entry,
    lhs_importer: &mut Importer,
    rhs_importer: &mut Importer,
    tree: &mut TreeDisplay,
    names: &mut Vec<u8>,
    lines: &mut Vec<CompareLine>,
    config: Config,
) -> (res: Result<(StatsDiff, bool), ImportError>)
    requires
        old(lhs_importer).wf(),
        old(rhs_importer).wf(),
        lhs.name_range.fits(old(names)@.len()),
        rhs.name_range.fits(old(names)@.len()),
    ensures
        final(lhs_importer).data() == old(lhs_importer).data(),
        final(rhs_importer).data() == old(rhs_importer).data(),
        final(lhs_importer).wf(),
        final(rhs_importer).wf(),
        match spec_compare_entry(old(lhs_importer).data(), old(rhs_importer).data(), lhs, rhs, old(names)@, old(tree)@, config) {
            Ok((contexts, diff, shown)) => {
                &&& res == Ok::<(StatsDiff, bool), ImportError>((diff, shown))
                &&& final(names)@ == old(names)@
                &&& final(tree)@ == old(tree)@
                &&& final(lines)@.len() == old(lines)@.len() + contexts.len()
                &&& final(lines)@.take(old(lines)@.len() as int) == old(lines)@
                &&& are_compare_lines_of(final(lines)@.skip(old(lines)@.len() as int), contexts)
            },
            Err(e) => res == Err::<(StatsDiff, bool), ImportError>(e),
        },
    decreases entry_measure(lhs, old(lhs_importer).data().len()) + entry_measure(rhs, old(rhs_importer).data().len()), 1nat,
{
    let ghost start_lines = lines@;
    let ghost start_names = names@;
    let ghost start_tree = tree@;
    let ghost lhs_data = lhs_importer.data();
    let ghost rhs_data = rhs_importer.data();
    let ghost mut inner_lines: Seq<CompareContext> = Seq::empty();
    let within_depth = match config.max_depth {
        Some(max_depth) => tree.depth() < max_depth,
        None => true,
    };
    let has_children = lhs.import.has_children() && rhs.import.has_children() && within_depth;

    let mut diff = StatsDiff::default();
    if let (DirEntryKind::Dir(lhs_dir), DirEntryKind::Dir(rhs_dir)) = (lhs.import.kind, rhs.import.kind) {
        lhs_importer.seek_entry(&lhs.import);
        rhs_importer.seek_entry(&rhs.import);
        diff = dir_entries(lhs_importer, rhs_importer, lhs_dir, rhs_dir, tree, names, lines, config)?;
        proof {
            inner_lines = spec_compare_dirs(
                lhs_data,
                clamp_pos(lhs_data, lhs.import.import_pos as int),
                rhs_data,
                clamp_pos(rhs_data, rhs.import.import_pos as int),
                lhs_dir,
                rhs_dir,
                start_names,
                start_tree,
                config,
                entry_measure(lhs, lhs_data.len()) + entry_measure(rhs, rhs_data.len()),
            ).unwrap().0;
        }
    } else {
        assert(lines@.skip(start_lines.len() as int) =~= Seq::<CompareLine>::empty());
    }

    let ghost before_lines = lines@;
    let changes = Changes::Changed { lhs_entry_name: lhs.name_range, rhs_entry_name: rhs.name_range, diff };
    match entry_changes(&changes, has_children, names, tree, config) {
        Some(line) => {
            lines.push(line);
            proof {
                assert(lines@.take(start_lines.len() as int) =~= start_lines);
                assert(lines@.skip(start_lines.len() as int) =~= before_lines.skip(start_lines.len() as int) + seq![line]);
                let context = (changes, has_children, start_names, start_tree);
                assert(are_compare_lines_of(seq![line], seq![context]));
                lemma_are_compare_lines_of_append(
                    before_lines.skip(start_lines.len() as int),
                    inner_lines,
                    seq![line],
                    seq![context],
                );
            }
            Ok((diff, true))
        },
        None => Ok((diff, false)),
    }
}

/// Compares the entries of two directories, by name: those on both sides are
/// compared in turn, the others are shown as removed or added.
///
/// Returns what was added and removed within them.
#[verifier::rlimit(40)]
#[verifier::spinoff_prover]
fn dir_entries(
    lhs_importer: &mut Importer,
    rhs_importer: &mut Importer,
    lhs_dir: DirHeader,
    rhs_dir: DirHeader,
    tree: &mut TreeDisplay,
    names: &mut Vec<u8>,
    lines: &mut Vec<CompareLine>,
    config: Config,
) -> (res: Result<StatsDiff, ImportError>)
    requires
        old(lhs_importer).wf(),
        old(rhs_importer).wf(),
    ensures
        final(lhs_importer).data() == old(lhs_importer).data(),
        final(rhs_importer).data() == old(rhs_importer).data(),
        final(lhs_importer).wf(),
        final(rhs_importer).wf(),
        match spec_compare_dirs(
            old(lhs_importer).data(),
            old(lhs_importer).pos(),
            old(rhs_importer).data(),
            old(rhs_importer).pos(),
            lhs_dir,
            rhs_dir,
            old(names)@,
            old(tree)@,
            config,
            ((old(lhs_importer).data().len() - old(lhs_importer).pos() + 1) + (old(rhs_importer).data().len()
                - old(rhs_importer).pos() + 1)) as nat,
        ) {
            Ok((contexts, diff)) => {
                &&& res == Ok::<StatsDiff, ImportError>(diff)
                &&& final(names)@ == old(names)@
                &&& final(tree)@ == old(tree)@
                &&& final(lines)@.len() == old(lines)@.len() + contexts.len()
                &&& final(lines)@.take(old(lines)@.len() as int) == old(lines)@
                &&& are_compare_lines_of(final(lines)@.skip(old(lines)@.len() as int), contexts)
            },
            Err(e) => res == Err::<StatsDiff, ImportError>(e),
        },
    decreases (old(lhs_importer).data().len() - old(lhs_importer).pos() + 1) + (old(rhs_importer).data().len()
        - old(rhs_importer).pos() + 1), 0nat,
{
    let ghost lhs_data = lhs_importer.data();
    let ghost rhs_data = rhs_importer.data();
    let ghost lhs_pos = lhs_importer.pos();
    let ghost rhs_pos = rhs_importer.pos();
    let ghost start_lines = lines@;
    let ghost start_names = names@;
    let ghost start_tree = tree@;
    proof {
        lhs_importer.lemma_wf_len();
        rhs_importer.lemma_wf_len();
    }
    let ghost bound = ((lhs_data.len() - lhs_pos + 1) + (rhs_data.len() - rhs_pos + 1)) as nat;
    let ghost goal = spec_compare_dirs(lhs_data, lhs_pos, rhs_data, rhs_pos, lhs_dir, rhs_dir, start_names, start_tree, config, bound);

    let names_start_idx = names.len();
    let mut lhs_entries: Vec<Entry> = Vec::new();
    Entry::read_dir(lhs_importer, lhs_dir, &mut lhs_entries, names)?;
    let ghost names_mid = names@;
    let mut rhs_entries: Vec<Entry> = Vec::new();
    Entry::read_dir(rhs_importer, rhs_dir, &mut rhs_entries, names)?;
    assert(lhs_entries@.skip(0) =~= lhs_entries@);
    assert(rhs_entries@.skip(0) =~= rhs_entries@);
    assert(Seq::<Entry>::empty() + lhs_entries@ =~= lhs_entries@);
    assert(Seq::<Entry>::empty() + rhs_entries@ =~= rhs_entries@);
    proof {
        assert forall|k: int| 0 <= k < lhs_entries@.len() implies (#[trigger] lhs_entries@[k]).name_range.fits(names@.len()) by {
            assert(lhs_entries@[k].name_range.fits(names_mid.len()));
        }
    }
    let ghost lhs_read = lhs_entries@;
    let ghost rhs_read = rhs_entries@;
    sort_by_name(&mut lhs_entries, names);
    sort_by_name(&mut rhs_entries, names);
    proof {
        let lhs_perm = choose|perm: Seq<int>| #[trigger] is_stable_sort_of(lhs_entries@, lhs_read, perm, name_le(names@));
        let rhs_perm = choose|perm: Seq<int>| #[trigger] is_stable_sort_of(rhs_entries@, rhs_read, perm, name_le(names@));
        assert forall|k: int| 0 <= k < lhs_entries@.len() implies #[trigger] lhs_entries@[k].name_range.fits(names@.len())
            && lhs_pos < lhs_entries@[k].import.import_pos <= lhs_data.len() by {
            assert(lhs_entries@[k] == lhs_read[lhs_perm[k]]);
            assert(lhs_read[lhs_perm[k]].name_range.fits(names_mid.len()));
        }
        assert forall|k: int| 0 <= k < rhs_entries@.len() implies #[trigger] rhs_entries@[k].name_range.fits(names@.len())
            && rhs_pos < rhs_entries@[k].import.import_pos <= rhs_data.len() by {
            assert(rhs_entries@[k] == rhs_read[rhs_perm[k]]);
            assert(rhs_read[rhs_perm[k]].name_range.fits(names@.len()));
        }
    }
    let ghost all_names = names@;
    assert(goal == spec_merge(lhs_data, rhs_data, lhs_entries@, rhs_entries@, 0, 0, 0, zero_diff(), all_names, start_tree, config, bound));

    let mut entries_diff = StatsDiff::default();
    let mut cur_entries_idx: usize = 0;
    let mut cur_lhs_idx: usize = 0;
    let mut cur_rhs_idx: usize = 0;
    let ghost mut done: Seq<CompareContext> = Seq::empty();
    assert(lines@.skip(start_lines.len() as int) =~= Seq::<CompareLine>::empty());
    assert(after_merged(done, goal) == goal) by {
        if let Ok((r, t)) = goal {
            assert(done + r =~= r);
        }
    }
    loop
        invariant
            lhs_importer.wf(),
            rhs_importer.wf(),
            lhs_importer.data() == lhs_data,
            rhs_importer.data() == rhs_data,
            lhs_data == old(lhs_importer).data(),
            rhs_data == old(rhs_importer).data(),
            lhs_pos == old(lhs_importer).pos(),
            rhs_pos == old(rhs_importer).pos(),
            lhs_pos <= lhs_data.len(),
            rhs_pos <= rhs_data.len(),
            bound == ((lhs_data.len() - lhs_pos + 1) + (rhs_data.len() - rhs_pos + 1)) as nat,
            names@ == all_names,
            names_start_idx == start_names.len(),
            all_names.len() >= start_names.len(),
            all_names.take(names_start_idx as int) == start_names,
            start_names == old(names)@,
            tree@ == start_tree,
            start_tree == old(tree)@,
            start_lines == old(lines)@,
            lines@.len() == start_lines.len() + done.len(),
            lines@.take(start_lines.len() as int) == start_lines,
            are_compare_lines_of(lines@.skip(start_lines.len() as int), done),
            goal == spec_compare_dirs(lhs_data, lhs_pos, rhs_data, rhs_pos, lhs_dir, rhs_dir, start_names, start_tree, config, bound),
            goal == after_merged(
                done,
                spec_merge(
                    lhs_data,
                    rhs_data,
                    lhs_entries@,
                    rhs_entries@,
                    cur_lhs_idx as int,
                    cur_rhs_idx as int,
                    cur_entries_idx,
                    entries_diff,
                    all_names,
                    start_tree,
                    config,
                    bound,
                ),
            ),
            cur_lhs_idx <= lhs_entries@.len(),
            cur_rhs_idx <= rhs_entries@.len(),
            forall|k: int| 0 <= k < lhs_entries@.len() ==> #[trigger] lhs_entries@[k].name_range.fits(all_names.len())
                && lhs_pos < lhs_entries@[k].import.import_pos <= lhs_data.len(),
            forall|k: int| 0 <= k < rhs_entries@.len() ==> #[trigger] rhs_entries@[k].name_range.fits(all_names.len())
                && rhs_pos < rhs_entries@[k].import.import_pos <= rhs_data.len(),
        ensures
            lhs_importer.wf(),
            rhs_importer.wf(),
            lhs_importer.data() == lhs_data,
            rhs_importer.data() == rhs_data,
            names@ == all_names,
            tree@ == start_tree,
            lines@.len() == start_lines.len() + done.len(),
            lines@.take(start_lines.len() as int) == start_lines,
            are_compare_lines_of(lines@.skip(start_lines.len() as int), done),
            goal == Ok::<(Seq<CompareContext>, StatsDiff), ImportError>((done, entries_diff)),
        decreases lhs_entries@.len() + rhs_entries@.len() - cur_lhs_idx - cur_rhs_idx,
    {
        let ghost step = spec_merge(
            lhs_data,
            rhs_data,
            lhs_entries@,
            rhs_entries@,
            cur_lhs_idx as int,
            cur_rhs_idx as int,
            cur_entries_idx,
            entries_diff,
            all_names,
            start_tree,
            config,
            bound,
        );
        tree.enter(cur_entries_idx);
        let take_lhs;
        let take_rhs;
        if cur_lhs_idx < lhs_entries.len() && cur_rhs_idx < rhs_entries.len() {
            let lhs_name = lhs_entries[cur_lhs_idx].name_range.index(names.as_slice());
            let rhs_name = rhs_entries[cur_rhs_idx].name_range.index(names.as_slice());
            if bytes_eq(lhs_name, rhs_name) {
                take_lhs = true;
                take_rhs = true;
            } else if bytes_le_exec(lhs_name, rhs_name) {
                take_lhs = true;
                take_rhs = false;
            } else {
                take_lhs = false;
                take_rhs = true;
            }
        } else if cur_lhs_idx < lhs_entries.len() {
            take_lhs = true;
            take_rhs = false;
        } else if cur_rhs_idx < rhs_entries.len() {
            take_lhs = false;
            take_rhs = true;
        } else {
            tree.leave();
            assert(tree@ =~= start_tree);
            assert(done + Seq::<CompareContext>::empty() =~= done);
            break;
        }

        let ghost lines_before = lines@;
        let ghost entry_tree = tree@;
        let ghost mut step_lines: Seq<CompareContext> = Seq::empty();
        if take_lhs && take_rhs {
            let lhs_entry = lhs_entries[cur_lhs_idx];
            let rhs_entry = rhs_entries[cur_rhs_idx];
            assert(lhs_entries@[cur_lhs_idx as int].name_range.fits(all_names.len()));
            assert(rhs_entries@[cur_rhs_idx as int].name_range.fits(all_names.len()));
            assert(entry_measure(lhs_entry, lhs_data.len()) <= lhs_data.len() - lhs_pos);
            assert(entry_measure(rhs_entry, rhs_data.len()) <= rhs_data.len() - rhs_pos);
            let (diff, displayed) = match self::entry(
                lhs_entry,
                rhs_entry,
                lhs_importer,
                rhs_importer,
                tree,
                names,
                lines,
                config,
            ) {
                Ok(res) => res,
                Err(e) => {
                    assert(step == Err::<(Seq<CompareContext>, StatsDiff), ImportError>(e));
                    return Err(e);
                },
            };
            proof {
                step_lines = spec_compare_entry(lhs_data, rhs_data, lhs_entry, rhs_entry, all_names, entry_tree, config).unwrap().0;
            }
            if displayed {
                cur_entries_idx = cur_entries_idx.saturating_add(1);
            }
            entries_diff = match entries_diff.checked_add(diff) {
                Some(sum) => sum,
                None => {
                    assert(step == Err::<(Seq<CompareContext>, StatsDiff), ImportError>(ImportError::InvalidStats));
                    return Err(ImportError::InvalidStats);
                },
            };
            cur_lhs_idx += 1;
            cur_rhs_idx += 1;
        } else if take_lhs {
            let lhs_entry = lhs_entries[cur_lhs_idx];
            entries_diff.remove = match entries_diff.remove.checked_add(lhs_entry.stats) {
                Some(sum) => sum,
                None => {
                    assert(step == Err::<(Seq<CompareContext>, StatsDiff), ImportError>(ImportError::InvalidStats));
                    return Err(ImportError::InvalidStats);
                },
            };
            let changes = Changes::Removed { lhs_entry_name: lhs_entry.name_range, stats: lhs_entry.stats };
            assert(lhs_entries@[cur_lhs_idx as int].name_range.fits(all_names.len()));
            if let Some(line) = self::entry_changes(&changes, false, names, tree, config) {
                lines.push(line);
                proof {
                    step_lines = seq![(changes, false, all_names, entry_tree)];
                    assert(lines@.skip(lines_before.len() as int) =~= seq![line]);
                }
                cur_entries_idx = cur_entries_idx.saturating_add(1);
            } else {
                assert(lines@.skip(lines_before.len() as int) =~= Seq::<CompareLine>::empty());
            }
            cur_lhs_idx += 1;
        } else {
            let rhs_entry = rhs_entries[cur_rhs_idx];
            entries_diff.add = match entries_diff.add.checked_add(rhs_entry.stats) {
                Some(sum) => sum,
                None => {
                    assert(step == Err::<(Seq<CompareContext>, StatsDiff), ImportError>(ImportError::InvalidStats));
                    return Err(ImportError::InvalidStats);
                },
            };
            let changes = Changes::Added { rhs_entry_name: rhs_entry.name_range, stats: rhs_entry.stats };
            assert(rhs_entries@[cur_rhs_idx as int].name_range.fits(all_names.len()));
            if let Some(line) = self::entry_changes(&changes, false, names, tree, config) {
                lines.push(line);
                proof {
                    step_lines = seq![(changes, false, all_names, entry_tree)];
                    assert(lines@.skip(lines_before.len() as int) =~= seq![line]);
                }
                cur_entries_idx = cur_entries_idx.saturating_add(1);
            } else {
                assert(lines@.skip(lines_before.len() as int) =~= Seq::<CompareLine>::empty());
            }
            cur_rhs_idx += 1;
        }
        proof {
            let rest = spec_merge(
                lhs_data,
                rhs_data,
                lhs_entries@,
                rhs_entries@,
                cur_lhs_idx as int,
                cur_rhs_idx as int,
                cur_entries_idx,
                entries_diff,
                all_names,
                start_tree,
                config,
                bound,
            );
            assert(step == after_merged(step_lines, rest));
            assert(after_merged(done, after_merged(step_lines, rest)) == after_merged(done + step_lines, rest)) by {
                if let Ok((r, t)) = rest {
                    assert(done + (step_lines + r) =~= (done + step_lines) + r);
                }
            }
            assert(are_compare_lines_of(lines@.skip(lines_before.len() as int), step_lines));
            assert(lines@.skip(start_lines.len() as int) =~= lines_before.skip(start_lines.len() as int)
                + lines@.skip(lines_before.len() as int));
            lemma_are_compare_lines_of_append(
                lines_before.skip(start_lines.len() as int),
                done,
                lines@.skip(lines_before.len() as int),
                step_lines,
            );
            assert(lines@.take(start_lines.len() as int) =~= start_lines) by {
                assert(lines@.take(lines_before.len() as int) == lines_before);
            }
            done = done + step_lines;
        }
        tree.leave();
        assert(tree@ =~= start_tree);
    }

    names.truncate(names_start_idx);
    assert(names@ =~= start_names);
    Ok(entries_diff)
}

/// The entries that a comparison starts from: the left one named by the first
/// `lhs_len` bytes of the names, the right one by the rest.
pub open spec fn root_entries(
    lhs_len: nat,
    rhs_len: nat,
    lhs_stats: Stats,
    rhs_stats: Stats,
    lhs_import: DirEntry,
    rhs_import: DirEntry,
) -> (Entry, Entry) {
    (
        Entry { name_range: OsStrRange { start: 0, end: lhs_len as usize }, stats: lhs_stats, import: lhs_import },
        Entry {
            name_range: OsStrRange { start: lhs_len as usize, end: (lhs_len + rhs_len) as usize },
            stats: rhs_stats,
            import: rhs_import,
        },
    )
}

/// Compares an entry of two imports: makes the lines of the tree of changes
/// from `lhs_entry_import`, named `lhs_entry_name`, to `rhs_entry_import`,
/// named `rhs_entry_name`, with each importer just after its entry's header.
///
/// The lines go from the deepest entries up to the entries themselves, which come last.
pub fn compare(
    lhs_importer: &mut Importer,
    rhs_importer: &mut Importer,
    lhs_entry_import: DirEntry,
    rhs_entry_import: DirEntry,
    lhs_entry_name: &[u8],
    rhs_entry_name: &[u8],
    config: Config,
) -> (res: Result<Vec<CompareLine>, ImportError>)
    requires
        old(lhs_importer).wf(),
        old(rhs_importer).wf(),
        lhs_entry_name@.len() + rhs_entry_name@.len() <= usize::MAX,
    ensures
        final(lhs_importer).data() == old(lhs_importer).data(),
        final(rhs_importer).data() == old(rhs_importer).data(),
        final(lhs_importer).wf(),
        final(rhs_importer).wf(),
        match spec_read_entry_stats(old(lhs_importer).data(), old(lhs_importer).pos(), lhs_entry_import) {
            Err(e) => res == Err::<Vec<CompareLine>, ImportError>(e),
            Ok((lhs_stats, _)) => match spec_read_entry_stats(old(rhs_importer).data(), old(rhs_importer).pos(), rhs_entry_import) {
                Err(e) => res == Err::<Vec<CompareLine>, ImportError>(e),
                Ok((rhs_stats, _)) => {
                    let (lhs, rhs) = root_entries(
                        lhs_entry_name@.len(),
                        rhs_entry_name@.len(),
                        lhs_stats,
                        rhs_stats,
                        lhs_entry_import,
                        rhs_entry_import,
                    );
                    match spec_compare_entry(
                        old(lhs_importer).data(),
                        old(rhs_importer).data(),
                        lhs,
                        rhs,
                        lhs_entry_name@ + rhs_entry_name@,
                        Seq::empty(),
                        config,
                    ) {
                        Ok((contexts, _, _)) => res matches Ok(lines) && are_compare_lines_of(lines@, contexts),
                        Err(e) => res == Err::<Vec<CompareLine>, ImportError>(e),
                    }
                },
            },
        },
        res matches Ok(lines) ==> {
            &&& lines@.len() >= 1
            &&& lines@.last().prefix@ == tree_prefix(
                Seq::empty(),
                shows_children(lhs_entry_import, rhs_entry_import, config.max_depth, 0),
            )
            &&& lines@.last().change matches Change::Changed { name, .. } && shows_names(
                name,
                lhs_entry_name@,
                rhs_entry_name@,
            )
        },
{
    let mut names: Vec<u8> = Vec::new();
    names.extend_from_slice(lhs_entry_name);
    names.extend_from_slice(rhs_entry_name);
    let lhs_name_range = OsStrRange { start: 0, end: lhs_entry_name.len() };
    let rhs_name_range = OsStrRange { start: lhs_entry_name.len(), end: lhs_entry_name.len() + rhs_entry_name.len() };

    let ghost lhs_data = lhs_importer.data();
    let ghost rhs_data = rhs_importer.data();
    let lhs_stats = lhs_importer.read_entry_stats(lhs_entry_import)?;
    let lhs = Entry { name_range: lhs_name_range, stats: lhs_stats, import: lhs_entry_import };
    let rhs_stats = rhs_importer.read_entry_stats(rhs_entry_import)?;
    let rhs = Entry { name_range: rhs_name_range, stats: rhs_stats, import: rhs_entry_import };

    let mut tree = TreeDisplay::new();
    let mut lines: Vec<CompareLine> = Vec::new();
    let ghost all_names = names@;
    assert(all_names =~= lhs_entry_name@ + rhs_entry_name@);
    let (diff, displayed) = self::entry(lhs, rhs, lhs_importer, rhs_importer, &mut tree, &mut names, &mut lines, config)?;
    proof {
        assert(lines@.skip(0) =~= lines@);
        lemma_compare_shows_root(lhs_data, rhs_data, lhs, rhs, all_names, config);
        let contexts = spec_compare_entry(lhs_data, rhs_data, lhs, rhs, all_names, Seq::empty(), config).unwrap().0;
        assert(is_changes_line(lines@[lines@.len() - 1], contexts[contexts.len() - 1].0, contexts[contexts.len() - 1].1, contexts[contexts.len() - 1].2, contexts[contexts.len() - 1].3));
        assert(all_names.subrange(0, lhs_entry_name@.len() as int) =~= lhs_entry_name@);
        assert(all_names.subrange(lhs_entry_name@.len() as int, all_names.len() as int) =~= rhs_entry_name@);
    }
    Ok(lines)
}

} // verus!
