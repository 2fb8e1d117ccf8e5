//! Entry sorting

use {
    super::entry::Entry,
    crate::{args, util::sort::{is_stable_sort_of, lemma_is_stable_sorted, stable_sort, stable_sorted, total_preorder}},
    core::cmp::Ordering,
    vstd::prelude::*,
};

verus! {

/// Sort order
#[derive(PartialEq, Eq, Structural, Clone, Copy, Debug)]
pub struct SortOrder {
    pub kind: SortOrderKind,
    /// Whether to sort directories before files.
    ///
    /// If `false`, they are sorted in-between.
    pub dirs_before: bool,
    pub reverse: bool,
}

/// Sort order kind
#[derive(PartialEq, Eq, Structural, Clone, Copy, Debug)]
pub enum SortOrderKind {
    Size,
    Blocks,
    Files,
}

/// Compares two integers
pub open spec fn u64_ordering(lhs: u64, rhs: u64) -> Ordering {
    if lhs < rhs {
        Ordering::Less
    } else if lhs == rhs {
        Ordering::Equal
    } else {
        Ordering::Greater
    }
}

/// The opposite ordering
pub open spec fn reversed_ordering(ordering: Ordering) -> Ordering {
    match ordering {
        Ordering::Less => Ordering::Greater,
        Ordering::Equal => Ordering::Equal,
        Ordering::Greater => Ordering::Less,
    }
}

fn cmp_u64(lhs: u64, rhs: u64) -> (ordering: Ordering)
    ensures
        ordering == u64_ordering(lhs, rhs),
{
    if lhs < rhs {
        Ordering::Less
    } else if lhs == rhs {
        Ordering::Equal
    } else {
        Ordering::Greater
    }
}

fn reverse(ordering: Ordering) -> (reversed: Ordering)
    ensures
        reversed == reversed_ordering(ordering),
{
    match ordering {
        Ordering::Less => Ordering::Greater,
        Ordering::Equal => Ordering::Equal,
        Ordering::Greater => Ordering::Less,
    }
}

impl SortOrder {
    /// The statistic that this order sorts by
    pub open spec fn spec_value(self, entry: Entry) -> u64 {
        match self.kind {
            SortOrderKind::Size => entry.spec_stats().size,
            SortOrderKind::Blocks => entry.spec_stats().blocks,
            SortOrderKind::Files => entry.spec_stats().files,
        }
    }

    /// Compares two entries according to this sort order, except for reversing:
    /// directories and groups go after files if `dirs_before`; otherwise, and
    /// among themselves, entries go by the statistic of the order.
    pub open spec fn entry_ordering_no_reverse(self, lhs: Entry, rhs: Entry) -> Ordering {
        if self.dirs_before && lhs.spec_is_group_or_dir() && !rhs.spec_is_group_or_dir() {
            Ordering::Greater
        } else if self.dirs_before && !lhs.spec_is_group_or_dir() && rhs.spec_is_group_or_dir() {
            Ordering::Less
        } else {
            u64_ordering(self.spec_value(lhs), self.spec_value(rhs))
        }
    }

    /// Compares two entries according to this sort order
    pub open spec fn entry_ordering(self, lhs: Entry, rhs: Entry) -> Ordering {
        if self.reverse {
            reversed_ordering(self.entry_ordering_no_reverse(lhs, rhs))
        } else {
            self.entry_ordering_no_reverse(lhs, rhs)
        }
    }

    /// Whether `lhs` may go before `rhs` once sorted by this order reversed
    pub open spec fn spec_le_reversed(self, lhs: Entry, rhs: Entry) -> bool {
        self.entry_ordering(lhs, rhs) != Ordering::Less
    }

    /// The rank of an entry in this order: entries compare as their ranks do
    pub open spec fn rank(self, entry: Entry) -> int {
        let group: int = if self.dirs_before && entry.spec_is_group_or_dir() {
            0x1_0000_0000_0000_0000
        } else {
            0
        };
        let key = group + self.spec_value(entry);
        if self.reverse {
            -key
        } else {
            key
        }
    }

    /// Entries compare as their ranks do.
    pub proof fn lemma_ordering_is_rank(self, lhs: Entry, rhs: Entry)
        ensures
            self.entry_ordering(lhs, rhs) == (if self.rank(lhs) < self.rank(rhs) {
                Ordering::Less
            } else if self.rank(lhs) == self.rank(rhs) {
                Ordering::Equal
            } else {
                Ordering::Greater
            }),
            self.spec_le_reversed(lhs, rhs) == (self.rank(lhs) >= self.rank(rhs)),
    {
    }

    /// Whether an entry may go before another once sorted by this order reversed: its rank is not lower.
    pub proof fn lemma_le_reversed_rank(self, lhs: Entry, rhs: Entry)
        ensures
            self.spec_le_reversed(lhs, rhs) == (self.rank(lhs) >= self.rank(rhs)),
    {
        self.lemma_ordering_is_rank(lhs, rhs);
    }

    /// The statistic that this order sorts by
    fn value(&self, entry: &Entry) -> (value: u64)
        ensures
            value == self.spec_value(*entry),
    {
        let stats = entry.stats();
        match self.kind {
            SortOrderKind::Size => stats.size,
            SortOrderKind::Blocks => stats.blocks,
            SortOrderKind::Files => stats.files,
        }
    }

    /// Returns if `lhs` ranks above `rhs` in this order
    pub fn ranks_above(&self, lhs: &Entry, rhs: &Entry) -> (above: bool)
        ensures
            above == (self.rank(*lhs) > self.rank(*rhs)),
    {
        let lhs_group = self.dirs_before && lhs.is_group_or_dir();
        let rhs_group = self.dirs_before && rhs.is_group_or_dir();
        let lhs_value = self.value(lhs);
        let rhs_value = self.value(rhs);
        let key_above = (lhs_group && !rhs_group) || (lhs_group == rhs_group && lhs_value > rhs_value);
        let key_below = (!lhs_group && rhs_group) || (lhs_group == rhs_group && lhs_value < rhs_value);
        if self.reverse {
            key_below
        } else {
            key_above
        }
    }

    /// The order of entries once sorted by this order reversed
    pub open spec fn le_reversed(self) -> spec_fn(Entry, Entry) -> bool {
        |lhs: Entry, rhs: Entry| self.spec_le_reversed(lhs, rhs)
    }

    /// Creates a sort order from the command line's flags
    pub fn new(sort: args::SortOrder, sort_directories: bool, sort_reverse: bool) -> (order: Self)
        ensures
            order.kind == match sort {
                args::SortOrder::Size => SortOrderKind::Size,
                args::SortOrder::Blocks => SortOrderKind::Blocks,
                args::SortOrder::Files => SortOrderKind::Files,
            },
            order.dirs_before == sort_directories,
            order.reverse == sort_reverse,
    {
        SortOrder {
            kind: match sort {
                args::SortOrder::Size => SortOrderKind::Size,
                args::SortOrder::Blocks => SortOrderKind::Blocks,
                args::SortOrder::Files => SortOrderKind::Files,
            },
            dirs_before: sort_directories,
            reverse: sort_reverse,
        }
    }

    /// Compares two entries according to this sort order, except for reversing
    fn cmp_entry_no_reverse(&self, lhs: &Entry, rhs: &Entry) -> (ordering: Ordering)
        ensures
            ordering == self.entry_ordering_no_reverse(*lhs, *rhs),
    {
        if self.dirs_before {
            match (lhs.is_group_or_dir(), rhs.is_group_or_dir()) {
                (true, false) => return Ordering::Greater,
                (false, true) => return Ordering::Less,
                _ => {},
            }
        }

        let lhs_stats = lhs.stats();
        let rhs_stats = rhs.stats();
        match self.kind {
            SortOrderKind::Size => cmp_u64(lhs_stats.size, rhs_stats.size),
            SortOrderKind::Blocks => cmp_u64(lhs_stats.blocks, rhs_stats.blocks),
            SortOrderKind::Files => cmp_u64(lhs_stats.files, rhs_stats.files),
        }
    }

    /// Compares two entries according to this sort order
    pub fn cmp_entry(&self, lhs: &Entry, rhs: &Entry) -> (ordering: Ordering)
        ensures
            ordering == self.entry_ordering(*lhs, *rhs),
    {
        let cmp = self.cmp_entry_no_reverse(lhs, rhs);
        match self.reverse {
            true => reverse(cmp),
            false => cmp,
        }
    }

    /// What an order compares, whatever the statistics: if `dirs_before`, a
    /// directory or group ranks above a file and a file below one; otherwise,
    /// or between two of a kind, the entry with the larger statistic of the
    /// order ranks above: its size for `Size`, its blocks on disk for `Blocks`,
    /// its files for `Files`, with equal statistics comparing equal. Reversing
    /// the order compares the two entries the other way round.
    pub proof fn lemma_order_compares_its_statistic(self, lhs: Entry, rhs: Entry)
        ensures
            self.dirs_before && lhs.spec_is_group_or_dir() && !rhs.spec_is_group_or_dir()
                ==> self.entry_ordering_no_reverse(lhs, rhs) == Ordering::Greater,
            self.dirs_before && !lhs.spec_is_group_or_dir() && rhs.spec_is_group_or_dir()
                ==> self.entry_ordering_no_reverse(lhs, rhs) == Ordering::Less,
            (!self.dirs_before || lhs.spec_is_group_or_dir() == rhs.spec_is_group_or_dir()) ==> {
                &&& self.kind == SortOrderKind::Size ==> {
                    &&& (self.entry_ordering_no_reverse(lhs, rhs) == Ordering::Greater) == (lhs.spec_stats().size
                        > rhs.spec_stats().size)
                    &&& (self.entry_ordering_no_reverse(lhs, rhs) == Ordering::Less) == (lhs.spec_stats().size
                        < rhs.spec_stats().size)
                }
                &&& self.kind == SortOrderKind::Blocks ==> {
                    &&& (self.entry_ordering_no_reverse(lhs, rhs) == Ordering::Greater) == (lhs.spec_stats().blocks
                        > rhs.spec_stats().blocks)
                    &&& (self.entry_ordering_no_reverse(lhs, rhs) == Ordering::Less) == (lhs.spec_stats().blocks
                        < rhs.spec_stats().blocks)
                }
                &&& self.kind == SortOrderKind::Files ==> {
                    &&& (self.entry_ordering_no_reverse(lhs, rhs) == Ordering::Greater) == (lhs.spec_stats().files
                        > rhs.spec_stats().files)
                    &&& (self.entry_ordering_no_reverse(lhs, rhs) == Ordering::Less) == (lhs.spec_stats().files
                        < rhs.spec_stats().files)
                }
            },
            !self.reverse ==> self.entry_ordering(lhs, rhs) == self.entry_ordering_no_reverse(lhs, rhs),
            self.reverse ==> self.entry_ordering(lhs, rhs) == self.entry_ordering_no_reverse(rhs, lhs),
    {
    }

    /// Sorting by this order reversed orders every two entries, transitively.
    pub proof fn lemma_le_reversed_total_preorder(self)
        ensures
            total_preorder(self.le_reversed()),
    {
        let le = self.le_reversed();
        assert forall|a: Entry, b: Entry| #[trigger] le(a, b) || le(b, a) by {
            self.lemma_ordering_is_rank(a, b);
            self.lemma_ordering_is_rank(b, a);
        }
        assert forall|a: Entry, b: Entry, c: Entry| #[trigger] le(a, b) && #[trigger] le(b, c) implies le(a, c) by {
            self.lemma_ordering_is_rank(a, b);
            self.lemma_ordering_is_rank(b, c);
            self.lemma_ordering_is_rank(a, c);
        }
    }

    /// Sorts entries according to this sort order reversed: stably, so that
    /// entries that compare equal keep their order.
    pub fn sort_entries_reversed(self, entries: &mut [Entry])
        ensures
            exists|perm: Seq<int>|
                #[trigger] is_stable_sort_of(final(entries)@, old(entries)@, perm, self.le_reversed()),
            final(entries)@ == stable_sorted(old(entries)@, self.le_reversed()),
    {
        let le = |lhs: &Entry, rhs: &Entry| -> (b: bool)
            ensures
                b == self.spec_le_reversed(*lhs, *rhs),
            {
                match self.cmp_entry(lhs, rhs) {
                    Ordering::Less => false,
                    _ => true,
                }
            };
        proof {
            self.lemma_le_reversed_total_preorder();
        }
        let (sorted, Ghost(perm)) = stable_sort(
            entries,
            &le,
            Ghost(self.le_reversed()),
        );
        let n = entries.len();
        let mut k: usize = 0;
        while k < n
            invariant
                n == entries@.len(),
                sorted@.len() == n,
                k <= n,
                forall|i: int| 0 <= i < k ==> entries@[i] == sorted@[i],
            decreases n - k,
        {
            entries[k] = sorted[k];
            k += 1;
        }
        assert(entries@ =~= sorted@);
        proof {
            lemma_is_stable_sorted(entries@, old(entries)@, perm, self.le_reversed());
        }
    }
}

} // verus!
