//! Stats

use vstd::prelude::*;

verus! {

/// File stats
#[derive(PartialEq, Eq, Structural, Clone, Copy, Debug)]
pub struct Stats {
    pub files: u64,
    pub size: u64,
    pub blocks: u64,
}

/// File stats diff
#[derive(PartialEq, Eq, Structural, Clone, Copy, Debug)]
pub struct StatsDiff {
    pub add: Stats,
    pub remove: Stats,
}

/// The size of a block on disk, in bytes
pub const BLOCK_SIZE: u64 = 512;

/// The bytes on disk of `blocks` blocks, wrapping around as `u64` multiplication does
pub open spec fn disk_bytes(blocks: u64) -> u64 {
    ((BLOCK_SIZE as nat * blocks as nat) % 0x1_0000_0000_0000_0000) as u64
}

/// The bytes on disk of `blocks` blocks
pub fn disk_usage(blocks: u64) -> (bytes: u64)
    ensures
        bytes == disk_bytes(blocks),
{
    BLOCK_SIZE.wrapping_mul(blocks)
}

/// Whether `lhs + rhs` has no field that overflows
pub open spec fn stats_add_fits(lhs: Stats, rhs: Stats) -> bool {
    &&& lhs.files + rhs.files <= u64::MAX
    &&& lhs.size + rhs.size <= u64::MAX
    &&& lhs.blocks + rhs.blocks <= u64::MAX
}

/// Field-wise sum of two stats
pub open spec fn stats_sum(lhs: Stats, rhs: Stats) -> Stats {
    Stats {
        files: (lhs.files + rhs.files) as u64,
        size: (lhs.size + rhs.size) as u64,
        blocks: (lhs.blocks + rhs.blocks) as u64,
    }
}

/// Whether `lhs + rhs` has no field that overflows
pub open spec fn stats_diff_add_fits(lhs: StatsDiff, rhs: StatsDiff) -> bool {
    stats_add_fits(lhs.add, rhs.add) && stats_add_fits(lhs.remove, rhs.remove)
}

/// Field-wise sum of two stats diffs
pub open spec fn stats_diff_sum(lhs: StatsDiff, rhs: StatsDiff) -> StatsDiff {
    StatsDiff { add: stats_sum(lhs.add, rhs.add), remove: stats_sum(lhs.remove, rhs.remove) }
}

/// The zero stats
pub open spec fn zero_stats() -> Stats {
    Stats { files: 0, size: 0, blocks: 0 }
}

impl Default for Stats {
    fn default() -> (stats: Self)
        ensures
            stats == zero_stats(),
    {
        Stats { files: 0, size: 0, blocks: 0 }
    }
}

impl Default for StatsDiff {
    fn default() -> (diff: Self)
        ensures
            diff == (StatsDiff { add: zero_stats(), remove: zero_stats() }),
    {
        StatsDiff { add: Stats { files: 0, size: 0, blocks: 0 }, remove: Stats { files: 0, size: 0, blocks: 0 } }
    }
}

impl Stats {
    /// Field-wise sum.
    ///
    /// Panics on overflow in the same way as `+` on each field, so it may only
    /// be called where no field overflows.
    pub fn add(self, other: Stats) -> (sum: Stats)
        requires
            stats_add_fits(self, other),
        ensures
            sum == stats_sum(self, other),
    {
        Stats {
            files: self.files + other.files,
            size: self.size + other.size,
            blocks: self.blocks + other.blocks,
        }
    }

    /// Field-wise sum, or `None` if any field overflows
    pub fn checked_add(self, other: Stats) -> (sum: Option<Stats>)
        ensures
            sum == (if stats_add_fits(self, other) {
                Some(stats_sum(self, other))
            } else {
                None
            }),
    {
        match (
            self.files.checked_add(other.files),
            self.size.checked_add(other.size),
            self.blocks.checked_add(other.blocks),
        ) {
            (Some(files), Some(size), Some(blocks)) => Some(Stats { files, size, blocks }),
            _ => None,
        }
    }

    /// Adds `other` into `self`
    pub fn add_assign(&mut self, other: Stats)
        requires
            stats_add_fits(*old(self), other),
        ensures
            *final(self) == stats_sum(*old(self), other),
    {
        *self = self.add(other);
    }
}

impl StatsDiff {
    /// Field-wise sum
    pub fn add(self, other: StatsDiff) -> (sum: StatsDiff)
        requires
            stats_diff_add_fits(self, other),
        ensures
            sum == stats_diff_sum(self, other),
    {
        StatsDiff { add: self.add.add(other.add), remove: self.remove.add(other.remove) }
    }

    /// Field-wise sum, or `None` if any field overflows
    pub fn checked_add(self, other: StatsDiff) -> (sum: Option<StatsDiff>)
        ensures
            sum == (if stats_diff_add_fits(self, other) {
                Some(stats_diff_sum(self, other))
            } else {
                None
            }),
    {
        match (self.add.checked_add(other.add), self.remove.checked_add(other.remove)) {
            (Some(add), Some(remove)) => Some(StatsDiff { add, remove }),
            _ => None,
        }
    }

    /// Adds `other` into `self`
    pub fn add_assign(&mut self, other: StatsDiff)
        requires
            stats_diff_add_fits(*old(self), other),
        ensures
            *final(self) == stats_diff_sum(*old(self), other),
    {
        *self = self.add(other);
    }
}

} // verus!
