//! Range of bytes within a name buffer

use vstd::prelude::*;

verus! {

/// A range of bytes within a buffer of names
#[derive(PartialEq, Eq, Structural, Clone, Copy, Debug)]
pub struct OsStrRange {
    pub start: usize,
    pub end: usize,
}

impl From<core::ops::Range<usize>> for OsStrRange {
    fn from(range: core::ops::Range<usize>) -> (r: Self) {
        OsStrRange { start: range.start, end: range.end }
    }
}

impl vstd::std_specs::convert::FromSpecImpl<core::ops::Range<usize>> for OsStrRange {
    open spec fn obeys_from_spec() -> bool {
        true
    }

    open spec fn from_spec(range: core::ops::Range<usize>) -> Self {
        OsStrRange { start: range.start, end: range.end }
    }
}

impl OsStrRange {
    /// Whether this range lies within a buffer of `len` bytes
    pub open spec fn fits(self, len: nat) -> bool {
        self.start <= self.end <= len
    }

    /// The bytes of `names` in this range
    pub fn index<'a>(self, names: &'a [u8]) -> (s: &'a [u8])
        requires
            self.fits(names@.len()),
        ensures
            s@ == names@.subrange(self.start as int, self.end as int),
    {
        &names[self.start..self.end]
    }
}

} // verus!
