//! Arguments

use vstd::prelude::*;

verus! {

/// Sort order
#[derive(PartialEq, Eq, Structural, Clone, Copy, Debug)]
pub enum SortOrder {
    Size,
    Blocks,
    Files,
}

} // verus!
