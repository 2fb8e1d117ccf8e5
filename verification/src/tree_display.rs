//! Tree display

use vstd::prelude::*;
use vstd::string::StringExecFns;

verus! {

/// Tree display
#[derive(Debug)]
pub struct TreeDisplay {
    idxs: Vec<usize>,
}

impl View for TreeDisplay {
    /// The index of the entry at each depth that was entered
    type V = Seq<usize>;

    closed spec fn view(&self) -> Seq<usize> {
        self.idxs@
    }
}

/// What one depth adds to the prefix: the last depth draws the branch to its
/// entry (`┌─` for the first entry, `├─` for the others); a depth before it
/// draws the line of its directory (blank after the first entry, `│ ` otherwise).
pub open spec fn prefix_piece(idx: usize, is_last: bool) -> Seq<char> {
    if is_last {
        if idx == 0 {
            "┌─"@
        } else {
            "├─"@
        }
    } else {
        if idx == 0 {
            "  "@
        } else {
            "│ "@
        }
    }
}

/// The pieces of the first `k` depths of `idxs`
pub open spec fn prefix_pieces(idxs: Seq<usize>, k: nat) -> Seq<char>
    decreases k,
{
    if k == 0 {
        Seq::empty()
    } else {
        prefix_pieces(idxs, (k - 1) as nat) + prefix_piece(idxs[k - 1], k == idxs.len())
    }
}

/// The prefix of a line of the tree for an entry at the depths `idxs`: the
/// pieces of each depth, and then, below the root, the end of the branch
/// (`┴╴` if the entry's children follow, `─╴` otherwise).
pub open spec fn tree_prefix(idxs: Seq<usize>, has_children: bool) -> Seq<char> {
    prefix_pieces(idxs, idxs.len()) + if idxs.len() == 0 {
        Seq::empty()
    } else if has_children {
        "┴╴"@
    } else {
        "─╴"@
    }
}

/// The depths once the current one is left: all but the last, if any
pub open spec fn left(idxs: Seq<usize>) -> Seq<usize> {
    if idxs.len() == 0 {
        idxs
    } else {
        idxs.drop_last()
    }
}

/// Leaving a depth undoes entering it.
pub proof fn lemma_leave_undoes_enter(idxs: Seq<usize>, idx: usize)
    ensures
        left(idxs.push(idx)) == idxs,
{
    assert(idxs.push(idx).drop_last() =~= idxs);
}

impl TreeDisplay {
    /// Creates a new, empty, tree display with no indentation
    pub fn new() -> (tree: Self)
        ensures
            tree@ == Seq::<usize>::empty(),
    {
        TreeDisplay { idxs: Vec::new() }
    }

    /// Returns the current depth of this tree display
    pub fn depth(&self) -> (depth: usize)
        ensures
            depth == self@.len(),
    {
        self.idxs.len()
    }

    /// Enters a new depth with an index.
    pub fn enter(&mut self, idx: usize)
        ensures
            final(self)@ == old(self)@.push(idx),
    {
        self.idxs.push(idx);
    }

    /// Leaves the current depth
    pub fn leave(&mut self)
        ensures
            final(self)@ == left(old(self)@),
    {
        self.idxs.pop();
    }

    /// Writes this tree's prefix to `output`
    pub fn write_prefix(&self, output: &mut String, has_children: bool)
        ensures
            final(output)@ == old(output)@ + tree_prefix(self@, has_children),
    {
        let len = self.idxs.len();
        let mut i: usize = 0;
        while i < len
            invariant
                len == self@.len(),
                i <= len,
                output@ == old(output)@ + prefix_pieces(self@, i as nat),
            decreases len - i,
        {
            let idx = self.idxs[i];
            let is_last = i + 1 == len;
            if is_last {
                if idx == 0 {
                    output.append("┌─");
                } else {
                    output.append("├─");
                }
            } else {
                if idx == 0 {
                    output.append("  ");
                } else {
                    output.append("│ ");
                }
            }
            i += 1;
            assert(output@ =~= old(output)@ + prefix_pieces(self@, i as nat));
        }
        if len > 0 {
            if has_children {
                output.append("┴╴");
            } else {
                output.append("─╴");
            }
        }
        assert(output@ =~= old(output)@ + tree_prefix(self@, has_children));
    }
}

} // verus!
