//! What grouping the files that a walk found gives, whatever reading them gives

use {
    super::{groups_with, GroupsView, Output, SizeView},
    crate::util::md5_digest,
    vstd::prelude::*,
};

verus! {

/// What the `Output` of a grouping holds, as values, with the sizes that
/// have a file left unread
pub struct RunView {
    pub files_total: nat,
    pub files_read: nat,
    pub size_total: nat,
    pub size_read: nat,
    /// The files of each size
    pub sizes: spec_fn(u64) -> SizeView,
    /// The sizes that have a file left unread
    pub pending: Seq<u64>,
}

/// The grouping before any file: nothing counted, no file of any size
pub open spec fn run_start() -> RunView {
    RunView {
        files_total: 0,
        files_read: 0,
        size_total: 0,
        size_read: 0,
        sizes: |s: u64| (None::<Seq<u8>>, Seq::<(Seq<u8>, Seq<Seq<u8>>)>::empty()),
        pending: Seq::empty(),
    }
}

/// `sizes` with the files of `size` replaced by `view`
pub open spec fn sizes_with(sizes: spec_fn(u64) -> SizeView, size: u64, view: SizeView) -> spec_fn(u64) -> SizeView {
    |s: u64| if s == size { view } else { sizes(s) }
}

/// The grouping once it met a found entry (its path, and its size for a file):
/// a symlink is left alone; an empty file joins the files with the digest of
/// no data; another file is counted, the file of its size that was left
/// unread, if any, is read (`digests.0` is what reading it gave), and then
/// the file is left unread if no file of its size was read yet, or else read
/// (`digests.1` is what reading it gave). A file joins the files with its
/// digest when reading it gave one; the unread file counts as read either way.
/// This is what the `Output` methods do when called in that order
/// (`lemma_empty_file_step`, `lemma_file_step`).
pub open spec fn run_step(m: RunView, found: (Seq<u8>, Option<u64>), digests: (Option<Seq<u8>>, Option<Seq<u8>>)) -> RunView {
    match found.1 {
        None => m,
        Some(size) => if size == 0 {
            RunView {
                files_total: m.files_total + 1,
                sizes: sizes_with(m.sizes, 0, ((m.sizes)(0).0, groups_with((m.sizes)(0).1, md5_digest(Seq::empty()), found.0))),
                ..m
            }
        } else {
            let (unread, groups) = (m.sizes)(size);
            let (read, bytes, groups, pending) = match unread {
                Some(up) => (
                    m.files_read + 1,
                    m.size_read + size as nat,
                    match digests.0 {
                        Some(d) => groups_with(groups, d, up),
                        None => groups,
                    },
                    m.pending.remove(m.pending.index_of(size)),
                ),
                None => (m.files_read, m.size_read, groups, m.pending),
            };
            if groups.len() == 0 {
                RunView {
                    files_total: m.files_total + 1,
                    files_read: read,
                    size_total: m.size_total + size as nat,
                    size_read: bytes,
                    sizes: sizes_with(m.sizes, size, (Some(found.0), groups)),
                    pending: pending.push(size),
                }
            } else {
                match digests.1 {
                    Some(d) => RunView {
                        files_total: m.files_total + 1,
                        files_read: read + 1,
                        size_total: m.size_total + size as nat,
                        size_read: bytes + size as nat,
                        sizes: sizes_with(m.sizes, size, (None, groups_with(groups, d, found.0))),
                        pending,
                    },
                    None => RunView {
                        files_total: m.files_total + 1,
                        files_read: read,
                        size_total: m.size_total + size as nat,
                        size_read: bytes,
                        sizes: sizes_with(m.sizes, size, (None, groups)),
                        pending,
                    },
                }
            }
        },
    }
}

/// The grouping of the first `n` found entries, with what reading gave for each
pub open spec fn run(found: Seq<(Seq<u8>, Option<u64>)>, digests: Seq<(Option<Seq<u8>>, Option<Seq<u8>>)>, n: nat) -> RunView
    decreases n,
{
    if n == 0 {
        run_start()
    } else {
        run_step(run(found, digests, (n - 1) as nat), found[n - 1], digests[n - 1])
    }
}

/// The number of files among found entries
pub open spec fn files_count(found: Seq<(Seq<u8>, Option<u64>)>) -> nat
    decreases found.len(),
{
    if found.len() == 0 {
        0
    } else {
        files_count(found.drop_last()) + if found.last().1 is Some { 1nat } else { 0nat }
    }
}

/// The total size of the files among found entries
pub open spec fn files_size(found: Seq<(Seq<u8>, Option<u64>)>) -> nat
    decreases found.len(),
{
    if found.len() == 0 {
        0
    } else {
        files_size(found.drop_last()) + match found.last().1 {
            Some(size) => size as nat,
            None => 0nat,
        }
    }
}

/// The sum of sizes
pub open spec fn sizes_sum(sizes: Seq<u64>) -> nat
    decreases sizes.len(),
{
    if sizes.len() == 0 {
        0
    } else {
        sizes[0] as nat + sizes_sum(sizes.drop_first())
    }
}

/// The paths of the files in groups
pub open spec fn groups_paths(groups: GroupsView) -> Seq<Seq<u8>>
    decreases groups.len(),
{
    if groups.len() == 0 {
        Seq::empty()
    } else {
        groups[0].1 + groups_paths(groups.drop_first())
    }
}

/// The paths of the files of one size: the unread one and those in groups
pub open spec fn size_paths(view: SizeView) -> Seq<Seq<u8>> {
    match view.0 {
        Some(p) => seq![p] + groups_paths(view.1),
        None => groups_paths(view.1),
    }
}

/// What the grouping keeps of the found entries it met, `found`
pub open spec fn run_inv(m: RunView, found: Seq<(Seq<u8>, Option<u64>)>) -> bool {
    &&& m.files_total == files_count(found)
    &&& m.size_total == files_size(found)
    &&& m.pending.no_duplicates()
    &&& forall|s: u64| #[trigger] (m.sizes)(s).0 is Some <==> m.pending.contains(s)
    &&& forall|s: u64| #[trigger] (m.sizes)(s).0 is Some ==> (m.sizes)(s).1.len() == 0
    &&& forall|s: u64| m.pending.contains(s) ==> s > 0
    &&& m.files_read + m.pending.len() <= m.files_total
    &&& m.size_read + sizes_sum(m.pending) <= m.size_total
    &&& forall|s: u64, p: Seq<u8>| #[trigger] size_paths((m.sizes)(s)).contains(p) ==> found.contains((p, Some(s)))
    &&& forall|s: u64| #[trigger] size_paths((m.sizes)(s)).no_duplicates()
}

/// Adding a file to the groups adds its path to their paths.
proof fn lemma_groups_with_paths(groups: GroupsView, digest: Seq<u8>, path: Seq<u8>)
    ensures
        forall|x: Seq<u8>| #[trigger] groups_paths(groups_with(groups, digest, path)).contains(x)
            <==> (groups_paths(groups).contains(x) || x == path),
        groups_paths(groups).no_duplicates() && !groups_paths(groups).contains(path) ==> groups_paths(
            groups_with(groups, digest, path),
        ).no_duplicates(),
        groups_with(groups, digest, path).len() > 0,
    decreases groups.len(),
{
    let new = groups_with(groups, digest, path);
    if groups.len() == 0 {
        assert(groups_paths(new) =~= seq![path]) by {
            assert(new.drop_first() =~= Seq::<(Seq<u8>, Seq<Seq<u8>>)>::empty());
            assert(groups_paths(new.drop_first()) =~= Seq::<Seq<u8>>::empty());
            assert(new[0].1 =~= seq![path]);
        }
        assert(groups_paths(groups) =~= Seq::<Seq<u8>>::empty());
        assert forall|x: Seq<u8>| #[trigger] groups_paths(new).contains(x) <==> (groups_paths(groups).contains(x)
            || x == path) by {
            if x == path {
                assert(groups_paths(new)[0] == x);
            }
        }
    } else if groups[0].0 == digest {
        assert(new.drop_first() =~= groups.drop_first());
        let rest = groups_paths(groups.drop_first());
        assert(groups_paths(new) =~= groups[0].1.push(path) + rest);
        assert(groups_paths(groups) =~= groups[0].1 + rest);
        assert forall|x: Seq<u8>| #[trigger] groups_paths(new).contains(x) <==> (groups_paths(groups).contains(x)
            || x == path) by {
            if groups_paths(new).contains(x) {
                let i = choose|i: int| 0 <= i < groups_paths(new).len() && groups_paths(new)[i] == x;
                if i < groups[0].1.len() {
                    assert(groups_paths(groups)[i] == x);
                } else if i > groups[0].1.len() {
                    assert(groups_paths(groups)[i - 1] == x);
                }
            }
            if groups_paths(groups).contains(x) {
                let i = choose|i: int| 0 <= i < groups_paths(groups).len() && groups_paths(groups)[i] == x;
                if i < groups[0].1.len() {
                    assert(groups_paths(new)[i] == x);
                } else {
                    assert(groups_paths(new)[i + 1] == x);
                }
            }
            if x == path {
                assert(groups_paths(new)[groups[0].1.len() as int] == x);
            }
        }
        if groups_paths(groups).no_duplicates() && !groups_paths(groups).contains(path) {
            let np = groups_paths(new);
            let op = groups_paths(groups);
            let n0 = groups[0].1.len() as int;
            assert forall|i: int, j: int| 0 <= i < np.len() && 0 <= j < np.len() && i != j implies np[i] != np[j] by {
                let oi = if i < n0 { i } else if i > n0 { i - 1 } else { -1 };
                let oj = if j < n0 { j } else if j > n0 { j - 1 } else { -1 };
                if oi >= 0 {
                    assert(np[i] == op[oi]);
                }
                if oj >= 0 {
                    assert(np[j] == op[oj]);
                }
            }
        }
    } else {
        lemma_groups_with_paths(groups.drop_first(), digest, path);
        assert(new.drop_first() =~= groups_with(groups.drop_first(), digest, path));
        assert(new[0] == groups[0]);
        let head = groups[0].1;
        let old_rest = groups_paths(groups.drop_first());
        let new_rest = groups_paths(groups_with(groups.drop_first(), digest, path));
        assert(groups_paths(new) =~= head + new_rest);
        assert(groups_paths(groups) =~= head + old_rest);
        assert forall|x: Seq<u8>| #[trigger] groups_paths(new).contains(x) <==> (groups_paths(groups).contains(x)
            || x == path) by {
            lemma_concat_contains(head, new_rest, x);
            lemma_concat_contains(head, old_rest, x);
        }
        if groups_paths(groups).no_duplicates() && !groups_paths(groups).contains(path) {
            assert(old_rest.no_duplicates()) by {
                assert forall|i: int, j: int| 0 <= i < old_rest.len() && 0 <= j < old_rest.len() && i != j implies
                    old_rest[i] != old_rest[j] by {
                    assert(groups_paths(groups)[head.len() + i] == old_rest[i]);
                    assert(groups_paths(groups)[head.len() + j] == old_rest[j]);
                }
            }
            assert(!old_rest.contains(path)) by {
                lemma_concat_contains(head, old_rest, path);
            }
            let np = groups_paths(new);
            assert forall|i: int, j: int| 0 <= i < np.len() && 0 <= j < np.len() && i != j implies np[i] != np[j] by {
                if i < head.len() && j < head.len() {
                    assert(groups_paths(groups)[i] == np[i] && groups_paths(groups)[j] == np[j]);
                } else if i >= head.len() && j >= head.len() {
                    assert(np[i] == new_rest[i - head.len()] && np[j] == new_rest[j - head.len()]);
                } else {
                    let (h, r) = if i < head.len() { (i, j) } else { (j, i) };
                    assert(np[h] == head[h]);
                    assert(np[r] == new_rest[r - head.len()]);
                    assert(new_rest.contains(np[r]));
                    assert(groups_paths(groups)[h] == head[h]);
                    if np[h] == np[r] {
                        if np[r] == path {
                            assert(groups_paths(groups)[h] == path);
                            assert(groups_paths(groups).contains(path));
                        } else {
                            assert(old_rest.contains(np[r]));
                            let k = choose|k: int| 0 <= k < old_rest.len() && old_rest[k] == np[r];
                            assert(groups_paths(groups)[head.len() + k] == groups_paths(groups)[h]);
                        }
                    }
                }
            }
        }
    }
}

/// What two sequences put one after the other contain.
proof fn lemma_concat_contains(a: Seq<Seq<u8>>, b: Seq<Seq<u8>>, x: Seq<u8>)
    ensures
        (a + b).contains(x) <==> (a.contains(x) || b.contains(x)),
{
    if (a + b).contains(x) {
        let i = choose|i: int| 0 <= i < (a + b).len() && (a + b)[i] == x;
        if i < a.len() {
            assert(a[i] == x);
        } else {
            assert(b[i - a.len()] == x);
        }
    }
    if a.contains(x) {
        let i = choose|i: int| 0 <= i < a.len() && a[i] == x;
        assert((a + b)[i] == x);
    }
    if b.contains(x) {
        let i = choose|i: int| 0 <= i < b.len() && b[i] == x;
        assert((a + b)[a.len() + i] == x);
    }
}

/// Taking an element out of sizes takes it out of their sum.
proof fn lemma_sizes_sum_remove(sizes: Seq<u64>, i: int)
    requires
        0 <= i < sizes.len(),
    ensures
        sizes_sum(sizes) == sizes_sum(sizes.remove(i)) + sizes[i],
    decreases sizes.len(),
{
    if i > 0 {
        lemma_sizes_sum_remove(sizes.drop_first(), i - 1);
        assert(sizes.remove(i).drop_first() =~= sizes.drop_first().remove(i - 1));
    } else {
        assert(sizes.remove(0) =~= sizes.drop_first());
    }
}

/// Adding a size at the end adds it to the sum.
proof fn lemma_sizes_sum_push(sizes: Seq<u64>, size: u64)
    ensures
        sizes_sum(sizes.push(size)) == sizes_sum(sizes) + size,
    decreases sizes.len(),
{
    if sizes.len() > 0 {
        lemma_sizes_sum_push(sizes.drop_first(), size);
        assert(sizes.push(size).drop_first() =~= sizes.drop_first().push(size));
        assert(sizes.push(size)[0] == sizes[0]);
    } else {
        assert(sizes.push(size).drop_first() =~= Seq::<u64>::empty());
        assert(sizes_sum(Seq::<u64>::empty()) == 0);
        assert(sizes.push(size)[0] == size);
    }
}


/// Taking out an element of sizes with no duplicates leaves the others, with no duplicates.
proof fn lemma_pending_remove(pending: Seq<u64>, i: int)
    requires
        pending.no_duplicates(),
        0 <= i < pending.len(),
    ensures
        pending.remove(i).no_duplicates(),
        pending.remove(i).len() == pending.len() - 1,
        forall|s: u64| #[trigger] pending.remove(i).contains(s) <==> (pending.contains(s) && s != pending[i]),
{
    let r = pending.remove(i);
    assert forall|s: u64| #[trigger] r.contains(s) <==> (pending.contains(s) && s != pending[i]) by {
        if r.contains(s) {
            let k = choose|k: int| 0 <= k < r.len() && r[k] == s;
            if k < i {
                assert(pending[k] == s);
            } else {
                assert(pending[k + 1] == s);
            }
        }
        if pending.contains(s) && s != pending[i] {
            let k = choose|k: int| 0 <= k < pending.len() && pending[k] == s;
            if k < i {
                assert(r[k] == s);
            } else {
                assert(r[k - 1] == s);
            }
        }
    }
    assert forall|a: int, b: int| 0 <= a < r.len() && 0 <= b < r.len() && a != b implies r[a] != r[b] by {
        let pa = if a < i { a } else { a + 1 };
        let pb = if b < i { b } else { b + 1 };
        assert(r[a] == pending[pa] && r[b] == pending[pb]);
    }
}

/// Adding a size that is not there keeps sizes with no duplicates.
proof fn lemma_pending_push(pending: Seq<u64>, size: u64)
    requires
        pending.no_duplicates(),
        !pending.contains(size),
    ensures
        pending.push(size).no_duplicates(),
        forall|s: u64| #[trigger] pending.push(size).contains(s) <==> (pending.contains(s) || s == size),
{
    let r = pending.push(size);
    assert forall|s: u64| #[trigger] r.contains(s) <==> (pending.contains(s) || s == size) by {
        if r.contains(s) {
            let k = choose|k: int| 0 <= k < r.len() && r[k] == s;
            if k < pending.len() {
                assert(pending[k] == s);
            }
        }
        if pending.contains(s) {
            let k = choose|k: int| 0 <= k < pending.len() && pending[k] == s;
            assert(r[k] == s);
        }
        if s == size {
            assert(r[pending.len() as int] == s);
        }
    }
    assert forall|a: int, b: int| 0 <= a < r.len() && 0 <= b < r.len() && a != b implies r[a] != r[b] by {
        if a < pending.len() && b < pending.len() {
            assert(r[a] == pending[a] && r[b] == pending[b]);
        } else if a < pending.len() {
            assert(pending.contains(r[a]));
        } else if b < pending.len() {
            assert(pending.contains(r[b]));
        }
    }
}

/// What the found entries contain once one more was met.
proof fn lemma_found_push(found: Seq<(Seq<u8>, Option<u64>)>, f: (Seq<u8>, Option<u64>))
    ensures
        found.push(f).drop_last() == found,
        found.push(f).last() == f,
        forall|x: (Seq<u8>, Option<u64>)| found.contains(x) ==> #[trigger] found.push(f).contains(x),
        found.push(f).contains(f),
{
    assert(found.push(f).drop_last() =~= found);
    assert forall|x: (Seq<u8>, Option<u64>)| found.contains(x) implies #[trigger] found.push(f).contains(x) by {
        let k = choose|k: int| 0 <= k < found.len() && found[k] == x;
        assert(found.push(f)[k] == x);
    }
    assert(found.push(f)[found.len() as int] == f);
}

/// Meeting one more found entry, whose path no entry met before has, keeps
/// what the grouping keeps.
proof fn lemma_run_step(
    m: RunView,
    found: Seq<(Seq<u8>, Option<u64>)>,
    f: (Seq<u8>, Option<u64>),
    digests: (Option<Seq<u8>>, Option<Seq<u8>>),
)
    requires
        run_inv(m, found),
        forall|k: int| 0 <= k < found.len() ==> #[trigger] found[k].0 != f.0,
    ensures
        run_inv(run_step(m, f, digests), found.push(f)),
{
    let n = run_step(m, f, digests);
    let nf = found.push(f);
    lemma_found_push(found, f);
    let path = f.0;
    assert forall|s: u64| !#[trigger] size_paths((m.sizes)(s)).contains(path) by {
        if size_paths((m.sizes)(s)).contains(path) {
            assert(found.contains((path, Some(s))));
            let k = choose|k: int| 0 <= k < found.len() && found[k] == (path, Some(s));
            assert(found[k].0 == path);
        }
    }
    match f.1 {
        None => {
            assert forall|s: u64, p: Seq<u8>| #[trigger] size_paths((n.sizes)(s)).contains(p) implies nf.contains(
                (p, Some(s)),
            ) by {
                assert(found.contains((p, Some(s))));
            }
        },
        Some(size) => {
            if size == 0 {
                assert(!m.pending.contains(0u64));
                let (u0, g0) = (m.sizes)(0);
                assert(u0 is None);
                lemma_groups_with_paths(g0, md5_digest(Seq::empty()), path);
                assert(size_paths((m.sizes)(0)) == groups_paths(g0));
                assert forall|s: u64, p: Seq<u8>| #[trigger] size_paths((n.sizes)(s)).contains(p) implies nf.contains(
                    (p, Some(s)),
                ) by {
                    if s != 0 || p != path {
                        assert(found.contains((p, Some(s))));
                    }
                }
                assert forall|s: u64| #[trigger] size_paths((n.sizes)(s)).no_duplicates() by {
                    if s == 0 {
                        assert(size_paths((n.sizes)(0)) == groups_paths(groups_with(g0, md5_digest(Seq::empty()), path)));
                    }
                }
                assert forall|s: u64| #[trigger] (n.sizes)(s).0 is Some ==> (n.sizes)(s).1.len() == 0 by {
                    if s == 0 {
                        assert((n.sizes)(0).0 is None);
                    }
                }
                assert forall|s: u64| #[trigger] (n.sizes)(s).0 is Some <==> n.pending.contains(s) by {
                    if s == 0 {
                        assert((n.sizes)(0).0 is None);
                    }
                }
            } else {
                lemma_step_sized(m, found, f, digests, size);
            }
        },
    }
}

/// `lemma_run_step` for a file that is not empty.
#[verifier::rlimit(40)]
proof fn lemma_step_sized(
    m: RunView,
    found: Seq<(Seq<u8>, Option<u64>)>,
    f: (Seq<u8>, Option<u64>),
    digests: (Option<Seq<u8>>, Option<Seq<u8>>),
    size: u64,
)
    requires
        run_inv(m, found),
        f.1 == Some(size),
        size > 0,
        forall|s: u64| !#[trigger] size_paths((m.sizes)(s)).contains(f.0),
        found.push(f).drop_last() == found,
        found.push(f).last() == f,
        forall|x: (Seq<u8>, Option<u64>)| found.contains(x) ==> #[trigger] found.push(f).contains(x),
        found.push(f).contains(f),
    ensures
        run_inv(run_step(m, f, digests), found.push(f)),
{
    let n = run_step(m, f, digests);
    let nf = found.push(f);
    let path = f.0;
    let (unread, groups) = (m.sizes)(size);
    assert(!size_paths((m.sizes)(size)).contains(path));
    // The groups and the sizes left unread once the unread file, if any, was read
    let (groups1, pending1) = match unread {
        Some(up) => (
            match digests.0 {
                Some(d) => groups_with(groups, d, up),
                None => groups,
            },
            m.pending.remove(m.pending.index_of(size)),
        ),
        None => (groups, m.pending),
    };
    assert(!groups_paths(groups1).contains(path) && groups_paths(groups1).no_duplicates()
        && forall|p: Seq<u8>| #[trigger] groups_paths(groups1).contains(p) ==> found.contains((p, Some(size)))) by {
        match unread {
            Some(up) => {
                assert(groups.len() == 0);
                assert(groups_paths(groups) =~= Seq::<Seq<u8>>::empty());
                assert(size_paths((m.sizes)(size))[0] == up);
                assert(size_paths((m.sizes)(size)).contains(up));
                assert(found.contains((up, Some(size))));
                if let Some(d) = digests.0 {
                    lemma_groups_with_paths(groups, d, up);
                }
            },
            None => {
                assert(size_paths((m.sizes)(size)) == groups_paths(groups));
            },
        }
    }
    assert(pending1.no_duplicates() && !pending1.contains(size)
        && (forall|s: u64| s != size ==> (#[trigger] pending1.contains(s) <==> m.pending.contains(s)))
        && pending1.len() + (if unread is Some { 1int } else { 0int }) == m.pending.len()
        && sizes_sum(pending1) + (if unread is Some { size as int } else { 0int }) == sizes_sum(m.pending)) by {
        if unread is Some {
            assert(m.pending.contains(size));
            let i = m.pending.index_of(size);
            lemma_pending_remove(m.pending, i);
            lemma_sizes_sum_remove(m.pending, i);
        } else {
            assert(!m.pending.contains(size));
        }
    }
    if groups1.len() == 0 {
        lemma_pending_push(pending1, size);
        lemma_sizes_sum_push(pending1, size);
        assert(size_paths((n.sizes)(size)) =~= seq![path] + groups_paths(groups1));
        assert(groups_paths(groups1) =~= Seq::<Seq<u8>>::empty());
        assert(size_paths((n.sizes)(size)) =~= seq![path]);
    } else {
        match digests.1 {
            Some(d) => {
                lemma_groups_with_paths(groups1, d, path);
            },
            None => {},
        }
    }
    assert forall|s: u64, p: Seq<u8>| #[trigger] size_paths((n.sizes)(s)).contains(p) implies nf.contains((p, Some(s))) by {
        if s != size {
            assert(found.contains((p, Some(s))));
        } else if p != path {
            if groups1.len() == 0 {
                assert(size_paths((n.sizes)(size))[0] == p);
            } else if let Some(d) = digests.1 {
                assert(groups_paths(groups1).contains(p));
            } else {
                assert(groups_paths(groups1).contains(p));
            }
            assert(found.contains((p, Some(s))));
        }
    }
    assert forall|s: u64| #[trigger] size_paths((n.sizes)(s)).no_duplicates() by {
        if s == size {
            if groups1.len() == 0 {
                assert(size_paths((n.sizes)(size)) =~= seq![path]);
            }
        }
    }
    assert forall|s: u64| #[trigger] (n.sizes)(s).0 is Some <==> n.pending.contains(s) by {
        if s != size {
            assert((n.sizes)(s) == (m.sizes)(s));
        }
    }
    assert forall|s: u64| #[trigger] (n.sizes)(s).0 is Some ==> (n.sizes)(s).1.len() == 0 by {
        if s != size {
            assert((n.sizes)(s) == (m.sizes)(s));
        }
    }
    assert forall|s: u64| n.pending.contains(s) implies s > 0 by {
        if s != size {
            assert(m.pending.contains(s));
        }
    }
}

/// What grouping the files that a walk found keeps, whatever reading them
/// gave: once it met all the found entries, in turn, whose paths are all
/// different, it counted each file and the total of their sizes; it read no
/// more files, nor more bytes, than it counted; a file is left unread only
/// where no file of its size was read; every file it holds under a size is a
/// found file of that size, and none is held twice.
pub proof fn lemma_grouping_keeps_files(
    found: Seq<(Seq<u8>, Option<u64>)>,
    digests: Seq<(Option<Seq<u8>>, Option<Seq<u8>>)>,
)
    requires
        digests.len() >= found.len(),
        forall|i: int, j: int| 0 <= i < j < found.len() ==> found[i].0 != found[j].0,
    ensures
        ({
            let m = run(found, digests, found.len());
            &&& m.files_total == files_count(found)
            &&& m.size_total == files_size(found)
            &&& m.files_read <= m.files_total
            &&& m.size_read <= m.size_total
            &&& forall|s: u64| #[trigger] (m.sizes)(s).0 is Some ==> (m.sizes)(s).1.len() == 0
            &&& forall|s: u64, p: Seq<u8>| #[trigger] size_paths((m.sizes)(s)).contains(p) ==> found.contains((p, Some(s)))
            &&& forall|s: u64| #[trigger] size_paths((m.sizes)(s)).no_duplicates()
        }),
{
    lemma_run_inv(found, digests, found.len());
    assert(found.take(found.len() as int) =~= found);
}

/// What the grouping keeps holds of every prefix of the found entries.
proof fn lemma_run_inv(found: Seq<(Seq<u8>, Option<u64>)>, digests: Seq<(Option<Seq<u8>>, Option<Seq<u8>>)>, n: nat)
    requires
        n <= found.len(),
        digests.len() >= found.len(),
        forall|i: int, j: int| 0 <= i < j < found.len() ==> found[i].0 != found[j].0,
    ensures
        run_inv(run(found, digests, n), found.take(n as int)),
    decreases n,
{
    if n == 0 {
        let m = run_start();
        assert(found.take(0) =~= Seq::<(Seq<u8>, Option<u64>)>::empty());
        assert forall|s: u64| #[trigger] size_paths((m.sizes)(s)) =~= Seq::<Seq<u8>>::empty() by {
            assert(groups_paths((m.sizes)(s).1) =~= Seq::<Seq<u8>>::empty());
        }
        assert forall|s: u64, p: Seq<u8>| !#[trigger] size_paths((m.sizes)(s)).contains(p) by {
            assert(size_paths((m.sizes)(s)) =~= Seq::<Seq<u8>>::empty());
        }
        assert forall|s: u64| #[trigger] size_paths((m.sizes)(s)).no_duplicates() by {
            assert(size_paths((m.sizes)(s)) =~= Seq::<Seq<u8>>::empty());
        }
    } else {
        lemma_run_inv(found, digests, (n - 1) as nat);
        let prefix = found.take(n - 1);
        assert(found.take(n as int) =~= prefix.push(found[n - 1]));
        assert forall|k: int| 0 <= k < prefix.len() implies #[trigger] prefix[k].0 != found[n - 1].0 by {
            assert(prefix[k] == found[k]);
        }
        lemma_run_step(run(found, digests, (n - 1) as nat), prefix, found[n - 1], digests[n - 1]);
    }
}


/// Whether an `Output` holds what a grouping holds
pub open spec fn output_matches(o: Output, m: RunView) -> bool {
    &&& o.files_total == m.files_total
    &&& o.files_read == m.files_read
    &&& o.size_total == m.size_total
    &&& o.size_read == m.size_read
    &&& forall|s: u64| #[trigger] o.size_view(s) == (m.sizes)(s)
}

/// A new `Output` holds what a grouping holds before any file.
pub proof fn lemma_new_output_matches(o: Output)
    requires
        o.files_total == 0 && o.files_read == 0 && o.size_total == 0 && o.size_read == 0,
        forall|s: u64| #[trigger] o.size_view(s) == (None::<Seq<u8>>, Seq::<(Seq<u8>, Seq<Seq<u8>>)>::empty()),
    ensures
        output_matches(o, run_start()),
{
}

/// Meeting a symlink (`Output::found` leaves the output as it was) is the grouping's step for it.
pub proof fn lemma_symlink_step(o: Output, m: RunView, path: Seq<u8>, digests: (Option<Seq<u8>>, Option<Seq<u8>>))
    requires
        output_matches(o, m),
    ensures
        output_matches(o, run_step(m, (path, None), digests)),
{
}

/// Recording an empty file with `Output::empty_file` (as `Output::found` does) is the grouping's step for it.
pub proof fn lemma_empty_file_step(o: Output, n: Output, m: RunView, path: Seq<u8>, digests: (Option<Seq<u8>>, Option<Seq<u8>>))
    requires
        output_matches(o, m),
        Output::empty_file_post(o, n, path),
    ensures
        output_matches(n, run_step(m, (path, Some(0u64)), digests)),
{
    let r = run_step(m, (path, Some(0u64)), digests);
    assert forall|s: u64| #[trigger] n.size_view(s) == (r.sizes)(s) by {
        if s != 0 {
            assert(n.size_view(s) == o.size_view(s));
        }
    }
}

/// Recording a file that is not empty is the grouping's step for it: the app
/// calls `Output::begin_file`; if it gave back an unread file, reads it and
/// calls `unread_hashed` with what reading gave (`digests.0`); then calls
/// `needs_hash`, and if that gave back the file, reads it and calls
/// `file_hashed` with what reading gave (`digests.1`).
pub proof fn lemma_file_step(
    o0: Output,
    o1: Output,
    o2: Output,
    o3: Output,
    o4: Output,
    m: RunView,
    path: Seq<u8>,
    size: u64,
    unread: Option<Seq<u8>>,
    to_read: Option<Seq<u8>>,
    digests: (Option<Seq<u8>>, Option<Seq<u8>>),
)
    requires
        size > 0,
        output_matches(o0, m),
        Output::begin_file_post(o0, o1, size, unread),
        match unread {
            Some(up) => Output::unread_hashed_post(o1, o2, size, up, digests.0),
            None => o2 == o1,
        },
        Output::needs_hash_post(o2, o3, size, path, to_read),
        match to_read {
            Some(p) => Output::file_hashed_post(o3, o4, size, p, digests.1),
            None => o4 == o3,
        },
    ensures
        output_matches(o4, run_step(m, (path, Some(size)), digests)),
{
    let r = run_step(m, (path, Some(size)), digests);
    assert forall|s: u64| s != size implies #[trigger] o4.size_view(s) == o0.size_view(s) by {
        assert(o1.size_view(s) == o0.size_view(s));
        assert(o2.size_view(s) == o1.size_view(s));
        assert(o3.size_view(s) == o2.size_view(s));
        assert(o4.size_view(s) == o3.size_view(s));
    }
    assert forall|s: u64| #[trigger] o4.size_view(s) == (r.sizes)(s) by {
        if s != size {
            assert(o4.size_view(s) == o0.size_view(s));
        }
    }
}


/// What grouping the found entries keeps, over the `Output`s of a whole run:
/// `outputs[k + 1]` is `outputs[k]` once the `k`-th found entry was recorded,
/// which `lemma_symlink_step`, `lemma_empty_file_step` and `lemma_file_step`
/// show of the `Output` methods called in the app's order, with `digests[k]`
/// the digests of what reading gave. With found paths all different, the last
/// output counts each file and their total size, read no more files nor bytes
/// than it counted, leaves a file unread only where no file of its size was
/// read, holds under each size only found files of that size, and none twice.
pub proof fn lemma_outputs_keep_files(
    outputs: Seq<Output>,
    found: Seq<(Seq<u8>, Option<u64>)>,
    digests: Seq<(Option<Seq<u8>>, Option<Seq<u8>>)>,
)
    requires
        outputs.len() == found.len() + 1,
        digests.len() >= found.len(),
        forall|i: int, j: int| 0 <= i < j < found.len() ==> found[i].0 != found[j].0,
        output_matches(outputs[0], run_start()),
        forall|k: int, m: RunView|
            0 <= k < found.len() && #[trigger] output_matches(outputs[k], m) ==> output_matches(
                outputs[k + 1],
                run_step(m, found[k], digests[k]),
            ),
    ensures
        ({
            let o = outputs[found.len() as int];
            &&& o.files_total == files_count(found)
            &&& o.size_total == files_size(found)
            &&& o.files_read <= o.files_total
            &&& o.size_read <= o.size_total
            &&& forall|s: u64| #[trigger] o.size_view(s).0 is Some ==> o.size_view(s).1.len() == 0
            &&& forall|s: u64, p: Seq<u8>| #[trigger] size_paths(o.size_view(s)).contains(p) ==> found.contains((p, Some(s)))
            &&& forall|s: u64| #[trigger] size_paths(o.size_view(s)).no_duplicates()
        }),
{
    lemma_outputs_follow_run(outputs, found, digests, found.len());
    lemma_grouping_keeps_files(found, digests);
    let o = outputs[found.len() as int];
    let m = run(found, digests, found.len());
    assert forall|s: u64| #[trigger] o.size_view(s) == (m.sizes)(s) by {}
}

/// The outputs of a run hold what the grouping of the entries before them holds.
proof fn lemma_outputs_follow_run(
    outputs: Seq<Output>,
    found: Seq<(Seq<u8>, Option<u64>)>,
    digests: Seq<(Option<Seq<u8>>, Option<Seq<u8>>)>,
    k: nat,
)
    requires
        outputs.len() == found.len() + 1,
        k <= found.len(),
        output_matches(outputs[0], run_start()),
        forall|k: int, m: RunView|
            0 <= k < found.len() && #[trigger] output_matches(outputs[k], m) ==> output_matches(
                outputs[k + 1],
                run_step(m, found[k], digests[k]),
            ),
    ensures
        output_matches(outputs[k as int], run(found, digests, k)),
    decreases k,
{
    if k > 0 {
        lemma_outputs_follow_run(outputs, found, digests, (k - 1) as nat);
        let m = run(found, digests, (k - 1) as nat);
        assert(output_matches(outputs[k - 1], m));
        assert(output_matches(outputs[(k - 1) + 1], run_step(m, found[k - 1], digests[k - 1])));
    }
}

} // verus!
