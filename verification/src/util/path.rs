//! Paths as bytes, split into components as `std::path` does on unix

use {
    crate::{archive::import::PathComponent, util::bytes_eq},
    vstd::prelude::*,
};

verus! {

/// Whether a path is absolute: it starts with `/`
pub open spec fn is_absolute(path: Seq<u8>) -> bool {
    path.len() > 0 && path[0] == 0x2f
}

/// Where the segment of `path` that starts at `i` ends: at the next `/` or at the end
pub open spec fn seg_end(path: Seq<u8>, i: nat) -> nat
    decreases path.len() - i,
{
    if i >= path.len() || path[i as int] == 0x2f {
        i
    } else {
        seg_end(path, i + 1)
    }
}

/// A segment ends at or after where it starts, within the path, before the first `/` after its start.
pub proof fn lemma_seg_end(path: Seq<u8>, i: nat)
    ensures
        i <= seg_end(path, i),
        i <= path.len() ==> seg_end(path, i) <= path.len(),
        forall|j: int| i <= j < seg_end(path, i) ==> path[j] != 0x2f,
        seg_end(path, i) < path.len() ==> path[seg_end(path, i) as int] == 0x2f,
    decreases path.len() - i,
{
    if !(i >= path.len() || path[i as int] == 0x2f) {
        lemma_seg_end(path, i + 1);
    }
}

/// A segment with no `/` from its start up to `end`, where a `/` or the end of the path stands, ends at `end`.
proof fn lemma_seg_end_at(path: Seq<u8>, i: nat, end: nat)
    requires
        i <= end <= path.len(),
        forall|j: int| i <= j < end ==> path[j] != 0x2f,
        end == path.len() || path[end as int] == 0x2f,
    ensures
        seg_end(path, i) == end,
    decreases end - i,
{
    if i < end {
        lemma_seg_end_at(path, i + 1, end);
    }
}

/// The path `.`
pub open spec fn cur_dir() -> Seq<u8> {
    seq![0x2eu8]
}

/// The path `..`
pub open spec fn parent_dir() -> Seq<u8> {
    seq![0x2eu8, 0x2eu8]
}

/// The components of `path` from the segment that starts at `i`, as their
/// bytes: empty segments and `.` are left out, but for a `.` that stands first
/// in a relative path (`keep_cur`).
pub open spec fn components_from(path: Seq<u8>, i: nat, keep_cur: bool) -> Seq<Seq<u8>>
    decreases path.len() + 1 - i,
{
    if i > path.len() {
        Seq::empty()
    } else {
        proof {
            lemma_seg_end(path, i);
        }
        let end = seg_end(path, i);
        let seg = path.subrange(i as int, end as int);
        let rest = components_from(path, end + 1, false);
        if seg.len() == 0 || (seg == cur_dir() && !keep_cur) {
            rest
        } else {
            seq![seg] + rest
        }
    }
}

/// The components of `path` but its root, as their bytes, as `Path::components` gives them on unix
pub open spec fn path_components(path: Seq<u8>) -> Seq<Seq<u8>> {
    components_from(path, 0, !is_absolute(path))
}

/// The components of `path` relative to `entry_path`: those of a relative
/// path, or those that follow the components of `entry_path` in an absolute
/// one (as `Path::strip_prefix` leaves them); `None` for an absolute path that
/// does not lie within `entry_path`.
pub open spec fn relative_components(entry_path: Seq<u8>, path: Seq<u8>) -> Option<Seq<Seq<u8>>> {
    let comps = path_components(path);
    let base = path_components(entry_path);
    if !is_absolute(path) {
        Some(comps)
    } else if is_absolute(entry_path) && base.len() <= comps.len() && comps.take(base.len() as int) == base {
        Some(comps.skip(base.len() as int))
    } else {
        None
    }
}

/// Whether `component` is the component whose bytes are `seg`
pub open spec fn component_is(component: PathComponent, seg: Seq<u8>) -> bool {
    match component {
        PathComponent::CurDir => seg == cur_dir(),
        PathComponent::ParentDir => seg == parent_dir(),
        PathComponent::Normal(name) => name@ == seg && seg != cur_dir() && seg != parent_dir(),
    }
}

/// Whether `components` are the components with bytes `segs`, one for one
pub open spec fn components_are(components: Seq<PathComponent>, segs: Seq<Seq<u8>>) -> bool {
    &&& components.len() == segs.len()
    &&& forall|i: int| 0 <= i < segs.len() ==> #[trigger] component_is(components[i], segs[i])
}

/// The bytes of each of `segs`
pub open spec fn seg_views(segs: Seq<Vec<u8>>) -> Seq<Seq<u8>> {
    segs.map_values(|seg: Vec<u8>| seg@)
}

/// Splits a path into its components, as their bytes
pub fn split_path(path: &[u8]) -> (segs: Vec<Vec<u8>>)
    ensures
        seg_views(segs@) == path_components(path@),
{
    let ghost goal = path_components(path@);
    let mut segs: Vec<Vec<u8>> = Vec::new();
    let mut cur: Vec<u8> = Vec::new();
    let mut keep_cur = !(path.len() > 0 && path[0] == 0x2fu8);
    let mut start: usize = 0;
    let mut i: usize = 0;
    assert(seg_views(segs@) + components_from(path@, 0, keep_cur) =~= goal);
    while i < path.len()
        invariant
            start <= i <= path@.len(),
            cur@ == path@.subrange(start as int, i as int),
            forall|j: int| start <= j < i ==> path@[j] != 0x2f,
            seg_views(segs@) + components_from(path@, start as nat, keep_cur) == goal,
            goal == path_components(path@),
        decreases path@.len() - i,
    {
        if path[i] == 0x2fu8 {
            proof {
                lemma_seg_end_at(path@, start as nat, i as nat);
            }
            let ghost before = segs@;
            let is_cur = cur.len() == 1 && cur[0] == 0x2eu8;
            proof {
                assert(is_cur == (cur@ == cur_dir())) by {
                    if cur@.len() == 1 && cur@[0] == 0x2e {
                        assert(cur@ =~= cur_dir());
                    }
                }
            }
            if !(cur.len() == 0 || (is_cur && !keep_cur)) {
                segs.push(cur);
                proof {
                    assert(seg_views(segs@) =~= seg_views(before) + seq![path@.subrange(start as int, i as int)]);
                }
            }
            proof {
                let rest = components_from(path@, (i + 1) as nat, false);
                if !(path@.subrange(start as int, i as int).len() == 0 || (is_cur && !keep_cur)) {
                    assert(seg_views(before) + (seq![path@.subrange(start as int, i as int)] + rest) =~= seg_views(segs@)
                        + rest);
                }
            }
            cur = Vec::new();
            start = i + 1;
            keep_cur = false;
        } else {
            cur.push(path[i]);
        }
        i += 1;
        assert(cur@ =~= path@.subrange(start as int, i as int));
    }
    proof {
        lemma_seg_end_at(path@, start as nat, i as nat);
        assert(components_from(path@, (i + 1) as nat, false) =~= Seq::<Seq<u8>>::empty());
    }
    let ghost before = segs@;
    let is_cur = cur.len() == 1 && cur[0] == 0x2eu8;
    proof {
        assert(is_cur == (cur@ == cur_dir())) by {
            if cur@.len() == 1 && cur@[0] == 0x2e {
                assert(cur@ =~= cur_dir());
            }
        }
    }
    if !(cur.len() == 0 || (is_cur && !keep_cur)) {
        segs.push(cur);
        proof {
            assert(seg_views(segs@) =~= seg_views(before) + seq![path@.subrange(start as int, i as int)]);
        }
    } else {
        assert(seg_views(before) + Seq::<Seq<u8>>::empty() =~= seg_views(before));
    }
    segs
}

/// The component whose bytes are `seg`
fn to_component(seg: &[u8]) -> (component: PathComponent)
    ensures
        component_is(component, seg@),
{
    if seg.len() == 1 && seg[0] == 0x2eu8 {
        assert(seg@ =~= cur_dir());
        PathComponent::CurDir
    } else if seg.len() == 2 && seg[0] == 0x2eu8 && seg[1] == 0x2eu8 {
        assert(seg@ =~= parent_dir());
        PathComponent::ParentDir
    } else {
        let mut name: Vec<u8> = Vec::new();
        name.extend_from_slice(seg);
        assert(name@ =~= seg@);
        assert(seg@ == cur_dir() ==> seg@.len() == 1 && seg@[0] == 0x2e);
        assert(seg@ == parent_dir() ==> seg@.len() == 2 && seg@[0] == 0x2e && seg@[1] == 0x2e);
        PathComponent::Normal(name)
    }
}

/// The components of `path` relative to `entry_path`, or `None` for an
/// absolute path that does not lie within `entry_path`.
///
/// A relative path is taken as it is; an absolute one loses the components of
/// `entry_path` from its start, as `Path::strip_prefix` does.
pub fn relative_path_components(entry_path: &[u8], path: &[u8]) -> (res: Option<Vec<PathComponent>>)
    ensures
        match relative_components(entry_path@, path@) {
            Some(segs) => res matches Some(components) && components_are(components@, segs),
            None => res is None,
        },
{
    let segs = split_path(path);
    let ghost comps = path_components(path@);
    let mut skip: usize = 0;
    if path.len() > 0 && path[0] == 0x2fu8 {
        if !(entry_path.len() > 0 && entry_path[0] == 0x2fu8) {
            return None;
        }
        let base = split_path(entry_path);
        let ghost base_comps = path_components(entry_path@);
        if base.len() > segs.len() {
            assert(seg_views(base@).len() == base@.len());
            return None;
        }
        let mut k: usize = 0;
        while k < base.len()
            invariant
                k <= base@.len() <= segs@.len(),
                seg_views(base@) == base_comps,
                seg_views(segs@) == comps,
                forall|j: int| 0 <= j < k ==> comps[j] == base_comps[j],
                is_absolute(path@),
                is_absolute(entry_path@),
                comps == path_components(path@),
                base_comps == path_components(entry_path@),
            decreases base@.len() - k,
        {
            assert(seg_views(base@)[k as int] == base@[k as int]@);
            assert(seg_views(segs@)[k as int] == segs@[k as int]@);
            if !bytes_eq(base[k].as_slice(), segs[k].as_slice()) {
                assert(comps.take(base_comps.len() as int)[k as int] != base_comps[k as int]);
                assert(comps.take(base_comps.len() as int) != base_comps);
                return None;
            }
            k += 1;
        }
        assert(comps.take(base_comps.len() as int) =~= base_comps);
        skip = base.len();
    }
    let mut components: Vec<PathComponent> = Vec::new();
    let mut i = skip;
    let ghost segs_out = relative_components(entry_path@, path@).unwrap();
    assert(segs_out =~= comps.skip(skip as int));
    while i < segs.len()
        invariant
            skip <= i <= segs@.len(),
            seg_views(segs@) == comps,
            segs_out == comps.skip(skip as int),
            components@.len() == i - skip,
            forall|j: int| 0 <= j < components@.len() ==> #[trigger] component_is(components@[j], segs_out[j]),
        decreases segs@.len() - i,
    {
        assert(seg_views(segs@)[i as int] == segs@[i as int]@);
        let component = to_component(segs[i].as_slice());
        components.push(component);
        i += 1;
    }
    Some(components)
}

} // verus!
