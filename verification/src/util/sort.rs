//! Stable sorting

use vstd::prelude::*;
use vstd::relations::injective_on;
use vstd::set_lib::{lemma_int_range, lemma_map_size, lemma_subset_equality, set_int_range};

verus! {

/// Whether `le` orders every two values, transitively
pub open spec fn total_preorder<T>(le: spec_fn(T, T) -> bool) -> bool {
    &&& forall|a: T, b: T| #[trigger] le(a, b) || le(b, a)
    &&& forall|a: T, b: T, c: T| #[trigger] le(a, b) && #[trigger] le(b, c) ==> le(a, c)
}

/// Whether `x`, from position `i`, goes before `y`, from position `j`, in a
/// stable sort by `le`: it orders before it, or they are equivalent and it came first.
pub open spec fn goes_before<T>(le: spec_fn(T, T) -> bool, x: T, i: int, y: T, j: int) -> bool {
    le(x, y) && (!le(y, x) || i < j)
}

/// Whether `out` is `input` sorted stably by `le`, where `out[k]` came from
/// position `perm[k]` of `input`.
pub open spec fn is_stable_sort_of<T>(out: Seq<T>, input: Seq<T>, perm: Seq<int>, le: spec_fn(T, T) -> bool) -> bool {
    &&& out.len() == input.len()
    &&& perm.len() == out.len()
    &&& forall|k: int| 0 <= k < out.len() ==> 0 <= #[trigger] perm[k] < input.len() && out[k] == input[perm[k]]
    &&& forall|a: int, b: int|
        0 <= a < b < out.len() ==> goes_before(le, #[trigger] out[a], perm[a], #[trigger] out[b], perm[b])
}

proof fn lemma_goes_before_trans<T>(le: spec_fn(T, T) -> bool, x: T, i: int, y: T, j: int, z: T, l: int)
    requires
        total_preorder(le),
        goes_before(le, x, i, y, j),
        goes_before(le, y, j, z, l),
    ensures
        goes_before(le, x, i, z, l),
{
    assert(le(x, y) && le(y, z));
    if le(z, x) {
        assert(le(z, x) && le(x, y));
        assert(le(y, z) && le(z, x));
    }
}

/// Each value of a stable sort comes from a different position of the input:
/// `perm` is a permutation.
pub proof fn lemma_stable_sort_is_permutation<T>(out: Seq<T>, input: Seq<T>, perm: Seq<int>, le: spec_fn(T, T) -> bool)
    requires
        total_preorder(le),
        is_stable_sort_of(out, input, perm, le),
    ensures
        forall|a: int, b: int| 0 <= a < b < out.len() ==> perm[a] != perm[b],
{
    assert forall|a: int, b: int| 0 <= a < b < out.len() implies perm[a] != perm[b] by {
        assert(goes_before(le, out[a], perm[a], out[b], perm[b]));
        if perm[a] == perm[b] {
            assert(out[a] == out[b]);
            assert(le(out[a], out[a]) || le(out[a], out[a]));
        }
    }
}

/// The stable sort of `input` by `le`: the one order of its values that sorts
/// them by `le` and keeps equivalent ones in the order in which they came.
pub open spec fn stable_sorted<T>(input: Seq<T>, le: spec_fn(T, T) -> bool) -> Seq<T> {
    choose|out: Seq<T>| #[trigger] sorts_stably(out, input, le)
}

/// Whether `out` is `input` sorted stably by `le`
pub open spec fn sorts_stably<T>(out: Seq<T>, input: Seq<T>, le: spec_fn(T, T) -> bool) -> bool {
    exists|perm: Seq<int>| #[trigger] is_stable_sort_of(out, input, perm, le)
}

/// Whether `perm` holds the position `y`
spec fn holds_position(perm: Seq<int>, y: int) -> bool {
    exists|k: int| 0 <= k < perm.len() && #[trigger] perm[k] == y
}

/// A sequence of `n` distinct positions below `n` holds each of them.
proof fn lemma_distinct_positions_onto(perm: Seq<int>, n: int)
    requires
        perm.len() == n,
        forall|k: int| 0 <= k < n ==> 0 <= #[trigger] perm[k] < n,
        forall|a: int, b: int| 0 <= a < b < n ==> perm[a] != perm[b],
    ensures
        forall|y: int| 0 <= y < n ==> #[trigger] holds_position(perm, y),
{
    let positions = set_int_range(0, n);
    let at = |k: int| perm[k];
    lemma_int_range(0, n);
    assert(injective_on(at, positions)) by {
        assert forall|a: int, b: int| positions.contains(a) && positions.contains(b) && #[trigger] at(a) == #[trigger] at(b) implies a == b by {
            if a < b {
                assert(perm[a] != perm[b]);
            } else if b < a {
                assert(perm[b] != perm[a]);
            }
        }
    }
    let image = positions.map(at);
    lemma_map_size(positions, image, at);
    assert(image.subset_of(positions)) by {
        assert forall|y: int| image.contains(y) implies positions.contains(y) by {
            let k = choose|k: int| positions.contains(k) && y == at(k);
            assert(0 <= perm[k] < n);
        }
    }
    lemma_subset_equality(image, positions);
    assert forall|y: int| 0 <= y < n implies #[trigger] holds_position(perm, y) by {
        assert(positions.contains(y));
        assert(image.contains(y));
        let k = choose|k: int| positions.contains(k) && y == at(k);
        assert(perm[k] == y);
    }
}

/// Two stable sorts of one input agree on their first `k` positions.
proof fn lemma_stable_sorts_agree<T>(
    out1: Seq<T>,
    perm1: Seq<int>,
    out2: Seq<T>,
    perm2: Seq<int>,
    input: Seq<T>,
    le: spec_fn(T, T) -> bool,
    k: int,
)
    requires
        total_preorder(le),
        is_stable_sort_of(out1, input, perm1, le),
        is_stable_sort_of(out2, input, perm2, le),
        0 <= k <= input.len(),
    ensures
        forall|j: int| 0 <= j < k ==> perm1[j] == perm2[j],
    decreases k,
{
    if k > 0 {
        let n = input.len() as int;
        lemma_stable_sorts_agree(out1, perm1, out2, perm2, input, le, k - 1);
        lemma_stable_sort_is_permutation(out1, input, perm1, le);
        lemma_stable_sort_is_permutation(out2, input, perm2, le);
        lemma_distinct_positions_onto(perm1, n);
        lemma_distinct_positions_onto(perm2, n);
        let j = k - 1;
        let x = perm1[j];
        let y = perm2[j];
        if x != y {
            assert(0 <= y < n);
            assert(holds_position(perm1, y));
            assert(holds_position(perm2, x));
            let m1 = choose|m: int| 0 <= m < n && #[trigger] perm1[m] == y;
            let m2 = choose|m: int| 0 <= m < n && #[trigger] perm2[m] == x;
            if m1 < j {
                assert(perm2[m1] == perm1[m1]);
                assert(perm2[m1] != perm2[j]);
            }
            if m2 < j {
                assert(perm1[m2] == perm2[m2]);
                assert(perm1[m2] != perm1[j]);
            }
            assert(j < m1 && j < m2);
            assert(goes_before(le, out1[j], perm1[j], out1[m1], perm1[m1]));
            assert(goes_before(le, out2[j], perm2[j], out2[m2], perm2[m2]));
            assert(out1[j] == input[x] && out1[m1] == input[y]);
            assert(out2[j] == input[y] && out2[m2] == input[x]);
        }
    }
}

/// A stable sort is unique: any two of one input are equal.
pub proof fn lemma_stable_sort_unique<T>(
    out1: Seq<T>,
    perm1: Seq<int>,
    out2: Seq<T>,
    perm2: Seq<int>,
    input: Seq<T>,
    le: spec_fn(T, T) -> bool,
)
    requires
        total_preorder(le),
        is_stable_sort_of(out1, input, perm1, le),
        is_stable_sort_of(out2, input, perm2, le),
    ensures
        out1 == out2,
        perm1 == perm2,
{
    lemma_stable_sorts_agree(out1, perm1, out2, perm2, input, le, input.len() as int);
    assert(perm1 =~= perm2);
    assert forall|j: int| 0 <= j < out1.len() implies out1[j] == out2[j] by {
        assert(out1[j] == input[perm1[j]]);
        assert(out2[j] == input[perm2[j]]);
    }
    assert(out1 =~= out2);
}

/// A stable sort of `input` is the stable sort of it.
pub proof fn lemma_is_stable_sorted<T>(out: Seq<T>, input: Seq<T>, perm: Seq<int>, le: spec_fn(T, T) -> bool)
    requires
        total_preorder(le),
        is_stable_sort_of(out, input, perm, le),
    ensures
        stable_sorted(input, le) == out,
{
    assert(sorts_stably(out, input, le));
    let sorted = stable_sorted(input, le);
    let p2 = choose|p: Seq<int>| #[trigger] is_stable_sort_of(sorted, input, p, le);
    lemma_stable_sort_unique(out, perm, sorted, p2, input, le);
}

/// Sorts `v` stably by `le`, which computes `spec_le`.
///
/// Returns the sorted values and, for each, its position in `v`.
pub fn stable_sort<T: Copy, F: Fn(&T, &T) -> bool>(
    v: &[T],
    le: &F,
    Ghost(spec_le): Ghost<spec_fn(T, T) -> bool>,
) -> (res: (Vec<T>, Ghost<Seq<int>>))
    requires
        total_preorder(spec_le),
        forall|i: int, j: int| 0 <= i < v@.len() && 0 <= j < v@.len() ==> le.requires((&v@[i], &v@[j])),
        forall|a: T, b: T, r: bool| le.ensures((&a, &b), r) ==> r == spec_le(a, b),
    ensures
        is_stable_sort_of(res.0@, v@, res.1@, spec_le),
        res.0@ == stable_sorted(v@, spec_le),
    decreases v@.len(),
{
    let n = v.len();
    if n <= 1 {
        let mut out = Vec::new();
        if n == 1 {
            out.push(v[0]);
        }
        let ghost perm = Seq::new(n as nat, |k: int| k);
        proof {
            lemma_is_stable_sorted(out@, v@, perm, spec_le);
        }
        return (out, Ghost(perm));
    }
    let mid = n / 2;
    let ghost lv = v@.subrange(0, mid as int);
    let ghost rv = v@.subrange(mid as int, n as int);
    assert forall|i: int, j: int| 0 <= i < lv.len() && 0 <= j < lv.len() implies le.requires((&lv[i], &lv[j])) by {
        assert(lv[i] == v@[i] && lv[j] == v@[j]);
    }
    assert forall|i: int, j: int| 0 <= i < rv.len() && 0 <= j < rv.len() implies le.requires((&rv[i], &rv[j])) by {
        assert(rv[i] == v@[mid + i] && rv[j] == v@[mid + j]);
    }
    let (left, Ghost(pl)) = stable_sort(&v[0..mid], le, Ghost(spec_le));
    let (right, Ghost(pr)) = stable_sort(&v[mid..n], le, Ghost(spec_le));

    let mut out: Vec<T> = Vec::new();
    let ghost mut perm: Seq<int> = Seq::empty();
    let mut i: usize = 0;
    let mut j: usize = 0;
    while i < left.len() || j < right.len()
        invariant
            n == v@.len(),
            mid < n,
            left@.len() == mid,
            right@.len() == n - mid,
            total_preorder(spec_le),
            forall|i: int, j: int| 0 <= i < v@.len() && 0 <= j < v@.len() ==> le.requires((&v@[i], &v@[j])),
            forall|a: T, b: T, r: bool| le.ensures((&a, &b), r) ==> r == spec_le(a, b),
            lv == v@.subrange(0, mid as int),
            rv == v@.subrange(mid as int, n as int),
            is_stable_sort_of(left@, lv, pl, spec_le),
            is_stable_sort_of(right@, rv, pr, spec_le),
            i <= left@.len(),
            j <= right@.len(),
            out@.len() == i + j,
            perm.len() == i + j,
            forall|k: int| 0 <= k < out@.len() ==> 0 <= #[trigger] perm[k] < n && out@[k] == v@[perm[k]],
            forall|a: int, b: int|
                0 <= a < b < out@.len() ==> goes_before(spec_le, #[trigger] out@[a], perm[a], #[trigger] out@[b], perm[b]),
            out@.len() > 0 && i < left@.len() ==> goes_before(spec_le, out@.last(), perm.last(), left@[i as int], pl[i as int]),
            out@.len() > 0 && j < right@.len() ==> goes_before(spec_le, out@.last(), perm.last(), right@[j as int], mid + pr[j as int]),
        decreases left@.len() + right@.len() - i - j,
    {
        let ghost old_out = out@;
        let ghost old_perm = perm;
        let take_left = if j >= right.len() {
            true
        } else if i < left.len() {
            assert(left@[i as int] == v@[pl[i as int]]);
            assert(right@[j as int] == v@[mid + pr[j as int]]);
            le(&left[i], &right[j])
        } else {
            false
        };
        if take_left {
            let x = left[i];
            proof {
                let p = pl[i as int];
                assert(0 <= p < mid && left@[i as int] == lv[p]);
                assert forall|a: int| 0 <= a < old_out.len() implies goes_before(
                    spec_le,
                    old_out[a],
                    old_perm[a],
                    x,
                    p,
                ) by {
                    if a < old_out.len() - 1 {
                        assert(goes_before(spec_le, old_out[a], old_perm[a], old_out.last(), old_perm.last()));
                        lemma_goes_before_trans(spec_le, old_out[a], old_perm[a], old_out.last(), old_perm.last(), x, p);
                    }
                }
                if i + 1 < left@.len() {
                    assert(goes_before(spec_le, left@[i as int], pl[i as int], left@[i + 1], pl[i + 1]));
                }
                if j < right@.len() {
                    assert(mid <= mid + pr[j as int]);
                }
                perm = perm.push(p);
            }
            out.push(x);
            i += 1;
        } else {
            let x = right[j];
            proof {
                let p = mid + pr[j as int];
                assert(0 <= pr[j as int] < n - mid && right@[j as int] == rv[pr[j as int]]);
                assert forall|a: int| 0 <= a < old_out.len() implies goes_before(
                    spec_le,
                    old_out[a],
                    old_perm[a],
                    x,
                    p,
                ) by {
                    if a < old_out.len() - 1 {
                        assert(goes_before(spec_le, old_out[a], old_perm[a], old_out.last(), old_perm.last()));
                        lemma_goes_before_trans(spec_le, old_out[a], old_perm[a], old_out.last(), old_perm.last(), x, p);
                    }
                }
                if j + 1 < right@.len() {
                    assert(goes_before(spec_le, right@[j as int], pr[j as int], right@[j + 1], pr[j + 1]));
                }
                if i < left@.len() {
                    assert(!spec_le(left@[i as int], x));
                    assert(spec_le(left@[i as int], x) || spec_le(x, left@[i as int]));
                }
                perm = perm.push(p);
            }
            out.push(x);
            j += 1;
        }
    }
    proof {
        lemma_is_stable_sorted(out@, v@, perm, spec_le);
    }
    (out, Ghost(perm))
}

} // verus!
