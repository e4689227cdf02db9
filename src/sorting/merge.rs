//! Top-down merge sort whose merge closes each run with a `-1` sentinel.
use vstd::prelude::*;

verus! {

broadcast use {vstd::seq_lib::group_to_multiset_ensures, vstd::seq_lib::lemma_multiset_commutative};

/// The comparator puts `a` strictly before `b`: it answers `< 0`.
pub open spec fn before<F: Fn(i32, i32) -> i32>(comparator: F, a: i32, b: i32) -> bool {
    exists|r: i32| comparator.ensures((a, b), r) && r < 0
}

/// A value the merge may hold: an item (`0..=i32::MAX`) or the sentinel.
pub open spec fn in_range(a: i32) -> bool {
    a >= -1
}

/// The comparator can be called on any pair, answers each pair always the
/// same way, is a strict weak order on items and the sentinel, and puts
/// every item before the sentinel.
pub open spec fn is_merge_order<F: Fn(i32, i32) -> i32>(comparator: F) -> bool {
    &&& forall|a: i32, b: i32| #[trigger] comparator.requires((a, b))
    &&& forall|a: i32, b: i32, r1: i32, r2: i32|
        comparator.ensures((a, b), r1) && comparator.ensures((a, b), r2) ==> r1 == r2
    &&& forall|a: i32| a >= 0 ==> #[trigger] before(comparator, a, -1i32) && !before(comparator, -1i32, a)
    &&& forall|a: i32, b: i32|
        in_range(a) && in_range(b) && #[trigger] before(comparator, a, b) ==> !before(comparator, b, a)
    &&& forall|a: i32, b: i32, c: i32|
        in_range(a) && in_range(b) && in_range(c) && !#[trigger] before(comparator, a, b)
            && !#[trigger] before(comparator, b, c) ==> !before(comparator, a, c)
}

/// No item of `s` comes strictly before an earlier one.
pub open spec fn sorted_by<F: Fn(i32, i32) -> i32>(comparator: F, s: Seq<u32>) -> bool {
    forall|i: int, j: int| 0 <= i < j < s.len() ==> !before(comparator, #[trigger] s[j] as i32, #[trigger] s[i] as i32)
}

/// Every item fits an `i32`.
pub open spec fn small(s: Seq<u32>) -> bool {
    forall|i: int| 0 <= i < s.len() ==> #[trigger] s[i] <= i32::MAX
}

/// Sorts a copy of `data` by merge sort. Returns it with the number of
/// merge steps and of steps that took from the right run, both counted up
/// to `u32::MAX`.
pub fn sort<F: Fn(i32, i32) -> i32>(data: &[u32], comparator: F) -> (r: (Vec<u32>, u32, u32))
    requires
        data@.len() >= 1,
        small(data@),
        is_merge_order(comparator),
    ensures
        r.0@.to_multiset() == data@.to_multiset(),
        sorted_by(comparator, r.0@),
{
    let mut out: Vec<u32> = Vec::new();
    let mut i: usize = 0;
    while i < data.len()
        invariant
            i <= data@.len(),
            out@ == data@.subrange(0, i as int),
        decreases data@.len() - i,
    {
        out.push(data[i]);
        i = i + 1;
    }
    proof {
        assert(out@ =~= data@);
    }
    let length = out.len() - 1;
    let (comparisons, swaps) = sort_range(&mut out, 0, length, &comparator);
    proof {
        assert(out@.subrange(0, out@.len() as int) =~= out@);
        assert(data@.subrange(0, data@.len() as int) =~= data@);
    }
    (out, comparisons, swaps)
}

/// Sorts `data[start..=end]` in place.
fn sort_range<F: Fn(i32, i32) -> i32>(data: &mut Vec<u32>, start: usize, end: usize, comparator: &F) -> (r: (u32, u32))
    requires
        start <= end < old(data)@.len(),
        small(old(data)@),
        is_merge_order(*comparator),
    ensures
        final(data)@.len() == old(data)@.len(),
        small(final(data)@),
        forall|k: int| 0 <= k < final(data)@.len() && !(start <= k <= end) ==> final(data)@[k] == old(data)@[k],
        final(data)@.subrange(start as int, end + 1).to_multiset() == old(data)@.subrange(start as int, end + 1).to_multiset(),
        sorted_by(*comparator, final(data)@.subrange(start as int, end + 1)),
    decreases end - start,
{
    if start < end {
        let mid = start + (end - start) / 2;
        let ghost d0 = data@;
        let a = sort_range(data, start, mid, comparator);
        let ghost d1 = data@;
        let b = sort_range(data, mid + 1, end, comparator);
        let ghost d2 = data@;
        proof {
            assert(d2.subrange(start as int, mid + 1) =~= d1.subrange(start as int, mid + 1));
            assert(d1.subrange(mid + 1, end + 1) =~= d0.subrange(mid + 1, end + 1));
            assert(d0.subrange(start as int, end + 1) =~= d0.subrange(start as int, mid + 1) + d0.subrange(mid + 1, end + 1));
            assert(d2.subrange(start as int, end + 1) =~= d2.subrange(start as int, mid + 1) + d2.subrange(mid + 1, end + 1));
        }
        let c = merge(data, start, mid, end, comparator);
        (a.0.saturating_add(b.0).saturating_add(c.0), a.1.saturating_add(b.1).saturating_add(c.1))
    } else {
        proof {
            assert forall|i: int, j: int| 0 <= i < j < data@.subrange(start as int, end + 1).len() implies !before(*comparator, #[trigger] data@.subrange(start as int, end + 1)[j] as i32, #[trigger] data@.subrange(start as int, end + 1)[i] as i32) by {}
        }
        (0, 0)
    }
}

/// Merges the sorted runs `data[start..=mid]` and `data[mid + 1..=end]`.
fn merge<F: Fn(i32, i32) -> i32>(data: &mut Vec<u32>, start: usize, mid: usize, end: usize, comparator: &F) -> (r: (u32, u32))
    requires
        start <= mid < end < old(data)@.len(),
        small(old(data)@),
        is_merge_order(*comparator),
        sorted_by(*comparator, old(data)@.subrange(start as int, mid + 1)),
        sorted_by(*comparator, old(data)@.subrange(mid + 1, end + 1)),
    ensures
        final(data)@.len() == old(data)@.len(),
        small(final(data)@),
        forall|k: int| 0 <= k < final(data)@.len() && !(start <= k <= end) ==> final(data)@[k] == old(data)@[k],
        final(data)@.subrange(start as int, end + 1).to_multiset() == old(data)@.subrange(start as int, end + 1).to_multiset(),
        sorted_by(*comparator, final(data)@.subrange(start as int, end + 1)),
{
    assert(end < data.len());
    let ghost ls = old(data)@.subrange(start as int, mid + 1);
    let ghost rs = old(data)@.subrange(mid + 1, end + 1);
    let mut left: Vec<i32> = Vec::new();
    let mut k: usize = start;
    while k <= mid
        invariant
            start <= k <= mid + 1,
            mid < end < data@.len(),
            data@ == old(data)@,
            small(data@),
            ls == data@.subrange(start as int, mid + 1),
            left@.len() == k - start,
            forall|t: int| 0 <= t < left@.len() ==> left@[t] == ls[t] as i32,
        decreases mid + 1 - k,
    {
        left.push(data[k] as i32);
        k = k + 1;
    }
    left.push(-1);
    let mut right: Vec<i32> = Vec::new();
    let mut k: usize = mid + 1;
    while k <= end
        invariant
            mid + 1 <= k <= end + 1,
            end < data@.len(),
            end < usize::MAX,
            data@ == old(data)@,
            small(data@),
            rs == data@.subrange(mid + 1, end + 1),
            right@.len() == k - mid - 1,
            forall|t: int| 0 <= t < right@.len() ==> right@[t] == rs[t] as i32,
        decreases end + 1 - k,
    {
        right.push(data[k] as i32);
        k = k + 1;
    }
    right.push(-1);
    let nl = mid + 1 - start;
    let nr = end - mid;
    let mut merged: Vec<u32> = Vec::new();
    let mut comparisons: u32 = 0;
    let mut swaps: u32 = 0;
    let mut i: usize = 0;
    let mut j: usize = 0;
    while i + j < nl + nr
        invariant
            nl + nr == end - start + 1,
            end < usize::MAX,
            nl == ls.len(),
            nr == rs.len(),
            left@.len() == nl + 1,
            right@.len() == nr + 1,
            left@[nl as int] == -1,
            right@[nr as int] == -1,
            forall|t: int| 0 <= t < nl ==> left@[t] == ls[t] as i32,
            forall|t: int| 0 <= t < nr ==> right@[t] == rs[t] as i32,
            small(ls),
            small(rs),
            is_merge_order(*comparator),
            sorted_by(*comparator, ls),
            sorted_by(*comparator, rs),
            i <= nl,
            j <= nr,
            merged@.len() == i + j,
            merged@.to_multiset() == ls.subrange(0, i as int).to_multiset().add(rs.subrange(0, j as int).to_multiset()),
            small(merged@),
            sorted_by(*comparator, merged@),
            forall|p: int, t: int| 0 <= p < merged@.len() && i <= t < nl ==> !before(*comparator, #[trigger] ls[t] as i32, #[trigger] merged@[p] as i32),
            forall|p: int, t: int| 0 <= p < merged@.len() && j <= t < nr ==> !before(*comparator, #[trigger] rs[t] as i32, #[trigger] merged@[p] as i32),
        decreases nl + nr - (i + j),
    {
        let l = left[i];
        let r = right[j];
        let answer = comparator(l, r);
        comparisons = comparisons.saturating_add(1);
        let ghost prev = merged@;
        if answer < 0 {
            proof {
                assert(before(*comparator, l, r));
                if i == nl {
                    assert(j < nr);
                    assert(r == rs[j as int] as i32);
                    assert(r >= 0);
                    assert(!before(*comparator, -1i32, r));
                }
            }
            merged.push(l as u32);
            proof {
                assert(l == ls[i as int] as i32);
                assert(l as u32 == ls[i as int]);
                assert(ls.subrange(0, i + 1) =~= ls.subrange(0, i as int).push(ls[i as int]));
                assert forall|p: int, q: int| 0 <= p < q < merged@.len() implies !before(*comparator, #[trigger] merged@[q] as i32, #[trigger] merged@[p] as i32) by {
                    if q == prev.len() {
                        assert(merged@[p] == prev[p]);
                    }
                }
                assert forall|p: int, t: int| 0 <= p < merged@.len() && i + 1 <= t < nl implies !before(*comparator, #[trigger] ls[t] as i32, #[trigger] merged@[p] as i32) by {
                    if p == prev.len() {
                        assert(!before(*comparator, ls[t] as i32, ls[i as int] as i32));
                    } else {
                        assert(merged@[p] == prev[p]);
                    }
                }
                assert forall|p: int, t: int| 0 <= p < merged@.len() && j <= t < nr implies !before(*comparator, #[trigger] rs[t] as i32, #[trigger] merged@[p] as i32) by {
                    if p == prev.len() {
                        assert(!before(*comparator, r, l));
                        if t > j {
                            assert(!before(*comparator, rs[t] as i32, rs[j as int] as i32));
                        }
                    } else {
                        assert(merged@[p] == prev[p]);
                    }
                }
            }
            i = i + 1;
        } else {
            proof {
                assert(!before(*comparator, l, r));
                if j == nr {
                    assert(i < nl);
                    assert(l == ls[i as int] as i32);
                    assert(before(*comparator, l, -1i32));
                }
            }
            merged.push(r as u32);
            swaps = swaps.saturating_add(1);
            proof {
                assert(r == rs[j as int] as i32);
                assert(r as u32 == rs[j as int]);
                assert(rs.subrange(0, j + 1) =~= rs.subrange(0, j as int).push(rs[j as int]));
                assert forall|p: int, q: int| 0 <= p < q < merged@.len() implies !before(*comparator, #[trigger] merged@[q] as i32, #[trigger] merged@[p] as i32) by {
                    if q == prev.len() {
                        assert(merged@[p] == prev[p]);
                    }
                }
                assert forall|p: int, t: int| 0 <= p < merged@.len() && i <= t < nl implies !before(*comparator, #[trigger] ls[t] as i32, #[trigger] merged@[p] as i32) by {
                    if p == prev.len() {
                        if t > i {
                            assert(!before(*comparator, ls[t] as i32, ls[i as int] as i32));
                        }
                    } else {
                        assert(merged@[p] == prev[p]);
                    }
                }
                assert forall|p: int, t: int| 0 <= p < merged@.len() && j + 1 <= t < nr implies !before(*comparator, #[trigger] rs[t] as i32, #[trigger] merged@[p] as i32) by {
                    if p == prev.len() {
                        assert(!before(*comparator, rs[t] as i32, rs[j as int] as i32));
                    } else {
                        assert(merged@[p] == prev[p]);
                    }
                }
            }
            j = j + 1;
        }
    }
    proof {
        assert(ls.subrange(0, nl as int) =~= ls);
        assert(rs.subrange(0, nr as int) =~= rs);
        assert(old(data)@.subrange(start as int, end + 1) =~= ls + rs);
    }
    let mut t: usize = 0;
    while t < merged.len()
        invariant
            merged@.len() == end - start + 1,
            start <= end < data@.len(),
            data@.len() == old(data)@.len(),
            small(merged@),
            small(old(data)@),
            t <= merged@.len(),
            forall|k: int| 0 <= k < data@.len() && !(start <= k < start + t) ==> data@[k] == old(data)@[k],
            forall|k: int| start <= k < start + t ==> data@[k] == merged@[k - start],
        decreases merged@.len() - t,
    {
        data.set(start + t, merged[t]);
        t = t + 1;
    }
    proof {
        assert(data@.subrange(start as int, end + 1) =~= merged@);
        assert forall|k: int| 0 <= k < data@.len() implies #[trigger] data@[k] <= i32::MAX by {
            if start <= k <= end {
                assert(data@[k] == merged@[k - start]);
            }
        }
    }
    (comparisons, swaps)
}

} // verus!
