//! Insertion sort.
use crate::sorting::{is_ordering, le_by, sorted_by};
use vstd::prelude::*;

verus! {

broadcast use vstd::seq_lib::group_to_multiset_ensures;

/// Longest input whose comparison count, at most `n (n - 1) / 2`, fits
/// the `u32` counters.
pub const MAX_LEN: usize = 92682;

/// Where `x` goes among the first `j` elements of `o`, scanning from the
/// end: right after the last one the comparator puts no later than `x`, or
/// at the front when there is none.
pub open spec fn place<F: Fn(u32, u32) -> i32>(comparator: F, o: Seq<u32>, x: u32, j: int) -> int
    decreases j,
{
    if j <= 0 {
        0
    } else if le_by(comparator, o[j - 1], x) {
        j
    } else {
        place(comparator, o, x, j - 1)
    }
}

/// Insertion sort of `s` as the algorithm runs it: the ordered items, the
/// number of comparator calls, and the number of moves past an element.
/// Inserting into `m` ordered items at `p` takes `m - p + 1` calls and
/// `m - p` moves, or `m` calls and `m - 1` moves at the front.
pub open spec fn insertion_run<F: Fn(u32, u32) -> i32>(comparator: F, s: Seq<u32>) -> (Seq<u32>, nat, nat)
    decreases s.len(),
{
    if s.len() <= 1 {
        (s, 0, 0)
    } else {
        let prev = insertion_run(comparator, s.drop_last());
        let o = prev.0;
        let x = s.last();
        let m = o.len() as int;
        let p = place(comparator, o, x, m);
        let calls = if p >= 1 {
            m - p + 1
        } else {
            m
        };
        let moves = if p >= 1 {
            m - p
        } else {
            m - 1
        };
        (o.insert(p, x), prev.1 + calls as nat, prev.2 + moves as nat)
    }
}

proof fn lemma_run_len<F: Fn(u32, u32) -> i32>(comparator: F, s: Seq<u32>)
    ensures
        insertion_run(comparator, s).0.len() == s.len(),
    decreases s.len(),
{
    if s.len() > 1 {
        lemma_run_len(comparator, s.drop_last());
        let o = insertion_run(comparator, s.drop_last()).0;
        lemma_place_range(comparator, o, s.last(), o.len() as int);
    }
}

proof fn lemma_place_range<F: Fn(u32, u32) -> i32>(comparator: F, o: Seq<u32>, x: u32, j: int)
    ensures
        j >= 0 ==> 0 <= place(comparator, o, x, j) <= j,
    decreases j,
{
    if j > 0 {
        lemma_place_range(comparator, o, x, j - 1);
    }
}

/// Sorts `data` by insertion into an ordered copy, scanning it from the
/// end: an item goes right after the last element that the comparator puts
/// no later than it. Returns the ordered copy, the number of comparisons and
/// the number of moves past an element.
pub fn sort<F: Fn(u32, u32) -> i32>(data: &[u32], comparator: F) -> (r: (Vec<u32>, u32, u32))
    requires
        1 <= data@.len() <= MAX_LEN,
        is_ordering(comparator),
    ensures
        r.0@ == insertion_run(comparator, data@).0,
        r.1 == insertion_run(comparator, data@).1,
        r.2 == insertion_run(comparator, data@).2,
        r.0@.to_multiset() == data@.to_multiset(),
        sorted_by(comparator, r.0@),
        r.2 <= r.1,
        r.1 <= data@.len() * (data@.len() - 1) / 2,
{
    let mut comparisons: u32 = 0;
    let mut swaps: u32 = 0;
    let mut ordered: Vec<u32> = Vec::new();
    ordered.push(data[0]);
    proof {
        assert(data@.subrange(0, 1) =~= seq![data@[0]]);
        assert(seq![data@[0]] =~= Seq::<u32>::empty().push(data@[0]));
    }
    let mut i: usize = 1;
    while i < data.len()
        invariant
            1 <= i <= data@.len(),
            data@.len() <= MAX_LEN,
            is_ordering(comparator),
            ordered@.len() == i,
            ordered@ == insertion_run(comparator, data@.subrange(0, i as int)).0,
            comparisons as nat == insertion_run(comparator, data@.subrange(0, i as int)).1,
            swaps as nat == insertion_run(comparator, data@.subrange(0, i as int)).2,
            ordered@.to_multiset() == data@.subrange(0, i as int).to_multiset(),
            sorted_by(comparator, ordered@),
            swaps <= comparisons,
            comparisons <= i * (i - 1) / 2,
        decreases data@.len() - i,
    {
        let item = data[i];
        let ghost before = ordered@;
        let ghost start_count = comparisons;
        let ghost start_swaps = swaps;
        let ghost m = before.len() as int;
        proof {
            lemma_place_range(comparator, before, item, m);
        }
        let mut index: usize = ordered.len();
        loop
            invariant_except_break
                1 <= index <= ordered@.len(),
                ordered@ == before,
                comparisons == start_count + (before.len() - index),
                swaps == start_swaps + (before.len() - index),
                place(comparator, before, item, m) == place(comparator, before, item, index as int),
            invariant
                before.len() == i,
                m == i,
                i < MAX_LEN,
                is_ordering(comparator),
                sorted_by(comparator, before),
                forall|k: int| index <= k < before.len() ==> !le_by(comparator, #[trigger] before[k], item),
                start_swaps <= start_count,
                start_count <= (i * (i - 1) / 2) as int,
            ensures
                ordered@ == before.insert(place(comparator, before, item, m), item),
                comparisons == start_count + if place(comparator, before, item, m) >= 1 {
                    m - place(comparator, before, item, m) + 1
                } else {
                    m
                },
                swaps == start_swaps + if place(comparator, before, item, m) >= 1 {
                    m - place(comparator, before, item, m)
                } else {
                    m - 1
                },
                ordered@.len() == before.len() + 1,
                ordered@.to_multiset() == before.to_multiset().insert(item),
                sorted_by(comparator, ordered@),
                swaps <= comparisons,
                comparisons <= start_count + before.len(),
            decreases index,
        {
            let compared = ordered[index - 1];
            let answer = comparator(compared, item);
            proof {
                assert((i * (i - 1) / 2) + i <= MAX_LEN * (MAX_LEN - 1) / 2) by (nonlinear_arith)
                    requires
                        i < MAX_LEN,
                ;
            }
            comparisons = comparisons + 1;
            if answer <= 0 {
                proof {
                    assert(le_by(comparator, compared, item));
                    assert(place(comparator, before, item, index as int) == index);
                }
                ordered.insert(index, item);
                proof {
                    lemma_insert_sorted(comparator, before, item, index as int);
                }
                break;
            } else if index == 1 {
                proof {
                    assert(!le_by(comparator, compared, item));
                    assert(place(comparator, before, item, 1) == place(comparator, before, item, 0));
                }
                ordered.insert(0, item);
                proof {
                    lemma_insert_sorted(comparator, before, item, 0);
                }
                break;
            } else {
                proof {
                    assert(!le_by(comparator, compared, item));
                }
                swaps = swaps + 1;
                index = index - 1;
            }
        }
        proof {
            let next = data@.subrange(0, i + 1);
            assert(next.drop_last() =~= data@.subrange(0, i as int));
            assert(next.last() == item);
            assert(next =~= data@.subrange(0, i as int).push(item));
            lemma_place_range(comparator, before, item, m);
            let pos = place(comparator, before, item, m);
            let prev = insertion_run(comparator, data@.subrange(0, i as int));
            assert(insertion_run(comparator, next.drop_last()) == prev);
            let calls = if pos >= 1 {
                m - pos + 1
            } else {
                m
            };
            let moves = if pos >= 1 {
                m - pos
            } else {
                m - 1
            };
            assert(insertion_run(comparator, next) == (before.insert(pos, item), prev.1 + calls as nat, prev.2 + moves as nat));
            assert(comparisons <= (i + 1) * i / 2) by (nonlinear_arith)
                requires
                    comparisons <= i * (i - 1) / 2 + i,
                    i >= 1,
            ;
        }
        i = i + 1;
    }
    proof {
        assert(data@.subrange(0, data@.len() as int) =~= data@);
    }
    (ordered, comparisons, swaps)
}

/// Inserting `x` at `p` into the sorted `s`, where every element before
/// `p` goes no later than `x` and none after does, keeps it sorted and adds
/// `x` to its elements.
proof fn lemma_insert_sorted<F: Fn(u32, u32) -> i32>(comparator: F, s: Seq<u32>, x: u32, p: int)
    requires
        is_ordering(comparator),
        0 <= p <= s.len(),
        sorted_by(comparator, s),
        p > 0 ==> le_by(comparator, s[p - 1], x),
        forall|k: int| p <= k < s.len() ==> !le_by(comparator, #[trigger] s[k], x),
    ensures
        sorted_by(comparator, s.insert(p, x)),
        s.insert(p, x).to_multiset() == s.to_multiset().insert(x),
{
    let t = s.insert(p, x);
    assert(t.remove(p) =~= s);
    assert(t[p] == x);
    assert(t.to_multiset().count(x) > 0);
    assert(s.to_multiset() =~= t.to_multiset().remove(x));
    assert(t.to_multiset() =~= s.to_multiset().insert(x));
    assert forall|i: int, j: int| 0 <= i < j < t.len() implies le_by(comparator, #[trigger] t[i], #[trigger] t[j]) by {
        if j == p {
            if i < p - 1 {
                assert(le_by(comparator, s[i], s[p - 1]));
            }
        } else if i == p {
            assert(!le_by(comparator, s[j - 1], x));
            assert(le_by(comparator, x, s[j - 1]));
        } else {
            let si = if i < p { i } else { i - 1 };
            let sj = if j < p { j } else { j - 1 };
            assert(t[i] == s[si] && t[j] == s[sj]);
        }
    }
}

} // verus!
