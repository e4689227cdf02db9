//! The four relations a graph matrix records for each vertex, and how a row
//! of the matrix encodes them.
use vstd::prelude::*;

verus! {

/// A relation of a vertex to the others.
#[derive(Clone, Copy, Debug, PartialEq, Eq, Structural)]
pub enum Relation {
    /// Targets of its arcs.
    Successor,
    /// Sources of arcs into it.
    Predecessor,
    /// Targets of its arcs that also have an arc back.
    TwoWay,
    /// Other vertices with no arc either way.
    Unconnected,
}

/// Number of arcs `a -> b` in `data`.
pub open spec fn count(data: Seq<(usize, usize)>, a: usize, b: usize) -> nat
    decreases data.len(),
{
    if data.len() == 0 {
        0
    } else {
        count(data.drop_last(), a, b) + if data.last() == (a, b) {
            1nat
        } else {
            0nat
        }
    }
}

/// How often `t` is listed for `row` under the relation.
pub open spec fn multiplicity(rel: Relation, data: Seq<(usize, usize)>, row: usize, t: usize) -> nat {
    match rel {
        Relation::Successor => count(data, row, t),
        Relation::Predecessor => count(data, t, row),
        Relation::TwoWay => if count(data, t, row) > 0 {
            count(data, row, t)
        } else {
            0
        },
        Relation::Unconnected => if t != row && count(data, row, t) == 0 && count(data, t, row) == 0 {
            1
        } else {
            0
        },
    }
}

/// The vertices `1..=t` related to `row`, ascending, each as often as its
/// multiplicity.
pub open spec fn listing(rel: Relation, data: Seq<(usize, usize)>, row: usize, t: nat) -> Seq<usize>
    decreases t,
{
    if t == 0 {
        Seq::empty()
    } else {
        listing(rel, data, row, (t - 1) as nat) + Seq::new(
            multiplicity(rel, data, row, t as usize),
            |i: int| t as usize,
        )
    }
}

/// Column that holds the first related vertex, in a matrix of `s - 1`
/// vertices.
pub open spec fn head_column(rel: Relation, s: nat) -> nat {
    match rel {
        Relation::Successor => s,
        Relation::Predecessor => s + 1,
        Relation::TwoWay => s + 2,
        Relation::Unconnected => s + 3,
    }
}

/// How an entry names the next related vertex `next`.
pub open spec fn code(rel: Relation, s: nat, next: nat) -> int {
    match rel {
        Relation::Successor => next as int,
        Relation::Predecessor => (s + next) as int,
        Relation::TwoWay => (2 * s + next) as int,
        Relation::Unconnected => -(next as int),
    }
}

/// `row` after writing, for each of the first `k` listed vertices in turn,
/// the code of the vertex listed after it (of itself, for the last one).
pub open spec fn walked(row: Seq<isize>, list: Seq<usize>, rel: Relation, s: nat, k: nat) -> Seq<isize>
    decreases k,
{
    if k == 0 || k > list.len() {
        row
    } else {
        let prev = walked(row, list, rel, s, (k - 1) as nat);
        let cur = list[k - 1];
        let next = if k < list.len() {
            list[k as int]
        } else {
            cur
        };
        prev.update(cur as int, code(rel, s, next as nat) as isize)
    }
}

/// `row` with one relation recorded: the first related vertex (or zero) in
/// its head column, then the walk over the list.
pub open spec fn recorded(row: Seq<isize>, rel: Relation, data: Seq<(usize, usize)>, r: usize, n: nat) -> Seq<isize> {
    let list = listing(rel, data, r, n);
    let head = if list.len() > 0 {
        list[0] as isize
    } else {
        0isize
    };
    walked(row.update(head_column(rel, n + 1) as int, head), list, rel, n + 1, list.len())
}

/// Row `r` of the graph matrix of `data` with vertices `1..=n`.
pub open spec fn graph_row(data: Seq<(usize, usize)>, n: nat, r: usize) -> Seq<isize> {
    let zero = Seq::new(n + 5, |j: int| 0isize);
    let a = recorded(zero, Relation::Successor, data, r, n);
    let b = recorded(a, Relation::Predecessor, data, r, n);
    let c = recorded(b, Relation::TwoWay, data, r, n);
    recorded(c, Relation::Unconnected, data, r, n)
}

/// Number of arcs `a -> b`.
fn count_arcs(data: &[(usize, usize)], a: usize, b: usize) -> (r: usize)
    ensures
        r == count(data@, a, b),
{
    let mut r: usize = 0;
    let mut i: usize = 0;
    while i < data.len()
        invariant
            i <= data@.len(),
            r == count(data@.subrange(0, i as int), a, b),
            r <= i,
        decreases data@.len() - i,
    {
        assert(data@.subrange(0, i + 1).drop_last() =~= data@.subrange(0, i as int));
        if data[i].0 == a && data[i].1 == b {
            r = r + 1;
        }
        i = i + 1;
    }
    assert(data@.subrange(0, data@.len() as int) =~= data@);
    r
}

/// How often `t` is listed for `row`.
fn multiplicity_of(rel: Relation, data: &[(usize, usize)], row: usize, t: usize) -> (r: usize)
    ensures
        r == multiplicity(rel, data@, row, t),
{
    match rel {
        Relation::Successor => count_arcs(data, row, t),
        Relation::Predecessor => count_arcs(data, t, row),
        Relation::TwoWay => if count_arcs(data, t, row) > 0 {
            count_arcs(data, row, t)
        } else {
            0
        },
        Relation::Unconnected => if t != row && count_arcs(data, row, t) == 0 && count_arcs(
            data,
            t,
            row,
        ) == 0 {
            1
        } else {
            0
        },
    }
}

/// The vertices `1..=n` related to `row`, ascending.
fn list_related(rel: Relation, data: &[(usize, usize)], row: usize, n: usize) -> (r: Vec<usize>)
    requires
        n < usize::MAX,
    ensures
        r@ == listing(rel, data@, row, n as nat),
{
    let mut list: Vec<usize> = Vec::new();
    let mut t: usize = 0;
    while t < n
        invariant
            t <= n,
            n < usize::MAX,
            list@ == listing(rel, data@, row, t as nat),
        decreases n - t,
    {
        t = t + 1;
        let m = multiplicity_of(rel, data, row, t);
        let ghost before = list@;
        let mut k: usize = 0;
        while k < m
            invariant
                k <= m,
                list@ == before + Seq::new(k as nat, |i: int| t as usize),
            decreases m - k,
        {
            list.push(t);
            k = k + 1;
            assert(list@ =~= before + Seq::new(k as nat, |i: int| t as usize));
        }
    }
    list
}

/// Records one relation of `r` in its row.
pub fn record(row: &mut Vec<isize>, rel: Relation, data: &[(usize, usize)], r: usize, n: usize)
    requires
        old(row)@.len() == n + 5,
        3 * n + 2 <= isize::MAX,
    ensures
        final(row)@ == recorded(old(row)@, rel, data@, r, n as nat),
        final(row)@.len() == n + 5,
{
    let list = list_related(rel, data, r, n);
    proof {
        lemma_listing_bounded(rel, data@, r, n as nat);
    }
    let s = n + 1;
    let column = match rel {
        Relation::Successor => s,
        Relation::Predecessor => s + 1,
        Relation::TwoWay => s + 2,
        Relation::Unconnected => s + 3,
    };
    let head: isize = if list.len() > 0 {
        list[0] as isize
    } else {
        0
    };
    row.set(column, head);
    let ghost start = row@;
    let mut k: usize = 0;
    while k < list.len()
        invariant
            k <= list@.len(),
            s == n + 1,
            3 * n + 2 <= isize::MAX,
            row@.len() == n + 5,
            forall|i: int| 0 <= i < list@.len() ==> 1 <= #[trigger] list@[i] <= n,
            row@ == walked(start, list@, rel, s as nat, k as nat),
        decreases list@.len() - k,
    {
        let cur = list[k];
        let next = if k + 1 < list.len() {
            list[k + 1]
        } else {
            cur
        };
        let value: isize = match rel {
            Relation::Successor => next as isize,
            Relation::Predecessor => (s + next) as isize,
            Relation::TwoWay => (2 * s + next) as isize,
            Relation::Unconnected => -(next as isize),
        };
        row.set(cur, value);
        k = k + 1;
    }
}

/// Every listed vertex lies in `1..=n`.
proof fn lemma_listing_bounded(rel: Relation, data: Seq<(usize, usize)>, r: usize, n: nat)
    requires
        n <= usize::MAX,
    ensures
        forall|i: int| 0 <= i < listing(rel, data, r, n).len() ==> 1 <= #[trigger] listing(rel, data, r, n)[i] <= n,
    decreases n,
{
    if n > 0 {
        lemma_listing_bounded(rel, data, r, (n - 1) as nat);
        let prev = listing(rel, data, r, (n - 1) as nat);
        let tail = Seq::new(multiplicity(rel, data, r, n as usize), |i: int| n as usize);
        assert(listing(rel, data, r, n) == prev + tail);
        assert forall|i: int| 0 <= i < listing(rel, data, r, n).len() implies 1 <= #[trigger] listing(
            rel,
            data,
            r,
            n,
        )[i] <= n by {
            if i < prev.len() {
                assert(listing(rel, data, r, n)[i] == prev[i]);
            } else {
                assert(listing(rel, data, r, n)[i] == tail[i - prev.len()]);
            }
        }
    }
}

} // verus!
