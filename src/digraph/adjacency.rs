//! A directed graph as a signed adjacency matrix.
use crate::digraph::{arc_sign, signed_matrix};
use crate::topological::ArcSet;
use vstd::prelude::*;

verus! {

/// Largest vertex id of the arcs, if any.
pub open spec fn max_id(data: Seq<(usize, usize)>, m: usize) -> bool {
    (exists|i: int| 0 <= i < data.len() && (data[i].0 == m || data[i].1 == m)) && forall|i: int|
        0 <= i < data.len() ==> #[trigger] data[i].0 <= m && data[i].1 <= m
}

/// Signed adjacency matrix, indexed by vertex id: `1` at `(u, v)` for an arc
/// `u -> v`, `-1` for an arc `v -> u` alone, `0` otherwise.
pub struct Matrix {
    matrix: Vec<Vec<i8>>,
}

impl Matrix {
    /// The rows of the matrix.
    pub closed spec fn rows(&self) -> Seq<Seq<i8>> {
        self.matrix.deep_view()
    }

    /// Creates the matrix of an arc list; it is `m + 1` square for the
    /// largest vertex id `m`, and empty when there is no arc.
    pub fn from(data: &[(usize, usize)]) -> (r: Self)
        requires
            forall|i: int| 0 <= i < data@.len() ==> #[trigger] data@[i].0 < usize::MAX && data@[i].1
                < usize::MAX,
        ensures
            data@.len() == 0 ==> r.rows().len() == 0,
            data@.len() > 0 ==> max_id(data@, (r.rows().len() - 1) as usize),
            forall|u: int, v: int|
                0 <= u < r.rows().len() && 0 <= v < r.rows().len() ==> r.rows()[u].len() == r.rows().len()
                    && r.rows()[u][v] == arc_sign(data@, u as usize, v as usize),
    {
        if data.len() == 0 {
            let r = Matrix { matrix: Vec::new() };
            assert(r.rows().len() == 0);
            return r;
        }
        let mut max: usize = 0;
        let mut i: usize = 0;
        while i < data.len()
            invariant
                i <= data@.len(),
                data@.len() > 0,
                forall|k: int| 0 <= k < data@.len() ==> #[trigger] data@[k].0 < usize::MAX && data@[k].1
                    < usize::MAX,
                max < usize::MAX,
                forall|k: int| 0 <= k < i ==> #[trigger] data@[k].0 <= max && data@[k].1 <= max,
                i == 0 ==> max == 0,
                i > 0 ==> exists|k: int| 0 <= k < i && (data@[k].0 == max || data@[k].1 == max),
            decreases data.len() - i,
        {
            let (a, b) = data[i];
            if i == 0 || a > max {
                max = a;
            }
            if b > max {
                max = b;
            }
            i = i + 1;
        }
        let matrix = signed_matrix(data, max + 1);
        let r = Matrix { matrix };
        assert(r.rows().len() == max + 1);
        assert forall|u: int| 0 <= u < r.rows().len() implies r.rows()[u] =~= matrix@[u]@ by {}
        r
    }

    /// Returns a copy of the matrix.
    pub fn matrix(&self) -> (r: Vec<Vec<i8>>)
        ensures
            r.deep_view() == self.rows(),
    {
        self.matrix.clone()
    }
}

impl ArcSet for Matrix {
    open spec fn vertex_set(&self) -> Set<usize> {
        Set::new(|v: usize| 1 <= v < self.rows().len())
    }

    open spec fn arc(&self, u: usize, v: usize) -> bool {
        1 <= u < self.rows().len() && 1 <= v < self.rows().len() && v < self.rows()[u as int].len()
            && self.rows()[u as int][v as int] == 1i8
    }

    fn vertex_list(&self) -> (r: Vec<usize>) {
        let mut r: Vec<usize> = Vec::new();
        let mut v: usize = 1;
        while v < self.matrix.len()
            invariant
                1 <= v,
                v <= self.matrix@.len() || v == 1,
                self.rows().len() == self.matrix@.len(),
                r@ == Seq::new((v - 1) as nat, |i: int| (i + 1) as usize),
            decreases self.matrix@.len() - v,
        {
            r.push(v);
            assert(r@ =~= Seq::new(v as nat, |i: int| (i + 1) as usize));
            v = v + 1;
        }
        assert(v == 1 || v == self.matrix@.len());
        assert forall|x: usize| self.vertex_set().contains(x) implies r@.to_set().contains(x) by {
            assert(r@.len() == self.rows().len() - 1);
            assert(r@[x - 1] == x);
            assert(r@.contains(x));
        }
        assert forall|x: usize| r@.to_set().contains(x) implies self.vertex_set().contains(x) by {
            assert(r@.contains(x));
            let i = choose|i: int| 0 <= i < r@.len() && r@[i] == x;
            assert(x == i + 1);
        }
        assert(r@.to_set() =~= self.vertex_set());
        r
    }

    fn has_arc(&self, u: usize, v: usize) -> (r: bool) {
        if u == 0 || v == 0 || u >= self.matrix.len() || v >= self.matrix.len() {
            return false;
        }
        assert(self.rows()[u as int] =~= self.matrix@[u as int]@);
        if v >= self.matrix[u].len() {
            return false;
        }
        self.matrix[u][v] == 1
    }
}

} // verus!
