//! A directed graph as a signed neighbourhood matrix of a given size.
use crate::digraph::{arc_sign, signed_matrix};
use vstd::prelude::*;

verus! {

/// Signed neighbourhood matrix of size `max + 1`: `1` at `(u, v)` for an
/// arc `u -> v`, `-1` for an arc `v -> u` alone, `0` otherwise.
pub struct Matrix {
    matrix: Vec<Vec<i8>>,
}

impl Matrix {
    /// The rows of the matrix.
    pub closed spec fn rows(&self) -> Seq<Seq<i8>> {
        self.matrix.deep_view()
    }

    /// Creates the `max + 1` square matrix of an arc list whose vertex ids
    /// are at most `max`.
    pub fn from(data: &[(usize, usize)], max: usize) -> (r: Self)
        requires
            max < usize::MAX,
            forall|i: int| 0 <= i < data@.len() ==> #[trigger] data@[i].0 <= max && data@[i].1 <= max,
        ensures
            r.rows().len() == max + 1,
            forall|u: int, v: int|
                0 <= u <= max && 0 <= v <= max ==> r.rows()[u].len() == max + 1 && r.rows()[u][v]
                    == arc_sign(data@, u as usize, v as usize),
    {
        let matrix = signed_matrix(data, max + 1);
        let r = Matrix { matrix };
        assert forall|u: int| 0 <= u <= max implies r.rows()[u] =~= matrix@[u]@ by {}
        r
    }

    /// Returns a copy of the matrix.
    pub fn matrix(&self) -> (r: Vec<Vec<i8>>)
        ensures
            r.deep_view() == self.rows(),
    {
        self.matrix.clone()
    }
}

} // verus!
