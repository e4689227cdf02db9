//! Topological ordering of a signed adjacency matrix.
use crate::digraph::adjacency::Matrix;
use crate::topological::depth_first::{depth_first, dfs_ends};
use crate::topological::{is_topological, remove_sources, ArcSet};
use vstd::prelude::*;

verus! {

/// Orders the vertices `1..n` of `matrix` topologically; empty when it has
/// a cycle.
pub fn sort(matrix: &Matrix) -> (r: Vec<usize>)
    ensures
        r@.len() > 0 ==> is_topological(matrix, r@),
        r@.len() == 0 ==> matrix.vertex_set().len() == 0 || forall|order: Seq<usize>|
            !is_topological(matrix, order),
{
    remove_sources(matrix)
}

/// Orders the vertices of `matrix` topologically by depth-first search from
/// the least unvisited vertex, always going on to the least unvisited
/// target (`dfs_step`); empty when it has a cycle.
pub fn sort_depth_first(matrix: &Matrix) -> (r: Vec<usize>)
    ensures
        r@.len() > 0 ==> is_topological(matrix, r@),
        r@.len() == 0 ==> matrix.vertex_set().len() == 0 || forall|order: Seq<usize>|
            !is_topological(matrix, order),
        dfs_ends(matrix, r@),
{
    depth_first(matrix)
}

} // verus!
