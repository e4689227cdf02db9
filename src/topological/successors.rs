//! Topological ordering of a successors list.
use crate::digraph::successors::List;
use crate::topological::depth_first::{depth_first, dfs_ends};
use crate::topological::{is_topological, remove_sources, ArcSet};
use vstd::prelude::*;

verus! {

/// Orders the vertices of `list` topologically; empty when it has a cycle.
pub fn sort(list: &List) -> (r: Vec<usize>)
    ensures
        r@.len() > 0 ==> is_topological(list, r@),
        r@.len() == 0 ==> list.vertex_set().len() == 0 || forall|order: Seq<usize>|
            !is_topological(list, order),
{
    remove_sources(list)
}

/// Orders the vertices of `list` topologically by depth-first search from
/// the least unvisited vertex, always going on to the least unvisited
/// target (`dfs_step`); empty when it has a cycle.
pub fn sort_depth_first(list: &List) -> (r: Vec<usize>)
    ensures
        r@.len() > 0 ==> is_topological(list, r@),
        r@.len() == 0 ==> list.vertex_set().len() == 0 || forall|order: Seq<usize>|
            !is_topological(list, order),
        dfs_ends(list, r@),
{
    depth_first(list)
}

} // verus!
