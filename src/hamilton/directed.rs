//! Hamiltonian cycles of a directed graph held as a successors list.
use crate::graph::SuccessorsList;
use crate::search::{
    all_cycles_over, enumerates_all, first_cycle, first_cycle_over, is_hamiltonian_cycle,
    opt_view, Adjacency,
};
use vstd::prelude::*;

verus! {

/// Fewest vertices a directed graph needs for the search to run.
pub const MIN_VERTICES: usize = 3;

/// `r` is what `hamilton_cycle` gives on `graph`: nothing below the minimum
/// size, else the cycle of the first start in `1..=n` whose search
/// succeeds.
pub open spec fn finds(graph: SuccessorsList, r: Option<Seq<usize>>) -> bool {
    if graph.vertex_set().len() < MIN_VERTICES {
        r is None
    } else {
        r == first_cycle(&graph, 1, graph.vertex_set().len() as int)
    }
}

/// Finds a Hamiltonian cycle of `graph`, trying the start vertices
/// `1..=n` in turn; `None` when the graph is below the minimum size or the
/// search from every start fails.
pub fn hamilton_cycle(graph: SuccessorsList) -> (r: Option<Vec<usize>>)
    ensures
        finds(graph, opt_view(r)),
        graph.vertex_set().len() < MIN_VERTICES ==> r is None,
        r matches Some(c) ==> is_hamiltonian_cycle(&graph, c@),
{
    let size = graph.vertex_count();
    if size < MIN_VERTICES {
        return None;
    }
    first_cycle_over(&graph, size)
}

/// Finds the Hamiltonian cycles of `graph` that the repeated searches from
/// each start in `1..=n` reach, with no cycle twice.
pub fn all_hamilton_cycles(graph: SuccessorsList) -> (r: Vec<Vec<usize>>)
    ensures
        graph.vertex_set().len() < MIN_VERTICES ==> r.len() == 0,
        graph.vertex_set().len() >= MIN_VERTICES ==> enumerates_all(
            &graph,
            graph.vertex_set().len() as int,
            r.deep_view(),
        ),
        r.deep_view().no_duplicates(),
        forall|i: int| 0 <= i < r.len() ==> is_hamiltonian_cycle(&graph, #[trigger] r.deep_view()[i]),
{
    let size = graph.vertex_count();
    if size < MIN_VERTICES {
        let none: Vec<Vec<usize>> = Vec::new();
        proof {
            assert(none.deep_view() =~= Seq::<Seq<usize>>::empty());
        }
        return none;
    }
    all_cycles_over(&graph, size)
}

/// Two calls of `hamilton_cycle` on one graph give the same answer: both
/// nothing, or both the same Hamiltonian cycle.
pub proof fn lemma_replay(graph: SuccessorsList, r1: Option<Seq<usize>>, r2: Option<Seq<usize>>)
    requires
        finds(graph, r1),
        finds(graph, r2),
    ensures
        r1 == r2,
        (r1 is None && r2 is None) || (r1 is Some && r2 is Some),
{
}

} // verus!
