//! Exact search for Hamiltonian cycles in small graphs, and the graph
//! algorithms around it.
//!
//! - `graph`: an undirected adjacency matrix and a directed successors list.
//! - `search`, `order`: the backtracking search from one start vertex, its
//!   repeated form that lists every cycle it reaches, and the measure that
//!   bounds it.
//! - `hamilton`: one cycle or all of them, on either kind of graph.
//! - `input`: arc lists read from text.
//! - `digraph`, `topological`: directed graphs in the representations used for
//!   topological ordering, and the orderings by source removal and by
//!   depth-first search.
//! - `sorting`, `knapsack`: comparison sorts and the 0/1 knapsack.

pub mod digraph;
pub mod graph;
pub mod hamilton;
pub mod input;
pub mod knapsack;
pub mod order;
pub mod topological;
pub mod search;
pub mod sorting;
