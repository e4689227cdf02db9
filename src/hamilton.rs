//! Entry points of the Hamiltonian cycle search: one cycle or all of them,
//! on a directed or an undirected graph.

pub mod directed;
pub mod undirected;
