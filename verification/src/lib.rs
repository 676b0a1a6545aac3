//! Exact travelling-salesman solving over small undirected, edge-weighted
//! graphs: a validated adjacency-list graph model and a depth-first
//! branch-and-bound search for the minimum-weight Hamiltonian cycle.

pub mod graph_defs;
pub mod search;
