//! Discovery of densely connected protein complexes in an interaction
//! network: a union-find structure, an indexed undirected graph with
//! traversal queries, k-core peeling, and seed-growth complex assignment.

pub mod disjoint;
pub mod assign;
pub mod bfs;
pub mod graph;
pub mod induced;
pub mod kcore;
pub mod reach;
