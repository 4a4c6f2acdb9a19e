//! Gossip spread over an undirected graph: a bounded breadth-first diffusion
//! from one seed node, and a ranking of randomly sampled seeds by their reach.
//!
//! `graph` holds the adjacency structure, `edge_list` reads it from text,
//! `simulate` runs the diffusion and `analyze` ranks seeds.

pub mod analyze;
pub mod edge_list;
pub mod graph;
mod sampling;
pub mod simulate;
