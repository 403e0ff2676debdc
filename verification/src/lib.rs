//! Exhaustive certificate search for local edge swaps on ring graphs.
//!
//! Given the base cycle graph on `n` nodes and a partially fixed candidate
//! re-wiring, the search enumerates the remaining free assignments and asks,
//! for each full assignment, whether some local edge swap turns the perturbed
//! ring back into a single Hamiltonian cycle.  It reports the first
//! assignment for which no repairing swap exists, or that every assignment
//! admits one.

pub mod graph;
pub mod ring;
pub mod candidates;
pub mod perturb;
pub mod search;
pub mod laws;

pub use crate::graph::{graph_from_edges, is_hamiltonian_cycle, is_two_regular, UGraph};
pub use crate::ring::build_ring;
pub use crate::candidates::{candidates, prefix_candidate_sets};
pub use crate::perturb::{apply_perturbation, candidate_repairable};
pub use crate::search::{edge_swap_search, find_edge_swap, ConfigError};
