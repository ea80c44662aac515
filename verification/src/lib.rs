//! Capacitated vehicle routing: stops with a demand are assigned to
//! capacity-limited vehicles and sequenced into routes over a table of
//! pairwise distances.
//!
//! Distances are whole numbers of a fixed unit (for instance metres), so
//! that every sum in the library is exact.

pub mod domain;
pub mod errors;
pub mod local_search;
pub mod random;
pub mod services;
pub mod solvers;
pub mod stop_swapper;
pub mod sums;
