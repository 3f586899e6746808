//! Enumeration of the elementary cycles of a directed graph.
//!
//! The cycles are found by Johnson's algorithm: the graph is split into its
//! strongly connected components, and each component is searched from every
//! one of its vertices in turn, with blocked marks that keep the search out
//! of dead ends.
//!
//! Donald B. Johnson, Finding all the elementary circuits of a directed
//! graph, SIAM Journal on Computing, 1975.

mod blocking;
pub mod components;
mod coverage;
pub mod cycles;
mod finder;
pub mod graph;
pub mod laws;
pub mod local;
pub mod order;
mod record;
mod visitor;
mod waiting;

pub use cycles::Cycles;
pub use graph::DiGraph;
