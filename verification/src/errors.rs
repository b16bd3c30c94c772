use vstd::prelude::*;

verus! {

/// The ways the simulation can refuse its inputs.  Every failure is raised
/// while a graph is constructed or an engine initialized; once a run has
/// started, ticks and snapshots cannot fail.
#[derive(Clone, Copy, Debug, PartialEq, Eq, Structural)]
pub enum SimError {
    /// The edge list names a node outside the graph, or a self-loop.
    ConfigurationError,
    /// An adjacency query named a node outside the graph.
    OutOfRange,
    /// The initial infected set is empty, or names a node outside the graph.
    InvalidSeed,
}

} // verus!
