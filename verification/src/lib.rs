//! Discrete-time contagion spread over a small fixed graph.
//!
//! The crate holds a graph store (a fixed symmetric adjacency relation over
//! `0 .. n`) and a propagation engine that owns the infected set, a generation
//! counter, and an elapsed-time accumulator gating how often the infection
//! rule fires.

pub mod engine;
pub mod errors;
pub mod graph;
