//! A dataflow engine for sample-rate signal processing.
//!
//! A control side ([`mesh::Mesh`]) registers typed processors, wires their
//! plugs together after checking that the wired plugs carry the same kind of
//! signal, and keeps a topological order of the node graph. A real-time side
//! ([`engine::Engine`]) receives snapshots of that graph as messages and runs
//! one propagation pass per requested sample.

pub mod signal;
pub mod topology;
pub mod processor;
pub mod nodes;
pub mod engine;
pub mod mesh;
