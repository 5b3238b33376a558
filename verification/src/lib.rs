//! Force-directed 2D layout of the clause–variable graph of a CNF
//! formula: a DIMACS tokenizer, a graph store with symmetric edges, a
//! builder joining clauses to their variables, and a frame-stepped
//! layout engine in exact fixed-point arithmetic — pairwise repulsion,
//! neighbor springs, damping, whole-snapshot integration, recentering
//! and position pins, with deterministic, reproducible trajectories.

pub mod graph;
pub mod physics;
pub mod dimacs;
pub mod instance;
