//! Structure and scheduling core of a flexible numeric graph engine.
//!
//! A flexible network is an append-only arena of nodes wired by weighted
//! edges that need not form clean layers and may contain cycles. This crate
//! holds the graph's structure, the demand-driven relaxation that decides in
//! which order values and partial derivatives move through it, the named
//! layer ranges used for bulk wiring, and the structural part of its
//! persisted form. The numeric payload (weights, biases, values) is carried
//! by the caller, aligned with the slots and ids this crate hands out.

pub mod activation;
pub mod node;
pub mod relax;
pub mod segment;
pub mod network;
pub mod data;
