//! Simulation core of a many-snake world on a toroidal grid, with the ring
//! queue that carries player inputs to it.
//!
//! Every function states its behaviour in `requires` / `ensures` clauses
//! that Verus proves.

pub mod game;
pub mod ipc;
