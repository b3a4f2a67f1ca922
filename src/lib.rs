//! A genetic planner: a steady-state genetic algorithm over fixed-length gene
//! sequences, and a planning layer that scores a sequence of actions by running
//! it from a problem's initial state.
pub mod genetic;
pub mod genetic_planner;
mod rng;
