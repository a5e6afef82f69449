//! Exact-geometry box packing: validated inputs, candidate solutions and
//! deterministic constructive search.
use vstd::prelude::*;

pub mod app;
pub mod cli;
pub mod compatibility;
pub mod geometry;
pub mod objective;
pub mod order;
pub mod validate;
pub mod report;
pub mod solution;
pub mod solver;

verus! {

} // verus!
