//! Grid-based shortest-path search (A*) with a step-wise, observable state.
pub mod frontier;
pub mod grid;
pub mod heuristic;
pub mod search;
