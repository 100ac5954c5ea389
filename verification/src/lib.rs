//! Heuristics for the travelling salesman problem: a nearest-neighbour
//! construction and an iterated 2-opt search with 4-opt kicks, over any node
//! type that can tell the cost of the edge to another node.
//!
//! Costs are unsigned integers, so that a tour's length is an exact sum: every
//! move is judged by it, and what the moves and the search keep of a tour is
//! stated in their contracts and proved.
pub mod common;
pub mod cycle;
pub mod exchange;
pub mod kopt;
pub mod metrizable;
pub mod nn;
pub mod solvers;
pub mod square;

pub use common::{Path, Tour};
pub use metrizable::Metrizable;
