//! Two-cycle travelling salesman: local search and metaheuristics that split
//! the nodes of a symmetric integer distance matrix into two closed tours of
//! near-equal size with minimal total length.

pub mod cost;
pub mod tsplib;
pub mod parser;
pub mod moves;
pub mod random;
pub mod utils;
pub mod local_search;
pub mod construct;
pub mod labels;
pub mod perturbation;
pub mod metaheuristics;
pub mod experiment;
