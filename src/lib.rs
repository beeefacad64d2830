//! Local search and metaheuristics for the symmetric travelling salesman
//! problem, on integer distance matrices.

pub mod local_search;
pub mod matrix;
pub mod random;
pub mod rng;
pub mod simulated_annealing;
pub mod tabu_search;
pub mod utils;
