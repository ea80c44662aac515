pub mod genetic;
pub mod grasp;
pub mod greedy;
pub mod solver;
