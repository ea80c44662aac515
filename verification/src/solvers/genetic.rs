pub mod crossover;
pub mod individual;
