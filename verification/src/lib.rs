pub mod board;
pub mod solver;
pub mod tree;
