pub mod formula;
pub mod solver;
