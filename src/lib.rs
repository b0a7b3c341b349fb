pub mod disjoint_set;
pub mod model;
pub mod simulator;
