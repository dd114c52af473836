pub mod fundamentals;
pub mod graph;
pub mod searching;
pub mod sorting;
