pub mod bag;
pub mod binary_search;
pub mod order;
pub mod queue;
pub mod stack;
pub mod uf;
