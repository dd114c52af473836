pub mod index_min_pq;
pub mod insertion;
pub mod merge;
pub mod selection;
