//! Personalized reputation scores on a weighted, signed, directed graph,
//! computed by incremental maintenance of Monte-Carlo random walks.

pub mod assoc;
pub mod bloom;
pub mod counter;
pub mod errors;
pub mod graph;
pub mod ops;
pub mod penalty;
pub mod rank;
pub mod registry;
pub mod rng;
pub mod storage;
pub mod tset;
pub mod types;
pub mod walk;
