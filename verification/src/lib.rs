//! Partitioning of a weighted region graph into a fixed number of connected
//! clusters with the smallest possible variance of cluster values.

pub mod admissible;
pub mod bound;
pub mod connect;
pub mod country;
pub mod exhaustive;
pub mod graph;
pub mod greedy;
pub mod parallel;
pub mod parse;
pub mod ratio;
pub mod region;
pub mod relabel;
pub mod search;
pub mod stats;
pub mod sums;
pub mod text;
pub mod validity;
