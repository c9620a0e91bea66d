//! A first-order Markov chain over string labels: a table from each state to
//! its weighted successors, with upsert, increment and weighted sampling.

pub mod edges;
pub mod laws;
pub mod markov;
mod weighted;

pub use markov::{ChainError, MarkovChain};
