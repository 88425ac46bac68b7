//! A verified simulation of many independent "typists" that generate long
//! character streams under different letter-selection strategies, scan each
//! stream for dictionary words, and rank both words and typists by how often
//! words were found.

pub mod counts;
pub mod dictionary;
pub mod ngram;
pub mod order;
pub mod rng;
pub mod schedule;
pub mod sampler;
pub mod typist;

pub use sampler::TypingStrategy;
