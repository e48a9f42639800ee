//! A small n-gram language model: frequency counting, training,
//! cumulative distributions, and weighted random text generation.

pub mod counter;
pub mod dist;
pub mod model;
mod rng;
