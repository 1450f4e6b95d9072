pub mod activations;
pub mod error;
pub mod fixed;
pub mod matrix;
pub mod network;
pub mod rng;
