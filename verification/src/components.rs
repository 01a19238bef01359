//! The parts of a decoded image that the entropy coder feeds.

pub mod transformations;

pub use crate::pixels::ColorSpace;
