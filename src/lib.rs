//! Enumeration of every string over an ordered alphabet, in odometer order,
//! from a starting value up to and including a terminal value.

pub mod alphabet;
mod error;
mod generator;
pub mod odometer;
mod text;
pub mod bound;
pub mod laws;

pub use alphabet::sorted_alphabet;
pub use error::DictionaryGeneratorError;
pub use generator::DictionaryGenerator;
