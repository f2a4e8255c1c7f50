//! Numeric sequences.

pub mod big;
pub mod fibonacci;
