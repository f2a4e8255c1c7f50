//! Sorting algorithms that order a slice in place by a comparison function
//! of the caller's, and algorithms for the Fibonacci sequence; each function
//! with a contract that says what it computes.

pub mod numerics;
pub mod order;
pub mod rearrange;
pub mod sort;
pub mod unique;
