//! Reduction of the square root of a positive integer to simplest radical
//! form: an integer coefficient times the square root of a remainder that is
//! square-free relative to a bounded table of perfect squares. The sequence
//! of factorization choices is recorded in a binary factor tree that can be
//! addressed by binary paths and rendered level by level.

pub mod calc;
pub mod render;
pub mod tree;
