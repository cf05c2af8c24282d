//! Solvers for three small combinatorial puzzles, with proofs of what they
//! compute.
//!
//! The main part solves systems of equations between exclusive-or
//! combinations of boolean variables: [`expr`] holds the terms, [`equation`]
//! the operations on a single equation, [`extract`] the elimination pass,
//! [`solver`] the exhaustive search over what the pass leaves, [`scripts`]
//! the way from an input to an answer, and [`laws`] what holds of the pass
//! and the search taken together.
//!
//! [`cabling`] decides whether cables between devices on the walls of a room
//! can be laid without a crossing, and [`dividers`] finds the largest
//! number that the divisors of a list of numbers allow. [`text`] reads
//! fields and numbers from lines of input.

pub mod cabling;
pub mod dividers;
pub mod equation;
pub mod expr;
pub mod extract;
pub mod laws;
pub mod scripts;
pub mod solver;
pub mod text;
