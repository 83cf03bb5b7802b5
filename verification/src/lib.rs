//! A grader for programs that solve systems of linear equations over the
//! integers.
//!
//! `slae` holds the matrices, the answers and the generator of fixtures
//! whose answer is known from the way they were built. `base` holds the
//! tree of fixtures, the walk over it and the decisions made while a
//! program under test is driven.
pub mod base;
pub mod slae;
