//! Greatest-common-divisor library.
//!
//! The crate has three parts: `divisibility` defines what it means for one
//! natural number to divide another and proves the basic algebra of that
//! relation; `engine` implements the pairwise Euclidean algorithm and its
//! left-to-right fold over a list, proved against a recursive specification;
//! `parse` turns the decimal text of a command-line argument into a `u64`,
//! with every success and every error pinned down exactly.

pub mod divisibility;
pub mod engine;
pub mod parse;
