//! Solver library for "guess the hidden code" deduction games in which
//! yes/no tests must be grouped into fixed-size rounds, every test of a
//! round being performed against one committed input code.
//!
//! The heart of the library is [`construct_tree::optimal_tree`], which
//! builds a decision tree of minimal worst-case depth over a batch of
//! candidate solutions while guaranteeing that each round of tests can be
//! performed with a single consistent code.

pub mod catalogue;
pub mod construct_tree;
pub mod laws;
pub mod rules;
