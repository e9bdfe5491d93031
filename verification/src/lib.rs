//! A verified engine for binary-sudoku ("Takuzu") puzzles on an N x N grid
//! (N even): generation of a rule-consistent filled grid, detection and
//! location of rule violations, minimization of the given-set under a
//! heuristic solvability oracle, and hint proposal.
//!
//! The solvability oracle is a fixpoint of three polynomial deduction rules,
//! not a complete solver: boards that need look-ahead are classified as
//! unsolvable. This is deliberate and documented behaviour.

pub mod board;
pub mod cell;
pub mod generate;
pub mod hint;
pub mod mode;
pub mod model;
pub mod purge;
pub mod rng;
pub mod rules;
pub mod rules_model;
pub mod scanner;
pub mod soften;
