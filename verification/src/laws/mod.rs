//! What the engine is for, said of its inputs and results alone.
//!
//! The other modules say what each function does by spec functions that follow
//! the structure of the engine. Here these are tied to what they stand for: to
//! the integers that values are, to bytes, to characters, and to each other.

pub mod answers;
pub mod budgets;
pub mod catalog;
pub mod estimates;
pub mod failures;
pub mod guesses;
pub mod join_orders;
pub mod keys;
pub mod numbers;
pub mod plans;
pub mod predicates;
pub mod protocol;
pub mod rewriting;
pub mod storage;
pub mod values;
