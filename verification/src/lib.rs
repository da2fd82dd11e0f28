//! A small front end for a toy scripting language.
//!
//! Source bytes are turned into tokens by a table-driven scanner
//! ([`tokenizer`]), the token sequence is checked against the statement
//! grammar by a pure recursive-descent validator ([`parser`]), and the same
//! grammar is walked once more by the evaluator ([`eval`]), which computes
//! 64-bit integer values, mutates a flat variable environment ([`env`]) and
//! records the values printed by `CONSOLE` statements.
//!
//! The remaining modules ([`binary_tree`], [`list`], [`n_tree`]) are an
//! independent little container library with no connection to the pipeline.

pub mod binary_tree;
pub mod env;
pub mod eval;
pub mod list;
pub mod n_tree;
pub mod parser;
pub mod tokenizer;
