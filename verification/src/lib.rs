//! A minimal query engine: a restricted `SELECT {* | col[, col...]} FROM table`
//! language is compiled through lexical analysis, parsing and logical planning,
//! and executed against a registry of named tabular data sources.
//!
//! Each stage is a function whose contract pins its result down exactly:
//! the lexer and parser against recursive specifications of the token and
//! grammar rules, the planner as a structural lowering, and the executor's
//! projection as a column-wise rearrangement that preserves row count and
//! cell values.

pub mod text;

pub mod lexer;

pub mod parser;

pub mod planner;

pub mod records;

pub mod executor;

pub mod laws;
