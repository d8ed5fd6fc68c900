//! Minimisation of Boolean expressions.
//!
//! A textual expression over named variables with `!`, `&` and `|` is parsed
//! into a tree, evaluated over every assignment of its variables, and reduced
//! to its minimal sums of products.
//!
//! - [`lexer`], [`parser`] and [`grammar`]: from text to tree, and the proof
//!   that the parser accepts the grammar and nothing else;
//! - [`ast`] and [`eval`]: the tree, its value under an assignment and its
//!   variables;
//! - [`names`]: the order of variable names;
//! - [`logic`]: the truth table, and its minimal forms as text;
//! - [`formula`]: the formulas of the minimiser;
//! - [`implicants`]: minimal forms of a table of all 32 columns;
//! - [`roundtrip`]: the text of a minimal form, read back.

pub mod ast;
pub mod eval;
pub mod formula;
pub mod grammar;
pub mod implicants;
pub mod lexer;
pub mod logic;
pub mod names;
pub mod parser;
pub mod roundtrip;
