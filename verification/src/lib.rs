//! An interpreter for a small array language: one-dimensional integer arrays,
//! operator glyphs applied right to left, and scalar extension of operands.
//!
//! Source text goes through three stages.  [`scanner`] cuts it into grapheme
//! clusters and reads tokens from them, [`parser`] builds an expression tree
//! from the tokens, and [`interp`] evaluates the tree to an array.  [`number`]
//! reads the text of a literal as a number, and [`text`] writes tokens,
//! numbers and trees out again.
//!
//! Each stage has a mathematical model, a function over sequences, and the
//! executable code is proved to compute exactly what the model says; the laws
//! of the language are proved of the models.

pub mod interp;
pub mod number;
pub mod parser;
pub mod scanner;
pub mod text;
