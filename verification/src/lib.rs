//! A front end and tree-walking evaluator for a small Pascal-like language:
//! programs with typed variable declarations (`INTEGER` and `REAL`), compound
//! statements, assignments and arithmetic expressions.
//!
//! A program text goes through three stages. The lexer ([`lexer`]) hands out
//! tokens ([`token`]); the parser ([`parser`]) builds a syntax tree
//! ([`tree`]) by recursive descent; the evaluator ([`eval`]) declares the
//! variables and executes the statements, and keeps the final bindings. The
//! first error ([`error`]) of any stage ends the run. [`interpret`] holds the
//! whole pipeline.
//!
//! Each stage is verified against a specification: the lexical rules
//! ([`lexis`]), the grammar ([`grammar`]) and the meaning of programs
//! ([`semantics`]). General properties of these are proved in [`shape`],
//! [`roundtrip`] and [`laws`]. [`printing`] turns a tree back into tokens.
//! REAL arithmetic ([`binary64`]) is IEEE 754 binary64, computed in software.

pub mod binary64;
pub mod error;
pub mod eval;
pub mod grammar;
pub mod interpret;
pub mod laws;
pub mod lexer;
pub mod lexis;
pub mod parser;
pub mod printing;
pub mod roundtrip;
pub mod semantics;
pub mod shape;
pub mod text;
pub mod token;
pub mod tree;
pub mod value;
