//! Front end for the declarations of a Pascal subset: a scanner that turns
//! source text into tokens by longest match, and a parser that builds the
//! syntax tree of constants, constant definitions and (possibly packed,
//! nested, variant) type definitions.
//!
//! Every token is stated against the source it was read from (`lexer`), and
//! every tree the parser returns prints back to exactly the tokens it read
//! (`ast`, `parser`).
pub mod tokens;
pub mod lexer;
pub mod ast;
pub mod parser;
