//! A normalizer for untyped lambda calculus with de Bruijn indices.
//!
//! Terms are parsed from text, searched for beta-redexes, reduced one
//! step at a time at a chosen position, and rendered back to text.

pub mod laws;
pub mod parser;
pub mod printer;
pub mod reduce;
pub mod term;

pub use term::Expr;
pub use term::Term;
