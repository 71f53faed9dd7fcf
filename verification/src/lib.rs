//! Hindley-Milner type inference for a small lambda calculus with literals
//! and `let`-polymorphism: the term and type model, the substitution algebra,
//! syntactic unification with an occurs check, generalization and
//! instantiation, and the Algorithm W driver, together with a lexer and a
//! recursive-descent parser for the surface syntax.

pub mod alg_w;
pub mod lex;
pub mod models;
pub mod parser;
pub mod utils;
