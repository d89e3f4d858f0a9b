//! Symbolic core for untyped lambda-calculus programs: a flat expression
//! arena with parsing, span tracking and cost evaluation, together with a
//! Hindley-Milner style type representation offering two unification
//! strategies (an arena with shift-based instantiation and a classical
//! tree-based substitution context) and a type-inference driver.

pub mod copy_span;
pub mod context;
pub mod cost;
pub mod expr;
pub mod infer;
pub mod parse;
pub mod show;
pub mod simple;
pub mod types;
pub mod typeset;
