//! A small Lisp front end: a lexer, a recursive-descent parser and a
//! tree-walking evaluator over one global environment.
//!
//! Characters flow through [`lexer::Source`] into [`lexer::Tokens`], the
//! tokens through [`parser::Ast::parse`] into span-annotated expressions, and
//! those through [`eval::Eval::eval`] into an [`eval::Object`] or an
//! [`eval::EvalError`]. Every stage is specified against a mathematical model
//! of its input and proved to compute exactly what that model says.

pub mod eval;
pub mod lexer;
pub mod nesting;
pub mod number;
pub mod parser;
