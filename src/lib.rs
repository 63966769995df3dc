//! An evaluator for a small S-expression language: a lexer, a
//! recursive-descent parser, an environment of definitions and a
//! tree-walking evaluator, each with its behaviour stated over a
//! mathematical model and proved. Numbers are 64-bit signed integers:
//! there is no floating point, so tokens such as `1.5`, `inf` or `nan` read
//! as symbols, and `+` or `-` report an error where the exact result does
//! not fit.

pub mod env;
pub mod error;
pub mod eval;
pub mod expr;
pub mod interp;
pub mod laws;
pub mod lexer;
pub mod parser;
pub mod round_trip;

pub use env::Environment;
pub use error::{Fault, Form, LispError};
pub use eval::eval;
pub use expr::{Expr, SExpr};
pub use interp::interpret;
pub use lexer::tokenize;
pub use parser::parse;
