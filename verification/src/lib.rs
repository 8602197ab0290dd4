//! A tiny array language: a lexer, a right-to-left evaluator and the
//! environment of variable bindings that successive lines share.

pub mod array;
pub mod env;
pub mod eval;
pub mod lexer;

pub use array::{array_from_i64, at, iota, plus, plus_fits, Array, Elem};
pub use env::Environment;
pub use eval::{apply_dyadic, apply_monadic, eval, EvalError};
pub use lexer::{parse, LexError, Token};
