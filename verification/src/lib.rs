//! An arithmetic expression evaluator.
//!
//! `evaluate` parses a character string containing non-negative decimal
//! literals, the operators `+ - * /` (with the glyphs `×` and `÷` accepted
//! for `*` and `/`), and parenthesized sub-expressions, and returns the exact
//! value of the expression as a rational number, or an error describing the
//! first problem met in left-to-right parsing order.
//!
//! Arithmetic is exact: a value is a rational with i64 parts, and a
//! computation whose exact value cannot be held that way fails with the
//! `Overflow` error instead of rounding. A literal may begin or end with its
//! decimal point (`.5`, `3.`); a lone `.` is rejected as `InvalidNumber`.

pub mod error;
pub mod eval;
pub mod grammar;
pub mod parse;
pub mod value;

pub use crate::error::EvalError;
pub use crate::eval::evaluate;
pub use crate::value::Value;
