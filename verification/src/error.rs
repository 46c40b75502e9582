use vstd::prelude::*;

verus! {

/// Why an evaluation failed. Every failure is terminal: the first error met
/// in left-to-right parsing order is the one returned, unchanged.
#[derive(Clone, Copy, Debug, PartialEq, Eq, Structural)]
pub enum EvalError {
    /// A position that requires an operand has no digit or `.` to start one.
    ExpectedNumber,
    /// A numeric literal contains a second `.`.
    MultipleDecimalPoints,
    /// The digit-and-dot scan produced text that is not a number (a lone `.`).
    InvalidNumber,
    /// A `(` has no matching `)` at the expected position.
    UnbalancedParens,
    /// The right operand of a division is exactly zero.
    DivisionByZero,
    /// Characters remain unconsumed after a complete top-level parse.
    TrailingInput,
    /// An exact intermediate value does not fit the machine representation.
    Overflow,
}

impl EvalError {
    /// A human-readable description of the failure.
    pub fn message(&self) -> (r: &'static str)
        ensures
            r@ == match *self {
                EvalError::ExpectedNumber => "Expected number"@,
                EvalError::MultipleDecimalPoints => "Multiple decimal points"@,
                EvalError::InvalidNumber => "Invalid number"@,
                EvalError::UnbalancedParens => "Missing closing parenthesis"@,
                EvalError::DivisionByZero => "Division by zero"@,
                EvalError::TrailingInput => "Extra characters"@,
                EvalError::Overflow => "Number out of range"@,
            },
    {
        match self {
            EvalError::ExpectedNumber => "Expected number",
            EvalError::MultipleDecimalPoints => "Multiple decimal points",
            EvalError::InvalidNumber => "Invalid number",
            EvalError::UnbalancedParens => "Missing closing parenthesis",
            EvalError::DivisionByZero => "Division by zero",
            EvalError::TrailingInput => "Extra characters",
            EvalError::Overflow => "Number out of range",
        }
    }
}

} // verus!
