//! Effect requests: the work the engine asks its host to perform.
//!
//! The engine never does I/O, never reads the clock, never draws random
//! numbers and never computes with floating-point numbers.  Whenever an
//! instruction needs one of those, the engine suspends and hands the host
//! an `EffectRequest`; the host performs it and resumes the engine with
//! the outcome.

use crate::value::Value;
use vstd::prelude::*;

verus! {

/// A unary floating-point operation the host computes.
#[derive(Debug, Clone, Copy, PartialEq, Eq, Structural)]
pub enum FloatUnaryOp {
    Sqrt,
    Sin,
    Cos,
    Tan,
}

/// A binary arithmetic operation on numbers, at least one of them
/// floating-point, that the host computes.
#[derive(Debug, Clone, Copy, PartialEq, Eq, Structural)]
pub enum FloatBinaryOp {
    Add,
    Sub,
    Mul,
    Div,
    Mod,
    Pow,
}

/// An ordering comparison on numbers, at least one of them floating-point,
/// that the host computes.
#[derive(Debug, Clone, Copy, PartialEq, Eq, Structural)]
pub enum CompareOp {
    Lt,
    Le,
    Gt,
    Ge,
}

/// A request to the host.
///
/// `Print`, `Printf`, `Sleep`, `Trace` and `Breakpoint` expect no meaningful
/// reply;
/// the others expect the host to resume the engine with the value named in
/// their documentation.
#[derive(Debug)]
pub enum EffectRequest {
    /// Render the values and write them to the console, with a trailing
    /// newline when `newline` is set.  [`crate::value::Value::to_text`]
    /// renders every variant but `Float`.
    Print { values: Vec<Value>, newline: bool },
    /// Render the first value as a format text, substitute each later
    /// value's rendering for the leftmost `{}` in turn, and write the
    /// result without a trailing newline.  The engine performs the
    /// substitution itself whenever it can render every value; this
    /// request is raised only when a `Float` needs the host's decimal
    /// rendering first.
    Printf { values: Vec<Value> },
    /// Read one line from the console; reply with a `Str` (without the
    /// trailing newline).
    ReadLine,
    /// Draw a random floating-point number in `[0, 1)`; reply with a
    /// `Float`.
    Random,
    /// Read the current Unix time in whole seconds; reply with an `Int`.
    TimeNow,
    /// Sleep for the given number of seconds (an `Int` or a `Float`).
    Sleep { seconds: Value },
    /// Compute a unary floating-point function of a numeric argument;
    /// reply with a `Float`.
    FloatUnary { op: FloatUnaryOp, arg: Value },
    /// Compute a binary arithmetic operation on two numeric operands, at
    /// least one a `Float` (or a power, which is always host work); reply
    /// with a `Float`.
    FloatBinary { op: FloatBinaryOp, lhs: Value, rhs: Value },
    /// Compare two numeric operands, at least one a `Float`; reply with a
    /// `Bool`.
    CompareNumeric { op: CompareOp, lhs: Value, rhs: Value },
    /// A trace record of the value on top of the stack; the stack is not
    /// consumed.
    Trace { value: Value },
    /// A breakpoint notification at the given instruction offset.
    Breakpoint { ip: usize },
}

} // verus!
