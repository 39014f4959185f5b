//! The failure kinds that the machine can surface to its host.

use vstd::prelude::*;

verus! {

/// A failure kind.  Every failure unwinds the dispatch loop immediately and
/// is returned to the host; the engine performs no recovery.
#[derive(Debug, Clone)]
pub enum VmError {
    /// Underlying file or stream failure.
    Io(String),
    /// The artifact could not be decoded.
    InvalidBytecode(String),
    /// General runtime violation (missing field, missing program, bad state).
    Runtime(String),
    /// Operand kinds incompatible with the requested operation.
    TypeError(String),
    /// A heap operation failed.
    MemoryError(String),
    /// The call stack exceeded the host's depth cap.
    StackOverflow,
    /// An operand-stack pop found the stack empty.
    StackUnderflow,
    /// Name resolution of a variable failed.
    UndefinedVariable(String),
    /// Name resolution of a function failed.
    UndefinedFunction(String),
    /// Division or modulo with a zero divisor.
    DivisionByZero,
    /// Malformed or unimplemented opcode at a known instruction offset.
    InvalidInstruction(usize, String),
    /// The artifact encoder failed.
    Serialization(String),
    /// The artifact decoder failed.
    Deserialization(String),
}

impl VmError {
    /// A human-readable description of the failure, in the shape
    /// `<kind>: <detail>`.
    pub fn message(&self) -> (r: String)
        ensures
            r@ == spec_message(*self),
    {
        match self {
            VmError::Io(s) => prefixed("IO error: ", s),
            VmError::InvalidBytecode(s) => prefixed("Invalid bytecode format: ", s),
            VmError::Runtime(s) => prefixed("Runtime error: ", s),
            VmError::TypeError(s) => prefixed("Type error: ", s),
            VmError::MemoryError(s) => prefixed("Memory error: ", s),
            VmError::StackOverflow => "Stack overflow".to_owned(),
            VmError::StackUnderflow => "Stack underflow".to_owned(),
            VmError::UndefinedVariable(s) => prefixed("Undefined variable: ", s),
            VmError::UndefinedFunction(s) => prefixed("Undefined function: ", s),
            VmError::DivisionByZero => "Division by zero".to_owned(),
            VmError::InvalidInstruction(offset, s) => {
                let mut r = "Invalid instruction at offset ".to_owned();
                r.append(crate::text::u64_to_dec(*offset as u64).as_str());
                r.append(": ");
                r.append(s.as_str());
                r
            },
            VmError::Serialization(s) => prefixed("Serialization error: ", s),
            VmError::Deserialization(s) => prefixed("Deserialization error: ", s),
        }
    }
}

/// The description promised by [`VmError::message`].
pub open spec fn spec_message(e: VmError) -> Seq<char> {
    match e {
        VmError::Io(s) => "IO error: "@ + s@,
        VmError::InvalidBytecode(s) => "Invalid bytecode format: "@ + s@,
        VmError::Runtime(s) => "Runtime error: "@ + s@,
        VmError::TypeError(s) => "Type error: "@ + s@,
        VmError::MemoryError(s) => "Memory error: "@ + s@,
        VmError::StackOverflow => "Stack overflow"@,
        VmError::StackUnderflow => "Stack underflow"@,
        VmError::UndefinedVariable(s) => "Undefined variable: "@ + s@,
        VmError::UndefinedFunction(s) => "Undefined function: "@ + s@,
        VmError::DivisionByZero => "Division by zero"@,
        VmError::InvalidInstruction(offset, s) => "Invalid instruction at offset "@ + crate::text::u64_dec(
            offset as nat,
        ) + ": "@ + s@,
        VmError::Serialization(s) => "Serialization error: "@ + s@,
        VmError::Deserialization(s) => "Deserialization error: "@ + s@,
    }
}

/// Concatenates a fixed prefix and a detail string.
fn prefixed(prefix: &str, detail: &String) -> (r: String)
    ensures
        r@ == prefix@ + detail@,
{
    let mut r = prefix.to_owned();
    r.append(detail.as_str());
    r
}

} // verus!
