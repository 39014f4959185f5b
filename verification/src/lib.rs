//! A stack-based virtual machine for the Loom bytecode format.
//!
//! The crate has three tightly coupled parts: the value model and bytecode
//! types, a reference-counted heap of objects and arrays, and the execution
//! engine that dispatches instructions over an operand stack.  Host work that
//! the engine cannot do itself (console I/O, clock, randomness, floating-point
//! arithmetic) is surfaced to the embedder as explicit effect requests.

pub mod allocator;
pub mod bytecode;
pub mod codec;
pub mod effects;
pub mod error;
pub mod heap;
pub mod namemap;
pub mod profiler;
pub mod runtime;
pub mod smart_pointer;
pub mod text;
pub mod value;
pub mod vm;

pub use error::VmError;
pub use value::Value;
