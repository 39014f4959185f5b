//! The tagged value representation of the machine, with truthiness,
//! type names and text rendering.

use crate::text::{i64_dec, i64_to_dec, u64_dec, u64_to_dec};
use vstd::prelude::*;

verus! {

/// A runtime value: a tagged sum of primitives and heap references.
///
/// A `Float` carries the IEEE-754 bit pattern of a 64-bit floating-point
/// number.  The engine itself never performs floating-point arithmetic;
/// operations that need it are surfaced to the host as effect requests, and
/// the bit pattern is what travels across that boundary.
#[derive(Debug, Clone, PartialEq)]
pub enum Value {
    /// 64-bit signed integer.
    Int(i64),
    /// 64-bit IEEE-754 floating-point number, stored as its bit pattern.
    Float(u64),
    /// Boolean.
    Bool(bool),
    /// Owned UTF-8 string.
    Str(String),
    /// The null value.
    Null,
    /// Opaque handle into the object store.
    Object(u64),
    /// Opaque handle into the function table (reserved).
    Function(u64),
    /// Opaque handle into the array store.
    Array(u64),
}

/// The sign bit of a 64-bit IEEE-754 bit pattern.
pub open spec fn f64_sign_mask() -> u64 {
    0x8000_0000_0000_0000u64
}

/// A bit pattern denotes a floating-point zero exactly when it is `+0.0`
/// (all bits clear) or `-0.0` (only the sign bit set).
pub open spec fn f64_bits_is_zero(bits: u64) -> bool {
    bits == 0u64 || bits == f64_sign_mask()
}

/// A bit pattern denotes a floating-point NaN exactly when its exponent
/// bits are all set and its mantissa is non-zero.
pub open spec fn f64_bits_is_nan(bits: u64) -> bool {
    (bits >> 52) & 0x7ff == 0x7ff && bits & 0xf_ffff_ffff_ffffu64 != 0
}

/// A bit pattern denotes a strictly negative floating-point number: sign
/// bit set, not a zero, not a NaN.
pub open spec fn f64_bits_strictly_neg(bits: u64) -> bool {
    bits & f64_sign_mask() != 0 && !f64_bits_is_zero(bits) && !f64_bits_is_nan(bits)
}

/// Truthiness: `false`, `null`, integer `0`, floating-point zero and the
/// empty string are falsy; everything else, references included, is truthy.
pub open spec fn spec_is_truthy(v: Value) -> bool {
    match v {
        Value::Int(i) => i != 0,
        Value::Float(bits) => !f64_bits_is_zero(bits),
        Value::Bool(b) => b,
        Value::Str(s) => s@.len() != 0,
        Value::Null => false,
        Value::Object(_) => true,
        Value::Function(_) => true,
        Value::Array(_) => true,
    }
}

/// Structural equivalence of two values: equal payloads, with strings
/// compared by their character sequences and floating-point numbers by
/// their bit patterns.  Bit-pattern equality resolves what "structural"
/// means for floating-point: two NaNs with the same bits are equal, and
/// positive and negative zero are not.
pub open spec fn val_equiv(a: Value, b: Value) -> bool {
    match a {
        Value::Int(x) => b matches Value::Int(y) && x == y,
        Value::Float(x) => b matches Value::Float(y) && x == y,
        Value::Bool(x) => b matches Value::Bool(y) && x == y,
        Value::Str(x) => b matches Value::Str(y) && x@ == y@,
        Value::Null => b is Null,
        Value::Object(x) => b matches Value::Object(y) && x == y,
        Value::Function(x) => b matches Value::Function(y) && x == y,
        Value::Array(x) => b matches Value::Array(y) && x == y,
    }
}

impl Value {
    /// The type name of this value, one of
    /// `int|float|bool|string|null|object|function|array`.
    pub fn type_label(&self) -> (r: &'static str)
        ensures
            r@ == spec_type_label(*self),
    {
        match self {
            Value::Int(_) => "int",
            Value::Float(_) => "float",
            Value::Bool(_) => "bool",
            Value::Str(_) => "string",
            Value::Null => "null",
            Value::Object(_) => "object",
            Value::Function(_) => "function",
            Value::Array(_) => "array",
        }
    }

    /// Truthiness of this value.  A pure function of the value: any two
    /// calls on equal values return the same answer.
    pub fn is_truthy(&self) -> (r: bool)
        ensures
            r == spec_is_truthy(*self),
    {
        match self {
            Value::Int(i) => *i != 0,
            Value::Float(bits) => !(*bits == 0 || *bits == 0x8000_0000_0000_0000u64),
            Value::Bool(b) => *b,
            Value::Str(s) => !s.as_str().is_empty(),
            Value::Null => false,
            Value::Object(_) => true,
            Value::Function(_) => true,
            Value::Array(_) => true,
        }
    }

    /// The textual rendering of this value: numbers in decimal, booleans as
    /// `true`/`false`, null as `null`, strings as themselves and references
    /// as `object#<id>`, `array#<id>`, `function#<id>`.
    ///
    /// Floating-point values are the one variant whose natural decimal form
    /// the library does not compute itself; rendering them is host work, and
    /// for them this returns `None`.
    pub fn to_text(&self) -> (r: Option<String>)
        ensures
            r is Some <==> !(self is Float),
            r matches Some(s) ==> s@ == spec_render(*self),
    {
        match self {
            Value::Int(i) => Some(i64_to_dec(*i)),
            Value::Float(_) => None,
            Value::Bool(b) => Some(
                if *b {
                    "true".to_owned()
                } else {
                    "false".to_owned()
                },
            ),
            Value::Str(s) => Some(s.clone()),
            Value::Null => Some("null".to_owned()),
            Value::Object(id) => Some(render_ref("object#", *id)),
            Value::Function(id) => Some(render_ref("function#", *id)),
            Value::Array(id) => Some(render_ref("array#", *id)),
        }
    }
}

/// Concatenates a reference marker and a decimal identifier.
fn render_ref(marker: &str, id: u64) -> (r: String)
    ensures
        r@ == marker@ + u64_dec(id as nat),
{
    let mut r = marker.to_owned();
    r.append(u64_to_dec(id).as_str());
    r
}

/// The text promised by [`Value::to_text`] for every variant but `Float`.
pub open spec fn spec_render(v: Value) -> Seq<char>
    recommends
        !(v is Float),
{
    match v {
        Value::Int(i) => i64_dec(i as int),
        Value::Float(_) => Seq::empty(),
        Value::Bool(b) => if b {
            "true"@
        } else {
            "false"@
        },
        Value::Str(s) => s@,
        Value::Null => "null"@,
        Value::Object(id) => "object#"@ + u64_dec(id as nat),
        Value::Function(id) => "function#"@ + u64_dec(id as nat),
        Value::Array(id) => "array#"@ + u64_dec(id as nat),
    }
}

/// Whether two values are structurally equivalent, as [`val_equiv`]
/// states it.
pub fn values_equal(a: &Value, b: &Value) -> (r: bool)
    ensures
        r == val_equiv(*a, *b),
{
    match a {
        Value::Int(x) => match b {
            Value::Int(y) => *x == *y,
            _ => false,
        },
        Value::Float(x) => match b {
            Value::Float(y) => *x == *y,
            _ => false,
        },
        Value::Bool(x) => match b {
            Value::Bool(y) => *x == *y,
            _ => false,
        },
        Value::Str(x) => match b {
            Value::Str(y) => *x == *y,
            _ => false,
        },
        Value::Null => match b {
            Value::Null => true,
            _ => false,
        },
        Value::Object(x) => match b {
            Value::Object(y) => *x == *y,
            _ => false,
        },
        Value::Function(x) => match b {
            Value::Function(y) => *x == *y,
            _ => false,
        },
        Value::Array(x) => match b {
            Value::Array(y) => *x == *y,
            _ => false,
        },
    }
}

/// The type name of a value, as a character sequence.
pub open spec fn spec_type_label(v: Value) -> Seq<char> {
    match v {
        Value::Int(_) => "int"@,
        Value::Float(_) => "float"@,
        Value::Bool(_) => "bool"@,
        Value::Str(_) => "string"@,
        Value::Null => "null"@,
        Value::Object(_) => "object"@,
        Value::Function(_) => "function"@,
        Value::Array(_) => "array"@,
    }
}

} // verus!
