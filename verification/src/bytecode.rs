//! The bytecode instruction set and the program artifact types.

use crate::namemap::NameMap;
use crate::value::Value;
use vstd::prelude::*;

verus! {

/// A bytecode instruction.
///
/// `GET_METHOD`, `CAST`, `IS_TYPE`, `ALLOC` and `FREE` are reserved slots
/// with no defined semantics; executing one fails with
/// `InvalidInstruction`.
#[allow(non_camel_case_types)]
#[derive(Debug, Clone)]
pub enum Instruction {
    PUSH(Value),
    POP,
    DUP,
    SWAP,
    LOAD_VAR(String),
    STORE_VAR(String),
    LOAD_CONST(usize),
    ADD,
    SUB,
    MUL,
    DIV,
    MOD,
    NEG,
    EQ,
    NE,
    LT,
    LE,
    GT,
    GE,
    AND,
    OR,
    NOT,
    JMP(usize),
    JMP_IF(usize),
    JMP_IF_FALSE(usize),
    CALL(String),
    CALL_NATIVE(String),
    RETURN,
    NEW(String),
    GET_FIELD(String),
    SET_FIELD(String),
    GET_METHOD(String),
    NEW_ARRAY(usize),
    GET_ELEMENT,
    SET_ELEMENT,
    GET_LENGTH,
    CAST(String),
    IS_NULL,
    IS_TYPE(String),
    ALLOC(usize),
    FREE,
    BREAKPOINT,
    TRACE,
    HALT,
    NOOP,
}

/// Access level for functions, classes and fields.  Metadata only: the
/// engine does not enforce it.
#[derive(Debug, Clone, Copy, PartialEq, Eq, Structural)]
pub enum AccessLevel {
    Public,
    Private,
    Protected,
}

impl Default for AccessLevel {
    /// The default access level is `Public`.
    fn default() -> (r: Self)
        ensures
            r == AccessLevel::Public,
    {
        AccessLevel::Public
    }
}

/// A function: named, with declared parameters and locals, a body of
/// instructions, an optional textual return type and an access level.
#[derive(Debug, Clone)]
pub struct Function {
    pub name: String,
    pub parameters: Vec<String>,
    pub locals: Vec<String>,
    pub instructions: Vec<Instruction>,
    pub return_type: Option<String>,
    pub access_level: AccessLevel,
}

/// A class: metadata only in the core; the instruction set never consults
/// class definitions.
#[derive(Debug, Clone)]
pub struct Class {
    pub name: String,
    pub parent: Option<String>,
    pub fields: NameMap<Field>,
    pub methods: NameMap<Function>,
    pub constructor: Option<Function>,
    pub access_level: AccessLevel,
}

/// A class field descriptor.
#[derive(Debug, Clone)]
pub struct Field {
    pub name: String,
    pub field_type: String,
    pub access_level: AccessLevel,
    pub is_final: bool,
    pub default_value: Option<Value>,
}

/// A compiled program artifact: a constant pool, function and class
/// tables, the entry function's name and the initial globals.  Immutable
/// after load.
#[derive(Debug, Clone)]
pub struct BytecodeProgram {
    pub name: String,
    pub version: u32,
    pub constants: Vec<Value>,
    pub functions: NameMap<Function>,
    pub classes: NameMap<Class>,
    pub main_function: String,
    pub globals: NameMap<Value>,
}

impl BytecodeProgram {
    /// Well-formedness: the name tables hold no duplicate keys.
    pub open spec fn wf(&self) -> bool {
        &&& self.functions.wf()
        &&& self.classes.wf()
        &&& self.globals.wf()
        &&& forall|i: int|
            0 <= i < self.functions.entries_seq().len()
                ==> #[trigger] self.functions.entries_seq()[i].1.wf()
        &&& forall|i: int|
            0 <= i < self.classes.entries_seq().len()
                ==> #[trigger] self.classes.entries_seq()[i].1.wf()
    }
}

impl Function {
    /// Well-formedness of a function (nothing is required of one today;
    /// kept as the anchor for future structural constraints).
    pub open spec fn wf(&self) -> bool {
        true
    }
}

impl Class {
    /// Well-formedness: the field and method tables hold no duplicate keys.
    pub open spec fn wf(&self) -> bool {
        &&& self.fields.wf()
        &&& self.methods.wf()
    }
}

/// Clones a value; the clone is spec-equal to the original.
pub fn clone_value(v: &Value) -> (r: Value)
    ensures
        r == *v,
{
    match v {
        Value::Int(i) => Value::Int(*i),
        Value::Float(bits) => Value::Float(*bits),
        Value::Bool(b) => Value::Bool(*b),
        Value::Str(s) => Value::Str(s.clone()),
        Value::Null => Value::Null,
        Value::Object(id) => Value::Object(*id),
        Value::Function(id) => Value::Function(*id),
        Value::Array(id) => Value::Array(*id),
    }
}

/// Clones the values of a slice; the clone denotes the same sequence.
pub fn clone_value_slice(v: &[Value]) -> (r: Vec<Value>)
    ensures
        r@ == v@,
{
    let mut r: Vec<Value> = Vec::new();
    let n = v.len();
    let mut i: usize = 0;
    while i < n
        invariant
            n == v@.len(),
            i <= n,
            r@ == v@.subrange(0, i as int),
        decreases n - i,
    {
        r.push(clone_value(&v[i]));
        proof {
            assert(r@ =~= v@.subrange(0, i + 1int));
        }
        i = i + 1;
    }
    proof {
        assert(r@ =~= v@);
    }
    r
}

/// Clones an instruction; the clone is spec-equal to the original.
pub fn clone_instruction(i: &Instruction) -> (r: Instruction)
    ensures
        r == *i,
{
    match i {
        Instruction::PUSH(v) => Instruction::PUSH(clone_value(v)),
        Instruction::POP => Instruction::POP,
        Instruction::DUP => Instruction::DUP,
        Instruction::SWAP => Instruction::SWAP,
        Instruction::LOAD_VAR(s) => Instruction::LOAD_VAR(s.clone()),
        Instruction::STORE_VAR(s) => Instruction::STORE_VAR(s.clone()),
        Instruction::LOAD_CONST(k) => Instruction::LOAD_CONST(*k),
        Instruction::ADD => Instruction::ADD,
        Instruction::SUB => Instruction::SUB,
        Instruction::MUL => Instruction::MUL,
        Instruction::DIV => Instruction::DIV,
        Instruction::MOD => Instruction::MOD,
        Instruction::NEG => Instruction::NEG,
        Instruction::EQ => Instruction::EQ,
        Instruction::NE => Instruction::NE,
        Instruction::LT => Instruction::LT,
        Instruction::LE => Instruction::LE,
        Instruction::GT => Instruction::GT,
        Instruction::GE => Instruction::GE,
        Instruction::AND => Instruction::AND,
        Instruction::OR => Instruction::OR,
        Instruction::NOT => Instruction::NOT,
        Instruction::JMP(k) => Instruction::JMP(*k),
        Instruction::JMP_IF(k) => Instruction::JMP_IF(*k),
        Instruction::JMP_IF_FALSE(k) => Instruction::JMP_IF_FALSE(*k),
        Instruction::CALL(s) => Instruction::CALL(s.clone()),
        Instruction::CALL_NATIVE(s) => Instruction::CALL_NATIVE(s.clone()),
        Instruction::RETURN => Instruction::RETURN,
        Instruction::NEW(s) => Instruction::NEW(s.clone()),
        Instruction::GET_FIELD(s) => Instruction::GET_FIELD(s.clone()),
        Instruction::SET_FIELD(s) => Instruction::SET_FIELD(s.clone()),
        Instruction::GET_METHOD(s) => Instruction::GET_METHOD(s.clone()),
        Instruction::NEW_ARRAY(k) => Instruction::NEW_ARRAY(*k),
        Instruction::GET_ELEMENT => Instruction::GET_ELEMENT,
        Instruction::SET_ELEMENT => Instruction::SET_ELEMENT,
        Instruction::GET_LENGTH => Instruction::GET_LENGTH,
        Instruction::CAST(s) => Instruction::CAST(s.clone()),
        Instruction::IS_NULL => Instruction::IS_NULL,
        Instruction::IS_TYPE(s) => Instruction::IS_TYPE(s.clone()),
        Instruction::ALLOC(k) => Instruction::ALLOC(*k),
        Instruction::FREE => Instruction::FREE,
        Instruction::BREAKPOINT => Instruction::BREAKPOINT,
        Instruction::TRACE => Instruction::TRACE,
        Instruction::HALT => Instruction::HALT,
        Instruction::NOOP => Instruction::NOOP,
    }
}

/// Clones an instruction sequence; the clone denotes the same sequence.
pub fn clone_instructions(v: &Vec<Instruction>) -> (r: Vec<Instruction>)
    ensures
        r@ == v@,
{
    let mut r: Vec<Instruction> = Vec::new();
    let n = v.len();
    let mut i: usize = 0;
    while i < n
        invariant
            n == v@.len(),
            i <= n,
            r@ == v@.subrange(0, i as int),
        decreases n - i,
    {
        r.push(clone_instruction(&v[i]));
        proof {
            assert(r@ =~= v@.subrange(0, i + 1int));
        }
        i = i + 1;
    }
    proof {
        assert(r@ =~= v@);
    }
    r
}

/// Clones a list of names; the clone denotes the same sequence.
pub fn clone_names(v: &Vec<String>) -> (r: Vec<String>)
    ensures
        r@ == v@,
{
    let mut r: Vec<String> = Vec::new();
    let n = v.len();
    let mut i: usize = 0;
    while i < n
        invariant
            n == v@.len(),
            i <= n,
            r@ == v@.subrange(0, i as int),
        decreases n - i,
    {
        r.push(v[i].clone());
        proof {
            assert(r@ =~= v@.subrange(0, i + 1int));
        }
        i = i + 1;
    }
    proof {
        assert(r@ =~= v@);
    }
    r
}

/// Clones a list of values; the clone denotes the same sequence.
pub fn clone_values(v: &Vec<Value>) -> (r: Vec<Value>)
    ensures
        r@ == v@,
{
    let mut r: Vec<Value> = Vec::new();
    let n = v.len();
    let mut i: usize = 0;
    while i < n
        invariant
            n == v@.len(),
            i <= n,
            r@ == v@.subrange(0, i as int),
        decreases n - i,
    {
        r.push(clone_value(&v[i]));
        proof {
            assert(r@ =~= v@.subrange(0, i + 1int));
        }
        i = i + 1;
    }
    proof {
        assert(r@ =~= v@);
    }
    r
}

} // verus!
