//! The execution engine: operand stack, locals, globals, call stack and
//! the instruction dispatch loop.
//!
//! The engine is strictly single-threaded and synchronous.  It never does
//! I/O and never computes with floating-point numbers: such work is
//! surfaced as [`EffectRequest`]s, and the host resumes the engine with
//! the outcome.  Reference counts track allocation only — values flowing
//! through the stack and variables do not retain or release heap entries,
//! so entries live until an explicit release (leak-until-end semantics).

use crate::bytecode::{
    clone_instruction, clone_instructions, clone_names, clone_value, BytecodeProgram, Instruction,
};
use crate::effects::{CompareOp, EffectRequest, FloatBinaryOp};
use crate::error::VmError;
use crate::heap::MemoryManager;
use crate::namemap::NameMap;
use crate::profiler::MemoryStats;
use crate::runtime::{
    divides, divisor_is_zero, int_arith, is_numeric, needs_float, NativeOutcome, Runtime,
};
use crate::text::{lex_lt, str_lex_lt};
use crate::value::{val_equiv, values_equal, Value};
use vstd::prelude::*;

verus! {

/// What the engine still owes the host after an effect: whether the
/// host's reply value belongs on the operand stack.
#[derive(Debug, Clone, Copy, PartialEq, Eq, Structural)]
pub enum PendingKind {
    /// The reply is the effect's result and is pushed on resumption.
    PushReply,
    /// The effect has no result; the reply is discarded.
    Ignore,
}

/// How a run ended for now.
#[derive(Debug)]
pub enum Outcome {
    /// The outermost execution finished with this value.
    Finished(Value),
    /// The engine waits for the host to perform a request and resume.
    Pending(EffectRequest),
    /// The step budget ran out; calling [`LoomVM::run`] again continues.
    Running,
}

/// Bookkeeping for one function invocation.
#[derive(Debug)]
pub struct CallFrame {
    /// The invoked function's name.
    pub function_name: String,
    /// The caller's instruction pointer to return to.
    pub return_address: usize,
    /// The caller's locals, restored on return.
    pub locals: NameMap<Value>,
    /// The operand-stack height at entry; the return value is taken from
    /// above it and the stack is cut back to it on return.
    pub stack_base: usize,
}

/// The virtual machine.
pub struct LoomVM {
    /// The heap manager.
    pub memory: MemoryManager,
    /// The built-in registry.
    pub runtime: Runtime,
    /// The loaded program.
    pub program: Option<BytecodeProgram>,
    /// The operand stack.
    pub stack: Vec<Value>,
    /// The current frame's local variables.
    pub locals: NameMap<Value>,
    /// The global variables, seeded from the artifact.
    pub globals: NameMap<Value>,
    /// The call stack.
    pub call_stack: Vec<CallFrame>,
    /// The instruction pointer into the current function.
    pub ip: usize,
    /// The current function's instructions.
    pub code: Vec<Instruction>,
    /// The current function's name, while one runs.
    pub current_function: Option<String>,
    /// Debug mode: breakpoints notify the host.
    pub debug_mode: bool,
    /// An issued effect awaiting [`LoomVM::resume`], and what to do with
    /// the reply.
    pub pending: Option<PendingKind>,
}

/// The binding of declared parameters to the argument values popped for a
/// call, in declaration order (a later duplicate parameter name wins).
pub open spec fn bind_params(params: Seq<String>, args: Seq<Value>) -> Map<Seq<char>, Value>
    decreases params.len(),
{
    if params.len() == 0 {
        Map::empty()
    } else {
        bind_params(params.drop_last(), args.drop_last()).insert(
            params.last()@,
            args.last(),
        )
    }
}

/// Everything but the operand stack is unchanged.
pub open spec fn same_but_stack(pre: LoomVM, post: LoomVM) -> bool {
    &&& post.memory == pre.memory
    &&& post.runtime == pre.runtime
    &&& post.program == pre.program
    &&& post.locals == pre.locals
    &&& post.globals == pre.globals
    &&& post.call_stack == pre.call_stack
    &&& post.ip == pre.ip
    &&& post.code == pre.code
    &&& post.current_function == pre.current_function
    &&& post.debug_mode == pre.debug_mode
    &&& post.pending == pre.pending
}

/// Everything but the operand stack and the instruction pointer is
/// unchanged.
pub open spec fn same_but_stack_ip(pre: LoomVM, post: LoomVM) -> bool {
    &&& post.memory == pre.memory
    &&& post.runtime == pre.runtime
    &&& post.program == pre.program
    &&& post.locals == pre.locals
    &&& post.globals == pre.globals
    &&& post.call_stack == pre.call_stack
    &&& post.code == pre.code
    &&& post.current_function == pre.current_function
    &&& post.debug_mode == pre.debug_mode
    &&& post.pending == pre.pending
}

impl LoomVM {
    /// Whether a function is currently executing.
    pub open spec fn running(&self) -> bool {
        self.current_function is Some
    }

    /// Well-formedness of the engine state.
    pub open spec fn wf(&self) -> bool {
        &&& self.locals.wf()
        &&& self.globals.wf()
        &&& self.memory.wf()
        &&& (self.program matches Some(p) ==> p.wf())
        &&& forall|i: int|
            0 <= i < self.call_stack@.len() ==> (#[trigger] self.call_stack@[i]).locals.wf()
        &&& (self.current_function matches Some(f) ==> {
            &&& self.program is Some
            &&& self.call_stack@.len() > 0
            &&& self.call_stack@.last().function_name@ == f@
            &&& self.program->Some_0.functions@.contains_key(f@)
            &&& self.code@ == self.program->Some_0.functions@[f@].instructions@
        })
        &&& (self.current_function is None ==> self.call_stack@.len() == 0)
        &&& (self.program matches Some(p) ==> forall|i: int|
            0 <= i < self.call_stack@.len() ==> p.functions@.contains_key(
                (#[trigger] self.call_stack@[i]).function_name@,
            ))
        &&& (self.pending is Some ==> self.current_function is Some)
    }

    /// A fresh machine: no program, empty stacks, debug mode off.
    pub fn new() -> (r: Self)
        ensures
            r.wf(),
            !r.running(),
            r.pending is None,
            r.program is None,
            r.stack@.len() == 0,
            !r.debug_mode,
    {
        LoomVM {
            memory: MemoryManager::new(),
            runtime: Runtime::new(),
            program: None,
            stack: Vec::new(),
            locals: NameMap::new(),
            globals: NameMap::new(),
            call_stack: Vec::new(),
            ip: 0,
            code: Vec::new(),
            current_function: None,
            debug_mode: false,
            pending: None,
        }
    }

    /// Turns debug mode on or off.
    pub fn set_debug_mode(&mut self, enabled: bool)
        requires
            old(self).wf(),
        ensures
            final(self).wf(),
            final(self).debug_mode == enabled,
            final(self).stack == old(self).stack,
            final(self).pending == old(self).pending,
            final(self).current_function == old(self).current_function,
    {
        self.debug_mode = enabled;
    }

    /// The heap's memory statistics.
    pub fn get_memory_stats(&self) -> (r: MemoryStats)
        ensures
            r == self.memory.stats_model(),
    {
        self.memory.get_stats()
    }

    /// Pops the top of the operand stack; an empty stack is a
    /// `StackUnderflow`.
    fn pop_value(&mut self) -> (r: Result<Value, VmError>)
        ensures
            same_but_stack(*old(self), *final(self)),
            old(self).stack@.len() == 0 ==> (r matches Err(e) && e is StackUnderflow) && final(self).stack@ == old(self).stack@,
            old(self).stack@.len() > 0 ==> (r matches Ok(v) && v == old(self).stack@.last())
                && final(self).stack@ == old(self).stack@.drop_last(),
    {
        match self.stack.pop() {
            Some(v) => Ok(v),
            None => Err(VmError::StackUnderflow),
        }
    }

    /// Pushes a value onto the operand stack.
    fn push_value(&mut self, v: Value)
        ensures
            same_but_stack(*old(self), *final(self)),
            final(self).stack@ == old(self).stack@.push(v),
    {
        self.stack.push(v);
    }

    /// `PUSH`: pushes a literal.
    fn exec_push(&mut self, v: Value)
        ensures
            same_but_stack(*old(self), *final(self)),
            final(self).stack@ == old(self).stack@.push(v),
    {
        self.stack.push(v);
    }

    /// `DUP`: duplicates the top of the stack; underflow when empty.
    fn exec_dup(&mut self) -> (r: Result<(), VmError>)
        ensures
            same_but_stack(*old(self), *final(self)),
            old(self).stack@.len() == 0 ==> (r matches Err(e) && e is StackUnderflow) && final(self).stack@ == old(self).stack@,
            old(self).stack@.len() > 0 ==> r is Ok && final(self).stack@ == old(self).stack@.push(old(self).stack@.last()),
    {
        if self.stack.len() == 0 {
            return Err(VmError::StackUnderflow);
        }
        let top = clone_value(&self.stack[self.stack.len() - 1]);
        self.stack.push(top);
        Ok(())
    }

    /// `SWAP`: exchanges the top two stack values; underflow when fewer
    /// than two are present.
    fn exec_swap(&mut self) -> (r: Result<(), VmError>)
        ensures
            same_but_stack(*old(self), *final(self)),
            old(self).stack@.len() < 2 ==> (r matches Err(e) && e is StackUnderflow) && final(self).stack@ == old(self).stack@,
            old(self).stack@.len() >= 2 ==> r is Ok && final(self).stack@ == old(self).stack@.update(old(self).stack@.len() - 1, old(self).stack@[old(self).stack@.len() - 2]).update(old(self).stack@.len() - 2, old(self).stack@.last()),
    {
        let n = self.stack.len();
        if n < 2 {
            return Err(VmError::StackUnderflow);
        }
        let b = match self.stack.pop() {
            Some(v) => v,
            None => {
                return Err(VmError::StackUnderflow);
            },
        };
        let a = match self.stack.pop() {
            Some(v) => v,
            None => {
                return Err(VmError::StackUnderflow);
            },
        };
        self.stack.push(b);
        self.stack.push(a);
        proof {
            assert(final(self).stack@ =~= old(self).stack@.update(
                old(self).stack@.len() - 1,
                old(self).stack@[old(self).stack@.len() - 2],
            ).update(old(self).stack@.len() - 2, old(self).stack@.last()));
        }
        Ok(())
    }

    /// The arithmetic instructions `ADD`, `SUB`, `MUL`, `DIV`, `MOD`: pop
    /// the right then the left operand, compute, push.  Integer pairs are
    /// computed here with wrap-around semantics; a floating-point operand
    /// defers to the host; `DIV`/`MOD` with a zero divisor is
    /// `DivisionByZero`; anything else (strings included) is a
    /// `TypeError`.
    fn exec_arith(&mut self, op: FloatBinaryOp) -> (r: Result<Option<EffectRequest>, VmError>)
        requires
            op != FloatBinaryOp::Pow,
        ensures
            same_but_stack(*old(self), *final(self)),
            old(self).stack@.len() < 2 ==> (r matches Err(e) && e is StackUnderflow) && final(self).stack@ == old(self).stack@,
            old(self).stack@.len() >= 2 ==> arith_instr_post(
                op,
                old(self).stack@,
                final(self).stack@,
                r,
            ),
    {
        let n = self.stack.len();
        if n < 2 {
            return Err(VmError::StackUnderflow);
        }
        let b = match self.stack.pop() {
            Some(v) => v,
            None => {
                return Err(VmError::StackUnderflow);
            },
        };
        let a = match self.stack.pop() {
            Some(v) => v,
            None => {
                return Err(VmError::StackUnderflow);
            },
        };
        let is_div = match op {
            FloatBinaryOp::Div => true,
            FloatBinaryOp::Mod => true,
            _ => false,
        };
        match (&a, &b) {
            (Value::Int(x), Value::Int(y)) => {
                if is_div && *y == 0 {
                    return Err(VmError::DivisionByZero);
                }
                let v = Value::Int(crate::runtime::exec_int_arith(op, *x, *y));
                self.stack.push(v);
                Ok(None)
            },
            _ => {
                let a_num = match &a {
                    Value::Int(_) => true,
                    Value::Float(_) => true,
                    _ => false,
                };
                let b_num = match &b {
                    Value::Int(_) => true,
                    Value::Float(_) => true,
                    _ => false,
                };
                if a_num && b_num {
                    if is_div && crate::runtime::divisor_zero(&b) {
                        return Err(VmError::DivisionByZero);
                    }
                    Ok(Some(EffectRequest::FloatBinary { op, lhs: a, rhs: b }))
                } else {
                    Err(VmError::TypeError("Invalid operands for arithmetic operation".to_owned()))
                }
            },
        }
    }

    /// The comparison instructions.  `EQ`/`NE` are structural on
    /// primitives (floating-point by bit pattern), identity on
    /// references, and false across differing variants.  Ordering applies
    /// numerically to numbers (host work when floating-point is
    /// involved) and lexicographically to strings; ordering anything else
    /// is a `TypeError`.
    fn exec_compare(&mut self, op: CmpInstr) -> (r: Result<Option<EffectRequest>, VmError>)
        ensures
            same_but_stack(*old(self), *final(self)),
            old(self).stack@.len() < 2 ==> (r matches Err(e) && e is StackUnderflow) && final(self).stack@ == old(self).stack@,
            old(self).stack@.len() >= 2 ==> compare_instr_post(
                op,
                old(self).stack@,
                final(self).stack@,
                r,
            ),
    {
        let n = self.stack.len();
        if n < 2 {
            return Err(VmError::StackUnderflow);
        }
        let b = match self.stack.pop() {
            Some(v) => v,
            None => {
                return Err(VmError::StackUnderflow);
            },
        };
        let a = match self.stack.pop() {
            Some(v) => v,
            None => {
                return Err(VmError::StackUnderflow);
            },
        };
        match op {
            CmpInstr::Eq => {
                let v = Value::Bool(values_equal(&a, &b));
                self.stack.push(v);
                Ok(None)
            },
            CmpInstr::Ne => {
                let v = Value::Bool(!values_equal(&a, &b));
                self.stack.push(v);
                Ok(None)
            },
            _ => {
                match (&a, &b) {
                    (Value::Int(x), Value::Int(y)) => {
                        let v = Value::Bool(
                            match op {
                                CmpInstr::Lt => *x < *y,
                                CmpInstr::Le => *x <= *y,
                                CmpInstr::Gt => *x > *y,
                                _ => *x >= *y,
                            },
                        );
                        self.stack.push(v);
                        Ok(None)
                    },
                    (Value::Str(x), Value::Str(y)) => {
                        let v = Value::Bool(
                            match op {
                                CmpInstr::Lt => str_lex_lt(x.as_str(), y.as_str()),
                                CmpInstr::Le => !str_lex_lt(y.as_str(), x.as_str()),
                                CmpInstr::Gt => str_lex_lt(y.as_str(), x.as_str()),
                                _ => !str_lex_lt(x.as_str(), y.as_str()),
                            },
                        );
                        self.stack.push(v);
                        Ok(None)
                    },
                    _ => {
                        let a_num = match &a {
                            Value::Int(_) => true,
                            Value::Float(_) => true,
                            _ => false,
                        };
                        let b_num = match &b {
                            Value::Int(_) => true,
                            Value::Float(_) => true,
                            _ => false,
                        };
                        if a_num && b_num {
                            let cop = match op {
                                CmpInstr::Lt => CompareOp::Lt,
                                CmpInstr::Le => CompareOp::Le,
                                CmpInstr::Gt => CompareOp::Gt,
                                _ => CompareOp::Ge,
                            };
                            Ok(Some(EffectRequest::CompareNumeric { op: cop, lhs: a, rhs: b }))
                        } else {
                            Err(VmError::TypeError("Invalid operands for comparison".to_owned()))
                        }
                    },
                }
            },
        }
    }

    /// `AND`/`OR`: both operands must be booleans; no truthiness
    /// coercion.
    fn exec_logical(&mut self, is_and: bool) -> (r: Result<(), VmError>)
        ensures
            same_but_stack(*old(self), *final(self)),
            old(self).stack@.len() < 2 ==> (r matches Err(e) && e is StackUnderflow) && final(self).stack@ == old(self).stack@,
            old(self).stack@.len() >= 2 ==> logical_instr_post(
                is_and,
                old(self).stack@,
                final(self).stack@,
                r,
            ),
    {
        let n = self.stack.len();
        if n < 2 {
            return Err(VmError::StackUnderflow);
        }
        let b = match self.stack.pop() {
            Some(v) => v,
            None => {
                return Err(VmError::StackUnderflow);
            },
        };
        let a = match self.stack.pop() {
            Some(v) => v,
            None => {
                return Err(VmError::StackUnderflow);
            },
        };
        match (&a, &b) {
            (Value::Bool(x), Value::Bool(y)) => {
                let v = Value::Bool(
                    if is_and {
                        *x && *y
                    } else {
                        *x || *y
                    },
                );
                self.stack.push(v);
                Ok(())
            },
            _ => Err(VmError::TypeError("Invalid operands for logical operation".to_owned())),
        }
    }

    /// `NOT`: the operand must be a boolean.
    fn exec_not(&mut self) -> (r: Result<(), VmError>)
        ensures
            same_but_stack(*old(self), *final(self)),
            old(self).stack@.len() == 0 ==> (r matches Err(e) && e is StackUnderflow) && final(self).stack@ == old(self).stack@,
            old(self).stack@.len() > 0 ==> match old(self).stack@.last() {
                Value::Bool(x) => r is Ok && final(self).stack@ == old(self).stack@.drop_last().push(Value::Bool(!x)),
                _ => (r matches Err(e) && e is TypeError) && final(self).stack@ == old(self).stack@.drop_last(),
            },
    {
        let v = self.pop_value()?;
        match &v {
            Value::Bool(x) => {
                self.stack.push(Value::Bool(!*x));
                Ok(())
            },
            _ => Err(VmError::TypeError("Cannot apply NOT to non-boolean value".to_owned())),
        }
    }

    /// `NEG`: negates an integer (wrapping at `i64::MIN`) or a
    /// floating-point number (flipping the sign bit).
    fn exec_neg(&mut self) -> (r: Result<(), VmError>)
        ensures
            same_but_stack(*old(self), *final(self)),
            old(self).stack@.len() == 0 ==> (r matches Err(e) && e is StackUnderflow) && final(self).stack@ == old(self).stack@,
            old(self).stack@.len() > 0 ==> match old(self).stack@.last() {
                Value::Int(x) => r is Ok && final(self).stack@ == old(self).stack@.drop_last().push(Value::Int(i64_neg_wrap(x))),
                Value::Float(bits) => r is Ok && final(self).stack@ == old(self).stack@.drop_last().push(
                    Value::Float((bits ^ 0x8000_0000_0000_0000u64) as u64),
                ),
                _ => (r matches Err(e) && e is TypeError) && final(self).stack@ == old(self).stack@.drop_last(),
            },
    {
        let v = self.pop_value()?;
        match &v {
            Value::Int(x) => {
                let neg: i64 = if *x == i64::MIN {
                    i64::MIN
                } else {
                    -*x
                };
                self.stack.push(Value::Int(neg));
                Ok(())
            },
            Value::Float(bits) => {
                self.stack.push(Value::Float(*bits ^ 0x8000_0000_0000_0000u64));
                Ok(())
            },
            _ => Err(VmError::TypeError("Cannot negate non-numeric value".to_owned())),
        }
    }
}

impl LoomVM {
    /// `LOAD_CONST`: pushes constant-pool entry `index`; an out-of-range
    /// index (or a missing program) is a `Runtime` failure.
    fn exec_load_const(&mut self, index: usize) -> (r: Result<(), VmError>)
        ensures
            same_but_stack(*old(self), *final(self)),
            match old(self).program {
                Some(p) => {
                    &&& index < p.constants@.len() ==> r is Ok && final(self).stack@ == old(self).stack@.push(p.constants@[index as int])
                    &&& index >= p.constants@.len() ==> (r matches Err(e) && e is Runtime)
                        && final(self).stack@ == old(self).stack@
                },
                None => (r matches Err(e) && e is Runtime) && final(self).stack@ == old(self).stack@,
            },
    {
        let c = match &self.program {
            Some(p) => {
                if index < p.constants.len() {
                    clone_value(&p.constants[index])
                } else {
                    return Err(VmError::Runtime("Invalid constant index".to_owned()));
                }
            },
            None => {
                return Err(VmError::Runtime("No program loaded".to_owned()));
            },
        };
        self.stack.push(c);
        Ok(())
    }

    /// `LOAD_VAR`: pushes the named variable's value, locals first, then
    /// globals; a name bound in neither is `UndefinedVariable`.
    fn exec_load_var(&mut self, name: &str) -> (r: Result<(), VmError>)
        requires
            old(self).wf(),
        ensures
            same_but_stack(*old(self), *final(self)),
            old(self).locals@.contains_key(name@) ==> r is Ok && final(self).stack@ == old(self).stack@.push(old(self).locals@[name@]),
            !old(self).locals@.contains_key(name@) && old(self).globals@.contains_key(name@)
                ==> r is Ok && final(self).stack@ == old(self).stack@.push(
                old(self).globals@[name@],
            ),
            !old(self).locals@.contains_key(name@) && !old(self).globals@.contains_key(name@)
                ==> (r matches Err(e) && e matches VmError::UndefinedVariable(m) && m@ == name@)
                && final(self).stack@ == old(self).stack@,
    {
        let v = match self.locals.get(name) {
            Some(v) => clone_value(v),
            None => match self.globals.get(name) {
                Some(v) => clone_value(v),
                None => {
                    return Err(VmError::UndefinedVariable(name.to_owned()));
                },
            },
        };
        self.stack.push(v);
        Ok(())
    }

    /// `STORE_VAR`: pops a value and binds it in the current locals —
    /// never in the globals, which only the artifact seeds.
    fn exec_store_var(&mut self, name: &str) -> (r: Result<(), VmError>)
        requires
            old(self).wf(),
        ensures
            final(self).locals.wf(),
            final(self).memory == old(self).memory,
            final(self).runtime == old(self).runtime,
            final(self).program == old(self).program,
            final(self).globals == old(self).globals,
            final(self).call_stack == old(self).call_stack,
            final(self).ip == old(self).ip,
            final(self).code == old(self).code,
            final(self).current_function == old(self).current_function,
            final(self).debug_mode == old(self).debug_mode,
            final(self).pending == old(self).pending,
            old(self).stack@.len() == 0 ==> (r matches Err(e) && e is StackUnderflow) && final(self).stack@ == old(self).stack@ && final(self).locals == old(self).locals,
            old(self).stack@.len() > 0 ==> r is Ok && final(self).stack@ == old(self).stack@.drop_last() && final(self).locals@ == old(self).locals@.insert(
                name@,
                old(self).stack@.last(),
            ),
    {
        let v = self.pop_value()?;
        self.locals.insert(name.to_owned(), v);
        Ok(())
    }

    /// `NEW`: allocates an object of the given class and pushes its
    /// reference; a full ID space is a `MemoryError`.
    fn exec_new(&mut self, class_name: &str) -> (r: Result<(), VmError>)
        requires
            old(self).wf(),
        ensures
            final(self).memory.wf(),
            final(self).runtime == old(self).runtime,
            final(self).program == old(self).program,
            final(self).locals == old(self).locals,
            final(self).globals == old(self).globals,
            final(self).call_stack == old(self).call_stack,
            final(self).ip == old(self).ip,
            final(self).code == old(self).code,
            final(self).current_function == old(self).current_function,
            final(self).debug_mode == old(self).debug_mode,
            final(self).pending == old(self).pending,
            r is Ok ==> {
                &&& final(self).stack@.len() == old(self).stack@.len() + 1
                &&& final(self).stack@.drop_last() == old(self).stack@
                &&& final(self).stack@.last() matches Value::Object(id) && id == old(self).memory.next_object_id() && final(self).memory.objects_map().contains_key(id)
                    && final(self).memory.objects_map()[id].class_name@ == class_name@ && final(self).memory.objects_map()[id].ref_count == 1 && final(self).memory.objects_map()[id].fields@ == Map::<Seq<char>, Value>::empty() && !old(self).memory.objects_map().contains_key(id)
                &&& final(self).memory.arrays_map() == old(self).memory.arrays_map()
            },
            r matches Err(e) ==> e is MemoryError && final(self).stack@ == old(self).stack@,
    {
        if self.memory.object_count() >= usize::MAX - 1 {
            return Err(VmError::MemoryError("object ID space exhausted".to_owned()));
        }
        let id = self.memory.allocate_object(class_name.to_owned());
        self.stack.push(Value::Object(id));
        proof {
            assert(final(self).stack@.drop_last() =~= old(self).stack@);
        }
        Ok(())
    }

    /// `NEW_ARRAY`: allocates an array of `Null`s of the given size and
    /// pushes its reference; a full ID space is a `MemoryError`.
    fn exec_new_array(&mut self, size: usize) -> (r: Result<(), VmError>)
        requires
            old(self).wf(),
        ensures
            final(self).memory.wf(),
            final(self).runtime == old(self).runtime,
            final(self).program == old(self).program,
            final(self).locals == old(self).locals,
            final(self).globals == old(self).globals,
            final(self).call_stack == old(self).call_stack,
            final(self).ip == old(self).ip,
            final(self).code == old(self).code,
            final(self).current_function == old(self).current_function,
            final(self).debug_mode == old(self).debug_mode,
            final(self).pending == old(self).pending,
            r is Ok ==> {
                &&& final(self).stack@.len() == old(self).stack@.len() + 1
                &&& final(self).stack@.drop_last() == old(self).stack@
                &&& final(self).stack@.last() matches Value::Array(id) && id == old(self).memory.next_array_id() && final(self).memory.arrays_map().contains_key(id)
                    && final(self).memory.arrays_map()[id].elements@.len() == size && (forall|
                    k: int,
                |
                    0 <= k < size ==> final(self).memory.arrays_map()[id].elements@[k] is Null)
                    && final(self).memory.arrays_map()[id].ref_count == 1 && !old(self).memory.arrays_map().contains_key(id)
                &&& final(self).memory.objects_map() == old(self).memory.objects_map()
            },
            r matches Err(e) ==> e is MemoryError && final(self).stack@ == old(self).stack@,
    {
        if self.memory.array_count() >= usize::MAX - 1 {
            return Err(VmError::MemoryError("array ID space exhausted".to_owned()));
        }
        let id = self.memory.allocate_array("any".to_owned(), size);
        self.stack.push(Value::Array(id));
        proof {
            assert(final(self).stack@.drop_last() =~= old(self).stack@);
        }
        Ok(())
    }

    /// `GET_FIELD`: pops an object reference and pushes the named field's
    /// value; anything else — a non-object operand, a dangling reference
    /// or a missing field — is a `Runtime` failure.
    fn exec_get_field(&mut self, field_name: &str) -> (r: Result<(), VmError>)
        requires
            old(self).wf(),
        ensures
            same_but_stack(*old(self), *final(self)),
            old(self).stack@.len() == 0 ==> (r matches Err(e) && e is StackUnderflow) && final(self).stack@ == old(self).stack@,
            old(self).stack@.len() > 0 ==> {
                let target = old(self).stack@.last();
                match target {
                    Value::Object(id) => {
                        if old(self).memory.objects_map().contains_key(id) && old(self).memory.objects_map()[id].fields@.contains_key(field_name@) {
                            r is Ok && final(self).stack@ == old(self).stack@.drop_last().push(
                                old(self).memory.objects_map()[id].fields@[field_name@],
                            )
                        } else {
                            (r matches Err(e) && e is Runtime) && final(self).stack@ == old(self).stack@.drop_last()
                        }
                    },
                    _ => (r matches Err(e) && e is Runtime) && final(self).stack@ == old(self).stack@.drop_last(),
                }
            },
    {
        let target = self.pop_value()?;
        match &target {
            Value::Object(id) => {
                let field = match self.memory.get_object(*id) {
                    Some(object) => match object.fields.get(field_name) {
                        Some(v) => clone_value(v),
                        None => {
                            return Err(self.field_not_found(field_name));
                        },
                    },
                    None => {
                        return Err(self.field_not_found(field_name));
                    },
                };
                self.stack.push(field);
                Ok(())
            },
            _ => Err(self.field_not_found(field_name)),
        }
    }

    /// The `Runtime` failure for a missing field.
    fn field_not_found(&self, field_name: &str) -> (r: VmError)
        ensures
            r is Runtime,
    {
        let mut m = "Field '".to_owned();
        m.append(field_name);
        m.append("' not found");
        VmError::Runtime(m)
    }

    /// `SET_FIELD`: pops the value, then the object reference, writes the
    /// field and pushes the value back; a non-object or dangling
    /// reference is a `Runtime` failure.
    fn exec_set_field(&mut self, field_name: &str) -> (r: Result<(), VmError>)
        requires
            old(self).wf(),
        ensures
            final(self).memory.wf(),
            final(self).runtime == old(self).runtime,
            final(self).program == old(self).program,
            final(self).locals == old(self).locals,
            final(self).globals == old(self).globals,
            final(self).call_stack == old(self).call_stack,
            final(self).ip == old(self).ip,
            final(self).code == old(self).code,
            final(self).current_function == old(self).current_function,
            final(self).debug_mode == old(self).debug_mode,
            final(self).pending == old(self).pending,
            old(self).stack@.len() < 2 ==> (r matches Err(e) && e is StackUnderflow) && final(self).stack@ == old(self).stack@ && final(self).memory == old(self).memory,
            old(self).stack@.len() >= 2 ==> {
                let value = old(self).stack@.last();
                let target = old(self).stack@[old(self).stack@.len() - 2];
                match target {
                    Value::Object(id) => {
                        if old(self).memory.objects_map().contains_key(id) {
                            &&& r is Ok
                            &&& final(self).stack@ == old(self).stack@.drop_last().drop_last().push(value)
                            &&& final(self).memory.objects_map().contains_key(id)
                            &&& final(self).memory.objects_map()[id].fields@ == old(self).memory.objects_map()[id].fields@.insert(field_name@, value)
                            &&& final(self).memory.objects_map().dom() == old(self).memory.objects_map().dom()
                            &&& forall|other: u64|
                                other != id && old(self).memory.objects_map().contains_key(other)
                                    ==> final(self).memory.objects_map()[other] == old(self).memory.objects_map()[other]
                            &&& final(self).memory.arrays_map() == old(self).memory.arrays_map()
                        } else {
                            (r matches Err(e) && e is Runtime) && final(self).stack@ == old(self).stack@.drop_last().drop_last() && final(self).memory.objects_map()
                                == old(self).memory.objects_map() && final(self).memory.arrays_map() == old(self).memory.arrays_map()
                        }
                    },
                    _ => (r matches Err(e) && e is Runtime) && final(self).stack@ == old(self).stack@.drop_last().drop_last() && final(self).memory == old(self).memory,
                }
            },
    {
        let n = self.stack.len();
        if n < 2 {
            return Err(VmError::StackUnderflow);
        }
        let value = match self.stack.pop() {
            Some(v) => v,
            None => {
                return Err(VmError::StackUnderflow);
            },
        };
        let target = match self.stack.pop() {
            Some(v) => v,
            None => {
                return Err(VmError::StackUnderflow);
            },
        };
        match &target {
            Value::Object(id) => {
                let stored = clone_value(&value);
                match self.memory.set_object_field(*id, field_name, stored) {
                    Ok(()) => {
                        self.stack.push(value);
                        Ok(())
                    },
                    Err(_) => {
                        let mut m = "Cannot set field '".to_owned();
                        m.append(field_name);
                        m.append("'");
                        Err(VmError::Runtime(m))
                    },
                }
            },
            _ => {
                let mut m = "Cannot set field '".to_owned();
                m.append(field_name);
                m.append("'");
                Err(VmError::Runtime(m))
            },
        }
    }

    /// `GET_ELEMENT`: pops the index, then the array reference, and
    /// pushes the element; a wrong-kind operand, a dangling reference, a
    /// negative index or one at or past the length is a `Runtime`
    /// failure.
    fn exec_get_element(&mut self) -> (r: Result<(), VmError>)
        requires
            old(self).wf(),
        ensures
            same_but_stack(*old(self), *final(self)),
            old(self).stack@.len() < 2 ==> (r matches Err(e) && e is StackUnderflow) && final(self).stack@ == old(self).stack@,
            old(self).stack@.len() >= 2 ==> {
                let index = old(self).stack@.last();
                let target = old(self).stack@[old(self).stack@.len() - 2];
                match (target, index) {
                    (Value::Array(id), Value::Int(i)) => {
                        if old(self).memory.arrays_map().contains_key(id) && 0 <= i < old(self).memory.arrays_map()[id].elements@.len() {
                            r is Ok && final(self).stack@ == old(self).stack@.drop_last().drop_last().push(
                                old(self).memory.arrays_map()[id].elements@[i as int],
                            )
                        } else {
                            (r matches Err(e) && e is Runtime) && final(self).stack@ == old(self).stack@.drop_last().drop_last()
                        }
                    },
                    _ => (r matches Err(e) && e is Runtime) && final(self).stack@ == old(self).stack@.drop_last().drop_last(),
                }
            },
    {
        let n = self.stack.len();
        if n < 2 {
            return Err(VmError::StackUnderflow);
        }
        let index = match self.stack.pop() {
            Some(v) => v,
            None => {
                return Err(VmError::StackUnderflow);
            },
        };
        let target = match self.stack.pop() {
            Some(v) => v,
            None => {
                return Err(VmError::StackUnderflow);
            },
        };
        match (&target, &index) {
            (Value::Array(id), Value::Int(i)) => {
                let element = match self.memory.get_array(*id) {
                    Some(array) => {
                        if *i >= 0 && (*i as u64) < (array.elements.len() as u64) {
                            clone_value(&array.elements[*i as usize])
                        } else {
                            return Err(VmError::Runtime("Invalid array access".to_owned()));
                        }
                    },
                    None => {
                        return Err(VmError::Runtime("Invalid array access".to_owned()));
                    },
                };
                self.stack.push(element);
                Ok(())
            },
            _ => Err(VmError::Runtime("Invalid array access".to_owned())),
        }
    }

    /// `SET_ELEMENT`: pops the value, the index, then the array
    /// reference, writes the element and pushes the value back; a
    /// wrong-kind operand or an out-of-bounds index is a `Runtime`
    /// failure.
    fn exec_set_element(&mut self) -> (r: Result<(), VmError>)
        requires
            old(self).wf(),
        ensures
            final(self).memory.wf(),
            final(self).runtime == old(self).runtime,
            final(self).program == old(self).program,
            final(self).locals == old(self).locals,
            final(self).globals == old(self).globals,
            final(self).call_stack == old(self).call_stack,
            final(self).ip == old(self).ip,
            final(self).code == old(self).code,
            final(self).current_function == old(self).current_function,
            final(self).debug_mode == old(self).debug_mode,
            final(self).pending == old(self).pending,
            old(self).stack@.len() < 3 ==> (r matches Err(e) && e is StackUnderflow) && final(self).stack@ == old(self).stack@ && final(self).memory == old(self).memory,
            old(self).stack@.len() >= 3 ==> {
                let value = old(self).stack@.last();
                let index = old(self).stack@[old(self).stack@.len() - 2];
                let target = old(self).stack@[old(self).stack@.len() - 3];
                match (target, index) {
                    (Value::Array(id), Value::Int(i)) => {
                        if old(self).memory.arrays_map().contains_key(id) && 0 <= i < old(self).memory.arrays_map()[id].elements@.len() {
                            &&& r is Ok
                            &&& final(self).stack@ == old(self).stack@.drop_last().drop_last().drop_last().push(value)
                            &&& final(self).memory.arrays_map().contains_key(id)
                            &&& final(self).memory.arrays_map()[id].elements@ == old(self).memory.arrays_map()[id].elements@.update(i as int, value)
                            &&& final(self).memory.arrays_map().dom() == old(self).memory.arrays_map().dom()
                            &&& forall|other: u64|
                                other != id && old(self).memory.arrays_map().contains_key(other)
                                    ==> final(self).memory.arrays_map()[other] == old(self).memory.arrays_map()[other]
                            &&& final(self).memory.objects_map() == old(self).memory.objects_map()
                        } else {
                            (r matches Err(e) && e is Runtime) && final(self).stack@ == old(self).stack@.drop_last().drop_last().drop_last() && final(self).memory.objects_map() == old(self).memory.objects_map() && final(self).memory.arrays_map() == old(self).memory.arrays_map()
                        }
                    },
                    _ => (r matches Err(e) && e is Runtime) && final(self).stack@ == old(self).stack@.drop_last().drop_last().drop_last() && final(self).memory == old(self).memory,
                }
            },
    {
        let n = self.stack.len();
        if n < 3 {
            return Err(VmError::StackUnderflow);
        }
        let value = match self.stack.pop() {
            Some(v) => v,
            None => {
                return Err(VmError::StackUnderflow);
            },
        };
        let index = match self.stack.pop() {
            Some(v) => v,
            None => {
                return Err(VmError::StackUnderflow);
            },
        };
        let target = match self.stack.pop() {
            Some(v) => v,
            None => {
                return Err(VmError::StackUnderflow);
            },
        };
        match (&target, &index) {
            (Value::Array(id), Value::Int(i)) => {
                let in_range = match self.memory.get_array(*id) {
                    Some(array) => *i >= 0 && (*i as u64) < (array.elements.len() as u64),
                    None => false,
                };
                if !in_range {
                    return Err(VmError::Runtime("Invalid array access".to_owned()));
                }
                let stored = clone_value(&value);
                match self.memory.set_array_element(*id, *i as usize, stored) {
                    Ok(()) => {
                        self.stack.push(value);
                        Ok(())
                    },
                    Err(_) => Err(VmError::Runtime("Invalid array access".to_owned())),
                }
            },
            _ => Err(VmError::Runtime("Invalid array access".to_owned())),
        }
    }

    /// `GET_LENGTH`: pops an array reference and pushes its length; a
    /// wrong-kind operand or dangling reference is a `Runtime` failure.
    fn exec_get_length(&mut self) -> (r: Result<(), VmError>)
        requires
            old(self).wf(),
        ensures
            same_but_stack(*old(self), *final(self)),
            old(self).stack@.len() == 0 ==> (r matches Err(e) && e is StackUnderflow) && final(self).stack@ == old(self).stack@,
            old(self).stack@.len() > 0 ==> {
                let target = old(self).stack@.last();
                match target {
                    Value::Array(id) => {
                        if old(self).memory.arrays_map().contains_key(id) && old(self).memory.arrays_map()[id].elements@.len() <= i64::MAX {
                            r is Ok && final(self).stack@ == old(self).stack@.drop_last().push(
                                Value::Int(old(self).memory.arrays_map()[id].elements@.len() as i64),
                            )
                        } else {
                            (r matches Err(e) && e is Runtime) && final(self).stack@ == old(self).stack@.drop_last()
                        }
                    },
                    _ => (r matches Err(e) && e is Runtime) && final(self).stack@ == old(self).stack@.drop_last(),
                }
            },
    {
        let target = self.pop_value()?;
        match &target {
            Value::Array(id) => {
                let length = match self.memory.get_array(*id) {
                    Some(array) => {
                        if (array.elements.len() as u64) <= 0x7fff_ffff_ffff_ffffu64 {
                            array.elements.len() as i64
                        } else {
                            return Err(VmError::Runtime("Invalid array".to_owned()));
                        }
                    },
                    None => {
                        return Err(VmError::Runtime("Invalid array".to_owned()));
                    },
                };
                self.stack.push(Value::Int(length));
                Ok(())
            },
            _ => Err(VmError::Runtime("Invalid array".to_owned())),
        }
    }

    /// `IS_NULL`: pops a value and pushes whether it was `Null`.
    fn exec_is_null(&mut self) -> (r: Result<(), VmError>)
        ensures
            same_but_stack(*old(self), *final(self)),
            old(self).stack@.len() == 0 ==> (r matches Err(e) && e is StackUnderflow) && final(self).stack@ == old(self).stack@,
            old(self).stack@.len() > 0 ==> r is Ok && final(self).stack@ == old(self).stack@.drop_last().push(Value::Bool(old(self).stack@.last() is Null)),
    {
        let v = self.pop_value()?;
        let is_null = match &v {
            Value::Null => true,
            _ => false,
        };
        self.stack.push(Value::Bool(is_null));
        Ok(())
    }
}

/// What one dispatch step did.
#[derive(Debug)]
pub enum StepResult {
    /// The instruction completed; execution continues.
    Continue,
    /// The outermost execution finished with this value.
    Finished(Value),
    /// An effect was issued; the engine waits for [`LoomVM::resume`].
    Suspended(EffectRequest),
}

/// Where the operand stack is cut when a frame returns: at the frame's
/// base, or where the stack already ends if pops went below the base.
pub open spec fn return_cut(stack: Seq<Value>, base: int) -> int {
    if base <= stack.len() {
        base
    } else {
        stack.len() as int
    }
}

/// The value a frame returns: the top of the stack when anything sits
/// above the frame's base, `Null` otherwise.
pub open spec fn return_value(stack: Seq<Value>, base: int) -> Value {
    if stack.len() > base {
        stack.last()
    } else {
        Value::Null
    }
}

impl LoomVM {
    /// Enters a function: resolves the name, caps the call-stack depth,
    /// pops the arguments (pushed left to right, so the last argument is
    /// on top), binds them to the declared parameters in a fresh locals
    /// map, and pushes a frame saving the caller's state.
    fn enter_function(&mut self, name: &str, return_address: usize) -> (r: Result<(), VmError>)
        requires
            old(self).wf(),
            old(self).program is Some,
            old(self).pending is None,
        ensures
            final(self).wf(),
            !old(self).program->Some_0.functions@.contains_key(name@) ==> (r matches Err(e) && (
            e matches VmError::UndefinedFunction(m) && m@ == name@)) && *final(self) == *old(self),
            old(self).program->Some_0.functions@.contains_key(name@) ==> {
                let f = old(self).program->Some_0.functions@[name@];
                let n = f.parameters@.len();
                if old(self).runtime.spec_config().stack_limit matches Some(limit) && old(self).call_stack@.len() >= limit {
                    (r matches Err(e) && e is StackOverflow) && *final(self) == *old(self)
                } else if old(self).stack@.len() < n {
                    (r matches Err(e) && e is StackUnderflow) && *final(self) == *old(self)
                } else {
                    &&& r is Ok
                    &&& final(self).stack@ == old(self).stack@.take(
                        old(self).stack@.len() - n,
                    )
                    &&& final(self).locals@ == bind_params(
                        f.parameters@,
                        old(self).stack@.skip(old(self).stack@.len() - n),
                    )
                    &&& final(self).call_stack@.len() == old(self).call_stack@.len() + 1
                    &&& final(self).call_stack@.drop_last() == old(self).call_stack@
                    &&& final(self).call_stack@.last().function_name@ == name@
                    &&& final(self).call_stack@.last().return_address == return_address
                    &&& final(self).call_stack@.last().locals == old(self).locals
                    &&& final(self).call_stack@.last().stack_base == old(self).stack@.len() - n
                    &&& final(self).current_function matches Some(g) && g@ == name@
                    &&& final(self).ip == 0
                    &&& final(self).code@ == f.instructions@
                    &&& final(self).memory == old(self).memory
                    &&& final(self).globals == old(self).globals
                    &&& final(self).program == old(self).program
                    &&& final(self).runtime == old(self).runtime
                    &&& final(self).debug_mode == old(self).debug_mode
                    &&& final(self).pending is None
                }
            },
    {
        let (params, instrs) = match &self.program {
            Some(p) => match p.functions.get(name) {
                Some(f) => (clone_names(&f.parameters), clone_instructions(&f.instructions)),
                None => {
                    return Err(VmError::UndefinedFunction(name.to_owned()));
                },
            },
            None => {
                return Err(VmError::Runtime("No program loaded".to_owned()));
            },
        };
        let limit = self.runtime.config().stack_limit;
        match limit {
            Some(l) => {
                if self.call_stack.len() >= l {
                    return Err(VmError::StackOverflow);
                }
            },
            None => {},
        }
        let n = params.len();
        if self.stack.len() < n {
            return Err(VmError::StackUnderflow);
        }
        let args = self.stack.split_off(self.stack.len() - n);
        let mut callee_locals = NameMap::new();
        let mut k: usize = 0;
        while k < n
            invariant
                n == params@.len(),
                n == args@.len(),
                k <= n,
                callee_locals.wf(),
                callee_locals@ == bind_params(params@.take(k as int), args@.take(k as int)),
            decreases n - k,
        {
            callee_locals.insert(params[k].clone(), clone_value(&args[k]));
            proof {
                assert(params@.take(k + 1int).drop_last() =~= params@.take(k as int));
                assert(args@.take(k + 1int).drop_last() =~= args@.take(k as int));
                assert(params@.take(k + 1int).last() == params@[k as int]);
                assert(args@.take(k + 1int).last() == args@[k as int]);
            }
            k = k + 1;
        }
        proof {
            assert(params@.take(n as int) =~= params@);
            assert(args@.take(n as int) =~= args@);
        }
        core::mem::swap(&mut self.locals, &mut callee_locals);
        let base = self.stack.len();
        self.call_stack.push(
            CallFrame {
                function_name: name.to_owned(),
                return_address,
                locals: callee_locals,
                stack_base: base,
            },
        );
        self.current_function = Some(name.to_owned());
        self.code = instrs;
        self.ip = 0;
        proof {
            assert(final(self).call_stack@.drop_last() =~= old(self).call_stack@);
            assert forall|i: int| 0 <= i < final(self).call_stack@.len() implies (
            #[trigger] final(self).call_stack@[i]).locals.wf() by {
                if i < old(self).call_stack@.len() {
                    assert(final(self).call_stack@[i] == old(self).call_stack@[i]);
                }
            }
            assert forall|i: int|
                0 <= i < final(self).call_stack@.len() implies old(self).program->Some_0.functions@.contains_key(
                (#[trigger] final(self).call_stack@[i]).function_name@,
            ) by {
                if i < old(self).call_stack@.len() {
                    assert(final(self).call_stack@[i] == old(self).call_stack@[i]);
                }
            }
        }
        Ok(())
    }

    /// Leaves the current frame: takes the return value from above the
    /// frame's base (or `Null`), cuts the stack back to the base,
    /// restores the caller's locals and instruction pointer, and pushes
    /// the return value for the caller.  Leaving the outermost frame
    /// finishes execution and yields the value instead.
    fn do_return(&mut self) -> (r: Result<Option<Value>, VmError>)
        requires
            old(self).wf(),
            old(self).running(),
            old(self).pending is None,
        ensures
            final(self).wf(),
            r is Ok,
            ({
                let frame = old(self).call_stack@.last();
                let rv = return_value(old(self).stack@, frame.stack_base as int);
                let cut = return_cut(old(self).stack@, frame.stack_base as int);
                if old(self).call_stack@.len() == 1 {
                    &&& r matches Ok(o) && o matches Some(v) && v == rv
                    &&& !final(self).running()
                    &&& final(self).call_stack@.len() == 0
                    &&& final(self).stack@ == old(self).stack@.take(cut)
                    &&& final(self).pending is None
                    &&& final(self).memory == old(self).memory
                    &&& final(self).globals == old(self).globals
                    &&& final(self).program == old(self).program
                    &&& final(self).runtime == old(self).runtime
                    &&& final(self).debug_mode == old(self).debug_mode
                } else {
                    &&& r matches Ok(o) && o is None
                    &&& final(self).running()
                    &&& final(self).call_stack@ == old(self).call_stack@.drop_last()
                    &&& final(self).stack@ == old(self).stack@.take(cut).push(rv)
                    &&& final(self).locals == frame.locals
                    &&& final(self).ip == frame.return_address
                    &&& final(self).pending is None
                    &&& final(self).memory == old(self).memory
                    &&& final(self).globals == old(self).globals
                    &&& final(self).program == old(self).program
                    &&& final(self).runtime == old(self).runtime
                    &&& final(self).debug_mode == old(self).debug_mode
                    &&& final(self).current_function matches Some(g) && g@ == final(self).call_stack@.last().function_name@
                }
            }),
    {
        let frame = match self.call_stack.pop() {
            Some(f) => f,
            None => {
                proof {
                    assert(false);
                }
                return Err(VmError::Runtime("No active frame".to_owned()));
            },
        };
        let rv = if self.stack.len() > frame.stack_base {
            match self.stack.pop() {
                Some(v) => v,
                None => Value::Null,
            }
        } else {
            Value::Null
        };
        if self.stack.len() > frame.stack_base {
            self.stack.truncate(frame.stack_base);
        }
        proof {
            assert(self.stack@ =~= old(self).stack@.take(
                return_cut(old(self).stack@, frame.stack_base as int),
            ));
        }
        self.locals = frame.locals;
        self.ip = frame.return_address;
        if self.call_stack.len() == 0 {
            self.current_function = None;
            self.code = Vec::new();
            Ok(Some(rv))
        } else {
            let caller = self.call_stack[self.call_stack.len() - 1].function_name.clone();
            let instrs = match &self.program {
                Some(p) => match p.functions.get(caller.as_str()) {
                    Some(f) => clone_instructions(&f.instructions),
                    None => {
                        proof {
                            assert(old(self).call_stack@[old(self).call_stack@.len() - 2] == final(self).call_stack@.last());
                            assert(false);
                        }
                        return Err(VmError::Runtime("Calling function not found".to_owned()));
                    },
                },
                None => {
                    proof {
                        assert(false);
                    }
                    return Err(VmError::Runtime("No program loaded".to_owned()));
                },
            };
            self.code = instrs;
            self.current_function = Some(caller);
            self.stack.push(rv);
            proof {
                assert(final(self).call_stack@ =~= old(self).call_stack@.drop_last());
                assert(old(self).call_stack@[old(self).call_stack@.len() - 2] == final(self).call_stack@.last());
            }
            Ok(None)
        }
    }

    /// `CALL_NATIVE`: resolves the built-in, pops its arguments and
    /// either pushes the computed result or issues the built-in's host
    /// request.  Requests with no result (printing, sleeping) get their
    /// `Null` result pushed at once.
    fn exec_call_native(&mut self, name: &str) -> (r: Result<Option<EffectRequest>, VmError>)
        requires
            old(self).wf(),
            old(self).running(),
            old(self).pending is None,
        ensures
            final(self).wf(),
            final(self).memory == old(self).memory,
            final(self).runtime == old(self).runtime,
            final(self).program == old(self).program,
            final(self).locals == old(self).locals,
            final(self).globals == old(self).globals,
            final(self).call_stack == old(self).call_stack,
            final(self).ip == old(self).ip,
            final(self).code == old(self).code,
            final(self).current_function == old(self).current_function,
            final(self).debug_mode == old(self).debug_mode,
            native_step_post(name@, old(self).stack@, final(self).stack@, final(self).pending, r),
    {
        let arity = match Runtime::native_arity(name) {
            Some(a) => a,
            None => {
                let mut m = "native:".to_owned();
                m.append(name);
                return Err(VmError::UndefinedFunction(m));
            },
        };
        if self.stack.len() < arity {
            return Err(VmError::StackUnderflow);
        }
        let args = self.stack.split_off(self.stack.len() - arity);
        let outcome = self.runtime.call_native(name, args.as_slice());
        match outcome {
            Ok(NativeOutcome::Done(v)) => {
                self.stack.push(v);
                Ok(None)
            },
            Ok(NativeOutcome::Host(e)) => {
                let needs_reply = match &e {
                    EffectRequest::Print { .. } => false,
                    EffectRequest::Printf { .. } => false,
                    EffectRequest::Sleep { .. } => false,
                    _ => true,
                };
                if needs_reply {
                    self.pending = Some(PendingKind::PushReply);
                } else {
                    self.stack.push(Value::Null);
                    self.pending = Some(PendingKind::Ignore);
                }
                Ok(Some(e))
            },
            Err(e) => Err(e),
        }
    }
}

/// The boundary behaviors of one dispatch step, stated over the state
/// before the step: underflow, bad constant indexes, unresolved names,
/// zero divisors and out-of-range element accesses each surface as their
/// own failure kind.
pub open spec fn step_laws(pre: LoomVM, r: Result<StepResult, VmError>) -> bool {
    pre.ip < pre.code@.len() ==> {
        let i = pre.code@[pre.ip as int];
        &&& (i is POP && pre.stack@.len() == 0 ==> (r matches Err(e) && e is StackUnderflow))
        &&& (match i {
            Instruction::LOAD_CONST(k) => (pre.program matches Some(p) && k
                >= p.constants@.len()) ==> (r matches Err(e) && e is Runtime),
            _ => true,
        })
        &&& (match i {
            Instruction::LOAD_VAR(n) => !pre.locals@.contains_key(n@)
                && !pre.globals@.contains_key(n@) ==> (r matches Err(e)
                && e is UndefinedVariable),
            _ => true,
        })
        &&& (match i {
            Instruction::CALL(n) => (pre.program matches Some(p) && !p.functions@.contains_key(
                n@,
            )) ==> (r matches Err(e) && e is UndefinedFunction),
            _ => true,
        })
        &&& ((i is DIV || i is MOD) && pre.stack@.len() >= 2 && is_numeric(
            pre.stack@[pre.stack@.len() - 2],
        ) && is_numeric(pre.stack@.last()) && divisor_is_zero(pre.stack@.last()) ==> (r matches
        Err(e) && e is DivisionByZero))
        &&& (i is GET_ELEMENT && pre.stack@.len() >= 2 ==> (match (
            pre.stack@[pre.stack@.len() - 2],
            pre.stack@.last(),
        ) {
            (Value::Array(id), Value::Int(idx)) => pre.memory.arrays_map().contains_key(id) && !(
            0 <= idx < pre.memory.arrays_map()[id].elements@.len()) ==> (r matches Err(e)
                && e is Runtime),
            _ => true,
        }))
    }
}

/// The exact behavior of a `CALL_NATIVE` dispatch over the operand stack
/// and the pending flag: an unknown built-in or too few arguments fail
/// with nothing consumed; otherwise the built-in's arguments come off the
/// stack and its outcome follows the registry's calling contract — a
/// computed value is pushed, a host request either pushes its `Null`
/// result at once (printing, sleeping) or leaves the reply to be pushed
/// on resumption, and a failure consumes only the arguments.
pub open spec fn native_step_post(
    name: Seq<char>,
    pre_stack: Seq<Value>,
    post_stack: Seq<Value>,
    post_pending: Option<PendingKind>,
    r: Result<Option<EffectRequest>, VmError>,
) -> bool {
    if !crate::runtime::is_native_name(name) {
        &&& (r matches Err(e) && e matches VmError::UndefinedFunction(m) && m@ == "native:"@
            + name)
        &&& post_stack == pre_stack
        &&& post_pending is None
    } else {
        let ar = crate::runtime::spec_native_arity(name) as int;
        if pre_stack.len() < ar {
            &&& (r matches Err(e) && e is StackUnderflow)
            &&& post_stack == pre_stack
            &&& post_pending is None
        } else {
            let args = pre_stack.skip(pre_stack.len() - ar);
            let rest = pre_stack.take(pre_stack.len() - ar);
            match r {
                Ok(o) => match o {
                    None => exists|v: Value|
                        #[trigger] crate::runtime::native_post(
                            name,
                            args,
                            Ok(NativeOutcome::Done(v)),
                        ) && post_stack == rest.push(v) && post_pending is None,
                    Some(e) => crate::runtime::native_post(name, args, Ok(NativeOutcome::Host(e)))
                        && (match e {
                        EffectRequest::Print { .. } => post_stack == rest.push(Value::Null)
                            && post_pending == Some(PendingKind::Ignore),
                        EffectRequest::Printf { .. } => post_stack == rest.push(Value::Null)
                            && post_pending == Some(PendingKind::Ignore),
                        EffectRequest::Sleep { .. } => post_stack == rest.push(Value::Null)
                            && post_pending == Some(PendingKind::Ignore),
                        _ => post_stack == rest && post_pending == Some(PendingKind::PushReply),
                    }),
                },
                Err(e) => crate::runtime::native_post(name, args, Err(e)) && post_stack == rest
                    && post_pending is None,
            }
        }
    }
}

/// Everything but the operand stack, the instruction pointer and the
/// pending flag is unchanged.
pub open spec fn ctx_same(pre: LoomVM, post: LoomVM) -> bool {
    &&& post.memory == pre.memory
    &&& post.runtime == pre.runtime
    &&& post.program == pre.program
    &&& post.locals == pre.locals
    &&& post.globals == pre.globals
    &&& post.call_stack == pre.call_stack
    &&& post.code == pre.code
    &&& post.current_function == pre.current_function
    &&& post.debug_mode == pre.debug_mode
}

/// [`ctx_same`] without the heap, for the instructions that allocate or
/// mutate it.
pub open spec fn ctx_same_but_heap(pre: LoomVM, post: LoomVM) -> bool {
    &&& post.runtime == pre.runtime
    &&& post.program == pre.program
    &&& post.locals == pre.locals
    &&& post.globals == pre.globals
    &&& post.call_stack == pre.call_stack
    &&& post.code == pre.code
    &&& post.current_function == pre.current_function
    &&& post.debug_mode == pre.debug_mode
}

/// An ordinary completed instruction: context kept, no effect pending,
/// the instruction pointer advanced by one.
pub open spec fn stepped(pre: LoomVM, post: LoomVM, r: Result<StepResult, VmError>) -> bool {
    &&& ctx_same(pre, post)
    &&& post.pending is None
    &&& post.ip == pre.ip + 1
    &&& (r matches Ok(s) && s is Continue)
}

/// A failed instruction: context kept, no effect pending, the instruction
/// pointer not advanced (the failure unwinds to the host).
pub open spec fn step_failed(pre: LoomVM, post: LoomVM, r: Result<StepResult, VmError>) -> bool {
    &&& ctx_same(pre, post)
    &&& post.pending is None
    &&& post.ip == pre.ip
    &&& r is Err
}

/// The lift of a handler outcome into a dispatch outcome: a computed
/// result advances, a request suspends with the host's reply to be
/// pushed on resumption, a failure leaves the instruction pointer in
/// place.
pub open spec fn effect_lift(
    pre: LoomVM,
    post: LoomVM,
    hr: Result<Option<EffectRequest>, VmError>,
    r: Result<StepResult, VmError>,
) -> bool {
    match hr {
        Ok(o) => match o {
            None => (r matches Ok(s) && s is Continue) && post.ip == pre.ip + 1
                && post.pending is None,
            Some(e) => (r matches Ok(s) && s matches StepResult::Suspended(e2) && e2 == e)
                && post.ip == pre.ip + 1 && post.pending == Some(PendingKind::PushReply),
        },
        Err(e) => (r matches Err(e2) && e2 == e) && post.ip == pre.ip && post.pending is None,
    }
}

/// The lift of a `CALL_NATIVE` outcome into a dispatch outcome; what the
/// pending flag holds is pinned by [`native_step_post`] itself, since a
/// printing or sleeping request has its `Null` result pushed at once.
pub open spec fn native_lift(
    pre: LoomVM,
    post: LoomVM,
    hr: Result<Option<EffectRequest>, VmError>,
    r: Result<StepResult, VmError>,
) -> bool {
    match hr {
        Ok(o) => match o {
            None => (r matches Ok(s) && s is Continue) && post.ip == pre.ip + 1,
            Some(e) => (r matches Ok(s) && s matches StepResult::Suspended(e2) && e2 == e)
                && post.ip == pre.ip + 1,
        },
        Err(e) => (r matches Err(e2) && e2 == e) && post.ip == pre.ip,
    }
}

/// The behavior of leaving the current frame (an executed `RETURN`, or
/// the instruction pointer moving past the last instruction): the return
/// value comes from above the frame's base (or is `Null`), the stack is
/// cut back to the base, and either the caller resumes or — for the
/// outermost frame — execution finishes with that value.
pub open spec fn return_post(pre: LoomVM, post: LoomVM, r: Result<StepResult, VmError>) -> bool {
    let frame = pre.call_stack@.last();
    let rv = return_value(pre.stack@, frame.stack_base as int);
    let cut = return_cut(pre.stack@, frame.stack_base as int);
    &&& post.memory == pre.memory
    &&& post.runtime == pre.runtime
    &&& post.program == pre.program
    &&& post.globals == pre.globals
    &&& post.debug_mode == pre.debug_mode
    &&& post.pending is None
    &&& if pre.call_stack@.len() == 1 {
        &&& (r matches Ok(s) && s matches StepResult::Finished(v) && v == rv)
        &&& !post.running()
        &&& post.call_stack@.len() == 0
        &&& post.stack@ == pre.stack@.take(cut)
    } else {
        &&& (r matches Ok(s) && s is Continue)
        &&& post.running()
        &&& post.call_stack@ == pre.call_stack@.drop_last()
        &&& post.stack@ == pre.stack@.take(cut).push(rv)
        &&& post.locals == frame.locals
        &&& post.ip == frame.return_address
        &&& (post.current_function matches Some(g) && g@ == post.call_stack@.last().function_name@)
    }
}

/// The behavior of a `CALL`: resolve the name (`UndefinedFunction` when
/// absent), cap the call-stack depth, pop the arguments (pushed left to
/// right), bind them to the declared parameters in fresh locals, and push
/// a frame saving the caller's locals and resume point.
pub open spec fn call_post(
    pre: LoomVM,
    post: LoomVM,
    name: Seq<char>,
    r: Result<StepResult, VmError>,
) -> bool {
    &&& pre.program matches Some(p) ==> {
        if !p.functions@.contains_key(name) {
            (r matches Err(e) && e matches VmError::UndefinedFunction(m) && m@ == name) && post
                == pre
        } else {
            let f = p.functions@[name];
            let n = f.parameters@.len();
            if pre.runtime.spec_config().stack_limit matches Some(limit)
                && pre.call_stack@.len() >= limit {
                (r matches Err(e) && e is StackOverflow) && post == pre
            } else if pre.stack@.len() < n {
                (r matches Err(e) && e is StackUnderflow) && post == pre
            } else {
                &&& (r matches Ok(s) && s is Continue)
                &&& post.stack@ == pre.stack@.take(pre.stack@.len() - n)
                &&& post.locals@ == bind_params(
                    f.parameters@,
                    pre.stack@.skip(pre.stack@.len() - n),
                )
                &&& post.call_stack@.len() == pre.call_stack@.len() + 1
                &&& post.call_stack@.drop_last() == pre.call_stack@
                &&& post.call_stack@.last().function_name@ == name
                &&& post.call_stack@.last().return_address == pre.ip + 1
                &&& post.call_stack@.last().locals == pre.locals
                &&& post.call_stack@.last().stack_base == pre.stack@.len() - n
                &&& (post.current_function matches Some(g) && g@ == name)
                &&& post.ip == 0
                &&& post.code@ == f.instructions@
                &&& post.memory == pre.memory
                &&& post.globals == pre.globals
                &&& post.program == pre.program
                &&& post.runtime == pre.runtime
                &&& post.debug_mode == pre.debug_mode
                &&& post.pending is None
            }
        }
    }
}

/// The exact behavior of one dispatch step, by the instruction under the
/// instruction pointer (or the implicit return past the last one).  The
/// per-instruction operand-stack changes this relation pins are the
/// stack-depth deltas of the net-depth law.
pub open spec fn step_post(pre: LoomVM, post: LoomVM, r: Result<StepResult, VmError>) -> bool {
    if pre.ip >= pre.code@.len() {
        return_post(pre, post, r)
    } else {
        match pre.code@[pre.ip as int] {
            Instruction::PUSH(v) => stepped(pre, post, r) && post.stack@ == pre.stack@.push(v),
            Instruction::POP => if pre.stack@.len() == 0 {
                step_failed(pre, post, r) && post.stack@ == pre.stack@
            } else {
                stepped(pre, post, r) && post.stack@ == pre.stack@.drop_last()
            },
            Instruction::DUP => if pre.stack@.len() == 0 {
                step_failed(pre, post, r) && post.stack@ == pre.stack@
            } else {
                stepped(pre, post, r) && post.stack@ == pre.stack@.push(pre.stack@.last())
            },
            Instruction::SWAP => if pre.stack@.len() < 2 {
                step_failed(pre, post, r) && post.stack@ == pre.stack@
            } else {
                stepped(pre, post, r) && post.stack@ == pre.stack@.update(
                    pre.stack@.len() - 1,
                    pre.stack@[pre.stack@.len() - 2],
                ).update(pre.stack@.len() - 2, pre.stack@.last())
            },
            Instruction::LOAD_VAR(nm) => if pre.locals@.contains_key(nm@) {
                stepped(pre, post, r) && post.stack@ == pre.stack@.push(pre.locals@[nm@])
            } else if pre.globals@.contains_key(nm@) {
                stepped(pre, post, r) && post.stack@ == pre.stack@.push(pre.globals@[nm@])
            } else {
                step_failed(pre, post, r) && post.stack@ == pre.stack@ && (r matches Err(e)
                    && e matches VmError::UndefinedVariable(m) && m@ == nm@)
            },
            Instruction::STORE_VAR(nm) => if pre.stack@.len() == 0 {
                step_failed(pre, post, r) && post.stack@ == pre.stack@
            } else {
                &&& (r matches Ok(s) && s is Continue)
                &&& post.ip == pre.ip + 1
                &&& post.pending is None
                &&& post.stack@ == pre.stack@.drop_last()
                &&& post.locals@ == pre.locals@.insert(nm@, pre.stack@.last())
                &&& post.globals == pre.globals
                &&& post.memory == pre.memory
                &&& post.runtime == pre.runtime
                &&& post.program == pre.program
                &&& post.call_stack == pre.call_stack
                &&& post.code == pre.code
                &&& post.current_function == pre.current_function
                &&& post.debug_mode == pre.debug_mode
            },
            Instruction::LOAD_CONST(k) => match pre.program {
                Some(p) => if k < p.constants@.len() {
                    stepped(pre, post, r) && post.stack@ == pre.stack@.push(
                        p.constants@[k as int],
                    )
                } else {
                    step_failed(pre, post, r) && post.stack@ == pre.stack@ && (r matches Err(e)
                        && e is Runtime)
                },
                None => step_failed(pre, post, r) && (r matches Err(e) && e is Runtime),
            },
            Instruction::ADD => arith_step_post(FloatBinaryOp::Add, pre, post, r),
            Instruction::SUB => arith_step_post(FloatBinaryOp::Sub, pre, post, r),
            Instruction::MUL => arith_step_post(FloatBinaryOp::Mul, pre, post, r),
            Instruction::DIV => arith_step_post(FloatBinaryOp::Div, pre, post, r),
            Instruction::MOD => arith_step_post(FloatBinaryOp::Mod, pre, post, r),
            Instruction::NEG => if pre.stack@.len() == 0 {
                step_failed(pre, post, r) && post.stack@ == pre.stack@
            } else {
                match pre.stack@.last() {
                    Value::Int(x) => stepped(pre, post, r) && post.stack@
                        == pre.stack@.drop_last().push(Value::Int(i64_neg_wrap(x))),
                    Value::Float(bits) => stepped(pre, post, r) && post.stack@
                        == pre.stack@.drop_last().push(
                        Value::Float((bits ^ 0x8000_0000_0000_0000u64) as u64),
                    ),
                    _ => step_failed(pre, post, r) && post.stack@ == pre.stack@.drop_last() && (
                    r matches Err(e) && e is TypeError),
                }
            },
            Instruction::EQ => compare_step_post(CmpInstr::Eq, pre, post, r),
            Instruction::NE => compare_step_post(CmpInstr::Ne, pre, post, r),
            Instruction::LT => compare_step_post(CmpInstr::Lt, pre, post, r),
            Instruction::LE => compare_step_post(CmpInstr::Le, pre, post, r),
            Instruction::GT => compare_step_post(CmpInstr::Gt, pre, post, r),
            Instruction::GE => compare_step_post(CmpInstr::Ge, pre, post, r),
            Instruction::AND => logical_step_post(true, pre, post, r),
            Instruction::OR => logical_step_post(false, pre, post, r),
            Instruction::NOT => if pre.stack@.len() == 0 {
                step_failed(pre, post, r) && post.stack@ == pre.stack@
            } else {
                match pre.stack@.last() {
                    Value::Bool(x) => stepped(pre, post, r) && post.stack@
                        == pre.stack@.drop_last().push(Value::Bool(!x)),
                    _ => step_failed(pre, post, r) && post.stack@ == pre.stack@.drop_last() && (
                    r matches Err(e) && e is TypeError),
                }
            },
            Instruction::JMP(t) => if t < pre.code@.len() {
                &&& (r matches Ok(s) && s is Continue)
                &&& ctx_same(pre, post)
                &&& post.stack@ == pre.stack@
                &&& post.ip == t
                &&& post.pending is None
            } else {
                step_failed(pre, post, r) && post.stack@ == pre.stack@ && (r matches Err(e)
                    && e matches VmError::InvalidInstruction(off, _) && off == pre.ip)
            },
            Instruction::JMP_IF(t) => cond_jump_post(pre, post, t, true, r),
            Instruction::JMP_IF_FALSE(t) => cond_jump_post(pre, post, t, false, r),
            Instruction::CALL(nm) => call_post(pre, post, nm@, r),
            Instruction::CALL_NATIVE(nm) => {
                &&& ctx_same(pre, post)
                &&& exists|hr: Result<Option<EffectRequest>, VmError>|
                    #[trigger] native_step_post(nm@, pre.stack@, post.stack@, post.pending, hr)
                        && native_lift(pre, post, hr, r)
            },
            Instruction::RETURN => return_post(pre, post, r),
            Instruction::NEW(cls) => match r {
                Ok(_) => {
                    &&& (r matches Ok(s) && s is Continue)
                    &&& ctx_same_but_heap(pre, post)
                    &&& post.ip == pre.ip + 1
                    &&& post.pending is None
                    &&& post.stack@.len() == pre.stack@.len() + 1
                    &&& post.stack@.drop_last() == pre.stack@
                    &&& (post.stack@.last() matches Value::Object(id) && id
                        == pre.memory.next_object_id()
                        && post.memory.objects_map().contains_key(id)
                        && post.memory.objects_map()[id].class_name@ == cls@
                        && post.memory.objects_map()[id].ref_count == 1
                        && post.memory.objects_map()[id].fields@ == Map::<Seq<char>, Value>::empty()
                        && !pre.memory.objects_map().contains_key(id))
                    &&& post.memory.arrays_map() == pre.memory.arrays_map()
                },
                Err(e) => e is MemoryError && ctx_same_but_heap(pre, post) && post.stack@
                    == pre.stack@ && post.ip == pre.ip && post.pending is None,
            },
            Instruction::NEW_ARRAY(sz) => match r {
                Ok(_) => {
                    &&& (r matches Ok(s) && s is Continue)
                    &&& ctx_same_but_heap(pre, post)
                    &&& post.ip == pre.ip + 1
                    &&& post.pending is None
                    &&& post.stack@.len() == pre.stack@.len() + 1
                    &&& post.stack@.drop_last() == pre.stack@
                    &&& (post.stack@.last() matches Value::Array(id) && id
                        == pre.memory.next_array_id()
                        && post.memory.arrays_map().contains_key(id)
                        && post.memory.arrays_map()[id].elements@.len() == sz
                        && (forall|k: int|
                            0 <= k < sz ==> post.memory.arrays_map()[id].elements@[k] is Null)
                        && post.memory.arrays_map()[id].ref_count == 1
                        && !pre.memory.arrays_map().contains_key(id))
                    &&& post.memory.objects_map() == pre.memory.objects_map()
                },
                Err(e) => e is MemoryError && ctx_same_but_heap(pre, post) && post.stack@
                    == pre.stack@ && post.ip == pre.ip && post.pending is None,
            },
            Instruction::GET_FIELD(fname) => if pre.stack@.len() == 0 {
                step_failed(pre, post, r) && post.stack@ == pre.stack@
            } else {
                match pre.stack@.last() {
                    Value::Object(id) => if pre.memory.objects_map().contains_key(id)
                        && pre.memory.objects_map()[id].fields@.contains_key(fname@) {
                        stepped(pre, post, r) && post.stack@ == pre.stack@.drop_last().push(
                            pre.memory.objects_map()[id].fields@[fname@],
                        )
                    } else {
                        step_failed(pre, post, r) && post.stack@ == pre.stack@.drop_last() && (
                        r matches Err(e) && e is Runtime)
                    },
                    _ => step_failed(pre, post, r) && post.stack@ == pre.stack@.drop_last() && (
                    r matches Err(e) && e is Runtime),
                }
            },
            Instruction::SET_FIELD(fname) => set_field_step_post(pre, post, fname@, r),
            Instruction::GET_METHOD(_) => reserved_post(pre, post, r),
            Instruction::GET_ELEMENT => if pre.stack@.len() < 2 {
                step_failed(pre, post, r) && post.stack@ == pre.stack@ && (r matches Err(e)
                    && e is StackUnderflow)
            } else {
                match (pre.stack@[pre.stack@.len() - 2], pre.stack@.last()) {
                    (Value::Array(id), Value::Int(i)) => if pre.memory.arrays_map().contains_key(
                        id,
                    ) && 0 <= i < pre.memory.arrays_map()[id].elements@.len() {
                        stepped(pre, post, r) && post.stack@
                            == pre.stack@.drop_last().drop_last().push(
                            pre.memory.arrays_map()[id].elements@[i as int],
                        )
                    } else {
                        step_failed(pre, post, r) && post.stack@
                            == pre.stack@.drop_last().drop_last() && (r matches Err(e)
                            && e is Runtime)
                    },
                    _ => step_failed(pre, post, r) && post.stack@
                        == pre.stack@.drop_last().drop_last() && (r matches Err(e)
                        && e is Runtime),
                }
            },
            Instruction::SET_ELEMENT => set_element_step_post(pre, post, r),
            Instruction::GET_LENGTH => if pre.stack@.len() == 0 {
                step_failed(pre, post, r) && post.stack@ == pre.stack@
            } else {
                match pre.stack@.last() {
                    Value::Array(id) => if pre.memory.arrays_map().contains_key(id)
                        && pre.memory.arrays_map()[id].elements@.len() <= i64::MAX {
                        stepped(pre, post, r) && post.stack@ == pre.stack@.drop_last().push(
                            Value::Int(pre.memory.arrays_map()[id].elements@.len() as i64),
                        )
                    } else {
                        step_failed(pre, post, r) && post.stack@ == pre.stack@.drop_last() && (
                        r matches Err(e) && e is Runtime)
                    },
                    _ => step_failed(pre, post, r) && post.stack@ == pre.stack@.drop_last() && (
                    r matches Err(e) && e is Runtime),
                }
            },
            Instruction::CAST(_) => reserved_post(pre, post, r),
            Instruction::IS_NULL => if pre.stack@.len() == 0 {
                step_failed(pre, post, r) && post.stack@ == pre.stack@
            } else {
                stepped(pre, post, r) && post.stack@ == pre.stack@.drop_last().push(
                    Value::Bool(pre.stack@.last() is Null),
                )
            },
            Instruction::IS_TYPE(_) => reserved_post(pre, post, r),
            Instruction::ALLOC(_) => reserved_post(pre, post, r),
            Instruction::FREE => reserved_post(pre, post, r),
            Instruction::BREAKPOINT => if pre.debug_mode {
                &&& (r matches Ok(s) && s matches StepResult::Suspended(e) && e matches
                    EffectRequest::Breakpoint { ip } && ip == pre.ip)
                &&& ctx_same(pre, post)
                &&& post.stack@ == pre.stack@
                &&& post.ip == pre.ip + 1
                &&& post.pending == Some(PendingKind::Ignore)
            } else {
                stepped(pre, post, r) && post.stack@ == pre.stack@
            },
            Instruction::TRACE => {
                &&& (r matches Ok(s) && s matches StepResult::Suspended(e) && e matches
                    EffectRequest::Trace { value } && value == if pre.stack@.len() == 0 {
                    Value::Null
                } else {
                    pre.stack@.last()
                })
                &&& ctx_same(pre, post)
                &&& post.stack@ == pre.stack@
                &&& post.ip == pre.ip + 1
                &&& post.pending == Some(PendingKind::Ignore)
            },
            Instruction::HALT => {
                &&& (r matches Ok(s) && s matches StepResult::Finished(v) && v is Null)
                &&& !post.running()
                &&& post.call_stack@.len() == 0
                &&& post.stack@ == pre.stack@
                &&& post.pending is None
                &&& post.memory == pre.memory
                &&& post.runtime == pre.runtime
                &&& post.program == pre.program
                &&& post.locals == pre.locals
                &&& post.globals == pre.globals
                &&& post.debug_mode == pre.debug_mode
            },
            Instruction::NOOP => stepped(pre, post, r) && post.stack@ == pre.stack@,
        }
    }
}

/// A reserved opcode: an `InvalidInstruction` failure at the current
/// offset, with the machine untouched.
pub open spec fn reserved_post(pre: LoomVM, post: LoomVM, r: Result<StepResult, VmError>) -> bool {
    (r matches Err(e) && e matches VmError::InvalidInstruction(off, _) && off == pre.ip) && post
        == pre
}

/// The dispatch of one arithmetic instruction: the handler's exact
/// outcome, lifted over the instruction pointer and the pending flag.
pub open spec fn arith_step_post(
    op: FloatBinaryOp,
    pre: LoomVM,
    post: LoomVM,
    r: Result<StepResult, VmError>,
) -> bool {
    &&& ctx_same(pre, post)
    &&& if pre.stack@.len() < 2 {
        (r matches Err(e) && e is StackUnderflow) && post.stack@ == pre.stack@ && post.ip
            == pre.ip && post.pending is None
    } else {
        exists|hr: Result<Option<EffectRequest>, VmError>|
            #[trigger] arith_instr_post(op, pre.stack@, post.stack@, hr) && effect_lift(
                pre,
                post,
                hr,
                r,
            )
    }
}

/// The dispatch of one comparison instruction, lifted like
/// [`arith_step_post`].
pub open spec fn compare_step_post(
    op: CmpInstr,
    pre: LoomVM,
    post: LoomVM,
    r: Result<StepResult, VmError>,
) -> bool {
    &&& ctx_same(pre, post)
    &&& if pre.stack@.len() < 2 {
        (r matches Err(e) && e is StackUnderflow) && post.stack@ == pre.stack@ && post.ip
            == pre.ip && post.pending is None
    } else {
        exists|hr: Result<Option<EffectRequest>, VmError>|
            #[trigger] compare_instr_post(op, pre.stack@, post.stack@, hr) && effect_lift(
                pre,
                post,
                hr,
                r,
            )
    }
}

/// The dispatch of a logical instruction.
pub open spec fn logical_step_post(
    is_and: bool,
    pre: LoomVM,
    post: LoomVM,
    r: Result<StepResult, VmError>,
) -> bool {
    &&& ctx_same(pre, post)
    &&& post.pending is None
    &&& if pre.stack@.len() < 2 {
        (r matches Err(e) && e is StackUnderflow) && post.stack@ == pre.stack@ && post.ip
            == pre.ip
    } else {
        exists|hr: Result<(), VmError>|
            #[trigger] logical_instr_post(is_and, pre.stack@, post.stack@, hr) && (match hr {
                Ok(_) => (r matches Ok(s) && s is Continue) && post.ip == pre.ip + 1,
                Err(e) => (r matches Err(e2) && e2 == e) && post.ip == pre.ip,
            })
    }
}

/// The dispatch of a conditional jump: the condition is popped; a truthy
/// condition (for `JMP_IF`; a falsy one for `JMP_IF_FALSE`) jumps to the
/// target when it is in range and fails with `InvalidInstruction`
/// otherwise; any other condition falls through.
pub open spec fn cond_jump_post(
    pre: LoomVM,
    post: LoomVM,
    target: usize,
    jump_on_truthy: bool,
    r: Result<StepResult, VmError>,
) -> bool {
    &&& ctx_same(pre, post)
    &&& if pre.stack@.len() == 0 {
        (r matches Err(e) && e is StackUnderflow) && post.stack@ == pre.stack@ && post.ip
            == pre.ip && post.pending is None
    } else {
        &&& post.stack@ == pre.stack@.drop_last()
        &&& post.pending is None
        &&& if crate::value::spec_is_truthy(pre.stack@.last()) == jump_on_truthy {
            if target < pre.code@.len() {
                (r matches Ok(s) && s is Continue) && post.ip == target
            } else {
                (r matches Err(e) && e matches VmError::InvalidInstruction(off, _) && off
                    == pre.ip) && post.ip == pre.ip
            }
        } else {
            (r matches Ok(s) && s is Continue) && post.ip == pre.ip + 1
        }
    }
}

/// The dispatch of `SET_FIELD`: the value and the object reference come
/// off the stack, the field is written through the heap and the value is
/// pushed back.
pub open spec fn set_field_step_post(
    pre: LoomVM,
    post: LoomVM,
    fname: Seq<char>,
    r: Result<StepResult, VmError>,
) -> bool {
    &&& ctx_same_but_heap(pre, post)
    &&& post.pending is None
    &&& if pre.stack@.len() < 2 {
        (r matches Err(e) && e is StackUnderflow) && post.stack@ == pre.stack@ && post.memory
            == pre.memory && post.ip == pre.ip
    } else {
        let value = pre.stack@.last();
        let target = pre.stack@[pre.stack@.len() - 2];
        match target {
            Value::Object(id) => if pre.memory.objects_map().contains_key(id) {
                &&& (r matches Ok(s) && s is Continue)
                &&& post.ip == pre.ip + 1
                &&& post.stack@ == pre.stack@.drop_last().drop_last().push(value)
                &&& post.memory.objects_map().contains_key(id)
                &&& post.memory.objects_map()[id].fields@
                    == pre.memory.objects_map()[id].fields@.insert(fname, value)
                &&& post.memory.objects_map().dom() == pre.memory.objects_map().dom()
                &&& (forall|other: u64|
                    other != id && pre.memory.objects_map().contains_key(other)
                        ==> post.memory.objects_map()[other] == pre.memory.objects_map()[other])
                &&& post.memory.arrays_map() == pre.memory.arrays_map()
            } else {
                (r matches Err(e) && e is Runtime) && post.stack@
                    == pre.stack@.drop_last().drop_last() && post.memory.objects_map()
                    == pre.memory.objects_map() && post.memory.arrays_map()
                    == pre.memory.arrays_map() && post.ip == pre.ip
            },
            _ => (r matches Err(e) && e is Runtime) && post.stack@
                == pre.stack@.drop_last().drop_last() && post.memory == pre.memory && post.ip
                == pre.ip,
        }
    }
}

/// The dispatch of `SET_ELEMENT`: the value, the index and the array
/// reference come off the stack, the element is written through the heap
/// and the value is pushed back.
pub open spec fn set_element_step_post(
    pre: LoomVM,
    post: LoomVM,
    r: Result<StepResult, VmError>,
) -> bool {
    &&& ctx_same_but_heap(pre, post)
    &&& post.pending is None
    &&& if pre.stack@.len() < 3 {
        (r matches Err(e) && e is StackUnderflow) && post.stack@ == pre.stack@ && post.memory
            == pre.memory && post.ip == pre.ip
    } else {
        let value = pre.stack@.last();
        let index = pre.stack@[pre.stack@.len() - 2];
        let target = pre.stack@[pre.stack@.len() - 3];
        match (target, index) {
            (Value::Array(id), Value::Int(i)) => if pre.memory.arrays_map().contains_key(id) && 0
                <= i < pre.memory.arrays_map()[id].elements@.len() {
                &&& (r matches Ok(s) && s is Continue)
                &&& post.ip == pre.ip + 1
                &&& post.stack@ == pre.stack@.drop_last().drop_last().drop_last().push(value)
                &&& post.memory.arrays_map().contains_key(id)
                &&& post.memory.arrays_map()[id].elements@
                    == pre.memory.arrays_map()[id].elements@.update(i as int, value)
                &&& post.memory.arrays_map().dom() == pre.memory.arrays_map().dom()
                &&& (forall|other: u64|
                    other != id && pre.memory.arrays_map().contains_key(other)
                        ==> post.memory.arrays_map()[other] == pre.memory.arrays_map()[other])
                &&& post.memory.objects_map() == pre.memory.objects_map()
            } else {
                (r matches Err(e) && e is Runtime) && post.stack@
                    == pre.stack@.drop_last().drop_last().drop_last()
                    && post.memory.objects_map() == pre.memory.objects_map()
                    && post.memory.arrays_map() == pre.memory.arrays_map() && post.ip == pre.ip
            },
            _ => (r matches Err(e) && e is Runtime) && post.stack@
                == pre.stack@.drop_last().drop_last().drop_last() && post.memory == pre.memory
                && post.ip == pre.ip,
        }
    }
}

/// A chain of machine states, each reached from its predecessor by one
/// completed dispatch step.
pub open spec fn stepped_chain(trace: Seq<LoomVM>) -> bool {
    forall|i: int|
        0 <= i < trace.len() - 1 ==> #[trigger] step_post(
            trace[i],
            trace[i + 1],
            Ok(StepResult::Continue),
        )
}

/// A chain of completed steps leading from `start` to `end`.
pub open spec fn reaches(start: LoomVM, end: LoomVM, trace: Seq<LoomVM>) -> bool {
    &&& trace.len() >= 1
    &&& trace[0] == start
    &&& trace.last() == end
    &&& stepped_chain(trace)
}

/// The contract of a run of the dispatch loop from `start`: the final
/// state is reached by a chain of completed steps, followed — unless the
/// budget ran out — by one final step whose result the outcome carries.
pub open spec fn run_post(start: LoomVM, post: LoomVM, r: Result<Outcome, VmError>) -> bool {
    match r {
        Ok(o) => match o {
            Outcome::Finished(v) => exists|trace: Seq<LoomVM>, mid: LoomVM|
                #[trigger] reaches(start, mid, trace) && step_post(
                    mid,
                    post,
                    Ok(StepResult::Finished(v)),
                ),
            Outcome::Pending(e) => exists|trace: Seq<LoomVM>, mid: LoomVM|
                #[trigger] reaches(start, mid, trace) && step_post(
                    mid,
                    post,
                    Ok(StepResult::Suspended(e)),
                ),
            Outcome::Running => exists|trace: Seq<LoomVM>| #[trigger] reaches(start, post, trace),
        },
        Err(e) => exists|trace: Seq<LoomVM>, mid: LoomVM|
            #[trigger] reaches(start, mid, trace) && step_post(mid, post, Err(e)),
    }
}

/// The state the engine continues from after a reply: the pending flag
/// is cleared, and a reply to an effect with a result is pushed.
pub open spec fn resume_entry(pre: LoomVM, reply: Value, s1: LoomVM) -> bool {
    &&& ctx_same(pre, s1)
    &&& s1.pending is None
    &&& s1.ip == pre.ip
    &&& (match pre.pending {
        Some(PendingKind::PushReply) => s1.stack@ == pre.stack@.push(reply),
        _ => s1.stack@ == pre.stack@,
    })
}

/// The state execution starts from after a program is loaded: globals
/// seeded from the artifact, an empty operand stack, fresh locals, and
/// the entry function's first instruction up next in its own frame.
pub open spec fn entry_state(pre: LoomVM, program: BytecodeProgram, s1: LoomVM) -> bool {
    &&& s1.wf()
    &&& s1.program == Some(program)
    &&& s1.globals@ == program.globals@
    &&& s1.stack@.len() == 0
    &&& s1.locals@ == Map::<Seq<char>, Value>::empty()
    &&& s1.call_stack@.len() == 1
    &&& s1.call_stack@.last().function_name@ == program.main_function@
    &&& s1.call_stack@.last().stack_base == 0
    &&& (s1.current_function matches Some(g) && g@ == program.main_function@)
    &&& s1.ip == 0
    &&& s1.code@ == program.functions@[program.main_function@].instructions@
    &&& s1.pending is None
    &&& s1.memory == pre.memory
    &&& s1.runtime == pre.runtime
    &&& s1.debug_mode == pre.debug_mode
}

impl LoomVM {
    /// Dispatches one instruction (or the implicit return when the
    /// instruction pointer has moved past the last one).
    ///
    /// After an instruction that did not branch, the instruction pointer
    /// advances by one; branch instructions set it directly; a taken jump
    /// whose target is out of range is an `InvalidInstruction` failure.
    /// Any failure ends execution and is returned to the host.
    pub fn step(&mut self) -> (r: Result<StepResult, VmError>)
        requires
            old(self).wf(),
            old(self).running(),
            old(self).pending is None,
        ensures
            final(self).wf(),
            step_laws(*old(self), r),
            step_post(*old(self), *final(self), r),
            r matches Ok(s) && s is Continue ==> final(self).running() && final(self).pending is None,
            r matches Ok(s) && s is Suspended ==> final(self).running() && final(self).pending is Some,
            r matches Ok(s) && s is Finished ==> !final(self).running() && final(self).pending is None,
    {
        if self.ip >= self.code.len() {
            return match self.do_return()? {
                Some(v) => Ok(StepResult::Finished(v)),
                None => Ok(StepResult::Continue),
            };
        }
        let instr = clone_instruction(&self.code[self.ip]);
        match instr {
            Instruction::PUSH(v) => {
                self.exec_push(v);
                self.ip = self.ip + 1;
                Ok(StepResult::Continue)
            },
            Instruction::POP => {
                let _ = self.pop_value()?;
                self.ip = self.ip + 1;
                Ok(StepResult::Continue)
            },
            Instruction::DUP => {
                self.exec_dup()?;
                self.ip = self.ip + 1;
                Ok(StepResult::Continue)
            },
            Instruction::SWAP => {
                self.exec_swap()?;
                self.ip = self.ip + 1;
                Ok(StepResult::Continue)
            },
            Instruction::LOAD_VAR(name) => {
                self.exec_load_var(name.as_str())?;
                self.ip = self.ip + 1;
                Ok(StepResult::Continue)
            },
            Instruction::STORE_VAR(name) => {
                self.exec_store_var(name.as_str())?;
                self.ip = self.ip + 1;
                Ok(StepResult::Continue)
            },
            Instruction::LOAD_CONST(index) => {
                self.exec_load_const(index)?;
                self.ip = self.ip + 1;
                Ok(StepResult::Continue)
            },
            Instruction::ADD => self.arith_step(FloatBinaryOp::Add),
            Instruction::SUB => self.arith_step(FloatBinaryOp::Sub),
            Instruction::MUL => self.arith_step(FloatBinaryOp::Mul),
            Instruction::DIV => self.arith_step(FloatBinaryOp::Div),
            Instruction::MOD => self.arith_step(FloatBinaryOp::Mod),
            Instruction::NEG => {
                self.exec_neg()?;
                self.ip = self.ip + 1;
                Ok(StepResult::Continue)
            },
            Instruction::EQ => self.compare_step(CmpInstr::Eq),
            Instruction::NE => self.compare_step(CmpInstr::Ne),
            Instruction::LT => self.compare_step(CmpInstr::Lt),
            Instruction::LE => self.compare_step(CmpInstr::Le),
            Instruction::GT => self.compare_step(CmpInstr::Gt),
            Instruction::GE => self.compare_step(CmpInstr::Ge),
            Instruction::AND => self.logical_step(true),
            Instruction::OR => self.logical_step(false),
            Instruction::NOT => {
                self.exec_not()?;
                self.ip = self.ip + 1;
                Ok(StepResult::Continue)
            },
            Instruction::JMP(target) => {
                if target < self.code.len() {
                    self.ip = target;
                    Ok(StepResult::Continue)
                } else {
                    Err(
                        VmError::InvalidInstruction(
                            self.ip,
                            "jump target out of range".to_owned(),
                        ),
                    )
                }
            },
            Instruction::JMP_IF(target) => {
                let cond = self.pop_value()?;
                if cond.is_truthy() {
                    if target < self.code.len() {
                        self.ip = target;
                        Ok(StepResult::Continue)
                    } else {
                        Err(
                            VmError::InvalidInstruction(
                                self.ip,
                                "jump target out of range".to_owned(),
                            ),
                        )
                    }
                } else {
                    self.ip = self.ip + 1;
                    Ok(StepResult::Continue)
                }
            },
            Instruction::JMP_IF_FALSE(target) => {
                let cond = self.pop_value()?;
                if !cond.is_truthy() {
                    if target < self.code.len() {
                        self.ip = target;
                        Ok(StepResult::Continue)
                    } else {
                        Err(
                            VmError::InvalidInstruction(
                                self.ip,
                                "jump target out of range".to_owned(),
                            ),
                        )
                    }
                } else {
                    self.ip = self.ip + 1;
                    Ok(StepResult::Continue)
                }
            },
            Instruction::CALL(name) => {
                let return_address = self.ip + 1;
                self.enter_function(name.as_str(), return_address)?;
                Ok(StepResult::Continue)
            },
            Instruction::CALL_NATIVE(name) => {
                match self.exec_call_native(name.as_str()) {
                    Ok(Some(e)) => {
                        self.ip = self.ip + 1;
                        let ghost ge = e;
                        proof {
                            assert(native_step_post(
                                name@,
                                old(self).stack@,
                                final(self).stack@,
                                final(self).pending,
                                Ok(Some(ge)),
                            ));
                        }
                        Ok(StepResult::Suspended(e))
                    },
                    Ok(None) => {
                        self.ip = self.ip + 1;
                        proof {
                            assert(native_step_post(
                                name@,
                                old(self).stack@,
                                final(self).stack@,
                                final(self).pending,
                                Ok(None::<EffectRequest>),
                            ));
                        }
                        Ok(StepResult::Continue)
                    },
                    Err(e) => {
                        let ghost ge = e;
                        proof {
                            assert(native_step_post(
                                name@,
                                old(self).stack@,
                                final(self).stack@,
                                final(self).pending,
                                Err(ge),
                            ));
                        }
                        Err(e)
                    },
                }
            },
            Instruction::RETURN => {
                match self.do_return()? {
                    Some(v) => Ok(StepResult::Finished(v)),
                    None => Ok(StepResult::Continue),
                }
            },
            Instruction::NEW(class_name) => {
                self.exec_new(class_name.as_str())?;
                self.ip = self.ip + 1;
                Ok(StepResult::Continue)
            },
            Instruction::GET_FIELD(field_name) => {
                self.exec_get_field(field_name.as_str())?;
                self.ip = self.ip + 1;
                Ok(StepResult::Continue)
            },
            Instruction::SET_FIELD(field_name) => {
                self.exec_set_field(field_name.as_str())?;
                self.ip = self.ip + 1;
                Ok(StepResult::Continue)
            },
            Instruction::NEW_ARRAY(size) => {
                self.exec_new_array(size)?;
                self.ip = self.ip + 1;
                Ok(StepResult::Continue)
            },
            Instruction::GET_ELEMENT => {
                self.exec_get_element()?;
                self.ip = self.ip + 1;
                Ok(StepResult::Continue)
            },
            Instruction::SET_ELEMENT => {
                self.exec_set_element()?;
                self.ip = self.ip + 1;
                Ok(StepResult::Continue)
            },
            Instruction::GET_LENGTH => {
                self.exec_get_length()?;
                self.ip = self.ip + 1;
                Ok(StepResult::Continue)
            },
            Instruction::IS_NULL => {
                self.exec_is_null()?;
                self.ip = self.ip + 1;
                Ok(StepResult::Continue)
            },
            Instruction::TRACE => {
                let value = if self.stack.len() == 0 {
                    Value::Null
                } else {
                    clone_value(&self.stack[self.stack.len() - 1])
                };
                self.pending = Some(PendingKind::Ignore);
                self.ip = self.ip + 1;
                Ok(StepResult::Suspended(EffectRequest::Trace { value }))
            },
            Instruction::BREAKPOINT => {
                if self.debug_mode {
                    let at = self.ip;
                    self.pending = Some(PendingKind::Ignore);
                    self.ip = self.ip + 1;
                    Ok(StepResult::Suspended(EffectRequest::Breakpoint { ip: at }))
                } else {
                    self.ip = self.ip + 1;
                    Ok(StepResult::Continue)
                }
            },
            Instruction::HALT => {
                self.call_stack = Vec::new();
                self.current_function = None;
                self.code = Vec::new();
                Ok(StepResult::Finished(Value::Null))
            },
            Instruction::NOOP => {
                self.ip = self.ip + 1;
                Ok(StepResult::Continue)
            },
            Instruction::GET_METHOD(_) => Err(self.reserved_instruction()),
            Instruction::CAST(_) => Err(self.reserved_instruction()),
            Instruction::IS_TYPE(_) => Err(self.reserved_instruction()),
            Instruction::ALLOC(_) => Err(self.reserved_instruction()),
            Instruction::FREE => Err(self.reserved_instruction()),
        }
    }

    /// The failure for a reserved opcode with no defined semantics.
    fn reserved_instruction(&self) -> (r: VmError)
        ensures
            r matches VmError::InvalidInstruction(off, _) && off == self.ip,
    {
        VmError::InvalidInstruction(self.ip, "Unimplemented instruction".to_owned())
    }

    /// One arithmetic dispatch step: computes or suspends for the host.
    fn arith_step(&mut self, op: FloatBinaryOp) -> (r: Result<StepResult, VmError>)
        requires
            old(self).wf(),
            old(self).running(),
            old(self).pending is None,
            old(self).ip < usize::MAX,
            op != FloatBinaryOp::Pow,
        ensures
            final(self).wf(),
            arith_step_post(op, *old(self), *final(self), r),
            old(self).stack@.len() >= 2 && is_numeric(old(self).stack@[old(self).stack@.len() - 2])
                && is_numeric(old(self).stack@.last()) && divides(op) && divisor_is_zero(
                old(self).stack@.last(),
            ) ==> (r matches Err(e) && e is DivisionByZero),
            r matches Ok(s) && s is Continue ==> final(self).running() && final(self).pending is None,
            r matches Ok(s) && s is Suspended ==> final(self).running() && final(self).pending is Some,
            !(r matches Ok(s) && s is Finished),
    {
        match self.exec_arith(op) {
            Ok(Some(e)) => {
                self.pending = Some(PendingKind::PushReply);
                self.ip = self.ip + 1;
                let ghost ge = e;
                proof {
                    if old(self).stack@.len() >= 2 {
                        assert(arith_instr_post(
                            op,
                            old(self).stack@,
                            final(self).stack@,
                            Ok(Some(ge)),
                        ));
                    }
                }
                Ok(StepResult::Suspended(e))
            },
            Ok(None) => {
                self.ip = self.ip + 1;
                proof {
                    if old(self).stack@.len() >= 2 {
                        assert(arith_instr_post(
                            op,
                            old(self).stack@,
                            final(self).stack@,
                            Ok(None::<EffectRequest>),
                        ));
                    }
                }
                Ok(StepResult::Continue)
            },
            Err(e) => {
                let ghost ge = e;
                proof {
                    if old(self).stack@.len() >= 2 {
                        assert(arith_instr_post(
                            op,
                            old(self).stack@,
                            final(self).stack@,
                            Err(ge),
                        ));
                    }
                }
                Err(e)
            },
        }
    }

    /// One comparison dispatch step: computes or suspends for the host.
    fn compare_step(&mut self, op: CmpInstr) -> (r: Result<StepResult, VmError>)
        requires
            old(self).wf(),
            old(self).running(),
            old(self).pending is None,
            old(self).ip < usize::MAX,
        ensures
            final(self).wf(),
            compare_step_post(op, *old(self), *final(self), r),
            r matches Ok(s) && s is Continue ==> final(self).running() && final(self).pending is None,
            r matches Ok(s) && s is Suspended ==> final(self).running() && final(self).pending is Some,
            !(r matches Ok(s) && s is Finished),
    {
        match self.exec_compare(op) {
            Ok(Some(e)) => {
                self.pending = Some(PendingKind::PushReply);
                self.ip = self.ip + 1;
                let ghost ge = e;
                proof {
                    if old(self).stack@.len() >= 2 {
                        assert(compare_instr_post(
                            op,
                            old(self).stack@,
                            final(self).stack@,
                            Ok(Some(ge)),
                        ));
                    }
                }
                Ok(StepResult::Suspended(e))
            },
            Ok(None) => {
                self.ip = self.ip + 1;
                proof {
                    if old(self).stack@.len() >= 2 {
                        assert(compare_instr_post(
                            op,
                            old(self).stack@,
                            final(self).stack@,
                            Ok(None::<EffectRequest>),
                        ));
                    }
                }
                Ok(StepResult::Continue)
            },
            Err(e) => {
                let ghost ge = e;
                proof {
                    if old(self).stack@.len() >= 2 {
                        assert(compare_instr_post(
                            op,
                            old(self).stack@,
                            final(self).stack@,
                            Err(ge),
                        ));
                    }
                }
                Err(e)
            },
        }
    }

    /// One logical dispatch step.
    fn logical_step(&mut self, is_and: bool) -> (r: Result<StepResult, VmError>)
        requires
            old(self).wf(),
            old(self).running(),
            old(self).pending is None,
            old(self).ip < usize::MAX,
        ensures
            final(self).wf(),
            logical_step_post(is_and, *old(self), *final(self), r),
            r matches Ok(s) && s is Continue ==> final(self).running() && final(self).pending is None,
            !(r matches Ok(s) && s is Suspended),
            !(r matches Ok(s) && s is Finished),
    {
        match self.exec_logical(is_and) {
            Ok(()) => {
                self.ip = self.ip + 1;
                proof {
                    if old(self).stack@.len() >= 2 {
                        assert(logical_instr_post(
                            is_and,
                            old(self).stack@,
                            final(self).stack@,
                            Ok(()),
                        ));
                    }
                }
                Ok(StepResult::Continue)
            },
            Err(e) => {
                let ghost ge = e;
                proof {
                    if old(self).stack@.len() >= 2 {
                        assert(logical_instr_post(
                            is_and,
                            old(self).stack@,
                            final(self).stack@,
                            Err(ge),
                        ));
                    }
                }
                Err(e)
            },
        }
    }

    /// Runs the dispatch loop for at most `max_steps` instructions, until
    /// the outermost execution finishes, an effect suspends the engine,
    /// the budget runs out, or a failure unwinds everything.  The final
    /// state is reached from the initial one by the step relation, and
    /// the outcome is the final step's: a `Finished` outcome carries
    /// exactly the value the return (or halt) semantics yield.
    pub fn run(&mut self, max_steps: u64) -> (r: Result<Outcome, VmError>)
        requires
            old(self).wf(),
            old(self).running(),
            old(self).pending is None,
        ensures
            final(self).wf(),
            run_post(*old(self), *final(self), r),
            r matches Ok(o) && o is Running ==> exists|trace: Seq<LoomVM>|
                #[trigger] reaches(*old(self), *final(self), trace) && trace.len() == max_steps
                    + 1,
            r matches Ok(o) && o is Pending ==> final(self).running() && final(self).pending is Some,
            r matches Ok(o) && o is Finished ==> !final(self).running() && final(self).pending is None,
            r matches Ok(o) && o is Running ==> final(self).running() && final(self).pending is None,
    {
        let mut steps: u64 = 0;
        let ghost mut trace: Seq<LoomVM> = seq![*old(self)];
        while steps < max_steps
            invariant
                self.wf(),
                self.running(),
                self.pending is None,
                steps <= max_steps,
                trace.len() == steps + 1,
                trace[0] == *old(self),
                trace.last() == *self,
                stepped_chain(trace),
            decreases max_steps - steps,
        {
            let ghost pre_step = *self;
            let ghost pre_trace = trace;
            let sr = self.step();
            let ghost gsr = sr;
            match sr {
                Ok(StepResult::Continue) => {
                    proof {
                        assert(gsr == Ok::<StepResult, VmError>(StepResult::Continue));
                        assert(step_post(pre_step, *self, Ok(StepResult::Continue)));
                        trace = pre_trace.push(*self);
                        assert forall|i: int| 0 <= i < trace.len() - 1 implies #[trigger]
                            step_post(trace[i], trace[i + 1], Ok(StepResult::Continue)) by {
                            if i < pre_trace.len() - 1 {
                                assert(step_post(
                                    pre_trace[i],
                                    pre_trace[i + 1],
                                    Ok(StepResult::Continue),
                                ));
                                assert(trace[i] == pre_trace[i]);
                                assert(trace[i + 1] == pre_trace[i + 1]);
                            } else {
                                assert(trace[i] == pre_step);
                                assert(trace[i + 1] == *self);
                            }
                        }
                    }
                },
                Ok(StepResult::Finished(v)) => {
                    let ghost gv = v;
                    proof {
                        assert(gsr == Ok::<StepResult, VmError>(StepResult::Finished(gv)));
                        assert(step_post(pre_step, *self, Ok(StepResult::Finished(gv))));
                        assert(reaches(*old(self), pre_step, pre_trace));
                    }
                    return Ok(Outcome::Finished(v));
                },
                Ok(StepResult::Suspended(e)) => {
                    let ghost ge = e;
                    proof {
                        assert(gsr == Ok::<StepResult, VmError>(StepResult::Suspended(ge)));
                        assert(step_post(pre_step, *self, Ok(StepResult::Suspended(ge))));
                        assert(reaches(*old(self), pre_step, pre_trace));
                    }
                    return Ok(Outcome::Pending(e));
                },
                Err(e) => {
                    let ghost ge = e;
                    proof {
                        assert(gsr == Err::<StepResult, VmError>(ge));
                        assert(step_post(pre_step, *self, Err(ge)));
                        assert(reaches(*old(self), pre_step, pre_trace));
                    }
                    return Err(e);
                },
            }
            steps = steps + 1;
        }
        proof {
            assert(reaches(*old(self), *self, trace));
        }
        Ok(Outcome::Running)
    }

    /// Resumes after an effect: the host's reply is pushed onto the
    /// operand stack when the effect has a result (and discarded
    /// otherwise), the pending flag is cleared, and the dispatch loop
    /// continues from exactly that state.
    pub fn resume(&mut self, reply: Value, max_steps: u64) -> (r: Result<Outcome, VmError>)
        requires
            old(self).wf(),
            old(self).pending is Some,
        ensures
            final(self).wf(),
            exists|s1: LoomVM|
                #[trigger] resume_entry(*old(self), reply, s1) && run_post(s1, *final(self), r),
            r matches Ok(o) && o is Pending ==> final(self).pending is Some,
            r matches Ok(o) && o is Finished ==> !final(self).running() && final(self).pending is None,
            r matches Ok(o) && o is Running ==> final(self).running() && final(self).pending is None,
    {
        let push = match &self.pending {
            Some(PendingKind::PushReply) => true,
            _ => false,
        };
        let ghost grep = reply;
        if push {
            self.stack.push(reply);
        }
        self.pending = None;
        let ghost s1 = *self;
        proof {
            assert(resume_entry(*old(self), grep, s1));
        }
        self.run(max_steps)
    }

    /// Loads a program and executes its entry function.
    ///
    /// The globals are seeded from the artifact before any instruction
    /// runs; the entry function is resolved by name (`UndefinedFunction`
    /// when absent, and then nothing executes); dispatch then starts at
    /// the entry function's first instruction with an empty operand
    /// stack, and the result is that of running it.
    pub fn execute_program(&mut self, program: BytecodeProgram, max_steps: u64) -> (r: Result<
        Outcome,
        VmError,
    >)
        requires
            old(self).wf(),
            !old(self).running(),
            program.wf(),
        ensures
            final(self).wf(),
            !program.functions@.contains_key(program.main_function@) ==> (r matches Err(e)
                && e matches VmError::UndefinedFunction(m) && m@ == program.main_function@),
            program.functions@.contains_key(program.main_function@) ==> {
                let f = program.functions@[program.main_function@];
                if old(self).runtime.spec_config().stack_limit matches Some(limit) && limit == 0 {
                    r matches Err(e) && e is StackOverflow
                } else if f.parameters@.len() > 0 {
                    r matches Err(e) && e is StackUnderflow
                } else {
                    exists|s1: LoomVM|
                        #[trigger] entry_state(*old(self), program, s1) && run_post(
                            s1,
                            *final(self),
                            r,
                        )
                }
            },
            r matches Ok(o) && o is Pending ==> final(self).running() && final(self).pending is Some,
            r matches Ok(o) && o is Finished ==> !final(self).running() && final(self).pending is None,
            r matches Ok(o) && o is Running ==> final(self).running() && final(self).pending is None,
    {
        self.stack = Vec::new();
        self.locals = NameMap::new();
        self.call_stack = Vec::new();
        self.pending = None;
        self.current_function = None;
        self.ip = 0;
        self.globals = copy_value_map(&program.globals);
        let main = program.main_function.clone();
        let ghost gprogram = program;
        self.program = Some(program);
        match self.enter_function(main.as_str(), 0) {
            Ok(()) => {},
            Err(e) => {
                return Err(e);
            },
        }
        let ghost s1 = *self;
        proof {
            if gprogram.functions@.contains_key(gprogram.main_function@) {
                let f = gprogram.functions@[gprogram.main_function@];
                if f.parameters@.len() == 0 {
                    assert(s1.stack@ =~= Seq::<Value>::empty());
                    assert(s1.locals@ =~= Map::<Seq<char>, Value>::empty());
                    assert(entry_state(*old(self), gprogram, s1));
                }
            }
        }
        self.run(max_steps)
    }
}

/// Copies a value map entry by entry; the copy denotes the same map.
fn copy_value_map(src: &NameMap<Value>) -> (r: NameMap<Value>)
    requires
        src.wf(),
    ensures
        r.wf(),
        r@ == src@,
{
    let mut r = NameMap::new();
    let n = src.len();
    let mut i: usize = 0;
    while i < n
        invariant
            src.wf(),
            n == src.entries_seq().len(),
            i <= n,
            r.wf(),
            r@ == crate::namemap::map_of(src.entries_seq().take(i as int)),
        decreases n - i,
    {
        r.insert(src.key_at(i).clone(), clone_value(src.value_at(i)));
        proof {
            assert(src.entries_seq().take(i + 1int).drop_last() =~= src.entries_seq().take(
                i as int,
            ));
            assert(src.entries_seq().take(i + 1int).last() == src.entries_seq()[i as int]);
        }
        i = i + 1;
    }
    proof {
        assert(src.entries_seq().take(n as int) =~= src.entries_seq());
        crate::namemap::lemma_view_of_entries(src);
    }
    r
}

/// The per-step changes of a depth history: entry `i` is the change the
/// step from state `i` to state `i + 1` made.
pub open spec fn step_deltas(depths: Seq<int>) -> Seq<int> {
    Seq::new((depths.len() - 1) as nat, |i: int| depths[i + 1] - depths[i])
}

/// The sum of a sequence of integers.
pub open spec fn sum_ints(s: Seq<int>) -> int
    decreases s.len(),
{
    if s.len() == 0 {
        0int
    } else {
        sum_ints(s.drop_last()) + s.last()
    }
}

/// Changes over a depth history telescope: the net change from the first
/// entry to the last equals the sum of the per-step changes.  Applied to
/// the stack depths of an execution (whose per-instruction changes
/// [`step_post`] pins), this is the summation half of the net-depth law.
pub proof fn lemma_net_stack_change_is_sum_of_deltas(depths: Seq<int>)
    requires
        depths.len() > 0,
    ensures
        sum_ints(step_deltas(depths)) == depths.last() - depths[0],
    decreases depths.len(),
{
    if depths.len() == 1 {
        assert(step_deltas(depths) =~= Seq::<int>::empty());
    } else {
        lemma_net_stack_change_is_sum_of_deltas(depths.drop_last());
        assert(step_deltas(depths).drop_last() =~= step_deltas(depths.drop_last()));
        assert(step_deltas(depths).last() == depths.last() - depths[depths.len() - 2]);
        assert(sum_ints(step_deltas(depths)) == sum_ints(step_deltas(depths.drop_last()))
            + step_deltas(depths).last());
    }
}

/// A comparison instruction kind.
#[derive(Debug, Clone, Copy, PartialEq, Eq, Structural)]
pub enum CmpInstr {
    Eq,
    Ne,
    Lt,
    Le,
    Gt,
    Ge,
}

/// Integer negation, with `i64::MIN` wrapping to itself.
pub open spec fn i64_neg_wrap(x: i64) -> i64 {
    if x == i64::MIN {
        i64::MIN
    } else {
        (-x) as i64
    }
}

/// The post-state of an arithmetic instruction over the operand stack:
/// `pre` holds at least the two operands (left below right).
pub open spec fn arith_instr_post(
    op: FloatBinaryOp,
    pre: Seq<Value>,
    post: Seq<Value>,
    r: Result<Option<EffectRequest>, VmError>,
) -> bool
    recommends
        pre.len() >= 2,
{
    let a = pre[pre.len() - 2];
    let b = pre.last();
    let rest = pre.drop_last().drop_last();
    match a {
        Value::Int(x) => match b {
            Value::Int(y) => if divides(op) && y == 0 {
                (r matches Err(e) && e is DivisionByZero) && post == rest
            } else {
                r == Ok::<Option<EffectRequest>, VmError>(None) && post == rest.push(
                    Value::Int(int_arith(op, x, y)),
                )
            },
            Value::Float(_) => float_arith_instr_post(op, a, b, rest, post, r),
            _ => (r matches Err(e) && e is TypeError) && post == rest,
        },
        Value::Float(_) => if is_numeric(b) {
            float_arith_instr_post(op, a, b, rest, post, r)
        } else {
            (r matches Err(e) && e is TypeError) && post == rest
        },
        _ => (r matches Err(e) && e is TypeError) && post == rest,
    }
}

/// The host-deferred half of an arithmetic instruction.
pub open spec fn float_arith_instr_post(
    op: FloatBinaryOp,
    a: Value,
    b: Value,
    rest: Seq<Value>,
    post: Seq<Value>,
    r: Result<Option<EffectRequest>, VmError>,
) -> bool {
    if divides(op) && divisor_is_zero(b) {
        (r matches Err(e) && e is DivisionByZero) && post == rest
    } else {
        r matches Ok(o) && o matches Some(e) && e matches EffectRequest::FloatBinary {
            op: eop,
            lhs,
            rhs,
        } && eop == op && lhs == a && rhs == b && post == rest
    }
}

/// The post-state of a comparison instruction over the operand stack.
pub open spec fn compare_instr_post(
    op: CmpInstr,
    pre: Seq<Value>,
    post: Seq<Value>,
    r: Result<Option<EffectRequest>, VmError>,
) -> bool
    recommends
        pre.len() >= 2,
{
    let a = pre[pre.len() - 2];
    let b = pre.last();
    let rest = pre.drop_last().drop_last();
    match op {
        CmpInstr::Eq => r == Ok::<Option<EffectRequest>, VmError>(None) && post == rest.push(
            Value::Bool(val_equiv(a, b)),
        ),
        CmpInstr::Ne => r == Ok::<Option<EffectRequest>, VmError>(None) && post == rest.push(
            Value::Bool(!val_equiv(a, b)),
        ),
        _ => {
            match (a, b) {
                (Value::Int(x), Value::Int(y)) => r == Ok::<Option<EffectRequest>, VmError>(None)
                    && post == rest.push(Value::Bool(int_order(op, x, y))),
                (Value::Str(x), Value::Str(y)) => r == Ok::<Option<EffectRequest>, VmError>(None)
                    && post == rest.push(Value::Bool(str_order(op, x@, y@))),
                _ => if needs_float(a, b) {
                    r matches Ok(o) && o matches Some(e) && e matches
                        EffectRequest::CompareNumeric { op: eop, lhs, rhs } && eop
                        == effect_cmp_of(op) && lhs == a && rhs == b && post == rest
                } else {
                    (r matches Err(e) && e is TypeError) && post == rest
                },
            }
        },
    }
}

/// Integer ordering.
pub open spec fn int_order(op: CmpInstr, x: i64, y: i64) -> bool {
    match op {
        CmpInstr::Lt => x < y,
        CmpInstr::Le => x <= y,
        CmpInstr::Gt => x > y,
        _ => x >= y,
    }
}

/// Lexicographic string ordering.
pub open spec fn str_order(op: CmpInstr, x: Seq<char>, y: Seq<char>) -> bool {
    match op {
        CmpInstr::Lt => lex_lt(x, y),
        CmpInstr::Le => !lex_lt(y, x),
        CmpInstr::Gt => lex_lt(y, x),
        _ => !lex_lt(x, y),
    }
}

/// The effect-level comparison operator of an ordering instruction.
pub open spec fn effect_cmp_of(op: CmpInstr) -> CompareOp {
    match op {
        CmpInstr::Lt => CompareOp::Lt,
        CmpInstr::Le => CompareOp::Le,
        CmpInstr::Gt => CompareOp::Gt,
        _ => CompareOp::Ge,
    }
}

/// The post-state of a logical instruction over the operand stack.
pub open spec fn logical_instr_post(
    is_and: bool,
    pre: Seq<Value>,
    post: Seq<Value>,
    r: Result<(), VmError>,
) -> bool
    recommends
        pre.len() >= 2,
{
    let a = pre[pre.len() - 2];
    let b = pre.last();
    let rest = pre.drop_last().drop_last();
    match (a, b) {
        (Value::Bool(x), Value::Bool(y)) => r is Ok && post == rest.push(
            Value::Bool(
                if is_and {
                    x && y
                } else {
                    x || y
                },
            ),
        ),
        _ => (r matches Err(e) && e is TypeError) && post == rest,
    }
}

} // verus!
