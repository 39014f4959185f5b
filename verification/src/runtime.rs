//! The built-in registry: name-addressed native operations with a uniform
//! calling contract.
//!
//! Every native takes an ordered value sequence and either produces a
//! value, raises a failure kind, or hands back an effect request for the
//! host (console I/O, clock, randomness, floating-point arithmetic).
//! Arity errors surface as `Runtime`, operand-kind errors as `TypeError`,
//! zero divisors as `DivisionByZero`.

use crate::effects::{EffectRequest, FloatBinaryOp, FloatUnaryOp};
use crate::error::VmError;
use crate::text::{
    find_sub, lower_of, replace_of, replace_str, str_eq, to_lower, to_upper, trim_of, trim_str,
    upper_of,
};
use crate::value::{f64_bits_is_zero, f64_bits_strictly_neg, spec_render, spec_type_label, Value};
use vstd::prelude::*;
use vstd::string::{StrSliceExecFns, StringExecFns, StringSliceAdditionalSpecFns};
use vstd::utf8::encode_utf8;

verus! {

broadcast use vstd::string::group_string_axioms;

/// What a native call produced: a finished value, or a request that the
/// host must perform before the call's result exists.
#[derive(Debug)]
pub enum NativeOutcome {
    /// The native computed its result.
    Done(Value),
    /// The native needs the host; the request says what for.
    Host(EffectRequest),
}

/// Runtime configuration.
#[derive(Debug, Clone)]
pub struct RuntimeConfig {
    /// Enable debug mode.
    pub debug_mode: bool,
    /// Enable profiling.
    pub profiling_enabled: bool,
    /// Memory limit in bytes, when capped.
    pub memory_limit: Option<usize>,
    /// Call-stack depth limit, when capped.
    pub stack_limit: Option<usize>,
}

impl Default for RuntimeConfig {
    /// The default configuration: no debug mode, no profiling, a one-GiB
    /// memory cap and a call-stack cap of `1048576` frames.
    fn default() -> (r: Self)
        ensures
            !r.debug_mode,
            !r.profiling_enabled,
            r.memory_limit == Some(1073741824usize),
            r.stack_limit == Some(1048576usize),
    {
        RuntimeConfig {
            debug_mode: false,
            profiling_enabled: false,
            memory_limit: Some(1073741824),
            stack_limit: Some(1048576),
        }
    }
}

/// The runtime environment: the built-in registry and its configuration.
pub struct Runtime {
    config: RuntimeConfig,
}

/// Whether a value is numeric (an integer or a floating-point number).
pub open spec fn is_numeric(v: Value) -> bool {
    v is Int || v is Float
}

/// Whether two operands are numeric with at least one floating-point, so
/// that their arithmetic is host work.
pub open spec fn needs_float(a: Value, b: Value) -> bool {
    is_numeric(a) && is_numeric(b) && (a is Float || b is Float)
}

/// Whether a value is a numeric zero, the guard for division and modulo.
pub open spec fn divisor_is_zero(v: Value) -> bool {
    match v {
        Value::Int(i) => i == 0,
        Value::Float(bits) => f64_bits_is_zero(bits),
        _ => false,
    }
}

/// Integer division, truncating toward zero, with the one overflowing
/// case (`i64::MIN / -1`) wrapping to `i64::MIN`.
pub open spec fn int_div_wrap(a: i64, b: i64) -> i64
    recommends
        b != 0,
{
    match a.checked_div(b) {
        Some(q) => q,
        None => i64::MIN,
    }
}

/// Integer remainder, with the sign of the dividend, with the one
/// overflowing case (`i64::MIN % -1`) wrapping to zero.
pub open spec fn int_rem_wrap(a: i64, b: i64) -> i64
    recommends
        b != 0,
{
    match a.checked_rem(b) {
        Some(q) => q,
        None => 0i64,
    }
}

/// The absolute value of an integer, with `i64::MIN` wrapping to itself.
pub open spec fn int_abs_wrap(a: i64) -> i64 {
    if a == i64::MIN {
        i64::MIN
    } else if a < 0 {
        (-a) as i64
    } else {
        a
    }
}

/// The contract of the two-operand arithmetic natives: integer pairs are
/// computed here, a floating-point operand defers to the host, anything
/// else is a type error.  `allow_str` admits string concatenation (the
/// `add` native).
pub open spec fn arith_native_post(
    op: FloatBinaryOp,
    allow_str: bool,
    args: Seq<Value>,
    r: Result<NativeOutcome, VmError>,
) -> bool {
    if args.len() != 2 {
        r matches Err(e) && e is Runtime
    } else {
        match args[0] {
            Value::Int(x) => match args[1] {
                Value::Int(y) => if divides(op) && y == 0 {
                    r matches Err(e) && e is DivisionByZero
                } else {
                    r matches Ok(o) && o matches NativeOutcome::Done(v) && v == Value::Int(
                        int_arith(op, x, y),
                    )
                },
                Value::Float(_) => float_arith_outcome(op, args, r),
                _ => r matches Err(e) && e is TypeError,
            },
            Value::Float(_) => if is_numeric(args[1]) {
                float_arith_outcome(op, args, r)
            } else {
                r matches Err(e) && e is TypeError
            },
            Value::Str(x) => if allow_str {
                match args[1] {
                    Value::Str(y) => r matches Ok(o) && o matches NativeOutcome::Done(v) && (
                    v matches Value::Str(t) && t@ == x@ + y@),
                    _ => r matches Err(e) && e is TypeError,
                }
            } else {
                r matches Err(e) && e is TypeError
            },
            _ => r matches Err(e) && e is TypeError,
        }
    }
}

/// The host-deferred half of two-operand arithmetic: a zero divisor is
/// refused here, everything else becomes a host request.
pub open spec fn float_arith_outcome(
    op: FloatBinaryOp,
    args: Seq<Value>,
    r: Result<NativeOutcome, VmError>,
) -> bool {
    if divides(op) && divisor_is_zero(args[1]) {
        r matches Err(e) && e is DivisionByZero
    } else {
        r matches Ok(o) && o matches NativeOutcome::Host(e) && e matches
            EffectRequest::FloatBinary { op: eop, lhs, rhs } && eop == op && lhs == args[0] && rhs
            == args[1]
    }
}

/// Whether an arithmetic operation is a division or remainder.
pub open spec fn divides(op: FloatBinaryOp) -> bool {
    op == FloatBinaryOp::Div || op == FloatBinaryOp::Mod
}

/// Integer arithmetic: wrap-around two's-complement semantics, with
/// division and remainder truncating toward zero.
pub open spec fn int_arith(op: FloatBinaryOp, a: i64, b: i64) -> i64 {
    match op {
        FloatBinaryOp::Add => a.wrapping_add(b),
        FloatBinaryOp::Sub => a.wrapping_sub(b),
        FloatBinaryOp::Mul => a.wrapping_mul(b),
        FloatBinaryOp::Div => int_div_wrap(a, b),
        FloatBinaryOp::Mod => int_rem_wrap(a, b),
        FloatBinaryOp::Pow => 0i64,
    }
}

/// The uniform calling contract of the built-in registry, per name: the
/// exact result of each pure native, the host request of each deferred
/// one, and `UndefinedFunction` for an unknown name.
pub open spec fn native_post(name: Seq<char>, args: Seq<Value>, r: Result<
    NativeOutcome,
    VmError,
>) -> bool {
    &&& (name == "print"@ ==> print_post(args, false, r))
    &&& (name == "printf"@ ==> printf_post(args, r))
    &&& (name == "println"@ ==> print_post(args, true, r))
    &&& (name == "read_line"@ ==> (r matches Ok(o) && o matches NativeOutcome::Host(e) && (
    e is ReadLine)))
    &&& (name == "add"@ ==> arith_native_post(FloatBinaryOp::Add, true, args, r))
    &&& (name == "subtract"@ ==> arith_native_post(FloatBinaryOp::Sub, false, args, r))
    &&& (name == "multiply"@ ==> arith_native_post(FloatBinaryOp::Mul, false, args, r))
    &&& (name == "divide"@ ==> arith_native_post(FloatBinaryOp::Div, false, args, r))
    &&& (name == "modulo"@ ==> modulo_post(args, r))
    &&& (name == "abs"@ ==> abs_post(args, r))
    &&& (name == "sqrt"@ ==> sqrt_post(args, r))
    &&& (name == "pow"@ ==> pow_post(args, r))
    &&& (name == "sin"@ ==> trig_post(FloatUnaryOp::Sin, args, r))
    &&& (name == "cos"@ ==> trig_post(FloatUnaryOp::Cos, args, r))
    &&& (name == "tan"@ ==> trig_post(FloatUnaryOp::Tan, args, r))
    &&& (name == "length"@ ==> length_post(args, r))
    &&& (name == "isEmpty"@ ==> is_empty_post(args, r))
    &&& (name == "toUpperCase"@ ==> case_post(true, args, r))
    &&& (name == "toLowerCase"@ ==> case_post(false, args, r))
    &&& (name == "substring"@ ==> substring_post(args, r))
    &&& (name == "indexOf"@ ==> index_of_post(args, r))
    &&& (name == "replace"@ ==> replace_post(args, r))
    &&& (name == "trim"@ ==> trim_post(args, r))
    &&& (name == "typeOf"@ ==> type_of_post(args, r))
    &&& (name == "isNull"@ ==> predicate_post(args, r, |v: Value| v is Null))
    &&& (name == "isNumber"@ ==> predicate_post(args, r, |v: Value| is_numeric(v)))
    &&& (name == "isString"@ ==> predicate_post(args, r, |v: Value| v is Str))
    &&& (name == "isBool"@ ==> predicate_post(args, r, |v: Value| v is Bool))
    &&& (name == "isObject"@ ==> predicate_post(args, r, |v: Value| v is Object))
    &&& (name == "isArray"@ ==> predicate_post(args, r, |v: Value| v is Array))
    &&& (name == "random"@ ==> (r matches Ok(o) && o matches NativeOutcome::Host(e) && (
    e is Random)))
    &&& (name == "time"@ ==> (r matches Ok(o) && o matches NativeOutcome::Host(e) && (
    e is TimeNow)))
    &&& (name == "sleep"@ ==> sleep_post(args, r))
    &&& (!is_native_name(name) ==> (r matches Err(e) && e matches VmError::UndefinedFunction(m)
        && m@ == "native:"@ + name))
}

impl Runtime {
    /// A fresh runtime with the default configuration and the standard
    /// library registered.
    pub fn new() -> (r: Self)
        ensures
            !r.spec_config().debug_mode,
            !r.spec_config().profiling_enabled,
            r.spec_config().memory_limit == Some(1073741824usize),
            r.spec_config().stack_limit == Some(1048576usize),
    {
        Runtime { config: RuntimeConfig::default() }
    }

    /// The runtime configuration.
    pub fn config(&self) -> (r: &RuntimeConfig)
        ensures
            *r == self.spec_config(),
    {
        &self.config
    }

    /// The runtime configuration.
    pub closed spec fn spec_config(&self) -> RuntimeConfig {
        self.config
    }

    /// Replaces the runtime configuration.
    pub fn set_config(&mut self, config: RuntimeConfig)
        ensures
            final(self).spec_config() == config,
    {
        self.config = config;
    }

    /// Calls a built-in by name.  Pure natives are computed here; natives
    /// that need the console, the clock, randomness or floating-point
    /// arithmetic come back as host requests.  An unknown name fails with
    /// `UndefinedFunction`.
    #[verifier::rlimit(100)]
    pub fn call_native(&self, name: &str, args: &[Value]) -> (r: Result<NativeOutcome, VmError>)
        ensures
            native_post(name@, args@, r),
    {
        proof {
            lemma_native_name_literals();
            assert("println"@.len() == 7);
            assert("print"@.len() == 5);
            assert("println"@ != "print"@);
            assert("println"@ != "printf"@);
        }
        if str_eq(name, "print") {
            Self::native_print(args, false)
        } else if str_eq(name, "printf") {
            Self::native_printf(args)
        } else if str_eq(name, "println") {
            Self::native_print(args, true)
        } else if str_eq(name, "read_line") {
            Ok(NativeOutcome::Host(EffectRequest::ReadLine))
        } else if str_eq(name, "add") {
            Self::native_arith(FloatBinaryOp::Add, true, "add requires exactly 2 arguments", args)
        } else if str_eq(name, "subtract") {
            Self::native_arith(
                FloatBinaryOp::Sub,
                false,
                "subtract requires exactly 2 arguments",
                args,
            )
        } else if str_eq(name, "multiply") {
            Self::native_arith(
                FloatBinaryOp::Mul,
                false,
                "multiply requires exactly 2 arguments",
                args,
            )
        } else if str_eq(name, "divide") {
            Self::native_arith(
                FloatBinaryOp::Div,
                false,
                "divide requires exactly 2 arguments",
                args,
            )
        } else if str_eq(name, "modulo") {
            Self::native_modulo(args)
        } else if str_eq(name, "abs") {
            Self::native_abs(args)
        } else if str_eq(name, "sqrt") {
            Self::native_sqrt(args)
        } else if str_eq(name, "pow") {
            Self::native_pow(args)
        } else if str_eq(name, "sin") {
            Self::native_trig(FloatUnaryOp::Sin, "sin requires exactly 1 argument", args)
        } else if str_eq(name, "cos") {
            Self::native_trig(FloatUnaryOp::Cos, "cos requires exactly 1 argument", args)
        } else if str_eq(name, "tan") {
            Self::native_trig(FloatUnaryOp::Tan, "tan requires exactly 1 argument", args)
        } else if str_eq(name, "length") {
            Self::native_length(args)
        } else if str_eq(name, "isEmpty") {
            Self::native_is_empty(args)
        } else if str_eq(name, "toUpperCase") {
            Self::native_to_upper_case(args)
        } else if str_eq(name, "toLowerCase") {
            Self::native_to_lower_case(args)
        } else if str_eq(name, "substring") {
            Self::native_substring(args)
        } else if str_eq(name, "indexOf") {
            Self::native_index_of(args)
        } else if str_eq(name, "replace") {
            Self::native_replace(args)
        } else if str_eq(name, "trim") {
            Self::native_trim(args)
        } else if str_eq(name, "typeOf") {
            Self::native_type_of(args)
        } else if str_eq(name, "isNull") {
            Self::native_predicate(args, 0, "isNull requires exactly 1 argument")
        } else if str_eq(name, "isNumber") {
            Self::native_predicate(args, 1, "isNumber requires exactly 1 argument")
        } else if str_eq(name, "isString") {
            Self::native_predicate(args, 2, "isString requires exactly 1 argument")
        } else if str_eq(name, "isBool") {
            Self::native_predicate(args, 3, "isBool requires exactly 1 argument")
        } else if str_eq(name, "isObject") {
            Self::native_predicate(args, 4, "isObject requires exactly 1 argument")
        } else if str_eq(name, "isArray") {
            Self::native_predicate(args, 5, "isArray requires exactly 1 argument")
        } else if str_eq(name, "random") {
            Ok(NativeOutcome::Host(EffectRequest::Random))
        } else if str_eq(name, "time") {
            Ok(NativeOutcome::Host(EffectRequest::TimeNow))
        } else if str_eq(name, "sleep") {
            Self::native_sleep(args)
        } else {
            let mut m = "native:".to_owned();
            m.append(name);
            Err(VmError::UndefinedFunction(m))
        }
    }

    /// The number of stack arguments each native consumes, or `None` for
    /// an unknown name.
    pub fn native_arity(name: &str) -> (r: Option<usize>)
        ensures
            r is Some <==> is_native_name(name@),
            r matches Some(n) ==> n == spec_native_arity(name@),
    {
        proof {
            lemma_native_name_literals();
        }
        if str_eq(name, "read_line") || str_eq(name, "random") || str_eq(name, "time") {
            Some(0)
        } else if str_eq(name, "print") || str_eq(name, "println") || str_eq(name, "printf")
            || str_eq(name, "abs") || str_eq(name, "sqrt") || str_eq(name, "sin") || str_eq(
            name,
            "cos",
        ) || str_eq(name, "tan") || str_eq(name, "length") || str_eq(name, "isEmpty") || str_eq(
            name,
            "toUpperCase",
        ) || str_eq(name, "toLowerCase") || str_eq(name, "trim") || str_eq(name, "typeOf")
            || str_eq(name, "isNull") || str_eq(name, "isNumber") || str_eq(name, "isString")
            || str_eq(name, "isBool") || str_eq(name, "isObject") || str_eq(name, "isArray")
            || str_eq(name, "sleep") {
            Some(1)
        } else if str_eq(name, "add") || str_eq(name, "subtract") || str_eq(name, "multiply")
            || str_eq(name, "divide") || str_eq(name, "modulo") || str_eq(name, "pow") || str_eq(
            name,
            "indexOf",
        ) {
            Some(2)
        } else if str_eq(name, "substring") || str_eq(name, "replace") {
            Some(3)
        } else {
            None
        }
    }

    /// The print family: always host work; the engine's own result is
    /// `Null`.
    fn native_print(args: &[Value], newline: bool) -> (r: Result<NativeOutcome, VmError>)
        ensures
            print_post(args@, newline, r),
    {
        let values = crate::bytecode::clone_value_slice(args);
        Ok(NativeOutcome::Host(EffectRequest::Print { values, newline }))
    }

    /// Replaces the leftmost `{}` of a format with a substitute.
    fn subst_once(s: &str, sub: &str) -> (r: String)
        ensures
            r@ == subst_one(s@, sub@),
    {
        let n = s.unicode_len();
        let mut out = String::new();
        let mut i: usize = 0;
        while n - i > 1
            invariant
                n == s@.len(),
                i <= n,
                out@ == s@.take(i as int),
                forall|j: int|
                    0 <= j < i ==> !((#[trigger] s@[j]) == '{' && j + 1 < s@.len() && s@[j + 1]
                        == '}'),
            decreases n - i,
        {
            let c = s.get_char(i);
            if c == '{' && s.get_char(i + 1) == '}' {
                out.append(sub);
                let mut k = i + 2;
                while k < n
                    invariant
                        n == s@.len(),
                        i + 2 <= k <= n,
                        out@ == s@.take(i as int) + sub@ + s@.subrange(i + 2, k as int),
                    decreases n - k,
                {
                    crate::text::push_char(&mut out, s.get_char(k));
                    proof {
                        assert(out@ =~= s@.take(i as int) + sub@ + s@.subrange(i + 2, k + 1int));
                    }
                    k = k + 1;
                }
                proof {
                    lemma_subst_one_skip(s@, sub@, i as int);
                    assert(s@.skip(i as int)[0] == s@[i as int]);
                    assert(s@.skip(i as int)[1] == s@[i + 1int]);
                    assert(s@.skip(i as int).skip(2) =~= s@.subrange(i + 2, n as int));
                    assert(out@ =~= s@.take(i as int) + (sub@ + s@.subrange(i + 2, n as int)));
                }
                return out;
            }
            crate::text::push_char(&mut out, c);
            proof {
                assert(out@ =~= s@.take(i + 1int));
            }
            i = i + 1;
        }
        if i < n {
            crate::text::push_char(&mut out, s.get_char(i));
            proof {
                assert(out@ =~= s@.take(i + 1int));
            }
            i = i + 1;
        }
        proof {
            lemma_subst_one_skip(s@, sub@, i as int);
            assert(out@ =~= s@.take(i as int) + subst_one(s@.skip(i as int), sub@));
        }
        out
    }

    /// `printf`: the `{}` substitution is computed here whenever every
    /// argument is renderable; a `Float` argument defers the whole
    /// request to the host.
    fn native_printf(args: &[Value]) -> (r: Result<NativeOutcome, VmError>)
        ensures
            printf_post(args@, r),
    {
        let n = args.len();
        if n == 0 {
            return Ok(NativeOutcome::Done(Value::Null));
        }
        let mut i: usize = 0;
        while i < n
            invariant
                n == args@.len(),
                i <= n,
                forall|j: int| 0 <= j < i ==> !((#[trigger] args@[j]) is Float),
            decreases n - i,
        {
            match &args[i] {
                Value::Float(_) => {
                    let values = crate::bytecode::clone_value_slice(args);
                    return Ok(NativeOutcome::Host(EffectRequest::Printf { values }));
                },
                _ => {},
            }
            i = i + 1;
        }
        let mut text = match args[0].to_text() {
            Some(s) => s,
            None => {
                proof {
                    assert(false);
                }
                return Ok(NativeOutcome::Done(Value::Null));
            },
        };
        let mut k: usize = 1;
        while k < n
            invariant
                n == args@.len(),
                1 <= k <= n,
                forall|j: int| 0 <= j < n ==> !((#[trigger] args@[j]) is Float),
                text@ == printf_text(spec_render(args@[0]), args@.subrange(1, k as int)),
            decreases n - k,
        {
            let rendered = match args[k].to_text() {
                Some(s) => s,
                None => {
                    proof {
                        assert(false);
                    }
                    return Ok(NativeOutcome::Done(Value::Null));
                },
            };
            let next = Self::subst_once(text.as_str(), rendered.as_str());
            proof {
                lemma_printf_text_push(
                    spec_render(args@[0]),
                    args@.subrange(1, k as int),
                    args@[k as int],
                );
                assert(args@.subrange(1, k + 1int) =~= args@.subrange(1, k as int).push(
                    args@[k as int],
                ));
            }
            text = next;
            k = k + 1;
        }
        proof {
            assert(args@.subrange(1, n as int) =~= args@.skip(1));
        }
        let mut values: Vec<Value> = Vec::new();
        values.push(Value::Str(text));
        Ok(NativeOutcome::Host(EffectRequest::Print { values, newline: false }))
    }

    /// Two-operand arithmetic: integers here, floating-point at the host,
    /// strings only for `add`.
    fn native_arith(op: FloatBinaryOp, allow_str: bool, arity_msg: &str, args: &[Value]) -> (r:
        Result<NativeOutcome, VmError>)
        requires
            op != FloatBinaryOp::Pow,
        ensures
            arith_native_post(op, allow_str, args@, r),
    {
        if args.len() != 2 {
            return Err(VmError::Runtime(arity_msg.to_owned()));
        }
        let a = &args[0];
        let b = &args[1];
        let is_div = match op {
            FloatBinaryOp::Div => true,
            FloatBinaryOp::Mod => true,
            _ => false,
        };
        match (a, b) {
            (Value::Int(x), Value::Int(y)) => {
                if is_div && *y == 0 {
                    return Err(VmError::DivisionByZero);
                }
                Ok(NativeOutcome::Done(Value::Int(exec_int_arith(op, *x, *y))))
            },
            _ => {
                let a_num = match a {
                    Value::Int(_) => true,
                    Value::Float(_) => true,
                    _ => false,
                };
                let b_num = match b {
                    Value::Int(_) => true,
                    Value::Float(_) => true,
                    _ => false,
                };
                if a_num && b_num {
                    if is_div && divisor_zero(b) {
                        return Err(VmError::DivisionByZero);
                    }
                    Ok(
                        NativeOutcome::Host(
                            EffectRequest::FloatBinary {
                                op,
                                lhs: crate::bytecode::clone_value(a),
                                rhs: crate::bytecode::clone_value(b),
                            },
                        ),
                    )
                } else {
                    if allow_str {
                        match (a, b) {
                            (Value::Str(x), Value::Str(y)) => {
                                let mut t = x.clone();
                                t.append(y.as_str());
                                return Ok(NativeOutcome::Done(Value::Str(t)));
                            },
                            _ => {},
                        }
                    }
                    Err(VmError::TypeError("Invalid operands for arithmetic operation".to_owned()))
                }
            },
        }
    }

    /// Modulo: integer pairs are computed here and floating-point pairs
    /// at the host; mixed operands are a type error.
    fn native_modulo(args: &[Value]) -> (r: Result<NativeOutcome, VmError>)
        ensures
            modulo_post(args@, r),
    {
        if args.len() != 2 {
            return Err(VmError::Runtime("modulo requires exactly 2 arguments".to_owned()));
        }
        match (&args[0], &args[1]) {
            (Value::Int(x), Value::Int(y)) => {
                if *y == 0 {
                    return Err(VmError::DivisionByZero);
                }
                Ok(NativeOutcome::Done(Value::Int(exec_int_arith(FloatBinaryOp::Mod, *x, *y))))
            },
            (Value::Float(x), Value::Float(y)) => {
                if *y == 0 || *y == 0x8000_0000_0000_0000u64 {
                    return Err(VmError::DivisionByZero);
                }
                Ok(
                    NativeOutcome::Host(
                        EffectRequest::FloatBinary {
                            op: FloatBinaryOp::Mod,
                            lhs: Value::Float(*x),
                            rhs: Value::Float(*y),
                        },
                    ),
                )
            },
            _ => Err(VmError::TypeError("Invalid operands for modulo".to_owned())),
        }
    }

    /// Absolute value: computed here for both integers (wrapping at
    /// `i64::MIN`) and floating-point numbers (clearing the sign bit).
    fn native_abs(args: &[Value]) -> (r: Result<NativeOutcome, VmError>)
        ensures
            abs_post(args@, r),
    {
        if args.len() != 1 {
            return Err(VmError::Runtime("abs requires exactly 1 argument".to_owned()));
        }
        match &args[0] {
            Value::Int(a) => {
                let v: i64 = if *a == i64::MIN {
                    i64::MIN
                } else if *a < 0 {
                    -*a
                } else {
                    *a
                };
                Ok(NativeOutcome::Done(Value::Int(v)))
            },
            Value::Float(bits) => Ok(
                NativeOutcome::Done(Value::Float(*bits & 0x7fff_ffff_ffff_ffffu64)),
            ),
            _ => Err(VmError::TypeError("Invalid operand for abs".to_owned())),
        }
    }

    /// Square root: the negativity guard is checked here, the root itself
    /// is host work.
    fn native_sqrt(args: &[Value]) -> (r: Result<NativeOutcome, VmError>)
        ensures
            sqrt_post(args@, r),
    {
        if args.len() != 1 {
            return Err(VmError::Runtime("sqrt requires exactly 1 argument".to_owned()));
        }
        match &args[0] {
            Value::Int(a) => {
                if *a < 0 {
                    return Err(
                        VmError::Runtime("Cannot take square root of negative number".to_owned()),
                    );
                }
                Ok(
                    NativeOutcome::Host(
                        EffectRequest::FloatUnary { op: FloatUnaryOp::Sqrt, arg: Value::Int(*a) },
                    ),
                )
            },
            Value::Float(bits) => {
                if float_bits_strictly_neg(*bits) {
                    return Err(
                        VmError::Runtime("Cannot take square root of negative number".to_owned()),
                    );
                }
                Ok(
                    NativeOutcome::Host(
                        EffectRequest::FloatUnary {
                            op: FloatUnaryOp::Sqrt,
                            arg: Value::Float(*bits),
                        },
                    ),
                )
            },
            _ => Err(VmError::TypeError("Invalid operand for sqrt".to_owned())),
        }
    }

    /// Power: always host work on numeric operands.
    fn native_pow(args: &[Value]) -> (r: Result<NativeOutcome, VmError>)
        ensures
            pow_post(args@, r),
    {
        if args.len() != 2 {
            return Err(VmError::Runtime("pow requires exactly 2 arguments".to_owned()));
        }
        let a_num = match &args[0] {
            Value::Int(_) => true,
            Value::Float(_) => true,
            _ => false,
        };
        let b_num = match &args[1] {
            Value::Int(_) => true,
            Value::Float(_) => true,
            _ => false,
        };
        if a_num && b_num {
            Ok(
                NativeOutcome::Host(
                    EffectRequest::FloatBinary {
                        op: FloatBinaryOp::Pow,
                        lhs: crate::bytecode::clone_value(&args[0]),
                        rhs: crate::bytecode::clone_value(&args[1]),
                    },
                ),
            )
        } else {
            Err(VmError::TypeError("Invalid operands for pow".to_owned()))
        }
    }

    /// The trigonometric natives: host work on a numeric argument.
    fn native_trig(op: FloatUnaryOp, arity_msg: &str, args: &[Value]) -> (r: Result<
        NativeOutcome,
        VmError,
    >)
        ensures
            trig_post(op, args@, r),
    {
        if args.len() != 1 {
            return Err(VmError::Runtime(arity_msg.to_owned()));
        }
        match &args[0] {
            Value::Int(a) => Ok(
                NativeOutcome::Host(EffectRequest::FloatUnary { op, arg: Value::Int(*a) }),
            ),
            Value::Float(bits) => Ok(
                NativeOutcome::Host(EffectRequest::FloatUnary { op, arg: Value::Float(*bits) }),
            ),
            _ => Err(VmError::TypeError("Invalid operand for trigonometric function".to_owned())),
        }
    }

    /// String length in bytes of the UTF-8 encoding.
    fn native_length(args: &[Value]) -> (r: Result<NativeOutcome, VmError>)
        ensures
            length_post(args@, r),
    {
        if args.len() != 1 {
            return Err(VmError::Runtime("length requires exactly 1 argument".to_owned()));
        }
        match &args[0] {
            Value::Str(s) => {
                let n = s.as_str().len();
                if (n as u64) <= 0x7fff_ffff_ffff_ffffu64 {
                    Ok(NativeOutcome::Done(Value::Int(n as i64)))
                } else {
                    Err(VmError::Runtime("string too long".to_owned()))
                }
            },
            _ => Err(VmError::TypeError("Invalid operand for length".to_owned())),
        }
    }

    /// Whether a string is empty.
    fn native_is_empty(args: &[Value]) -> (r: Result<NativeOutcome, VmError>)
        ensures
            is_empty_post(args@, r),
    {
        if args.len() != 1 {
            return Err(VmError::Runtime("isEmpty requires exactly 1 argument".to_owned()));
        }
        match &args[0] {
            Value::Str(s) => Ok(NativeOutcome::Done(Value::Bool(s.as_str().is_empty()))),
            _ => Err(VmError::TypeError("Invalid operand for isEmpty".to_owned())),
        }
    }

    /// Uppercases a string.
    fn native_to_upper_case(args: &[Value]) -> (r: Result<NativeOutcome, VmError>)
        ensures
            case_post(true, args@, r),
    {
        if args.len() != 1 {
            return Err(VmError::Runtime("toUpperCase requires exactly 1 argument".to_owned()));
        }
        match &args[0] {
            Value::Str(s) => Ok(NativeOutcome::Done(Value::Str(to_upper(s.as_str())))),
            _ => Err(VmError::TypeError("Invalid operand for toUpperCase".to_owned())),
        }
    }

    /// Lowercases a string.
    fn native_to_lower_case(args: &[Value]) -> (r: Result<NativeOutcome, VmError>)
        ensures
            case_post(false, args@, r),
    {
        if args.len() != 1 {
            return Err(VmError::Runtime("toLowerCase requires exactly 1 argument".to_owned()));
        }
        match &args[0] {
            Value::Str(s) => Ok(NativeOutcome::Done(Value::Str(to_lower(s.as_str())))),
            _ => Err(VmError::TypeError("Invalid operand for toLowerCase".to_owned())),
        }
    }

    /// The substring of a string between two character positions.
    fn native_substring(args: &[Value]) -> (r: Result<NativeOutcome, VmError>)
        ensures
            substring_post(args@, r),
    {
        if args.len() != 3 {
            return Err(VmError::Runtime("substring requires exactly 3 arguments".to_owned()));
        }
        match (&args[0], &args[1], &args[2]) {
            (Value::Str(s), Value::Int(start), Value::Int(end)) => {
                let n = s.as_str().unicode_len();
                if *start < 0 || *end < 0 || (n as u64) > 0x7fff_ffff_ffff_ffffu64 {
                    return Err(VmError::Runtime("Invalid substring indices".to_owned()));
                }
                if (*start as u64) > (n as u64) || (*end as u64) > (n as u64) || *start > *end {
                    return Err(VmError::Runtime("Invalid substring indices".to_owned()));
                }
                let start_u = *start as usize;
                let end_u = *end as usize;
                let piece = s.as_str().substring_char(start_u, end_u);
                Ok(NativeOutcome::Done(Value::Str(piece.to_owned())))
            },
            _ => Err(VmError::TypeError("Invalid operands for substring".to_owned())),
        }
    }

    /// The byte index of the first occurrence of one string in another,
    /// or `-1` when there is none.
    fn native_index_of(args: &[Value]) -> (r: Result<NativeOutcome, VmError>)
        ensures
            index_of_post(args@, r),
    {
        if args.len() != 2 {
            return Err(VmError::Runtime("indexOf requires exactly 2 arguments".to_owned()));
        }
        match (&args[0], &args[1]) {
            (Value::Str(s), Value::Str(sub)) => {
                let ss = s.as_str();
                let bb = sub.as_str();
                proof {
                    assert(ss.spec_bytes() == encode_utf8(s@));
                    assert(bb.spec_bytes() == encode_utf8(sub@));
                }
                let ghost sbytes = encode_utf8(s@);
                let ghost subbytes = encode_utf8(sub@);
                match find_sub(ss, bb) {
                    Some(index) => {
                        proof {
                            assert(occurs_at(sbytes, subbytes, index as int));
                            assert forall|j: int| 0 <= j < index implies !occurs_at(
                                sbytes,
                                subbytes,
                                j,
                            ) by {
                                if occurs_at(sbytes, subbytes, j) {
                                    assert(sbytes.subrange(j, j + subbytes.len()) == subbytes);
                                }
                            }
                        }
                        if (index as u64) <= 0x7fff_ffff_ffff_ffffu64 {
                            Ok(NativeOutcome::Done(Value::Int(index as i64)))
                        } else {
                            Err(VmError::Runtime("string too long".to_owned()))
                        }
                    },
                    None => {
                        proof {
                            assert forall|i: int| !occurs_at(sbytes, subbytes, i) by {
                                if occurs_at(sbytes, subbytes, i) {
                                    assert(0 <= i <= sbytes.len() - subbytes.len());
                                    assert(sbytes.subrange(i, i + subbytes.len()) == subbytes);
                                }
                            }
                            assert(!occurs_in(sbytes, subbytes));
                        }
                        Ok(NativeOutcome::Done(Value::Int(-1)))
                    },
                }
            },
            _ => Err(VmError::TypeError("Invalid operands for indexOf".to_owned())),
        }
    }

    /// Replaces every occurrence of one string by another.
    fn native_replace(args: &[Value]) -> (r: Result<NativeOutcome, VmError>)
        ensures
            replace_post(args@, r),
    {
        if args.len() != 3 {
            return Err(VmError::Runtime("replace requires exactly 3 arguments".to_owned()));
        }
        match (&args[0], &args[1], &args[2]) {
            (Value::Str(s), Value::Str(from), Value::Str(to)) => Ok(
                NativeOutcome::Done(
                    Value::Str(replace_str(s.as_str(), from.as_str(), to.as_str())),
                ),
            ),
            _ => Err(VmError::TypeError("Invalid operands for replace".to_owned())),
        }
    }

    /// Trims leading and trailing whitespace from a string.
    fn native_trim(args: &[Value]) -> (r: Result<NativeOutcome, VmError>)
        ensures
            trim_post(args@, r),
    {
        if args.len() != 1 {
            return Err(VmError::Runtime("trim requires exactly 1 argument".to_owned()));
        }
        match &args[0] {
            Value::Str(s) => Ok(NativeOutcome::Done(Value::Str(trim_str(s.as_str())))),
            _ => Err(VmError::TypeError("Invalid operand for trim".to_owned())),
        }
    }

    /// The type name of a value.
    fn native_type_of(args: &[Value]) -> (r: Result<NativeOutcome, VmError>)
        ensures
            type_of_post(args@, r),
    {
        if args.len() != 1 {
            return Err(VmError::Runtime("typeOf requires exactly 1 argument".to_owned()));
        }
        Ok(NativeOutcome::Done(Value::Str(args[0].type_label().to_owned())))
    }

    /// The type predicates: `isNull`, `isNumber`, `isString`, `isBool`,
    /// `isObject`, `isArray`, selected by a small tag.
    fn native_predicate(args: &[Value], which: u8, arity_msg: &str) -> (r: Result<
        NativeOutcome,
        VmError,
    >)
        requires
            which < 6,
        ensures
            which == 0 ==> predicate_post(args@, r, |v: Value| v is Null),
            which == 1 ==> predicate_post(args@, r, |v: Value| is_numeric(v)),
            which == 2 ==> predicate_post(args@, r, |v: Value| v is Str),
            which == 3 ==> predicate_post(args@, r, |v: Value| v is Bool),
            which == 4 ==> predicate_post(args@, r, |v: Value| v is Object),
            which == 5 ==> predicate_post(args@, r, |v: Value| v is Array),
    {
        if args.len() != 1 {
            return Err(VmError::Runtime(arity_msg.to_owned()));
        }
        let v = &args[0];
        let b: bool = if which == 0 {
            matches!(v, Value::Null)
        } else if which == 1 {
            matches!(v, Value::Int(_) | Value::Float(_))
        } else if which == 2 {
            matches!(v, Value::Str(_))
        } else if which == 3 {
            matches!(v, Value::Bool(_))
        } else if which == 4 {
            matches!(v, Value::Object(_))
        } else {
            matches!(v, Value::Array(_))
        };
        Ok(NativeOutcome::Done(Value::Bool(b)))
    }

    /// Sleep: the numeric check is done here, the sleeping at the host.
    fn native_sleep(args: &[Value]) -> (r: Result<NativeOutcome, VmError>)
        ensures
            sleep_post(args@, r),
    {
        if args.len() != 1 {
            return Err(VmError::Runtime("sleep requires exactly 1 argument".to_owned()));
        }
        match &args[0] {
            Value::Int(a) => Ok(
                NativeOutcome::Host(EffectRequest::Sleep { seconds: Value::Int(*a) }),
            ),
            Value::Float(bits) => Ok(
                NativeOutcome::Host(EffectRequest::Sleep { seconds: Value::Float(*bits) }),
            ),
            _ => Err(VmError::TypeError("Invalid operand for sleep".to_owned())),
        }
    }
}

/// The character sequences of the built-in names: lets callers tell the
/// names apart.
pub proof fn lemma_native_name_literals()
    ensures
        "print"@ == seq!['p', 'r', 'i', 'n', 't'],
        "println"@ == seq!['p', 'r', 'i', 'n', 't', 'l', 'n'],
        "printf"@ == seq!['p', 'r', 'i', 'n', 't', 'f'],
        "read_line"@ == seq!['r', 'e', 'a', 'd', '_', 'l', 'i', 'n', 'e'],
        "add"@ == seq!['a', 'd', 'd'],
        "subtract"@ == seq!['s', 'u', 'b', 't', 'r', 'a', 'c', 't'],
        "multiply"@ == seq!['m', 'u', 'l', 't', 'i', 'p', 'l', 'y'],
        "divide"@ == seq!['d', 'i', 'v', 'i', 'd', 'e'],
        "modulo"@ == seq!['m', 'o', 'd', 'u', 'l', 'o'],
        "abs"@ == seq!['a', 'b', 's'],
        "sqrt"@ == seq!['s', 'q', 'r', 't'],
        "pow"@ == seq!['p', 'o', 'w'],
        "sin"@ == seq!['s', 'i', 'n'],
        "cos"@ == seq!['c', 'o', 's'],
        "tan"@ == seq!['t', 'a', 'n'],
        "length"@ == seq!['l', 'e', 'n', 'g', 't', 'h'],
        "isEmpty"@ == seq!['i', 's', 'E', 'm', 'p', 't', 'y'],
        "toUpperCase"@ == seq!['t', 'o', 'U', 'p', 'p', 'e', 'r', 'C', 'a', 's', 'e'],
        "toLowerCase"@ == seq!['t', 'o', 'L', 'o', 'w', 'e', 'r', 'C', 'a', 's', 'e'],
        "substring"@ == seq!['s', 'u', 'b', 's', 't', 'r', 'i', 'n', 'g'],
        "indexOf"@ == seq!['i', 'n', 'd', 'e', 'x', 'O', 'f'],
        "replace"@ == seq!['r', 'e', 'p', 'l', 'a', 'c', 'e'],
        "trim"@ == seq!['t', 'r', 'i', 'm'],
        "typeOf"@ == seq!['t', 'y', 'p', 'e', 'O', 'f'],
        "isNull"@ == seq!['i', 's', 'N', 'u', 'l', 'l'],
        "isNumber"@ == seq!['i', 's', 'N', 'u', 'm', 'b', 'e', 'r'],
        "isString"@ == seq!['i', 's', 'S', 't', 'r', 'i', 'n', 'g'],
        "isBool"@ == seq!['i', 's', 'B', 'o', 'o', 'l'],
        "isObject"@ == seq!['i', 's', 'O', 'b', 'j', 'e', 'c', 't'],
        "isArray"@ == seq!['i', 's', 'A', 'r', 'r', 'a', 'y'],
        "random"@ == seq!['r', 'a', 'n', 'd', 'o', 'm'],
        "time"@ == seq!['t', 'i', 'm', 'e'],
        "sleep"@ == seq!['s', 'l', 'e', 'e', 'p'],
{
    reveal_strlit("print");
    assert("print"@ =~= seq!['p', 'r', 'i', 'n', 't']);
    reveal_strlit("println");
    assert("println"@ =~= seq!['p', 'r', 'i', 'n', 't', 'l', 'n']);
    reveal_strlit("printf");
    assert("printf"@ =~= seq!['p', 'r', 'i', 'n', 't', 'f']);
    reveal_strlit("read_line");
    assert("read_line"@ =~= seq!['r', 'e', 'a', 'd', '_', 'l', 'i', 'n', 'e']);
    reveal_strlit("add");
    assert("add"@ =~= seq!['a', 'd', 'd']);
    reveal_strlit("subtract");
    assert("subtract"@ =~= seq!['s', 'u', 'b', 't', 'r', 'a', 'c', 't']);
    reveal_strlit("multiply");
    assert("multiply"@ =~= seq!['m', 'u', 'l', 't', 'i', 'p', 'l', 'y']);
    reveal_strlit("divide");
    assert("divide"@ =~= seq!['d', 'i', 'v', 'i', 'd', 'e']);
    reveal_strlit("modulo");
    assert("modulo"@ =~= seq!['m', 'o', 'd', 'u', 'l', 'o']);
    reveal_strlit("abs");
    assert("abs"@ =~= seq!['a', 'b', 's']);
    reveal_strlit("sqrt");
    assert("sqrt"@ =~= seq!['s', 'q', 'r', 't']);
    reveal_strlit("pow");
    assert("pow"@ =~= seq!['p', 'o', 'w']);
    reveal_strlit("sin");
    assert("sin"@ =~= seq!['s', 'i', 'n']);
    reveal_strlit("cos");
    assert("cos"@ =~= seq!['c', 'o', 's']);
    reveal_strlit("tan");
    assert("tan"@ =~= seq!['t', 'a', 'n']);
    reveal_strlit("length");
    assert("length"@ =~= seq!['l', 'e', 'n', 'g', 't', 'h']);
    reveal_strlit("isEmpty");
    assert("isEmpty"@ =~= seq!['i', 's', 'E', 'm', 'p', 't', 'y']);
    reveal_strlit("toUpperCase");
    assert("toUpperCase"@ =~= seq!['t', 'o', 'U', 'p', 'p', 'e', 'r', 'C', 'a', 's', 'e']);
    reveal_strlit("toLowerCase");
    assert("toLowerCase"@ =~= seq!['t', 'o', 'L', 'o', 'w', 'e', 'r', 'C', 'a', 's', 'e']);
    reveal_strlit("substring");
    assert("substring"@ =~= seq!['s', 'u', 'b', 's', 't', 'r', 'i', 'n', 'g']);
    reveal_strlit("indexOf");
    assert("indexOf"@ =~= seq!['i', 'n', 'd', 'e', 'x', 'O', 'f']);
    reveal_strlit("replace");
    assert("replace"@ =~= seq!['r', 'e', 'p', 'l', 'a', 'c', 'e']);
    reveal_strlit("trim");
    assert("trim"@ =~= seq!['t', 'r', 'i', 'm']);
    reveal_strlit("typeOf");
    assert("typeOf"@ =~= seq!['t', 'y', 'p', 'e', 'O', 'f']);
    reveal_strlit("isNull");
    assert("isNull"@ =~= seq!['i', 's', 'N', 'u', 'l', 'l']);
    reveal_strlit("isNumber");
    assert("isNumber"@ =~= seq!['i', 's', 'N', 'u', 'm', 'b', 'e', 'r']);
    reveal_strlit("isString");
    assert("isString"@ =~= seq!['i', 's', 'S', 't', 'r', 'i', 'n', 'g']);
    reveal_strlit("isBool");
    assert("isBool"@ =~= seq!['i', 's', 'B', 'o', 'o', 'l']);
    reveal_strlit("isObject");
    assert("isObject"@ =~= seq!['i', 's', 'O', 'b', 'j', 'e', 'c', 't']);
    reveal_strlit("isArray");
    assert("isArray"@ =~= seq!['i', 's', 'A', 'r', 'r', 'a', 'y']);
    reveal_strlit("random");
    assert("random"@ =~= seq!['r', 'a', 'n', 'd', 'o', 'm']);
    reveal_strlit("time");
    assert("time"@ =~= seq!['t', 'i', 'm', 'e']);
    reveal_strlit("sleep");
    assert("sleep"@ =~= seq!['s', 'l', 'e', 'e', 'p']);
}

/// The format with its leftmost `{}` replaced by the substitute, or
/// unchanged when no `{}` occurs.
pub open spec fn subst_one(s: Seq<char>, sub: Seq<char>) -> Seq<char>
    decreases s.len(),
{
    if s.len() < 2 {
        s
    } else if s[0] == '{' && s[1] == '}' {
        sub + s.skip(2)
    } else {
        seq![s[0]] + subst_one(s.skip(1), sub)
    }
}

/// The text `printf` prints: the first argument's rendering, with each
/// later argument's rendering substituted for the leftmost `{}` in turn.
pub open spec fn printf_text(format: Seq<char>, rest: Seq<Value>) -> Seq<char>
    decreases rest.len(),
{
    if rest.len() == 0 {
        format
    } else {
        printf_text(subst_one(format, spec_render(rest.first())), rest.skip(1))
    }
}

/// Substitution passes over a prefix in which no `{}` begins.
proof fn lemma_subst_one_skip(s: Seq<char>, sub: Seq<char>, i: int)
    requires
        0 <= i <= s.len(),
        forall|j: int| 0 <= j < i && j + 1 < s.len() ==> !((#[trigger] s[j]) == '{' && s[j + 1] == '}'),
    ensures
        subst_one(s, sub) == s.take(i) + subst_one(s.skip(i), sub),
    decreases i,
{
    if i == 0 {
        assert(s.skip(0) =~= s);
        assert(s.take(0) + subst_one(s.skip(0), sub) =~= subst_one(s, sub));
    } else if s.len() < 2 {
        assert(s.skip(i) =~= Seq::<char>::empty());
        assert(s.take(i) + subst_one(s.skip(i), sub) =~= s);
    } else {
        assert forall|j: int|
            0 <= j < i - 1 && j + 1 < s.skip(1).len() implies !((#[trigger] s.skip(1)[j]) == '{'
            && s.skip(1)[j + 1] == '}') by {
            assert(s.skip(1)[j] == s[j + 1]);
            assert(s.skip(1)[j + 1] == s[j + 2]);
        }
        lemma_subst_one_skip(s.skip(1), sub, i - 1);
        assert(!(s[0] == '{' && s[1] == '}'));
        assert(seq![s[0]] + s.skip(1).take(i - 1) =~= s.take(i));
        assert(s.skip(1).skip(i - 1) =~= s.skip(i));
        assert(seq![s[0]] + (s.skip(1).take(i - 1) + subst_one(s.skip(i), sub)) =~= s.take(i)
            + subst_one(s.skip(i), sub));
    }
}

/// One more argument substitutes into the text built so far.
proof fn lemma_printf_text_push(format: Seq<char>, rest: Seq<Value>, v: Value)
    ensures
        printf_text(format, rest.push(v)) == subst_one(printf_text(format, rest), spec_render(v)),
    decreases rest.len(),
{
    if rest.len() == 0 {
        assert(rest.push(v).first() == v);
        assert(rest.push(v).skip(1) =~= Seq::<Value>::empty());
        assert(printf_text(format, rest.push(v)) == printf_text(
            subst_one(format, spec_render(v)),
            Seq::<Value>::empty(),
        ));
        assert(printf_text(format, rest) == format);
    } else {
        assert(rest.push(v).first() == rest.first());
        assert(rest.push(v).skip(1) =~= rest.skip(1).push(v));
        lemma_printf_text_push(subst_one(format, spec_render(rest.first())), rest.skip(1), v);
        assert(printf_text(format, rest.push(v)) == printf_text(
            subst_one(format, spec_render(rest.first())),
            rest.skip(1).push(v),
        ));
        assert(printf_text(format, rest) == printf_text(
            subst_one(format, spec_render(rest.first())),
            rest.skip(1),
        ));
    }
}

/// The contract of `printf`: no arguments print nothing; when every
/// argument is renderable the substituted text is computed by the engine
/// and handed to the host as a plain `Print`; a `Float` anywhere defers
/// the whole request to the host, which alone renders floating-point
/// numbers.
pub open spec fn printf_post(args: Seq<Value>, r: Result<NativeOutcome, VmError>) -> bool {
    if args.len() == 0 {
        r matches Ok(o) && o matches NativeOutcome::Done(v) && v is Null
    } else if forall|i: int| 0 <= i < args.len() ==> !((#[trigger] args[i]) is Float) {
        r matches Ok(o) && o matches NativeOutcome::Host(e) && e matches EffectRequest::Print {
            values,
            newline,
        } && values@.len() == 1 && (values@[0] matches Value::Str(s) && s@ == printf_text(
            spec_render(args[0]),
            args.skip(1),
        ) && newline == false)
    } else {
        r matches Ok(o) && o matches NativeOutcome::Host(e) && e matches EffectRequest::Printf {
            values,
        } && values@ == args
    }
}

/// The contract of the print family: a host request carrying the
/// arguments unchanged.
pub open spec fn print_post(
    args: Seq<Value>,
    newline: bool,
    r: Result<NativeOutcome, VmError>,
) -> bool {
    r matches Ok(o) && o matches NativeOutcome::Host(e) && e matches EffectRequest::Print {
        values,
        newline: nl,
    } && values@ == args && nl == newline
}

/// The contract of `modulo`: integer pairs and floating-point pairs only.
pub open spec fn modulo_post(args: Seq<Value>, r: Result<NativeOutcome, VmError>) -> bool {
    if args.len() != 2 {
        r matches Err(e) && e is Runtime
    } else {
        match (args[0], args[1]) {
            (Value::Int(x), Value::Int(y)) => if y == 0 {
                r matches Err(e) && e is DivisionByZero
            } else {
                r matches Ok(o) && o matches NativeOutcome::Done(v) && v == Value::Int(
                    int_rem_wrap(x, y),
                )
            },
            (Value::Float(x), Value::Float(y)) => if f64_bits_is_zero(y) {
                r matches Err(e) && e is DivisionByZero
            } else {
                r matches Ok(o) && o matches NativeOutcome::Host(e) && e matches
                    EffectRequest::FloatBinary { op, lhs, rhs } && op == FloatBinaryOp::Mod && lhs
                    == args[0] && rhs == args[1]
            },
            _ => r matches Err(e) && e is TypeError,
        }
    }
}

/// The contract of `abs`.
pub open spec fn abs_post(args: Seq<Value>, r: Result<NativeOutcome, VmError>) -> bool {
    if args.len() != 1 {
        r matches Err(e) && e is Runtime
    } else {
        match args[0] {
            Value::Int(a) => r matches Ok(o) && o matches NativeOutcome::Done(v) && v
                == Value::Int(int_abs_wrap(a)),
            Value::Float(bits) => r matches Ok(o) && o matches NativeOutcome::Done(v) && v
                == Value::Float((bits & 0x7fff_ffff_ffff_ffffu64) as u64),
            _ => r matches Err(e) && e is TypeError,
        }
    }
}

/// The contract of `sqrt`: a strictly negative argument is refused here,
/// anything else goes to the host.
pub open spec fn sqrt_post(args: Seq<Value>, r: Result<NativeOutcome, VmError>) -> bool {
    if args.len() != 1 {
        r matches Err(e) && e is Runtime
    } else {
        match args[0] {
            Value::Int(a) => if a < 0 {
                r matches Err(e) && e is Runtime
            } else {
                r matches Ok(o) && o matches NativeOutcome::Host(e) && e matches
                    EffectRequest::FloatUnary { op, arg } && op == FloatUnaryOp::Sqrt && arg
                    == args[0]
            },
            Value::Float(bits) => if f64_bits_strictly_neg(bits) {
                r matches Err(e) && e is Runtime
            } else {
                r matches Ok(o) && o matches NativeOutcome::Host(e) && e matches
                    EffectRequest::FloatUnary { op, arg } && op == FloatUnaryOp::Sqrt && arg
                    == args[0]
            },
            _ => r matches Err(e) && e is TypeError,
        }
    }
}

/// The contract of `pow`: numeric operands go to the host.
pub open spec fn pow_post(args: Seq<Value>, r: Result<NativeOutcome, VmError>) -> bool {
    if args.len() != 2 {
        r matches Err(e) && e is Runtime
    } else if is_numeric(args[0]) && is_numeric(args[1]) {
        r matches Ok(o) && o matches NativeOutcome::Host(e) && e matches
            EffectRequest::FloatBinary { op, lhs, rhs } && op == FloatBinaryOp::Pow && lhs
            == args[0] && rhs == args[1]
    } else {
        r matches Err(e) && e is TypeError
    }
}

/// The contract of the trigonometric natives.
pub open spec fn trig_post(
    op: FloatUnaryOp,
    args: Seq<Value>,
    r: Result<NativeOutcome, VmError>,
) -> bool {
    if args.len() != 1 {
        r matches Err(e) && e is Runtime
    } else if is_numeric(args[0]) {
        r matches Ok(o) && o matches NativeOutcome::Host(e) && e matches
            EffectRequest::FloatUnary { op: eop, arg } && eop == op && arg == args[0]
    } else {
        r matches Err(e) && e is TypeError
    }
}

/// The contract of `length`: the byte length of the UTF-8 encoding.
pub open spec fn length_post(args: Seq<Value>, r: Result<NativeOutcome, VmError>) -> bool {
    if args.len() != 1 {
        r matches Err(e) && e is Runtime
    } else {
        match args[0] {
            Value::Str(s) => if (encode_utf8(s@).len() as usize) as u64 <= 0x7fff_ffff_ffff_ffff {
                r matches Ok(o) && o matches NativeOutcome::Done(v) && v == Value::Int(
                    ((encode_utf8(s@).len() as usize) as u64) as i64,
                )
            } else {
                r matches Err(e) && e is Runtime
            },
            _ => r matches Err(e) && e is TypeError,
        }
    }
}

/// The contract of `isEmpty`.
pub open spec fn is_empty_post(args: Seq<Value>, r: Result<NativeOutcome, VmError>) -> bool {
    if args.len() != 1 {
        r matches Err(e) && e is Runtime
    } else {
        match args[0] {
            Value::Str(s) => r matches Ok(o) && o matches NativeOutcome::Done(v) && v
                == Value::Bool(s@.len() == 0),
            _ => r matches Err(e) && e is TypeError,
        }
    }
}

/// The contract of `toUpperCase` and `toLowerCase`.
pub open spec fn case_post(upper: bool, args: Seq<Value>, r: Result<NativeOutcome, VmError>) -> bool {
    if args.len() != 1 {
        r matches Err(e) && e is Runtime
    } else {
        match args[0] {
            Value::Str(s) => r matches Ok(o) && o matches NativeOutcome::Done(v) && v matches
                Value::Str(t) && t@ == if upper {
                upper_of(s@)
            } else {
                lower_of(s@)
            },
            _ => r matches Err(e) && e is TypeError,
        }
    }
}

/// The contract of `substring`: character positions, in range and
/// ordered, else a runtime failure.
pub open spec fn substring_post(args: Seq<Value>, r: Result<NativeOutcome, VmError>) -> bool {
    if args.len() != 3 {
        r matches Err(e) && e is Runtime
    } else {
        match (args[0], args[1], args[2]) {
            (Value::Str(s), Value::Int(start), Value::Int(end)) => if 0 <= start <= end
                <= s@.len() && s@.len() <= 0x7fff_ffff_ffff_ffff {
                r matches Ok(o) && o matches NativeOutcome::Done(v) && v matches Value::Str(t)
                    && t@ == s@.subrange(start as int, end as int)
            } else {
                r matches Err(e) && e is Runtime
            },
            _ => r matches Err(e) && e is TypeError,
        }
    }
}

/// The contract of `indexOf`: the byte index of the first occurrence, or
/// `-1` when the needle does not occur.
pub open spec fn index_of_post(args: Seq<Value>, r: Result<NativeOutcome, VmError>) -> bool {
    if args.len() != 2 {
        r matches Err(e) && e is Runtime
    } else {
        match (args[0], args[1]) {
            (Value::Str(s), Value::Str(sub)) => match r {
                Ok(o) => o matches NativeOutcome::Done(v) && v matches Value::Int(i) && (i == -1
                    ==> !occurs_in(encode_utf8(s@), encode_utf8(sub@))) && (i >= 0 ==> occurs_at(
                    encode_utf8(s@),
                    encode_utf8(sub@),
                    i as int,
                ) && (forall|j: int|
                    0 <= j < i ==> !occurs_at(encode_utf8(s@), encode_utf8(sub@), j))),
                Err(e) => e is Runtime,
            },
            _ => r matches Err(e) && e is TypeError,
        }
    }
}

/// Whether `sub` occurs in `s` starting at byte position `i`.
pub open spec fn occurs_at(s: Seq<u8>, sub: Seq<u8>, i: int) -> bool {
    0 <= i && i + sub.len() <= s.len() && s.subrange(i, i + sub.len()) == sub
}

/// Whether `sub` occurs anywhere in `s`.
pub open spec fn occurs_in(s: Seq<u8>, sub: Seq<u8>) -> bool {
    exists|i: int| occurs_at(s, sub, i)
}

/// The contract of `replace`.
pub open spec fn replace_post(args: Seq<Value>, r: Result<NativeOutcome, VmError>) -> bool {
    if args.len() != 3 {
        r matches Err(e) && e is Runtime
    } else {
        match (args[0], args[1], args[2]) {
            (Value::Str(s), Value::Str(from), Value::Str(to)) => r matches Ok(o) && o matches
                NativeOutcome::Done(v) && v matches Value::Str(t) && t@ == replace_of(
                s@,
                from@,
                to@,
            ),
            _ => r matches Err(e) && e is TypeError,
        }
    }
}

/// The contract of `trim`.
pub open spec fn trim_post(args: Seq<Value>, r: Result<NativeOutcome, VmError>) -> bool {
    if args.len() != 1 {
        r matches Err(e) && e is Runtime
    } else {
        match args[0] {
            Value::Str(s) => r matches Ok(o) && o matches NativeOutcome::Done(v) && v matches
                Value::Str(t) && t@ == trim_of(s@),
            _ => r matches Err(e) && e is TypeError,
        }
    }
}

/// The contract of `typeOf`.
pub open spec fn type_of_post(args: Seq<Value>, r: Result<NativeOutcome, VmError>) -> bool {
    if args.len() != 1 {
        r matches Err(e) && e is Runtime
    } else {
        r matches Ok(o) && o matches NativeOutcome::Done(v) && v matches Value::Str(t) && t@
            == spec_type_label(args[0])
    }
}

/// The contract of the type predicates.
pub open spec fn predicate_post(
    args: Seq<Value>,
    r: Result<NativeOutcome, VmError>,
    pred: spec_fn(Value) -> bool,
) -> bool {
    if args.len() != 1 {
        r matches Err(e) && e is Runtime
    } else {
        r matches Ok(o) && o matches NativeOutcome::Done(v) && v == Value::Bool(pred(args[0]))
    }
}

/// The contract of `sleep`: a numeric duration goes to the host.
pub open spec fn sleep_post(args: Seq<Value>, r: Result<NativeOutcome, VmError>) -> bool {
    if args.len() != 1 {
        r matches Err(e) && e is Runtime
    } else if is_numeric(args[0]) {
        r matches Ok(o) && o matches NativeOutcome::Host(e) && e matches EffectRequest::Sleep {
            seconds,
        } && seconds == args[0]
    } else {
        r matches Err(e) && e is TypeError
    }
}

/// Whether a name denotes a built-in.
pub open spec fn is_native_name(n: Seq<char>) -> bool {
    ||| n == "print"@
    ||| n == "println"@
    ||| n == "printf"@
    ||| n == "read_line"@
    ||| n == "add"@
    ||| n == "subtract"@
    ||| n == "multiply"@
    ||| n == "divide"@
    ||| n == "modulo"@
    ||| n == "abs"@
    ||| n == "sqrt"@
    ||| n == "pow"@
    ||| n == "sin"@
    ||| n == "cos"@
    ||| n == "tan"@
    ||| n == "length"@
    ||| n == "isEmpty"@
    ||| n == "toUpperCase"@
    ||| n == "toLowerCase"@
    ||| n == "substring"@
    ||| n == "indexOf"@
    ||| n == "replace"@
    ||| n == "trim"@
    ||| n == "typeOf"@
    ||| n == "isNull"@
    ||| n == "isNumber"@
    ||| n == "isString"@
    ||| n == "isBool"@
    ||| n == "isObject"@
    ||| n == "isArray"@
    ||| n == "random"@
    ||| n == "time"@
    ||| n == "sleep"@
}

/// The number of stack arguments each built-in consumes.
pub open spec fn spec_native_arity(n: Seq<char>) -> usize {
    if n == "read_line"@ || n == "random"@ || n == "time"@ {
        0usize
    } else if n == "add"@ || n == "subtract"@ || n == "multiply"@ || n == "divide"@ || n
        == "modulo"@ || n == "pow"@ || n == "indexOf"@ {
        2usize
    } else if n == "substring"@ || n == "replace"@ {
        3usize
    } else {
        1usize
    }
}

/// Integer arithmetic, as [`int_arith`] states it.
pub(crate) fn exec_int_arith(op: FloatBinaryOp, a: i64, b: i64) -> (r: i64)
    requires
        op != FloatBinaryOp::Pow,
        divides(op) ==> b != 0,
    ensures
        r == int_arith(op, a, b),
{
    match op {
        FloatBinaryOp::Add => a.wrapping_add(b),
        FloatBinaryOp::Sub => a.wrapping_sub(b),
        FloatBinaryOp::Mul => a.wrapping_mul(b),
        FloatBinaryOp::Div => match a.checked_div(b) {
            Some(q) => q,
            None => i64::MIN,
        },
        FloatBinaryOp::Mod => match a.checked_rem(b) {
            Some(q) => q,
            None => 0,
        },
        FloatBinaryOp::Pow => 0,
    }
}

/// Whether a value is a numeric zero, as [`divisor_is_zero`] states it.
pub(crate) fn divisor_zero(v: &Value) -> (r: bool)
    ensures
        r == divisor_is_zero(*v),
{
    match v {
        Value::Int(i) => *i == 0,
        Value::Float(bits) => *bits == 0 || *bits == 0x8000_0000_0000_0000u64,
        _ => false,
    }
}

/// Whether a bit pattern denotes a strictly negative floating-point
/// number, as [`f64_bits_strictly_neg`] states it.
fn float_bits_strictly_neg(bits: u64) -> (r: bool)
    ensures
        r == f64_bits_strictly_neg(bits),
{
    let sign = bits & 0x8000_0000_0000_0000u64 != 0;
    let exponent = (bits >> 52) & 0x7ff;
    let mantissa = bits & 0xf_ffff_ffff_ffffu64;
    let is_nan = exponent == 0x7ff && mantissa != 0;
    let is_zero = bits == 0 || bits == 0x8000_0000_0000_0000u64;
    sign && !is_zero && !is_nan
}

} // verus!
