//! Unit tests for the value model, text helpers, errors and the built-in
//! registry.

use loom_vm::effects::EffectRequest;
use loom_vm::error::VmError;
use loom_vm::namemap::NameMap;
use loom_vm::runtime::{NativeOutcome, Runtime, RuntimeConfig};
use loom_vm::text::{i64_to_dec, str_lex_lt, u64_to_dec};
use loom_vm::value::Value;

#[test]
fn truthiness_follows_the_value_model() {
    assert!(!Value::Bool(false).is_truthy());
    assert!(!Value::Null.is_truthy());
    assert!(!Value::Int(0).is_truthy());
    assert!(!Value::Float(0.0f64.to_bits()).is_truthy());
    assert!(!Value::Float((-0.0f64).to_bits()).is_truthy());
    assert!(!Value::Str(String::new()).is_truthy());
    assert!(Value::Int(-3).is_truthy());
    assert!(Value::Float(0.5f64.to_bits()).is_truthy());
    assert!(Value::Str("x".to_string()).is_truthy());
    assert!(Value::Object(1).is_truthy());
    assert!(Value::Function(1).is_truthy());
    assert!(Value::Array(1).is_truthy());
}

#[test]
fn truthiness_is_deterministic() {
    let v = Value::Float(1.25f64.to_bits());
    assert_eq!(v.is_truthy(), v.is_truthy());
}

#[test]
fn type_labels_cover_every_variant() {
    assert_eq!(Value::Int(1).type_label(), "int");
    assert_eq!(Value::Float(0).type_label(), "float");
    assert_eq!(Value::Bool(true).type_label(), "bool");
    assert_eq!(Value::Str(String::new()).type_label(), "string");
    assert_eq!(Value::Null.type_label(), "null");
    assert_eq!(Value::Object(1).type_label(), "object");
    assert_eq!(Value::Function(1).type_label(), "function");
    assert_eq!(Value::Array(1).type_label(), "array");
}

#[test]
fn rendering_matches_the_value_model() {
    assert_eq!(Value::Int(42).to_text().unwrap(), "42");
    assert_eq!(Value::Int(-7).to_text().unwrap(), "-7");
    assert_eq!(Value::Bool(true).to_text().unwrap(), "true");
    assert_eq!(Value::Bool(false).to_text().unwrap(), "false");
    assert_eq!(Value::Null.to_text().unwrap(), "null");
    assert_eq!(Value::Str("hey".to_string()).to_text().unwrap(), "hey");
    assert_eq!(Value::Object(3).to_text().unwrap(), "object#3");
    assert_eq!(Value::Function(4).to_text().unwrap(), "function#4");
    assert_eq!(Value::Array(5).to_text().unwrap(), "array#5");
    assert!(Value::Float(1.5f64.to_bits()).to_text().is_none());
}

#[test]
fn decimal_rendering_handles_the_edges() {
    assert_eq!(u64_to_dec(0), "0");
    assert_eq!(u64_to_dec(10), "10");
    assert_eq!(u64_to_dec(u64::MAX), "18446744073709551615");
    assert_eq!(i64_to_dec(0), "0");
    assert_eq!(i64_to_dec(-1), "-1");
    assert_eq!(i64_to_dec(i64::MIN), "-9223372036854775808");
    assert_eq!(i64_to_dec(i64::MAX), "9223372036854775807");
}

#[test]
fn lexicographic_order_on_strings() {
    assert!(str_lex_lt("a", "b"));
    assert!(str_lex_lt("a", "ab"));
    assert!(!str_lex_lt("ab", "a"));
    assert!(!str_lex_lt("same", "same"));
    assert!(str_lex_lt("", "x"));
    assert!(!str_lex_lt("", ""));
}

#[test]
fn error_messages_carry_the_kind_and_detail() {
    assert_eq!(VmError::StackUnderflow.message(), "Stack underflow");
    assert_eq!(VmError::DivisionByZero.message(), "Division by zero");
    assert_eq!(
        VmError::UndefinedVariable("x".to_string()).message(),
        "Undefined variable: x"
    );
    assert_eq!(
        VmError::InvalidInstruction(3, "bad".to_string()).message(),
        "Invalid instruction at offset 3: bad"
    );
    assert_eq!(VmError::Io("gone".to_string()).message(), "IO error: gone");
}

#[test]
fn name_map_inserts_and_replaces() {
    let mut map: NameMap<i64> = NameMap::new();
    assert!(map.get("a").is_none());
    map.insert("a".to_string(), 1);
    map.insert("b".to_string(), 2);
    assert_eq!(*map.get("a").unwrap(), 1);
    assert_eq!(*map.get("b").unwrap(), 2);
    map.insert("a".to_string(), 9);
    assert_eq!(*map.get("a").unwrap(), 9);
    assert_eq!(map.len(), 2);
    assert!(map.contains_key("b"));
    assert!(!map.contains_key("c"));
}

#[test]
fn native_add_computes_integers_and_strings() {
    let rt = Runtime::new();
    match rt.call_native("add", &[Value::Int(2), Value::Int(3)]) {
        Ok(NativeOutcome::Done(Value::Int(5))) => {},
        other => panic!("unexpected {:?}", other),
    }
    match rt.call_native("add", &[Value::Str("ab".to_string()), Value::Str("cd".to_string())]) {
        Ok(NativeOutcome::Done(Value::Str(s))) => assert_eq!(s, "abcd"),
        other => panic!("unexpected {:?}", other),
    }
}

#[test]
fn native_arithmetic_wraps_and_guards() {
    let rt = Runtime::new();
    match rt.call_native("add", &[Value::Int(i64::MAX), Value::Int(1)]) {
        Ok(NativeOutcome::Done(Value::Int(v))) => assert_eq!(v, i64::MIN),
        other => panic!("unexpected {:?}", other),
    }
    assert!(matches!(
        rt.call_native("divide", &[Value::Int(1), Value::Int(0)]),
        Err(VmError::DivisionByZero)
    ));
    match rt.call_native("divide", &[Value::Int(-7), Value::Int(2)]) {
        Ok(NativeOutcome::Done(Value::Int(v))) => assert_eq!(v, -3),
        other => panic!("unexpected {:?}", other),
    }
    match rt.call_native("modulo", &[Value::Int(-7), Value::Int(2)]) {
        Ok(NativeOutcome::Done(Value::Int(v))) => assert_eq!(v, -1),
        other => panic!("unexpected {:?}", other),
    }
    assert!(matches!(
        rt.call_native("add", &[Value::Int(1)]),
        Err(VmError::Runtime(_))
    ));
    assert!(matches!(
        rt.call_native("add", &[Value::Bool(true), Value::Int(1)]),
        Err(VmError::TypeError(_))
    ));
}

#[test]
fn native_abs_clears_the_float_sign_bit() {
    let rt = Runtime::new();
    match rt.call_native("abs", &[Value::Float((-2.5f64).to_bits())]) {
        Ok(NativeOutcome::Done(Value::Float(bits))) => assert_eq!(f64::from_bits(bits), 2.5),
        other => panic!("unexpected {:?}", other),
    }
    match rt.call_native("abs", &[Value::Int(-5)]) {
        Ok(NativeOutcome::Done(Value::Int(5))) => {},
        other => panic!("unexpected {:?}", other),
    }
}

#[test]
fn native_sqrt_refuses_negative_numbers() {
    let rt = Runtime::new();
    assert!(matches!(
        rt.call_native("sqrt", &[Value::Int(-4)]),
        Err(VmError::Runtime(_))
    ));
    assert!(matches!(
        rt.call_native("sqrt", &[Value::Float((-1.0f64).to_bits())]),
        Err(VmError::Runtime(_))
    ));
    assert!(matches!(
        rt.call_native("sqrt", &[Value::Int(4)]),
        Ok(NativeOutcome::Host(_))
    ));
}

#[test]
fn native_string_operations() {
    let rt = Runtime::new();
    match rt.call_native("length", &[Value::Str("hello".to_string())]) {
        Ok(NativeOutcome::Done(Value::Int(5))) => {},
        other => panic!("unexpected {:?}", other),
    }
    match rt.call_native("isEmpty", &[Value::Str(String::new())]) {
        Ok(NativeOutcome::Done(Value::Bool(true))) => {},
        other => panic!("unexpected {:?}", other),
    }
    match rt.call_native("toLowerCase", &[Value::Str("MiXeD".to_string())]) {
        Ok(NativeOutcome::Done(Value::Str(s))) => assert_eq!(s, "mixed"),
        other => panic!("unexpected {:?}", other),
    }
    match rt.call_native(
        "substring",
        &[Value::Str("abcdef".to_string()), Value::Int(1), Value::Int(4)],
    ) {
        Ok(NativeOutcome::Done(Value::Str(s))) => assert_eq!(s, "bcd"),
        other => panic!("unexpected {:?}", other),
    }
    assert!(matches!(
        rt.call_native(
            "substring",
            &[Value::Str("abc".to_string()), Value::Int(2), Value::Int(1)],
        ),
        Err(VmError::Runtime(_))
    ));
    match rt.call_native(
        "indexOf",
        &[Value::Str("banana".to_string()), Value::Str("na".to_string())],
    ) {
        Ok(NativeOutcome::Done(Value::Int(2))) => {},
        other => panic!("unexpected {:?}", other),
    }
    match rt.call_native(
        "indexOf",
        &[Value::Str("banana".to_string()), Value::Str("zz".to_string())],
    ) {
        Ok(NativeOutcome::Done(Value::Int(-1))) => {},
        other => panic!("unexpected {:?}", other),
    }
    match rt.call_native(
        "replace",
        &[
            Value::Str("one two two".to_string()),
            Value::Str("two".to_string()),
            Value::Str("three".to_string()),
        ],
    ) {
        Ok(NativeOutcome::Done(Value::Str(s))) => assert_eq!(s, "one three three"),
        other => panic!("unexpected {:?}", other),
    }
    match rt.call_native("trim", &[Value::Str("  pad  ".to_string())]) {
        Ok(NativeOutcome::Done(Value::Str(s))) => assert_eq!(s, "pad"),
        other => panic!("unexpected {:?}", other),
    }
}

#[test]
fn native_type_predicates() {
    let rt = Runtime::new();
    match rt.call_native("typeOf", &[Value::Array(9)]) {
        Ok(NativeOutcome::Done(Value::Str(s))) => assert_eq!(s, "array"),
        other => panic!("unexpected {:?}", other),
    }
    match rt.call_native("isNull", &[Value::Null]) {
        Ok(NativeOutcome::Done(Value::Bool(true))) => {},
        other => panic!("unexpected {:?}", other),
    }
    match rt.call_native("isNumber", &[Value::Float(0)]) {
        Ok(NativeOutcome::Done(Value::Bool(true))) => {},
        other => panic!("unexpected {:?}", other),
    }
    match rt.call_native("isString", &[Value::Int(1)]) {
        Ok(NativeOutcome::Done(Value::Bool(false))) => {},
        other => panic!("unexpected {:?}", other),
    }
}

#[test]
fn unknown_native_is_undefined() {
    let rt = Runtime::new();
    match rt.call_native("launchMissiles", &[]) {
        Err(VmError::UndefinedFunction(m)) => assert_eq!(m, "native:launchMissiles"),
        other => panic!("unexpected {:?}", other),
    }
    assert!(Runtime::native_arity("launchMissiles").is_none());
    assert_eq!(Runtime::native_arity("substring"), Some(3));
    assert_eq!(Runtime::native_arity("random"), Some(0));
    assert_eq!(Runtime::native_arity("sleep"), Some(1));
}

#[test]
fn runtime_configuration_is_replaceable() {
    let mut rt = Runtime::new();
    assert!(!rt.config().debug_mode);
    assert_eq!(rt.config().stack_limit, Some(1048576));
    let mut config = RuntimeConfig::default();
    config.debug_mode = true;
    config.stack_limit = None;
    rt.set_config(config);
    assert!(rt.config().debug_mode);
    assert_eq!(rt.config().stack_limit, None);
}

#[test]
fn native_printf_substitutes_renderable_arguments() {
    let rt = Runtime::new();
    match rt.call_native(
        "printf",
        &[
            Value::Str("x={} y={}!".to_string()),
            Value::Int(7),
            Value::Str("ab".to_string()),
        ],
    ) {
        Ok(NativeOutcome::Host(EffectRequest::Print { values, newline })) => {
            assert!(!newline);
            assert_eq!(values.len(), 1);
            match &values[0] {
                Value::Str(s) => assert_eq!(s, "x=7 y=ab!"),
                other => panic!("unexpected {:?}", other),
            }
        },
        other => panic!("unexpected {:?}", other),
    }
}

#[test]
fn native_printf_leaves_unmatched_braces_and_extra_text_alone() {
    let rt = Runtime::new();
    match rt.call_native(
        "printf",
        &[Value::Str("a{}b".to_string()), Value::Null, Value::Bool(true)],
    ) {
        Ok(NativeOutcome::Host(EffectRequest::Print { values, newline })) => {
            assert!(!newline);
            assert_eq!(values.len(), 1);
            match &values[0] {
                Value::Str(s) => assert_eq!(s, "anullb"),
                other => panic!("unexpected {:?}", other),
            }
        },
        other => panic!("unexpected {:?}", other),
    }
}

#[test]
fn native_printf_with_no_arguments_prints_nothing() {
    let rt = Runtime::new();
    match rt.call_native("printf", &[]) {
        Ok(NativeOutcome::Done(Value::Null)) => {},
        other => panic!("unexpected {:?}", other),
    }
}

#[test]
fn native_printf_defers_float_rendering_to_the_host() {
    let rt = Runtime::new();
    let args = vec![
        Value::Str("pi={}".to_string()),
        Value::Float(0x400921fb54442d18),
    ];
    match rt.call_native("printf", &args) {
        Ok(NativeOutcome::Host(EffectRequest::Printf { values })) => {
            assert_eq!(values, args);
        },
        other => panic!("unexpected {:?}", other),
    }
}
