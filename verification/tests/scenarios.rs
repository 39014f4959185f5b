//! End-to-end programs driven through the engine.

use loom_vm::bytecode::{BytecodeProgram, Function, Instruction};
use loom_vm::effects::{EffectRequest, FloatBinaryOp};
use loom_vm::error::VmError;
use loom_vm::namemap::NameMap;
use loom_vm::value::Value;
use loom_vm::vm::{LoomVM, Outcome};

fn program_with_main(constants: Vec<Value>, instructions: Vec<Instruction>) -> BytecodeProgram {
    let mut functions = NameMap::new();
    functions.insert(
        "main".to_string(),
        Function {
            name: "main".to_string(),
            parameters: Vec::new(),
            locals: Vec::new(),
            instructions,
            return_type: None,
            access_level: loom_vm::bytecode::AccessLevel::Public,
        },
    );
    BytecodeProgram {
        name: "test".to_string(),
        version: 1,
        constants,
        functions,
        classes: NameMap::new(),
        main_function: "main".to_string(),
        globals: NameMap::new(),
    }
}

fn run_to_end(program: BytecodeProgram) -> Result<Value, VmError> {
    let mut vm = LoomVM::new();
    match vm.execute_program(program, 1_000_000)? {
        Outcome::Finished(v) => Ok(v),
        other => panic!("expected the program to finish, got {:?}", other),
    }
}

#[test]
fn arithmetic_program_returns_seven() {
    let program = program_with_main(
        vec![Value::Int(3), Value::Int(4)],
        vec![
            Instruction::LOAD_CONST(0),
            Instruction::LOAD_CONST(1),
            Instruction::ADD,
            Instruction::RETURN,
        ],
    );
    assert!(matches!(run_to_end(program), Ok(Value::Int(7))));
}

#[test]
fn control_flow_takes_the_true_branch() {
    let program = program_with_main(
        vec![Value::Bool(true), Value::Int(1), Value::Int(2)],
        vec![
            Instruction::LOAD_CONST(0),
            Instruction::JMP_IF_FALSE(4),
            Instruction::LOAD_CONST(1),
            Instruction::JMP(5),
            Instruction::LOAD_CONST(2),
            Instruction::RETURN,
        ],
    );
    assert!(matches!(run_to_end(program), Ok(Value::Int(1))));
}

#[test]
fn object_field_round_trip() {
    let program = program_with_main(
        vec![],
        vec![
            Instruction::NEW("Point".to_string()),
            Instruction::DUP,
            Instruction::PUSH(Value::Int(5)),
            Instruction::SET_FIELD("x".to_string()),
            Instruction::POP,
            Instruction::GET_FIELD("x".to_string()),
            Instruction::RETURN,
        ],
    );
    assert!(matches!(run_to_end(program), Ok(Value::Int(5))));
}

#[test]
fn array_write_then_read() {
    let program = program_with_main(
        vec![],
        vec![
            Instruction::NEW_ARRAY(3),
            Instruction::DUP,
            Instruction::PUSH(Value::Int(1)),
            Instruction::PUSH(Value::Int(42)),
            Instruction::SET_ELEMENT,
            Instruction::POP,
            Instruction::PUSH(Value::Int(1)),
            Instruction::GET_ELEMENT,
            Instruction::RETURN,
        ],
    );
    assert!(matches!(run_to_end(program), Ok(Value::Int(42))));
}

#[test]
fn division_by_zero_fails() {
    let program = program_with_main(
        vec![],
        vec![
            Instruction::PUSH(Value::Int(10)),
            Instruction::PUSH(Value::Int(0)),
            Instruction::DIV,
        ],
    );
    let mut vm = LoomVM::new();
    let r = vm.execute_program(program, 1_000_000);
    assert!(matches!(r, Err(VmError::DivisionByZero)));
}

#[test]
fn native_call_uppercases() {
    let program = program_with_main(
        vec![],
        vec![
            Instruction::PUSH(Value::Str("hi".to_string())),
            Instruction::CALL_NATIVE("toUpperCase".to_string()),
            Instruction::RETURN,
        ],
    );
    match run_to_end(program) {
        Ok(Value::Str(s)) => assert_eq!(s, "HI"),
        other => panic!("expected a string, got {:?}", other),
    }
}

#[test]
fn modulo_by_zero_fails() {
    let program = program_with_main(
        vec![],
        vec![
            Instruction::PUSH(Value::Int(10)),
            Instruction::PUSH(Value::Int(0)),
            Instruction::MOD,
        ],
    );
    let mut vm = LoomVM::new();
    assert!(matches!(vm.execute_program(program, 1_000_000), Err(VmError::DivisionByZero)));
}

#[test]
fn float_division_by_zero_fails() {
    let program = program_with_main(
        vec![],
        vec![
            Instruction::PUSH(Value::Float(10.0f64.to_bits())),
            Instruction::PUSH(Value::Float(0.0f64.to_bits())),
            Instruction::DIV,
        ],
    );
    let mut vm = LoomVM::new();
    assert!(matches!(vm.execute_program(program, 1_000_000), Err(VmError::DivisionByZero)));
}

#[test]
fn pop_on_empty_stack_underflows() {
    let program = program_with_main(vec![], vec![Instruction::POP]);
    let mut vm = LoomVM::new();
    assert!(matches!(vm.execute_program(program, 1_000_000), Err(VmError::StackUnderflow)));
}

#[test]
fn get_element_negative_index_is_runtime_error() {
    let program = program_with_main(
        vec![],
        vec![
            Instruction::NEW_ARRAY(3),
            Instruction::PUSH(Value::Int(-1)),
            Instruction::GET_ELEMENT,
        ],
    );
    let mut vm = LoomVM::new();
    assert!(matches!(vm.execute_program(program, 1_000_000), Err(VmError::Runtime(_))));
}

#[test]
fn get_element_past_length_is_runtime_error() {
    let program = program_with_main(
        vec![],
        vec![
            Instruction::NEW_ARRAY(3),
            Instruction::PUSH(Value::Int(3)),
            Instruction::GET_ELEMENT,
        ],
    );
    let mut vm = LoomVM::new();
    assert!(matches!(vm.execute_program(program, 1_000_000), Err(VmError::Runtime(_))));
}

#[test]
fn call_of_undeclared_function_fails() {
    let program = program_with_main(vec![], vec![Instruction::CALL("nowhere".to_string())]);
    let mut vm = LoomVM::new();
    match vm.execute_program(program, 1_000_000) {
        Err(VmError::UndefinedFunction(name)) => assert_eq!(name, "nowhere"),
        other => panic!("expected UndefinedFunction, got {:?}", other),
    }
}

#[test]
fn load_of_undeclared_variable_fails() {
    let program = program_with_main(vec![], vec![Instruction::LOAD_VAR("ghost_var".to_string())]);
    let mut vm = LoomVM::new();
    match vm.execute_program(program, 1_000_000) {
        Err(VmError::UndefinedVariable(name)) => assert_eq!(name, "ghost_var"),
        other => panic!("expected UndefinedVariable, got {:?}", other),
    }
}

#[test]
fn load_const_out_of_range_is_runtime_error() {
    let program = program_with_main(vec![Value::Int(1)], vec![Instruction::LOAD_CONST(1)]);
    let mut vm = LoomVM::new();
    assert!(matches!(vm.execute_program(program, 1_000_000), Err(VmError::Runtime(_))));
}

#[test]
fn float_addition_defers_to_the_host() {
    let program = program_with_main(
        vec![],
        vec![
            Instruction::PUSH(Value::Float(2.0f64.to_bits())),
            Instruction::PUSH(Value::Float(3.0f64.to_bits())),
            Instruction::ADD,
            Instruction::RETURN,
        ],
    );
    let mut vm = LoomVM::new();
    let outcome = vm.execute_program(program, 1_000_000).unwrap();
    let (lhs, rhs) = match outcome {
        Outcome::Pending(EffectRequest::FloatBinary { op: FloatBinaryOp::Add, lhs, rhs }) => {
            (lhs, rhs)
        },
        other => panic!("expected a float-add request, got {:?}", other),
    };
    let a = match lhs {
        Value::Float(bits) => f64::from_bits(bits),
        other => panic!("unexpected lhs {:?}", other),
    };
    let b = match rhs {
        Value::Float(bits) => f64::from_bits(bits),
        other => panic!("unexpected rhs {:?}", other),
    };
    let reply = Value::Float((a + b).to_bits());
    match vm.resume(reply, 1_000_000).unwrap() {
        Outcome::Finished(Value::Float(bits)) => assert_eq!(f64::from_bits(bits), 5.0),
        other => panic!("expected a float result, got {:?}", other),
    }
}

#[test]
fn println_raises_a_print_request() {
    let program = program_with_main(
        vec![],
        vec![
            Instruction::PUSH(Value::Str("out".to_string())),
            Instruction::CALL_NATIVE("println".to_string()),
            Instruction::RETURN,
        ],
    );
    let mut vm = LoomVM::new();
    match vm.execute_program(program, 1_000_000).unwrap() {
        Outcome::Pending(EffectRequest::Print { values, newline }) => {
            assert!(newline);
            assert_eq!(values.len(), 1);
            assert_eq!(values[0].to_text().unwrap(), "out");
        },
        other => panic!("expected a print request, got {:?}", other),
    }
    // print's own result (Null) was pushed already; the reply is discarded.
    match vm.resume(Value::Null, 1_000_000).unwrap() {
        Outcome::Finished(Value::Null) => {},
        other => panic!("expected to finish with Null, got {:?}", other),
    }
}

#[test]
fn function_call_binds_parameters() {
    let mut functions = NameMap::new();
    functions.insert(
        "main".to_string(),
        Function {
            name: "main".to_string(),
            parameters: Vec::new(),
            locals: Vec::new(),
            instructions: vec![
                Instruction::PUSH(Value::Int(20)),
                Instruction::PUSH(Value::Int(22)),
                Instruction::CALL("add_two".to_string()),
                Instruction::RETURN,
            ],
            return_type: None,
            access_level: loom_vm::bytecode::AccessLevel::Public,
        },
    );
    functions.insert(
        "add_two".to_string(),
        Function {
            name: "add_two".to_string(),
            parameters: vec!["a".to_string(), "b".to_string()],
            locals: Vec::new(),
            instructions: vec![
                Instruction::LOAD_VAR("a".to_string()),
                Instruction::LOAD_VAR("b".to_string()),
                Instruction::ADD,
                Instruction::RETURN,
            ],
            return_type: None,
            access_level: loom_vm::bytecode::AccessLevel::Public,
        },
    );
    let program = BytecodeProgram {
        name: "calls".to_string(),
        version: 1,
        constants: vec![],
        functions,
        classes: NameMap::new(),
        main_function: "main".to_string(),
        globals: NameMap::new(),
    };
    assert!(matches!(run_to_end(program), Ok(Value::Int(42))));
}

#[test]
fn globals_are_seeded_and_stores_stay_local() {
    let mut globals = NameMap::new();
    globals.insert("g".to_string(), Value::Int(7));
    let mut functions = NameMap::new();
    functions.insert(
        "main".to_string(),
        Function {
            name: "main".to_string(),
            parameters: Vec::new(),
            locals: Vec::new(),
            instructions: vec![
                Instruction::PUSH(Value::Int(1)),
                Instruction::STORE_VAR("g".to_string()),
                Instruction::LOAD_VAR("g".to_string()),
                Instruction::RETURN,
            ],
            return_type: None,
            access_level: loom_vm::bytecode::AccessLevel::Public,
        },
    );
    let program = BytecodeProgram {
        name: "globals".to_string(),
        version: 1,
        constants: vec![],
        functions,
        classes: NameMap::new(),
        main_function: "main".to_string(),
        globals,
    };
    let mut vm = LoomVM::new();
    match vm.execute_program(program, 1_000_000).unwrap() {
        Outcome::Finished(Value::Int(1)) => {},
        other => panic!("expected the local shadow, got {:?}", other),
    }
    // STORE_VAR writes locals, never globals.
    match vm.globals.get("g") {
        Some(Value::Int(7)) => {},
        other => panic!("the global changed: {:?}", other),
    }
}

#[test]
fn deep_recursion_overflows_the_call_stack() {
    let mut functions = NameMap::new();
    functions.insert(
        "main".to_string(),
        Function {
            name: "main".to_string(),
            parameters: Vec::new(),
            locals: Vec::new(),
            instructions: vec![Instruction::CALL("main".to_string()), Instruction::RETURN],
            return_type: None,
            access_level: loom_vm::bytecode::AccessLevel::Public,
        },
    );
    let program = BytecodeProgram {
        name: "recursion".to_string(),
        version: 1,
        constants: vec![],
        functions,
        classes: NameMap::new(),
        main_function: "main".to_string(),
        globals: NameMap::new(),
    };
    let mut vm = LoomVM::new();
    let mut config = vm.runtime.config().clone();
    config.stack_limit = Some(16);
    vm.runtime.set_config(config);
    assert!(matches!(vm.execute_program(program, 1_000_000), Err(VmError::StackOverflow)));
}

#[test]
fn halt_ends_the_outermost_execution() {
    let program = program_with_main(
        vec![],
        vec![Instruction::PUSH(Value::Int(9)), Instruction::HALT, Instruction::RETURN],
    );
    assert!(matches!(run_to_end(program), Ok(Value::Null)));
}

#[test]
fn reserved_instruction_is_invalid() {
    let program = program_with_main(vec![], vec![Instruction::CAST("int".to_string())]);
    let mut vm = LoomVM::new();
    assert!(matches!(
        vm.execute_program(program, 1_000_000),
        Err(VmError::InvalidInstruction(0, _))
    ));
}

#[test]
fn jump_out_of_range_is_invalid() {
    let program = program_with_main(vec![], vec![Instruction::JMP(9)]);
    let mut vm = LoomVM::new();
    assert!(matches!(
        vm.execute_program(program, 1_000_000),
        Err(VmError::InvalidInstruction(0, _))
    ));
}

#[test]
fn missing_entry_function_fails() {
    let program = BytecodeProgram {
        name: "empty".to_string(),
        version: 1,
        constants: vec![],
        functions: NameMap::new(),
        classes: NameMap::new(),
        main_function: "main".to_string(),
        globals: NameMap::new(),
    };
    let mut vm = LoomVM::new();
    assert!(matches!(vm.execute_program(program, 1_000_000), Err(VmError::UndefinedFunction(_))));
}

#[test]
fn swap_and_logic_instructions_work() {
    let program = program_with_main(
        vec![],
        vec![
            Instruction::PUSH(Value::Bool(false)),
            Instruction::PUSH(Value::Bool(true)),
            Instruction::SWAP,
            Instruction::NOT,
            Instruction::AND,
            Instruction::RETURN,
        ],
    );
    // stack: false, true -> swap -> true, false -> NOT -> true, true -> AND -> true
    assert!(matches!(run_to_end(program), Ok(Value::Bool(true))));
}

#[test]
fn string_comparison_is_lexicographic() {
    let program = program_with_main(
        vec![],
        vec![
            Instruction::PUSH(Value::Str("apple".to_string())),
            Instruction::PUSH(Value::Str("banana".to_string())),
            Instruction::LT,
            Instruction::RETURN,
        ],
    );
    assert!(matches!(run_to_end(program), Ok(Value::Bool(true))));
}

#[test]
fn equality_is_false_across_variants() {
    let program = program_with_main(
        vec![],
        vec![
            Instruction::PUSH(Value::Int(1)),
            Instruction::PUSH(Value::Str("1".to_string())),
            Instruction::EQ,
            Instruction::RETURN,
        ],
    );
    assert!(matches!(run_to_end(program), Ok(Value::Bool(false))));
}

#[test]
fn trace_reports_the_top_of_stack_without_consuming_it() {
    let program = program_with_main(
        vec![],
        vec![Instruction::PUSH(Value::Int(5)), Instruction::TRACE, Instruction::RETURN],
    );
    let mut vm = LoomVM::new();
    match vm.execute_program(program, 1_000_000).unwrap() {
        Outcome::Pending(EffectRequest::Trace { value: Value::Int(5) }) => {},
        other => panic!("expected a trace record, got {:?}", other),
    }
    match vm.resume(Value::Null, 1_000_000).unwrap() {
        Outcome::Finished(Value::Int(5)) => {},
        other => panic!("the traced value should still be on the stack: {:?}", other),
    }
}

#[test]
fn get_length_reads_an_array() {
    let program = program_with_main(
        vec![],
        vec![Instruction::NEW_ARRAY(4), Instruction::GET_LENGTH, Instruction::RETURN],
    );
    assert!(matches!(run_to_end(program), Ok(Value::Int(4))));
}

#[test]
fn is_null_tests_the_top_value() {
    let program = program_with_main(
        vec![],
        vec![Instruction::PUSH(Value::Null), Instruction::IS_NULL, Instruction::RETURN],
    );
    assert!(matches!(run_to_end(program), Ok(Value::Bool(true))));
}

#[test]
fn add_of_two_strings_is_a_type_error_at_instruction_level() {
    let program = program_with_main(
        vec![],
        vec![
            Instruction::PUSH(Value::Str("a".to_string())),
            Instruction::PUSH(Value::Str("b".to_string())),
            Instruction::ADD,
        ],
    );
    let mut vm = LoomVM::new();
    assert!(matches!(vm.execute_program(program, 1_000_000), Err(VmError::TypeError(_))));
}

#[test]
fn run_budget_pauses_and_resumes() {
    let program = program_with_main(
        vec![],
        vec![
            Instruction::NOOP,
            Instruction::NOOP,
            Instruction::PUSH(Value::Int(1)),
            Instruction::RETURN,
        ],
    );
    let mut vm = LoomVM::new();
    match vm.execute_program(program, 1).unwrap() {
        Outcome::Running => {},
        other => panic!("expected the budget to run out, got {:?}", other),
    }
    match vm.run(1_000_000).unwrap() {
        Outcome::Finished(Value::Int(1)) => {},
        other => panic!("expected to finish after more budget, got {:?}", other),
    }
}
