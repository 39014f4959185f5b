//! The artifact codec: loading, saving and round trips.

use loom_vm::bytecode::{AccessLevel, BytecodeProgram, Function, Instruction};
use loom_vm::codec::{
    load_program_from_bytes, parse_value_text, render_value_text, save_program, ArtifactCodec,
};
use loom_vm::namemap::NameMap;
use loom_vm::value::Value;
use loom_vm::vm::{LoomVM, Outcome};

fn sample_program() -> BytecodeProgram {
    let mut functions = NameMap::new();
    functions.insert(
        "main".to_string(),
        Function {
            name: "main".to_string(),
            parameters: Vec::new(),
            locals: vec!["tmp".to_string()],
            instructions: vec![
                Instruction::LOAD_CONST(0),
                Instruction::LOAD_CONST(1),
                Instruction::ADD,
                Instruction::RETURN,
            ],
            return_type: Some("int".to_string()),
            access_level: AccessLevel::Public,
        },
    );
    let mut globals = NameMap::new();
    globals.insert("greeting".to_string(), Value::Str("hello".to_string()));
    globals.insert("ratio".to_string(), Value::Float(0.75f64.to_bits()));
    BytecodeProgram {
        name: "sample".to_string(),
        version: 1,
        constants: vec![
            Value::Int(3),
            Value::Int(4),
            Value::Int(-17),
            Value::Bool(false),
            Value::Null,
            Value::Str("päron".to_string()),
            Value::Float(2.5f64.to_bits()),
            Value::Object(7),
            Value::Array(8),
            Value::Function(9),
        ],
        functions,
        classes: NameMap::new(),
        main_function: "main".to_string(),
        globals,
    }
}

#[test]
fn binary_save_load_resave_is_byte_identical() {
    let program = sample_program();
    let saved = save_program(&program, ArtifactCodec::Binary);
    let (loaded, codec) = load_program_from_bytes(&saved).unwrap();
    assert_eq!(codec, ArtifactCodec::Binary);
    let resaved = save_program(&loaded, codec);
    assert_eq!(saved, resaved);
}

#[test]
fn textual_save_load_resave_is_byte_identical() {
    let program = sample_program();
    let saved = save_program(&program, ArtifactCodec::Text);
    let (loaded, codec) = load_program_from_bytes(&saved).unwrap();
    assert_eq!(codec, ArtifactCodec::Text);
    let resaved = save_program(&loaded, codec);
    assert_eq!(saved, resaved);
}

#[test]
fn textual_artifact_is_printable_lines() {
    let program = sample_program();
    let saved = save_program(&program, ArtifactCodec::Text);
    let text = String::from_utf8(saved).unwrap();
    for line in text.lines() {
        assert!(!line.is_empty());
        assert!(line.chars().all(|c| c.is_ascii_digit()));
    }
}

#[test]
fn loaded_program_still_runs() {
    let program = sample_program();
    let saved = save_program(&program, ArtifactCodec::Binary);
    let (loaded, _) = load_program_from_bytes(&saved).unwrap();
    let mut vm = LoomVM::new();
    match vm.execute_program(loaded, 1_000_000).unwrap() {
        Outcome::Finished(Value::Int(7)) => {},
        other => panic!("expected the sum, got {:?}", other),
    }
}

#[test]
fn garbage_bytes_are_invalid_bytecode() {
    let garbage = vec![1u8, 2, 3];
    assert!(load_program_from_bytes(&garbage).is_err());
    let empty: Vec<u8> = Vec::new();
    assert!(load_program_from_bytes(&empty).is_err());
}

#[test]
fn value_text_round_trip_is_idempotent_for_every_variant() {
    let values = vec![
        Value::Int(0),
        Value::Int(-12345),
        Value::Int(i64::MIN),
        Value::Int(i64::MAX),
        Value::Float(3.25f64.to_bits()),
        Value::Float((-0.0f64).to_bits()),
        Value::Bool(true),
        Value::Bool(false),
        Value::Str(String::new()),
        Value::Str("smörgås".to_string()),
        Value::Null,
        Value::Object(41),
        Value::Function(42),
        Value::Array(43),
    ];
    for v in values {
        let text = render_value_text(&v);
        let once = parse_value_text(&text).unwrap();
        // Parsing returns exactly the rendered value...
        assert_eq!(render_value_text(&once), text);
        // ...so a second round trip changes nothing.
        let twice = parse_value_text(&render_value_text(&once)).unwrap();
        assert_eq!(render_value_text(&twice), text);
    }
}
