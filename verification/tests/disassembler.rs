use aster::bytecode::{Chunk, Constant, OpCode};
use aster::disassembler::{constant_name, disassemble, format_instruction, name_name, plain_constant_label};
use aster::{compile_source, CompileError};

/// How a constant is shown in a listing: as the runtime constant it stands
/// for, numbers read as `f64`.
fn label(constant: &Constant) -> String {
    match (constant, plain_constant_label(constant)) {
        (_, Some(text)) => text,
        (Constant::Number(digits), None) => {
            format!("Number({:?})", digits.parse::<f64>().expect("number literals are decimal digits"))
        }
        (_, None) => unreachable!("only numbers have no plain label"),
    }
}

fn listing(chunk: &Chunk) -> String {
    let main: Vec<String> = chunk.constants.iter().map(label).collect();
    let functions: Vec<Vec<String>> =
        chunk.functions.iter().map(|f| f.constants.iter().map(label).collect()).collect();
    disassemble(chunk, &main, &functions)
}

fn disassemble_source(source: &str) -> Result<String, CompileError> {
    compile_source(source).map(|chunk| listing(&chunk))
}

#[test]
fn disassembles_main_program() {
    let output = disassemble_source(
        r#"
            let answer = 40 + 2;
            print(answer);
        "#,
    )
    .expect("source should compile");

    assert!(output.contains("== ASTER main =="));
    assert!(output.contains("CONSTANT"));
    assert!(output.contains("ADD"));
    assert!(output.contains("STORE_GLOBAL"));
    assert!(output.contains("PRINT"));
    assert!(output.contains("HALT"));
}

#[test]
fn disassembles_functions() {
    let output = disassemble_source(
        r#"
            fn add(a, b) {
                return a + b;
            }
            print(add(20, 22));
        "#,
    )
    .expect("function source should compile");

    assert!(output.contains("== ASTER function add(2) =="));
    assert!(output.contains("LOAD_LOCAL 0"));
    assert!(output.contains("LOAD_LOCAL 1"));
    assert!(output.contains("RETURN"));
    assert!(output.contains("CALL function#0"));
}

#[test]
fn lists_main_program_exactly() {
    let output = disassemble_source("let answer = 40 + 2; print(answer);").expect("source should compile");
    assert_eq!(
        output,
        "== ASTER main ==\n\
         0000  CONSTANT 0 (Number(40.0))\n\
         0001  CONSTANT 1 (Number(2.0))\n\
         0002  ADD\n\
         0003  STORE_GLOBAL 0 (answer)\n\
         0004  LOAD_GLOBAL 0 (answer)\n\
         0005  PRINT\n\
         0006  HALT\n"
    );
}

#[test]
fn lists_functions_after_main() {
    let output =
        disassemble_source("fn add(a, b) { return a + b; } fn none() { } print(add(20, 22));").expect("compiles");
    assert_eq!(
        output,
        "== ASTER main ==\n\
         0000  CONSTANT 0 (Number(20.0))\n\
         0001  CONSTANT 1 (Number(22.0))\n\
         0002  CALL function#0\n\
         0003  PRINT\n\
         0004  HALT\n\
         \n== ASTER function add(2) ==\n\
         locals: a, b\n\
         0000  LOAD_LOCAL 0\n\
         0001  LOAD_LOCAL 1\n\
         0002  ADD\n\
         0003  RETURN\n\
         0004  CONSTANT 0 (Void)\n\
         0005  RETURN\n\
         \n== ASTER function none(0) ==\n\
         0000  CONSTANT 0 (Void)\n\
         0001  RETURN\n"
    );
}

#[test]
fn formats_each_instruction() {
    let labels = vec!["Boolean(true)".to_string()];
    let names = vec!["x".to_string()];
    let cases = [
        (OpCode::Constant(0), "CONSTANT 0 (Boolean(true))"),
        (OpCode::Constant(7), "CONSTANT 7 (<invalid constant>)"),
        (OpCode::LoadGlobal(0), "LOAD_GLOBAL 0 (x)"),
        (OpCode::StoreGlobal(3), "STORE_GLOBAL 3 (<invalid name>)"),
        (OpCode::LoadLocal(12), "LOAD_LOCAL 12"),
        (OpCode::StoreLocal(0), "STORE_LOCAL 0"),
        (OpCode::Pop, "POP"),
        (OpCode::Negate, "NEGATE"),
        (OpCode::Not, "NOT"),
        (OpCode::Add, "ADD"),
        (OpCode::Subtract, "SUBTRACT"),
        (OpCode::Multiply, "MULTIPLY"),
        (OpCode::Divide, "DIVIDE"),
        (OpCode::Modulo, "MODULO"),
        (OpCode::Equal, "EQUAL"),
        (OpCode::NotEqual, "NOT_EQUAL"),
        (OpCode::Less, "LESS"),
        (OpCode::LessEqual, "LESS_EQUAL"),
        (OpCode::Greater, "GREATER"),
        (OpCode::GreaterEqual, "GREATER_EQUAL"),
        (OpCode::And, "AND"),
        (OpCode::Or, "OR"),
        (OpCode::JumpIfFalse(10), "JUMP_IF_FALSE 10"),
        (OpCode::Jump(0), "JUMP 0"),
        (OpCode::Print, "PRINT"),
        (OpCode::Call(2), "CALL function#2"),
        (OpCode::Return, "RETURN"),
        (OpCode::Halt, "HALT"),
    ];
    for (op, text) in cases {
        assert_eq!(format_instruction(&op, &labels, &names), text);
    }
}

#[test]
fn looks_up_labels_and_names() {
    let labels = vec!["Void".to_string()];
    assert_eq!(constant_name(&labels, 0), "Void");
    assert_eq!(constant_name(&labels, 1), "<invalid constant>");
    let names = vec!["a".to_string(), "b".to_string()];
    assert_eq!(name_name(&names, 1), "b");
    assert_eq!(name_name(&names, 2), "<invalid name>");
}

#[test]
fn offsets_are_zero_padded() {
    let mut chunk = Chunk::new();
    for _ in 0..11 {
        chunk.code.push(OpCode::Pop);
    }
    let output = disassemble(&chunk, &Vec::new(), &Vec::new());
    assert!(output.ends_with("0009  POP\n0010  POP\n"));
}

#[test]
fn plain_constants_have_their_own_labels() {
    assert_eq!(plain_constant_label(&Constant::String("say \"hi\"\n".to_string())), Some("String(\"say \\\"hi\\\"\\n\")".to_string()));
    assert_eq!(plain_constant_label(&Constant::Boolean(false)), Some("Boolean(false)".to_string()));
    assert_eq!(plain_constant_label(&Constant::Void), Some("Void".to_string()));
    assert_eq!(plain_constant_label(&Constant::Number("4".to_string())), None);
}
