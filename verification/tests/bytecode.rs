use aster::bytecode::{compile, Chunk, Compiler, Constant, OpCode};
use aster::{compile_source, parse_source, CompileError};

fn chunk_of(source: &str) -> Chunk {
    compile_source(source).expect("source should compile")
}

fn bytecode_error(source: &str) -> String {
    match compile_source(source) {
        Err(CompileError::Bytecode(error)) => error.message,
        other => panic!("expected a bytecode error, got {other:?}"),
    }
}

#[test]
fn compiles_globals_and_arithmetic() {
    let chunk = chunk_of("let answer = 40 + 2; print(answer);");
    assert_eq!(chunk.constants, vec![Constant::Number("40".to_string()), Constant::Number("2".to_string())]);
    assert_eq!(chunk.names, vec!["answer".to_string()]);
    assert_eq!(
        chunk.code,
        vec![
            OpCode::Constant(0),
            OpCode::Constant(1),
            OpCode::Add,
            OpCode::StoreGlobal(0),
            OpCode::LoadGlobal(0),
            OpCode::Print,
            OpCode::Halt,
        ]
    );
    assert!(chunk.functions.is_empty());
}

#[test]
fn assignment_stores_then_reloads() {
    let chunk = chunk_of("let x = 1; x = x - 2;");
    assert_eq!(
        chunk.code,
        vec![
            OpCode::Constant(0),
            OpCode::StoreGlobal(0),
            OpCode::LoadGlobal(0),
            OpCode::Constant(1),
            OpCode::Subtract,
            OpCode::StoreGlobal(0),
            OpCode::LoadGlobal(0),
            OpCode::Pop,
            OpCode::Halt,
        ]
    );
}

#[test]
fn compiles_functions_into_their_own_code() {
    let chunk = chunk_of("fn add(a, b) { return a + b; } print(add(20, 22));");
    assert_eq!(chunk.functions.len(), 1);
    let function = &chunk.functions[0];
    assert_eq!(function.name, "add");
    assert_eq!(function.arity, 2);
    assert_eq!(function.local_names, vec!["a".to_string(), "b".to_string()]);
    assert_eq!(function.constants, vec![Constant::Void]);
    assert_eq!(
        function.code,
        vec![
            OpCode::LoadLocal(0),
            OpCode::LoadLocal(1),
            OpCode::Add,
            OpCode::Return,
            OpCode::Constant(0),
            OpCode::Return,
        ]
    );
    assert_eq!(
        chunk.code,
        vec![OpCode::Constant(0), OpCode::Constant(1), OpCode::Call(0), OpCode::Print, OpCode::Halt]
    );
}

#[test]
fn function_locals_follow_parameters() {
    let chunk = chunk_of("fn f(p) { let q = !true; q = q; return; }");
    let function = &chunk.functions[0];
    assert_eq!(function.local_names, vec!["p".to_string(), "q".to_string()]);
    assert_eq!(function.constants, vec![Constant::Boolean(true), Constant::Void, Constant::Void]);
    assert_eq!(
        function.code,
        vec![
            OpCode::Constant(0),
            OpCode::Not,
            OpCode::StoreLocal(1),
            OpCode::LoadLocal(1),
            OpCode::StoreLocal(1),
            OpCode::LoadLocal(1),
            OpCode::Pop,
            OpCode::Constant(1),
            OpCode::Return,
            OpCode::Constant(2),
            OpCode::Return,
        ]
    );
}

#[test]
fn if_else_jumps_to_the_end_of_each_branch() {
    let chunk = chunk_of("if true { print(1); } else { print(\"two\"); }");
    assert_eq!(
        chunk.code,
        vec![
            OpCode::Constant(0),
            OpCode::JumpIfFalse(5),
            OpCode::Constant(1),
            OpCode::Print,
            OpCode::Jump(7),
            OpCode::Constant(2),
            OpCode::Print,
            OpCode::Halt,
        ]
    );
    assert_eq!(chunk.constants[2], Constant::String("two".to_string()));
}

#[test]
fn if_without_else_jumps_past_the_branch() {
    let chunk = chunk_of("if false { print(1); }");
    assert_eq!(
        chunk.code,
        vec![OpCode::Constant(0), OpCode::JumpIfFalse(4), OpCode::Constant(1), OpCode::Print, OpCode::Halt]
    );
}

#[test]
fn reports_what_it_cannot_compile() {
    assert_eq!(bytecode_error("return 1;"), "return/function declaration is only valid inside function compilation");
    assert_eq!(bytecode_error("fn outer() { fn inner() { } }"), "nested function declarations are not yet supported");
    assert_eq!(bytecode_error("let g = 1; fn f() { return g; }"), "undefined local variable 'g'");
}

#[test]
fn compiler_object_and_free_function_agree() {
    let program = parse_source("let x = -3 * 2; print(x % 2 == 0 || x != 1);").expect("source should parse");
    let by_object = Compiler::new().compile(&program).expect("program should compile");
    let by_function = compile(&program).expect("program should compile");
    assert_eq!(by_object, by_function);
    assert_eq!(by_function.code.last(), Some(&OpCode::Halt));
}

#[test]
fn every_jump_stays_inside_its_code() {
    let chunk = chunk_of(
        "fn f(n) { if n > 1 { if n < 5 { return 1; } else { print(n); } } return n; } if f(3) >= 2 { print(1); }",
    );
    let check = |code: &Vec<OpCode>| {
        for op in code {
            if let OpCode::Jump(t) | OpCode::JumpIfFalse(t) = op {
                assert!(*t <= code.len());
            }
        }
    };
    check(&chunk.code);
    for function in &chunk.functions {
        check(&function.code);
        assert_eq!(function.code.last(), Some(&OpCode::Return));
    }
    assert_eq!(chunk.code.last(), Some(&OpCode::Halt));
}

#[test]
fn new_chunk_is_empty() {
    let chunk = Chunk::new();
    assert!(chunk.constants.is_empty() && chunk.names.is_empty());
    assert!(chunk.code.is_empty() && chunk.functions.is_empty());
}

#[test]
fn defaults_are_empty() {
    assert_eq!(Chunk::default(), Chunk::new());
    let program = parse_source("print(1);").expect("source should parse");
    assert_eq!(Compiler::default().compile(&program), compile(&program));
}
