use aster::bytecode::{Chunk, Constant, Function, OpCode};
use aster::vm::{is_runnable, Action, Number, Value, Vm, VmError};
use aster::{compile_source, CompileError};

fn number(value: f64) -> Number {
    Number { bits: value.to_bits(), text: value.to_string() }
}

/// Drives the machine to the end, doing its number work with `f64`.
fn run(chunk: &Chunk) -> Result<Vec<String>, VmError> {
    let mut machine = Vm::new();
    loop {
        assert!(machine.next_call_fits(chunk));
        match machine.step(chunk) {
            Action::Continue | Action::Printed(_) => {}
            Action::Finished => return Ok(machine.into_output()),
            Action::Failed(error) => return Err(error),
            Action::ReadNumber(digits) => machine.push(Value::Number(number(digits.parse().unwrap()))),
            Action::Negate(n) => machine.push(Value::Number(number(-f64::from_bits(n.bits)))),
            Action::Numeric(op, a, b) => {
                let (a, b) = (f64::from_bits(a.bits), f64::from_bits(b.bits));
                machine.push(match op {
                    OpCode::Add => Value::Number(number(a + b)),
                    OpCode::Subtract => Value::Number(number(a - b)),
                    OpCode::Multiply => Value::Number(number(a * b)),
                    OpCode::Divide => Value::Number(number(a / b)),
                    OpCode::Modulo => Value::Number(number(a % b)),
                    OpCode::Equal => Value::Boolean(a == b),
                    OpCode::NotEqual => Value::Boolean(a != b),
                    OpCode::Less => Value::Boolean(a < b),
                    OpCode::LessEqual => Value::Boolean(a <= b),
                    OpCode::Greater => Value::Boolean(a > b),
                    OpCode::GreaterEqual => Value::Boolean(a >= b),
                    other => panic!("no number work for {other:?}"),
                })
            }
        }
    }
}

fn execute_source(source: &str) -> Result<Vec<String>, CompileError> {
    let chunk = compile_source(source)?;
    run(&chunk).map_err(CompileError::Runtime)
}

fn runtime_error(chunk: &Chunk) -> String {
    run(chunk).expect_err("the chunk should fail").message
}

fn main_chunk(constants: Vec<Constant>, names: Vec<&str>, code: Vec<OpCode>) -> Chunk {
    Chunk { constants, names: names.into_iter().map(String::from).collect(), code, functions: Vec::new() }
}

#[test]
fn executes_basic_addition() {
    let output = execute_source(
        r#"
            print(5 + 2);
        "#,
    )
    .expect("basic addition should execute");

    assert_eq!(output, vec!["7".to_string()]);
}

#[test]
fn executes_arithmetic_and_variables() {
    let output = execute_source(
        r#"
            let answer = 40 + 2;
            print(answer);
        "#,
    )
    .expect("program should execute");

    assert_eq!(output, vec!["42".to_string()]);
}

#[test]
fn executes_conditionals() {
    let output = execute_source(
        r#"
            let answer = 42;
            if answer > 0 {
                print(answer);
            } else {
                print(0);
            }
        "#,
    )
    .expect("program should execute");

    assert_eq!(output, vec!["42".to_string()]);
}

#[test]
fn executes_assignment() {
    let output = execute_source(
        r#"
            let answer = 40;
            answer = answer + 2;
            print(answer);
        "#,
    )
    .expect("program should execute");

    assert_eq!(output, vec!["42".to_string()]);
}

#[test]
fn executes_function_calls() {
    let output = execute_source(
        r#"
            fn add(a, b) {
                return a + b;
            }

            print(add(20, 22));
        "#,
    )
    .expect("function call should execute");

    assert_eq!(output, vec!["42".to_string()]);
}

#[test]
fn executes_recursive_functions() {
    let output = execute_source(
        r#"
            fn factorial(n) {
                if n <= 1 {
                    return 1;
                }
                return n * factorial(n - 1);
            }

            print(factorial(5));
        "#,
    )
    .expect("recursive function should execute");

    assert_eq!(output, vec!["120".to_string()]);
}

#[test]
fn prints_every_kind_of_value() {
    let output = execute_source(
        r#"
            fn nothing() { }
            print("text");
            print(true);
            print(!true);
            print(nothing());
            print(7 / 2);
            print(-(1 - 3));
            print(1 == 1 && "a" != "b");
            print(true || false);
            print(1 / 0);
        "#,
    )
    .expect("program should execute");
    assert_eq!(output, vec!["text", "true", "false", "void", "3.5", "2", "true", "true", "inf"]);
}

#[test]
fn locals_and_else_branches() {
    let output = execute_source(
        r#"
            fn pick(n) {
                let result = "small";
                if n > 10 { result = "big"; } else if n > 5 { result = "medium"; }
                return result;
            }
            print(pick(1));
            print(pick(7));
            print(pick(12));
        "#,
    )
    .expect("program should execute");
    assert_eq!(output, vec!["small", "medium", "big"]);
}

#[test]
fn reports_runtime_type_errors() {
    let negate = main_chunk(vec![Constant::String("s".into())], vec![], vec![OpCode::Constant(0), OpCode::Negate, OpCode::Halt]);
    assert_eq!(runtime_error(&negate), "cannot negate s");
    let not = main_chunk(vec![Constant::Void], vec![], vec![OpCode::Constant(0), OpCode::Not, OpCode::Halt]);
    assert_eq!(runtime_error(&not), "cannot apply '!' to void");
    let add = main_chunk(
        vec![Constant::Number("1".into()), Constant::Boolean(true)],
        vec![],
        vec![OpCode::Constant(0), OpCode::Constant(1), OpCode::Add, OpCode::Halt],
    );
    assert_eq!(runtime_error(&add), "arithmetic requires numbers, got 1 and true");
    let less = main_chunk(
        vec![Constant::String("a".into()), Constant::Number("2.5".into())],
        vec![],
        vec![OpCode::Constant(0), OpCode::Constant(1), OpCode::Less, OpCode::Halt],
    );
    assert_eq!(runtime_error(&less), "comparison requires numbers, got a and 2.5");
    let and = main_chunk(
        vec![Constant::Number("0".into()), Constant::Boolean(false)],
        vec![],
        vec![OpCode::Constant(0), OpCode::Constant(1), OpCode::And, OpCode::Halt],
    );
    assert_eq!(runtime_error(&and), "logical operators require bools, got 0 and false");
    let branch = main_chunk(vec![Constant::Number("3".into())], vec![], vec![OpCode::Constant(0), OpCode::JumpIfFalse(0), OpCode::Halt]);
    assert_eq!(runtime_error(&branch), "expected bool in conditional, got 3");
}

#[test]
fn reports_structural_runtime_errors() {
    assert_eq!(runtime_error(&main_chunk(vec![], vec![], vec![OpCode::Pop, OpCode::Halt])), "stack underflow");
    assert_eq!(runtime_error(&main_chunk(vec![], vec![], vec![OpCode::Constant(3)])), "invalid constant index");
    assert_eq!(runtime_error(&main_chunk(vec![], vec!["x"], vec![OpCode::LoadGlobal(0)])), "undefined runtime variable 'x'");
    assert_eq!(runtime_error(&main_chunk(vec![], vec![], vec![OpCode::LoadGlobal(0)])), "invalid global name index");
    assert_eq!(runtime_error(&main_chunk(vec![], vec![], vec![OpCode::LoadLocal(0)])), "invalid local variable index");
    assert_eq!(
        runtime_error(&main_chunk(vec![Constant::Void], vec![], vec![OpCode::Constant(0), OpCode::StoreLocal(0)])),
        "local variable outside function"
    );
    assert_eq!(runtime_error(&main_chunk(vec![], vec![], vec![OpCode::Jump(1)])), "jump target is outside bytecode");
    assert_eq!(runtime_error(&main_chunk(vec![], vec![], vec![OpCode::Call(0)])), "invalid function index");
    assert_eq!(
        runtime_error(&main_chunk(vec![Constant::Void], vec![], vec![OpCode::Constant(0), OpCode::Return])),
        "return executed outside function"
    );
}

#[test]
fn calls_need_their_arguments() {
    let mut chunk = main_chunk(vec![], vec![], vec![OpCode::Call(0), OpCode::Halt]);
    chunk.functions.push(Function {
        name: "f".into(),
        arity: 1,
        local_names: vec!["x".into()],
        constants: vec![],
        code: vec![OpCode::LoadLocal(0), OpCode::Return],
    });
    assert_eq!(runtime_error(&chunk), "not enough arguments for function call");
}

#[test]
fn running_off_the_end_finishes() {
    let chunk = main_chunk(vec![Constant::Boolean(true)], vec![], vec![OpCode::Constant(0), OpCode::Print]);
    assert_eq!(run(&chunk), Ok(vec!["true".to_string()]));
}

#[test]
fn machine_asks_for_number_work() {
    let chunk = main_chunk(
        vec![Constant::Number("40".into()), Constant::Number("2".into())],
        vec!["answer"],
        vec![OpCode::Constant(0), OpCode::Constant(1), OpCode::Add, OpCode::StoreGlobal(0), OpCode::LoadGlobal(0), OpCode::Print, OpCode::Halt],
    );
    let mut machine = Vm::new();
    match machine.step(&chunk) {
        Action::ReadNumber(digits) => assert_eq!(digits, "40"),
        other => panic!("expected a number to read, got {other:?}"),
    }
    machine.push(Value::Number(number(40.0)));
    assert!(matches!(machine.step(&chunk), Action::ReadNumber(_)));
    machine.push(Value::Number(number(2.0)));
    match machine.step(&chunk) {
        Action::Numeric(OpCode::Add, a, b) => {
            assert_eq!((a.text.as_str(), b.text.as_str()), ("40", "2"));
        }
        other => panic!("expected an addition, got {other:?}"),
    }
    machine.push(Value::Number(number(42.0)));
    assert!(matches!(machine.step(&chunk), Action::Continue));
    assert!(matches!(machine.step(&chunk), Action::Continue));
    match machine.step(&chunk) {
        Action::Printed(line) => assert_eq!(line, "42"),
        other => panic!("expected a printed line, got {other:?}"),
    }
    assert!(matches!(machine.step(&chunk), Action::Finished));
    // A finished machine stays finished.
    assert!(matches!(machine.step(&chunk), Action::Finished));
    assert_eq!(machine.into_output(), vec!["42".to_string()]);
}

#[test]
fn values_print_and_copy() {
    assert_eq!(Value::Boolean(false).text(), "false");
    assert_eq!(Value::Void.text(), "void");
    assert_eq!(Value::String("hi".into()).text(), "hi");
    let n = Value::Number(number(0.5));
    assert_eq!(n.duplicate().text(), "0.5");
}

#[test]
fn default_machine_starts_fresh() {
    let chunk = main_chunk(vec![Constant::Void], vec![], vec![OpCode::Constant(0), OpCode::Print, OpCode::Halt]);
    let mut machine = Vm::default();
    assert!(matches!(machine.step(&chunk), Action::Continue));
    assert!(matches!(machine.step(&chunk), Action::Printed(ref line) if line == "void"));
}

#[test]
fn only_the_call_that_runs_must_fit() {
    // `f` has two parameters and no locals, but it is never called.
    let mut chunk = main_chunk(vec![Constant::Boolean(true)], vec![], vec![OpCode::Constant(0), OpCode::Print, OpCode::Halt]);
    chunk.functions.push(Function { name: "f".into(), arity: 2, local_names: vec![], constants: vec![], code: vec![OpCode::Return] });
    assert!(!is_runnable(&chunk));
    assert_eq!(run(&chunk), Ok(vec!["true".to_string()]));
    // Calling it is what cannot go on.
    let mut calling = main_chunk(vec![], vec![], vec![OpCode::Call(0), OpCode::Halt]);
    calling.functions.push(Function { name: "f".into(), arity: 2, local_names: vec![], constants: vec![], code: vec![OpCode::Return] });
    let machine = Vm::new();
    assert!(!machine.next_call_fits(&calling));
}
