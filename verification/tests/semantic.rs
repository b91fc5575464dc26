use aster::semantic::{analyze, Analyzer, SemanticError};
use aster::{analyze_source, parse_source, CompileError};

#[test]
fn accepts_valid_program() {
    let source = r#"
        let answer = 40 + 2;
        if answer > 0 {
            print(answer);
        }
    "#;

    assert!(analyze_source(source).is_ok());
}

#[test]
fn rejects_undefined_variable() {
    let error = analyze_source("print(missing);").expect_err("undefined variable should fail");
    match error {
        CompileError::Semantic(errors) => {
            assert!(errors.iter().any(|error| error.message.contains("undefined variable 'missing'")));
        }
        other => panic!("expected semantic error, got {other:?}"),
    }
}

#[test]
fn rejects_wrong_arithmetic_type() {
    let error = analyze_source("let value = \"aster\" + 1;").expect_err("mixed arithmetic should fail");
    match error {
        CompileError::Semantic(errors) => {
            assert!(errors.iter().any(|error| error.message.contains("arithmetic operators require numbers")));
        }
        other => panic!("expected semantic error, got {other:?}"),
    }
}

#[test]
fn checks_function_arity() {
    let error = analyze_source(
        r#"
            fn greet(name) {
                print(name);
            }
            greet();
        "#,
    )
    .expect_err("wrong argument count should fail");

    match error {
        CompileError::Semantic(errors) => {
            assert!(errors.iter().any(|error| error.message.contains("expects 1 argument(s), got 0")));
        }
        other => panic!("expected semantic error, got {other:?}"),
    }
}

#[test]
fn rejects_non_boolean_if_condition() {
    let error = analyze_source("if 42 { print(42); }").expect_err("numeric if condition should fail");
    match error {
        CompileError::Semantic(errors) => {
            assert!(errors.iter().any(|error| error.message.contains("if condition must be bool")));
        }
        other => panic!("expected semantic error, got {other:?}"),
    }
}

fn messages(source: &str) -> Vec<String> {
    match analyze_source(source) {
        Err(CompileError::Semantic(errors)) => errors.into_iter().map(|e: SemanticError| e.message).collect(),
        Ok(_) => Vec::new(),
        Err(other) => panic!("expected a semantic result, got {other:?}"),
    }
}

#[test]
fn reports_every_diagnostic_in_order() {
    assert_eq!(
        messages("let a = \"s\" + 1; let a = 2; print(b);"),
        vec![
            "arithmetic operators require numbers (found string, expected number)".to_string(),
            "variable 'a' is already declared in this scope".to_string(),
            "undefined variable 'b'".to_string(),
        ]
    );
}

#[test]
fn reports_each_kind_of_type_error() {
    assert_eq!(
        messages("let n = 1; n = true; let s: string = 2; let v: void = 1; print(-true); print(!1); print(1 < \"x\"); print(1 == true); print(1 && true);"),
        vec![
            "cannot assign bool to variable 'n' of type number".to_string(),
            "type annotation for 's' expects string, found number".to_string(),
            "variable 'v' cannot have type void".to_string(),
            "unary '-' requires a number (found bool, expected number)".to_string(),
            "unary '!' requires a bool (found number, expected bool)".to_string(),
            "comparison operators require numbers (found string, expected number)".to_string(),
            "cannot compare number with bool".to_string(),
            "logical operators require bools (found number, expected bool)".to_string(),
        ]
    );
}

#[test]
fn reports_function_errors() {
    assert_eq!(
        messages("fn f(x, x) { return x; } fn f() { } g(); x = 1; f(1); f(1)(2);"),
        vec![
            "function 'f' is already declared".to_string(),
            "parameter 'x' is declared more than once".to_string(),
            "undefined function 'g'".to_string(),
            "cannot assign to undefined variable 'x'".to_string(),
            "function 'f' expects 2 argument(s), got 1".to_string(),
            "only named functions can be called".to_string(),
        ]
    );
}

#[test]
fn block_names_do_not_leak() {
    assert_eq!(messages("{ let inner = 1; } print(inner);"), vec!["undefined variable 'inner'".to_string()]);
    assert_eq!(messages("fn f(p) { let q = p; } print(p);"), vec!["undefined variable 'p'".to_string()]);
    // A block may shadow an outer name, and the outer one stays visible after it.
    assert_eq!(messages("let x = 1; { let x = \"s\"; } print(x + 1);"), Vec::<String>::new());
}

#[test]
fn functions_may_be_called_before_they_are_declared() {
    assert_eq!(messages("print(later(1)); fn later(n) { return n; }"), Vec::<String>::new());
}

#[test]
fn analyzer_reports_through_its_methods() {
    let program = parse_source("print(nope);").expect("source should parse");
    let errors = Analyzer::new().analyze(&program).expect_err("nope is undefined");
    assert_eq!(errors, vec![SemanticError { message: "undefined variable 'nope'".to_string() }]);
    let ok = parse_source("let x = 1; print(x);").expect("source should parse");
    assert_eq!(analyze(&ok), Ok(()));
}
