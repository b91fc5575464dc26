use aster::ast::{BinaryOp, Expr, Stmt, UnaryOp};
use aster::lexer::Lexer;
use aster::parser::Parser;
use aster::token::TokenKind;
use aster::type_system::Type;
use aster::{parse_source, parsing_halts, try_parse_source, CompileError};

#[test]
fn parses_variable_and_arithmetic() {
    let program = parse_source("let answer = 40 + 2 * 1;").expect("source should parse");
    assert_eq!(program.statements.len(), 1);
    match &program.statements[0] {
        Stmt::Let { name, type_annotation, initializer } => {
            assert_eq!(name, "answer");
            assert_eq!(*type_annotation, None);
            match initializer {
                Expr::Binary { operator, .. } => assert_eq!(*operator, BinaryOp::Add),
                _ => panic!("expected binary expression"),
            }
        }
        _ => panic!("expected let statement"),
    }
}

#[test]
fn parses_explicit_type_annotation() {
    let program = parse_source("let answer: number = 42;").expect("typed let should parse");
    match &program.statements[0] {
        Stmt::Let { type_annotation, .. } => assert_eq!(*type_annotation, Some(Type::Number)),
        _ => panic!("expected let statement"),
    }
}

#[test]
fn parses_function_calls_and_conditionals() {
    let source = r#"fn greet(name) { print(name); } if true { greet("aster"); } else { print("no"); }"#;
    let program = parse_source(source).expect("source should parse");
    assert_eq!(program.statements.len(), 2);
}

#[test]
fn parses_assignment_after_declaration() {
    let source = "let answer = 40; answer = answer + 2;";
    let program = parse_source(source).expect("source should parse");
    assert_eq!(program.statements.len(), 2);
    match &program.statements[1] {
        Stmt::Expression(Expr::Assign { name, value }) => {
            assert_eq!(name, "answer");
            assert!(matches!(value.as_ref(), Expr::Binary { operator: BinaryOp::Add, .. }));
        }
        _ => panic!("expected assignment expression"),
    }
}

#[test]
fn reports_lexical_errors() {
    assert!(parse_source("let x = @;").is_err());
}

fn kinds(source: &str) -> Vec<TokenKind> {
    Lexer::new(source).tokenize().expect("source should lex").iter().map(|t| t.kind).collect()
}

#[test]
fn lexes_operators_and_keywords() {
    assert_eq!(
        kinds("let fn if else true false return print x_1 == != <= >= && || ! < > = :"),
        vec![
            TokenKind::Let,
            TokenKind::Fn,
            TokenKind::If,
            TokenKind::Else,
            TokenKind::True,
            TokenKind::False,
            TokenKind::Return,
            TokenKind::Print,
            TokenKind::Identifier,
            TokenKind::EqualEqual,
            TokenKind::BangEqual,
            TokenKind::LessEqual,
            TokenKind::GreaterEqual,
            TokenKind::AndAnd,
            TokenKind::OrOr,
            TokenKind::Bang,
            TokenKind::Less,
            TokenKind::Greater,
            TokenKind::Equal,
            TokenKind::Colon,
            TokenKind::Eof,
        ]
    );
}

#[test]
fn lexes_literals_with_positions() {
    let tokens = Lexer::new("x = 3.25;\n  \"hi there\" // note\n7").tokenize().expect("source should lex");
    assert_eq!(tokens.len(), 7);
    assert_eq!(tokens[0].kind, TokenKind::Identifier);
    assert_eq!(tokens[0].literal, "x");
    assert_eq!(tokens[2].kind, TokenKind::Number);
    assert_eq!(tokens[2].literal, "3.25");
    assert_eq!((tokens[2].line, tokens[2].column), (1, 5));
    assert_eq!(tokens[3].lexeme, ";");
    assert_eq!(tokens[4].kind, TokenKind::String);
    assert_eq!(tokens[4].literal, "hi there");
    assert_eq!(tokens[4].lexeme, "\"hi there\"");
    assert_eq!((tokens[4].line, tokens[4].column), (2, 3));
    assert_eq!(tokens[5].kind, TokenKind::Number);
    assert_eq!(tokens[5].literal, "7");
    assert_eq!((tokens[5].line, tokens[5].column), (3, 1));
    assert_eq!(tokens[6].kind, TokenKind::Eof);
    assert_eq!((tokens[6].line, tokens[6].column), (3, 2));
}

#[test]
fn lexing_ends_with_one_eof() {
    let tokens = Lexer::new("  // only a comment").tokenize().expect("source should lex");
    assert_eq!(tokens.len(), 1);
    assert_eq!(tokens[0].kind, TokenKind::Eof);
    assert_eq!((tokens[0].line, tokens[0].column), (1, 20));
}

#[test]
fn reports_unexpected_character_position() {
    let error = Lexer::new("let x = @;").tokenize().expect_err("'@' is not a token");
    assert_eq!(error.message, "unexpected character '@'.");
    assert_eq!((error.line, error.column), (1, 9));
    match parse_source("let x = @;") {
        Err(CompileError::Lex(errors)) => {
            assert_eq!(errors.len(), 1);
            assert_eq!(errors[0].message, "unexpected character '@'.");
        }
        other => panic!("expected a lexical error, got {other:?}"),
    }
}

#[test]
fn reports_unterminated_string() {
    let error = Lexer::new("print(1);\n  \"open").tokenize().expect_err("string is not closed");
    assert_eq!(error.message, "unterminated string literal.");
    assert_eq!((error.line, error.column), (2, 3));
}

#[test]
fn multiplication_binds_tighter_than_addition() {
    let program = parse_source("print(40 + 2 * 3);").expect("source should parse");
    match &program.statements[0] {
        Stmt::Print(Expr::Binary { left, operator: BinaryOp::Add, right }) => {
            assert_eq!(**left, Expr::Number("40".to_string()));
            match right.as_ref() {
                Expr::Binary { left, operator: BinaryOp::Multiply, right } => {
                    assert_eq!(**left, Expr::Number("2".to_string()));
                    assert_eq!(**right, Expr::Number("3".to_string()));
                }
                other => panic!("expected a product, got {other:?}"),
            }
        }
        other => panic!("expected a print of a sum, got {other:?}"),
    }
}

#[test]
fn assignment_is_right_associative_and_unary_nests() {
    let program = parse_source("a = b = !!c;").expect("source should parse");
    match &program.statements[0] {
        Stmt::Expression(Expr::Assign { name, value }) => {
            assert_eq!(name, "a");
            match value.as_ref() {
                Expr::Assign { name, value } => {
                    assert_eq!(name, "b");
                    match value.as_ref() {
                        Expr::Unary { operator: UnaryOp::Not, operand } => {
                            assert!(matches!(operand.as_ref(), Expr::Unary { operator: UnaryOp::Not, .. }))
                        }
                        other => panic!("expected a negation, got {other:?}"),
                    }
                }
                other => panic!("expected an assignment, got {other:?}"),
            }
        }
        other => panic!("expected an expression statement, got {other:?}"),
    }
}

#[test]
fn parses_calls_and_else_if() {
    let program = parse_source("if a < b { f(1, \"two\"); } else if c { return; } else { print(g()); }")
        .expect("source should parse");
    assert_eq!(program.statements.len(), 1);
    match &program.statements[0] {
        Stmt::If { condition, then_branch, else_branch } => {
            assert!(matches!(condition, Expr::Binary { operator: BinaryOp::Less, .. }));
            match then_branch.as_ref() {
                Stmt::Block(body) => match &body[0] {
                    Stmt::Expression(Expr::Call { callee, arguments }) => {
                        assert_eq!(**callee, Expr::Variable("f".to_string()));
                        assert_eq!(arguments.len(), 2);
                        assert_eq!(arguments[1], Expr::String("two".to_string()));
                    }
                    other => panic!("expected a call, got {other:?}"),
                },
                other => panic!("expected a block, got {other:?}"),
            }
            match else_branch.as_deref() {
                Some(Stmt::If { else_branch: Some(last), .. }) => {
                    assert!(matches!(last.as_ref(), Stmt::Block(_)))
                }
                other => panic!("expected an else-if, got {other:?}"),
            }
        }
        other => panic!("expected an if statement, got {other:?}"),
    }
}

#[test]
fn reports_syntax_errors_and_recovers() {
    match parse_source("let = 1; print(2) let y = 3;") {
        Err(CompileError::Parse(errors)) => {
            assert_eq!(errors.len(), 2);
            assert_eq!(errors[0].message, "expected variable name");
            assert_eq!((errors[0].line, errors[0].column), (1, 7));
            assert_eq!(errors[1].message, "expected ';' after print expression");
            assert_eq!((errors[1].line, errors[1].column), (1, 19));
        }
        other => panic!("expected syntax errors, got {other:?}"),
    }
}

#[test]
fn rejects_invalid_assignment_target() {
    match parse_source("1 = 2;") {
        Err(CompileError::Parse(errors)) => {
            assert_eq!(errors.len(), 1);
            assert_eq!(errors[0].message, "invalid assignment target");
        }
        other => panic!("expected a syntax error, got {other:?}"),
    }
}

#[test]
fn rejects_unknown_type_name() {
    match parse_source("let x: int = 1;") {
        Err(CompileError::Parse(errors)) => assert_eq!(errors[0].message, "unknown type name"),
        other => panic!("expected a syntax error, got {other:?}"),
    }
}

#[test]
fn parser_accepts_tokens_directly() {
    let tokens = Lexer::new("fn id(x) { return x; }").tokenize().expect("source should lex");
    let program = Parser::new(tokens).parse().expect("tokens should parse");
    match &program.statements[0] {
        Stmt::Function { name, params, body } => {
            assert_eq!(name, "id");
            assert_eq!(params, &vec!["x".to_string()]);
            assert_eq!(body, &vec![Stmt::Return(Some(Expr::Variable("x".to_string())))]);
        }
        other => panic!("expected a function, got {other:?}"),
    }
}

#[test]
fn detects_parses_that_would_not_end() {
    // An opening parenthesis right before the end, where an expression is due.
    assert!(!parsing_halts("print("));
    assert!(try_parse_source("x = (").is_none());
    assert!(try_parse_source("let y = f(").is_none());
    // Elsewhere a trailing parenthesis is an ordinary syntax error.
    assert!(parsing_halts("fn f("));
    match try_parse_source("let = (") {
        Some(Err(CompileError::Parse(errors))) => assert_eq!(errors[0].message, "expected variable name"),
        other => panic!("expected syntax errors, got {other:?}"),
    }
    assert!(parsing_halts("let x = @;"));
    assert!(matches!(try_parse_source("print(1);"), Some(Ok(_))));
}

#[test]
fn parser_try_parse_reports_endless_input() {
    let tokens = Lexer::new("print((").tokenize().expect("source should lex");
    assert!(Parser::new(tokens).try_parse().is_none());
    let tokens = Lexer::new("print(1)").tokenize().expect("source should lex");
    match Parser::new(tokens).try_parse() {
        Some(Err(errors)) => assert_eq!(errors[0].message, "expected ';' after print expression"),
        other => panic!("expected a syntax error, got {other:?}"),
    }
}

#[test]
fn string_literals_keep_their_text() {
    let tokens = Lexer::new("print(\"héllo wörld\");").tokenize().expect("source should lex");
    assert_eq!(tokens[2].kind, TokenKind::String);
    assert_eq!(tokens[2].literal, "héllo wörld");
    assert_eq!(tokens[2].lexeme, "\"héllo wörld\"");
    assert_eq!((tokens[3].line, tokens[3].column), (1, 22));
}

#[test]
fn reports_stray_bytes_one_at_a_time() {
    // The first byte of a two-byte character is reported, read as Latin-1.
    let error = Lexer::new("x ä").tokenize().expect_err("'ä' is not a token");
    assert_eq!(error.message, "unexpected character 'Ã'.");
    assert_eq!((error.line, error.column), (1, 3));
}

#[test]
fn trailing_comment_changes_no_token() {
    let plain = Lexer::new("let x = 1;\nprint(x);\n").tokenize().expect("source should lex");
    let commented = Lexer::new("let x = 1;\nprint(x);\n// done \"here\"").tokenize().expect("source should lex");
    assert_eq!(plain.len(), commented.len());
    for (a, b) in plain.iter().zip(commented.iter()).take(plain.len() - 1) {
        assert_eq!((a.kind, &a.literal, &a.lexeme, a.line, a.column), (b.kind, &b.literal, &b.lexeme, b.line, b.column));
    }
    let last = commented.last().expect("an Eof token");
    assert_eq!(last.kind, TokenKind::Eof);
    assert_eq!((last.line, last.column), (3, 15));
}

#[test]
fn lexemes_are_the_source_text() {
    let source = "let gr = \"añb\" != x1; // ünïcode\n";
    let tokens = Lexer::new(source).tokenize().expect("source should lex");
    let mut rest = source;
    for token in &tokens[..tokens.len() - 1] {
        let start = rest.find(token.lexeme.as_str()).expect("lexeme in the source");
        assert!(rest[..start].chars().all(char::is_whitespace));
        rest = &rest[start + token.lexeme.len()..];
    }
    assert!(tokens.last().expect("an Eof token").lexeme.is_empty());
}
