pub mod ast;
pub mod bytecode;
pub mod disassembler;
pub mod lexer;
pub mod parser;
pub mod semantic;
pub mod text;
pub mod token;
pub mod type_system;
pub mod vm;

use vstd::prelude::*;
use vstd::string::StringSliceAdditionalSpecFns;

use ast::{Program, StmtModel};
use bytecode::{compile, compile_program, Chunk};
use lexer::{lemma_lex_ends_with_eof, lex, LexError, Lexer};
use parser::{parse_tokens, ParseError, Parser};
use semantic::{analysis_errors, analyze, errors_view, SemanticError};
use token::TokenKind;
use vm::VmError;

verus! {

/// Why a source could not be turned into a program, or could not run.
#[derive(Debug)]
pub enum CompileError {
    Lex(Vec<LexError>),
    Parse(Vec<ParseError>),
    Semantic(Vec<SemanticError>),
    Bytecode(bytecode::BytecodeError),
    Runtime(VmError),
}

/// Parsing the source comes to an end. It does not where the parser, expecting
/// an expression, meets an opening parenthesis right before the end of input:
/// the grouping would start over there for ever.
pub open spec fn parse_halts(src: Seq<u8>) -> bool {
    match lex(src) {
        Ok(ts) => parse_tokens(ts) is Some,
        Err(_) => true,
    }
}

/// What parsing a source gives.
pub open spec fn parse_result_matches(src: Seq<u8>, r: Result<Program, CompileError>) -> bool {
    match lex(src) {
        Err(e) => r matches Err(CompileError::Lex(es)) && es@.len() == 1 && es@[0]@ == e,
        Ok(ts) => match parse_tokens(ts) {
            Some(Ok(stmts)) => r matches Ok(p) && p@ == stmts,
            Some(Err(errs)) => r matches Err(CompileError::Parse(es)) && es@.map_values(|e: ParseError| e@)
                == errs,
            None => false,
        },
    }
}

/// The error of a source that does not lex, or lexes and does not parse:
/// its lexical error, or its syntax errors.
pub open spec fn front_error_matches(src: Seq<u8>, e: CompileError) -> bool {
    match lex(src) {
        Err(le) => e matches CompileError::Lex(es) && es@.len() == 1 && es@[0]@ == le,
        Ok(ts) => match parse_tokens(ts) {
            Some(Err(errs)) => e matches CompileError::Parse(es) && es@.map_values(|x: ParseError| x@) == errs,
            _ => false,
        },
    }
}

/// The statements of a source that lexes and parses.
pub open spec fn parsed_program(src: Seq<u8>) -> Option<Seq<StmtModel>> {
    match lex(src) {
        Ok(ts) => match parse_tokens(ts) {
            Some(Ok(stmts)) => Some(stmts),
            _ => None,
        },
        Err(_) => None,
    }
}

/// As `parse_source`, on any source: `None` exactly where parsing would not
/// end.
pub fn try_parse_source(source: &str) -> (r: Option<Result<Program, CompileError>>)
    requires
        source.spec_bytes().len() < usize::MAX,
    ensures
        r is Some <==> parse_halts(source.spec_bytes()),
        r matches Some(x) ==> parse_result_matches(source.spec_bytes(), x),
{
    let lexer = Lexer::new(source);
    let tokens = match lexer.tokenize() {
        Ok(tokens) => tokens,
        Err(error) => {
            let mut errors = Vec::new();
            errors.push(error);
            return Some(Err(CompileError::Lex(errors)));
        },
    };
    proof {
        let ts = token::tokens_view(tokens@);
        lemma_lex_ends_with_eof(source.spec_bytes());
        assert(ts[ts.len() - 1].kind == TokenKind::Eof);
        assert(parser::has_eof_from(ts, 0));
    }
    let mut parser = Parser::new(tokens);
    match parser.try_parse() {
        Some(Ok(program)) => Some(Ok(program)),
        Some(Err(errors)) => Some(Err(CompileError::Parse(errors))),
        None => None,
    }
}

/// Whether parsing the source ends (see `parse_halts`).
pub fn parsing_halts(source: &str) -> (b: bool)
    requires
        source.spec_bytes().len() < usize::MAX,
    ensures
        b == parse_halts(source.spec_bytes()),
{
    try_parse_source(source).is_some()
}

/// The program of a source, or its lexical error, or its syntax errors.
pub fn parse_source(source: &str) -> (r: Result<Program, CompileError>)
    requires
        source.spec_bytes().len() < usize::MAX,
        parse_halts(source.spec_bytes()),
    ensures
        parse_result_matches(source.spec_bytes(), r),
{
    match try_parse_source(source) {
        Some(r) => r,
        None => Err(CompileError::Lex(Vec::new())),
    }
}

/// The program of a source that passes semantic analysis.
pub fn analyze_source(source: &str) -> (r: Result<Program, CompileError>)
    requires
        source.spec_bytes().len() < usize::MAX,
        parse_halts(source.spec_bytes()),
    ensures
        parsed_program(source.spec_bytes()) is None ==> parse_result_matches(source.spec_bytes(), r),
        parsed_program(source.spec_bytes()) matches Some(stmts) ==> {
            &&& analysis_errors(stmts).len() == 0 ==> (r matches Ok(p) && p@ == stmts)
            &&& analysis_errors(stmts).len() > 0 ==> (r matches Err(CompileError::Semantic(es)) && errors_view(es@)
                == analysis_errors(stmts))
        },
{
    let program = parse_source(source)?;
    match analyze(&program) {
        Ok(()) => Ok(program),
        Err(errors) => Err(CompileError::Semantic(errors)),
    }
}

/// The chunk of a source that passes semantic analysis and compiles; such a
/// chunk is well formed and the machine can run it.
pub fn compile_source(source: &str) -> (r: Result<Chunk, CompileError>)
    requires
        source.spec_bytes().len() < usize::MAX,
        parse_halts(source.spec_bytes()),
    ensures
        r matches Ok(chunk) ==> bytecode::chunk_well_formed(chunk@) && vm::runnable(chunk@),
        parsed_program(source.spec_bytes()) is None ==> (r matches Err(e) && front_error_matches(
            source.spec_bytes(),
            e,
        )),
        parsed_program(source.spec_bytes()) matches Some(stmts) ==> {
            &&& analysis_errors(stmts).len() > 0 ==> (r matches Err(CompileError::Semantic(es)) && errors_view(es@)
                == analysis_errors(stmts))
            &&& analysis_errors(stmts).len() == 0 ==> match compile_program(stmts) {
                Ok(c) => r matches Ok(chunk) && chunk@ == c,
                Err(m) => r matches Err(CompileError::Bytecode(e)) && e@ == m,
            }
        },
{
    let program = analyze_source(source)?;
    proof {
        semantic::lemma_clean_program_params_distinct(program@);
        bytecode::lemma_compiled_chunk_runnable(program@);
    }
    match compile(&program) {
        Ok(chunk) => Ok(chunk),
        Err(error) => Err(CompileError::Bytecode(error)),
    }
}

} // verus!
