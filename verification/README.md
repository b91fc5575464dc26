# ASTER

ASTER is a small programming language with a staged compiler:

`source → lexer → parser → AST → semantic analysis → bytecode → virtual machine`

Every stage is verified with Verus against a functional specification of
what it computes.

## Layout

- `src/` — the verified library.
  - `lexer.rs`: source bytes to tokens, with line and column positions; every
    token's lexeme is proved to be the source text it spans.
  - `parser.rs`: recursive descent with explicit precedence levels; the
    grammar is stated as spec functions over token positions, and the parser
    is proved to follow it, including error recovery at statement boundaries.
  - `semantic.rs`: scopes, name resolution, arity and operator type checks;
    diagnostics are specified message for message.
  - `bytecode.rs`: code generation; every compiled chunk is proved well formed
    (operands in range, jumps inside their code, `Halt`/`Return` at the ends),
    top-level statement code keeps the stack balanced along every path, and
    chunks of programs that pass analysis are proved runnable.
  - `vm.rs`: the bytecode machine as a step function. Numbers are held by their
    binary64 bits and printed text; the machine asks its driver to read number
    literals and to do arithmetic and comparisons on numbers, and everything
    else (stack, globals, frames, jumps, calls, runtime errors) is verified.
    On a well-formed chunk a step never fails for a structural reason.
  - `disassembler.rs`: the textual listing of a chunk.
- `app/` — the command-line program: reading files, printing, and the loop
  that drives the machine and computes with `f64`.
- `tests/` — scenario tests for every stage.

## Usage

```text
aster program.aster              # run
aster --check program.aster      # semantic check only
aster --dump-ast program.aster   # print the syntax tree
```
