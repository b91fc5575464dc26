use vstd::prelude::*;

use crate::vm::runnable;
use crate::ast::{
    params_distinct, expr_model, exprs_model, lemma_exprs_model_index, lemma_exprs_model_len, lemma_stmts_model_index,
    lemma_stmts_model_len, names_model, stmts_model, BinaryOp, Expr, ExprModel, Program, Stmt, StmtModel,
    UnaryOp,
};

verus! {

/// A constant of the program. A number keeps the decimal digits it was
/// written with.
#[derive(Debug, PartialEq)]
pub enum Constant {
    Number(String),
    String(String),
    Boolean(bool),
    Void,
}

#[derive(Clone, Copy, Debug, PartialEq, Eq, Structural)]
pub enum OpCode {
    Constant(usize),
    LoadGlobal(usize),
    StoreGlobal(usize),
    LoadLocal(usize),
    StoreLocal(usize),
    Pop,
    Negate,
    Not,
    Add,
    Subtract,
    Multiply,
    Divide,
    Modulo,
    Equal,
    NotEqual,
    Less,
    LessEqual,
    Greater,
    GreaterEqual,
    And,
    Or,
    JumpIfFalse(usize),
    Jump(usize),
    Print,
    Call(usize),
    Return,
    Halt,
}

/// A compiled function: its own locals (parameters first), constants and code.
#[derive(Debug, PartialEq)]
pub struct Function {
    pub name: String,
    pub arity: usize,
    pub local_names: Vec<String>,
    pub constants: Vec<Constant>,
    pub code: Vec<OpCode>,
}

/// A compiled program: the top-level code with its constants and global
/// names, and the functions, indexed in declaration order.
#[derive(Debug, PartialEq)]
pub struct Chunk {
    pub constants: Vec<Constant>,
    pub names: Vec<String>,
    pub code: Vec<OpCode>,
    pub functions: Vec<Function>,
}

#[derive(Debug, PartialEq, Eq)]
pub struct BytecodeError {
    pub message: String,
}

pub enum ConstantModel {
    Number(Seq<char>),
    Str(Seq<char>),
    Boolean(bool),
    Void,
}

pub struct FunctionModel {
    pub name: Seq<char>,
    pub arity: nat,
    pub local_names: Seq<Seq<char>>,
    pub constants: Seq<ConstantModel>,
    pub code: Seq<OpCode>,
}

pub struct ChunkModel {
    pub constants: Seq<ConstantModel>,
    pub names: Seq<Seq<char>>,
    pub code: Seq<OpCode>,
    pub functions: Seq<FunctionModel>,
}

impl View for Constant {
    type V = ConstantModel;

    open spec fn view(&self) -> ConstantModel {
        match self {
            Constant::Number(s) => ConstantModel::Number(s@),
            Constant::String(s) => ConstantModel::Str(s@),
            Constant::Boolean(b) => ConstantModel::Boolean(*b),
            Constant::Void => ConstantModel::Void,
        }
    }
}

pub open spec fn constants_view(cs: Seq<Constant>) -> Seq<ConstantModel> {
    cs.map_values(|c: Constant| c@)
}

impl View for Function {
    type V = FunctionModel;

    open spec fn view(&self) -> FunctionModel {
        FunctionModel {
            name: self.name@,
            arity: self.arity as nat,
            local_names: names_model(self.local_names@),
            constants: constants_view(self.constants@),
            code: self.code@,
        }
    }
}

pub open spec fn functions_view(fs: Seq<Function>) -> Seq<FunctionModel> {
    fs.map_values(|f: Function| f@)
}

impl View for Chunk {
    type V = ChunkModel;

    open spec fn view(&self) -> ChunkModel {
        ChunkModel {
            constants: constants_view(self.constants@),
            names: names_model(self.names@),
            code: self.code@,
            functions: functions_view(self.functions@),
        }
    }
}

impl View for BytecodeError {
    type V = Seq<char>;

    open spec fn view(&self) -> Seq<char> {
        self.message@
    }
}

impl Chunk {
    /// A chunk with no constants, names, code or functions.
    pub fn new() -> (c: Self)
        ensures
            c@.constants.len() == 0,
            c@.names.len() == 0,
            c@.code.len() == 0,
            c@.functions.len() == 0,
    {
        Chunk { constants: Vec::new(), names: Vec::new(), code: Vec::new(), functions: Vec::new() }
    }
}

impl Default for Chunk {
    fn default() -> (c: Self)
        ensures
            c@.constants.len() == 0,
            c@.names.len() == 0,
            c@.code.len() == 0,
            c@.functions.len() == 0,
    {
        Chunk::new()
    }
}

// ---------------------------------------------------------------------------
// Code generation, as functions on the code being built.
// ---------------------------------------------------------------------------

/// The position of the first occurrence of `n`.
pub open spec fn first_index(names: Seq<Seq<char>>, n: Seq<char>) -> Option<nat>
    decreases names.len(),
{
    if names.len() == 0 {
        None
    } else if names[0] == n {
        Some(0)
    } else {
        match first_index(names.subrange(1, names.len() as int), n) {
            Some(i) => Some(i + 1),
            None => None,
        }
    }
}

pub open spec fn unary_opcode(op: UnaryOp) -> OpCode {
    match op {
        UnaryOp::Negate => OpCode::Negate,
        UnaryOp::Not => OpCode::Not,
    }
}

pub open spec fn binary_opcode(op: BinaryOp) -> OpCode {
    match op {
        BinaryOp::Add => OpCode::Add,
        BinaryOp::Subtract => OpCode::Subtract,
        BinaryOp::Multiply => OpCode::Multiply,
        BinaryOp::Divide => OpCode::Divide,
        BinaryOp::Modulo => OpCode::Modulo,
        BinaryOp::Equal => OpCode::Equal,
        BinaryOp::NotEqual => OpCode::NotEqual,
        BinaryOp::Less => OpCode::Less,
        BinaryOp::LessEqual => OpCode::LessEqual,
        BinaryOp::Greater => OpCode::Greater,
        BinaryOp::GreaterEqual => OpCode::GreaterEqual,
        BinaryOp::And => OpCode::And,
        BinaryOp::Or => OpCode::Or,
    }
}

/// The jump at `j` made to go to `target`.
pub open spec fn patch(code: Seq<OpCode>, j: int, target: nat) -> Seq<OpCode> {
    match code[j] {
        OpCode::JumpIfFalse(_) => code.update(j, OpCode::JumpIfFalse(target as usize)),
        _ => code.update(j, OpCode::Jump(target as usize)),
    }
}

/// The code of a block of code under construction: instructions, constants.
/// Top-level code also has global names; function code has local names.
pub struct Code {
    pub constants: Seq<ConstantModel>,
    pub slots: Seq<Seq<char>>,
    pub code: Seq<OpCode>,
}

pub open spec fn emit(c: Code, op: OpCode) -> Code {
    Code { code: c.code.push(op), ..c }
}

/// A new constant, and an instruction that loads it.
pub open spec fn load_constant(c: Code, k: ConstantModel) -> Code {
    emit(Code { constants: c.constants.push(k), ..c }, OpCode::Constant(c.constants.len() as usize))
}

/// The slot of a name, added at the end when it has none yet.
pub open spec fn slot(c: Code, n: Seq<char>) -> (nat, Code) {
    match first_index(c.slots, n) {
        Some(i) => (i, c),
        None => (c.slots.len(), Code { slots: c.slots.push(n), ..c }),
    }
}

/// Whether names are global (top-level code) or local (function code).
#[derive(Clone, Copy, Debug, PartialEq, Eq, Structural)]
pub enum Scope {
    Global,
    Local,
}

/// The instructions for an expression, in `scope`; `fns` are the function
/// names in declaration order.
pub open spec fn compile_expr(c: Code, scope: Scope, fns: Seq<Seq<char>>, e: ExprModel) -> Result<Code, Seq<char>>
    decreases e,
{
    match e {
        ExprModel::Number(v) => Ok(load_constant(c, ConstantModel::Number(v))),
        ExprModel::Str(v) => Ok(load_constant(c, ConstantModel::Str(v))),
        ExprModel::Boolean(b) => Ok(load_constant(c, ConstantModel::Boolean(b))),
        ExprModel::Variable(n) => match scope {
            Scope::Global => {
                let (i, c1) = slot(c, n);
                Ok(emit(c1, OpCode::LoadGlobal(i as usize)))
            },
            Scope::Local => match first_index(c.slots, n) {
                Some(i) => Ok(emit(c, OpCode::LoadLocal(i as usize))),
                None => Err("undefined local variable '"@ + n + "'"@),
            },
        },
        ExprModel::Assign(n, v) => match compile_expr(c, scope, fns, *v) {
            Ok(c1) => match scope {
                Scope::Global => {
                    let (i, c2) = slot(c1, n);
                    Ok(emit(emit(c2, OpCode::StoreGlobal(i as usize)), OpCode::LoadGlobal(i as usize)))
                },
                Scope::Local => match first_index(c1.slots, n) {
                    Some(i) => Ok(emit(emit(c1, OpCode::StoreLocal(i as usize)), OpCode::LoadLocal(i as usize))),
                    None => Err("undefined local variable '"@ + n + "'"@),
                },
            },
            Err(m) => Err(m),
        },
        ExprModel::Unary(op, x) => match compile_expr(c, scope, fns, *x) {
            Ok(c1) => Ok(emit(c1, unary_opcode(op))),
            Err(m) => Err(m),
        },
        ExprModel::Binary(l, op, r) => match compile_expr(c, scope, fns, *l) {
            Ok(c1) => match compile_expr(c1, scope, fns, *r) {
                Ok(c2) => Ok(emit(c2, binary_opcode(op))),
                Err(m) => Err(m),
            },
            Err(m) => Err(m),
        },
        ExprModel::Call(callee, args) => match *callee {
            ExprModel::Variable(n) => match first_index(fns, n) {
                Some(fi) => match compile_args(c, scope, fns, args) {
                    Ok(c1) => Ok(emit(c1, OpCode::Call(fi as usize))),
                    Err(m) => Err(m),
                },
                None => Err("undefined function '"@ + n + "'"@),
            },
            _ => Err("only named functions can be called"@),
        },
    }
}

pub open spec fn compile_args(c: Code, scope: Scope, fns: Seq<Seq<char>>, es: Seq<ExprModel>) -> Result<
    Code,
    Seq<char>,
>
    decreases es,
{
    if es.len() == 0 {
        Ok(c)
    } else {
        match compile_expr(c, scope, fns, es[0]) {
            Ok(c1) => compile_args(c1, scope, fns, es.subrange(1, es.len() as int)),
            Err(m) => Err(m),
        }
    }
}

/// `if`: the condition, a conditional jump over the then-branch, and for an
/// else-branch a jump over it; each jump goes to the end of what it skips.
pub open spec fn compile_stmt(c: Code, scope: Scope, fns: Seq<Seq<char>>, s: StmtModel) -> Result<Code, Seq<char>>
    decreases s,
{
    match s {
        StmtModel::Let(n, _, init) => match compile_expr(c, scope, fns, init) {
            Ok(c1) => {
                let (i, c2) = slot(c1, n);
                match scope {
                    Scope::Global => Ok(emit(c2, OpCode::StoreGlobal(i as usize))),
                    Scope::Local => Ok(emit(c2, OpCode::StoreLocal(i as usize))),
                }
            },
            Err(m) => Err(m),
        },
        StmtModel::Expression(e) => match compile_expr(c, scope, fns, e) {
            Ok(c1) => Ok(emit(c1, OpCode::Pop)),
            Err(m) => Err(m),
        },
        StmtModel::Print(e) => match compile_expr(c, scope, fns, e) {
            Ok(c1) => Ok(emit(c1, OpCode::Print)),
            Err(m) => Err(m),
        },
        StmtModel::Return(v) => match scope {
            Scope::Global => Err("return/function declaration is only valid inside function compilation"@),
            Scope::Local => match v {
                Some(e) => match compile_expr(c, scope, fns, e) {
                    Ok(c1) => Ok(emit(c1, OpCode::Return)),
                    Err(m) => Err(m),
                },
                None => Ok(emit(load_constant(c, ConstantModel::Void), OpCode::Return)),
            },
        },
        StmtModel::Block(ss) => compile_stmts(c, scope, fns, ss),
        StmtModel::If(cond, t, e) => match compile_expr(c, scope, fns, cond) {
            Ok(c1) => {
                let j1 = c1.code.len();
                match compile_stmt(emit(c1, OpCode::JumpIfFalse(usize::MAX)), scope, fns, *t) {
                    Ok(c2) => match e {
                        Some(b) => {
                            let j2 = c2.code.len();
                            let c3 = Code { code: patch(c2.code.push(OpCode::Jump(usize::MAX)), j1 as int, j2 + 1), ..c2 };
                            match compile_stmt(c3, scope, fns, *b) {
                                Ok(c4) => Ok(Code { code: patch(c4.code, j2 as int, c4.code.len()), ..c4 }),
                                Err(m) => Err(m),
                            }
                        },
                        None => Ok(Code { code: patch(c2.code, j1 as int, c2.code.len()), ..c2 }),
                    },
                    Err(m) => Err(m),
                }
            },
            Err(m) => Err(m),
        },
        StmtModel::Function(..) => match scope {
            Scope::Global => Err("return/function declaration is only valid inside function compilation"@),
            Scope::Local => Err("nested function declarations are not yet supported"@),
        },
    }
}

pub open spec fn compile_stmts(c: Code, scope: Scope, fns: Seq<Seq<char>>, ss: Seq<StmtModel>) -> Result<
    Code,
    Seq<char>,
>
    decreases ss,
{
    if ss.len() == 0 {
        Ok(c)
    } else {
        match compile_stmt(c, scope, fns, ss[0]) {
            Ok(c1) => compile_stmts(c1, scope, fns, ss.subrange(1, ss.len() as int)),
            Err(m) => Err(m),
        }
    }
}

/// The locals of a function start with its parameters, each name once.
pub open spec fn declare_locals(c: Code, params: Seq<Seq<char>>) -> Code
    decreases params.len(),
{
    if params.len() == 0 {
        c
    } else {
        declare_locals(slot(c, params[0]).1, params.subrange(1, params.len() as int))
    }
}

pub open spec fn empty_code() -> Code {
    Code { constants: Seq::empty(), slots: Seq::empty(), code: Seq::empty() }
}

/// A function body, ending with a `return` of void.
pub open spec fn compile_function_body(
    fns: Seq<Seq<char>>,
    name: Seq<char>,
    params: Seq<Seq<char>>,
    body: Seq<StmtModel>,
) -> Result<FunctionModel, Seq<char>> {
    match compile_stmts(declare_locals(empty_code(), params), Scope::Local, fns, body) {
        Ok(c) => {
            let c1 = emit(load_constant(c, ConstantModel::Void), OpCode::Return);
            Ok(FunctionModel {
                name,
                arity: params.len(),
                local_names: c1.slots,
                constants: c1.constants,
                code: c1.code,
            })
        },
        Err(m) => Err(m),
    }
}

/// The function names in declaration order, each with an empty function.
pub open spec fn declare_functions(fns: Seq<Seq<char>>, fs: Seq<FunctionModel>, ss: Seq<StmtModel>) -> Result<
    (Seq<Seq<char>>, Seq<FunctionModel>),
    Seq<char>,
>
    decreases ss.len(),
{
    if ss.len() == 0 {
        Ok((fns, fs))
    } else {
        let rest = ss.subrange(1, ss.len() as int);
        match ss[0] {
            StmtModel::Function(name, params, _) => if first_index(fns, name) is Some {
                Err("duplicate function '"@ + name + "'"@)
            } else {
                declare_functions(
                    fns.push(name),
                    fs.push(
                        FunctionModel {
                            name,
                            arity: params.len(),
                            local_names: Seq::empty(),
                            constants: Seq::empty(),
                            code: Seq::empty(),
                        },
                    ),
                    rest,
                )
            },
            _ => declare_functions(fns, fs, rest),
        }
    }
}

/// The top-level statements in order: a function is compiled into its slot,
/// anything else into the top-level code.
pub open spec fn compile_items(c: Code, fs: Seq<FunctionModel>, fns: Seq<Seq<char>>, ss: Seq<StmtModel>) -> Result<
    (Code, Seq<FunctionModel>),
    Seq<char>,
>
    decreases ss.len(),
{
    if ss.len() == 0 {
        Ok((c, fs))
    } else {
        let rest = ss.subrange(1, ss.len() as int);
        match ss[0] {
            StmtModel::Function(name, params, body) => match first_index(fns, name) {
                Some(index) => match compile_function_body(fns, name, params, body) {
                    Ok(f) => compile_items(c, fs.update(index as int, f), fns, rest),
                    Err(m) => Err(m),
                },
                None => Err("unknown function '"@ + name + "'"@),
            },
            _ => match compile_stmt(c, Scope::Global, fns, ss[0]) {
                Ok(c1) => compile_items(c1, fs, fns, rest),
                Err(m) => Err(m),
            },
        }
    }
}

/// The chunk compiled from a program, ending with `Halt`, or the first error.
pub open spec fn compile_program(program: Seq<StmtModel>) -> Result<ChunkModel, Seq<char>> {
    match declare_functions(Seq::empty(), Seq::empty(), program) {
        Ok((fns, fs)) => match compile_items(empty_code(), fs, fns, program) {
            Ok((c, fs1)) => Ok(ChunkModel { constants: c.constants, names: c.slots, code: c.code.push(OpCode::Halt), functions: fs1 }),
            Err(m) => Err(m),
        },
        Err(m) => Err(m),
    }
}

} // verus!

verus! {

// ---------------------------------------------------------------------------
// The compiler.
// ---------------------------------------------------------------------------

pub proof fn lemma_first_index_found(names: Seq<Seq<char>>, n: Seq<char>, i: int)
    requires
        0 <= i < names.len(),
        names[i] == n,
        forall|j: int| 0 <= j < i ==> names[j] != n,
    ensures
        first_index(names, n) == Some(i as nat),
    decreases i,
{
    if i > 0 {
        let rest = names.subrange(1, names.len() as int);
        lemma_first_index_found(rest, n, i - 1);
    }
}

pub proof fn lemma_first_index_absent(names: Seq<Seq<char>>, n: Seq<char>)
    requires
        forall|j: int| 0 <= j < names.len() ==> names[j] != n,
    ensures
        first_index(names, n) is None,
    decreases names.len(),
{
    if names.len() > 0 {
        lemma_first_index_absent(names.subrange(1, names.len() as int), n);
    }
}

pub proof fn lemma_first_index_bound(names: Seq<Seq<char>>, n: Seq<char>)
    ensures
        first_index(names, n) matches Some(i) ==> i < names.len() && names[i as int] == n,
    decreases names.len(),
{
    if names.len() > 0 {
        lemma_first_index_bound(names.subrange(1, names.len() as int), n);
    }
}

/// The position of the first occurrence of `name`.
fn first_position(names: &Vec<String>, name: &String) -> (r: Option<usize>)
    ensures
        match r {
            Some(i) => first_index(names_model(names@), name@) == Some(i as nat),
            None => first_index(names_model(names@), name@) is None,
        },
{
    let ghost ns = names_model(names@);
    let mut i: usize = 0;
    while i < names.len()
        invariant
            i <= names@.len(),
            ns == names_model(names@),
            forall|j: int| 0 <= j < i ==> ns[j] != name@,
        decreases names@.len() - i,
    {
        if names[i].eq(name) {
            proof {
                lemma_first_index_found(ns, name@, i as int);
            }
            return Some(i);
        }
        i = i + 1;
    }
    proof {
        lemma_first_index_absent(ns, name@);
    }
    None
}

pub open spec fn compiled(r: Result<(), BytecodeError>, after: Code, spec: Result<Code, Seq<char>>) -> bool {
    match spec {
        Ok(c) => r is Ok && after == c,
        Err(m) => r matches Err(e) && e@ == m,
    }
}

/// Code under construction: constants, the names of its slots (global names
/// or locals) and instructions.
struct CodeBuilder {
    constants: Vec<Constant>,
    slots: Vec<String>,
    code: Vec<OpCode>,
}

impl View for CodeBuilder {
    type V = Code;

    closed spec fn view(&self) -> Code {
        Code { constants: constants_view(self.constants@), slots: names_model(self.slots@), code: self.code@ }
    }
}

impl CodeBuilder {
    fn new() -> (b: Self)
        ensures
            b@ == empty_code(),
    {
        let b = CodeBuilder { constants: Vec::new(), slots: Vec::new(), code: Vec::new() };
        proof {
            assert(b@.constants =~= Seq::<ConstantModel>::empty());
            assert(b@.slots =~= Seq::<Seq<char>>::empty());
        }
        b
    }

    fn emit(&mut self, op: OpCode)
        ensures
            final(self)@ == emit(old(self)@, op),
    {
        self.code.push(op);
    }

    /// Adds a constant and the instruction that loads it.
    fn emit_constant(&mut self, constant: Constant)
        ensures
            final(self)@ == load_constant(old(self)@, constant@),
    {
        let index = self.constants.len();
        let ghost before = constants_view(self.constants@);
        self.constants.push(constant);
        proof {
            assert(constants_view(self.constants@) =~= before.push(constant@));
        }
        self.code.push(OpCode::Constant(index));
    }

    /// The slot of `name`, added when it has none yet.
    fn slot(&mut self, name: &String) -> (i: usize)
        ensures
            (i as nat, final(self)@) == slot(old(self)@, name@),
    {
        match first_position(&self.slots, name) {
            Some(i) => i,
            None => {
                let i = self.slots.len();
                let ghost before = names_model(self.slots@);
                self.slots.push(name.clone());
                proof {
                    assert(names_model(self.slots@) =~= before.push(name@));
                }
                i
            },
        }
    }

    fn emit_placeholder_jump_if_false(&mut self) -> (index: usize)
        ensures
            index == old(self)@.code.len(),
            final(self)@ == emit(old(self)@, OpCode::JumpIfFalse(usize::MAX)),
    {
        let index = self.code.len();
        self.code.push(OpCode::JumpIfFalse(usize::MAX));
        index
    }

    fn emit_placeholder_jump(&mut self) -> (index: usize)
        ensures
            index == old(self)@.code.len(),
            final(self)@ == emit(old(self)@, OpCode::Jump(usize::MAX)),
    {
        let index = self.code.len();
        self.code.push(OpCode::Jump(usize::MAX));
        index
    }

    /// Makes the jump at `index` go to the end of the code.
    fn patch_jump(&mut self, index: usize)
        requires
            index < old(self)@.code.len(),
        ensures
            final(self)@ == (Code { code: patch(old(self)@.code, index as int, old(self)@.code.len()), ..old(self)@ }),
    {
        let target = self.code.len();
        let patched = match self.code[index] {
            OpCode::JumpIfFalse(_) => OpCode::JumpIfFalse(target),
            _ => OpCode::Jump(target),
        };
        self.code.set(index, patched);
    }

    fn compile_expression(&mut self, scope: Scope, functions: &Vec<String>, expression: &Expr) -> (r: Result<
        (),
        BytecodeError,
    >)
        ensures
            compiled(r, final(self)@, compile_expr(old(self)@, scope, names_model(functions@), expression@)),
        decreases expression, 1nat,
    {
        match expression {
            Expr::Number(value) => {
                self.emit_constant(Constant::Number(value.clone()));
            },
            Expr::String(value) => {
                self.emit_constant(Constant::String(value.clone()));
            },
            Expr::Boolean(value) => {
                self.emit_constant(Constant::Boolean(*value));
            },
            Expr::Variable(name) => {
                if scope == Scope::Global {
                    let index = self.slot(name);
                    self.emit(OpCode::LoadGlobal(index));
                } else {
                    match first_position(&self.slots, name) {
                        Some(index) => self.emit(OpCode::LoadLocal(index)),
                        None => {
                            return Err(undefined_message("undefined local variable '", name));
                        },
                    }
                }
            },
            Expr::Assign { name, value } => {
                self.compile_expression(scope, functions, value)?;
                if scope == Scope::Global {
                    let index = self.slot(name);
                    self.emit(OpCode::StoreGlobal(index));
                    self.emit(OpCode::LoadGlobal(index));
                } else {
                    match first_position(&self.slots, name) {
                        Some(index) => {
                            self.emit(OpCode::StoreLocal(index));
                            self.emit(OpCode::LoadLocal(index));
                        },
                        None => {
                            return Err(undefined_message("undefined local variable '", name));
                        },
                    }
                }
            },
            Expr::Unary { operator, operand } => {
                self.compile_expression(scope, functions, operand)?;
                self.emit(
                    match operator {
                        UnaryOp::Negate => OpCode::Negate,
                        UnaryOp::Not => OpCode::Not,
                    },
                );
            },
            Expr::Binary { left, operator, right } => {
                self.compile_expression(scope, functions, left)?;
                self.compile_expression(scope, functions, right)?;
                self.emit(
                    match operator {
                        BinaryOp::Add => OpCode::Add,
                        BinaryOp::Subtract => OpCode::Subtract,
                        BinaryOp::Multiply => OpCode::Multiply,
                        BinaryOp::Divide => OpCode::Divide,
                        BinaryOp::Modulo => OpCode::Modulo,
                        BinaryOp::Equal => OpCode::Equal,
                        BinaryOp::NotEqual => OpCode::NotEqual,
                        BinaryOp::Less => OpCode::Less,
                        BinaryOp::LessEqual => OpCode::LessEqual,
                        BinaryOp::Greater => OpCode::Greater,
                        BinaryOp::GreaterEqual => OpCode::GreaterEqual,
                        BinaryOp::And => OpCode::And,
                        BinaryOp::Or => OpCode::Or,
                    },
                );
            },
            Expr::Call { callee, arguments } => {
                let ghost args = exprs_model(arguments@);
                assert(expression@ == ExprModel::Call(Box::new(expr_model(&**callee)), args));
                let name = match &**callee {
                    Expr::Variable(name) => name,
                    _ => {
                        assert(!(expr_model(&**callee) is Variable));
                        return Err(BytecodeError { message: String::from_str("only named functions can be called") });
                    },
                };
                let function_index = match first_position(functions, name) {
                    Some(i) => i,
                    None => {
                        return Err(undefined_message("undefined function '", name));
                    },
                };
                self.compile_arguments(scope, functions, arguments)?;
                self.emit(OpCode::Call(function_index));
            },
        }
        Ok(())
    }

    fn compile_arguments(&mut self, scope: Scope, functions: &Vec<String>, arguments: &Vec<Expr>) -> (r: Result<
        (),
        BytecodeError,
    >)
        ensures
            compiled(r, final(self)@, compile_args(old(self)@, scope, names_model(functions@), exprs_model(arguments@))),
        decreases arguments@, 0nat,
    {
        let ghost es = exprs_model(arguments@);
        let ghost fns = names_model(functions@);
        let n = arguments.len();
        proof {
            lemma_exprs_model_len(arguments@);
            assert(es.subrange(0, n as int) =~= es);
        }
        let mut i: usize = 0;
        while i < n
            invariant
                n == arguments@.len(),
                es == exprs_model(arguments@),
                fns == names_model(functions@),
                es.len() == n,
                i <= n,
                compile_args(old(self)@, scope, fns, es) == compile_args(self@, scope, fns, es.subrange(i as int, n as int)),
            decreases n - i,
        {
            proof {
                lemma_exprs_model_index(arguments@, i as int);
                assert(es.subrange(i as int, n as int)[0] == es[i as int]);
                assert(es.subrange(i as int, n as int).subrange(1, (n - i) as int) =~= es.subrange(i + 1, n as int));
            }
            match self.compile_expression(scope, functions, &arguments[i]) {
                Ok(()) => {},
                Err(e) => {
                    return Err(e);
                },
            }
            i = i + 1;
        }
        proof {
            assert(es.subrange(n as int, n as int) =~= Seq::<ExprModel>::empty());
        }
        Ok(())
    }

    fn compile_statement(&mut self, scope: Scope, functions: &Vec<String>, statement: &Stmt) -> (r: Result<
        (),
        BytecodeError,
    >)
        ensures
            compiled(r, final(self)@, compile_stmt(old(self)@, scope, names_model(functions@), statement@)),
            scope == Scope::Global && r is Ok ==> forall|ar: Seq<nat>|
                ar.len() == functions@.len() && #[trigger] calls_fit_stmt(names_model(functions@), ar, statement@)
                    ==> code_ext(old(self)@, final(self)@) && (final(self)@.code.len() <= usize::MAX ==> balanced(
                    final(self)@.code,
                    ar,
                    old(self)@.code.len() as int,
                    final(self)@.code.len() as int,
                )),
        decreases statement, 1nat,
    {
        let function_count = functions.len();
        proof {
            assert forall|ar: Seq<nat>|
                ar.len() == functions@.len() && #[trigger] calls_fit_stmt(names_model(functions@), ar, statement@)
                implies (compile_stmt(self@, Scope::Global, names_model(functions@), statement@) matches Ok(c2)
                ==> code_ext(self@, c2) && (c2.code.len() <= usize::MAX ==> balanced(
                c2.code,
                ar,
                self@.code.len() as int,
                c2.code.len() as int,
            ))) by {
                lemma_stmt_stack(self@, names_model(functions@), ar, statement@);
            }
        }
        match statement {
            Stmt::Let { name, initializer, .. } => {
                self.compile_expression(scope, functions, initializer)?;
                let index = self.slot(name);
                if scope == Scope::Global {
                    self.emit(OpCode::StoreGlobal(index));
                } else {
                    self.emit(OpCode::StoreLocal(index));
                }
            },
            Stmt::Expression(expression) => {
                self.compile_expression(scope, functions, expression)?;
                self.emit(OpCode::Pop);
            },
            Stmt::Print(expression) => {
                self.compile_expression(scope, functions, expression)?;
                self.emit(OpCode::Print);
            },
            Stmt::Return(value) => {
                if scope == Scope::Global {
                    return Err(top_level_only());
                }
                match value {
                    Some(expression) => {
                        self.compile_expression(scope, functions, expression)?;
                    },
                    None => {
                        self.emit_constant(Constant::Void);
                    },
                }
                self.emit(OpCode::Return);
            },
            Stmt::Block(statements) => {
                self.compile_statements(scope, functions, statements)?;
            },
            Stmt::If { condition, then_branch, else_branch } => {
                self.compile_expression(scope, functions, condition)?;
                let jump_if_false = self.emit_placeholder_jump_if_false();
                let ghost before_then = self@;
                self.compile_statement(scope, functions, then_branch)?;
                proof {
                    lemma_stmt_extends(before_then, scope, names_model(functions@), then_branch@);
                }
                match else_branch {
                    Some(else_branch) => {
                        let jump_end = self.emit_placeholder_jump();
                        self.patch_jump(jump_if_false);
                        let ghost before_else = self@;
                        self.compile_statement(scope, functions, else_branch)?;
                        proof {
                            lemma_stmt_extends(before_else, scope, names_model(functions@), else_branch@);
                        }
                        self.patch_jump(jump_end);
                    },
                    None => {
                        self.patch_jump(jump_if_false);
                    },
                }
            },
            Stmt::Function { .. } => {
                if scope == Scope::Global {
                    return Err(top_level_only());
                }
                return Err(BytecodeError {
                    message: String::from_str("nested function declarations are not yet supported"),
                });
            },
        }
        Ok(())
    }

    fn compile_statements(&mut self, scope: Scope, functions: &Vec<String>, statements: &Vec<Stmt>) -> (r: Result<
        (),
        BytecodeError,
    >)
        ensures
            compiled(r, final(self)@, compile_stmts(old(self)@, scope, names_model(functions@), stmts_model(statements@))),
        decreases statements@, 0nat,
    {
        let ghost ss = stmts_model(statements@);
        let ghost fns = names_model(functions@);
        let n = statements.len();
        proof {
            lemma_stmts_model_len(statements@);
            assert(ss.subrange(0, n as int) =~= ss);
        }
        let mut i: usize = 0;
        while i < n
            invariant
                n == statements@.len(),
                ss == stmts_model(statements@),
                fns == names_model(functions@),
                ss.len() == n,
                i <= n,
                compile_stmts(old(self)@, scope, fns, ss) == compile_stmts(self@, scope, fns, ss.subrange(i as int, n as int)),
            decreases n - i,
        {
            proof {
                lemma_stmts_model_index(statements@, i as int);
                assert(ss.subrange(i as int, n as int)[0] == ss[i as int]);
                assert(ss.subrange(i as int, n as int).subrange(1, (n - i) as int) =~= ss.subrange(i + 1, n as int));
            }
            match self.compile_statement(scope, functions, &statements[i]) {
                Ok(()) => {},
                Err(e) => {
                    return Err(e);
                },
            }
            i = i + 1;
        }
        proof {
            assert(ss.subrange(n as int, n as int) =~= Seq::<StmtModel>::empty());
        }
        Ok(())
    }
}

fn undefined_message(prefix: &str, name: &String) -> (e: BytecodeError)
    ensures
        e@ == prefix@ + name@ + "'"@,
{
    let mut message = String::from_str(prefix);
    message.append(name.as_str());
    message.append("'");
    BytecodeError { message }
}

fn top_level_only() -> (e: BytecodeError)
    ensures
        e@ == "return/function declaration is only valid inside function compilation"@,
{
    BytecodeError { message: String::from_str("return/function declaration is only valid inside function compilation") }
}

} // verus!

verus! {

// ---------------------------------------------------------------------------
// Compilation only appends: constants, slots and instructions already there
// stay (a jump it patches lies in the part it appended).
// ---------------------------------------------------------------------------

pub open spec fn extends(c: Code, c2: Code) -> bool {
    &&& c.code.len() <= c2.code.len()
    &&& c2.code.subrange(0, c.code.len() as int) == c.code
    &&& c.constants.len() <= c2.constants.len()
    &&& c2.constants.subrange(0, c.constants.len() as int) == c.constants
    &&& c.slots.len() <= c2.slots.len()
    &&& c2.slots.subrange(0, c.slots.len() as int) == c.slots
}

proof fn lemma_extends_refl(c: Code)
    ensures
        extends(c, c),
{
    assert(c.code.subrange(0, c.code.len() as int) =~= c.code);
    assert(c.constants.subrange(0, c.constants.len() as int) =~= c.constants);
    assert(c.slots.subrange(0, c.slots.len() as int) =~= c.slots);
}

proof fn lemma_extends_trans(a: Code, b: Code, c: Code)
    requires
        extends(a, b),
        extends(b, c),
    ensures
        extends(a, c),
{
    assert(c.code.subrange(0, a.code.len() as int) =~= b.code.subrange(0, a.code.len() as int));
    assert(c.constants.subrange(0, a.constants.len() as int) =~= b.constants.subrange(0, a.constants.len() as int));
    assert(c.slots.subrange(0, a.slots.len() as int) =~= b.slots.subrange(0, a.slots.len() as int));
}

proof fn lemma_emit_extends(c: Code, op: OpCode)
    ensures
        extends(c, emit(c, op)),
{
    assert(emit(c, op).code.subrange(0, c.code.len() as int) =~= c.code);
    lemma_extends_refl(c);
}

proof fn lemma_load_constant_extends(c: Code, k: ConstantModel)
    ensures
        extends(c, load_constant(c, k)),
{
    let c1 = Code { constants: c.constants.push(k), ..c };
    assert(c1.constants.subrange(0, c.constants.len() as int) =~= c.constants);
    lemma_extends_refl(c);
    assert(extends(c, c1));
    lemma_emit_extends(c1, OpCode::Constant(c.constants.len() as usize));
    lemma_extends_trans(c, c1, load_constant(c, k));
}

proof fn lemma_slot_extends(c: Code, n: Seq<char>)
    ensures
        extends(c, slot(c, n).1),
{
    lemma_extends_refl(c);
    let c1 = Code { slots: c.slots.push(n), ..c };
    assert(c1.slots.subrange(0, c.slots.len() as int) =~= c.slots);
}

proof fn lemma_patch_extends(c: Code, c2: Code, j: int, target: nat)
    requires
        extends(c, c2),
        c.code.len() <= j < c2.code.len(),
    ensures
        extends(c, Code { code: patch(c2.code, j, target), ..c2 }),
        patch(c2.code, j, target).len() == c2.code.len(),
{
    let p = patch(c2.code, j, target);
    assert(p.subrange(0, c.code.len() as int) =~= c2.code.subrange(0, c.code.len() as int));
}

proof fn lemma_expr_extends(c: Code, scope: Scope, fns: Seq<Seq<char>>, e: ExprModel)
    ensures
        compile_expr(c, scope, fns, e) matches Ok(c2) ==> extends(c, c2),
    decreases e,
{
    match e {
        ExprModel::Number(v) => lemma_load_constant_extends(c, ConstantModel::Number(v)),
        ExprModel::Str(v) => lemma_load_constant_extends(c, ConstantModel::Str(v)),
        ExprModel::Boolean(b) => lemma_load_constant_extends(c, ConstantModel::Boolean(b)),
        ExprModel::Variable(n) => {
            lemma_slot_extends(c, n);
            let (i, c1) = slot(c, n);
            lemma_emit_extends(c1, OpCode::LoadGlobal(i as usize));
            lemma_extends_trans(c, c1, emit(c1, OpCode::LoadGlobal(i as usize)));
            match first_index(c.slots, n) {
                Some(i) => lemma_emit_extends(c, OpCode::LoadLocal(i as usize)),
                None => {},
            }
        },
        ExprModel::Assign(n, v) => {
            lemma_expr_extends(c, scope, fns, *v);
            match compile_expr(c, scope, fns, *v) {
                Ok(c1) => {
                    lemma_slot_extends(c1, n);
                    let (i, c2) = slot(c1, n);
                    lemma_extends_trans(c, c1, c2);
                    lemma_emit_extends(c2, OpCode::StoreGlobal(i as usize));
                    let c3 = emit(c2, OpCode::StoreGlobal(i as usize));
                    lemma_extends_trans(c, c2, c3);
                    lemma_emit_extends(c3, OpCode::LoadGlobal(i as usize));
                    lemma_extends_trans(c, c3, emit(c3, OpCode::LoadGlobal(i as usize)));
                    match first_index(c1.slots, n) {
                        Some(k) => {
                            let d = emit(c1, OpCode::StoreLocal(k as usize));
                            lemma_emit_extends(c1, OpCode::StoreLocal(k as usize));
                            lemma_extends_trans(c, c1, d);
                            lemma_emit_extends(d, OpCode::LoadLocal(k as usize));
                            lemma_extends_trans(c, d, emit(d, OpCode::LoadLocal(k as usize)));
                        },
                        None => {},
                    }
                },
                Err(_) => {},
            }
        },
        ExprModel::Unary(op, x) => {
            lemma_expr_extends(c, scope, fns, *x);
            match compile_expr(c, scope, fns, *x) {
                Ok(c1) => {
                    lemma_emit_extends(c1, unary_opcode(op));
                    lemma_extends_trans(c, c1, emit(c1, unary_opcode(op)));
                },
                Err(_) => {},
            }
        },
        ExprModel::Binary(l, op, r) => {
            lemma_expr_extends(c, scope, fns, *l);
            match compile_expr(c, scope, fns, *l) {
                Ok(c1) => {
                    lemma_expr_extends(c1, scope, fns, *r);
                    match compile_expr(c1, scope, fns, *r) {
                        Ok(c2) => {
                            lemma_extends_trans(c, c1, c2);
                            lemma_emit_extends(c2, binary_opcode(op));
                            lemma_extends_trans(c, c2, emit(c2, binary_opcode(op)));
                        },
                        Err(_) => {},
                    }
                },
                Err(_) => {},
            }
        },
        ExprModel::Call(callee, args) => {
            lemma_args_extends(c, scope, fns, args);
            match compile_args(c, scope, fns, args) {
                Ok(c1) => {
                    match *callee {
                        ExprModel::Variable(n) => match first_index(fns, n) {
                            Some(fi) => {
                                lemma_emit_extends(c1, OpCode::Call(fi as usize));
                                lemma_extends_trans(c, c1, emit(c1, OpCode::Call(fi as usize)));
                            },
                            None => {},
                        },
                        _ => {},
                    }
                },
                Err(_) => {},
            }
        },
    }
}

proof fn lemma_args_extends(c: Code, scope: Scope, fns: Seq<Seq<char>>, es: Seq<ExprModel>)
    ensures
        compile_args(c, scope, fns, es) matches Ok(c2) ==> extends(c, c2),
    decreases es,
{
    if es.len() == 0 {
        lemma_extends_refl(c);
    } else {
        lemma_expr_extends(c, scope, fns, es[0]);
        match compile_expr(c, scope, fns, es[0]) {
            Ok(c1) => {
                lemma_args_extends(c1, scope, fns, es.subrange(1, es.len() as int));
                match compile_args(c1, scope, fns, es.subrange(1, es.len() as int)) {
                    Ok(c2) => lemma_extends_trans(c, c1, c2),
                    Err(_) => {},
                }
            },
            Err(_) => {},
        }
    }
}

proof fn lemma_stmt_extends(c: Code, scope: Scope, fns: Seq<Seq<char>>, s: StmtModel)
    ensures
        compile_stmt(c, scope, fns, s) matches Ok(c2) ==> extends(c, c2),
    decreases s,
{
    match s {
        StmtModel::Let(n, _, init) => {
            lemma_expr_extends(c, scope, fns, init);
            match compile_expr(c, scope, fns, init) {
                Ok(c1) => {
                    lemma_slot_extends(c1, n);
                    let (i, c2) = slot(c1, n);
                    lemma_extends_trans(c, c1, c2);
                    lemma_emit_extends(c2, OpCode::StoreGlobal(i as usize));
                    lemma_extends_trans(c, c2, emit(c2, OpCode::StoreGlobal(i as usize)));
                    lemma_emit_extends(c2, OpCode::StoreLocal(i as usize));
                    lemma_extends_trans(c, c2, emit(c2, OpCode::StoreLocal(i as usize)));
                },
                Err(_) => {},
            }
        },
        StmtModel::Expression(e) => {
            lemma_expr_extends(c, scope, fns, e);
            match compile_expr(c, scope, fns, e) {
                Ok(c1) => {
                    lemma_emit_extends(c1, OpCode::Pop);
                    lemma_extends_trans(c, c1, emit(c1, OpCode::Pop));
                },
                Err(_) => {},
            }
        },
        StmtModel::Print(e) => {
            lemma_expr_extends(c, scope, fns, e);
            match compile_expr(c, scope, fns, e) {
                Ok(c1) => {
                    lemma_emit_extends(c1, OpCode::Print);
                    lemma_extends_trans(c, c1, emit(c1, OpCode::Print));
                },
                Err(_) => {},
            }
        },
        StmtModel::Return(v) => {
            match v {
                Some(e) => {
                    lemma_expr_extends(c, scope, fns, e);
                    match compile_expr(c, scope, fns, e) {
                        Ok(c1) => {
                            lemma_emit_extends(c1, OpCode::Return);
                            lemma_extends_trans(c, c1, emit(c1, OpCode::Return));
                        },
                        Err(_) => {},
                    }
                },
                None => {
                    let c1 = load_constant(c, ConstantModel::Void);
                    lemma_load_constant_extends(c, ConstantModel::Void);
                    lemma_emit_extends(c1, OpCode::Return);
                    lemma_extends_trans(c, c1, emit(c1, OpCode::Return));
                },
            }
        },
        StmtModel::Block(ss) => {
            lemma_stmts_extends(c, scope, fns, ss);
        },
        StmtModel::If(cond, t, e) => {
            lemma_expr_extends(c, scope, fns, cond);
            match compile_expr(c, scope, fns, cond) {
                Ok(c1) => {
                    let j1 = c1.code.len();
                    let c1j = emit(c1, OpCode::JumpIfFalse(usize::MAX));
                    lemma_emit_extends(c1, OpCode::JumpIfFalse(usize::MAX));
                    lemma_extends_trans(c, c1, c1j);
                    lemma_stmt_extends(c1j, scope, fns, *t);
                    match compile_stmt(c1j, scope, fns, *t) {
                        Ok(c2) => {
                            lemma_extends_trans(c, c1j, c2);
                            match e {
                                Some(b) => {
                                    let j2 = c2.code.len();
                                    let c2j = emit(c2, OpCode::Jump(usize::MAX));
                                    lemma_emit_extends(c2, OpCode::Jump(usize::MAX));
                                    lemma_extends_trans(c, c2, c2j);
                                    lemma_patch_extends(c, c2j, j1 as int, j2 + 1);
                                    let c3 = Code { code: patch(c2j.code, j1 as int, j2 + 1), ..c2 };
                                    lemma_stmt_extends(c3, scope, fns, *b);
                                    match compile_stmt(c3, scope, fns, *b) {
                                        Ok(c4) => {
                                            lemma_extends_trans(c, c3, c4);
                                            lemma_patch_extends(c, c4, j2 as int, c4.code.len());
                                        },
                                        Err(_) => {},
                                    }
                                },
                                None => {
                                    lemma_patch_extends(c, c2, j1 as int, c2.code.len());
                                },
                            }
                        },
                        Err(_) => {},
                    }
                },
                Err(_) => {},
            }
        },
        StmtModel::Function(..) => {},
    }
}

proof fn lemma_stmts_extends(c: Code, scope: Scope, fns: Seq<Seq<char>>, ss: Seq<StmtModel>)
    ensures
        compile_stmts(c, scope, fns, ss) matches Ok(c2) ==> extends(c, c2),
    decreases ss,
{
    if ss.len() == 0 {
        lemma_extends_refl(c);
    } else {
        lemma_stmt_extends(c, scope, fns, ss[0]);
        match compile_stmt(c, scope, fns, ss[0]) {
            Ok(c1) => {
                lemma_stmts_extends(c1, scope, fns, ss.subrange(1, ss.len() as int));
                match compile_stmts(c1, scope, fns, ss.subrange(1, ss.len() as int)) {
                    Ok(c2) => lemma_extends_trans(c, c1, c2),
                    Err(_) => {},
                }
            },
            Err(_) => {},
        }
    }
}

} // verus!

verus! {

pub open spec fn compile_result_matches(r: Result<Chunk, BytecodeError>, spec: Result<ChunkModel, Seq<char>>) -> bool {
    match spec {
        Ok(c) => r matches Ok(chunk) && chunk@ == c,
        Err(m) => r matches Err(e) && e@ == m,
    }
}

/// Translates a program into a chunk: top-level code and one compiled
/// function per function declaration.
pub struct Compiler {
    main: CodeBuilder,
    function_names: Vec<String>,
    functions: Vec<Function>,
}

impl Compiler {
    /// A compiler that has not compiled anything yet.
    pub closed spec fn is_fresh(&self) -> bool {
        &&& self.main@ == empty_code()
        &&& self.function_names@.len() == 0
        &&& self.functions@.len() == 0
    }

    pub fn new() -> (c: Self)
        ensures
            c.is_fresh(),
    {
        Compiler { main: CodeBuilder::new(), function_names: Vec::new(), functions: Vec::new() }
    }

    /// The chunk for a program, or the first error met.
    pub fn compile(self, program: &Program) -> (r: Result<Chunk, BytecodeError>)
        requires
            self.is_fresh(),
        ensures
            compile_result_matches(r, compile_program(program@)),
    {
        let mut compiler = self;
        let ghost ss = program@;
        let n = program.statements.len();
        proof {
            lemma_stmts_model_len(program.statements@);
            assert(ss.subrange(0, n as int) =~= ss);
            assert(names_model(compiler.function_names@) =~= Seq::<Seq<char>>::empty());
            assert(functions_view(compiler.functions@) =~= Seq::<FunctionModel>::empty());
        }
        let mut i: usize = 0;
        while i < n
            invariant
                n == program.statements@.len(),
                ss == program@,
                ss.len() == n,
                i <= n,
                compiler.main@ == empty_code(),
                compiler.functions@.len() == compiler.function_names@.len(),
                declare_functions(Seq::empty(), Seq::empty(), ss) == declare_functions(
                    names_model(compiler.function_names@),
                    functions_view(compiler.functions@),
                    ss.subrange(i as int, n as int),
                ),
            decreases n - i,
        {
            proof {
                lemma_stmts_model_index(program.statements@, i as int);
                assert(ss.subrange(i as int, n as int)[0] == ss[i as int]);
                assert(ss.subrange(i as int, n as int).subrange(1, (n - i) as int) =~= ss.subrange(i + 1, n as int));
            }
            match &program.statements[i] {
                Stmt::Function { name, params, .. } => {
                    if first_position(&compiler.function_names, name).is_some() {
                        return Err(undefined_message("duplicate function '", name));
                    }
                    let ghost names_before = names_model(compiler.function_names@);
                    let ghost fs_before = functions_view(compiler.functions@);
                    compiler.function_names.push(name.clone());
                    let placeholder = Function {
                        name: name.clone(),
                        arity: params.len(),
                        local_names: Vec::new(),
                        constants: Vec::new(),
                        code: Vec::new(),
                    };
                    compiler.functions.push(placeholder);
                    proof {
                        assert(names_model(compiler.function_names@) =~= names_before.push(name@));
                        assert(names_model(placeholder.local_names@) =~= Seq::<Seq<char>>::empty());
                        assert(constants_view(placeholder.constants@) =~= Seq::<ConstantModel>::empty());
                        assert(names_model(params@).len() == params@.len());
                        assert(functions_view(compiler.functions@) =~= fs_before.push(placeholder@));
                    }
                },
                _ => {},
            }
            i = i + 1;
        }
        let ghost fns = names_model(compiler.function_names@);
        let ghost fs0 = functions_view(compiler.functions@);
        proof {
            assert(ss.subrange(n as int, n as int) =~= Seq::<StmtModel>::empty());
            assert(ss.subrange(0, n as int) =~= ss);
        }
        i = 0;
        while i < n
            invariant
                n == program.statements@.len(),
                ss == program@,
                ss.len() == n,
                i <= n,
                fns == names_model(compiler.function_names@),
                compiler.functions@.len() == compiler.function_names@.len(),
                declare_functions(Seq::empty(), Seq::empty(), ss) == Ok::<
                    (Seq<Seq<char>>, Seq<FunctionModel>),
                    Seq<char>,
                >((fns, fs0)),
                compile_items(empty_code(), fs0, fns, ss) == compile_items(
                    compiler.main@,
                    functions_view(compiler.functions@),
                    fns,
                    ss.subrange(i as int, n as int),
                ),
            decreases n - i,
        {
            proof {
                lemma_stmts_model_index(program.statements@, i as int);
                assert(ss.subrange(i as int, n as int)[0] == ss[i as int]);
                assert(ss.subrange(i as int, n as int).subrange(1, (n - i) as int) =~= ss.subrange(i + 1, n as int));
            }
            match &program.statements[i] {
                Stmt::Function { name, params, body } => {
                    let index = match first_position(&compiler.function_names, name) {
                        Some(index) => index,
                        None => {
                            return Err(undefined_message("unknown function '", name));
                        },
                    };
                    proof {
                        lemma_first_index_bound(fns, name@);
                    }
                    let function = compile_function(&compiler.function_names, name, params, body)?;
                    let ghost fs_before = functions_view(compiler.functions@);
                    compiler.functions.set(index, function);
                    proof {
                        assert(functions_view(compiler.functions@) =~= fs_before.update(index as int, function@));
                    }
                },
                statement => {
                    match compiler.main.compile_statement(Scope::Global, &compiler.function_names, statement) {
                        Ok(()) => {},
                        Err(e) => {
                            return Err(e);
                        },
                    }
                },
            }
            i = i + 1;
        }
        proof {
            assert(ss.subrange(n as int, n as int) =~= Seq::<StmtModel>::empty());
        }
        compiler.main.emit(OpCode::Halt);
        let CodeBuilder { constants, slots, code } = compiler.main;
        Ok(Chunk { constants, names: slots, code, functions: compiler.functions })
    }
}

impl Default for Compiler {
    fn default() -> (c: Self)
        ensures
            c.is_fresh(),
    {
        Compiler::new()
    }
}

/// A function: its parameters become its first locals, then its body, then a
/// `return` of void.
fn compile_function(functions: &Vec<String>, name: &String, params: &Vec<String>, body: &Vec<Stmt>) -> (r: Result<
    Function,
    BytecodeError,
>)
    ensures
        match compile_function_body(names_model(functions@), name@, names_model(params@), stmts_model(body@)) {
            Ok(f) => r matches Ok(x) && x@ == f,
            Err(m) => r matches Err(e) && e@ == m,
        },
{
    let mut builder = CodeBuilder::new();
    let ghost ps = names_model(params@);
    let n = params.len();
    let mut i: usize = 0;
    proof {
        assert(ps.subrange(0, n as int) =~= ps);
    }
    while i < n
        invariant
            n == params@.len(),
            ps == names_model(params@),
            ps.len() == n,
            i <= n,
            declare_locals(empty_code(), ps) == declare_locals(builder@, ps.subrange(i as int, n as int)),
        decreases n - i,
    {
        proof {
            assert(ps.subrange(i as int, n as int)[0] == params@[i as int]@);
            assert(ps.subrange(i as int, n as int).subrange(1, (n - i) as int) =~= ps.subrange(i + 1, n as int));
        }
        builder.slot(&params[i]);
        i = i + 1;
    }
    proof {
        assert(ps.subrange(n as int, n as int) =~= Seq::<Seq<char>>::empty());
    }
    builder.compile_statements(Scope::Local, functions, body)?;
    builder.emit_constant(Constant::Void);
    builder.emit(OpCode::Return);
    let CodeBuilder { constants, slots, code } = builder;
    proof {
        assert(names_model(params@).len() == params@.len());
    }
    Ok(Function { name: name.clone(), arity: params.len(), local_names: slots, constants, code })
}

/// The chunk for a program, with a fresh compiler. A chunk it returns is
/// well formed.
pub fn compile(program: &Program) -> (r: Result<Chunk, BytecodeError>)
    ensures
        compile_result_matches(r, compile_program(program@)),
        r matches Ok(chunk) ==> chunk_well_formed(chunk@),
{
    proof {
        lemma_compiled_chunk_well_formed(program@);
    }
    Compiler::new().compile(program)
}

} // verus!

verus! {

// ---------------------------------------------------------------------------
// Compiled chunks are well formed: every operand names an existing constant,
// name, local or function, and every jump lands inside the code.
// ---------------------------------------------------------------------------

/// The operand of an instruction is in range, and the instruction belongs to
/// code of this scope (`Halt` is not emitted by statements).
pub open spec fn operands_ok(op: OpCode, scope: Scope, nconst: nat, nslots: nat, nfns: nat) -> bool {
    match op {
        OpCode::Constant(i) => i < nconst,
        OpCode::LoadGlobal(i) => scope == Scope::Global && i < nslots,
        OpCode::StoreGlobal(i) => scope == Scope::Global && i < nslots,
        OpCode::LoadLocal(i) => scope == Scope::Local && i < nslots,
        OpCode::StoreLocal(i) => scope == Scope::Local && i < nslots,
        OpCode::Call(i) => i < nfns,
        OpCode::Return => scope == Scope::Local,
        OpCode::Halt => false,
        _ => true,
    }
}

pub open spec fn jump_ok(op: OpCode, limit: nat) -> bool {
    match op {
        OpCode::Jump(t) => t <= limit,
        OpCode::JumpIfFalse(t) => t <= limit,
        _ => true,
    }
}

pub open spec fn code_ok(c: Code, scope: Scope, nfns: nat) -> bool {
    forall|k: int|
        0 <= k < c.code.len() ==> #[trigger] operands_ok(
            c.code[k],
            scope,
            c.constants.len(),
            c.slots.len(),
            nfns,
        )
}

/// The jumps at `from` and after go no further than `limit`.
pub open spec fn jumps_within(code: Seq<OpCode>, from: int, limit: nat) -> bool {
    forall|k: int| from <= k < code.len() ==> #[trigger] jump_ok(code[k], limit)
}

pub open spec fn distinct(names: Seq<Seq<char>>) -> bool {
    forall|i: int, j: int| 0 <= i < j < names.len() ==> names[i] != names[j]
}

/// `c2` extends `c`, is well formed, names each slot once, and its new
/// jumps stay inside it.
pub open spec fn grows_well(c: Code, c2: Code, scope: Scope, nfns: nat) -> bool {
    &&& extends(c, c2)
    &&& code_ok(c2, scope, nfns)
    &&& distinct(c2.slots)
    &&& jumps_within(c2.code, c.code.len() as int, c2.code.len())
}

pub open spec fn good(c: Code, scope: Scope, nfns: nat) -> bool {
    code_ok(c, scope, nfns) && distinct(c.slots)
}

proof fn lemma_grows_refl(c: Code, scope: Scope, nfns: nat)
    requires
        good(c, scope, nfns),
    ensures
        grows_well(c, c, scope, nfns),
{
    lemma_extends_refl(c);
}

proof fn lemma_grows_trans(a: Code, b: Code, c: Code, scope: Scope, nfns: nat)
    requires
        grows_well(a, b, scope, nfns),
        grows_well(b, c, scope, nfns),
    ensures
        grows_well(a, c, scope, nfns),
{
    lemma_extends_trans(a, b, c);
    assert forall|k: int| a.code.len() <= k < c.code.len() implies #[trigger] jump_ok(c.code[k], c.code.len()) by {
        if k < b.code.len() {
            assert(c.code.subrange(0, b.code.len() as int)[k] == c.code[k]);
            assert(jump_ok(b.code[k], b.code.len()));
        } else {
            assert(jump_ok(c.code[k], c.code.len()));
        }
    }
}

proof fn lemma_emit_grows(c: Code, op: OpCode, scope: Scope, nfns: nat)
    requires
        good(c, scope, nfns),
        operands_ok(op, scope, c.constants.len(), c.slots.len(), nfns),
        jump_ok(op, c.code.len() + 1),
    ensures
        grows_well(c, emit(c, op), scope, nfns),
{
    lemma_emit_extends(c, op);
    let c2 = emit(c, op);
    assert forall|k: int| 0 <= k < c2.code.len() implies #[trigger] operands_ok(
        c2.code[k],
        scope,
        c2.constants.len(),
        c2.slots.len(),
        nfns,
    ) by {
        if k < c.code.len() {
            assert(operands_ok(c.code[k], scope, c.constants.len(), c.slots.len(), nfns));
        }
    }
}

proof fn lemma_load_constant_grows(c: Code, k: ConstantModel, scope: Scope, nfns: nat)
    requires
        good(c, scope, nfns),
    ensures
        grows_well(c, load_constant(c, k), scope, nfns),
{
    let c1 = Code { constants: c.constants.push(k), ..c };
    assert(c1.constants.subrange(0, c.constants.len() as int) =~= c.constants);
    lemma_extends_refl(c);
    assert forall|j: int| 0 <= j < c1.code.len() implies #[trigger] operands_ok(
        c1.code[j],
        scope,
        c1.constants.len(),
        c1.slots.len(),
        nfns,
    ) by {
        assert(operands_ok(c.code[j], scope, c.constants.len(), c.slots.len(), nfns));
    }
    assert(grows_well(c, c1, scope, nfns));
    lemma_emit_grows(c1, OpCode::Constant(c.constants.len() as usize), scope, nfns);
    lemma_grows_trans(c, c1, load_constant(c, k), scope, nfns);
}

proof fn lemma_slot_grows(c: Code, n: Seq<char>, scope: Scope, nfns: nat)
    requires
        good(c, scope, nfns),
    ensures
        grows_well(c, slot(c, n).1, scope, nfns),
        slot(c, n).0 < slot(c, n).1.slots.len(),
        slot(c, n).1.code == c.code,
{
    lemma_first_index_bound(c.slots, n);
    lemma_slot_extends(c, n);
    let c1 = slot(c, n).1;
    match first_index(c.slots, n) {
        Some(i) => {},
        None => {
            assert forall|i: int, j: int| 0 <= i < j < c1.slots.len() implies c1.slots[i] != c1.slots[j] by {
                if j == c.slots.len() {
                    if c1.slots[i] == n {
                        lemma_first_index_present(c.slots, n, i);
                    }
                }
            }
            assert forall|j: int| 0 <= j < c1.code.len() implies #[trigger] operands_ok(
                c1.code[j],
                scope,
                c1.constants.len(),
                c1.slots.len(),
                nfns,
            ) by {
                assert(operands_ok(c.code[j], scope, c.constants.len(), c.slots.len(), nfns));
            }
        },
    }
}

proof fn lemma_first_index_present(names: Seq<Seq<char>>, n: Seq<char>, i: int)
    requires
        0 <= i < names.len(),
        names[i] == n,
    ensures
        first_index(names, n) is Some,
    decreases names.len(),
{
    if names[0] != n {
        lemma_first_index_present(names.subrange(1, names.len() as int), n, i - 1);
    }
}

proof fn lemma_extends_index(a: Code, b: Code, k: int)
    requires
        extends(a, b),
        0 <= k < a.code.len(),
    ensures
        b.code[k] == a.code[k],
{
    assert(b.code.subrange(0, a.code.len() as int)[k] == b.code[k]);
}

/// The code after the condition of an `if` is well formed once its jumps
/// are patched.
proof fn lemma_if_grows(
    c: Code,
    scope: Scope,
    fns: Seq<Seq<char>>,
    c1: Code,
    s: StmtModel,
)
    requires
        grows_well(c, c1, scope, fns.len()),
    ensures
        s matches StmtModel::If(_, t, e) ==> ({
            let j1 = c1.code.len();
            match compile_stmt(emit(c1, OpCode::JumpIfFalse(usize::MAX)), scope, fns, *t) {
                Ok(c2) => match e {
                    Some(b) => {
                        let j2 = c2.code.len();
                        let c3 = Code { code: patch(c2.code.push(OpCode::Jump(usize::MAX)), j1 as int, j2 + 1), ..c2 };
                        match compile_stmt(c3, scope, fns, *b) {
                            Ok(c4) => grows_well(c, Code { code: patch(c4.code, j2 as int, c4.code.len()), ..c4 }, scope, fns.len()),
                            Err(_) => true,
                        }
                    },
                    None => grows_well(c, Code { code: patch(c2.code, j1 as int, c2.code.len()), ..c2 }, scope, fns.len()),
                },
                Err(_) => true,
            }
        }),
    decreases s, 0nat,
{
    match s {
        StmtModel::If(_, t, e) => {
    let nf = fns.len();
    let j1 = c1.code.len();
    let c1j = emit(c1, OpCode::JumpIfFalse(usize::MAX));
    lemma_emit_extends(c1, OpCode::JumpIfFalse(usize::MAX));
    lemma_extends_trans(c, c1, c1j);
    assert(code_ok(c1j, scope, nf)) by {
        assert forall|k: int| 0 <= k < c1j.code.len() implies #[trigger] operands_ok(
            c1j.code[k],
            scope,
            c1j.constants.len(),
            c1j.slots.len(),
            nf,
        ) by {
            if k < c1.code.len() {
                assert(operands_ok(c1.code[k], scope, c1.constants.len(), c1.slots.len(), nf));
            }
        }
    }
    lemma_stmt_grows(c1j, scope, fns, *t);
    match compile_stmt(c1j, scope, fns, *t) {
        Ok(c2) => {
            lemma_extends_trans(c, c1j, c2);
            lemma_extends_index(c1j, c2, j1 as int);
            match e {
                Some(b) => {
                    let j2 = c2.code.len();
                    let c2j = emit(c2, OpCode::Jump(usize::MAX));
                    lemma_emit_extends(c2, OpCode::Jump(usize::MAX));
                    lemma_extends_trans(c, c2, c2j);
                    let c3 = Code { code: patch(c2j.code, j1 as int, j2 + 1), ..c2 };
                    assert(c3 == Code { code: patch(c2.code.push(OpCode::Jump(usize::MAX)), j1 as int, j2 + 1), ..c2 });
                    lemma_patch_extends(c, c2j, j1 as int, j2 + 1);
                    assert(good(c3, scope, nf)) by {
                        assert forall|k: int| 0 <= k < c3.code.len() implies #[trigger] operands_ok(
                            c3.code[k],
                            scope,
                            c3.constants.len(),
                            c3.slots.len(),
                            nf,
                        ) by {
                            if k != j1 && k < c2.code.len() {
                                assert(operands_ok(c2.code[k], scope, c2.constants.len(), c2.slots.len(), nf));
                            }
                        }
                    }
                    lemma_stmt_grows(c3, scope, fns, *b);
                    match compile_stmt(c3, scope, fns, *b) {
                        Ok(c4) => {
                            lemma_extends_trans(c, c3, c4);
                            lemma_extends_index(c3, c4, j2 as int);
                            let f = Code { code: patch(c4.code, j2 as int, c4.code.len()), ..c4 };
                            lemma_patch_extends(c, c4, j2 as int, c4.code.len());
                            assert forall|k: int| 0 <= k < f.code.len() implies #[trigger] operands_ok(
                                f.code[k],
                                scope,
                                f.constants.len(),
                                f.slots.len(),
                                nf,
                            ) by {
                                if k != j2 {
                                    assert(operands_ok(c4.code[k], scope, c4.constants.len(), c4.slots.len(), nf));
                                }
                            }
                            assert forall|k: int| c.code.len() <= k < f.code.len() implies #[trigger] jump_ok(
                                f.code[k],
                                f.code.len(),
                            ) by {
                                if k < j1 {
                                    lemma_extends_index(c1, c1j, k);
                                    lemma_extends_index(c1j, c2, k);
                                    lemma_extends_index(c3, c4, k);
                                    assert(jump_ok(c1.code[k], c1.code.len()));
                                } else if k == j1 {
                                    lemma_extends_index(c3, c4, k);
                                } else if k < j2 {
                                    lemma_extends_index(c3, c4, k);
                                    assert(jump_ok(c2.code[k], c2.code.len()));
                                } else if k > j2 {
                                    assert(jump_ok(c4.code[k], c4.code.len()));
                                }
                            }
                        },
                        Err(_) => {},
                    }
                },
                None => {
                    let f = Code { code: patch(c2.code, j1 as int, c2.code.len()), ..c2 };
                    lemma_patch_extends(c, c2, j1 as int, c2.code.len());
                    assert forall|k: int| 0 <= k < f.code.len() implies #[trigger] operands_ok(
                        f.code[k],
                        scope,
                        f.constants.len(),
                        f.slots.len(),
                        nf,
                    ) by {
                        if k != j1 {
                            assert(operands_ok(c2.code[k], scope, c2.constants.len(), c2.slots.len(), nf));
                        }
                    }
                    assert forall|k: int| c.code.len() <= k < f.code.len() implies #[trigger] jump_ok(
                        f.code[k],
                        f.code.len(),
                    ) by {
                        if k < j1 {
                            lemma_extends_index(c1, c1j, k);
                            lemma_extends_index(c1j, c2, k);
                            assert(jump_ok(c1.code[k], c1.code.len()));
                        } else if k > j1 {
                            assert(jump_ok(c2.code[k], c2.code.len()));
                        }
                    }
                },
            }
        },
        Err(_) => {},
    }
        },
        _ => {},
    }
}

proof fn lemma_expr_grows(c: Code, scope: Scope, fns: Seq<Seq<char>>, e: ExprModel)
    requires
        good(c, scope, fns.len()),
    ensures
        compile_expr(c, scope, fns, e) matches Ok(c2) ==> grows_well(c, c2, scope, fns.len()),
    decreases e,
{
    let nf = fns.len();
    match e {
        ExprModel::Number(v) => lemma_load_constant_grows(c, ConstantModel::Number(v), scope, nf),
        ExprModel::Str(v) => lemma_load_constant_grows(c, ConstantModel::Str(v), scope, nf),
        ExprModel::Boolean(b) => lemma_load_constant_grows(c, ConstantModel::Boolean(b), scope, nf),
        ExprModel::Variable(n) => {
            match scope {
                Scope::Global => {
                    lemma_slot_grows(c, n, scope, nf);
                    let (i, c1) = slot(c, n);
                    lemma_emit_grows(c1, OpCode::LoadGlobal(i as usize), scope, nf);
                    lemma_grows_trans(c, c1, emit(c1, OpCode::LoadGlobal(i as usize)), scope, nf);
                },
                Scope::Local => {
                    lemma_first_index_bound(c.slots, n);
                    match first_index(c.slots, n) {
                        Some(i) => lemma_emit_grows(c, OpCode::LoadLocal(i as usize), scope, nf),
                        None => {},
                    }
                },
            }
        },
        ExprModel::Assign(n, v) => {
            lemma_expr_grows(c, scope, fns, *v);
            match compile_expr(c, scope, fns, *v) {
                Ok(c1) => {
                    match scope {
                        Scope::Global => {
                            lemma_slot_grows(c1, n, scope, nf);
                            let (i, c2) = slot(c1, n);
                            lemma_grows_trans(c, c1, c2, scope, nf);
                            let c3 = emit(c2, OpCode::StoreGlobal(i as usize));
                            lemma_emit_grows(c2, OpCode::StoreGlobal(i as usize), scope, nf);
                            lemma_grows_trans(c, c2, c3, scope, nf);
                            lemma_emit_grows(c3, OpCode::LoadGlobal(i as usize), scope, nf);
                            lemma_grows_trans(c, c3, emit(c3, OpCode::LoadGlobal(i as usize)), scope, nf);
                        },
                        Scope::Local => {
                            lemma_first_index_bound(c1.slots, n);
                            match first_index(c1.slots, n) {
                                Some(k) => {
                                    let d = emit(c1, OpCode::StoreLocal(k as usize));
                                    lemma_emit_grows(c1, OpCode::StoreLocal(k as usize), scope, nf);
                                    lemma_grows_trans(c, c1, d, scope, nf);
                                    lemma_emit_grows(d, OpCode::LoadLocal(k as usize), scope, nf);
                                    lemma_grows_trans(c, d, emit(d, OpCode::LoadLocal(k as usize)), scope, nf);
                                },
                                None => {},
                            }
                        },
                    }
                },
                Err(_) => {},
            }
        },
        ExprModel::Unary(op, x) => {
            lemma_expr_grows(c, scope, fns, *x);
            match compile_expr(c, scope, fns, *x) {
                Ok(c1) => {
                    lemma_emit_grows(c1, unary_opcode(op), scope, nf);
                    lemma_grows_trans(c, c1, emit(c1, unary_opcode(op)), scope, nf);
                },
                Err(_) => {},
            }
        },
        ExprModel::Binary(l, op, r) => {
            lemma_expr_grows(c, scope, fns, *l);
            match compile_expr(c, scope, fns, *l) {
                Ok(c1) => {
                    lemma_expr_grows(c1, scope, fns, *r);
                    match compile_expr(c1, scope, fns, *r) {
                        Ok(c2) => {
                            lemma_grows_trans(c, c1, c2, scope, nf);
                            lemma_emit_grows(c2, binary_opcode(op), scope, nf);
                            lemma_grows_trans(c, c2, emit(c2, binary_opcode(op)), scope, nf);
                        },
                        Err(_) => {},
                    }
                },
                Err(_) => {},
            }
        },
        ExprModel::Call(callee, args) => {
            lemma_args_grows(c, scope, fns, args);
            match compile_args(c, scope, fns, args) {
                Ok(c1) => {
                    match *callee {
                        ExprModel::Variable(n) => {
                            lemma_first_index_bound(fns, n);
                            match first_index(fns, n) {
                                Some(fi) => {
                                    lemma_emit_grows(c1, OpCode::Call(fi as usize), scope, nf);
                                    lemma_grows_trans(c, c1, emit(c1, OpCode::Call(fi as usize)), scope, nf);
                                },
                                None => {},
                            }
                        },
                        _ => {},
                    }
                },
                Err(_) => {},
            }
        },
    }
}

proof fn lemma_args_grows(c: Code, scope: Scope, fns: Seq<Seq<char>>, es: Seq<ExprModel>)
    requires
        good(c, scope, fns.len()),
    ensures
        compile_args(c, scope, fns, es) matches Ok(c2) ==> grows_well(c, c2, scope, fns.len()),
    decreases es,
{
    if es.len() == 0 {
        lemma_grows_refl(c, scope, fns.len());
    } else {
        lemma_expr_grows(c, scope, fns, es[0]);
        match compile_expr(c, scope, fns, es[0]) {
            Ok(c1) => {
                lemma_args_grows(c1, scope, fns, es.subrange(1, es.len() as int));
                match compile_args(c1, scope, fns, es.subrange(1, es.len() as int)) {
                    Ok(c2) => lemma_grows_trans(c, c1, c2, scope, fns.len()),
                    Err(_) => {},
                }
            },
            Err(_) => {},
        }
    }
}

proof fn lemma_stmt_grows(c: Code, scope: Scope, fns: Seq<Seq<char>>, s: StmtModel)
    requires
        good(c, scope, fns.len()),
    ensures
        compile_stmt(c, scope, fns, s) matches Ok(c2) ==> grows_well(c, c2, scope, fns.len()),
    decreases s, 1nat,
{
    let nf = fns.len();
    match s {
        StmtModel::Let(n, _, init) => {
            lemma_expr_grows(c, scope, fns, init);
            match compile_expr(c, scope, fns, init) {
                Ok(c1) => {
                    lemma_slot_grows(c1, n, scope, nf);
                    let (i, c2) = slot(c1, n);
                    lemma_grows_trans(c, c1, c2, scope, nf);
                    match scope {
                        Scope::Global => {
                            lemma_emit_grows(c2, OpCode::StoreGlobal(i as usize), scope, nf);
                            lemma_grows_trans(c, c2, emit(c2, OpCode::StoreGlobal(i as usize)), scope, nf);
                        },
                        Scope::Local => {
                            lemma_emit_grows(c2, OpCode::StoreLocal(i as usize), scope, nf);
                            lemma_grows_trans(c, c2, emit(c2, OpCode::StoreLocal(i as usize)), scope, nf);
                        },
                    }
                },
                Err(_) => {},
            }
        },
        StmtModel::Expression(e) => {
            lemma_expr_grows(c, scope, fns, e);
            match compile_expr(c, scope, fns, e) {
                Ok(c1) => {
                    lemma_emit_grows(c1, OpCode::Pop, scope, nf);
                    lemma_grows_trans(c, c1, emit(c1, OpCode::Pop), scope, nf);
                },
                Err(_) => {},
            }
        },
        StmtModel::Print(e) => {
            lemma_expr_grows(c, scope, fns, e);
            match compile_expr(c, scope, fns, e) {
                Ok(c1) => {
                    lemma_emit_grows(c1, OpCode::Print, scope, nf);
                    lemma_grows_trans(c, c1, emit(c1, OpCode::Print), scope, nf);
                },
                Err(_) => {},
            }
        },
        StmtModel::Return(v) => {
            if scope == Scope::Local {
                match v {
                    Some(e) => {
                        lemma_expr_grows(c, scope, fns, e);
                        match compile_expr(c, scope, fns, e) {
                            Ok(c1) => {
                                lemma_emit_grows(c1, OpCode::Return, scope, nf);
                                lemma_grows_trans(c, c1, emit(c1, OpCode::Return), scope, nf);
                            },
                            Err(_) => {},
                        }
                    },
                    None => {
                        let c1 = load_constant(c, ConstantModel::Void);
                        lemma_load_constant_grows(c, ConstantModel::Void, scope, nf);
                        lemma_emit_grows(c1, OpCode::Return, scope, nf);
                        lemma_grows_trans(c, c1, emit(c1, OpCode::Return), scope, nf);
                    },
                }
            }
        },
        StmtModel::Block(ss) => {
            lemma_stmts_grows(c, scope, fns, ss);
        },
        StmtModel::If(cond, t, e) => {
            lemma_expr_grows(c, scope, fns, cond);
            match compile_expr(c, scope, fns, cond) {
                Ok(c1) => lemma_if_grows(c, scope, fns, c1, s),
                Err(_) => {},
            }
        },
        StmtModel::Function(..) => {},
    }
}

proof fn lemma_stmts_grows(c: Code, scope: Scope, fns: Seq<Seq<char>>, ss: Seq<StmtModel>)
    requires
        good(c, scope, fns.len()),
    ensures
        compile_stmts(c, scope, fns, ss) matches Ok(c2) ==> grows_well(c, c2, scope, fns.len()),
    decreases ss, 1nat,
{
    if ss.len() == 0 {
        lemma_grows_refl(c, scope, fns.len());
    } else {
        lemma_stmt_grows(c, scope, fns, ss[0]);
        match compile_stmt(c, scope, fns, ss[0]) {
            Ok(c1) => {
                lemma_stmts_grows(c1, scope, fns, ss.subrange(1, ss.len() as int));
                match compile_stmts(c1, scope, fns, ss.subrange(1, ss.len() as int)) {
                    Ok(c2) => lemma_grows_trans(c, c1, c2, scope, fns.len()),
                    Err(_) => {},
                }
            },
            Err(_) => {},
        }
    }
}

} // verus!

verus! {

/// A compiled function ends with `return`, its operands are in range, its
/// jumps land inside its code, and its locals are named once each.
pub open spec fn function_ok(f: FunctionModel, nfns: nat) -> bool {
    &&& f.code.len() > 0
    &&& f.code.last() == OpCode::Return
    &&& forall|k: int|
        0 <= k < f.code.len() ==> #[trigger] operands_ok(
            f.code[k],
            Scope::Local,
            f.constants.len(),
            f.local_names.len(),
            nfns,
        )
    &&& forall|k: int| 0 <= k < f.code.len() ==> #[trigger] jump_ok(f.code[k], (f.code.len() - 1) as nat)
    &&& distinct(f.local_names)
}

/// A chunk is well formed: the top-level code ends with `Halt` and has no
/// other; every constant, global name and function it refers to exists;
/// every jump lands inside the code it belongs to; global names are
/// distinct; and every function is well formed.
pub open spec fn chunk_well_formed(ch: ChunkModel) -> bool {
    &&& ch.code.len() > 0
    &&& ch.code.last() == OpCode::Halt
    &&& forall|k: int|
        0 <= k < ch.code.len() - 1 ==> #[trigger] operands_ok(
            ch.code[k],
            Scope::Global,
            ch.constants.len(),
            ch.names.len(),
            ch.functions.len(),
        )
    &&& forall|k: int| 0 <= k < ch.code.len() ==> #[trigger] jump_ok(ch.code[k], (ch.code.len() - 1) as nat)
    &&& distinct(ch.names)
    &&& forall|i: int| 0 <= i < ch.functions.len() ==> #[trigger] function_ok(ch.functions[i], ch.functions.len())
}

/// The names of the function declarations among the statements, in order.
pub open spec fn function_names(ss: Seq<StmtModel>) -> Seq<Seq<char>>
    decreases ss.len(),
{
    if ss.len() == 0 {
        Seq::empty()
    } else {
        let rest = function_names(ss.subrange(1, ss.len() as int));
        match ss[0] {
            StmtModel::Function(name, _, _) => seq![name] + rest,
            _ => rest,
        }
    }
}

/// The parameter counts of the function declarations among the statements,
/// in order.
pub open spec fn function_arities(ss: Seq<StmtModel>) -> Seq<nat>
    decreases ss.len(),
{
    if ss.len() == 0 {
        Seq::empty()
    } else {
        let rest = function_arities(ss.subrange(1, ss.len() as int));
        match ss[0] {
            StmtModel::Function(_, params, _) => seq![params.len()] + rest,
            _ => rest,
        }
    }
}

/// A compiled function ends by returning void: its last constant is `Void`,
/// and its last two instructions load that constant and return it.
pub open spec fn ends_with_void_return(f: FunctionModel) -> bool {
    &&& f.code.len() >= 2
    &&& f.constants.len() >= 1
    &&& f.constants.last() == ConstantModel::Void
    &&& f.code[f.code.len() - 2] == OpCode::Constant((f.constants.len() - 1) as usize)
    &&& f.code.last() == OpCode::Return
}

proof fn lemma_arities_len(ss: Seq<StmtModel>)
    ensures
        function_arities(ss).len() == function_names(ss).len(),
    decreases ss.len(),
{
    if ss.len() > 0 {
        lemma_arities_len(ss.subrange(1, ss.len() as int));
    }
}

#[verifier::spinoff_prover]
proof fn lemma_declare_functions_named(
    fns: Seq<Seq<char>>,
    fs: Seq<FunctionModel>,
    ar: Seq<nat>,
    ss: Seq<StmtModel>,
)
    requires
        fs.len() == fns.len(),
        ar.len() == fns.len(),
        forall|k: int| 0 <= k < fs.len() ==> #[trigger] fs[k].name == fns[k] && fs[k].arity == ar[k],
    ensures
        declare_functions(fns, fs, ss) matches Ok((fns2, fs2)) ==> {
            &&& fns2 == fns + function_names(ss)
            &&& fs2.len() == fns2.len()
            &&& forall|k: int| 0 <= k < fs2.len() ==> #[trigger] fs2[k].name == fns2[k] && fs2[k].arity == (ar
                + function_arities(ss))[k]
        },
    decreases ss.len(),
{
    let rest = ss.subrange(1, ss.len() as int);
    if ss.len() == 0 {
        assert(fns + Seq::<Seq<char>>::empty() =~= fns);
        assert(ar + Seq::<nat>::empty() =~= ar);
    } else {
        match ss[0] {
            StmtModel::Function(name, params, _) => {
                if first_index(fns, name) is None {
                    let f0 = FunctionModel {
                        name,
                        arity: params.len(),
                        local_names: Seq::empty(),
                        constants: Seq::empty(),
                        code: Seq::empty(),
                    };
                    let fs1 = fs.push(f0);
                    let fns1 = fns.push(name);
                    let ar1 = ar.push(params.len());
                    assert forall|k: int| 0 <= k < fs1.len() implies #[trigger] fs1[k].name == fns1[k] && fs1[k].arity
                        == ar1[k] by {
                        if k < fs.len() {
                            assert(fs1[k] == fs[k]);
                        }
                    }
                    lemma_declare_functions_named(fns1, fs1, ar1, rest);
                    assert(fns1 + function_names(rest) =~= fns + (seq![name] + function_names(rest)));
                    assert(ar1 + function_arities(rest) =~= ar + (seq![params.len()] + function_arities(rest)));
                }
            },
            _ => {
                lemma_declare_functions_named(fns, fs, ar, rest);
            },
        }
    }
}

proof fn lemma_items_named(c: Code, fs: Seq<FunctionModel>, fns: Seq<Seq<char>>, ar: Seq<nat>, ss: Seq<StmtModel>, m: nat)
    requires
        distinct(fns),
        fs.len() == fns.len(),
        ar.len() == fns.len(),
        m <= fns.len(),
        fns.subrange(m as int, fns.len() as int) == function_names(ss),
        ar.subrange(m as int, fns.len() as int) == function_arities(ss),
        forall|k: int| 0 <= k < fs.len() ==> #[trigger] fs[k].name == fns[k] && fs[k].arity == ar[k],
        forall|k: int| 0 <= k < m ==> ends_with_void_return(#[trigger] fs[k]),
    ensures
        compile_items(c, fs, fns, ss) matches Ok((c2, fs2)) ==> {
            &&& fs2.len() == fns.len()
            &&& forall|k: int| 0 <= k < fs2.len() ==> #[trigger] fs2[k].name == fns[k] && fs2[k].arity == ar[k]
            &&& forall|k: int| 0 <= k < fs2.len() ==> ends_with_void_return(#[trigger] fs2[k])
        },
    decreases ss.len(),
{
    let nf = fns.len();
    let rest = ss.subrange(1, ss.len() as int);
    if ss.len() == 0 {
        assert(fns.subrange(m as int, nf as int).len() == 0);
    } else {
        match ss[0] {
            StmtModel::Function(name, params, body) => {
                assert(function_names(ss) == seq![name] + function_names(rest));
                assert(function_arities(ss) == seq![params.len()] + function_arities(rest));
                assert(m < nf);
                assert(fns.subrange(m as int, nf as int)[0] == name);
                assert(fns[m as int] == name);
                assert(ar.subrange(m as int, nf as int)[0] == params.len());
                assert(ar[m as int] == params.len());
                lemma_first_index_found(fns, name, m as int);
                match compile_function_body(fns, name, params, body) {
                    Ok(f) => {
                        let fs1 = fs.update(m as int, f);
                        assert(fns.subrange((m + 1) as int, nf as int) =~= fns.subrange(m as int, nf as int).subrange(1, (nf - m) as int));
                        assert(ar.subrange((m + 1) as int, nf as int) =~= ar.subrange(m as int, nf as int).subrange(1, (nf - m) as int));
                        assert(function_names(ss).subrange(1, function_names(ss).len() as int) =~= function_names(rest));
                        assert(function_arities(ss).subrange(1, function_arities(ss).len() as int) =~= function_arities(rest));
                        assert(ends_with_void_return(f));
                        assert forall|k: int| 0 <= k < fs1.len() implies #[trigger] fs1[k].name == fns[k] && fs1[k].arity == ar[k] by {
                            if k != m {
                                assert(fs1[k] == fs[k]);
                            }
                        }
                        assert forall|k: int| 0 <= k < m + 1 implies ends_with_void_return(#[trigger] fs1[k]) by {
                            if k < m {
                                assert(fs1[k] == fs[k]);
                            }
                        }
                        lemma_items_named(c, fs1, fns, ar, rest, m + 1);
                    },
                    Err(_) => {},
                }
            },
            _ => {
                match compile_stmt(c, Scope::Global, fns, ss[0]) {
                    Ok(c1) => {
                        lemma_items_named(c1, fs, fns, ar, rest, m);
                    },
                    Err(_) => {},
                }
            },
        }
    }
}

/// The functions of a compiled chunk are the program's top-level function
/// declarations, in order, with their names and parameter counts; each one
/// ends by loading a `Void` constant and returning it. The top-level code ends
/// with `Halt` and has no other.
pub proof fn lemma_compiled_functions(program: Seq<StmtModel>)
    ensures
        compile_program(program) matches Ok(ch) ==> {
            &&& ch.code.len() >= 1 && ch.code.last() == OpCode::Halt
            &&& forall|k: int| 0 <= k < ch.code.len() - 1 ==> #[trigger] ch.code[k] != OpCode::Halt
            &&& ch.functions.len() == function_names(program).len()
            &&& forall|i: int| 0 <= i < ch.functions.len() ==> {
                &&& (#[trigger] ch.functions[i]).name == function_names(program)[i]
                &&& ch.functions[i].arity == function_arities(program)[i]
                &&& ends_with_void_return(ch.functions[i])
            }
        },
{
    let e: Seq<Seq<char>> = Seq::empty();
    let ef: Seq<FunctionModel> = Seq::empty();
    let ea: Seq<nat> = Seq::empty();
    lemma_compiled_chunk_well_formed(program);
    if let Ok(ch) = compile_program(program) {
        assert forall|k: int| 0 <= k < ch.code.len() - 1 implies #[trigger] ch.code[k] != OpCode::Halt by {
            assert(operands_ok(ch.code[k], Scope::Global, ch.constants.len(), ch.names.len(), ch.functions.len()));
        }
    }
    lemma_declare_functions(e, ef, program);
    lemma_declare_functions_named(e, ef, ea, program);
    match declare_functions(e, ef, program) {
        Ok((fns, fs)) => {
            assert(fns =~= function_names(program));
            assert(ea + function_arities(program) =~= function_arities(program));
            let ar = function_arities(program);
            lemma_arities_len(program);
            assert(fns.subrange(0, fns.len() as int) =~= fns);
            assert(ar.subrange(0, fns.len() as int) =~= ar);
            lemma_items_named(empty_code(), fs, fns, ar, program, 0);
        },
        Err(_) => {},
    }
}

proof fn lemma_declare_functions(fns: Seq<Seq<char>>, fs: Seq<FunctionModel>, ss: Seq<StmtModel>)
    requires
        distinct(fns),
        fs.len() == fns.len(),
    ensures
        declare_functions(fns, fs, ss) matches Ok((fns2, fs2)) ==> {
            &&& fns2 == fns + function_names(ss)
            &&& distinct(fns2)
            &&& fs2.len() == fns2.len()
        },
    decreases ss.len(),
{
    if ss.len() == 0 {
        assert(fns + Seq::<Seq<char>>::empty() =~= fns);
    } else {
        let rest = ss.subrange(1, ss.len() as int);
        match ss[0] {
            StmtModel::Function(name, params, _) => {
                if first_index(fns, name) is None {
                    let fns1 = fns.push(name);
                    assert forall|i: int, j: int| 0 <= i < j < fns1.len() implies fns1[i] != fns1[j] by {
                        if j == fns.len() && fns1[i] == name {
                            lemma_first_index_present(fns, name, i);
                        }
                    }
                    let f0 = FunctionModel {
                        name,
                        arity: params.len(),
                        local_names: Seq::empty(),
                        constants: Seq::empty(),
                        code: Seq::empty(),
                    };
                    lemma_declare_functions(fns1, fs.push(f0), rest);
                    assert(fns1 + function_names(rest) =~= fns + (seq![name] + function_names(rest)));
                }
            },
            _ => {
                lemma_declare_functions(fns, fs, rest);
            },
        }
    }
}

proof fn lemma_declare_locals_good(c: Code, params: Seq<Seq<char>>, nfns: nat)
    requires
        good(c, Scope::Local, nfns),
    ensures
        good(declare_locals(c, params), Scope::Local, nfns),
        declare_locals(c, params).code == c.code,
    decreases params.len(),
{
    if params.len() > 0 {
        lemma_slot_grows(c, params[0], Scope::Local, nfns);
        lemma_declare_locals_good(slot(c, params[0]).1, params.subrange(1, params.len() as int), nfns);
    }
}

proof fn lemma_function_body_ok(fns: Seq<Seq<char>>, name: Seq<char>, params: Seq<Seq<char>>, body: Seq<StmtModel>)
    ensures
        compile_function_body(fns, name, params, body) matches Ok(f) ==> function_ok(f, fns.len()),
{
    let nf = fns.len();
    let e = empty_code();
    assert(good(e, Scope::Local, nf));
    lemma_declare_locals_good(e, params, nf);
    let c0 = declare_locals(e, params);
    lemma_stmts_grows(c0, Scope::Local, fns, body);
    match compile_stmts(c0, Scope::Local, fns, body) {
        Ok(c) => {
            let c1 = load_constant(c, ConstantModel::Void);
            lemma_load_constant_grows(c, ConstantModel::Void, Scope::Local, nf);
            lemma_emit_grows(c1, OpCode::Return, Scope::Local, nf);
            let c2 = emit(c1, OpCode::Return);
            lemma_extends_trans(c, c1, c2);
            assert forall|k: int| 0 <= k < c2.code.len() implies #[trigger] jump_ok(c2.code[k], (c2.code.len() - 1) as nat) by {
                if k < c.code.len() {
                    lemma_extends_index(c, c2, k);
                    assert(jump_ok(c.code[k], c.code.len()));
                }
            }
        },
        Err(_) => {},
    }
}

proof fn lemma_items_ok(c: Code, fs: Seq<FunctionModel>, fns: Seq<Seq<char>>, ss: Seq<StmtModel>, m: nat)
    requires
        good(c, Scope::Global, fns.len()),
        jumps_within(c.code, 0, c.code.len()),
        distinct(fns),
        fs.len() == fns.len(),
        m <= fns.len(),
        fns.subrange(m as int, fns.len() as int) == function_names(ss),
        forall|k: int| 0 <= k < m ==> #[trigger] function_ok(fs[k], fns.len()),
    ensures
        compile_items(c, fs, fns, ss) matches Ok((c2, fs2)) ==> {
            &&& good(c2, Scope::Global, fns.len())
            &&& jumps_within(c2.code, 0, c2.code.len())
            &&& fs2.len() == fns.len()
            &&& forall|k: int| 0 <= k < fns.len() ==> #[trigger] function_ok(fs2[k], fns.len())
        },
    decreases ss.len(),
{
    let nf = fns.len();
    if ss.len() == 0 {
        assert(fns.subrange(m as int, nf as int).len() == 0);
    } else {
        let rest = ss.subrange(1, ss.len() as int);
        match ss[0] {
            StmtModel::Function(name, params, body) => {
                assert(function_names(ss) == seq![name] + function_names(rest));
                assert(function_names(ss).len() >= 1);
                assert(m < nf);
                assert(fns.subrange(m as int, nf as int)[0] == name);
                assert(fns[m as int] == name);
                lemma_first_index_found(fns, name, m as int);
                lemma_function_body_ok(fns, name, params, body);
                match compile_function_body(fns, name, params, body) {
                    Ok(f) => {
                        let fs1 = fs.update(m as int, f);
                        assert(fns.subrange((m + 1) as int, nf as int) =~= fns.subrange(m as int, nf as int).subrange(1, (nf - m) as int));
                        assert(function_names(ss).subrange(1, function_names(ss).len() as int) =~= function_names(rest));
                        lemma_items_ok(c, fs1, fns, rest, m + 1);
                    },
                    Err(_) => {},
                }
            },
            _ => {
                lemma_stmt_grows(c, Scope::Global, fns, ss[0]);
                match compile_stmt(c, Scope::Global, fns, ss[0]) {
                    Ok(c1) => {
                        assert forall|k: int| 0 <= k < c1.code.len() implies #[trigger] jump_ok(c1.code[k], c1.code.len()) by {
                            if k < c.code.len() {
                                lemma_extends_index(c, c1, k);
                                assert(jump_ok(c.code[k], c.code.len()));
                            }
                        }
                        lemma_items_ok(c1, fs, fns, rest, m);
                    },
                    Err(_) => {},
                }
            },
        }
    }
}

/// Every chunk the compiler produces is well formed (see `chunk_well_formed`).
pub proof fn lemma_compiled_chunk_well_formed(program: Seq<StmtModel>)
    ensures
        compile_program(program) matches Ok(ch) ==> chunk_well_formed(ch),
{
    let e: Seq<Seq<char>> = Seq::empty();
    let ef: Seq<FunctionModel> = Seq::empty();
    lemma_declare_functions(e, ef, program);
    match declare_functions(e, ef, program) {
        Ok((fns, fs)) => {
            assert(fns =~= function_names(program));
            assert(fns.subrange(0, fns.len() as int) =~= fns);
            assert(good(empty_code(), Scope::Global, fns.len()));
            lemma_items_ok(empty_code(), fs, fns, program, 0);
            match compile_items(empty_code(), fs, fns, program) {
                Ok((c, fs1)) => {
                    let code = c.code.push(OpCode::Halt);
                    assert forall|k: int| 0 <= k < code.len() - 1 implies #[trigger] operands_ok(
                        code[k],
                        Scope::Global,
                        c.constants.len(),
                        c.slots.len(),
                        fs1.len(),
                    ) by {
                        assert(operands_ok(c.code[k], Scope::Global, c.constants.len(), c.slots.len(), fns.len()));
                    }
                    assert forall|k: int| 0 <= k < code.len() implies #[trigger] jump_ok(code[k], (code.len() - 1) as nat) by {
                        if k < c.code.len() {
                            assert(jump_ok(c.code[k], c.code.len()));
                        }
                    }
                },
                Err(_) => {},
            }
        },
        Err(_) => {},
    }
}

/// Declaring distinct parameters, none of them a slot yet, adds one slot each.
proof fn lemma_declare_locals_len(c: Code, params: Seq<Seq<char>>)
    requires
        forall|a: int, b: int| 0 <= a < b < params.len() ==> params[a] != params[b],
        forall|a: int, j: int| 0 <= a < params.len() && 0 <= j < c.slots.len() ==> c.slots[j] != params[a],
    ensures
        declare_locals(c, params).slots.len() == c.slots.len() + params.len(),
    decreases params.len(),
{
    if params.len() > 0 {
        let p = params[0];
        let rest = params.subrange(1, params.len() as int);
        assert forall|j: int| 0 <= j < c.slots.len() implies c.slots[j] != p by {
            assert(c.slots[j] != params[0]);
        }
        lemma_first_index_absent(c.slots, p);
        let c1 = slot(c, p).1;
        assert(c1.slots == c.slots.push(p));
        assert forall|a: int, j: int| 0 <= a < rest.len() && 0 <= j < c1.slots.len() implies c1.slots[j] != rest[a] by {
            assert(rest[a] == params[a + 1]);
            if j < c.slots.len() {
                assert(c1.slots[j] == c.slots[j]);
            }
        }
        lemma_declare_locals_len(c1, rest);
    }
}

/// A function whose parameters are distinct has a local for each of them.
proof fn lemma_function_body_arity(fns: Seq<Seq<char>>, name: Seq<char>, params: Seq<Seq<char>>, body: Seq<StmtModel>)
    requires
        forall|a: int, b: int| 0 <= a < b < params.len() ==> params[a] != params[b],
    ensures
        compile_function_body(fns, name, params, body) matches Ok(f) ==> f.arity <= f.local_names.len(),
{
    let nf = fns.len();
    let e = empty_code();
    assert(good(e, Scope::Local, nf));
    lemma_declare_locals_good(e, params, nf);
    lemma_declare_locals_len(e, params);
    let c0 = declare_locals(e, params);
    lemma_stmts_grows(c0, Scope::Local, fns, body);
}

proof fn lemma_items_runnable(c: Code, fs: Seq<FunctionModel>, fns: Seq<Seq<char>>, ss: Seq<StmtModel>, m: nat)
    requires
        distinct(fns),
        fs.len() == fns.len(),
        m <= fns.len(),
        fns.subrange(m as int, fns.len() as int) == function_names(ss),
        params_distinct(ss),
        forall|k: int| 0 <= k < m ==> #[trigger] fs[k].arity <= fs[k].local_names.len(),
    ensures
        compile_items(c, fs, fns, ss) matches Ok((c2, fs2)) ==> fs2.len() == fns.len() && forall|k: int|
            0 <= k < fns.len() ==> #[trigger] fs2[k].arity <= fs2[k].local_names.len(),
    decreases ss.len(),
{
    let nf = fns.len();
    let rest = ss.subrange(1, ss.len() as int);
    if ss.len() == 0 {
        assert(fns.subrange(m as int, nf as int).len() == 0);
    } else {
        assert(params_distinct(rest)) by {
            assert forall|i: int| 0 <= i < rest.len() implies match #[trigger] rest[i] {
                StmtModel::Function(_, ps, _) => forall|a: int, b: int| 0 <= a < b < ps.len() ==> ps[a] != ps[b],
                _ => true,
            } by {
                assert(rest[i] == ss[i + 1]);
            }
        }
        match ss[0] {
            StmtModel::Function(name, params, body) => {
                assert(function_names(ss) == seq![name] + function_names(rest));
                assert(m < nf);
                assert(fns.subrange(m as int, nf as int)[0] == name);
                assert(fns[m as int] == name);
                lemma_first_index_found(fns, name, m as int);
                assert(match ss[0] {
                    StmtModel::Function(_, ps, _) => forall|a: int, b: int| 0 <= a < b < ps.len() ==> ps[a] != ps[b],
                    _ => true,
                });
                lemma_function_body_arity(fns, name, params, body);
                match compile_function_body(fns, name, params, body) {
                    Ok(f) => {
                        let fs1 = fs.update(m as int, f);
                        assert(fns.subrange((m + 1) as int, nf as int) =~= fns.subrange(m as int, nf as int).subrange(1, (nf - m) as int));
                        assert(function_names(ss).subrange(1, function_names(ss).len() as int) =~= function_names(rest));
                        assert forall|k: int| 0 <= k < m + 1 implies #[trigger] fs1[k].arity <= fs1[k].local_names.len() by {
                            if k < m {
                                assert(fs1[k] == fs[k]);
                            }
                        }
                        lemma_items_runnable(c, fs1, fns, rest, m + 1);
                    },
                    Err(_) => {},
                }
            },
            _ => {
                match compile_stmt(c, Scope::Global, fns, ss[0]) {
                    Ok(c1) => {
                        lemma_items_runnable(c1, fs, fns, rest, m);
                    },
                    Err(_) => {},
                }
            },
        }
    }
}

/// When no top-level function names a parameter twice, every compiled function
/// has at least as many locals as parameters, so the machine can call it.
pub proof fn lemma_compiled_chunk_runnable(program: Seq<StmtModel>)
    requires
        params_distinct(program),
    ensures
        compile_program(program) matches Ok(ch) ==> runnable(ch),
{
    let e: Seq<Seq<char>> = Seq::empty();
    let ef: Seq<FunctionModel> = Seq::empty();
    lemma_declare_functions(e, ef, program);
    match declare_functions(e, ef, program) {
        Ok((fns, fs)) => {
            assert(fns =~= function_names(program));
            assert(fns.subrange(0, fns.len() as int) =~= fns);
            lemma_items_runnable(empty_code(), fs, fns, program, 0);
            match compile_items(empty_code(), fs, fns, program) {
                Ok((c, fs1)) => {
                    assert forall|i: int| 0 <= i < fs1.len() implies #[trigger] fs1[i].arity <= fs1[i].local_names.len() by {
                    }
                },
                Err(_) => {},
            }
        },
        Err(_) => {},
    }
}

// ---------------------------------------------------------------------------
// Stack discipline of top-level statement code.
// ---------------------------------------------------------------------------

/// How many values an instruction leaves on the stack, less the ones it
/// takes; `ar` holds the parameter count of each function.
pub open spec fn op_effect(op: OpCode, ar: Seq<nat>) -> int {
    match op {
        OpCode::Constant(_) | OpCode::LoadGlobal(_) | OpCode::LoadLocal(_) => 1,
        OpCode::Negate | OpCode::Not | OpCode::Jump(_) | OpCode::Halt => 0,
        OpCode::Call(i) => if i < ar.len() {
            1 - ar[i as int]
        } else {
            1
        },
        _ => -1,
    }
}

/// The stack effect of the instructions `a..b`, taken one after the other.
pub open spec fn net(code: Seq<OpCode>, ar: Seq<nat>, a: int, b: int) -> int
    decreases b - a,
{
    if b <= a {
        0
    } else {
        net(code, ar, a, b - 1) + op_effect(code[b - 1], ar)
    }
}

/// Instructions `a..b` run straight through: no jump, return or halt.
pub open spec fn straight(code: Seq<OpCode>, a: int, b: int) -> bool {
    forall|k: int|
        a <= k < b ==> !(#[trigger] code[k] is Jump || code[k] is JumpIfFalse || code[k] is Return
            || code[k] is Halt)
}

/// The instruction at `k`, inside the code `a..b`, is no return or halt, and
/// if it jumps, it jumps forward to at most `b`, to a place where the stack
/// holds as much as right after the jump falls through.
pub open spec fn jump_fits(code: Seq<OpCode>, ar: Seq<nat>, a: int, b: int, k: int) -> bool {
    match code[k] {
        OpCode::Jump(t) => k < t <= b && net(code, ar, a, t as int) == net(code, ar, a, k),
        OpCode::JumpIfFalse(t) => k < t <= b && net(code, ar, a, t as int) == net(code, ar, a, k + 1),
        OpCode::Return | OpCode::Halt => false,
        _ => true,
    }
}

/// The code `a..b` of a statement: it leaves the stack as it found it, and
/// every jump in it lands inside it (or at its end) with the stack as high as
/// on the path that falls through; so every path through it leaves the stack
/// as it was.
pub open spec fn balanced(code: Seq<OpCode>, ar: Seq<nat>, a: int, b: int) -> bool {
    &&& net(code, ar, a, b) == 0
    &&& forall|k: int| a <= k < b ==> #[trigger] jump_fits(code, ar, a, b, k)
}

/// Every call to a known function in the expression passes as many
/// arguments as the function has parameters.
pub open spec fn calls_fit_expr(fns: Seq<Seq<char>>, ar: Seq<nat>, e: ExprModel) -> bool
    decreases e,
{
    match e {
        ExprModel::Assign(_, v) => calls_fit_expr(fns, ar, *v),
        ExprModel::Unary(_, x) => calls_fit_expr(fns, ar, *x),
        ExprModel::Binary(l, _, r) => calls_fit_expr(fns, ar, *l) && calls_fit_expr(fns, ar, *r),
        ExprModel::Call(callee, args) => calls_fit_args(fns, ar, args) && match *callee {
            ExprModel::Variable(n) => match first_index(fns, n) {
                Some(fi) => args.len() == ar[fi as int],
                None => true,
            },
            _ => true,
        },
        _ => true,
    }
}

pub open spec fn calls_fit_args(fns: Seq<Seq<char>>, ar: Seq<nat>, es: Seq<ExprModel>) -> bool
    decreases es,
{
    es.len() == 0 || (calls_fit_expr(fns, ar, es[0]) && calls_fit_args(fns, ar, es.subrange(1, es.len() as int)))
}

pub open spec fn calls_fit_stmt(fns: Seq<Seq<char>>, ar: Seq<nat>, s: StmtModel) -> bool
    decreases s,
{
    match s {
        StmtModel::Let(_, _, e) => calls_fit_expr(fns, ar, e),
        StmtModel::Expression(e) => calls_fit_expr(fns, ar, e),
        StmtModel::Print(e) => calls_fit_expr(fns, ar, e),
        StmtModel::Return(v) => match v {
            Some(e) => calls_fit_expr(fns, ar, e),
            None => true,
        },
        StmtModel::Block(ss) => calls_fit_stmts(fns, ar, ss),
        StmtModel::If(c, t, e) => calls_fit_expr(fns, ar, c) && calls_fit_stmt(fns, ar, *t) && match e {
            Some(b) => calls_fit_stmt(fns, ar, *b),
            None => true,
        },
        StmtModel::Function(..) => true,
    }
}

pub open spec fn calls_fit_stmts(fns: Seq<Seq<char>>, ar: Seq<nat>, ss: Seq<StmtModel>) -> bool
    decreases ss,
{
    ss.len() == 0 || (calls_fit_stmt(fns, ar, ss[0]) && calls_fit_stmts(fns, ar, ss.subrange(1, ss.len() as int)))
}

/// `c2`'s code starts with `c`'s.
pub open spec fn code_ext(c: Code, c2: Code) -> bool {
    c.code.len() <= c2.code.len() && c2.code.subrange(0, c.code.len() as int) == c.code
}

proof fn lemma_net_split(code: Seq<OpCode>, ar: Seq<nat>, a: int, b: int, c: int)
    requires
        a <= b <= c,
    ensures
        net(code, ar, a, c) == net(code, ar, a, b) + net(code, ar, b, c),
    decreases c - b,
{
    if c > b {
        lemma_net_split(code, ar, a, b, c - 1);
    }
}

/// The effect of `a..x` depends only on the instructions there.
proof fn lemma_net_same(code1: Seq<OpCode>, code2: Seq<OpCode>, ar: Seq<nat>, a: int, x: int)
    requires
        forall|i: int| a <= i < x ==> op_effect(code1[i], ar) == op_effect(code2[i], ar),
    ensures
        net(code1, ar, a, x) == net(code2, ar, a, x),
    decreases x - a,
{
    if x > a {
        lemma_net_same(code1, code2, ar, a, x - 1);
    }
}

proof fn lemma_ext_trans(a: Code, b: Code, c: Code)
    requires
        code_ext(a, b),
        code_ext(b, c),
    ensures
        code_ext(a, c),
{
    assert(c.code.subrange(0, a.code.len() as int) =~= c.code.subrange(0, b.code.len() as int).subrange(
        0,
        a.code.len() as int,
    ));
}

proof fn lemma_ext_index(a: Code, b: Code, k: int)
    requires
        code_ext(a, b),
        0 <= k < a.code.len(),
    ensures
        b.code[k] == a.code[k],
{
    assert(b.code.subrange(0, a.code.len() as int)[k] == b.code[k]);
}

/// Facts about `c2` that extends `c1`: the effect of any range ending within
/// `c1` is unchanged.
proof fn lemma_ext_net(c1: Code, c2: Code, ar: Seq<nat>, a: int, x: int)
    requires
        code_ext(c1, c2),
        0 <= a,
        x <= c1.code.len(),
    ensures
        net(c2.code, ar, a, x) == net(c1.code, ar, a, x),
{
    assert forall|i: int| a <= i < x implies op_effect(c2.code[i], ar) == op_effect(c1.code[i], ar) by {
        lemma_ext_index(c1, c2, i);
    }
    lemma_net_same(c2.code, c1.code, ar, a, x);
}

proof fn lemma_emit_stack(c: Code, op: OpCode, ar: Seq<nat>, a: int)
    requires
        0 <= a <= c.code.len(),
    ensures
        code_ext(c, emit(c, op)),
        net(emit(c, op).code, ar, a, c.code.len() + 1int) == net(c.code, ar, a, c.code.len() as int) + op_effect(op, ar),
{
    let c2 = emit(c, op);
    assert(c2.code.subrange(0, c.code.len() as int) =~= c.code);
    lemma_ext_net(c, c2, ar, a, c.code.len() as int);
}

/// Straight code whose effect is `d`, appended after `c`, then one more
/// straight instruction: the effect adds up.
proof fn lemma_straight_emit(c: Code, c1: Code, op: OpCode, ar: Seq<nat>)
    requires
        code_ext(c, c1),
        straight(c1.code, c.code.len() as int, c1.code.len() as int),
        !(op is Jump || op is JumpIfFalse || op is Return || op is Halt),
    ensures
        code_ext(c, emit(c1, op)),
        straight(emit(c1, op).code, c.code.len() as int, emit(c1, op).code.len() as int),
        net(emit(c1, op).code, ar, c.code.len() as int, emit(c1, op).code.len() as int) == net(
            c1.code,
            ar,
            c.code.len() as int,
            c1.code.len() as int,
        ) + op_effect(op, ar),
{
    lemma_emit_stack(c1, op, ar, c.code.len() as int);
    lemma_ext_trans(c, c1, emit(c1, op));
    let c2 = emit(c1, op);
    assert forall|k: int| c.code.len() <= k < c2.code.len() implies !(#[trigger] c2.code[k] is Jump
        || c2.code[k] is JumpIfFalse || c2.code[k] is Return || c2.code[k] is Halt) by {
        if k < c1.code.len() {
            lemma_ext_index(c1, c2, k);
        }
    }
}

proof fn lemma_ext_refl(c: Code)
    ensures
        code_ext(c, c),
{
    assert(c.code.subrange(0, c.code.len() as int) =~= c.code);
}

/// Two straight pieces one after the other are straight, and their effects add.
proof fn lemma_straight_concat(c: Code, c1: Code, c2: Code, ar: Seq<nat>)
    requires
        code_ext(c, c1),
        code_ext(c1, c2),
        straight(c1.code, c.code.len() as int, c1.code.len() as int),
        straight(c2.code, c1.code.len() as int, c2.code.len() as int),
    ensures
        code_ext(c, c2),
        straight(c2.code, c.code.len() as int, c2.code.len() as int),
        net(c2.code, ar, c.code.len() as int, c2.code.len() as int) == net(
            c1.code,
            ar,
            c.code.len() as int,
            c1.code.len() as int,
        ) + net(c2.code, ar, c1.code.len() as int, c2.code.len() as int),
{
    lemma_ext_trans(c, c1, c2);
    lemma_net_split(c2.code, ar, c.code.len() as int, c1.code.len() as int, c2.code.len() as int);
    lemma_ext_net(c1, c2, ar, c.code.len() as int, c1.code.len() as int);
    assert forall|k: int| c.code.len() <= k < c2.code.len() implies !(#[trigger] c2.code[k] is Jump
        || c2.code[k] is JumpIfFalse || c2.code[k] is Return || c2.code[k] is Halt) by {
        if k < c1.code.len() {
            lemma_ext_index(c1, c2, k);
        }
    }
}

/// Code that only loads a constant or emits one straight instruction after
/// code that the constants or slots changed but the instructions did not.
proof fn lemma_emit_after_same(c: Code, c0: Code, op: OpCode, ar: Seq<nat>)
    requires
        c0.code == c.code,
        !(op is Jump || op is JumpIfFalse || op is Return || op is Halt),
    ensures
        code_ext(c, emit(c0, op)),
        straight(emit(c0, op).code, c.code.len() as int, emit(c0, op).code.len() as int),
        net(emit(c0, op).code, ar, c.code.len() as int, emit(c0, op).code.len() as int) == op_effect(op, ar),
{
    lemma_ext_refl(c);
    lemma_straight_emit(c, c0, op, ar);
}

/// The code of an expression runs straight through and leaves exactly one
/// value on the stack, when its calls pass as many arguments as the callees
/// have parameters.
proof fn lemma_expr_stack(c: Code, scope: Scope, fns: Seq<Seq<char>>, ar: Seq<nat>, e: ExprModel)
    requires
        ar.len() == fns.len(),
        fns.len() <= usize::MAX,
        calls_fit_expr(fns, ar, e),
    ensures
        compile_expr(c, scope, fns, e) matches Ok(c2) ==> code_ext(c, c2) && straight(
            c2.code,
            c.code.len() as int,
            c2.code.len() as int,
        ) && net(c2.code, ar, c.code.len() as int, c2.code.len() as int) == 1,
    decreases e,
{
    let n0 = c.code.len() as int;
    match e {
        ExprModel::Number(v) => {
            let c0 = Code { constants: c.constants.push(ConstantModel::Number(v)), ..c };
            lemma_emit_after_same(c, c0, OpCode::Constant(c.constants.len() as usize), ar);
        },
        ExprModel::Str(v) => {
            lemma_emit_after_same(c, Code { constants: c.constants.push(ConstantModel::Str(v)), ..c }, OpCode::Constant(c.constants.len() as usize), ar);
        },
        ExprModel::Boolean(b) => {
            lemma_emit_after_same(c, Code { constants: c.constants.push(ConstantModel::Boolean(b)), ..c }, OpCode::Constant(c.constants.len() as usize), ar);
        },
        ExprModel::Variable(n) => {
            match scope {
                Scope::Global => {
                    let (i, c1) = slot(c, n);
                    lemma_emit_after_same(c, c1, OpCode::LoadGlobal(i as usize), ar);
                },
                Scope::Local => {
                    match first_index(c.slots, n) {
                        Some(i) => lemma_emit_after_same(c, c, OpCode::LoadLocal(i as usize), ar),
                        None => {},
                    }
                },
            }
        },
        ExprModel::Assign(n, v) => {
            lemma_expr_stack(c, scope, fns, ar, *v);
            match compile_expr(c, scope, fns, *v) {
                Ok(c1) => {
                    match scope {
                        Scope::Global => {
                            let (i, c2) = slot(c1, n);
                            assert(code_ext(c, c2));
                            lemma_straight_emit(c, c2, OpCode::StoreGlobal(i as usize), ar);
                            let c3 = emit(c2, OpCode::StoreGlobal(i as usize));
                            lemma_straight_emit(c, c3, OpCode::LoadGlobal(i as usize), ar);
                        },
                        Scope::Local => {
                            match first_index(c1.slots, n) {
                                Some(k) => {
                                    lemma_straight_emit(c, c1, OpCode::StoreLocal(k as usize), ar);
                                    let d = emit(c1, OpCode::StoreLocal(k as usize));
                                    lemma_straight_emit(c, d, OpCode::LoadLocal(k as usize), ar);
                                },
                                None => {},
                            }
                        },
                    }
                },
                Err(_) => {},
            }
        },
        ExprModel::Unary(op, x) => {
            lemma_expr_stack(c, scope, fns, ar, *x);
            match compile_expr(c, scope, fns, *x) {
                Ok(c1) => lemma_straight_emit(c, c1, unary_opcode(op), ar),
                Err(_) => {},
            }
        },
        ExprModel::Binary(l, op, r) => {
            lemma_expr_stack(c, scope, fns, ar, *l);
            match compile_expr(c, scope, fns, *l) {
                Ok(c1) => {
                    lemma_expr_stack(c1, scope, fns, ar, *r);
                    match compile_expr(c1, scope, fns, *r) {
                        Ok(c2) => {
                            lemma_straight_concat(c, c1, c2, ar);
                            lemma_straight_emit(c, c2, binary_opcode(op), ar);
                        },
                        Err(_) => {},
                    }
                },
                Err(_) => {},
            }
        },
        ExprModel::Call(callee, args) => {
            lemma_args_stack(c, scope, fns, ar, args);
            match compile_args(c, scope, fns, args) {
                Ok(c1) => {
                    match *callee {
                        ExprModel::Variable(n) => {
                            lemma_first_index_bound(fns, n);
                            match first_index(fns, n) {
                                Some(fi) => {
                                    lemma_straight_emit(c, c1, OpCode::Call(fi as usize), ar);
                                },
                                None => {},
                            }
                        },
                        _ => {},
                    }
                },
                Err(_) => {},
            }
        },
    }
}

proof fn lemma_args_stack(c: Code, scope: Scope, fns: Seq<Seq<char>>, ar: Seq<nat>, es: Seq<ExprModel>)
    requires
        ar.len() == fns.len(),
        fns.len() <= usize::MAX,
        calls_fit_args(fns, ar, es),
    ensures
        compile_args(c, scope, fns, es) matches Ok(c2) ==> code_ext(c, c2) && straight(
            c2.code,
            c.code.len() as int,
            c2.code.len() as int,
        ) && net(c2.code, ar, c.code.len() as int, c2.code.len() as int) == es.len(),
    decreases es,
{
    if es.len() == 0 {
        lemma_ext_refl(c);
    } else {
        lemma_expr_stack(c, scope, fns, ar, es[0]);
        match compile_expr(c, scope, fns, es[0]) {
            Ok(c1) => {
                let rest = es.subrange(1, es.len() as int);
                lemma_args_stack(c1, scope, fns, ar, rest);
                match compile_args(c1, scope, fns, rest) {
                    Ok(c2) => lemma_straight_concat(c, c1, c2, ar),
                    Err(_) => {},
                }
            },
            Err(_) => {},
        }
    }
}

proof fn lemma_jump_widen(code: Seq<OpCode>, ar: Seq<nat>, a: int, a2: int, b2: int, b: int, k: int)
    requires
        a <= a2 <= k < b2 <= b,
        jump_fits(code, ar, a2, b2, k),
    ensures
        jump_fits(code, ar, a, b, k),
{
    lemma_net_split(code, ar, a, a2, k);
    lemma_net_split(code, ar, a, a2, k + 1);
    match code[k] {
        OpCode::Jump(t) => lemma_net_split(code, ar, a, a2, t as int),
        OpCode::JumpIfFalse(t) => lemma_net_split(code, ar, a, a2, t as int),
        _ => {},
    }
}

proof fn lemma_jump_same(code1: Seq<OpCode>, code2: Seq<OpCode>, ar: Seq<nat>, a: int, b: int, k: int)
    requires
        a <= k < b,
        forall|i: int| a <= i < b ==> code1[i] == code2[i],
        jump_fits(code1, ar, a, b, k),
    ensures
        jump_fits(code2, ar, a, b, k),
{
    lemma_net_same(code1, code2, ar, a, k);
    lemma_net_same(code1, code2, ar, a, k + 1);
    match code1[k] {
        OpCode::Jump(t) => lemma_net_same(code1, code2, ar, a, t as int),
        OpCode::JumpIfFalse(t) => lemma_net_same(code1, code2, ar, a, t as int),
        _ => {},
    }
}

proof fn lemma_straight_balanced(code: Seq<OpCode>, ar: Seq<nat>, a: int, b: int)
    requires
        straight(code, a, b),
        net(code, ar, a, b) == 0,
    ensures
        balanced(code, ar, a, b),
{
    assert forall|k: int| a <= k < b implies #[trigger] jump_fits(code, ar, a, b, k) by {
        assert(!(code[k] is Jump || code[k] is JumpIfFalse || code[k] is Return || code[k] is Halt));
    }
}

proof fn lemma_balanced_concat(c: Code, c1: Code, c2: Code, ar: Seq<nat>)
    requires
        code_ext(c, c1),
        code_ext(c1, c2),
        balanced(c1.code, ar, c.code.len() as int, c1.code.len() as int),
        balanced(c2.code, ar, c1.code.len() as int, c2.code.len() as int),
    ensures
        code_ext(c, c2),
        balanced(c2.code, ar, c.code.len() as int, c2.code.len() as int),
{
    let n0 = c.code.len() as int;
    let n1 = c1.code.len() as int;
    let n2 = c2.code.len() as int;
    lemma_ext_trans(c, c1, c2);
    lemma_net_split(c2.code, ar, n0, n1, n2);
    lemma_ext_net(c1, c2, ar, n0, n1);
    assert forall|k: int| n0 <= k < n2 implies #[trigger] jump_fits(c2.code, ar, n0, n2, k) by {
        if k < n1 {
            assert(jump_fits(c1.code, ar, n0, n1, k));
            assert forall|i: int| n0 <= i < n1 implies c1.code[i] == c2.code[i] by {
                lemma_ext_index(c1, c2, i);
            }
            lemma_jump_same(c1.code, c2.code, ar, n0, n1, k);
            lemma_jump_widen(c2.code, ar, n0, n0, n1, n2, k);
        } else {
            assert(jump_fits(c2.code, ar, n1, n2, k));
            lemma_jump_widen(c2.code, ar, n0, n1, n2, n2, k);
        }
    }
}

proof fn lemma_stmts_stack(c: Code, fns: Seq<Seq<char>>, ar: Seq<nat>, ss: Seq<StmtModel>)
    requires
        ar.len() == fns.len(),
        fns.len() <= usize::MAX,
        calls_fit_stmts(fns, ar, ss),
    ensures
        compile_stmts(c, Scope::Global, fns, ss) matches Ok(c2) ==> code_ext(c, c2) && (c2.code.len()
            <= usize::MAX ==> balanced(c2.code, ar, c.code.len() as int, c2.code.len() as int)),
    decreases ss, 1nat,
{
    if ss.len() == 0 {
        lemma_ext_refl(c);
    } else {
        lemma_stmt_stack(c, fns, ar, ss[0]);
        match compile_stmt(c, Scope::Global, fns, ss[0]) {
            Ok(c1) => {
                let rest = ss.subrange(1, ss.len() as int);
                lemma_stmts_stack(c1, fns, ar, rest);
                match compile_stmts(c1, Scope::Global, fns, rest) {
                    Ok(c2) => {
                        if c2.code.len() <= usize::MAX {
                            lemma_balanced_concat(c, c1, c2, ar);
                        } else {
                            lemma_ext_trans(c, c1, c2);
                        }
                    },
                    Err(_) => {},
                }
            },
            Err(_) => {},
        }
    }
}

proof fn lemma_stmt_stack(c: Code, fns: Seq<Seq<char>>, ar: Seq<nat>, s: StmtModel)
    requires
        ar.len() == fns.len(),
        fns.len() <= usize::MAX,
        calls_fit_stmt(fns, ar, s),
    ensures
        compile_stmt(c, Scope::Global, fns, s) matches Ok(c2) ==> code_ext(c, c2) && (c2.code.len()
            <= usize::MAX ==> balanced(c2.code, ar, c.code.len() as int, c2.code.len() as int)),
    decreases s, 1nat,
{
    let n0 = c.code.len() as int;
    match s {
        StmtModel::Let(n, _, init) => {
            lemma_expr_stack(c, Scope::Global, fns, ar, init);
            match compile_expr(c, Scope::Global, fns, init) {
                Ok(c1) => {
                    let (i, c2) = slot(c1, n);
                    assert(code_ext(c, c2));
                    lemma_straight_emit(c, c2, OpCode::StoreGlobal(i as usize), ar);
                    let c3 = emit(c2, OpCode::StoreGlobal(i as usize));
                    lemma_straight_balanced(c3.code, ar, n0, c3.code.len() as int);
                },
                Err(_) => {},
            }
        },
        StmtModel::Expression(e) => {
            lemma_expr_stack(c, Scope::Global, fns, ar, e);
            match compile_expr(c, Scope::Global, fns, e) {
                Ok(c1) => {
                    lemma_straight_emit(c, c1, OpCode::Pop, ar);
                    let c2 = emit(c1, OpCode::Pop);
                    lemma_straight_balanced(c2.code, ar, n0, c2.code.len() as int);
                },
                Err(_) => {},
            }
        },
        StmtModel::Print(e) => {
            lemma_expr_stack(c, Scope::Global, fns, ar, e);
            match compile_expr(c, Scope::Global, fns, e) {
                Ok(c1) => {
                    lemma_straight_emit(c, c1, OpCode::Print, ar);
                    let c2 = emit(c1, OpCode::Print);
                    lemma_straight_balanced(c2.code, ar, n0, c2.code.len() as int);
                },
                Err(_) => {},
            }
        },
        StmtModel::Block(ss) => {
            lemma_stmts_stack(c, fns, ar, ss);
        },
        StmtModel::If(cond, t, e) => {
            lemma_expr_stack(c, Scope::Global, fns, ar, cond);
            match compile_expr(c, Scope::Global, fns, cond) {
                Ok(c1) => lemma_if_stack(c, fns, ar, c1, s),
                Err(_) => {},
            }
        },
        _ => {},
    }
}

proof fn lemma_if_stack(c: Code, fns: Seq<Seq<char>>, ar: Seq<nat>, c1: Code, s: StmtModel)
    requires
        ar.len() == fns.len(),
        fns.len() <= usize::MAX,
        calls_fit_stmt(fns, ar, s),
        code_ext(c, c1),
        straight(c1.code, c.code.len() as int, c1.code.len() as int),
        net(c1.code, ar, c.code.len() as int, c1.code.len() as int) == 1,
    ensures
        s matches StmtModel::If(_, t, e) ==> ({
            let j1 = c1.code.len();
            match compile_stmt(emit(c1, OpCode::JumpIfFalse(usize::MAX)), Scope::Global, fns, *t) {
                Ok(c2) => match e {
                    Some(b) => {
                        let j2 = c2.code.len();
                        let c3 = Code { code: patch(c2.code.push(OpCode::Jump(usize::MAX)), j1 as int, j2 + 1), ..c2 };
                        match compile_stmt(c3, Scope::Global, fns, *b) {
                            Ok(c4) => {
                                let f = Code { code: patch(c4.code, j2 as int, c4.code.len()), ..c4 };
                                code_ext(c, f) && (f.code.len() <= usize::MAX ==> balanced(
                                    f.code,
                                    ar,
                                    c.code.len() as int,
                                    f.code.len() as int,
                                ))
                            },
                            Err(_) => true,
                        }
                    },
                    None => {
                        let f = Code { code: patch(c2.code, j1 as int, c2.code.len()), ..c2 };
                        code_ext(c, f) && (f.code.len() <= usize::MAX ==> balanced(
                            f.code,
                            ar,
                            c.code.len() as int,
                            f.code.len() as int,
                        ))
                    },
                },
                Err(_) => true,
            }
        }),
    decreases s, 0nat,
{
    match s {
        StmtModel::If(_, t, e) => {
            let n0 = c.code.len() as int;
            let j1 = c1.code.len() as int;
            let c1j = emit(c1, OpCode::JumpIfFalse(usize::MAX));
            lemma_emit_stack(c1, OpCode::JumpIfFalse(usize::MAX), ar, n0);
            lemma_ext_trans(c, c1, c1j);
            lemma_stmt_stack(c1j, fns, ar, *t);
            match compile_stmt(c1j, Scope::Global, fns, *t) {
                Ok(c2) => {
                    let b = c2.code.len() as int;
                    lemma_ext_trans(c, c1j, c2);
                    lemma_ext_index(c1j, c2, j1);
                    lemma_ext_net(c1j, c2, ar, n0, j1 + 1);
                    assert forall|k: int| n0 <= k < j1 implies c2.code[k] == c1.code[k] by {
                        lemma_ext_index(c1j, c2, k);
                        lemma_ext_index(c1, c1j, k);
                    }
                    match e {
                        None => {
                            let f = Code { code: patch(c2.code, j1, b as nat), ..c2 };
                            assert(f.code == c2.code.update(j1, OpCode::JumpIfFalse(b as usize)));
                            assert(f.code.subrange(0, n0) =~= c2.code.subrange(0, n0));
                            assert(code_ext(c, f));
                            if f.code.len() <= usize::MAX {
                                assert forall|i: int| n0 <= i < b implies op_effect(f.code[i], ar) == op_effect(c2.code[i], ar) by {}
                                lemma_net_same(f.code, c2.code, ar, n0, j1 + 1);
                                lemma_net_same(f.code, c2.code, ar, n0, b);
                                lemma_net_split(c2.code, ar, n0, j1 + 1, b);
                                assert forall|k: int| n0 <= k < b implies #[trigger] jump_fits(f.code, ar, n0, b, k) by {
                                    if k < j1 {
                                        assert(f.code[k] == c1.code[k]);
                                        assert(!(c1.code[k] is Jump || c1.code[k] is JumpIfFalse || c1.code[k] is Return
                                            || c1.code[k] is Halt));
                                    } else if k > j1 {
                                        assert(jump_fits(c2.code, ar, j1 + 1, b, k));
                                        assert forall|i: int| j1 + 1 <= i < b implies c2.code[i] == f.code[i] by {}
                                        lemma_jump_same(c2.code, f.code, ar, j1 + 1, b, k);
                                        lemma_jump_widen(f.code, ar, n0, j1 + 1, b, b, k);
                                    }
                                }
                            }
                        },
                        Some(eb) => {
                            let j2 = b;
                            let c2j = c2.code.push(OpCode::Jump(usize::MAX));
                            let c3 = Code { code: patch(c2j, j1, (j2 + 1) as nat), ..c2 };
                            assert(c2j[j1] == OpCode::JumpIfFalse(usize::MAX));
                            assert(c3.code == c2j.update(j1, OpCode::JumpIfFalse((j2 + 1) as usize)));
                            lemma_stmt_stack(c3, fns, ar, *eb);
                            match compile_stmt(c3, Scope::Global, fns, *eb) {
                                Ok(c4) => {
                                    let d = c4.code.len() as int;
                                    lemma_ext_index(c3, c4, j2);
                                    lemma_ext_index(c3, c4, j1);
                                    let f = Code { code: patch(c4.code, j2, d as nat), ..c4 };
                                    assert(f.code == c4.code.update(j2, OpCode::Jump(d as usize)));
                                    assert forall|k: int| 0 <= k < n0 implies f.code[k] == c.code[k] by {
                                        lemma_ext_index(c3, c4, k);
                                        lemma_ext_index(c, c2, k);
                                    }
                                    assert(f.code.subrange(0, n0) =~= c.code);
                                    assert(code_ext(c, f));
                                    if f.code.len() <= usize::MAX {
                                        // The code of `f` against `c2` (up to the `Jump`) and `c4` (after it).
                                        assert forall|i: int| 0 <= i < j2 && i != j1 implies f.code[i] == c2j[i] by {
                                            lemma_ext_index(c3, c4, i);
                                        }
                                        assert forall|i: int| n0 <= i < j2 implies op_effect(f.code[i], ar) == op_effect(c2.code[i], ar) by {
                                            if i != j1 {
                                                lemma_ext_index(c3, c4, i);
                                            }
                                        }
                                        lemma_net_same(f.code, c2.code, ar, n0, j1 + 1);
                                        lemma_net_same(f.code, c2.code, ar, n0, j2);
                                        lemma_net_split(c2.code, ar, n0, j1 + 1, j2);
                                        lemma_net_split(f.code, ar, n0, j2, j2 + 1);
                                        lemma_net_split(f.code, ar, n0, j2 + 1, d);
                                        assert forall|i: int| j2 + 1 <= i < d implies c4.code[i] == f.code[i] by {}
                                        lemma_net_same(c4.code, f.code, ar, j2 + 1, d);
                                        assert forall|k: int| n0 <= k < d implies #[trigger] jump_fits(f.code, ar, n0, d, k) by {
                                            if k < j1 {
                                                lemma_ext_index(c3, c4, k);
                                                assert(c2j[k] == c2.code[k]);
                                                assert(f.code[k] == c1.code[k]);
                                                assert(!(c1.code[k] is Jump || c1.code[k] is JumpIfFalse || c1.code[k]
                                                    is Return || c1.code[k] is Halt));
                                            } else if j1 < k < j2 {
                                                assert(jump_fits(c2.code, ar, j1 + 1, j2, k));
                                                assert forall|i: int| j1 + 1 <= i < j2 implies c2.code[i] == f.code[i] by {
                                                    lemma_ext_index(c3, c4, i);
                                                }
                                                lemma_jump_same(c2.code, f.code, ar, j1 + 1, j2, k);
                                                lemma_jump_widen(f.code, ar, n0, j1 + 1, j2, d, k);
                                            } else if k > j2 {
                                                assert(jump_fits(c4.code, ar, j2 + 1, d, k));
                                                lemma_jump_same(c4.code, f.code, ar, j2 + 1, d, k);
                                                lemma_jump_widen(f.code, ar, n0, j2 + 1, d, d, k);
                                            }
                                        }
                                    }
                                },
                                Err(_) => {},
                            }
                        },
                    }
                },
                Err(_) => {},
            }
        },
        _ => {},
    }
}

/// The code of a top-level statement keeps the stack in order: when every
/// call in it passes as many arguments as the callee has parameters (`ar`
/// holds the parameter counts of the functions `fns`), the code it appends
/// runs with a net stack effect of zero along every path, and each jump in
/// it goes forward to a place inside it or to its end, where the stack is
/// as high as on the path that falls through (`balanced`). The code before
/// it is left as it was.
pub proof fn lemma_statement_code_balanced(c: Code, fns: Seq<Seq<char>>, ar: Seq<nat>, s: StmtModel)
    requires
        ar.len() == fns.len(),
        fns.len() <= usize::MAX,
        calls_fit_stmt(fns, ar, s),
    ensures
        compile_stmt(c, Scope::Global, fns, s) matches Ok(c2) ==> code_ext(c, c2) && (c2.code.len()
            <= usize::MAX ==> balanced(c2.code, ar, c.code.len() as int, c2.code.len() as int)),
{
    lemma_stmt_stack(c, fns, ar, s);
}

/// A binary expression compiles to its operands' code followed by the
/// instruction of the same operator: `+` adds, `>=` compares with
/// `GreaterEqual`, and so on for each of the thirteen operators.
pub proof fn lemma_binary_opcode_is_namesake(
    c: Code,
    scope: Scope,
    fns: Seq<Seq<char>>,
    l: ExprModel,
    op: BinaryOp,
    r: ExprModel,
)
    ensures
        compile_expr(c, scope, fns, ExprModel::Binary(Box::new(l), op, Box::new(r))) matches Ok(c2) ==> {
            let last = c2.code.last();
            &&& c2.code.len() >= 1
            &&& compile_expr(c, scope, fns, l) matches Ok(c1) && compile_expr(c1, scope, fns, r) matches Ok(cr)
                && c2.code == cr.code.push(last)
            &&& op == BinaryOp::Add ==> last == OpCode::Add
            &&& op == BinaryOp::Subtract ==> last == OpCode::Subtract
            &&& op == BinaryOp::Multiply ==> last == OpCode::Multiply
            &&& op == BinaryOp::Divide ==> last == OpCode::Divide
            &&& op == BinaryOp::Modulo ==> last == OpCode::Modulo
            &&& op == BinaryOp::Equal ==> last == OpCode::Equal
            &&& op == BinaryOp::NotEqual ==> last == OpCode::NotEqual
            &&& op == BinaryOp::Less ==> last == OpCode::Less
            &&& op == BinaryOp::LessEqual ==> last == OpCode::LessEqual
            &&& op == BinaryOp::Greater ==> last == OpCode::Greater
            &&& op == BinaryOp::GreaterEqual ==> last == OpCode::GreaterEqual
            &&& op == BinaryOp::And ==> last == OpCode::And
            &&& op == BinaryOp::Or ==> last == OpCode::Or
        },
{
}

/// A unary expression compiles to its operand's code followed by the
/// instruction of the same operator: `-` negates, `!` is `Not`.
pub proof fn lemma_unary_opcode_is_namesake(c: Code, scope: Scope, fns: Seq<Seq<char>>, op: UnaryOp, x: ExprModel)
    ensures
        compile_expr(c, scope, fns, ExprModel::Unary(op, Box::new(x))) matches Ok(c2) ==> {
            let last = c2.code.last();
            &&& c2.code.len() >= 1
            &&& compile_expr(c, scope, fns, x) matches Ok(c1) && c2.code == c1.code.push(last)
            &&& op == UnaryOp::Negate ==> last == OpCode::Negate
            &&& op == UnaryOp::Not ==> last == OpCode::Not
        },
{
}

/// A name that was missing is found where it is appended.
pub proof fn lemma_first_index_push(names: Seq<Seq<char>>, n: Seq<char>)
    requires
        first_index(names, n) is None,
    ensures
        first_index(names.push(n), n) == Some(names.len()),
    decreases names.len(),
{
    if names.len() > 0 {
        let rest = names.subrange(1, names.len() as int);
        assert(names.push(n).subrange(1, names.len() + 1int) =~= rest.push(n));
        lemma_first_index_push(rest, n);
    }
}

/// Appending a name does not move any other name.
pub proof fn lemma_first_index_push_other(names: Seq<Seq<char>>, n: Seq<char>, m: Seq<char>)
    requires
        m != n,
    ensures
        first_index(names.push(n), m) == first_index(names, m),
    decreases names.len(),
{
    if names.len() > 0 {
        let rest = names.subrange(1, names.len() as int);
        assert(names.push(n).subrange(1, names.len() + 1int) =~= rest.push(n));
        lemma_first_index_push_other(rest, n, m);
    } else {
        assert(names.push(n).subrange(1, 1) =~= Seq::<Seq<char>>::empty());
        assert(first_index(Seq::<Seq<char>>::empty(), m) is None);
    }
}

/// Each simple statement compiles to its expression's code followed by the
/// instruction that gives the statement its meaning: `print` prints, an
/// expression statement pops its value, `return` returns, and `let` stores
/// into the global or local slot that holds the variable's name.
pub proof fn lemma_statement_closing_instruction(c: Code, scope: Scope, fns: Seq<Seq<char>>, s: StmtModel)
    ensures
        compile_stmt(c, scope, fns, s) matches Ok(c2) ==> {
            let last = c2.code.last();
            &&& s matches StmtModel::Print(e) ==> compile_expr(c, scope, fns, e) matches Ok(c1) && c2.code
                == c1.code.push(OpCode::Print)
            &&& s matches StmtModel::Expression(e) ==> compile_expr(c, scope, fns, e) matches Ok(c1)
                && c2.code == c1.code.push(OpCode::Pop)
            &&& s matches StmtModel::Return(Some(e)) ==> compile_expr(c, scope, fns, e) matches Ok(c1)
                && c2.code == c1.code.push(OpCode::Return)
            &&& s matches StmtModel::Let(n, _, init) ==> {
                &&& compile_expr(c, scope, fns, init) matches Ok(c1) && c2.code.drop_last() == c1.code
                &&& scope == Scope::Global ==> (first_index(c2.slots, n) matches Some(j) && last
                    == OpCode::StoreGlobal(j as usize))
                &&& scope == Scope::Local ==> (first_index(c2.slots, n) matches Some(j) && last
                    == OpCode::StoreLocal(j as usize))
            }
        },
{
    if let StmtModel::Let(n, _, init) = s {
        if let Ok(c1) = compile_expr(c, scope, fns, init) {
            if first_index(c1.slots, n) is None {
                lemma_first_index_push(c1.slots, n);
            }
            let (i, c2) = slot(c1, n);
            assert(first_index(c2.slots, n) == Some(i));
            assert(emit(c2, OpCode::StoreGlobal(i as usize)).code.drop_last() =~= c1.code);
            assert(emit(c2, OpCode::StoreLocal(i as usize)).code.drop_last() =~= c1.code);
        }
    }
}

/// An `if` compiles to its condition's code, then a conditional jump that a
/// false condition takes past the then-branch: to the end when there is no
/// else-branch, else to the start of the else-branch, just after the jump
/// with which the then-branch leaves over the else-branch to the end.
pub proof fn lemma_if_jumps(
    c: Code,
    scope: Scope,
    fns: Seq<Seq<char>>,
    cond: ExprModel,
    t: Box<StmtModel>,
    e: Option<Box<StmtModel>>,
)
    ensures
        compile_stmt(c, scope, fns, StmtModel::If(cond, t, e)) matches Ok(f) ==> (compile_expr(
            c,
            scope,
            fns,
            cond,
        ) matches Ok(c1) && {
            let j1 = c1.code.len();
            &&& j1 < f.code.len()
            &&& f.code.subrange(0, j1 as int) == c1.code
            &&& compile_stmt(emit(c1, OpCode::JumpIfFalse(usize::MAX)), scope, fns, *t) matches Ok(c2) && {
                let j2 = c2.code.len();
                &&& j1 < j2
                &&& e is None ==> j2 == f.code.len() && f.code[j1 as int] == OpCode::JumpIfFalse(
                    f.code.len() as usize,
                )
                &&& e is Some ==> j2 < f.code.len() && f.code[j1 as int] == OpCode::JumpIfFalse((j2 + 1) as usize)
                    && f.code[j2 as int] == OpCode::Jump(f.code.len() as usize)
            }
        }),
{
    let s = StmtModel::If(cond, t, e);
    if let Ok(c1) = compile_expr(c, scope, fns, cond) {
        let j1 = c1.code.len();
        let ce = emit(c1, OpCode::JumpIfFalse(usize::MAX));
        lemma_stmt_extends(ce, scope, fns, *t);
        if let Ok(c2) = compile_stmt(ce, scope, fns, *t) {
            let j2 = c2.code.len();
            assert(c2.code[j1 as int] == ce.code[j1 as int]);
            match e {
                None => {
                    let f = Code { code: patch(c2.code, j1 as int, c2.code.len()), ..c2 };
                    assert forall|k: int| 0 <= k < j1 implies #[trigger] f.code[k] == c1.code[k] by {
                        assert(c2.code.subrange(0, ce.code.len() as int)[k] == ce.code[k]);
                    }
                    assert(f.code.subrange(0, j1 as int) =~= c1.code);
                },
                Some(b) => {
                    let c3 = Code { code: patch(c2.code.push(OpCode::Jump(usize::MAX)), j1 as int, j2 + 1), ..c2 };
                    assert(c3.code[j1 as int] == OpCode::JumpIfFalse((j2 + 1) as usize));
                    assert(c3.code[j2 as int] == OpCode::Jump(usize::MAX));
                    lemma_stmt_extends(c3, scope, fns, *b);
                    if let Ok(c4) = compile_stmt(c3, scope, fns, *b) {
                        assert(c4.code[j1 as int] == c3.code[j1 as int]);
                        assert(c4.code[j2 as int] == c3.code[j2 as int]);
                        let f = Code { code: patch(c4.code, j2 as int, c4.code.len()), ..c4 };
                        assert forall|k: int| 0 <= k < j1 implies #[trigger] f.code[k] == c1.code[k] by {
                            assert(c4.code.subrange(0, c3.code.len() as int)[k] == c3.code[k]);
                            assert(c2.code.subrange(0, ce.code.len() as int)[k] == ce.code[k]);
                        }
                        assert(f.code.subrange(0, j1 as int) =~= c1.code);
                    }
                },
            }
        }
    }
}

/// A literal compiles to one instruction that loads a new constant holding
/// the literal's value: a number by its digits, a string by its text, a bool
/// by its truth value.
pub proof fn lemma_literal_loads_its_constant(c: Code, scope: Scope, fns: Seq<Seq<char>>, e: ExprModel)
    ensures
        ({
            let k = match e {
                ExprModel::Number(d) => Some(ConstantModel::Number(d)),
                ExprModel::Str(t) => Some(ConstantModel::Str(t)),
                ExprModel::Boolean(b) => Some(ConstantModel::Boolean(b)),
                _ => None,
            };
            k matches Some(kv) ==> compile_expr(c, scope, fns, e) matches Ok(c2) && {
                &&& c2.constants == c.constants.push(kv)
                &&& c2.code == c.code.push(OpCode::Constant(c.constants.len() as usize))
                &&& c2.slots == c.slots
            }
        }),
{
}

} // verus!
