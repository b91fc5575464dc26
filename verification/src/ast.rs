use vstd::prelude::*;

use crate::type_system::Type;

verus! {

#[derive(Clone, Copy, Debug, PartialEq, Eq, Structural)]
pub enum UnaryOp {
    Negate,
    Not,
}

#[derive(Clone, Copy, Debug, PartialEq, Eq, Structural)]
pub enum BinaryOp {
    Add,
    Subtract,
    Multiply,
    Divide,
    Modulo,
    Equal,
    NotEqual,
    Less,
    LessEqual,
    Greater,
    GreaterEqual,
    And,
    Or,
}

/// An expression. A number literal keeps its decimal digits as written.
#[derive(Debug, PartialEq)]
pub enum Expr {
    Number(String),
    String(String),
    Boolean(bool),
    Variable(String),
    Unary { operator: UnaryOp, operand: Box<Expr> },
    Binary { left: Box<Expr>, operator: BinaryOp, right: Box<Expr> },
    Assign { name: String, value: Box<Expr> },
    Call { callee: Box<Expr>, arguments: Vec<Expr> },
}

#[derive(Debug, PartialEq)]
pub enum Stmt {
    Let { name: String, type_annotation: Option<Type>, initializer: Expr },
    Expression(Expr),
    Print(Expr),
    Return(Option<Expr>),
    Block(Vec<Stmt>),
    If { condition: Expr, then_branch: Box<Stmt>, else_branch: Option<Box<Stmt>> },
    Function { name: String, params: Vec<String>, body: Vec<Stmt> },
}

#[derive(Debug, PartialEq)]
pub struct Program {
    pub statements: Vec<Stmt>,
}

/// The mathematical content of an expression.
pub enum ExprModel {
    Number(Seq<char>),
    Str(Seq<char>),
    Boolean(bool),
    Variable(Seq<char>),
    Unary(UnaryOp, Box<ExprModel>),
    Binary(Box<ExprModel>, BinaryOp, Box<ExprModel>),
    Assign(Seq<char>, Box<ExprModel>),
    Call(Box<ExprModel>, Seq<ExprModel>),
}

/// The mathematical content of a statement.
pub enum StmtModel {
    Let(Seq<char>, Option<Type>, ExprModel),
    Expression(ExprModel),
    Print(ExprModel),
    Return(Option<ExprModel>),
    Block(Seq<StmtModel>),
    If(ExprModel, Box<StmtModel>, Option<Box<StmtModel>>),
    Function(Seq<char>, Seq<Seq<char>>, Seq<StmtModel>),
}

pub open spec fn expr_model(e: &Expr) -> ExprModel
    decreases e,
{
    match e {
        Expr::Number(s) => ExprModel::Number(s@),
        Expr::String(s) => ExprModel::Str(s@),
        Expr::Boolean(b) => ExprModel::Boolean(*b),
        Expr::Variable(s) => ExprModel::Variable(s@),
        Expr::Unary { operator, operand } => ExprModel::Unary(*operator, Box::new(expr_model(operand))),
        Expr::Binary { left, operator, right } => ExprModel::Binary(
            Box::new(expr_model(left)),
            *operator,
            Box::new(expr_model(right)),
        ),
        Expr::Assign { name, value } => ExprModel::Assign(name@, Box::new(expr_model(value))),
        Expr::Call { callee, arguments } => ExprModel::Call(
            Box::new(expr_model(callee)),
            exprs_model(arguments@),
        ),
    }
}

pub open spec fn exprs_model(es: Seq<Expr>) -> Seq<ExprModel>
    decreases es,
{
    if es.len() == 0 {
        Seq::empty()
    } else {
        exprs_model(es.subrange(0, es.len() - 1)).push(expr_model(&es[es.len() - 1]))
    }
}

/// No top-level function of the program names a parameter twice.
pub open spec fn params_distinct(program: Seq<StmtModel>) -> bool {
    forall|i: int|
        0 <= i < program.len() ==> match #[trigger] program[i] {
            StmtModel::Function(_, ps, _) => forall|a: int, b: int| 0 <= a < b < ps.len() ==> ps[a] != ps[b],
            _ => true,
        }
}

pub open spec fn names_model(ns: Seq<String>) -> Seq<Seq<char>> {
    ns.map_values(|n: String| n@)
}

pub open spec fn stmt_model(s: &Stmt) -> StmtModel
    decreases s,
{
    match s {
        Stmt::Let { name, type_annotation, initializer } => StmtModel::Let(
            name@,
            *type_annotation,
            expr_model(initializer),
        ),
        Stmt::Expression(e) => StmtModel::Expression(expr_model(e)),
        Stmt::Print(e) => StmtModel::Print(expr_model(e)),
        Stmt::Return(v) => StmtModel::Return(
            match v {
                Some(e) => Some(expr_model(e)),
                None => None,
            },
        ),
        Stmt::Block(ss) => StmtModel::Block(stmts_model(ss@)),
        Stmt::If { condition, then_branch, else_branch } => StmtModel::If(
            expr_model(condition),
            Box::new(stmt_model(then_branch)),
            match else_branch {
                Some(b) => Some(Box::new(stmt_model(b))),
                None => None,
            },
        ),
        Stmt::Function { name, params, body } => StmtModel::Function(
            name@,
            names_model(params@),
            stmts_model(body@),
        ),
    }
}

pub open spec fn stmts_model(ss: Seq<Stmt>) -> Seq<StmtModel>
    decreases ss,
{
    if ss.len() == 0 {
        Seq::empty()
    } else {
        stmts_model(ss.subrange(0, ss.len() - 1)).push(stmt_model(&ss[ss.len() - 1]))
    }
}

impl View for Expr {
    type V = ExprModel;

    open spec fn view(&self) -> ExprModel {
        expr_model(self)
    }
}

impl View for Stmt {
    type V = StmtModel;

    open spec fn view(&self) -> StmtModel {
        stmt_model(self)
    }
}

impl View for Program {
    type V = Seq<StmtModel>;

    open spec fn view(&self) -> Seq<StmtModel> {
        stmts_model(self.statements@)
    }
}

pub proof fn lemma_exprs_model_push(es: Seq<Expr>, e: Expr)
    ensures
        exprs_model(es.push(e)) == exprs_model(es).push(expr_model(&e)),
        exprs_model(es.push(e)).len() == es.len() + 1,
{
    assert(es.push(e).subrange(0, es.len() as int) =~= es);
    lemma_exprs_model_len(es);
}

pub proof fn lemma_exprs_model_len(es: Seq<Expr>)
    ensures
        exprs_model(es).len() == es.len(),
    decreases es.len(),
{
    if es.len() > 0 {
        lemma_exprs_model_len(es.subrange(0, es.len() - 1));
    }
}

pub proof fn lemma_stmts_model_push(ss: Seq<Stmt>, s: Stmt)
    ensures
        stmts_model(ss.push(s)) == stmts_model(ss).push(stmt_model(&s)),
{
    assert(ss.push(s).subrange(0, ss.len() as int) =~= ss);
}

pub proof fn lemma_stmts_model_len(ss: Seq<Stmt>)
    ensures
        stmts_model(ss).len() == ss.len(),
    decreases ss.len(),
{
    if ss.len() > 0 {
        lemma_stmts_model_len(ss.subrange(0, ss.len() - 1));
    }
}

pub proof fn lemma_stmts_model_index(ss: Seq<Stmt>, i: int)
    requires
        0 <= i < ss.len(),
    ensures
        stmts_model(ss)[i] == stmt_model(&ss[i]),
        stmts_model(ss).len() == ss.len(),
    decreases ss.len(),
{
    lemma_stmts_model_len(ss);
    if i < ss.len() - 1 {
        lemma_stmts_model_index(ss.subrange(0, ss.len() - 1), i);
    }
}

pub proof fn lemma_exprs_model_index(es: Seq<Expr>, i: int)
    requires
        0 <= i < es.len(),
    ensures
        exprs_model(es)[i] == expr_model(&es[i]),
        exprs_model(es).len() == es.len(),
    decreases es.len(),
{
    lemma_exprs_model_len(es);
    if i < es.len() - 1 {
        lemma_exprs_model_index(es.subrange(0, es.len() - 1), i);
    }
}

} // verus!
