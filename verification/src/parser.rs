use vstd::prelude::*;

use crate::ast::{
    exprs_model, lemma_exprs_model_push, lemma_stmts_model_push, names_model, stmts_model, BinaryOp,
    Expr, ExprModel, Program, Stmt, StmtModel, UnaryOp,
};
use crate::token::{tokens_view, Token, TokenKind, TokenView};
use crate::type_system::{annotated_type, Type};

verus! {

/// A syntax error, at the line and column of the token where it was found.
#[derive(Debug, PartialEq)]
pub struct ParseError {
    pub message: String,
    pub line: usize,
    pub column: usize,
}

pub struct ParseErrorView {
    pub message: Seq<char>,
    pub line: int,
    pub column: int,
}

impl View for ParseError {
    type V = ParseErrorView;

    open spec fn view(&self) -> ParseErrorView {
        ParseErrorView { message: self.message@, line: self.line as int, column: self.column as int }
    }
}

// ---------------------------------------------------------------------------
// The grammar, as functions from a token position to an outcome and the number
// of tokens consumed.
// ---------------------------------------------------------------------------

/// What parsing a construct gives: its value, a syntax error, or no result at
/// all because parsing would recurse without end.
pub enum Outcome<T> {
    Done(T),
    Failed(ParseErrorView),
    Diverges,
}

/// An outcome together with the number of tokens consumed to reach it.
pub struct Step<T> {
    pub outcome: Outcome<T>,
    pub used: nat,
}

pub open spec fn done<T>(v: T, used: nat) -> Step<T> {
    Step { outcome: Outcome::Done(v), used }
}

pub open spec fn failed<T>(e: ParseErrorView, used: nat) -> Step<T> {
    Step { outcome: Outcome::Failed(e), used }
}

pub open spec fn diverges<T>() -> Step<T> {
    Step { outcome: Outcome::Diverges, used: 0 }
}

/// A step preceded by `n` consumed tokens.
pub open spec fn shift<T>(n: nat, s: Step<T>) -> Step<T> {
    Step { outcome: s.outcome, used: n + s.used }
}

/// The failure (or divergence) of a sub-construct, passed up after `n`
/// further consumed tokens.
pub open spec fn carry<A, B>(n: nat, s: Step<A>) -> Step<B> {
    match s.outcome {
        Outcome::Failed(e) => Step { outcome: Outcome::Failed(e), used: n + s.used },
        _ => Step { outcome: Outcome::Diverges, used: n + s.used },
    }
}

/// The kind of the token at `p`; `Eof` outside the token list.
pub open spec fn kind_at(t: Seq<TokenView>, p: int) -> TokenKind {
    if 0 <= p < t.len() {
        t[p].kind
    } else {
        TokenKind::Eof
    }
}

/// The tokens left from `p` on.
pub open spec fn rem(t: Seq<TokenView>, p: nat) -> nat {
    if p < t.len() {
        (t.len() - p) as nat
    } else {
        0
    }
}

/// An error located at the token at `p`.
pub open spec fn err_at(t: Seq<TokenView>, p: int, message: Seq<char>) -> ParseErrorView {
    if 0 <= p < t.len() {
        ParseErrorView { message, line: t[p].line, column: t[p].column }
    } else {
        ParseErrorView { message, line: 0, column: 0 }
    }
}

/// The token that consuming at `p` yields: the one at `p`, or, at the end of
/// input, where the cursor stays put, the one before it.
pub open spec fn taken_index(t: Seq<TokenView>, p: nat) -> int {
    if kind_at(t, p as int) == TokenKind::Eof {
        p - 1
    } else {
        p as int
    }
}

/// How many tokens consuming at `p` moves over: none at the end of input.
pub open spec fn taken_len(t: Seq<TokenView>, p: nat) -> nat {
    if kind_at(t, p as int) == TokenKind::Eof {
        0
    } else {
        1
    }
}

pub open spec fn literal_expr(t: Seq<TokenView>, i: int) -> Option<ExprModel> {
    let k = kind_at(t, i as int);
    if k == TokenKind::Number {
        Some(ExprModel::Number(t[i].literal))
    } else if k == TokenKind::String {
        Some(ExprModel::Str(t[i].literal))
    } else if k == TokenKind::True {
        Some(ExprModel::Boolean(true))
    } else if k == TokenKind::False {
        Some(ExprModel::Boolean(false))
    } else if k == TokenKind::Identifier {
        Some(ExprModel::Variable(t[i].literal))
    } else {
        None
    }
}

/// The binary operator that the token kind stands for at a precedence level:
/// 6 `||`, 5 `&&`, 4 equality, 3 comparison, 2 `+ -`, 1 `* / %`.
pub open spec fn binary_operator(level: nat, k: TokenKind) -> Option<BinaryOp> {
    if level == 6 {
        if k == TokenKind::OrOr { Some(BinaryOp::Or) } else { None }
    } else if level == 5 {
        if k == TokenKind::AndAnd { Some(BinaryOp::And) } else { None }
    } else if level == 4 {
        if k == TokenKind::EqualEqual {
            Some(BinaryOp::Equal)
        } else if k == TokenKind::BangEqual {
            Some(BinaryOp::NotEqual)
        } else {
            None
        }
    } else if level == 3 {
        if k == TokenKind::Less {
            Some(BinaryOp::Less)
        } else if k == TokenKind::LessEqual {
            Some(BinaryOp::LessEqual)
        } else if k == TokenKind::Greater {
            Some(BinaryOp::Greater)
        } else if k == TokenKind::GreaterEqual {
            Some(BinaryOp::GreaterEqual)
        } else {
            None
        }
    } else if level == 2 {
        if k == TokenKind::Plus {
            Some(BinaryOp::Add)
        } else if k == TokenKind::Minus {
            Some(BinaryOp::Subtract)
        } else {
            None
        }
    } else if level == 1 {
        if k == TokenKind::Star {
            Some(BinaryOp::Multiply)
        } else if k == TokenKind::Slash {
            Some(BinaryOp::Divide)
        } else if k == TokenKind::Percent {
            Some(BinaryOp::Modulo)
        } else {
            None
        }
    } else {
        None
    }
}

/// expression := assignment
pub open spec fn p_expression(t: Seq<TokenView>, p: nat) -> Step<ExprModel>
    decreases rem(t, p), 30nat,
{
    p_assignment(t, p)
}

/// assignment := or ( "=" assignment )?, where the target must be a variable.
pub open spec fn p_assignment(t: Seq<TokenView>, p: nat) -> Step<ExprModel>
    decreases rem(t, p), 29nat,
{
    let l = p_binary(t, p, 6);
    match l.outcome {
        Outcome::Done(left) => {
            let q = p + l.used;
            if kind_at(t, q as int) == TokenKind::Equal {
                let v = p_assignment(t, q + 1);
                let q2 = q + 1 + v.used;
                match v.outcome {
                    Outcome::Done(value) => match left {
                        ExprModel::Variable(name) => done(
                            ExprModel::Assign(name, Box::new(value)),
                            (q2 - p) as nat,
                        ),
                        _ => failed(err_at(t, q2 as int, "invalid assignment target"@), (q2 - p) as nat),
                    },
                    _ => shift(l.used + 1, v),
                }
            } else {
                l
            }
        },
        _ => l,
    }
}

/// The left-associative binary operators of a precedence level: an operand
/// of the level below, then any number of operator-operand pairs. Level 0 is
/// unary.
pub open spec fn p_binary(t: Seq<TokenView>, p: nat, level: nat) -> Step<ExprModel>
    decreases rem(t, p), 2 * level + 11,
{
    if level == 0 {
        p_unary(t, p)
    } else {
        let l = p_binary(t, p, (level - 1) as nat);
        match l.outcome {
            Outcome::Done(left) => shift(l.used, p_binary_rest(t, p + l.used, level, left)),
            _ => l,
        }
    }
}

pub open spec fn p_binary_rest(t: Seq<TokenView>, p: nat, level: nat, left: ExprModel) -> Step<ExprModel>
    decreases rem(t, p), 2 * level + 10,
{
    if level > 0 && binary_operator(level, kind_at(t, p as int)) is Some {
        let op = binary_operator(level, kind_at(t, p as int))->0;
        let r = p_binary(t, p + 1, (level - 1) as nat);
        match r.outcome {
            Outcome::Done(right) => shift(
                1 + r.used,
                p_binary_rest(
                    t,
                    p + 1 + r.used,
                    level,
                    ExprModel::Binary(Box::new(left), op, Box::new(right)),
                ),
            ),
            _ => shift(1, r),
        }
    } else {
        done(left, 0)
    }
}

/// unary := ("!" | "-") unary | call
pub open spec fn p_unary(t: Seq<TokenView>, p: nat) -> Step<ExprModel>
    decreases rem(t, p), 5nat,
{
    let k = kind_at(t, p as int);
    if k == TokenKind::Bang || k == TokenKind::Minus {
        let op = if k == TokenKind::Bang { UnaryOp::Not } else { UnaryOp::Negate };
        let r = p_unary(t, p + 1);
        match r.outcome {
            Outcome::Done(e) => done(ExprModel::Unary(op, Box::new(e)), 1 + r.used),
            _ => shift(1, r),
        }
    } else {
        p_call(t, p)
    }
}

/// call := primary ( "(" arguments ")" )*
pub open spec fn p_call(t: Seq<TokenView>, p: nat) -> Step<ExprModel>
    decreases rem(t, p), 4nat,
{
    let pr = p_primary(t, p);
    match pr.outcome {
        Outcome::Done(e) => shift(pr.used, p_call_rest(t, p + pr.used, e)),
        _ => pr,
    }
}

pub open spec fn p_call_rest(t: Seq<TokenView>, p: nat, callee: ExprModel) -> Step<ExprModel>
    decreases rem(t, p), 2nat,
{
    if kind_at(t, p as int) == TokenKind::LeftParen {
        let a = p_arguments(t, p + 1);
        match a.outcome {
            Outcome::Done(args) => {
                let q = p + 1 + a.used;
                if kind_at(t, q as int) == TokenKind::RightParen {
                    shift(
                        1 + a.used + 1,
                        p_call_rest(t, q + 1, ExprModel::Call(Box::new(callee), args)),
                    )
                } else {
                    failed(err_at(t, q as int, "expected ')' after arguments"@), 1 + a.used)
                }
            },
            _ => carry(1, a),
        }
    } else {
        done(callee, 0)
    }
}

/// arguments := ( expression ( "," expression )* )?
pub open spec fn p_arguments(t: Seq<TokenView>, p: nat) -> Step<Seq<ExprModel>>
    decreases rem(t, p), 41nat,
{
    if kind_at(t, p as int) == TokenKind::RightParen {
        done(Seq::empty(), 0)
    } else {
        p_argument_list(t, p, Seq::empty())
    }
}

pub open spec fn p_argument_list(t: Seq<TokenView>, p: nat, acc: Seq<ExprModel>) -> Step<Seq<ExprModel>>
    decreases rem(t, p), 40nat,
{
    let e = p_expression(t, p);
    match e.outcome {
        Outcome::Done(x) => {
            let q = p + e.used;
            if kind_at(t, q as int) == TokenKind::Comma {
                shift(e.used + 1, p_argument_list(t, q + 1, acc.push(x)))
            } else {
                done(acc.push(x), e.used)
            }
        },
        _ => carry(0, e),
    }
}

/// primary := number | string | "true" | "false" | identifier | "(" expression ")"
pub open spec fn p_primary(t: Seq<TokenView>, p: nat) -> Step<ExprModel>
    decreases rem(t, p), 3nat,
{
    let i = taken_index(t, p);
    let c = taken_len(t, p);
    if literal_expr(t, i) is Some {
        done(literal_expr(t, i)->0, c)
    } else if kind_at(t, i as int) == TokenKind::LeftParen {
        if c == 0 {
            // At the end of input the cursor stays on the `(`, and the
            // grouping would start over at the same place for ever.
            diverges()
        } else {
            let e = p_expression(t, p + 1);
            match e.outcome {
                Outcome::Done(x) => {
                    let q = p + 1 + e.used;
                    if kind_at(t, q as int) == TokenKind::RightParen {
                        done(x, e.used + 2)
                    } else {
                        failed(err_at(t, q as int, "expected ')' after expression"@), e.used + 1)
                    }
                },
                _ => shift(1, e),
            }
        }
    } else {
        failed(err_at(t, i as int, "expected an expression"@), c)
    }
}

/// An identifier token is consumed; else the error is placed at the token
/// after the one consumed.
pub open spec fn p_identifier(t: Seq<TokenView>, p: nat, message: Seq<char>) -> Step<Seq<char>> {
    let i = taken_index(t, p);
    let c = taken_len(t, p);
    if kind_at(t, i as int) == TokenKind::Identifier {
        done(t[i].literal, c)
    } else {
        failed(err_at(t, (p + c) as int, message), c)
    }
}

/// parameters := ( identifier ( "," identifier )* )?
pub open spec fn p_parameters(t: Seq<TokenView>, p: nat) -> Step<Seq<Seq<char>>> {
    if kind_at(t, p as int) == TokenKind::RightParen {
        done(Seq::empty(), 0)
    } else {
        p_parameter_list(t, p, Seq::empty())
    }
}

pub open spec fn p_parameter_list(t: Seq<TokenView>, p: nat, acc: Seq<Seq<char>>) -> Step<Seq<Seq<char>>>
    decreases rem(t, p),
{
    let n = p_identifier(t, p, "expected parameter name"@);
    match n.outcome {
        Outcome::Done(name) => {
            let q = p + n.used;
            if kind_at(t, q as int) == TokenKind::Comma {
                shift(n.used + 1, p_parameter_list(t, q + 1, acc.push(name)))
            } else {
                done(acc.push(name), n.used)
            }
        },
        _ => carry(0, n),
    }
}

/// annotation := ( ":" type-name )?
pub open spec fn p_annotation(t: Seq<TokenView>, p: nat) -> Step<Option<Type>> {
    if kind_at(t, p as int) == TokenKind::Colon {
        let n = p_identifier(t, p + 1, "expected type name"@);
        match n.outcome {
            Outcome::Done(name) => match annotated_type(name) {
                Some(ty) => done(Some(ty), 1 + n.used),
                None => failed(err_at(t, (p + 1 + n.used) as int, "unknown type name"@), 1 + n.used),
            },
            _ => carry(1, n),
        }
    } else {
        done(None, 0)
    }
}

/// declaration := "fn" function | "let" let | statement
pub open spec fn p_declaration(t: Seq<TokenView>, p: nat) -> Step<StmtModel>
    decreases rem(t, p), 10nat,
{
    let k = kind_at(t, p as int);
    if k == TokenKind::Fn {
        shift(1, p_function(t, p + 1))
    } else if k == TokenKind::Let {
        shift(1, p_let(t, p + 1))
    } else {
        p_statement(t, p)
    }
}

/// function := identifier "(" parameters ")" "{" block
pub open spec fn p_function(t: Seq<TokenView>, p: nat) -> Step<StmtModel>
    decreases rem(t, p), 20nat,
{
    let n = p_identifier(t, p, "expected function name"@);
    match n.outcome {
        Outcome::Done(name) => {
            let q = p + n.used;
            if kind_at(t, q as int) != TokenKind::LeftParen {
                failed(err_at(t, q as int, "expected '(' after function name"@), n.used)
            } else {
                let ps = p_parameters(t, q + 1);
                match ps.outcome {
                    Outcome::Done(params) => {
                        let r = q + 1 + ps.used;
                        if kind_at(t, r as int) != TokenKind::RightParen {
                            failed(err_at(t, r as int, "expected ')' after parameters"@), (r - p) as nat)
                        } else if kind_at(t, (r + 1) as int) != TokenKind::LeftBrace {
                            failed(err_at(t, (r + 1) as int, "expected '{' before function body"@), (r + 1 - p) as nat)
                        } else {
                            let b = p_block(t, r + 2);
                            match b.outcome {
                                Outcome::Done(body) => done(
                                    StmtModel::Function(name, params, body),
                                    (r + 2 + b.used - p) as nat,
                                ),
                                _ => carry((r + 2 - p) as nat, b),
                            }
                        }
                    },
                    _ => carry(n.used + 1, ps),
                }
            }
        },
        _ => carry(0, n),
    }
}

/// let := identifier annotation "=" expression ";"
pub open spec fn p_let(t: Seq<TokenView>, p: nat) -> Step<StmtModel> {
    let n = p_identifier(t, p, "expected variable name"@);
    match n.outcome {
        Outcome::Done(name) => {
            let q = p + n.used;
            let a = p_annotation(t, q);
            match a.outcome {
                Outcome::Done(ty) => {
                    let r = q + a.used;
                    if kind_at(t, r as int) != TokenKind::Equal {
                        failed(err_at(t, r as int, "expected '=' after variable name"@), (r - p) as nat)
                    } else {
                        let e = p_expression(t, r + 1);
                        match e.outcome {
                            Outcome::Done(init) => {
                                let s = r + 1 + e.used;
                                if kind_at(t, s as int) != TokenKind::Semicolon {
                                    failed(
                                        err_at(t, s as int, "expected ';' after variable declaration"@),
                                        (s - p) as nat,
                                    )
                                } else {
                                    done(StmtModel::Let(name, ty, init), (s + 1 - p) as nat)
                                }
                            },
                            _ => carry((r + 1 - p) as nat, e),
                        }
                    }
                },
                _ => carry(n.used, a),
            }
        },
        _ => carry(0, n),
    }
}

/// An expression followed by a `;`, made into a statement by `f`.
pub open spec fn p_terminated(
    t: Seq<TokenView>,
    p: nat,
    message: Seq<char>,
    f: spec_fn(ExprModel) -> StmtModel,
) -> Step<StmtModel> {
    let e = p_expression(t, p);
    match e.outcome {
        Outcome::Done(x) => {
            let q = p + e.used;
            if kind_at(t, q as int) == TokenKind::Semicolon {
                done(f(x), e.used + 1)
            } else {
                failed(err_at(t, q as int, message), e.used)
            }
        },
        _ => carry(0, e),
    }
}

/// statement := "if" if | "print" expression ";" | "return" expression? ";"
///            | "{" block | expression ";"
pub open spec fn p_statement(t: Seq<TokenView>, p: nat) -> Step<StmtModel>
    decreases rem(t, p), 9nat,
{
    let k = kind_at(t, p as int);
    if k == TokenKind::If {
        shift(1, p_if(t, p + 1))
    } else if k == TokenKind::Print {
        shift(1, p_terminated(t, p + 1, "expected ';' after print expression"@, |x| StmtModel::Print(x)))
    } else if k == TokenKind::Return {
        if kind_at(t, (p + 1) as int) == TokenKind::Semicolon {
            done(StmtModel::Return(None), 2)
        } else {
            shift(1, p_terminated(t, p + 1, "expected ';' after return"@, |x| StmtModel::Return(Some(x))))
        }
    } else if k == TokenKind::LeftBrace {
        let b = p_block(t, p + 1);
        match b.outcome {
            Outcome::Done(ss) => done(StmtModel::Block(ss), 1 + b.used),
            _ => carry(1, b),
        }
    } else {
        p_terminated(t, p, "expected ';' after expression"@, |x| StmtModel::Expression(x))
    }
}

/// if := expression "{" block ( "else" ( "if" if | "{" block ) )?
pub open spec fn p_if(t: Seq<TokenView>, p: nat) -> Step<StmtModel>
    decreases rem(t, p), 8nat,
{
    let c = p_expression(t, p);
    match c.outcome {
        Outcome::Done(cond) => {
            let q = p + c.used;
            if kind_at(t, q as int) != TokenKind::LeftBrace {
                failed(err_at(t, q as int, "expected '{' after if condition"@), c.used)
            } else {
                let b = p_block(t, q + 1);
                match b.outcome {
                    Outcome::Done(then_ss) => {
                        let r = q + 1 + b.used;
                        let e = p_else(t, r);
                        match e.outcome {
                            Outcome::Done(else_branch) => done(
                                StmtModel::If(cond, Box::new(StmtModel::Block(then_ss)), else_branch),
                                (r + e.used - p) as nat,
                            ),
                            _ => carry((r - p) as nat, e),
                        }
                    },
                    _ => carry(c.used + 1, b),
                }
            }
        },
        _ => carry(0, c),
    }
}

/// else := ( "else" ( "if" if | "{" block ) )?
pub open spec fn p_else(t: Seq<TokenView>, r: nat) -> Step<Option<Box<StmtModel>>>
    decreases rem(t, r), 7nat,
{
    if kind_at(t, r as int) == TokenKind::Else {
        if kind_at(t, (r + 1) as int) == TokenKind::If {
            let e = p_if(t, r + 2);
            match e.outcome {
                Outcome::Done(es) => done(Some(Box::new(es)), 2 + e.used),
                _ => carry(2, e),
            }
        } else if kind_at(t, (r + 1) as int) == TokenKind::LeftBrace {
            let eb = p_block(t, r + 2);
            match eb.outcome {
                Outcome::Done(ess) => done(Some(Box::new(StmtModel::Block(ess))), 2 + eb.used),
                _ => carry(2, eb),
            }
        } else {
            failed(err_at(t, (r + 1) as int, "expected '{' after else"@), 1)
        }
    } else {
        done(None, 0)
    }
}

/// block := declaration* "}"
pub open spec fn p_block(t: Seq<TokenView>, p: nat) -> Step<Seq<StmtModel>>
    decreases rem(t, p), 13nat,
{
    p_block_rest(t, p, Seq::empty())
}

pub open spec fn p_block_rest(t: Seq<TokenView>, p: nat, acc: Seq<StmtModel>) -> Step<Seq<StmtModel>>
    decreases rem(t, p), 12nat,
{
    let k = kind_at(t, p as int);
    if k == TokenKind::RightBrace {
        done(acc, 1)
    } else if k == TokenKind::Eof {
        failed(err_at(t, p as int, "expected '}' after block"@), 0)
    } else {
        let d = p_declaration(t, p);
        match d.outcome {
            Outcome::Done(s) => if d.used > 0 {
                shift(d.used, p_block_rest(t, p + d.used, acc.push(s)))
            } else {
                diverges()
            },
            _ => carry(0, d),
        }
    }
}

/// Where parsing resumes after an error: just after a `;`, at a keyword that
/// starts a declaration, or at the end.
pub open spec fn sync_pos(t: Seq<TokenView>, p: nat) -> nat
    decreases rem(t, p),
{
    let k = kind_at(t, p as int);
    if k == TokenKind::Eof {
        p
    } else if p > 0 && kind_at(t, (p - 1) as int) == TokenKind::Semicolon {
        p
    } else if k == TokenKind::Let || k == TokenKind::Fn || k == TokenKind::If || k == TokenKind::Return || k
        == TokenKind::Print {
        p
    } else {
        sync_pos(t, p + 1)
    }
}

/// The precedence tier of a binary operator token, from the tightest (1:
/// `* / %`) through `+ -`, comparisons, equality and `&&` to the loosest
/// (6: `||`); 0 for any other token.
pub open spec fn operator_level(k: TokenKind) -> nat {
    if k == TokenKind::Star || k == TokenKind::Slash || k == TokenKind::Percent {
        1
    } else if k == TokenKind::Plus || k == TokenKind::Minus {
        2
    } else if k == TokenKind::Less || k == TokenKind::LessEqual || k == TokenKind::Greater || k
        == TokenKind::GreaterEqual {
        3
    } else if k == TokenKind::EqualEqual || k == TokenKind::BangEqual {
        4
    } else if k == TokenKind::AndAnd {
        5
    } else if k == TokenKind::OrOr {
        6
    } else {
        0
    }
}

/// A number whose next token starts no operator or call parses alone at
/// every level.
proof fn lemma_number_alone(t: Seq<TokenView>, q: nat, level: nat)
    requires
        q + 1 < t.len(),
        kind_at(t, q as int) == TokenKind::Number,
        kind_at(t, q + 1int) != TokenKind::LeftParen,
        level <= 6,
        forall|lv: nat| 1 <= lv <= level ==> #[trigger] binary_operator(lv, kind_at(t, q + 1int)) is None,
    ensures
        p_binary(t, q, level) == done(ExprModel::Number(t[q as int].literal), 1),
    decreases level,
{
    let num = ExprModel::Number(t[q as int].literal);
    if level == 0 {
        assert(literal_expr(t, q as int) == Some(num));
        assert(p_primary(t, q) == done(num, 1));
        assert(p_call_rest(t, q + 1, num) == done(num, 0));
        assert(p_call(t, q) == done(num, 1));
        assert(p_unary(t, q) == done(num, 1));
    } else {
        lemma_number_alone(t, q, (level - 1) as nat);
        assert(binary_operator(level, kind_at(t, q + 1int)) is None);
        assert(p_binary_rest(t, q + 1, level, num) == done(num, 0));
    }
}

proof fn lemma_operator_levels(t: Seq<TokenView>, p: nat, level: nat)
    requires
        p + 3 < t.len(),
        kind_at(t, p as int) == TokenKind::Number,
        operator_level(kind_at(t, p + 1int)) > 0,
        kind_at(t, p + 2int) == TokenKind::Number,
        kind_at(t, p + 3int) == TokenKind::Semicolon,
        level <= 6,
    ensures
        level < operator_level(kind_at(t, p + 1int)) ==> p_binary(t, p, level) == done(
            ExprModel::Number(t[p as int].literal),
            1,
        ),
        level >= operator_level(kind_at(t, p + 1int)) ==> p_binary(t, p, level) == done(
            ExprModel::Binary(
                Box::new(ExprModel::Number(t[p as int].literal)),
                binary_operator(operator_level(kind_at(t, p + 1int)), kind_at(t, p + 1int))->0,
                Box::new(ExprModel::Number(t[p + 2int].literal)),
            ),
            3,
        ),
    decreases level,
{
    let k = kind_at(t, p + 1int);
    let lev = operator_level(k);
    let num = ExprModel::Number(t[p as int].literal);
    assert forall|lv: nat| 1 <= lv <= 6 implies #[trigger] binary_operator(lv, kind_at(t, p + 3int)) is None by {}
    if level < lev {
        assert forall|lv: nat| 1 <= lv <= level implies #[trigger] binary_operator(lv, kind_at(t, p + 1int)) is None by {}
        lemma_number_alone(t, p, level);
    } else {
        if level == lev {
            assert forall|lv: nat| 1 <= lv <= (level - 1) as nat implies #[trigger] binary_operator(lv, kind_at(t, p + 1int)) is None by {}
            let q2: nat = p + 2;
            let num2 = ExprModel::Number(t[q2 as int].literal);
            assert forall|lv: nat| 1 <= lv <= (level - 1) as nat implies #[trigger] binary_operator(lv, kind_at(t, q2 + 1int)) is None by {
                assert(q2 + 1int == p + 3int);
            }
            assert(kind_at(t, q2 + 1int) == TokenKind::Semicolon);
            lemma_number_alone(t, p, (level - 1) as nat);
            lemma_number_alone(t, q2, (level - 1) as nat);
            assert(binary_operator(level, k) is Some);
            let op = binary_operator(level, k)->0;
            let b = ExprModel::Binary(Box::new(num), op, Box::new(num2));
            assert(p_binary(t, q2, (level - 1) as nat) == done(num2, 1));
            assert(p_binary_rest(t, q2 + 1, level, b) == done(b, 0));
            assert(p_binary_rest(t, p + 1, level, num) == done(b, 2));
            assert(p_binary(t, p, level) == done(b, 3));
        } else {
            lemma_operator_levels(t, p, (level - 1) as nat);
            let b = ExprModel::Binary(
                Box::new(num),
                binary_operator(lev, k)->0,
                Box::new(ExprModel::Number(t[p + 2int].literal)),
            );
            assert(binary_operator(level, kind_at(t, p + 3int)) is None);
            assert(p_binary_rest(t, p + 3, level, b) == done(b, 0));
            assert(p_binary(t, p, level) == done(b, 3));
        }
    }
}

/// Every binary operator token between two operands parses to a node with
/// the operator that token denotes: `%` to `Modulo`, `>=` to
/// `GreaterEqual`, and so on for all thirteen, whatever its precedence level.
pub proof fn lemma_operator_token_parses_to_its_operator(t: Seq<TokenView>, p: nat)
    requires
        p + 3 < t.len(),
        kind_at(t, p as int) == TokenKind::Number,
        kind_at(t, p + 2int) == TokenKind::Number,
        kind_at(t, p + 3int) == TokenKind::Semicolon,
        ({
            let k = kind_at(t, p + 1int);
            ||| k == TokenKind::Star || k == TokenKind::Slash || k == TokenKind::Percent
            ||| k == TokenKind::Plus || k == TokenKind::Minus
            ||| k == TokenKind::Less || k == TokenKind::LessEqual || k == TokenKind::Greater
            ||| k == TokenKind::GreaterEqual || k == TokenKind::EqualEqual || k == TokenKind::BangEqual
            ||| k == TokenKind::AndAnd || k == TokenKind::OrOr
        }),
    ensures
        p_expression(t, p).used == 3,
        p_expression(t, p).outcome matches Outcome::Done(ExprModel::Binary(l, op, r)) && {
            let k = kind_at(t, p + 1int);
            &&& *l == ExprModel::Number(t[p as int].literal)
            &&& *r == ExprModel::Number(t[p + 2int].literal)
            &&& k == TokenKind::Star ==> op == BinaryOp::Multiply
            &&& k == TokenKind::Slash ==> op == BinaryOp::Divide
            &&& k == TokenKind::Percent ==> op == BinaryOp::Modulo
            &&& k == TokenKind::Plus ==> op == BinaryOp::Add
            &&& k == TokenKind::Minus ==> op == BinaryOp::Subtract
            &&& k == TokenKind::Less ==> op == BinaryOp::Less
            &&& k == TokenKind::LessEqual ==> op == BinaryOp::LessEqual
            &&& k == TokenKind::Greater ==> op == BinaryOp::Greater
            &&& k == TokenKind::GreaterEqual ==> op == BinaryOp::GreaterEqual
            &&& k == TokenKind::EqualEqual ==> op == BinaryOp::Equal
            &&& k == TokenKind::BangEqual ==> op == BinaryOp::NotEqual
            &&& k == TokenKind::AndAnd ==> op == BinaryOp::And
            &&& k == TokenKind::OrOr ==> op == BinaryOp::Or
        },
{
    lemma_operator_levels(t, p, 6);
}

/// An operand not followed by a binary operator stands alone at every level.
proof fn lemma_operand_alone(t: Seq<TokenView>, q: nat, level: nat, e: ExprModel, n: nat)
    requires
        p_unary(t, q) == done(e, n),
        level <= 6,
        forall|lv: nat| 1 <= lv <= level ==> #[trigger] binary_operator(lv, kind_at(t, (q + n) as int)) is None,
    ensures
        p_binary(t, q, level) == done(e, n),
    decreases level,
{
    if level > 0 {
        lemma_operand_alone(t, q, (level - 1) as nat, e, n);
        assert(binary_operator(level, kind_at(t, (q + n) as int)) is None);
        assert(p_binary_rest(t, q + n, level, e) == done(e, 0));
    }
}

/// A `!` or `-` token before an operand parses to a unary node with the
/// operator that token denotes: `!` to `Not`, `-` to `Negate`.
pub proof fn lemma_unary_token_parses_to_its_operator(t: Seq<TokenView>, p: nat)
    requires
        p + 2 < t.len(),
        kind_at(t, p as int) == TokenKind::Bang || kind_at(t, p as int) == TokenKind::Minus,
        kind_at(t, p + 1int) == TokenKind::Number,
        kind_at(t, p + 2int) == TokenKind::Semicolon,
    ensures
        p_expression(t, p) == done(
            ExprModel::Unary(
                if kind_at(t, p as int) == TokenKind::Bang { UnaryOp::Not } else { UnaryOp::Negate },
                Box::new(ExprModel::Number(t[p + 1int].literal)),
            ),
            2,
        ),
{
    let q: nat = p + 1;
    let num = ExprModel::Number(t[q as int].literal);
    assert(literal_expr(t, q as int) == Some(num));
    assert(p_primary(t, q) == done(num, 1));
    assert(kind_at(t, q + 1int) == TokenKind::Semicolon);
    assert(p_call_rest(t, q + 1, num) == done(num, 0));
    assert(p_call(t, q) == done(num, 1));
    assert(p_unary(t, q) == done(num, 1));
    let e = ExprModel::Unary(
        if kind_at(t, p as int) == TokenKind::Bang { UnaryOp::Not } else { UnaryOp::Negate },
        Box::new(num),
    );
    assert(p_unary(t, p) == done(e, 2));
    assert forall|lv: nat| 1 <= lv <= 6 implies #[trigger] binary_operator(lv, kind_at(t, (p + 2) as int)) is None by {
        assert(kind_at(t, (p + 2) as int) == TokenKind::Semicolon);
    }
    lemma_operand_alone(t, p, 6, e, 2);
    assert(kind_at(t, (p + 2) as int) != TokenKind::Equal);
    assert(p_assignment(t, p) == done(e, 2));
}

proof fn lemma_level_of_operator(lv: nat, k: TokenKind)
    ensures
        binary_operator(lv, k) is Some <==> (lv > 0 && lv == operator_level(k)),
{
}

/// The five tokens `a o1 b o2 c` followed by a `;`.
pub open spec fn two_operator_chain(t: Seq<TokenView>, p: nat) -> bool {
    &&& p + 5 < t.len()
    &&& kind_at(t, p as int) == TokenKind::Number
    &&& operator_level(kind_at(t, p + 1int)) > 0
    &&& kind_at(t, p + 2int) == TokenKind::Number
    &&& operator_level(kind_at(t, p + 3int)) > 0
    &&& kind_at(t, p + 4int) == TokenKind::Number
    &&& kind_at(t, p + 5int) == TokenKind::Semicolon
}

proof fn lemma_precedence_left(t: Seq<TokenView>, p: nat, level: nat)
    requires
        two_operator_chain(t, p),
        operator_level(kind_at(t, p + 1int)) <= operator_level(kind_at(t, p + 3int)),
        level <= 6,
    ensures
        ({
            let k1 = kind_at(t, p + 1int);
            let k2 = kind_at(t, p + 3int);
            let a = ExprModel::Number(t[p as int].literal);
            let b = ExprModel::Number(t[p + 2int].literal);
            let c = ExprModel::Number(t[p + 4int].literal);
            let b1 = ExprModel::Binary(Box::new(a), binary_operator(operator_level(k1), k1)->0, Box::new(b));
            let x = ExprModel::Binary(Box::new(b1), binary_operator(operator_level(k2), k2)->0, Box::new(c));
            p_binary(t, p, level) == if level < operator_level(k1) {
                done(a, 1)
            } else if level < operator_level(k2) {
                done(b1, 3)
            } else {
                done(x, 5)
            }
        }),
    decreases level,
{
    let k1 = kind_at(t, p + 1int);
    let k2 = kind_at(t, p + 3int);
    let l1 = operator_level(k1);
    let l2 = operator_level(k2);
    let o1 = binary_operator(l1, k1)->0;
    let o2 = binary_operator(l2, k2)->0;
    let a = ExprModel::Number(t[p as int].literal);
    let b = ExprModel::Number(t[p + 2int].literal);
    let c = ExprModel::Number(t[p + 4int].literal);
    let b1 = ExprModel::Binary(Box::new(a), o1, Box::new(b));
    let x = ExprModel::Binary(Box::new(b1), o2, Box::new(c));
    assert forall|lv: nat, k: TokenKind| #[trigger] binary_operator(lv, k) is Some <==> (lv > 0 && lv
        == operator_level(k)) by {
        lemma_level_of_operator(lv, k);
    }
    let q2: nat = p + 2;
    let q4: nat = p + 4;
    assert(kind_at(t, q2 + 1int) == k2);
    assert(kind_at(t, q4 + 1int) == TokenKind::Semicolon);
    assert(kind_at(t, (p + 5) as int) == TokenKind::Semicolon);
    if level < l1 {
        lemma_number_alone(t, p, level);
    } else {
        if level > 0 {
            lemma_precedence_left(t, p, (level - 1) as nat);
        }
        lemma_number_alone(t, q4, (level - 1) as nat);
        assert(p_binary_rest(t, p + 5, level, x) == done(x, 0));
        if level == l1 {
            lemma_number_alone(t, q2, (level - 1) as nat);
            assert(p_binary(t, q2, (level - 1) as nat) == done(b, 1));
            if level == l2 {
                assert(p_binary_rest(t, p + 3, level, b1) == done(x, 2));
                assert(p_binary_rest(t, p + 1, level, a) == done(x, 4));
            } else {
                assert(p_binary_rest(t, p + 3, level, b1) == done(b1, 0));
                assert(p_binary_rest(t, p + 1, level, a) == done(b1, 2));
            }
        } else if level < l2 {
            assert(p_binary_rest(t, p + 3, level, b1) == done(b1, 0));
        } else if level == l2 {
            assert(p_binary_rest(t, p + 3, level, b1) == done(x, 2));
        }
    }
}

proof fn lemma_precedence_right(t: Seq<TokenView>, p: nat, level: nat)
    requires
        two_operator_chain(t, p),
        operator_level(kind_at(t, p + 1int)) > operator_level(kind_at(t, p + 3int)),
        level <= 6,
    ensures
        ({
            let k1 = kind_at(t, p + 1int);
            let k2 = kind_at(t, p + 3int);
            let a = ExprModel::Number(t[p as int].literal);
            let b = ExprModel::Number(t[p + 2int].literal);
            let c = ExprModel::Number(t[p + 4int].literal);
            let bc = ExprModel::Binary(Box::new(b), binary_operator(operator_level(k2), k2)->0, Box::new(c));
            let y = ExprModel::Binary(Box::new(a), binary_operator(operator_level(k1), k1)->0, Box::new(bc));
            p_binary(t, p, level) == if level < operator_level(k1) {
                done(a, 1)
            } else {
                done(y, 5)
            }
        }),
    decreases level,
{
    let k1 = kind_at(t, p + 1int);
    let k2 = kind_at(t, p + 3int);
    let l1 = operator_level(k1);
    let l2 = operator_level(k2);
    let o1 = binary_operator(l1, k1)->0;
    let o2 = binary_operator(l2, k2)->0;
    let a = ExprModel::Number(t[p as int].literal);
    let b = ExprModel::Number(t[p + 2int].literal);
    let c = ExprModel::Number(t[p + 4int].literal);
    let bc = ExprModel::Binary(Box::new(b), o2, Box::new(c));
    let y = ExprModel::Binary(Box::new(a), o1, Box::new(bc));
    assert forall|lv: nat, k: TokenKind| #[trigger] binary_operator(lv, k) is Some <==> (lv > 0 && lv
        == operator_level(k)) by {
        lemma_level_of_operator(lv, k);
    }
    let q2: nat = p + 2;
    assert(kind_at(t, q2 + 1int) == k2);
    assert(kind_at(t, q2 + 3int) == TokenKind::Semicolon);
    assert(kind_at(t, (p + 5) as int) == TokenKind::Semicolon);
    if level < l1 {
        lemma_number_alone(t, p, level);
    } else if level > l1 {
        lemma_precedence_right(t, p, (level - 1) as nat);
        assert(p_binary_rest(t, p + 5, level, y) == done(y, 0));
    } else {
        lemma_number_alone(t, p, (level - 1) as nat);
        lemma_operator_levels(t, q2, (level - 1) as nat);
        assert(p_binary(t, q2, (level - 1) as nat) == done(bc, 3));
        assert(p_binary_rest(t, p + 5, level, y) == done(y, 0));
        assert(p_binary_rest(t, p + 1, level, a) == done(y, 4));
    }
}

/// Three numbers joined by two operators, ending the expression: the
/// operator of the tighter tier takes its neighbours first, and of two
/// operators of the same tier the left one does (left associativity), so
/// `40 + 2 * 3` is `40 + (2 * 3)` and `8 - 4 - 2` is `(8 - 4) - 2`.
pub proof fn lemma_precedence(t: Seq<TokenView>, p: nat)
    requires
        p + 5 < t.len(),
        kind_at(t, p as int) == TokenKind::Number,
        operator_level(kind_at(t, p + 1int)) > 0,
        kind_at(t, p + 2int) == TokenKind::Number,
        operator_level(kind_at(t, p + 3int)) > 0,
        kind_at(t, p + 4int) == TokenKind::Number,
        kind_at(t, p + 5int) == TokenKind::Semicolon,
    ensures
        ({
            let k1 = kind_at(t, p + 1int);
            let k2 = kind_at(t, p + 3int);
            let o1 = binary_operator(operator_level(k1), k1)->0;
            let o2 = binary_operator(operator_level(k2), k2)->0;
            let a = ExprModel::Number(t[p as int].literal);
            let b = ExprModel::Number(t[p + 2int].literal);
            let c = ExprModel::Number(t[p + 4int].literal);
            p_expression(t, p) == done(
                if operator_level(k1) <= operator_level(k2) {
                    ExprModel::Binary(Box::new(ExprModel::Binary(Box::new(a), o1, Box::new(b))), o2, Box::new(c))
                } else {
                    ExprModel::Binary(Box::new(a), o1, Box::new(ExprModel::Binary(Box::new(b), o2, Box::new(c))))
                },
                5,
            )
        }),
{
    let l1 = operator_level(kind_at(t, p + 1int));
    let l2 = operator_level(kind_at(t, p + 3int));
    assert(kind_at(t, (p + 5) as int) == TokenKind::Semicolon);
    if l1 <= l2 {
        lemma_precedence_left(t, p, 6);
    } else {
        lemma_precedence_right(t, p, 6);
    }
    assert(kind_at(t, (p + 5) as int) != TokenKind::Equal);
}

/// A single literal or name ending the expression parses to its value:
/// `true` and `false` to the bools, a number or a string to its literal
/// text, a name to a variable.
pub proof fn lemma_literal_parses_to_its_value(t: Seq<TokenView>, p: nat)
    requires
        p + 1 < t.len(),
        kind_at(t, p + 1int) == TokenKind::Semicolon,
    ensures
        ({
            let k = kind_at(t, p as int);
            let lit = t[p as int].literal;
            &&& k == TokenKind::True ==> p_expression(t, p) == done(ExprModel::Boolean(true), 1)
            &&& k == TokenKind::False ==> p_expression(t, p) == done(ExprModel::Boolean(false), 1)
            &&& k == TokenKind::Number ==> p_expression(t, p) == done(ExprModel::Number(lit), 1)
            &&& k == TokenKind::String ==> p_expression(t, p) == done(ExprModel::Str(lit), 1)
            &&& k == TokenKind::Identifier ==> p_expression(t, p) == done(ExprModel::Variable(lit), 1)
        }),
{
    let k = kind_at(t, p as int);
    if literal_expr(t, p as int) is Some {
        let x = literal_expr(t, p as int)->0;
        assert(p_primary(t, p) == done(x, 1));
        assert(p_call_rest(t, p + 1, x) == done(x, 0));
        assert(p_call(t, p) == done(x, 1));
        assert(k != TokenKind::Bang && k != TokenKind::Minus);
        assert(p_unary(t, p) == done(x, 1));
        assert forall|lv: nat| 1 <= lv <= 6 implies #[trigger] binary_operator(lv, kind_at(t, (p + 1) as int)) is None by {
            assert(kind_at(t, (p + 1) as int) == TokenKind::Semicolon);
        }
        lemma_operand_alone(t, p, 6, x, 1);
        assert(kind_at(t, (p + 1) as int) != TokenKind::Equal);
        assert(p_assignment(t, p) == done(x, 1));
    }
}

/// A place where parsing can resume: the end, just after a `;`, or a keyword
/// that starts a declaration.
pub open spec fn resumes_at(t: Seq<TokenView>, j: int) -> bool {
    let k = kind_at(t, j);
    ||| k == TokenKind::Eof
    ||| (j > 0 && kind_at(t, j - 1) == TokenKind::Semicolon)
    ||| k == TokenKind::Let || k == TokenKind::Fn || k == TokenKind::If || k == TokenKind::Return || k == TokenKind::Print
}

/// Recovery moves to the first place at or after `p` where parsing can
/// resume.
pub proof fn lemma_sync_pos_first(t: Seq<TokenView>, p: nat)
    ensures
        p <= sync_pos(t, p),
        resumes_at(t, sync_pos(t, p) as int),
        forall|j: int| p <= j < sync_pos(t, p) ==> !#[trigger] resumes_at(t, j),
    decreases rem(t, p),
{
    if !resumes_at(t, p as int) {
        assert(p < t.len());
        lemma_sync_pos_first(t, p + 1);
    }
}

/// Declarations from `p` to the end; every error is recorded and parsing
/// resumes at `sync_pos`. `None` when parsing would not end.
pub open spec fn p_program_from(
    t: Seq<TokenView>,
    p: nat,
    stmts: Seq<StmtModel>,
    errs: Seq<ParseErrorView>,
) -> Option<(Seq<StmtModel>, Seq<ParseErrorView>)>
    decreases rem(t, p),
{
    if kind_at(t, p as int) == TokenKind::Eof {
        Some((stmts, errs))
    } else {
        let d = p_declaration(t, p);
        match d.outcome {
            Outcome::Done(s) => if d.used > 0 {
                p_program_from(t, p + d.used, stmts.push(s), errs)
            } else {
                None
            },
            Outcome::Failed(e) => {
                let q = sync_pos(t, p + d.used);
                if q > p {
                    p_program_from(t, q, stmts, errs.push(e))
                } else {
                    None
                }
            },
            Outcome::Diverges => None,
        }
    }
}

/// The result of parsing the tokens from `p` on: the statements if no error
/// was found, else every error in order. `None` when parsing would not end.
pub open spec fn parse_tokens_from(t: Seq<TokenView>, p: nat) -> Option<Result<Seq<StmtModel>, Seq<ParseErrorView>>> {
    match p_program_from(t, p, Seq::empty(), Seq::empty()) {
        Some((stmts, errs)) => if errs.len() == 0 {
            Some(Ok(stmts))
        } else {
            Some(Err(errs))
        },
        None => None,
    }
}

pub open spec fn parse_tokens(t: Seq<TokenView>) -> Option<Result<Seq<StmtModel>, Seq<ParseErrorView>>> {
    parse_tokens_from(t, 0)
}

} // verus!

verus! {

// ---------------------------------------------------------------------------
// The parser.
// ---------------------------------------------------------------------------

/// The token list holds an `Eof` at `p` or after it.
pub open spec fn has_eof_from(t: Seq<TokenView>, p: int) -> bool {
    exists|i: int| p <= i < t.len() && #[trigger] t[i].kind == TokenKind::Eof
}

pub open spec fn agrees_with<X, M>(r: Result<X, ParseError>, o: Outcome<M>, f: spec_fn(X) -> M) -> bool {
    match o {
        Outcome::Done(m) => r matches Ok(x) && f(x) == m,
        Outcome::Failed(e) => r matches Err(x) && x@ == e,
        Outcome::Diverges => r is Err,
    }
}

pub open spec fn agrees_expr(r: Result<Expr, ParseError>, o: Outcome<ExprModel>) -> bool {
    agrees_with(r, o, |e: Expr| e@)
}

pub open spec fn agrees_exprs(r: Result<Vec<Expr>, ParseError>, o: Outcome<Seq<ExprModel>>) -> bool {
    agrees_with(r, o, |v: Vec<Expr>| exprs_model(v@))
}

pub open spec fn agrees_stmt(r: Result<Stmt, ParseError>, o: Outcome<StmtModel>) -> bool {
    agrees_with(r, o, |s: Stmt| s@)
}

pub open spec fn agrees_stmts(r: Result<Vec<Stmt>, ParseError>, o: Outcome<Seq<StmtModel>>) -> bool {
    agrees_with(r, o, |v: Vec<Stmt>| stmts_model(v@))
}

pub open spec fn agrees_name(r: Result<String, ParseError>, o: Outcome<Seq<char>>) -> bool {
    agrees_with(r, o, |s: String| s@)
}

pub open spec fn agrees_names(r: Result<Vec<String>, ParseError>, o: Outcome<Seq<Seq<char>>>) -> bool {
    agrees_with(r, o, |v: Vec<String>| names_model(v@))
}

pub open spec fn agrees_type(r: Result<Option<Type>, ParseError>, o: Outcome<Option<Type>>) -> bool {
    agrees_with(r, o, |x: Option<Type>| x)
}

/// A recursive-descent parser over a token list that holds an `Eof`.
pub struct Parser {
    tokens: Vec<Token>,
    current: usize,
    endless: bool,
}

impl Parser {
    pub closed spec fn tokens(&self) -> Seq<TokenView> {
        tokens_view(self.tokens@)
    }

    pub closed spec fn pos(&self) -> nat {
        self.current as nat
    }

    /// Parsing stopped where it would have recursed for ever.
    pub closed spec fn endless(&self) -> bool {
        self.endless
    }

    /// An `Eof` lies at the cursor or after it, and parsing has not stopped.
    pub closed spec fn wf(&self) -> bool {
        has_eof_from(tokens_view(self.tokens@), self.current as int) && !self.endless
    }

    /// A token can be taken at the cursor: it is not the first position of an
    /// empty input, where taking the token before the cursor would fail.
    pub open spec fn ready(&self) -> bool {
        self.wf() && (self.pos() > 0 || kind_at(self.tokens(), self.pos() as int) != TokenKind::Eof)
    }

    /// The same tokens, with the cursor `used` tokens further on.
    pub open spec fn after(self, before: Parser, used: nat) -> bool {
        &&& self.wf()
        &&& self.tokens() == before.tokens()
        &&& self.pos() == before.pos() + used
    }

    /// The parser after a construct: stopped if parsing the construct would
    /// not end, else with the cursor moved over the tokens it used.
    pub open spec fn moved<T>(self, before: Parser, s: Step<T>) -> bool {
        &&& self.tokens() == before.tokens()
        &&& if s.outcome is Diverges {
            self.endless()
        } else {
            self.after(before, s.used)
        }
    }

    pub fn new(tokens: Vec<Token>) -> (parser: Self)
        ensures
            parser.tokens() == tokens_view(tokens@),
            parser.pos() == 0,
            has_eof_from(tokens_view(tokens@), 0) ==> parser.wf(),
    {
        Parser { tokens, current: 0, endless: false }
    }

    /// Every declaration of the token list, or every syntax error found, in
    /// order; after an error parsing resumes at the next statement boundary.
    pub fn parse(&mut self) -> (r: Result<Program, Vec<ParseError>>)
        requires
            old(self).wf(),
            parse_tokens_from(old(self).tokens(), old(self).pos()) is Some,
        ensures
            final(self).wf(),
            final(self).tokens() == old(self).tokens(),
            match parse_tokens_from(old(self).tokens(), old(self).pos()) {
                Some(Ok(stmts)) => r matches Ok(program) && program@ == stmts,
                Some(Err(errs)) => r matches Err(errors) && errors@.map_values(|e: ParseError| e@) == errs,
                None => false,
            },
    {
        match self.try_parse() {
            Some(r) => r,
            None => Err(Vec::new()),
        }
    }

    /// As `parse`, on any token list: `None` where parsing would not end
    /// (see `parse_tokens_from`), and the parser is then left stopped.
    pub fn try_parse(&mut self) -> (r: Option<Result<Program, Vec<ParseError>>>)
        requires
            old(self).wf(),
        ensures
            final(self).tokens() == old(self).tokens(),
            match parse_tokens_from(old(self).tokens(), old(self).pos()) {
                Some(Ok(stmts)) => r matches Some(Ok(program)) && program@ == stmts && final(self).wf(),
                Some(Err(errs)) => r matches Some(Err(errors)) && errors@.map_values(|e: ParseError| e@) == errs
                    && final(self).wf(),
                None => r is None,
            },
    {
        let ghost t = self.tokens();
        let ghost p0 = self.current as nat;
        let mut statements: Vec<Stmt> = Vec::new();
        let mut errors: Vec<ParseError> = Vec::new();
        proof {
            assert(errors@.map_values(|e: ParseError| e@) =~= Seq::<ParseErrorView>::empty());
            assert(stmts_model(Seq::<Stmt>::empty()) =~= Seq::<StmtModel>::empty());
        }
        while !self.is_at_end()
            invariant
                self.wf(),
                self.tokens() == t,
                t == old(self).tokens(),
                p0 == old(self).pos(),
                p_program_from(t, p0, Seq::empty(), Seq::empty()) == p_program_from(
                    t,
                    self.current as nat,
                    stmts_model(statements@),
                    errors@.map_values(|e: ParseError| e@),
                ),
            decreases rem(t, self.current as nat),
        {
            let p = self.current;
            match self.declaration() {
                Ok(statement) => {
                    if self.current == p {
                        return None;
                    }
                    proof {
                        lemma_stmts_model_push(statements@, statement);
                    }
                    statements.push(statement);
                },
                Err(error) => {
                    if self.endless {
                        return None;
                    }
                    let ghost before = errors@.map_values(|e: ParseError| e@);
                    errors.push(error);
                    proof {
                        assert(errors@.map_values(|e: ParseError| e@) =~= before.push(error@));
                    }
                    self.synchronize();
                    if self.current <= p {
                        return None;
                    }
                },
            }
        }
        if errors.len() == 0 {
            Some(Ok(Program { statements }))
        } else {
            Some(Err(errors))
        }
    }

    fn declaration(&mut self) -> (r: Result<Stmt, ParseError>)
        requires
            old(self).ready(),
        ensures
            final(self).moved(*old(self), p_declaration(old(self).tokens(), old(self).pos())),
            agrees_stmt(r, p_declaration(old(self).tokens(), old(self).pos()).outcome),
        decreases rem(old(self).tokens(), old(self).pos()), 10nat,
    {
        if self.match_kind(TokenKind::Fn) {
            return self.function_declaration();
        }
        if self.match_kind(TokenKind::Let) {
            return self.let_declaration();
        }
        self.statement()
    }

    #[verifier::rlimit(100)]
    #[verifier::spinoff_prover]
    fn function_declaration(&mut self) -> (r: Result<Stmt, ParseError>)
        requires
            old(self).ready(),
            old(self).pos() > 0,
        ensures
            final(self).moved(*old(self), p_function(old(self).tokens(), old(self).pos())),
            agrees_stmt(r, p_function(old(self).tokens(), old(self).pos()).outcome),
        decreases rem(old(self).tokens(), old(self).pos()), 20nat,
    {
        let name = self.expect_identifier("expected function name")?;
        self.consume(TokenKind::LeftParen, "expected '(' after function name")?;
        let params = self.parameters()?;
        self.consume(TokenKind::RightParen, "expected ')' after parameters")?;
        self.consume(TokenKind::LeftBrace, "expected '{' before function body")?;
        let body = self.block_statements()?;
        Ok(Stmt::Function { name, params, body })
    }

    fn parameters(&mut self) -> (r: Result<Vec<String>, ParseError>)
        requires
            old(self).ready(),
            old(self).pos() > 0,
        ensures
            final(self).after(*old(self), p_parameters(old(self).tokens(), old(self).pos()).used),
            agrees_names(r, p_parameters(old(self).tokens(), old(self).pos()).outcome),
            !(p_parameters(old(self).tokens(), old(self).pos()).outcome is Diverges),
    {
        let ghost t = self.tokens();
        let ghost p0 = self.current as nat;
        let mut params: Vec<String> = Vec::new();
        if self.check(TokenKind::RightParen) {
            proof {
                assert(names_model(params@) =~= Seq::<Seq<char>>::empty());
            }
            return Ok(params);
        }
        proof {
            assert(names_model(params@) =~= Seq::<Seq<char>>::empty());
        }
        loop
            invariant
                self.wf(),
                self.tokens() == t,
                self.current > 0,
                p0 <= self.current,
                p0 == old(self).current,
                t == old(self).tokens(),
                p_parameters(t, p0) == shift(
                    (self.current - p0) as nat,
                    p_parameter_list(t, self.current as nat, names_model(params@)),
                ),
            decreases rem(t, self.current as nat),
        {
            let ghost p = self.current as nat;
            let name = match self.expect_identifier("expected parameter name") {
                Ok(name) => name,
                Err(e) => {
                    return Err(e);
                },
            };
            proof {
                assert(names_model(params@.push(name)) =~= names_model(params@).push(name@));
            }
            params.push(name);
            if !self.match_kind(TokenKind::Comma) {
                return Ok(params);
            }
        }
    }

    fn let_declaration(&mut self) -> (r: Result<Stmt, ParseError>)
        requires
            old(self).ready(),
            old(self).pos() > 0,
        ensures
            final(self).moved(*old(self), p_let(old(self).tokens(), old(self).pos())),
            agrees_stmt(r, p_let(old(self).tokens(), old(self).pos()).outcome),
    {
        let name = self.expect_identifier("expected variable name")?;
        let type_annotation = self.type_annotation()?;
        self.consume(TokenKind::Equal, "expected '=' after variable name")?;
        let initializer = self.expression()?;
        self.consume(TokenKind::Semicolon, "expected ';' after variable declaration")?;
        Ok(Stmt::Let { name, type_annotation, initializer })
    }

    fn type_annotation(&mut self) -> (r: Result<Option<Type>, ParseError>)
        requires
            old(self).ready(),
            old(self).pos() > 0,
        ensures
            final(self).after(*old(self), p_annotation(old(self).tokens(), old(self).pos()).used),
            agrees_type(r, p_annotation(old(self).tokens(), old(self).pos()).outcome),
    {
        if !self.match_kind(TokenKind::Colon) {
            return Ok(None);
        }
        let name = self.expect_identifier("expected type name")?;
        match Type::from_annotation(&name) {
            Some(ty) => Ok(Some(ty)),
            None => Err(self.error("unknown type name")),
        }
    }

    #[verifier::rlimit(80)]
    fn statement(&mut self) -> (r: Result<Stmt, ParseError>)
        requires
            old(self).ready(),
        ensures
            final(self).moved(*old(self), p_statement(old(self).tokens(), old(self).pos())),
            agrees_stmt(r, p_statement(old(self).tokens(), old(self).pos()).outcome),
        decreases rem(old(self).tokens(), old(self).pos()), 9nat,
    {
        if self.match_kind(TokenKind::If) {
            return self.if_statement();
        }
        if self.match_kind(TokenKind::Print) {
            let value = self.expression()?;
            self.consume(TokenKind::Semicolon, "expected ';' after print expression")?;
            return Ok(Stmt::Print(value));
        }
        if self.match_kind(TokenKind::Return) {
            let value = if self.check(TokenKind::Semicolon) {
                None
            } else {
                Some(self.expression()?)
            };
            self.consume(TokenKind::Semicolon, "expected ';' after return")?;
            return Ok(Stmt::Return(value));
        }
        if self.match_kind(TokenKind::LeftBrace) {
            let statements = self.block_statements()?;
            return Ok(Stmt::Block(statements));
        }
        let expression = self.expression()?;
        self.consume(TokenKind::Semicolon, "expected ';' after expression")?;
        Ok(Stmt::Expression(expression))
    }

    #[verifier::rlimit(80)]
    fn if_statement(&mut self) -> (r: Result<Stmt, ParseError>)
        requires
            old(self).ready(),
            old(self).pos() > 0,
        ensures
            final(self).moved(*old(self), p_if(old(self).tokens(), old(self).pos())),
            agrees_stmt(r, p_if(old(self).tokens(), old(self).pos()).outcome),
        decreases rem(old(self).tokens(), old(self).pos()), 8nat,
    {
        let condition = self.expression()?;
        self.consume(TokenKind::LeftBrace, "expected '{' after if condition")?;
        let statements = self.block_statements()?;
        let then_branch = Stmt::Block(statements);
        assert(then_branch@ == StmtModel::Block(stmts_model(statements@)));
        let else_branch = self.else_branch()?;
        let result = Stmt::If { condition, then_branch: Box::new(then_branch), else_branch };
        assert(result@ == StmtModel::If(
            condition@,
            Box::new(then_branch@),
            match else_branch {
                Some(b) => Some(Box::new(b@)),
                None => None,
            },
        ));
        Ok(result)
    }

    fn else_branch(&mut self) -> (r: Result<Option<Box<Stmt>>, ParseError>)
        requires
            old(self).ready(),
            old(self).pos() > 0,
        ensures
            final(self).moved(*old(self), p_else(old(self).tokens(), old(self).pos())),
            agrees_with(
                r,
                p_else(old(self).tokens(), old(self).pos()).outcome,
                |b: Option<Box<Stmt>>| match b {
                    Some(s) => Some(Box::new(s@)),
                    None => None,
                },
            ),
        decreases rem(old(self).tokens(), old(self).pos()), 7nat,
    {
        if !self.match_kind(TokenKind::Else) {
            return Ok(None);
        }
        if self.match_kind(TokenKind::If) {
            let branch = self.if_statement()?;
            Ok(Some(Box::new(branch)))
        } else {
            self.consume(TokenKind::LeftBrace, "expected '{' after else")?;
            let statements = self.block_statements()?;
            Ok(Some(Box::new(Stmt::Block(statements))))
        }
    }

    #[verifier::rlimit(60)]
    fn block_statements(&mut self) -> (r: Result<Vec<Stmt>, ParseError>)
        requires
            old(self).ready(),
            old(self).pos() > 0,
        ensures
            final(self).moved(*old(self), p_block(old(self).tokens(), old(self).pos())),
            agrees_stmts(r, p_block(old(self).tokens(), old(self).pos()).outcome),
        decreases rem(old(self).tokens(), old(self).pos()), 13nat,
    {
        let ghost t = self.tokens();
        let ghost p0 = self.current as nat;
        let mut statements: Vec<Stmt> = Vec::new();
        proof {
            assert(stmts_model(statements@) =~= Seq::<StmtModel>::empty());
        }
        while !self.check(TokenKind::RightBrace) && !self.is_at_end()
            invariant
                self.wf(),
                self.tokens() == t,
                self.current > 0,
                p0 <= self.current,
                p0 == old(self).current,
                t == old(self).tokens(),
                p_block(t, p0) == shift(
                    (self.current - p0) as nat,
                    p_block_rest(t, self.current as nat, stmts_model(statements@)),
                ),
            decreases rem(t, self.current as nat),
        {
            let statement = match self.declaration() {
                Ok(s) => s,
                Err(e) => {
                    return Err(e);
                },
            };
            proof {
                lemma_stmts_model_push(statements@, statement);
            }
            statements.push(statement);
        }
        self.consume(TokenKind::RightBrace, "expected '}' after block")?;
        Ok(statements)
    }

    fn expression(&mut self) -> (r: Result<Expr, ParseError>)
        requires
            old(self).ready(),
        ensures
            final(self).moved(*old(self), p_expression(old(self).tokens(), old(self).pos())),
            agrees_expr(r, p_expression(old(self).tokens(), old(self).pos()).outcome),
        decreases rem(old(self).tokens(), old(self).pos()), 30nat,
    {
        self.assignment()
    }

    fn assignment(&mut self) -> (r: Result<Expr, ParseError>)
        requires
            old(self).ready(),
        ensures
            final(self).moved(*old(self), p_assignment(old(self).tokens(), old(self).pos())),
            agrees_expr(r, p_assignment(old(self).tokens(), old(self).pos()).outcome),
        decreases rem(old(self).tokens(), old(self).pos()), 29nat,
    {
        let expression = self.binary(6)?;
        if self.match_kind(TokenKind::Equal) {
            let value = self.assignment()?;
            match expression {
                Expr::Variable(name) => {
                    return Ok(Expr::Assign { name, value: Box::new(value) });
                },
                _ => {},
            }
            return Err(self.error("invalid assignment target"));
        }
        Ok(expression)
    }

    /// The binary operator that the token at the cursor stands for at `level`.
    fn operator_here(&self, level: u8) -> (op: Option<BinaryOp>)
        requires
            self.wf(),
        ensures
            op == binary_operator(level as nat, kind_at(self.tokens(), self.pos() as int)),
    {
        let k = self.peek_kind();
        if level == 6 {
            if k == TokenKind::OrOr { Some(BinaryOp::Or) } else { None }
        } else if level == 5 {
            if k == TokenKind::AndAnd { Some(BinaryOp::And) } else { None }
        } else if level == 4 {
            if k == TokenKind::EqualEqual {
                Some(BinaryOp::Equal)
            } else if k == TokenKind::BangEqual {
                Some(BinaryOp::NotEqual)
            } else {
                None
            }
        } else if level == 3 {
            if k == TokenKind::Less {
                Some(BinaryOp::Less)
            } else if k == TokenKind::LessEqual {
                Some(BinaryOp::LessEqual)
            } else if k == TokenKind::Greater {
                Some(BinaryOp::Greater)
            } else if k == TokenKind::GreaterEqual {
                Some(BinaryOp::GreaterEqual)
            } else {
                None
            }
        } else if level == 2 {
            if k == TokenKind::Plus {
                Some(BinaryOp::Add)
            } else if k == TokenKind::Minus {
                Some(BinaryOp::Subtract)
            } else {
                None
            }
        } else if level == 1 {
            if k == TokenKind::Star {
                Some(BinaryOp::Multiply)
            } else if k == TokenKind::Slash {
                Some(BinaryOp::Divide)
            } else if k == TokenKind::Percent {
                Some(BinaryOp::Modulo)
            } else {
                None
            }
        } else {
            None
        }
    }

    /// The operators of a precedence level (see `binary_operator`); level 0
    /// is a unary expression.
    fn binary(&mut self, level: u8) -> (r: Result<Expr, ParseError>)
        requires
            level <= 6,
            old(self).ready(),
        ensures
            final(self).moved(*old(self), p_binary(old(self).tokens(), old(self).pos(), level as nat)),
            agrees_expr(r, p_binary(old(self).tokens(), old(self).pos(), level as nat).outcome),
        decreases rem(old(self).tokens(), old(self).pos()), 2 * level + 11,
    {
        if level == 0 {
            return self.unary();
        }
        let ghost t = self.tokens();
        let ghost p0 = self.current as nat;
        let mut expr = self.binary(level - 1)?;
        loop
            invariant
                self.ready(),
                self.tokens() == t,
                p0 <= self.current,
                p0 == old(self).current,
                t == old(self).tokens(),
                1 <= level <= 6,
                p_binary(t, p0, level as nat) == shift(
                    (self.current - p0) as nat,
                    p_binary_rest(t, self.current as nat, level as nat, expr@),
                ),
            ensures
                p_binary(t, p0, level as nat) == done(expr@, (self.current - p0) as nat),
            decreases rem(t, self.current as nat),
        {
            let operator = match self.operator_here(level) {
                Some(op) => op,
                None => {
                    break;
                },
            };
            self.advance();
            let right = match self.binary(level - 1) {
                Ok(right) => right,
                Err(e) => {
                    return Err(e);
                },
            };
            expr = Expr::Binary { left: Box::new(expr), operator, right: Box::new(right) };
        }
        Ok(expr)
    }

    fn unary(&mut self) -> (r: Result<Expr, ParseError>)
        requires
            old(self).ready(),
        ensures
            final(self).moved(*old(self), p_unary(old(self).tokens(), old(self).pos())),
            agrees_expr(r, p_unary(old(self).tokens(), old(self).pos()).outcome),
        decreases rem(old(self).tokens(), old(self).pos()), 5nat,
    {
        if self.match_kind(TokenKind::Bang) {
            let operand = self.unary()?;
            return Ok(Expr::Unary { operator: UnaryOp::Not, operand: Box::new(operand) });
        }
        if self.match_kind(TokenKind::Minus) {
            let operand = self.unary()?;
            return Ok(Expr::Unary { operator: UnaryOp::Negate, operand: Box::new(operand) });
        }
        self.call()
    }

    #[verifier::spinoff_prover]
    fn call(&mut self) -> (r: Result<Expr, ParseError>)
        requires
            old(self).ready(),
        ensures
            final(self).moved(*old(self), p_call(old(self).tokens(), old(self).pos())),
            agrees_expr(r, p_call(old(self).tokens(), old(self).pos()).outcome),
        decreases rem(old(self).tokens(), old(self).pos()), 4nat,
    {
        let ghost t = self.tokens();
        let ghost p0 = self.current as nat;
        let mut expr = self.primary()?;
        loop
            invariant
                self.ready(),
                self.tokens() == t,
                p0 <= self.current,
                p0 == old(self).current,
                t == old(self).tokens(),
                p_call(t, p0) == shift((self.current - p0) as nat, p_call_rest(t, self.current as nat, expr@)),
            ensures
                p_call(t, p0) == done(expr@, (self.current - p0) as nat),
            decreases rem(t, self.current as nat),
        {
            if self.match_kind(TokenKind::LeftParen) {
                let arguments = match self.arguments() {
                    Ok(a) => a,
                    Err(e) => {
                        return Err(e);
                    },
                };
                match self.consume(TokenKind::RightParen, "expected ')' after arguments") {
                    Ok(()) => {},
                    Err(e) => {
                        return Err(e);
                    },
                }
                expr = Expr::Call { callee: Box::new(expr), arguments };
            } else {
                break;
            }
        }
        Ok(expr)
    }

    #[verifier::rlimit(40)]
    #[verifier::spinoff_prover]
    fn arguments(&mut self) -> (r: Result<Vec<Expr>, ParseError>)
        requires
            old(self).ready(),
            old(self).pos() > 0,
        ensures
            final(self).moved(*old(self), p_arguments(old(self).tokens(), old(self).pos())),
            agrees_exprs(r, p_arguments(old(self).tokens(), old(self).pos()).outcome),
        decreases rem(old(self).tokens(), old(self).pos()), 41nat,
    {
        let ghost t = self.tokens();
        let ghost p0 = self.current as nat;
        let mut arguments: Vec<Expr> = Vec::new();
        proof {
            assert(exprs_model(arguments@) =~= Seq::<ExprModel>::empty());
        }
        if self.check(TokenKind::RightParen) {
            return Ok(arguments);
        }
        loop
            invariant
                self.wf(),
                self.tokens() == t,
                self.current > 0,
                p0 <= self.current,
                p0 == old(self).current,
                t == old(self).tokens(),
                p_arguments(t, p0) == shift(
                    (self.current - p0) as nat,
                    p_argument_list(t, self.current as nat, exprs_model(arguments@)),
                ),
            decreases rem(t, self.current as nat),
        {
            let argument = match self.expression() {
                Ok(a) => a,
                Err(e) => {
                    return Err(e);
                },
            };
            proof {
                lemma_exprs_model_push(arguments@, argument);
            }
            arguments.push(argument);
            if !self.match_kind(TokenKind::Comma) {
                return Ok(arguments);
            }
        }
    }

    fn primary(&mut self) -> (r: Result<Expr, ParseError>)
        requires
            old(self).ready(),
        ensures
            final(self).moved(*old(self), p_primary(old(self).tokens(), old(self).pos())),
            agrees_expr(r, p_primary(old(self).tokens(), old(self).pos()).outcome),
        decreases rem(old(self).tokens(), old(self).pos()), 3nat,
    {
        let at_end = self.is_at_end();
        let index = self.advance();
        let kind = self.tokens[index].kind;
        if at_end && kind == TokenKind::LeftParen {
            // The cursor stays on the `(`: the grouping would start over here
            // for ever. Parsing stops instead.
            let error = self.error("parsing does not end");
            self.endless = true;
            return Err(error);
        }
        match kind {
            TokenKind::Number => Ok(Expr::Number(self.tokens[index].literal.clone())),
            TokenKind::String => Ok(Expr::String(self.tokens[index].literal.clone())),
            TokenKind::True => Ok(Expr::Boolean(true)),
            TokenKind::False => Ok(Expr::Boolean(false)),
            TokenKind::Identifier => Ok(Expr::Variable(self.tokens[index].literal.clone())),
            TokenKind::LeftParen => {
                let expr = self.expression()?;
                self.consume(TokenKind::RightParen, "expected ')' after expression")?;
                Ok(expr)
            },
            _ => Err(
                ParseError {
                    message: String::from_str("expected an expression"),
                    line: self.tokens[index].line,
                    column: self.tokens[index].column,
                },
            ),
        }
    }

    /// Moves the cursor to where parsing can resume after an error.
    fn synchronize(&mut self)
        requires
            old(self).wf(),
        ensures
            final(self).wf(),
            final(self).tokens() == old(self).tokens(),
            final(self).pos() == sync_pos(old(self).tokens(), old(self).pos()),
            old(self).pos() <= final(self).pos(),
            resumes_at(final(self).tokens(), final(self).pos() as int),
            forall|j: int| old(self).pos() <= j < final(self).pos() ==> !#[trigger] resumes_at(old(self).tokens(), j),
    {
        let ghost t = self.tokens();
        let ghost target = sync_pos(t, self.current as nat);
        proof {
            lemma_sync_pos_first(t, self.current as nat);
        }
        while !self.is_at_end()
            invariant
                self.wf(),
                self.tokens() == t,
                t == old(self).tokens(),
                target == sync_pos(old(self).tokens(), old(self).current as nat),
                sync_pos(t, self.current as nat) == target,
                old(self).pos() <= target,
                resumes_at(t, target as int),
                forall|j: int| old(self).pos() <= j < target ==> !#[trigger] resumes_at(t, j),
            decreases rem(t, self.current as nat),
        {
            if self.previous_is(TokenKind::Semicolon) {
                return;
            }
            let k = self.peek_kind();
            if k == TokenKind::Let || k == TokenKind::Fn || k == TokenKind::If || k == TokenKind::Return || k
                == TokenKind::Print {
                return;
            }
            self.advance();
        }
    }

    fn expect_identifier(&mut self, message: &str) -> (r: Result<String, ParseError>)
        requires
            old(self).ready(),
        ensures
            final(self).after(*old(self), p_identifier(old(self).tokens(), old(self).pos(), message@).used),
            agrees_name(r, p_identifier(old(self).tokens(), old(self).pos(), message@).outcome),
    {
        let index = self.advance();
        if self.tokens[index].kind == TokenKind::Identifier {
            Ok(self.tokens[index].literal.clone())
        } else {
            Err(self.error(message))
        }
    }

    fn consume(&mut self, expected: TokenKind, message: &str) -> (r: Result<(), ParseError>)
        requires
            old(self).wf(),
            expected != TokenKind::Eof,
        ensures
            kind_at(old(self).tokens(), old(self).pos() as int) == expected ==> (r is Ok && final(self).after(
                *old(self),
                1,
            )),
            kind_at(old(self).tokens(), old(self).pos() as int) != expected ==> (r matches Err(e) && e@ == err_at(
                old(self).tokens(),
                old(self).pos() as int,
                message@,
            ) && final(self).after(*old(self), 0)),
    {
        if self.check(expected) {
            self.advance();
            Ok(())
        } else {
            Err(self.error(message))
        }
    }

    fn match_kind(&mut self, expected: TokenKind) -> (b: bool)
        requires
            old(self).wf(),
            expected != TokenKind::Eof,
        ensures
            b == (kind_at(old(self).tokens(), old(self).pos() as int) == expected),
            final(self).after(*old(self), if b { 1 } else { 0 }),
    {
        if self.check(expected) {
            self.advance();
            true
        } else {
            false
        }
    }

    fn check(&self, expected: TokenKind) -> (b: bool)
        requires
            self.wf(),
        ensures
            b == (kind_at(self.tokens(), self.pos() as int) == expected),
    {
        self.peek_kind() == expected
    }

    fn previous_is(&self, expected: TokenKind) -> (b: bool)
        requires
            self.wf(),
        ensures
            b == (self.pos() > 0 && kind_at(self.tokens(), self.pos() - 1) == expected),
    {
        if self.current == 0 {
            return false;
        }
        self.tokens[self.current - 1].kind == expected
    }

    /// Moves past the token at the cursor unless it is `Eof`, and gives the
    /// index of the token moved past (at the end: the one before the cursor).
    fn advance(&mut self) -> (index: usize)
        requires
            old(self).ready(),
        ensures
            final(self).after(*old(self), taken_len(old(self).tokens(), old(self).pos())),
            index == taken_index(old(self).tokens(), old(self).pos()),
            index < old(self).tokens().len(),
    {
        let n = self.tokens.len();
        if !self.is_at_end() {
            assert(self.current < n);
            self.current = self.current + 1;
        }
        self.current - 1
    }

    fn peek_kind(&self) -> (k: TokenKind)
        requires
            self.wf(),
        ensures
            k == kind_at(self.tokens(), self.pos() as int),
    {
        self.tokens[self.current].kind
    }

    fn is_at_end(&self) -> (b: bool)
        requires
            self.wf(),
        ensures
            b == (kind_at(self.tokens(), self.pos() as int) == TokenKind::Eof),
    {
        self.peek_kind() == TokenKind::Eof
    }

    fn error(&self, message: &str) -> (e: ParseError)
        requires
            self.wf(),
        ensures
            e@ == err_at(self.tokens(), self.pos() as int, message@),
    {
        ParseError {
            message: String::from_str(message),
            line: self.tokens[self.current].line,
            column: self.tokens[self.current].column,
        }
    }
}

} // verus!
