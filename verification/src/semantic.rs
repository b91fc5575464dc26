use vstd::prelude::*;

use crate::ast::{
    params_distinct, expr_model, lemma_exprs_model_index, lemma_stmts_model_index, names_model, stmts_model, exprs_model, BinaryOp, Expr,
    ExprModel, Program, Stmt, StmtModel, UnaryOp,
};
use crate::text::{decimal, decimal_string};
use crate::type_system::{name_of_type, Type};

verus! {

#[derive(Debug, PartialEq, Eq)]
pub struct SemanticError {
    pub message: String,
}

impl View for SemanticError {
    type V = Seq<char>;

    open spec fn view(&self) -> Seq<char> {
        self.message@
    }
}

pub open spec fn errors_view(es: Seq<SemanticError>) -> Seq<Seq<char>> {
    es.map_values(|e: SemanticError| e@)
}

// ---------------------------------------------------------------------------
// The rules, as functions on the analysis state.
// ---------------------------------------------------------------------------

/// The analysis state: the nested scopes (innermost last), each a list of
/// names with their types; the top-level functions with their arities; and
/// the diagnostics reported so far.
pub struct Env {
    pub scopes: Seq<Seq<(Seq<char>, Type)>>,
    pub functions: Seq<(Seq<char>, nat)>,
    pub errors: Seq<Seq<char>>,
}

pub open spec fn initial_env() -> Env {
    Env { scopes: seq![Seq::empty()], functions: Seq::empty(), errors: Seq::empty() }
}

/// The type bound to `name` in one scope (the latest binding wins).
pub open spec fn find_in_scope(s: Seq<(Seq<char>, Type)>, name: Seq<char>) -> Option<Type>
    decreases s.len(),
{
    if s.len() == 0 {
        None
    } else if s.last().0 == name {
        Some(s.last().1)
    } else {
        find_in_scope(s.drop_last(), name)
    }
}

/// The type of `name` in the innermost scope that binds it.
pub open spec fn lookup_var(scopes: Seq<Seq<(Seq<char>, Type)>>, name: Seq<char>) -> Option<Type>
    decreases scopes.len(),
{
    if scopes.len() == 0 {
        None
    } else {
        match find_in_scope(scopes.last(), name) {
            Some(t) => Some(t),
            None => lookup_var(scopes.drop_last(), name),
        }
    }
}

/// The arity of the function `name`, if one was registered.
pub open spec fn find_function(fs: Seq<(Seq<char>, nat)>, name: Seq<char>) -> Option<nat>
    decreases fs.len(),
{
    if fs.len() == 0 {
        None
    } else if fs.last().0 == name {
        Some(fs.last().1)
    } else {
        find_function(fs.drop_last(), name)
    }
}

pub open spec fn report(env: Env, message: Seq<char>) -> Env {
    Env { errors: env.errors.push(message), ..env }
}

pub open spec fn in_current_scope(env: Env, name: Seq<char>) -> bool {
    env.scopes.len() > 0 && find_in_scope(env.scopes.last(), name) is Some
}

pub open spec fn define(env: Env, name: Seq<char>, ty: Type) -> Env {
    if env.scopes.len() > 0 {
        Env { scopes: env.scopes.update(env.scopes.len() - 1, env.scopes.last().push((name, ty))), ..env }
    } else {
        env
    }
}

pub open spec fn begin_scope(env: Env) -> Env {
    Env { scopes: env.scopes.push(Seq::empty()), ..env }
}

pub open spec fn end_scope(env: Env) -> Env {
    if env.scopes.len() > 0 {
        Env { scopes: env.scopes.drop_last(), ..env }
    } else {
        env
    }
}

/// A type mismatch is reported unless the actual type is unknown.
pub open spec fn require_type(env: Env, actual: Type, expected: Type, message: Seq<char>) -> Env {
    if actual != Type::Unknown && actual != expected {
        report(
            env,
            message + " (found "@ + name_of_type(actual) + ", expected "@ + name_of_type(expected) + ")"@,
        )
    } else {
        env
    }
}

pub open spec fn check_binary(env: Env, op: BinaryOp, left: Type, right: Type) -> (Type, Env) {
    match op {
        BinaryOp::Add | BinaryOp::Subtract | BinaryOp::Multiply | BinaryOp::Divide | BinaryOp::Modulo => {
            let m = "arithmetic operators require numbers"@;
            (Type::Number, require_type(require_type(env, left, Type::Number, m), right, Type::Number, m))
        },
        BinaryOp::Less | BinaryOp::LessEqual | BinaryOp::Greater | BinaryOp::GreaterEqual => {
            let m = "comparison operators require numbers"@;
            (Type::Boolean, require_type(require_type(env, left, Type::Number, m), right, Type::Number, m))
        },
        BinaryOp::Equal | BinaryOp::NotEqual => (
            Type::Boolean,
            if left != Type::Unknown && right != Type::Unknown && left != right {
                report(env, "cannot compare "@ + name_of_type(left) + " with "@ + name_of_type(right))
            } else {
                env
            },
        ),
        BinaryOp::And | BinaryOp::Or => {
            let m = "logical operators require bools"@;
            (Type::Boolean, require_type(require_type(env, left, Type::Boolean, m), right, Type::Boolean, m))
        },
    }
}

/// The type of an expression, and the state after checking it.
pub open spec fn check_expr(env: Env, e: ExprModel) -> (Type, Env)
    decreases e,
{
    match e {
        ExprModel::Number(_) => (Type::Number, env),
        ExprModel::Str(_) => (Type::String, env),
        ExprModel::Boolean(_) => (Type::Boolean, env),
        ExprModel::Variable(name) => match lookup_var(env.scopes, name) {
            Some(t) => (t, env),
            None => (Type::Unknown, report(env, "undefined variable '"@ + name + "'"@)),
        },
        ExprModel::Assign(name, value) => {
            let (vt, e1) = check_expr(env, *value);
            let e2 = match lookup_var(e1.scopes, name) {
                Some(et) => if et != Type::Unknown && vt != Type::Unknown && et != vt {
                    report(
                        e1,
                        "cannot assign "@ + name_of_type(vt) + " to variable '"@ + name + "' of type "@
                            + name_of_type(et),
                    )
                } else {
                    e1
                },
                None => report(e1, "cannot assign to undefined variable '"@ + name + "'"@),
            };
            (vt, e2)
        },
        ExprModel::Unary(op, operand) => {
            let (ot, e1) = check_expr(env, *operand);
            match op {
                UnaryOp::Negate => (Type::Number, require_type(e1, ot, Type::Number, "unary '-' requires a number"@)),
                UnaryOp::Not => (Type::Boolean, require_type(e1, ot, Type::Boolean, "unary '!' requires a bool"@)),
            }
        },
        ExprModel::Binary(l, op, r) => {
            let (lt, e1) = check_expr(env, *l);
            let (rt, e2) = check_expr(e1, *r);
            check_binary(e2, op, lt, rt)
        },
        ExprModel::Call(callee, args) => {
            let e1 = check_args(env, args);
            (
                Type::Unknown,
                match *callee {
                    ExprModel::Variable(name) => match find_function(e1.functions, name) {
                        Some(arity) => if arity != args.len() {
                            report(
                                e1,
                                "function '"@ + name + "' expects "@ + decimal(arity) + " argument(s), got "@
                                    + decimal(args.len()),
                            )
                        } else {
                            e1
                        },
                        None => report(e1, "undefined function '"@ + name + "'"@),
                    },
                    _ => report(e1, "only named functions can be called"@),
                },
            )
        },
    }
}

/// Checking the arguments of a call in order; their types are not used.
pub open spec fn check_args(env: Env, es: Seq<ExprModel>) -> Env
    decreases es,
{
    if es.len() == 0 {
        env
    } else {
        check_args(check_expr(env, es[0]).1, es.subrange(1, es.len() as int))
    }
}

/// Declaring the parameters of a function in its new scope.
pub open spec fn declare_params(env: Env, ps: Seq<Seq<char>>) -> Env
    decreases ps.len(),
{
    if ps.len() == 0 {
        env
    } else {
        let p = ps[0];
        let e1 = if in_current_scope(env, p) {
            report(env, "parameter '"@ + p + "' is declared more than once"@)
        } else {
            define(env, p, Type::Unknown)
        };
        declare_params(e1, ps.subrange(1, ps.len() as int))
    }
}

/// The type a statement yields (that of a returned value, else void), and the
/// state after checking it.
pub open spec fn check_stmt(env: Env, s: StmtModel) -> (Type, Env)
    decreases s,
{
    match s {
        StmtModel::Let(name, annotation, init) => {
            let (vt, e1) = check_expr(env, init);
            let e2 = match annotation {
                Some(expected) => if expected == Type::Void {
                    report(e1, "variable '"@ + name + "' cannot have type void"@)
                } else if vt != Type::Unknown && vt != expected {
                    report(
                        e1,
                        "type annotation for '"@ + name + "' expects "@ + name_of_type(expected) + ", found "@
                            + name_of_type(vt),
                    )
                } else {
                    e1
                },
                None => e1,
            };
            let e3 = if in_current_scope(e2, name) {
                report(e2, "variable '"@ + name + "' is already declared in this scope"@)
            } else {
                define(
                    e2,
                    name,
                    match annotation {
                        Some(t) => t,
                        None => vt,
                    },
                )
            };
            (Type::Void, e3)
        },
        StmtModel::Expression(e) => (Type::Void, check_expr(env, e).1),
        StmtModel::Print(e) => (Type::Void, check_expr(env, e).1),
        StmtModel::Return(v) => match v {
            Some(e) => check_expr(env, e),
            None => (Type::Void, env),
        },
        StmtModel::Block(ss) => (Type::Void, end_scope(check_stmts(begin_scope(env), ss))),
        StmtModel::If(c, t, e) => {
            let (ct, e1) = check_expr(env, c);
            let e2 = require_type(e1, ct, Type::Boolean, "if condition must be bool"@);
            let e3 = check_stmt(e2, *t).1;
            let e4 = match e {
                Some(b) => check_stmt(e3, *b).1,
                None => e3,
            };
            (Type::Void, e4)
        },
        StmtModel::Function(_, params, body) => (
            Type::Void,
            end_scope(check_stmts(declare_params(begin_scope(env), params), body)),
        ),
    }
}

pub open spec fn check_stmts(env: Env, ss: Seq<StmtModel>) -> Env
    decreases ss,
{
    if ss.len() == 0 {
        env
    } else {
        check_stmts(check_stmt(env, ss[0]).1, ss.subrange(1, ss.len() as int))
    }
}

/// Registering the top-level functions, in order; a name used twice is reported.
pub open spec fn register_functions(env: Env, ss: Seq<StmtModel>) -> Env
    decreases ss.len(),
{
    if ss.len() == 0 {
        env
    } else {
        let e1 = match ss[0] {
            StmtModel::Function(name, params, _) => if find_function(env.functions, name) is Some {
                report(env, "function '"@ + name + "' is already declared"@)
            } else {
                Env { functions: env.functions.push((name, params.len())), ..env }
            },
            _ => env,
        };
        register_functions(e1, ss.subrange(1, ss.len() as int))
    }
}

/// The diagnostics of a program analyzed from state `env`.
pub open spec fn analysis_errors_from(env: Env, program: Seq<StmtModel>) -> Seq<Seq<char>> {
    check_stmts(register_functions(env, program), program).errors
}

/// The diagnostics of a program, in the order they are found.
pub open spec fn analysis_errors(program: Seq<StmtModel>) -> Seq<Seq<char>> {
    analysis_errors_from(initial_env(), program)
}

} // verus!

verus! {

// ---------------------------------------------------------------------------
// The analyzer.
// ---------------------------------------------------------------------------

struct Binding {
    name: String,
    ty: Type,
}

struct FunctionInfo {
    name: String,
    arity: usize,
}

spec fn scope_view(bs: Seq<Binding>) -> Seq<(Seq<char>, Type)> {
    bs.map_values(|b: Binding| (b.name@, b.ty))
}

/// Checks names, scopes, arities and operand types, collecting every
/// diagnostic instead of stopping at the first.
pub struct Analyzer {
    scopes: Vec<Vec<Binding>>,
    functions: Vec<FunctionInfo>,
    errors: Vec<SemanticError>,
}

impl View for Analyzer {
    type V = Env;

    closed spec fn view(&self) -> Env {
        Env {
            scopes: self.scopes@.map_values(|s: Vec<Binding>| scope_view(s@)),
            functions: self.functions@.map_values(|f: FunctionInfo| (f.name@, f.arity as nat)),
            errors: errors_view(self.errors@),
        }
    }
}

impl Analyzer {
    /// An analyzer with one empty global scope and nothing registered.
    pub fn new() -> (a: Self)
        ensures
            a@ == initial_env(),
    {
        let mut scopes: Vec<Vec<Binding>> = Vec::new();
        scopes.push(Vec::new());
        let a = Analyzer { scopes, functions: Vec::new(), errors: Vec::new() };
        proof {
            assert(scope_view(Seq::<Binding>::empty()) =~= Seq::empty());
            assert(a@.scopes =~= initial_env().scopes);
            assert(a@.functions =~= initial_env().functions);
            assert(a@.errors =~= initial_env().errors);
        }
        a
    }

    /// Every diagnostic of the program, or `Ok` when there is none.
    pub fn analyze(self, program: &Program) -> (r: Result<(), Vec<SemanticError>>)
        ensures
            analysis_errors_from(self@, program@).len() == 0 ==> r is Ok,
            analysis_errors_from(self@, program@).len() > 0 ==> (r matches Err(es) && errors_view(es@)
                == analysis_errors_from(self@, program@)),
    {
        let mut analyzer = self;
        analyzer.register_functions(program);
        analyzer.check_statements(&program.statements);
        if analyzer.errors.len() == 0 {
            Ok(())
        } else {
            Err(analyzer.errors)
        }
    }

    fn register_functions(&mut self, program: &Program)
        ensures
            final(self)@ == register_functions(old(self)@, program@),
    {
        let ghost ss = program@;
        let n = program.statements.len();
        proof {
            lemma_stmts_model_len_eq(program.statements@);
        }
        let mut i: usize = 0;
        assert(ss.subrange(0, n as int) =~= ss);
        while i < n
            invariant
                n == program.statements@.len(),
                ss == program@,
                ss.len() == n,
                i <= n,
                register_functions(old(self)@, ss) == register_functions(self@, ss.subrange(i as int, n as int)),
            decreases n - i,
        {
            let ghost before = self@;
            proof {
                lemma_stmts_model_index(program.statements@, i as int);
                assert(ss.subrange(i as int, n as int)[0] == ss[i as int]);
                assert(ss.subrange(i as int, n as int).subrange(1, (n - i) as int) =~= ss.subrange(i + 1, n as int));
            }
            match &program.statements[i] {
                Stmt::Function { name, params, .. } => {
                    if self.function_arity(name).is_some() {
                        let mut m = String::from_str("function '");
                        m.append(name.as_str());
                        m.append("' is already declared");
                        proof {
                            assert(m@ =~= "function '"@ + name@ + "' is already declared"@);
                        }
                        self.error(m);
                    } else {
                        let ghost fs = self@.functions;
                        self.functions.push(FunctionInfo { name: name.clone(), arity: params.len() });
                        proof {
                            assert(names_model(params@).len() == params@.len());
                            assert(self@.functions =~= fs.push((name@, params@.len() as nat)));
                        }
                    }
                },
                _ => {},
            }
            i = i + 1;
        }
        proof {
            assert(ss.subrange(n as int, n as int) =~= Seq::<StmtModel>::empty());
        }
    }

    fn check_statements(&mut self, statements: &Vec<Stmt>)
        ensures
            final(self)@ == check_stmts(old(self)@, stmts_model(statements@)),
        decreases statements@, 0nat,
    {
        let ghost ss = stmts_model(statements@);
        let n = statements.len();
        proof {
            lemma_stmts_model_len_eq(statements@);
        }
        let mut i: usize = 0;
        assert(ss.subrange(0, n as int) =~= ss);
        while i < n
            invariant
                n == statements@.len(),
                ss == stmts_model(statements@),
                ss.len() == n,
                i <= n,
                check_stmts(old(self)@, ss) == check_stmts(self@, ss.subrange(i as int, n as int)),
            decreases n - i,
        {
            proof {
                lemma_stmts_model_index(statements@, i as int);
                assert(ss.subrange(i as int, n as int)[0] == ss[i as int]);
                assert(ss.subrange(i as int, n as int).subrange(1, (n - i) as int) =~= ss.subrange(i + 1, n as int));
            }
            self.check_statement(&statements[i]);
            i = i + 1;
        }
        proof {
            assert(ss.subrange(n as int, n as int) =~= Seq::<StmtModel>::empty());
        }
    }

    fn check_statement(&mut self, statement: &Stmt) -> (ty: Type)
        ensures
            (ty, final(self)@) == check_stmt(old(self)@, statement@),
            statement@ is Block || statement@ is Function ==> {
                &&& ty == Type::Void
                &&& final(self)@.scopes == old(self)@.scopes
                &&& forall|n: Seq<char>| #[trigger] lookup_var(final(self)@.scopes, n) == lookup_var(old(self)@.scopes, n)
                &&& forall|n: Seq<char>| #[trigger] in_current_scope(final(self)@, n) == in_current_scope(old(self)@, n)
                &&& final(self)@.functions == old(self)@.functions
                &&& final(self)@.errors.subrange(0, old(self)@.errors.len() as int) == old(self)@.errors
            },
        decreases statement, 1nat,
    {
        proof {
            match statement@ {
                StmtModel::Block(ss) => lemma_block_restores_scopes(self@, ss),
                StmtModel::Function(n, ps, body) => lemma_function_restores_scopes(self@, n, ps, body),
                _ => {},
            }
        }
        match statement {
            Stmt::Let { name, type_annotation, initializer } => {
                let value_type = self.check_expression(initializer);
                match type_annotation {
                    Some(expected) => {
                        if *expected == Type::Void {
                            let mut m = String::from_str("variable '");
                            m.append(name.as_str());
                            m.append("' cannot have type void");
                            proof {
                                assert(m@ =~= "variable '"@ + name@ + "' cannot have type void"@);
                            }
                            self.error(m);
                        } else if value_type != Type::Unknown && value_type != *expected {
                            let mut m = String::from_str("type annotation for '");
                            m.append(name.as_str());
                            m.append("' expects ");
                            m.append(expected.name());
                            m.append(", found ");
                            m.append(value_type.name());
                            proof {
                                assert(m@ =~= "type annotation for '"@ + name@ + "' expects "@ + name_of_type(
                                    *expected,
                                ) + ", found "@ + name_of_type(value_type));
                            }
                            self.error(m);
                        }
                    },
                    None => {},
                }
                if self.current_scope_contains(name) {
                    let mut m = String::from_str("variable '");
                    m.append(name.as_str());
                    m.append("' is already declared in this scope");
                    proof {
                        assert(m@ =~= "variable '"@ + name@ + "' is already declared in this scope"@);
                    }
                    self.error(m);
                } else {
                    let ty = match type_annotation {
                        Some(t) => *t,
                        None => value_type,
                    };
                    self.define(name.clone(), ty);
                }
                Type::Void
            },
            Stmt::Expression(expression) => {
                self.check_expression(expression);
                Type::Void
            },
            Stmt::Print(expression) => {
                self.check_expression(expression);
                Type::Void
            },
            Stmt::Return(value) => {
                match value {
                    Some(expression) => self.check_expression(expression),
                    None => Type::Void,
                }
            },
            Stmt::Block(statements) => {
                self.begin_scope();
                self.check_statements(statements);
                self.end_scope();
                Type::Void
            },
            Stmt::If { condition, then_branch, else_branch } => {
                let condition_type = self.check_expression(condition);
                self.require_type(condition_type, Type::Boolean, "if condition must be bool");
                self.check_statement(then_branch);
                match else_branch {
                    Some(branch) => {
                        self.check_statement(branch);
                    },
                    None => {},
                }
                Type::Void
            },
            Stmt::Function { params, body, .. } => {
                self.begin_scope();
                self.declare_params(params);
                self.check_statements(body);
                self.end_scope();
                Type::Void
            },
        }
    }

    fn declare_params(&mut self, params: &Vec<String>)
        ensures
            final(self)@ == declare_params(old(self)@, names_model(params@)),
    {
        let ghost ps = names_model(params@);
        let n = params.len();
        let mut i: usize = 0;
        assert(ps.subrange(0, n as int) =~= ps);
        while i < n
            invariant
                n == params@.len(),
                ps == names_model(params@),
                ps.len() == n,
                i <= n,
                declare_params(old(self)@, ps) == declare_params(self@, ps.subrange(i as int, n as int)),
            decreases n - i,
        {
            proof {
                assert(ps.subrange(i as int, n as int)[0] == params@[i as int]@);
                assert(ps.subrange(i as int, n as int).subrange(1, (n - i) as int) =~= ps.subrange(i + 1, n as int));
            }
            let parameter = &params[i];
            if self.current_scope_contains(parameter) {
                let mut m = String::from_str("parameter '");
                m.append(parameter.as_str());
                m.append("' is declared more than once");
                proof {
                    assert(m@ =~= "parameter '"@ + parameter@ + "' is declared more than once"@);
                }
                self.error(m);
            } else {
                self.define(parameter.clone(), Type::Unknown);
            }
            i = i + 1;
        }
        proof {
            assert(ps.subrange(n as int, n as int) =~= Seq::<Seq<char>>::empty());
        }
    }

    fn check_expression(&mut self, expression: &Expr) -> (ty: Type)
        ensures
            (ty, final(self)@) == check_expr(old(self)@, expression@),
            final(self)@.scopes == old(self)@.scopes,
            forall|n: Seq<char>| #[trigger] lookup_var(final(self)@.scopes, n) == lookup_var(old(self)@.scopes, n),
            final(self)@.functions == old(self)@.functions,
            old(self)@.errors.len() <= final(self)@.errors.len(),
            final(self)@.errors.subrange(0, old(self)@.errors.len() as int) == old(self)@.errors,
        decreases expression, 1nat,
    {
        proof {
            lemma_expression_declares_nothing(self@, expression@);
        }
        match expression {
            Expr::Number(_) => Type::Number,
            Expr::String(_) => Type::String,
            Expr::Boolean(_) => Type::Boolean,
            Expr::Variable(name) => match self.lookup(name) {
                Some(ty) => ty,
                None => {
                    let mut m = String::from_str("undefined variable '");
                    m.append(name.as_str());
                    m.append("'");
                    proof {
                        assert(m@ =~= "undefined variable '"@ + name@ + "'"@);
                    }
                    self.error(m);
                    Type::Unknown
                },
            },
            Expr::Assign { name, value } => {
                let value_type = self.check_expression(value);
                match self.lookup(name) {
                    Some(existing_type) => {
                        if existing_type != Type::Unknown && value_type != Type::Unknown && existing_type
                            != value_type {
                            let mut m = String::from_str("cannot assign ");
                            m.append(value_type.name());
                            m.append(" to variable '");
                            m.append(name.as_str());
                            m.append("' of type ");
                            m.append(existing_type.name());
                            proof {
                                assert(m@ =~= "cannot assign "@ + name_of_type(value_type) + " to variable '"@ + name@ + "' of type "@ + name_of_type(existing_type));
                            }
                            self.error(m);
                        }
                    },
                    None => {
                        let mut m = String::from_str("cannot assign to undefined variable '");
                        m.append(name.as_str());
                        m.append("'");
                        proof {
                            assert(m@ =~= "cannot assign to undefined variable '"@ + name@ + "'"@);
                        }
                        self.error(m);
                    },
                }
                value_type
            },
            Expr::Unary { operator, operand } => {
                let operand_type = self.check_expression(operand);
                match operator {
                    UnaryOp::Negate => {
                        self.require_type(operand_type, Type::Number, "unary '-' requires a number");
                        Type::Number
                    },
                    UnaryOp::Not => {
                        self.require_type(operand_type, Type::Boolean, "unary '!' requires a bool");
                        Type::Boolean
                    },
                }
            },
            Expr::Binary { left, operator, right } => {
                let left_type = self.check_expression(left);
                let right_type = self.check_expression(right);
                self.check_binary(*operator, left_type, right_type)
            },
            Expr::Call { callee, arguments } => {
                self.check_arguments(arguments);
                let ghost args = exprs_model(arguments@);
                assert(expression@ == ExprModel::Call(Box::new(expr_model(&**callee)), args));
                proof {
                    crate::ast::lemma_exprs_model_len(arguments@);
                }
                match &**callee {
                    Expr::Variable(name) => match self.function_arity(name) {
                        Some(arity) => {
                            if arity != arguments.len() {
                                let mut m = String::from_str("function '");
                                m.append(name.as_str());
                                m.append("' expects ");
                                m.append(decimal_string(arity).as_str());
                                m.append(" argument(s), got ");
                                m.append(decimal_string(arguments.len()).as_str());
                                proof {
                                    assert(m@ =~= "function '"@ + name@ + "' expects "@ + decimal(arity as nat)
                                        + " argument(s), got "@ + decimal(args.len()));
                                }
                                self.error(m);
                            }
                        },
                        None => {
                            let mut m = String::from_str("undefined function '");
                            m.append(name.as_str());
                            m.append("'");
                            proof {
                                assert(m@ =~= "undefined function '"@ + name@ + "'"@);
                            }
                            self.error(m);
                        },
                    },
                    _ => {
                        assert(!(expr_model(&**callee) is Variable));
                        self.error(String::from_str("only named functions can be called"));
                    },
                }
                Type::Unknown
            },
        }
    }

    fn check_arguments(&mut self, arguments: &Vec<Expr>)
        ensures
            final(self)@ == check_args(old(self)@, exprs_model(arguments@)),
        decreases arguments@, 0nat,
    {
        let ghost es = exprs_model(arguments@);
        let n = arguments.len();
        proof {
            crate::ast::lemma_exprs_model_len(arguments@);
        }
        let mut i: usize = 0;
        assert(es.subrange(0, n as int) =~= es);
        while i < n
            invariant
                n == arguments@.len(),
                es == exprs_model(arguments@),
                es.len() == n,
                i <= n,
                check_args(old(self)@, es) == check_args(self@, es.subrange(i as int, n as int)),
            decreases n - i,
        {
            proof {
                lemma_exprs_model_index(arguments@, i as int);
                assert(es.subrange(i as int, n as int)[0] == es[i as int]);
                assert(es.subrange(i as int, n as int).subrange(1, (n - i) as int) =~= es.subrange(i + 1, n as int));
            }
            self.check_expression(&arguments[i]);
            i = i + 1;
        }
        proof {
            assert(es.subrange(n as int, n as int) =~= Seq::<ExprModel>::empty());
        }
    }

    fn check_binary(&mut self, operator: BinaryOp, left: Type, right: Type) -> (ty: Type)
        ensures
            (ty, final(self)@) == check_binary(old(self)@, operator, left, right),
    {
        match operator {
            BinaryOp::Add | BinaryOp::Subtract | BinaryOp::Multiply | BinaryOp::Divide | BinaryOp::Modulo => {
                self.require_type(left, Type::Number, "arithmetic operators require numbers");
                self.require_type(right, Type::Number, "arithmetic operators require numbers");
                Type::Number
            },
            BinaryOp::Less | BinaryOp::LessEqual | BinaryOp::Greater | BinaryOp::GreaterEqual => {
                self.require_type(left, Type::Number, "comparison operators require numbers");
                self.require_type(right, Type::Number, "comparison operators require numbers");
                Type::Boolean
            },
            BinaryOp::Equal | BinaryOp::NotEqual => {
                if left != Type::Unknown && right != Type::Unknown && left != right {
                    let mut m = String::from_str("cannot compare ");
                    m.append(left.name());
                    m.append(" with ");
                    m.append(right.name());
                    self.error(m);
                }
                Type::Boolean
            },
            BinaryOp::And | BinaryOp::Or => {
                self.require_type(left, Type::Boolean, "logical operators require bools");
                self.require_type(right, Type::Boolean, "logical operators require bools");
                Type::Boolean
            },
        }
    }

    fn require_type(&mut self, actual: Type, expected: Type, message: &str)
        ensures
            final(self)@ == require_type(old(self)@, actual, expected, message@),
    {
        if actual != Type::Unknown && actual != expected {
            let mut m = String::from_str(message);
            m.append(" (found ");
            m.append(actual.name());
            m.append(", expected ");
            m.append(expected.name());
            m.append(")");
            self.error(m);
        }
    }

    fn begin_scope(&mut self)
        ensures
            final(self)@ == begin_scope(old(self)@),
    {
        self.scopes.push(Vec::new());
        proof {
            assert(scope_view(Seq::<Binding>::empty()) =~= Seq::empty());
            assert(self@.scopes =~= old(self)@.scopes.push(Seq::empty()));
        }
    }

    fn end_scope(&mut self)
        ensures
            final(self)@ == end_scope(old(self)@),
    {
        let _ = self.scopes.pop();
        proof {
            if old(self).scopes@.len() > 0 {
                assert(self@.scopes =~= old(self)@.scopes.drop_last());
            }
        }
    }

    fn define(&mut self, name: String, ty: Type)
        ensures
            final(self)@ == define(old(self)@, name@, ty),
    {
        match self.scopes.pop() {
            Some(mut scope) => {
                let ghost before = scope@;
                scope.push(Binding { name, ty });
                self.scopes.push(scope);
                proof {
                    assert(scope_view(scope@) =~= scope_view(before).push((name@, ty)));
                    assert(self@.scopes =~= old(self)@.scopes.update(
                        old(self)@.scopes.len() - 1,
                        old(self)@.scopes.last().push((name@, ty)),
                    ));
                }
            },
            None => {},
        }
    }

    fn current_scope_contains(&self, name: &String) -> (b: bool)
        ensures
            b == in_current_scope(self@, name@),
    {
        let n = self.scopes.len();
        if n == 0 {
            return false;
        }
        find_binding(&self.scopes[n - 1], name).is_some()
    }

    fn lookup(&self, name: &String) -> (r: Option<Type>)
        ensures
            r == lookup_var(self@.scopes, name@),
    {
        let ghost sv = self@.scopes;
        let mut i = self.scopes.len();
        proof {
            assert(sv.subrange(0, i as int) =~= sv);
        }
        while i > 0
            invariant
                i <= self.scopes@.len(),
                sv == self@.scopes,
                lookup_var(sv, name@) == lookup_var(sv.subrange(0, i as int), name@),
            decreases i,
        {
            i = i - 1;
            proof {
                assert(sv.subrange(0, i + 1).drop_last() =~= sv.subrange(0, i as int));
            }
            match find_binding(&self.scopes[i], name) {
                Some(ty) => {
                    return Some(ty);
                },
                None => {},
            }
        }
        None
    }

    fn function_arity(&self, name: &String) -> (r: Option<usize>)
        ensures
            match r {
                Some(a) => find_function(self@.functions, name@) == Some(a as nat),
                None => find_function(self@.functions, name@) is None,
            },
    {
        let ghost fv = self@.functions;
        let mut i = self.functions.len();
        proof {
            assert(fv.subrange(0, i as int) =~= fv);
        }
        while i > 0
            invariant
                i <= self.functions@.len(),
                fv == self@.functions,
                find_function(fv, name@) == find_function(fv.subrange(0, i as int), name@),
            decreases i,
        {
            i = i - 1;
            proof {
                assert(fv.subrange(0, i + 1).drop_last() =~= fv.subrange(0, i as int));
            }
            if self.functions[i].name.eq(name) {
                return Some(self.functions[i].arity);
            }
        }
        None
    }

    fn error(&mut self, message: String)
        ensures
            final(self)@ == report(old(self)@, message@),
    {
        let ghost before = errors_view(self.errors@);
        self.errors.push(SemanticError { message });
        proof {
            assert(errors_view(self.errors@) =~= before.push(message@));
        }
    }
}

/// The type bound to `name` in one scope (the latest binding wins).
fn find_binding(scope: &Vec<Binding>, name: &String) -> (r: Option<Type>)
    ensures
        r == find_in_scope(scope_view(scope@), name@),
{
    let ghost sv = scope_view(scope@);
    let mut i = scope.len();
    proof {
        assert(sv.subrange(0, i as int) =~= sv);
    }
    while i > 0
        invariant
            i <= scope@.len(),
            sv == scope_view(scope@),
            find_in_scope(sv, name@) == find_in_scope(sv.subrange(0, i as int), name@),
        decreases i,
    {
        i = i - 1;
        proof {
            assert(sv.subrange(0, i + 1).drop_last() =~= sv.subrange(0, i as int));
        }
        if scope[i].name.eq(name) {
            return Some(scope[i].ty);
        }
    }
    None
}

proof fn lemma_stmts_model_len_eq(ss: Seq<Stmt>)
    ensures
        stmts_model(ss).len() == ss.len(),
{
    crate::ast::lemma_stmts_model_len(ss);
}

/// Semantic analysis of a program with a fresh analyzer.
pub fn analyze(program: &Program) -> (r: Result<(), Vec<SemanticError>>)
    ensures
        analysis_errors(program@).len() == 0 ==> r is Ok,
        analysis_errors(program@).len() > 0 ==> (r matches Err(es) && errors_view(es@) == analysis_errors(
            program@,
        )),
{
    Analyzer::new().analyze(program)
}

} // verus!

verus! {

// ---------------------------------------------------------------------------
// Scopes: checking a statement only ever declares into the innermost scope,
// so the names a block declares are gone once it ends.
// ---------------------------------------------------------------------------

/// `e2` has the same scopes as `e1` except possibly the innermost one, the
/// same functions, and all diagnostics of `e1` followed by possibly more.
pub open spec fn frame_kept(e1: Env, e2: Env) -> bool {
    &&& e2.scopes.len() == e1.scopes.len()
    &&& forall|i: int| 0 <= i < e1.scopes.len() - 1 ==> #[trigger] e2.scopes[i] == e1.scopes[i]
    &&& e2.functions == e1.functions
    &&& e1.errors.len() <= e2.errors.len()
    &&& e2.errors.subrange(0, e1.errors.len() as int) == e1.errors
}

proof fn lemma_frame_refl(e: Env)
    ensures
        frame_kept(e, e),
{
    assert(e.errors.subrange(0, e.errors.len() as int) =~= e.errors);
}

proof fn lemma_frame_trans(a: Env, b: Env, c: Env)
    requires
        frame_kept(a, b),
        frame_kept(b, c),
    ensures
        frame_kept(a, c),
{
    assert(c.errors.subrange(0, a.errors.len() as int) =~= b.errors.subrange(0, a.errors.len() as int));
}

proof fn lemma_report_frame(e: Env, m: Seq<char>)
    ensures
        frame_kept(e, report(e, m)),
{
    assert(report(e, m).errors.subrange(0, e.errors.len() as int) =~= e.errors);
}

proof fn lemma_require_frame(e: Env, actual: Type, expected: Type, m: Seq<char>)
    ensures
        frame_kept(e, require_type(e, actual, expected, m)),
{
    lemma_frame_refl(e);
    if actual != Type::Unknown && actual != expected {
        lemma_report_frame(
            e,
            m + " (found "@ + name_of_type(actual) + ", expected "@ + name_of_type(expected) + ")"@,
        );
    }
}

proof fn lemma_define_frame(e: Env, n: Seq<char>, t: Type)
    requires
        e.scopes.len() >= 1,
    ensures
        frame_kept(e, define(e, n, t)),
{
    lemma_frame_refl(e);
}

proof fn lemma_expr_frame(env: Env, e: ExprModel)
    ensures
        frame_kept(env, check_expr(env, e).1),
        check_expr(env, e).1.scopes == env.scopes,
    decreases e,
{
    lemma_frame_refl(env);
    match e {
        ExprModel::Variable(name) => {
            lemma_report_frame(env, "undefined variable '"@ + name + "'"@);
        },
        ExprModel::Assign(name, value) => {
            lemma_expr_frame(env, *value);
            let (vt, e1) = check_expr(env, *value);
            lemma_frame_refl(e1);
            match lookup_var(e1.scopes, name) {
                Some(et) => {
                    if et != Type::Unknown && vt != Type::Unknown && et != vt {
                        let m = "cannot assign "@ + name_of_type(vt) + " to variable '"@ + name + "' of type "@
                            + name_of_type(et);
                        lemma_report_frame(e1, m);
                        lemma_frame_trans(env, e1, report(e1, m));
                    }
                },
                None => {
                    let m = "cannot assign to undefined variable '"@ + name + "'"@;
                    lemma_report_frame(e1, m);
                    lemma_frame_trans(env, e1, report(e1, m));
                },
            }
        },
        ExprModel::Unary(op, operand) => {
            lemma_expr_frame(env, *operand);
            let (ot, e1) = check_expr(env, *operand);
            lemma_require_frame(e1, ot, Type::Number, "unary '-' requires a number"@);
            lemma_require_frame(e1, ot, Type::Boolean, "unary '!' requires a bool"@);
            lemma_frame_trans(env, e1, check_expr(env, e).1);
        },
        ExprModel::Binary(l, op, r) => {
            lemma_expr_frame(env, *l);
            let (lt, e1) = check_expr(env, *l);
            lemma_expr_frame(e1, *r);
            let (rt, e2) = check_expr(e1, *r);
            lemma_frame_trans(env, e1, e2);
            let e3 = check_binary(e2, op, lt, rt).1;
            assert(frame_kept(e2, e3)) by {
                let ma = "arithmetic operators require numbers"@;
                let mc = "comparison operators require numbers"@;
                let ml = "logical operators require bools"@;
                lemma_require_frame(e2, lt, Type::Number, ma);
                lemma_require_frame(require_type(e2, lt, Type::Number, ma), rt, Type::Number, ma);
                lemma_frame_trans(e2, require_type(e2, lt, Type::Number, ma), require_type(require_type(e2, lt, Type::Number, ma), rt, Type::Number, ma));
                lemma_require_frame(e2, lt, Type::Number, mc);
                lemma_require_frame(require_type(e2, lt, Type::Number, mc), rt, Type::Number, mc);
                lemma_frame_trans(e2, require_type(e2, lt, Type::Number, mc), require_type(require_type(e2, lt, Type::Number, mc), rt, Type::Number, mc));
                lemma_require_frame(e2, lt, Type::Boolean, ml);
                lemma_require_frame(require_type(e2, lt, Type::Boolean, ml), rt, Type::Boolean, ml);
                lemma_frame_trans(e2, require_type(e2, lt, Type::Boolean, ml), require_type(require_type(e2, lt, Type::Boolean, ml), rt, Type::Boolean, ml));
                lemma_frame_refl(e2);
                lemma_report_frame(e2, "cannot compare "@ + name_of_type(lt) + " with "@ + name_of_type(rt));
            }
            lemma_frame_trans(env, e2, e3);
        },
        ExprModel::Call(callee, args) => {
            lemma_args_frame(env, args);
            let e1 = check_args(env, args);
            lemma_frame_refl(e1);
            let e2 = check_expr(env, e).1;
            assert(frame_kept(e1, e2)) by {
                match *callee {
                    ExprModel::Variable(name) => match find_function(e1.functions, name) {
                        Some(arity) => {
                            lemma_report_frame(
                                e1,
                                "function '"@ + name + "' expects "@ + crate::text::decimal(arity)
                                    + " argument(s), got "@ + crate::text::decimal(args.len()),
                            );
                        },
                        None => lemma_report_frame(e1, "undefined function '"@ + name + "'"@),
                    },
                    _ => lemma_report_frame(e1, "only named functions can be called"@),
                }
            }
            lemma_frame_trans(env, e1, e2);
        },
        _ => {},
    }
}

proof fn lemma_args_frame(env: Env, es: Seq<ExprModel>)
    ensures
        frame_kept(env, check_args(env, es)),
        check_args(env, es).scopes == env.scopes,
    decreases es,
{
    if es.len() == 0 {
        lemma_frame_refl(env);
    } else {
        lemma_expr_frame(env, es[0]);
        let e1 = check_expr(env, es[0]).1;
        lemma_args_frame(e1, es.subrange(1, es.len() as int));
        lemma_frame_trans(env, e1, check_args(e1, es.subrange(1, es.len() as int)));
    }
}

proof fn lemma_params_frame(env: Env, ps: Seq<Seq<char>>)
    requires
        env.scopes.len() >= 1,
    ensures
        frame_kept(env, declare_params(env, ps)),
    decreases ps.len(),
{
    if ps.len() == 0 {
        lemma_frame_refl(env);
    } else {
        let p = ps[0];
        let e1 = if in_current_scope(env, p) {
            report(env, "parameter '"@ + p + "' is declared more than once"@)
        } else {
            define(env, p, Type::Unknown)
        };
        lemma_report_frame(env, "parameter '"@ + p + "' is declared more than once"@);
        lemma_define_frame(env, p, Type::Unknown);
        lemma_params_frame(e1, ps.subrange(1, ps.len() as int));
        lemma_frame_trans(env, e1, declare_params(e1, ps.subrange(1, ps.len() as int)));
    }
}

/// Begin a scope, run `inner`, end it: the outer scopes come back as they were.
proof fn lemma_scoped(env: Env, inner: Env)
    requires
        frame_kept(begin_scope(env), inner),
    ensures
        end_scope(inner).scopes == env.scopes,
        frame_kept(env, end_scope(inner)),
{
    let b = begin_scope(env);
    assert(end_scope(inner).scopes =~= env.scopes) by {
        assert forall|i: int| 0 <= i < env.scopes.len() implies end_scope(inner).scopes[i] == env.scopes[i] by {
            assert(inner.scopes[i] == b.scopes[i]);
        }
    }
    assert(end_scope(inner).errors.subrange(0, env.errors.len() as int) =~= env.errors);
}

proof fn lemma_stmt_frame(env: Env, s: StmtModel)
    requires
        env.scopes.len() >= 1,
    ensures
        frame_kept(env, check_stmt(env, s).1),
    decreases s,
{
    lemma_frame_refl(env);
    match s {
        StmtModel::Let(name, annotation, init) => {
            lemma_expr_frame(env, init);
            let (vt, e1) = check_expr(env, init);
            let e2 = match annotation {
                Some(expected) => if expected == Type::Void {
                    report(e1, "variable '"@ + name + "' cannot have type void"@)
                } else if vt != Type::Unknown && vt != expected {
                    report(
                        e1,
                        "type annotation for '"@ + name + "' expects "@ + name_of_type(expected) + ", found "@
                            + name_of_type(vt),
                    )
                } else {
                    e1
                },
                None => e1,
            };
            assert(frame_kept(e1, e2)) by {
                lemma_frame_refl(e1);
                lemma_report_frame(e1, "variable '"@ + name + "' cannot have type void"@);
                match annotation {
                    Some(expected) => lemma_report_frame(
                        e1,
                        "type annotation for '"@ + name + "' expects "@ + name_of_type(expected) + ", found "@
                            + name_of_type(vt),
                    ),
                    None => {},
                }
            }
            lemma_frame_trans(env, e1, e2);
            let e3 = check_stmt(env, s).1;
            assert(frame_kept(e2, e3)) by {
                lemma_report_frame(e2, "variable '"@ + name + "' is already declared in this scope"@);
                lemma_define_frame(
                    e2,
                    name,
                    match annotation {
                        Some(t) => t,
                        None => vt,
                    },
                );
            }
            lemma_frame_trans(env, e2, e3);
        },
        StmtModel::Expression(e) => lemma_expr_frame(env, e),
        StmtModel::Print(e) => lemma_expr_frame(env, e),
        StmtModel::Return(v) => match v {
            Some(e) => lemma_expr_frame(env, e),
            None => {},
        },
        StmtModel::Block(ss) => {
            lemma_stmts_frame(begin_scope(env), ss);
            lemma_scoped(env, check_stmts(begin_scope(env), ss));
        },
        StmtModel::If(c, t, e) => {
            lemma_expr_frame(env, c);
            let (ct, e1) = check_expr(env, c);
            lemma_require_frame(e1, ct, Type::Boolean, "if condition must be bool"@);
            let e2 = require_type(e1, ct, Type::Boolean, "if condition must be bool"@);
            lemma_frame_trans(env, e1, e2);
            lemma_stmt_frame(e2, *t);
            let e3 = check_stmt(e2, *t).1;
            lemma_frame_trans(env, e2, e3);
            match e {
                Some(b) => {
                    lemma_stmt_frame(e3, *b);
                    lemma_frame_trans(env, e3, check_stmt(e3, *b).1);
                },
                None => {},
            }
        },
        StmtModel::Function(_, params, body) => {
            let b = begin_scope(env);
            lemma_params_frame(b, params);
            let e1 = declare_params(b, params);
            lemma_stmts_frame(e1, body);
            lemma_frame_trans(b, e1, check_stmts(e1, body));
            lemma_scoped(env, check_stmts(e1, body));
        },
    }
}

proof fn lemma_stmts_frame(env: Env, ss: Seq<StmtModel>)
    requires
        env.scopes.len() >= 1,
    ensures
        frame_kept(env, check_stmts(env, ss)),
    decreases ss,
{
    if ss.len() == 0 {
        lemma_frame_refl(env);
    } else {
        lemma_stmt_frame(env, ss[0]);
        let e1 = check_stmt(env, ss[0]).1;
        lemma_stmts_frame(e1, ss.subrange(1, ss.len() as int));
        lemma_frame_trans(env, e1, check_stmts(e1, ss.subrange(1, ss.len() as int)));
    }
}

/// Names declared inside a block are not visible after it: checking a block
/// leaves the scopes exactly as they were, and keeps every earlier diagnostic.
pub proof fn lemma_block_restores_scopes(env: Env, ss: Seq<StmtModel>)
    ensures
        check_stmt(env, StmtModel::Block(ss)).0 == Type::Void,
        check_stmt(env, StmtModel::Block(ss)).1.scopes == env.scopes,
        check_stmt(env, StmtModel::Block(ss)).1.functions == env.functions,
        check_stmt(env, StmtModel::Block(ss)).1.errors.subrange(0, env.errors.len() as int) == env.errors,
{
    lemma_stmts_frame(begin_scope(env), ss);
    lemma_scoped(env, check_stmts(begin_scope(env), ss));
}

/// Parameters and locals of a function are not visible after it: checking a
/// function declaration leaves the scopes exactly as they were.
pub proof fn lemma_function_restores_scopes(env: Env, name: Seq<char>, params: Seq<Seq<char>>, body: Seq<StmtModel>)
    ensures
        check_stmt(env, StmtModel::Function(name, params, body)).0 == Type::Void,
        check_stmt(env, StmtModel::Function(name, params, body)).1.scopes == env.scopes,
        check_stmt(env, StmtModel::Function(name, params, body)).1.functions == env.functions,
        check_stmt(env, StmtModel::Function(name, params, body)).1.errors.subrange(0, env.errors.len() as int)
            == env.errors,
{
    let b = begin_scope(env);
    lemma_params_frame(b, params);
    let e1 = declare_params(b, params);
    lemma_stmts_frame(e1, body);
    lemma_frame_trans(b, e1, check_stmts(e1, body));
    lemma_scoped(env, check_stmts(e1, body));
}

proof fn lemma_define_in_scope(env: Env, p: Seq<char>, t: Type, q: Seq<char>)
    requires
        env.scopes.len() >= 1,
    ensures
        in_current_scope(define(env, p, t), p),
        in_current_scope(env, q) ==> in_current_scope(define(env, p, t), q),
{
    let s = env.scopes.last();
    assert(define(env, p, t).scopes.last() == s.push((p, t)));
    assert(s.push((p, t)).drop_last() =~= s);
}

/// Declaring parameters reports nothing only when they are distinct and none
/// of them is already in the current scope.
proof fn lemma_params_clean(env: Env, ps: Seq<Seq<char>>)
    requires
        env.scopes.len() >= 1,
        declare_params(env, ps).errors.len() == env.errors.len(),
    ensures
        forall|a: int, b: int| 0 <= a < b < ps.len() ==> ps[a] != ps[b],
        forall|a: int| 0 <= a < ps.len() ==> !in_current_scope(env, #[trigger] ps[a]),
    decreases ps.len(),
{
    if ps.len() > 0 {
        let p = ps[0];
        let rest = ps.subrange(1, ps.len() as int);
        let m = "parameter '"@ + p + "' is declared more than once"@;
        if in_current_scope(env, p) {
            let e1 = report(env, m);
            lemma_params_frame(e1, rest);
            assert(false);
        }
        let e1 = define(env, p, Type::Unknown);
        lemma_params_frame(e1, rest);
        lemma_params_clean(e1, rest);
        lemma_define_in_scope(env, p, Type::Unknown, p);
        assert forall|a: int| 0 <= a < ps.len() implies !in_current_scope(env, #[trigger] ps[a]) by {
            if a > 0 {
                assert(ps[a] == rest[a - 1]);
                lemma_define_in_scope(env, p, Type::Unknown, ps[a]);
            }
        }
        assert forall|a: int, b: int| 0 <= a < b < ps.len() implies ps[a] != ps[b] by {
            assert(ps[b] == rest[b - 1]);
            if a > 0 {
                assert(ps[a] == rest[a - 1]);
            }
        }
    }
}

/// Checking statements reports nothing only when no top-level function among
/// them names a parameter twice.
proof fn lemma_stmts_clean(env: Env, ss: Seq<StmtModel>)
    requires
        env.scopes.len() >= 1,
        check_stmts(env, ss).errors.len() == env.errors.len(),
    ensures
        params_distinct(ss),
    decreases ss.len(),
{
    if ss.len() > 0 {
        let rest = ss.subrange(1, ss.len() as int);
        lemma_stmt_frame(env, ss[0]);
        let e1 = check_stmt(env, ss[0]).1;
        lemma_stmts_frame(e1, rest);
        lemma_stmts_clean(e1, rest);
        if let StmtModel::Function(_, ps, body) = ss[0] {
            let b = begin_scope(env);
            lemma_params_frame(b, ps);
            let d = declare_params(b, ps);
            lemma_stmts_frame(d, body);
            lemma_params_clean(b, ps);
        }
        assert forall|i: int| 0 <= i < ss.len() implies match #[trigger] ss[i] {
            StmtModel::Function(_, ps, _) => forall|a: int, b: int| 0 <= a < b < ps.len() ==> ps[a] != ps[b],
            _ => true,
        } by {
            if i > 0 {
                assert(ss[i] == rest[i - 1]);
            }
        }
    }
}

proof fn lemma_register_scopes(env: Env, ss: Seq<StmtModel>)
    ensures
        register_functions(env, ss).scopes == env.scopes,
        env.errors.len() <= register_functions(env, ss).errors.len(),
    decreases ss.len(),
{
    if ss.len() > 0 {
        let e1 = match ss[0] {
            StmtModel::Function(name, params, _) => if find_function(env.functions, name) is Some {
                report(env, "function '"@ + name + "' is already declared"@)
            } else {
                Env { functions: env.functions.push((name, params.len())), ..env }
            },
            _ => env,
        };
        lemma_register_scopes(e1, ss.subrange(1, ss.len() as int));
    }
}

/// A program with no diagnostic declares no function with a repeated
/// parameter name.
pub proof fn lemma_clean_program_params_distinct(program: Seq<StmtModel>)
    requires
        analysis_errors(program).len() == 0,
    ensures
        params_distinct(program),
{
    let env = register_functions(initial_env(), program);
    lemma_register_scopes(initial_env(), program);
    lemma_stmts_frame(env, program);
    lemma_stmts_clean(env, program);
}

/// Checking an expression declares nothing: the scopes (so every name's
/// type and where it is bound) and the function table stay as they were, and
/// diagnostics are only added after the earlier ones.
pub proof fn lemma_expression_declares_nothing(env: Env, e: ExprModel)
    ensures
        check_expr(env, e).1.scopes == env.scopes,
        check_expr(env, e).1.functions == env.functions,
        env.errors.len() <= check_expr(env, e).1.errors.len(),
        check_expr(env, e).1.errors.subrange(0, env.errors.len() as int) == env.errors,
{
    lemma_expr_frame(env, e);
}

/// The type of a binary operation depends on the operator alone: number for
/// arithmetic, bool otherwise. At most two diagnostics are added after the
/// earlier ones, and none when both operand types are unknown.
pub proof fn lemma_binary_type(env: Env, op: BinaryOp, left: Type, right: Type)
    ensures
        check_binary(env, op, left, right).0 == (match op {
            BinaryOp::Add | BinaryOp::Subtract | BinaryOp::Multiply | BinaryOp::Divide | BinaryOp::Modulo => Type::Number,
            _ => Type::Boolean,
        }),
        check_binary(env, op, left, right).1.scopes == env.scopes,
        check_binary(env, op, left, right).1.functions == env.functions,
        env.errors.len() <= check_binary(env, op, left, right).1.errors.len() <= env.errors.len() + 2,
        check_binary(env, op, left, right).1.errors.subrange(0, env.errors.len() as int) == env.errors,
        left == Type::Unknown && right == Type::Unknown ==> check_binary(env, op, left, right).1 == env,
{
    let r = check_binary(env, op, left, right).1;
    assert(r.errors.subrange(0, env.errors.len() as int) =~= env.errors);
}

/// A call of a declared function reports its arity exactly when the number
/// of arguments differs from the number of parameters, more or fewer: after
/// the diagnostics of the arguments comes "function 'f' expects N
/// argument(s), got M". With the right number the call adds nothing.
pub proof fn lemma_call_arity_checked(env: Env, name: Seq<char>, args: Seq<ExprModel>)
    requires
        find_function(env.functions, name) is Some,
    ensures
        ({
            let arity = find_function(env.functions, name)->0;
            let after = check_expr(env, ExprModel::Call(Box::new(ExprModel::Variable(name)), args)).1;
            &&& arity != args.len() ==> after.errors == check_args(env, args).errors.push(
                "function '"@ + name + "' expects "@ + crate::text::decimal(arity) + " argument(s), got "@
                    + crate::text::decimal(args.len()),
            )
            &&& arity != args.len() ==> after.errors.len() > env.errors.len()
            &&& arity == args.len() ==> after.errors == check_args(env, args).errors
        }),
{
    lemma_args_frame(env, args);
}

/// Which operand types each binary operator accepts, for known types:
/// arithmetic and comparison take two numbers, `&&` and `||` two bools, and
/// `==`, `!=` two values of the same type. An accepted pair adds no
/// diagnostic; any other pair adds at least one.
pub proof fn lemma_binary_operand_rules(env: Env, op: BinaryOp, left: Type, right: Type)
    requires
        left != Type::Unknown,
        right != Type::Unknown,
    ensures
        ({
            let accepted = match op {
                BinaryOp::Add | BinaryOp::Subtract | BinaryOp::Multiply | BinaryOp::Divide | BinaryOp::Modulo
                | BinaryOp::Less | BinaryOp::LessEqual | BinaryOp::Greater | BinaryOp::GreaterEqual => left
                    == Type::Number && right == Type::Number,
                BinaryOp::And | BinaryOp::Or => left == Type::Boolean && right == Type::Boolean,
                BinaryOp::Equal | BinaryOp::NotEqual => left == right,
            };
            let after = check_binary(env, op, left, right).1;
            &&& accepted ==> after.errors == env.errors
            &&& !accepted ==> after.errors.len() > env.errors.len()
        }),
{
}

/// `-` takes a number and gives a number, `!` takes a bool and gives a bool:
/// an operand of a known type adds a diagnostic exactly when it is not the
/// one the operator takes.
pub proof fn lemma_unary_operand_rules(env: Env, op: UnaryOp, x: ExprModel)
    ensures
        ({
            let (ot, e1) = check_expr(env, x);
            let (t, after) = check_expr(env, ExprModel::Unary(op, Box::new(x)));
            let wanted = if op == UnaryOp::Negate { Type::Number } else { Type::Boolean };
            &&& t == wanted
            &&& ot == wanted || ot == Type::Unknown ==> after.errors == e1.errors
            &&& ot != wanted && ot != Type::Unknown ==> after.errors.len() == e1.errors.len() + 1
        }),
{
}

/// `let` declares its variable in the current scope, where it is then found
/// with its annotated type, or without an annotation with its initializer's
/// type; a name already declared in the current scope is reported instead
/// and keeps its earlier type.
pub proof fn lemma_let_declares(env: Env, name: Seq<char>, annotation: Option<Type>, init: ExprModel)
    requires
        env.scopes.len() > 0,
    ensures
        ({
            let (vt, e1) = check_expr(env, init);
            let after = check_stmt(env, StmtModel::Let(name, annotation, init)).1;
            let declared = match annotation {
                Some(t) => t,
                None => vt,
            };
            &&& !in_current_scope(e1, name) ==> lookup_var(after.scopes, name) == Some(declared)
            &&& in_current_scope(e1, name) ==> after.scopes == e1.scopes && after.errors.last()
                == "variable '"@ + name + "' is already declared in this scope"@
        }),
{
    lemma_expr_frame(env, init);
    let e1 = check_expr(env, init).1;
    let after = check_stmt(env, StmtModel::Let(name, annotation, init)).1;
    if !in_current_scope(e1, name) {
        assert(after.scopes.last() == e1.scopes.last().push((name, after.scopes.last().last().1)));
        assert(find_in_scope(after.scopes.last(), name) is Some);
    }
}

/// No two functions in the table have the same name.
pub open spec fn function_names_distinct(fs: Seq<(Seq<char>, nat)>) -> bool {
    forall|i: int, j: int| 0 <= i < j < fs.len() ==> #[trigger] fs[i].0 != #[trigger] fs[j].0
}

proof fn lemma_find_function_absent(fs: Seq<(Seq<char>, nat)>, name: Seq<char>)
    requires
        find_function(fs, name) is None,
    ensures
        forall|i: int| 0 <= i < fs.len() ==> #[trigger] fs[i].0 != name,
    decreases fs.len(),
{
    if fs.len() > 0 {
        lemma_find_function_absent(fs.drop_last(), name);
        assert forall|i: int| 0 <= i < fs.len() implies #[trigger] fs[i].0 != name by {
            if i < fs.len() - 1 {
                assert(fs.drop_last()[i] == fs[i]);
            }
        }
    }
}

/// Registering functions keeps each name once in the function table: a
/// second declaration of a name is reported, not registered.
pub proof fn lemma_function_names_stay_distinct(env: Env, ss: Seq<StmtModel>)
    requires
        function_names_distinct(env.functions),
    ensures
        function_names_distinct(register_functions(env, ss).functions),
        register_functions(env, ss).functions.len() <= env.functions.len() + ss.len(),
    decreases ss.len(),
{
    if ss.len() > 0 {
        let e1 = match ss[0] {
            StmtModel::Function(name, params, _) => if find_function(env.functions, name) is Some {
                report(env, "function '"@ + name + "' is already declared"@)
            } else {
                Env { functions: env.functions.push((name, params.len())), ..env }
            },
            _ => env,
        };
        if let StmtModel::Function(name, params, _) = ss[0] {
            if find_function(env.functions, name) is None {
                lemma_find_function_absent(env.functions, name);
                let fs2 = env.functions.push((name, params.len()));
                assert forall|i: int, j: int| 0 <= i < j < fs2.len() implies #[trigger] fs2[i].0
                    != #[trigger] fs2[j].0 by {
                    if j < env.functions.len() {
                        assert(env.functions[i].0 != env.functions[j].0);
                    }
                }
            }
        }
        lemma_function_names_stay_distinct(e1, ss.subrange(1, ss.len() as int));
    }
}

/// An `if` whose condition has a known type other than bool is reported,
/// right after the diagnostics of the condition itself.
pub proof fn lemma_if_condition_must_be_bool(
    env: Env,
    c: ExprModel,
    t: Box<StmtModel>,
    e: Option<Box<StmtModel>>,
)
    requires
        env.scopes.len() >= 1,
    ensures
        ({
            let (ct, e1) = check_expr(env, c);
            let after = check_stmt(env, StmtModel::If(c, t, e)).1;
            ct != Type::Boolean && ct != Type::Unknown ==> {
                &&& after.errors.len() > e1.errors.len()
                &&& after.errors[e1.errors.len() as int] == "if condition must be bool"@ + " (found "@
                    + name_of_type(ct) + ", expected "@ + name_of_type(Type::Boolean) + ")"@
            }
        }),
{
    lemma_expr_frame(env, c);
    let (ct, e1) = check_expr(env, c);
    let e2 = require_type(e1, ct, Type::Boolean, "if condition must be bool"@);
    lemma_require_frame(e1, ct, Type::Boolean, "if condition must be bool"@);
    lemma_stmt_frame(e2, *t);
    let e3 = check_stmt(e2, *t).1;
    match e {
        Some(b) => {
            lemma_stmt_frame(e3, *b);
            let e4 = check_stmt(e3, *b).1;
            if ct != Type::Boolean && ct != Type::Unknown {
                assert(e4.errors.subrange(0, e3.errors.len() as int)[e1.errors.len() as int] == e4.errors[e1.errors.len() as int]);
                assert(e3.errors.subrange(0, e2.errors.len() as int)[e1.errors.len() as int] == e3.errors[e1.errors.len() as int]);
            }
        },
        None => {
            if ct != Type::Boolean && ct != Type::Unknown {
                assert(e3.errors.subrange(0, e2.errors.len() as int)[e1.errors.len() as int] == e3.errors[e1.errors.len() as int]);
            }
        },
    }
}

/// Defining each name in turn.
pub open spec fn define_all(env: Env, ds: Seq<(Seq<char>, Type)>) -> Env
    decreases ds.len(),
{
    if ds.len() == 0 {
        env
    } else {
        define_all(define(env, ds[0].0, ds[0].1), ds.subrange(1, ds.len() as int))
    }
}

proof fn lemma_define_all_keeps_outer(env: Env, ds: Seq<(Seq<char>, Type)>)
    requires
        env.scopes.len() >= 1,
    ensures
        define_all(env, ds).scopes.len() == env.scopes.len(),
        define_all(env, ds).scopes.drop_last() == env.scopes.drop_last(),
        define_all(env, ds).functions == env.functions,
        define_all(env, ds).errors == env.errors,
    decreases ds.len(),
{
    if ds.len() > 0 {
        let e1 = define(env, ds[0].0, ds[0].1);
        assert(e1.scopes.drop_last() =~= env.scopes.drop_last());
        lemma_define_all_keeps_outer(e1, ds.subrange(1, ds.len() as int));
    }
}

/// Ending a scope undoes beginning it together with every definition made in
/// it since: every name's binding is as before.
pub proof fn lemma_end_scope_undoes(env: Env, ds: Seq<(Seq<char>, Type)>)
    ensures
        end_scope(define_all(begin_scope(env), ds)).scopes == env.scopes,
{
    let b = begin_scope(env);
    lemma_define_all_keeps_outer(b, ds);
    assert(b.scopes.drop_last() =~= env.scopes);
}

} // verus!
