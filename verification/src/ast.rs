use vstd::prelude::*;

verus! {

/// An expression of the language.
///
/// A number literal keeps the digits it was written with.
#[derive(Debug, PartialEq)]
pub enum Expr {
    Number(String),
    StringLit(String),
    Bool(bool),
    Variable(String),
    Assign { name: String, value: Box<Expr> },
    Binary { left: Box<Expr>, op: BinaryOp, right: Box<Expr> },
    Unary { op: UnaryOp, expr: Box<Expr> },
}

#[derive(Debug, Clone, Copy, PartialEq, Eq)]
pub enum BinaryOp {
    Add,
    Sub,
    Mul,
    Div,
    Equal,
    NotEqual,
    Less,
    LessEqual,
    Greater,
    GreaterEqual,
}

#[derive(Debug, Clone, Copy, PartialEq, Eq)]
pub enum UnaryOp {
    Neagtive,
    Not,
}

/// A statement of the language.
#[derive(Debug, PartialEq)]
pub enum Stmt {
    Let { name: String, initializer: Expr },
    Print(Expr),
    Block(Vec<Stmt>),
    If { condition: Expr, then_branch: Box<Stmt>, else_branch: Option<Box<Stmt>> },
    While { condition: Expr, body: Box<Stmt> },
    ExprStmt(Expr),
}

/// The model of an expression: names and literal text as character sequences.
pub enum ExprModel {
    Number(Seq<char>),
    Str(Seq<char>),
    Bool(bool),
    Variable(Seq<char>),
    Assign(Seq<char>, Box<ExprModel>),
    Binary(Box<ExprModel>, BinaryOp, Box<ExprModel>),
    Unary(UnaryOp, Box<ExprModel>),
}

/// The model of a statement.
pub enum StmtModel {
    Let(Seq<char>, ExprModel),
    Print(ExprModel),
    Block(Seq<StmtModel>),
    If(ExprModel, Box<StmtModel>, Option<Box<StmtModel>>),
    While(ExprModel, Box<StmtModel>),
    ExprStmt(ExprModel),
}

/// The model of an expression.
pub open spec fn expr_model(e: &Expr) -> ExprModel
    decreases e,
{
    match e {
        Expr::Number(s) => ExprModel::Number(s@),
        Expr::StringLit(s) => ExprModel::Str(s@),
        Expr::Bool(b) => ExprModel::Bool(*b),
        Expr::Variable(n) => ExprModel::Variable(n@),
        Expr::Assign { name, value } => ExprModel::Assign(name@, Box::new(expr_model(value))),
        Expr::Binary { left, op, right } => ExprModel::Binary(
            Box::new(expr_model(left)),
            *op,
            Box::new(expr_model(right)),
        ),
        Expr::Unary { op, expr } => ExprModel::Unary(*op, Box::new(expr_model(expr))),
    }
}

/// The model of a statement.
pub open spec fn stmt_model(s: &Stmt) -> StmtModel
    decreases s,
{
    match s {
        Stmt::Let { name, initializer } => StmtModel::Let(name@, expr_model(initializer)),
        Stmt::Print(e) => StmtModel::Print(expr_model(e)),
        Stmt::Block(v) => StmtModel::Block(
            Seq::new(
                v@.len(),
                |i: int|
                    if 0 <= i < v@.len() {
                        stmt_model(&v@[i])
                    } else {
                        StmtModel::Block(Seq::empty())
                    },
            ),
        ),
        Stmt::If { condition, then_branch, else_branch } => StmtModel::If(
            expr_model(condition),
            Box::new(stmt_model(then_branch)),
            match else_branch {
                Some(b) => Some(Box::new(stmt_model(b))),
                None => None,
            },
        ),
        Stmt::While { condition, body } => StmtModel::While(
            expr_model(condition),
            Box::new(stmt_model(body)),
        ),
        Stmt::ExprStmt(e) => StmtModel::ExprStmt(expr_model(e)),
    }
}

/// The models of a sequence of statements.
pub open spec fn stmts_model(v: Seq<Stmt>) -> Seq<StmtModel> {
    Seq::new(v.len(), |i: int| stmt_model(&v[i]))
}

impl View for Expr {
    type V = ExprModel;

    open spec fn view(&self) -> ExprModel {
        expr_model(self)
    }
}

impl View for Stmt {
    type V = StmtModel;

    open spec fn view(&self) -> StmtModel {
        stmt_model(self)
    }
}

} // verus!
