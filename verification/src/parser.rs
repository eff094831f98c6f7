use vstd::prelude::*;

use crate::ast::{BinaryOp, Expr, ExprModel, Stmt, StmtModel, UnaryOp, expr_model, stmt_model, stmts_model};
use crate::lexer::token_models;
use crate::token::{Tok, Token, TokenKind, TokenModel};

verus! {

// ---------------------------------------------------------------------------
// Errors
// ---------------------------------------------------------------------------

/// What a parse error complains of.
#[derive(Debug, Clone, Copy, PartialEq, Eq)]
pub enum ParseErrorKind {
    /// `let` not followed by a name; the token is what came instead (`Eof`
    /// at the end of the input).
    ExpectedVariableName,
    ExpectedEqualAfterVariableName,
    ExpectedSemicolonAfterDeclaration,
    ExpectedSemicolonAfterValue,
    ExpectedLeftParenAfterIf,
    ExpectedRightParenAfterIfCondition,
    ExpectedLeftParenAfterWhile,
    ExpectedRightParenAfterWhileCondition,
    ExpectedRightBraceAfterBlock,
    ExpectedSemicolonAfterExpression,
    /// A group left open; the token is its `(`.
    ExpectedRightParenAfterExpression,
    /// A token that begins no expression; the token is that one (`Eof` where
    /// the input ends before an operand).
    UnexpectedToken,
}

/// A parse error, and the index of the token it reports (whose line it names).
#[derive(Debug, Clone, Copy, PartialEq, Eq)]
pub struct ParseError {
    pub kind: ParseErrorKind,
    pub token: usize,
}

pub open spec fn fail<T>(kind: ParseErrorKind, at: int) -> Result<T, ParseError> {
    Err(ParseError { kind, token: at as usize })
}

// ---------------------------------------------------------------------------
// The grammar, as spec functions over the token models
// ---------------------------------------------------------------------------

/// A parse result: the tree and the position after it.
pub type Parsed<T> = Result<(T, int), ParseError>;

/// Positions inside a token sequence that ends with `Eof`.
pub open spec fn valid(toks: Seq<TokenModel>, p: int) -> bool {
    &&& 0 <= p < toks.len()
    &&& toks[toks.len() - 1].kind is Eof
}

pub open spec fn at_end(toks: Seq<TokenModel>, p: int) -> bool {
    toks[p].kind is Eof
}

/// The token at `p` is of the variant of `k`, and is not the end.
pub open spec fn check(toks: Seq<TokenModel>, p: int, k: Tok) -> bool {
    !at_end(toks, p) && toks[p].kind.variant() == k.variant()
}

/// Where reading one token from `p` leaves: it never moves past the end.
pub open spec fn step(toks: Seq<TokenModel>, p: int) -> int {
    if at_end(toks, p) {
        p
    } else {
        p + 1
    }
}

/// `p <= q` and `q` a position.
pub open spec fn onward(toks: Seq<TokenModel>, p: int, q: int) -> bool {
    p <= q < toks.len()
}

/// `primary → NUMBER | STRING | "true" | "false" | IDENTIFIER | "(" expression ")"`
pub open spec fn primary(toks: Seq<TokenModel>, p: int) -> Parsed<ExprModel>
    decreases toks.len() - p, 1nat,
    when valid(toks, p)
{
    if at_end(toks, p) {
        fail(ParseErrorKind::UnexpectedToken, p)
    } else {
        match toks[p].kind {
            Tok::Number(s) => Ok((ExprModel::Number(s), p + 1)),
            Tok::StringLit(s) => Ok((ExprModel::Str(s), p + 1)),
            Tok::True => Ok((ExprModel::Bool(true), p + 1)),
            Tok::False => Ok((ExprModel::Bool(false), p + 1)),
            Tok::Identifier(n) => Ok((ExprModel::Variable(n), p + 1)),
            Tok::LeftParen => match expression(toks, p + 1) {
                Err(e) => Err(e),
                Ok((e, r)) => if check(toks, r, Tok::RightParen) {
                    Ok((e, r + 1))
                } else {
                    fail(ParseErrorKind::ExpectedRightParenAfterExpression, p)
                },
            },
            _ => fail(ParseErrorKind::UnexpectedToken, p),
        }
    }
}

/// `unary → ( "!" | "-" ) unary | primary`
pub open spec fn unary(toks: Seq<TokenModel>, p: int) -> Parsed<ExprModel>
    decreases toks.len() - p, 2nat,
    when valid(toks, p)
{
    if check(toks, p, Tok::Bang) || check(toks, p, Tok::Minus) {
        let op = if check(toks, p, Tok::Bang) {
            UnaryOp::Not
        } else {
            UnaryOp::Neagtive
        };
        match unary(toks, p + 1) {
            Err(e) => Err(e),
            Ok((e, r)) => Ok((ExprModel::Unary(op, Box::new(e)), r)),
        }
    } else {
        primary(toks, p)
    }
}

/// The operator of `factor` at `p`, if any.
pub open spec fn factor_op(toks: Seq<TokenModel>, p: int) -> Option<BinaryOp> {
    if check(toks, p, Tok::Star) {
        Some(BinaryOp::Mul)
    } else if check(toks, p, Tok::Slash) {
        Some(BinaryOp::Div)
    } else {
        None
    }
}

/// The operator of `term` at `p`, if any.
pub open spec fn term_op(toks: Seq<TokenModel>, p: int) -> Option<BinaryOp> {
    if check(toks, p, Tok::Plus) {
        Some(BinaryOp::Add)
    } else if check(toks, p, Tok::Minus) {
        Some(BinaryOp::Sub)
    } else {
        None
    }
}

/// The operator of `comparison` at `p`, if any.
pub open spec fn comparison_op(toks: Seq<TokenModel>, p: int) -> Option<BinaryOp> {
    if check(toks, p, Tok::Less) {
        Some(BinaryOp::Less)
    } else if check(toks, p, Tok::LessEqual) {
        Some(BinaryOp::LessEqual)
    } else if check(toks, p, Tok::Greater) {
        Some(BinaryOp::Greater)
    } else if check(toks, p, Tok::GreaterEqual) {
        Some(BinaryOp::GreaterEqual)
    } else {
        None
    }
}

/// The operator of `equality` at `p`, if any.
pub open spec fn equality_op(toks: Seq<TokenModel>, p: int) -> Option<BinaryOp> {
    if check(toks, p, Tok::EqualEqual) {
        Some(BinaryOp::Equal)
    } else if check(toks, p, Tok::BangEqual) {
        Some(BinaryOp::NotEqual)
    } else {
        None
    }
}

pub open spec fn binary(left: ExprModel, op: BinaryOp, right: ExprModel) -> ExprModel {
    ExprModel::Binary(Box::new(left), op, Box::new(right))
}

/// The rest of `factor → unary ( ( "*" | "/" ) unary )*` after `left`.
pub open spec fn factor_rest(toks: Seq<TokenModel>, p: int, left: ExprModel) -> Parsed<ExprModel>
    decreases toks.len() - p, 3nat,
    when valid(toks, p)
{
    match factor_op(toks, p) {
        Some(op) => match unary(toks, p + 1) {
            Err(e) => Err(e),
            Ok((right, q)) => if onward(toks, p + 1, q) {
                factor_rest(toks, q, binary(left, op, right))
            } else {
                Ok((left, p))
            },
        },
        None => Ok((left, p)),
    }
}

pub open spec fn factor(toks: Seq<TokenModel>, p: int) -> Parsed<ExprModel>
    decreases toks.len() - p, 4nat,
    when valid(toks, p)
{
    match unary(toks, p) {
        Err(e) => Err(e),
        Ok((left, q)) => if onward(toks, p, q) {
            factor_rest(toks, q, left)
        } else {
            Ok((left, q))
        },
    }
}

/// The rest of `term → factor ( ( "+" | "-" ) factor )*` after `left`.
pub open spec fn term_rest(toks: Seq<TokenModel>, p: int, left: ExprModel) -> Parsed<ExprModel>
    decreases toks.len() - p, 5nat,
    when valid(toks, p)
{
    match term_op(toks, p) {
        Some(op) => match factor(toks, p + 1) {
            Err(e) => Err(e),
            Ok((right, q)) => if onward(toks, p + 1, q) {
                term_rest(toks, q, binary(left, op, right))
            } else {
                Ok((left, p))
            },
        },
        None => Ok((left, p)),
    }
}

pub open spec fn term(toks: Seq<TokenModel>, p: int) -> Parsed<ExprModel>
    decreases toks.len() - p, 6nat,
    when valid(toks, p)
{
    match factor(toks, p) {
        Err(e) => Err(e),
        Ok((left, q)) => if onward(toks, p, q) {
            term_rest(toks, q, left)
        } else {
            Ok((left, q))
        },
    }
}

/// The rest of `comparison → term ( ( "<" | "<=" | ">" | ">=" ) term )*`.
pub open spec fn comparison_rest(
    toks: Seq<TokenModel>,
    p: int,
    left: ExprModel,
) -> Parsed<ExprModel>
    decreases toks.len() - p, 7nat,
    when valid(toks, p)
{
    match comparison_op(toks, p) {
        Some(op) => match term(toks, p + 1) {
            Err(e) => Err(e),
            Ok((right, q)) => if onward(toks, p + 1, q) {
                comparison_rest(toks, q, binary(left, op, right))
            } else {
                Ok((left, p))
            },
        },
        None => Ok((left, p)),
    }
}

pub open spec fn comparison(toks: Seq<TokenModel>, p: int) -> Parsed<ExprModel>
    decreases toks.len() - p, 8nat,
    when valid(toks, p)
{
    match term(toks, p) {
        Err(e) => Err(e),
        Ok((left, q)) => if onward(toks, p, q) {
            comparison_rest(toks, q, left)
        } else {
            Ok((left, q))
        },
    }
}

/// The rest of `equality → comparison ( ( "==" | "!=" ) comparison )*`.
pub open spec fn equality_rest(toks: Seq<TokenModel>, p: int, left: ExprModel) -> Parsed<
    ExprModel,
>
    decreases toks.len() - p, 9nat,
    when valid(toks, p)
{
    match equality_op(toks, p) {
        Some(op) => match comparison(toks, p + 1) {
            Err(e) => Err(e),
            Ok((right, q)) => if onward(toks, p + 1, q) {
                equality_rest(toks, q, binary(left, op, right))
            } else {
                Ok((left, p))
            },
        },
        None => Ok((left, p)),
    }
}

pub open spec fn equality(toks: Seq<TokenModel>, p: int) -> Parsed<ExprModel>
    decreases toks.len() - p, 10nat,
    when valid(toks, p)
{
    match comparison(toks, p) {
        Err(e) => Err(e),
        Ok((left, q)) => if onward(toks, p, q) {
            equality_rest(toks, q, left)
        } else {
            Ok((left, q))
        },
    }
}

/// `expression → assignment`;
/// `assignment → IDENTIFIER "=" assignment | equality`.
pub open spec fn expression(toks: Seq<TokenModel>, p: int) -> Parsed<ExprModel>
    decreases toks.len() - p, 11nat,
    when valid(toks, p)
{
    match toks[p].kind {
        Tok::Identifier(name) => if check(toks, p + 1, Tok::Equal) {
            match expression(toks, p + 2) {
                Err(e) => Err(e),
                Ok((value, r)) => Ok((ExprModel::Assign(name, Box::new(value)), r)),
            }
        } else {
            equality(toks, p)
        },
        _ => equality(toks, p),
    }
}

/// `statement → letStmt | printStmt | ifStmt | whileStmt | block | exprStmt`
pub open spec fn statement(toks: Seq<TokenModel>, p: int) -> Parsed<StmtModel>
    decreases toks.len() - p, 13nat,
    when valid(toks, p)
{
    if check(toks, p, Tok::Let) {
        let_statement(toks, p + 1)
    } else if check(toks, p, Tok::Print) {
        print_statement(toks, p + 1)
    } else if check(toks, p, Tok::If) {
        if_statement(toks, p + 1)
    } else if check(toks, p, Tok::While) {
        while_statement(toks, p + 1)
    } else if check(toks, p, Tok::LeftBrace) {
        block(toks, p + 1)
    } else {
        expression_statement(toks, p)
    }
}

/// `letStmt → "let" IDENTIFIER "=" expression ";"`, from after `let`.
pub open spec fn let_statement(toks: Seq<TokenModel>, p: int) -> Parsed<StmtModel>
    decreases toks.len() - p, 12nat,
    when valid(toks, p)
{
    if at_end(toks, p) {
        fail(ParseErrorKind::ExpectedVariableName, p)
    } else {
        match toks[p].kind {
            Tok::Identifier(name) => if check(toks, p + 1, Tok::Equal) {
                match expression(toks, p + 2) {
                    Err(e) => Err(e),
                    Ok((init, r)) => if check(toks, r, Tok::Semicolon) {
                        Ok((StmtModel::Let(name, init), r + 1))
                    } else {
                        fail(ParseErrorKind::ExpectedSemicolonAfterDeclaration, r)
                    },
                }
            } else {
                fail(ParseErrorKind::ExpectedEqualAfterVariableName, p + 1)
            },
            _ => fail(ParseErrorKind::ExpectedVariableName, p),
        }
    }
}

/// `printStmt → "print" expression ";"`, from after `print`.
pub open spec fn print_statement(toks: Seq<TokenModel>, p: int) -> Parsed<StmtModel>
    decreases toks.len() - p, 12nat,
    when valid(toks, p)
{
    match expression(toks, p) {
        Err(e) => Err(e),
        Ok((e, r)) => if check(toks, r, Tok::Semicolon) {
            Ok((StmtModel::Print(e), r + 1))
        } else {
            fail(ParseErrorKind::ExpectedSemicolonAfterValue, r)
        },
    }
}

/// `exprStmt → expression ";"`
pub open spec fn expression_statement(toks: Seq<TokenModel>, p: int) -> Parsed<StmtModel>
    decreases toks.len() - p, 12nat,
    when valid(toks, p)
{
    match expression(toks, p) {
        Err(e) => Err(e),
        Ok((e, r)) => if check(toks, r, Tok::Semicolon) {
            Ok((StmtModel::ExprStmt(e), r + 1))
        } else {
            fail(ParseErrorKind::ExpectedSemicolonAfterExpression, r)
        },
    }
}

/// `ifStmt → "if" "(" expression ")" statement ( "else" statement )?`, from
/// after `if`; an `else` goes with the nearest `if`.
pub open spec fn if_statement(toks: Seq<TokenModel>, p: int) -> Parsed<StmtModel>
    decreases toks.len() - p, 12nat,
    when valid(toks, p)
{
    if !check(toks, p, Tok::LeftParen) {
        fail(ParseErrorKind::ExpectedLeftParenAfterIf, p)
    } else {
        match expression(toks, p + 1) {
            Err(e) => Err(e),
            Ok((cond, r)) => if !(onward(toks, p + 1, r) && check(toks, r, Tok::RightParen)) {
                fail(ParseErrorKind::ExpectedRightParenAfterIfCondition, r)
            } else {
                match statement(toks, r + 1) {
                    Err(e) => Err(e),
                    Ok((then_branch, s)) => if onward(toks, r + 1, s) && check(toks, s, Tok::Else) {
                        match statement(toks, s + 1) {
                            Err(e) => Err(e),
                            Ok((else_branch, u)) => Ok(
                                (
                                    StmtModel::If(
                                        cond,
                                        Box::new(then_branch),
                                        Some(Box::new(else_branch)),
                                    ),
                                    u,
                                ),
                            ),
                        }
                    } else {
                        Ok((StmtModel::If(cond, Box::new(then_branch), None), s))
                    },
                }
            },
        }
    }
}

/// `whileStmt → "while" "(" expression ")" statement`, from after `while`.
pub open spec fn while_statement(toks: Seq<TokenModel>, p: int) -> Parsed<StmtModel>
    decreases toks.len() - p, 12nat,
    when valid(toks, p)
{
    if !check(toks, p, Tok::LeftParen) {
        fail(ParseErrorKind::ExpectedLeftParenAfterWhile, p)
    } else {
        match expression(toks, p + 1) {
            Err(e) => Err(e),
            Ok((cond, r)) => if !(onward(toks, p + 1, r) && check(toks, r, Tok::RightParen)) {
                fail(ParseErrorKind::ExpectedRightParenAfterWhileCondition, r)
            } else {
                match statement(toks, r + 1) {
                    Err(e) => Err(e),
                    Ok((body, s)) => Ok((StmtModel::While(cond, Box::new(body)), s)),
                }
            },
        }
    }
}

/// The statements of a block, up to its `}` or the end, after `done`.
pub open spec fn block_items(toks: Seq<TokenModel>, p: int, done: Seq<StmtModel>) -> Parsed<
    Seq<StmtModel>,
>
    decreases toks.len() - p, 14nat,
    when valid(toks, p)
{
    if !check(toks, p, Tok::RightBrace) && !at_end(toks, p) {
        match statement(toks, p) {
            Err(e) => Err(e),
            Ok((s, q)) => if onward(toks, p + 1, q) {
                block_items(toks, q, done.push(s))
            } else {
                Ok((done, p))
            },
        }
    } else {
        Ok((done, p))
    }
}

/// `block → "{" statement* "}"`, from after `{`.
pub open spec fn block(toks: Seq<TokenModel>, p: int) -> Parsed<StmtModel>
    decreases toks.len() - p, 15nat,
    when valid(toks, p)
{
    match block_items(toks, p, Seq::empty()) {
        Err(e) => Err(e),
        Ok((items, q)) => if check(toks, q, Tok::RightBrace) {
            Ok((StmtModel::Block(items), q + 1))
        } else {
            fail(ParseErrorKind::ExpectedRightBraceAfterBlock, q)
        },
    }
}

/// `program → statement* EOF`: the statements from `p` to the end, after
/// `done`.
pub open spec fn program(toks: Seq<TokenModel>, p: int, done: Seq<StmtModel>) -> Result<
    Seq<StmtModel>,
    ParseError,
>
    decreases toks.len() - p,
    when valid(toks, p)
{
    if !at_end(toks, p) {
        match statement(toks, p) {
            Err(e) => Err(e),
            Ok((s, q)) => if onward(toks, p + 1, q) {
                program(toks, q, done.push(s))
            } else {
                Ok(done)
            },
        }
    } else {
        Ok(done)
    }
}

// ---------------------------------------------------------------------------
// Laws of the grammar
// ---------------------------------------------------------------------------

/// The binary operator a token stands for, if any.
pub open spec fn binary_op_of(t: Tok) -> Option<BinaryOp> {
    match t {
        Tok::Plus => Some(BinaryOp::Add),
        Tok::Minus => Some(BinaryOp::Sub),
        Tok::Star => Some(BinaryOp::Mul),
        Tok::Slash => Some(BinaryOp::Div),
        Tok::Less => Some(BinaryOp::Less),
        Tok::LessEqual => Some(BinaryOp::LessEqual),
        Tok::Greater => Some(BinaryOp::Greater),
        Tok::GreaterEqual => Some(BinaryOp::GreaterEqual),
        Tok::EqualEqual => Some(BinaryOp::Equal),
        Tok::BangEqual => Some(BinaryOp::NotEqual),
        _ => None,
    }
}

/// The tokens `pre NUMBER(a) op NUMBER(b)` and the end, all on line `line`.
pub open spec fn prefixed_pair(pre: Tok, a: Seq<char>, op: Tok, b: Seq<char>, line: nat) -> Seq<
    TokenModel,
> {
    seq![
        TokenModel { kind: pre, line },
        TokenModel { kind: Tok::Number(a), line },
        TokenModel { kind: op, line },
        TokenModel { kind: Tok::Number(b), line },
        TokenModel { kind: Tok::Eof, line },
    ]
}

/// A prefix operator binds tighter than every binary operator: `-a op b`
/// and `!a op b` read as `(-a) op b` and `(!a) op b`, for every binary
/// operator and any two numbers.
#[verifier::rlimit(100)]
pub proof fn law_prefix_binds_tighter(pre: Tok, a: Seq<char>, op: Tok, b: Seq<char>, line: nat)
    requires
        pre is Minus || pre is Bang,
        binary_op_of(op) is Some,
    ensures
        expression(prefixed_pair(pre, a, op, b, line), 0) == Ok::<(ExprModel, int), ParseError>(
            (
                binary(
                    ExprModel::Unary(
                        if pre is Minus {
                            UnaryOp::Neagtive
                        } else {
                            UnaryOp::Not
                        },
                        Box::new(ExprModel::Number(a)),
                    ),
                    binary_op_of(op).unwrap(),
                    ExprModel::Number(b),
                ),
                4,
            ),
        ),
{
    let toks = prefixed_pair(pre, a, op, b, line);
    let u = ExprModel::Unary(
        if pre is Minus {
            UnaryOp::Neagtive
        } else {
            UnaryOp::Not
        },
        Box::new(ExprModel::Number(a)),
    );
    let bop = binary_op_of(op).unwrap();
    let whole = binary(u, bop, ExprModel::Number(b));
    assert(toks[0].kind == pre && toks[1].kind == Tok::Number(a) && toks[2].kind == op
        && toks[3].kind == Tok::Number(b) && toks[4].kind is Eof);
    assert(primary(toks, 1) == Ok::<(ExprModel, int), ParseError>((ExprModel::Number(a), 2)));
    assert(unary(toks, 1) == primary(toks, 1));
    assert(unary(toks, 0) == Ok::<(ExprModel, int), ParseError>((u, 2)));
    assert(primary(toks, 3) == Ok::<(ExprModel, int), ParseError>((ExprModel::Number(b), 4)));
    assert(unary(toks, 3) == primary(toks, 3));
    let nb = ExprModel::Number(b);
    let okb = Ok::<(ExprModel, int), ParseError>((nb, 4));
    // each level finds no operator at the end
    assert(factor_rest(toks, 4, whole) == Ok::<(ExprModel, int), ParseError>((whole, 4)));
    assert(term_rest(toks, 4, whole) == Ok::<(ExprModel, int), ParseError>((whole, 4)));
    assert(comparison_rest(toks, 4, whole) == Ok::<(ExprModel, int), ParseError>((whole, 4)));
    assert(equality_rest(toks, 4, whole) == Ok::<(ExprModel, int), ParseError>((whole, 4)));
    assert(factor_rest(toks, 4, nb) == okb);
    assert(factor(toks, 3) == okb);
    assert(term_rest(toks, 4, nb) == okb);
    assert(term(toks, 3) == okb);
    assert(comparison_rest(toks, 4, nb) == okb);
    assert(comparison(toks, 3) == okb);
    if bop == BinaryOp::Mul || bop == BinaryOp::Div {
        assert(factor_rest(toks, 2, u) == Ok::<(ExprModel, int), ParseError>((whole, 4)));
        assert(factor(toks, 0) == Ok::<(ExprModel, int), ParseError>((whole, 4)));
        assert(term_rest(toks, 4, whole) == Ok::<(ExprModel, int), ParseError>((whole, 4)));
        assert(term(toks, 0) == Ok::<(ExprModel, int), ParseError>((whole, 4)));
        assert(comparison(toks, 0) == Ok::<(ExprModel, int), ParseError>((whole, 4)));
        assert(equality(toks, 0) == Ok::<(ExprModel, int), ParseError>((whole, 4)));
    } else {
        assert(factor_rest(toks, 2, u) == Ok::<(ExprModel, int), ParseError>((u, 2)));
        assert(factor(toks, 0) == Ok::<(ExprModel, int), ParseError>((u, 2)));
        if bop == BinaryOp::Add || bop == BinaryOp::Sub {
            assert(term_rest(toks, 2, u) == Ok::<(ExprModel, int), ParseError>((whole, 4)));
            assert(term(toks, 0) == Ok::<(ExprModel, int), ParseError>((whole, 4)));
            assert(comparison(toks, 0) == Ok::<(ExprModel, int), ParseError>((whole, 4)));
            assert(equality(toks, 0) == Ok::<(ExprModel, int), ParseError>((whole, 4)));
        } else {
            assert(term_rest(toks, 2, u) == Ok::<(ExprModel, int), ParseError>((u, 2)));
            assert(term(toks, 0) == Ok::<(ExprModel, int), ParseError>((u, 2)));
            if bop == BinaryOp::Equal || bop == BinaryOp::NotEqual {
                assert(comparison_rest(toks, 2, u) == Ok::<(ExprModel, int), ParseError>((u, 2)));
                assert(comparison(toks, 0) == Ok::<(ExprModel, int), ParseError>((u, 2)));
                assert(equality_rest(toks, 2, u) == Ok::<(ExprModel, int), ParseError>((whole, 4)));
                assert(equality(toks, 0) == Ok::<(ExprModel, int), ParseError>((whole, 4)));
            } else {
                assert(comparison_rest(toks, 2, u) == Ok::<(ExprModel, int), ParseError>(
                    (whole, 4),
                ));
                assert(comparison(toks, 0) == Ok::<(ExprModel, int), ParseError>((whole, 4)));
                assert(equality(toks, 0) == Ok::<(ExprModel, int), ParseError>((whole, 4)));
            }
        }
    }
}

// ---------------------------------------------------------------------------
// The parser
// ---------------------------------------------------------------------------

/// `r` is the expression that `s` gives, and `pos` the position after it; or
/// `r` is the error that `s` gives.
pub open spec fn parsed_expr(r: Result<Expr, ParseError>, pos: int, s: Parsed<ExprModel>) -> bool {
    match s {
        Ok((m, q)) => r matches Ok(e) && e@ == m && pos == q,
        Err(err) => r == Err::<Expr, ParseError>(err),
    }
}

/// `r` is the statement that `s` gives, and `pos` the position after it; or
/// `r` is the error that `s` gives.
pub open spec fn parsed_stmt(r: Result<Stmt, ParseError>, pos: int, s: Parsed<StmtModel>) -> bool {
    match s {
        Ok((m, q)) => r matches Ok(st) && st@ == m && pos == q,
        Err(err) => r == Err::<Stmt, ParseError>(err),
    }
}

/// Turns tokens into statements and expressions.
pub struct Parser {
    tokens: Vec<Token>,
    current: usize,
}

impl Parser {
    /// The models of the tokens.
    pub closed spec fn toks(&self) -> Seq<TokenModel> {
        token_models(self.tokens@)
    }

    /// The position of the next token.
    pub closed spec fn pos(&self) -> int {
        self.current as int
    }

    /// The parser's invariant: the tokens end with `Eof` and the position is
    /// one of them.
    pub closed spec fn wf(&self) -> bool {
        valid(self.toks(), self.pos())
    }

    /// A parser at the first of `tokens`, which must end with `Eof`.
    pub fn new(tokens: Vec<Token>) -> (p: Parser)
        requires
            0 < tokens@.len(),
            token_models(tokens@).last().kind is Eof,
        ensures
            p.wf(),
            p.toks() == token_models(tokens@),
            p.pos() == 0,
    {
        Parser { tokens, current: 0 }
    }

    fn peek(&self) -> (t: &Token)
        requires
            self.wf(),
        ensures
            t@ == self.toks()[self.pos()],
    {
        &self.tokens[self.current]
    }

    fn previous(&self) -> (t: &Token)
        requires
            self.wf(),
            self.pos() >= 1,
        ensures
            t@ == self.toks()[self.pos() - 1],
    {
        &self.tokens[self.current - 1]
    }

    fn is_at_end(&self) -> (b: bool)
        requires
            self.wf(),
        ensures
            b == at_end(self.toks(), self.pos()),
    {
        match self.peek().kind {
            TokenKind::Eof => true,
            _ => false,
        }
    }

    fn check(&self, kind: &TokenKind) -> (b: bool)
        requires
            self.wf(),
        ensures
            b == check(self.toks(), self.pos(), kind@),
    {
        if self.is_at_end() {
            return false;
        }
        self.peek().kind.variant() == kind.variant()
    }

    /// Reads one token, unless at the end.
    fn advance(&mut self)
        requires
            old(self).wf(),
        ensures
            final(self).wf(),
            final(self).toks() == old(self).toks(),
            final(self).pos() == step(old(self).toks(), old(self).pos()),
    {
        let n = self.tokens.len();
        if !self.is_at_end() {
            assert(self.pos() != self.toks().len() - 1);
            assert(self.current + 1 < n);
            self.current = self.current + 1;
        }
    }

    /// Reads the next token where it is of one of `kinds`.
    fn match_kinds(&mut self, kinds: &[TokenKind]) -> (b: bool)
        requires
            old(self).wf(),
        ensures
            final(self).wf(),
            final(self).toks() == old(self).toks(),
            b == exists|i: int|
                0 <= i < kinds@.len() && check(old(self).toks(), old(self).pos(), #[trigger] kinds@[i]@),
            final(self).pos() == old(self).pos() + if b {
                1int
            } else {
                0int
            },
    {
        let mut i: usize = 0;
        while i < kinds.len()
            invariant
                self.wf(),
                self.toks() == old(self).toks(),
                self.pos() == old(self).pos(),
                i <= kinds@.len(),
                forall|j: int| 0 <= j < i ==> !check(self.toks(), self.pos(), #[trigger] kinds@[j]@),
            decreases kinds@.len() - i,
        {
            if self.check(&kinds[i]) {
                self.advance();
                return true;
            }
            i = i + 1;
        }
        false
    }

    /// Reads a token of the variant of `kind`, or reports `error` at the next
    /// token.
    fn consume(&mut self, kind: &TokenKind, error: ParseErrorKind) -> (r: Result<(), ParseError>)
        requires
            old(self).wf(),
        ensures
            final(self).wf(),
            final(self).toks() == old(self).toks(),
            if check(old(self).toks(), old(self).pos(), kind@) {
                r is Ok && final(self).pos() == old(self).pos() + 1
            } else {
                r == fail::<()>(error, old(self).pos()) && final(self).pos() == old(self).pos()
            },
    {
        if !self.check(kind) {
            return Err(ParseError { kind: error, token: self.current });
        }
        self.advance();
        Ok(())
    }

    fn primary(&mut self) -> (r: Result<Expr, ParseError>)
        requires
            old(self).wf(),
        ensures
            final(self).wf(),
            final(self).toks() == old(self).toks(),
            parsed_expr(r, final(self).pos(), primary(old(self).toks(), old(self).pos())),
            r is Ok ==> final(self).pos() >= old(self).pos(),
        decreases old(self).toks().len() - old(self).pos(), 1nat,
    {
        if self.is_at_end() {
            return Err(ParseError { kind: ParseErrorKind::UnexpectedToken, token: self.current });
        }
        let t = self.current;
        self.advance();
        let kind = self.previous().kind.duplicate();
        match kind {
            TokenKind::Number(s) => Ok(Expr::Number(s)),
            TokenKind::StringLit(s) => Ok(Expr::StringLit(s)),
            TokenKind::True => Ok(Expr::Bool(true)),
            TokenKind::False => Ok(Expr::Bool(false)),
            TokenKind::Identifier(name) => Ok(Expr::Variable(name)),
            TokenKind::LeftParen => {
                let expr = self.parse_expression()?;
                if !self.check(&TokenKind::RightParen) {
                    return Err(
                        ParseError {
                            kind: ParseErrorKind::ExpectedRightParenAfterExpression,
                            token: t,
                        },
                    );
                }
                self.advance();
                Ok(expr)
            },
            _ => Err(ParseError { kind: ParseErrorKind::UnexpectedToken, token: t }),
        }
    }

    fn unary(&mut self) -> (r: Result<Expr, ParseError>)
        requires
            old(self).wf(),
        ensures
            final(self).wf(),
            final(self).toks() == old(self).toks(),
            parsed_expr(r, final(self).pos(), unary(old(self).toks(), old(self).pos())),
            r is Ok ==> final(self).pos() >= old(self).pos(),
        decreases old(self).toks().len() - old(self).pos(), 2nat,
    {
        if self.match_kinds(&[TokenKind::Bang, TokenKind::Minus]) {
            let op = match self.previous().kind {
                TokenKind::Bang => UnaryOp::Not,
                _ => UnaryOp::Neagtive,
            };
            let expr = self.unary()?;
            return Ok(Expr::Unary { op, expr: Box::new(expr) });
        }
        self.primary()
    }

    #[verifier::rlimit(50)]
    fn factor(&mut self) -> (r: Result<Expr, ParseError>)
        requires
            old(self).wf(),
        ensures
            final(self).wf(),
            final(self).toks() == old(self).toks(),
            parsed_expr(r, final(self).pos(), factor(old(self).toks(), old(self).pos())),
            r is Ok ==> final(self).pos() >= old(self).pos(),
        decreases old(self).toks().len() - old(self).pos(), 4nat,
    {
        let ghost toks = self.toks();
        let ghost p0 = self.pos();
        let mut expr = self.unary()?;
        while self.match_kinds(&[TokenKind::Star, TokenKind::Slash])
            invariant
                self.wf(),
                self.toks() == toks,
                toks == old(self).toks(),
                p0 == old(self).pos(),
                self.pos() >= p0,
                factor(toks, p0) == factor_rest(toks, self.pos(), expr@),
            decreases toks.len() - self.pos(),
        {
            let ghost q = self.pos() - 1;
            let op = match self.previous().kind {
                TokenKind::Star => BinaryOp::Mul,
                _ => BinaryOp::Div,
            };
            proof {
                assert(factor_op(toks, q) == Some(op));
            }
            let ghost left = expr@;
            let right = match self.unary() {
                Ok(right) => right,
                Err(e) => {
                    assert(factor_rest(toks, q, left) == Err::<(ExprModel, int), ParseError>(e));
                    return Err(e);
                },
            };
            proof {
                assert(factor_rest(toks, q, left) == factor_rest(toks, self.pos(), binary(left, op, right@)));
            }
            expr = Expr::Binary { left: Box::new(expr), op, right: Box::new(right) };
        }
        Ok(expr)
    }

    #[verifier::rlimit(100)]
    fn term(&mut self) -> (r: Result<Expr, ParseError>)
        requires
            old(self).wf(),
        ensures
            final(self).wf(),
            final(self).toks() == old(self).toks(),
            parsed_expr(r, final(self).pos(), term(old(self).toks(), old(self).pos())),
            r is Ok ==> final(self).pos() >= old(self).pos(),
        decreases old(self).toks().len() - old(self).pos(), 6nat,
    {
        let ghost toks = self.toks();
        let ghost p0 = self.pos();
        let mut expr = self.factor()?;
        while self.match_kinds(&[TokenKind::Plus, TokenKind::Minus])
            invariant
                self.wf(),
                self.toks() == toks,
                toks == old(self).toks(),
                p0 == old(self).pos(),
                self.pos() >= p0,
                term(toks, p0) == term_rest(toks, self.pos(), expr@),
            decreases toks.len() - self.pos(),
        {
            let ghost q = self.pos() - 1;
            let op = match self.previous().kind {
                TokenKind::Plus => BinaryOp::Add,
                _ => BinaryOp::Sub,
            };
            proof {
                assert(term_op(toks, q) == Some(op));
            }
            let ghost left = expr@;
            let right = match self.factor() {
                Ok(right) => right,
                Err(e) => {
                    assert(term_rest(toks, q, left) == Err::<(ExprModel, int), ParseError>(e));
                    return Err(e);
                },
            };
            proof {
                assert(term_rest(toks, q, left) == term_rest(toks, self.pos(), binary(left, op, right@)));
            }
            expr = Expr::Binary { left: Box::new(expr), op, right: Box::new(right) };
        }
        Ok(expr)
    }

    #[verifier::rlimit(50)]
    fn comparison(&mut self) -> (r: Result<Expr, ParseError>)
        requires
            old(self).wf(),
        ensures
            final(self).wf(),
            final(self).toks() == old(self).toks(),
            parsed_expr(r, final(self).pos(), comparison(old(self).toks(), old(self).pos())),
            r is Ok ==> final(self).pos() >= old(self).pos(),
        decreases old(self).toks().len() - old(self).pos(), 8nat,
    {
        let ghost toks = self.toks();
        let ghost p0 = self.pos();
        let mut expr = self.term()?;
        while self.match_kinds(&[TokenKind::Less, TokenKind::LessEqual, TokenKind::Greater, TokenKind::GreaterEqual])
            invariant
                self.wf(),
                self.toks() == toks,
                toks == old(self).toks(),
                p0 == old(self).pos(),
                self.pos() >= p0,
                comparison(toks, p0) == comparison_rest(toks, self.pos(), expr@),
            decreases toks.len() - self.pos(),
        {
            let ghost q = self.pos() - 1;
            let op = match self.previous().kind {
                TokenKind::Less => BinaryOp::Less,
                TokenKind::LessEqual => BinaryOp::LessEqual,
                TokenKind::Greater => BinaryOp::Greater,
                _ => BinaryOp::GreaterEqual,
            };
            proof {
                assert(comparison_op(toks, q) == Some(op));
            }
            let ghost left = expr@;
            let right = match self.term() {
                Ok(right) => right,
                Err(e) => {
                    assert(comparison_rest(toks, q, left) == Err::<(ExprModel, int), ParseError>(e));
                    return Err(e);
                },
            };
            proof {
                assert(comparison_rest(toks, q, left) == comparison_rest(toks, self.pos(), binary(left, op, right@)));
            }
            expr = Expr::Binary { left: Box::new(expr), op, right: Box::new(right) };
        }
        Ok(expr)
    }

    #[verifier::rlimit(50)]
    fn equality(&mut self) -> (r: Result<Expr, ParseError>)
        requires
            old(self).wf(),
        ensures
            final(self).wf(),
            final(self).toks() == old(self).toks(),
            parsed_expr(r, final(self).pos(), equality(old(self).toks(), old(self).pos())),
            r is Ok ==> final(self).pos() >= old(self).pos(),
        decreases old(self).toks().len() - old(self).pos(), 10nat,
    {
        let ghost toks = self.toks();
        let ghost p0 = self.pos();
        let mut expr = self.comparison()?;
        while self.match_kinds(&[TokenKind::EqualEqual, TokenKind::BangEqual])
            invariant
                self.wf(),
                self.toks() == toks,
                toks == old(self).toks(),
                p0 == old(self).pos(),
                self.pos() >= p0,
                equality(toks, p0) == equality_rest(toks, self.pos(), expr@),
            decreases toks.len() - self.pos(),
        {
            let ghost q = self.pos() - 1;
            let op = match self.previous().kind {
                TokenKind::EqualEqual => BinaryOp::Equal,
                _ => BinaryOp::NotEqual,
            };
            proof {
                assert(equality_op(toks, q) == Some(op));
            }
            let ghost left = expr@;
            let right = match self.comparison() {
                Ok(right) => right,
                Err(e) => {
                    assert(equality_rest(toks, q, left) == Err::<(ExprModel, int), ParseError>(e));
                    return Err(e);
                },
            };
            proof {
                assert(equality_rest(toks, q, left) == equality_rest(toks, self.pos(), binary(left, op, right@)));
            }
            expr = Expr::Binary { left: Box::new(expr), op, right: Box::new(right) };
        }
        Ok(expr)
    }

    /// Parses one expression: `expression → assignment`, and
    /// `assignment → IDENTIFIER "=" assignment | equality`.
    pub fn parse_expression(&mut self) -> (r: Result<Expr, ParseError>)
        requires
            old(self).wf(),
        ensures
            final(self).wf(),
            final(self).toks() == old(self).toks(),
            parsed_expr(r, final(self).pos(), expression(old(self).toks(), old(self).pos())),
            r is Ok ==> final(self).pos() >= old(self).pos(),
        decreases old(self).toks().len() - old(self).pos(), 11nat,
    {
        let start = self.current;
        if let TokenKind::Identifier(name) = self.peek().kind.duplicate() {
            self.advance();
            if self.check(&TokenKind::Equal) {
                self.advance();
                let value = self.parse_expression()?;
                return Ok(Expr::Assign { name, value: Box::new(value) });
            }
            // not an assignment: read the identifier again as an operand
            self.current = start;
        }
        self.equality()
    }


    fn statement(&mut self) -> (r: Result<Stmt, ParseError>)
        requires
            old(self).wf(),
        ensures
            final(self).wf(),
            final(self).toks() == old(self).toks(),
            parsed_stmt(r, final(self).pos(), statement(old(self).toks(), old(self).pos())),
            r is Ok ==> final(self).pos() > old(self).pos(),
        decreases old(self).toks().len() - old(self).pos(), 13nat,
    {
        if self.match_kinds(&[TokenKind::Let]) {
            return self.let_statement();
        }
        if self.match_kinds(&[TokenKind::Print]) {
            return self.print_statement();
        }
        if self.match_kinds(&[TokenKind::If]) {
            return self.if_statement();
        }
        if self.match_kinds(&[TokenKind::While]) {
            return self.while_statement();
        }
        if self.match_kinds(&[TokenKind::LeftBrace]) {
            return self.block();
        }
        self.expression_statement()
    }

    fn let_statement(&mut self) -> (r: Result<Stmt, ParseError>)
        requires
            old(self).wf(),
        ensures
            final(self).wf(),
            final(self).toks() == old(self).toks(),
            parsed_stmt(r, final(self).pos(), let_statement(old(self).toks(), old(self).pos())),
            r is Ok ==> final(self).pos() > old(self).pos(),
        decreases old(self).toks().len() - old(self).pos(), 12nat,
    {
        if self.is_at_end() {
            return Err(
                ParseError { kind: ParseErrorKind::ExpectedVariableName, token: self.current },
            );
        }
        let t = self.current;
        self.advance();
        let name = match self.previous().kind.duplicate() {
            TokenKind::Identifier(name) => name,
            _ => {
                return Err(ParseError { kind: ParseErrorKind::ExpectedVariableName, token: t });
            },
        };
        self.consume(&TokenKind::Equal, ParseErrorKind::ExpectedEqualAfterVariableName)?;
        let initializer = self.parse_expression()?;
        self.consume(&TokenKind::Semicolon, ParseErrorKind::ExpectedSemicolonAfterDeclaration)?;
        Ok(Stmt::Let { name, initializer })
    }

    fn print_statement(&mut self) -> (r: Result<Stmt, ParseError>)
        requires
            old(self).wf(),
        ensures
            final(self).wf(),
            final(self).toks() == old(self).toks(),
            parsed_stmt(r, final(self).pos(), print_statement(old(self).toks(), old(self).pos())),
            r is Ok ==> final(self).pos() > old(self).pos(),
        decreases old(self).toks().len() - old(self).pos(), 12nat,
    {
        let expr = self.parse_expression()?;
        self.consume(&TokenKind::Semicolon, ParseErrorKind::ExpectedSemicolonAfterValue)?;
        Ok(Stmt::Print(expr))
    }

    fn expression_statement(&mut self) -> (r: Result<Stmt, ParseError>)
        requires
            old(self).wf(),
        ensures
            final(self).wf(),
            final(self).toks() == old(self).toks(),
            parsed_stmt(
                r,
                final(self).pos(),
                expression_statement(old(self).toks(), old(self).pos()),
            ),
            r is Ok ==> final(self).pos() > old(self).pos(),
        decreases old(self).toks().len() - old(self).pos(), 12nat,
    {
        let expr = self.parse_expression()?;
        self.consume(&TokenKind::Semicolon, ParseErrorKind::ExpectedSemicolonAfterExpression)?;
        Ok(Stmt::ExprStmt(expr))
    }

    fn if_statement(&mut self) -> (r: Result<Stmt, ParseError>)
        requires
            old(self).wf(),
        ensures
            final(self).wf(),
            final(self).toks() == old(self).toks(),
            parsed_stmt(r, final(self).pos(), if_statement(old(self).toks(), old(self).pos())),
            r is Ok ==> final(self).pos() > old(self).pos(),
        decreases old(self).toks().len() - old(self).pos(), 12nat,
    {
        self.consume(&TokenKind::LeftParen, ParseErrorKind::ExpectedLeftParenAfterIf)?;
        let condition = self.parse_expression()?;
        self.consume(&TokenKind::RightParen, ParseErrorKind::ExpectedRightParenAfterIfCondition)?;
        let then_branch = Box::new(self.statement()?);
        let else_branch = if self.match_kinds(&[TokenKind::Else]) {
            Some(Box::new(self.statement()?))
        } else {
            None
        };
        Ok(Stmt::If { condition, then_branch, else_branch })
    }

    fn while_statement(&mut self) -> (r: Result<Stmt, ParseError>)
        requires
            old(self).wf(),
        ensures
            final(self).wf(),
            final(self).toks() == old(self).toks(),
            parsed_stmt(r, final(self).pos(), while_statement(old(self).toks(), old(self).pos())),
            r is Ok ==> final(self).pos() > old(self).pos(),
        decreases old(self).toks().len() - old(self).pos(), 12nat,
    {
        self.consume(&TokenKind::LeftParen, ParseErrorKind::ExpectedLeftParenAfterWhile)?;
        let condition = self.parse_expression()?;
        self.consume(
            &TokenKind::RightParen,
            ParseErrorKind::ExpectedRightParenAfterWhileCondition,
        )?;
        let body = Box::new(self.statement()?);
        Ok(Stmt::While { condition, body })
    }

    fn block(&mut self) -> (r: Result<Stmt, ParseError>)
        requires
            old(self).wf(),
        ensures
            final(self).wf(),
            final(self).toks() == old(self).toks(),
            parsed_stmt(r, final(self).pos(), block(old(self).toks(), old(self).pos())),
            r is Ok ==> final(self).pos() > old(self).pos(),
        decreases old(self).toks().len() - old(self).pos(), 15nat,
    {
        let ghost toks = self.toks();
        let ghost p0 = self.pos();
        let mut statements: Vec<Stmt> = Vec::new();
        proof {
            assert(stmts_model(statements@) =~= Seq::<StmtModel>::empty());
        }
        while !self.check(&TokenKind::RightBrace) && !self.is_at_end()
            invariant
                self.wf(),
                self.toks() == toks,
                toks == old(self).toks(),
                p0 == old(self).pos(),
                self.pos() >= p0,
                block_items(toks, p0, Seq::empty()) == block_items(
                    toks,
                    self.pos(),
                    stmts_model(statements@),
                ),
            decreases toks.len() - self.pos(),
        {
            let ghost q = self.pos();
            let ghost done = stmts_model(statements@);
            let s = match self.statement() {
                Ok(s) => s,
                Err(e) => {
                    assert(block_items(toks, q, done) == Err::<(Seq<StmtModel>, int), ParseError>(e));
                    return Err(e);
                },
            };
            proof {
                assert(block_items(toks, q, done) == block_items(toks, self.pos(), done.push(s@)));
            }
            statements.push(s);
            proof {
                assert(stmts_model(statements@) =~= done.push(s@));
            }
        }
        self.consume(&TokenKind::RightBrace, ParseErrorKind::ExpectedRightBraceAfterBlock)?;
        let ghost sv = statements@;
        let r = Stmt::Block(statements);
        proof {
            assert(stmt_model(&r)->Block_0 =~= stmts_model(sv));
        }
        Ok(r)
    }

    /// Parses statements up to the end of the tokens: the statements of
    /// `program` from the current position, or the first error.
    pub fn parse_program(&mut self) -> (r: Result<Vec<Stmt>, ParseError>)
        requires
            old(self).wf(),
        ensures
            final(self).wf(),
            final(self).toks() == old(self).toks(),
            r is Ok ==> at_end(final(self).toks(), final(self).pos()),
            match program(old(self).toks(), old(self).pos(), Seq::empty()) {
                Ok(m) => r matches Ok(v) && stmts_model(v@) == m,
                Err(e) => r == Err::<Vec<Stmt>, ParseError>(e),
            },
    {
        let ghost toks = self.toks();
        let ghost p0 = self.pos();
        let mut statements: Vec<Stmt> = Vec::new();
        proof {
            assert(stmts_model(statements@) =~= Seq::<StmtModel>::empty());
        }
        while !self.is_at_end()
            invariant
                self.wf(),
                self.toks() == toks,
                toks == old(self).toks(),
                p0 == old(self).pos(),
                program(toks, p0, Seq::empty()) == program(
                    toks,
                    self.pos(),
                    stmts_model(statements@),
                ),
            decreases toks.len() - self.pos(),
        {
            let ghost q = self.pos();
            let ghost done = stmts_model(statements@);
            let s = match self.statement() {
                Ok(s) => s,
                Err(e) => {
                    assert(program(toks, q, done) == Err::<Seq<StmtModel>, ParseError>(e));
                    return Err(e);
                },
            };
            proof {
                assert(program(toks, q, done) == program(toks, self.pos(), done.push(s@)));
            }
            statements.push(s);
            proof {
                assert(stmts_model(statements@) =~= done.push(s@));
            }
        }
        Ok(statements)
    }

}

} // verus!
