use lox::ast::{BinaryOp, Expr, Stmt, UnaryOp};
use lox::lexer::Lexer;
use lox::parser::{ParseError, ParseErrorKind, Parser};

fn program(source: &str) -> Result<Vec<Stmt>, ParseError> {
    Parser::new(Lexer::new(source).scan_tokens()).parse_program()
}

fn expression(source: &str) -> Result<Expr, ParseError> {
    Parser::new(Lexer::new(source).scan_tokens()).parse_expression()
}

fn num(text: &str) -> Box<Expr> {
    Box::new(Expr::Number(String::from(text)))
}

fn var(name: &str) -> Box<Expr> {
    Box::new(Expr::Variable(String::from(name)))
}

fn error(kind: ParseErrorKind, token: usize) -> ParseError {
    ParseError { kind, token }
}

#[test]
fn binary_operators_associate_to_the_left() {
    assert_eq!(
        expression("1 - 2 - 3").unwrap(),
        Expr::Binary {
            left: Box::new(Expr::Binary { left: num("1"), op: BinaryOp::Sub, right: num("2") }),
            op: BinaryOp::Sub,
            right: num("3"),
        }
    );
}

#[test]
fn factors_bind_tighter_than_terms() {
    assert_eq!(
        expression("1 + 2 * 3").unwrap(),
        Expr::Binary {
            left: num("1"),
            op: BinaryOp::Add,
            right: Box::new(Expr::Binary { left: num("2"), op: BinaryOp::Mul, right: num("3") }),
        }
    );
}

#[test]
fn comparison_binds_tighter_than_equality() {
    assert_eq!(
        expression("1 < 2 == true").unwrap(),
        Expr::Binary {
            left: Box::new(Expr::Binary { left: num("1"), op: BinaryOp::Less, right: num("2") }),
            op: BinaryOp::Equal,
            right: Box::new(Expr::Bool(true)),
        }
    );
}

#[test]
fn unary_and_assignment_associate_to_the_right() {
    assert_eq!(
        expression("!-x").unwrap(),
        Expr::Unary {
            op: UnaryOp::Not,
            expr: Box::new(Expr::Unary { op: UnaryOp::Neagtive, expr: var("x") }),
        }
    );
    assert_eq!(
        expression("a = b = 7").unwrap(),
        Expr::Assign {
            name: String::from("a"),
            value: Box::new(Expr::Assign { name: String::from("b"), value: num("7") }),
        }
    );
}

#[test]
fn else_binds_to_the_nearest_if() {
    let statements = program("if (a) if (b) x; else y;").unwrap();
    assert_eq!(
        statements,
        vec![Stmt::If {
            condition: *var("a"),
            then_branch: Box::new(Stmt::If {
                condition: *var("b"),
                then_branch: Box::new(Stmt::ExprStmt(*var("x"))),
                else_branch: Some(Box::new(Stmt::ExprStmt(*var("y")))),
            }),
            else_branch: None,
        }]
    );
}

#[test]
fn parses_every_statement_form() {
    let statements = program(
        "let a = 1; print a; { a = 2; } while (a < 3) a = a + 1; \"s\";",
    )
    .unwrap();
    assert_eq!(statements.len(), 5);
    assert_eq!(
        statements[0],
        Stmt::Let { name: String::from("a"), initializer: Expr::Number(String::from("1")) }
    );
    assert_eq!(statements[1], Stmt::Print(*var("a")));
    assert_eq!(
        statements[2],
        Stmt::Block(vec![Stmt::ExprStmt(Expr::Assign {
            name: String::from("a"),
            value: num("2"),
        })])
    );
    assert!(matches!(statements[3], Stmt::While { .. }));
    assert_eq!(statements[4], Stmt::ExprStmt(Expr::StringLit(String::from("s"))));
}

#[test]
fn reports_each_missing_piece_at_its_token() {
    assert_eq!(program("let = 1;"), Err(error(ParseErrorKind::ExpectedVariableName, 1)));
    assert_eq!(program("let a 1;"), Err(error(ParseErrorKind::ExpectedEqualAfterVariableName, 2)));
    assert_eq!(
        program("let a = 1"),
        Err(error(ParseErrorKind::ExpectedSemicolonAfterDeclaration, 4))
    );
    assert_eq!(program("print 1"), Err(error(ParseErrorKind::ExpectedSemicolonAfterValue, 2)));
    assert_eq!(program("if 1) x;"), Err(error(ParseErrorKind::ExpectedLeftParenAfterIf, 1)));
    assert_eq!(
        program("if (1 x;"),
        Err(error(ParseErrorKind::ExpectedRightParenAfterIfCondition, 3))
    );
    assert_eq!(program("while 1) x;"), Err(error(ParseErrorKind::ExpectedLeftParenAfterWhile, 1)));
    assert_eq!(
        program("while (1 x;"),
        Err(error(ParseErrorKind::ExpectedRightParenAfterWhileCondition, 3))
    );
    assert_eq!(program("{ x;"), Err(error(ParseErrorKind::ExpectedRightBraceAfterBlock, 3)));
    assert_eq!(program("x"), Err(error(ParseErrorKind::ExpectedSemicolonAfterExpression, 1)));
    assert_eq!(
        program("(1 + 2;"),
        Err(error(ParseErrorKind::ExpectedRightParenAfterExpression, 0))
    );
    assert_eq!(program(";"), Err(error(ParseErrorKind::UnexpectedToken, 0)));
    assert_eq!(program("1 = 2;"), Err(error(ParseErrorKind::ExpectedSemicolonAfterExpression, 1)));
}

#[test]
fn truncated_input_reports_the_end() {
    // `1 +` ends where an operand should be: the error names `Eof`
    assert_eq!(program("1 +"), Err(error(ParseErrorKind::UnexpectedToken, 2)));
    // a group opened by the last token finds the end in place of an operand
    assert_eq!(program("("), Err(error(ParseErrorKind::UnexpectedToken, 1)));
    // `let` at the end finds the end where the name should be
    assert_eq!(program("let"), Err(error(ParseErrorKind::ExpectedVariableName, 1)));
}

#[test]
fn an_expression_of_no_tokens_is_unexpected_eof() {
    assert_eq!(expression(""), Err(error(ParseErrorKind::UnexpectedToken, 0)));
}

#[test]
fn an_empty_program_has_no_statements() {
    assert_eq!(program("// nothing\n").unwrap(), vec![]);
}

#[test]
fn only_a_bare_name_can_be_assigned() {
    // `(a)` is a grouped expression, not a name: the `=` after it ends nothing
    assert_eq!(
        program("(a) = 1;"),
        Err(error(ParseErrorKind::ExpectedSemicolonAfterExpression, 3))
    );
    assert_eq!(
        program("a + b = 3;"),
        Err(error(ParseErrorKind::ExpectedSemicolonAfterExpression, 3))
    );
    // a name not followed by `=` is read as an operand
    assert_eq!(
        expression("a == b").unwrap(),
        Expr::Binary { left: var("a"), op: BinaryOp::Equal, right: var("b") }
    );
}
