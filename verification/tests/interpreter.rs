use lox::ast::{BinaryOp, Stmt};
use lox::interpreter::{Interpreter, NumberOp, RuntimeError, Value};
use lox::lexer::Lexer;
use lox::parser::Parser;

type Floats = Interpreter<f64, fn(NumberOp<f64>) -> f64, fn(BinaryOp, f64, f64) -> bool>;

fn arith(op: NumberOp<f64>) -> f64 {
    match op {
        NumberOp::Literal(text) => text.parse().unwrap(),
        NumberOp::Negate(n) => -n,
        NumberOp::Arithmetic(BinaryOp::Add, a, b) => a + b,
        NumberOp::Arithmetic(BinaryOp::Sub, a, b) => a - b,
        NumberOp::Arithmetic(BinaryOp::Mul, a, b) => a * b,
        NumberOp::Arithmetic(_, a, b) => a / b,
    }
}

fn compare(op: BinaryOp, a: f64, b: f64) -> bool {
    match op {
        BinaryOp::Less => a < b,
        BinaryOp::LessEqual => a <= b,
        BinaryOp::Greater => a > b,
        BinaryOp::GreaterEqual => a >= b,
        _ => a == b,
    }
}

fn show(value: &Value<f64>) -> String {
    match value {
        Value::Number(n) => format!("{}", n),
        Value::StringLit(s) => s.clone(),
        Value::Bool(b) => format!("{}", b),
    }
}

fn message(error: &RuntimeError<f64>) -> String {
    match error {
        RuntimeError::UndefinedVariable(name) => format!("Undefined variable '{}'", name),
        RuntimeError::CannotAdd(a, b) => format!("Cannot add {} and {}", show(a), show(b)),
        RuntimeError::ExpectedNumber(v) => format!("Expected a number, found {}", show(v)),
        RuntimeError::LoopLimit => String::from("Loop ran too many times"),
    }
}

fn parse(source: &str) -> Vec<Stmt> {
    Parser::new(Lexer::new(source).scan_tokens()).parse_program().unwrap()
}

fn interpreter() -> Floats {
    Interpreter::new(
        arith as fn(NumberOp<f64>) -> f64,
        compare as fn(BinaryOp, f64, f64) -> bool,
    )
}

fn run(source: &str) -> Floats {
    let statements = parse(source);
    let mut interpreter = interpreter();
    if let Err(error) = interpreter.interpret(&statements) {
        panic!("{}", message(&error));
    }
    interpreter
}

fn eval(source: &str) -> Value<f64> {
    run(&format!("let it = {};", source)).lookup("it").unwrap()
}

fn number(source: &str) -> f64 {
    match eval(source) {
        Value::Number(n) => n,
        other => panic!("expected a number, found {}", show(&other)),
    }
}

#[test]
fn evaluates_arithmetic_by_precedence() {
    assert_eq!(number("10 + 4 * 2"), 18.0);
    assert_eq!(number("(10 + 4) * 2"), 28.0);
    assert_eq!(number("1 - 2 - 3"), -4.0);
    assert_eq!(number("8 / 4 / 2"), 1.0);
}

#[test]
fn evaluates_fractions() {
    assert_eq!(number("1.5 + 2.25"), 3.75);
}

#[test]
fn evaluates_unary_operators() {
    assert_eq!(number("-7"), -7.0);
    assert_eq!(eval("!true"), Value::Bool(false));
    assert_eq!(eval("!!true"), Value::Bool(true));
}

#[test]
fn concatenates_strings() {
    assert_eq!(eval(r#""lo" + "x""#), Value::StringLit(String::from("lox")));
}

#[test]
fn evaluates_comparisons() {
    assert_eq!(eval("2 < 3"), Value::Bool(true));
    assert_eq!(eval("3 <= 3"), Value::Bool(true));
    assert_eq!(eval("2 > 3"), Value::Bool(false));
    assert_eq!(eval("3 >= 4"), Value::Bool(false));
}

#[test]
fn evaluates_equality_across_types() {
    assert_eq!(eval("1 == 1"), Value::Bool(true));
    assert_eq!(eval("1 != 2"), Value::Bool(true));
    assert_eq!(eval(r#""a" == "a""#), Value::Bool(true));
    assert_eq!(eval("1 == true"), Value::Bool(false));
}

#[test]
fn only_false_is_falsey() {
    assert_eq!(eval("!false"), Value::Bool(true));
    assert_eq!(eval("!0"), Value::Bool(false));
    assert_eq!(eval(r#"!"""#), Value::Bool(false));
}

#[test]
fn if_runs_the_taken_branch_only() {
    let interpreter = run("let taken = 0; if (1 < 2) taken = 1; else taken = 2;");
    assert_eq!(interpreter.lookup("taken").unwrap(), Value::Number(1.0));

    let interpreter = run("let taken = 0; if (1 > 2) taken = 1; else taken = 2;");
    assert_eq!(interpreter.lookup("taken").unwrap(), Value::Number(2.0));
}

#[test]
fn if_without_else_falls_through() {
    let interpreter = run("let taken = 0; if (false) taken = 1;");
    assert_eq!(interpreter.lookup("taken").unwrap(), Value::Number(0.0));
}

#[test]
fn while_accumulates_until_the_condition_fails() {
    let interpreter = run(
        "let total = 0;
         let n = 1;
         while (n <= 5) {
             total = total + n;
             n = n + 1;
         }",
    );

    assert_eq!(interpreter.lookup("total").unwrap(), Value::Number(15.0));
    assert_eq!(interpreter.lookup("n").unwrap(), Value::Number(6.0));
}

#[test]
fn while_never_runs_when_the_condition_starts_false() {
    let interpreter = run("let runs = 0; while (false) runs = runs + 1;");
    assert_eq!(interpreter.lookup("runs").unwrap(), Value::Number(0.0));
}

#[test]
fn blocks_discard_their_own_declarations() {
    let interpreter = run("let a = \"outer\"; { let a = \"inner\"; }");
    assert_eq!(interpreter.lookup("a").unwrap(), Value::StringLit(String::from("outer")));
}

#[test]
fn assignment_writes_through_to_an_outer_scope() {
    let interpreter = run("let a = 1; { a = 99; }");
    assert_eq!(interpreter.lookup("a").unwrap(), Value::Number(99.0));
}

#[test]
fn inner_declarations_shadow_rather_than_overwrite() {
    let interpreter = run("let a = 1; { let a = 2; a = 3; }");
    assert_eq!(interpreter.lookup("a").unwrap(), Value::Number(1.0));
}

#[test]
fn assignment_evaluates_to_the_assigned_value() {
    let interpreter = run("let a = 0; let b = 0; a = b = 7;");
    assert_eq!(interpreter.lookup("a").unwrap(), Value::Number(7.0));
    assert_eq!(interpreter.lookup("b").unwrap(), Value::Number(7.0));
}

#[test]
#[should_panic(expected = "Undefined variable 'missing'")]
fn reading_an_undeclared_variable_fails() {
    run("print missing;");
}

#[test]
#[should_panic(expected = "Undefined variable 'missing'")]
fn assigning_to_an_undeclared_variable_fails() {
    run("missing = 1;");
}

#[test]
#[should_panic(expected = "Undefined variable 'gone'")]
fn block_locals_do_not_escape_their_scope() {
    run("{ let gone = 1; } print gone;");
}

#[test]
#[should_panic(expected = "Cannot add 1 and true")]
fn adding_mismatched_types_fails() {
    run("print 1 + true;");
}

#[test]
#[should_panic(expected = "Expected a number, found s")]
fn negating_a_string_fails() {
    run(r#"print -"s";"#);
}

#[test]
#[should_panic(expected = "Expected a number")]
fn comparing_a_string_to_a_number_fails() {
    run(r#"print "a" < 1;"#);
}

#[test]
fn errors_are_returned_not_raised() {
    let statements = parse("let a = 1; print a + \"x\"; a = 5;");
    let mut interpreter = interpreter();
    let result = interpreter.interpret(&statements);
    assert_eq!(
        result,
        Err(RuntimeError::CannotAdd(
            Value::Number(1.0),
            Value::StringLit(String::from("x"))
        ))
    );
    // the program stopped at the error
    assert_eq!(interpreter.lookup("a").unwrap(), Value::Number(1.0));
}

#[test]
fn the_left_operand_is_checked_first() {
    let statements = parse("print true - \"s\";");
    let result = interpreter().interpret(&statements);
    assert_eq!(result, Err(RuntimeError::ExpectedNumber(Value::Bool(true))));
}

#[test]
fn strings_compare_by_contents_and_mixed_kinds_differ() {
    assert_eq!(eval(r#""ab" == "a" + "b""#), Value::Bool(true));
    assert_eq!(eval(r#""ab" != "ab""#), Value::Bool(false));
    assert_eq!(eval(r#"true == true"#), Value::Bool(true));
    assert_eq!(eval(r#""1" == 1"#), Value::Bool(false));
}

#[test]
fn numbers_are_compared_by_the_domain() {
    // NaN is not equal to itself under the float domain
    assert_eq!(eval("0 / 0 == 0 / 0"), Value::Bool(false));
    assert_eq!(eval("0 / 0 != 0 / 0"), Value::Bool(true));
}

#[test]
fn a_let_is_read_back_and_leaves_other_names() {
    let interpreter = run("let a = 1; let b = 2; let a = 3;");
    assert_eq!(interpreter.lookup("a").unwrap(), Value::Number(3.0));
    assert_eq!(interpreter.lookup("b").unwrap(), Value::Number(2.0));
}

#[test]
fn nested_blocks_restore_each_scope() {
    let interpreter = run(
        "let a = 1; { let b = 2; { let a = b + 10; b = a; } a = b; }",
    );
    assert_eq!(interpreter.lookup("a").unwrap(), Value::Number(12.0));
    assert!(interpreter.lookup("b").is_err());
}

#[test]
fn lookup_of_an_unknown_name_is_an_error() {
    let interpreter = interpreter();
    assert_eq!(
        interpreter.lookup("nobody"),
        Err(RuntimeError::UndefinedVariable(String::from("nobody")))
    );
}

#[test]
fn print_keeps_each_value_in_order() {
    let statements = parse("let x = 2; print x * 3; print \"done\"; print x < 1;");
    let mut interpreter = interpreter();
    interpreter.interpret(&statements).unwrap();
    let shown: Vec<String> = interpreter.output().iter().map(show).collect();
    assert_eq!(shown, vec!["6", "done", "false"]);
}

#[test]
fn the_readme_example_prints_15_inner_outer() {
    let interpreter = run(
        "let total = 0;
         let n = 1;

         while (n <= 5) {
             total = total + n;
             n = n + 1;
         }

         print total;

         let a = \"outer\";
         {
             let a = \"inner\";
             print a;
         }
         print a;",
    );
    let shown: Vec<String> = interpreter.output().iter().map(show).collect();
    assert_eq!(shown.join("\n") + "\n", "15\ninner\nouter\n");
}

#[test]
fn take_output_hands_over_and_forgets() {
    let mut interpreter = interpreter();
    interpreter.interpret(&parse("print 1; print 2;")).unwrap();
    let first: Vec<String> = interpreter.take_output().iter().map(show).collect();
    assert_eq!(first, vec!["1", "2"]);
    assert!(interpreter.output().is_empty());
    interpreter.interpret(&parse("print 3;")).unwrap();
    let second: Vec<String> = interpreter.take_output().iter().map(show).collect();
    assert_eq!(second, vec!["3"]);
}
