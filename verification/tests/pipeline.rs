use calculator::evaluator::{evaluate, EvalError, Evaluation, Request};
use calculator::expression::Expression;
use calculator::lexer::{lex, LexError};
use calculator::parser::{parse, ParseError};
use calculator::token::{Literal, Operator};

#[derive(Debug, PartialEq)]
enum Failure {
    Lex(LexError),
    Parse(ParseError),
    Eval(EvalError),
}

fn to_number(literal: &Literal) -> f64 {
    let text: String = literal.text.iter().collect();
    text.parse::<f64>().expect("a literal is a number")
}

fn arithmetic(op: Operator, left: u64, right: u64) -> u64 {
    let a = f64::from_bits(left);
    let b = f64::from_bits(right);
    let c = match op {
        Operator::Add => a + b,
        Operator::Subtract => a - b,
        Operator::Multiply => a * b,
        Operator::Divide => a / b,
    };
    c.to_bits()
}

fn finish(mut run: Evaluation) -> Result<f64, EvalError> {
    loop {
        match run.request() {
            Request::Convert(literal) => run.supply(to_number(&literal).to_bits()),
            Request::Compute(op, left, right) => run.supply(arithmetic(op, left, right)),
            Request::Done(bits) => return Ok(f64::from_bits(bits)),
            Request::Failed(e) => return Err(e),
        }
    }
}

fn calculate(line: &str) -> Result<f64, Failure> {
    let tokens = lex(line).map_err(Failure::Lex)?;
    let tree = parse(&tokens).map_err(Failure::Parse)?;
    finish(evaluate(&tree)).map_err(Failure::Eval)
}

fn leaf(text: &str) -> Expression {
    Expression::Number(Literal::new(text).unwrap())
}

#[test]
fn one_operation_gives_what_the_operator_gives() {
    assert_eq!(calculate("6*7\n"), Ok(42.0));
    assert_eq!(calculate("1.5+2.25\n"), Ok(3.75));
    assert_eq!(calculate("3-5\n"), Ok(-2.0));
    assert_eq!(calculate("7/2\n"), Ok(3.5));
    assert_eq!(calculate("0.1+0.2\n"), Ok(0.1 + 0.2));
}

#[test]
fn multiplication_binds_tighter_than_addition() {
    assert_eq!(calculate("2 + 3 * 4\n"), Ok(14.0));
    assert_eq!(calculate("2 * 3 + 4\n"), Ok(10.0));
    assert_eq!(calculate("8 - 6 / 3\n"), Ok(6.0));
}

#[test]
fn equal_levels_group_from_the_left() {
    assert_eq!(calculate("10 - 2 - 3\n"), Ok(5.0));
    assert_eq!(calculate("16 / 4 / 2\n"), Ok(2.0));
    assert_eq!(calculate("16 / 4 * 2\n"), Ok(8.0));
}

#[test]
fn division_by_zero_fails() {
    assert_eq!(calculate("5 / 0\n"), Err(Failure::Eval(EvalError::DivisionByZero)));
    assert_eq!(calculate("5 / 0.0\n"), Err(Failure::Eval(EvalError::DivisionByZero)));
    assert_eq!(calculate("1 + 5 / 0 * 2\n"), Err(Failure::Eval(EvalError::DivisionByZero)));
    assert_eq!(calculate("0 / 5\n"), Ok(0.0));
}

#[test]
fn space_inside_a_number_is_rejected() {
    assert_eq!(calculate("1 2 + 3\n"), Err(Failure::Lex(LexError::UnexpectedSpace)));
}

#[test]
fn unsupported_character_is_named() {
    assert_eq!(calculate("2 ^ 3\n"), Err(Failure::Lex(LexError::UnsupportedCharacter('^'))));
}

#[test]
fn second_number_after_a_space_stops_the_lexer() {
    assert_eq!(calculate("2 + 3 4\n"), Err(Failure::Lex(LexError::UnexpectedSpace)));
}

#[test]
fn empty_line_is_no_number() {
    assert_eq!(calculate("\n"), Err(Failure::Lex(LexError::InvalidNumber)));
}

#[test]
fn line_without_newline_ends_early() {
    assert_eq!(calculate("1 + 2"), Err(Failure::Parse(ParseError::UnexpectedEndOfInput)));
    assert_eq!(calculate("1"), Err(Failure::Parse(ParseError::UnexpectedEndOfInput)));
    assert_eq!(calculate(""), Err(Failure::Parse(ParseError::UnexpectedEndOfInput)));
}

#[test]
fn same_line_twice_gives_the_same() {
    for line in ["2 + 3 * 4\n", "5 / 0\n", "1 2\n", "0.1 + 0.2 - 7 / 3\n"] {
        assert_eq!(lex(line), lex(line));
        assert_eq!(calculate(line), calculate(line));
    }
    let tokens = lex("1 + 2 * 3\n").unwrap();
    assert_eq!(parse(&tokens), parse(&tokens));
}

#[test]
fn number_alone_is_its_own_value() {
    for x in [0.0_f64, 1.0, 0.1, 123456.789, 1e300, f64::MIN_POSITIVE] {
        let mut run = evaluate(&leaf("1"));
        assert!(matches!(run.request(), Request::Convert(_)));
        run.supply(x.to_bits());
        assert_eq!(run.request(), Request::Done(x.to_bits()));
    }
    assert_eq!(finish(evaluate(&leaf("2.5"))), Ok(2.5));
}

#[test]
fn work_is_asked_for_from_the_left_and_from_the_leaves() {
    let tokens = lex("1 - 2 * 3\n").unwrap();
    let tree = parse(&tokens).unwrap();
    let mut run = evaluate(&tree);
    assert_eq!(run.request(), Request::Convert(Literal::new("1").unwrap()));
    run.supply(10);
    assert_eq!(run.request(), Request::Convert(Literal::new("2").unwrap()));
    run.supply(20);
    assert_eq!(run.request(), Request::Convert(Literal::new("3").unwrap()));
    run.supply(30);
    assert_eq!(run.request(), Request::Compute(Operator::Multiply, 20, 30));
    run.supply(600);
    assert_eq!(run.request(), Request::Compute(Operator::Subtract, 10, 600));
    run.supply(7);
    assert_eq!(run.request(), Request::Done(7));
}

#[test]
fn supplying_after_the_end_changes_nothing() {
    let mut run = evaluate(&leaf("4"));
    run.supply(4.0_f64.to_bits());
    run.supply(9.0_f64.to_bits());
    assert_eq!(run.request(), Request::Done(4.0_f64.to_bits()));

    let tree = Expression::Binary(Operator::Divide, Box::new(leaf("1")), Box::new(leaf("0")));
    let mut failed = evaluate(&tree);
    failed.supply(1.0_f64.to_bits());
    failed.supply(0.0_f64.to_bits());
    assert_eq!(failed.request(), Request::Failed(EvalError::DivisionByZero));
    failed.supply(5.0_f64.to_bits());
    assert_eq!(failed.request(), Request::Failed(EvalError::DivisionByZero));
}

#[test]
fn negative_zero_is_a_zero_divisor() {
    let tree = Expression::Binary(Operator::Divide, Box::new(leaf("1")), Box::new(leaf("0")));
    let mut run = evaluate(&tree);
    run.supply(1.0_f64.to_bits());
    run.supply((-0.0_f64).to_bits());
    assert_eq!(run.request(), Request::Failed(EvalError::DivisionByZero));

    let times = Expression::Binary(Operator::Multiply, Box::new(leaf("1")), Box::new(leaf("0")));
    let mut fine = evaluate(&times);
    fine.supply(1.0_f64.to_bits());
    fine.supply(0.0_f64.to_bits());
    assert_eq!(
        fine.request(),
        Request::Compute(Operator::Multiply, 1.0_f64.to_bits(), 0.0_f64.to_bits())
    );
}

#[test]
fn tiny_divisor_is_no_zero() {
    let tree = Expression::Binary(Operator::Divide, Box::new(leaf("1")), Box::new(leaf("1")));
    let mut run = evaluate(&tree);
    run.supply(1.0_f64.to_bits());
    run.supply(1);
    assert_eq!(run.request(), Request::Compute(Operator::Divide, 1.0_f64.to_bits(), 1));
}
