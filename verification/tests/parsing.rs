use calculator::evaluator::{emit, is_zero, Instruction};
use calculator::expression::Expression;
use calculator::lexer::lex;
use calculator::parser::{parse, parse_number, parse_product, parse_sum, ParseError};
use calculator::token::{Literal, Operator, Token};

fn lit(text: &str) -> Literal {
    Literal::new(text).unwrap()
}

fn num(text: &str) -> Token {
    Token::Number(lit(text))
}

fn op(c: char) -> Token {
    Token::Operator(Operator::from_symbol(c).unwrap())
}

fn leaf(text: &str) -> Expression {
    Expression::number(lit(text))
}

fn node(c: char, left: Expression, right: Expression) -> Expression {
    Expression::binary(Operator::from_symbol(c).unwrap(), left, right)
}

#[test]
fn product_is_an_operand_of_the_sum() {
    let tokens = lex("2 + 3 * 4\n").unwrap();
    assert_eq!(
        parse(&tokens),
        Ok(node('+', leaf("2"), node('*', leaf("3"), leaf("4"))))
    );
    let tokens = lex("2 * 3 + 4\n").unwrap();
    assert_eq!(
        parse(&tokens),
        Ok(node('+', node('*', leaf("2"), leaf("3")), leaf("4")))
    );
}

#[test]
fn chains_lean_to_the_left() {
    let tokens = lex("10 - 2 - 3\n").unwrap();
    assert_eq!(
        parse(&tokens),
        Ok(node('-', node('-', leaf("10"), leaf("2")), leaf("3")))
    );
    let tokens = lex("8 / 4 * 2 / 1\n").unwrap();
    assert_eq!(
        parse(&tokens),
        Ok(node('/', node('*', node('/', leaf("8"), leaf("4")), leaf("2")), leaf("1")))
    );
}

#[test]
fn single_number_is_a_leaf() {
    assert_eq!(parse(&vec![num("7"), Token::End]), Ok(leaf("7")));
    assert_eq!(leaf("7"), Expression::Number(lit("7")));
    assert_eq!(
        node('+', leaf("1"), leaf("2")),
        Expression::Binary(Operator::Add, Box::new(leaf("1")), Box::new(leaf("2")))
    );
}

#[test]
fn extra_number_is_trailing_input() {
    let tokens = vec![num("2"), op('+'), num("3"), num("4"), Token::End];
    assert_eq!(parse(&tokens), Err(ParseError::UnexpectedTrailingInput));
    assert_eq!(parse(&vec![num("1"), num("2")]), Err(ParseError::UnexpectedTrailingInput));
}

#[test]
fn operator_where_a_number_is_due() {
    assert_eq!(parse(&vec![op('+'), Token::End]), Err(ParseError::UnexpectedToken));
    assert_eq!(parse(&vec![op('+'), num("1"), Token::End]), Err(ParseError::UnexpectedToken));
    assert_eq!(
        parse(&vec![num("1"), op('*'), op('-'), num("2"), Token::End]),
        Err(ParseError::UnexpectedToken)
    );
    assert_eq!(
        parse(&vec![num("1"), op('+'), Token::End]),
        Err(ParseError::UnexpectedToken)
    );
    assert_eq!(parse(&vec![Token::End]), Err(ParseError::UnexpectedToken));
}

#[test]
fn tokens_that_run_out() {
    assert_eq!(parse(&vec![]), Err(ParseError::UnexpectedEndOfInput));
    assert_eq!(parse(&vec![num("1")]), Err(ParseError::UnexpectedEndOfInput));
    assert_eq!(parse(&vec![num("1"), op('+')]), Err(ParseError::UnexpectedEndOfInput));
    assert_eq!(
        parse(&vec![num("1"), op('+'), num("2"), op('*')]),
        Err(ParseError::UnexpectedEndOfInput)
    );
    assert_eq!(
        parse(&vec![num("1"), op('+'), num("2")]),
        Err(ParseError::UnexpectedEndOfInput)
    );
}

#[test]
fn what_follows_the_end_marker_is_not_read() {
    let tokens = vec![num("1"), Token::End, op('+'), Token::End, num("3")];
    assert_eq!(parse(&tokens), Ok(leaf("1")));
}

#[test]
fn levels_say_where_they_stopped() {
    let tokens = vec![num("1"), op('*'), num("2"), op('+'), num("3"), op('/'), num("4"), Token::End];
    assert_eq!(parse_number(&tokens, 0), Ok((leaf("1"), 1)));
    assert_eq!(parse_number(&tokens, 1), Err(ParseError::UnexpectedToken));
    assert_eq!(parse_number(&tokens, 7), Err(ParseError::UnexpectedToken));
    assert_eq!(parse_number(&tokens, 8), Err(ParseError::UnexpectedEndOfInput));
    assert_eq!(parse_number(&tokens, 100), Err(ParseError::UnexpectedEndOfInput));
    assert_eq!(parse_product(&tokens, 0), Ok((node('*', leaf("1"), leaf("2")), 3)));
    assert_eq!(parse_product(&tokens, 2), Ok((leaf("2"), 3)));
    assert_eq!(parse_product(&tokens, 4), Ok((node('/', leaf("3"), leaf("4")), 7)));
    assert_eq!(
        parse_sum(&tokens, 0),
        Ok((node('+', node('*', leaf("1"), leaf("2")), node('/', leaf("3"), leaf("4"))), 7))
    );
    assert_eq!(parse_sum(&tokens, 6), Ok((leaf("4"), 7)));
    assert_eq!(parse_sum(&tokens, 3), Err(ParseError::UnexpectedToken));
}

#[test]
fn steps_come_operands_first() {
    let tree = node('-', leaf("1"), node('*', leaf("2"), leaf("3")));
    let mut code = vec![Instruction::Apply(Operator::Add)];
    emit(&tree, &mut code);
    assert_eq!(
        code,
        vec![
            Instruction::Apply(Operator::Add),
            Instruction::Push(lit("1")),
            Instruction::Push(lit("2")),
            Instruction::Push(lit("3")),
            Instruction::Apply(Operator::Multiply),
            Instruction::Apply(Operator::Subtract),
        ]
    );
}

#[test]
fn zero_patterns() {
    assert!(is_zero(0.0_f64.to_bits()));
    assert!(is_zero((-0.0_f64).to_bits()));
    assert!(!is_zero(1.0_f64.to_bits()));
    assert!(!is_zero(f64::MIN_POSITIVE.to_bits()));
    assert!(!is_zero(f64::NAN.to_bits()));
    assert!(!is_zero(1));
}

fn written(tree: &Expression, out: &mut Vec<Token>) {
    match tree {
        Expression::Number(l) => out.push(Token::Number(l.duplicate())),
        Expression::Binary(o, left, right) => {
            written(left, out);
            out.push(Token::Operator(*o));
            written(right, out);
        }
    }
}

#[test]
fn line_written_from_a_sum_is_read_back() {
    let product = node('/', node('*', leaf("2"), leaf("3")), leaf("4"));
    let other = node('*', leaf("5"), leaf("6"));
    let sums = vec![
        leaf("1"),
        node('*', leaf("1"), leaf("2")),
        node('-', leaf("1"), leaf("2")),
        node('+', node('-', leaf("1"), product), other),
        node('-', node('+', node('-', leaf("1"), leaf("2")), leaf("3")), leaf("4")),
    ];
    for tree in sums {
        let mut tokens = Vec::new();
        written(&tree, &mut tokens);
        tokens.push(Token::End);
        assert_eq!(parse(&tokens).as_ref(), Ok(&tree));
        tokens.push(num("9"));
        tokens.push(op('+'));
        assert_eq!(parse(&tokens).as_ref(), Ok(&tree));
    }
}

#[test]
fn tree_that_is_no_sum_is_read_back_regrouped() {
    let right_leaning = node('-', leaf("1"), node('-', leaf("2"), leaf("3")));
    let mut tokens = Vec::new();
    written(&right_leaning, &mut tokens);
    tokens.push(Token::End);
    assert_eq!(
        parse(&tokens),
        Ok(node('-', node('-', leaf("1"), leaf("2")), leaf("3")))
    );
    let sum_under_product = node('*', node('+', leaf("1"), leaf("2")), leaf("3"));
    let mut tokens = Vec::new();
    written(&sum_under_product, &mut tokens);
    tokens.push(Token::End);
    assert_eq!(
        parse(&tokens),
        Ok(node('+', leaf("1"), node('*', leaf("2"), leaf("3"))))
    );
}

#[test]
fn lexed_line_parses_when_it_holds_a_newline() {
    for line in ["1\n", " 1 + 2\n", "1*2/3-4+5\n", "1\n2\n", "1+2\n*3", "3.5 / .5\nrest"] {
        match lex(line) {
            Ok(tokens) => assert!(parse(&tokens).is_ok(), "{:?}", line),
            Err(_) => assert!(line.contains('r')),
        }
    }
    for line in ["", "1", "1+", "1 + 2", "1*2/3-4+5", "   "] {
        let tokens = lex(line).unwrap();
        assert_eq!(parse(&tokens), Err(ParseError::UnexpectedEndOfInput), "{:?}", line);
    }
}

#[test]
fn lexed_tokens_alternate() {
    for line in ["1\n", " 1 + 2\n", "1*2/3-4+5\n", "1\n2\n", "1+2\n*3", "7 -"] {
        let tokens = lex(line).unwrap();
        assert_eq!(tokens.len() % 2, 0);
        for (i, token) in tokens.iter().enumerate() {
            match token {
                Token::Number(l) => {
                    assert_eq!(i % 2, 0);
                    let text: String = l.text.iter().collect();
                    assert!(text.parse::<f64>().is_ok());
                    assert_eq!(Literal::new(&text), Some(l.duplicate()));
                }
                _ => assert_eq!(i % 2, 1),
            }
        }
    }
}
