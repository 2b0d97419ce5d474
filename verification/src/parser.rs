//! Tokens to an expression tree.
//!
//! The grammar has three levels, each a function that reads from a position
//! in the token sequence and says where it stopped:
//!
//! ```text
//! line    := sum End
//! sum     := product (('+' | '-') product)*
//! product := number (('*' | '/') number)*
//! ```
use vstd::prelude::*;
use crate::expression::{Expression, Tree};
use crate::token::{Operator, Token, TokenView, token_views};

verus! {

/// Why a token sequence is no line of the grammar.
#[derive(Clone, Copy, Debug, PartialEq, Eq, Structural)]
pub enum ParseError {
    /// Something other than a number stood where a number was due.
    UnexpectedToken,
    /// The tokens ran out.
    UnexpectedEndOfInput,
    /// Something other than the end marker followed the expression.
    UnexpectedTrailingInput,
}

/// A tree and the position of the first token after it.
pub type Parsed = Result<(Tree, nat), ParseError>;

/// A number at position `at`.
pub open spec fn number_at(tokens: Seq<TokenView>, at: nat) -> Parsed {
    if at >= tokens.len() {
        Err(ParseError::UnexpectedEndOfInput)
    } else {
        match tokens[at as int] {
            TokenView::Number(text) => Ok((Tree::Number(text), at + 1)),
            _ => Err(ParseError::UnexpectedToken),
        }
    }
}

/// Whether the token at `at` is an operator of the tighter level.
pub open spec fn multiplicative_at(tokens: Seq<TokenView>, at: nat) -> bool {
    at < tokens.len() && (tokens[at as int] matches TokenView::Operator(op)
        && op.is_multiplicative())
}

/// Whether the token at `at` is an operator of the looser level.
pub open spec fn additive_at(tokens: Seq<TokenView>, at: nat) -> bool {
    at < tokens.len() && (tokens[at as int] matches TokenView::Operator(op) && op.is_additive())
}

/// The rest of a product whose operands so far make `left`: as long as a
/// `*` or `/` follows, its right operand joins from the right.
pub open spec fn product_rest(tokens: Seq<TokenView>, left: Tree, at: nat) -> Parsed
    decreases tokens.len() - at,
{
    if at >= tokens.len() {
        Err(ParseError::UnexpectedEndOfInput)
    } else if multiplicative_at(tokens, at) {
        match number_at(tokens, at + 1) {
            Ok((right, next)) => product_rest(
                tokens,
                Tree::Binary(tokens[at as int]->Operator_0, Box::new(left), Box::new(right)),
                next,
            ),
            Err(e) => Err(e),
        }
    } else {
        Ok((left, at))
    }
}

/// A product at position `at`.
pub open spec fn product_at(tokens: Seq<TokenView>, at: nat) -> Parsed {
    match number_at(tokens, at) {
        Ok((first, next)) => product_rest(tokens, first, next),
        Err(e) => Err(e),
    }
}

/// A product ends after where it began.
pub proof fn lemma_product_rest_advances(tokens: Seq<TokenView>, left: Tree, at: nat)
    ensures
        product_rest(tokens, left, at) matches Ok((_, next)) ==> at <= next < tokens.len(),
    decreases tokens.len() - at,
{
    if at < tokens.len() && multiplicative_at(tokens, at) {
        if let Ok((right, next)) = number_at(tokens, at + 1) {
            lemma_product_rest_advances(
                tokens,
                Tree::Binary(tokens[at as int]->Operator_0, Box::new(left), Box::new(right)),
                next,
            );
        }
    }
}

/// The rest of a sum whose operands so far make `left`: as long as a `+` or
/// `-` follows, the product after it joins from the right.
pub open spec fn sum_rest(tokens: Seq<TokenView>, left: Tree, at: nat) -> Parsed
    decreases tokens.len() - at,
{
    if at >= tokens.len() {
        Err(ParseError::UnexpectedEndOfInput)
    } else if additive_at(tokens, at) {
        match product_at(tokens, at + 1) {
            Ok((right, next)) => {
                proof {
                    if let Ok((first, after)) = number_at(tokens, at + 1) {
                        lemma_product_rest_advances(tokens, first, after);
                    }
                }
                sum_rest(
                    tokens,
                    Tree::Binary(tokens[at as int]->Operator_0, Box::new(left), Box::new(right)),
                    next,
                )
            },
            Err(e) => Err(e),
        }
    } else {
        Ok((left, at))
    }
}

/// A sum at position `at`.
pub open spec fn sum_at(tokens: Seq<TokenView>, at: nat) -> Parsed {
    match product_at(tokens, at) {
        Ok((first, next)) => sum_rest(tokens, first, next),
        Err(e) => Err(e),
    }
}

/// The tree of a line: a sum from the first token on, with the end marker
/// right after it. What follows the end marker is not looked at.
pub open spec fn parse_spec(tokens: Seq<TokenView>) -> Result<Tree, ParseError> {
    match sum_at(tokens, 0) {
        Ok((tree, next)) => if next < tokens.len() && tokens[next as int] is End {
            Ok(tree)
        } else {
            Err(ParseError::UnexpectedTrailingInput)
        },
        Err(e) => Err(e),
    }
}

/// Whether an executable result is the one that `expected` names.
pub open spec fn parsed_as(r: Result<(Expression, usize), ParseError>, expected: Parsed) -> bool {
    match r {
        Ok((e, next)) => expected == Ok::<(Tree, nat), ParseError>((e@, next as nat)),
        Err(e) => expected == Err::<(Tree, nat), ParseError>(e),
    }
}

/// Reads a number at `at`.
pub fn parse_number(tokens: &Vec<Token>, at: usize) -> (r: Result<(Expression, usize), ParseError>)
    ensures
        parsed_as(r, number_at(token_views(tokens@), at as nat)),
{
    if at >= tokens.len() {
        return Err(ParseError::UnexpectedEndOfInput);
    }
    match &tokens[at] {
        Token::Number(literal) => Ok((Expression::number(literal.duplicate()), at + 1)),
        _ => Err(ParseError::UnexpectedToken),
    }
}

/// Reads a product at `at`.
pub fn parse_product(tokens: &Vec<Token>, at: usize) -> (r: Result<(Expression, usize), ParseError>)
    ensures
        parsed_as(r, product_at(token_views(tokens@), at as nat)),
{
    let ghost views = token_views(tokens@);
    let (first, begin) = match parse_number(tokens, at) {
        Ok(found) => found,
        Err(e) => {
            return Err(e);
        },
    };
    let mut left: Expression = first;
    let mut pos: usize = begin;
    loop
        invariant
            views == token_views(tokens@),
            product_rest(views, left@, pos as nat) == product_at(views, at as nat),
        decreases tokens.len() - pos,
    {
        if pos >= tokens.len() {
            return Err(ParseError::UnexpectedEndOfInput);
        }
        let op: Operator = match &tokens[pos] {
            Token::Operator(Operator::Multiply) => Operator::Multiply,
            Token::Operator(Operator::Divide) => Operator::Divide,
            _ => {
                return Ok((left, pos));
            },
        };
        match parse_number(tokens, pos + 1) {
            Ok((right, next)) => {
                left = Expression::binary(op, left, right);
                pos = next;
            },
            Err(e) => {
                return Err(e);
            },
        }
    }
}

/// Reads a sum at `at`.
pub fn parse_sum(tokens: &Vec<Token>, at: usize) -> (r: Result<(Expression, usize), ParseError>)
    ensures
        parsed_as(r, sum_at(token_views(tokens@), at as nat)),
{
    let ghost views = token_views(tokens@);
    let (first, begin) = match parse_product(tokens, at) {
        Ok(found) => found,
        Err(e) => {
            return Err(e);
        },
    };
    let mut left: Expression = first;
    let mut pos: usize = begin;
    loop
        invariant
            views == token_views(tokens@),
            sum_rest(views, left@, pos as nat) == sum_at(views, at as nat),
        decreases tokens.len() - pos,
    {
        if pos >= tokens.len() {
            return Err(ParseError::UnexpectedEndOfInput);
        }
        let op: Operator = match &tokens[pos] {
            Token::Operator(Operator::Add) => Operator::Add,
            Token::Operator(Operator::Subtract) => Operator::Subtract,
            _ => {
                return Ok((left, pos));
            },
        };
        match parse_product(tokens, pos + 1) {
            Ok((right, next)) => {
                proof {
                    if let Ok((head, after)) = number_at(views, (pos + 1) as nat) {
                        lemma_product_rest_advances(views, head, after);
                    }
                }
                left = Expression::binary(op, left, right);
                pos = next;
            },
            Err(e) => {
                return Err(e);
            },
        }
    }
}

/// Whether an executable result is the one that `expected` names.
pub open spec fn parsed_line_as(
    r: Result<Expression, ParseError>,
    expected: Result<Tree, ParseError>,
) -> bool {
    match r {
        Ok(e) => expected == Ok::<Tree, ParseError>(e@),
        Err(e) => expected == Err::<Tree, ParseError>(e),
    }
}

/// Parses a line: a sum followed by the end marker.
///
/// Succeeds with the tree that `parse_spec` gives, and fails with its
/// error, which is the first one met from the left.
pub fn parse(tokens: &Vec<Token>) -> (r: Result<Expression, ParseError>)
    ensures
        parsed_line_as(r, parse_spec(token_views(tokens@))),
{
    match parse_sum(tokens, 0) {
        Ok((tree, next)) => {
            if next < tokens.len() {
                if let Token::End = &tokens[next] {
                    return Ok(tree);
                }
            }
            Err(ParseError::UnexpectedTrailingInput)
        },
        Err(e) => Err(e),
    }
}

} // verus!
