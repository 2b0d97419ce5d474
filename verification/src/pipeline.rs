//! The three stages in a row, and what holds of a whole line.
use vstd::prelude::*;
use crate::evaluator::{Arithmetic, Conversion, EvalError, Evaluation, Run, Step, is_zero_bits,
    lemma_outcome_is_value, postfix, value_of};
use crate::expression::{Expression, Tree};
use crate::grammar::{infix, lemma_parsed_line_shape, lemma_product_shape, lemma_sum_rest_shape};
use crate::lexer::{LexError, Scan, alternates, has_end, has_newline, lemma_scan_shape, lex_spec,
    lexed_as, scan, scan_char, scan_start};
use crate::parser::{ParseError, additive_at, multiplicative_at, number_at, parse_spec,
    parsed_line_as, product_at, product_rest, sum_at, sum_rest};
use crate::token::{Operator, Token, TokenView, is_literal, is_literal_char, token_views};

verus! {

/// The stage at which a line failed, and how.
pub ghost enum Failure {
    Lex(LexError),
    Parse(ParseError),
    Eval(EvalError),
}

/// The value of a line under a given conversion and arithmetic, or the
/// first failure of the first stage that fails.
pub open spec fn result_of(line: Seq<char>, convert: Conversion, apply: Arithmetic) -> Result<
    u64,
    Failure,
> {
    match lex_spec(line) {
        Err(e) => Err(Failure::Lex(e)),
        Ok(tokens) => match parse_spec(tokens) {
            Err(e) => Err(Failure::Parse(e)),
            Ok(tree) => match value_of(tree, convert, apply) {
                Err(e) => Err(Failure::Eval(e)),
                Ok(v) => Ok(v),
            },
        },
    }
}

/// The line that holds one operation and nothing else: the left number,
/// the operator's character, the right number, a newline.
pub open spec fn operation_line(left: Seq<char>, op: Operator, right: Seq<char>) -> Seq<char> {
    left + seq![op.symbol_of()] + right + seq!['\n']
}

/// Digits and points that follow each other all join the pending number.
pub proof fn lemma_scan_gathers(input: Seq<char>, from: nat, count: nat, before: Scan)
    requires
        from + count <= input.len(),
        forall|i: int| from <= i < from + count ==> is_literal_char(#[trigger] input[i]),
        scan(input, from) == Ok::<Scan, LexError>(before),
        !before.after_space,
    ensures
        scan(input, from + count) == Ok::<Scan, LexError>(
            Scan {
                tokens: before.tokens,
                pending: before.pending + input.subrange(from as int, (from + count) as int),
                after_space: false,
            },
        ),
    decreases count,
{
    if count == 0 {
        assert(before.pending + input.subrange(from as int, from as int) =~= before.pending);
    } else {
        let shorter = (count - 1) as nat;
        lemma_scan_gathers(input, from, shorter, before);
        let last = (from + shorter) as int;
        assert(is_literal_char(input[last]));
        assert((before.pending + input.subrange(from as int, last)).push(input[last])
            =~= before.pending + input.subrange(from as int, last + 1));
    }
}

/// The tokens of a line that holds one operation are the left number, the
/// operator, the right number and the end marker.
pub proof fn lemma_operation_line_tokens(left: Seq<char>, op: Operator, right: Seq<char>)
    requires
        is_literal(left),
        is_literal(right),
    ensures
        lex_spec(operation_line(left, op, right)) == Ok::<Seq<TokenView>, LexError>(
            seq![
                TokenView::Number(left),
                TokenView::Operator(op),
                TokenView::Number(right),
                TokenView::End,
            ],
        ),
{
    let line = operation_line(left, op, right);
    let n = left.len();
    let m = right.len();
    assert(line.len() == n + m + 2);
    assert(line.subrange(0, n as int) =~= left);
    assert(line[n as int] == op.symbol_of());
    assert(line.subrange(n as int + 1, n as int + 1 + m) =~= right);
    assert(line[n as int + 1 + m] == '\n');
    assert forall|i: int| 0 <= i < n implies is_literal_char(#[trigger] line[i]) by {
        assert(line[i] == left[i]);
    }
    assert forall|i: int| n + 1 <= i < n + 1 + m implies is_literal_char(#[trigger] line[i]) by {
        assert(line[i] == right[i - n - 1]);
    }
    lemma_scan_gathers(line, 0, n, scan_start());
    let s1 = Scan { tokens: Seq::<TokenView>::empty(), pending: left, after_space: false };
    assert(Seq::<char>::empty() + left =~= left);
    assert(scan(line, n) == Ok::<Scan, LexError>(s1));
    let s2 = Scan {
        tokens: seq![TokenView::Number(left), TokenView::Operator(op)],
        pending: Seq::<char>::empty(),
        after_space: false,
    };
    assert(Operator::of_symbol(op.symbol_of()) == Some(op));
    assert(Seq::<TokenView>::empty().push(TokenView::Number(left)).push(TokenView::Operator(op))
        =~= s2.tokens);
    assert(scan_char(s1, line[n as int]) == Ok::<Scan, LexError>(s2));
    assert(scan(line, n + 1) == Ok::<Scan, LexError>(s2));
    lemma_scan_gathers(line, n + 1, m, s2);
    let s3 = Scan { tokens: s2.tokens, pending: right, after_space: false };
    assert(Seq::<char>::empty() + right =~= right);
    assert(scan(line, n + 1 + m) == Ok::<Scan, LexError>(s3));
    let all = seq![
        TokenView::Number(left),
        TokenView::Operator(op),
        TokenView::Number(right),
        TokenView::End,
    ];
    assert(s2.tokens.push(TokenView::Number(right)).push(TokenView::End) =~= all);
    assert(scan(line, n + m + 2) == scan_char(s3, line[n as int + 1 + m]));
}

/// The tree of one operation between two numbers is the operator over the
/// two numbers.
pub proof fn lemma_operation_tree(left: Seq<char>, op: Operator, right: Seq<char>)
    ensures
        parse_spec(
            seq![
                TokenView::Number(left),
                TokenView::Operator(op),
                TokenView::Number(right),
                TokenView::End,
            ],
        ) == Ok::<Tree, ParseError>(
            Tree::Binary(op, Box::new(Tree::Number(left)), Box::new(Tree::Number(right))),
        ),
{
    let tokens = seq![
        TokenView::Number(left),
        TokenView::Operator(op),
        TokenView::Number(right),
        TokenView::End,
    ];
    let a = Tree::Number(left);
    let b = Tree::Number(right);
    let both = Tree::Binary(op, Box::new(a), Box::new(b));
    assert(number_at(tokens, 0) == Ok::<(Tree, nat), ParseError>((a, 1)));
    assert(number_at(tokens, 2) == Ok::<(Tree, nat), ParseError>((b, 3)));
    assert(product_rest(tokens, both, 3) == Ok::<(Tree, nat), ParseError>((both, 3)));
    assert(product_rest(tokens, b, 3) == Ok::<(Tree, nat), ParseError>((b, 3)));
    assert(sum_rest(tokens, both, 3) == Ok::<(Tree, nat), ParseError>((both, 3)));
    if op.is_multiplicative() {
        assert(product_rest(tokens, a, 1) == Ok::<(Tree, nat), ParseError>((both, 3)));
        assert(product_at(tokens, 0) == Ok::<(Tree, nat), ParseError>((both, 3)));
    } else {
        assert(op.is_additive());
        assert(product_rest(tokens, a, 1) == Ok::<(Tree, nat), ParseError>((a, 1)));
        assert(product_at(tokens, 0) == Ok::<(Tree, nat), ParseError>((a, 1)));
        assert(product_at(tokens, 2) == Ok::<(Tree, nat), ParseError>((b, 3)));
        assert(sum_rest(tokens, a, 1) == Ok::<(Tree, nat), ParseError>((both, 3)));
    }
    assert(sum_at(tokens, 0) == Ok::<(Tree, nat), ParseError>((both, 3)));
}

/// A line that holds one operation between two numbers has the value that
/// the arithmetic gives the operator on the two numbers, in their order;
/// but a division by a zero fails.
pub proof fn lemma_operation_line_value(
    left: Seq<char>,
    op: Operator,
    right: Seq<char>,
    convert: Conversion,
    apply: Arithmetic,
)
    requires
        is_literal(left),
        is_literal(right),
    ensures
        result_of(operation_line(left, op, right), convert, apply) == (if op == Operator::Divide
            && is_zero_bits(convert(right)) {
            Err::<u64, Failure>(Failure::Eval(EvalError::DivisionByZero))
        } else {
            Ok::<u64, Failure>(apply(op, convert(left), convert(right)))
        }),
        Run::start(
            Tree::Binary(op, Box::new(Tree::Number(left)), Box::new(Tree::Number(right))),
        ).outcome(convert, apply) == (if op == Operator::Divide && is_zero_bits(convert(right)) {
            Err::<u64, EvalError>(EvalError::DivisionByZero)
        } else {
            Ok::<u64, EvalError>(apply(op, convert(left), convert(right)))
        }),
{
    lemma_operation_line_tokens(left, op, right);
    lemma_operation_tree(left, op, right);
    let a = Tree::Number(left);
    let b = Tree::Number(right);
    let both = Tree::Binary(op, Box::new(a), Box::new(b));
    assert(value_of(a, convert, apply) == Ok::<u64, EvalError>(convert(left)));
    assert(value_of(b, convert, apply) == Ok::<u64, EvalError>(convert(right)));
    lemma_outcome_is_value(both, convert, apply);
}

/// Among alternating tokens the rest of a product, begun after a number,
/// stops after a number; it fails only where the tokens run out, and then
/// no end marker was left.
pub proof fn lemma_product_rest_alternating(tokens: Seq<TokenView>, left: Tree, at: nat)
    requires
        alternates(tokens),
        at % 2 == 1,
    ensures
        match product_rest(tokens, left, at) {
            Ok((_, next)) => next % 2 == 1 && at <= next < tokens.len() && forall|j: int|
                at <= j < next ==> !(#[trigger] tokens[j] is End),
            Err(e) => e == ParseError::UnexpectedEndOfInput && forall|j: int|
                at <= j < tokens.len() ==> !(#[trigger] tokens[j] is End),
        },
    decreases tokens.len() - at,
{
    if at < tokens.len() && multiplicative_at(tokens, at) {
        assert(tokens[at as int] is Operator);
        if at + 1 < tokens.len() {
            assert(tokens[at as int + 1] is Number);
            let (right, next) = number_at(tokens, at + 1)->Ok_0;
            lemma_product_rest_alternating(
                tokens,
                Tree::Binary(tokens[at as int]->Operator_0, Box::new(left), Box::new(right)),
                next,
            );
        }
    }
}

/// Among alternating tokens a product read at a number's place stops
/// after a number; it fails only where the tokens run out, and then no end
/// marker was left.
pub proof fn lemma_product_alternating(tokens: Seq<TokenView>, at: nat)
    requires
        alternates(tokens),
        at % 2 == 0,
    ensures
        match product_at(tokens, at) {
            Ok((_, next)) => next % 2 == 1 && at < next < tokens.len() && forall|j: int|
                at <= j < next ==> !(#[trigger] tokens[j] is End),
            Err(e) => e == ParseError::UnexpectedEndOfInput && forall|j: int|
                at <= j < tokens.len() ==> !(#[trigger] tokens[j] is End),
        },
{
    if at < tokens.len() {
        assert(tokens[at as int] is Number);
        let (first, next) = number_at(tokens, at)->Ok_0;
        lemma_product_rest_alternating(tokens, first, next);
    }
}

/// Among alternating tokens the rest of a sum, begun after a number, stops
/// after a number; it fails only where the tokens run out, and then no end
/// marker was left.
pub proof fn lemma_sum_rest_alternating(tokens: Seq<TokenView>, left: Tree, at: nat)
    requires
        alternates(tokens),
        at % 2 == 1,
    ensures
        match sum_rest(tokens, left, at) {
            Ok((_, next)) => next % 2 == 1 && at <= next < tokens.len() && forall|j: int|
                at <= j < next ==> !(#[trigger] tokens[j] is End),
            Err(e) => e == ParseError::UnexpectedEndOfInput && forall|j: int|
                at <= j < tokens.len() ==> !(#[trigger] tokens[j] is End),
        },
    decreases tokens.len() - at,
{
    if at < tokens.len() && additive_at(tokens, at) {
        assert(tokens[at as int] is Operator);
        lemma_product_alternating(tokens, at + 1);
        if let Ok((right, next)) = product_at(tokens, at + 1) {
            lemma_sum_rest_alternating(
                tokens,
                Tree::Binary(tokens[at as int]->Operator_0, Box::new(left), Box::new(right)),
                next,
            );
        }
    }
}

/// Alternating tokens are a line of the grammar if and only if an end
/// marker is among them; if none is, the tokens run out.
pub proof fn lemma_alternating_tokens_parse(tokens: Seq<TokenView>)
    requires
        alternates(tokens),
    ensures
        has_end(tokens) ==> parse_spec(tokens) is Ok,
        !has_end(tokens) ==> parse_spec(tokens) == Err::<Tree, ParseError>(
            ParseError::UnexpectedEndOfInput,
        ),
{
    lemma_product_alternating(tokens, 0);
    if has_end(tokens) {
        let j = choose|j: int| 0 <= j < tokens.len() && #[trigger] tokens[j] is End;
        assert(tokens[j] is End);
    }
    if let Ok((first, at)) = product_at(tokens, 0) {
        lemma_sum_rest_alternating(tokens, first, at);
        if let Ok((tree, next)) = sum_rest(tokens, first, at) {
            lemma_product_shape(tokens, 0);
            lemma_sum_rest_shape(tokens, 0, first, at);
            assert(!(tokens[next as int] is Number));
            assert(tokens[next as int] is End) by {
                if tokens[next as int] is Operator {
                    let op = tokens[next as int]->Operator_0;
                    assert(op.is_additive() || op.is_multiplicative());
                }
            }
        }
    }
}

/// A line that the lexer accepts is a line of the grammar if and only if
/// it holds a newline. Without one the parser finds that the tokens run
/// out: no line that the lexer accepts has a token out of place.
pub proof fn lemma_lexed_line_parses(line: Seq<char>)
    requires
        lex_spec(line) is Ok,
    ensures
        alternates(lex_spec(line)->Ok_0),
        has_newline(line, line.len()) ==> parse_spec(lex_spec(line)->Ok_0) is Ok,
        !has_newline(line, line.len()) ==> parse_spec(lex_spec(line)->Ok_0) == Err::<
            Tree,
            ParseError,
        >(ParseError::UnexpectedEndOfInput),
{
    lemma_scan_shape(line, line.len());
    lemma_alternating_tokens_parse(lex_spec(line)->Ok_0);
}

/// Whether every number in the tree is a decimal literal.
pub open spec fn literal_leaves(tree: Tree) -> bool
    decreases tree,
{
    match tree {
        Tree::Number(text) => is_literal(text),
        Tree::Binary(_, left, right) => literal_leaves(*left) && literal_leaves(*right),
    }
}

/// A tree whose tokens hold only decimal literals has only such leaves.
pub proof fn lemma_leaves_are_tokens(tree: Tree)
    requires
        forall|i: int|
            0 <= i < infix(tree).len() ==> (#[trigger] infix(tree)[i] matches TokenView::Number(
                text,
            ) ==> is_literal(text)),
    ensures
        literal_leaves(tree),
    decreases tree,
{
    match tree {
        Tree::Number(text) => {
            assert(infix(tree)[0] == TokenView::Number(text));
        },
        Tree::Binary(op, left, right) => {
            let l = infix(*left);
            let r = infix(*right);
            assert(infix(tree) == l + seq![TokenView::Operator(op)] + r);
            assert forall|i: int| 0 <= i < l.len() implies (#[trigger] l[i] matches TokenView::Number(
                text,
            ) ==> is_literal(text)) by {
                assert(l[i] == infix(tree)[i]);
            }
            assert forall|i: int| 0 <= i < r.len() implies (#[trigger] r[i] matches TokenView::Number(
                text,
            ) ==> is_literal(text)) by {
                assert(r[i] == infix(tree)[l.len() + 1 + i]);
            }
            lemma_leaves_are_tokens(*left);
            lemma_leaves_are_tokens(*right);
        },
    }
}

/// The tree of a line that the lexer accepts holds only decimal literals.
pub proof fn lemma_lexed_leaves_are_literals(line: Seq<char>)
    requires
        lex_spec(line) is Ok,
        parse_spec(lex_spec(line)->Ok_0) is Ok,
    ensures
        literal_leaves(parse_spec(lex_spec(line)->Ok_0)->Ok_0),
{
    let tokens = lex_spec(line)->Ok_0;
    let tree = parse_spec(tokens)->Ok_0;
    lemma_scan_shape(line, line.len());
    lemma_parsed_line_shape(tokens);
    let read = infix(tree);
    assert forall|i: int| 0 <= i < read.len() implies (#[trigger] read[i] matches TokenView::Number(
        text,
    ) ==> is_literal(text)) by {
        assert(read[i] == read.push(TokenView::End)[i]);
        assert(read[i] == tokens[i]);
    }
    lemma_leaves_are_tokens(tree);
}

/// Of a tree that holds only decimal literals, only decimal literals are
/// handed out for conversion.
pub proof fn lemma_conversions_are_of_literals(tree: Tree)
    requires
        literal_leaves(tree),
    ensures
        forall|i: int|
            0 <= i < postfix(tree).len() ==> (#[trigger] postfix(tree)[i] matches Step::Push(text)
                ==> is_literal(text)),
    decreases tree,
{
    match tree {
        Tree::Number(_) => {},
        Tree::Binary(op, left, right) => {
            lemma_conversions_are_of_literals(*left);
            lemma_conversions_are_of_literals(*right);
            assert(postfix(tree) == postfix(*left) + postfix(*right) + seq![Step::Apply(op)]);
        },
    }
}

/// Two passes over one line agree at every stage: in the tokens or the
/// lexer's error, in the tree or the parser's error, and in the state from
/// which evaluation starts, so also in where it ends. No pass leaves
/// anything behind for the next.
pub proof fn lemma_same_line_same_outcome(
    line: Seq<char>,
    first_tokens: Result<Vec<Token>, LexError>,
    second_tokens: Result<Vec<Token>, LexError>,
    first_tree: Result<Expression, ParseError>,
    second_tree: Result<Expression, ParseError>,
    first_run: Evaluation,
    second_run: Evaluation,
)
    requires
        lexed_as(first_tokens, lex_spec(line)),
        lexed_as(second_tokens, lex_spec(line)),
        first_tokens matches Ok(t) ==> parsed_line_as(first_tree, parse_spec(token_views(t@))),
        second_tokens matches Ok(t) ==> parsed_line_as(second_tree, parse_spec(token_views(t@))),
        first_tree matches Ok(e) ==> first_run@ == Run::start(e@),
        second_tree matches Ok(e) ==> second_run@ == Run::start(e@),
    ensures
        match (first_tokens, second_tokens) {
            (Ok(a), Ok(b)) => token_views(a@) == token_views(b@) && (match (
                first_tree,
                second_tree,
            ) {
                (Ok(c), Ok(d)) => c@ == d@ && first_run@ == second_run@ && (forall|
                    convert: Conversion,
                    apply: Arithmetic,
                | #[trigger]
                    first_run@.outcome(convert, apply) == second_run@.outcome(convert, apply)),
                (Err(c), Err(d)) => c == d,
                _ => false,
            }),
            (Err(a), Err(b)) => a == b,
            _ => false,
        },
{
}

} // verus!
