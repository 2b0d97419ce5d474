//! What the parser accepts, said without the parser.
//!
//! A tree is read back as tokens by writing each operator between its
//! operands. The trees that the grammar can give have a shape: the right
//! operand of `*` or `/` is a number and its left operand a product; the
//! right operand of `+` or `-` is a product and its left operand a sum.
//! The parser accepts exactly the sequences that begin with the reading of
//! such a tree and the end marker, and gives that tree.
use vstd::prelude::*;
use crate::expression::Tree;
use crate::parser::{ParseError, additive_at, multiplicative_at, number_at, parse_spec,
    product_at, product_rest, sum_at, sum_rest};
use crate::token::{Operator, TokenView};

verus! {

/// The tokens of a tree, each operator between its operands.
pub open spec fn infix(tree: Tree) -> Seq<TokenView>
    decreases tree,
{
    match tree {
        Tree::Number(text) => seq![TokenView::Number(text)],
        Tree::Binary(op, left, right) => infix(*left) + seq![TokenView::Operator(op)] + infix(
            *right,
        ),
    }
}

/// A number, or a product times or over a number: `*` and `/` group from
/// the left and hold nothing but numbers.
pub open spec fn is_product(tree: Tree) -> bool
    decreases tree,
{
    match tree {
        Tree::Number(_) => true,
        Tree::Binary(op, left, right) => op.is_multiplicative() && is_product(*left)
            && *right is Number,
    }
}

/// A product, or a sum plus or minus a product: `+` and `-` group from the
/// left, and bind looser than `*` and `/`.
pub open spec fn is_sum(tree: Tree) -> bool
    decreases tree,
{
    match tree {
        Tree::Number(_) => true,
        Tree::Binary(op, left, right) => if op.is_multiplicative() {
            is_product(tree)
        } else {
            is_sum(*left) && is_product(*right)
        },
    }
}

/// Whether the tokens of `tree` stand in `tokens` from `from` on.
pub open spec fn stands_at(tokens: Seq<TokenView>, from: nat, tree: Tree) -> bool {
    &&& from + infix(tree).len() <= tokens.len()
    &&& tokens.subrange(from as int, (from + infix(tree).len()) as int) == infix(tree)
}

proof fn lemma_operands_stand(
    tokens: Seq<TokenView>,
    from: nat,
    op: Operator,
    left: Tree,
    right: Tree,
)
    requires
        stands_at(tokens, from, Tree::Binary(op, Box::new(left), Box::new(right))),
    ensures
        stands_at(tokens, from, left),
        stands_at(tokens, from + infix(left).len() + 1, right),
        tokens[(from + infix(left).len()) as int] == TokenView::Operator(op),
        infix(Tree::Binary(op, Box::new(left), Box::new(right))).len() == infix(left).len() + 1
            + infix(right).len(),
        infix(left).len() > 0,
        infix(right).len() > 0,
{
    let whole = infix(Tree::Binary(op, Box::new(left), Box::new(right)));
    let l = infix(left);
    let r = infix(right);
    let at = from as int;
    let m = l.len() as int;
    let n = r.len() as int;
    lemma_infix_is_not_empty(left);
    lemma_infix_is_not_empty(right);
    assert(whole == l + seq![TokenView::Operator(op)] + r);
    let window = tokens.subrange(at, at + whole.len());
    assert(tokens.subrange(at, at + m) =~= window.subrange(0, m));
    assert(window.subrange(0, m) =~= l);
    assert(tokens.subrange(at + m + 1, at + m + 1 + n) =~= window.subrange(m + 1, m + 1 + n));
    assert(window.subrange(m + 1, m + 1 + n) =~= r);
    assert(tokens[at + m] == window[m]);
}

/// A tree has at least one token.
pub proof fn lemma_infix_is_not_empty(tree: Tree)
    ensures
        infix(tree).len() > 0,
    decreases tree,
{
    match tree {
        Tree::Number(_) => {},
        Tree::Binary(_, left, _) => {
            lemma_infix_is_not_empty(*left);
        },
    }
}

/// Reading a product where its tokens stand brings the parser to the
/// product's end with the product in hand.
pub proof fn lemma_product_is_read(tokens: Seq<TokenView>, from: nat, tree: Tree)
    requires
        is_product(tree),
        stands_at(tokens, from, tree),
    ensures
        product_at(tokens, from) == product_rest(tokens, tree, from + infix(tree).len()),
    decreases tree,
{
    match tree {
        Tree::Number(text) => {
            assert(tokens[from as int] == tokens.subrange(from as int, from as int + 1)[0]);
        },
        Tree::Binary(op, left, right) => {
            lemma_operands_stand(tokens, from, op, *left, *right);
            lemma_product_is_read(tokens, from, *left);
            let at = from + infix(*left).len();
            assert(multiplicative_at(tokens, at));
            assert(infix(*right).len() == 1);
            assert(tokens[at as int + 1] == tokens.subrange(at as int + 1, at as int + 2)[0]);
            assert(number_at(tokens, at + 1) == Ok::<(Tree, nat), ParseError>((*right, at + 2)));
        },
    }
}

/// Reading a sum where its tokens stand, with something other than `*` or
/// `/` after them, brings the parser to the sum's end with the sum in hand.
pub proof fn lemma_sum_is_read(tokens: Seq<TokenView>, from: nat, tree: Tree)
    requires
        is_sum(tree),
        stands_at(tokens, from, tree),
        from + infix(tree).len() < tokens.len(),
        !multiplicative_at(tokens, from + infix(tree).len()),
    ensures
        sum_at(tokens, from) == sum_rest(tokens, tree, from + infix(tree).len()),
    decreases tree,
{
    let end = from + infix(tree).len();
    if is_product(tree) {
        lemma_product_is_read(tokens, from, tree);
        assert(product_rest(tokens, tree, end) == Ok::<(Tree, nat), ParseError>((tree, end)));
    } else {
        match tree {
            Tree::Number(_) => {},
            Tree::Binary(op, left, right) => {
                lemma_operands_stand(tokens, from, op, *left, *right);
                let at = from + infix(*left).len();
                assert(additive_at(tokens, at));
                lemma_sum_is_read(tokens, from, *left);
                lemma_product_is_read(tokens, at + 1, *right);
                assert(product_rest(tokens, *right, end) == Ok::<(Tree, nat), ParseError>(
                    (*right, end),
                ));
                assert(product_at(tokens, at + 1) == Ok::<(Tree, nat), ParseError>(
                    (*right, end),
                ));
            },
        }
    }
}

/// Every line of the grammar is accepted, with the tree it was written
/// from: the tokens of a sum, the end marker, and whatever follows.
pub proof fn lemma_line_is_read(tree: Tree, rest: Seq<TokenView>)
    requires
        is_sum(tree),
    ensures
        parse_spec(infix(tree) + seq![TokenView::End] + rest) == Ok::<Tree, ParseError>(tree),
{
    let tokens = infix(tree) + seq![TokenView::End] + rest;
    let end = infix(tree).len();
    assert(tokens.subrange(0, end as int) =~= infix(tree));
    assert(tokens[end as int] == TokenView::End);
    lemma_sum_is_read(tokens, 0, tree);
    assert(sum_rest(tokens, tree, end) == Ok::<(Tree, nat), ParseError>((tree, end)));
}

/// What the rest of a product gives is a product, and its tokens are
/// those read so far; it stops before a token that is no `*` or `/`.
pub proof fn lemma_product_rest_shape(tokens: Seq<TokenView>, start: nat, left: Tree, at: nat)
    requires
        is_product(left),
        start <= at <= tokens.len(),
        tokens.subrange(start as int, at as int) == infix(left),
        product_rest(tokens, left, at) is Ok,
    ensures
        ({
            let (tree, next) = product_rest(tokens, left, at)->Ok_0;
            &&& is_product(tree)
            &&& at <= next < tokens.len()
            &&& tokens.subrange(start as int, next as int) == infix(tree)
            &&& !multiplicative_at(tokens, next)
        }),
    decreases tokens.len() - at,
{
    if at < tokens.len() && multiplicative_at(tokens, at) {
        let op = tokens[at as int]->Operator_0;
        let (right, next) = number_at(tokens, at + 1)->Ok_0;
        let joined = Tree::Binary(op, Box::new(left), Box::new(right));
        assert(tokens[at as int] == TokenView::Operator(op));
        assert(infix(right) =~= seq![tokens[at as int + 1]]);
        assert(infix(joined) == infix(left) + seq![TokenView::Operator(op)] + infix(right));
        assert(tokens.subrange(start as int, next as int) =~= tokens.subrange(
            start as int,
            at as int,
        ) + seq![tokens[at as int]] + seq![tokens[at as int + 1]]);
        lemma_product_rest_shape(tokens, start, joined, next);
    }
}

/// What is read as a product is a product, and its tokens are those read.
pub proof fn lemma_product_shape(tokens: Seq<TokenView>, at: nat)
    requires
        product_at(tokens, at) is Ok,
    ensures
        ({
            let (tree, next) = product_at(tokens, at)->Ok_0;
            &&& is_product(tree)
            &&& at < next < tokens.len()
            &&& tokens.subrange(at as int, next as int) == infix(tree)
            &&& !multiplicative_at(tokens, next)
        }),
{
    let (first, next) = number_at(tokens, at)->Ok_0;
    assert(tokens.subrange(at as int, next as int) =~= infix(first));
    lemma_product_rest_shape(tokens, at, first, next);
}

/// What the rest of a sum gives is a sum, and its tokens are those read so
/// far; it stops before a token that is no operator.
pub proof fn lemma_sum_rest_shape(tokens: Seq<TokenView>, start: nat, left: Tree, at: nat)
    requires
        is_sum(left),
        start <= at <= tokens.len(),
        tokens.subrange(start as int, at as int) == infix(left),
        !multiplicative_at(tokens, at),
        sum_rest(tokens, left, at) is Ok,
    ensures
        ({
            let (tree, next) = sum_rest(tokens, left, at)->Ok_0;
            &&& is_sum(tree)
            &&& at <= next < tokens.len()
            &&& tokens.subrange(start as int, next as int) == infix(tree)
            &&& !multiplicative_at(tokens, next)
            &&& !additive_at(tokens, next)
        }),
    decreases tokens.len() - at,
{
    if at < tokens.len() && additive_at(tokens, at) {
        let op = tokens[at as int]->Operator_0;
        lemma_product_shape(tokens, at + 1);
        let (right, next) = product_at(tokens, at + 1)->Ok_0;
        let joined = Tree::Binary(op, Box::new(left), Box::new(right));
        assert(tokens.subrange(start as int, next as int) =~= tokens.subrange(
            start as int,
            at as int,
        ) + seq![TokenView::Operator(op)] + tokens.subrange(at as int + 1, next as int));
        lemma_sum_rest_shape(tokens, start, joined, next);
    }
}

/// Whatever is accepted is a line of the grammar: the tree is a sum, and
/// the tokens begin with its own, followed by the end marker. So `*` and
/// `/` bind tighter than `+` and `-`, and each level groups from the left.
pub proof fn lemma_parsed_line_shape(tokens: Seq<TokenView>)
    requires
        parse_spec(tokens) is Ok,
    ensures
        ({
            let tree = parse_spec(tokens)->Ok_0;
            &&& is_sum(tree)
            &&& infix(tree).len() < tokens.len()
            &&& tokens.take(infix(tree).len() as int + 1) == infix(tree).push(TokenView::End)
        }),
{
    lemma_product_shape(tokens, 0);
    let (first, at) = product_at(tokens, 0)->Ok_0;
    lemma_sum_rest_shape(tokens, 0, first, at);
    let (tree, next) = sum_rest(tokens, first, at)->Ok_0;
    assert(tokens.take(next as int + 1) =~= tokens.subrange(0, next as int).push(
        TokenView::End,
    ));
}

} // verus!
