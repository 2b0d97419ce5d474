//! Expression trees.
use vstd::prelude::*;
use crate::token::{Literal, Operator};

verus! {

/// An arithmetic expression: a number, or an operator over two expressions.
/// A node owns its two operands.
#[derive(Debug, PartialEq, Eq)]
pub enum Expression {
    Number(Literal),
    Binary(Operator, Box<Expression>, Box<Expression>),
}

/// What an expression is, with each literal's text as a sequence.
pub ghost enum Tree {
    Number(Seq<char>),
    Binary(Operator, Box<Tree>, Box<Tree>),
}

impl View for Expression {
    type V = Tree;

    open spec fn view(&self) -> Tree {
        self.tree()
    }
}

impl Expression {
    /// The tree that this expression is.
    pub open spec fn tree(&self) -> Tree
        decreases self,
    {
        match self {
            Expression::Number(l) => Tree::Number(l@),
            Expression::Binary(op, left, right) => Tree::Binary(
                *op,
                Box::new(left.tree()),
                Box::new(right.tree()),
            ),
        }
    }

    /// A leaf.
    pub fn number(literal: Literal) -> (e: Expression)
        ensures
            e@ == Tree::Number(literal@),
    {
        Expression::Number(literal)
    }

    /// A node over two operands.
    pub fn binary(op: Operator, left: Expression, right: Expression) -> (e: Expression)
        ensures
            e@ == Tree::Binary(op, Box::new(left@), Box::new(right@)),
    {
        Expression::Binary(op, Box::new(left), Box::new(right))
    }
}

} // verus!
