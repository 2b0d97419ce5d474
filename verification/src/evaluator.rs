//! An expression tree to a number.
//!
//! The library holds a number as the 64 bits of an IEEE 754 double and does
//! no arithmetic on it. Evaluation is therefore a dialogue: the library says
//! which piece of numeric work is due next (turn this literal into a number,
//! apply this operator to these two numbers), the caller does it and hands
//! the outcome back. The library decides the order of the work, which is
//! that of a walk of the tree from the leaves up and from left to right,
//! and it decides when a division is refused because its divisor is zero.
use vstd::prelude::*;
use crate::expression::{Expression, Tree};
use crate::token::{Literal, Operator};

verus! {

/// Why an expression has no value.
#[derive(Clone, Copy, Debug, PartialEq, Eq, Structural)]
pub enum EvalError {
    /// The right operand of a division was zero.
    DivisionByZero,
}

/// Whether a bit pattern is that of a zero, positive or negative.
pub open spec fn is_zero_bits(bits: u64) -> bool {
    bits == 0 || bits == 0x8000_0000_0000_0000
}

/// Decides whether a number is a zero, of either sign.
pub fn is_zero(bits: u64) -> (r: bool)
    ensures
        r == is_zero_bits(bits),
{
    bits == 0 || bits == 0x8000_0000_0000_0000
}

/// How a literal's text becomes a number: the caller's conversion.
pub type Conversion = spec_fn(Seq<char>) -> u64;

/// What an operator makes of two numbers: the caller's arithmetic.
pub type Arithmetic = spec_fn(Operator, u64, u64) -> u64;

/// The value of a tree under a given conversion and arithmetic.
///
/// A leaf has the value of its literal. A node has what its operator makes
/// of the values of its operands, the left one found first; it has none if
/// an operand has none, nor if it divides by a zero.
pub open spec fn value_of(tree: Tree, convert: Conversion, apply: Arithmetic) -> Result<
    u64,
    EvalError,
>
    decreases tree,
{
    match tree {
        Tree::Number(text) => Ok(convert(text)),
        Tree::Binary(op, left, right) => match value_of(*left, convert, apply) {
            Err(e) => Err(e),
            Ok(a) => match value_of(*right, convert, apply) {
                Err(e) => Err(e),
                Ok(b) => if op == Operator::Divide && is_zero_bits(b) {
                    Err(EvalError::DivisionByZero)
                } else {
                    Ok(apply(op, a, b))
                },
            },
        },
    }
}

/// One step of the work on a tree.
#[derive(Clone, Debug, PartialEq, Eq)]
pub enum Instruction {
    /// Put the number of a literal on the stack.
    Push(Literal),
    /// Replace the two topmost numbers by what the operator makes of them.
    Apply(Operator),
}

/// What an instruction is, with the literal's text as a sequence.
pub ghost enum Step {
    Push(Seq<char>),
    Apply(Operator),
}

impl View for Instruction {
    type V = Step;

    open spec fn view(&self) -> Step {
        match self {
            Instruction::Push(l) => Step::Push(l@),
            Instruction::Apply(op) => Step::Apply(*op),
        }
    }
}

/// The views of a run of instructions, in order.
pub open spec fn steps(code: Seq<Instruction>) -> Seq<Step> {
    Seq::new(code.len(), |i: int| code[i]@)
}

/// The steps of a tree: those of the left operand, those of the right one,
/// then the operator.
pub open spec fn postfix(tree: Tree) -> Seq<Step>
    decreases tree,
{
    match tree {
        Tree::Number(text) => seq![Step::Push(text)],
        Tree::Binary(op, left, right) => postfix(*left) + postfix(*right) + seq![Step::Apply(op)],
    }
}

/// Appends the steps of `expr` to `code`.
pub fn emit(expr: &Expression, code: &mut Vec<Instruction>)
    ensures
        steps(final(code)@) == steps(old(code)@) + postfix(expr@),
    decreases expr,
{
    let ghost before = code@;
    match expr {
        Expression::Number(literal) => {
            code.push(Instruction::Push(literal.duplicate()));
            assert(steps(code@) =~= steps(before) + postfix(expr@));
        },
        Expression::Binary(op, left, right) => {
            emit(left, code);
            emit(right, code);
            let ghost inner = code@;
            code.push(Instruction::Apply(*op));
            assert(steps(code@) =~= steps(inner).push(Step::Apply(*op)));
            assert(steps(code@) =~= steps(before) + postfix(expr@));
        },
    }
}

/// What the caller is asked to do next.
#[derive(Clone, Debug, PartialEq, Eq)]
pub enum Request {
    /// Turn this literal into a number and supply it.
    Convert(Literal),
    /// Apply the operator to the left and the right number, in this order,
    /// and supply the outcome.
    Compute(Operator, u64, u64),
    /// Nothing: this is the expression's value.
    Done(u64),
    /// Nothing: the expression has no value.
    Failed(EvalError),
}

/// What a request is, with the literal's text as a sequence.
pub ghost enum Ask {
    Convert(Seq<char>),
    Compute(Operator, u64, u64),
    Done(u64),
    Failed(EvalError),
}

impl View for Request {
    type V = Ask;

    open spec fn view(&self) -> Ask {
        match self {
            Request::Convert(l) => Ask::Convert(l@),
            Request::Compute(op, a, b) => Ask::Compute(*op, *a, *b),
            Request::Done(v) => Ask::Done(*v),
            Request::Failed(e) => Ask::Failed(*e),
        }
    }
}

/// The state of an evaluation.
pub ghost struct Run {
    /// The steps of the whole tree.
    pub code: Seq<Step>,
    /// How many of them are done.
    pub next: nat,
    /// The numbers found and not yet used, the latest last.
    pub stack: Seq<u64>,
}

/// Whether the steps from `from` on, begun with `depth` numbers on the
/// stack, never find fewer than two numbers under an operator and leave
/// exactly one.
pub open spec fn settles(code: Seq<Step>, from: nat, depth: nat) -> bool
    decreases code.len() - from,
{
    if from >= code.len() {
        depth == 1
    } else {
        match code[from as int] {
            Step::Push(_) => settles(code, from + 1, depth + 1),
            Step::Apply(_) => depth >= 2 && settles(code, from + 1, (depth - 1) as nat),
        }
    }
}

impl Run {
    /// The state before any step of `tree`.
    pub open spec fn start(tree: Tree) -> Run {
        Run { code: postfix(tree), next: 0, stack: Seq::empty() }
    }

    /// The steps left fit the stack as it is.
    pub open spec fn wf(self) -> bool {
        self.next <= self.code.len() && settles(self.code, self.next, self.stack.len())
    }

    /// What is due in this state.
    pub open spec fn request(self) -> Ask {
        if self.next >= self.code.len() {
            Ask::Done(self.stack.last())
        } else {
            match self.code[self.next as int] {
                Step::Push(text) => Ask::Convert(text),
                Step::Apply(op) => {
                    let left = self.stack[self.stack.len() - 2];
                    let right = self.stack.last();
                    if op == Operator::Divide && is_zero_bits(right) {
                        Ask::Failed(EvalError::DivisionByZero)
                    } else {
                        Ask::Compute(op, left, right)
                    }
                },
            }
        }
    }

    /// The state after the outcome of the work that was due is supplied.
    /// Where no work was due the state stays as it is.
    pub open spec fn supply(self, value: u64) -> Run {
        match self.request() {
            Ask::Convert(_) => Run {
                code: self.code,
                next: self.next + 1,
                stack: self.stack.push(value),
            },
            Ask::Compute(_, _, _) => Run {
                code: self.code,
                next: self.next + 1,
                stack: self.stack.drop_last().drop_last().push(value),
            },
            _ => self,
        }
    }

    /// Where the dialogue ends when the caller converts by `convert` and
    /// computes by `apply`.
    pub open spec fn outcome(self, convert: Conversion, apply: Arithmetic) -> Result<
        u64,
        EvalError,
    >
        decreases self.code.len() - self.next,
    {
        match self.request() {
            Ask::Done(v) => Ok(v),
            Ask::Failed(e) => Err(e),
            Ask::Convert(text) => self.supply(convert(text)).outcome(convert, apply),
            Ask::Compute(op, a, b) => self.supply(apply(op, a, b)).outcome(convert, apply),
        }
    }
}

/// Whether the steps of `tree` stand in `code` from `from` on.
pub open spec fn holds_at(code: Seq<Step>, from: nat, tree: Tree) -> bool {
    &&& from + postfix(tree).len() <= code.len()
    &&& code.subrange(from as int, (from + postfix(tree).len()) as int) == postfix(tree)
}

proof fn lemma_operands_hold(code: Seq<Step>, from: nat, op: Operator, left: Tree, right: Tree)
    requires
        holds_at(code, from, Tree::Binary(op, Box::new(left), Box::new(right))),
    ensures
        holds_at(code, from, left),
        holds_at(code, from + postfix(left).len(), right),
        from + postfix(left).len() + postfix(right).len() < code.len(),
        code[(from + postfix(left).len() + postfix(right).len()) as int] == Step::Apply(op),
        postfix(Tree::Binary(op, Box::new(left), Box::new(right))).len() == postfix(left).len()
            + postfix(right).len() + 1,
{
    let whole = postfix(Tree::Binary(op, Box::new(left), Box::new(right)));
    let l = postfix(left);
    let r = postfix(right);
    let at = from as int;
    let m = l.len() as int;
    let n = r.len() as int;
    assert(whole == l + r + seq![Step::Apply(op)]);
    let window = code.subrange(at, at + whole.len());
    assert(code.subrange(at, at + m) =~= window.subrange(0, m));
    assert(window.subrange(0, m) =~= l);
    assert(code.subrange(at + m, at + m + n) =~= window.subrange(m, m + n));
    assert(window.subrange(m, m + n) =~= r);
    assert(code[at + m + n] == window[m + n]);
}

/// The steps of a tree add one number to the stack, and need none of
/// those that were there.
pub proof fn lemma_tree_settles(code: Seq<Step>, from: nat, depth: nat, tree: Tree)
    requires
        holds_at(code, from, tree),
    ensures
        settles(code, from, depth) == settles(code, from + postfix(tree).len(), depth + 1),
    decreases tree,
{
    match tree {
        Tree::Number(text) => {
            assert(code[from as int] == code.subrange(from as int, from as int + 1)[0]);
        },
        Tree::Binary(op, left, right) => {
            lemma_operands_hold(code, from, op, *left, *right);
            lemma_tree_settles(code, from, depth, *left);
            lemma_tree_settles(code, from + postfix(*left).len(), depth + 1, *right);
        },
    }
}

/// Run over the steps of a tree, the dialogue ends with the tree's error,
/// or goes on with the tree's value on top of the stack.
pub proof fn lemma_tree_runs(run: Run, tree: Tree, convert: Conversion, apply: Arithmetic)
    requires
        holds_at(run.code, run.next, tree),
    ensures
        run.outcome(convert, apply) == (match value_of(tree, convert, apply) {
            Ok(v) => (Run {
                code: run.code,
                next: run.next + postfix(tree).len(),
                stack: run.stack.push(v),
            }).outcome(convert, apply),
            Err(e) => Err(e),
        }),
    decreases tree,
{
    match tree {
        Tree::Number(text) => {
            assert(run.code[run.next as int] == run.code.subrange(
                run.next as int,
                run.next as int + 1,
            )[0]);
        },
        Tree::Binary(op, left, right) => {
            lemma_operands_hold(run.code, run.next, op, *left, *right);
            lemma_tree_runs(run, *left, convert, apply);
            if let Ok(a) = value_of(*left, convert, apply) {
                let mid = Run {
                    code: run.code,
                    next: run.next + postfix(*left).len(),
                    stack: run.stack.push(a),
                };
                lemma_tree_runs(mid, *right, convert, apply);
                if let Ok(b) = value_of(*right, convert, apply) {
                    let top = Run {
                        code: run.code,
                        next: mid.next + postfix(*right).len(),
                        stack: mid.stack.push(b),
                    };
                    assert(top.stack.last() == b);
                    assert(top.stack[top.stack.len() - 2] == a);
                    if !(op == Operator::Divide && is_zero_bits(b)) {
                        let v = apply(op, a, b);
                        assert(top.stack.drop_last().drop_last().push(v) =~= run.stack.push(v));
                    }
                }
            }
        },
    }
}

/// The state before any step of a tree is well formed.
pub proof fn lemma_start_is_well_formed(tree: Tree)
    ensures
        Run::start(tree).wf(),
{
    let run = Run::start(tree);
    assert(run.code.subrange(0, run.code.len() as int) =~= run.code);
    lemma_tree_settles(run.code, 0, 0, tree);
}

/// The dialogue over a tree ends with the tree's value, or with its error:
/// whatever the conversion and the arithmetic, the work is asked for in the
/// order, and with the operands, that the tree's value is defined by.
pub proof fn lemma_outcome_is_value(tree: Tree, convert: Conversion, apply: Arithmetic)
    ensures
        Run::start(tree).outcome(convert, apply) == value_of(tree, convert, apply),
{
    let run = Run::start(tree);
    assert(run.code.subrange(0, run.code.len() as int) =~= run.code);
    lemma_tree_runs(run, tree, convert, apply);
}

/// A number alone has the value that the caller gave its literal: no
/// arithmetic touches it.
pub proof fn lemma_number_is_its_value(text: Seq<char>, convert: Conversion, apply: Arithmetic)
    ensures
        value_of(Tree::Number(text), convert, apply) == Ok::<u64, EvalError>(convert(text)),
        Run::start(Tree::Number(text)).request() == Ask::Convert(text),
        forall|x: u64| #[trigger]
            Run::start(Tree::Number(text)).supply(x).request() == Ask::Done(x),
{
    let run = Run::start(Tree::Number(text));
    assert(run.code =~= seq![Step::Push(text)]);
    assert forall|x: u64| #[trigger] run.supply(x).request() == Ask::Done(x) by {
        assert(run.supply(x).stack.last() == x);
    }
}

/// An evaluation under way.
#[derive(Debug)]
pub struct Evaluation {
    code: Vec<Instruction>,
    next: usize,
    stack: Vec<u64>,
}

impl View for Evaluation {
    type V = Run;

    closed spec fn view(&self) -> Run {
        Run { code: steps(self.code@), next: self.next as nat, stack: self.stack@ }
    }
}

impl Evaluation {
    /// The steps left fit the stack as it is.
    pub open spec fn wf(&self) -> bool {
        self@.wf()
    }

    /// The work that is due, or the end of the evaluation.
    pub fn request(&self) -> (r: Request)
        requires
            self.wf(),
        ensures
            r@ == self@.request(),
    {
        if self.next >= self.code.len() {
            Request::Done(self.stack[self.stack.len() - 1])
        } else {
            match &self.code[self.next] {
                Instruction::Push(literal) => Request::Convert(literal.duplicate()),
                Instruction::Apply(op) => {
                    let right = self.stack[self.stack.len() - 1];
                    let left = self.stack[self.stack.len() - 2];
                    if *op == Operator::Divide && is_zero(right) {
                        Request::Failed(EvalError::DivisionByZero)
                    } else {
                        Request::Compute(*op, left, right)
                    }
                },
            }
        }
    }

    /// Takes the outcome of the work that was due. Where none was due, the
    /// evaluation having ended, nothing changes.
    pub fn supply(&mut self, value: u64)
        requires
            old(self).wf(),
        ensures
            final(self)@ == old(self)@.supply(value),
            final(self).wf(),
    {
        if self.next >= self.code.len() {
            return ;
        }
        let refused = match &self.code[self.next] {
            Instruction::Push(_) => false,
            Instruction::Apply(op) => *op == Operator::Divide && is_zero(
                self.stack[self.stack.len() - 1],
            ),
        };
        if refused {
            return ;
        }
        let pushes = match &self.code[self.next] {
            Instruction::Push(_) => true,
            Instruction::Apply(_) => false,
        };
        if !pushes {
            self.stack.pop();
            self.stack.pop();
        }
        self.stack.push(value);
        self.next = self.next + 1;
    }
}

/// Begins the evaluation of `expr`: the dialogue that ends with its value.
///
/// Nothing is asked of the caller yet. What `request` then says is due, and
/// what `supply` makes of the answers, is the run over the steps of the
/// tree; `lemma_outcome_is_value` says where it ends.
pub fn evaluate(expr: &Expression) -> (e: Evaluation)
    ensures
        e@ == Run::start(expr@),
        e.wf(),
{
    let mut code: Vec<Instruction> = Vec::new();
    emit(expr, &mut code);
    let stack: Vec<u64> = Vec::new();
    proof {
        assert(steps(code@) =~= postfix(expr@));
        assert(stack@ =~= Seq::<u64>::empty());
        lemma_start_is_well_formed(expr@);
    }
    Evaluation { code, next: 0, stack }
}

} // verus!
