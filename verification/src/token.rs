//! The vocabulary shared by the lexer and the parser.
use vstd::prelude::*;

verus! {

/// A binary arithmetic operator.
#[derive(Clone, Copy, Debug, PartialEq, Eq, Structural)]
pub enum Operator {
    Add,
    Subtract,
    Multiply,
    Divide,
}

impl Operator {
    /// The operator that a character denotes, if it denotes one.
    pub open spec fn of_symbol(c: char) -> Option<Operator> {
        if c == '+' {
            Some(Operator::Add)
        } else if c == '-' {
            Some(Operator::Subtract)
        } else if c == '*' {
            Some(Operator::Multiply)
        } else if c == '/' {
            Some(Operator::Divide)
        } else {
            None
        }
    }

    /// The character that denotes this operator.
    pub open spec fn symbol_of(self) -> char {
        match self {
            Operator::Add => '+',
            Operator::Subtract => '-',
            Operator::Multiply => '*',
            Operator::Divide => '/',
        }
    }

    /// `+` and `-`: the loosest binding level.
    pub open spec fn is_additive(self) -> bool {
        self == Operator::Add || self == Operator::Subtract
    }

    /// `*` and `/`: the tighter binding level.
    pub open spec fn is_multiplicative(self) -> bool {
        self == Operator::Multiply || self == Operator::Divide
    }

    /// Reads an operator from its character.
    pub fn from_symbol(c: char) -> (op: Option<Operator>)
        ensures
            op == Operator::of_symbol(c),
    {
        if c == '+' {
            Some(Operator::Add)
        } else if c == '-' {
            Some(Operator::Subtract)
        } else if c == '*' {
            Some(Operator::Multiply)
        } else if c == '/' {
            Some(Operator::Divide)
        } else {
            None
        }
    }

    /// Writes the operator as its character.
    pub fn symbol(self) -> (c: char)
        ensures
            c == self.symbol_of(),
            Operator::of_symbol(c) == Some(self),
    {
        match self {
            Operator::Add => '+',
            Operator::Subtract => '-',
            Operator::Multiply => '*',
            Operator::Divide => '/',
        }
    }
}

/// One of the ten decimal digits.
pub open spec fn is_digit(c: char) -> bool {
    '0' <= c <= '9'
}

/// The characters a numeric literal is made of.
pub open spec fn is_literal_char(c: char) -> bool {
    is_digit(c) || c == '.'
}

/// A decimal literal: digits with at most one point among them, and at least
/// one digit. `5`, `5.`, `.5` and `0.50` are literals; the empty text, `.`
/// and `1.2.3` are not.
pub open spec fn is_literal(s: Seq<char>) -> bool {
    &&& forall|i: int| 0 <= i < s.len() ==> is_literal_char(#[trigger] s[i])
    &&& exists|i: int| 0 <= i < s.len() && is_digit(#[trigger] s[i])
    &&& forall|i: int, j: int| 0 <= i < j < s.len() ==> !(#[trigger] s[i] == '.' && #[trigger] s[j] == '.')
}

/// Decides whether `c` is a decimal digit.
pub fn digit(c: char) -> (r: bool)
    ensures
        r == is_digit(c),
{
    '0' <= c && c <= '9'
}

/// Decides whether `text` is a decimal literal.
pub fn literal_text(text: &Vec<char>) -> (r: bool)
    ensures
        r == is_literal(text@),
{
    let mut seen_digit: bool = false;
    let mut seen_point: bool = false;
    let mut i: usize = 0;
    while i < text.len()
        invariant
            i <= text.len(),
            forall|k: int| 0 <= k < i ==> is_literal_char(#[trigger] text@[k]),
            seen_digit == (exists|k: int| 0 <= k < i && is_digit(#[trigger] text@[k])),
            seen_point == (exists|k: int| 0 <= k < i && #[trigger] text@[k] == '.'),
            forall|k: int, j: int| 0 <= k < j < i ==> !(#[trigger] text@[k] == '.' && #[trigger] text@[j] == '.'),
        decreases text.len() - i,
    {
        let c = text[i];
        if digit(c) {
            seen_digit = true;
        } else if c == '.' {
            if seen_point {
                return false;
            }
            seen_point = true;
        } else {
            return false;
        }
        i += 1;
    }
    seen_digit
}

/// The text of a number as it was written. The library keeps numbers in this
/// form; turning the text into a machine number is the caller's business.
#[derive(Clone, Debug, PartialEq, Eq)]
pub struct Literal {
    pub text: Vec<char>,
}

impl View for Literal {
    type V = Seq<char>;

    open spec fn view(&self) -> Seq<char> {
        self.text@
    }
}

impl Literal {
    /// Every character is a digit or a point, there is a digit, and no
    /// second point.
    pub open spec fn wf(&self) -> bool {
        is_literal(self@)
    }

    /// Reads a literal from a string; `None` unless the string is one.
    pub fn new(text: &str) -> (r: Option<Literal>)
        ensures
            r is Some <==> is_literal(text@),
            r matches Some(l) ==> l@ == text@ && l.wf(),
    {
        let n = text.unicode_len();
        let mut chars: Vec<char> = Vec::new();
        let mut i: usize = 0;
        while i < n
            invariant
                n == text@.len(),
                i <= n,
                chars@ == text@.take(i as int),
            decreases n - i,
        {
            chars.push(text.get_char(i));
            assert(text@.take(i + 1) =~= text@.take(i as int).push(text@[i as int]));
            i += 1;
        }
        assert(text@.take(n as int) =~= text@);
        if literal_text(&chars) {
            Some(Literal { text: chars })
        } else {
            None
        }
    }

    /// A copy with the same text.
    pub fn duplicate(&self) -> (r: Literal)
        ensures
            r@ == self@,
    {
        Literal { text: copy_text(&self.text) }
    }
}

/// A fresh vector with the same characters.
pub fn copy_text(text: &Vec<char>) -> (r: Vec<char>)
    ensures
        r@ == text@,
{
    let mut chars: Vec<char> = Vec::new();
    let mut i: usize = 0;
    while i < text.len()
        invariant
            i <= text.len(),
            chars@ == text@.take(i as int),
        decreases text.len() - i,
    {
        chars.push(text[i]);
        assert(text@.take(i + 1) =~= text@.take(i as int).push(text@[i as int]));
        i += 1;
    }
    assert(text@.take(text.len() as int) =~= text@);
    chars
}

/// A lexical unit.
#[derive(Clone, Debug, PartialEq, Eq)]
pub enum Token {
    Number(Literal),
    Operator(Operator),
    End,
}

/// What a token is, with the literal's text as a sequence.
pub ghost enum TokenView {
    Number(Seq<char>),
    Operator(Operator),
    End,
}

impl View for Token {
    type V = TokenView;

    open spec fn view(&self) -> TokenView {
        match self {
            Token::Number(l) => TokenView::Number(l@),
            Token::Operator(op) => TokenView::Operator(*op),
            Token::End => TokenView::End,
        }
    }
}

/// The views of a run of tokens, in order.
pub open spec fn token_views(tokens: Seq<Token>) -> Seq<TokenView> {
    Seq::new(tokens.len(), |i: int| tokens[i]@)
}

} // verus!
