//! Text to tokens.
//!
//! The lexer reads a line one character at a time. It gathers the digits and
//! points of the number being read, and remembers whether the character just
//! before was a space, so that a space inside a number is caught.
use vstd::prelude::*;
use crate::token::{Literal, Operator, Token, TokenView, copy_text, digit, is_literal,
    is_literal_char, literal_text, token_views};

verus! {

/// Why a line could not be split into tokens.
#[derive(Clone, Copy, Debug, PartialEq, Eq, Structural)]
pub enum LexError {
    /// A space stood between two characters of one number.
    UnexpectedSpace,
    /// An operator or the line's end came where the text gathered so far was
    /// no decimal literal.
    InvalidNumber,
    /// A character that is no digit, point, space, operator or newline.
    UnsupportedCharacter(char),
}

/// What the lexer knows after some characters of a line.
pub ghost struct Scan {
    /// The tokens produced so far.
    pub tokens: Seq<TokenView>,
    /// The digits and points of the number being read.
    pub pending: Seq<char>,
    /// Whether the last character was a space.
    pub after_space: bool,
}

/// The state before the first character.
pub open spec fn scan_start() -> Scan {
    Scan { tokens: Seq::empty(), pending: Seq::empty(), after_space: false }
}

/// The effect of one character.
///
/// A digit or point joins the pending number, unless a space parted it from
/// a number already begun. A space leaves no trace but the flag. An operator
/// closes the pending number and starts afresh. A newline closes the pending
/// number and marks the end, and leaves the pending text as it is.
pub open spec fn scan_char(s: Scan, c: char) -> Result<Scan, LexError> {
    if is_literal_char(c) {
        if s.after_space && s.pending.len() > 0 {
            Err(LexError::UnexpectedSpace)
        } else {
            Ok(Scan { tokens: s.tokens, pending: s.pending.push(c), after_space: false })
        }
    } else if c == ' ' {
        Ok(Scan { tokens: s.tokens, pending: s.pending, after_space: true })
    } else if Operator::of_symbol(c) is Some {
        if is_literal(s.pending) {
            Ok(
                Scan {
                    tokens: s.tokens.push(TokenView::Number(s.pending)).push(
                        TokenView::Operator(Operator::of_symbol(c)->0),
                    ),
                    pending: Seq::empty(),
                    after_space: false,
                },
            )
        } else {
            Err(LexError::InvalidNumber)
        }
    } else if c == '\n' {
        if is_literal(s.pending) {
            Ok(
                Scan {
                    tokens: s.tokens.push(TokenView::Number(s.pending)).push(TokenView::End),
                    pending: s.pending,
                    after_space: false,
                },
            )
        } else {
            Err(LexError::InvalidNumber)
        }
    } else {
        Err(LexError::UnsupportedCharacter(c))
    }
}

/// The state after the first `n` characters of `input`, or the first error
/// among them.
pub open spec fn scan(input: Seq<char>, n: nat) -> Result<Scan, LexError>
    recommends
        n <= input.len(),
    decreases n,
{
    if n == 0 {
        Ok(scan_start())
    } else {
        match scan(input, (n - 1) as nat) {
            Ok(s) => scan_char(s, input[n - 1]),
            Err(e) => Err(e),
        }
    }
}

/// The tokens of a line, or the first error met in it.
pub open spec fn lex_spec(input: Seq<char>) -> Result<Seq<TokenView>, LexError> {
    match scan(input, input.len()) {
        Ok(s) => Ok(s.tokens),
        Err(e) => Err(e),
    }
}

/// Once an error is met, reading on does not change it.
pub proof fn lemma_scan_error_stays(input: Seq<char>, n: nat, m: nat)
    requires
        n <= m,
        scan(input, n) is Err,
    ensures
        scan(input, m) == scan(input, n),
    decreases m,
{
    if n < m {
        lemma_scan_error_stays(input, n, (m - 1) as nat);
    }
}

/// Numbers at the even places, each a decimal literal, and an operator or
/// the end marker after each number.
pub open spec fn alternates(tokens: Seq<TokenView>) -> bool {
    &&& tokens.len() % 2 == 0
    &&& forall|i: int| 0 <= i < tokens.len() ==> (#[trigger] tokens[i] is Number <==> i % 2 == 0)
    &&& forall|i: int|
        0 <= i < tokens.len() ==> (#[trigger] tokens[i] matches TokenView::Number(text)
            ==> is_literal(text))
}

/// Whether an end marker is among the tokens.
pub open spec fn has_end(tokens: Seq<TokenView>) -> bool {
    exists|i: int| 0 <= i < tokens.len() && #[trigger] tokens[i] is End
}

/// Whether a newline is among the first `n` characters.
pub open spec fn has_newline(input: Seq<char>, n: nat) -> bool {
    exists|i: int| 0 <= i < n && #[trigger] input[i] == '\n'
}

/// Whatever the lexer has produced alternates between numbers and what
/// follows a number, and holds an end marker if and only if a newline was
/// read.
pub proof fn lemma_scan_shape(input: Seq<char>, n: nat)
    requires
        scan(input, n) is Ok,
    ensures
        alternates(scan(input, n)->Ok_0.tokens),
        has_end(scan(input, n)->Ok_0.tokens) <==> has_newline(input, n),
    decreases n,
{
    if n > 0 {
        let before = scan(input, (n - 1) as nat)->Ok_0;
        let after = scan(input, n)->Ok_0;
        let c = input[n - 1];
        lemma_scan_shape(input, (n - 1) as nat);
        assert(scan_char(before, c) == Ok::<Scan, LexError>(after));
        let old_len = before.tokens.len() as int;
        if has_newline(input, n) && c != '\n' {
            let k = choose|k: int| 0 <= k < n && #[trigger] input[k] == '\n';
            assert(0 <= k < n - 1 && input[k] == '\n');
        }
        if has_newline(input, (n - 1) as nat) {
            let k = choose|k: int| 0 <= k < n - 1 && #[trigger] input[k] == '\n';
            assert(0 <= k < n && input[k] == '\n');
        }
        if has_end(before.tokens) {
            let j = choose|j: int| 0 <= j < old_len && #[trigger] before.tokens[j] is End;
            assert(after.tokens.len() >= old_len);
            assert(after.tokens[j] is End);
        }
        if after.tokens.len() > old_len {
            assert(after.tokens.len() == old_len + 2);
            assert(after.tokens[old_len] == TokenView::Number(before.pending));
            assert forall|i: int| 0 <= i < old_len implies after.tokens[i]
                == before.tokens[i] by {}
            if c == '\n' {
                assert(input[n - 1] == '\n');
                assert(after.tokens[old_len + 1] is End);
            } else {
                assert(after.tokens[old_len + 1] is Operator);
                if has_end(after.tokens) {
                    let j = choose|j: int|
                        0 <= j < after.tokens.len() && #[trigger] after.tokens[j] is End;
                    assert(j < old_len);
                    assert(before.tokens[j] is End);
                }
            }
        } else {
            assert(after.tokens == before.tokens);
        }
    }
}

/// Whether an executable result is the one that `expected` names.
pub open spec fn lexed_as(
    r: Result<Vec<Token>, LexError>,
    expected: Result<Seq<TokenView>, LexError>,
) -> bool {
    match r {
        Ok(tokens) => expected == Ok::<Seq<TokenView>, LexError>(token_views(tokens@)),
        Err(e) => expected == Err::<Seq<TokenView>, LexError>(e),
    }
}

/// Splits a line into tokens.
///
/// Succeeds with the tokens that `lex_spec` gives, and fails with its error,
/// which is the first one met from the left. Characters are fetched by
/// position, so the time taken grows with the square of the line's length.
pub fn lex(input: &str) -> (r: Result<Vec<Token>, LexError>)
    ensures
        lexed_as(r, lex_spec(input@)),
{
    let n = input.unicode_len();
    let mut tokens: Vec<Token> = Vec::new();
    let mut pending: Vec<char> = Vec::new();
    let mut after_space: bool = false;
    let mut i: usize = 0;
    assert(token_views(tokens@) =~= Seq::empty());
    while i < n
        invariant
            n == input@.len(),
            i <= n,
            scan(input@, i as nat) == Ok::<Scan, LexError>(
                Scan { tokens: token_views(tokens@), pending: pending@, after_space },
            ),
        decreases n - i,
    {
        let c = input.get_char(i);
        let ghost before = tokens@;
        let ghost held = pending@;
        if digit(c) || c == '.' {
            if after_space && pending.len() > 0 {
                proof {
                    lemma_scan_error_stays(input@, (i + 1) as nat, n as nat);
                }
                return Err(LexError::UnexpectedSpace);
            }
            pending.push(c);
            after_space = false;
        } else if c == ' ' {
            after_space = true;
        } else if c == '\n' {
            if !literal_text(&pending) {
                proof {
                    lemma_scan_error_stays(input@, (i + 1) as nat, n as nat);
                }
                return Err(LexError::InvalidNumber);
            }
            tokens.push(Token::Number(Literal { text: copy_text(&pending) }));
            tokens.push(Token::End);
            after_space = false;
            assert(token_views(tokens@) =~= token_views(before).push(TokenView::Number(held)).push(
                TokenView::End,
            ));
        } else {
            match Operator::from_symbol(c) {
                Some(op) => {
                    if !literal_text(&pending) {
                        proof {
                            lemma_scan_error_stays(input@, (i + 1) as nat, n as nat);
                        }
                        return Err(LexError::InvalidNumber);
                    }
                    tokens.push(Token::Number(Literal { text: pending }));
                    tokens.push(Token::Operator(op));
                    pending = Vec::new();
                    after_space = false;
                    assert(token_views(tokens@) =~= token_views(before).push(
                        TokenView::Number(held),
                    ).push(TokenView::Operator(op)));
                },
                None => {
                    proof {
                        lemma_scan_error_stays(input@, (i + 1) as nat, n as nat);
                    }
                    return Err(LexError::UnsupportedCharacter(c));
                },
            }
        }
        i += 1;
    }
    Ok(tokens)
}

} // verus!
