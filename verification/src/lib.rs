//! A small arithmetic expression calculator.
//!
//! A line of text is turned into tokens (`lexer`), the tokens into an
//! expression tree that honours operator precedence and left associativity
//! (`parser`, with `grammar` saying which trees and lines those are), and
//! the tree into a number (`evaluator`). `pipeline` holds what is true of
//! the three stages in a row.
//!
//! Numbers are carried as the text of their decimal literal and, once the
//! caller has converted them, as the 64 bits of a double. The library never
//! does arithmetic on them itself: it says which operation is due on which
//! operands, and the caller answers.
pub mod token;
pub mod lexer;
pub mod expression;
pub mod parser;
pub mod grammar;
pub mod evaluator;
pub mod pipeline;
