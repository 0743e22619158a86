//! Why an expression was refused.
use crate::events::EventError;
use crate::lexer::LexicalError;
use vstd::prelude::*;

verus! {

/// Why a text is no expression over the attributes: it is not made of
/// tokens, or it asks of an attribute what cannot be asked of it.
#[derive(Debug, PartialEq)]
pub enum ParserError {
    Lexical(LexicalError),
    Event(EventError),
}

/// Why a text could not be read as an expression.
#[derive(Debug, PartialEq)]
pub enum ATreeParseError {
    /// The text ends where the expression needs more; the place is the
    /// length of the text.
    UnrecognizedEof { location: usize },
    /// The token that starts at the place cannot stand there.
    UnrecognizedToken { location: usize },
    /// The text is not made of tokens, or the expression does not fit the
    /// attributes.
    User { error: ParserError },
}

/// Why an expression was not inserted, or a tree not made.
#[derive(Debug, PartialEq)]
pub enum ATreeError {
    ParseError(ATreeParseError),
    Event(EventError),
}

} // verus!
