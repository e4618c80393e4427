use vstd::prelude::*;

verus! {

/// The kind of a lexical unit. Tokens carry no payload: the recognizer only
/// needs the shape of the document, not its content.
#[derive(PartialEq, Eq, Structural, Clone, Copy, Debug)]
pub enum Token {
    Number,
    Boolean,
    Null,
    StringLiteral,
    BeginObject,
    EndObject,
    BeginArray,
    EndArray,
    ValueSeparator,
    NameSeparator,
}

/// The first problem found in a document.
#[derive(PartialEq, Eq, Clone, Copy, Debug)]
pub enum SyntaxError {
    /// A number starts here (a digit or `-`) but no number can be read.
    MalformedNumber,
    /// A token of kind `expected` was required; `found` came instead, or
    /// nothing when the input was exhausted.
    UnexpectedToken { expected: Token, found: Option<Token> },
    /// A lookahead token was required but the input was exhausted.
    MissingToken,
    /// A value was required and `token` cannot start one.
    NotAnExpression { token: Token },
}

} // verus!
