//! Validation of JSON object documents: a character scanner that turns text
//! into a stream of payload-free tokens, and a recursive-descent recognizer
//! that checks the token stream against the object grammar.

pub mod token;
pub mod lexer;
pub mod parser;
pub mod laws;
