use json_check::lexer::Tokenizer;
use json_check::token::{SyntaxError, Token};

fn all_tokens(input: &str) -> Result<Vec<Token>, SyntaxError> {
    let mut tokenizer = Tokenizer::new(input.to_string());
    let mut out = Vec::new();
    while let Some(t) = tokenizer.next_token()? {
        out.push(t);
    }
    Ok(out)
}

#[test]
fn test_tokenizer() {
    let input = r#"{"key": "value"}"#;
    let mut tokenizer = Tokenizer::new(input.to_string());
    assert_eq!(tokenizer.next_token(), Ok(Some(Token::BeginObject)));
    assert_eq!(tokenizer.next_token(), Ok(Some(Token::StringLiteral)));
    assert_eq!(tokenizer.next_token(), Ok(Some(Token::NameSeparator)));
    assert_eq!(tokenizer.next_token(), Ok(Some(Token::StringLiteral)));
    assert_eq!(tokenizer.next_token(), Ok(Some(Token::EndObject)));
    assert_eq!(tokenizer.next_token(), Ok(None));
}

#[test]
fn end_of_stream_repeats() {
    let mut tokenizer = Tokenizer::new("  ".to_string());
    assert_eq!(tokenizer.next_token(), Ok(None));
    assert_eq!(tokenizer.next_token(), Ok(None));
}

#[test]
fn numbers_are_single_tokens() {
    assert_eq!(
        all_tokens("[-1e18, 3.25, 7E+2, 0.5e-3]"),
        Ok(vec![
            Token::BeginArray,
            Token::Number,
            Token::ValueSeparator,
            Token::Number,
            Token::ValueSeparator,
            Token::Number,
            Token::ValueSeparator,
            Token::Number,
            Token::EndArray,
        ])
    );
}

#[test]
fn number_stops_before_incomplete_fraction() {
    // "1." reads the number 1; the dot is then skipped as an unknown character.
    assert_eq!(all_tokens("1.]"), Ok(vec![Token::Number, Token::EndArray]));
    // An exponent with no digits is left out of the number: "e" is then read
    // as nothing and "x" is skipped.
    assert_eq!(all_tokens("2ex"), Ok(vec![Token::Number]));
}

#[test]
fn minus_without_digit_is_malformed() {
    let mut tokenizer = Tokenizer::new("[-x]".to_string());
    assert_eq!(tokenizer.next_token(), Ok(Some(Token::BeginArray)));
    assert_eq!(tokenizer.next_token(), Err(SyntaxError::MalformedNumber));
}

#[test]
fn keywords_take_four_characters() {
    assert_eq!(all_tokens("null"), Ok(vec![Token::Null]));
    assert_eq!(all_tokens("true,"), Ok(vec![Token::Boolean, Token::ValueSeparator]));
    // "false" is five letters: the trailing "e" is skipped as unknown.
    assert_eq!(all_tokens("false,"), Ok(vec![Token::Boolean, Token::ValueSeparator]));
    // The letters after the first one are not checked.
    assert_eq!(all_tokens("nxyz]"), Ok(vec![Token::Null, Token::EndArray]));
}

#[test]
fn unterminated_string_ends_stream() {
    assert_eq!(all_tokens(r#"{"abc"#), Ok(vec![Token::BeginObject]));
}

#[test]
fn whitespace_and_unknown_characters_are_skipped() {
    assert_eq!(all_tokens(" \n\t{ x ; }"), Ok(vec![Token::BeginObject, Token::EndObject]));
}

#[test]
fn string_ends_at_first_quote_even_after_backslash() {
    // The string is `"a\"`; "b" is skipped, and the last quote opens a
    // string that never closes.
    assert_eq!(all_tokens(r#""a\"b""#), Ok(vec![Token::StringLiteral]));
    assert_eq!(
        all_tokens(r#"{"a\": 1}"#),
        Ok(vec![
            Token::BeginObject,
            Token::StringLiteral,
            Token::NameSeparator,
            Token::Number,
            Token::EndObject,
        ])
    );
}
