use json_check::lexer::Tokenizer;
use json_check::parser::{validate, Parser};
use json_check::token::{SyntaxError, Token};

fn check(input: &str) -> Result<(), SyntaxError> {
    validate(input.to_string())
}

#[test]
fn test_parser() {
    let input = r#"{"key": [42,23, [112, true]], "lala": {"a": [-1e18]}}"#;
    let tokenizer = Tokenizer::new(input.to_string());
    let mut parser = Parser::new(tokenizer);
    assert_eq!(parser.parse_json(), Ok(()));
}

#[test]
fn well_formed_objects_pass() {
    assert_eq!(check(r#"{"a": 1}"#), Ok(()));
    assert_eq!(check(r#"{"a": null, "b": false, "c": "x"}"#), Ok(()));
    assert_eq!(check(r#"{"a": {"b": {"c": [1, [2, {"d": true}]]}}}"#), Ok(()));
}

#[test]
fn bare_values_need_an_object() {
    let expected = |found| {
        Err(SyntaxError::UnexpectedToken { expected: Token::BeginObject, found: Some(found) })
    };
    assert_eq!(check("[1,2,3]"), expected(Token::BeginArray));
    assert_eq!(check(r#""text""#), expected(Token::StringLiteral));
    assert_eq!(check("42"), expected(Token::Number));
}

#[test]
fn empty_input_needs_an_object() {
    assert_eq!(
        check(""),
        Err(SyntaxError::UnexpectedToken { expected: Token::BeginObject, found: None })
    );
}

#[test]
fn empty_object_is_refused() {
    assert_eq!(
        check("{}"),
        Err(SyntaxError::UnexpectedToken {
            expected: Token::StringLiteral,
            found: Some(Token::EndObject)
        })
    );
}

#[test]
fn empty_array_in_object_passes() {
    assert_eq!(check(r#"{"a": []}"#), Ok(()));
}

#[test]
fn trailing_comma_in_object_is_refused() {
    assert_eq!(
        check(r#"{"a": 1,}"#),
        Err(SyntaxError::UnexpectedToken {
            expected: Token::StringLiteral,
            found: Some(Token::EndObject)
        })
    );
}

#[test]
fn trailing_comma_in_array_is_refused() {
    assert_eq!(
        check(r#"{"a": [1,]}"#),
        Err(SyntaxError::NotAnExpression { token: Token::EndArray })
    );
}

#[test]
fn missing_value_is_refused() {
    assert_eq!(check(r#"{"a": "#), Err(SyntaxError::MissingToken));
    assert_eq!(
        check(r#"{"a": :}"#),
        Err(SyntaxError::NotAnExpression { token: Token::NameSeparator })
    );
}

#[test]
fn unclosed_object_is_refused() {
    assert_eq!(check(r#"{"a": 1"#), Err(SyntaxError::MissingToken));
    assert_eq!(
        check(r#"{"a": 1 "b": 2}"#),
        Err(SyntaxError::UnexpectedToken {
            expected: Token::EndObject,
            found: Some(Token::StringLiteral)
        })
    );
}

#[test]
fn malformed_number_is_reported() {
    assert_eq!(check(r#"{"a": -}"#), Err(SyntaxError::MalformedNumber));
}

#[test]
fn text_after_the_object_is_not_read() {
    assert_eq!(check(r#"{"a": 1} ] -"#), Ok(()));
}

#[test]
fn validation_is_deterministic() {
    for input in [r#"{"a": 1}"#, "{}", r#"{"a": [1,]}"#, "[1]"] {
        assert_eq!(check(input), check(input));
    }
}

#[test]
fn parser_steps_follow_the_grammar() {
    let mut parser = Parser::new(Tokenizer::new(r#""k": 5, ]"#.to_string()));
    assert_eq!(parser.peek(), Ok(Token::StringLiteral));
    assert_eq!(parser.parse_member(), Ok(()));
    assert_eq!(parser.consume_token(Token::ValueSeparator), Ok(()));
    assert_eq!(
        parser.consume_token(Token::Null),
        Err(SyntaxError::UnexpectedToken { expected: Token::Null, found: Some(Token::EndArray) })
    );
}

#[test]
fn array_production_alone() {
    let mut parser = Parser::new(Tokenizer::new("[[], {\"x\": 1}]".to_string()));
    assert_eq!(parser.parse_array(), Ok(()));
    let mut parser = Parser::new(Tokenizer::new("true".to_string()));
    assert_eq!(parser.parse_expr(), Ok(()));
    assert_eq!(parser.peek(), Err(SyntaxError::MissingToken));
}
