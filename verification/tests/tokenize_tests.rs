use json_tokenizer::add;
use json_tokenizer::tokenize::{tokenize, Token, TokenizeError};

#[test]
fn it_works() {
    let result = add(2, 2);
    assert_eq!(result, 4);
}

#[test]
fn just_comma() {
    let input = String::from(",");
    let expected = [Token::Comma];

    let actual = tokenize(input).unwrap();

    assert_eq!(actual, expected)
}

#[test]
fn all_punctuation() {
    let input = String::from("[{]},:");
    let expected = [
        Token::LeftBracket,
        Token::LeftBrace,
        Token::RightBracket,
        Token::RightBrace,
        Token::Comma,
        Token::Colon,
    ];
    let actual = tokenize(input).unwrap();
    assert_eq!(actual, expected)
}

#[test]
fn just_null() {
    let input = String::from("null");
    let expected = [Token::Null];

    let actual = tokenize(input).unwrap();
    assert_eq!(actual, expected)
}

#[test]
fn just_false() {
    let input = String::from("false");
    let expected = [Token::False];

    let actual = tokenize(input).unwrap();
    assert_eq!(actual, expected)
}

#[test]
fn just_true() {
    let input = String::from("true");
    let expected = [Token::True];

    let actual = tokenize(input).unwrap();

    assert_eq!(actual, expected)
}

#[test]
fn true_comma() {
    let input = String::from("true,");
    let expected = [Token::True, Token::Comma];

    let actual = tokenize(input).unwrap();
    assert_eq!(actual, expected)
}

#[test]
fn integer() {
    let input = String::from("123");
    let expected = [Token::Number(String::from("123"))];

    let actual = tokenize(input).unwrap();
    assert_eq!(actual, expected);
    match &actual[0] {
        Token::Number(text) => assert_eq!(text.parse::<f64>().unwrap(), 123.0),
        _ => panic!("expected a number token"),
    }
}

#[test]
fn floating_point() {
    let input = String::from("1.23");
    let expected = [Token::Number(String::from("1.23"))];

    let actual = tokenize(input).unwrap();
    assert_eq!(actual, expected);
    match &actual[0] {
        Token::Number(text) => assert_eq!(text.parse::<f64>().unwrap(), 1.23),
        _ => panic!("expected a number token"),
    }
}

#[test]
fn empty_input_is_empty_sequence() {
    let actual = tokenize(String::new()).unwrap();
    assert_eq!(actual, []);
}

#[test]
fn truncated_literal_fails() {
    let actual = tokenize(String::from("nul"));
    assert_eq!(actual, Err(TokenizeError::UnterminatedLiteral));
}

#[test]
fn misspelled_literal_fails() {
    let actual = tokenize(String::from("falze"));
    assert_eq!(actual, Err(TokenizeError::UnterminatedLiteral));
}

#[test]
fn lone_dot_is_invalid_number() {
    let actual = tokenize(String::from("."));
    assert_eq!(actual, Err(TokenizeError::InvalidNumber));
}

#[test]
fn number_keeps_following_punctuation() {
    let actual = tokenize(String::from("123,")).unwrap();
    assert_eq!(
        actual,
        [Token::Number(String::from("123")), Token::Comma]
    );
}

#[test]
fn trailing_dot_numeral_decodes() {
    let actual = tokenize(String::from("1.")).unwrap();
    assert_eq!(actual, [Token::Number(String::from("1."))]);
    match &actual[0] {
        Token::Number(text) => assert_eq!(text.parse::<f64>().unwrap(), 1.0),
        _ => panic!("expected a number token"),
    }
}

#[test]
fn leading_dot_numeral_decodes() {
    let actual = tokenize(String::from(".5")).unwrap();
    assert_eq!(actual, [Token::Number(String::from(".5"))]);
    match &actual[0] {
        Token::Number(text) => assert_eq!(text.parse::<f64>().unwrap(), 0.5),
        _ => panic!("expected a number token"),
    }
}

#[test]
fn second_dot_ends_the_numeral() {
    let actual = tokenize(String::from("1.2.3")).unwrap();
    assert_eq!(
        actual,
        [
            Token::Number(String::from("1.2")),
            Token::Number(String::from(".3")),
        ]
    );
}

#[test]
fn string_body_keeps_delimiters_out() {
    let actual = tokenize(String::from("\"abc\"")).unwrap();
    assert_eq!(actual, [Token::String(String::from("abc"))]);
}

#[test]
fn empty_string_body() {
    let actual = tokenize(String::from("\"\"")).unwrap();
    assert_eq!(actual, [Token::String(String::from(""))]);
}

#[test]
fn unterminated_string_fails() {
    let actual = tokenize(String::from("\"abc"));
    assert_eq!(actual, Err(TokenizeError::UnterminatedLiteral));
}

#[test]
fn unclassified_character_fails() {
    let actual = tokenize(String::from("@"));
    assert_eq!(actual, Err(TokenizeError::UnexpectedCharacter('@')));
}

#[test]
fn whitespace_is_unclassified() {
    let actual = tokenize(String::from(" "));
    assert_eq!(actual, Err(TokenizeError::UnexpectedCharacter(' ')));
}

#[test]
fn first_failure_drops_all_tokens() {
    let actual = tokenize(String::from("null@"));
    assert_eq!(actual, Err(TokenizeError::UnexpectedCharacter('@')));
}

#[test]
fn object_shaped_input() {
    let actual = tokenize(String::from("{\"a\":null}")).unwrap();
    assert_eq!(
        actual,
        [
            Token::LeftBrace,
            Token::String(String::from("a")),
            Token::Colon,
            Token::Null,
            Token::RightBrace,
        ]
    );
}

#[test]
fn identical_inputs_tokenize_identically() {
    let first = tokenize(String::from("[true,1.5]"));
    let second = tokenize(String::from("[true,1.5]"));
    assert_eq!(first, second);
    let first_err = tokenize(String::from("[tru"));
    let second_err = tokenize(String::from("[tru"));
    assert_eq!(first_err, second_err);
}
