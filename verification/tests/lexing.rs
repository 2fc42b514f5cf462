use calculator::tokenizer::{tokenize, LexingReader, TokenizerError};
use calculator::tokens::{BinaryOp, Function, Glyph, Token, UnaryOp, Value, TOKEN};

#[test]
fn test_tokenize() {
    let input = "+";
    let output = vec![
        Token::Start,
        Token::Func(Function::BinaryOp(BinaryOp::Add)),
        Token::End,
    ];
    assert!(tokenize(input).unwrap() == output, "Single add failed");

    let input = ",+3 *sin(x)";
    let output: Vec<Token> = vec![
        Token::Start,
        Token::Glyph(Glyph::Comma),
        Token::Func(Function::BinaryOp(BinaryOp::Add)),
        Token::Val(Value::Scalar("3".to_string())),
        Token::Func(Function::BinaryOp(BinaryOp::Mul)),
        Token::Func(Function::NamedFunc("sin".to_string())),
        Token::Glyph(Glyph::LBracket),
        Token::Val(Value::Var("x".to_string())),
        Token::Glyph(Glyph::RBracket),
        Token::End,
    ];
    assert!(tokenize(input).unwrap() == output, ",+3 *sin(x) Failed");
}

#[test]
fn test_tokenize_one_plus_two() {
    let tokens = tokenize("1+2").unwrap();
    let expected = vec![
        Token::Start,
        Token::Val(Value::Scalar("1".to_string())),
        Token::Func(Function::BinaryOp(BinaryOp::Add)),
        Token::Val(Value::Scalar("2".to_string())),
        Token::End,
    ];
    assert_eq!(tokens, expected);
}

#[test]
fn test_minus_after_operator_is_unary() {
    let tokens = tokenize("3*-2").unwrap();
    let expected = vec![
        Token::Start,
        Token::Val(Value::Scalar("3".to_string())),
        Token::Func(Function::BinaryOp(BinaryOp::Mul)),
        Token::Func(Function::UnaryOp(UnaryOp::Neg)),
        Token::Val(Value::Scalar("2".to_string())),
        Token::End,
    ];
    assert_eq!(tokens, expected);
}

#[test]
fn test_minus_after_digit_is_binary() {
    let tokens = tokenize("3-2").unwrap();
    let expected = vec![
        Token::Start,
        Token::Val(Value::Scalar("3".to_string())),
        Token::Func(Function::BinaryOp(BinaryOp::Sub)),
        Token::Val(Value::Scalar("2".to_string())),
        Token::End,
    ];
    assert_eq!(tokens, expected);
}

#[test]
fn test_minus_at_start_is_unary() {
    let tokens = tokenize("-5").unwrap();
    let expected = vec![
        Token::Start,
        Token::Func(Function::UnaryOp(UnaryOp::Neg)),
        Token::Val(Value::Scalar("5".to_string())),
        Token::End,
    ];
    assert_eq!(tokens, expected);
}

#[test]
fn test_assign_symbol_lexes() {
    let tokens = tokenize("x=5").unwrap();
    let expected = vec![
        Token::Start,
        Token::Val(Value::Var("x".to_string())),
        Token::Func(Function::Assign),
        Token::Val(Value::Scalar("5".to_string())),
        Token::End,
    ];
    assert_eq!(tokens, expected);
}

#[test]
fn test_incorrect_character() {
    let err = tokenize("1#2").unwrap_err();
    assert_eq!(err, TokenizerError::IncorrectCharacter("#".to_string()));
}

#[test]
fn test_second_decimal_point_cuts_the_number() {
    // The numeral ends right before the second decimal point; that point
    // then starts a token of its own, and no token absorbs it.
    let err = tokenize("1.2.3").unwrap_err();
    assert_eq!(err, TokenizerError::IncorrectCharacter(".".to_string()));
}

#[test]
fn test_number_with_one_decimal_point() {
    let tokens = tokenize("1.5x").unwrap();
    let expected = vec![
        Token::Start,
        Token::Val(Value::Scalar("1.5".to_string())),
        Token::Val(Value::Var("x".to_string())),
        Token::End,
    ];
    assert_eq!(tokens, expected);
}

#[test]
fn test_identifier_before_bracket_is_a_call() {
    let tokens = tokenize("cos(pi)").unwrap();
    let expected = vec![
        Token::Start,
        Token::Func(Function::NamedFunc("cos".to_string())),
        Token::Glyph(Glyph::LBracket),
        Token::Val(Value::Var("pi".to_string())),
        Token::Glyph(Glyph::RBracket),
        Token::End,
    ];
    assert_eq!(tokens, expected);
}

#[test]
fn test_whitespace_is_skipped_but_counts_as_context() {
    // After a space the preceding character is the space, not the operator,
    // so the minus is binary.
    let tokens = tokenize("3 - 2").unwrap();
    let expected = vec![
        Token::Start,
        Token::Val(Value::Scalar("3".to_string())),
        Token::Func(Function::BinaryOp(BinaryOp::Sub)),
        Token::Val(Value::Scalar("2".to_string())),
        Token::End,
    ];
    assert_eq!(tokens, expected);
}

#[test]
fn test_reader_window() {
    let mut reader = LexingReader::new("ab");
    assert_eq!(reader.prev_char(), None);
    assert_eq!(reader.current_char(), Some('a'));
    assert_eq!(reader.next_char(), Some('b'));
    assert!(!reader.finished());
    reader.advance();
    assert_eq!(reader.prev_char(), Some('a'));
    assert_eq!(reader.current_char(), Some('b'));
    assert_eq!(reader.next_char(), None);
    reader.advance();
    assert_eq!(reader.prev_char(), Some('b'));
    assert_eq!(reader.current_char(), None);
    assert!(reader.finished());
}

#[test]
fn test_token_shortcut() {
    assert_eq!(
        TOKEN(BinaryOp::Add),
        Token::Func(Function::BinaryOp(BinaryOp::Add))
    );
    assert_eq!(
        TOKEN(UnaryOp::Neg),
        Token::Func(Function::UnaryOp(UnaryOp::Neg))
    );
    assert_eq!(TOKEN(Glyph::Comma), Token::Glyph(Glyph::Comma));
    assert_eq!(
        TOKEN(Value::Var("x".to_string())),
        Token::Val(Value::Var("x".to_string()))
    );
    assert_eq!(TOKEN(Function::Assign), Token::Func(Function::Assign));
    assert_eq!(Function::from(BinaryOp::Pow), Function::BinaryOp(BinaryOp::Pow));
    assert_eq!(Function::from(UnaryOp::Neg), Function::UnaryOp(UnaryOp::Neg));
}

#[test]
fn test_reader_empty_input() {
    let reader = LexingReader::new("");
    assert_eq!(reader.prev_char(), None);
    assert_eq!(reader.current_char(), None);
    assert_eq!(reader.next_char(), None);
    assert!(reader.finished());
}
