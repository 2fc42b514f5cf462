use calculator::parser::{shunting_yard, validate, ParserError};
use calculator::tokenizer::tokenize;
use calculator::tokens::{BinaryOp, Function, Glyph, Token, UnaryOp, Value};

#[test]
fn test_validate_0() {
    let input = vec![
        Token::Start,
        Token::Val(Value::Var("a".to_string())),
        Token::Func(Function::BinaryOp(BinaryOp::Add)),
        Token::Val(Value::Var("b".to_string())),
        Token::Func(Function::BinaryOp(BinaryOp::Mul)),
        Token::Func(Function::NamedFunc("sin".to_string())),
        Token::Glyph(Glyph::LBracket),
        Token::Val(Value::Var("x".to_string())),
        Token::Glyph(Glyph::RBracket),
        Token::End,
    ];
    assert!(validate(&input).is_ok(), "a + b * sin(x) was validated to false, expected: true.");
}

#[test]
fn test_validate_1() {
    let input = vec![
        Token::Start,
        Token::Val(Value::Scalar("11".to_string())),
        Token::Func(Function::BinaryOp(BinaryOp::Sub)),
        Token::Val(Value::Scalar("2".to_string())),
        Token::Func(Function::BinaryOp(BinaryOp::Div)),
        Token::Func(Function::UnaryOp(UnaryOp::Neg)),
        Token::Val(Value::Var("e".to_string())),
        Token::End,
    ];
    assert!(validate(&input).is_ok(), "11-2/-e was validated to false, expected: true.");
}

#[test]
fn test_validate_2() {
    let vec = vec![
        Token::Start,
        Token::Glyph(Glyph::LBracket),
        Token::Glyph(Glyph::LBracket),
        Token::Val(Value::Var("y".to_string())),
        Token::Glyph(Glyph::RBracket),
        Token::End,
    ];
    assert!(validate(&vec).is_err(), "((y) was validated to true, expected: false.");
}

#[test]
fn tes_shunting_0() {
    let input = vec![
        Token::Start,
        Token::Val(Value::Scalar("1".to_string())),
        Token::Func(Function::BinaryOp(BinaryOp::Add)),
        Token::Func(Function::NamedFunc("sin".to_string())),
        Token::Glyph(Glyph::LBracket),
        Token::Val(Value::Scalar("3.14".to_string())),
        Token::Func(Function::BinaryOp(BinaryOp::Mul)),
        Token::Val(Value::Scalar("2".to_string())),
        Token::Glyph(Glyph::RBracket),
        Token::End,
    ];
    let output = vec![
        Token::Val(Value::Scalar("1".to_string())),
        Token::Val(Value::Scalar("3.14".to_string())),
        Token::Val(Value::Scalar("2".to_string())),
        Token::Func(Function::BinaryOp(BinaryOp::Mul)),
        Token::Func(Function::NamedFunc("sin".to_string())),
        Token::Func(Function::BinaryOp(BinaryOp::Add)),
    ];
    assert!(shunting_yard(input) == output)
}

#[test]
fn test_unbalanced_brackets_rejected() {
    let tokens = tokenize("(1+2").unwrap();
    assert_eq!(validate(&tokens), Err(ParserError::UnevenBrackets));
}

#[test]
fn test_bracket_balance_checked_first() {
    // The sequence also breaks the adjacency grammar, but the bracket count
    // is checked over the whole sequence first.
    let input = vec![
        Token::Start,
        Token::Func(Function::BinaryOp(BinaryOp::Add)),
        Token::Glyph(Glyph::LBracket),
        Token::End,
    ];
    assert_eq!(validate(&input), Err(ParserError::UnevenBrackets));
}

#[test]
fn test_order_error_reports_the_pair() {
    let tokens = tokenize("1+*2").unwrap();
    assert_eq!(
        validate(&tokens),
        Err(ParserError::OrderError(
            Token::Func(Function::BinaryOp(BinaryOp::Add)),
            Token::Func(Function::BinaryOp(BinaryOp::Mul)),
        ))
    );
}

#[test]
fn test_empty_bracket_pair_rejected() {
    let tokens = tokenize("()").unwrap();
    assert_eq!(
        validate(&tokens),
        Err(ParserError::OrderError(
            Token::Glyph(Glyph::LBracket),
            Token::Glyph(Glyph::RBracket),
        ))
    );
}

#[test]
fn test_assign_outside_fixed_position_rejected() {
    let tokens = tokenize("x=5=6").unwrap();
    assert_eq!(validate(&tokens), Err(ParserError::IncorrectAssign));
}

#[test]
fn test_assign_at_fixed_position_accepted() {
    let tokens = tokenize("x=5").unwrap();
    assert!(validate(&tokens).is_ok());
}

#[test]
fn test_one_plus_two_converts_to_postfix() {
    let tokens = tokenize("1+2").unwrap();
    assert!(validate(&tokens).is_ok());
    let postfix = shunting_yard(tokens);
    let expected = vec![
        Token::Val(Value::Scalar("1".to_string())),
        Token::Val(Value::Scalar("2".to_string())),
        Token::Func(Function::BinaryOp(BinaryOp::Add)),
    ];
    assert_eq!(postfix, expected);
}

#[test]
fn test_precedence_orders_the_output() {
    // 1+2*3: the product binds tighter and is emitted first.
    let tokens = tokenize("1+2*3").unwrap();
    let postfix = shunting_yard(tokens);
    let expected = vec![
        Token::Val(Value::Scalar("1".to_string())),
        Token::Val(Value::Scalar("2".to_string())),
        Token::Val(Value::Scalar("3".to_string())),
        Token::Func(Function::BinaryOp(BinaryOp::Mul)),
        Token::Func(Function::BinaryOp(BinaryOp::Add)),
    ];
    assert_eq!(postfix, expected);
}

#[test]
fn test_postfix_shaped_input_is_kept() {
    // Values followed by a single operation: nothing to reorder.
    let input = vec![
        Token::Val(Value::Scalar("1".to_string())),
        Token::Val(Value::Scalar("2".to_string())),
        Token::Func(Function::BinaryOp(BinaryOp::Add)),
    ];
    let output = shunting_yard(input.clone());
    assert_eq!(output, input);
}

#[test]
fn test_conversion_keeps_values_and_drops_glyphs() {
    let tokens = tokenize("f(sin(x),y)").unwrap();
    let postfix = shunting_yard(tokens);
    let values: Vec<&Token> = postfix
        .iter()
        .filter(|t| matches!(t, Token::Val(_)))
        .collect();
    assert_eq!(values.len(), 2);
    assert_eq!(*values[0], Token::Val(Value::Var("x".to_string())));
    assert_eq!(*values[1], Token::Val(Value::Var("y".to_string())));
    assert!(postfix.iter().all(|t| !matches!(t, Token::Glyph(_))));
}

#[test]
fn test_presedence_levels() {
    assert_eq!(Function::BinaryOp(BinaryOp::Add).presedence(), 0);
    assert_eq!(Function::BinaryOp(BinaryOp::Sub).presedence(), 0);
    assert_eq!(Function::BinaryOp(BinaryOp::Mul).presedence(), 1);
    assert_eq!(Function::BinaryOp(BinaryOp::Div).presedence(), 1);
    assert_eq!(Function::BinaryOp(BinaryOp::Pow).presedence(), 2);
    assert_eq!(Function::UnaryOp(UnaryOp::Neg).presedence(), 1);
    assert_eq!(Function::NamedFunc("sin".to_string()).presedence(), 3);
    assert_eq!(Function::Assign.presedence(), -1);
}
