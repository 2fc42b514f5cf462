use calculator::context::Context;
use calculator::evaluator::{
    func_by_name, EvalError, EvalOutput, EvalRequest, Evaluator, MathFunc, MathOp,
};
use calculator::parser::{shunting_yard, validate};
use calculator::tokenizer::tokenize;
use calculator::tokens::{BinaryOp, Function, Token, Value};

fn apply_math(op: &MathOp) -> String {
    match op {
        MathOp::Binary(b, l, r) => {
            let l: f32 = l.parse().unwrap();
            let r: f32 = r.parse().unwrap();
            let v = match b {
                BinaryOp::Add => l + r,
                BinaryOp::Sub => l - r,
                BinaryOp::Mul => l * r,
                BinaryOp::Div => l / r,
                BinaryOp::Pow => l.powf(r),
            };
            v.to_string()
        }
        MathOp::Negate(x) => {
            let x: f32 = x.parse().unwrap();
            (-1.0 * x).to_string()
        }
        MathOp::Call(f, x) => {
            let x: f32 = x.parse().unwrap();
            let v = match f {
                MathFunc::Sqrt => x.sqrt(),
                MathFunc::Sin => x.sin(),
                MathFunc::Cos => x.cos(),
                MathFunc::Tan => x.tan(),
                MathFunc::Exp => x.exp(),
                MathFunc::Ln => x.ln(),
            };
            v.to_string()
        }
    }
}

fn evaluate(postfix_tokens: Vec<Token>, context: &mut Context) -> Result<EvalOutput, EvalError> {
    let mut machine = Evaluator::new(postfix_tokens);
    loop {
        match machine.advance(context) {
            EvalRequest::Apply(op) => {
                let result = apply_math(&op);
                machine.resume(result);
            }
            EvalRequest::Finished(output) => return Ok(output),
            EvalRequest::Failed(error) => return Err(error),
        }
    }
}

fn run_line(line: &str, context: &mut Context) -> Result<EvalOutput, EvalError> {
    let tokens = tokenize(line).unwrap();
    validate(&tokens).unwrap();
    evaluate(shunting_yard(tokens), context)
}

fn produced(output: &EvalOutput) -> f32 {
    match output {
        EvalOutput::Value(v) => v.parse().unwrap(),
        EvalOutput::Assignment(_, _) => panic!("expected a produced value"),
    }
}

#[test]
fn test_one_plus_two_evaluates_to_three() {
    let mut context = Context::new();
    let output = run_line("1+2", &mut context).unwrap();
    assert!((produced(&output) - 3.0).abs() < 1e-6);
}

#[test]
fn test_assignment_then_lookup() {
    let mut context = Context::new();
    let output = run_line("x=5", &mut context).unwrap();
    match output {
        EvalOutput::Assignment(name, value) => {
            assert_eq!(name, "x");
            assert!((value.parse::<f32>().unwrap() - 5.0).abs() < 1e-6);
        }
        EvalOutput::Value(_) => panic!("expected an assignment"),
    }
    let stored: f32 = context.var("x").unwrap().parse().unwrap();
    assert!((stored - 5.0).abs() < 1e-6);
}

#[test]
fn test_assigned_variable_usable_in_next_line() {
    let mut context = Context::new();
    run_line("x=5", &mut context).unwrap();
    let output = run_line("x*2", &mut context).unwrap();
    assert!((produced(&output) - 10.0).abs() < 1e-6);
}

#[test]
fn test_sin_of_zero() {
    let mut context = Context::new();
    let output = run_line("sin(0)", &mut context).unwrap();
    assert!(produced(&output).abs() < 1e-6);
}

#[test]
fn test_precedence_in_evaluation() {
    let mut context = Context::new();
    let output = run_line("1+2*3", &mut context).unwrap();
    assert!((produced(&output) - 7.0).abs() < 1e-6);
}

#[test]
fn test_brackets_override_precedence() {
    let mut context = Context::new();
    let output = run_line("(1+2)*3", &mut context).unwrap();
    assert!((produced(&output) - 9.0).abs() < 1e-6);
}

#[test]
fn test_power_and_negation() {
    let mut context = Context::new();
    let output = run_line("-2^2", &mut context).unwrap();
    // The unary minus and the power share no operand here: the lexer makes
    // `-` unary at the start, and negation binds at level 1 against the
    // power's 2, so the power is computed first.
    assert!((produced(&output) + 4.0).abs() < 1e-6);
}

#[test]
fn test_seeded_constants() {
    let mut context = Context::new();
    let pi: f32 = context.var("pi").unwrap().parse().unwrap();
    let e: f32 = context.var("e").unwrap().parse().unwrap();
    assert!((pi - std::f32::consts::PI).abs() < 1e-6);
    assert!((e - std::f32::consts::E).abs() < 1e-6);
    let output = run_line("sin(pi)", &mut context).unwrap();
    assert!(produced(&output).abs() < 1e-6);
}

#[test]
fn test_undefined_variable_leaves_store_unchanged() {
    let mut context = Context::new();
    let err = run_line("y+1", &mut context).unwrap_err();
    assert_eq!(err, EvalError::UndefinedVariable("y".to_string()));
    assert!(context.var("y").is_none());
    // The seeded constants are still there.
    assert!(context.var("pi").is_some());
    assert!(context.var("e").is_some());
}

#[test]
fn test_failed_assignment_leaves_store_unchanged() {
    let mut context = Context::new();
    let err = run_line("x=y", &mut context).unwrap_err();
    assert_eq!(err, EvalError::UndefinedVariable("y".to_string()));
    assert!(context.var("x").is_none());
}

#[test]
fn test_undefined_function() {
    let mut context = Context::new();
    let err = run_line("foo(1)", &mut context).unwrap_err();
    assert_eq!(err, EvalError::UndefinedFunction("foo".to_string()));
}

#[test]
fn test_missing_argument() {
    let mut context = Context::new();
    let postfix = vec![Token::Func(Function::BinaryOp(BinaryOp::Add))];
    let err = evaluate(postfix, &mut context).unwrap_err();
    assert_eq!(err, EvalError::MissingArgument);
}

#[test]
fn test_missing_result() {
    let mut context = Context::new();
    let err = evaluate(Vec::new(), &mut context).unwrap_err();
    assert_eq!(err, EvalError::MissingResult);
}

#[test]
fn test_invalid_token() {
    let mut context = Context::new();
    let err = evaluate(vec![Token::Start], &mut context).unwrap_err();
    assert_eq!(err, EvalError::InvalidToken);
}

#[test]
fn test_assignment_to_scalar_fails() {
    let mut context = Context::new();
    let postfix = vec![
        Token::Val(Value::Scalar("5".to_string())),
        Token::Val(Value::Scalar("6".to_string())),
        Token::Func(Function::Assign),
    ];
    let err = evaluate(postfix, &mut context).unwrap_err();
    assert_eq!(
        err,
        EvalError::IncorrectAssignment(Token::Val(Value::Scalar("5".to_string())))
    );
}

#[test]
fn test_function_table_is_closed() {
    assert_eq!(func_by_name("sqrt"), Some(MathFunc::Sqrt));
    assert_eq!(func_by_name("sin"), Some(MathFunc::Sin));
    assert_eq!(func_by_name("cos"), Some(MathFunc::Cos));
    assert_eq!(func_by_name("tan"), Some(MathFunc::Tan));
    assert_eq!(func_by_name("exp"), Some(MathFunc::Exp));
    assert_eq!(func_by_name("ln"), Some(MathFunc::Ln));
    assert_eq!(func_by_name("log"), None);
}

#[test]
fn test_collect_resolves_scalar_and_variable() {
    let context = Context::new();
    let scalar = Value::Scalar("2.5".to_string());
    assert_eq!(scalar.collect(&context), Ok("2.5".to_string()));
    let known = Value::Var("pi".to_string());
    let resolved: f32 = known.collect(&context).unwrap().parse().unwrap();
    assert!((resolved - std::f32::consts::PI).abs() < 1e-6);
    let unknown = Value::Var("q".to_string());
    assert_eq!(
        unknown.collect(&context),
        Err(EvalError::UndefinedVariable("q".to_string()))
    );
}

#[test]
fn test_equal_precedence_chains_reduce_from_the_right() {
    // The converter pushes an operator whenever the stack's top binds no
    // tighter, so a chain of equal-precedence operators reduces from the
    // right: 10-5-2 is read as 10-(5-2), not (10-5)-2.
    let mut context = Context::new();
    let output = run_line("10-5-2", &mut context).unwrap();
    assert!((produced(&output) - 7.0).abs() < 1e-6);
}

#[test]
fn test_sqrt_evaluates() {
    let mut context = Context::new();
    let output = run_line("sqrt(9)", &mut context).unwrap();
    assert!((produced(&output) - 3.0).abs() < 1e-6);
}

#[test]
fn test_division() {
    let mut context = Context::new();
    let output = run_line("11-2/-e", &mut context).unwrap();
    let expected = 11.0 - 2.0 / -std::f32::consts::E;
    assert!((produced(&output) - expected).abs() < 1e-5);
}
