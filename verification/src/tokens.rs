use vstd::prelude::*;

verus! {

/// The five binary arithmetic operators of the language.
#[derive(Debug, PartialEq, Eq, Structural, Clone, Copy)]
pub enum BinaryOp {
    Add,
    Sub,
    Mul,
    Div,
    Pow,
}

/// The single unary operator: numeric negation.
#[derive(Debug, PartialEq, Eq, Structural, Clone, Copy)]
pub enum UnaryOp {
    Neg,
}

/// Punctuation tokens: parentheses and the argument separator.
#[derive(Debug, PartialEq, Eq, Structural, Clone, Copy)]
pub enum Glyph {
    LBracket,
    RBracket,
    Comma,
}

/// An operand: either a numeric literal (kept as the lexed numeral text,
/// interpreted by the numeric driver outside this crate) or a variable name.
#[derive(Debug, PartialEq)]
pub enum Value {
    Scalar(String),
    Var(String),
}

/// An operation: a binary or unary operator, a call of a named function,
/// or the assignment operator.
#[derive(Debug, PartialEq)]
pub enum Function {
    BinaryOp(BinaryOp),
    UnaryOp(UnaryOp),
    NamedFunc(String),
    Assign,
}

/// A lexed token. `Start` and `End` are sentinels that bracket every lexed
/// sequence; they never arise from user-visible characters.
#[derive(Debug, PartialEq)]
pub enum Token {
    Start,
    End,
    Func(Function),
    Val(Value),
    Glyph(Glyph),
}

/// Mathematical model of a `Value`: the same shape with string payloads
/// abstracted to character sequences.
#[verifier::ext_equal]
pub enum ValueModel {
    Scalar(Seq<char>),
    Var(Seq<char>),
}

/// Mathematical model of a `Function`.
#[verifier::ext_equal]
pub enum FunctionModel {
    BinaryOp(BinaryOp),
    UnaryOp(UnaryOp),
    NamedFunc(Seq<char>),
    Assign,
}

/// Mathematical model of a `Token`.
#[verifier::ext_equal]
pub enum TokenModel {
    Start,
    End,
    Func(FunctionModel),
    Val(ValueModel),
    Glyph(Glyph),
}

impl View for Value {
    type V = ValueModel;

    open spec fn view(&self) -> ValueModel {
        match self {
            Value::Scalar(s) => ValueModel::Scalar(s@),
            Value::Var(s) => ValueModel::Var(s@),
        }
    }
}

impl DeepView for Value {
    type V = ValueModel;

    open spec fn deep_view(&self) -> ValueModel {
        self.view()
    }
}

impl View for Function {
    type V = FunctionModel;

    open spec fn view(&self) -> FunctionModel {
        match self {
            Function::BinaryOp(op) => FunctionModel::BinaryOp(*op),
            Function::UnaryOp(op) => FunctionModel::UnaryOp(*op),
            Function::NamedFunc(s) => FunctionModel::NamedFunc(s@),
            Function::Assign => FunctionModel::Assign,
        }
    }
}

impl DeepView for Function {
    type V = FunctionModel;

    open spec fn deep_view(&self) -> FunctionModel {
        self.view()
    }
}

impl View for Token {
    type V = TokenModel;

    open spec fn view(&self) -> TokenModel {
        match self {
            Token::Start => TokenModel::Start,
            Token::End => TokenModel::End,
            Token::Func(f) => TokenModel::Func(f@),
            Token::Val(v) => TokenModel::Val(v@),
            Token::Glyph(g) => TokenModel::Glyph(*g),
        }
    }
}

impl DeepView for Token {
    type V = TokenModel;

    open spec fn deep_view(&self) -> TokenModel {
        self.view()
    }
}

/// Precedence of an operation in the shunting-yard conversion; a higher
/// number binds tighter. `Assign` binds loosest of all, so it is flushed
/// only after the whole right-hand side has been reduced.
pub open spec fn spec_presedence(f: FunctionModel) -> int {
    match f {
        FunctionModel::Assign => -1,
        FunctionModel::BinaryOp(BinaryOp::Add) => 0,
        FunctionModel::BinaryOp(BinaryOp::Sub) => 0,
        FunctionModel::BinaryOp(BinaryOp::Mul) => 1,
        FunctionModel::BinaryOp(BinaryOp::Div) => 1,
        FunctionModel::BinaryOp(BinaryOp::Pow) => 2,
        FunctionModel::UnaryOp(UnaryOp::Neg) => 1,
        FunctionModel::NamedFunc(_) => 3,
    }
}

impl Clone for Value {
    /// A clone models the same value.
    fn clone(&self) -> (r: Value)
        ensures
            r@ == self@,
    {
        match self {
            Value::Scalar(s) => Value::Scalar(s.clone()),
            Value::Var(s) => Value::Var(s.clone()),
        }
    }
}

impl Clone for Function {
    /// A clone models the same operation.
    fn clone(&self) -> (r: Function)
        ensures
            r@ == self@,
    {
        match self {
            Function::BinaryOp(op) => Function::BinaryOp(*op),
            Function::UnaryOp(op) => Function::UnaryOp(*op),
            Function::NamedFunc(s) => Function::NamedFunc(s.clone()),
            Function::Assign => Function::Assign,
        }
    }
}

impl Clone for Token {
    /// A clone models the same token.
    fn clone(&self) -> (r: Token)
        ensures
            r@ == self@,
    {
        match self {
            Token::Start => Token::Start,
            Token::End => Token::End,
            Token::Func(f) => Token::Func(f.clone()),
            Token::Val(v) => Token::Val(v.clone()),
            Token::Glyph(g) => Token::Glyph(*g),
        }
    }
}

impl From<Function> for Token {
    fn from(f: Function) -> (r: Token)
        ensures
            r == Token::Func(f),
    {
        Token::Func(f)
    }
}

impl vstd::std_specs::convert::FromSpecImpl<Function> for Token {
    open spec fn obeys_from_spec() -> bool {
        true
    }

    open spec fn from_spec(f: Function) -> Token {
        Token::Func(f)
    }
}

impl From<Value> for Token {
    fn from(v: Value) -> (r: Token)
        ensures
            r == Token::Val(v),
    {
        Token::Val(v)
    }
}

impl vstd::std_specs::convert::FromSpecImpl<Value> for Token {
    open spec fn obeys_from_spec() -> bool {
        true
    }

    open spec fn from_spec(v: Value) -> Token {
        Token::Val(v)
    }
}

impl From<Glyph> for Token {
    fn from(g: Glyph) -> (r: Token)
        ensures
            r == Token::Glyph(g),
    {
        Token::Glyph(g)
    }
}

impl vstd::std_specs::convert::FromSpecImpl<Glyph> for Token {
    open spec fn obeys_from_spec() -> bool {
        true
    }

    open spec fn from_spec(g: Glyph) -> Token {
        Token::Glyph(g)
    }
}

impl From<BinaryOp> for Function {
    fn from(op: BinaryOp) -> (r: Function)
        ensures
            r == Function::BinaryOp(op),
    {
        Function::BinaryOp(op)
    }
}

impl vstd::std_specs::convert::FromSpecImpl<BinaryOp> for Function {
    open spec fn obeys_from_spec() -> bool {
        true
    }

    open spec fn from_spec(op: BinaryOp) -> Function {
        Function::BinaryOp(op)
    }
}

impl From<BinaryOp> for Token {
    fn from(op: BinaryOp) -> (r: Token)
        ensures
            r == Token::Func(Function::BinaryOp(op)),
    {
        Token::Func(Function::BinaryOp(op))
    }
}

impl vstd::std_specs::convert::FromSpecImpl<BinaryOp> for Token {
    open spec fn obeys_from_spec() -> bool {
        true
    }

    open spec fn from_spec(op: BinaryOp) -> Token {
        Token::Func(Function::BinaryOp(op))
    }
}

impl From<UnaryOp> for Function {
    fn from(op: UnaryOp) -> (r: Function)
        ensures
            r == Function::UnaryOp(op),
    {
        Function::UnaryOp(op)
    }
}

impl vstd::std_specs::convert::FromSpecImpl<UnaryOp> for Function {
    open spec fn obeys_from_spec() -> bool {
        true
    }

    open spec fn from_spec(op: UnaryOp) -> Function {
        Function::UnaryOp(op)
    }
}

impl From<UnaryOp> for Token {
    fn from(op: UnaryOp) -> (r: Token)
        ensures
            r == Token::Func(Function::UnaryOp(op)),
    {
        Token::Func(Function::UnaryOp(op))
    }
}

impl vstd::std_specs::convert::FromSpecImpl<UnaryOp> for Token {
    open spec fn obeys_from_spec() -> bool {
        true
    }

    open spec fn from_spec(op: UnaryOp) -> Token {
        Token::Func(Function::UnaryOp(op))
    }
}

/// Shortcut for creating tokens.
#[allow(non_snake_case)]
pub fn TOKEN<T>(sub_token: T) -> (r: Token) where Token: From<T>
    ensures
        <Token as vstd::std_specs::convert::FromSpec<T>>::obeys_from_spec() ==> r == (<Token as
            vstd::std_specs::convert::FromSpec<T>>::from_spec(sub_token)),
{
    Token::from(sub_token)
}

impl Function {
    /// Precedence level of this operation (see `spec_presedence`).
    pub fn presedence(&self) -> (r: i32)
        ensures
            r == spec_presedence(self@),
    {
        match self {
            Function::Assign => -1,
            Function::BinaryOp(BinaryOp::Add) => 0,
            Function::BinaryOp(BinaryOp::Sub) => 0,
            Function::BinaryOp(BinaryOp::Mul) => 1,
            Function::BinaryOp(BinaryOp::Div) => 1,
            Function::BinaryOp(BinaryOp::Pow) => 2,
            Function::UnaryOp(UnaryOp::Neg) => 1,
            Function::NamedFunc(_) => 3,
        }
    }
}

} // verus!
