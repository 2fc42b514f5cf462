use vstd::prelude::*;

use crate::context::Context;
use crate::tokenizer::lemma_models_index;
use crate::tokenizer::models_of;
use crate::tokens::{BinaryOp, Function, FunctionModel, Token, TokenModel, UnaryOp, Value,
    ValueModel};

verus! {

/// A failure of the evaluator.
#[derive(Debug, PartialEq)]
pub enum EvalError {
    MissingArgument,
    InvalidToken,
    MissingResult,
    NotImplemented(Token),
    IncorrectAssignment(Token),
    UndefinedVariable(String),
    UndefinedFunction(String),
}

/// Mathematical model of an `EvalError`.
#[verifier::ext_equal]
pub enum EvalErrorModel {
    MissingArgument,
    InvalidToken,
    MissingResult,
    NotImplemented(TokenModel),
    IncorrectAssignment(TokenModel),
    UndefinedVariable(Seq<char>),
    UndefinedFunction(Seq<char>),
}

impl View for EvalError {
    type V = EvalErrorModel;

    open spec fn view(&self) -> EvalErrorModel {
        match self {
            EvalError::MissingArgument => EvalErrorModel::MissingArgument,
            EvalError::InvalidToken => EvalErrorModel::InvalidToken,
            EvalError::MissingResult => EvalErrorModel::MissingResult,
            EvalError::NotImplemented(t) => EvalErrorModel::NotImplemented(t@),
            EvalError::IncorrectAssignment(t) => EvalErrorModel::IncorrectAssignment(t@),
            EvalError::UndefinedVariable(s) => EvalErrorModel::UndefinedVariable(s@),
            EvalError::UndefinedFunction(s) => EvalErrorModel::UndefinedFunction(s@),
        }
    }
}

/// What one evaluation produced: a numeral, or an assignment of a numeral
/// to a variable.
#[derive(Debug, PartialEq)]
pub enum EvalOutput {
    Value(String),
    Assignment(String, String),
}

/// Mathematical model of an `EvalOutput`.
#[verifier::ext_equal]
pub enum EvalOutputModel {
    Value(Seq<char>),
    Assignment(Seq<char>, Seq<char>),
}

impl View for EvalOutput {
    type V = EvalOutputModel;

    open spec fn view(&self) -> EvalOutputModel {
        match self {
            EvalOutput::Value(s) => EvalOutputModel::Value(s@),
            EvalOutput::Assignment(n, v) => EvalOutputModel::Assignment(n@, v@),
        }
    }
}

/// The closed set of built-in unary functions.
#[derive(Debug, PartialEq, Eq, Structural, Clone, Copy)]
pub enum MathFunc {
    Sqrt,
    Sin,
    Cos,
    Tan,
    Exp,
    Ln,
}

/// Which built-in function, if any, a name denotes.
pub open spec fn spec_func_by_name(name: Seq<char>) -> Option<MathFunc> {
    if name == "sqrt"@ {
        Some(MathFunc::Sqrt)
    } else if name == "sin"@ {
        Some(MathFunc::Sin)
    } else if name == "cos"@ {
        Some(MathFunc::Cos)
    } else if name == "tan"@ {
        Some(MathFunc::Tan)
    } else if name == "exp"@ {
        Some(MathFunc::Exp)
    } else if name == "ln"@ {
        Some(MathFunc::Ln)
    } else {
        None
    }
}

/// Resolves a function name against the fixed, closed function table.
pub fn func_by_name(name: &str) -> (r: Option<MathFunc>)
    ensures
        r == spec_func_by_name(name@),
{
    let n = name.to_owned();
    if n == "sqrt".to_owned() {
        Some(MathFunc::Sqrt)
    } else if n == "sin".to_owned() {
        Some(MathFunc::Sin)
    } else if n == "cos".to_owned() {
        Some(MathFunc::Cos)
    } else if n == "tan".to_owned() {
        Some(MathFunc::Tan)
    } else if n == "exp".to_owned() {
        Some(MathFunc::Exp)
    } else if n == "ln".to_owned() {
        Some(MathFunc::Ln)
    } else {
        None
    }
}

/// One arithmetic task the evaluator hands to its numeric driver. The
/// operands are numerals; the driver interprets them, computes, and hands
/// the result numeral back through `Evaluator::resume`.
#[derive(Debug, PartialEq)]
pub enum MathOp {
    Binary(BinaryOp, String, String),
    Negate(String),
    Call(MathFunc, String),
}

/// Mathematical model of a `MathOp`.
#[verifier::ext_equal]
pub enum MathOpModel {
    Binary(BinaryOp, Seq<char>, Seq<char>),
    Negate(Seq<char>),
    Call(MathFunc, Seq<char>),
}

impl View for MathOp {
    type V = MathOpModel;

    open spec fn view(&self) -> MathOpModel {
        match self {
            MathOp::Binary(op, l, r) => MathOpModel::Binary(*op, l@, r@),
            MathOp::Negate(x) => MathOpModel::Negate(x@),
            MathOp::Call(f, x) => MathOpModel::Call(*f, x@),
        }
    }
}

/// Whether a request reports a completed assignment.
pub open spec fn is_assignment_request(r: EvalRequestModel) -> bool {
    r matches EvalRequestModel::Finished(EvalOutputModel::Assignment(_, _))
}

/// What `Evaluator::advance` came back with: an arithmetic task for the
/// driver, the finished outcome, or a failure.
#[derive(Debug, PartialEq)]
pub enum EvalRequest {
    Apply(MathOp),
    Finished(EvalOutput),
    Failed(EvalError),
}

/// Mathematical model of an `EvalRequest`.
#[verifier::ext_equal]
pub enum EvalRequestModel {
    Apply(MathOpModel),
    Finished(EvalOutputModel),
    Failed(EvalErrorModel),
}

impl View for EvalRequest {
    type V = EvalRequestModel;

    open spec fn view(&self) -> EvalRequestModel {
        match self {
            EvalRequest::Apply(op) => EvalRequestModel::Apply(op@),
            EvalRequest::Finished(o) => EvalRequestModel::Finished(o@),
            EvalRequest::Failed(e) => EvalRequestModel::Failed(e@),
        }
    }
}

/// What resolving an operand yields: a scalar is its own numeral, a
/// variable is looked up in the store.
pub open spec fn spec_collect(v: ValueModel, env: Map<Seq<char>, Seq<char>>) -> Result<
    Seq<char>,
    EvalErrorModel,
> {
    match v {
        ValueModel::Scalar(s) => Ok(s),
        ValueModel::Var(name) => {
            if env.contains_key(name) {
                Ok(env[name])
            } else {
                Err(EvalErrorModel::UndefinedVariable(name))
            }
        },
    }
}

impl Value {
    /// Resolves this operand against the store (see `spec_collect`).
    pub fn collect(self, context: &Context) -> (r: Result<String, EvalError>)
        ensures
            match (r, spec_collect(self@, context.vars_map())) {
                (Ok(s), Ok(m)) => s@ == m,
                (Err(e), Err(m)) => e@ == m,
                _ => false,
            },
    {
        match self {
            Value::Scalar(x) => Ok(x),
            Value::Var(name) => match context.var(name.as_str()) {
                Some(x) => Ok(x),
                None => Err(EvalError::UndefinedVariable(name)),
            },
        }
    }
}

/// The sequence of models of a value stack.
pub open spec fn vals_of(vs: Seq<Value>) -> Seq<ValueModel> {
    vs.map(|i: int, v: Value| v@)
}

/// The four components of the evaluator's state after one `advance`: the
/// request it came back with, the stream position, the value stack, and the
/// variable store.
#[verifier::ext_equal]
pub struct StepOutcome {
    pub req: EvalRequestModel,
    pub pos: int,
    pub stack: Seq<ValueModel>,
    pub env: Map<Seq<char>, Seq<char>>,
}

/// What `Evaluator::advance` does, as a function of the machine's state:
/// value tokens are pushed unresolved; an operation pops its operands,
/// resolves them, and asks the driver to compute; an assignment resolves its
/// right-hand side, commits it to the store, and finishes at once; the end
/// of the stream resolves the remaining entry. Every failure leaves the
/// store untouched.
pub open spec fn spec_advance(
    toks: Seq<TokenModel>,
    pos: int,
    stack: Seq<ValueModel>,
    env: Map<Seq<char>, Seq<char>>,
) -> StepOutcome
    decreases toks.len() - pos
        when 0 <= pos <= toks.len()
{
    if pos >= toks.len() {
        if stack.len() == 0 {
            StepOutcome {
                req: EvalRequestModel::Failed(EvalErrorModel::MissingResult),
                pos,
                stack,
                env,
            }
        } else {
            match spec_collect(stack.last(), env) {
                Ok(num) => StepOutcome {
                    req: EvalRequestModel::Finished(EvalOutputModel::Value(num)),
                    pos,
                    stack: stack.drop_last(),
                    env,
                },
                Err(e) => StepOutcome {
                    req: EvalRequestModel::Failed(e),
                    pos,
                    stack: stack.drop_last(),
                    env,
                },
            }
        }
    } else {
        match toks[pos] {
            TokenModel::Val(v) => spec_advance(toks, pos + 1, stack.push(v), env),
            TokenModel::Func(f) => match f {
                FunctionModel::Assign => {
                    if stack.len() < 2 {
                        StepOutcome {
                            req: EvalRequestModel::Failed(EvalErrorModel::MissingArgument),
                            pos: pos + 1,
                            stack: if stack.len() == 0 {
                                stack
                            } else {
                                stack.drop_last()
                            },
                            env,
                        }
                    } else {
                        let n1 = stack.last();
                        let n2 = stack.drop_last().last();
                        let rest = stack.drop_last().drop_last();
                        match n2 {
                            ValueModel::Var(name) => match spec_collect(n1, env) {
                                Ok(value) => StepOutcome {
                                    req: EvalRequestModel::Finished(
                                        EvalOutputModel::Assignment(name, value),
                                    ),
                                    pos: pos + 1,
                                    stack: rest,
                                    env: env.insert(name, value),
                                },
                                Err(e) => StepOutcome {
                                    req: EvalRequestModel::Failed(e),
                                    pos: pos + 1,
                                    stack: rest,
                                    env,
                                },
                            },
                            _ => StepOutcome {
                                req: EvalRequestModel::Failed(
                                    EvalErrorModel::IncorrectAssignment(TokenModel::Val(n2)),
                                ),
                                pos: pos + 1,
                                stack: rest,
                                env,
                            },
                        }
                    }
                },
                FunctionModel::BinaryOp(op) => {
                    if stack.len() < 2 {
                        StepOutcome {
                            req: EvalRequestModel::Failed(EvalErrorModel::MissingArgument),
                            pos: pos + 1,
                            stack: if stack.len() == 0 {
                                stack
                            } else {
                                stack.drop_last()
                            },
                            env,
                        }
                    } else {
                        let n1 = stack.last();
                        let n2 = stack.drop_last().last();
                        let rest = stack.drop_last().drop_last();
                        match spec_collect(n2, env) {
                            Err(e) => StepOutcome {
                                req: EvalRequestModel::Failed(e),
                                pos: pos + 1,
                                stack: rest,
                                env,
                            },
                            Ok(l) => match spec_collect(n1, env) {
                                Err(e) => StepOutcome {
                                    req: EvalRequestModel::Failed(e),
                                    pos: pos + 1,
                                    stack: rest,
                                    env,
                                },
                                Ok(r) => StepOutcome {
                                    req: EvalRequestModel::Apply(MathOpModel::Binary(op, l, r)),
                                    pos: pos + 1,
                                    stack: rest,
                                    env,
                                },
                            },
                        }
                    }
                },
                FunctionModel::UnaryOp(u) => match u {
                    UnaryOp::Neg => {
                        if stack.len() == 0 {
                            StepOutcome {
                                req: EvalRequestModel::Failed(EvalErrorModel::MissingArgument),
                                pos: pos + 1,
                                stack,
                                env,
                            }
                        } else {
                            match spec_collect(stack.last(), env) {
                                Ok(x) => StepOutcome {
                                    req: EvalRequestModel::Apply(MathOpModel::Negate(x)),
                                    pos: pos + 1,
                                    stack: stack.drop_last(),
                                    env,
                                },
                                Err(e) => StepOutcome {
                                    req: EvalRequestModel::Failed(e),
                                    pos: pos + 1,
                                    stack: stack.drop_last(),
                                    env,
                                },
                            }
                        }
                    },
                },
                FunctionModel::NamedFunc(name) => {
                    if stack.len() == 0 {
                        StepOutcome {
                            req: EvalRequestModel::Failed(EvalErrorModel::MissingArgument),
                            pos: pos + 1,
                            stack,
                            env,
                        }
                    } else {
                        match spec_collect(stack.last(), env) {
                            Err(e) => StepOutcome {
                                req: EvalRequestModel::Failed(e),
                                pos: pos + 1,
                                stack: stack.drop_last(),
                                env,
                            },
                            Ok(x) => match spec_func_by_name(name) {
                                Some(mf) => StepOutcome {
                                    req: EvalRequestModel::Apply(MathOpModel::Call(mf, x)),
                                    pos: pos + 1,
                                    stack: stack.drop_last(),
                                    env,
                                },
                                None => StepOutcome {
                                    req: EvalRequestModel::Failed(
                                        EvalErrorModel::UndefinedFunction(name),
                                    ),
                                    pos: pos + 1,
                                    stack: stack.drop_last(),
                                    env,
                                },
                            },
                        }
                    }
                },
            },
            _ => StepOutcome {
                req: EvalRequestModel::Failed(EvalErrorModel::InvalidToken),
                pos: pos + 1,
                stack,
                env,
            },
        }
    }
}

/// The stack-based postfix evaluator, run as a machine: `advance` consumes
/// the stream until it needs arithmetic, which the caller performs and hands
/// back through `resume`. The evaluator itself treats numerals as opaque
/// text, so everything but the arithmetic is decided here.
pub struct Evaluator {
    tokens: Vec<Token>,
    pos: usize,
    stack: Vec<Value>,
}

impl Evaluator {
    /// Well-formedness: the stream position never passes the stream's end.
    /// `new` establishes it and both methods keep it.
    pub open spec fn wf(self) -> bool {
        0 <= self.position() <= self.toks().len()
    }

    /// The postfix token stream being evaluated.
    pub closed spec fn toks(&self) -> Seq<TokenModel> {
        models_of(self.tokens@)
    }

    /// The index of the next token to consume.
    pub closed spec fn position(&self) -> int {
        self.pos as int
    }

    /// The unresolved value stack, bottom first.
    pub closed spec fn stack_model(&self) -> Seq<ValueModel> {
        vals_of(self.stack@)
    }

    /// A machine at the start of a postfix stream, with an empty stack.
    pub fn new(postfix_tokens: Vec<Token>) -> (r: Evaluator)
        ensures
            r.wf(),
            r.toks() == models_of(postfix_tokens@),
            r.position() == 0,
            r.stack_model() == Seq::<ValueModel>::empty(),
    {
        let r = Evaluator { tokens: postfix_tokens, pos: 0, stack: Vec::new() };
        proof {
            assert(r.stack_model() =~= Seq::<ValueModel>::empty());
        }
        r
    }

    /// Pushes the numeral the driver computed for the last `Apply` request.
    pub fn resume(&mut self, result: String)
        ensures
            final(self).toks() == old(self).toks(),
            final(self).position() == old(self).position(),
            final(self).stack_model() == old(self).stack_model().push(
                ValueModel::Scalar(result@),
            ),
    {
        let ghost rm = result@;
        self.stack.push(Value::Scalar(result));
        proof {
            assert(final(self).stack_model() =~= old(self).stack_model().push(
                ValueModel::Scalar(rm),
            ));
        }
    }

    /// Consumes the stream until arithmetic is needed, the stream ends, or a
    /// failure arises, exactly as `spec_advance` says. The store is written
    /// only by a completed assignment.
    pub fn advance(&mut self, context: &mut Context) -> (r: EvalRequest)
        requires
            old(self).wf(),
        ensures
            final(self).wf(),
            ({
                let o = spec_advance(
                    old(self).toks(),
                    old(self).position(),
                    old(self).stack_model(),
                    old(context).vars_map(),
                );
                r@ == o.req && final(self).toks() == old(self).toks() && final(self).position()
                    == o.pos && final(self).stack_model() == o.stack && final(context).vars_map()
                    == o.env
            }),
            !is_assignment_request(r@) ==> final(context).vars_map() == old(context).vars_map(),
    {
        let ghost toks0 = self.toks();
        let ghost env0 = context.vars_map();
        let ghost outcome0 = spec_advance(toks0, self.position(), self.stack_model(), env0);
        loop
            invariant
                toks0 == old(self).toks(),
                env0 == old(context).vars_map(),
                outcome0 == spec_advance(
                    old(self).toks(),
                    old(self).position(),
                    old(self).stack_model(),
                    old(context).vars_map(),
                ),
                self.toks() == toks0,
                self.tokens@.len() == toks0.len(),
                0 <= self.position() <= toks0.len(),
                context.vars_map() == env0,
                spec_advance(toks0, self.position(), self.stack_model(), env0) == outcome0,
            decreases toks0.len() - self.position(),
        {
            let ghost p0 = self.position();
            let ghost sm0 = self.stack_model();
            if self.pos >= self.tokens.len() {
                let ghost pre = self.stack@;
                match self.stack.pop() {
                    None => {
                        return EvalRequest::Failed(EvalError::MissingResult);
                    },
                    Some(val) => {
                        proof {
                            lemma_vals_index(pre, pre.len() - 1);
                            assert(val@ == sm0.last());
                            assert(self.stack_model() =~= sm0.drop_last());
                        }
                        match val.collect(&*context) {
                            Ok(num) => {
                                return EvalRequest::Finished(EvalOutput::Value(num));
                            },
                            Err(e) => {
                                return EvalRequest::Failed(e);
                            },
                        }
                    },
                }
            }
            let token = self.tokens[self.pos].clone();
            proof {
                lemma_models_index(self.tokens@, p0);
                assert(token@ == toks0[p0]);
            }
            self.pos = self.pos + 1;
            match token {
                Token::Val(value) => {
                    let ghost vm = value@;
                    self.stack.push(value);
                    proof {
                        assert(self.stack_model() =~= sm0.push(vm));
                    }
                },
                Token::Func(function) => {
                    match function {
                        Function::Assign => {
                            let ghost pre1 = self.stack@;
                            let n1 = match self.stack.pop() {
                                Some(v) => v,
                                None => {
                                    return EvalRequest::Failed(EvalError::MissingArgument);
                                },
                            };
                            proof {
                                lemma_vals_index(pre1, pre1.len() - 1);
                                assert(n1@ == sm0.last());
                                assert(self.stack_model() =~= sm0.drop_last());
                            }
                            let ghost pre2 = self.stack@;
                            let n2 = match self.stack.pop() {
                                Some(v) => v,
                                None => {
                                    return EvalRequest::Failed(EvalError::MissingArgument);
                                },
                            };
                            proof {
                                lemma_vals_index(pre2, pre2.len() - 1);
                                assert(n2@ == sm0.drop_last().last());
                                assert(self.stack_model() =~= sm0.drop_last().drop_last());
                            }
                            let ghost n1m = n1@;
                            match n2 {
                                Value::Var(name) => {
                                    match n1.collect(&*context) {
                                        Ok(value) => {
                                            context.set_var(name.as_str(), value.as_str());
                                            return EvalRequest::Finished(
                                                EvalOutput::Assignment(name, value),
                                            );
                                        },
                                        Err(e) => {
                                            return EvalRequest::Failed(e);
                                        },
                                    }
                                },
                                other => {
                                    return EvalRequest::Failed(
                                        EvalError::IncorrectAssignment(Token::Val(other)),
                                    );
                                },
                            }
                        },
                        Function::BinaryOp(op) => {
                            let ghost pre1 = self.stack@;
                            let n1 = match self.stack.pop() {
                                Some(v) => v,
                                None => {
                                    return EvalRequest::Failed(EvalError::MissingArgument);
                                },
                            };
                            proof {
                                lemma_vals_index(pre1, pre1.len() - 1);
                                assert(n1@ == sm0.last());
                                assert(self.stack_model() =~= sm0.drop_last());
                            }
                            let ghost pre2 = self.stack@;
                            let n2 = match self.stack.pop() {
                                Some(v) => v,
                                None => {
                                    return EvalRequest::Failed(EvalError::MissingArgument);
                                },
                            };
                            proof {
                                lemma_vals_index(pre2, pre2.len() - 1);
                                assert(n2@ == sm0.drop_last().last());
                                assert(self.stack_model() =~= sm0.drop_last().drop_last());
                            }
                            let l = match n2.collect(&*context) {
                                Ok(x) => x,
                                Err(e) => {
                                    return EvalRequest::Failed(e);
                                },
                            };
                            let r = match n1.collect(&*context) {
                                Ok(x) => x,
                                Err(e) => {
                                    return EvalRequest::Failed(e);
                                },
                            };
                            return EvalRequest::Apply(MathOp::Binary(op, l, r));
                        },
                        Function::UnaryOp(u) => {
                            match u {
                                UnaryOp::Neg => {
                                    let ghost pre1 = self.stack@;
                                    let n = match self.stack.pop() {
                                        Some(v) => v,
                                        None => {
                                            return EvalRequest::Failed(EvalError::MissingArgument);
                                        },
                                    };
                                    proof {
                                        lemma_vals_index(pre1, pre1.len() - 1);
                                        assert(n@ == sm0.last());
                                        assert(self.stack_model() =~= sm0.drop_last());
                                    }
                                    match n.collect(&*context) {
                                        Ok(x) => {
                                            return EvalRequest::Apply(MathOp::Negate(x));
                                        },
                                        Err(e) => {
                                            return EvalRequest::Failed(e);
                                        },
                                    }
                                },
                            }
                        },
                        Function::NamedFunc(name) => {
                            let ghost pre1 = self.stack@;
                            let n = match self.stack.pop() {
                                Some(v) => v,
                                None => {
                                    return EvalRequest::Failed(EvalError::MissingArgument);
                                },
                            };
                            proof {
                                lemma_vals_index(pre1, pre1.len() - 1);
                                assert(n@ == sm0.last());
                                assert(self.stack_model() =~= sm0.drop_last());
                            }
                            let x = match n.collect(&*context) {
                                Ok(x) => x,
                                Err(e) => {
                                    return EvalRequest::Failed(e);
                                },
                            };
                            match func_by_name(name.as_str()) {
                                Some(f) => {
                                    return EvalRequest::Apply(MathOp::Call(f, x));
                                },
                                None => {
                                    return EvalRequest::Failed(EvalError::UndefinedFunction(name));
                                },
                            }
                        },
                    }
                },
                _ => {
                    return EvalRequest::Failed(EvalError::InvalidToken);
                },
            }
        }
    }
}

proof fn lemma_vals_index(vs: Seq<Value>, i: int)
    requires
        0 <= i < vs.len(),
    ensures
        vals_of(vs)[i] == vs[i]@,
{
}

} // verus!

