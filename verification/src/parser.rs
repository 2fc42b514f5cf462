use vstd::multiset::Multiset;
use vstd::prelude::*;

use crate::tokenizer::lemma_models_index;
use crate::tokenizer::lemma_models_push;
use crate::tokenizer::models_of;
use crate::tokens::{spec_presedence, BinaryOp, Function, FunctionModel, Glyph, Token, TokenModel,
    UnaryOp, Value};

verus! {

/// A failure of the grammar validator.
#[derive(Debug, PartialEq)]
pub enum ParserError {
    UnevenBrackets,
    IncorrectAssign,
    OrderError(Token, Token),
}

/// Mathematical model of a `ParserError`.
#[verifier::ext_equal]
pub enum ParserErrorModel {
    UnevenBrackets,
    IncorrectAssign,
    OrderError(TokenModel, TokenModel),
}

impl View for ParserError {
    type V = ParserErrorModel;

    open spec fn view(&self) -> ParserErrorModel {
        match self {
            ParserError::UnevenBrackets => ParserErrorModel::UnevenBrackets,
            ParserError::IncorrectAssign => ParserErrorModel::IncorrectAssign,
            ParserError::OrderError(a, b) => ParserErrorModel::OrderError(a@, b@),
        }
    }
}

/// The tokens that may open an operand: a value, a unary operator, a named
/// function, or an opening parenthesis.
pub open spec fn starts_operand(b: TokenModel) -> bool {
    ||| b matches TokenModel::Val(_)
    ||| b matches TokenModel::Func(FunctionModel::UnaryOp(_))
    ||| b matches TokenModel::Func(FunctionModel::NamedFunc(_))
    ||| b == TokenModel::Glyph(Glyph::LBracket)
}

/// The category-level adjacency table: whether a token of `a`'s category may
/// immediately precede one of `b`'s category.
pub open spec fn spec_can_precede(a: TokenModel, b: TokenModel) -> bool {
    match a {
        TokenModel::Start => starts_operand(b),
        TokenModel::End => false,
        TokenModel::Func(f) => match f {
            FunctionModel::Assign => starts_operand(b),
            FunctionModel::BinaryOp(_) => starts_operand(b),
            FunctionModel::UnaryOp(_) => starts_operand(b),
            FunctionModel::NamedFunc(_) => b == TokenModel::Glyph(Glyph::LBracket),
        },
        TokenModel::Val(_) => {
            ||| b matches TokenModel::Func(FunctionModel::Assign)
            ||| b matches TokenModel::Func(FunctionModel::BinaryOp(_))
            ||| b == TokenModel::Glyph(Glyph::Comma)
            ||| b == TokenModel::Glyph(Glyph::RBracket)
            ||| b == TokenModel::End
        },
        TokenModel::Glyph(g) => match g {
            Glyph::LBracket => starts_operand(b),
            Glyph::Comma => starts_operand(b),
            Glyph::RBracket => {
                ||| b matches TokenModel::Func(FunctionModel::BinaryOp(_))
                ||| b == TokenModel::Glyph(Glyph::Comma)
                ||| b == TokenModel::Glyph(Glyph::RBracket)
                ||| b == TokenModel::End
            },
        },
    }
}

/// Adjacency in the token grammar, category by category.
pub trait Ordering {
    /// The token this item stands for in the adjacency table.
    spec fn token_model(&self) -> TokenModel;

    /// Whether this token may immediately precede `other`.
    fn can_precede(&self, other: &Token) -> (r: bool)
        ensures
            r == spec_can_precede(self.token_model(), other@),
    ;
}

impl Ordering for Token {
    open spec fn token_model(&self) -> TokenModel {
        self@
    }

    fn can_precede(&self, other: &Token) -> (r: bool)
        ensures
            r == spec_can_precede(self.token_model(), other@),
    {
        match self {
            Token::Func(function) => function.can_precede(other),
            Token::Val(value) => value.can_precede(other),
            Token::Glyph(glyph) => glyph.can_precede(other),
            Token::End => false,
            Token::Start => match other {
                Token::Val(_) => true,
                Token::Func(Function::UnaryOp(_)) => true,
                Token::Func(Function::NamedFunc(_)) => true,
                Token::Glyph(Glyph::LBracket) => true,
                _ => false,
            },
        }
    }
}

impl Ordering for Function {
    open spec fn token_model(&self) -> TokenModel {
        TokenModel::Func(self@)
    }

    fn can_precede(&self, other: &Token) -> (r: bool)
        ensures
            r == spec_can_precede(self.token_model(), other@),
    {
        match self {
            Function::Assign => match other {
                Token::Val(_) => true,
                Token::Func(Function::UnaryOp(_)) => true,
                Token::Func(Function::NamedFunc(_)) => true,
                Token::Glyph(Glyph::LBracket) => true,
                _ => false,
            },
            Function::BinaryOp(op) => op.can_precede(other),
            Function::UnaryOp(op) => op.can_precede(other),
            Function::NamedFunc(_) => match other {
                Token::Glyph(Glyph::LBracket) => true,
                _ => false,
            },
        }
    }
}

impl Ordering for BinaryOp {
    open spec fn token_model(&self) -> TokenModel {
        TokenModel::Func(FunctionModel::BinaryOp(*self))
    }

    fn can_precede(&self, other: &Token) -> (r: bool)
        ensures
            r == spec_can_precede(self.token_model(), other@),
    {
        match other {
            Token::Val(_) => true,
            Token::Func(Function::UnaryOp(_)) => true,
            Token::Func(Function::NamedFunc(_)) => true,
            Token::Glyph(Glyph::LBracket) => true,
            _ => false,
        }
    }
}

impl Ordering for UnaryOp {
    open spec fn token_model(&self) -> TokenModel {
        TokenModel::Func(FunctionModel::UnaryOp(*self))
    }

    fn can_precede(&self, other: &Token) -> (r: bool)
        ensures
            r == spec_can_precede(self.token_model(), other@),
    {
        match other {
            Token::Val(_) => true,
            Token::Func(Function::UnaryOp(_)) => true,
            Token::Func(Function::NamedFunc(_)) => true,
            Token::Glyph(Glyph::LBracket) => true,
            _ => false,
        }
    }
}

impl Ordering for Value {
    open spec fn token_model(&self) -> TokenModel {
        TokenModel::Val(self@)
    }

    fn can_precede(&self, other: &Token) -> (r: bool)
        ensures
            r == spec_can_precede(self.token_model(), other@),
    {
        match other {
            Token::Func(Function::Assign) => true,
            Token::Func(Function::BinaryOp(_)) => true,
            Token::Glyph(Glyph::Comma) => true,
            Token::Glyph(Glyph::RBracket) => true,
            Token::End => true,
            _ => false,
        }
    }
}

impl Ordering for Glyph {
    open spec fn token_model(&self) -> TokenModel {
        TokenModel::Glyph(*self)
    }

    fn can_precede(&self, other: &Token) -> (r: bool)
        ensures
            r == spec_can_precede(self.token_model(), other@),
    {
        match self {
            Glyph::LBracket | Glyph::Comma => match other {
                Token::Func(Function::UnaryOp(_)) => true,
                Token::Func(Function::NamedFunc(_)) => true,
                Token::Val(_) => true,
                Token::Glyph(Glyph::LBracket) => true,
                _ => false,
            },
            Glyph::RBracket => match other {
                Token::Func(Function::BinaryOp(_)) => true,
                Token::Glyph(Glyph::Comma) => true,
                Token::Glyph(Glyph::RBracket) => true,
                Token::End => true,
                _ => false,
            },
        }
    }
}

/// How many glyphs `g` the sequence holds.
pub open spec fn glyph_count(ts: Seq<TokenModel>, g: Glyph) -> int
    decreases ts.len(),
{
    if ts.len() == 0 {
        0
    } else {
        glyph_count(ts.drop_last(), g) + (if ts.last() == TokenModel::Glyph(g) {
            1int
        } else {
            0int
        })
    }
}

/// Whether opening and closing parentheses are equally many.
pub open spec fn bracket_balanced(ts: Seq<TokenModel>) -> bool {
    glyph_count(ts, Glyph::LBracket) == glyph_count(ts, Glyph::RBracket)
}

/// The pairwise walk of the validator from window `i` on: the first
/// adjacency violation is an `OrderError`, and an `Assign` anywhere but at
/// token index 2 is an `IncorrectAssign`.
pub open spec fn check_pairs(ts: Seq<TokenModel>, i: int) -> Result<(), ParserErrorModel>
    decreases ts.len() - i
        when 0 <= i
{
    if i + 1 >= ts.len() {
        Ok(())
    } else if !spec_can_precede(ts[i], ts[i + 1]) {
        Err(ParserErrorModel::OrderError(ts[i], ts[i + 1]))
    } else if ts[i] == TokenModel::Func(FunctionModel::Assign) && i != 2 {
        Err(ParserErrorModel::IncorrectAssign)
    } else {
        check_pairs(ts, i + 1)
    }
}

/// What `validate` returns: the bracket balance is checked over the whole
/// sequence first, then every adjacent pair in order.
pub open spec fn spec_validate(ts: Seq<TokenModel>) -> Result<(), ParserErrorModel> {
    if !bracket_balanced(ts) {
        Err(ParserErrorModel::UnevenBrackets)
    } else {
        check_pairs(ts, 0)
    }
}

/// The model of a validation result.
pub open spec fn validate_result_model(r: Result<(), ParserError>) -> Result<
    (),
    ParserErrorModel,
> {
    match r {
        Ok(u) => Ok(u),
        Err(e) => Err(e@),
    }
}

/// Law: a sequence whose bracket counts differ is rejected with
/// `UnevenBrackets`, whatever else it holds.
pub proof fn lemma_unbalanced_always_rejected(ts: Seq<TokenModel>)
    requires
        !bracket_balanced(ts),
    ensures
        spec_validate(ts) == Err::<(), ParserErrorModel>(ParserErrorModel::UnevenBrackets),
{
}

fn validate_brackets(tokens: &Vec<Token>) -> (r: Result<(), ParserError>)
    ensures
        r is Ok <==> bracket_balanced(models_of(tokens@)),
        r is Err ==> (r matches Err(e) && e@ == ParserErrorModel::UnevenBrackets),
{
    let ghost ts = models_of(tokens@);
    let mut l_bracket_count: usize = 0;
    let mut r_bracket_count: usize = 0;
    let mut i: usize = 0;
    proof {
        assert(ts.take(0) =~= Seq::<TokenModel>::empty());
    }
    while i < tokens.len()
        invariant
            ts == models_of(tokens@),
            0 <= i <= tokens.len(),
            ts.len() == tokens.len(),
            l_bracket_count <= i,
            r_bracket_count <= i,
            l_bracket_count == glyph_count(ts.take(i as int), Glyph::LBracket),
            r_bracket_count == glyph_count(ts.take(i as int), Glyph::RBracket),
        decreases tokens.len() - i,
    {
        match &tokens[i] {
            Token::Glyph(Glyph::LBracket) => {
                l_bracket_count = l_bracket_count + 1;
            },
            Token::Glyph(Glyph::RBracket) => {
                r_bracket_count = r_bracket_count + 1;
            },
            _ => {},
        }
        proof {
            assert(ts.take(i + 1).drop_last() =~= ts.take(i as int));
            assert(ts.take(i + 1).last() == ts[i as int]);
        }
        i = i + 1;
    }
    proof {
        assert(ts.take(tokens.len() as int) =~= ts);
    }
    if l_bracket_count == r_bracket_count {
        Ok(())
    } else {
        Err(ParserError::UnevenBrackets)
    }
}

fn is_assign(t: &Token) -> (r: bool)
    ensures
        r == (t@ == TokenModel::Func(FunctionModel::Assign)),
{
    match t {
        Token::Func(Function::Assign) => true,
        _ => false,
    }
}

/// Checks a token sequence against the grammar: balanced brackets, the
/// adjacency table over every consecutive pair, and assignment only at the
/// fixed structural position.
pub fn validate(tokens: &Vec<Token>) -> (r: Result<(), ParserError>)
    ensures
        validate_result_model(r) == spec_validate(models_of(tokens@)),
{
    let ghost ts = models_of(tokens@);
    if let Err(e) = validate_brackets(tokens) {
        return Err(e);
    }
    let mut count: usize = 0;
    while tokens.len() >= 1 && count < tokens.len() - 1
        invariant
            ts == models_of(tokens@),
            ts.len() == tokens.len(),
            count <= tokens.len(),
            bracket_balanced(ts),
            check_pairs(ts, 0) == check_pairs(ts, count as int),
        decreases tokens.len() - count,
    {
        let a = &tokens[count];
        let b = &tokens[count + 1];
        if !a.can_precede(b) {
            return Err(ParserError::OrderError(a.clone(), b.clone()));
        }
        if is_assign(a) && count != 2 {
            return Err(ParserError::IncorrectAssign);
        }
        count = count + 1;
    }
    Ok(())
}

/// One flush of the operator stack: operations whose precedence is strictly
/// greater than `p` are popped to the output; an empty stack, a glyph, or an
/// operation binding no tighter than `p` stops the flush.
pub open spec fn sy_flush_greater(out: Seq<TokenModel>, ops: Seq<TokenModel>, p: int) -> (
    Seq<TokenModel>,
    Seq<TokenModel>,
)
    decreases ops.len(),
{
    if ops.len() == 0 {
        (out, ops)
    } else {
        match ops.last() {
            TokenModel::Func(f) => {
                if spec_presedence(f) <= p {
                    (out, ops)
                } else {
                    sy_flush_greater(out.push(ops.last()), ops.drop_last(), p)
                }
            },
            _ => (out, ops),
        }
    }
}

/// Pops stack entries to the output until an opening parenthesis is found;
/// that parenthesis is discarded. An empty stack ends the search.
pub open spec fn sy_until_lbracket(out: Seq<TokenModel>, ops: Seq<TokenModel>) -> (
    Seq<TokenModel>,
    Seq<TokenModel>,
)
    decreases ops.len(),
{
    if ops.len() == 0 {
        (out, ops)
    } else if ops.last() == TokenModel::Glyph(Glyph::LBracket) {
        (out, ops.drop_last())
    } else {
        sy_until_lbracket(out.push(ops.last()), ops.drop_last())
    }
}

/// Pops operations to the output while the stack's top is an operation; the
/// first glyph stops the flush.
pub open spec fn sy_flush_funcs(out: Seq<TokenModel>, ops: Seq<TokenModel>) -> (
    Seq<TokenModel>,
    Seq<TokenModel>,
)
    decreases ops.len(),
{
    if ops.len() == 0 {
        (out, ops)
    } else {
        match ops.last() {
            TokenModel::Func(_) => sy_flush_funcs(out.push(ops.last()), ops.drop_last()),
            _ => (out, ops),
        }
    }
}

/// One step of the conversion: how a token transforms the output list and
/// the operator stack.
pub open spec fn sy_step(out: Seq<TokenModel>, ops: Seq<TokenModel>, t: TokenModel) -> (
    Seq<TokenModel>,
    Seq<TokenModel>,
) {
    match t {
        TokenModel::Val(_) => (out.push(t), ops),
        TokenModel::Func(FunctionModel::NamedFunc(_)) => (out, ops.push(t)),
        TokenModel::Func(f) => {
            let flushed = sy_flush_greater(out, ops, spec_presedence(f));
            (flushed.0, flushed.1.push(t))
        },
        TokenModel::Glyph(Glyph::LBracket) => (out, ops.push(t)),
        TokenModel::Glyph(Glyph::RBracket) => sy_until_lbracket(out, ops),
        TokenModel::Glyph(Glyph::Comma) => sy_flush_funcs(out, ops),
        TokenModel::Start => (out, ops),
        TokenModel::End => (out, ops),
    }
}

/// The conversion run over a token sequence, left to right.
pub open spec fn sy_run(ts: Seq<TokenModel>, out: Seq<TokenModel>, ops: Seq<TokenModel>) -> (
    Seq<TokenModel>,
    Seq<TokenModel>,
)
    decreases ts.len(),
{
    if ts.len() == 0 {
        (out, ops)
    } else {
        let stepped = sy_step(out, ops, ts[0]);
        sy_run(ts.drop_first(), stepped.0, stepped.1)
    }
}

/// What `shunting_yard` returns: the output of the run, followed by the
/// remaining operator stack drained top first.
pub open spec fn spec_shunting_yard(ts: Seq<TokenModel>) -> Seq<TokenModel> {
    let run = sy_run(ts, Seq::empty(), Seq::empty());
    run.0 + run.1.reverse()
}

proof fn lemma_sy_run_snoc(ts: Seq<TokenModel>, t: TokenModel, out: Seq<TokenModel>, ops: Seq<
    TokenModel,
>)
    ensures
        sy_run(ts.push(t), out, ops) == ({
            let run = sy_run(ts, out, ops);
            sy_step(run.0, run.1, t)
        }),
    decreases ts.len(),
{
    if ts.len() == 0 {
        let s1 = sy_step(out, ops, t);
        assert(ts.push(t)[0] == t);
        assert(ts.push(t).drop_first() =~= ts);
        assert(sy_run(ts.push(t), out, ops) == sy_run(ts, s1.0, s1.1));
        assert(sy_run(ts, s1.0, s1.1) == s1);
        assert(sy_run(ts, out, ops) == (out, ops));
    } else {
        assert(ts.push(t)[0] == ts[0]);
        assert(ts.push(t).drop_first() =~= ts.drop_first().push(t));
        let s0 = sy_step(out, ops, ts[0]);
        assert(sy_run(ts.push(t), out, ops) == sy_run(ts.drop_first().push(t), s0.0, s0.1));
        lemma_sy_run_snoc(ts.drop_first(), t, s0.0, s0.1);
        assert(sy_run(ts, out, ops) == sy_run(ts.drop_first(), s0.0, s0.1));
    }
}

fn stack_top_outranks(operations: &Vec<Token>, p: i32) -> (r: bool)
    ensures
        r == ({
            let ops = models_of(operations@);
            ops.len() > 0 && (ops.last() matches TokenModel::Func(f) && spec_presedence(f)
                > p as int)
        }),
{
    if operations.len() == 0 {
        return false;
    }
    proof {
        lemma_models_index(operations@, operations@.len() - 1);
    }
    match &operations[operations.len() - 1] {
        Token::Func(prev_function) => prev_function.presedence() > p,
        _ => false,
    }
}

fn stack_top_is_func(operations: &Vec<Token>) -> (r: bool)
    ensures
        r == ({
            let ops = models_of(operations@);
            ops.len() > 0 && ops.last() matches TokenModel::Func(_)
        }),
{
    if operations.len() == 0 {
        return false;
    }
    proof {
        lemma_models_index(operations@, operations@.len() - 1);
    }
    match &operations[operations.len() - 1] {
        Token::Func(_) => true,
        _ => false,
    }
}

fn stack_top_is_lbracket(operations: &Vec<Token>) -> (r: bool)
    ensures
        operations@.len() > 0 ==> r == (models_of(operations@).last() == TokenModel::Glyph(
            Glyph::LBracket,
        )),
        operations@.len() == 0 ==> r == false,
{
    if operations.len() == 0 {
        return false;
    }
    proof {
        lemma_models_index(operations@, operations@.len() - 1);
    }
    match &operations[operations.len() - 1] {
        Token::Glyph(Glyph::LBracket) => true,
        _ => false,
    }
}

/// Converts a validated infix token sequence to postfix order. Values keep
/// their relative order, operators are reordered by precedence, parentheses
/// and argument separators are consumed, and the sentinels are dropped.
pub fn shunting_yard(tokens: Vec<Token>) -> (r: Vec<Token>)
    ensures
        models_of(r@) == spec_shunting_yard(models_of(tokens@)),
{
    let ghost ts = models_of(tokens@);
    let mut output: Vec<Token> = Vec::new();
    let mut operations: Vec<Token> = Vec::new();
    proof {
        assert(ts.take(0) =~= Seq::<TokenModel>::empty());
        assert(models_of(output@) =~= Seq::<TokenModel>::empty());
        assert(models_of(operations@) =~= Seq::<TokenModel>::empty());
    }
    let mut i: usize = 0;
    while i < tokens.len()
        invariant
            ts == models_of(tokens@),
            ts.len() == tokens.len(),
            i <= tokens.len(),
            models_of(output@) == sy_run(ts.take(i as int), Seq::empty(), Seq::empty()).0,
            models_of(operations@) == sy_run(ts.take(i as int), Seq::empty(), Seq::empty()).1,
        decreases tokens.len() - i,
    {
        let ghost out0 = models_of(output@);
        let ghost ops0 = models_of(operations@);
        let token = &tokens[i];
        let ghost tm = token@;
        match token {
            Token::Val(_) => {
                let ghost pre = output@;
                output.push(token.clone());
                proof {
                    assert(models_of(output@) =~= models_of(pre).push(tm));
                }
            },
            Token::Func(Function::NamedFunc(_)) => {
                let ghost pre = operations@;
                operations.push(token.clone());
                proof {
                    assert(models_of(operations@) =~= models_of(pre).push(tm));
                }
            },
            Token::Func(function) => {
                let p = function.presedence();
                let ghost pi = spec_presedence(function@);
                loop
                    invariant
                        p as int == pi,
                        models_of(output@).len() + models_of(operations@).len() == out0.len()
                            + ops0.len(),
                        sy_flush_greater(out0, ops0, pi) == sy_flush_greater(
                            models_of(output@),
                            models_of(operations@),
                            pi,
                        ),
                    ensures
                        models_of(output@) == sy_flush_greater(out0, ops0, pi).0,
                        models_of(operations@) == sy_flush_greater(out0, ops0, pi).1,
                    decreases operations@.len(),
                {
                    let flush_more = stack_top_outranks(&operations, p);
                    if !flush_more {
                        proof {
                            assert(sy_flush_greater(
                                models_of(output@),
                                models_of(operations@),
                                pi,
                            ) == (models_of(output@), models_of(operations@)));
                        }
                        break;
                    }
                    let ghost ops_pre = models_of(operations@);
                    let ghost out_pre = models_of(output@);
                    proof {
                        lemma_models_index(operations@, operations@.len() - 1);
                    }
                    let prev = operations.pop().unwrap();
                    proof {
                        assert(prev@ == ops_pre.last());
                    }
                    let ghost outv = output@;
                    output.push(prev);
                    proof {
                        assert(models_of(operations@) =~= ops_pre.drop_last());
                        assert(models_of(output@) =~= out_pre.push(ops_pre.last()));
                        assert(sy_flush_greater(out_pre, ops_pre, pi) == sy_flush_greater(
                            out_pre.push(ops_pre.last()),
                            ops_pre.drop_last(),
                            pi,
                        ));
                    }
                }
                let ghost pre = operations@;
                operations.push(token.clone());
                proof {
                    assert(models_of(operations@) =~= models_of(pre).push(tm));
                }
            },
            Token::Glyph(Glyph::LBracket) => {
                let ghost pre = operations@;
                operations.push(token.clone());
                proof {
                    assert(models_of(operations@) =~= models_of(pre).push(tm));
                }
            },
            Token::Glyph(Glyph::RBracket) => {
                loop
                    invariant_except_break
                        sy_until_lbracket(out0, ops0) == sy_until_lbracket(
                            models_of(output@),
                            models_of(operations@),
                        ),
                    ensures
                        models_of(output@) == sy_until_lbracket(out0, ops0).0,
                        models_of(operations@) == sy_until_lbracket(out0, ops0).1,
                    decreases operations@.len(),
                {
                    if operations.len() == 0 {
                        break;
                    }
                    let ghost ops_pre = models_of(operations@);
                    let ghost out_pre = models_of(output@);
                    proof {
                        lemma_models_index(operations@, operations@.len() - 1);
                    }
                    let is_lb = stack_top_is_lbracket(&operations);
                    if is_lb {
                        operations.pop();
                        proof {
                            assert(models_of(operations@) =~= ops_pre.drop_last());
                            assert(sy_until_lbracket(out_pre, ops_pre) == (
                                out_pre,
                                ops_pre.drop_last(),
                            ));
                        }
                        break;
                    }
                    let prev = operations.pop().unwrap();
                    proof {
                        assert(prev@ == ops_pre.last());
                    }
                    let ghost outv = output@;
                    output.push(prev);
                    proof {
                        assert(models_of(operations@) =~= ops_pre.drop_last());
                        assert(models_of(output@) =~= out_pre.push(ops_pre.last()));
                        assert(sy_until_lbracket(out_pre, ops_pre) == sy_until_lbracket(
                            out_pre.push(ops_pre.last()),
                            ops_pre.drop_last(),
                        ));
                    }
                }
            },
            Token::Glyph(Glyph::Comma) => {
                loop
                    invariant
                        sy_flush_funcs(out0, ops0) == sy_flush_funcs(
                            models_of(output@),
                            models_of(operations@),
                        ),
                    ensures
                        models_of(output@) == sy_flush_funcs(out0, ops0).0,
                        models_of(operations@) == sy_flush_funcs(out0, ops0).1,
                    decreases operations@.len(),
                {
                    let flush_more = stack_top_is_func(&operations);
                    if !flush_more {
                        proof {
                            assert(sy_flush_funcs(models_of(output@), models_of(operations@)) == (
                                models_of(output@),
                                models_of(operations@),
                            ));
                        }
                        break;
                    }
                    let ghost ops_pre = models_of(operations@);
                    let ghost out_pre = models_of(output@);
                    proof {
                        lemma_models_index(operations@, operations@.len() - 1);
                    }
                    let prev = operations.pop().unwrap();
                    proof {
                        assert(prev@ == ops_pre.last());
                    }
                    let ghost outv = output@;
                    output.push(prev);
                    proof {
                        assert(models_of(operations@) =~= ops_pre.drop_last());
                        assert(models_of(output@) =~= out_pre.push(ops_pre.last()));
                        assert(sy_flush_funcs(out_pre, ops_pre) == sy_flush_funcs(
                            out_pre.push(ops_pre.last()),
                            ops_pre.drop_last(),
                        ));
                    }
                }
            },
            Token::Start => {},
            Token::End => {},
        }
        proof {
            assert(ts.take(i + 1) =~= ts.take(i as int).push(ts[i as int]));
            lemma_sy_run_snoc(ts.take(i as int), ts[i as int], Seq::empty(), Seq::empty());
        }
        i = i + 1;
    }
    proof {
        assert(ts.take(tokens.len() as int) =~= ts);
    }
    let ghost out_f = models_of(output@);
    let ghost ops_f = models_of(operations@);
    proof {
        assert(models_of(operations@) =~= ops_f.take(operations@.len() as int));
        assert(ops_f.skip(operations@.len() as int).reverse() =~= Seq::<TokenModel>::empty());
        assert(models_of(output@) =~= out_f + ops_f.skip(operations@.len() as int).reverse());
    }
    while operations.len() > 0
        invariant
            models_of(operations@) == ops_f.take(operations@.len() as int),
            models_of(output@) == out_f + ops_f.skip(operations@.len() as int).reverse(),
            operations@.len() <= ops_f.len(),
        decreases operations@.len(),
    {
        let ghost n = operations@.len() as int;
        proof {
            lemma_models_index(operations@, n - 1);
        }
        let op = operations.pop().unwrap();
        proof {
            assert(op@ == ops_f[n - 1]);
        }
        let ghost outv = output@;
        output.push(op);
        proof {
            lemma_models_push(outv, op);
            assert(models_of(operations@) =~= ops_f.take(n - 1));
            assert(models_of(output@) =~= out_f + ops_f.skip(n - 1).reverse());
        }
    }
    proof {
        assert(ops_f.skip(0) =~= ops_f);
        assert(models_of(output@) == out_f + ops_f.reverse());
    }
    output
}

/// The multiset of `Val` tokens a sequence holds.
pub open spec fn val_multiset(ts: Seq<TokenModel>) -> Multiset<TokenModel>
    decreases ts.len(),
{
    if ts.len() == 0 {
        Multiset::empty()
    } else {
        let rest = val_multiset(ts.drop_last());
        if ts.last() matches TokenModel::Val(_) {
            rest.insert(ts.last())
        } else {
            rest
        }
    }
}

proof fn lemma_val_multiset_push(ts: Seq<TokenModel>, t: TokenModel)
    ensures
        val_multiset(ts.push(t)) == (if t matches TokenModel::Val(_) {
            val_multiset(ts).insert(t)
        } else {
            val_multiset(ts)
        }),
{
    assert(ts.push(t).drop_last() =~= ts);
    assert(ts.push(t).last() == t);
}

proof fn lemma_val_multiset_cons(ts: Seq<TokenModel>)
    requires
        ts.len() > 0,
    ensures
        val_multiset(ts) == (if ts[0] matches TokenModel::Val(_) {
            val_multiset(ts.drop_first()).insert(ts[0])
        } else {
            val_multiset(ts.drop_first())
        }),
    decreases ts.len(),
{
    if ts.len() == 1 {
        assert(ts.drop_last() =~= ts.drop_first());
        assert(ts.last() == ts[0]);
    } else {
        lemma_val_multiset_cons(ts.drop_last());
        assert(ts.drop_last().drop_first() =~= ts.drop_first().drop_last());
        assert(ts.drop_first().last() == ts.last());
        assert(ts.drop_last()[0] == ts[0]);
        if ts.last() matches TokenModel::Val(_) {
            if ts[0] matches TokenModel::Val(_) {
                assert(val_multiset(ts.drop_last().drop_first()).insert(ts[0]).insert(ts.last())
                    =~= val_multiset(ts.drop_first().drop_last()).insert(ts.last()).insert(ts[0]));
            }
        }
    }
}

proof fn lemma_val_multiset_concat(a: Seq<TokenModel>, b: Seq<TokenModel>)
    ensures
        val_multiset(a + b) == val_multiset(a).add(val_multiset(b)),
    decreases b.len(),
{
    if b.len() == 0 {
        assert(a + b =~= a);
        assert(val_multiset(a).add(Multiset::empty()) =~= val_multiset(a));
    } else {
        lemma_val_multiset_concat(a, b.drop_last());
        assert((a + b).drop_last() =~= a + b.drop_last());
        assert((a + b).last() == b.last());
        if b.last() matches TokenModel::Val(_) {
            assert(val_multiset(a).add(val_multiset(b.drop_last())).insert(b.last()) =~= val_multiset(
                a,
            ).add(val_multiset(b.drop_last()).insert(b.last())));
        }
    }
}

proof fn lemma_val_multiset_reverse(ts: Seq<TokenModel>)
    ensures
        val_multiset(ts.reverse()) == val_multiset(ts),
    decreases ts.len(),
{
    if ts.len() > 0 {
        lemma_val_multiset_reverse(ts.drop_first());
        assert(ts.reverse() =~= ts.drop_first().reverse().push(ts[0]));
        lemma_val_multiset_push(ts.drop_first().reverse(), ts[0]);
        lemma_val_multiset_cons(ts);
    }
}

proof fn lemma_flush_greater_vals(out: Seq<TokenModel>, ops: Seq<TokenModel>, p: int)
    ensures
        ({
            let r = sy_flush_greater(out, ops, p);
            val_multiset(r.0).add(val_multiset(r.1)) == val_multiset(out).add(val_multiset(ops))
        }),
    decreases ops.len(),
{
    if ops.len() > 0 {
        match ops.last() {
            TokenModel::Func(f) => {
                if spec_presedence(f) > p {
                    lemma_flush_greater_vals(out.push(ops.last()), ops.drop_last(), p);
                    lemma_val_multiset_push(out, ops.last());
                }
            },
            _ => {},
        }
    }
}

proof fn lemma_until_lbracket_vals(out: Seq<TokenModel>, ops: Seq<TokenModel>)
    ensures
        ({
            let r = sy_until_lbracket(out, ops);
            val_multiset(r.0).add(val_multiset(r.1)) == val_multiset(out).add(val_multiset(ops))
        }),
    decreases ops.len(),
{
    if ops.len() > 0 {
        if ops.last() == TokenModel::Glyph(Glyph::LBracket) {
        } else {
            lemma_until_lbracket_vals(out.push(ops.last()), ops.drop_last());
            lemma_val_multiset_push(out, ops.last());
            if ops.last() matches TokenModel::Val(_) {
                assert(val_multiset(out).insert(ops.last()).add(val_multiset(ops.drop_last()))
                    =~= val_multiset(out).add(val_multiset(ops.drop_last()).insert(ops.last())));
                assert(val_multiset(ops) == val_multiset(ops.drop_last()).insert(ops.last()));
            }
        }
    }
}

proof fn lemma_flush_funcs_vals(out: Seq<TokenModel>, ops: Seq<TokenModel>)
    ensures
        ({
            let r = sy_flush_funcs(out, ops);
            val_multiset(r.0).add(val_multiset(r.1)) == val_multiset(out).add(val_multiset(ops))
        }),
    decreases ops.len(),
{
    if ops.len() > 0 {
        match ops.last() {
            TokenModel::Func(_) => {
                lemma_flush_funcs_vals(out.push(ops.last()), ops.drop_last());
                lemma_val_multiset_push(out, ops.last());
            },
            _ => {},
        }
    }
}

proof fn lemma_sy_step_vals(out: Seq<TokenModel>, ops: Seq<TokenModel>, t: TokenModel)
    ensures
        ({
            let r = sy_step(out, ops, t);
            val_multiset(r.0).add(val_multiset(r.1)) == (if t matches TokenModel::Val(_) {
                val_multiset(out).add(val_multiset(ops)).insert(t)
            } else {
                val_multiset(out).add(val_multiset(ops))
            })
        }),
{
    match t {
        TokenModel::Val(_) => {
            lemma_val_multiset_push(out, t);
            assert(val_multiset(out).insert(t).add(val_multiset(ops)) =~= val_multiset(out).add(
                val_multiset(ops),
            ).insert(t));
        },
        TokenModel::Func(FunctionModel::NamedFunc(_)) => {
            lemma_val_multiset_push(ops, t);
        },
        TokenModel::Func(f) => {
            lemma_flush_greater_vals(out, ops, spec_presedence(f));
            lemma_val_multiset_push(sy_flush_greater(out, ops, spec_presedence(f)).1, t);
        },
        TokenModel::Glyph(Glyph::LBracket) => {
            lemma_val_multiset_push(ops, t);
        },
        TokenModel::Glyph(Glyph::RBracket) => {
            lemma_until_lbracket_vals(out, ops);
        },
        TokenModel::Glyph(Glyph::Comma) => {
            lemma_flush_funcs_vals(out, ops);
        },
        TokenModel::Start => {},
        TokenModel::End => {},
    }
}

proof fn lemma_sy_run_vals(ts: Seq<TokenModel>, out: Seq<TokenModel>, ops: Seq<TokenModel>)
    ensures
        ({
            let r = sy_run(ts, out, ops);
            val_multiset(r.0).add(val_multiset(r.1)) == val_multiset(out).add(val_multiset(ops)).add(
                val_multiset(ts),
            )
        }),
    decreases ts.len(),
{
    if ts.len() == 0 {
        assert(val_multiset(out).add(val_multiset(ops)).add(Multiset::empty()) =~= val_multiset(
            out,
        ).add(val_multiset(ops)));
    } else {
        let s = sy_step(out, ops, ts[0]);
        lemma_sy_step_vals(out, ops, ts[0]);
        lemma_sy_run_vals(ts.drop_first(), s.0, s.1);
        lemma_val_multiset_cons(ts);
        if ts[0] matches TokenModel::Val(_) {
            assert(val_multiset(out).add(val_multiset(ops)).insert(ts[0]).add(val_multiset(
                ts.drop_first(),
            )) =~= val_multiset(out).add(val_multiset(ops)).add(val_multiset(ts.drop_first()).insert(
                ts[0],
            )));
        }
    }
}

/// Law: the value tokens of the conversion's output are exactly the value
/// tokens of its input, as a multiset — none is created, dropped, or
/// duplicated, whatever the rest of the sequence holds.
pub proof fn lemma_shunting_yard_keeps_values(ts: Seq<TokenModel>)
    ensures
        val_multiset(spec_shunting_yard(ts)) == val_multiset(ts),
{
    let r = sy_run(ts, Seq::empty(), Seq::empty());
    lemma_sy_run_vals(ts, Seq::empty(), Seq::empty());
    lemma_val_multiset_concat(r.0, r.1.reverse());
    lemma_val_multiset_reverse(r.1);
    assert(Multiset::<TokenModel>::empty().add(Multiset::empty()).add(val_multiset(ts))
        =~= val_multiset(ts));
}

/// Whether a sequence holds no glyph token.
pub open spec fn glyph_free(ts: Seq<TokenModel>) -> bool {
    forall|i: int| 0 <= i < ts.len() ==> !(#[trigger] ts[i] matches TokenModel::Glyph(_))
}

/// The shape the operator stack keeps during the conversion: operations and
/// opening parentheses only.
pub open spec fn ops_shape(ops: Seq<TokenModel>) -> bool {
    forall|i: int|
        0 <= i < ops.len() ==> (#[trigger] ops[i] matches TokenModel::Func(_) || ops[i]
            == TokenModel::Glyph(Glyph::LBracket))
}

/// How many more opening than closing parentheses the sequence holds.
pub open spec fn bracket_depth(ts: Seq<TokenModel>) -> int {
    glyph_count(ts, Glyph::LBracket) - glyph_count(ts, Glyph::RBracket)
}

proof fn lemma_glyph_count_concat(a: Seq<TokenModel>, b: Seq<TokenModel>, g: Glyph)
    ensures
        glyph_count(a + b, g) == glyph_count(a, g) + glyph_count(b, g),
    decreases b.len(),
{
    if b.len() == 0 {
        assert(a + b =~= a);
    } else {
        lemma_glyph_count_concat(a, b.drop_last(), g);
        assert((a + b).drop_last() =~= a + b.drop_last());
        assert((a + b).last() == b.last());
    }
}

proof fn lemma_flush_greater_shape(out: Seq<TokenModel>, ops: Seq<TokenModel>, p: int)
    requires
        glyph_free(out),
        ops_shape(ops),
    ensures
        ({
            let r = sy_flush_greater(out, ops, p);
            glyph_free(r.0) && ops_shape(r.1) && glyph_count(r.1, Glyph::LBracket) == glyph_count(
                ops,
                Glyph::LBracket,
            )
        }),
    decreases ops.len(),
{
    if ops.len() > 0 {
        match ops.last() {
            TokenModel::Func(f) => {
                if spec_presedence(f) > p {
                    assert(glyph_free(out.push(ops.last())));
                    assert(ops_shape(ops.drop_last()));
                    lemma_flush_greater_shape(out.push(ops.last()), ops.drop_last(), p);
                }
            },
            _ => {},
        }
    }
}

proof fn lemma_flush_funcs_shape(out: Seq<TokenModel>, ops: Seq<TokenModel>)
    requires
        glyph_free(out),
        ops_shape(ops),
    ensures
        ({
            let r = sy_flush_funcs(out, ops);
            glyph_free(r.0) && ops_shape(r.1) && glyph_count(r.1, Glyph::LBracket) == glyph_count(
                ops,
                Glyph::LBracket,
            )
        }),
    decreases ops.len(),
{
    if ops.len() > 0 {
        match ops.last() {
            TokenModel::Func(_) => {
                assert(glyph_free(out.push(ops.last())));
                assert(ops_shape(ops.drop_last()));
                lemma_flush_funcs_shape(out.push(ops.last()), ops.drop_last());
            },
            _ => {},
        }
    }
}

proof fn lemma_until_lbracket_shape(out: Seq<TokenModel>, ops: Seq<TokenModel>)
    requires
        glyph_free(out),
        ops_shape(ops),
        glyph_count(ops, Glyph::LBracket) >= 1,
    ensures
        ({
            let r = sy_until_lbracket(out, ops);
            glyph_free(r.0) && ops_shape(r.1) && glyph_count(r.1, Glyph::LBracket) == glyph_count(
                ops,
                Glyph::LBracket,
            ) - 1
        }),
    decreases ops.len(),
{
    assert(ops.len() > 0);
    if ops.last() == TokenModel::Glyph(Glyph::LBracket) {
        assert(ops_shape(ops.drop_last()));
    } else {
        assert(ops.last() matches TokenModel::Func(_));
        assert(glyph_free(out.push(ops.last())));
        assert(ops_shape(ops.drop_last()));
        lemma_until_lbracket_shape(out.push(ops.last()), ops.drop_last());
    }
}

proof fn lemma_glyph_count_push(ops: Seq<TokenModel>, t: TokenModel, g: Glyph)
    ensures
        glyph_count(ops.push(t), g) == glyph_count(ops, g) + (if t == TokenModel::Glyph(g) {
            1int
        } else {
            0int
        }),
{
    assert(ops.push(t).drop_last() =~= ops);
    assert(ops.push(t).last() == t);
}

proof fn lemma_glyph_count_singleton(t: TokenModel, g: Glyph)
    ensures
        glyph_count(seq![t], g) == (if t == TokenModel::Glyph(g) {
            1int
        } else {
            0int
        }),
{
    assert(seq![t].drop_last() =~= Seq::<TokenModel>::empty());
    assert(glyph_count(Seq::<TokenModel>::empty(), g) == 0);
    assert(seq![t].last() == t);
}

proof fn lemma_sy_run_shape(ts: Seq<TokenModel>, out: Seq<TokenModel>, ops: Seq<TokenModel>)
    requires
        glyph_free(out),
        ops_shape(ops),
        forall|i: int|
            0 <= i <= ts.len() ==> glyph_count(ops, Glyph::LBracket) + bracket_depth(ts.take(i))
                >= 0,
    ensures
        ({
            let r = sy_run(ts, out, ops);
            glyph_free(r.0) && ops_shape(r.1) && glyph_count(r.1, Glyph::LBracket) == glyph_count(
                ops,
                Glyph::LBracket,
            ) + bracket_depth(ts)
        }),
    decreases ts.len(),
{
    assert(ts.take(ts.len() as int) =~= ts);
    if ts.len() == 0 {
        assert(bracket_depth(ts) == 0);
    } else {
        let t = ts[0];
        let s = sy_step(out, ops, t);
        let l0 = glyph_count(ops, Glyph::LBracket);
        assert(ts.take(1) =~= seq![t]);
        assert(seq![t].drop_last() =~= Seq::<TokenModel>::empty());
        let delta = bracket_depth(seq![t]);
        lemma_glyph_count_singleton(t, Glyph::LBracket);
        lemma_glyph_count_singleton(t, Glyph::RBracket);
        // The stack's bracket count after one step moves with the token.
        match t {
            TokenModel::Val(_) => {
                assert(glyph_free(s.0));
            },
            TokenModel::Func(FunctionModel::NamedFunc(_)) => {
                lemma_glyph_count_push(ops, t, Glyph::LBracket);
                assert(ops_shape(s.1));
            },
            TokenModel::Func(f) => {
                lemma_flush_greater_shape(out, ops, spec_presedence(f));
                lemma_glyph_count_push(sy_flush_greater(out, ops, spec_presedence(f)).1, t,
                    Glyph::LBracket);
                assert(ops_shape(s.1));
            },
            TokenModel::Glyph(Glyph::LBracket) => {
                lemma_glyph_count_push(ops, t, Glyph::LBracket);
                assert(ops_shape(s.1));
                assert(glyph_count(s.1, Glyph::LBracket) == l0 + 1);
            },
            TokenModel::Glyph(Glyph::RBracket) => {
                assert(l0 + bracket_depth(ts.take(1)) >= 0);
                assert(bracket_depth(ts.take(1)) == -1);
                lemma_until_lbracket_shape(out, ops);
            },
            TokenModel::Glyph(Glyph::Comma) => {
                lemma_flush_funcs_shape(out, ops);
            },
            TokenModel::Start => {},
            TokenModel::End => {},
        }
        assert(glyph_count(s.1, Glyph::LBracket) == l0 + delta);
        assert forall|i: int| 0 <= i <= ts.drop_first().len() implies glyph_count(
            s.1,
            Glyph::LBracket,
        ) + bracket_depth(ts.drop_first().take(i)) >= 0 by {
            assert(ts.take(i + 1) =~= seq![t] + ts.drop_first().take(i));
            lemma_glyph_count_concat(seq![t], ts.drop_first().take(i), Glyph::LBracket);
            lemma_glyph_count_concat(seq![t], ts.drop_first().take(i), Glyph::RBracket);
            assert(l0 + bracket_depth(ts.take(i + 1)) >= 0);
        }
        lemma_sy_run_shape(ts.drop_first(), s.0, s.1);
        assert(ts =~= seq![t] + ts.drop_first());
        lemma_glyph_count_concat(seq![t], ts.drop_first(), Glyph::LBracket);
        lemma_glyph_count_concat(seq![t], ts.drop_first(), Glyph::RBracket);
    }
}

/// Law: on input whose parentheses are properly nested — no prefix closes
/// more than it has opened, and the whole closes everything — the
/// conversion's output holds no glyph: parentheses and commas are consumed.
pub proof fn lemma_shunting_yard_drops_glyphs(ts: Seq<TokenModel>)
    requires
        bracket_depth(ts) == 0,
        forall|i: int| 0 <= i <= ts.len() ==> bracket_depth(ts.take(i)) >= 0,
    ensures
        glyph_free(spec_shunting_yard(ts)),
{
    let r = sy_run(ts, Seq::empty(), Seq::empty());
    lemma_sy_run_shape(ts, Seq::empty(), Seq::empty());
    assert(glyph_count(r.1, Glyph::LBracket) == 0);
    assert forall|i: int| 0 <= i < r.1.len() implies !(#[trigger] r.1[i]
        matches TokenModel::Glyph(_)) by {
        if r.1[i] == TokenModel::Glyph(Glyph::LBracket) {
            lemma_glyph_count_member(r.1, i);
        }
    }
    assert forall|i: int|
        0 <= i < spec_shunting_yard(ts).len() implies !(#[trigger] spec_shunting_yard(ts)[i]
        matches TokenModel::Glyph(_)) by {
        if i < r.0.len() {
            assert(spec_shunting_yard(ts)[i] == r.0[i]);
        } else {
            assert(spec_shunting_yard(ts)[i] == r.1.reverse()[i - r.0.len()]);
            assert(r.1.reverse()[i - r.0.len()] == r.1[r.1.len() - 1 - (i - r.0.len())]);
        }
    }
}

proof fn lemma_glyph_count_nonneg(ts: Seq<TokenModel>, g: Glyph)
    ensures
        glyph_count(ts, g) >= 0,
    decreases ts.len(),
{
    if ts.len() > 0 {
        lemma_glyph_count_nonneg(ts.drop_last(), g);
    }
}

proof fn lemma_glyph_count_member(ts: Seq<TokenModel>, i: int)
    requires
        0 <= i < ts.len(),
        ts[i] == TokenModel::Glyph(Glyph::LBracket),
    ensures
        glyph_count(ts, Glyph::LBracket) >= 1,
    decreases ts.len(),
{
    if i == ts.len() - 1 {
        lemma_glyph_count_nonneg(ts.drop_last(), Glyph::LBracket);
    } else {
        lemma_glyph_count_member(ts.drop_last(), i);
        lemma_glyph_count_nonneg(ts, Glyph::LBracket);
    }
}

proof fn lemma_sy_run_all_vals(ts: Seq<TokenModel>, out: Seq<TokenModel>, ops: Seq<TokenModel>)
    requires
        forall|i: int| 0 <= i < ts.len() ==> #[trigger] ts[i] matches TokenModel::Val(_),
    ensures
        sy_run(ts, out, ops) == (out + ts, ops),
    decreases ts.len(),
{
    if ts.len() == 0 {
        assert(out + ts =~= out);
    } else {
        lemma_sy_run_all_vals(ts.drop_first(), out.push(ts[0]), ops);
        assert(out.push(ts[0]) + ts.drop_first() =~= out + ts);
    }
}

/// Law: a sequence already in postfix shape — value tokens followed by at
/// most one trailing operation, with no glyphs and no sentinels — comes out
/// of the conversion unchanged.
pub proof fn lemma_shunting_yard_fixed_point(ts: Seq<TokenModel>)
    requires
        forall|i: int|
            0 <= i < ts.len() ==> ((#[trigger] ts[i] matches TokenModel::Val(_)) || (i == ts.len()
                - 1 && (ts[i] matches TokenModel::Func(_)))),
    ensures
        spec_shunting_yard(ts) == ts,
{
    if ts.len() == 0 {
        lemma_sy_run_all_vals(ts, Seq::empty(), Seq::empty());
        assert(Seq::<TokenModel>::empty() + ts =~= ts);
        assert(Seq::<TokenModel>::empty().reverse() =~= Seq::<TokenModel>::empty());
        assert(ts + Seq::<TokenModel>::empty() =~= ts);
    } else if ts.last() matches TokenModel::Val(_) {
        assert forall|i: int| 0 <= i < ts.len() implies #[trigger] ts[i]
            matches TokenModel::Val(_) by {}
        lemma_sy_run_all_vals(ts, Seq::empty(), Seq::empty());
        assert(Seq::<TokenModel>::empty() + ts =~= ts);
        assert(Seq::<TokenModel>::empty().reverse() =~= Seq::<TokenModel>::empty());
        assert(ts + Seq::<TokenModel>::empty() =~= ts);
    } else {
        let vals = ts.drop_last();
        let f = ts.last();
        assert(f matches TokenModel::Func(_));
        assert forall|i: int| 0 <= i < vals.len() implies #[trigger] vals[i]
            matches TokenModel::Val(_) by {}
        lemma_sy_run_all_vals(vals, Seq::empty(), Seq::empty());
        assert(ts =~= vals.push(f));
        lemma_sy_run_snoc(vals, f, Seq::empty(), Seq::empty());
        let r0 = sy_run(vals, Seq::empty(), Seq::empty());
        assert(r0 == (Seq::<TokenModel>::empty() + vals, Seq::<TokenModel>::empty()));
        let s = sy_step(r0.0, r0.1, f);
        assert(s.1 =~= Seq::<TokenModel>::empty().push(f));
        assert(s.0 == r0.0);
        assert(s.1.reverse() =~= s.1);
        assert(s.0 + s.1.reverse() =~= ts);
    }
}

} // verus!

