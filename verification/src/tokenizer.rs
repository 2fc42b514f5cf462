use vstd::prelude::*;

use crate::tokens::{BinaryOp, Function, FunctionModel, Glyph, Token, TokenModel, UnaryOp, Value,
    ValueModel};

verus! {

/// A failure of the lexer.
#[derive(Debug, PartialEq)]
pub enum TokenizerError {
    EmptyToken,
    IncorrectCharacter(String),
}

/// Mathematical model of a `TokenizerError`.
#[verifier::ext_equal]
pub enum TokenizerErrorModel {
    EmptyToken,
    IncorrectCharacter(Seq<char>),
}

impl View for TokenizerError {
    type V = TokenizerErrorModel;

    open spec fn view(&self) -> TokenizerErrorModel {
        match self {
            TokenizerError::EmptyToken => TokenizerErrorModel::EmptyToken,
            TokenizerError::IncorrectCharacter(s) => TokenizerErrorModel::IncorrectCharacter(s@),
        }
    }
}

/// The sequence of models of a token sequence.
pub open spec fn models_of(ts: Seq<Token>) -> Seq<TokenModel> {
    ts.map(|i: int, t: Token| t@)
}

/// Whether `char::is_numeric` holds of a character.
pub uninterp spec fn char_is_numeric(c: char) -> bool;

/// Whether `char::is_alphabetic` holds of a character.
pub uninterp spec fn char_is_alphabetic(c: char) -> bool;

/// Relies on `char::is_numeric`: the classification depends on the character
/// alone, and among ASCII characters exactly the digits `0` through `9` are
/// in the numeric categories.
#[verifier::external_body]
fn is_numeric_char(c: char) -> (r: bool)
    ensures
        r == char_is_numeric(c),
        (c as u32) < 128 ==> (r <==> ('0' as u32 <= c as u32 && c as u32 <= '9' as u32)),
{
    c.is_numeric()
}

/// Relies on `char::is_alphabetic`: the classification depends on the
/// character alone, and among ASCII characters exactly the letters `a`-`z`
/// and `A`-`Z` are alphabetic.
#[verifier::external_body]
fn is_alphabetic_char(c: char) -> (r: bool)
    ensures
        r == char_is_alphabetic(c),
        (c as u32) < 128 ==> (r <==> (('a' as u32 <= c as u32 && c as u32 <= 'z' as u32)
            || ('A' as u32 <= c as u32 && c as u32 <= 'Z' as u32))),
{
    c.is_alphabetic()
}

/// Relies on `String`'s `FromIterator` implementation: collecting characters
/// yields the string holding exactly those characters in order.
#[verifier::external_body]
fn string_from_chars(buf: &Vec<char>) -> (r: String)
    ensures
        r@ == buf@,
{
    buf.iter().collect()
}

/// The one-character string.
fn string_of_char(c: char) -> (r: String)
    ensures
        r@ == seq![c],
{
    let mut buf: Vec<char> = Vec::new();
    buf.push(c);
    proof {
        assert(buf@ =~= seq![c]);
    }
    string_from_chars(&buf)
}

/// Collects the characters of a string slice, in order.
fn chars_of(s: &str) -> (r: Vec<char>)
    ensures
        r@ == s@,
{
    broadcast use vstd::string::axiom_spec_iter;
    broadcast use vstd::string::next_postcondition;

    let mut out: Vec<char> = Vec::new();
    let mut it = s.chars();
    proof {
        assert(out@ + vstd::std_specs::iter::IteratorSpec::remaining(&it) =~= s@);
    }
    loop
        invariant
            vstd::std_specs::iter::IteratorSpec::obeys_prophetic_iter_laws(&it),
            vstd::std_specs::iter::IteratorSpec::decrease(&it) is Some,
            out@ + vstd::std_specs::iter::IteratorSpec::remaining(&it) == s@,
        ensures
            out@ == s@,
        decreases vstd::std_specs::iter::IteratorSpec::decrease(&it).unwrap(),
    {
        let ghost rem0 = vstd::std_specs::iter::IteratorSpec::remaining(&it);
        match it.next() {
            Some(c) => {
                out.push(c);
                proof {
                    assert(out@ + vstd::std_specs::iter::IteratorSpec::remaining(&it) =~= s@);
                }
            },
            None => {
                proof {
                    assert(out@ + vstd::std_specs::iter::IteratorSpec::remaining(&it) =~= out@);
                }
                break;
            },
        }
    }
    out
}

/// The character of `s` at position `i`, if `i` is in range.
pub open spec fn char_at(s: Seq<char>, i: int) -> Option<char> {
    if 0 <= i < s.len() {
        Some(s[i])
    } else {
        None
    }
}

/// A reader that exposes a three-character window (previous, current, next)
/// over a character sequence.
pub struct LexingReader {
    chars: Vec<char>,
    pos: usize,
}

impl LexingReader {
    #[verifier::type_invariant]
    spec fn wf(self) -> bool {
        self.pos <= self.chars@.len()
    }

    /// The character sequence being read.
    pub closed spec fn text(&self) -> Seq<char> {
        self.chars@
    }

    /// The index of the current character; the reader rests at the text's
    /// length once the input is exhausted.
    pub closed spec fn position(&self) -> int {
        self.pos as int
    }

    pub fn new(string: &str) -> (r: LexingReader)
        ensures
            r.text() == string@,
            r.position() == 0,
    {
        LexingReader { chars: chars_of(string), pos: 0 }
    }

    /// The character just before the current one, if any.
    pub fn prev_char(&self) -> (r: Option<char>)
        ensures
            r == char_at(self.text(), self.position() - 1),
    {
        proof {
            use_type_invariant(&*self);
        }
        if self.pos >= 1 {
            Some(self.chars[self.pos - 1])
        } else {
            None
        }
    }

    /// The current character, or `None` once the input is exhausted.
    pub fn current_char(&self) -> (r: Option<char>)
        ensures
            r == char_at(self.text(), self.position()),
    {
        if self.pos < self.chars.len() {
            Some(self.chars[self.pos])
        } else {
            None
        }
    }

    /// The character just after the current one, if any.
    pub fn next_char(&self) -> (r: Option<char>)
        ensures
            r == char_at(self.text(), self.position() + 1),
    {
        if self.pos < self.chars.len() && self.chars.len() - self.pos > 1 {
            Some(self.chars[self.pos + 1])
        } else {
            None
        }
    }

    /// Moves the window one character forward; at the end of the input the
    /// reader stays put.
    pub fn advance(&mut self)
        ensures
            final(self).text() == old(self).text(),
            final(self).position() == if old(self).position() < old(self).text().len() {
                old(self).position() + 1
            } else {
                old(self).position()
            },
    {
        if self.pos < self.chars.len() {
            self.pos = self.pos + 1;
        }
    }

    /// Whether the whole input has been consumed.
    pub fn finished(&self) -> (r: bool)
        ensures
            r == (self.position() >= self.text().len()),
    {
        self.pos >= self.chars.len()
    }
}

/// The characters that lex as a single symbol token.
pub open spec fn is_symbol_char(c: char) -> bool {
    c == '+' || c == '-' || c == '*' || c == '/' || c == '^' || c == '(' || c == ')' || c == ','
        || c == '='
}

/// Whether a `-` read after `prev` denotes unary negation: it does at the
/// very start of the input and right after another operator symbol or a
/// comma.
pub open spec fn is_unary_context(prev: Option<char>) -> bool {
    match prev {
        None => true,
        Some(p) => p == '+' || p == '-' || p == '*' || p == '/' || p == '^' || p == ',',
    }
}

/// The token a symbol character lexes to, given the raw character that
/// precedes it (which decides between unary and binary minus).
pub open spec fn symbol_token(c: char, prev: Option<char>) -> TokenModel {
    if c == '+' {
        TokenModel::Func(FunctionModel::BinaryOp(BinaryOp::Add))
    } else if c == '-' {
        if is_unary_context(prev) {
            TokenModel::Func(FunctionModel::UnaryOp(UnaryOp::Neg))
        } else {
            TokenModel::Func(FunctionModel::BinaryOp(BinaryOp::Sub))
        }
    } else if c == '*' {
        TokenModel::Func(FunctionModel::BinaryOp(BinaryOp::Mul))
    } else if c == '/' {
        TokenModel::Func(FunctionModel::BinaryOp(BinaryOp::Div))
    } else if c == '^' {
        TokenModel::Func(FunctionModel::BinaryOp(BinaryOp::Pow))
    } else if c == '(' {
        TokenModel::Glyph(Glyph::LBracket)
    } else if c == ')' {
        TokenModel::Glyph(Glyph::RBracket)
    } else if c == ',' {
        TokenModel::Glyph(Glyph::Comma)
    } else {
        TokenModel::Func(FunctionModel::Assign)
    }
}

/// Where a numeral that starts at `i` ends: the scan takes numeric
/// characters and at most one decimal point, and stops just before a second
/// decimal point or any other character.
pub open spec fn scan_number(s: Seq<char>, i: int, has_dot: bool) -> int
    decreases s.len() - i
        when 0 <= i <= s.len()
{
    if i >= s.len() {
        i
    } else if char_is_numeric(s[i]) {
        scan_number(s, i + 1, has_dot)
    } else if s[i] == '.' {
        if has_dot {
            i
        } else {
            scan_number(s, i + 1, true)
        }
    } else {
        i
    }
}

pub proof fn lemma_scan_number_range(s: Seq<char>, i: int, has_dot: bool)
    requires
        0 <= i <= s.len(),
    ensures
        i <= scan_number(s, i, has_dot) <= s.len(),
    decreases s.len() - i,
{
    if i < s.len() {
        if char_is_numeric(s[i]) {
            lemma_scan_number_range(s, i + 1, has_dot);
        } else if s[i] == '.' && !has_dot {
            lemma_scan_number_range(s, i + 1, true);
        }
    }
}

/// Where an identifier that starts at `i` ends: the scan takes alphabetic
/// characters.
pub open spec fn scan_ident(s: Seq<char>, i: int) -> int
    decreases s.len() - i
        when 0 <= i <= s.len()
{
    if i >= s.len() {
        i
    } else if char_is_alphabetic(s[i]) {
        scan_ident(s, i + 1)
    } else {
        i
    }
}

pub proof fn lemma_scan_ident_range(s: Seq<char>, i: int)
    requires
        0 <= i <= s.len(),
    ensures
        i <= scan_ident(s, i) <= s.len(),
    decreases s.len() - i,
{
    if i < s.len() && char_is_alphabetic(s[i]) {
        lemma_scan_ident_range(s, i + 1);
    }
}

/// The token an identifier run lexes to: a named function call when the run
/// stops right at an opening parenthesis, otherwise a variable.
pub open spec fn ident_token(s: Seq<char>, i: int) -> TokenModel {
    let end = scan_ident(s, i);
    let name = s.subrange(i, end);
    if end < s.len() && s[end] == '(' {
        TokenModel::Func(FunctionModel::NamedFunc(name))
    } else {
        TokenModel::Val(ValueModel::Var(name))
    }
}

/// The body tokens (no sentinels) that lexing produces from position `i` on.
pub open spec fn spec_lex(s: Seq<char>, i: int) -> Result<Seq<TokenModel>, TokenizerErrorModel>
    decreases s.len() - i
        when 0 <= i <= s.len()
{
    if i >= s.len() {
        Ok(Seq::empty())
    } else {
        let c = s[i];
        if is_symbol_char(c) {
            match spec_lex(s, i + 1) {
                Ok(rest) => Ok(seq![symbol_token(c, char_at(s, i - 1))] + rest),
                Err(e) => Err(e),
            }
        } else if char_is_numeric(c) {
            let end = scan_number(s, i, false);
            proof {
                lemma_scan_number_range(s, i + 1, false);
            }
            match spec_lex(s, end) {
                Ok(rest) => Ok(seq![TokenModel::Val(ValueModel::Scalar(s.subrange(i, end)))]
                    + rest),
                Err(e) => Err(e),
            }
        } else if char_is_alphabetic(c) {
            let end = scan_ident(s, i);
            proof {
                lemma_scan_ident_range(s, i + 1);
            }
            match spec_lex(s, end) {
                Ok(rest) => Ok(seq![ident_token(s, i)] + rest),
                Err(e) => Err(e),
            }
        } else if c == ' ' {
            spec_lex(s, i + 1)
        } else {
            Err(TokenizerErrorModel::IncorrectCharacter(seq![c]))
        }
    }
}

/// What `tokenize` returns on an input text: the lexed body bracketed by the
/// `Start` and `End` sentinels, or the first lexing failure.
pub open spec fn spec_tokenize(s: Seq<char>) -> Result<Seq<TokenModel>, TokenizerErrorModel> {
    match spec_lex(s, 0) {
        Ok(body) => Ok(seq![TokenModel::Start] + body + seq![TokenModel::End]),
        Err(e) => Err(e),
    }
}

/// The model of a lexing result.
pub open spec fn tokenize_result_model(r: Result<Vec<Token>, TokenizerError>) -> Result<
    Seq<TokenModel>,
    TokenizerErrorModel,
> {
    match r {
        Ok(v) => Ok(models_of(v@)),
        Err(e) => Err(e@),
    }
}

fn is_symbol(c: char) -> (r: bool)
    ensures
        r == is_symbol_char(c),
{
    c == '+' || c == '-' || c == '*' || c == '/' || c == '^' || c == '(' || c == ')' || c == ','
        || c == '='
}

/// Reads one symbol token and consumes its character; a character no symbol
/// maps to is reported as incorrect.
fn read_symbol_token(reader: &mut LexingReader) -> (r: Result<Token, TokenizerError>)
    requires
        0 <= old(reader).position() < old(reader).text().len(),
    ensures
        final(reader).text() == old(reader).text(),
        final(reader).position() == old(reader).position() + 1,
        ({
            let c = old(reader).text()[old(reader).position()];
            let prev = char_at(old(reader).text(), old(reader).position() - 1);
            if is_symbol_char(c) {
                r matches Ok(t) && t@ == symbol_token(c, prev)
            } else {
                r matches Err(e) && e@ == TokenizerErrorModel::IncorrectCharacter(seq![c])
            }
        }),
{
    let c = reader.current_char().unwrap();
    let result = if c == '+' {
        Ok(Token::Func(Function::BinaryOp(BinaryOp::Add)))
    } else if c == '-' {
        // The raw preceding character decides between unary and binary minus.
        match reader.prev_char() {
            None => Ok(Token::Func(Function::UnaryOp(UnaryOp::Neg))),
            Some(p) => {
                if p == '+' || p == '-' || p == '*' || p == '/' || p == '^' || p == ',' {
                    Ok(Token::Func(Function::UnaryOp(UnaryOp::Neg)))
                } else {
                    Ok(Token::Func(Function::BinaryOp(BinaryOp::Sub)))
                }
            },
        }
    } else if c == '*' {
        Ok(Token::Func(Function::BinaryOp(BinaryOp::Mul)))
    } else if c == '/' {
        Ok(Token::Func(Function::BinaryOp(BinaryOp::Div)))
    } else if c == '^' {
        Ok(Token::Func(Function::BinaryOp(BinaryOp::Pow)))
    } else if c == '(' {
        Ok(Token::Glyph(Glyph::LBracket))
    } else if c == ')' {
        Ok(Token::Glyph(Glyph::RBracket))
    } else if c == ',' {
        Ok(Token::Glyph(Glyph::Comma))
    } else if c == '=' {
        Ok(Token::Func(Function::Assign))
    } else {
        Err(TokenizerError::IncorrectCharacter(string_of_char(c)))
    };
    reader.advance();
    result
}

/// Reads a numeral: numeric characters with at most one decimal point. The
/// character that ends the run is not consumed; in particular a second
/// decimal point ends the numeral and is left for the next token.
fn read_number_token(reader: &mut LexingReader) -> (r: Token)
    requires
        0 <= old(reader).position() <= old(reader).text().len(),
    ensures
        final(reader).text() == old(reader).text(),
        final(reader).position() == scan_number(old(reader).text(), old(reader).position(), false),
        r@ == TokenModel::Val(ValueModel::Scalar(old(reader).text().subrange(
            old(reader).position(),
            scan_number(old(reader).text(), old(reader).position(), false),
        ))),
{
    let ghost text = reader.text();
    let ghost start = reader.position();
    let ghost end = scan_number(text, start, false);
    let mut buffer: Vec<char> = Vec::new();
    let mut has_dot = false;
    proof {
        lemma_scan_number_range(text, start, false);
        assert(buffer@ =~= text.subrange(start, start));
    }
    loop
        invariant
            reader.text() == text,
            0 <= start <= reader.position() <= text.len(),
            buffer@ == text.subrange(start, reader.position()),
            scan_number(text, reader.position(), has_dot) == end,
            end <= text.len(),
        ensures
            reader.text() == text,
            reader.position() == end,
            buffer@ == text.subrange(start, end),
        decreases text.len() - reader.position(),
    {
        let ghost p = reader.position();
        let cur = reader.current_char();
        match cur {
            Some(c) => {
                if is_numeric_char(c) {
                    buffer.push(c);
                    reader.advance();
                    proof {
                        assert(c == text[p]);
                        assert(buffer@ =~= text.subrange(start, p + 1));
                    }
                } else if c == '.' {
                    if has_dot {
                        break;
                    } else {
                        buffer.push(c);
                        has_dot = true;
                        reader.advance();
                        proof {
                            assert(c == text[p]);
                            assert(buffer@ =~= text.subrange(start, p + 1));
                        }
                    }
                } else {
                    break;
                }
            },
            None => {
                break;
            },
        }
    }
    Token::Val(Value::Scalar(string_from_chars(&buffer)))
}

/// Reads an identifier run and resolves it at its boundary: a run that stops
/// right at `(` is a named function, anything else is a variable.
fn read_character_token(reader: &mut LexingReader) -> (r: Token)
    requires
        0 <= old(reader).position() <= old(reader).text().len(),
    ensures
        final(reader).text() == old(reader).text(),
        final(reader).position() == scan_ident(old(reader).text(), old(reader).position()),
        r@ == ident_token(old(reader).text(), old(reader).position()),
{
    let ghost text = reader.text();
    let ghost start = reader.position();
    let ghost end = scan_ident(text, start);
    let mut buffer: Vec<char> = Vec::new();
    proof {
        lemma_scan_ident_range(text, start);
        assert(buffer@ =~= text.subrange(start, start));
    }
    loop
        invariant
            reader.text() == text,
            0 <= start <= reader.position() <= text.len(),
            buffer@ == text.subrange(start, reader.position()),
            scan_ident(text, reader.position()) == end,
            end <= text.len(),
        ensures
            reader.text() == text,
            reader.position() == end,
            buffer@ == text.subrange(start, end),
        decreases text.len() - reader.position(),
    {
        let ghost p = reader.position();
        let cur = reader.current_char();
        match cur {
            Some(c) => {
                if is_alphabetic_char(c) {
                    buffer.push(c);
                    reader.advance();
                    proof {
                        assert(c == text[p]);
                        assert(buffer@ =~= text.subrange(start, p + 1));
                    }
                } else {
                    break;
                }
            },
            None => {
                break;
            },
        }
    }
    let name = string_from_chars(&buffer);
    match reader.current_char() {
        Some(c) => {
            if c == '(' {
                Token::Func(Function::NamedFunc(name))
            } else {
                Token::Val(Value::Var(name))
            }
        },
        None => Token::Val(Value::Var(name)),
    }
}

pub proof fn lemma_models_index(ts: Seq<Token>, i: int)
    requires
        0 <= i < ts.len(),
    ensures
        models_of(ts)[i] == ts[i]@,
{
}

pub proof fn lemma_models_push(ts: Seq<Token>, t: Token)
    ensures
        models_of(ts.push(t)) == models_of(ts).push(t@),
{
    assert(models_of(ts.push(t)) =~= models_of(ts).push(t@));
}

/// The loop invariant of `tokenize`: the body tokens emitted so far,
/// together with what lexing yields from the current position, make up what
/// lexing yields from the start.
pub open spec fn lex_inv(s: Seq<char>, done: Seq<TokenModel>, pos: int) -> bool {
    match spec_lex(s, pos) {
        Ok(rest) => spec_lex(s, 0) == Ok::<_, TokenizerErrorModel>(done + rest),
        Err(e) => spec_lex(s, 0) == Err::<Seq<TokenModel>, _>(e),
    }
}

proof fn lemma_lex_inv_step(s: Seq<char>, done: Seq<TokenModel>, pos: int, tm: TokenModel, pos2: int)
    requires
        lex_inv(s, done, pos),
        spec_lex(s, pos) == match spec_lex(s, pos2) {
            Ok(rest) => Ok::<_, TokenizerErrorModel>(seq![tm] + rest),
            Err(e) => Err::<Seq<TokenModel>, _>(e),
        },
    ensures
        lex_inv(s, done.push(tm), pos2),
{
    match spec_lex(s, pos2) {
        Ok(rest) => {
            assert(done + (seq![tm] + rest) =~= done.push(tm) + rest);
        },
        Err(e) => {},
    }
}

/// Turns an input line into its token sequence, bracketed by `Start` and
/// `End`, or reports the first character no token can absorb.
pub fn tokenize(s: &str) -> (r: Result<Vec<Token>, TokenizerError>)
    ensures
        tokenize_result_model(r) == spec_tokenize(s@),
{
    let mut reader = LexingReader::new(s);
    let mut tokens: Vec<Token> = Vec::new();
    tokens.push(Token::Start);
    proof {
        assert(models_of(tokens@) =~= seq![TokenModel::Start]);
        assert(models_of(tokens@).skip(1) =~= Seq::<TokenModel>::empty());
    }
    loop
        invariant
            reader.text() == s@,
            0 <= reader.position() <= s@.len(),
            models_of(tokens@).len() >= 1,
            models_of(tokens@)[0] == TokenModel::Start,
            lex_inv(s@, models_of(tokens@).skip(1), reader.position()),
        ensures
            spec_lex(s@, 0) == Ok::<_, TokenizerErrorModel>(models_of(tokens@).skip(1)),
            models_of(tokens@).len() >= 1,
            models_of(tokens@)[0] == TokenModel::Start,
        decreases s@.len() - reader.position(),
    {
        if reader.finished() {
            proof {
                assert(spec_lex(s@, reader.position()) == Ok::<_, TokenizerErrorModel>(
                    Seq::<TokenModel>::empty(),
                ));
                assert(models_of(tokens@).skip(1) + Seq::<TokenModel>::empty() =~= models_of(
                    tokens@,
                ).skip(1));
            }
            break;
        }
        let ghost pos0 = reader.position();
        let ghost done0 = models_of(tokens@).skip(1);
        let c = reader.current_char().unwrap();
        if is_symbol(c) {
            match read_symbol_token(&mut reader) {
                Ok(token) => {
                    let ghost pre = tokens@;
                    let ghost tm = token@;
                    tokens.push(token);
                    proof {
                        lemma_models_push(pre, token);
                        assert(models_of(tokens@).skip(1) =~= done0.push(tm));
                        lemma_lex_inv_step(s@, done0, pos0, tm, pos0 + 1);
                    }
                },
                Err(e) => {
                    // Unreachable: the current character is a symbol.
                    proof {
                        assert(false);
                    }
                    return Err(e);
                },
            }
        } else if is_numeric_char(c) {
            let token = read_number_token(&mut reader);
            let ghost pre = tokens@;
            let ghost tm = token@;
            tokens.push(token);
            proof {
                lemma_models_push(pre, token);
                assert(models_of(tokens@).skip(1) =~= done0.push(tm));
                let end = scan_number(s@, pos0, false);
                lemma_scan_number_range(s@, pos0 + 1, false);
                assert(scan_number(s@, pos0, false) == scan_number(s@, pos0 + 1, false));
                assert(spec_lex(s@, pos0) == match spec_lex(s@, end) {
                    Ok(rest) => Ok::<_, TokenizerErrorModel>(seq![tm] + rest),
                    Err(e) => Err::<Seq<TokenModel>, _>(e),
                });
                lemma_lex_inv_step(s@, done0, pos0, tm, end);
            }
        } else if is_alphabetic_char(c) {
            let token = read_character_token(&mut reader);
            let ghost pre = tokens@;
            let ghost tm = token@;
            tokens.push(token);
            proof {
                lemma_models_push(pre, token);
                assert(models_of(tokens@).skip(1) =~= done0.push(tm));
                let end = scan_ident(s@, pos0);
                lemma_scan_ident_range(s@, pos0 + 1);
                assert(scan_ident(s@, pos0) == scan_ident(s@, pos0 + 1));
                assert(spec_lex(s@, pos0) == match spec_lex(s@, end) {
                    Ok(rest) => Ok::<_, TokenizerErrorModel>(seq![tm] + rest),
                    Err(e) => Err::<Seq<TokenModel>, _>(e),
                });
                lemma_lex_inv_step(s@, done0, pos0, tm, end);
            }
        } else if c == ' ' {
            reader.advance();
        } else {
            proof {
                assert(spec_lex(s@, pos0) == Err::<Seq<TokenModel>, _>(
                    TokenizerErrorModel::IncorrectCharacter(seq![c]),
                ));
            }
            return Err(TokenizerError::IncorrectCharacter(string_of_char(c)));
        }
    }
    let ghost body = models_of(tokens@).skip(1);
    let ghost pre = tokens@;
    tokens.push(Token::End);
    proof {
        lemma_models_push(pre, Token::End);
        assert(models_of(pre) =~= seq![TokenModel::Start] + body);
        assert(models_of(tokens@) =~= seq![TokenModel::Start] + body + seq![TokenModel::End]);
    }
    Ok(tokens)
}

} // verus!
