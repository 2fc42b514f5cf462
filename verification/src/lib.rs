//! A small arithmetic-expression language processor: a lexer that turns a
//! line of text into tokens, a grammar validator over a token-adjacency
//! table, a shunting-yard converter from infix to postfix order, and a
//! stack-based evaluator against a mutable variable store. Numerals travel
//! through the pipeline as opaque text; the evaluator hands each arithmetic
//! step to its caller as a request and takes the result numeral back, so
//! every decision — lexing, grammar, operator order, stack discipline,
//! variable binding — is made, and proved, here.

pub mod context;
pub mod evaluator;
pub mod parser;
pub mod tokenizer;
pub mod tokens;
