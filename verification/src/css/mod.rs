//! The stylesheet pipeline: from text to tokens to style rules.

use crate::css::lexer::{lex, token_stream};
use crate::css::parser::{
    declarations_of, rules_of, Declaration, SpecDeclaration, SpecRule, Stylesheet,
};
use crate::helper::{lift, Error, SpecErrorKind};
use vstd::prelude::*;

pub mod lexer;
pub mod parser;
pub mod printer;
pub mod writer;

verus! {

/// The rules of a stylesheet text: the rules of its token stream.
pub open spec fn stylesheet(text: Seq<char>) -> Result<Seq<SpecRule>, SpecErrorKind> {
    match token_stream(text) {
        Ok(tokens) => rules_of(tokens),
        Err(e) => Err(e),
    }
}

/// The declarations of a text such as the value of a `style` attribute:
/// the declarations of its token stream.
pub open spec fn declarations(text: Seq<char>) -> Result<Seq<SpecDeclaration>, SpecErrorKind> {
    match token_stream(text) {
        Ok(tokens) => Ok(declarations_of(tokens)),
        Err(e) => Err(e),
    }
}

/// Parses a stylesheet text into its rules.
pub fn parse_stylesheet(query: String) -> (res: Result<Stylesheet, Error>)
    ensures
        lift(res) == stylesheet(query@),
{
    let lexed = match lex(query) {
        Ok(tokens) => tokens,
        Err(e) => {
            return Err(e);
        },
    };
    crate::css::parser::parse_stylesheet(lexed)
}

/// Parses the declarations of a text. Fails only where the text cannot be
/// tokenized: a declaration that cannot be read is dropped.
pub fn parse_declarations(query: String) -> (res: Result<Vec<Declaration>, Error>)
    ensures
        lift(res) == declarations(query@),
{
    let lexed = match lex(query) {
        Ok(tokens) => tokens,
        Err(e) => {
            return Err(e);
        },
    };
    crate::css::parser::parse_declarations(lexed)
}

} // verus!
