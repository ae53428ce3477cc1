//! An integer calculator: text is split into tokens, tokens are parsed into an
//! expression tree, and the tree is evaluated.
//!
//! The three stages are [`lexer::tokenize`], [`parser::parse`] and
//! [`evaluator::evaluate`]; [`calculate`] runs them one after the other.

use vstd::prelude::*;

pub mod decimal;
pub mod evaluator;
pub mod lexer;
pub mod parser;
pub mod roundtrip;

use crate::evaluator::{evaluate, value_of, EvalError};
use crate::lexer::{tokenize, tokens_of, LexError};
use crate::parser::{parse, parse_of, Expr, ParseError};

verus! {

/// A failure of a calculation: the failure of the stage that did not succeed.
#[derive(Debug, Clone, Copy, PartialEq, Eq)]
pub enum Error {
    Lex(LexError),
    Parse(ParseError),
    Eval(EvalError),
}

impl Error {
    /// The message of the failure: that of the stage that failed.
    pub open spec fn message_text(self) -> Seq<char> {
        match self {
            Error::Lex(e) => e.message_text(),
            Error::Parse(e) => e.message_text(),
            Error::Eval(e) => e.message_text(),
        }
    }

    /// The message of the failure, for a person to read.
    pub fn message(&self) -> (text: String)
        ensures
            text@ == self.message_text(),
    {
        match self {
            Error::Lex(e) => e.message(),
            Error::Parse(e) => e.message(),
            Error::Eval(e) => e.message(),
        }
    }
}

/// The value of the tree `expr`, or the failure of the evaluator as the
/// failure of a calculation.
pub open spec fn evaluation(expr: Expr) -> Result<i64, Error> {
    match value_of(expr) {
        Ok(value) => Ok(value),
        Err(e) => Err(Error::Eval(e)),
    }
}

/// The value that the text `s` denotes, or the failure of the first stage
/// that does not succeed on it.
pub open spec fn calculation(s: Seq<char>) -> Result<i64, Error> {
    match tokens_of(s) {
        Ok(tokens) => match parse_of(tokens) {
            Ok(expr) => evaluation(expr),
            Err(e) => Err(Error::Parse(e)),
        },
        Err(e) => Err(Error::Lex(e)),
    }
}

/// Tokenizes `source`, parses the tokens and evaluates the tree.
pub fn calculate(source: &str) -> (r: Result<i64, Error>)
    ensures
        r == calculation(source@),
{
    let tokens = match tokenize(source) {
        Ok(tokens) => tokens,
        Err(e) => {
            return Err(Error::Lex(e));
        },
    };
    let expr = match parse(tokens) {
        Ok(expr) => expr,
        Err(e) => {
            return Err(Error::Parse(e));
        },
    };
    match evaluate(&expr) {
        Ok(value) => Ok(value),
        Err(e) => Err(Error::Eval(e)),
    }
}

} // verus!
