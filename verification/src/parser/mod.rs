//! The parser: from tokens to an expression tree.
//!
//! The grammar has three rules, from the loosest binding to the tightest:
//!
//! ```text
//! expr   := term   ( ( '+' | '-' ) term   )*
//! term   := factor ( ( '*' | '/' ) factor )*
//! factor := NUMBER | '-' factor | '(' expr ')'
//! ```
//!
//! What each rule yields on a sequence of tokens is defined by [`expr_at`],
//! [`term_at`] and [`factor_at`], and for a whole sequence by [`parse_of`];
//! [`parse_expr`] and [`parse`] compute it over a [`TokenSource`].

use crate::decimal::{append_signed_decimal, signed_digits};
use crate::lexer::Token;
use vstd::prelude::*;

verus! {

/// An operator with one operand.
#[derive(Debug, Clone, Copy, PartialEq, Eq, Structural)]
pub enum UnaryOp {
    Neg,
}

/// An operator with two operands.
#[derive(Debug, Clone, Copy, PartialEq, Eq, Structural)]
pub enum BinaryOp {
    Add,
    Sub,
    Mul,
    Div,
}

/// An arithmetic expression. Each node owns its operands.
#[derive(Debug, PartialEq, Eq)]
pub enum Expr {
    Int(i64),
    Unary(UnaryOp, Box<Expr>),
    Binary(BinaryOp, Box<Expr>, Box<Expr>),
}

impl UnaryOp {
    /// The characters that stand for the operator.
    pub open spec fn symbol_chars(self) -> Seq<char> {
        match self {
            UnaryOp::Neg => seq!['-'],
        }
    }

    /// The text that stands for the operator.
    pub fn symbol(&self) -> (s: &'static str)
        ensures
            s@ == self.symbol_chars(),
    {
        proof {
            reveal_strlit("-");
        }
        let s = match self {
            UnaryOp::Neg => "-",
        };
        assert(s@ =~= self.symbol_chars());
        s
    }
}

impl BinaryOp {
    /// The character that stands for the operator.
    pub open spec fn symbol_char(self) -> char {
        match self {
            BinaryOp::Add => '+',
            BinaryOp::Sub => '-',
            BinaryOp::Mul => '*',
            BinaryOp::Div => '/',
        }
    }

    /// The text that stands for the operator.
    pub fn symbol(&self) -> (s: &'static str)
        ensures
            s@ == seq![self.symbol_char()],
    {
        proof {
            reveal_strlit("+");
            reveal_strlit("-");
            reveal_strlit("*");
            reveal_strlit("/");
        }
        let s = match self {
            BinaryOp::Add => "+",
            BinaryOp::Sub => "-",
            BinaryOp::Mul => "*",
            BinaryOp::Div => "/",
        };
        assert(s@ =~= seq![self.symbol_char()]);
        s
    }
}

/// The text of the tree `expr`, with brackets around every operation: a
/// number as its decimal notation, a negation as `-(operand)`, and an
/// operation on two operands as `(left op right)`.
pub open spec fn rendering(expr: Expr) -> Seq<char>
    decreases expr,
{
    match expr {
        Expr::Int(n) => signed_digits(n as int),
        Expr::Unary(op, operand) => op.symbol_chars() + seq!['('] + rendering(*operand) + seq![')'],
        Expr::Binary(op, lhs, rhs) => seq!['('] + rendering(*lhs) + seq![' ', op.symbol_char(), ' ']
            + rendering(*rhs) + seq![')'],
    }
}

impl Expr {
    /// The text of the tree, with brackets around every operation.
    pub fn render(&self) -> (text: String)
        ensures
            text@ == rendering(*self),
    {
        let mut text = String::new();
        self.render_into(&mut text);
        assert(text@ =~= rendering(*self));
        text
    }

    /// Appends the text of the tree to `out`.
    pub fn render_into(&self, out: &mut String)
        ensures
            final(out)@ == old(out)@ + rendering(*self),
        decreases *self,
    {
        proof {
            reveal_strlit("(");
            reveal_strlit(")");
            reveal_strlit(" ");
        }
        match self {
            Expr::Int(n) => {
                append_signed_decimal(out, *n);
            },
            Expr::Unary(op, operand) => {
                out.append(op.symbol());
                out.append("(");
                operand.render_into(out);
                out.append(")");
                assert(out@ =~= old(out)@ + rendering(*self));
            },
            Expr::Binary(op, lhs, rhs) => {
                out.append("(");
                lhs.render_into(out);
                out.append(" ");
                out.append(op.symbol());
                out.append(" ");
                rhs.render_into(out);
                out.append(")");
                assert(out@ =~= old(out)@ + rendering(*self));
            },
        }
    }
}

/// What the parser was looking for when it failed.
#[derive(Debug, Clone, Copy, PartialEq, Eq, Structural)]
pub enum Expected {
    /// The start of a factor: a number, `-` or `(`.
    Factor,
    /// This very token.
    Token(Token),
    /// Any token at all.
    AnyToken,
    /// The end of the tokens.
    End,
}

/// A failure of the parser: the tokens do not follow the grammar.
#[derive(Debug, Clone, Copy, PartialEq, Eq)]
pub struct ParseError {
    pub expected: Expected,
    /// The token that stands where `expected` should; `None` at the end of the tokens.
    pub found: Option<Token>,
    /// How many tokens precede that place.
    pub position: usize,
}

impl ParseError {
    /// The message of the failure: what was expected, and what stands there.
    pub open spec fn message_text(self) -> Seq<char> {
        let expected = match self.expected {
            Expected::Factor => "factor"@,
            Expected::Token(token) => token.description(),
            Expected::AnyToken => "a token"@,
            Expected::End => "end of input"@,
        };
        let found = match self.found {
            Some(token) => token.description(),
            None => "end of input"@,
        };
        "expected "@ + expected + ", found "@ + found
    }

    /// The message of the failure, for a person to read.
    pub fn message(&self) -> (text: String)
        ensures
            text@ == self.message_text(),
    {
        let mut text = String::new();
        text.append("expected ");
        match self.expected {
            Expected::Factor => text.append("factor"),
            Expected::Token(token) => token.describe_into(&mut text),
            Expected::AnyToken => text.append("a token"),
            Expected::End => text.append("end of input"),
        }
        text.append(", found ");
        match self.found {
            Some(token) => token.describe_into(&mut text),
            None => text.append("end of input"),
        }
        assert(text@ =~= self.message_text());
        text
    }
}

/// The token at position `pos`, if there is one.
pub open spec fn token_at(tokens: Seq<Token>, pos: nat) -> Option<Token> {
    if pos < tokens.len() {
        Some(tokens[pos as int])
    } else {
        None
    }
}

/// How many tokens stand at position `pos` and behind it.
pub open spec fn remaining(tokens: Seq<Token>, pos: nat) -> nat {
    if pos <= tokens.len() {
        (tokens.len() - pos) as nat
    } else {
        0
    }
}

/// The failure at position `pos`, where `expected` does not stand.
pub open spec fn parse_error_at(tokens: Seq<Token>, pos: nat, expected: Expected) -> ParseError {
    ParseError { expected, found: token_at(tokens, pos), position: pos as usize }
}

/// The operator of an `expr` that `token` denotes, if it denotes one.
pub open spec fn additive_op(token: Option<Token>) -> Option<BinaryOp> {
    match token {
        Some(Token::Plus) => Some(BinaryOp::Add),
        Some(Token::Minus) => Some(BinaryOp::Sub),
        _ => None,
    }
}

/// The operator of a `term` that `token` denotes, if it denotes one.
pub open spec fn multiplicative_op(token: Option<Token>) -> Option<BinaryOp> {
    match token {
        Some(Token::Mult) => Some(BinaryOp::Mul),
        Some(Token::Div) => Some(BinaryOp::Div),
        _ => None,
    }
}

/// The outcome `outcome` of a rule, with `by` more tokens counted as consumed.
pub open spec fn after(by: nat, outcome: Result<(Expr, nat), ParseError>) -> Result<
    (Expr, nat),
    ParseError,
> {
    match outcome {
        Ok((expr, consumed)) => Ok((expr, by + consumed)),
        Err(e) => Err(e),
    }
}

/// The rule `factor` at position `pos`: the tree and the number of tokens
/// that it consumed, or the failure.
pub open spec fn factor_at(tokens: Seq<Token>, pos: nat) -> Result<(Expr, nat), ParseError>
    decreases remaining(tokens, pos), 0nat,
{
    match token_at(tokens, pos) {
        Some(Token::Num { value }) => Ok((Expr::Int(value as i64), 1)),
        Some(Token::Minus) => match factor_at(tokens, pos + 1) {
            Ok((operand, consumed)) => Ok(
                (Expr::Unary(UnaryOp::Neg, Box::new(operand)), 1 + consumed),
            ),
            Err(e) => Err(e),
        },
        Some(Token::LBracket) => match expr_at(tokens, pos + 1) {
            Ok((inner, consumed)) => if token_at(tokens, pos + 1 + consumed) == Some(
                Token::RBracket,
            ) {
                Ok((inner, consumed + 2))
            } else {
                Err(parse_error_at(tokens, pos + 1 + consumed, Expected::Token(Token::RBracket)))
            },
            Err(e) => Err(e),
        },
        _ => Err(parse_error_at(tokens, pos, Expected::Factor)),
    }
}

/// What follows the first factor of a `term`: as long as `*` or `/` stands at
/// `pos`, one more factor is folded into `lhs`, which becomes the left operand.
pub open spec fn term_rest_at(tokens: Seq<Token>, pos: nat, lhs: Expr) -> Result<
    (Expr, nat),
    ParseError,
>
    decreases remaining(tokens, pos), 1nat,
{
    match multiplicative_op(token_at(tokens, pos)) {
        Some(op) => match factor_at(tokens, pos + 1) {
            Ok((rhs, consumed)) => after(
                1 + consumed,
                term_rest_at(
                    tokens,
                    pos + 1 + consumed,
                    Expr::Binary(op, Box::new(lhs), Box::new(rhs)),
                ),
            ),
            Err(e) => Err(e),
        },
        None => Ok((lhs, 0)),
    }
}

/// The rule `term` at position `pos`.
pub open spec fn term_at(tokens: Seq<Token>, pos: nat) -> Result<(Expr, nat), ParseError>
    decreases remaining(tokens, pos), 2nat,
{
    match factor_at(tokens, pos) {
        Ok((lhs, consumed)) => after(consumed, term_rest_at(tokens, pos + consumed, lhs)),
        Err(e) => Err(e),
    }
}

/// What follows the first term of an `expr`: as long as `+` or `-` stands at
/// `pos`, one more term is folded into `lhs`, which becomes the left operand.
pub open spec fn expr_rest_at(tokens: Seq<Token>, pos: nat, lhs: Expr) -> Result<
    (Expr, nat),
    ParseError,
>
    decreases remaining(tokens, pos), 3nat,
{
    match additive_op(token_at(tokens, pos)) {
        Some(op) => match term_at(tokens, pos + 1) {
            Ok((rhs, consumed)) => after(
                1 + consumed,
                expr_rest_at(
                    tokens,
                    pos + 1 + consumed,
                    Expr::Binary(op, Box::new(lhs), Box::new(rhs)),
                ),
            ),
            Err(e) => Err(e),
        },
        None => Ok((lhs, 0)),
    }
}

/// The rule `expr` at position `pos`.
pub open spec fn expr_at(tokens: Seq<Token>, pos: nat) -> Result<(Expr, nat), ParseError>
    decreases remaining(tokens, pos), 4nat,
{
    match term_at(tokens, pos) {
        Ok((lhs, consumed)) => after(consumed, expr_rest_at(tokens, pos + consumed, lhs)),
        Err(e) => Err(e),
    }
}

/// The tree of the whole sequence `tokens`: an `expr` that leaves no token
/// over, or the failure.
pub open spec fn parse_of(tokens: Seq<Token>) -> Result<Expr, ParseError> {
    match expr_at(tokens, 0) {
        Ok((expr, consumed)) => if consumed == tokens.len() {
            Ok(expr)
        } else {
            Err(parse_error_at(tokens, consumed, Expected::End))
        },
        Err(e) => Err(e),
    }
}

/// A cursor over a sequence of tokens: the tokens and how many of them have
/// been consumed.
pub struct TokenSource {
    tokens: Vec<Token>,
    pos: usize,
}

impl TokenSource {
    #[verifier::type_invariant]
    spec fn inv(&self) -> bool {
        self.pos <= self.tokens@.len() <= usize::MAX
    }

    /// All the tokens, consumed or not.
    pub closed spec fn tokens(&self) -> Seq<Token> {
        self.tokens@
    }

    /// How many tokens have been consumed.
    pub closed spec fn position(&self) -> nat {
        self.pos as nat
    }

    /// A cursor before the first of `tokens`.
    pub fn new(tokens: Vec<Token>) -> (source: TokenSource)
        ensures
            source.tokens() == tokens@,
            source.position() == 0,
    {
        assert(tokens@.len() == tokens.len());
        TokenSource { tokens, pos: 0 }
    }

    /// What `peek` returns: the next token, or the failure at the end of the
    /// tokens, where a token was expected.
    pub open spec fn peek_outcome(&self) -> Result<Token, ParseError> {
        match token_at(self.tokens(), self.position()) {
            Some(token) => Ok(token),
            None => Err(parse_error_at(self.tokens(), self.position(), Expected::AnyToken)),
        }
    }

    /// The next token, which stays unconsumed; at the end of the tokens, the
    /// failure that a token was expected there.
    pub fn peek(&self) -> (r: Result<Token, ParseError>)
        ensures
            r == self.peek_outcome(),
    {
        match self.expect_has_more() {
            Ok(()) => Ok(self.tokens[self.pos]),
            Err(e) => Err(e),
        }
    }

    /// Whether any token is left to consume.
    pub fn has_more(&self) -> (b: bool)
        ensures
            b == (self.position() < self.tokens().len()),
            self.position() <= self.tokens().len(),
    {
        proof {
            use_type_invariant(self);
        }
        self.pos < self.tokens.len()
    }

    /// Consumes the next token and returns it; at the end of the tokens
    /// nothing is consumed, and the failure is that a token was expected there.
    pub fn consume(&mut self) -> (r: Result<Token, ParseError>)
        ensures
            final(self).tokens() == old(self).tokens(),
            r == old(self).peek_outcome(),
            final(self).position() == old(self).position() + if r is Ok {
                1nat
            } else {
                0nat
            },
    {
        proof {
            use_type_invariant(&*self);
        }
        match self.peek() {
            Ok(token) => {
                self.pos += 1;
                Ok(token)
            },
            Err(e) => Err(e),
        }
    }

    /// Consumes the next token if it is `token`; where another token or none
    /// stands there, nothing is consumed, and the failure says that `token`
    /// was expected.
    pub fn expect(&mut self, token: Token) -> (r: Result<(), ParseError>)
        ensures
            final(self).tokens() == old(self).tokens(),
            r == if token_at(old(self).tokens(), old(self).position()) == Some(token) {
                Ok::<(), ParseError>(())
            } else {
                Err(parse_error_at(old(self).tokens(), old(self).position(), Expected::Token(token)))
            },
            final(self).position() == old(self).position() + if r is Ok {
                1nat
            } else {
                0nat
            },
    {
        proof {
            use_type_invariant(&*self);
        }
        if !self.has_more() {
            return Err(ParseError { expected: Expected::Token(token), found: None, position: self.pos });
        }
        let actual = self.tokens[self.pos];
        if actual != token {
            return Err(
                ParseError { expected: Expected::Token(token), found: Some(actual), position: self.pos },
            );
        }
        self.pos += 1;
        Ok(())
    }

    /// Fails at the end of the tokens, where a token was expected.
    fn expect_has_more(&self) -> (r: Result<(), ParseError>)
        ensures
            r == if self.pos < self.tokens@.len() {
                Ok::<(), ParseError>(())
            } else {
                Err(parse_error_at(self.tokens@, self.pos as nat, Expected::AnyToken))
            },
    {
        if !self.has_more() {
            return Err(ParseError { expected: Expected::AnyToken, found: None, position: self.pos });
        }
        Ok(())
    }
}

/// What a rule that yields `outcome` from position `start` leaves behind: on
/// success the tree, with the cursor behind the consumed tokens; on failure
/// the failure, with the cursor at its place.
pub open spec fn rule_applied(
    outcome: Result<(Expr, nat), ParseError>,
    start: nat,
    r: Result<Expr, ParseError>,
    end: nat,
) -> bool {
    match outcome {
        Ok((expr, consumed)) => r == Ok::<Expr, ParseError>(expr) && end == start + consumed,
        Err(e) => r == Err::<Expr, ParseError>(e) && end == e.position,
    }
}

/// Parses an `expr` from the cursor on: terms joined by `+` and `-`, grouped
/// from the left.
pub fn parse_expr(token_src: &mut TokenSource) -> (r: Result<Expr, ParseError>)
    ensures
        final(token_src).tokens() == old(token_src).tokens(),
        rule_applied(
            expr_at(old(token_src).tokens(), old(token_src).position()),
            old(token_src).position(),
            r,
            final(token_src).position(),
        ),
    decreases remaining(old(token_src).tokens(), old(token_src).position()), 4nat,
{
    let ghost tokens = token_src.tokens();
    let ghost start = token_src.position();
    let mut lhs = match parse_term(token_src) {
        Ok(term) => term,
        Err(e) => {
            return Err(e);
        },
    };
    loop
        invariant
            tokens == old(token_src).tokens(),
            start == old(token_src).position(),
            token_src.tokens() == tokens,
            token_src.position() >= start,
            expr_at(tokens, start) == after(
                (token_src.position() - start) as nat,
                expr_rest_at(tokens, token_src.position(), lhs),
            ),
        decreases remaining(tokens, token_src.position()),
    {
        let op = match token_src.peek() {
            Ok(Token::Plus) => BinaryOp::Add,
            Ok(Token::Minus) => BinaryOp::Sub,
            _ => {
                return Ok(lhs);
            },
        };
        let _ = token_src.consume();
        let rhs = match parse_term(token_src) {
            Ok(term) => term,
            Err(e) => {
                return Err(e);
            },
        };
        lhs = Expr::Binary(op, Box::new(lhs), Box::new(rhs));
    }
}

/// Parses a `term` from the cursor on: factors joined by `*` and `/`, grouped
/// from the left.
pub fn parse_term(token_src: &mut TokenSource) -> (r: Result<Expr, ParseError>)
    ensures
        final(token_src).tokens() == old(token_src).tokens(),
        rule_applied(
            term_at(old(token_src).tokens(), old(token_src).position()),
            old(token_src).position(),
            r,
            final(token_src).position(),
        ),
    decreases remaining(old(token_src).tokens(), old(token_src).position()), 2nat,
{
    let ghost tokens = token_src.tokens();
    let ghost start = token_src.position();
    let mut lhs = match parse_factor(token_src) {
        Ok(factor) => factor,
        Err(e) => {
            return Err(e);
        },
    };
    loop
        invariant
            tokens == old(token_src).tokens(),
            start == old(token_src).position(),
            token_src.tokens() == tokens,
            token_src.position() >= start,
            term_at(tokens, start) == after(
                (token_src.position() - start) as nat,
                term_rest_at(tokens, token_src.position(), lhs),
            ),
        decreases remaining(tokens, token_src.position()),
    {
        let op = match token_src.peek() {
            Ok(Token::Mult) => BinaryOp::Mul,
            Ok(Token::Div) => BinaryOp::Div,
            _ => {
                return Ok(lhs);
            },
        };
        let _ = token_src.consume();
        let rhs = match parse_factor(token_src) {
            Ok(factor) => factor,
            Err(e) => {
                return Err(e);
            },
        };
        lhs = Expr::Binary(op, Box::new(lhs), Box::new(rhs));
    }
}

/// Parses a `factor` from the cursor on: a number, a negated factor, or an
/// `expr` in brackets.
pub fn parse_factor(token_src: &mut TokenSource) -> (r: Result<Expr, ParseError>)
    ensures
        final(token_src).tokens() == old(token_src).tokens(),
        rule_applied(
            factor_at(old(token_src).tokens(), old(token_src).position()),
            old(token_src).position(),
            r,
            final(token_src).position(),
        ),
    decreases remaining(old(token_src).tokens(), old(token_src).position()), 0nat,
{
    match token_src.peek() {
        Ok(Token::LBracket) => {
            let _ = token_src.consume();
            let exp = match parse_expr(token_src) {
                Ok(inner) => inner,
                Err(e) => {
                    return Err(e);
                },
            };
            match token_src.expect(Token::RBracket) {
                Ok(()) => Ok(exp),
                Err(e) => Err(e),
            }
        },
        Ok(Token::Minus) => {
            let _ = token_src.consume();
            match parse_factor(token_src) {
                Ok(operand) => Ok(Expr::Unary(UnaryOp::Neg, Box::new(operand))),
                Err(e) => Err(e),
            }
        },
        Ok(Token::Num { value: n }) => {
            let _ = token_src.consume();
            Ok(Expr::Int(n as i64))
        },
        Ok(other) => Err(
            ParseError { expected: Expected::Factor, found: Some(other), position: token_src.pos },
        ),
        Err(e) => Err(ParseError { expected: Expected::Factor, found: None, position: e.position }),
    }
}

/// Parses the whole of `tokens` as one `expr`. Tokens left over behind the
/// `expr` are a failure, as is every failure within it.
pub fn parse(tokens: Vec<Token>) -> (r: Result<Expr, ParseError>)
    ensures
        r == parse_of(tokens@),
{
    let mut token_src = TokenSource::new(tokens);
    let expr = match parse_expr(&mut token_src) {
        Ok(expr) => expr,
        Err(e) => {
            return Err(e);
        },
    };
    proof {
        use_type_invariant(&token_src);
    }
    match token_src.peek() {
        Ok(token) => Err(
            ParseError { expected: Expected::End, found: Some(token), position: token_src.pos },
        ),
        Err(_) => Ok(expr),
    }
}

} // verus!
