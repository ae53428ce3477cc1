//! The text of a tree leads back to the tree: what [`Expr::render`] writes is
//! tokenized and parsed to the tree that was written, for every tree whose
//! numbers a token can hold, and so for every tree that the parser builds.

use crate::decimal::{
    decimal_digits, decimal_value, is_digit, lemma_decimal_digits_are_digits,
    lemma_decimal_round_trip,
};
use crate::lexer::{
    is_whitespace, lemma_digits_end_is, lemma_no_token_at_end, next_token_at, prepend_tokens,
    symbol_token, tokens_from, tokens_of, whitespace_end, LexError, Token,
};
use crate::parser::{
    additive_op, after, expr_at, expr_rest_at, factor_at, multiplicative_op, parse_of, remaining,
    rendering, term_at, term_rest_at, token_at, BinaryOp, Expr, ParseError, UnaryOp,
};
use crate::{calculation, evaluation};
use vstd::prelude::*;

verus! {

/// Whether every number in the tree `expr` is one that a token can hold.
pub open spec fn numbers_fit(expr: Expr) -> bool
    decreases expr,
{
    match expr {
        Expr::Int(n) => 0 <= n <= u32::MAX,
        Expr::Unary(_, operand) => numbers_fit(*operand),
        Expr::Binary(_, lhs, rhs) => numbers_fit(*lhs) && numbers_fit(*rhs),
    }
}

/// The token that stands for the operator `op`.
pub open spec fn binary_token(op: BinaryOp) -> Token {
    match op {
        BinaryOp::Add => Token::Plus,
        BinaryOp::Sub => Token::Minus,
        BinaryOp::Mul => Token::Mult,
        BinaryOp::Div => Token::Div,
    }
}

/// The tokens of the text of `expr`.
pub open spec fn rendered_tokens(expr: Expr) -> Seq<Token>
    decreases expr,
{
    match expr {
        Expr::Int(n) => seq![Token::Num { value: n as u32 }],
        Expr::Unary(op, operand) => seq![Token::Minus, Token::LBracket] + rendered_tokens(*operand)
            + seq![Token::RBracket],
        Expr::Binary(op, lhs, rhs) => seq![Token::LBracket] + rendered_tokens(*lhs) + seq![
            binary_token(op),
        ] + rendered_tokens(*rhs) + seq![Token::RBracket],
    }
}

/// Tokens put before a tokenized rest may be put there in two steps.
proof fn lemma_prepend_twice(a: Seq<Token>, b: Seq<Token>, rest: Result<Seq<Token>, LexError>)
    ensures
        prepend_tokens(a, prepend_tokens(b, rest)) == prepend_tokens(a + b, rest),
{
    if let Ok(more) = rest {
        assert(a + (b + more) =~= (a + b) + more);
    }
}

/// One of the six symbols is a token by itself.
proof fn lemma_lex_symbol(s: Seq<char>, pos: nat)
    requires
        pos < s.len(),
        symbol_token(s[pos as int]) is Some,
    ensures
        tokens_from(s, pos) == prepend_tokens(
            seq![symbol_token(s[pos as int])->0],
            tokens_from(s, pos + 1),
        ),
{
    assert(whitespace_end(s, pos) == pos);
}

/// Whitespace before a token changes nothing.
proof fn lemma_lex_space(s: Seq<char>, pos: nat)
    requires
        pos < s.len(),
        is_whitespace(s[pos as int]),
    ensures
        tokens_from(s, pos) == tokens_from(s, pos + 1),
{
    assert(whitespace_end(s, pos) == whitespace_end(s, pos + 1));
    assert(next_token_at(s, pos) == next_token_at(s, pos + 1));
}

/// The notation of a number that a token can hold, with no digit behind it,
/// is the token of that number.
proof fn lemma_lex_number(s: Seq<char>, pos: nat, n: nat, end: nat)
    requires
        n <= u32::MAX,
        end == pos + decimal_digits(n).len(),
        end <= s.len(),
        s.subrange(pos as int, end as int) == decimal_digits(n),
        end == s.len() || !is_digit(s[end as int]),
    ensures
        tokens_from(s, pos) == prepend_tokens(
            seq![Token::Num { value: n as u32 }],
            tokens_from(s, end),
        ),
{
    let digits = decimal_digits(n);
    lemma_decimal_digits_are_digits(n);
    lemma_decimal_round_trip(n);
    assert forall|i: int| pos <= i < end implies is_digit(#[trigger] s[i]) by {
        assert(s[i] == digits[i - pos]);
    }
    lemma_digits_end_is(s, pos, end);
    assert(is_digit(s[pos as int]));
    assert(whitespace_end(s, pos) == pos);
    assert(decimal_value(s.subrange(pos as int, end as int)) == n);
}

/// A part of a sequence that stands within `s` stands within `s` itself.
proof fn lemma_embedded<T>(s: Seq<T>, pos: int, part: Seq<T>, from: int, to: int)
    requires
        0 <= pos,
        pos + part.len() <= s.len(),
        s.subrange(pos, pos + part.len()) == part,
        0 <= from <= to <= part.len(),
    ensures
        s.subrange(pos + from, pos + to) == part.subrange(from, to),
        from < part.len() ==> s[pos + from] == part[from],
{
    let whole = s.subrange(pos, pos + part.len());
    assert(s.subrange(pos + from, pos + to) =~= whole.subrange(from, to));
    if from < part.len() {
        assert(whole[from] == s[pos + from]);
    }
}

/// Where the text of a negation stands in `s` from `pos` on, `-` and `(`
/// stand at `pos`, then the text of the operand, then `)`.
proof fn lemma_unary_placed(op: UnaryOp, operand: Expr, s: Seq<char>, pos: int)
    requires
        0 <= pos,
        pos + rendering(Expr::Unary(op, Box::new(operand))).len() <= s.len(),
        s.subrange(pos, pos + rendering(Expr::Unary(op, Box::new(operand))).len()) == rendering(
            Expr::Unary(op, Box::new(operand)),
        ),
    ensures
        ({
            let inner = rendering(operand);
            &&& rendering(Expr::Unary(op, Box::new(operand))).len() == inner.len() + 3
            &&& s[pos] == '-'
            &&& s[pos + 1] == '('
            &&& s.subrange(pos + 2, pos + 2 + inner.len()) == inner
            &&& s[pos + 2 + inner.len()] == ')'
        }),
{
    let text = rendering(Expr::Unary(op, Box::new(operand)));
    let inner = rendering(operand);
    let to = 2 + inner.len() as int;
    assert(text =~= seq!['-', '('] + inner + seq![')']);
    assert(text.subrange(2, to) =~= inner);
    lemma_embedded(s, pos, text, 0, 0);
    lemma_embedded(s, pos, text, 1, 1);
    lemma_embedded(s, pos, text, 2, to);
    lemma_embedded(s, pos, text, to, to);
}

/// Where the text of an operation on two operands stands in `s` from `pos`
/// on, `(` stands at `pos`, then the text of the left operand, the operator
/// between two spaces, the text of the right operand, and `)`.
proof fn lemma_binary_placed(op: BinaryOp, lhs: Expr, rhs: Expr, s: Seq<char>, pos: int)
    requires
        0 <= pos,
        pos + rendering(Expr::Binary(op, Box::new(lhs), Box::new(rhs))).len() <= s.len(),
        s.subrange(pos, pos + rendering(Expr::Binary(op, Box::new(lhs), Box::new(rhs))).len())
            == rendering(Expr::Binary(op, Box::new(lhs), Box::new(rhs))),
    ensures
        ({
            let left = rendering(lhs);
            let right = rendering(rhs);
            let mid = pos + 1 + left.len();
            &&& rendering(Expr::Binary(op, Box::new(lhs), Box::new(rhs))).len() == left.len()
                + right.len() + 5
            &&& s[pos] == '('
            &&& s.subrange(pos + 1, mid) == left
            &&& s[mid] == ' '
            &&& s[mid + 1] == op.symbol_char()
            &&& s[mid + 2] == ' '
            &&& s.subrange(mid + 3, mid + 3 + right.len()) == right
            &&& s[mid + 3 + right.len()] == ')'
        }),
{
    let text = rendering(Expr::Binary(op, Box::new(lhs), Box::new(rhs)));
    let left = rendering(lhs);
    let right = rendering(rhs);
    let mid = 1 + left.len() as int;
    let to = mid + 3 + right.len() as int;
    assert(text =~= seq!['('] + left + seq![' ', op.symbol_char(), ' '] + right + seq![')']);
    assert(text.subrange(1, mid) =~= left);
    assert(text.subrange(mid + 3, to) =~= right);
    lemma_embedded(s, pos, text, 0, 0);
    lemma_embedded(s, pos, text, 1, mid);
    lemma_embedded(s, pos, text, mid, mid);
    lemma_embedded(s, pos, text, mid + 1, mid + 1);
    lemma_embedded(s, pos, text, mid + 2, mid + 2);
    lemma_embedded(s, pos, text, mid + 3, to);
    lemma_embedded(s, pos, text, to, to);
}

/// A negation is tokenized to `-`, `(`, the tokens of its operand, and `)`.
proof fn lemma_lex_unary(s: Seq<char>, pos: nat, inner_tokens: Seq<Token>, to: nat)
    requires
        pos + 2 <= to < s.len(),
        s[pos as int] == '-',
        s[pos as int + 1] == '(',
        tokens_from(s, pos + 2) == prepend_tokens(inner_tokens, tokens_from(s, to)),
        s[to as int] == ')',
    ensures
        tokens_from(s, pos) == prepend_tokens(
            seq![Token::Minus, Token::LBracket] + inner_tokens + seq![Token::RBracket],
            tokens_from(s, to + 1),
        ),
{
    let rest = tokens_from(s, to + 1);
    lemma_lex_symbol(s, pos);
    lemma_lex_symbol(s, pos + 1);
    lemma_lex_symbol(s, to);
    lemma_prepend_twice(inner_tokens, seq![Token::RBracket], rest);
    lemma_prepend_twice(seq![Token::LBracket], inner_tokens + seq![Token::RBracket], rest);
    lemma_prepend_twice(
        seq![Token::Minus],
        seq![Token::LBracket] + (inner_tokens + seq![Token::RBracket]),
        rest,
    );
    assert(seq![Token::Minus] + (seq![Token::LBracket] + (inner_tokens + seq![Token::RBracket]))
        =~= seq![Token::Minus, Token::LBracket] + inner_tokens + seq![Token::RBracket]);
}

/// An operation on two operands is tokenized to `(`, the tokens of the left
/// operand, the operator, the tokens of the right operand, and `)`.
proof fn lemma_lex_binary(
    s: Seq<char>,
    pos: nat,
    op: BinaryOp,
    left_tokens: Seq<Token>,
    left_to: nat,
    right_tokens: Seq<Token>,
    right_to: nat,
)
    requires
        pos < left_to,
        left_to + 3 <= right_to < s.len(),
        s[pos as int] == '(',
        tokens_from(s, pos + 1) == prepend_tokens(left_tokens, tokens_from(s, left_to)),
        s[left_to as int] == ' ',
        s[left_to as int + 1] == op.symbol_char(),
        s[left_to as int + 2] == ' ',
        tokens_from(s, left_to + 3) == prepend_tokens(right_tokens, tokens_from(s, right_to)),
        s[right_to as int] == ')',
    ensures
        tokens_from(s, pos) == prepend_tokens(
            seq![Token::LBracket] + left_tokens + seq![binary_token(op)] + right_tokens + seq![
                Token::RBracket,
            ],
            tokens_from(s, right_to + 1),
        ),
{
    let rest = tokens_from(s, right_to + 1);
    let t4 = right_tokens + seq![Token::RBracket];
    let t3 = seq![binary_token(op)] + t4;
    let t2 = left_tokens + t3;
    assert(symbol_token(s[left_to as int + 1]) == Some(binary_token(op)));
    lemma_lex_symbol(s, pos);
    lemma_lex_space(s, left_to);
    lemma_lex_symbol(s, left_to + 1);
    lemma_lex_space(s, left_to + 2);
    lemma_lex_symbol(s, right_to);
    lemma_prepend_twice(right_tokens, seq![Token::RBracket], rest);
    lemma_prepend_twice(seq![binary_token(op)], t4, rest);
    lemma_prepend_twice(left_tokens, t3, rest);
    lemma_prepend_twice(seq![Token::LBracket], t2, rest);
    assert(seq![Token::LBracket] + t2 =~= seq![Token::LBracket] + left_tokens + seq![
        binary_token(op),
    ] + right_tokens + seq![Token::RBracket]);
}

/// The text of a tree, with no digit behind it, is tokenized to the tokens of
/// the tree, whatever stands before it and behind it.
proof fn lemma_lex_rendering(expr: Expr, s: Seq<char>, pos: nat, end: nat)
    requires
        numbers_fit(expr),
        end == pos + rendering(expr).len(),
        end <= s.len(),
        s.subrange(pos as int, end as int) == rendering(expr),
        end == s.len() || !is_digit(s[end as int]),
    ensures
        tokens_from(s, pos) == prepend_tokens(rendered_tokens(expr), tokens_from(s, end)),
    decreases expr,
{
    match expr {
        Expr::Int(n) => {
            lemma_lex_number(s, pos, n as nat, end);
        },
        Expr::Unary(op, operand) => {
            let to = pos + 2 + rendering(*operand).len();
            lemma_unary_placed(op, *operand, s, pos as int);
            lemma_lex_rendering(*operand, s, pos + 2, to);
            lemma_lex_unary(s, pos, rendered_tokens(*operand), to);
        },
        Expr::Binary(op, lhs, rhs) => {
            let left_to = pos + 1 + rendering(*lhs).len();
            let right_to = left_to + 3 + rendering(*rhs).len();
            lemma_binary_placed(op, *lhs, *rhs, s, pos as int);
            lemma_lex_rendering(*lhs, s, pos + 1, left_to);
            lemma_lex_rendering(*rhs, s, left_to + 3, right_to);
            lemma_lex_binary(
                s,
                pos,
                op,
                rendered_tokens(*lhs),
                left_to,
                rendered_tokens(*rhs),
                right_to,
            );
        },
    }
}

/// Where the tokens of a negation stand in `tokens` from `pos` on, `-` and
/// `(` stand at `pos`, then the tokens of the operand, then `)`.
proof fn lemma_unary_tokens_placed(op: UnaryOp, operand: Expr, tokens: Seq<Token>, pos: nat)
    requires
        pos + rendered_tokens(Expr::Unary(op, Box::new(operand))).len() <= tokens.len(),
        tokens.subrange(
            pos as int,
            pos as int + rendered_tokens(Expr::Unary(op, Box::new(operand))).len(),
        ) == rendered_tokens(Expr::Unary(op, Box::new(operand))),
    ensures
        ({
            let inner = rendered_tokens(operand);
            &&& rendered_tokens(Expr::Unary(op, Box::new(operand))).len() == inner.len() + 3
            &&& token_at(tokens, pos) == Some(Token::Minus)
            &&& token_at(tokens, pos + 1) == Some(Token::LBracket)
            &&& tokens.subrange(pos as int + 2, pos as int + 2 + inner.len()) == inner
            &&& token_at(tokens, pos + 2 + inner.len()) == Some(Token::RBracket)
        }),
{
    let part = rendered_tokens(Expr::Unary(op, Box::new(operand)));
    let inner = rendered_tokens(operand);
    let p = pos as int;
    let to = 2 + inner.len() as int;
    assert(part.subrange(2, to) =~= inner);
    lemma_embedded(tokens, p, part, 0, 0);
    lemma_embedded(tokens, p, part, 1, 1);
    lemma_embedded(tokens, p, part, 2, to);
    lemma_embedded(tokens, p, part, to, to);
}

/// Where the tokens of an operation on two operands stand in `tokens` from
/// `pos` on, `(` stands at `pos`, then the tokens of the left operand, the
/// operator, the tokens of the right operand, and `)`.
proof fn lemma_binary_tokens_placed(
    op: BinaryOp,
    lhs: Expr,
    rhs: Expr,
    tokens: Seq<Token>,
    pos: nat,
)
    requires
        pos + rendered_tokens(Expr::Binary(op, Box::new(lhs), Box::new(rhs))).len() <= tokens.len(),
        tokens.subrange(
            pos as int,
            pos as int + rendered_tokens(Expr::Binary(op, Box::new(lhs), Box::new(rhs))).len(),
        ) == rendered_tokens(Expr::Binary(op, Box::new(lhs), Box::new(rhs))),
    ensures
        ({
            let left = rendered_tokens(lhs);
            let right = rendered_tokens(rhs);
            let mid = pos + 1 + left.len();
            &&& rendered_tokens(Expr::Binary(op, Box::new(lhs), Box::new(rhs))).len() == left.len()
                + right.len() + 3
            &&& token_at(tokens, pos) == Some(Token::LBracket)
            &&& tokens.subrange(pos as int + 1, mid as int) == left
            &&& token_at(tokens, mid) == Some(binary_token(op))
            &&& tokens.subrange(mid as int + 1, mid as int + 1 + right.len()) == right
            &&& token_at(tokens, mid + 1 + right.len()) == Some(Token::RBracket)
        }),
{
    let part = rendered_tokens(Expr::Binary(op, Box::new(lhs), Box::new(rhs)));
    let left = rendered_tokens(lhs);
    let right = rendered_tokens(rhs);
    let p = pos as int;
    let mid = 1 + left.len() as int;
    let to = mid + 1 + right.len() as int;
    assert(part.subrange(1, mid) =~= left);
    assert(part.subrange(mid + 1, to) =~= right);
    lemma_embedded(tokens, p, part, 0, 0);
    lemma_embedded(tokens, p, part, 1, mid);
    lemma_embedded(tokens, p, part, mid, mid);
    lemma_embedded(tokens, p, part, mid + 1, to);
    lemma_embedded(tokens, p, part, to, to);
}

/// A factor behind which no operator stands is a term and an expr by itself.
proof fn lemma_factor_alone(tokens: Seq<Token>, pos: nat, expr: Expr, consumed: nat)
    requires
        factor_at(tokens, pos) == Ok::<(Expr, nat), ParseError>((expr, consumed)),
        multiplicative_op(token_at(tokens, pos + consumed)) is None,
        additive_op(token_at(tokens, pos + consumed)) is None,
    ensures
        term_at(tokens, pos) == Ok::<(Expr, nat), ParseError>((expr, consumed)),
        expr_at(tokens, pos) == Ok::<(Expr, nat), ParseError>((expr, consumed)),
{
    assert(term_rest_at(tokens, pos + consumed, expr) == Ok::<(Expr, nat), ParseError>((expr, 0)));
    assert(expr_rest_at(tokens, pos + consumed, expr) == Ok::<(Expr, nat), ParseError>((expr, 0)));
}

/// Two factors with an operator between them and a closing bracket behind
/// them are the expr of that operation.
proof fn lemma_parse_operation(
    tokens: Seq<Token>,
    pos: nat,
    op: BinaryOp,
    lhs: Expr,
    left: nat,
    rhs: Expr,
    right: nat,
)
    requires
        factor_at(tokens, pos) == Ok::<(Expr, nat), ParseError>((lhs, left)),
        token_at(tokens, pos + left) == Some(binary_token(op)),
        factor_at(tokens, pos + left + 1) == Ok::<(Expr, nat), ParseError>((rhs, right)),
        token_at(tokens, pos + left + 1 + right) == Some(Token::RBracket),
    ensures
        expr_at(tokens, pos) == Ok::<(Expr, nat), ParseError>(
            (Expr::Binary(op, Box::new(lhs), Box::new(rhs)), left + 1 + right),
        ),
{
    let whole = Expr::Binary(op, Box::new(lhs), Box::new(rhs));
    let end = pos + left + 1 + right;
    let done = Ok::<(Expr, nat), ParseError>((whole, 0));
    assert(term_rest_at(tokens, end, whole) == done);
    assert(expr_rest_at(tokens, end, whole) == done);
    if op == BinaryOp::Mul || op == BinaryOp::Div {
        assert(multiplicative_op(token_at(tokens, pos + left)) == Some(op));
        assert(term_rest_at(tokens, pos + left, lhs) == after(1 + right, done));
        assert(term_at(tokens, pos) == after(left, after(1 + right, done)));
        assert(expr_at(tokens, pos) == after(left + 1 + right, done));
    } else {
        assert(multiplicative_op(token_at(tokens, pos + left)) is None);
        assert(additive_op(token_at(tokens, pos + left)) == Some(op));
        assert(term_at(tokens, pos) == Ok::<(Expr, nat), ParseError>((lhs, left)));
        assert(term_rest_at(tokens, end, rhs) == Ok::<(Expr, nat), ParseError>((rhs, 0)));
        assert(term_at(tokens, pos + left + 1) == Ok::<(Expr, nat), ParseError>((rhs, right)));
        assert(expr_rest_at(tokens, pos + left, lhs) == after(1 + right, done));
        assert(expr_at(tokens, pos) == after(left, after(1 + right, done)));
    }
}

/// `-`, `(`, a factor with no operator behind it, and `)` are the factor of
/// the negation.
proof fn lemma_parse_negation(tokens: Seq<Token>, pos: nat, operand: Expr, inner: nat)
    requires
        token_at(tokens, pos) == Some(Token::Minus),
        token_at(tokens, pos + 1) == Some(Token::LBracket),
        factor_at(tokens, pos + 2) == Ok::<(Expr, nat), ParseError>((operand, inner)),
        token_at(tokens, pos + 2 + inner) == Some(Token::RBracket),
    ensures
        factor_at(tokens, pos) == Ok::<(Expr, nat), ParseError>(
            (Expr::Unary(UnaryOp::Neg, Box::new(operand)), inner + 3),
        ),
{
    lemma_factor_alone(tokens, pos + 2, operand, inner);
    assert(factor_at(tokens, pos + 1) == Ok::<(Expr, nat), ParseError>((operand, inner + 2)));
}

/// `(`, two factors with an operator between them, and `)` are the factor of
/// that operation.
proof fn lemma_parse_bracketed(
    tokens: Seq<Token>,
    pos: nat,
    op: BinaryOp,
    lhs: Expr,
    left: nat,
    rhs: Expr,
    right: nat,
)
    requires
        token_at(tokens, pos) == Some(Token::LBracket),
        factor_at(tokens, pos + 1) == Ok::<(Expr, nat), ParseError>((lhs, left)),
        token_at(tokens, pos + 1 + left) == Some(binary_token(op)),
        factor_at(tokens, pos + 2 + left) == Ok::<(Expr, nat), ParseError>((rhs, right)),
        token_at(tokens, pos + 2 + left + right) == Some(Token::RBracket),
    ensures
        factor_at(tokens, pos) == Ok::<(Expr, nat), ParseError>(
            (Expr::Binary(op, Box::new(lhs), Box::new(rhs)), left + right + 3),
        ),
{
    lemma_parse_operation(tokens, pos + 1, op, lhs, left, rhs, right);
}

/// The tokens of a tree are parsed as a factor, and the factor is the tree.
proof fn lemma_parse_rendered(expr: Expr, tokens: Seq<Token>, pos: nat)
    requires
        numbers_fit(expr),
        pos + rendered_tokens(expr).len() <= tokens.len(),
        tokens.subrange(pos as int, pos as int + rendered_tokens(expr).len()) == rendered_tokens(
            expr,
        ),
    ensures
        factor_at(tokens, pos) == Ok::<(Expr, nat), ParseError>(
            (expr, rendered_tokens(expr).len()),
        ),
    decreases expr,
{
    match expr {
        Expr::Int(n) => {
            lemma_embedded(tokens, pos as int, rendered_tokens(expr), 0, 0);
            assert(token_at(tokens, pos) == Some(Token::Num { value: n as u32 }));
        },
        Expr::Unary(op, operand) => {
            lemma_unary_tokens_placed(op, *operand, tokens, pos);
            lemma_parse_rendered(*operand, tokens, pos + 2);
            lemma_parse_negation(tokens, pos, *operand, rendered_tokens(*operand).len());
        },
        Expr::Binary(op, lhs, rhs) => {
            let left = rendered_tokens(*lhs).len();
            let right = rendered_tokens(*rhs).len();
            lemma_binary_tokens_placed(op, *lhs, *rhs, tokens, pos);
            lemma_parse_rendered(*lhs, tokens, pos + 1);
            lemma_parse_rendered(*rhs, tokens, pos + 2 + left);
            lemma_parse_bracketed(tokens, pos, op, *lhs, left, *rhs, right);
        },
    }
}

/// The numbers in the tree of a factor fit.
proof fn lemma_factor_numbers_fit(tokens: Seq<Token>, pos: nat)
    ensures
        factor_at(tokens, pos) matches Ok((expr, _)) ==> numbers_fit(expr),
    decreases remaining(tokens, pos), 0nat,
{
    match token_at(tokens, pos) {
        Some(Token::Minus) => {
            lemma_factor_numbers_fit(tokens, pos + 1);
        },
        Some(Token::LBracket) => {
            lemma_expr_numbers_fit(tokens, pos + 1);
        },
        _ => {},
    }
}

/// Folding factors into a tree whose numbers fit gives such a tree.
proof fn lemma_term_rest_numbers_fit(tokens: Seq<Token>, pos: nat, lhs: Expr)
    requires
        numbers_fit(lhs),
    ensures
        term_rest_at(tokens, pos, lhs) matches Ok((expr, _)) ==> numbers_fit(expr),
    decreases remaining(tokens, pos), 1nat,
{
    if let Some(op) = multiplicative_op(token_at(tokens, pos)) {
        lemma_factor_numbers_fit(tokens, pos + 1);
        if let Ok((rhs, consumed)) = factor_at(tokens, pos + 1) {
            lemma_term_rest_numbers_fit(
                tokens,
                pos + 1 + consumed,
                Expr::Binary(op, Box::new(lhs), Box::new(rhs)),
            );
        }
    }
}

/// The numbers in the tree of a term fit.
proof fn lemma_term_numbers_fit(tokens: Seq<Token>, pos: nat)
    ensures
        term_at(tokens, pos) matches Ok((expr, _)) ==> numbers_fit(expr),
    decreases remaining(tokens, pos), 2nat,
{
    lemma_factor_numbers_fit(tokens, pos);
    if let Ok((lhs, consumed)) = factor_at(tokens, pos) {
        lemma_term_rest_numbers_fit(tokens, pos + consumed, lhs);
    }
}

/// Folding terms into a tree whose numbers fit gives such a tree.
proof fn lemma_expr_rest_numbers_fit(tokens: Seq<Token>, pos: nat, lhs: Expr)
    requires
        numbers_fit(lhs),
    ensures
        expr_rest_at(tokens, pos, lhs) matches Ok((expr, _)) ==> numbers_fit(expr),
    decreases remaining(tokens, pos), 3nat,
{
    if let Some(op) = additive_op(token_at(tokens, pos)) {
        lemma_term_numbers_fit(tokens, pos + 1);
        if let Ok((rhs, consumed)) = term_at(tokens, pos + 1) {
            lemma_expr_rest_numbers_fit(
                tokens,
                pos + 1 + consumed,
                Expr::Binary(op, Box::new(lhs), Box::new(rhs)),
            );
        }
    }
}

/// The numbers in the tree of an expr fit.
proof fn lemma_expr_numbers_fit(tokens: Seq<Token>, pos: nat)
    ensures
        expr_at(tokens, pos) matches Ok((expr, _)) ==> numbers_fit(expr),
    decreases remaining(tokens, pos), 4nat,
{
    lemma_term_numbers_fit(tokens, pos);
    if let Ok((lhs, consumed)) = term_at(tokens, pos) {
        lemma_expr_rest_numbers_fit(tokens, pos + consumed, lhs);
    }
}

/// Every number in a tree that the parser builds is one that a token can hold.
pub proof fn lemma_parsed_numbers_fit(tokens: Seq<Token>)
    ensures
        parse_of(tokens) matches Ok(expr) ==> numbers_fit(expr),
{
    lemma_expr_numbers_fit(tokens, 0);
}

/// The text of a tree whose numbers a token can hold is tokenized to the
/// tokens of the tree, and these are parsed to the tree itself.
pub proof fn lemma_text_leads_back(expr: Expr)
    requires
        numbers_fit(expr),
    ensures
        tokens_of(rendering(expr)) == Ok::<Seq<Token>, LexError>(rendered_tokens(expr)),
        parse_of(rendered_tokens(expr)) == Ok::<Expr, ParseError>(expr),
{
    let text = rendering(expr);
    let tokens = rendered_tokens(expr);
    assert(text.subrange(0, text.len() as int) =~= text);
    lemma_lex_rendering(expr, text, 0, text.len());
    lemma_no_token_at_end(text);
    assert(tokens + Seq::<Token>::empty() =~= tokens);
    assert(tokens.subrange(0, tokens.len() as int) =~= tokens);
    lemma_parse_rendered(expr, tokens, 0);
    lemma_factor_alone(tokens, 0, expr, tokens.len());
}

/// Writing out a tree that the parser built, tokenizing the text and parsing
/// the tokens gives the same tree again, and with it the same value or the
/// same failure of the evaluator.
pub proof fn lemma_render_round_trip(tokens: Seq<Token>, expr: Expr)
    requires
        parse_of(tokens) == Ok::<Expr, ParseError>(expr),
    ensures
        tokens_of(rendering(expr)) is Ok,
        parse_of(tokens_of(rendering(expr))->Ok_0) == Ok::<Expr, ParseError>(expr),
        calculation(rendering(expr)) == evaluation(expr),
{
    lemma_parsed_numbers_fit(tokens);
    lemma_text_leads_back(expr);
}

} // verus!
